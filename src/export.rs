use vstd::prelude::*;
use crate::bytes::{padded, push_all, push_padded};
use crate::tidbtypes::TableInfo;

verus! {

/// One mebibyte.
pub const MIB: usize = 1024 * 1024;

/// State of the output sink: where its files go, their size budget, the file being
/// written and how many bytes it holds. Opening and writing the files is the
/// caller's part; this type decides when to rotate and what each file is called.
pub struct FileWriteWrap {
    pub file_stem: Vec<u8>,
    pub extension: Option<Vec<u8>>,
    pub maximum_file_size: usize,
    pub cur_file_num: u32,
    pub is_gzip: bool,
    pub is_need_flush: bool,
    /// Bytes written to the current file.
    pub written: usize,
}

/// Name of output file `num`: the stem, then `.` and the number on nine digits when
/// files rotate (`num > 0`), then `.` and the extension if any, then `.gz` when
/// compressed.
pub open spec fn file_name_of(stem: Seq<u8>, ext: Option<Seq<u8>>, num: nat, gz: bool) -> Seq<u8> {
    let numbered = if num > 0 {
        stem + seq![0x2eu8] + padded(num, 9)
    } else {
        stem
    };
    let with_ext = match ext {
        Some(e) => numbered + seq![0x2eu8] + e,
        None => numbered,
    };
    if gz {
        with_ext + seq![0x2eu8, 0x67u8, 0x7au8]
    } else {
        with_ext
    }
}

/// The sink after a flush of `n` bytes: rotated to the next file first when the
/// current one is past its budget, then `n` bytes more (counted up to the largest
/// `usize`).
pub open spec fn flushed(before: FileWriteWrap, after: FileWriteWrap, n: nat, rotated: bool) -> bool {
    let exceeded = before.maximum_file_size > 0 && before.written > before.maximum_file_size;
    let base: nat = if exceeded { 0 } else { before.written as nat };
    &&& rotated == exceeded
    &&& after.cur_file_num == if exceeded { before.cur_file_num + 1 } else { before.cur_file_num as int }
    &&& after.written == if base + n > usize::MAX { usize::MAX as nat } else { base + n }
    &&& after.maximum_file_size == before.maximum_file_size
    &&& after.file_stem@ == before.file_stem@
    &&& after.is_gzip == before.is_gzip
}

impl FileWriteWrap {
    /// Whether the current file holds at most the budget plus `b` bytes (always, when
    /// files do not rotate).
    pub open spec fn within(&self, b: nat) -> bool {
        self.maximum_file_size == 0 || self.written <= self.maximum_file_size + b
    }

    /// A sink whose first file is numbered 1 when files rotate (`maximum_file_size > 0`),
    /// else unnumbered.
    pub fn new(file_stem: Vec<u8>, extension: Option<Vec<u8>>, maximum_file_size: usize, is_gzip: bool) -> (r: FileWriteWrap)
        ensures
            r.file_stem@ == file_stem@,
            r.extension == extension,
            r.maximum_file_size == maximum_file_size,
            r.cur_file_num == if maximum_file_size > 0 { 1u32 } else { 0u32 },
            r.is_gzip == is_gzip,
            !r.is_need_flush,
            r.written == 0,
    {
        let cur_file_num: u32 = if maximum_file_size > 0 { 1 } else { 0 };
        FileWriteWrap { file_stem, extension, maximum_file_size, cur_file_num, is_gzip, is_need_flush: false, written: 0 }
    }

    /// Name of the current file.
    pub fn file_name(&self) -> (r: Vec<u8>)
        ensures
            r@ == file_name_of(
                self.file_stem@,
                crate::writeref::opt_view(self.extension),
                self.cur_file_num as nat,
                self.is_gzip,
            ),
    {
        let mut out: Vec<u8> = Vec::new();
        push_all(&mut out, self.file_stem.as_slice());
        if self.cur_file_num > 0 {
            out.push(0x2e);
            push_padded(&mut out, self.cur_file_num as u64, 9);
        }
        match &self.extension {
            Some(e) => {
                out.push(0x2e);
                push_all(&mut out, e.as_slice());
            },
            None => {},
        }
        if self.is_gzip {
            out.push(0x2e);
            out.push(0x67);
            out.push(0x7a);
        }
        assert(out@ =~= file_name_of(
            self.file_stem@,
            crate::writeref::opt_view(self.extension),
            self.cur_file_num as nat,
            self.is_gzip,
        ));
        out
    }

    pub fn is_need_flush(&self) -> (r: bool)
        ensures
            r == self.is_need_flush,
    {
        self.is_need_flush
    }

    pub fn maximum_file_size(&self) -> (r: usize)
        ensures
            r == self.maximum_file_size,
    {
        self.maximum_file_size
    }

    /// Whether files rotate and the current one is past its budget.
    pub fn is_exceed_file_size(&self) -> (r: bool)
        ensures
            r == (self.maximum_file_size > 0 && self.written > self.maximum_file_size),
    {
        self.maximum_file_size > 0 && self.written > self.maximum_file_size
    }

    /// Moves on to the next file, empty.
    pub fn generate_next_file(&mut self)
        requires
            old(self).cur_file_num < u32::MAX,
        ensures
            final(self).cur_file_num == old(self).cur_file_num + 1,
            final(self).written == 0,
            !final(self).is_need_flush,
            final(self).maximum_file_size == old(self).maximum_file_size,
            final(self).file_stem@ == old(self).file_stem@,
            final(self).extension == old(self).extension,
            final(self).is_gzip == old(self).is_gzip,
    {
        self.cur_file_num = self.cur_file_num + 1;
        self.written = 0;
        self.is_need_flush = false;
    }

    /// Counts `n` more bytes in the current file and notes when it passes its budget.
    pub fn record_written(&mut self, n: usize)
        ensures
            final(self).written == if old(self).written + n > usize::MAX { usize::MAX as int } else { old(self).written + n },
            final(self).is_need_flush == (old(self).is_need_flush || (final(self).maximum_file_size > 0
                && final(self).written > final(self).maximum_file_size)),
            final(self).cur_file_num == old(self).cur_file_num,
            final(self).maximum_file_size == old(self).maximum_file_size,
            final(self).file_stem@ == old(self).file_stem@,
            final(self).extension == old(self).extension,
            final(self).is_gzip == old(self).is_gzip,
    {
        self.written = if n > usize::MAX - self.written { usize::MAX } else { self.written + n };
        if self.maximum_file_size > 0 && self.written > self.maximum_file_size {
            self.is_need_flush = true;
        }
    }

    /// Prepares and counts a flush of `n` bytes: rotates to the next file first when
    /// the current one is past its budget. Returns whether it rotated; the caller
    /// then opens the file `file_name` names and writes the bytes to it.
    pub fn flush_batch(&mut self, n: usize) -> (rotated: bool)
        requires
            old(self).cur_file_num < u32::MAX,
        ensures
            flushed(*old(self), *final(self), n as nat, rotated),
            final(self).extension == old(self).extension,
    {
        let rotated = self.is_exceed_file_size();
        if rotated {
            self.generate_next_file();
        }
        self.record_written(n);
        rotated
    }
}

/// A sink within budget that flushes at most `b` bytes closes, when it rotates,
/// a file of at most its budget plus `b` bytes, and stays within budget.
pub proof fn lemma_rotation_bound(before: FileWriteWrap, after: FileWriteWrap, n: nat, b: nat, rotated: bool)
    requires
        before.within(b),
        n <= b,
        flushed(before, after, n, rotated),
    ensures
        rotated ==> before.written <= before.maximum_file_size + b,
        after.within(b),
{
}

/// Settings of a CSV export of one table: the table, its sink, how many formatter
/// workers run, and whether failures dump the offending data.
pub struct CsvExporter {
    pub table_info: TableInfo,
    pub fw: FileWriteWrap,
    pub thread_num: usize,
    pub is_debug_mode: bool,
}

/// Size budget in bytes of a budget in mebibytes, capped at the largest `usize`.
pub open spec fn budget_bytes(mb: usize) -> nat {
    if mb * MIB > usize::MAX {
        usize::MAX as nat
    } else {
        (mb * MIB) as nat
    }
}

/// Builds the sink of an export with a budget in mebibytes (0: no rotation).
pub fn create_file_write_wrap(file_stem: Vec<u8>, extension: Option<Vec<u8>>, maximum_file_size_mb: usize, is_gzip: bool) -> (r: FileWriteWrap)
    ensures
        r.file_stem@ == file_stem@,
        r.extension == extension,
        r.maximum_file_size as nat == budget_bytes(maximum_file_size_mb),
        r.cur_file_num == if maximum_file_size_mb > 0 { 1u32 } else { 0u32 },
        r.is_gzip == is_gzip,
        r.written == 0,
{
    let size: usize = if maximum_file_size_mb > usize::MAX / MIB { usize::MAX } else { maximum_file_size_mb * MIB };
    proof {
        if maximum_file_size_mb > usize::MAX / MIB {
            assert(maximum_file_size_mb * MIB > usize::MAX) by (nonlinear_arith)
                requires maximum_file_size_mb > usize::MAX / MIB, MIB > 0;
        } else {
            assert(maximum_file_size_mb * MIB <= usize::MAX) by (nonlinear_arith)
                requires maximum_file_size_mb <= usize::MAX / MIB, MIB > 0;
        }
        if maximum_file_size_mb > 0 {
            assert(maximum_file_size_mb * MIB > 0) by (nonlinear_arith)
                requires maximum_file_size_mb > 0, MIB > 0;
        }
    }
    FileWriteWrap::new(file_stem, extension, size, is_gzip)
}

impl CsvExporter {
    /// An export of a table with three workers and no debug dumps.
    pub fn new(table_info: TableInfo, file_stem: Vec<u8>, extension: Option<Vec<u8>>, maximum_file_size_mb: usize, is_gzip: bool) -> (r: CsvExporter)
        ensures
            r.table_info == table_info,
            r.fw.file_stem@ == file_stem@,
            r.fw.maximum_file_size as nat == budget_bytes(maximum_file_size_mb),
            r.fw.is_gzip == is_gzip,
            r.fw.written == 0,
            r.thread_num == 3,
            !r.is_debug_mode,
    {
        let fw = create_file_write_wrap(file_stem, extension, maximum_file_size_mb, is_gzip);
        CsvExporter { table_info, fw, thread_num: 3, is_debug_mode: false }
    }

    /// Sets the number of workers; 0 leaves it as it is.
    pub fn set_thread_num(&mut self, num: usize)
        ensures
            final(self).thread_num == if num > 0 { num } else { old(self).thread_num },
            final(self).table_info == old(self).table_info,
            final(self).is_debug_mode == old(self).is_debug_mode,
    {
        if num > 0 {
            self.thread_num = num;
        }
    }

    pub fn set_debug_mode(&mut self, is_debug: bool)
        ensures
            final(self).is_debug_mode == is_debug,
            final(self).thread_num == old(self).thread_num,
            final(self).table_info == old(self).table_info,
    {
        self.is_debug_mode = is_debug;
    }
}

} // verus!
