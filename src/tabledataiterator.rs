use vstd::prelude::*;
use crate::errors::{Error, error_bytes};
use crate::keycodec::{append_ts, decode_int_handle, decode_store_key, parse_store_key, row_key_handle, ts_suffix, copy_bytes};
use crate::writeref::{WriteRef, WriteType};
use crate::tidbtypes::TableInfo;
use crate::datum::RowData;

verus! {

/// An entry of the `default` column family: a row body stored apart from its
/// `write` record. `key` is the user key followed by the timestamp suffix.
#[derive(Debug)]
pub struct DefaultEntry {
    pub handle: i64,
    pub ts: u64,
    pub key: Vec<u8>,
    pub value: Vec<u8>,
}

/// An entry of the `write` column family, with its commit timestamp and decoded record.
#[derive(Debug)]
pub struct WriteEntry {
    pub handle: i64,
    pub ts: u64,
    pub key: Vec<u8>,
    pub write: WriteRef,
}

/// A version of a row that may be emitted: handle, commit timestamp, key, row-v2 value.
pub struct Cand {
    pub handle: i64,
    pub ts: u64,
    pub key: Seq<u8>,
    pub value: Seq<u8>,
}

/// Keeps the newer of two versions; on equal timestamps the one kept first stays.
pub open spec fn pick(cur: Option<Cand>, c: Cand) -> Option<Cand> {
    match cur {
        None => Some(c),
        Some(k) => if c.ts > k.ts {
            Some(c)
        } else {
            cur
        },
    }
}

/// The newest version among `default` entries.
pub open spec fn default_best(s: Seq<DefaultEntry>) -> Option<Cand>
    decreases s.len(),
{
    if s.len() == 0 {
        None
    } else {
        pick(default_best(s.drop_last()), Cand { handle: s.last().handle, ts: s.last().ts, key: s.last().key@, value: s.last().value@ })
    }
}

/// Whether a `write` entry is a put that carries its row body.
pub open spec fn is_inline_put(e: WriteEntry) -> bool {
    e.write.write_type == WriteType::Put && e.write.short_value is Some
}

/// The newest version among `cur` and the inline puts of `write` entries.
pub open spec fn write_best(cur: Option<Cand>, s: Seq<WriteEntry>) -> Option<Cand>
    decreases s.len(),
{
    if s.len() == 0 {
        cur
    } else {
        let prev = write_best(cur, s.drop_last());
        let e = s.last();
        if is_inline_put(e) {
            pick(prev, Cand { handle: e.handle, ts: e.ts, key: e.key@, value: e.write.short_value->0@ })
        } else {
            prev
        }
    }
}

/// The greatest start timestamp of the deletes among `write` entries; 0 when there is none.
pub open spec fn delete_ts(s: Seq<WriteEntry>) -> u64
    decreases s.len(),
{
    if s.len() == 0 {
        0
    } else {
        let m = delete_ts(s.drop_last());
        let e = s.last();
        if e.write.write_type == WriteType::Delete && e.write.start_ts > m {
            e.write.start_ts
        } else {
            m
        }
    }
}

/// The row that the entries of one handle yield: the newest version, unless a
/// delete started at or after its commit.
pub open spec fn run_row(d: Seq<DefaultEntry>, w: Seq<WriteEntry>) -> Option<Cand> {
    match write_best(default_best(d), w) {
        None => None,
        Some(c) => if delete_ts(w) >= c.ts {
            None
        } else {
            Some(c)
        },
    }
}

/// Number of leading `default` entries with handle `h`.
pub open spec fn lead_d(s: Seq<DefaultEntry>, h: i64) -> nat
    decreases s.len(),
{
    if s.len() > 0 && s[0].handle == h {
        1 + lead_d(s.drop_first(), h)
    } else {
        0
    }
}

/// Number of leading `write` entries with handle `h`.
pub open spec fn lead_w(s: Seq<WriteEntry>, h: i64) -> nat
    decreases s.len(),
{
    if s.len() > 0 && s[0].handle == h {
        1 + lead_w(s.drop_first(), h)
    } else {
        0
    }
}

/// The handle whose entries come next: the smaller of the two leading handles.
pub open spec fn next_handle(d: Seq<DefaultEntry>, w: Seq<WriteEntry>) -> i64 {
    if d.len() == 0 {
        w[0].handle
    } else if w.len() == 0 {
        d[0].handle
    } else if d[0].handle <= w[0].handle {
        d[0].handle
    } else {
        w[0].handle
    }
}

/// The rows that the engine emits from the two entry sequences, handle by handle,
/// each handle taking its leading entries from both.
pub open spec fn rows(d: Seq<DefaultEntry>, w: Seq<WriteEntry>) -> Seq<Cand>
    decreases d.len() + w.len(),
{
    if d.len() == 0 && w.len() == 0 {
        Seq::empty()
    } else {
        let h = next_handle(d, w);
        let nd = lead_d(d, h);
        let nw = lead_w(w, h);
        if nd + nw == 0 || nd > d.len() || nw > w.len() {
            Seq::empty()
        } else {
            let rest = rows(d.subrange(nd as int, d.len() as int), w.subrange(nw as int, w.len() as int));
            match run_row(d.subrange(0, nd as int), w.subrange(0, nw as int)) {
                Some(c) => seq![c] + rest,
                None => rest,
            }
        }
    }
}

/// Whether a `write` entry is a put.
pub open spec fn is_put(e: WriteEntry) -> bool {
    e.write.write_type == WriteType::Put
}

/// Whether a `write` entry is a delete.
pub open spec fn is_delete(e: WriteEntry) -> bool {
    e.write.write_type == WriteType::Delete
}

/// Whether handle `h` has a put that every delete of `h` started before: its
/// latest delete started before its latest put committed, or it has no delete.
pub open spec fn visible(w: Seq<WriteEntry>, h: i64) -> bool {
    exists|j: int| 0 <= j < w.len() && #[trigger] live_put(w, h, j)
}

/// Whether entry `j` is a put of handle `h` that every delete of `h` started before.
pub open spec fn live_put(w: Seq<WriteEntry>, h: i64, j: int) -> bool {
    w[j].handle == h && is_put(w[j]) && deletes_before(w, h, w[j].ts)
}

/// Whether every delete of handle `h` started before `ts`.
pub open spec fn deletes_before(w: Seq<WriteEntry>, h: i64, ts: u64) -> bool {
    forall|k: int| 0 <= k < w.len() && (#[trigger] w[k]).handle == h && is_delete(w[k]) ==> w[k].write.start_ts < ts
}

/// Entries come in ascending handle order.
pub open spec fn sorted_defaults(d: Seq<DefaultEntry>) -> bool {
    forall|i: int, j: int| 0 <= i <= j < d.len() ==> (#[trigger] d[i]).handle <= (#[trigger] d[j]).handle
}

/// Entries come in ascending handle order.
pub open spec fn sorted_writes(w: Seq<WriteEntry>) -> bool {
    forall|i: int, j: int| 0 <= i <= j < w.len() ==> (#[trigger] w[i]).handle <= (#[trigger] w[j]).handle
}

/// Each `default` entry is the body of a put without inline body of the same
/// handle and commit timestamp, and each such put has its `default` entry.
pub open spec fn bodies_paired(d: Seq<DefaultEntry>, w: Seq<WriteEntry>) -> bool {
    &&& forall|i: int| 0 <= i < d.len() ==> #[trigger] has_put_for(w, d[i])
    &&& forall|j: int| 0 <= j < w.len() && is_put(w[j]) && w[j].write.short_value is None ==> #[trigger] has_body_for(d, w[j])
}

/// Whether some `write` entry is the put whose body `e` is.
pub open spec fn has_put_for(w: Seq<WriteEntry>, e: DefaultEntry) -> bool {
    exists|j: int| 0 <= j < w.len() && #[trigger] paired(e, w[j])
}

/// Whether some `default` entry is the body of put `x`.
pub open spec fn has_body_for(d: Seq<DefaultEntry>, x: WriteEntry) -> bool {
    exists|i: int| 0 <= i < d.len() && #[trigger] paired(d[i], x)
}

/// A `default` entry and the put it is the body of.
pub open spec fn paired(e: DefaultEntry, x: WriteEntry) -> bool {
    e.handle == x.handle && e.ts == x.ts && is_put(x) && x.write.short_value is None
}

/// Every put commits after timestamp 0.
pub open spec fn puts_after_zero(w: Seq<WriteEntry>) -> bool {
    forall|j: int| 0 <= j < w.len() && is_put(#[trigger] w[j]) ==> w[j].ts > 0
}

/// The version kept among `default` entries is one of them, and none is newer.
proof fn lemma_default_best(s: Seq<DefaultEntry>)
    ensures
        default_best(s) is Some <==> s.len() > 0,
        default_best(s) matches Some(c) ==> exists|i: int| 0 <= i < s.len() && c.handle == (#[trigger] s[i]).handle && c.ts == s[i].ts && c.key == s[i].key@ && c.value == s[i].value@,
        default_best(s) matches Some(c) ==> forall|i: int| 0 <= i < s.len() ==> (#[trigger] s[i]).ts <= c.ts,
    decreases s.len(),
{
    if s.len() > 0 {
        let p = s.drop_last();
        lemma_default_best(p);
        assert forall|i: int| 0 <= i < p.len() implies p[i] == s[i] by {}
        let c = default_best(s)->0;
        if default_best(p) is Some && c == default_best(p)->0 {
            let i0 = choose|i: int| 0 <= i < p.len() && default_best(p)->0.handle == (#[trigger] p[i]).handle && default_best(p)->0.ts == p[i].ts && default_best(p)->0.key == p[i].key@ && default_best(p)->0.value == p[i].value@;
            assert(c.handle == s[i0].handle);
        } else {
            assert(c.handle == s[s.len() - 1].handle);
        }
    }
}

/// The version kept among `cur` and inline puts is one of them, and none is newer.
proof fn lemma_write_best(cur: Option<Cand>, s: Seq<WriteEntry>)
    ensures
        write_best(cur, s) is Some <==> (cur is Some || exists|j: int| 0 <= j < s.len() && is_inline_put(#[trigger] s[j])),
        write_best(cur, s) matches Some(c) ==> (Some(c) == cur || exists|j: int| 0 <= j < s.len() && is_inline_put(#[trigger] s[j]) && c.handle == s[j].handle && c.ts == s[j].ts),
        write_best(cur, s) matches Some(c) ==> (cur matches Some(k) ==> k.ts <= c.ts),
        write_best(cur, s) matches Some(c) ==> forall|j: int| 0 <= j < s.len() && is_inline_put(#[trigger] s[j]) ==> s[j].ts <= c.ts,
    decreases s.len(),
{
    if s.len() > 0 {
        let p = s.drop_last();
        lemma_write_best(cur, p);
        assert forall|j: int| 0 <= j < p.len() implies p[j] == s[j] by {}
        let r = write_best(cur, s);
        if write_best(cur, p) is Some && r == write_best(cur, p) {
            if Some(r->0) != cur {
                let j0 = choose|j: int| 0 <= j < p.len() && is_inline_put(#[trigger] p[j]) && r->0.handle == p[j].handle && r->0.ts == p[j].ts;
                assert(is_inline_put(s[j0]));
            }
        }
        if is_inline_put(s.last()) {
            assert(is_inline_put(s[s.len() - 1]));
        }
    }
}

/// The greatest start timestamp of deletes bounds each of them, and is 0 or one of them.
proof fn lemma_delete_ts(s: Seq<WriteEntry>)
    ensures
        forall|j: int| 0 <= j < s.len() && is_delete(#[trigger] s[j]) ==> s[j].write.start_ts <= delete_ts(s),
        delete_ts(s) == 0 || exists|j: int| 0 <= j < s.len() && is_delete(#[trigger] s[j]) && s[j].write.start_ts == delete_ts(s),
    decreases s.len(),
{
    if s.len() > 0 {
        let p = s.drop_last();
        lemma_delete_ts(p);
        assert forall|j: int| 0 <= j < p.len() implies p[j] == s[j] by {}
        if delete_ts(s) != delete_ts(p) {
            assert(is_delete(s[s.len() - 1]));
        } else if delete_ts(p) != 0 {
            let j0 = choose|j: int| 0 <= j < p.len() && is_delete(#[trigger] p[j]) && p[j].write.start_ts == delete_ts(p);
            assert(is_delete(s[j0]));
        }
    }
}

/// The leading entries of a handle all have it, and the entry after them does not.
proof fn lemma_lead_d(s: Seq<DefaultEntry>, h: i64)
    ensures
        lead_d(s, h) <= s.len(),
        forall|i: int| 0 <= i < lead_d(s, h) ==> (#[trigger] s[i]).handle == h,
        lead_d(s, h) < s.len() ==> s[lead_d(s, h) as int].handle != h,
    decreases s.len(),
{
    if s.len() > 0 && s[0].handle == h {
        lemma_lead_d(s.drop_first(), h);
        assert forall|i: int| 0 <= i < lead_d(s, h) implies (#[trigger] s[i]).handle == h by {
            if i > 0 {
                assert(s[i] == s.drop_first()[i - 1]);
            }
        }
        if lead_d(s, h) < s.len() {
            assert(s[lead_d(s, h) as int] == s.drop_first()[lead_d(s.drop_first(), h) as int]);
        }
    }
}

/// The leading entries of a handle all have it, and the entry after them does not.
proof fn lemma_lead_w(s: Seq<WriteEntry>, h: i64)
    ensures
        lead_w(s, h) <= s.len(),
        forall|i: int| 0 <= i < lead_w(s, h) ==> (#[trigger] s[i]).handle == h,
        lead_w(s, h) < s.len() ==> s[lead_w(s, h) as int].handle != h,
    decreases s.len(),
{
    if s.len() > 0 && s[0].handle == h {
        lemma_lead_w(s.drop_first(), h);
        assert forall|i: int| 0 <= i < lead_w(s, h) implies (#[trigger] s[i]).handle == h by {
            if i > 0 {
                assert(s[i] == s.drop_first()[i - 1]);
            }
        }
        if lead_w(s, h) < s.len() {
            assert(s[lead_w(s, h) as int] == s.drop_first()[lead_w(s.drop_first(), h) as int]);
        }
    }
}

/// Whether some row of `r` has handle `h`.
pub open spec fn emits(r: Seq<Cand>, h: i64) -> bool {
    exists|k: int| 0 <= k < r.len() && (#[trigger] r[k]).handle == h
}

/// The entries of one handle yield a row exactly when the handle has a put that
/// every delete of it started before; the row has that handle.
proof fn lemma_run_row(dr: Seq<DefaultEntry>, ww: Seq<WriteEntry>, h0: i64)
    requires
        forall|i: int| 0 <= i < dr.len() ==> (#[trigger] dr[i]).handle == h0,
        forall|j: int| 0 <= j < ww.len() ==> (#[trigger] ww[j]).handle == h0,
        bodies_paired(dr, ww),
        puts_after_zero(ww),
    ensures
        run_row(dr, ww) is Some <==> visible(ww, h0),
        run_row(dr, ww) matches Some(c) ==> c.handle == h0,
{
    let db = default_best(dr);
    lemma_default_best(dr);
    lemma_write_best(db, ww);
    lemma_delete_ts(ww);
    let c = write_best(db, ww);
    let del = delete_ts(ww);
    if c is Some {
        let cc = c->0;
        // the kept version is the body of a put of the same timestamp
        let j: int = if Some(cc) == db {
            let i0 = choose|i: int| 0 <= i < dr.len() && cc.handle == (#[trigger] dr[i]).handle && cc.ts == dr[i].ts && cc.key == dr[i].key@ && cc.value == dr[i].value@;
            assert(has_put_for(ww, dr[i0]));
            choose|j: int| 0 <= j < ww.len() && #[trigger] paired(dr[i0], ww[j])
        } else {
            choose|j: int| 0 <= j < ww.len() && is_inline_put(#[trigger] ww[j]) && cc.handle == ww[j].handle && cc.ts == ww[j].ts
        };
        assert(is_put(ww[j]) && ww[j].ts == cc.ts && ww[j].handle == h0);
        assert(cc.handle == h0);
        if del < cc.ts {
            assert(deletes_before(ww, h0, ww[j].ts));
            assert(live_put(ww, h0, j));
            assert(visible(ww, h0));
        }
    }
    if visible(ww, h0) {
        let j = choose|j: int| 0 <= j < ww.len() && #[trigger] live_put(ww, h0, j);
        assert(ww[j].ts > 0);
        if is_inline_put(ww[j]) {
            assert(c is Some);
            assert(ww[j].ts <= c->0.ts);
        } else {
            assert(has_body_for(dr, ww[j]));
            let i0 = choose|i: int| 0 <= i < dr.len() && #[trigger] paired(dr[i], ww[j]);
            assert(db is Some);
            assert(dr[i0].ts <= db->0.ts);
            assert(c is Some);
            assert(ww[j].ts <= c->0.ts);
        }
        if del != 0 {
            let x = choose|x: int| 0 <= x < ww.len() && is_delete(#[trigger] ww[x]) && ww[x].write.start_ts == del;
            assert(ww[x].handle == h0);
            assert(deletes_before(ww, h0, ww[j].ts));
        }
        assert(del < c->0.ts);
    }
}

/// Splitting both sequences after the leading entries of their smallest handle keeps
/// order, pairing and positive commit timestamps in each part.
proof fn lemma_split_keeps_pairs(d: Seq<DefaultEntry>, w: Seq<WriteEntry>, h0: i64, nd: int, nw: int)
    requires
        sorted_defaults(d),
        sorted_writes(w),
        bodies_paired(d, w),
        puts_after_zero(w),
        0 <= nd <= d.len(),
        0 <= nw <= w.len(),
        forall|i: int| 0 <= i < nd ==> (#[trigger] d[i]).handle == h0,
        forall|j: int| 0 <= j < nw ==> (#[trigger] w[j]).handle == h0,
        forall|i: int| nd <= i < d.len() ==> (#[trigger] d[i]).handle > h0,
        forall|j: int| nw <= j < w.len() ==> (#[trigger] w[j]).handle > h0,
    ensures
        sorted_defaults(d.subrange(nd, d.len() as int)),
        sorted_writes(w.subrange(nw, w.len() as int)),
        bodies_paired(d.subrange(nd, d.len() as int), w.subrange(nw, w.len() as int)),
        bodies_paired(d.subrange(0, nd), w.subrange(0, nw)),
        puts_after_zero(w.subrange(nw, w.len() as int)),
        puts_after_zero(w.subrange(0, nw)),
{
        let dr = d.subrange(0, nd);
        let rd = d.subrange(nd, d.len() as int);
        let ww = w.subrange(0, nw);
        let rw = w.subrange(nw, w.len() as int);
        // the run and the rest each keep their bodies paired
        assert forall|i: int| 0 <= i < rd.len() implies #[trigger] has_put_for(rw, rd[i]) by {
            assert(has_put_for(w, d[i + nd]));
            let j = choose|j: int| 0 <= j < w.len() && #[trigger] paired(d[i + nd], w[j]);
            assert(w[j].handle > h0);
            assert(rw[j - nw] == w[j]);
        }
        assert forall|j: int| 0 <= j < rw.len() && is_put(rw[j]) && rw[j].write.short_value is None implies #[trigger] has_body_for(rd, rw[j]) by {
            assert(rw[j] == w[j + nw]);
            assert(has_body_for(d, w[j + nw]));
            let i = choose|i: int| 0 <= i < d.len() && #[trigger] paired(d[i], w[j + nw]);
            assert(d[i].handle > h0);
            assert(rd[i - nd] == d[i]);
        }
        assert forall|i: int| 0 <= i < dr.len() implies #[trigger] has_put_for(ww, dr[i]) by {
            assert(has_put_for(w, d[i]));
            let j = choose|j: int| 0 <= j < w.len() && #[trigger] paired(d[i], w[j]);
            assert(w[j].handle == h0);
            assert(ww[j] == w[j]);
        }
        assert forall|j: int| 0 <= j < ww.len() && is_put(ww[j]) && ww[j].write.short_value is None implies #[trigger] has_body_for(dr, ww[j]) by {
            assert(ww[j] == w[j]);
            assert(has_body_for(d, w[j]));
            let i = choose|i: int| 0 <= i < d.len() && #[trigger] paired(d[i], w[j]);
            assert(d[i].handle == h0);
            assert(dr[i] == d[i]);
        }
        assert(sorted_defaults(rd)) by {
            assert forall|a: int, b: int| 0 <= a <= b < rd.len() implies (#[trigger] rd[a]).handle <= (#[trigger] rd[b]).handle by {
                assert(d[a + nd].handle <= d[b + nd].handle);
            }
        }
        assert(sorted_writes(rw)) by {
            assert forall|a: int, b: int| 0 <= a <= b < rw.len() implies (#[trigger] rw[a]).handle <= (#[trigger] rw[b]).handle by {
                assert(w[a + nw].handle <= w[b + nw].handle);
            }
        }
        assert(puts_after_zero(rw)) by {
            assert forall|j: int| 0 <= j < rw.len() && is_put(#[trigger] rw[j]) implies rw[j].ts > 0 by {
                assert(rw[j] == w[j + nw]);
            }
        }
        assert(puts_after_zero(ww)) by {
            assert forall|j: int| 0 <= j < ww.len() && is_put(#[trigger] ww[j]) implies ww[j].ts > 0 by {
                assert(ww[j] == w[j]);
            }
        }
}

/// Handle `h0`, whose entries lead `w`, is decided by those entries; any other
/// handle by the entries after them.
proof fn lemma_visible_split(w: Seq<WriteEntry>, h0: i64, nw: int)
    requires
        0 <= nw <= w.len(),
        forall|j: int| 0 <= j < nw ==> (#[trigger] w[j]).handle == h0,
        forall|j: int| nw <= j < w.len() ==> (#[trigger] w[j]).handle > h0,
    ensures
        visible(w, h0) <==> visible(w.subrange(0, nw), h0),
        forall|h: i64| h != h0 ==> (visible(w, h) <==> visible(w.subrange(nw, w.len() as int), h)),
{
        let ww = w.subrange(0, nw);
        let rw = w.subrange(nw, w.len() as int);
        if visible(w, h0) {
            let j = choose|j: int| 0 <= j < w.len() && #[trigger] live_put(w, h0, j);
            assert(j < nw);
            assert(ww[j] == w[j]);
            assert forall|k: int| 0 <= k < ww.len() && (#[trigger] ww[k]).handle == h0 && is_delete(ww[k]) implies ww[k].write.start_ts < ww[j].ts by {
                assert(ww[k] == w[k]);
            }
            assert(live_put(ww, h0, j));
        }
        if visible(ww, h0) {
            let j = choose|j: int| 0 <= j < ww.len() && #[trigger] live_put(ww, h0, j);
            assert(ww[j] == w[j]);
            assert forall|k: int| 0 <= k < w.len() && (#[trigger] w[k]).handle == h0 && is_delete(w[k]) implies w[k].write.start_ts < w[j].ts by {
                assert(k < nw);
                assert(ww[k] == w[k]);
            }
            assert(live_put(w, h0, j));
        }
        assert forall|h: i64| h != h0 implies (visible(w, h) <==> visible(rw, h)) by {
            if visible(w, h) {
                let j = choose|j: int| 0 <= j < w.len() && #[trigger] live_put(w, h, j);
                assert(j >= nw);
                assert(rw[j - nw] == w[j]);
                assert forall|k: int| 0 <= k < rw.len() && (#[trigger] rw[k]).handle == h && is_delete(rw[k]) implies rw[k].write.start_ts < rw[j - nw].ts by {
                    assert(rw[k] == w[k + nw]);
                }
                assert(live_put(rw, h, j - nw));
            }
            if visible(rw, h) {
                let j = choose|j: int| 0 <= j < rw.len() && #[trigger] live_put(rw, h, j);
                assert(rw[j] == w[j + nw]);
                assert forall|k: int| 0 <= k < w.len() && (#[trigger] w[k]).handle == h && is_delete(w[k]) implies w[k].write.start_ts < w[j + nw].ts by {
                    assert(k >= nw);
                    assert(rw[k - nw] == w[k]);
                }
                assert(live_put(w, h, j + nw));
            }
        }
}

/// Each handle yields at most one row, and the rows come in ascending handle order;
/// a handle yields a row exactly when it has a put and its latest delete, if any,
/// started before its latest put committed.
pub proof fn lemma_rows_one_per_handle(d: Seq<DefaultEntry>, w: Seq<WriteEntry>)
    requires
        sorted_defaults(d),
        sorted_writes(w),
        bodies_paired(d, w),
        puts_after_zero(w),
    ensures
        forall|i: int, j: int| 0 <= i < j < rows(d, w).len() ==> (#[trigger] rows(d, w)[i]).handle < (#[trigger] rows(d, w)[j]).handle,
        forall|h: i64| #[trigger] emits(rows(d, w), h) <==> visible(w, h),
    decreases d.len() + w.len(),
{
    if d.len() == 0 && w.len() == 0 {
        assert forall|h: i64| #[trigger] emits(rows(d, w), h) <==> visible(w, h) by {}
    } else {
        let h0 = next_handle(d, w);
        lemma_lead_d(d, h0);
        lemma_lead_w(w, h0);
        let nd = lead_d(d, h0) as int;
        let nw = lead_w(w, h0) as int;
        if !(d.len() > 0 && d[0].handle == h0) {
            assert(w.len() > 0 && w[0].handle == h0);
        }
        assert forall|i: int| nd <= i < d.len() implies (#[trigger] d[i]).handle > h0 by {
            assert(d[0].handle <= d[i].handle);
            assert(d[nd].handle <= d[i].handle);
        }
        assert forall|j: int| nw <= j < w.len() implies (#[trigger] w[j]).handle > h0 by {
            assert(w[0].handle <= w[j].handle);
            assert(w[nw].handle <= w[j].handle);
        }
        let dr = d.subrange(0, nd);
        let rd = d.subrange(nd, d.len() as int);
        let ww = w.subrange(0, nw);
        let rw = w.subrange(nw, w.len() as int);
        lemma_split_keeps_pairs(d, w, h0, nd, nw);
        lemma_rows_one_per_handle(rd, rw);
        lemma_run_row(dr, ww, h0);
        let rest = rows(rd, rw);
        // rows of the rest have handles above h0
        assert forall|k: int| 0 <= k < rest.len() implies (#[trigger] rest[k]).handle > h0 by {
            assert(emits(rest, rest[k].handle));
            let j = choose|j: int| 0 <= j < rw.len() && #[trigger] live_put(rw, rest[k].handle, j);
            assert(rw[j] == w[j + nw]);
        }
        lemma_visible_split(w, h0, nw);
        let r = rows(d, w);
        match run_row(dr, ww) {
            Some(c) => {
                assert(r == seq![c] + rest);
                assert forall|i: int, j: int| 0 <= i < j < r.len() implies (#[trigger] r[i]).handle < (#[trigger] r[j]).handle by {
                    if i == 0 {
                        assert(r[j] == rest[j - 1]);
                    } else {
                        assert(r[i] == rest[i - 1]);
                        assert(r[j] == rest[j - 1]);
                    }
                }
                assert forall|h: i64| #[trigger] emits(r, h) <==> visible(w, h) by {
                    if emits(r, h) {
                        let k = choose|k: int| 0 <= k < r.len() && (#[trigger] r[k]).handle == h;
                        if k > 0 {
                            assert(r[k] == rest[k - 1]);
                            assert(emits(rest, h));
                        }
                    }
                    if visible(w, h) {
                        if h == h0 {
                            assert(r[0].handle == h);
                        } else {
                            assert(emits(rest, h));
                            let k = choose|k: int| 0 <= k < rest.len() && (#[trigger] rest[k]).handle == h;
                            assert(r[k + 1] == rest[k]);
                        }
                    }
                }
            },
            None => {
                assert(r == rest);
                assert forall|h: i64| #[trigger] emits(r, h) <==> visible(w, h) by {
                    if h == h0 && emits(r, h) {
                        let k = choose|k: int| 0 <= k < rest.len() && (#[trigger] rest[k]).handle == h;
                    }
                }
            },
        }
    }
}

/// Leading entries that stop before the end stay the same whatever follows.
proof fn lemma_lead_d_extend(s: Seq<DefaultEntry>, t: Seq<DefaultEntry>, h: i64)
    requires
        lead_d(s, h) < s.len(),
    ensures
        lead_d(s + t, h) == lead_d(s, h),
    decreases s.len(),
{
    if s.len() > 0 && s[0].handle == h {
        assert((s + t).drop_first() =~= s.drop_first() + t);
        lemma_lead_d_extend(s.drop_first(), t, h);
    }
}

/// Leading entries that stop before the end stay the same whatever follows.
proof fn lemma_lead_w_extend(s: Seq<WriteEntry>, t: Seq<WriteEntry>, h: i64)
    requires
        lead_w(s, h) < s.len(),
    ensures
        lead_w(s + t, h) == lead_w(s, h),
    decreases s.len(),
{
    if s.len() > 0 && s[0].handle == h {
        assert((s + t).drop_first() =~= s.drop_first() + t);
        lemma_lead_w_extend(s.drop_first(), t, h);
    }
}

/// Once the entries of the next handle are complete in both streams, entries fed
/// later cannot change what that handle yields: the rows of the longer streams
/// start with the handle's row, if any, and go on with the rows of what follows.
pub proof fn lemma_complete_run_is_final(
    d: Seq<DefaultEntry>,
    w: Seq<WriteEntry>,
    d2: Seq<DefaultEntry>,
    w2: Seq<WriteEntry>,
    dd: bool,
    wd: bool,
)
    requires
        pending_need(d, w, dd, wd) is None,
        d.len() + w.len() > 0,
        dd ==> d2.len() == 0,
        wd ==> w2.len() == 0,
    ensures
        ({
            let h = next_handle(d, w);
            let nd = lead_d(d, h);
            let nw = lead_w(w, h);
            let rest = rows(d.subrange(nd as int, d.len() as int) + d2, w.subrange(nw as int, w.len() as int) + w2);
            rows(d + d2, w + w2) == match run_row(d.subrange(0, nd as int), w.subrange(0, nw as int)) {
                Some(c) => seq![c] + rest,
                None => rest,
            }
        }),
{
    let h = next_handle(d, w);
    lemma_lead_d(d, h);
    lemma_lead_w(w, h);
    let nd = lead_d(d, h);
    let nw = lead_w(w, h);
    let dx = d + d2;
    let wx = w + w2;
    if d.len() == 0 {
        assert(dx =~= d);
    } else {
        assert(dx[0] == d[0]);
    }
    if w.len() == 0 {
        assert(wx =~= w);
    } else {
        assert(wx[0] == w[0]);
    }
    assert(next_handle(dx, wx) == h);
    if d2.len() == 0 {
        assert(dx =~= d);
    } else {
        lemma_lead_d_extend(d, d2, h);
    }
    if w2.len() == 0 {
        assert(wx =~= w);
    } else {
        lemma_lead_w_extend(w, w2, h);
    }
    assert(lead_d(dx, h) == nd);
    assert(lead_w(wx, h) == nw);
    if !(d.len() > 0 && d[0].handle == h) {
        assert(w.len() > 0 && w[0].handle == h);
    }
    assert(dx.subrange(0, nd as int) =~= d.subrange(0, nd as int));
    assert(wx.subrange(0, nw as int) =~= w.subrange(0, nw as int));
    assert(dx.subrange(nd as int, dx.len() as int) =~= d.subrange(nd as int, d.len() as int) + d2);
    assert(wx.subrange(nw as int, wx.len() as int) =~= w.subrange(nw as int, w.len() as int) + w2);
}

/// Whether a key carries a row handle and a commit timestamp.
pub open spec fn key_carries(key: Seq<u8>, handle: i64, ts: u64) -> bool {
    &&& row_key_handle(key) == Some(handle)
    &&& key.len() >= 8
    &&& crate::keycodec::suffix_ts(key) == ts
}

/// Handle, commit timestamp and key (user key followed by the timestamp suffix)
/// of an entry whose stored key is `raw`; `None` where it is not a stored row key.
pub open spec fn decode_key(raw: Seq<u8>) -> Option<(i64, u64, Seq<u8>)> {
    match parse_store_key(raw) {
        None => None,
        Some((u, ts)) => match row_key_handle(u) {
            None => None,
            Some(h) => Some((h, ts, u + ts_suffix(ts))),
        },
    }
}

/// Mathematical form of a `default` entry.
pub open spec fn default_view(e: DefaultEntry) -> (i64, u64, Seq<u8>, Seq<u8>) {
    (e.handle, e.ts, e.key@, e.value@)
}

/// Mathematical form of a `write` entry.
pub open spec fn write_view(e: WriteEntry) -> (i64, u64, Seq<u8>, crate::writeref::WriteModel) {
    (e.handle, e.ts, e.key@, e.write.model())
}

/// The raw `default` entries that decode, decoded, in order.
pub open spec fn decoded_defaults(raw: Seq<(Vec<u8>, Vec<u8>)>) -> Seq<(i64, u64, Seq<u8>, Seq<u8>)>
    decreases raw.len(),
{
    if raw.len() == 0 {
        Seq::empty()
    } else {
        let prev = decoded_defaults(raw.drop_last());
        match decode_key(raw.last().0@) {
            Some((h, ts, k)) => prev.push((h, ts, k, raw.last().1@)),
            None => prev,
        }
    }
}

/// The raw `write` entries that decode, decoded, in order.
pub open spec fn decoded_writes(raw: Seq<(Vec<u8>, Vec<u8>)>) -> Seq<(i64, u64, Seq<u8>, crate::writeref::WriteModel)>
    decreases raw.len(),
{
    if raw.len() == 0 {
        Seq::empty()
    } else {
        let prev = decoded_writes(raw.drop_last());
        match (decode_key(raw.last().0@), crate::writeref::parse_write(raw.last().1@)) {
            (Some((h, ts, k)), Some(m)) => prev.push((h, ts, k, m)),
            _ => prev,
        }
    }
}

/// The stored keys of the raw `default` entries that do not decode, in order.
pub open spec fn default_failures(raw: Seq<(Vec<u8>, Vec<u8>)>) -> Seq<Seq<u8>>
    decreases raw.len(),
{
    if raw.len() == 0 {
        Seq::empty()
    } else {
        let prev = default_failures(raw.drop_last());
        if decode_key(raw.last().0@) is None {
            prev.push(raw.last().0@)
        } else {
            prev
        }
    }
}

/// For each raw `write` entry that does not decode, in order: its stored key when
/// the key does not decode, else its value.
pub open spec fn write_failures(raw: Seq<(Vec<u8>, Vec<u8>)>) -> Seq<Seq<u8>>
    decreases raw.len(),
{
    if raw.len() == 0 {
        Seq::empty()
    } else {
        let prev = write_failures(raw.drop_last());
        if decode_key(raw.last().0@) is None {
            prev.push(raw.last().0@)
        } else if crate::writeref::parse_write(raw.last().1@) is None {
            prev.push(raw.last().1@)
        } else {
            prev
        }
    }
}

/// Whether the errors from position `from` on hold, one each, the given bytes.
pub open spec fn errors_hold(errors: Seq<Error>, from: int, bytes: Seq<Seq<u8>>) -> bool {
    &&& errors.len() == from + bytes.len()
    &&& forall|k: int| 0 <= k < bytes.len() ==> error_bytes(#[trigger] errors[from + k]) == Some(bytes[k])
}

/// Decodes a stored row key into handle, commit timestamp and key (user key
/// followed by the timestamp suffix).
pub fn decode_entry_key(raw: &[u8]) -> (r: Result<(i64, u64, Vec<u8>), Error>)
    ensures
        match decode_key(raw@) {
            Some((h, ts, k)) => r is Ok && r->Ok_0.0 == h && r->Ok_0.1 == ts && r->Ok_0.2@ == k
                && key_carries(k, h, ts),
            None => r is Err && error_bytes(r->Err_0) == Some(raw@),
        },
{
    match decode_store_key(raw) {
        Ok((user_key, ts)) => {
            match decode_int_handle(user_key.as_slice()) {
                Ok(h) => {
                    let key = append_ts(user_key.as_slice(), ts);
                    proof {
                        let k = key@;
                        assert(k.subrange(11, 19) == user_key@.subrange(11, 19));
                        crate::keycodec::lemma_suffix_ts(user_key@, ts);
                    }
                    Ok((h, ts, key))
                },
                Err(_) => Err(Error::CorruptedDataBytes("decode handle int from key data error.".to_owned(), copy_bytes(raw))),
            }
        },
        Err(e) => Err(e),
    }
}

/// Produces the latest visible version of each row of one table from the entries
/// of its `default` and `write` column families, both in ascending key order.
pub struct TableDataIterator<'a> {
    pub table_info: &'a TableInfo,
    pub defaults: Vec<DefaultEntry>,
    pub writes: Vec<WriteEntry>,
    pub pos_default: usize,
    pub pos_write: usize,
    /// Entries that could not be decoded, reported before any row.
    pub errors: Vec<Error>,
    pub pos_error: usize,
    /// Whether the `default` entries have all been fed.
    pub default_done: bool,
    /// Whether the `write` entries have all been fed.
    pub write_done: bool,
}

/// Outcome of one step of the engine.
#[derive(Debug)]
pub enum Step {
    /// The row of the next handle.
    Row(RowData),
    /// The next handle has no visible version.
    Hidden,
    /// An entry that could not be decoded.
    Error(Error),
    /// More `default` entries are needed to finish the next handle.
    NeedDefaults,
    /// More `write` entries are needed to finish the next handle.
    NeedWrites,
    /// All entries were fed and all rows produced.
    Done,
}

/// Which stream must be fed before the next handle can be decided: `Some(true)`
/// for `default`, `Some(false)` for `write`; `None` when the entries of the next
/// handle are complete in both (or no entry is left). A stream is complete for
/// the handle when an entry of another handle follows them, or when it is done.
pub open spec fn pending_need(d: Seq<DefaultEntry>, w: Seq<WriteEntry>, dd: bool, wd: bool) -> Option<bool> {
    if !dd && d.len() == 0 {
        Some(true)
    } else if !wd && w.len() == 0 {
        Some(false)
    } else if d.len() == 0 && w.len() == 0 {
        None
    } else {
        let h = next_handle(d, w);
        if !dd && lead_d(d, h) == d.len() {
            Some(true)
        } else if !wd && lead_w(w, h) == w.len() {
            Some(false)
        } else {
            None
        }
    }
}

/// Where the version picked so far comes from: a `default` entry or the inline body
/// of a `write` entry, with its commit timestamp.
#[derive(Clone, Copy)]
enum Source {
    Default(u64, usize),
    Write(u64, usize),
}

impl<'a> TableDataIterator<'a> {
    pub open spec fn wf(&self) -> bool {
        &&& self.pos_default <= self.defaults@.len()
        &&& self.pos_write <= self.writes@.len()
        &&& self.pos_error <= self.errors@.len()
        &&& forall|k: int| 0 <= k < self.defaults@.len() ==> key_carries(#[trigger] self.defaults@[k].key@, self.defaults@[k].handle, self.defaults@[k].ts)
        &&& forall|k: int| 0 <= k < self.writes@.len() ==> key_carries(#[trigger] self.writes@[k].key@, self.writes@[k].handle, self.writes@[k].ts)
    }

    /// The rows still to come.
    pub open spec fn remaining(&self) -> Seq<Cand> {
        rows(
            self.defaults@.subrange(self.pos_default as int, self.defaults@.len() as int),
            self.writes@.subrange(self.pos_write as int, self.writes@.len() as int),
        )
    }

    spec fn source_cand(&self, src: Option<Source>) -> Option<Cand> {
        match src {
            None => None,
            Some(Source::Default(ts, k)) => Some(Cand {
                handle: self.defaults@[k as int].handle,
                ts,
                key: self.defaults@[k as int].key@,
                value: self.defaults@[k as int].value@,
            }),
            Some(Source::Write(ts, k)) => Some(Cand {
                handle: self.writes@[k as int].handle,
                ts,
                key: self.writes@[k as int].key@,
                value: self.writes@[k as int].write.short_value->0@,
            }),
        }
    }

    spec fn source_ok(&self, src: Option<Source>) -> bool {
        match src {
            None => true,
            Some(Source::Default(ts, k)) => k < self.defaults@.len() && self.defaults@[k as int].ts == ts,
            Some(Source::Write(ts, k)) => k < self.writes@.len() && self.writes@[k as int].ts == ts && is_inline_put(self.writes@[k as int]),
        }
    }

    fn source_ts(src: Source) -> (r: u64)
        ensures
            r == match src {
                Source::Default(ts, _) => ts,
                Source::Write(ts, _) => ts,
            },
    {
        match src {
            Source::Default(ts, _) => ts,
            Source::Write(ts, _) => ts,
        }
    }

    /// Builds the row of a picked version.
    fn build_row(&self, src: Source) -> (r: RowData)
        requires
            self.wf(),
            self.source_ok(Some(src)),
        ensures
            self.source_cand(Some(src)) matches Some(c) && r.built_from(c.key, c.value, *self.table_info),
    {
        let (key, value) = match src {
            Source::Default(_, k) => (copy_bytes(self.defaults[k].key.as_slice()), copy_bytes(self.defaults[k].value.as_slice())),
            Source::Write(_, k) => {
                let v = match &self.writes[k].write.short_value {
                    Some(v) => copy_bytes(v.as_slice()),
                    None => Vec::new(),
                };
                (copy_bytes(self.writes[k].key.as_slice()), v)
            },
        };
        match RowData::new(key, value, self.table_info) {
            Ok(row) => row,
            Err(_) => {
                // the key of every entry carries a handle, so this arm is never taken
                proof {
                    match src {
                        Source::Default(_, k) => assert(key_carries(self.defaults@[k as int].key@, self.defaults@[k as int].handle, self.defaults@[k as int].ts)),
                        Source::Write(_, k) => assert(key_carries(self.writes@[k as int].key@, self.writes@[k as int].handle, self.writes@[k as int].ts)),
                    }
                    assert(false);
                }
                RowData { handle_int: 0, append_ts: 0, key_data: Vec::new(), val_data: Vec::new(), pri_data: Vec::new() }
            },
        }
    }

    /// Reads the leading `default` entries of handle `h` from `from` on: where they
    /// end, and the newest of them.
    fn scan_defaults(&self, from: usize, h: i64) -> (r: (usize, Option<Source>))
        requires
            self.wf(),
            from <= self.defaults@.len(),
        ensures
            from <= r.0 <= self.defaults@.len(),
            r.0 - from == lead_d(self.defaults@.subrange(from as int, self.defaults@.len() as int), h),
            self.source_ok(r.1),
            self.source_cand(r.1) == default_best(self.defaults@.subrange(from as int, r.0 as int)),
    {
        let ghost d = self.defaults@;
        let len = self.defaults.len();
        let mut i: usize = from;
        let mut best: Option<Source> = None;
        assert(d.subrange(from as int, from as int) =~= Seq::<DefaultEntry>::empty());
        while i < len && self.defaults[i].handle == h
            invariant
                self.wf(),
                d == self.defaults@,
                len == d.len(),
                from <= i <= len,
                lead_d(d.subrange(from as int, len as int), h) == (i - from) + lead_d(d.subrange(i as int, len as int), h),
                self.source_ok(best),
                self.source_cand(best) == default_best(d.subrange(from as int, i as int)),
            decreases len - i,
        {
            let ghost tail = d.subrange(i as int, len as int);
            assert(tail.drop_first() =~= d.subrange(i + 1, len as int));
            let ts = self.defaults[i].ts;
            let replace = match best {
                None => true,
                Some(b) => ts > Self::source_ts(b),
            };
            if replace {
                best = Some(Source::Default(ts, i));
            }
            let ghost seg = d.subrange(from as int, i + 1);
            assert(seg.drop_last() =~= d.subrange(from as int, i as int));
            i += 1;
        }
        (i, best)
    }

    /// Reads the leading `write` entries of handle `h` from `from` on: where they end,
    /// the newest version among `best` and their inline puts, and the greatest start
    /// timestamp of their deletes.
    fn scan_writes(&self, from: usize, h: i64, best0: Option<Source>) -> (r: (usize, Option<Source>, u64))
        requires
            self.wf(),
            from <= self.writes@.len(),
            self.source_ok(best0),
        ensures
            from <= r.0 <= self.writes@.len(),
            r.0 - from == lead_w(self.writes@.subrange(from as int, self.writes@.len() as int), h),
            self.source_ok(r.1),
            self.source_cand(r.1) == write_best(self.source_cand(best0), self.writes@.subrange(from as int, r.0 as int)),
            r.2 == delete_ts(self.writes@.subrange(from as int, r.0 as int)),
    {
        let ghost w = self.writes@;
        let len = self.writes.len();
        let mut j: usize = from;
        let mut best: Option<Source> = best0;
        let mut del: u64 = 0;
        assert(w.subrange(from as int, from as int) =~= Seq::<WriteEntry>::empty());
        while j < len && self.writes[j].handle == h
            invariant
                self.wf(),
                w == self.writes@,
                len == w.len(),
                from <= j <= len,
                lead_w(w.subrange(from as int, len as int), h) == (j - from) + lead_w(w.subrange(j as int, len as int), h),
                self.source_ok(best),
                self.source_cand(best) == write_best(self.source_cand(best0), w.subrange(from as int, j as int)),
                del == delete_ts(w.subrange(from as int, j as int)),
            decreases len - j,
        {
            let ghost tail = w.subrange(j as int, len as int);
            assert(tail.drop_first() =~= w.subrange(j + 1, len as int));
            let ghost seg = w.subrange(from as int, j + 1);
            assert(seg.drop_last() =~= w.subrange(from as int, j as int));
            let e = &self.writes[j];
            match e.write.write_type {
                WriteType::Delete => {
                    if e.write.start_ts > del {
                        del = e.write.start_ts;
                    }
                },
                WriteType::Put => {
                    if e.write.short_value.is_some() {
                        let replace = match best {
                            None => true,
                            Some(b) => e.ts > Self::source_ts(b),
                        };
                        if replace {
                            best = Some(Source::Write(e.ts, j));
                        }
                    }
                },
                _ => {},
            }
            j += 1;
        }
        (j, best, del)
    }

    /// The entries of the two streams still to be read.
    pub open spec fn rest_d(&self) -> Seq<DefaultEntry> {
        self.defaults@.subrange(self.pos_default as int, self.defaults@.len() as int)
    }

    pub open spec fn rest_w(&self) -> Seq<WriteEntry> {
        self.writes@.subrange(self.pos_write as int, self.writes@.len() as int)
    }

    /// One step: the next undecodable entry (the errors of the entries fed so far come
    /// before any further row); else, once the entries of the next
    /// handle are complete in both streams, that handle's row (or `Hidden`); else
    /// which stream to feed; `Done` when everything fed was read and both streams
    /// are done.
    pub fn step(&mut self) -> (r: Step)
        requires
            old(self).wf(),
        ensures
            final(self).wf(),
            final(self).table_info == old(self).table_info,
            final(self).defaults@ == old(self).defaults@,
            final(self).writes@ == old(self).writes@,
            final(self).errors@ == old(self).errors@,
            final(self).default_done == old(self).default_done,
            final(self).write_done == old(self).write_done,
            old(self).pos_error < old(self).errors@.len() ==> {
                &&& r matches Step::Error(e) && error_bytes(e) == error_bytes(old(self).errors@[old(self).pos_error as int])
                &&& final(self).pos_error == old(self).pos_error + 1
                &&& final(self).pos_default == old(self).pos_default
                &&& final(self).pos_write == old(self).pos_write
            },
            old(self).pos_error >= old(self).errors@.len() ==> final(self).pos_error == old(self).pos_error,
            old(self).pos_error >= old(self).errors@.len() ==> match pending_need(
                old(self).rest_d(),
                old(self).rest_w(),
                old(self).default_done,
                old(self).write_done,
            ) {
                Some(need_defaults) => {
                    &&& (if need_defaults { r is NeedDefaults } else { r is NeedWrites })
                    &&& final(self).pos_default == old(self).pos_default
                    &&& final(self).pos_write == old(self).pos_write
                },
                None => if old(self).rest_d().len() == 0 && old(self).rest_w().len() == 0 {
                    &&& r is Done
                    &&& final(self).pos_default == old(self).pos_default
                    &&& final(self).pos_write == old(self).pos_write
                } else {
                    let h = next_handle(old(self).rest_d(), old(self).rest_w());
                    let nd = lead_d(old(self).rest_d(), h);
                    let nw = lead_w(old(self).rest_w(), h);
                    &&& final(self).pos_default == old(self).pos_default + nd
                    &&& final(self).pos_write == old(self).pos_write + nw
                    &&& match run_row(old(self).rest_d().subrange(0, nd as int), old(self).rest_w().subrange(0, nw as int)) {
                        Some(c) => r matches Step::Row(row) && row.built_from(c.key, c.value, *old(self).table_info),
                        None => r is Hidden,
                    }
                },
            },
    {
        if self.pos_error < self.errors.len() {
            let e = crate::errors::copy_error(&self.errors[self.pos_error]);
            self.pos_error = self.pos_error + 1;
            return Step::Error(e);
        }
        let dl = self.defaults.len();
        let wl = self.writes.len();
        let pd = self.pos_default;
        let pw = self.pos_write;
        let ghost d = self.rest_d();
        let ghost w = self.rest_w();
        if !self.default_done && pd == dl {
            return Step::NeedDefaults;
        }
        if !self.write_done && pw == wl {
            return Step::NeedWrites;
        }
        if pd == dl && pw == wl {
            return Step::Done;
        }
        let h: i64 = if pd == dl {
            self.writes[pw].handle
        } else if pw == wl {
            self.defaults[pd].handle
        } else if self.defaults[pd].handle <= self.writes[pw].handle {
            self.defaults[pd].handle
        } else {
            self.writes[pw].handle
        };
        assert(h == next_handle(d, w));
        let (i, best_d) = self.scan_defaults(pd, h);
        let (j, best, del) = self.scan_writes(pw, h, best_d);
        if !self.default_done && i == dl {
            return Step::NeedDefaults;
        }
        if !self.write_done && j == wl {
            return Step::NeedWrites;
        }
        proof {
            let nd = lead_d(d, h);
            let nw = lead_w(w, h);
            assert(d.subrange(0, nd as int) =~= self.defaults@.subrange(pd as int, i as int));
            assert(w.subrange(0, nw as int) =~= self.writes@.subrange(pw as int, j as int));
        }
        self.pos_default = i;
        self.pos_write = j;
        match best {
            Some(src) => {
                if del < Self::source_ts(src) {
                    let row = self.build_row(src);
                    return Step::Row(row);
                }
            },
            None => {},
        }
        Step::Hidden
    }

    /// The next row, or the next undecodable entry, once every entry has been fed.
    /// Errors come first; then the rows, in ascending handle order, each the newest
    /// version of its handle that no later delete removed.
    pub fn next(&mut self) -> (r: Option<Result<RowData, Error>>)
        requires
            old(self).wf(),
            old(self).default_done,
            old(self).write_done,
        ensures
            final(self).wf(),
            final(self).default_done,
            final(self).write_done,
            final(self).table_info == old(self).table_info,
            final(self).defaults@ == old(self).defaults@,
            final(self).writes@ == old(self).writes@,
            final(self).errors@ == old(self).errors@,
            old(self).pos_error < old(self).errors@.len() ==> {
                &&& r matches Some(Err(e)) && error_bytes(e) == error_bytes(old(self).errors@[old(self).pos_error as int])
                &&& final(self).pos_error == old(self).pos_error + 1
                &&& final(self).remaining() == old(self).remaining()
            },
            old(self).pos_error >= old(self).errors@.len() && old(self).remaining().len() == 0 ==> {
                &&& r is None
                &&& final(self).pos_error == old(self).pos_error
                &&& final(self).remaining().len() == 0
            },
            old(self).pos_error >= old(self).errors@.len() && old(self).remaining().len() > 0 ==> {
                &&& r matches Some(Ok(row))
                &&& row.built_from(old(self).remaining()[0].key, old(self).remaining()[0].value, *old(self).table_info)
                &&& final(self).pos_error == old(self).pos_error
                &&& final(self).remaining() == old(self).remaining().drop_first()
            },
    {
        let ghost start = self.remaining();
        loop
            invariant
                self.wf(),
                self.default_done,
                self.write_done,
                self.table_info == old(self).table_info,
                self.defaults@ == old(self).defaults@,
                self.writes@ == old(self).writes@,
                self.errors@ == old(self).errors@,
                self.pos_error == old(self).pos_error,
                start == old(self).remaining(),
                old(self).pos_error >= old(self).errors@.len() ==> start == self.remaining(),
                old(self).pos_error < old(self).errors@.len() ==> self.pos_default == old(self).pos_default
                    && self.pos_write == old(self).pos_write,
            decreases (self.defaults@.len() - self.pos_default) + (self.writes@.len() - self.pos_write),
        {
            let ghost d = self.rest_d();
            let ghost w = self.rest_w();
            let ghost pd0 = self.pos_default;
            let ghost pw0 = self.pos_write;
            let r = self.step();
            proof {
                if self.pos_error == old(self).pos_error && !(r is Done) {
                    let h = next_handle(d, w);
                    let nd = lead_d(d, h);
                    let nw = lead_w(w, h);
                    lemma_lead_d(d, h);
                    lemma_lead_w(w, h);
                    if !(d.len() > 0 && d[0].handle == h) {
                        assert(w.len() > 0 && w[0].handle == h);
                    }
                    assert(d.subrange(nd as int, d.len() as int) =~= self.rest_d());
                    assert(w.subrange(nw as int, w.len() as int) =~= self.rest_w());
                }
            }
            match r {
                Step::Row(row) => {
                    return Some(Ok(row));
                },
                Step::Error(e) => {
                    return Some(Err(e));
                },
                Step::Done => {
                    return None;
                },
                _ => {},
            }
        }
    }

    /// An engine for a table that is fed its entries bit by bit.
    pub fn streaming(table_info: &'a TableInfo) -> (r: TableDataIterator<'a>)
        ensures
            r.wf(),
            r.table_info == table_info,
            r.defaults@.len() == 0,
            r.writes@.len() == 0,
            r.errors@.len() == 0,
            r.pos_error == 0,
            !r.default_done,
            !r.write_done,
    {
        TableDataIterator {
            table_info,
            defaults: Vec::new(),
            writes: Vec::new(),
            pos_default: 0,
            pos_write: 0,
            errors: Vec::new(),
            pos_error: 0,
            default_done: false,
            write_done: false,
        }
    }

    /// Feeds the next raw `default` entries (stored key, value), dropping those already
    /// read. Entries that do not decode are left out, one error each.
    pub fn feed_defaults(&mut self, raw: &Vec<(Vec<u8>, Vec<u8>)>)
        requires
            old(self).wf(),
        ensures
            final(self).wf(),
            final(self).table_info == old(self).table_info,
            final(self).pos_default == 0,
            final(self).defaults@.map_values(|e: DefaultEntry| default_view(e)) == old(self).rest_d().map_values(
                |e: DefaultEntry| default_view(e),
            ) + decoded_defaults(raw@),
            final(self).rest_w() == old(self).rest_w(),
            final(self).writes@ == old(self).writes@,
            final(self).pos_write == old(self).pos_write,
            final(self).pos_error == old(self).pos_error,
            final(self).errors@.subrange(0, old(self).errors@.len() as int) == old(self).errors@,
            errors_hold(final(self).errors@, old(self).errors@.len() as int, default_failures(raw@)),
            final(self).default_done == old(self).default_done,
            final(self).write_done == old(self).write_done,
    {
        let rest = self.defaults.split_off(self.pos_default);
        self.defaults = rest;
        self.pos_default = 0;
        let ghost base = self.defaults@;
        let ghost base_errors = self.errors@.len();
        let mut i: usize = 0;
        while i < raw.len()
            invariant
                self.wf(),
                self.table_info == old(self).table_info,
                self.pos_default == 0,
                self.writes@ == old(self).writes@,
                self.pos_write == old(self).pos_write,
                self.pos_error == old(self).pos_error,
                self.default_done == old(self).default_done,
                self.write_done == old(self).write_done,
                base == old(self).rest_d(),
                i <= raw@.len(),
                self.defaults@.map_values(|e: DefaultEntry| default_view(e)) == base.map_values(|e: DefaultEntry| default_view(e))
                    + decoded_defaults(raw@.subrange(0, i as int)),
                self.errors@.subrange(0, base_errors as int) == old(self).errors@,
                errors_hold(self.errors@, base_errors as int, default_failures(raw@.subrange(0, i as int))),
                base_errors == old(self).errors@.len(),
            decreases raw@.len() - i,
        {
            let ghost prefix = raw@.subrange(0, i + 1);
            assert(prefix.drop_last() =~= raw@.subrange(0, i as int));
            let ghost before = self.defaults@;
            let ghost before_errors = self.errors@;
            match decode_entry_key(raw[i].0.as_slice()) {
                Ok((handle, ts, key)) => {
                    self.defaults.push(DefaultEntry { handle, ts, key, value: copy_bytes(raw[i].1.as_slice()) });
                    assert(self.defaults@.map_values(|e: DefaultEntry| default_view(e)) =~= before.map_values(
                        |e: DefaultEntry| default_view(e),
                    ).push(default_view(self.defaults@.last())));
                    assert forall|k: int| 0 <= k < self.defaults@.len() implies key_carries(#[trigger] self.defaults@[k].key@, self.defaults@[k].handle, self.defaults@[k].ts) by {
                        if k < before.len() {
                            assert(self.defaults@[k] == before[k]);
                        }
                    }
                },
                Err(e) => {
                    self.errors.push(e);

                    proof {
                        let f = default_failures(raw@.subrange(0, i + 1));
                        assert(f == default_failures(raw@.subrange(0, i as int)).push(raw@[i as int].0@));
                        assert forall|k: int| 0 <= k < f.len() implies error_bytes(#[trigger] self.errors@[base_errors + k]) == Some(f[k]) by {
                            if k < f.len() - 1 {
                                assert(self.errors@[base_errors + k] == before_errors[base_errors + k]);
                            }
                        }
                        assert(self.errors@.subrange(0, base_errors as int) =~= before_errors.subrange(0, base_errors as int));
                    }
                },
            }
            i += 1;
        }
        assert(raw@.subrange(0, i as int) =~= raw@);
        assert(self.rest_w() == old(self).rest_w());
    }

    /// Feeds the next raw `write` entries (stored key, value), dropping those already
    /// read. Entries that do not decode are left out, one error each.
    pub fn feed_writes(&mut self, raw: &Vec<(Vec<u8>, Vec<u8>)>)
        requires
            old(self).wf(),
        ensures
            final(self).wf(),
            final(self).table_info == old(self).table_info,
            final(self).pos_write == 0,
            final(self).writes@.map_values(|e: WriteEntry| write_view(e)) == old(self).rest_w().map_values(
                |e: WriteEntry| write_view(e),
            ) + decoded_writes(raw@),
            final(self).rest_d() == old(self).rest_d(),
            final(self).defaults@ == old(self).defaults@,
            final(self).pos_default == old(self).pos_default,
            final(self).pos_error == old(self).pos_error,
            final(self).errors@.subrange(0, old(self).errors@.len() as int) == old(self).errors@,
            errors_hold(final(self).errors@, old(self).errors@.len() as int, write_failures(raw@)),
            final(self).default_done == old(self).default_done,
            final(self).write_done == old(self).write_done,
    {
        let rest = self.writes.split_off(self.pos_write);
        self.writes = rest;
        self.pos_write = 0;
        let ghost base = self.writes@;
        let ghost base_errors = self.errors@.len();
        let mut i: usize = 0;
        while i < raw.len()
            invariant
                self.wf(),
                self.table_info == old(self).table_info,
                self.pos_write == 0,
                self.defaults@ == old(self).defaults@,
                self.pos_default == old(self).pos_default,
                self.pos_error == old(self).pos_error,
                self.default_done == old(self).default_done,
                self.write_done == old(self).write_done,
                base == old(self).rest_w(),
                i <= raw@.len(),
                self.writes@.map_values(|e: WriteEntry| write_view(e)) == base.map_values(|e: WriteEntry| write_view(e))
                    + decoded_writes(raw@.subrange(0, i as int)),
                self.errors@.subrange(0, base_errors as int) == old(self).errors@,
                errors_hold(self.errors@, base_errors as int, write_failures(raw@.subrange(0, i as int))),
                base_errors == old(self).errors@.len(),
            decreases raw@.len() - i,
        {
            let ghost prefix = raw@.subrange(0, i + 1);
            assert(prefix.drop_last() =~= raw@.subrange(0, i as int));
            let ghost before = self.writes@;
            let ghost before_errors = self.errors@;
            match decode_entry_key(raw[i].0.as_slice()) {
                Ok((handle, ts, key)) => {
                    match WriteRef::parse(raw[i].1.as_slice()) {
                        Ok(write) => {
                            self.writes.push(WriteEntry { handle, ts, key, write });
                            assert(self.writes@.map_values(|e: WriteEntry| write_view(e)) =~= before.map_values(
                                |e: WriteEntry| write_view(e),
                            ).push(write_view(self.writes@.last())));
                            assert forall|k: int| 0 <= k < self.writes@.len() implies key_carries(#[trigger] self.writes@[k].key@, self.writes@[k].handle, self.writes@[k].ts) by {
                                if k < before.len() {
                                    assert(self.writes@[k] == before[k]);
                                }
                            }
                        },
                        Err(e) => {
                            self.errors.push(e);

                            proof {
                                let f = write_failures(raw@.subrange(0, i + 1));
                                assert(f == write_failures(raw@.subrange(0, i as int)).push(raw@[i as int].1@));
                                assert forall|k: int| 0 <= k < f.len() implies error_bytes(#[trigger] self.errors@[base_errors + k]) == Some(f[k]) by {
                                    if k < f.len() - 1 {
                                        assert(self.errors@[base_errors + k] == before_errors[base_errors + k]);
                                    }
                                }
                                assert(self.errors@.subrange(0, base_errors as int) =~= before_errors.subrange(0, base_errors as int));
                            }
                        },
                    }
                },
                Err(e) => {
                    self.errors.push(e);

                    proof {
                        let f = write_failures(raw@.subrange(0, i + 1));
                        assert(f == write_failures(raw@.subrange(0, i as int)).push(raw@[i as int].0@));
                        assert forall|k: int| 0 <= k < f.len() implies error_bytes(#[trigger] self.errors@[base_errors + k]) == Some(f[k]) by {
                            if k < f.len() - 1 {
                                assert(self.errors@[base_errors + k] == before_errors[base_errors + k]);
                            }
                        }
                        assert(self.errors@.subrange(0, base_errors as int) =~= before_errors.subrange(0, base_errors as int));
                    }
                },
            }
            i += 1;
        }
        assert(raw@.subrange(0, i as int) =~= raw@);
        assert(self.rest_d() == old(self).rest_d());
    }

    /// Marks the `default` entries as all fed.
    pub fn finish_defaults(&mut self)
        requires
            old(self).wf(),
        ensures
            final(self).wf(),
            final(self).default_done,
            final(self).write_done == old(self).write_done,
            final(self).table_info == old(self).table_info,
            final(self).defaults@ == old(self).defaults@,
            final(self).writes@ == old(self).writes@,
            final(self).errors@ == old(self).errors@,
            final(self).pos_default == old(self).pos_default,
            final(self).pos_write == old(self).pos_write,
            final(self).pos_error == old(self).pos_error,
    {
        self.default_done = true;
    }

    /// Marks the `write` entries as all fed.
    pub fn finish_writes(&mut self)
        requires
            old(self).wf(),
        ensures
            final(self).wf(),
            final(self).write_done,
            final(self).default_done == old(self).default_done,
            final(self).table_info == old(self).table_info,
            final(self).defaults@ == old(self).defaults@,
            final(self).writes@ == old(self).writes@,
            final(self).errors@ == old(self).errors@,
            final(self).pos_default == old(self).pos_default,
            final(self).pos_write == old(self).pos_write,
            final(self).pos_error == old(self).pos_error,
    {
        self.write_done = true;
    }

    /// An engine given all the raw entries of the two column families (stored key,
    /// value) at once. Entries that do not decode are left out, one error each.
    pub fn new(
        table_info: &'a TableInfo,
        default_raw: &Vec<(Vec<u8>, Vec<u8>)>,
        write_raw: &Vec<(Vec<u8>, Vec<u8>)>,
    ) -> (r: TableDataIterator<'a>)
        ensures
            r.wf(),
            r.table_info == table_info,
            r.pos_default == 0,
            r.pos_write == 0,
            r.pos_error == 0,
            r.default_done,
            r.write_done,
            r.defaults@.map_values(|e: DefaultEntry| default_view(e)) == decoded_defaults(default_raw@),
            r.writes@.map_values(|e: WriteEntry| write_view(e)) == decoded_writes(write_raw@),
            errors_hold(r.errors@, 0, default_failures(default_raw@) + write_failures(write_raw@)),
    {
        let mut r = Self::streaming(table_info);
        r.feed_defaults(default_raw);
        let ghost errs1 = r.errors@;
        assert(r.rest_w() =~= Seq::<WriteEntry>::empty());
        r.feed_writes(write_raw);
        proof {
            let df = default_failures(default_raw@);
            let wf = write_failures(write_raw@);
            assert forall|k: int| 0 <= k < (df + wf).len() implies error_bytes(#[trigger] r.errors@[0 + k]) == Some((df + wf)[k]) by {
                if k < df.len() {
                    assert(r.errors@[k] == r.errors@.subrange(0, errs1.len() as int)[k]);
                    assert(error_bytes(errs1[0 + k]) == Some(df[k]));
                } else {
                    assert(error_bytes(r.errors@[errs1.len() + (k - df.len())]) == Some(wf[k - df.len()]));
                }
            }
        }
        assert(Seq::<DefaultEntry>::empty().map_values(|e: DefaultEntry| default_view(e)) + decoded_defaults(default_raw@) =~= decoded_defaults(default_raw@));
        assert(Seq::<WriteEntry>::empty().map_values(|e: WriteEntry| write_view(e)) + decoded_writes(write_raw@) =~= decoded_writes(write_raw@));
        r.finish_defaults();
        r.finish_writes();
        r
    }
}

/// The rows an engine still has to produce (exactly what `next` returns, in order,
/// by its contract) come in strictly ascending handle order, at most one per handle,
/// and a handle has one exactly when it has a put whose commit follows the start of
/// every delete of it: for entries in key order whose bodies are paired with their
/// puts and whose puts commit after timestamp 0.
pub proof fn lemma_engine_rows_one_per_handle(it: TableDataIterator)
    requires
        it.wf(),
        sorted_defaults(it.rest_d()),
        sorted_writes(it.rest_w()),
        bodies_paired(it.rest_d(), it.rest_w()),
        puts_after_zero(it.rest_w()),
    ensures
        forall|i: int, j: int| 0 <= i < j < it.remaining().len() ==> (#[trigger] it.remaining()[i]).handle < (
        #[trigger] it.remaining()[j]).handle,
        forall|h: i64| #[trigger] emits(it.remaining(), h) <==> visible(it.rest_w(), h),
{
    lemma_rows_one_per_handle(it.rest_d(), it.rest_w());
}

} // verus!
