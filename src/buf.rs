use vstd::prelude::*;
use crate::errors::Error;

verus! {

/// Bytes of a list of blocks, one after the other.
pub open spec fn flat(blocks: Seq<Vec<u8>>) -> Seq<u8>
    decreases blocks.len(),
{
    if blocks.len() == 0 {
        Seq::empty()
    } else {
        flat(blocks.drop_last()) + blocks.last()@
    }
}

/// An in-memory byte buffer made of fixed-size blocks, up to a fixed number of them.
pub struct LinkedBuffer {
    block_size: usize,
    block_num: usize,
    blocks: Vec<Vec<u8>>,
    capacity: usize,
    used_size: usize,
}

impl LinkedBuffer {
    /// The bytes held.
    pub closed spec fn view(&self) -> Seq<u8> {
        flat(self.blocks@)
    }

    /// Size of each block.
    pub closed spec fn spec_block_size(&self) -> nat {
        self.block_size as nat
    }

    /// Largest number of bytes the buffer can hold.
    pub closed spec fn spec_capacity(&self) -> nat {
        self.capacity as nat
    }

    /// Blocks are full but the last, which is not empty, and they stay within
    /// the block count.
    pub closed spec fn wf(&self) -> bool {
        &&& self.block_size > 0
        &&& self.capacity == self.block_size * self.block_num
        &&& self.blocks@.len() <= self.block_num
        &&& self.used_size == flat(self.blocks@).len()
        &&& self.used_size <= self.capacity
        &&& forall|k: int| 0 <= k < self.blocks@.len() - 1 ==> (#[trigger] self.blocks@[k])@.len() == self.block_size
        &&& self.blocks@.len() > 0 ==> 0 < self.blocks@.last()@.len() <= self.block_size
        &&& self.used_size == (if self.blocks@.len() == 0 { 0 } else { (self.blocks@.len() - 1) * self.block_size + self.blocks@.last()@.len() })
    }

    /// An empty buffer of `block_num` blocks of `block_size` bytes.
    pub fn new(block_size: usize, block_num: usize) -> (r: LinkedBuffer)
        requires
            block_size > 0,
            block_size * block_num <= usize::MAX,
        ensures
            r.wf(),
            r@.len() == 0,
            r.spec_block_size() == block_size,
            r.spec_capacity() == block_size * block_num,
    {
        LinkedBuffer { block_size, block_num, blocks: Vec::new(), capacity: block_size * block_num, used_size: 0 }
    }

    pub fn block_size(&self) -> (r: usize)
        ensures
            r == self.spec_block_size(),
    {
        self.block_size
    }

    /// Number of bytes held.
    pub fn len(&self) -> (r: usize)
        requires
            self.wf(),
        ensures
            r == self@.len(),
    {
        self.used_size
    }

    /// Whether the buffer holds as many bytes as it can.
    pub fn is_full(&self) -> (r: bool)
        requires
            self.wf(),
        ensures
            r == (self@.len() == self.spec_capacity()),
    {
        self.used_size == self.capacity
    }

    /// Empties the buffer.
    pub fn reset(&mut self)
        requires
            old(self).wf(),
        ensures
            final(self).wf(),
            final(self)@.len() == 0,
            final(self).spec_block_size() == old(self).spec_block_size(),
            final(self).spec_capacity() == old(self).spec_capacity(),
    {
        self.blocks = Vec::new();
        self.used_size = 0;
    }

    /// Appends the bytes held to `w`.
    pub fn write_to(&self, w: &mut Vec<u8>) -> (r: usize)
        requires
            self.wf(),
        ensures
            final(w)@ == old(w)@ + self@,
            r == self@.len(),
    {
        let mut k: usize = 0;
        while k < self.blocks.len()
            invariant
                k <= self.blocks@.len(),
                w@ == old(w)@ + flat(self.blocks@.subrange(0, k as int)),
            decreases self.blocks@.len() - k,
        {
            crate::bytes::push_all(w, self.blocks[k].as_slice());
            assert(self.blocks@.subrange(0, k + 1).drop_last() =~= self.blocks@.subrange(0, k as int));
            k += 1;
        }
        assert(self.blocks@.subrange(0, k as int) =~= self.blocks@);
        self.used_size
    }

    /// Makes sure a block with room for the next byte exists and returns its position;
    /// fails when the buffer is full.
    pub fn get_cur_writable_block(&mut self) -> (r: Result<usize, Error>)
        requires
            old(self).wf(),
        ensures
            final(self).wf(),
            final(self)@ == old(self)@,
            final(self).spec_block_size() == old(self).spec_block_size(),
            final(self).spec_capacity() == old(self).spec_capacity(),
            old(self)@.len() < old(self).spec_capacity() <==> r is Ok,
            r matches Ok(i) ==> i as nat == old(self)@.len() / old(self).spec_block_size(),
    {
        if self.used_size == self.capacity {
            return Err(Error::IO("out of the buffer's capacity".to_owned()));
        }
        let n = self.blocks.len();
        if n == 0 {
            return Ok(0);
        }
        let last_len = self.blocks[n - 1].len();
        proof {
            let bs = self.block_size as int;
            let used = self.used_size as int;
            assert(used == (n - 1) * bs + last_len);
            if last_len < bs {
                assert((n - 1) * bs <= used < n * bs) by (nonlinear_arith)
                    requires used == (n - 1) * bs + last_len, 0 < last_len < bs;
                vstd::arithmetic::div_mod::lemma_div_is_ordered_by_denominator(used, bs, bs);
                assert(used / bs == n - 1) by {
                    vstd::arithmetic::div_mod::lemma_fundamental_div_mod_converse(used, bs, n - 1, last_len as int);
                }
            } else {
                assert(used == n * bs) by (nonlinear_arith)
                    requires used == (n - 1) * bs + last_len, last_len == bs;
                assert(used / bs == n) by {
                    vstd::arithmetic::div_mod::lemma_fundamental_div_mod_converse(used, bs, n as int, 0);
                }
            }
        }
        if last_len < self.block_size {
            Ok(n - 1)
        } else {
            Ok(n)
        }
    }

    /// Appends `buf`; fails, holding nothing more, when it does not fit.
    pub fn write(&mut self, buf: &[u8]) -> (r: Result<usize, Error>)
        requires
            old(self).wf(),
        ensures
            final(self).wf(),
            final(self).spec_block_size() == old(self).spec_block_size(),
            final(self).spec_capacity() == old(self).spec_capacity(),
            old(self)@.len() + buf@.len() <= old(self).spec_capacity() ==> r == Ok::<usize, Error>(buf@.len() as usize)
                && final(self)@ == old(self)@ + buf@,
            old(self)@.len() + buf@.len() > old(self).spec_capacity() ==> r is Err && final(self)@ == old(self)@,
    {
        if buf.len() > self.capacity - self.used_size {
            return Err(Error::IO("out of the buffer's capacity".to_owned()));
        }
        let ghost start = self@;
        let mut i: usize = 0;
        while i < buf.len()
            invariant
                self.wf(),
                self.block_size == old(self).block_size,
                self.capacity == old(self).capacity,
                self.block_num == old(self).block_num,
                i <= buf@.len(),
                self.used_size + (buf@.len() - i) <= self.capacity,
                self@ == start + buf@.subrange(0, i as int),
            decreases buf@.len() - i,
        {
            self.push_byte(buf[i]);
            assert(buf@.subrange(0, i + 1) =~= buf@.subrange(0, i as int).push(buf@[i as int]));
            i += 1;
        }
        assert(buf@.subrange(0, i as int) =~= buf@);
        Ok(buf.len())
    }

    fn push_byte(&mut self, b: u8)
        requires
            old(self).wf(),
            old(self).used_size < old(self).capacity,
        ensures
            final(self).wf(),
            final(self).block_size == old(self).block_size,
            final(self).capacity == old(self).capacity,
            final(self).block_num == old(self).block_num,
            final(self)@ == old(self)@.push(b),
    {
        let n = self.blocks.len();
        let bs = self.block_size;
        let room = n > 0 && self.blocks[n - 1].len() < bs;
        if room {
            let ghost before = self.blocks@;
            let mut last = self.blocks.pop().unwrap();
            assert(self.blocks@ =~= before.drop_last());
            last.push(b);
            self.blocks.push(last);
            assert(self.blocks@.drop_last() =~= before.drop_last());
            assert forall|k: int| 0 <= k < self.blocks@.len() - 1 implies (#[trigger] self.blocks@[k])@.len() == bs by {
                assert(self.blocks@[k] == before[k]);
            }
        } else {
            proof {
                if n > 0 {
                    assert(self.used_size == n * bs) by (nonlinear_arith)
                        requires self.used_size == (n - 1) * bs + bs;
                    assert(n < self.block_num) by (nonlinear_arith)
                        requires self.used_size == n * bs, self.used_size < bs * self.block_num, bs > 0;
                } else {
                    assert(n < self.block_num) by (nonlinear_arith)
                        requires 0 < bs * self.block_num, bs > 0, n == 0;
                }
            }
            let ghost before = self.blocks@;
            let mut blk: Vec<u8> = Vec::new();
            blk.push(b);
            self.blocks.push(blk);
            assert(self.blocks@.drop_last() =~= before);
            assert forall|k: int| 0 <= k < self.blocks@.len() - 1 implies (#[trigger] self.blocks@[k])@.len() == bs by {
                assert(self.blocks@[k] == before[k]);
            }
            proof {
                if n > 0 {
                    assert((n as int) * bs + 1 == ((n + 1) as int - 1) * bs + 1) by (nonlinear_arith);
                }
            }
        }
        self.used_size = self.used_size + 1;
    }
}

} // verus!
