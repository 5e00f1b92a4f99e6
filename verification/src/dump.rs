//! Reading a stretch of the target's memory in blocks, several requests ahead
//! of the reply being read.
//!
//! The wire and the transport each take milliseconds per block and are
//! otherwise strictly serialised; overlapping them costs the larger of the two
//! rather than their sum.

use crate::serial_dap;
use vstd::prelude::*;

verus! {

/// A stretch of memory, cut into blocks.
#[derive(Clone, Copy, Debug, Eq, PartialEq, Structural)]
pub struct Dump {
    pub address: u32,
    /// How many words there are in all.
    pub words: usize,
    /// How many words a block holds, but for the last.
    pub block: usize,
    /// How many requests are kept in flight.
    pub depth: usize,
}

impl Dump {
    /// Every block can be asked for.
    pub open spec fn wf(self) -> bool {
        &&& 1 <= self.block <= u16::MAX
        &&& self.depth >= 1
        &&& self.address + 4 * self.words <= 0x1_0000_0000
    }

    /// How many blocks there are.
    pub open spec fn blocks(self) -> int {
        (self.words + self.block - 1) / self.block as int
    }

    /// How many words stand before a block.
    pub open spec fn offset(self, index: int) -> int {
        index * self.block
    }

    /// How many words a block holds.
    pub open spec fn span(self, index: int) -> int {
        if self.words - self.offset(index) < self.block {
            self.words - self.offset(index)
        } else {
            self.block as int
        }
    }

    /// The request for a block.
    pub open spec fn request_of(self, index: int) -> Seq<u8> {
        serial_dap::memory_payload(
            (self.address + 4 * self.offset(index)) as u32,
            self.span(index) as nat,
        )
    }

    /// A stretch of memory, in blocks of the size asked for, but never larger
    /// than the bridge takes. `None` for one that does not fit the address
    /// space.
    pub fn new(address: u32, size: usize, block: Option<usize>, largest: usize, depth: usize) -> (dump:
        Option<Dump>)
        requires
            1 <= largest <= u16::MAX,
        ensures
            dump is Some <==> address + 4 * (size / 4) <= 0x1_0000_0000,
            dump matches Some(dump) ==> dump.wf() && dump == (Dump {
                address,
                words: (size / 4) as usize,
                block: match block {
                    Some(wanted) => if wanted < 1 {
                        1
                    } else if wanted > largest {
                        largest
                    } else {
                        wanted
                    },
                    None => largest,
                },
                depth: if depth < 1 {
                    1
                } else {
                    depth
                },
            }),
    {
        let words: usize = size / 4;
        if words as u64 > 0x4000_0000 || address as u64 + 4 * (words as u64) > 0x1_0000_0000 {
            return None;
        }
        let block: usize = match block {
            Some(wanted) => if wanted < 1 {
                1
            } else if wanted > largest {
                largest
            } else {
                wanted
            },
            None => largest,
        };
        let depth: usize = if depth < 1 {
            1
        } else {
            depth
        };
        Some(Dump { address, words, block, depth })
    }

    /// How many blocks there are.
    pub fn count(&self) -> (blocks: usize)
        requires
            self.wf(),
        ensures
            blocks == self.blocks(),
    {
        let full: usize = self.words / self.block;
        let rest: usize = self.words % self.block;
        proof {
            let (w, b) = (self.words as int, self.block as int);
            assert(w == b * full + rest) by (nonlinear_arith)
                requires
                    full == w / b,
                    rest == w % b,
                    b > 0,
            ;
            if rest == 0 {
                assert((w + b - 1) / b == full) by (nonlinear_arith)
                    requires
                        w == b * full + rest,
                        rest == 0,
                        b > 0,
                ;
            } else {
                assert((w + b - 1) / b == full + 1) by (nonlinear_arith)
                    requires
                        w == b * full + rest,
                        0 < rest < b,
                        b > 0,
                ;
            }
            assert(full <= w) by (nonlinear_arith)
                requires
                    full == w / b,
                    b > 0,
                    w >= 0,
            ;
        }
        if rest == 0 {
            full
        } else {
            full + 1
        }
    }

    /// How many words a block holds.
    pub fn words_in(&self, index: usize) -> (words: usize)
        requires
            self.wf(),
            index < self.blocks(),
        ensures
            words == self.span(index as int),
            1 <= words <= self.block,
    {
        proof {
            lemma_block_starts_inside(*self, index as int);
        }
        let left: usize = self.words - index * self.block;
        if left < self.block {
            left
        } else {
            self.block
        }
    }

    /// The request for a block.
    pub fn request(&self, index: usize) -> (payload: Vec<u8>)
        requires
            self.wf(),
            index < self.blocks(),
        ensures
            payload@ == self.request_of(index as int),
    {
        proof {
            lemma_block_starts_inside(*self, index as int);
        }
        let offset: usize = index * self.block;
        let words: usize = self.words_in(index);
        serial_dap::encode_memory_read(
            (self.address as u64 + 4 * (offset as u64)) as u32,
            words as u16,
        )
    }

    /// Does a reply hold all of its block?
    pub fn is_whole(&self, index: usize, reply: &[u8]) -> (whole: bool)
        requires
            self.wf(),
            index < self.blocks(),
        ensures
            whole == (reply@.len() == 4 * self.span(index as int)),
    {
        reply.len() == 4 * self.words_in(index)
    }

    /// How many requests are sent before the first reply is read.
    pub fn ahead(&self) -> (requests: usize)
        requires
            self.wf(),
        ensures
            requests == (if self.depth < self.blocks() {
                self.depth as int
            } else {
                self.blocks()
            }),
    {
        let blocks: usize = self.count();
        if self.depth < blocks {
            self.depth
        } else {
            blocks
        }
    }

    /// The block to ask for before the reply to block `index` is read, if any
    /// is left.
    pub fn next(&self, index: usize) -> (block: Option<usize>)
        requires
            self.wf(),
            index < self.blocks(),
        ensures
            block == (if index + self.depth < self.blocks() {
                Some((index + self.depth) as usize)
            } else {
                None
            }),
    {
        let blocks: usize = self.count();
        if self.depth < blocks - index {
            Some(index + self.depth)
        } else {
            None
        }
    }
}

/// A block starts inside the stretch.
proof fn lemma_block_starts_inside(dump: Dump, index: int)
    requires
        dump.wf(),
        0 <= index < dump.blocks(),
    ensures
        0 <= dump.offset(index) < dump.words,
        dump.offset(index) <= usize::MAX,
{
    let (w, b) = (dump.words as int, dump.block as int);
    let n = dump.blocks();
    assert(index * b < w) by (nonlinear_arith)
        requires
            n == (w + b - 1) / b,
            index <= n - 1,
            b > 0,
    ;
    assert(index * b >= 0) by (nonlinear_arith)
        requires
            index >= 0,
            b > 0,
    ;
}

/// The blocks follow one another without a gap or an overlap, and together are
/// the whole stretch.
pub proof fn law_blocks_cover_the_stretch(dump: Dump, index: int)
    requires
        dump.wf(),
        0 <= index < dump.blocks(),
    ensures
        dump.offset(0) == 0,
        index + 1 < dump.blocks() ==> dump.offset(index) + dump.span(index) == dump.offset(
            index + 1,
        ),
        index + 1 == dump.blocks() ==> dump.offset(index) + dump.span(index) == dump.words,
        dump.span(index) >= 1,
{
    lemma_block_starts_inside(dump, index);
    let (w, b) = (dump.words as int, dump.block as int);
    assert((index + 1) * b == index * b + b) by (nonlinear_arith);
    if index + 1 < dump.blocks() {
        lemma_block_starts_inside(dump, index + 1);
    } else {
        let n = dump.blocks();
        assert(n * b >= w) by (nonlinear_arith)
            requires
                n == (w + b - 1) / b,
                b > 0,
        ;
    }
}

/// A block is asked for at its own address and with its own number of words:
/// its request is the address, four bytes, and the number, two, the least
/// significant first. No block has more words than a block holds.
pub proof fn law_a_block_is_asked_for_where_it_is(dump: Dump, index: int)
    requires
        dump.wf(),
        0 <= index < dump.blocks(),
    ensures
        ({
            let request = dump.request_of(index);
            let address = dump.address + 4 * (index * dump.block);
            let left = dump.words - index * dump.block;
            let count = request[4] + 256 * request[5];
            &&& request.len() == 6
            &&& request[0] == address % 256
            &&& request[1] == address / 256 % 256
            &&& request[2] == address / 65536 % 256
            &&& request[3] == address / 16777216
            &&& count == left || count == dump.block
            &&& 1 <= count <= dump.block && count <= left
            &&& address + 4 * count <= 0x1_0000_0000
        }),
{
    lemma_block_starts_inside(dump, index);
}

/// Every block is asked for once: the first of them before any reply is read,
/// as many as may be in flight, and each other before the reply to the one that
/// is so many before it.
pub proof fn law_every_block_is_asked_for(dump: Dump, index: int)
    requires
        dump.wf(),
        0 <= index < dump.blocks(),
    ensures
        index < dump.depth || 0 <= index - dump.depth < dump.blocks(),
        dump.blocks() * dump.block >= dump.words,
        (dump.blocks() - 1) * dump.block < dump.words,
{
    let (w, b) = (dump.words as int, dump.block as int);
    let n = dump.blocks();
    assert(n * b >= w && (n - 1) * b < w) by (nonlinear_arith)
        requires
            n == (w + b - 1) / b,
            b > 0,
    ;
}

} // verus!
