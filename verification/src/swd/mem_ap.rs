//! What a target's MEM-AP makes of the transfers it is sent, and what the block
//! accesses therefore do to its memory.

use super::link::{LinkView, Step};
use super::memory;
use super::registers;
use super::registers::Program;
use super::wire::{AP_DRW_READ, AP_DRW_WRITE, AP_TAR, DP_RDBUFF};
use vstd::prelude::*;

verus! {

/// A MEM-AP set up for word access: the memory behind it, word by word at their
/// addresses, the address that the next access goes to, and the word that the
/// last posted read fetched.
#[verifier::ext_equal]
pub struct MemAp {
    pub memory: Map<int, u32>,
    pub tar: int,
    pub posted: u32,
}

/// The address after an access: the next word, and at the end of a 1 KiB region
/// its start, which is all that ADIv5 promises of auto-increment.
pub open spec fn advanced(tar: int) -> int {
    tar / 1024 * 1024 + (tar % 1024 + 4) % 1024
}

impl MemAp {
    /// What a transfer leaves behind.
    pub open spec fn after(self, transfer: (u8, u32)) -> MemAp {
        if transfer.0 == AP_TAR {
            MemAp { tar: transfer.1 as int, ..self }
        } else if transfer.0 == AP_DRW_READ {
            MemAp { posted: self.memory[self.tar], tar: advanced(self.tar), ..self }
        } else if transfer.0 == AP_DRW_WRITE {
            MemAp {
                memory: self.memory.insert(self.tar, transfer.1),
                tar: advanced(self.tar),
                ..self
            }
        } else {
            self
        }
    }

    /// What a whole program leaves behind.
    pub open spec fn run(self, program: Program) -> MemAp
        decreases program.len(),
    {
        if program.len() == 0 {
            self
        } else {
            self.run(program.drop_last()).after(program.last())
        }
    }

    /// The word that the transfer at `at` brings: what was posted before it.
    pub open spec fn answer(self, program: Program, at: int) -> u32 {
        self.run(program.take(at)).posted
    }
}

/// Does a transfer bring a posted word?
pub open spec fn brings_word(transfer: (u8, u32)) -> bool {
    transfer.0 == AP_DRW_READ || transfer.0 == DP_RDBUFF
}

/// Did every transfer that brings a word bring the one that the MEM-AP answers
/// with?
pub open spec fn answered_by(steps: Seq<Step>, program: Program, ap: MemAp) -> bool {
    forall|k: int|
        0 <= k < program.len() && brings_word(program[k]) && registers::done(steps, k)
            ==> #[trigger] registers::word_at(steps, k) == ap.answer(program, k)
}

/// The memory with `values` at `address` and the words after it.
pub open spec fn stored(memory: Map<int, u32>, address: int, values: Seq<u32>) -> Map<int, u32>
    decreases values.len(),
{
    if values.len() == 0 {
        memory
    } else {
        stored(memory, address, values.drop_last()).insert(
            address + 4 * (values.len() - 1),
            values.last(),
        )
    }
}

/// One program after another is both together.
pub(crate) proof fn lemma_run_on(ap: MemAp, p: Program, q: Program)
    ensures
        ap.run(p + q) == ap.run(p).run(q),
    decreases q.len(),
{
    if q.len() == 0 {
        assert(p + q =~= p);
    } else {
        assert((p + q).drop_last() =~= p + q.drop_last());
        lemma_run_on(ap, p, q.drop_last());
    }
}

/// What a transfer of a first or a second program is answered with.
proof fn lemma_answer_on(ap: MemAp, p: Program, q: Program, at: int)
    requires
        0 <= at <= p.len() + q.len(),
    ensures
        at <= p.len() ==> ap.answer(p + q, at) == ap.answer(p, at),
        at >= p.len() ==> ap.answer(p + q, at) == ap.run(p).answer(q, at - p.len()),
{
    if at <= p.len() {
        assert((p + q).take(at) =~= p.take(at));
    }
    if at >= p.len() {
        assert((p + q).take(at) =~= p + q.take(at - p.len()));
        lemma_run_on(ap, p, q.take(at - p.len()));
    }
}

/// A write of TAR sets the address.
proof fn lemma_tar(ap: MemAp, address: u32)
    ensures
        ap.run(seq![(AP_TAR, address)]) == (MemAp { tar: address as int, ..ap }),
{
    let tar: Program = seq![(AP_TAR, address)];
    reveal_with_fuel(MemAp::run, 2);
    assert(tar.drop_last() =~= Seq::empty());
}

/// Where auto-increment has come to inside a region.
proof fn lemma_region(address: int, j: int)
    requires
        0 <= address,
        address % 4 == 0,
        0 <= j < memory::region_words(address),
    ensures
        j + 1 < memory::region_words(address) ==> advanced(address + 4 * j) == address + 4 * (j
            + 1),
{
    let into = address % 1024;
    assert(address == 1024 * (address / 1024) + into);
    assert(into % 4 == 0);
    assert(into + 4 * j < 1024);
    assert((address + 4 * j) / 1024 == address / 1024) by {
        assert(1024 * (address / 1024) <= address + 4 * j < 1024 * (address / 1024) + 1024);
    }
    assert((address + 4 * j) % 1024 == into + 4 * j);
}

/// Reading on from `address` inside a region.
proof fn lemma_reads(ap: MemAp, address: int, count: nat)
    requires
        ap.tar == address,
        0 <= address,
        address % 4 == 0,
        count <= memory::region_words(address),
    ensures
        ({
            let reads = Seq::new(count, |i: int| (AP_DRW_READ, 0u32));
            let end = ap.run(reads);
            &&& end.memory == ap.memory
            &&& count > 0 ==> end.posted == ap.memory[address + 4 * (count - 1)]
            &&& count < memory::region_words(address) ==> end.tar == address + 4 * count
        }),
    decreases count,
{
    let reads = Seq::new(count, |i: int| (AP_DRW_READ, 0u32));
    if count == 0 {
        assert(reads.len() == 0);
    } else {
        let fewer = Seq::new((count - 1) as nat, |i: int| (AP_DRW_READ, 0u32));
        assert(reads.drop_last() =~= fewer);
        lemma_reads(ap, address, (count - 1) as nat);
        lemma_region(address, count - 1);
    }
}

/// Writing on from `address` inside a region.
proof fn lemma_writes(ap: MemAp, address: int, values: Seq<u32>)
    requires
        ap.tar == address,
        0 <= address,
        address % 4 == 0,
        values.len() <= memory::region_words(address),
    ensures
        ({
            let writes = Seq::new(values.len(), |i: int| (AP_DRW_WRITE, values[i]));
            let end = ap.run(writes);
            &&& end.memory == stored(ap.memory, address, values)
            &&& values.len() < memory::region_words(address) ==> end.tar == address + 4
                * values.len()
        }),
    decreases values.len(),
{
    let writes = Seq::new(values.len(), |i: int| (AP_DRW_WRITE, values[i]));
    if values.len() == 0 {
        assert(writes.len() == 0);
    } else {
        let fewer = values.drop_last();
        assert(writes.drop_last() =~= Seq::new(fewer.len(), |i: int| (AP_DRW_WRITE, fewer[i])));
        lemma_writes(ap, address, fewer);
        lemma_region(address, values.len() - 1);
    }
}

/// A stretch read inside a region.
proof fn lemma_span(ap: MemAp, address: int, n: int)
    requires
        0 <= address < 0x1_0000_0000,
        address % 4 == 0,
        0 < n <= memory::region_words(address),
    ensures
        ({
            let program = memory::span_program(address as u32, n as nat);
            &&& program.len() == n + 2
            &&& ap.run(program).memory == ap.memory
            &&& forall|i: int|
                0 <= i < n ==> #[trigger] ap.answer(program, i + 2) == ap.memory[address + 4 * i]
        }),
{
    let program = memory::span_program(address as u32, n as nat);
    let tar: Program = seq![(AP_TAR, address as u32)];
    let at = ap.run(tar);
    lemma_tar(ap, address as u32);
    let reads = Seq::new(n as nat, |i: int| (AP_DRW_READ, 0u32));
    assert(registers::block_read_program(true, 0x0c, n as nat) =~= reads.push((DP_RDBUFF, 0u32)));
    lemma_reads(at, address, n as nat);
    let body = registers::block_read_program(true, 0x0c, n as nat);
    assert(body.drop_last() =~= reads);
    lemma_run_on(ap, tar, body);
    assert forall|i: int| 0 <= i < n implies #[trigger] ap.answer(program, i + 2) == ap.memory[address
        + 4 * i] by {
        lemma_answer_on(ap, tar, body, i + 2);
        assert(body.take(i + 1) =~= Seq::new((i + 1) as nat, |j: int| (AP_DRW_READ, 0u32)));
        lemma_reads(at, address, (i + 1) as nat);
    }
}

/// A block read, stretch by stretch.
proof fn lemma_fetch(ap: MemAp, address: int, count: int)
    requires
        0 <= address,
        address % 4 == 0,
        0 <= count,
        address + 4 * count <= 0x1_0000_0000,
    ensures
        ({
            let program = memory::fetch_program(address, count);
            &&& ap.run(program).memory == ap.memory
            &&& forall|i: int|
                0 <= i < count ==> {
                    let place = #[trigger] memory::fetch_place(address, i);
                    &&& 0 <= place < program.len()
                    &&& brings_word(program[place])
                    &&& ap.answer(program, place) == ap.memory[address + 4 * i]
                }
        }),
    decreases count,
{
    let program = memory::fetch_program(address, count);
    let n = memory::span_words(address, count);
    if count > 0 {
        let into = address % 1024;
        assert(into % 4 == 0 && memory::region_words(address) >= 1) by {
            assert(address == 1024 * (address / 1024) + into);
        }
        let first = memory::span_program(address as u32, n as nat);
        let rest = memory::fetch_program(address + 4 * n, count - n);
        assert(program =~= first + rest);
        lemma_span(ap, address, n);
        let middle = ap.run(first);
        lemma_fetch(middle, address + 4 * n, count - n);
        lemma_run_on(ap, first, rest);
        let body = registers::block_read_program(true, 0x0c, n as nat);
        assert forall|i: int| 0 <= i < count implies {
            let place = #[trigger] memory::fetch_place(address, i);
            &&& 0 <= place < program.len()
            &&& brings_word(program[place])
            &&& ap.answer(program, place) == ap.memory[address + 4 * i]
        } by {
            let place = memory::fetch_place(address, i);
            if i < n {
                lemma_answer_on(ap, first, rest, i + 2);
                assert(place == i + 2);
                assert(program[place] == body[i + 1]);
            } else {
                let j = i - n;
                let inner = memory::fetch_place(address + 4 * n, j);
                assert(place == n + 2 + inner);
                lemma_answer_on(ap, first, rest, place);
                assert(program[place] == rest[inner]);
                assert(middle.memory[address + 4 * n + 4 * j] == ap.memory[address + 4 * i]);
            }
        }
    } else {
        assert(program.len() == 0);
    }
}

/// Storing a first and a second part is storing both.
proof fn lemma_stored_on(map: Map<int, u32>, address: int, a: Seq<u32>, b: Seq<u32>)
    ensures
        stored(stored(map, address, a), address + 4 * a.len(), b) == stored(map, address, a + b),
    decreases b.len(),
{
    if b.len() == 0 {
        assert(a + b =~= a);
    } else {
        lemma_stored_on(map, address, a, b.drop_last());
        assert((a + b).drop_last() =~= a + b.drop_last());
    }
}

/// A stretch written inside a region.
proof fn lemma_store_span(ap: MemAp, address: int, values: Seq<u32>, program: Program)
    requires
        0 <= address < 0x1_0000_0000,
        address % 4 == 0,
        values.len() <= memory::region_words(address),
        program == seq![(AP_TAR, address as u32)] + Seq::new(
            values.len(),
            |i: int| (AP_DRW_WRITE, values[i]),
        ),
    ensures
        ap.run(program).memory == stored(ap.memory, address, values),
{
    let tar: Program = seq![(AP_TAR, address as u32)];
    let writes = Seq::new(values.len(), |i: int| (AP_DRW_WRITE, values[i]));
    lemma_tar(ap, address as u32);
    lemma_writes(ap.run(tar), address, values);
    lemma_run_on(ap, tar, writes);
}

/// A block written, stretch by stretch.
proof fn lemma_store(ap: MemAp, address: int, values: Seq<u32>)
    requires
        0 <= address,
        address % 4 == 0,
        address + 4 * values.len() <= 0x1_0000_0000,
    ensures
        ap.run(memory::store_program(address, values)).memory == stored(
            ap.memory,
            address,
            values,
        ),
    decreases values.len(),
{
    let program = memory::store_program(address, values);
    let n = memory::span_words(address, values.len() as int);
    if values.len() > 0 {
        let into = address % 1024;
        assert(into % 4 == 0 && memory::region_words(address) >= 1) by {
            assert(address == 1024 * (address / 1024) + into);
        }
        let head = values.take(n);
        let first = seq![(AP_TAR, address as u32)] + Seq::new(
            head.len(),
            |i: int| (AP_DRW_WRITE, head[i]),
        );
        let rest = memory::store_program(address + 4 * n, values.skip(n));
        assert(Seq::new(head.len(), |i: int| (AP_DRW_WRITE, head[i])) =~= Seq::new(
            n as nat,
            |i: int| (AP_DRW_WRITE, values[i]),
        ));
        assert(program == first + rest);
        lemma_store_span(ap, address, head, first);
        lemma_run_on(ap, first, rest);
        lemma_store(ap.run(first), address + 4 * n, values.skip(n));
        lemma_stored_on(ap.memory, address, head, values.skip(n));
        assert(head + values.skip(n) =~= values);
    } else {
        assert(program.len() == 0);
    }
}

/// What stands in a memory after words were stored in it.
proof fn lemma_stored_at(map: Map<int, u32>, address: int, values: Seq<u32>, at: int)
    ensures
        stored(map, address, values)[at] == (if address <= at < address + 4 * values.len() && (at
            - address) % 4 == 0 {
            values[(at - address) / 4]
        } else {
            map[at]
        }),
    decreases values.len(),
{
    if values.len() > 0 {
        lemma_stored_at(map, address, values.drop_last(), at);
    }
}

/// Setting the access port up moves nothing.
proof fn lemma_set_up(ap: MemAp, selected: Option<u32>, csw: bool)
    ensures
        ap.run(memory::select_program(selected, csw)) == ap,
{
    let program = memory::select_program(selected, csw);
    reveal_with_fuel(MemAp::run, 3);
    if program.len() == 2 {
        assert(program.drop_last().drop_last() =~= Seq::empty());
    } else if program.len() == 1 {
        assert(program.drop_last() =~= Seq::empty());
    }
}

/// A block read that succeeded brings the memory: every word of the buffer is
/// the one at its address, across every region boundary, and the memory stays as
/// it was.
pub proof fn law_a_block_read_brings_the_memory(
    before: LinkView,
    after: LinkView,
    address: u32,
    old_values: Seq<u32>,
    values: Seq<u32>,
    ap: MemAp,
)
    requires
        memory::addressable(address, old_values.len()),
        memory::block_read(before, after, address, old_values, values, Ok(())),
        answered_by(
            after.asked(before).since(before),
            memory::read_words_program(before, address, old_values.len()),
            ap,
        ),
    ensures
        values.len() == old_values.len(),
        forall|i: int| 0 <= i < values.len() ==> #[trigger] values[i] == ap.memory[address + 4 * i],
        ap.run(memory::read_words_program(before, address, old_values.len())).memory == ap.memory,
{
    let steps = after.asked(before).since(before);
    let select = memory::select_program(before.selected, before.csw);
    let setup = select.len() as int;
    let count = old_values.len() as int;
    let fetch = memory::fetch_program(address as int, count);
    let program = memory::read_words_program(before, address, old_values.len());
    assert(program =~= select + fetch);
    assert(steps.len() == program.len());
    lemma_set_up(ap, before.selected, before.csw);
    lemma_fetch(ap, address as int, count);
    lemma_run_on(ap, select, fetch);
    let rest = memory::steps_from(steps, setup as nat);
    assert forall|i: int| 0 <= i < values.len() implies #[trigger] values[i] == ap.memory[address + 4
        * i] by {
        let place = memory::fetch_place(address as int, i);
        assert(rest[place] == steps[setup + place]);
        assert(program[setup + place] == fetch[place]);
        assert(registers::done(steps, setup + place)) by {
            if setup + place < steps.len() - 1 {
                assert(steps[setup + place].outcome() is Ok);
            }
        }
        assert(registers::done(rest, place));
        assert(registers::word_at(rest, place) == registers::word_at(steps, setup + place));
        lemma_answer_on(ap, select, fetch, setup + place);
    }
}

/// A block write that succeeded leaves each of its words at its address, across
/// every region boundary, and the rest of the memory as it was.
pub proof fn law_a_block_write_changes_exactly_its_words(
    before: LinkView,
    steps: Seq<Step>,
    address: u32,
    values: Seq<u32>,
    ap: MemAp,
    at: int,
)
    requires
        address % 4 == 0,
        memory::addressable(address, values.len()),
        registers::ran(steps, memory::write_words_program(before, address, values)),
        memory::finished(steps) is Ok,
    ensures
        steps.len() == memory::write_words_program(before, address, values).len(),
        ap.run(memory::write_words_program(before, address, values)).memory[at] == (if address
            <= at < address + 4 * values.len() && (at - address) % 4 == 0 {
            values[(at - address) / 4]
        } else {
            ap.memory[at]
        }),
{
    let select = memory::select_program(before.selected, before.csw);
    let store = memory::store_program(address as int, values);
    let tail = store.push((DP_RDBUFF, 0u32));
    let program = memory::write_words_program(before, address, values);
    assert(program =~= select + tail);
    lemma_set_up(ap, before.selected, before.csw);
    lemma_run_on(ap, select, tail);
    assert(tail.drop_last() =~= store);
    lemma_store(ap, address as int, values);
    lemma_stored_at(ap.memory, address as int, values, at);
}

/// What was written is read back: a block read of the words that a block write
/// left behind fills its buffer with them.
pub proof fn law_a_block_write_is_read_back(
    link: LinkView,
    address: u32,
    values: Seq<u32>,
    before: LinkView,
    after: LinkView,
    old_values: Seq<u32>,
    read: Seq<u32>,
    steps: Seq<Step>,
    ap: MemAp,
)
    requires
        address % 4 == 0,
        memory::addressable(address, values.len()),
        registers::ran(steps, memory::write_words_program(link, address, values)),
        memory::finished(steps) is Ok,
        old_values.len() == values.len(),
        memory::block_read(before, after, address, old_values, read, Ok(())),
        answered_by(
            after.asked(before).since(before),
            memory::read_words_program(before, address, old_values.len()),
            ap.run(memory::write_words_program(link, address, values)),
        ),
    ensures
        read == values,
{
    let written = ap.run(memory::write_words_program(link, address, values));
    law_a_block_read_brings_the_memory(before, after, address, old_values, read, written);
    assert forall|i: int| 0 <= i < read.len() implies read[i] == values[i] by {
        law_a_block_write_changes_exactly_its_words(
            link,
            steps,
            address,
            values,
            ap,
            address + 4 * i,
        );
        assert((address + 4 * i - address) / 4 == i);
    }
    assert(read =~= values);
}

} // verus!
