//! A target's access port as ADIv5 describes it, told by the bits of the
//! requests that reach it, and what the block accesses do to its memory.

use super::link::{LinkView, Step};
use super::mem_ap::{self, MemAp};
use super::memory;
use super::registers;
use super::registers::Program;
use vstd::prelude::*;

verus! {

/// The debug port's SELECT, and the registers of the access port behind it.
#[verifier::ext_equal]
pub struct Port {
    pub select: u32,
    pub csw: u32,
    pub tar: int,
    pub posted: u32,
    /// The memory, word by word at their addresses.
    pub memory: Map<int, u32>,
}

/// The address after an access: the next word, and at the end of a kibibyte its
/// start.
pub open spec fn next_word(address: int) -> int {
    address / 1024 * 1024 + (address % 1024 + 4) % 1024
}

impl Port {
    /// Is bank zero of the first access port selected, and does that move whole
    /// words and go on to the next one?
    pub open spec fn moves_words(self) -> bool {
        self.select == 0 && self.csw % 8 == 2 && self.csw / 16 % 4 == 1
    }

    /// What a transfer leaves behind. A request's lowest bit says whether the
    /// access port is meant, the next whether it is read, and the two after
    /// that which register: of the debug port, 8 is SELECT; of the access port,
    /// 0 is CSW, 4 is TAR and 12 is DRW.
    pub open spec fn after(self, transfer: (u8, u32)) -> Port {
        let (request, data) = transfer;
        let access_port = request % 2 == 1;
        let read = request / 2 % 2 == 1;
        let register = request / 4 % 4 * 4;
        if !access_port {
            if !read && register == 8 {
                Port { select: data, ..self }
            } else {
                self
            }
        } else if self.select != 0 {
            self
        } else if register == 0 && !read {
            Port { csw: data, ..self }
        } else if register == 4 && !read {
            Port { tar: data as int, ..self }
        } else if register == 12 && self.moves_words() {
            if read {
                Port { posted: self.memory[self.tar], tar: next_word(self.tar), ..self }
            } else {
                Port {
                    memory: self.memory.insert(self.tar, data),
                    tar: next_word(self.tar),
                    ..self
                }
            }
        } else {
            self
        }
    }

    /// What a whole program leaves behind.
    pub open spec fn run(self, program: Program) -> Port
        decreases program.len(),
    {
        if program.len() == 0 {
            self
        } else {
            self.run(program.drop_last()).after(program.last())
        }
    }

    /// The word that the transfer at `at` brings: what was posted before it.
    pub open spec fn answer(self, program: Program, at: int) -> u32 {
        self.run(program.take(at)).posted
    }

    spec fn words(self) -> MemAp {
        MemAp { memory: self.memory, tar: self.tar, posted: self.posted }
    }
}

/// Is a port as a link takes it to be?
pub open spec fn believed(link: LinkView, port: Port) -> bool {
    &&& link.selected matches Some(bank) ==> port.select == bank
    &&& link.selected == Some(0u32) && link.csw ==> port.moves_words()
}

/// Does every transfer of a program move words, or fetch what was posted?
spec fn word_moves(program: Program) -> bool {
    forall|k: int|
        0 <= k < program.len() ==> (#[trigger] program[k]).0 == 0x05 || program[k].0 == 0x0f
            || program[k].0 == 0x0d || program[k].0 == 0x0e
}

proof fn lemma_word_moves_on(p: Program, q: Program)
    requires
        word_moves(p),
        word_moves(q),
    ensures
        word_moves(p + q),
{
    assert forall|k: int| 0 <= k < (p + q).len() implies (#[trigger] (p + q)[k]).0 == 0x05 || (p
        + q)[k].0 == 0x0f || (p + q)[k].0 == 0x0d || (p + q)[k].0 == 0x0e by {
        if k < p.len() {
            assert((p + q)[k] == p[k]);
        } else {
            assert((p + q)[k] == q[k - p.len()]);
        }
    }
}

proof fn lemma_fetch_moves(address: int, count: int)
    ensures
        word_moves(memory::fetch_program(address, count)),
    decreases count,
{
    let n = memory::span_words(address, count);
    if count > 0 && n > 0 {
        let tar: Program = seq![(super::wire::AP_TAR, address as u32)];
        let reads = registers::block_read_program(true, 0x0c, n as nat);
        lemma_fetch_moves(address + 4 * n, count - n);
        assert(word_moves(tar));
        assert(word_moves(reads));
        lemma_word_moves_on(tar, reads);
        lemma_word_moves_on(tar + reads, memory::fetch_program(address + 4 * n, count - n));
    }
}

proof fn lemma_store_moves(address: int, values: Seq<u32>)
    ensures
        word_moves(memory::store_program(address, values)),
    decreases values.len(),
{
    let n = memory::span_words(address, values.len() as int);
    if values.len() > 0 && n > 0 {
        let tar: Program = seq![(super::wire::AP_TAR, address as u32)];
        let writes: Program = Seq::new(
            n as nat,
            |i: int| (super::wire::AP_DRW_WRITE, values[i]),
        );
        lemma_store_moves(address + 4 * n, values.skip(n));
        assert(word_moves(tar));
        assert(word_moves(writes));
        lemma_word_moves_on(tar, writes);
        lemma_word_moves_on(
            tar + writes,
            memory::store_program(address + 4 * n, values.skip(n)),
        );
    }
}

/// A port that moves words goes on doing so.
proof fn lemma_words(port: Port, program: Program)
    requires
        port.moves_words(),
        word_moves(program),
    ensures
        port.run(program).words() == port.words().run(program),
        port.run(program).moves_words(),
        port.run(program).csw == port.csw,
    decreases program.len(),
{
    if program.len() > 0 {
        let earlier = program.drop_last();
        assert forall|k: int| 0 <= k < earlier.len() implies (#[trigger] earlier[k]).0 == 0x05
            || earlier[k].0 == 0x0f || earlier[k].0 == 0x0d || earlier[k].0 == 0x0e by {
            assert(earlier[k] == program[k]);
        }
        lemma_words(port, earlier);
        let last = program[program.len() - 1];
        assert(last.0 == 0x05 || last.0 == 0x0f || last.0 == 0x0d || last.0 == 0x0e);
    }
}

proof fn lemma_port_run_on(port: Port, p: Program, q: Program)
    ensures
        port.run(p + q) == port.run(p).run(q),
    decreases q.len(),
{
    if q.len() == 0 {
        assert(p + q =~= p);
    } else {
        assert((p + q).drop_last() =~= p + q.drop_last());
        lemma_port_run_on(port, p, q.drop_last());
    }
}

/// Setting the access port up gets it to move words, and moves none.
proof fn lemma_port_set_up(link: LinkView, port: Port)
    requires
        believed(link, port),
    ensures
        ({
            let ready = port.run(memory::select_program(link.selected, link.csw));
            &&& ready.moves_words()
            &&& ready.words() == port.words()
        }),
{
    let program = memory::select_program(link.selected, link.csw);
    reveal_with_fuel(Port::run, 3);
    assert(0x2300_0052u32 % 8 == 2 && 0x2300_0052u32 / 16 % 4 == 1);
    if program.len() == 2 {
        assert(program.drop_last().drop_last() =~= Seq::empty());
        assert(program.drop_last().last() == program[0]);
    } else if program.len() == 1 {
        assert(program.drop_last() =~= Seq::empty());
    }
}

/// A block read on a port that is as the link takes it to be: whatever was
/// selected and set up before, the words that come are those of the memory, and
/// the memory stays as it was.
pub proof fn law_a_block_read_brings_the_words(
    before: LinkView,
    after: LinkView,
    address: u32,
    old_values: Seq<u32>,
    values: Seq<u32>,
    port: Port,
)
    requires
        memory::addressable(address, old_values.len()),
        memory::block_read(before, after, address, old_values, values, Ok(())),
        believed(before, port),
        answered(
            after.asked(before).since(before),
            memory::read_words_program(before, address, old_values.len()),
            port,
        ),
    ensures
        values.len() == old_values.len(),
        forall|i: int|
            0 <= i < values.len() ==> #[trigger] values[i] == port.memory[address + 4 * i],
        port.run(memory::read_words_program(before, address, old_values.len())).memory
            == port.memory,
        believed(
            after,
            port.run(memory::read_words_program(before, address, old_values.len())),
        ),
{
    let select = memory::select_program(before.selected, before.csw);
    let fetch = memory::fetch_program(address as int, old_values.len() as int);
    let program = memory::read_words_program(before, address, old_values.len());
    assert(program =~= select + fetch);
    let steps = after.asked(before).since(before);
    let ap = port.words();
    lemma_port_set_up(before, port);
    let ready = port.run(select);
    lemma_fetch_moves(address as int, old_values.len() as int);
    lemma_words(ready, fetch);
    lemma_port_run_on(port, select, fetch);
    assert(ap.run(select) == ap) by {
        reveal_with_fuel(MemAp::run, 3);
        if select.len() == 2 {
            assert(select.drop_last().drop_last() =~= Seq::empty());
            assert(select.drop_last().last() == select[0]);
        } else if select.len() == 1 {
            assert(select.drop_last() =~= Seq::empty());
        }
    }
    assert forall|k: int|
        0 <= k < program.len() && mem_ap::brings_word(program[k]) && registers::done(
            steps,
            k,
        ) implies #[trigger] registers::word_at(steps, k) == ap.answer(program, k) by {
        assert(registers::word_at(steps, k) == port.answer(program, k));
        let at = k - select.len();
        if k < select.len() {
            assert(program[k] == select[k]);
        } else {
            assert(program.take(k) =~= select + fetch.take(at));
            lemma_port_run_on(port, select, fetch.take(at));
            assert forall|j: int| 0 <= j < fetch.take(at).len() implies (#[trigger] fetch.take(
                at,
            )[j]).0 == 0x05 || fetch.take(at)[j].0 == 0x0f || fetch.take(at)[j].0 == 0x0d
                || fetch.take(at)[j].0 == 0x0e by {
                assert(fetch.take(at)[j] == fetch[j]);
            }
            lemma_words(ready, fetch.take(at));
            mem_ap::lemma_run_on(ap, select, fetch.take(at));
        }
    }
    mem_ap::law_a_block_read_brings_the_memory(before, after, address, old_values, values, ap);
    mem_ap::lemma_run_on(ap, select, fetch);
}

/// Did every transfer that brings a posted word bring the one that the port
/// answers with? Those are a read of the access port's DRW, which brings what
/// the one before it posted, and of the debug port's RDBUFF.
pub open spec fn answered(steps: Seq<Step>, program: Program, port: Port) -> bool {
    forall|k: int|
        0 <= k < program.len() && (program[k].0 == 15 || program[k].0 == 14) && registers::done(
            steps,
            k,
        ) ==> #[trigger] registers::word_at(steps, k) == port.answer(program, k)
}

/// A block write on a port that is as the link takes it to be leaves each of
/// its words at its address and the rest of the memory as it was.
pub proof fn law_a_block_write_leaves_the_words(
    before: LinkView,
    steps: Seq<Step>,
    address: u32,
    values: Seq<u32>,
    port: Port,
    at: int,
)
    requires
        address % 4 == 0,
        memory::addressable(address, values.len()),
        registers::ran(steps, memory::write_words_program(before, address, values)),
        memory::finished(steps) is Ok,
        believed(before, port),
    ensures
        port.run(memory::write_words_program(before, address, values)).memory[at] == (if address
            <= at < address + 4 * values.len() && (at - address) % 4 == 0 {
            values[(at - address) / 4]
        } else {
            port.memory[at]
        }),
        port.run(memory::write_words_program(before, address, values)).moves_words(),
{
    let select = memory::select_program(before.selected, before.csw);
    let store = memory::store_program(address as int, values);
    let tail = store.push((super::wire::DP_RDBUFF, 0u32));
    let program = memory::write_words_program(before, address, values);
    assert(program =~= select + tail);
    let ap = port.words();
    lemma_port_set_up(before, port);
    let ready = port.run(select);
    lemma_store_moves(address as int, values);
    assert(tail =~= store + seq![(super::wire::DP_RDBUFF, 0u32)]);
    assert(word_moves(seq![(super::wire::DP_RDBUFF, 0u32)]));
    lemma_word_moves_on(store, seq![(super::wire::DP_RDBUFF, 0u32)]);
    lemma_words(ready, tail);
    lemma_port_run_on(port, select, tail);
    assert(ap.run(select) == ap) by {
        reveal_with_fuel(MemAp::run, 3);
        if select.len() == 2 {
            assert(select.drop_last().drop_last() =~= Seq::empty());
            assert(select.drop_last().last() == select[0]);
        } else if select.len() == 1 {
            assert(select.drop_last() =~= Seq::empty());
        }
    }
    mem_ap::lemma_run_on(ap, select, tail);
    mem_ap::law_a_block_write_changes_exactly_its_words(before, steps, address, values, ap, at);
}

/// Setting an access port up for words: bank zero is selected with a write of 0
/// to the debug port's register 8, unless it is taken to be, and 0x2300_0052 is
/// written to the access port's register 0, unless it is taken to be there.
pub proof fn law_an_access_port_is_set_up_once(selected: Option<u32>, csw: bool)
    ensures
        ({
            let program = memory::select_program(selected, csw);
            let fresh = selected != Some(0u32);
            &&& program.len() == (if fresh {
                2int
            } else if csw {
                0
            } else {
                1
            })
            &&& fresh ==> program[0] == (8u8, 0u32)
            &&& program.len() > 0 ==> program.last() == (1u8, 0x2300_0052u32)
        }),
{
}

/// A single word that is read is the memory's word at its address, and one that
/// is written is there afterwards, with the rest of the memory as it was.
pub proof fn law_a_word_is_read_and_written_where_it_is(
    before: LinkView,
    after: LinkView,
    address: u32,
    value: u32,
    port: Port,
    at: int,
)
    requires
        address % 4 == 0,
        after.asked(before).went_on(before),
        registers::failure(after.asked(before).since(before)) is None,
        believed(before, port),
    ensures
        ({
            let steps = after.asked(before).since(before);
            let program = memory::read_words_program(before, address, 1);
            registers::ran(steps, program) && answered(steps, program, port)
                ==> registers::word_at(steps, steps.len() - 1) == port.memory[address as int]
                && port.run(program).memory == port.memory
        }),
        ({
            let steps = after.asked(before).since(before);
            let program = memory::write_words_program(before, address, seq![value]);
            registers::ran(steps, program) ==> port.run(program).memory[at] == (if at == address {
                value
            } else {
                port.memory[at]
            })
        }),
{
    let steps = after.asked(before).since(before);
    let reads = memory::read_words_program(before, address, 1);
    if registers::ran(steps, reads) && answered(steps, reads, port) {
        let setup = memory::select_program(before.selected, before.csw);
        let word = registers::word_at(steps, steps.len() - 1);
        assert(memory::region_words(address as int) >= 1);
        assert(memory::fetch_program(address + 4, 0) =~= Seq::empty());
        assert(memory::fetch_program(address as int, 1) =~= memory::span_program(address, 1));
        assert(memory::fetch_place(address as int, 0) == 2);
        assert(steps.len() == setup.len() + 3);
        let later = memory::steps_from(steps, setup.len());
        assert(later[2] == steps[steps.len() - 1]);
        let known = LinkView {
            selected: memory::selected_after(before.selected, steps),
            csw: memory::csw_after(before.selected, before.csw, steps),
            ..after
        };
        assert(known.asked(before).since(before) =~= steps);
        assert(memory::block_read(before, known, address, seq![0u32], seq![word], Ok(())));
        law_a_block_read_brings_the_words(before, known, address, seq![0u32], seq![word], port);
        assert(seq![word][0] == port.memory[address + 4 * 0]);
    }
    let writes = memory::write_words_program(before, address, seq![value]);
    if registers::ran(steps, writes) {
        law_a_block_write_leaves_the_words(before, steps, address, seq![value], port, at);
    }
}

} // verus!
