//! The tape machine as mathematics: its state, what one instruction does
//! to it, and what a run of many steps comes to.
use crate::brackets::{is_jump_table, is_pair, lemma_pair_unique_close, lemma_pair_unique_open};
use crate::instruction::Instruction;
use crate::io::IoEvent;
use vstd::prelude::*;

verus! {

/// The state of a tape machine.
pub struct Machine {
    /// The cells of the tape.
    pub tape: Seq<u8>,
    /// The place of the current cell.
    pub ptr: int,
    /// The place of the instruction that runs next.
    pub ip: int,
}

impl Machine {
    /// The machine before its first step: a tape of `cells` zeros, the
    /// first cell current, the first instruction next.
    pub open spec fn initial(cells: nat) -> Machine {
        Machine { tape: Seq::new(cells, |i: int| 0u8), ptr: 0, ip: 0 }
    }

    /// The current cell lies on the tape, and the next instruction in the
    /// program or just past its end.
    pub open spec fn wf(self, program: Seq<Instruction>) -> bool {
        &&& 0 <= self.ptr < self.tape.len()
        &&& 0 <= self.ip <= program.len()
    }

    /// The value of the current cell.
    pub open spec fn cell(self) -> u8 {
        self.tape[self.ptr]
    }
}

/// The eight low bits of a number: what a cell holds of it.
pub open spec fn wrapped(value: int) -> u8 {
    (value % 256) as u8
}

/// The place `by` cells from `ptr` on a tape of `cells` cells that closes
/// into a ring.
pub open spec fn moved(ptr: int, by: int, cells: int) -> int {
    (ptr + by) % cells
}

/// The place of the partner of the `Loop` or `End` at `at`.
pub open spec fn partner(program: Seq<Instruction>, at: int) -> int {
    choose|other: int| is_pair(program, at, other) || is_pair(program, other, at)
}

/// The machine has run past the last instruction.
pub open spec fn halted(program: Seq<Instruction>, m: Machine) -> bool {
    m.ip >= program.len()
}

/// The next instruction reads a byte.
pub open spec fn reading(program: Seq<Instruction>, m: Machine) -> bool {
    !halted(program, m) && program[m.ip] == Instruction::In
}

/// The machine after one step. `input` is what the read gave, where the
/// step is a read; no other step looks at it. A machine that has halted
/// stays as it is, and so does one whose read found nothing.
pub open spec fn step(program: Seq<Instruction>, m: Machine, input: Option<u8>) -> Machine {
    if halted(program, m) {
        m
    } else {
        match program[m.ip] {
            Instruction::Shift(by) => Machine {
                ptr: moved(m.ptr, by as int, m.tape.len() as int),
                ip: m.ip + 1,
                ..m
            },
            Instruction::Alt(by) => Machine {
                tape: m.tape.update(m.ptr, wrapped(m.cell() + by)),
                ip: m.ip + 1,
                ..m
            },
            Instruction::Out => Machine { ip: m.ip + 1, ..m },
            Instruction::In => match input {
                Some(byte) => Machine { tape: m.tape.update(m.ptr, byte), ip: m.ip + 1, ..m },
                None => m,
            },
            Instruction::Loop => if m.cell() == 0 {
                Machine { ip: partner(program, m.ip) + 1, ..m }
            } else {
                Machine { ip: m.ip + 1, ..m }
            },
            Instruction::End => if m.cell() != 0 {
                Machine { ip: partner(program, m.ip) + 1, ..m }
            } else {
                Machine { ip: m.ip + 1, ..m }
            },
            Instruction::Clear => Machine { tape: m.tape.update(m.ptr, 0u8), ip: m.ip + 1, ..m },
            Instruction::Copy { mul, offset } => {
                let target = moved(m.ptr, offset as int, m.tape.len() as int);
                Machine {
                    tape: m.tape.update(target, wrapped(m.tape[target] + m.cell() * mul)),
                    ip: m.ip + 1,
                    ..m
                }
            },
            Instruction::NoOp => m,
        }
    }
}

/// The use of the capability that one step makes, if any: a write of the
/// current cell, or a read, which gave `input`.
pub open spec fn event(program: Seq<Instruction>, m: Machine, input: Option<u8>) -> Option<
    IoEvent,
> {
    if halted(program, m) {
        None
    } else {
        match program[m.ip] {
            Instruction::Out => Some(IoEvent::Write(m.cell())),
            Instruction::In => Some(IoEvent::Read(input)),
            _ => None,
        }
    }
}

/// The machine after as many steps as `inputs` is long, the `k`-th of them
/// with `inputs[k]` as its input.
pub open spec fn run(program: Seq<Instruction>, m: Machine, inputs: Seq<Option<u8>>) -> Machine
    decreases inputs.len(),
{
    if inputs.len() == 0 {
        m
    } else {
        step(program, run(program, m, inputs.drop_last()), inputs.last())
    }
}

/// The uses of the capability that those steps make, in their order.
pub open spec fn trace(program: Seq<Instruction>, m: Machine, inputs: Seq<Option<u8>>) -> Seq<
    IoEvent,
>
    decreases inputs.len(),
{
    if inputs.len() == 0 {
        Seq::empty()
    } else {
        let before = trace(program, m, inputs.drop_last());
        match event(program, run(program, m, inputs.drop_last()), inputs.last()) {
            Some(e) => before.push(e),
            None => before,
        }
    }
}

/// The last of the steps was a read that found nothing.
pub open spec fn blocked(program: Seq<Instruction>, m: Machine, inputs: Seq<Option<u8>>) -> bool {
    &&& inputs.len() > 0
    &&& reading(program, run(program, m, inputs.drop_last()))
    &&& inputs.last() is None
}

/// In a well nested program the partner of a place is what a jump table
/// holds there.
pub proof fn lemma_partner_is_table_entry(program: Seq<Instruction>, table: Seq<usize>, at: int)
    requires
        is_jump_table(program, table),
        0 <= at < program.len(),
        program[at] is Loop || program[at] is End,
    ensures
        partner(program, at) == table[at],
{
    let t = table[at] as int;
    let p = partner(program, at);
    if program[at] is Loop {
        assert(is_pair(program, at, t));
        assert(is_pair(program, at, p) || is_pair(program, p, at));
        lemma_pair_unique_close(program, at, t, p);
    } else {
        assert(is_pair(program, t, at));
        assert(is_pair(program, at, p) || is_pair(program, p, at));
        lemma_pair_unique_open(program, t, p, at);
    }
}

/// A step keeps the machine on its tape and in its program, where the
/// program has a jump table, and never changes the length of the tape.
pub proof fn lemma_step_wf(
    program: Seq<Instruction>,
    table: Seq<usize>,
    m: Machine,
    input: Option<u8>,
)
    requires
        is_jump_table(program, table),
        m.wf(program),
    ensures
        step(program, m, input).wf(program),
        step(program, m, input).tape.len() == m.tape.len(),
{
    if !halted(program, m) {
        if program[m.ip] is Loop || program[m.ip] is End {
            lemma_partner_is_table_entry(program, table, m.ip);
        }
    }
}

/// The steps from `past` to `now` are one run of at most `limit` steps:
/// `now` continues `past`, no step was taken once the program had halted,
/// and none after a read that found no input.
pub open spec fn ran(
    program: Seq<Instruction>,
    origin: Machine,
    past: Seq<Option<u8>>,
    now: Seq<Option<u8>>,
    limit: int,
) -> bool {
    &&& past.len() <= now.len() <= past.len() + limit
    &&& now.take(past.len() as int) == past
    &&& forall|k: int|
        past.len() <= k < now.len() ==> !halted(program, run(program, origin, #[trigger] now.take(k)))
    &&& forall|k: int|
        past.len() < k < now.len() ==> !blocked(program, origin, #[trigger] now.take(k))
}

/// A run goes on by one step, taken from a state that has not halted and
/// is not blocked.
pub proof fn lemma_ran_on(
    program: Seq<Instruction>,
    origin: Machine,
    past: Seq<Option<u8>>,
    current: Seq<Option<u8>>,
    next: Seq<Option<u8>>,
)
    requires
        ran(program, origin, past, current, current.len() - past.len()),
        next.len() == current.len() + 1,
        next.drop_last() == current,
        !halted(program, run(program, origin, current)),
        current.len() > past.len() ==> !blocked(program, origin, current),
    ensures
        ran(program, origin, past, next, next.len() - past.len()),
{
    assert(next.take(past.len() as int) =~= current.take(past.len() as int));
    assert forall|k: int| past.len() <= k < next.len() implies !halted(
        program,
        run(program, origin, #[trigger] next.take(k)),
    ) by {
        if k < current.len() {
            assert(next.take(k) =~= current.take(k));
        } else {
            assert(next.take(k) =~= current);
        }
    }
    assert forall|k: int| past.len() < k < next.len() implies !blocked(
        program,
        origin,
        #[trigger] next.take(k),
    ) by {
        if k < current.len() {
            assert(next.take(k) =~= current.take(k));
        } else {
            assert(next.take(k) =~= current);
        }
    }
}

/// Alterations add up: altering a cell by `a` and then by `b` is altering
/// it by `a + b`, and altering it by a multiple of 256 changes nothing.
pub proof fn lemma_wrapped_adds(cell: u8, a: int, b: int, turns: int)
    ensures
        wrapped(wrapped(cell + a) + b) == wrapped(cell + a + b),
        wrapped(cell + 256 * turns) == cell,
        wrapped(cell as int) == cell,
{
    vstd::arithmetic::div_mod::lemma_add_mod_noop(cell + a, b, 256);
    vstd::arithmetic::div_mod::lemma_mod_multiples_vanish(turns, cell as int, 256);
    vstd::arithmetic::div_mod::lemma_small_mod(cell as nat, 256);
    vstd::arithmetic::div_mod::lemma_mod_bound(cell + a, 256);
    vstd::arithmetic::div_mod::lemma_mod_bound(cell + a + b, 256);
    vstd::arithmetic::div_mod::lemma_mod_bound(((cell + a) % 256) + b, 256);
    vstd::arithmetic::div_mod::lemma_small_mod(((cell + a) % 256) as nat, 256);
    vstd::arithmetic::div_mod::lemma_add_mod_noop((cell + a) % 256, b, 256);
}

/// Moves add up: moving by `a` and then by `b` is moving by `a + b`, a
/// move stays on the tape, and a move once round the tape, in either
/// direction, ends where it began.
pub proof fn lemma_moved_adds(ptr: int, a: int, b: int, cells: int, turns: int)
    requires
        0 <= ptr < cells,
    ensures
        0 <= moved(ptr, a, cells) < cells,
        moved(moved(ptr, a, cells), b, cells) == moved(ptr, a + b, cells),
        moved(ptr, cells * turns, cells) == ptr,
        moved(ptr, 0, cells) == ptr,
{
    vstd::arithmetic::div_mod::lemma_mod_bound(ptr + a, cells);
    vstd::arithmetic::div_mod::lemma_small_mod(ptr as nat, cells as nat);
    vstd::arithmetic::div_mod::lemma_mod_multiples_vanish(turns, ptr, cells);
    vstd::arithmetic::div_mod::lemma_small_mod(((ptr + a) % cells) as nat, cells as nat);
    vstd::arithmetic::div_mod::lemma_add_mod_noop(ptr + a, b, cells);
    vstd::arithmetic::div_mod::lemma_add_mod_noop((ptr + a) % cells, b, cells);
}

/// The pointer wraps at both ends of the tape: one step on from the last
/// cell is the first cell, and one step back from the first is the last.
pub proof fn lemma_moved_wraps(cells: int)
    requires
        cells > 0,
    ensures
        moved(cells - 1, 1, cells) == 0,
        moved(0, -1, cells) == cells - 1,
{
    vstd::arithmetic::div_mod::lemma_mod_self_0(cells);
    vstd::arithmetic::div_mod::lemma_mod_multiples_vanish(-1, cells - 1, cells);
    vstd::arithmetic::div_mod::lemma_small_mod((cells - 1) as nat, cells as nat);
}

/// A `Shift(1)` that runs with the last cell current makes the first cell
/// current.
pub proof fn lemma_shift_past_the_end(program: Seq<Instruction>, m: Machine, input: Option<u8>)
    requires
        m.wf(program),
        !halted(program, m),
        program[m.ip] == Instruction::Shift(1),
        m.ptr == m.tape.len() - 1,
    ensures
        step(program, m, input) == (Machine { ptr: 0, ip: m.ip + 1, ..m }),
{
    lemma_moved_wraps(m.tape.len() as int);
}

/// A run of `Alt(1)`s, as long as `inputs`, adds its length to the current
/// cell and changes nothing else.
pub proof fn lemma_increments(program: Seq<Instruction>, m: Machine, inputs: Seq<Option<u8>>)
    requires
        m.wf(program),
        m.ip + inputs.len() <= program.len(),
        forall|k: int| m.ip <= k < m.ip + inputs.len() ==> program[k] == Instruction::Alt(1),
    ensures
        run(program, m, inputs) == (Machine {
            tape: m.tape.update(m.ptr, wrapped(m.cell() + inputs.len())),
            ip: m.ip + inputs.len(),
            ..m
        }),
    decreases inputs.len(),
{
    if inputs.len() == 0 {
        lemma_wrapped_adds(m.cell(), 0, 0, 0);
        assert(m.tape.update(m.ptr, m.cell()) =~= m.tape);
    } else {
        let fewer = inputs.drop_last();
        lemma_increments(program, m, fewer);
        let before = run(program, m, fewer);
        assert(program[m.ip + fewer.len()] == Instruction::Alt(1));
        lemma_wrapped_adds(m.cell(), fewer.len() as int, 1, 0);
        assert(before.tape.update(m.ptr, wrapped(before.cell() + 1)) =~= m.tape.update(
            m.ptr,
            wrapped(m.cell() + inputs.len()),
        ));
    }
}

/// Incrementing a cell 256 times gives it its value back: a run of 256
/// `Alt(1)`s leaves the tape as it was.
pub proof fn lemma_256_increments(program: Seq<Instruction>, m: Machine, inputs: Seq<Option<u8>>)
    requires
        m.wf(program),
        inputs.len() == 256,
        m.ip + 256 <= program.len(),
        forall|k: int| m.ip <= k < m.ip + 256 ==> program[k] == Instruction::Alt(1),
    ensures
        run(program, m, inputs) == (Machine { ip: m.ip + 256, ..m }),
{
    lemma_increments(program, m, inputs);
    lemma_wrapped_adds(m.cell(), 0, 0, 1);
    assert(m.tape.update(m.ptr, m.cell()) =~= m.tape);
}

/// A run can be cut in two: the steps of `first`, and then those of `rest`
/// from where the first part ended.
pub proof fn lemma_run_concat(
    program: Seq<Instruction>,
    m: Machine,
    first: Seq<Option<u8>>,
    rest: Seq<Option<u8>>,
)
    ensures
        run(program, m, first + rest) == run(program, run(program, m, first), rest),
        trace(program, m, first + rest) == trace(program, m, first) + trace(
            program,
            run(program, m, first),
            rest,
        ),
    decreases rest.len(),
{
    if rest.len() == 0 {
        assert(first + rest =~= first);
        assert(trace(program, m, first) + Seq::<IoEvent>::empty() =~= trace(program, m, first));
    } else {
        lemma_run_concat(program, m, first, rest.drop_last());
        assert((first + rest).drop_last() =~= first + rest.drop_last());
        assert((first + rest).last() == rest.last());
        let middle = run(program, m, first);
        let a = trace(program, m, first);
        let b = trace(program, middle, rest.drop_last());
        match event(program, run(program, middle, rest.drop_last()), rest.last()) {
            Some(e) => {
                assert((a + b).push(e) =~= a + b.push(e));
            },
            None => {},
        }
    }
}

/// A run that continues an earlier one is the earlier one, followed from
/// where it ended by the steps that are new.
pub proof fn lemma_run_since(
    program: Seq<Instruction>,
    m: Machine,
    past: Seq<Option<u8>>,
    now: Seq<Option<u8>>,
)
    requires
        past.len() <= now.len(),
        now.take(past.len() as int) == past,
    ensures
        run(program, m, now) == run(program, run(program, m, past), now.skip(past.len() as int)),
        trace(program, m, now) == trace(program, m, past) + trace(
            program,
            run(program, m, past),
            now.skip(past.len() as int),
        ),
{
    assert(now =~= past + now.skip(past.len() as int));
    lemma_run_concat(program, m, past, now.skip(past.len() as int));
}

} // verus!
