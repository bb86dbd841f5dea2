//! Why the rewrite passes are right: a rewritten piece of a program does
//! to the tape and the pointer what the piece that it stands for does.
use crate::brackets::{depth, is_pair, lemma_pair_unique_close, lemma_pair_unique_open};
use crate::instruction::Instruction;
use crate::io::IoEvent;
use crate::machine::{
    event, lemma_moved_adds, lemma_run_concat, lemma_wrapped_adds, moved, partner, run, step,
    trace, wrapped, Machine,
};
use crate::rewrite::{
    clear_loop_at, copy_loop_at, copy_loop_down_first, copy_loop_down_last, copy_of, merged,
    merges, multiplier,
};
use vstd::prelude::*;

verus! {

/// Two machines hold the same tape and stand at the same cell.
pub open spec fn same_data(a: Machine, b: Machine) -> bool {
    a.tape == b.tape && a.ptr == b.ptr
}

/// Two alterations added up in sixteen bits, with wrap-around, do to a
/// cell what the two do one after the other.
pub proof fn lemma_alts_merge(cell: u8, a: i16, b: i16)
    ensures
        wrapped(wrapped(cell + a) + b) == wrapped(cell + a.wrapping_add(b)),
{
    lemma_wrapped_adds(cell, a as int, b as int, 0);
    let sum = a.wrapping_add(b) as int;
    if a + b > i16::MAX {
        assert(sum == a + b - 0x1_0000);
        vstd::arithmetic::div_mod::lemma_mod_multiples_vanish(-256, cell + a + b, 256);
    } else if a + b < i16::MIN {
        assert(sum == a + b + 0x1_0000);
        vstd::arithmetic::div_mod::lemma_mod_multiples_vanish(256, cell + a + b, 256);
    }
}

/// Two moves added up do to the pointer what the two do one after the
/// other, as long as their sum is a move that can be written down.
pub proof fn lemma_shifts_merge(ptr: int, a: isize, b: isize, cells: int)
    requires
        0 <= ptr < cells,
        isize::MIN <= a + b <= isize::MAX,
    ensures
        moved(moved(ptr, a as int, cells), b as int, cells) == moved(
            ptr,
            a.wrapping_add(b) as int,
            cells,
        ),
{
    lemma_moved_adds(ptr, a as int, b as int, cells, 0);
}

/// A copy by the multiplier of `x` adds to the target what a copy by `x`
/// itself would add.
pub proof fn lemma_multiplier(target: u8, source: u8, x: i16)
    requires
        x > 0,
    ensures
        wrapped(target + source * x) == wrapped(target + source * multiplier(x)),
{
    let low = x as int % 256;
    let high = x as int / 256;
    vstd::arithmetic::div_mod::lemma_fundamental_div_mod(x as int, 256);
    assert(multiplier(x) == low);
    assert(source * x == source * low + 256 * (source * high)) by (nonlinear_arith)
        requires
            x == 256 * high + low,
    ;
    vstd::arithmetic::div_mod::lemma_mod_multiples_vanish(
        source * high,
        target + source * low,
        256,
    );
}

/// The first step of a run can be taken on its own.
pub proof fn lemma_run_first(program: Seq<Instruction>, m: Machine, inputs: Seq<Option<u8>>)
    requires
        inputs.len() > 0,
    ensures
        run(program, m, inputs) == run(program, step(program, m, inputs[0]), inputs.skip(1)),
        trace(program, m, inputs) == (match event(program, m, inputs[0]) {
            Some(e) => seq![e],
            None => Seq::<IoEvent>::empty(),
        }) + trace(program, step(program, m, inputs[0]), inputs.skip(1)),
{
    let first = seq![inputs[0]];
    assert(inputs =~= first + inputs.skip(1));
    lemma_run_concat(program, m, first, inputs.skip(1));
    assert(first.drop_last() =~= Seq::<Option<u8>>::empty());
    assert(run(program, m, first.drop_last()) == m);
    assert(run(program, m, first) == step(program, m, inputs[0]));
    assert(trace(program, m, first.drop_last()) =~= Seq::<IoEvent>::empty());
    match event(program, m, inputs[0]) {
        Some(e) => {
            assert(trace(program, m, first) =~= seq![e]);
        },
        None => {
            assert(trace(program, m, first) =~= Seq::<IoEvent>::empty());
        },
    }
}

/// Contraction is right: where two neighbours belong to one run, the
/// instruction that they are merged into does in one step what they do in
/// two. Of two moves this holds as long as their sum can be written down.
pub proof fn lemma_merged_step(
    long: Seq<Instruction>,
    short: Seq<Instruction>,
    m: Machine,
    n: Machine,
    inputs: Seq<Option<u8>>,
    input: Option<u8>,
)
    requires
        m.wf(long),
        n.wf(short),
        same_data(m, n),
        m.ip + 2 <= long.len(),
        n.ip + 1 <= short.len(),
        merges(long[m.ip], long[m.ip + 1]),
        short[n.ip] == merged(long[m.ip], long[m.ip + 1]),
        long[m.ip] matches Instruction::Shift(a) ==> long[m.ip + 1] matches Instruction::Shift(b)
            ==> isize::MIN <= a + b <= isize::MAX,
        inputs.len() == 2,
    ensures
        same_data(run(long, m, inputs), step(short, n, input)),
        run(long, m, inputs).ip == m.ip + 2,
        step(short, n, input).ip == n.ip + 1,
        trace(long, m, inputs) == Seq::<IoEvent>::empty(),
        event(short, n, input) is None,
{
    lemma_run_first(long, m, inputs);
    let m1 = step(long, m, inputs[0]);
    lemma_run_first(long, m1, inputs.skip(1));
    let m2 = step(long, m1, inputs.skip(1)[0]);
    assert(inputs.skip(1).skip(1) =~= Seq::<Option<u8>>::empty());
    assert(run(long, m, inputs) == m2);
    match (long[m.ip], long[m.ip + 1]) {
        (Instruction::Shift(a), Instruction::Shift(b)) => {
            lemma_moved_adds(m.ptr, a as int, b as int, m.tape.len() as int, 0);
            lemma_shifts_merge(m.ptr, a, b, m.tape.len() as int);
        },
        (Instruction::Alt(a), Instruction::Alt(b)) => {
            lemma_alts_merge(m.cell(), a, b);
            assert(m1.tape.update(m.ptr, wrapped(m1.cell() + b)) =~= m.tape.update(
                m.ptr,
                wrapped(m.cell() + a.wrapping_add(b)),
            ));
        },
        _ => {},
    }
    assert(trace(long, m, inputs) =~= Seq::<IoEvent>::empty());
}

/// In a clearing loop the `Loop` and the `End` are partners.
pub proof fn lemma_clear_loop_partner(program: Seq<Instruction>, at: int)
    requires
        0 <= at,
        at + 3 <= program.len(),
        clear_loop_at(program, at),
    ensures
        partner(program, at) == at + 2,
        partner(program, at + 2) == at,
{
    assert(depth(program, at + 1) == depth(program, at) + 1);
    assert(depth(program, at + 2) == depth(program, at + 1));
    assert(depth(program, at + 3) == depth(program, at + 2) - 1);
    assert(is_pair(program, at, at + 2));
    let p = partner(program, at);
    assert(is_pair(program, at, p) || is_pair(program, p, at));
    lemma_pair_unique_close(program, at, at + 2, p);
    let q = partner(program, at + 2);
    assert(is_pair(program, at + 2, q) || is_pair(program, q, at + 2));
    lemma_pair_unique_open(program, at, q, at + 2);
}

/// Inside a clearing loop, with the cell not yet zero: two steps for each
/// unit that the cell holds bring it to zero and the machine out of the
/// loop.
proof fn lemma_clear_rounds(
    program: Seq<Instruction>,
    at: int,
    m: Machine,
    inputs: Seq<Option<u8>>,
)
    requires
        m.wf(program),
        0 <= at,
        at + 3 <= program.len(),
        clear_loop_at(program, at),
        m.ip == at + 1,
        m.cell() > 0,
        inputs.len() == 2 * m.cell(),
    ensures
        run(program, m, inputs) == (Machine { tape: m.tape.update(m.ptr, 0u8), ip: at + 3, ..m }),
        trace(program, m, inputs) == Seq::<IoEvent>::empty(),
    decreases m.cell(),
{
    lemma_clear_loop_partner(program, at);
    lemma_run_first(program, m, inputs);
    let m1 = step(program, m, inputs[0]);
    let rest1 = inputs.skip(1);
    lemma_run_first(program, m1, rest1);
    let m2 = step(program, m1, rest1[0]);
    let rest2 = rest1.skip(1);
    vstd::arithmetic::div_mod::lemma_small_mod((m.cell() - 1) as nat, 256);
    assert(m1.cell() == m.cell() - 1);
    assert(m2.tape == m1.tape && m2.ptr == m.ptr);
    if m1.cell() == 0 {
        assert(rest2 =~= Seq::<Option<u8>>::empty());
        assert(m1.tape =~= m.tape.update(m.ptr, 0u8));
    } else {
        lemma_clear_rounds(program, at, m2, rest2);
        assert(m2.tape.update(m.ptr, 0u8) =~= m.tape.update(m.ptr, 0u8));
    }
    assert(trace(program, m, inputs) =~= Seq::<IoEvent>::empty());
}

/// What a clearing loop does: after one step, and two more for each unit
/// that the cell holds, the cell is zero, the machine stands behind the
/// loop, and nothing else has changed.
pub proof fn lemma_clear_loop_runs(program: Seq<Instruction>, m: Machine, inputs: Seq<Option<u8>>)
    requires
        m.wf(program),
        m.ip + 3 <= program.len(),
        clear_loop_at(program, m.ip),
        inputs.len() == 1 + 2 * m.cell(),
    ensures
        run(program, m, inputs) == (Machine { tape: m.tape.update(m.ptr, 0u8), ip: m.ip + 3, ..m }),
        trace(program, m, inputs) == Seq::<IoEvent>::empty(),
{
    lemma_clear_loop_partner(program, m.ip);
    lemma_run_first(program, m, inputs);
    let m1 = step(program, m, inputs[0]);
    let rest = inputs.skip(1);
    if m.cell() == 0 {
        assert(rest =~= Seq::<Option<u8>>::empty());
        assert(m.tape.update(m.ptr, 0u8) =~= m.tape);
    } else {
        lemma_clear_rounds(program, m.ip, m1, rest);
    }
    assert(trace(program, m, inputs) =~= Seq::<IoEvent>::empty());
}

/// Clear-loop folding is right: `Clear` does in one step what the
/// clearing loop does in all of its rounds.
pub proof fn lemma_clear_loop_is_clear(
    long: Seq<Instruction>,
    short: Seq<Instruction>,
    m: Machine,
    n: Machine,
    inputs: Seq<Option<u8>>,
    input: Option<u8>,
)
    requires
        m.wf(long),
        n.wf(short),
        same_data(m, n),
        m.ip + 3 <= long.len(),
        clear_loop_at(long, m.ip),
        n.ip + 1 <= short.len(),
        short[n.ip] == Instruction::Clear,
        inputs.len() == 1 + 2 * m.cell(),
    ensures
        same_data(run(long, m, inputs), step(short, n, input)),
        run(long, m, inputs).ip == m.ip + 3,
        step(short, n, input).ip == n.ip + 1,
        trace(long, m, inputs) == Seq::<IoEvent>::empty(),
        event(short, n, input) is None,
{
    lemma_clear_loop_runs(long, m, inputs);
}

/// The amount that each round of the copy loop at `at` adds to its target.
pub open spec fn copy_amount(program: Seq<Instruction>, at: int) -> i16 {
    if program[at + 1] is Alt {
        program[at + 3]->Alt_0
    } else {
        program[at + 2]->Alt_0
    }
}

/// The cell that the copy loop at `at` adds to, for a machine that stands
/// where `m` stands.
pub open spec fn copy_target(program: Seq<Instruction>, at: int, m: Machine) -> int {
    moved(m.ptr, copy_of(program, at)->offset as int, m.tape.len() as int)
}

/// The tape of `m` after `by` times the current cell has been added to
/// the cell at `target` and the current cell has been set to zero.
pub open spec fn copied_and_cleared(m: Machine, target: int, by: int) -> Seq<u8> {
    m.tape.update(target, wrapped(m.tape[target] + m.cell() * by)).update(m.ptr, 0u8)
}

/// In a copy loop the `Loop` and the `End` are partners.
pub proof fn lemma_copy_loop_partner(program: Seq<Instruction>, at: int)
    requires
        0 <= at,
        at + 6 <= program.len(),
        copy_loop_at(program, at),
    ensures
        partner(program, at) == at + 5,
        partner(program, at + 5) == at,
{
    assert(depth(program, at + 1) == depth(program, at) + 1);
    assert(depth(program, at + 2) == depth(program, at + 1));
    assert(depth(program, at + 3) == depth(program, at + 2));
    assert(depth(program, at + 4) == depth(program, at + 3));
    assert(depth(program, at + 5) == depth(program, at + 4));
    assert(depth(program, at + 6) == depth(program, at + 5) - 1);
    assert(is_pair(program, at, at + 5));
    let p = partner(program, at);
    assert(is_pair(program, at, p) || is_pair(program, p, at));
    lemma_pair_unique_close(program, at, at + 5, p);
    let q = partner(program, at + 5);
    assert(is_pair(program, at + 5, q) || is_pair(program, q, at + 5));
    lemma_pair_unique_open(program, at, q, at + 5);
}

/// One more round adds the amount once more.
proof fn lemma_one_more_round(held: u8, x: int, rounds: int)
    ensures
        wrapped(wrapped(held + x) + (rounds - 1) * x) == wrapped(held + rounds * x),
{
    lemma_wrapped_adds(held, x, (rounds - 1) * x, 0);
    assert(x + (rounds - 1) * x == rounds * x) by (nonlinear_arith);
}

/// Inside a copy loop that counts down first, with the cell not yet zero:
/// five steps for each unit that the cell holds add the amount to the
/// target that often, bring the cell to zero and the machine out of the
/// loop.
proof fn lemma_copy_rounds_down_first(
    program: Seq<Instruction>,
    at: int,
    m: Machine,
    inputs: Seq<Option<u8>>,
)
    requires
        m.wf(program),
        0 <= at,
        at + 6 <= program.len(),
        copy_loop_down_first(program, at),
        m.ip == at + 1,
        m.cell() > 0,
        inputs.len() == 5 * m.cell(),
        copy_target(program, at, m) != m.ptr,
    ensures
        run(program, m, inputs) == (Machine {
            tape: copied_and_cleared(
                m,
                copy_target(program, at, m),
                copy_amount(program, at) as int,
            ),
            ip: at + 6,
            ..m
        }),
        trace(program, m, inputs) == Seq::<IoEvent>::empty(),
    decreases m.cell(),
{
    let there = program[at + 2]->Shift_0;
    let back = program[at + 4]->Shift_0;
    let x = program[at + 3]->Alt_0;
    let t = copy_target(program, at, m);
    let cells = m.tape.len() as int;
    lemma_copy_loop_partner(program, at);
    lemma_moved_adds(m.ptr, there as int, back as int, cells, 0);
    lemma_run_first(program, m, inputs);
    let m1 = step(program, m, inputs[0]);
    let rest1 = inputs.skip(1);
    lemma_run_first(program, m1, rest1);
    let m2 = step(program, m1, rest1[0]);
    let rest2 = rest1.skip(1);
    lemma_run_first(program, m2, rest2);
    let m3 = step(program, m2, rest2[0]);
    let rest3 = rest2.skip(1);
    lemma_run_first(program, m3, rest3);
    let m4 = step(program, m3, rest3[0]);
    let rest4 = rest3.skip(1);
    lemma_run_first(program, m4, rest4);
    let m5 = step(program, m4, rest4[0]);
    let rest5 = rest4.skip(1);
    vstd::arithmetic::div_mod::lemma_small_mod((m.cell() - 1) as nat, 256);
    assert(m1.cell() == m.cell() - 1);
    assert(m2.ptr == t);
    assert(m3.tape[t] == wrapped(m.tape[t] + x));
    assert(m4.ptr == m.ptr);
    assert(m4.cell() == m.cell() - 1);
    assert(m5.tape == m3.tape && m5.ptr == m.ptr);
    if m4.cell() == 0 {
        assert(rest5 =~= Seq::<Option<u8>>::empty());
        assert(m.cell() * x == x as int) by (nonlinear_arith)
            requires
                m.cell() == 1,
        ;
        assert(m5.tape =~= copied_and_cleared(m, t, x as int));
    } else {
        lemma_copy_rounds_down_first(program, at, m5, rest5);
        lemma_one_more_round(m.tape[t], x as int, m.cell() as int);
        assert(copied_and_cleared(m5, t, x as int) =~= copied_and_cleared(m, t, x as int));
    }
    assert(trace(program, m, inputs) =~= Seq::<IoEvent>::empty());
}

/// The same for a copy loop that counts down last.
proof fn lemma_copy_rounds_down_last(
    program: Seq<Instruction>,
    at: int,
    m: Machine,
    inputs: Seq<Option<u8>>,
)
    requires
        m.wf(program),
        0 <= at,
        at + 6 <= program.len(),
        copy_loop_down_last(program, at),
        m.ip == at + 1,
        m.cell() > 0,
        inputs.len() == 5 * m.cell(),
        copy_target(program, at, m) != m.ptr,
    ensures
        run(program, m, inputs) == (Machine {
            tape: copied_and_cleared(
                m,
                copy_target(program, at, m),
                copy_amount(program, at) as int,
            ),
            ip: at + 6,
            ..m
        }),
        trace(program, m, inputs) == Seq::<IoEvent>::empty(),
    decreases m.cell(),
{
    let there = program[at + 1]->Shift_0;
    let back = program[at + 3]->Shift_0;
    let x = program[at + 2]->Alt_0;
    let t = copy_target(program, at, m);
    let cells = m.tape.len() as int;
    lemma_copy_loop_partner(program, at);
    lemma_moved_adds(m.ptr, there as int, back as int, cells, 0);
    lemma_run_first(program, m, inputs);
    let m1 = step(program, m, inputs[0]);
    let rest1 = inputs.skip(1);
    lemma_run_first(program, m1, rest1);
    let m2 = step(program, m1, rest1[0]);
    let rest2 = rest1.skip(1);
    lemma_run_first(program, m2, rest2);
    let m3 = step(program, m2, rest2[0]);
    let rest3 = rest2.skip(1);
    lemma_run_first(program, m3, rest3);
    let m4 = step(program, m3, rest3[0]);
    let rest4 = rest3.skip(1);
    lemma_run_first(program, m4, rest4);
    let m5 = step(program, m4, rest4[0]);
    let rest5 = rest4.skip(1);
    vstd::arithmetic::div_mod::lemma_small_mod((m.cell() - 1) as nat, 256);
    assert(m1.ptr == t);
    assert(m2.tape[t] == wrapped(m.tape[t] + x));
    assert(m3.ptr == m.ptr);
    assert(m4.cell() == m.cell() - 1);
    assert(m5.tape == m4.tape && m5.ptr == m.ptr);
    if m4.cell() == 0 {
        assert(rest5 =~= Seq::<Option<u8>>::empty());
        assert(m.cell() * x == x as int) by (nonlinear_arith)
            requires
                m.cell() == 1,
        ;
        assert(m5.tape =~= copied_and_cleared(m, t, x as int));
    } else {
        lemma_copy_rounds_down_last(program, at, m5, rest5);
        lemma_one_more_round(m.tape[t], x as int, m.cell() as int);
        assert(copied_and_cleared(m5, t, x as int) =~= copied_and_cleared(m, t, x as int));
    }
    assert(trace(program, m, inputs) =~= Seq::<IoEvent>::empty());
}

/// What a copy loop does, where its target is another cell than the
/// current one: after one step, and five more for each unit that the cell
/// holds, the target has gained the amount that often, the cell is zero,
/// the machine stands behind the loop, and nothing else has changed.
pub proof fn lemma_copy_loop_runs(program: Seq<Instruction>, m: Machine, inputs: Seq<Option<u8>>)
    requires
        m.wf(program),
        m.ip + 6 <= program.len(),
        copy_loop_at(program, m.ip),
        copy_target(program, m.ip, m) != m.ptr,
        inputs.len() == 1 + 5 * m.cell(),
    ensures
        run(program, m, inputs) == (Machine {
            tape: copied_and_cleared(
                m,
                copy_target(program, m.ip, m),
                copy_amount(program, m.ip) as int,
            ),
            ip: m.ip + 6,
            ..m
        }),
        trace(program, m, inputs) == Seq::<IoEvent>::empty(),
{
    let t = copy_target(program, m.ip, m);
    let x = copy_amount(program, m.ip);
    lemma_copy_loop_partner(program, m.ip);
    lemma_moved_adds(m.ptr, copy_of(program, m.ip)->offset as int, 0, m.tape.len() as int, 0);
    lemma_run_first(program, m, inputs);
    let m1 = step(program, m, inputs[0]);
    let rest = inputs.skip(1);
    if m.cell() == 0 {
        assert(rest =~= Seq::<Option<u8>>::empty());
        assert(m.cell() * x == 0) by (nonlinear_arith)
            requires
                m.cell() == 0,
        ;
        lemma_wrapped_adds(m.tape[t], 0, 0, 0);
        assert(copied_and_cleared(m, t, x as int) =~= m.tape);
    } else if copy_loop_down_first(program, m.ip) {
        lemma_copy_rounds_down_first(program, m.ip, m1, rest);
    } else {
        lemma_copy_rounds_down_last(program, m.ip, m1, rest);
    }
    assert(trace(program, m, inputs) =~= Seq::<IoEvent>::empty());
}

/// Copy-loop folding is right, where the target of the loop is another
/// cell than the current one: `Copy` and `Clear` do in two steps what the
/// copy loop does in all of its rounds.
pub proof fn lemma_copy_loop_is_copy_and_clear(
    long: Seq<Instruction>,
    short: Seq<Instruction>,
    m: Machine,
    n: Machine,
    inputs: Seq<Option<u8>>,
    pair: Seq<Option<u8>>,
)
    requires
        m.wf(long),
        n.wf(short),
        same_data(m, n),
        m.ip + 6 <= long.len(),
        copy_loop_at(long, m.ip),
        copy_target(long, m.ip, m) != m.ptr,
        n.ip + 2 <= short.len(),
        short[n.ip] == copy_of(long, m.ip),
        short[n.ip + 1] == Instruction::Clear,
        inputs.len() == 1 + 5 * m.cell(),
        pair.len() == 2,
    ensures
        same_data(run(long, m, inputs), run(short, n, pair)),
        run(long, m, inputs).ip == m.ip + 6,
        run(short, n, pair).ip == n.ip + 2,
        trace(long, m, inputs) == Seq::<IoEvent>::empty(),
        trace(short, n, pair) == Seq::<IoEvent>::empty(),
{
    let t = copy_target(long, m.ip, m);
    let x = copy_amount(long, m.ip);
    lemma_copy_loop_runs(long, m, inputs);
    lemma_moved_adds(m.ptr, copy_of(long, m.ip)->offset as int, 0, m.tape.len() as int, 0);
    lemma_run_first(short, n, pair);
    let n1 = step(short, n, pair[0]);
    lemma_run_first(short, n1, pair.skip(1));
    let n2 = step(short, n1, pair.skip(1)[0]);
    assert(pair.skip(1).skip(1) =~= Seq::<Option<u8>>::empty());
    assert(run(short, n, pair) == n2);
    lemma_multiplier(m.tape[t], m.cell(), x);
    assert(n2.tape =~= copied_and_cleared(m, t, x as int));
    assert(trace(short, n, pair) =~= Seq::<IoEvent>::empty());
}

} // verus!
