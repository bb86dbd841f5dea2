//! What each rewrite pass of the compiler computes, as functions on
//! sequences of instructions, and the laws that hold of them.
use crate::brackets::{
    delta, lemma_lowest_and_level, lemma_push_plain, lemma_push_same, level, lowest,
};
use crate::instruction::Instruction;
use vstd::prelude::*;

verus! {

// ---------------------------------------------------------------------
// Contraction
// ---------------------------------------------------------------------

/// Two neighbours belong to one run: both move the pointer, or both alter
/// the cell.
pub open spec fn merges(a: Instruction, b: Instruction) -> bool {
    (a is Shift && b is Shift) || (a is Alt && b is Alt)
}

/// The one instruction that stands for `a` followed by `b`, where they
/// merge. The amounts are added in their own width and wrap around.
pub open spec fn merged(a: Instruction, b: Instruction) -> Instruction {
    match (a, b) {
        (Instruction::Shift(x), Instruction::Shift(y)) => Instruction::Shift(x.wrapping_add(y)),
        (Instruction::Alt(x), Instruction::Alt(y)) => Instruction::Alt(x.wrapping_add(y)),
        _ => a,
    }
}

/// Appends `next` to `out`, merging it into the last instruction of `out`
/// where the two belong to one run.
pub open spec fn absorb(out: Seq<Instruction>, next: Instruction) -> Seq<Instruction> {
    if out.len() > 0 && merges(out.last(), next) {
        out.drop_last().push(merged(out.last(), next))
    } else {
        out.push(next)
    }
}

/// Contraction of `s`, continuing from what has been emitted as `out`.
pub open spec fn contract_onto(out: Seq<Instruction>, s: Seq<Instruction>) -> Seq<Instruction>
    decreases s.len(),
{
    if s.len() == 0 {
        out
    } else {
        absorb(contract_onto(out, s.drop_last()), s.last())
    }
}

/// Contraction: every maximal run of `Shift`s becomes one `Shift`, every
/// maximal run of `Alt`s one `Alt`; all else stays as it is.
pub open spec fn contract(s: Seq<Instruction>) -> Seq<Instruction> {
    contract_onto(Seq::empty(), s)
}

/// No two neighbours of `s` belong to one run.
pub open spec fn contracted(s: Seq<Instruction>) -> bool {
    forall|i: int, j: int|
        0 <= i && j == i + 1 && j < s.len() ==> !merges(#[trigger] s[i], #[trigger] s[j])
}

/// Contraction leaves no run of two or more behind.
pub proof fn lemma_contract_is_contracted(s: Seq<Instruction>)
    ensures
        contracted(contract(s)),
    decreases s.len(),
{
    if s.len() > 0 {
        lemma_contract_is_contracted(s.drop_last());
        let r = contract(s.drop_last());
        let x = s.last();
        let out = absorb(r, x);
        assert(out == contract(s));
        assert forall|i: int, j: int| 0 <= i && j == i + 1 && j < out.len() implies !merges(
            #[trigger] out[i],
            #[trigger] out[j],
        ) by {
            if r.len() > 0 && merges(r.last(), x) {
                if j < out.len() - 1 {
                    assert(out[i] == r[i] && out[j] == r[j]);
                } else if i >= 0 {
                    assert(out[i] == r[i]);
                    assert(!merges(r[i], r[j]));
                }
            } else {
                if j < out.len() - 1 {
                    assert(out[i] == r[i] && out[j] == r[j]);
                }
            }
        }
    }
}

/// Contraction changes nothing where no two neighbours belong to one run;
/// a run of a single instruction stays as it is.
pub proof fn lemma_contract_fixed(s: Seq<Instruction>)
    requires
        contracted(s),
    ensures
        contract(s) == s,
    decreases s.len(),
{
    if s.len() > 0 {
        let p = s.drop_last();
        assert forall|i: int, j: int| 0 <= i && j == i + 1 && j < p.len() implies !merges(
            #[trigger] p[i],
            #[trigger] p[j],
        ) by {
            assert(p[i] == s[i] && p[j] == s[j]);
        }
        lemma_contract_fixed(p);
        if p.len() > 0 {
            assert(!merges(s[p.len() - 1], s[p.len() as int]));
            assert(p.last() == s[p.len() - 1]);
        }
        assert(p.push(s.last()) =~= s);
    } else {
        assert(contract(s) =~= s);
    }
}

/// Contraction is idempotent: a second application changes nothing.
pub proof fn lemma_contract_idempotent(s: Seq<Instruction>)
    ensures
        contract(contract(s)) == contract(s),
{
    lemma_contract_is_contracted(s);
    lemma_contract_fixed(contract(s));
}

// ---------------------------------------------------------------------
// No-op reduction
// ---------------------------------------------------------------------

/// An instruction without effect: the placeholder, or a move or an
/// alteration by zero.
pub open spec fn is_noop(i: Instruction) -> bool {
    i == Instruction::NoOp || i == Instruction::Alt(0) || i == Instruction::Shift(0)
}

/// No-op reduction of `s`, continuing from what has been emitted as `out`.
pub open spec fn drop_noops_onto(out: Seq<Instruction>, s: Seq<Instruction>) -> Seq<Instruction>
    decreases s.len(),
{
    if s.len() == 0 {
        out
    } else if is_noop(s.last()) {
        drop_noops_onto(out, s.drop_last())
    } else {
        drop_noops_onto(out, s.drop_last()).push(s.last())
    }
}

/// No-op reduction: `s` without its instructions that have no effect, the
/// others in their order.
pub open spec fn drop_noops(s: Seq<Instruction>) -> Seq<Instruction> {
    drop_noops_onto(Seq::empty(), s)
}

/// No instruction of `s` is without effect.
pub open spec fn effective(s: Seq<Instruction>) -> bool {
    forall|i: int| 0 <= i < s.len() ==> !is_noop(#[trigger] s[i])
}

/// No-op reduction keeps exactly the instructions that satisfy the
/// filter "is not a no-op".
pub proof fn lemma_drop_noops_is_filter(s: Seq<Instruction>)
    ensures
        drop_noops(s) == s.filter(|i: Instruction| !is_noop(i)),
    decreases s.len(),
{
    reveal(Seq::filter);
    if s.len() > 0 {
        lemma_drop_noops_is_filter(s.drop_last());
    }
}

/// No-op reduction leaves no instruction without effect behind.
pub proof fn lemma_drop_noops_effective(s: Seq<Instruction>)
    ensures
        effective(drop_noops(s)),
    decreases s.len(),
{
    if s.len() > 0 {
        lemma_drop_noops_effective(s.drop_last());
    }
}

/// No-op reduction changes nothing where every instruction has an effect.
pub proof fn lemma_drop_noops_fixed(s: Seq<Instruction>)
    requires
        effective(s),
    ensures
        drop_noops(s) == s,
    decreases s.len(),
{
    if s.len() > 0 {
        let p = s.drop_last();
        assert forall|i: int| 0 <= i < p.len() implies !is_noop(#[trigger] p[i]) by {
            assert(p[i] == s[i]);
        }
        lemma_drop_noops_fixed(p);
        assert(!is_noop(s[s.len() - 1]));
        assert(p.push(s.last()) =~= s);
    } else {
        assert(drop_noops(s) =~= s);
    }
}

/// No-op reduction is idempotent.
pub proof fn lemma_drop_noops_idempotent(s: Seq<Instruction>)
    ensures
        drop_noops(drop_noops(s)) == drop_noops(s),
{
    lemma_drop_noops_effective(s);
    lemma_drop_noops_fixed(drop_noops(s));
}

// ---------------------------------------------------------------------
// Clear-loop folding
// ---------------------------------------------------------------------

/// The three instructions of `s` from position `i` on are `[-]`: a loop
/// that counts the current cell down to zero.
pub open spec fn clear_loop_at(s: Seq<Instruction>, i: int) -> bool {
    &&& s[i] == Instruction::Loop
    &&& s[i + 1] == Instruction::Alt(-1i16)
    &&& s[i + 2] == Instruction::End
}

/// Appends `next` to `out`; where the last three instructions are then a
/// clearing loop, they are replaced by one `Clear`.
pub open spec fn emit_clear(out: Seq<Instruction>, next: Instruction) -> Seq<Instruction> {
    let o = out.push(next);
    if o.len() >= 3 && clear_loop_at(o, o.len() - 3) {
        o.take(o.len() - 3).push(Instruction::Clear)
    } else {
        o
    }
}

/// Clear-loop folding of `s`, continuing from what has been emitted as
/// `out`.
pub open spec fn fold_clear_onto(out: Seq<Instruction>, s: Seq<Instruction>) -> Seq<Instruction>
    decreases s.len(),
{
    if s.len() == 0 {
        out
    } else {
        emit_clear(fold_clear_onto(out, s.drop_last()), s.last())
    }
}

/// Clear-loop folding: one scan from the left that emits each instruction
/// and, after each, replaces a clearing loop at the end of what it has
/// emitted by `Clear`.
pub open spec fn fold_clear(s: Seq<Instruction>) -> Seq<Instruction> {
    fold_clear_onto(Seq::empty(), s)
}

/// `s` holds no clearing loop.
pub open spec fn no_clear_loop(s: Seq<Instruction>) -> bool {
    forall|i: int| 0 <= i && i + 3 <= s.len() ==> !#[trigger] clear_loop_at(s, i)
}

/// The clearing loop, written out.
pub open spec fn clear_loop() -> Seq<Instruction> {
    seq![Instruction::Loop, Instruction::Alt(-1i16), Instruction::End]
}

/// Folding a concatenation is folding the second part onto the folded
/// first part.
pub proof fn lemma_fold_clear_concat(out: Seq<Instruction>, a: Seq<Instruction>, b: Seq<Instruction>)
    ensures
        fold_clear_onto(out, a + b) == fold_clear_onto(fold_clear_onto(out, a), b),
    decreases b.len(),
{
    if b.len() == 0 {
        assert(a + b =~= a);
    } else {
        lemma_fold_clear_concat(out, a, b.drop_last());
        assert((a + b).drop_last() =~= a + b.drop_last());
        assert((a + b).last() == b.last());
    }
}

/// What has been emitted is never looked at again once it ends in an
/// instruction that opens no clearing loop.
proof fn lemma_fold_clear_barrier(out: Seq<Instruction>, s: Seq<Instruction>)
    requires
        out.len() == 0 || (out.last() != Instruction::Loop && out.last() != Instruction::Alt(
            -1i16,
        )),
    ensures
        fold_clear_onto(out, s) == out + fold_clear(s),
    decreases s.len(),
{
    if s.len() == 0 {
        assert(out + fold_clear(s) =~= out);
    } else {
        lemma_fold_clear_barrier(out, s.drop_last());
        let r = fold_clear(s.drop_last());
        let x = s.last();
        let lo = (out + r).push(x);
        let sh = r.push(x);
        assert(lo =~= out + sh);
        if sh.len() >= 3 {
            assert(clear_loop_at(lo, lo.len() - 3) == clear_loop_at(sh, sh.len() - 3)) by {
                assert(lo[lo.len() - 3] == sh[sh.len() - 3]);
                assert(lo[lo.len() - 2] == sh[sh.len() - 2]);
                assert(lo[lo.len() - 1] == sh[sh.len() - 1]);
            }
            if clear_loop_at(sh, sh.len() - 3) {
                assert(lo.take(lo.len() - 3).push(Instruction::Clear) =~= out + sh.take(
                    sh.len() - 3,
                ).push(Instruction::Clear));
            }
        } else if lo.len() >= 3 {
            assert(out.len() > 0);
            assert(lo[out.len() - 1] == out.last());
            assert(!clear_loop_at(lo, lo.len() - 3));
        }
    }
}

/// A clearing loop becomes `Clear`, and what stands before it and after it
/// is folded on its own: where those parts hold no clearing loop, they are
/// kept as they are and in their order.
pub proof fn lemma_fold_clear_window(before: Seq<Instruction>, after: Seq<Instruction>)
    ensures
        fold_clear(before + clear_loop() + after) == fold_clear(before).push(Instruction::Clear)
            + fold_clear(after),
        no_clear_loop(before) && no_clear_loop(after) ==> fold_clear(
            before + clear_loop() + after,
        ) == before.push(Instruction::Clear) + after,
{
    let r = fold_clear(before);
    let w = clear_loop();
    let empty = Seq::<Instruction>::empty();
    lemma_fold_clear_concat(empty, before + w, after);
    lemma_fold_clear_concat(empty, before, w);
    let w1 = seq![Instruction::Loop];
    let w2 = seq![Instruction::Loop, Instruction::Alt(-1i16)];
    assert(w.drop_last() =~= w2);
    assert(w2.drop_last() =~= w1);
    assert(w1.drop_last() =~= empty);
    assert(fold_clear_onto(r, empty) == r);
    let r1 = r.push(Instruction::Loop);
    assert(fold_clear_onto(r, w1) == r1);
    let r2 = r1.push(Instruction::Alt(-1i16));
    assert(fold_clear_onto(r, w2) == r2);
    let r3 = r2.push(Instruction::End);
    assert(clear_loop_at(r3, r3.len() - 3));
    assert(r3.take(r3.len() - 3) =~= r);
    assert(fold_clear_onto(r, w) == r.push(Instruction::Clear));
    lemma_fold_clear_barrier(r.push(Instruction::Clear), after);
    if no_clear_loop(before) && no_clear_loop(after) {
        lemma_fold_clear_fixed(before);
        lemma_fold_clear_fixed(after);
    }
}

/// Clear-loop folding leaves no clearing loop behind.
pub proof fn lemma_fold_clear_no_loop(out: Seq<Instruction>, s: Seq<Instruction>)
    requires
        no_clear_loop(out),
    ensures
        no_clear_loop(fold_clear_onto(out, s)),
    decreases s.len(),
{
    if s.len() > 0 {
        lemma_fold_clear_no_loop(out, s.drop_last());
        let r = fold_clear_onto(out, s.drop_last());
        let o = r.push(s.last());
        let e = emit_clear(r, s.last());
        assert forall|i: int| 0 <= i && i + 3 <= e.len() implies !#[trigger] clear_loop_at(
            e,
            i,
        ) by {
            if o.len() >= 3 && clear_loop_at(o, o.len() - 3) {
                if i + 3 < e.len() {
                    assert(!clear_loop_at(r, i));
                }
            } else {
                if i + 3 < o.len() {
                    assert(!clear_loop_at(r, i));
                }
            }
        }
    }
}

/// Clear-loop folding changes nothing where there is no clearing loop.
pub proof fn lemma_fold_clear_fixed(s: Seq<Instruction>)
    requires
        no_clear_loop(s),
    ensures
        fold_clear(s) == s,
    decreases s.len(),
{
    if s.len() > 0 {
        let p = s.drop_last();
        assert forall|i: int| 0 <= i && i + 3 <= p.len() implies !#[trigger] clear_loop_at(
            p,
            i,
        ) by {
            assert(!clear_loop_at(s, i));
        }
        lemma_fold_clear_fixed(p);
        assert(p.push(s.last()) =~= s);
        if s.len() >= 3 {
            assert(!clear_loop_at(s, s.len() - 3));
        }
    } else {
        assert(fold_clear(s) =~= s);
    }
}

/// Clear-loop folding is idempotent.
pub proof fn lemma_fold_clear_idempotent(s: Seq<Instruction>)
    ensures
        fold_clear(fold_clear(s)) == fold_clear(s),
{
    lemma_fold_clear_no_loop(Seq::empty(), s);
    lemma_fold_clear_fixed(fold_clear(s));
}

/// Clear-loop folding brings in no instruction without effect.
pub proof fn lemma_fold_clear_effective(out: Seq<Instruction>, s: Seq<Instruction>)
    requires
        effective(out),
        effective(s),
    ensures
        effective(fold_clear_onto(out, s)),
    decreases s.len(),
{
    if s.len() > 0 {
        let p = s.drop_last();
        assert forall|i: int| 0 <= i < p.len() implies !is_noop(#[trigger] p[i]) by {
            assert(p[i] == s[i]);
        }
        lemma_fold_clear_effective(out, p);
        let r = fold_clear_onto(out, p);
        let e = emit_clear(r, s.last());
        assert(!is_noop(s[s.len() - 1]));
        assert forall|i: int| 0 <= i < e.len() implies !is_noop(#[trigger] e[i]) by {
            if i < r.len() {
                assert(!is_noop(r[i]));
            }
        }
    }
}

// ---------------------------------------------------------------------
// Copy-loop folding
// ---------------------------------------------------------------------

/// The six instructions of `s` from position `i` on are a copy loop that
/// counts down first: `[` `-` `Shift(o)` `Alt(x)` `Shift(-o)` `]`, `x > 0`.
pub open spec fn copy_loop_down_first(s: Seq<Instruction>, i: int) -> bool {
    &&& s[i] == Instruction::Loop
    &&& s[i + 1] == Instruction::Alt(-1i16)
    &&& s[i + 2] matches Instruction::Shift(there)
    &&& s[i + 3] matches Instruction::Alt(x)
    &&& s[i + 4] matches Instruction::Shift(back)
    &&& s[i + 5] == Instruction::End
    &&& x > 0
    &&& there == -back
}

/// The six instructions of `s` from position `i` on are a copy loop that
/// counts down last: `[` `Shift(o)` `Alt(x)` `Shift(-o)` `-` `]`, `x > 0`.
pub open spec fn copy_loop_down_last(s: Seq<Instruction>, i: int) -> bool {
    &&& s[i] == Instruction::Loop
    &&& s[i + 1] matches Instruction::Shift(there)
    &&& s[i + 2] matches Instruction::Alt(x)
    &&& s[i + 3] matches Instruction::Shift(back)
    &&& s[i + 4] == Instruction::Alt(-1i16)
    &&& s[i + 5] == Instruction::End
    &&& x > 0
    &&& there == -back
}

/// The six instructions of `s` from position `i` on are a copy loop, in
/// one of its two orders.
pub open spec fn copy_loop_at(s: Seq<Instruction>, i: int) -> bool {
    copy_loop_down_first(s, i) || copy_loop_down_last(s, i)
}

/// The multiplier that stands for adding `x` once per round: `x` itself
/// as far as eight bits hold it, which is all that a cell can tell.
pub open spec fn multiplier(x: i16) -> u8 {
    (x as int % 256) as u8
}

/// The `Copy` that stands for the copy loop at position `i` of `s`.
pub open spec fn copy_of(s: Seq<Instruction>, i: int) -> Instruction {
    if s[i + 1] is Alt {
        Instruction::Copy { mul: multiplier(s[i + 3]->Alt_0), offset: s[i + 2]->Shift_0 }
    } else {
        Instruction::Copy { mul: multiplier(s[i + 2]->Alt_0), offset: s[i + 1]->Shift_0 }
    }
}

/// Appends `next` to `out`; where the last six instructions are then a
/// copy loop, they are replaced by its `Copy` and a `Clear`.
pub open spec fn emit_copy(out: Seq<Instruction>, next: Instruction) -> Seq<Instruction> {
    let o = out.push(next);
    if o.len() >= 6 && copy_loop_at(o, o.len() - 6) {
        o.take(o.len() - 6).push(copy_of(o, o.len() - 6)).push(Instruction::Clear)
    } else {
        o
    }
}

/// Copy-loop folding of `s`, continuing from what has been emitted as
/// `out`.
pub open spec fn fold_copy_onto(out: Seq<Instruction>, s: Seq<Instruction>) -> Seq<Instruction>
    decreases s.len(),
{
    if s.len() == 0 {
        out
    } else {
        emit_copy(fold_copy_onto(out, s.drop_last()), s.last())
    }
}

/// Copy-loop folding: one scan from the left that emits each instruction
/// and, after each, replaces a copy loop at the end of what it has emitted
/// by `Copy` and `Clear`.
pub open spec fn fold_copy(s: Seq<Instruction>) -> Seq<Instruction> {
    fold_copy_onto(Seq::empty(), s)
}

/// `s` holds no copy loop.
pub open spec fn no_copy_loop(s: Seq<Instruction>) -> bool {
    forall|i: int| 0 <= i && i + 6 <= s.len() ==> !#[trigger] copy_loop_at(s, i)
}

/// Folding a concatenation is folding the second part onto the folded
/// first part.
pub proof fn lemma_fold_copy_concat(out: Seq<Instruction>, a: Seq<Instruction>, b: Seq<Instruction>)
    ensures
        fold_copy_onto(out, a + b) == fold_copy_onto(fold_copy_onto(out, a), b),
    decreases b.len(),
{
    if b.len() == 0 {
        assert(a + b =~= a);
    } else {
        lemma_fold_copy_concat(out, a, b.drop_last());
        assert((a + b).drop_last() =~= a + b.drop_last());
        assert((a + b).last() == b.last());
    }
}

/// An instruction that can stand inside a copy loop, before its end.
spec fn opens_copy_loop(i: Instruction) -> bool {
    i is Loop || i is Alt || i is Shift
}

/// What has been emitted is never looked at again once it ends in an
/// instruction that cannot stand inside a copy loop.
proof fn lemma_fold_copy_barrier(out: Seq<Instruction>, s: Seq<Instruction>)
    requires
        out.len() == 0 || !opens_copy_loop(out.last()),
    ensures
        fold_copy_onto(out, s) == out + fold_copy(s),
    decreases s.len(),
{
    if s.len() == 0 {
        assert(out + fold_copy(s) =~= out);
    } else {
        lemma_fold_copy_barrier(out, s.drop_last());
        let r = fold_copy(s.drop_last());
        let x = s.last();
        let lo = (out + r).push(x);
        let sh = r.push(x);
        assert(lo =~= out + sh);
        if sh.len() >= 6 {
            let a = lo.len() - 6;
            let b = sh.len() - 6;
            assert(lo[a] == sh[b] && lo[a + 1] == sh[b + 1] && lo[a + 2] == sh[b + 2] && lo[a
                + 3] == sh[b + 3] && lo[a + 4] == sh[b + 4] && lo[a + 5] == sh[b + 5]);
            if copy_loop_at(sh, b) {
                assert(lo.take(a).push(copy_of(lo, a)).push(Instruction::Clear) =~= out + sh.take(
                    b,
                ).push(copy_of(sh, b)).push(Instruction::Clear));
            }
        } else if lo.len() >= 6 {
            assert(out.len() > 0);
            assert(lo[out.len() - 1] == out.last());
            assert(!copy_loop_at(lo, lo.len() - 6));
        }
    }
}

/// Folding instructions of which none closes a loop only appends them.
proof fn lemma_fold_copy_open(out: Seq<Instruction>, s: Seq<Instruction>)
    requires
        forall|i: int| 0 <= i < s.len() ==> s[i] != Instruction::End,
    ensures
        fold_copy_onto(out, s) == out + s,
    decreases s.len(),
{
    if s.len() == 0 {
        assert(out + s =~= out);
    } else {
        lemma_fold_copy_open(out, s.drop_last());
        assert(s[s.len() - 1] != Instruction::End);
        assert((out + s.drop_last()).push(s.last()) =~= out + s);
    }
}

/// A copy loop becomes its `Copy` and a `Clear`, and what stands before it
/// and after it is folded on its own: where those parts hold no copy loop,
/// they are kept as they are and in their order.
pub proof fn lemma_fold_copy_window(
    before: Seq<Instruction>,
    window: Seq<Instruction>,
    after: Seq<Instruction>,
)
    requires
        window.len() == 6,
        copy_loop_at(window, 0),
    ensures
        fold_copy(before + window + after) == fold_copy(before).push(copy_of(window, 0)).push(
            Instruction::Clear,
        ) + fold_copy(after),
        no_copy_loop(before) && no_copy_loop(after) ==> fold_copy(before + window + after)
            == before.push(copy_of(window, 0)).push(Instruction::Clear) + after,
{
    let r = fold_copy(before);
    let empty = Seq::<Instruction>::empty();
    lemma_fold_copy_concat(empty, before + window, after);
    lemma_fold_copy_concat(empty, before, window);
    let head = window.drop_last();
    lemma_fold_copy_open(r, head);
    let o = (r + head).push(window.last());
    assert(o =~= r + window);
    let a = o.len() - 6;
    assert(o[a] == window[0] && o[a + 1] == window[1] && o[a + 2] == window[2] && o[a + 3]
        == window[3] && o[a + 4] == window[4] && o[a + 5] == window[5]);
    assert(copy_loop_at(o, a));
    assert(copy_of(o, a) == copy_of(window, 0));
    assert(o.take(a) =~= r);
    let folded = r.push(copy_of(window, 0)).push(Instruction::Clear);
    assert(fold_copy_onto(r, window) == folded);
    lemma_fold_copy_barrier(folded, after);
    if no_copy_loop(before) && no_copy_loop(after) {
        lemma_fold_copy_fixed(before);
        lemma_fold_copy_fixed(after);
    }
}

/// Copy-loop folding leaves no copy loop behind.
pub proof fn lemma_fold_copy_no_loop(out: Seq<Instruction>, s: Seq<Instruction>)
    requires
        no_copy_loop(out),
    ensures
        no_copy_loop(fold_copy_onto(out, s)),
    decreases s.len(),
{
    if s.len() > 0 {
        lemma_fold_copy_no_loop(out, s.drop_last());
        let r = fold_copy_onto(out, s.drop_last());
        let o = r.push(s.last());
        let e = emit_copy(r, s.last());
        assert forall|i: int| 0 <= i && i + 6 <= e.len() implies !#[trigger] copy_loop_at(e, i) by {
            if o.len() >= 6 && copy_loop_at(o, o.len() - 6) {
                if i + 6 < e.len() - 1 {
                    assert(!copy_loop_at(r, i));
                }
            } else {
                if i + 6 < o.len() {
                    assert(!copy_loop_at(r, i));
                }
            }
        }
    }
}

/// Copy-loop folding changes nothing where there is no copy loop.
pub proof fn lemma_fold_copy_fixed(s: Seq<Instruction>)
    requires
        no_copy_loop(s),
    ensures
        fold_copy(s) == s,
    decreases s.len(),
{
    if s.len() > 0 {
        let p = s.drop_last();
        assert forall|i: int| 0 <= i && i + 6 <= p.len() implies !#[trigger] copy_loop_at(p, i) by {
            assert(!copy_loop_at(s, i));
        }
        lemma_fold_copy_fixed(p);
        assert(p.push(s.last()) =~= s);
        if s.len() >= 6 {
            assert(!copy_loop_at(s, s.len() - 6));
        }
    } else {
        assert(fold_copy(s) =~= s);
    }
}

/// Copy-loop folding is idempotent.
pub proof fn lemma_fold_copy_idempotent(s: Seq<Instruction>)
    ensures
        fold_copy(fold_copy(s)) == fold_copy(s),
{
    lemma_fold_copy_no_loop(Seq::empty(), s);
    lemma_fold_copy_fixed(fold_copy(s));
}

/// Copy-loop folding brings in no instruction without effect.
pub proof fn lemma_fold_copy_effective(out: Seq<Instruction>, s: Seq<Instruction>)
    requires
        effective(out),
        effective(s),
    ensures
        effective(fold_copy_onto(out, s)),
    decreases s.len(),
{
    if s.len() > 0 {
        let p = s.drop_last();
        assert forall|i: int| 0 <= i < p.len() implies !is_noop(#[trigger] p[i]) by {
            assert(p[i] == s[i]);
        }
        lemma_fold_copy_effective(out, p);
        let r = fold_copy_onto(out, p);
        let e = emit_copy(r, s.last());
        assert(!is_noop(s[s.len() - 1]));
        assert forall|i: int| 0 <= i < e.len() implies !is_noop(#[trigger] e[i]) by {
            if i < r.len() {
                assert(!is_noop(r[i]));
            }
        }
    }
}

// ---------------------------------------------------------------------
// The passes and the nesting of loops
// ---------------------------------------------------------------------

/// Contraction changes nothing about the nesting of the loops.
pub proof fn lemma_contract_keeps_nesting(out: Seq<Instruction>, s: Seq<Instruction>)
    ensures
        level(contract_onto(out, s)) == level(out + s),
        lowest(contract_onto(out, s)) == lowest(out + s),
    decreases s.len(),
{
    if s.len() == 0 {
        assert(out + s =~= out);
    } else {
        lemma_contract_keeps_nesting(out, s.drop_last());
        let r = contract_onto(out, s.drop_last());
        let x = s.last();
        let whole = out + s.drop_last();
        assert(whole.push(x) =~= out + s);
        lemma_push_same(r, whole, x);
        if r.len() > 0 && merges(r.last(), x) {
            assert(r.drop_last().push(r.last()) =~= r);
            lemma_push_plain(r.drop_last(), r.last());
            lemma_push_plain(r.drop_last(), merged(r.last(), x));
            lemma_push_plain(r, x);
        }
    }
}

/// No-op reduction changes nothing about the nesting of the loops.
pub proof fn lemma_drop_noops_keeps_nesting(out: Seq<Instruction>, s: Seq<Instruction>)
    ensures
        level(drop_noops_onto(out, s)) == level(out + s),
        lowest(drop_noops_onto(out, s)) == lowest(out + s),
    decreases s.len(),
{
    if s.len() == 0 {
        assert(out + s =~= out);
    } else {
        lemma_drop_noops_keeps_nesting(out, s.drop_last());
        let r = drop_noops_onto(out, s.drop_last());
        let x = s.last();
        let whole = out + s.drop_last();
        assert(whole.push(x) =~= out + s);
        lemma_push_same(r, whole, x);
        if is_noop(x) {
            lemma_push_plain(r, x);
        }
    }
}

/// A loop that holds no other loop, added at the end, changes nothing
/// about the nesting.
proof fn lemma_push_flat_loop(base: Seq<Instruction>, body: Seq<Instruction>)
    requires
        forall|i: int| 0 <= i < body.len() ==> delta(#[trigger] body[i]) == 0,
    ensures
        level((base.push(Instruction::Loop) + body).push(Instruction::End)) == level(base),
        lowest((base.push(Instruction::Loop) + body).push(Instruction::End)) == lowest(base),
        level(base.push(Instruction::Loop) + body) == level(base) + 1,
        lowest(base.push(Instruction::Loop) + body) == lowest(base),
    decreases body.len(),
{
    let open = base.push(Instruction::Loop);
    lemma_lowest_and_level(base);
    assert(open.drop_last() =~= base);
    if body.len() == 0 {
        assert(open + body =~= open);
    } else {
        lemma_push_flat_loop(base, body.drop_last());
        assert((open + body.drop_last()).push(body.last()) =~= open + body);
        lemma_push_plain(open + body.drop_last(), body.last());
    }
    let inner = open + body;
    let closed = inner.push(Instruction::End);
    assert(closed.drop_last() =~= inner);
    assert(level(closed) == level(inner) + delta(Instruction::End));
    assert(lowest(closed) == lowest(inner));
}

/// Clear-loop folding changes nothing about the nesting of the loops.
pub proof fn lemma_fold_clear_keeps_nesting(out: Seq<Instruction>, s: Seq<Instruction>)
    ensures
        level(fold_clear_onto(out, s)) == level(out + s),
        lowest(fold_clear_onto(out, s)) == lowest(out + s),
    decreases s.len(),
{
    if s.len() == 0 {
        assert(out + s =~= out);
    } else {
        lemma_fold_clear_keeps_nesting(out, s.drop_last());
        let r = fold_clear_onto(out, s.drop_last());
        let x = s.last();
        let whole = out + s.drop_last();
        assert(whole.push(x) =~= out + s);
        lemma_push_same(r, whole, x);
        let o = r.push(x);
        if o.len() >= 3 && clear_loop_at(o, o.len() - 3) {
            let base = o.take(o.len() - 3);
            let body = seq![Instruction::Alt(-1i16)];
            lemma_push_flat_loop(base, body);
            assert((base.push(Instruction::Loop) + body).push(Instruction::End) =~= o);
            lemma_push_plain(base, Instruction::Clear);
        }
    }
}

/// Copy-loop folding changes nothing about the nesting of the loops.
pub proof fn lemma_fold_copy_keeps_nesting(out: Seq<Instruction>, s: Seq<Instruction>)
    ensures
        level(fold_copy_onto(out, s)) == level(out + s),
        lowest(fold_copy_onto(out, s)) == lowest(out + s),
    decreases s.len(),
{
    if s.len() == 0 {
        assert(out + s =~= out);
    } else {
        lemma_fold_copy_keeps_nesting(out, s.drop_last());
        let r = fold_copy_onto(out, s.drop_last());
        let x = s.last();
        let whole = out + s.drop_last();
        assert(whole.push(x) =~= out + s);
        lemma_push_same(r, whole, x);
        let o = r.push(x);
        if o.len() >= 6 && copy_loop_at(o, o.len() - 6) {
            let at = o.len() - 6;
            let base = o.take(at);
            let body = seq![o[at + 1], o[at + 2], o[at + 3], o[at + 4]];
            lemma_push_flat_loop(base, body);
            assert((base.push(Instruction::Loop) + body).push(Instruction::End) =~= o);
            lemma_push_plain(base, copy_of(o, at));
            lemma_push_plain(base.push(copy_of(o, at)), Instruction::Clear);
        }
    }
}

} // verus!
