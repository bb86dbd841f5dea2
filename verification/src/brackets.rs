//! Loops and their partners: which `Loop` belongs to which `End`, when a
//! sequence of instructions is well nested, and the scan that finds out.
use crate::instruction::Instruction;
use vstd::prelude::*;

verus! {

/// Why a sequence of instructions is not well nested.
#[derive(Debug, PartialEq, Eq, Clone, Copy, Structural)]
pub enum LoopError {
    /// An `End` stands where no loop is open.
    UnmatchedClose,
    /// A `Loop` is never closed.
    UnmatchedOpen,
}

/// By how much an instruction changes the number of open loops.
pub open spec fn delta(i: Instruction) -> int {
    match i {
        Instruction::Loop => 1,
        Instruction::End => -1,
        _ => 0,
    }
}

/// The number of loops that are open after the first `n` instructions of
/// `s`: the `Loop`s among them less the `End`s.
pub open spec fn depth(s: Seq<Instruction>, n: int) -> int
    decreases n,
{
    if n <= 0 {
        0
    } else {
        depth(s, n - 1) + delta(s[n - 1])
    }
}

/// `s` is well nested: no `End` without an open loop, and no loop left
/// open.
pub open spec fn balanced(s: Seq<Instruction>) -> bool {
    &&& forall|n: int| 0 <= n <= s.len() ==> depth(s, n) >= 0
    &&& depth(s, s.len() as int) == 0
}

/// What is wrong with the nesting of `s`, if anything: the scan from the
/// left meets an `End` with no loop open, or else ends with a loop open.
pub open spec fn loop_error(s: Seq<Instruction>) -> Option<LoopError> {
    if exists|n: int| 0 <= n <= s.len() && depth(s, n) < 0 {
        Some(LoopError::UnmatchedClose)
    } else if depth(s, s.len() as int) != 0 {
        Some(LoopError::UnmatchedOpen)
    } else {
        None
    }
}

/// The `Loop` at `open` and the `End` at `close` are partners: `close` is
/// the first place after `open` where the loop that `open` opens is
/// closed again.
pub open spec fn is_pair(s: Seq<Instruction>, open: int, close: int) -> bool {
    &&& 0 <= open < close < s.len()
    &&& s[open] == Instruction::Loop
    &&& s[close] == Instruction::End
    &&& depth(s, close + 1) == depth(s, open)
    &&& forall|k: int| open < k <= close ==> depth(s, k) > depth(s, open)
}

/// `table` is the jump table of `s`: it holds, at the place of each `Loop`
/// and each `End`, the place of its partner, and zero elsewhere.
pub open spec fn is_jump_table(s: Seq<Instruction>, table: Seq<usize>) -> bool {
    &&& table.len() == s.len()
    &&& forall|i: int|
        0 <= i < s.len() ==> match #[trigger] s[i] {
            Instruction::Loop => is_pair(s, i, table[i] as int),
            Instruction::End => is_pair(s, table[i] as int, i),
            _ => table[i] == 0,
        }
}

/// A sequence is well nested exactly where nothing is wrong with its
/// nesting.
pub proof fn lemma_balanced_iff_no_error(s: Seq<Instruction>)
    ensures
        balanced(s) <==> loop_error(s) is None,
{
}

/// A `Loop` has at most one partner.
pub proof fn lemma_pair_unique_close(s: Seq<Instruction>, open: int, c1: int, c2: int)
    requires
        is_pair(s, open, c1),
        is_pair(s, open, c2),
    ensures
        c1 == c2,
{
    if c1 < c2 {
        assert(depth(s, c1 + 1) > depth(s, open));
    } else if c2 < c1 {
        assert(depth(s, c2 + 1) > depth(s, open));
    }
}

/// An `End` has at most one partner.
pub proof fn lemma_pair_unique_open(s: Seq<Instruction>, o1: int, o2: int, close: int)
    requires
        is_pair(s, o1, close),
        is_pair(s, o2, close),
    ensures
        o1 == o2,
{
    if o1 < o2 {
        assert(depth(s, o2) > depth(s, o1));
    } else if o2 < o1 {
        assert(depth(s, o1) > depth(s, o2));
    }
}

/// Two loops never overlap: the later one lies after the earlier one, or
/// wholly inside it.
pub proof fn lemma_pairs_nest(s: Seq<Instruction>, o1: int, c1: int, o2: int, c2: int)
    requires
        is_pair(s, o1, c1),
        is_pair(s, o2, c2),
        o1 < o2,
    ensures
        c1 < o2 || c2 < c1,
{
    if o2 < c1 && c1 < c2 {
        assert(depth(s, c1 + 1) > depth(s, o2));
        assert(depth(s, o2) > depth(s, o1));
    } else if c1 == c2 {
        lemma_pair_unique_open(s, o1, o2, c1);
    }
}

/// A sequence has at most one jump table.
pub proof fn lemma_jump_table_unique(s: Seq<Instruction>, t1: Seq<usize>, t2: Seq<usize>)
    requires
        is_jump_table(s, t1),
        is_jump_table(s, t2),
    ensures
        t1 == t2,
{
    assert forall|i: int| 0 <= i < t1.len() implies t1[i] == t2[i] by {
        match s[i] {
            Instruction::Loop => {
                lemma_pair_unique_close(s, i, t1[i] as int, t2[i] as int);
            },
            Instruction::End => {
                lemma_pair_unique_open(s, t1[i] as int, t2[i] as int, i);
            },
            _ => {},
        }
    }
    assert(t1 =~= t2);
}

/// A jump table pairs the places up: the partner of a `Loop` is an `End`
/// and the partner of an `End` a `Loop`, and the partner of the partner
/// is the place itself.
pub proof fn lemma_jump_table_involution(s: Seq<Instruction>, table: Seq<usize>, i: int)
    requires
        is_jump_table(s, table),
        0 <= i < s.len(),
        s[i] is Loop || s[i] is End,
    ensures
        0 <= table[i] < s.len(),
        table[i] != i,
        s[i] is Loop ==> s[table[i] as int] is End && i < table[i],
        s[i] is End ==> s[table[i] as int] is Loop && table[i] < i,
        table[table[i] as int] == i,
{
    let j = table[i] as int;
    if s[i] is Loop {
        assert(is_pair(s, i, j));
        assert(s[j] is End);
        assert(is_pair(s, table[j] as int, j));
        lemma_pair_unique_open(s, i, table[j] as int, j);
    } else {
        assert(is_pair(s, j, i));
        assert(s[j] is Loop);
        assert(is_pair(s, j, table[j] as int));
        lemma_pair_unique_close(s, j, i, table[j] as int);
    }
}

/// The number of loops that are open at the end of `s`.
pub open spec fn level(s: Seq<Instruction>) -> int
    decreases s.len(),
{
    if s.len() == 0 {
        0
    } else {
        level(s.drop_last()) + delta(s.last())
    }
}

/// The least number of open loops that the scan of `s` ever counts; below
/// zero where an `End` stands with no loop open.
pub open spec fn lowest(s: Seq<Instruction>) -> int
    decreases s.len(),
{
    if s.len() == 0 {
        0
    } else if lowest(s.drop_last()) <= level(s) {
        lowest(s.drop_last())
    } else {
        level(s)
    }
}

/// What is wrong with a nesting whose scan gets as low as `low` and ends
/// at `end`.
pub open spec fn error_of(low: int, end: int) -> Option<LoopError> {
    if low < 0 {
        Some(LoopError::UnmatchedClose)
    } else if end != 0 {
        Some(LoopError::UnmatchedOpen)
    } else {
        None
    }
}

/// The count of open loops after `n` instructions does not look at what
/// follows them.
pub proof fn lemma_depth_of_prefix(s: Seq<Instruction>, m: int, n: int)
    requires
        0 <= n <= m <= s.len(),
    ensures
        depth(s.take(m), n) == depth(s, n),
    decreases n,
{
    if n > 0 {
        lemma_depth_of_prefix(s, m, n - 1);
    }
}

/// The scan never counts fewer open loops than `lowest`, counts that few
/// somewhere, and ends at `level`.
pub proof fn lemma_lowest_and_level(s: Seq<Instruction>)
    ensures
        level(s) == depth(s, s.len() as int),
        lowest(s) <= level(s),
        lowest(s) <= 0,
        forall|n: int| 0 <= n <= s.len() ==> depth(s, n) >= lowest(s),
        exists|n: int| 0 <= n <= s.len() && depth(s, n) == lowest(s),
    decreases s.len(),
{
    if s.len() == 0 {
        assert(depth(s, 0) == lowest(s));
    } else {
        let p = s.drop_last();
        lemma_lowest_and_level(p);
        assert(p == s.take(s.len() - 1));
        lemma_depth_of_prefix(s, s.len() - 1, s.len() - 1);
        assert forall|n: int| 0 <= n <= s.len() implies depth(s, n) >= lowest(s) by {
            if n < s.len() {
                lemma_depth_of_prefix(s, s.len() - 1, n);
            }
        }
        if lowest(p) <= level(s) {
            let n = choose|n: int| 0 <= n <= p.len() && depth(p, n) == lowest(p);
            lemma_depth_of_prefix(s, s.len() - 1, n);
            assert(depth(s, n) == lowest(s));
        } else {
            assert(depth(s, s.len() as int) == lowest(s));
        }
    }
}

/// What is wrong with a nesting can be read off the lowest count and the
/// last count of its scan.
pub proof fn lemma_loop_error_of_scan(s: Seq<Instruction>)
    ensures
        loop_error(s) == error_of(lowest(s), level(s)),
{
    lemma_lowest_and_level(s);
}

/// An instruction that is neither `Loop` nor `End` changes nothing about
/// the nesting, wherever it is added at the end.
pub proof fn lemma_push_plain(s: Seq<Instruction>, i: Instruction)
    requires
        delta(i) == 0,
    ensures
        level(s.push(i)) == level(s),
        lowest(s.push(i)) == lowest(s),
{
    lemma_lowest_and_level(s);
    assert(s.push(i).drop_last() =~= s);
}

/// Two sequences whose scans agree so far agree on after one more
/// instruction.
pub proof fn lemma_push_same(a: Seq<Instruction>, b: Seq<Instruction>, i: Instruction)
    requires
        level(a) == level(b),
        lowest(a) == lowest(b),
    ensures
        level(a.push(i)) == level(b.push(i)),
        lowest(a.push(i)) == lowest(b.push(i)),
{
    assert(a.push(i).drop_last() =~= a);
    assert(b.push(i).drop_last() =~= b);
}

/// The place `i` is that of a loop which the scan has met and not yet
/// seen closed.
pub open spec fn pending(stack: Seq<usize>, i: int) -> bool {
    exists|j: int| 0 <= j < stack.len() && #[trigger] stack[j] == i
}

/// What the scan knows after `done` instructions: the stack holds the
/// places of the loops that are open, the outermost first, and none of
/// them has been closed since.
pub open spec fn stack_tracks(s: Seq<Instruction>, stack: Seq<usize>, done: int) -> bool {
    &&& stack.len() == depth(s, done)
    &&& forall|j: int|
        0 <= j < stack.len() ==> {
            &&& 0 <= #[trigger] stack[j] < done
            &&& s[stack[j] as int] == Instruction::Loop
            &&& depth(s, stack[j] as int) == j
            &&& forall|k: int| stack[j] < k <= done ==> depth(s, k) > j
        }
}

/// What the scan has entered into the table after `done` instructions.
pub open spec fn table_filled(
    s: Seq<Instruction>,
    table: Seq<usize>,
    stack: Seq<usize>,
    done: int,
) -> bool {
    &&& table.len() == s.len()
    &&& forall|i: int|
        0 <= i < done ==> match #[trigger] s[i] {
            Instruction::Loop => is_pair(s, i, table[i] as int) || pending(stack, i),
            Instruction::End => is_pair(s, table[i] as int, i),
            _ => table[i] == 0,
        }
    &&& forall|i: int| done <= i < s.len() ==> #[trigger] table[i] == 0
}

/// Pairs each `Loop` with its `End` in one scan from the left, with a
/// stack of the loops that are open. Fails where the instructions are not
/// well nested.
pub fn match_loops(instructions: &Vec<Instruction>) -> (r: Result<Vec<usize>, LoopError>)
    ensures
        r is Ok <==> balanced(instructions@),
        match r {
            Ok(table) => balanced(instructions@) && is_jump_table(instructions@, table@),
            Err(e) => loop_error(instructions@) == Some(e),
        },
{
    let n = instructions.len();
    let mut loop_map: Vec<usize> = vec![0usize; n];
    let mut stack: Vec<usize> = Vec::new();
    let mut ptr: usize = 0;
    let ghost s = instructions@;
    while ptr < n
        invariant
            s == instructions@,
            n == s.len(),
            ptr <= n,
            forall|k: int| 0 <= k <= ptr ==> depth(s, k) >= 0,
            stack_tracks(s, stack@, ptr as int),
            table_filled(s, loop_map@, stack@, ptr as int),
        decreases n - ptr,
    {
        let ghost old_stack = stack@;
        let ghost old_table = loop_map@;
        match instructions[ptr] {
            Instruction::Loop => {
                stack.push(ptr);
                proof {
                    assert forall|i: int| 0 <= i < ptr + 1 && s[i] is Loop implies is_pair(
                        s,
                        i,
                        loop_map@[i] as int,
                    ) || pending(stack@, i) by {
                        if i < ptr {
                            if pending(old_stack, i) {
                                let j = choose|j: int|
                                    0 <= j < old_stack.len() && old_stack[j] == i;
                                assert(stack@[j] == i);
                            }
                        } else {
                            assert(stack@[stack@.len() - 1] == i);
                        }
                    }
                }
            },
            Instruction::End => {
                if stack.len() == 0 {
                    proof {
                        assert(depth(s, ptr + 1) < 0);
                    }
                    return Err(LoopError::UnmatchedClose);
                }
                let open = stack.pop().unwrap();
                loop_map.set(open, ptr);
                loop_map.set(ptr, open);
                proof {
                    assert(open == old_stack[old_stack.len() - 1]);
                    assert(is_pair(s, open as int, ptr as int));
                    assert forall|i: int| 0 <= i < ptr + 1 implies match #[trigger] s[i] {
                        Instruction::Loop => is_pair(s, i, loop_map@[i] as int) || pending(
                            stack@,
                            i,
                        ),
                        Instruction::End => is_pair(s, loop_map@[i] as int, i),
                        _ => loop_map@[i] == 0,
                    } by {
                        if i != open && i != ptr {
                            assert(loop_map@[i] == old_table[i]);
                            if s[i] is Loop && pending(old_stack, i) {
                                let j = choose|j: int|
                                    0 <= j < old_stack.len() && old_stack[j] == i;
                                assert(stack@[j] == i);
                            }
                        }
                    }
                }
            },
            _ => {},
        }
        ptr += 1;
    }
    if stack.len() != 0 {
        return Err(LoopError::UnmatchedOpen);
    }
    proof {
        assert forall|i: int| 0 <= i < s.len() && s[i] is Loop implies is_pair(
            s,
            i,
            loop_map@[i] as int,
        ) by {
            assert(!pending(stack@, i));
        }
    }
    Ok(loop_map)
}

} // verus!
