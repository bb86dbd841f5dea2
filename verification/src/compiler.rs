//! The compiler: source text to instructions, the rewrite passes, and the
//! jump table of the loops.
use crate::brackets::{
    balanced, depth, is_jump_table, lemma_loop_error_of_scan, loop_error, match_loops, LoopError,
};
use crate::instruction::Instruction;
use crate::rewrite::{
    absorb, clear_loop_at, contract, copy_loop_at, copy_loop_down_first, copy_loop_down_last,
    drop_noops, effective, fold_clear, fold_copy, lemma_contract_keeps_nesting,
    lemma_drop_noops_effective, lemma_drop_noops_keeps_nesting, lemma_fold_clear_effective,
    lemma_fold_clear_keeps_nesting, lemma_fold_copy_effective, lemma_fold_copy_keeps_nesting,
    merges, multiplier,
};
use crate::text::{decimal, instruction_text, push_decimal, push_instruction, push_tabs, tabs};
use vstd::prelude::*;
use vstd::string::StringExecFns;

verus! {

/// How many instructions went into the rewrite passes, and how many came
/// out.
#[derive(Debug, Clone, Copy)]
pub struct CompilerStats {
    pub input_instructions: usize,
    pub output_instructions: usize,
}

/// A compiled program: the instructions after all rewrite passes, and the
/// jump table of their loops. The loops are well nested and no instruction
/// is without effect.
#[derive(Debug)]
pub struct Program {
    instructions: Vec<Instruction>,
    loop_map: Vec<usize>,
    stats: CompilerStats,
}

impl View for Program {
    type V = Seq<Instruction>;

    /// The instructions of the program.
    closed spec fn view(&self) -> Seq<Instruction> {
        self.instructions@
    }
}

impl Program {
    /// The jump table, as the program holds it.
    pub closed spec fn jump_table(&self) -> Seq<usize> {
        self.loop_map@
    }

    /// The counts that the compiler took.
    pub closed spec fn counts(&self) -> CompilerStats {
        self.stats
    }

    /// What holds of every program: its loops are well nested, its jump
    /// table is theirs, and no instruction is without effect.
    #[verifier::type_invariant]
    pub open spec fn wf(&self) -> bool {
        &&& balanced(self@)
        &&& is_jump_table(self@, self.jump_table())
        &&& effective(self@)
    }

    /// The instructions, in the order in which they run.
    pub fn instructions(&self) -> (r: &Vec<Instruction>)
        ensures
            r@ == self@,
            self.wf(),
    {
        proof {
            use_type_invariant(self);
        }
        &self.instructions
    }

    /// The jump table: at the place of each `Loop` and `End` the place of
    /// its partner, zero elsewhere.
    pub fn loop_map(&self) -> (r: &Vec<usize>)
        ensures
            r@ == self.jump_table(),
            self.wf(),
    {
        proof {
            use_type_invariant(self);
        }
        &self.loop_map
    }

    /// The counts that the compiler took.
    pub fn stats(&self) -> (r: CompilerStats)
        ensures
            r == self.counts(),
    {
        self.stats
    }

    /// The program as a listing: one instruction to a line, indented by
    /// the loops around it, and the compiler's counts at the end.
    pub fn to_string(&self) -> (text: String)
        ensures
            text@ == listing(self@, self.counts()),
    {
        proof {
            use_type_invariant(self);
        }
        let n = self.instructions.len();
        let mut buf = String::new();
        let mut indent: usize = 0;
        let mut i: usize = 0;
        assert(buf@ =~= lines_text(self@, 0));
        while i < n
            invariant
                n == self.instructions.len(),
                self@ == self.instructions@,
                balanced(self@),
                i <= n,
                indent == depth(self@, i as int),
                indent <= i,
                buf@ == lines_text(self@, i as int),
            decreases n - i,
        {
            let ins = self.instructions[i];
            proof {
                assert(depth(self@, i + 1) >= 0);
            }
            if ins == Instruction::End {
                indent -= 1;
            }
            let ghost before = buf@;
            push_tabs(&mut buf, indent);
            push_instruction(&mut buf, ins);
            buf.append(",\n");
            assert(buf@ =~= before + line_text(self@, i as int));
            if ins == Instruction::Loop {
                indent += 1;
            }
            i += 1;
        }
        let ghost lines = buf@;
        buf.append("CompilerStats { input_instructions: ");
        push_decimal(&mut buf, self.stats.input_instructions as i128);
        buf.append(", output_instructions: ");
        push_decimal(&mut buf, self.stats.output_instructions as i128);
        buf.append(" }");
        assert(buf@ =~= lines + stats_text(self.stats));
        buf
    }
}

/// How far the instruction at place `i` of `s` is indented in a listing:
/// by the number of loops that are open there, where an `End` stands as
/// far out as the `Loop` that it closes.
pub open spec fn indent_of(s: Seq<Instruction>, i: int) -> int {
    if s[i] == Instruction::End {
        depth(s, i) - 1
    } else {
        depth(s, i)
    }
}

/// The line of a listing for the instruction at place `i` of `s`.
pub open spec fn line_text(s: Seq<Instruction>, i: int) -> Seq<char> {
    tabs(indent_of(s, i)) + instruction_text(s[i]) + ",\n"@
}

/// The first `n` lines of a listing of `s`.
pub open spec fn lines_text(s: Seq<Instruction>, n: int) -> Seq<char>
    decreases n,
{
    if n <= 0 {
        Seq::empty()
    } else {
        lines_text(s, n - 1) + line_text(s, n - 1)
    }
}

/// The compiler's counts as text.
pub open spec fn stats_text(stats: CompilerStats) -> Seq<char> {
    "CompilerStats { input_instructions: "@ + decimal(stats.input_instructions as int)
        + ", output_instructions: "@ + decimal(stats.output_instructions as int) + " }"@
}

/// The listing of a program: a line for each instruction, and the
/// compiler's counts after the last line.
pub open spec fn listing(s: Seq<Instruction>, stats: CompilerStats) -> Seq<char> {
    lines_text(s, s.len() as int) + stats_text(stats)
}

impl Clone for Program {
    fn clone(&self) -> (r: Program)
        ensures
            r@ == self@,
            r.jump_table() == self.jump_table(),
            r.counts() == self.counts(),
    {
        proof {
            use_type_invariant(self);
        }
        let instructions = self.instructions.clone();
        let loop_map = self.loop_map.clone();
        assert(instructions@ =~= self.instructions@);
        assert(loop_map@ =~= self.loop_map@);
        Program { instructions, loop_map, stats: self.stats }
    }
}

/// The instructions that a source text stands for: one for each of the
/// eight command characters, in their order; every other character is a
/// comment.
pub open spec fn lexed(src: Seq<char>) -> Seq<Instruction>
    decreases src.len(),
{
    if src.len() == 0 {
        Seq::empty()
    } else {
        match Instruction::of_char(src.last()) {
            Some(i) => lexed(src.drop_last()).push(i),
            None => lexed(src.drop_last()),
        }
    }
}

/// Reads the instructions off a source text.
pub fn lex(src: &str) -> (instructions: Vec<Instruction>)
    ensures
        instructions@ == lexed(src@),
{
    let mut instructions: Vec<Instruction> = Vec::new();
    for c in it: src.chars()
        invariant
            it.seq() == src@,
            instructions@ == lexed(src@.take(it.index())),
    {
        proof {
            let i = it.index();
            assert(src@.take(i + 1).drop_last() == src@.take(i));
        }
        match Instruction::try_from(c) {
            Ok(instruction) => {
                instructions.push(instruction);
            },
            Err(_) => {},
        }
    }
    proof {
        assert(src@.take(src@.len() as int) == src@);
    }
    instructions
}

/// A rewrite pass: a function from instructions to instructions.
pub trait Optimizer {
    /// What the pass makes of a sequence of instructions.
    spec fn rewrite(&self, instructions: Seq<Instruction>) -> Seq<Instruction>;

    /// Applies the pass.
    fn optimize(&self, instructions: Vec<Instruction>) -> (output: Vec<Instruction>)
        ensures
            output@ == self.rewrite(instructions@),
    ;
}

/// The rewrite passes of the compiler.
#[derive(Debug, PartialEq, Eq, Clone, Copy, Structural)]
pub enum OptimizerType {
    Contraction,
    ClearLoop,
    CopyLoop,
    NoOpReducer,
}

impl Optimizer for OptimizerType {
    open spec fn rewrite(&self, instructions: Seq<Instruction>) -> Seq<Instruction> {
        match self {
            OptimizerType::Contraction => contract(instructions),
            OptimizerType::ClearLoop => fold_clear(instructions),
            OptimizerType::CopyLoop => fold_copy(instructions),
            OptimizerType::NoOpReducer => drop_noops(instructions),
        }
    }

    fn optimize(&self, instructions: Vec<Instruction>) -> (output: Vec<Instruction>) {
        match self {
            OptimizerType::Contraction => contraction_optimizer(instructions),
            OptimizerType::ClearLoop => clear_loop_optimizer(instructions),
            OptimizerType::CopyLoop => copy_loop_optimizer(instructions),
            OptimizerType::NoOpReducer => no_op_reducer(instructions),
        }
    }
}

/// The passes in the order in which the compiler applies them:
/// contraction, then no-op reduction, so that runs which cancel are gone
/// before the loops are folded; then clear loops, then copy loops.
pub open spec fn pipeline() -> Seq<OptimizerType> {
    seq![
        OptimizerType::Contraction,
        OptimizerType::NoOpReducer,
        OptimizerType::ClearLoop,
        OptimizerType::CopyLoop,
    ]
}

/// The passes to apply, in their order.
pub fn get_optimizers() -> (passes: Vec<OptimizerType>)
    ensures
        passes@ == pipeline(),
{
    let passes = vec![
        OptimizerType::Contraction,
        OptimizerType::NoOpReducer,
        OptimizerType::ClearLoop,
        OptimizerType::CopyLoop,
    ];
    assert(passes@ =~= pipeline());
    passes
}

/// What a list of passes, applied one after the other, makes of `s`.
pub open spec fn rewritten(passes: Seq<OptimizerType>, s: Seq<Instruction>) -> Seq<Instruction>
    decreases passes.len(),
{
    if passes.len() == 0 {
        s
    } else {
        passes.last().rewrite(rewritten(passes.drop_last(), s))
    }
}

/// What the compiler makes of the instructions of a source text.
pub open spec fn optimized(s: Seq<Instruction>) -> Seq<Instruction> {
    fold_copy(fold_clear(drop_noops(contract(s))))
}

/// The whole pipeline is the four passes, one inside the other.
pub proof fn lemma_pipeline(s: Seq<Instruction>)
    ensures
        rewritten(pipeline(), s) == optimized(s),
{
    let all = pipeline();
    let three = all.drop_last();
    let two = three.drop_last();
    let one = two.drop_last();
    let none = one.drop_last();
    assert(none.len() == 0);
    assert(rewritten(none, s) == s);
    assert(rewritten(one, s) == contract(s));
    assert(rewritten(two, s) == drop_noops(contract(s)));
    assert(rewritten(three, s) == fold_clear(drop_noops(contract(s))));
}

/// After all passes no instruction is without effect.
pub proof fn lemma_optimized_effective(s: Seq<Instruction>)
    ensures
        effective(optimized(s)),
{
    let a = drop_noops(contract(s));
    lemma_drop_noops_effective(contract(s));
    lemma_fold_clear_effective(Seq::empty(), a);
    lemma_fold_copy_effective(Seq::empty(), fold_clear(a));
}

/// The rewrite passes change nothing about the nesting of the loops: what
/// is wrong with it after the passes is what was wrong with it before.
pub proof fn lemma_optimized_keeps_nesting(s: Seq<Instruction>)
    ensures
        loop_error(optimized(s)) == loop_error(s),
        balanced(optimized(s)) <==> balanced(s),
{
    let empty = Seq::<Instruction>::empty();
    let a = contract(s);
    let b = drop_noops(a);
    let c = fold_clear(b);
    lemma_contract_keeps_nesting(empty, s);
    lemma_drop_noops_keeps_nesting(empty, a);
    lemma_fold_clear_keeps_nesting(empty, b);
    lemma_fold_copy_keeps_nesting(empty, c);
    assert(empty + s =~= s);
    assert(empty + a =~= a);
    assert(empty + b =~= b);
    assert(empty + c =~= c);
    lemma_loop_error_of_scan(s);
    lemma_loop_error_of_scan(optimized(s));
}

/// Compiles a source text: reads its instructions, applies the rewrite
/// passes in their order, and pairs the loops of the result. Fails, with
/// no program, where the loops are not well nested.
pub fn compile(src: &str) -> (r: Result<Program, LoopError>)
    ensures
        r is Ok <==> balanced(lexed(src@)),
        match r {
            Ok(program) => {
                &&& program@ == optimized(lexed(src@))
                &&& program.wf()
                &&& program.counts().input_instructions == lexed(src@).len()
                &&& program.counts().output_instructions == program@.len()
            },
            Err(e) => loop_error(lexed(src@)) == Some(e),
        },
{
    let mut instructions = lex(src);
    let input_instructions = instructions.len();
    let optimizers = get_optimizers();
    let mut k: usize = 0;
    while k < optimizers.len()
        invariant
            k <= optimizers.len(),
            optimizers@ == pipeline(),
            instructions@ == rewritten(optimizers@.take(k as int), lexed(src@)),
        decreases optimizers.len() - k,
    {
        proof {
            assert(optimizers@.take(k as int + 1).drop_last() == optimizers@.take(k as int));
        }
        instructions = optimizers[k].optimize(instructions);
        k += 1;
    }
    proof {
        assert(optimizers@.take(k as int) == optimizers@);
        lemma_pipeline(lexed(src@));
        lemma_optimized_effective(lexed(src@));
        lemma_optimized_keeps_nesting(lexed(src@));
    }
    let output_instructions = instructions.len();
    match match_loops(&instructions) {
        Ok(loop_map) => Ok(
            Program {
                instructions,
                loop_map,
                stats: CompilerStats { input_instructions, output_instructions },
            },
        ),
        Err(e) => Err(e),
    }
}

/// Replaces each run of consecutive `Shift`s, and each run of consecutive
/// `Alt`s, with a single instruction.
pub fn contraction_optimizer(instructions: Vec<Instruction>) -> (output: Vec<Instruction>)
    ensures
        output@ == contract(instructions@),
{
    let mut output: Vec<Instruction> = Vec::new();
    let n = instructions.len();
    let mut i: usize = 0;
    while i < n
        invariant
            n == instructions.len(),
            i <= n,
            output@ == contract(instructions@.take(i as int)),
            i < n && output@.len() > 0 ==> !merges(output@.last(), instructions@[i as int]),
        decreases n - i,
    {
        let ghost before = output@;
        let ghost start = i;
        let cur = instructions[i];
        i += 1;
        proof {
            lemma_contract_step(instructions@, i as int);
        }
        match cur {
            Instruction::Shift(first) => {
                let mut count: isize = first;
                while i < n && matches!(instructions[i], Instruction::Shift(_))
                    invariant
                        n == instructions.len(),
                        start < i <= n,
                        output@ == before,
                        contract(instructions@.take(i as int)) == before.push(
                            Instruction::Shift(count),
                        ),
                    decreases n - i,
                {
                    if let Instruction::Shift(more) = instructions[i] {
                        count = count.wrapping_add(more);
                    }
                    i += 1;
                    proof {
                        lemma_contract_step(instructions@, i as int);
                        assert(before.push(Instruction::Shift(count)).drop_last() == before);
                    }
                }
                output.push(Instruction::Shift(count));
            },
            Instruction::Alt(first) => {
                let mut count: i16 = first;
                while i < n && matches!(instructions[i], Instruction::Alt(_))
                    invariant
                        n == instructions.len(),
                        start < i <= n,
                        output@ == before,
                        contract(instructions@.take(i as int)) == before.push(
                            Instruction::Alt(count),
                        ),
                    decreases n - i,
                {
                    if let Instruction::Alt(more) = instructions[i] {
                        count = count.wrapping_add(more);
                    }
                    i += 1;
                    proof {
                        lemma_contract_step(instructions@, i as int);
                        assert(before.push(Instruction::Alt(count)).drop_last() == before);
                    }
                }
                output.push(Instruction::Alt(count));
            },
            other => {
                output.push(other);
            },
        }
    }
    proof {
        assert(instructions@.take(n as int) == instructions@);
    }
    output
}

/// Contraction of the first `i` instructions is that of the first `i - 1`,
/// with the `i`-th absorbed.
proof fn lemma_contract_step(s: Seq<Instruction>, i: int)
    requires
        0 < i <= s.len(),
    ensures
        contract(s.take(i)) == absorb(contract(s.take(i - 1)), s[i - 1]),
{
    assert(s.take(i).drop_last() == s.take(i - 1));
}

/// Removes every `NoOp`, `Alt(0)` and `Shift(0)`.
pub fn no_op_reducer(instructions: Vec<Instruction>) -> (output: Vec<Instruction>)
    ensures
        output@ == drop_noops(instructions@),
{
    let mut output: Vec<Instruction> = Vec::new();
    let n = instructions.len();
    let mut i: usize = 0;
    while i < n
        invariant
            n == instructions.len(),
            i <= n,
            output@ == drop_noops(instructions@.take(i as int)),
        decreases n - i,
    {
        let instruction = instructions[i];
        proof {
            assert(instructions@.take(i as int + 1).drop_last() == instructions@.take(i as int));
        }
        let skip = match instruction {
            Instruction::NoOp => true,
            Instruction::Alt(d) => d == 0,
            Instruction::Shift(d) => d == 0,
            _ => false,
        };
        if !skip {
            output.push(instruction);
        }
        i += 1;
    }
    proof {
        assert(instructions@.take(n as int) == instructions@);
    }
    output
}

/// Replaces each clearing loop `[-]` with `Clear`.
pub fn clear_loop_optimizer(instructions: Vec<Instruction>) -> (output: Vec<Instruction>)
    ensures
        output@ == fold_clear(instructions@),
{
    let mut output: Vec<Instruction> = Vec::new();
    let n = instructions.len();
    let mut i: usize = 0;
    while i < n
        invariant
            n == instructions.len(),
            i <= n,
            output@ == fold_clear(instructions@.take(i as int)),
        decreases n - i,
    {
        proof {
            assert(instructions@.take(i as int + 1).drop_last() == instructions@.take(i as int));
        }
        output.push(instructions[i]);
        let len = output.len();
        if len >= 3 {
            let found = match (output[len - 3], output[len - 2], output[len - 1]) {
                (Instruction::Loop, Instruction::Alt(d), Instruction::End) => d == -1,
                _ => false,
            };
            assert(found == clear_loop_at(output@, len - 3));
            if found {
                remove_n(&mut output, 3);
                output.push(Instruction::Clear);
            }
        }
        i += 1;
    }
    proof {
        assert(instructions@.take(n as int) == instructions@);
    }
    output
}

/// The multiplier of a copy loop that adds `x` in each round.
fn multiplier_of(x: i16) -> (mul: u8)
    requires
        x > 0,
    ensures
        mul == multiplier(x),
{
    (x % 256) as u8
}

/// Whether `there` and `back` are moves that cancel.
fn cancels(there: isize, back: isize) -> (r: bool)
    ensures
        r == (there == -back),
{
    back != isize::MIN && there == -back
}

/// Replaces each copy loop, such as `[->>>++<<<]`, with `Copy` and `Clear`.
pub fn copy_loop_optimizer(instructions: Vec<Instruction>) -> (output: Vec<Instruction>)
    ensures
        output@ == fold_copy(instructions@),
{
    let mut output: Vec<Instruction> = Vec::new();
    let n = instructions.len();
    let mut i: usize = 0;
    while i < n
        invariant
            n == instructions.len(),
            i <= n,
            output@ == fold_copy(instructions@.take(i as int)),
        decreases n - i,
    {
        proof {
            assert(instructions@.take(i as int + 1).drop_last() == instructions@.take(i as int));
        }
        output.push(instructions[i]);
        let len = output.len();
        if len >= 6 {
            let ghost emitted = output@;
            let ghost at = len - 6;
            let window = (
                output[len - 6],
                output[len - 5],
                output[len - 4],
                output[len - 3],
                output[len - 2],
                output[len - 1],
            );
            match window {
                (
                    Instruction::Loop,
                    Instruction::Alt(down),
                    Instruction::Shift(there),
                    Instruction::Alt(x),
                    Instruction::Shift(back),
                    Instruction::End,
                ) => {
                    if down == -1 && x > 0 && cancels(there, back) {
                        assert(copy_loop_down_first(emitted, at));
                        remove_n(&mut output, 6);
                        output.push(Instruction::Copy { mul: multiplier_of(x), offset: there });
                        output.push(Instruction::Clear);
                    } else {
                        assert(!copy_loop_at(emitted, at));
                    }
                },
                (
                    Instruction::Loop,
                    Instruction::Shift(there),
                    Instruction::Alt(x),
                    Instruction::Shift(back),
                    Instruction::Alt(down),
                    Instruction::End,
                ) => {
                    if down == -1 && x > 0 && cancels(there, back) {
                        assert(copy_loop_down_last(emitted, at));
                        remove_n(&mut output, 6);
                        output.push(Instruction::Copy { mul: multiplier_of(x), offset: there });
                        output.push(Instruction::Clear);
                    } else {
                        assert(!copy_loop_at(emitted, at));
                    }
                },
                _ => {
                    assert(!copy_loop_at(emitted, at));
                },
            }
        }
        i += 1;
    }
    proof {
        assert(instructions@.take(n as int) == instructions@);
    }
    output
}

/// Removes the last `n` elements of `vec`, or all of them where it holds
/// fewer.
pub fn remove_n<T>(vec: &mut Vec<T>, n: usize)
    ensures
        final(vec)@ == old(vec)@.take(
            if old(vec)@.len() >= n {
                old(vec)@.len() - n
            } else {
                0
            },
        ),
{
    let final_length = vec.len().saturating_sub(n);
    vec.truncate(final_length);
}

} // verus!
