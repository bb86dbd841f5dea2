//! The plain interpreter: runs a source text as it stands, one command at
//! a time, with no rewrite pass in between.
use crate::brackets::{
    balanced, depth, is_pair, lemma_pair_unique_close, lemma_pair_unique_open, loop_error, pending,
    stack_tracks, LoopError,
};
use crate::io::{text_of, writes, InputOutput, IoEvent, StdIO, TestIO};
use crate::machine::{
    blocked, event, halted, lemma_ran_on, lemma_run_since, partner, ran, reading, run, step,
    trace, Machine,
};
use crate::vm::{alter, shift_ptr, Status, MEM};
use std::collections::HashMap;
use vstd::prelude::*;

verus! {

/// The eight commands of the language.
#[derive(Debug, PartialEq, Eq, Clone, Copy, Structural)]
pub enum Instruction {
    /// Command: `>`
    Right,
    /// Command: `<`
    Left,
    /// Command: `+`
    Inc,
    /// Command: `-`
    Dec,
    /// Command: `.`
    Out,
    /// Command: `,`
    In,
    /// Command: `[`
    Loop,
    /// Command: `]`
    End,
}

impl Instruction {
    /// The command that a source character stands for, if any.
    pub open spec fn of_char(c: char) -> Option<Instruction> {
        if c == '>' {
            Some(Instruction::Right)
        } else if c == '<' {
            Some(Instruction::Left)
        } else if c == '+' {
            Some(Instruction::Inc)
        } else if c == '-' {
            Some(Instruction::Dec)
        } else if c == '.' {
            Some(Instruction::Out)
        } else if c == ',' {
            Some(Instruction::In)
        } else if c == '[' {
            Some(Instruction::Loop)
        } else if c == ']' {
            Some(Instruction::End)
        } else {
            None
        }
    }

    /// The instruction of the tape machine that does what the command
    /// does.
    pub open spec fn lowered(self) -> crate::instruction::Instruction {
        match self {
            Instruction::Right => crate::instruction::Instruction::Shift(1),
            Instruction::Left => crate::instruction::Instruction::Shift(-1isize),
            Instruction::Inc => crate::instruction::Instruction::Alt(1),
            Instruction::Dec => crate::instruction::Instruction::Alt(-1i16),
            Instruction::Out => crate::instruction::Instruction::Out,
            Instruction::In => crate::instruction::Instruction::In,
            Instruction::Loop => crate::instruction::Instruction::Loop,
            Instruction::End => crate::instruction::Instruction::End,
        }
    }
}

impl TryFrom<char> for Instruction {
    type Error = ();

    /// Converts a source character into its command; every other
    /// character is a comment and gives `Err(())`.
    fn try_from(value: char) -> (r: Result<Instruction, ()>) {
        match value {
            '>' => Ok(Instruction::Right),
            '<' => Ok(Instruction::Left),
            '+' => Ok(Instruction::Inc),
            '-' => Ok(Instruction::Dec),
            '.' => Ok(Instruction::Out),
            ',' => Ok(Instruction::In),
            '[' => Ok(Instruction::Loop),
            ']' => Ok(Instruction::End),
            _ => Err(()),
        }
    }
}

impl vstd::std_specs::convert::TryFromSpecImpl<char> for Instruction {
    open spec fn obeys_try_from_spec() -> bool {
        true
    }

    open spec fn try_from_spec(v: char) -> Result<Instruction, ()> {
        match Instruction::of_char(v) {
            Some(i) => Ok(i),
            None => Err(()),
        }
    }
}

/// The commands that a source text holds, in their order; every other
/// character is a comment.
pub open spec fn parsed(src: Seq<char>) -> Seq<Instruction>
    decreases src.len(),
{
    if src.len() == 0 {
        Seq::empty()
    } else {
        match Instruction::of_char(src.last()) {
            Some(i) => parsed(src.drop_last()).push(i),
            None => parsed(src.drop_last()),
        }
    }
}

/// The instructions of the tape machine that do what the commands do.
pub open spec fn lowered(commands: Seq<Instruction>) -> Seq<crate::instruction::Instruction> {
    Seq::new(commands.len(), |i: int| commands[i].lowered())
}

/// The interpreter and the compiler read the same instructions off a
/// source text.
pub proof fn lemma_parsed_is_lexed(src: Seq<char>)
    ensures
        lowered(parsed(src)) == crate::compiler::lexed(src),
    decreases src.len(),
{
    if src.len() > 0 {
        lemma_parsed_is_lexed(src.drop_last());
        match Instruction::of_char(src.last()) {
            Some(i) => {
                assert(lowered(parsed(src.drop_last()).push(i)) =~= lowered(
                    parsed(src.drop_last()),
                ).push(i.lowered()));
            },
            None => {},
        }
    } else {
        assert(lowered(parsed(src)) =~= crate::compiler::lexed(src));
    }
}

/// `map` is the jump map of `code`: it holds, for the place of each `Loop`
/// and each `End`, the place of its partner, and no other place.
pub open spec fn is_jump_map(
    code: Seq<crate::instruction::Instruction>,
    map: Map<usize, usize>,
) -> bool {
    &&& forall|k: usize| #[trigger] map.contains_key(k) ==> k < code.len()
    &&& forall|i: int|
        0 <= i < code.len() ==> match #[trigger] code[i] {
            crate::instruction::Instruction::Loop => map.contains_key(i as usize) && is_pair(
                code,
                i,
                map[i as usize] as int,
            ),
            crate::instruction::Instruction::End => map.contains_key(i as usize) && is_pair(
                code,
                map[i as usize] as int,
                i,
            ),
            _ => !map.contains_key(i as usize),
        }
}

/// What the scan has entered into the map after `done` commands.
pub open spec fn map_filled(
    code: Seq<crate::instruction::Instruction>,
    map: Map<usize, usize>,
    stack: Seq<usize>,
    done: int,
) -> bool {
    &&& forall|k: usize| #[trigger] map.contains_key(k) ==> k < done
    &&& forall|i: int|
        0 <= i < done ==> match #[trigger] code[i] {
            crate::instruction::Instruction::Loop => (map.contains_key(i as usize) && is_pair(
                code,
                i,
                map[i as usize] as int,
            )) || pending(stack, i),
            crate::instruction::Instruction::End => map.contains_key(i as usize) && is_pair(
                code,
                map[i as usize] as int,
                i,
            ),
            _ => !map.contains_key(i as usize),
        }
}

/// The partner of a place is what a jump map holds for it.
pub proof fn lemma_partner_is_map_entry(
    code: Seq<crate::instruction::Instruction>,
    map: Map<usize, usize>,
    at: int,
)
    requires
        is_jump_map(code, map),
        0 <= at < code.len(),
        code[at] is Loop || code[at] is End,
    ensures
        map.contains_key(at as usize),
        partner(code, at) == map[at as usize],
        map[at as usize] < code.len(),
{
    let t = map[at as usize] as int;
    let p = partner(code, at);
    if code[at] is Loop {
        assert(is_pair(code, at, t));
        assert(is_pair(code, at, p) || is_pair(code, p, at));
        lemma_pair_unique_close(code, at, t, p);
    } else {
        assert(is_pair(code, t, at));
        assert(is_pair(code, at, p) || is_pair(code, p, at));
        lemma_pair_unique_open(code, t, p, at);
    }
}

/// A tape machine that runs the commands of a source text as they stand.
pub struct Interpreter<IO: InputOutput> {
    /// The commands of the program.
    instructions: Vec<Instruction>,
    /// The tape.
    data: Vec<u8>,
    /// The place of the next command.
    in_ptr: usize,
    /// The place of the current cell.
    d_ptr: usize,
    /// The partner of each `Loop` and each `End`.
    loop_map: HashMap<usize, usize>,
    /// The capability.
    io: IO,
    /// What each step so far got as its input.
    history: Ghost<Seq<Option<u8>>>,
    /// What the capability had recorded when the interpreter was made.
    base: Ghost<Seq<IoEvent>>,
}

impl Interpreter<StdIO> {
    /// An interpreter for `src` that reads standard input and writes
    /// standard output. Fails where the loops of `src` are not well
    /// nested.
    pub fn new(src: &str) -> (r: Result<Self, LoopError>)
        ensures
            r is Ok <==> balanced(lowered(parsed(src@))),
            match r {
                Ok(i) => {
                    &&& i.wf()
                    &&& i.commands() == parsed(src@)
                    &&& i.machine() == Self::origin()
                    &&& i.history() == Seq::<Option<u8>>::empty()
                    &&& i.log() == Seq::<IoEvent>::empty()
                },
                Err(e) => loop_error(lowered(parsed(src@))) == Some(e),
            },
    {
        Interpreter::new_with_io(src, StdIO::new())
    }
}

impl Interpreter<TestIO> {
    /// What an interpreter has written into a `TestIO` that was new when
    /// the interpreter was made: the text of the bytes that its steps
    /// wrote, in their order.
    pub proof fn lemma_collected(&self)
        requires
            self.wf(),
            self.capability().consistent(),
            self.base() == Seq::<IoEvent>::empty(),
        ensures
            self.capability().text() == text_of(
                writes(trace(self.code(), Self::origin(), self.history())),
            ),
    {
        assert(self.base() + trace(self.code(), Self::origin(), self.history()) =~= trace(
            self.code(),
            Self::origin(),
            self.history(),
        ));
    }
}

impl<IO: InputOutput> Interpreter<IO> {
    /// The commands of the program.
    pub closed spec fn commands(&self) -> Seq<Instruction> {
        self.instructions@
    }

    /// The program as instructions of the tape machine.
    pub open spec fn code(&self) -> Seq<crate::instruction::Instruction> {
        lowered(self.commands())
    }

    /// The jump map, as the interpreter holds it.
    pub closed spec fn jump_map(&self) -> Map<usize, usize> {
        self.loop_map@
    }

    /// The tape, the current cell and the next command.
    pub closed spec fn machine(&self) -> Machine {
        Machine { tape: self.data@, ptr: self.d_ptr as int, ip: self.in_ptr as int }
    }

    /// What each step taken so far got as its input: what the read gave
    /// where the step was a read, `None` where it was not.
    pub closed spec fn history(&self) -> Seq<Option<u8>> {
        self.history@
    }

    /// The capability.
    pub closed spec fn capability(&self) -> IO {
        self.io
    }

    /// What the capability had recorded when the interpreter was made.
    pub closed spec fn base(&self) -> Seq<IoEvent> {
        self.base@
    }

    /// What the capability has recorded.
    pub open spec fn log(&self) -> Seq<IoEvent> {
        self.capability().log()
    }

    /// The state in which every interpreter starts.
    pub open spec fn origin() -> Machine {
        Machine::initial(MEM as nat)
    }

    /// What holds of an interpreter at all times: its loops are well
    /// nested and its jump map is theirs; its state is what the steps taken
    /// so far make of the starting state; and the capability has been used
    /// for just what those steps read and wrote.
    pub open spec fn wf(&self) -> bool {
        &&& balanced(self.code())
        &&& is_jump_map(self.code(), self.jump_map())
        &&& self.machine().tape.len() == MEM
        &&& self.machine().wf(self.code())
        &&& self.machine() == run(self.code(), Self::origin(), self.history())
        &&& self.log() == self.base() + trace(self.code(), Self::origin(), self.history())
    }

    /// An interpreter for `src` that reads and writes through `io`. Fails
    /// where the loops of `src` are not well nested.
    pub fn new_with_io(src: &str, io: IO) -> (r: Result<Self, LoopError>)
        ensures
            r is Ok <==> balanced(lowered(parsed(src@))),
            match r {
                Ok(i) => {
                    &&& i.wf()
                    &&& i.commands() == parsed(src@)
                    &&& i.capability() == io
                    &&& i.base() == io.log()
                    &&& i.machine() == Self::origin()
                    &&& i.history() == Seq::<Option<u8>>::empty()
                },
                Err(e) => loop_error(lowered(parsed(src@))) == Some(e),
            },
    {
        let mut instructions: Vec<Instruction> = Vec::new();
        for c in it: src.chars()
            invariant
                it.seq() == src@,
                instructions@ == parsed(src@.take(it.index())),
        {
            proof {
                let i = it.index();
                assert(src@.take(i + 1).drop_last() == src@.take(i));
            }
            match Instruction::try_from(c) {
                Ok(instruction) => {
                    instructions.push(instruction);
                },
                Err(_) => {},
            }
        }
        proof {
            assert(src@.take(src@.len() as int) == src@);
        }
        let ghost code = lowered(instructions@);
        let n = instructions.len();
        let mut loop_map: HashMap<usize, usize> = HashMap::new();
        let mut stack: Vec<usize> = Vec::new();
        let mut ptr: usize = 0;
        while ptr < n
            invariant
                instructions@ == parsed(src@),
                code == lowered(instructions@),
                n == instructions.len(),
                ptr <= n,
                forall|k: int| 0 <= k <= ptr ==> depth(code, k) >= 0,
                stack_tracks(code, stack@, ptr as int),
                map_filled(code, loop_map@, stack@, ptr as int),
            decreases n - ptr,
        {
            let ghost old_stack = stack@;
            let ghost old_map = loop_map@;
            match instructions[ptr] {
                Instruction::Loop => {
                    stack.push(ptr);
                    proof {
                        assert forall|i: int| 0 <= i < ptr + 1 && code[i] is Loop implies (
                        loop_map@.contains_key(i as usize) && is_pair(
                            code,
                            i,
                            loop_map@[i as usize] as int,
                        )) || pending(stack@, i) by {
                            if i < ptr {
                                if pending(old_stack, i) {
                                    let j = choose|j: int|
                                        0 <= j < old_stack.len() && old_stack[j] == i;
                                    assert(stack@[j] == i);
                                }
                            } else {
                                assert(stack@[stack@.len() - 1] == i);
                            }
                        }
                    }
                },
                Instruction::End => {
                    if stack.len() == 0 {
                        proof {
                            assert(depth(code, ptr + 1) < 0);
                        }
                        return Err(LoopError::UnmatchedClose);
                    }
                    let open = stack.pop().unwrap();
                    loop_map.insert(open, ptr);
                    loop_map.insert(ptr, open);
                    proof {
                        assert(open == old_stack[old_stack.len() - 1]);
                        assert(is_pair(code, open as int, ptr as int));
                        assert forall|i: int| 0 <= i < ptr + 1 implies match #[trigger] code[i] {
                            crate::instruction::Instruction::Loop => (loop_map@.contains_key(
                                i as usize,
                            ) && is_pair(code, i, loop_map@[i as usize] as int)) || pending(
                                stack@,
                                i,
                            ),
                            crate::instruction::Instruction::End => loop_map@.contains_key(
                                i as usize,
                            ) && is_pair(code, loop_map@[i as usize] as int, i),
                            _ => !loop_map@.contains_key(i as usize),
                        } by {
                            if i != open && i != ptr {
                                assert(loop_map@.contains_key(i as usize) == old_map.contains_key(
                                    i as usize,
                                ));
                                if old_map.contains_key(i as usize) {
                                    assert(loop_map@[i as usize] == old_map[i as usize]);
                                }
                                if code[i] is Loop && pending(old_stack, i) {
                                    let j = choose|j: int|
                                        0 <= j < old_stack.len() && old_stack[j] == i;
                                    assert(stack@[j] == i);
                                }
                            }
                        }
                    }
                },
                _ => {},
            }
            ptr += 1;
        }
        if stack.len() != 0 {
            return Err(LoopError::UnmatchedOpen);
        }
        proof {
            assert forall|i: int| 0 <= i < code.len() && code[i] is Loop implies
                loop_map@.contains_key(i as usize) && is_pair(
                code,
                i,
                loop_map@[i as usize] as int,
            ) by {
                assert(!pending(stack@, i));
            }
        }
        let data: Vec<u8> = vec![0u8; MEM];
        assert(data@ =~= Self::origin().tape);
        let interpreter = Interpreter {
            instructions,
            data,
            in_ptr: 0,
            d_ptr: 0,
            loop_map,
            history: Ghost(Seq::empty()),
            base: Ghost(io.log()),
            io,
        };
        assert(interpreter.log() =~= interpreter.base() + trace(
            interpreter.code(),
            Self::origin(),
            interpreter.history(),
        ));
        Ok(interpreter)
    }

    /// The commands of the program.
    pub fn instructions(&self) -> (commands: &Vec<Instruction>)
        ensures
            commands@ == self.commands(),
    {
        &self.instructions
    }

    /// The jump map: for the place of each `Loop` and `End`, the place of
    /// its partner.
    pub fn loop_map(&self) -> (map: &HashMap<usize, usize>)
        ensures
            map@ == self.jump_map(),
    {
        &self.loop_map
    }

    /// The capability.
    pub fn io(&self) -> (io: &IO)
        ensures
            *io == self.capability(),
    {
        &self.io
    }

    /// Whether the program has run past its last command.
    pub fn is_halted(&self) -> (r: bool)
        ensures
            r == halted(self.code(), self.machine()),
    {
        self.in_ptr >= self.instructions.len()
    }

    /// Runs the next command. Nothing happens where the program has
    /// halted. A read that finds no input leaves the interpreter where it
    /// is, so that the step can be taken again.
    pub fn step(&mut self) -> (status: Status)
        requires
            old(self).wf(),
        ensures
            final(self).wf(),
            final(self).commands() == old(self).commands(),
            final(self).base() == old(self).base(),
            old(self).capability().inv() ==> final(self).capability().inv(),
            halted(old(self).code(), old(self).machine()) ==> {
                &&& status == Status::Halted
                &&& final(self).history() == old(self).history()
                &&& final(self).machine() == old(self).machine()
                &&& final(self).capability() == old(self).capability()
            },
            !halted(old(self).code(), old(self).machine()) ==> {
                &&& status != Status::Halted
                &&& final(self).history().len() == old(self).history().len() + 1
                &&& final(self).history().drop_last() == old(self).history()
                &&& final(self).machine() == step(
                    old(self).code(),
                    old(self).machine(),
                    final(self).history().last(),
                )
                &&& final(self).log() == match event(
                    old(self).code(),
                    old(self).machine(),
                    final(self).history().last(),
                ) {
                    Some(e) => old(self).log().push(e),
                    None => old(self).log(),
                }
                &&& !reading(old(self).code(), old(self).machine())
                    ==> final(self).history().last() is None
                &&& status == Status::NoInput <==> blocked(
                    final(self).code(),
                    Self::origin(),
                    final(self).history(),
                )
            },
    {
        let ghost code = self.code();
        let ghost past = self.history@;
        if self.in_ptr >= self.instructions.len() {
            return Status::Halted;
        }
        // Unless the command is a bracket that jumps, the next command
        // is the one after this one.
        let mut next_ins_ptr = self.in_ptr + 1;
        let mut input: Option<u8> = None;
        let mut status = Status::Running;
        let ins = self.instructions[self.in_ptr];
        assert(code[self.in_ptr as int] == ins.lowered());
        match ins {
            Instruction::Right => {
                self.d_ptr = shift_ptr(self.d_ptr, 1);
            },
            Instruction::Left => {
                self.d_ptr = shift_ptr(self.d_ptr, -1);
            },
            Instruction::Inc => {
                let value = alter(self.data[self.d_ptr], 1);
                self.data.set(self.d_ptr, value);
            },
            Instruction::Dec => {
                let value = alter(self.data[self.d_ptr], -1);
                self.data.set(self.d_ptr, value);
            },
            Instruction::Out => {
                self.io.print(self.data[self.d_ptr]);
            },
            Instruction::In => {
                input = self.io.getch();
                match input {
                    Some(byte) => {
                        self.data.set(self.d_ptr, byte);
                    },
                    None => {
                        next_ins_ptr = self.in_ptr;
                        status = Status::NoInput;
                    },
                }
            },
            Instruction::Loop => {
                proof {
                    lemma_partner_is_map_entry(code, self.loop_map@, self.in_ptr as int);
                }
                if self.data[self.d_ptr] == 0 {
                    next_ins_ptr = match self.loop_map.get(&self.in_ptr) {
                        Some(close) => *close + 1,
                        None => vstd::pervasive::unreached(),
                    };
                }
            },
            Instruction::End => {
                proof {
                    lemma_partner_is_map_entry(code, self.loop_map@, self.in_ptr as int);
                }
                if self.data[self.d_ptr] != 0 {
                    next_ins_ptr = match self.loop_map.get(&self.in_ptr) {
                        Some(open) => *open + 1,
                        None => vstd::pervasive::unreached(),
                    };
                }
            },
        }
        self.in_ptr = next_ins_ptr;
        self.history = Ghost(past.push(input));
        proof {
            assert(self.history@.drop_last() == past);
        }
        status
    }

    /// Runs at most `limit` commands, and stops before that where the
    /// program halts or a read finds no input.
    pub fn run_steps(&mut self, limit: u64) -> (status: Status)
        requires
            old(self).wf(),
        ensures
            final(self).wf(),
            final(self).commands() == old(self).commands(),
            final(self).base() == old(self).base(),
            old(self).capability().inv() ==> final(self).capability().inv(),
            ran(
                old(self).code(),
                Self::origin(),
                old(self).history(),
                final(self).history(),
                limit as int,
            ),
            final(self).machine() == run(
                old(self).code(),
                old(self).machine(),
                final(self).history().skip(old(self).history().len() as int),
            ),
            final(self).log() == old(self).log() + trace(
                old(self).code(),
                old(self).machine(),
                final(self).history().skip(old(self).history().len() as int),
            ),
            status == Status::Halted <==> halted(final(self).code(), final(self).machine()),
            status == Status::NoInput <==> final(self).history().len() > old(self).history().len()
                && blocked(final(self).code(), Self::origin(), final(self).history()),
            status == Status::Running ==> final(self).history().len() == old(self).history().len()
                + limit,
    {
        let ghost code = self.code();
        let ghost past = self.history();
        let mut steps: u64 = 0;
        let mut status = if self.is_halted() {
            Status::Halted
        } else {
            Status::Running
        };
        assert(past.take(past.len() as int) =~= past);
        while status == Status::Running && steps < limit
            invariant
                self.wf(),
                code == old(self).code(),
                past == old(self).history(),
                self.commands() == old(self).commands(),
                self.base() == old(self).base(),
                old(self).capability().inv() ==> self.capability().inv(),
                steps <= limit,
                self.history().len() == past.len() + steps,
                ran(code, Self::origin(), past, self.history(), steps as int),
                status == Status::Halted <==> halted(code, self.machine()),
                status == Status::NoInput <==> steps > 0 && blocked(
                    code,
                    Self::origin(),
                    self.history(),
                ),
            decreases limit - steps,
        {
            let ghost current = self.history();
            status = self.step();
            steps += 1;
            proof {
                lemma_ran_on(code, Self::origin(), past, current, self.history());
            }
            if status == Status::Running && self.is_halted() {
                status = Status::Halted;
            }
        }
        proof {
            lemma_run_since(code, Self::origin(), past, self.history());
            let new = self.history().skip(past.len() as int);
            let a = self.base();
            let b = trace(code, Self::origin(), past);
            let c = trace(code, old(self).machine(), new);
            assert(a + (b + c) =~= (a + b) + c);
        }
        status
    }

    /// Runs the program until it halts or a read finds no input. A program
    /// that does neither is given up on, as `Running`, after `u64::MAX`
    /// commands; it can be run on from there.
    pub fn run(&mut self) -> (status: Status)
        requires
            old(self).wf(),
        ensures
            final(self).wf(),
            final(self).commands() == old(self).commands(),
            final(self).base() == old(self).base(),
            old(self).capability().inv() ==> final(self).capability().inv(),
            ran(
                old(self).code(),
                Self::origin(),
                old(self).history(),
                final(self).history(),
                u64::MAX as int,
            ),
            final(self).machine() == run(
                old(self).code(),
                old(self).machine(),
                final(self).history().skip(old(self).history().len() as int),
            ),
            final(self).log() == old(self).log() + trace(
                old(self).code(),
                old(self).machine(),
                final(self).history().skip(old(self).history().len() as int),
            ),
            status == Status::Halted <==> halted(final(self).code(), final(self).machine()),
            status == Status::NoInput <==> final(self).history().len() > old(self).history().len()
                && blocked(final(self).code(), Self::origin(), final(self).history()),
            status == Status::Running ==> final(self).history().len() == old(self).history().len()
                + u64::MAX,
    {
        self.run_steps(u64::MAX)
    }
}

} // verus!
