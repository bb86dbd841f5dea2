//! The executor: runs a compiled program on a tape of bytes.
use crate::compiler::Program;
use crate::instruction::Instruction;
use crate::io::{text_of, writes, InputOutput, IoEvent, StdIO, TestIO};
use crate::machine::{
    blocked, event, halted, lemma_partner_is_table_entry, lemma_ran_on, lemma_run_since, moved,
    ran, reading, run, step, trace, wrapped, Machine,
};
use crate::text::{decimal, push_decimal};
use vstd::prelude::*;
use vstd::string::StringExecFns;

verus! {

/// The number of cells of the tape.
pub const MEM: usize = 30_000;

/// How a run came to stand.
#[derive(Debug, PartialEq, Eq, Clone, Copy, Structural)]
pub enum Status {
    /// The program has run past its last instruction.
    Halted,
    /// The program wants to read and there is no input.
    NoInput,
    /// The program can go on.
    Running,
}

/// The place `by` cells from `ptr` on the ring of the tape.
pub fn shift_ptr(ptr: usize, by: isize) -> (r: usize)
    requires
        ptr < MEM,
    ensures
        r == moved(ptr as int, by as int, MEM as int),
{
    let within: isize = match by.checked_rem_euclid(30_000) {
        Some(r) => r,
        None => 0,
    };
    assert(within == by as int % 30_000);
    let sum: usize = ptr + within as usize;
    proof {
        vstd::arithmetic::div_mod::lemma_add_mod_noop(ptr as int, by as int, 30_000);
        vstd::arithmetic::div_mod::lemma_small_mod(ptr as nat, 30_000);
        if sum >= MEM {
            vstd::arithmetic::div_mod::lemma_mod_sub_multiples_vanish(sum as int, 30_000);
            vstd::arithmetic::div_mod::lemma_small_mod((sum - 30_000) as nat, 30_000);
        } else {
            vstd::arithmetic::div_mod::lemma_small_mod(sum as nat, 30_000);
        }
    }
    if sum >= MEM {
        sum - MEM
    } else {
        sum
    }
}

/// The value of a cell after `by` has been added to it.
pub fn alter(cell: u8, by: i16) -> (r: u8)
    ensures
        r == wrapped(cell + by),
{
    let sum: i32 = cell as i32 + by as i32;
    match sum.checked_rem_euclid(256) {
        Some(r) => r as u8,
        None => 0,
    }
}

/// The value of a cell that held `target` after `mul` times `source` has
/// been added to it.
pub fn copy_into(target: u8, source: u8, mul: u8) -> (r: u8)
    ensures
        r == wrapped(target + source * mul),
{
    assert(0 <= source * mul <= 255 * 255) by (nonlinear_arith)
        requires
            0 <= source <= 255,
            0 <= mul <= 255,
    ;
    let product: u32 = source as u32 * mul as u32;
    ((target as u32 + product) % 256) as u8
}

/// The length of the part of a tape that has been used: up to the last
/// cell that is not zero, and one where there is none.
pub open spec fn used_len(tape: Seq<u8>) -> int
    decreases tape.len(),
{
    if tape.len() <= 1 {
        1
    } else if tape.last() != 0 {
        tape.len() as int
    } else {
        used_len(tape.drop_last())
    }
}

/// The used part of a tape ends at a cell that is not zero and is followed
/// by zeros only; it is the first cell where all the others are zero.
pub proof fn lemma_used_len(tape: Seq<u8>, last: int)
    requires
        0 <= last < tape.len(),
        last > 0 ==> tape[last] != 0,
        forall|j: int| last < j < tape.len() ==> tape[j] == 0,
    ensures
        used_len(tape) == last + 1,
    decreases tape.len(),
{
    if tape.len() > 1 && tape.last() == 0 {
        lemma_used_len(tape.drop_last(), last);
    }
}

/// Cells as text: each in decimal, followed by a comma and a space.
pub open spec fn cells_text(cells: Seq<u8>) -> Seq<char>
    decreases cells.len(),
{
    if cells.len() == 0 {
        Seq::empty()
    } else {
        cells_text(cells.drop_last()) + decimal(cells.last() as int) + ", "@
    }
}

/// The state of a machine as text: where its pointer stands, and the
/// part of its tape that has been used.
pub open spec fn snapshot(m: Machine) -> Seq<char> {
    "{\n\tptr: "@ + decimal(m.ptr) + "\n\tmem: ["@ + cells_text(m.tape.take(used_len(m.tape)))
        + "]\n}"@
}

/// A tape machine that runs one compiled program, with the capability
/// through which the program reads and writes.
pub struct VM<IO: InputOutput> {
    /// The program.
    program: Program,
    /// The tape.
    data: Vec<u8>,
    /// The place of the current cell.
    ptr: usize,
    /// The place of the next instruction.
    ip: usize,
    /// The capability.
    io: IO,
    /// What each step so far got as its input.
    history: Ghost<Seq<Option<u8>>>,
    /// What the capability had recorded when the machine was made.
    base: Ghost<Seq<IoEvent>>,
}

impl VM<StdIO> {
    /// A machine that will run `program`, reading standard input and
    /// writing standard output.
    pub fn new(program: Program) -> (vm: Self)
        ensures
            vm.wf(),
            vm.code() == program@,
            vm.machine() == Self::origin(),
            vm.history() == Seq::<Option<u8>>::empty(),
            vm.log() == Seq::<IoEvent>::empty(),
    {
        VM::new_with_io(program, StdIO::new())
    }
}

impl VM<TestIO> {
    /// What a machine has written into a `TestIO` that was new when the
    /// machine was made: the text of the bytes that its steps wrote, in
    /// their order.
    pub proof fn lemma_collected(&self)
        requires
            self.wf(),
            self.capability().consistent(),
            self.base() == Seq::<IoEvent>::empty(),
        ensures
            self.capability().text() == text_of(
                writes(trace(self.code(), Self::origin(), self.history())),
            ),
    {
        assert(self.base() + trace(self.code(), Self::origin(), self.history()) =~= trace(
            self.code(),
            Self::origin(),
            self.history(),
        ));
    }
}

impl<IO: InputOutput> VM<IO> {
    /// The instructions of the program.
    pub closed spec fn code(&self) -> Seq<Instruction> {
        self.program@
    }

    /// The tape, the current cell and the next instruction.
    pub closed spec fn machine(&self) -> Machine {
        Machine { tape: self.data@, ptr: self.ptr as int, ip: self.ip as int }
    }

    /// What each step taken so far got as its input: what the read gave
    /// where the step was a read, `None` where it was not.
    pub closed spec fn history(&self) -> Seq<Option<u8>> {
        self.history@
    }

    /// The capability.
    pub closed spec fn capability(&self) -> IO {
        self.io
    }

    /// What the capability had recorded when the machine was made.
    pub closed spec fn base(&self) -> Seq<IoEvent> {
        self.base@
    }

    /// What the capability has recorded.
    pub open spec fn log(&self) -> Seq<IoEvent> {
        self.capability().log()
    }

    /// The state in which every machine starts.
    pub open spec fn origin() -> Machine {
        Machine::initial(MEM as nat)
    }

    /// What holds of a machine at all times: its state is what the steps
    /// taken so far make of the starting state, and the capability has been
    /// used for just what those steps read and wrote.
    pub open spec fn wf(&self) -> bool {
        &&& self.machine().tape.len() == MEM
        &&& self.machine().wf(self.code())
        &&& self.machine() == run(self.code(), Self::origin(), self.history())
        &&& self.log() == self.base() + trace(self.code(), Self::origin(), self.history())
    }

    /// A machine that will run `program`, reading and writing through
    /// `io`.
    pub fn new_with_io(program: Program, io: IO) -> (vm: Self)
        ensures
            vm.wf(),
            vm.code() == program@,
            vm.capability() == io,
            vm.base() == io.log(),
            vm.machine() == Self::origin(),
            vm.history() == Seq::<Option<u8>>::empty(),
    {
        let data: Vec<u8> = vec![0u8; MEM];
        assert(data@ =~= Self::origin().tape);
        let vm = VM {
            program,
            data,
            ptr: 0,
            ip: 0,
            history: Ghost(Seq::empty()),
            base: Ghost(io.log()),
            io,
        };
        assert(vm.log() =~= vm.base() + trace(vm.code(), Self::origin(), vm.history()));
        vm
    }

    /// The program.
    pub fn program(&self) -> (program: &Program)
        ensures
            program@ == self.code(),
    {
        &self.program
    }

    /// The capability.
    pub fn io(&self) -> (io: &IO)
        ensures
            *io == self.capability(),
    {
        &self.io
    }

    /// The place of the current cell.
    pub fn ptr(&self) -> (ptr: usize)
        ensures
            ptr == self.machine().ptr,
    {
        self.ptr
    }

    /// The tape.
    pub fn data(&self) -> (data: &Vec<u8>)
        ensures
            data@ == self.machine().tape,
    {
        &self.data
    }

    /// The part of the tape that has been used: the cells up to the last
    /// one that is not zero, and the first cell in any case.
    pub fn used_memory(&self) -> (used: Vec<u8>)
        requires
            self.wf(),
        ensures
            used@ == self.machine().tape.take(used_len(self.machine().tape)),
            1 <= used@.len() <= MEM,
    {
        let mut last_nonzero: usize = 0;
        let mut i: usize = 0;
        while i < MEM
            invariant
                self.data@.len() == MEM,
                i <= MEM,
                last_nonzero < MEM,
                last_nonzero > 0 ==> self.data@[last_nonzero as int] != 0,
                forall|k: int| last_nonzero < k < i ==> self.data@[k] == 0,
            decreases MEM - i,
        {
            if self.data[i] != 0 {
                last_nonzero = i;
            }
            i += 1;
        }
        proof {
            lemma_used_len(self.data@, last_nonzero as int);
        }
        let mut used: Vec<u8> = Vec::new();
        let mut k: usize = 0;
        while k <= last_nonzero
            invariant
                self.data@.len() == MEM,
                last_nonzero < MEM,
                k <= last_nonzero + 1,
                used@ == self.data@.take(k as int),
            decreases last_nonzero + 1 - k,
        {
            used.push(self.data[k]);
            k += 1;
            assert(self.data@.take(k as int - 1).push(self.data@[k as int - 1]) == self.data@.take(
                k as int,
            ));
        }
        used
    }

    /// The state of the machine as text: where its pointer stands, and
    /// the part of the tape that has been used.
    pub fn to_string(&self) -> (text: String)
        requires
            self.wf(),
        ensures
            text@ == snapshot(self.machine()),
    {
        let used = self.used_memory();
        let mut buf = String::new();
        buf.append("{\n\tptr: ");
        push_decimal(&mut buf, self.ptr as i128);
        buf.append("\n\tmem: [");
        let ghost head = buf@;
        let mut i: usize = 0;
        assert(buf@ =~= head + cells_text(used@.take(0)));
        while i < used.len()
            invariant
                i <= used.len(),
                buf@ == head + cells_text(used@.take(i as int)),
            decreases used.len() - i,
        {
            let ghost before = buf@;
            push_decimal(&mut buf, used[i] as i128);
            buf.append(", ");
            proof {
                let more = used@.take(i as int + 1);
                assert(more.drop_last() =~= used@.take(i as int));
                assert(buf@ =~= head + cells_text(more));
            }
            i += 1;
        }
        assert(used@.take(used.len() as int) =~= used@);
        buf.append("]\n}");
        assert(buf@ =~= snapshot(self.machine()));
        buf
    }

    /// Whether the program has run past its last instruction.
    pub fn is_halted(&self) -> (r: bool)
        ensures
            r == halted(self.code(), self.machine()),
    {
        self.ip >= self.program.instructions().len()
    }

    /// Runs the next instruction. Nothing happens where the program has
    /// halted. A read that finds no input leaves the machine where it is,
    /// so that the step can be taken again.
    pub fn step(&mut self) -> (status: Status)
        requires
            old(self).wf(),
        ensures
            final(self).wf(),
            final(self).code() == old(self).code(),
            final(self).base() == old(self).base(),
            old(self).capability().inv() ==> final(self).capability().inv(),
            halted(old(self).code(), old(self).machine()) ==> {
                &&& status == Status::Halted
                &&& final(self).history() == old(self).history()
                &&& final(self).machine() == old(self).machine()
                &&& final(self).capability() == old(self).capability()
            },
            !halted(old(self).code(), old(self).machine()) ==> {
                &&& status != Status::Halted
                &&& final(self).history().len() == old(self).history().len() + 1
                &&& final(self).history().drop_last() == old(self).history()
                &&& final(self).machine() == step(
                    old(self).code(),
                    old(self).machine(),
                    final(self).history().last(),
                )
                &&& final(self).log() == match event(
                    old(self).code(),
                    old(self).machine(),
                    final(self).history().last(),
                ) {
                    Some(e) => old(self).log().push(e),
                    None => old(self).log(),
                }
                &&& !reading(old(self).code(), old(self).machine())
                    ==> final(self).history().last() is None
                &&& status == Status::NoInput <==> blocked(
                    final(self).code(),
                    Self::origin(),
                    final(self).history(),
                )
            },
    {
        proof {
            use_type_invariant(&self.program);
        }
        let ghost code = self.code();
        let ghost before = self.machine();
        let ghost past = self.history@;
        if self.ip >= self.program.instructions().len() {
            return Status::Halted;
        }
        let instruction = self.program.instructions()[self.ip];
        let mut input: Option<u8> = None;
        let mut status = Status::Running;
        match instruction {
            Instruction::Shift(by) => {
                self.ptr = shift_ptr(self.ptr, by);
                self.ip += 1;
            },
            Instruction::Alt(by) => {
                let value = alter(self.data[self.ptr], by);
                self.data.set(self.ptr, value);
                self.ip += 1;
            },
            Instruction::Out => {
                self.io.print(self.data[self.ptr]);
                self.ip += 1;
            },
            Instruction::In => {
                input = self.io.getch();
                match input {
                    Some(byte) => {
                        self.data.set(self.ptr, byte);
                        self.ip += 1;
                    },
                    None => {
                        status = Status::NoInput;
                    },
                }
            },
            Instruction::Loop => {
                proof {
                    lemma_partner_is_table_entry(code, self.program.jump_table(), self.ip as int);
                }
                if self.data[self.ptr] == 0 {
                    self.ip = self.program.loop_map()[self.ip] + 1;
                } else {
                    self.ip += 1;
                }
            },
            Instruction::End => {
                proof {
                    lemma_partner_is_table_entry(code, self.program.jump_table(), self.ip as int);
                }
                if self.data[self.ptr] != 0 {
                    self.ip = self.program.loop_map()[self.ip] + 1;
                } else {
                    self.ip += 1;
                }
            },
            Instruction::Clear => {
                self.data.set(self.ptr, 0);
                self.ip += 1;
            },
            Instruction::Copy { mul, offset } => {
                let target = shift_ptr(self.ptr, offset);
                let value = copy_into(self.data[target], self.data[self.ptr], mul);
                self.data.set(target, value);
                self.ip += 1;
            },
            Instruction::NoOp => {
                assert(crate::rewrite::is_noop(code[before.ip]));
                return vstd::pervasive::unreached();
            },
        }
        self.history = Ghost(past.push(input));
        proof {
            assert(self.history@.drop_last() == past);
        }
        status
    }

    /// Runs at most `limit` instructions, and stops before that where the
    /// program halts or a read finds no input.
    pub fn run_steps(&mut self, limit: u64) -> (status: Status)
        requires
            old(self).wf(),
        ensures
            final(self).wf(),
            final(self).code() == old(self).code(),
            final(self).base() == old(self).base(),
            old(self).capability().inv() ==> final(self).capability().inv(),
            ran(
                old(self).code(),
                Self::origin(),
                old(self).history(),
                final(self).history(),
                limit as int,
            ),
            final(self).machine() == run(
                old(self).code(),
                old(self).machine(),
                final(self).history().skip(old(self).history().len() as int),
            ),
            final(self).log() == old(self).log() + trace(
                old(self).code(),
                old(self).machine(),
                final(self).history().skip(old(self).history().len() as int),
            ),
            status == Status::Halted <==> halted(final(self).code(), final(self).machine()),
            status == Status::NoInput <==> final(self).history().len() > old(self).history().len()
                && blocked(final(self).code(), Self::origin(), final(self).history()),
            status == Status::Running ==> final(self).history().len() == old(self).history().len()
                + limit,
    {
        let ghost code = self.code();
        let ghost past = self.history();
        let mut steps: u64 = 0;
        let mut status = if self.is_halted() {
            Status::Halted
        } else {
            Status::Running
        };
        assert(past.take(past.len() as int) =~= past);
        while status == Status::Running && steps < limit
            invariant
                self.wf(),
                code == old(self).code(),
                past == old(self).history(),
                self.code() == old(self).code(),
                self.base() == old(self).base(),
                old(self).capability().inv() ==> self.capability().inv(),
                steps <= limit,
                self.history().len() == past.len() + steps,
                ran(code, Self::origin(), past, self.history(), steps as int),
                status == Status::Halted <==> halted(code, self.machine()),
                status == Status::NoInput <==> steps > 0 && blocked(
                    code,
                    Self::origin(),
                    self.history(),
                ),
            decreases limit - steps,
        {
            let ghost current = self.history();
            status = self.step();
            steps += 1;
            proof {
                lemma_ran_on(code, Self::origin(), past, current, self.history());
            }
            if status == Status::Running && self.is_halted() {
                status = Status::Halted;
            }
        }
        proof {
            lemma_run_since(code, Self::origin(), past, self.history());
            let new = self.history().skip(past.len() as int);
            let a = self.base();
            let b = trace(code, Self::origin(), past);
            let c = trace(code, old(self).machine(), new);
            assert(a + (b + c) =~= (a + b) + c);
        }
        status
    }

    /// Runs the program until it halts or a read finds no input. A program
    /// that does neither is given up on, as `Running`, after `u64::MAX`
    /// instructions; it can be run on from there.
    pub fn run(&mut self) -> (status: Status)
        requires
            old(self).wf(),
        ensures
            final(self).wf(),
            final(self).code() == old(self).code(),
            final(self).base() == old(self).base(),
            old(self).capability().inv() ==> final(self).capability().inv(),
            ran(
                old(self).code(),
                Self::origin(),
                old(self).history(),
                final(self).history(),
                u64::MAX as int,
            ),
            final(self).machine() == run(
                old(self).code(),
                old(self).machine(),
                final(self).history().skip(old(self).history().len() as int),
            ),
            final(self).log() == old(self).log() + trace(
                old(self).code(),
                old(self).machine(),
                final(self).history().skip(old(self).history().len() as int),
            ),
            status == Status::Halted <==> halted(final(self).code(), final(self).machine()),
            status == Status::NoInput <==> final(self).history().len() > old(self).history().len()
                && blocked(final(self).code(), Self::origin(), final(self).history()),
            status == Status::Running ==> final(self).history().len() == old(self).history().len()
                + u64::MAX,
    {
        self.run_steps(u64::MAX)
    }
}

} // verus!
