use brainfrick_rs::brackets::LoopError;
use brainfrick_rs::compiler::compile;
use brainfrick_rs::interpreter::Interpreter;
use brainfrick_rs::io::{NoIO, TestIO};
use brainfrick_rs::vm::{alter, copy_into, shift_ptr, Status, MEM, VM};

/// Prints a greeting.
const HELLO_WORLD: &str = "++++++++[>++++[>++>+++>+++>+<<<<-]>+>+>->>+[<]<-]>>.>---.+++++++..+++.>>.<-.<.+++.------.--------.>>+.>++.";

/// Prints the digit six three times.
const SIX_SIX_SIX: &str = "++++++[>+++++++++<-]>...>++++++++++.";

/// Computes the first four digits of pi and prints them.
const PI_4: &str = "> ++++ (4 digits)

[<+>>>>>>>>++++++++++<<<<<<<-]>+++++[<+++++++++>-]+>>>>>>+[<<+++[>>[-<]<[>]<-]>>
[>+>]<[<]>]>[[->>>>+<<<<]>>>+++>-]<[<<<<]<<<<<<<<+[->>>>>>>>>>>>[<+[->>>>+<<<<]>
>>>>]<<<<[>>>>>[<<<<+>>>>-]<<<<<-[<<++++++++++>>-]>>>[<<[<+<<+>>>-]<[>+<-]<++<<+
>>>>>>-]<<[-]<<-<[->>+<-[>>>]>[[<+>-]>+>>]<<<<<]>[-]>+<<<-[>>+<<-]<]<<<<+>>>>>>>
>[-]>[<<<+>>>-]<<++++++++++<[->>+<-[>>>]>[[<+>-]>+>>]<<<<<]>[-]>+>[<<+<+>>>-]<<<
<+<+>>[-[-[-[-[-[-[-[-[-<->[-<+<->>]]]]]]]]]]<[+++++[<<<++++++++<++++++++>>>>-]<
<<<+<->>>>[>+<<<+++++++++<->>>-]<<<<<[>>+<<-]+<[->-<]>[>>.<<<<[+.[-]]>>-]>[>>.<<
-]>[-]>[-]>>>[>>[<<<<<<<<+>>>>>>>>-]<<-]]>>[-]<<<[-]<<<<<<<<]++++++++++.";

/// Draws the Sierpinski triangle, 32 rows high.
const SIERPINSKI: &str = "++++++++[>+>++++<<-]>++>>+<[-[>>+<<-]+>>]>+[
    -<<<[
        ->[+[-]+>++>>>-<<]<[<]>>++++++[<<+++++>>-]+<<++.[-]<<
    ]>.>+[>>]>+
]";

/// The triangle, row by row.
const SIERPINSKI_OUT: &str = "                               *
                              * *
                             *   *
                            * * * *
                           *       *
                          * *     * *
                         *   *   *   *
                        * * * * * * * *
                       *               *
                      * *             * *
                     *   *           *   *
                    * * * *         * * * *
                   *       *       *       *
                  * *     * *     * *     * *
                 *   *   *   *   *   *   *   *
                * * * * * * * * * * * * * * * *
               *                               *
              * *                             * *
             *   *                           *   *
            * * * *                         * * * *
           *       *                       *       *
          * *     * *                     * *     * *
         *   *   *   *                   *   *   *   *
        * * * * * * * *                 * * * * * * * *
       *               *               *               *
      * *             * *             * *             * *
     *   *           *   *           *   *           *   *
    * * * *         * * * *         * * * *         * * * *
   *       *       *       *       *       *       *       *
  * *     * *     * *     * *     * *     * *     * *     * *
 *   *   *   *   *   *   *   *   *   *   *   *   *   *   *   *
* * * * * * * * * * * * * * * * * * * * * * * * * * * * * * * *
";

/// Computes and prints the first eleven Fibonacci numbers.
const FIB_11: &str = "+++++++++++
>+>>>>++++++++++++++++++++++++++++++++++++++++++++
>++++++++++++++++++++++++++++++++<<<<<<[>[>>>>>>+>
+<<<<<<<-]>>>>>>>[<<<<<<<+>>>>>>>-]<[>++++++++++[-
<-[>>+>+<<<-]>>>[<<<+>>>-]+<[>[-]<[-]]>[<<[>>>+<<<
-]>>[-]]<<]>>>[>>+>+<<<-]>>>[<<<+>>>-]+<[>[-]<[-]]
>[<<+>>[-]]<<<<<<<]>>>>>[+++++++++++++++++++++++++
+++++++++++++++++++++++.[-]]++++++++++<[->-<]>++++
++++++++++++++++++++++++++++++++++++++++++++.[-]<<
<<<<<<<<<<[>>>+>+<<<<-]>>>>[<<<<+>>>>-]<-[>>.>.<<<
[-]]<<[>>+>+<<<-]>>>[<<<+>>>-]<<[<+>-]>[<+>-]<<<-]";

/// Runs `src` on `input` to its end and gives back what it wrote.
fn output_of(src: &str, input: &str) -> String {
    let p = compile(src).unwrap();
    let io = TestIO::new(input);
    let mut i = VM::new_with_io(p, io);
    assert_eq!(Status::Halted, i.run());
    i.io().output()
}

// The jump table is that of the instructions after the rewrite passes:
// this source is one on which they change nothing.
#[test]
fn vm_test_bracket_matching() {
    let p = compile("[->.<][[]][]").unwrap();
    let i = VM::new(p);

    assert_eq!(12, i.program().loop_map().len());
    assert_eq!(0, i.program().loop_map()[5]);
    assert_eq!(5, i.program().loop_map()[0]);
    assert_eq!(6, i.program().loop_map()[9]);
    assert_eq!(9, i.program().loop_map()[6]);
    assert_eq!(7, i.program().loop_map()[8]);
    assert_eq!(8, i.program().loop_map()[7]);
    assert_eq!(10, i.program().loop_map()[11]);
    assert_eq!(11, i.program().loop_map()[10]);
}

#[test]
fn vm_test_hello_world() {
    let src = HELLO_WORLD;
    let p = compile(src).unwrap();
    let io = TestIO::new("");
    let mut i = VM::new_with_io(p, io);

    i.run();
    assert_eq!("Hello World!\n", i.io().output());
}

#[test]
fn test_666() {
    let src = SIX_SIX_SIX;
    let p = compile(src).unwrap();
    let io = TestIO::new("");
    let mut i = VM::new_with_io(p, io);

    i.run();
    assert_eq!("666\n", i.io().output());
}

#[test]
fn test_pi4() {
    let src = PI_4;
    let p = compile(src).unwrap();
    let io = TestIO::new("");
    let mut i = VM::new_with_io(p, io);

    i.run();
    assert_eq!("3.141\n", i.io().output());
}

#[test]
fn test_sierpinski() {
    let src = SIERPINSKI;
    let out = SIERPINSKI_OUT;
    let p = compile(src).unwrap();
    let io = TestIO::new("");
    let mut i = VM::new_with_io(p, io);

    i.run();
    assert_eq!(out, i.io().output());
}

#[test]
fn test_fib11() {
    let src = FIB_11;
    let p = compile(src).unwrap();
    let io = TestIO::new("");
    let mut i = VM::new_with_io(p, io);

    i.run();
    assert_eq!("1, 1, 2, 3, 5, 8, 13, 21, 34, 55, 89", i.io().output());
}

#[test]
fn run_reports_the_end_of_the_program() {
    let mut vm = VM::new_with_io(compile(HELLO_WORLD).unwrap(), TestIO::new(""));
    assert!(!vm.is_halted());
    assert_eq!(Status::Halted, vm.run());
    assert!(vm.is_halted());
    // A halted machine stays halted and writes nothing more.
    assert_eq!(Status::Halted, vm.step());
    assert_eq!(Status::Halted, vm.run());
    assert_eq!("Hello World!\n", vm.io().output());
}

#[test]
fn empty_program_halts_at_once() {
    let mut vm = VM::new_with_io(compile("just a comment").unwrap(), TestIO::new("x"));
    assert!(vm.is_halted());
    assert_eq!(Status::Halted, vm.run());
    assert_eq!("", vm.io().output());
    assert_eq!(0, vm.ptr());
}

#[test]
fn tape_starts_as_thirty_thousand_zeros() {
    let vm = VM::new_with_io(compile("").unwrap(), NoIO::new());
    assert_eq!(30_000, MEM);
    assert_eq!(MEM, vm.data().len());
    assert!(vm.data().iter().all(|cell| *cell == 0));
    assert_eq!(0, vm.ptr());
}

#[test]
fn cell_returns_to_its_value_after_256_increments() {
    // Five, then 256 more: the cell holds five again.
    let src = format!("+++++{}.", "+".repeat(256));
    assert_eq!("\u{5}", output_of(&src, ""));
    // The same one step at a time, with other instructions in between.
    let src = format!("+++++{}.", "+>+<".repeat(256));
    assert_eq!("\u{5}", output_of(&src, ""));
}

#[test]
fn cell_wraps_in_both_directions() {
    let mut vm = VM::new_with_io(compile("-").unwrap(), TestIO::new(""));
    vm.run();
    assert_eq!(255, vm.data()[0]);
    assert_eq!(vec![255], vm.used_memory());

    let mut vm = VM::new_with_io(compile("-+").unwrap(), TestIO::new(""));
    vm.run();
    assert_eq!(0, vm.data()[0]);

    let src = "+".repeat(255) + "++";
    let mut vm = VM::new_with_io(compile(&src).unwrap(), TestIO::new(""));
    vm.run();
    assert_eq!(1, vm.data()[0]);
}

#[test]
fn alter_adds_modulo_256() {
    assert_eq!(0, alter(255, 1));
    assert_eq!(255, alter(0, -1));
    assert_eq!(7, alter(7, 256));
    assert_eq!(7, alter(7, -256));
    assert_eq!(44, alter(200, 100));
    assert_eq!(100, alter(200, -100));
    assert_eq!(255, alter(0, i16::MAX));
    assert_eq!(0, alter(0, i16::MIN));
    assert_eq!(0, alter(1, i16::MAX));
}

#[test]
fn pointer_wraps_past_the_end_of_the_tape() {
    assert_eq!(0, shift_ptr(MEM - 1, 1));
    assert_eq!(MEM - 1, shift_ptr(0, -1));
    assert_eq!(5, shift_ptr(5, 30_000));
    assert_eq!(5, shift_ptr(5, -30_000));
    assert_eq!(29_990, shift_ptr(10, -20));
    assert_eq!(20_001, shift_ptr(1, 50_000));
    assert_eq!(25_807, shift_ptr(0, isize::MAX));
    assert_eq!(4_192, shift_ptr(0, isize::MIN));
    assert_eq!(4_191, shift_ptr(MEM - 1, isize::MIN));

    // One step back from the first cell is the last cell.
    let mut vm = VM::new_with_io(compile("<").unwrap(), TestIO::new(""));
    vm.run();
    assert_eq!(MEM - 1, vm.ptr());

    // And one step on from the last cell is the first.
    let mut vm = VM::new_with_io(compile("<+>+").unwrap(), TestIO::new(""));
    vm.run();
    assert_eq!(0, vm.ptr());
    assert_eq!(1, vm.data()[0]);
    assert_eq!(1, vm.data()[MEM - 1]);

    // All the way round.
    let src = ">".repeat(MEM) + "+";
    let mut vm = VM::new_with_io(compile(&src).unwrap(), TestIO::new(""));
    vm.run();
    assert_eq!(0, vm.ptr());
    assert_eq!(1, vm.data()[0]);
}

#[test]
fn copy_adds_the_product_and_leaves_the_source() {
    assert_eq!(6, copy_into(0, 2, 3));
    assert_eq!(16, copy_into(10, 2, 3));
    assert_eq!(1, copy_into(0, 255, 255));
    assert_eq!(0, copy_into(0, 16, 16));
    assert_eq!(254, copy_into(255, 255, 1));
    assert_eq!(9, copy_into(9, 0, 200));

    // Two, times three, into the next cell; the loop leaves the source at zero.
    let mut vm = VM::new_with_io(compile("++[->+++<]").unwrap(), TestIO::new(""));
    assert_eq!(3, vm.program().instructions().len());
    vm.run();
    assert_eq!(0, vm.data()[0]);
    assert_eq!(6, vm.data()[1]);
    assert_eq!(vec![0, 6], vm.used_memory());

    // After the Copy alone the source still holds its value.
    let mut vm = VM::new_with_io(compile("++[->+++<]").unwrap(), TestIO::new(""));
    assert_eq!(Status::Running, vm.run_steps(2));
    assert_eq!(2, vm.data()[0]);
    assert_eq!(6, vm.data()[1]);
    assert_eq!(Status::Halted, vm.run_steps(1));
    assert_eq!(0, vm.data()[0]);
}

#[test]
fn copy_wraps_round_the_tape() {
    // The target lies three cells back from the first cell.
    let mut vm = VM::new_with_io(compile("+++[-<<<++>>>]").unwrap(), TestIO::new(""));
    vm.run();
    assert_eq!(6, vm.data()[MEM - 3]);
    assert_eq!(0, vm.data()[0]);
    assert_eq!(MEM - 2, vm.used_memory().len());
}

#[test]
fn clear_sets_the_cell_to_zero() {
    let mut vm = VM::new_with_io(compile("+++++[-]").unwrap(), TestIO::new(""));
    vm.run();
    assert_eq!(0, vm.data()[0]);
    assert_eq!(vec![0], vm.used_memory());
}

#[test]
fn loop_is_skipped_on_zero_and_repeated_otherwise() {
    // The first loop is never entered; the second is left after one round.
    assert_eq!("\u{2}\u{3}", output_of("[.]+++[>+<-.[-]]>++.", ""));
    // This one runs three times.
    assert_eq!("\u{3}\u{2}\u{1}", output_of("+++[.-]", ""));
}

#[test]
fn input_is_stored_in_the_current_cell() {
    assert_eq!("A", output_of(",.", "A"));
    assert_eq!("cba", output_of(",>,>,.<.<.", "abc"));
    assert_eq!("B", output_of(",+.", "A"));
}

#[test]
fn read_without_input_stops_the_run() {
    let mut vm = VM::new_with_io(compile("+.,.").unwrap(), TestIO::new(""));
    assert_eq!(Status::NoInput, vm.run());
    assert!(!vm.is_halted());
    assert_eq!("\u{1}", vm.io().output());
    // The read can be tried again, and fails again.
    assert_eq!(Status::NoInput, vm.step());
    assert_eq!(Status::NoInput, vm.run());
    assert_eq!("\u{1}", vm.io().output());

    let mut vm = VM::new_with_io(compile(",.,.").unwrap(), TestIO::new("x"));
    assert_eq!(Status::NoInput, vm.run());
    assert_eq!("x", vm.io().output());

    let mut vm = VM::new_with_io(compile("+,").unwrap(), NoIO::new());
    assert_eq!(Status::NoInput, vm.run());
    assert_eq!(1, vm.data()[0]);
}

#[test]
fn run_steps_stops_at_the_limit() {
    // A loop without end.
    let mut vm = VM::new_with_io(compile("+[>+<]").unwrap(), TestIO::new(""));
    assert_eq!(Status::Running, vm.run_steps(0));
    assert_eq!(0, vm.data()[0]);
    assert_eq!(Status::Running, vm.run_steps(1));
    assert_eq!(1, vm.data()[0]);
    assert_eq!(Status::Running, vm.run_steps(1_000));
    assert!(!vm.is_halted());

    // Exactly as many steps as the program has.
    let mut vm = VM::new_with_io(compile("+>+>+").unwrap(), TestIO::new(""));
    assert_eq!(Status::Running, vm.run_steps(4));
    assert_eq!(vec![1, 1], vm.used_memory());
    assert_eq!(Status::Halted, vm.run_steps(1));
    assert_eq!(vec![1, 1, 1], vm.used_memory());
}

#[test]
fn step_runs_one_instruction() {
    let mut vm = VM::new_with_io(compile("+++>--.").unwrap(), TestIO::new(""));
    assert_eq!(Status::Running, vm.step());
    assert_eq!(3, vm.data()[0]);
    assert_eq!(0, vm.ptr());
    assert_eq!(Status::Running, vm.step());
    assert_eq!(1, vm.ptr());
    assert_eq!(Status::Running, vm.step());
    assert_eq!(254, vm.data()[1]);
    assert_eq!("", vm.io().output());
    assert_eq!(Status::Running, vm.step());
    assert_eq!("\u{fe}", vm.io().output());
    assert_eq!(Status::Halted, vm.step());
}

#[test]
fn used_memory_ends_at_the_last_cell_that_is_not_zero() {
    let mut vm = VM::new_with_io(compile("").unwrap(), TestIO::new(""));
    vm.run();
    assert_eq!(vec![0], vm.used_memory());

    let mut vm = VM::new_with_io(compile("+>>++>>>+++>").unwrap(), TestIO::new(""));
    vm.run();
    assert_eq!(vec![1, 0, 2, 0, 0, 3], vm.used_memory());
    assert_eq!(6, vm.ptr());
}

#[test]
fn unbalanced_source_never_runs() {
    assert_eq!(LoopError::UnmatchedOpen, compile("+.[").unwrap_err());
    assert_eq!(LoopError::UnmatchedClose, compile("+.]").unwrap_err());
}

#[test]
fn compiled_and_interpreted_programs_write_the_same() {
    for src in [HELLO_WORLD, SIX_SIX_SIX, PI_4, SIERPINSKI, FIB_11] {
        let mut plain = Interpreter::new_with_io(src, TestIO::new("")).unwrap();
        assert_eq!(Status::Halted, plain.run());
        assert_eq!(plain.io().output(), output_of(src, ""));
    }
    // With input, and with loops that the compiler folds.
    let src = ",[->++<]>.[-],[>+++<-]>.";
    let mut plain = Interpreter::new_with_io(src, TestIO::new("!0")).unwrap();
    assert_eq!(Status::Halted, plain.run());
    assert_eq!("B\u{90}", plain.io().output());
    assert_eq!("B\u{90}", output_of(src, "!0"));
}

#[test]
fn folded_loops_take_fewer_steps() {
    // Contracted: one step for five commands.
    let mut vm = VM::new_with_io(compile("+++++").unwrap(), TestIO::new(""));
    assert_eq!(Status::Halted, vm.run_steps(1));
    assert_eq!(5, vm.data()[0]);
    // Cleared: one more step, whatever the cell holds.
    let mut vm = VM::new_with_io(compile("-[-]").unwrap(), TestIO::new(""));
    assert_eq!(Status::Running, vm.run_steps(1));
    assert_eq!(255, vm.data()[0]);
    assert_eq!(Status::Halted, vm.run_steps(1));
    assert_eq!(0, vm.data()[0]);
    // The loop as it stands takes one step and two more for each unit.
    let mut plain = Interpreter::new_with_io("-[-]", TestIO::new("")).unwrap();
    assert_eq!(Status::Running, plain.run_steps(1 + 1 + 2 * 255 - 1));
    assert!(!plain.is_halted());
    assert_eq!(Status::Halted, plain.run_steps(1));
}

#[test]
fn machine_is_shown_with_its_pointer_and_used_cells() {
    let vm = VM::new_with_io(compile("").unwrap(), TestIO::new(""));
    assert_eq!("{\n\tptr: 0\n\tmem: [0, ]\n}", vm.to_string());

    let mut vm = VM::new_with_io(compile("+>>-->>>+++>").unwrap(), TestIO::new(""));
    vm.run();
    assert_eq!("{\n\tptr: 6\n\tmem: [1, 0, 254, 0, 0, 3, ]\n}", vm.to_string());

    let mut vm = VM::new_with_io(compile("<").unwrap(), TestIO::new(""));
    vm.run();
    assert_eq!("{\n\tptr: 29999\n\tmem: [0, ]\n}", vm.to_string());
}
