use brainfrick_rs::brackets::LoopError;
use brainfrick_rs::compiler::{compile, lex};
use brainfrick_rs::interpreter::Instruction;
use brainfrick_rs::interpreter::Instruction::{Dec, End, In, Inc, Left, Loop, Out, Right};
use brainfrick_rs::interpreter::Interpreter;
use brainfrick_rs::io::{NoIO, TestIO};
use brainfrick_rs::vm::Status;

/// Prints a greeting.
const HELLO_WORLD: &str = "++++++++[>++++[>++>+++>+++>+<<<<-]>+>+>->>+[<]<-]>>.>---.+++++++..+++.>>.<-.<.+++.------.--------.>>+.>++.";

/// Runs `src` on `input` to its end and gives back what it wrote.
fn interpreted(src: &str, input: &str) -> String {
    let mut i = Interpreter::new_with_io(src, TestIO::new(input)).unwrap();
    assert_eq!(Status::Halted, i.run());
    i.io().output()
}

#[test]
fn test_parse() {
    let src = "c|om&ment   a [->+<] comment";
    let i = Interpreter::new(src).unwrap();
    assert_eq!(&vec![Loop, Dec, Right, Inc, Left, End], i.instructions());
}

#[test]
fn interpreter_test_bracket_matching() {
    let i = Interpreter::new("[->+<][[]][]").unwrap();

    assert_eq!(8, i.loop_map().len());
    assert_eq!(0, i.loop_map()[&5]);
    assert_eq!(5, i.loop_map()[&0]);
    assert_eq!(6, i.loop_map()[&9]);
    assert_eq!(9, i.loop_map()[&6]);
    assert_eq!(7, i.loop_map()[&8]);
    assert_eq!(8, i.loop_map()[&7]);
    assert_eq!(10, i.loop_map()[&11]);
    assert_eq!(11, i.loop_map()[&10]);
}

#[test]
fn interpreter_test_hello_world() {
    let src = HELLO_WORLD;
    let io = TestIO::new("");
    let mut i = Interpreter::new_with_io(src, io).unwrap();

    i.run();
    assert_eq!("Hello World!\n", i.io().output());
}

#[test]
fn interpreter_try_from_knows_the_eight_commands() {
    assert_eq!(Ok(Right), Instruction::try_from('>'));
    assert_eq!(Ok(Left), Instruction::try_from('<'));
    assert_eq!(Ok(Inc), Instruction::try_from('+'));
    assert_eq!(Ok(Dec), Instruction::try_from('-'));
    assert_eq!(Ok(Out), Instruction::try_from('.'));
    assert_eq!(Ok(In), Instruction::try_from(','));
    assert_eq!(Ok(Loop), Instruction::try_from('['));
    assert_eq!(Ok(End), Instruction::try_from(']'));
    assert_eq!(Err(()), Instruction::try_from('x'));
    assert_eq!(Err(()), Instruction::try_from('#'));
}

#[test]
fn interpreter_reads_what_the_compiler_reads() {
    let src = "a[->+<],.b";
    let i = Interpreter::new_with_io(src, NoIO::new()).unwrap();
    assert_eq!(lex(src).len(), i.instructions().len());
    assert_eq!(
        &vec![Loop, Dec, Right, Inc, Left, End, In, Out],
        i.instructions()
    );
}

#[test]
fn interpreter_jump_map_holds_only_the_brackets() {
    let i = Interpreter::new_with_io("+.>", NoIO::new()).unwrap();
    assert!(i.loop_map().is_empty());
    let i = Interpreter::new_with_io("+[.>]", NoIO::new()).unwrap();
    assert_eq!(2, i.loop_map().len());
    assert_eq!(Some(&4), i.loop_map().get(&1));
    assert_eq!(Some(&1), i.loop_map().get(&4));
    assert_eq!(None, i.loop_map().get(&0));
    assert_eq!(None, i.loop_map().get(&2));
}

#[test]
fn interpreter_rejects_unbalanced_source() {
    assert_eq!(
        LoopError::UnmatchedClose,
        Interpreter::new_with_io("+]", NoIO::new()).err().unwrap()
    );
    assert_eq!(
        LoopError::UnmatchedClose,
        Interpreter::new_with_io("][", NoIO::new()).err().unwrap()
    );
    assert_eq!(
        LoopError::UnmatchedOpen,
        Interpreter::new_with_io("[[-]", NoIO::new()).err().unwrap()
    );
    assert_eq!(LoopError::UnmatchedOpen, Interpreter::new("[").err().unwrap());
}

#[test]
fn interpreter_wraps_cells_and_pointer() {
    assert_eq!("\u{ff}", interpreted("-.", ""));
    assert_eq!("\u{0}", interpreted(&("+".repeat(256) + "."), ""));
    assert_eq!("\u{1}\u{0}", interpreted("<+.>.", ""));
    assert_eq!("\u{1}", interpreted(&("+".to_string() + &">".repeat(30_000) + "."), ""));
}

#[test]
fn interpreter_loops_and_copies() {
    assert_eq!("\u{6}", interpreted("++[->+++<]>.", ""));
    assert_eq!("\u{3}\u{2}\u{1}", interpreted("+++[.-]", ""));
    assert_eq!("", interpreted("[.]", ""));
    assert_eq!("cba", interpreted(",>,>,.<.<.", "abc"));
}

#[test]
fn interpreter_stops_at_a_read_without_input() {
    let mut i = Interpreter::new_with_io("+.,.", TestIO::new("")).unwrap();
    assert_eq!(Status::NoInput, i.run());
    assert!(!i.is_halted());
    assert_eq!("\u{1}", i.io().output());
    assert_eq!(Status::NoInput, i.step());
}

#[test]
fn interpreter_run_steps_stops_at_the_limit() {
    let mut i = Interpreter::new_with_io("+[]", TestIO::new("")).unwrap();
    assert_eq!(Status::Running, i.run_steps(0));
    assert_eq!(Status::Running, i.run_steps(10_000));
    assert!(!i.is_halted());

    let mut i = Interpreter::new_with_io("+.+.", TestIO::new("")).unwrap();
    assert_eq!(Status::Running, i.run_steps(2));
    assert_eq!("\u{1}", i.io().output());
    assert_eq!(Status::Running, i.step());
    assert_eq!(Status::Running, i.step());
    assert_eq!(Status::Halted, i.step());
    assert_eq!("\u{1}\u{2}", i.io().output());
}

#[test]
fn interpreter_and_compiler_reject_the_same_sources() {
    let sources = [
        "", "+", "[]", "[-]", "[-]]", "[[-]", "][", "[->+<]]", "[[->+<]", "+[-]>]<[", "[[]][]", "[[][]",
        "]", "[", "[>+<-]>]", "+-]", "[+-",
    ];
    for src in sources {
        let compiled = compile(src).err();
        let interpreted = Interpreter::new_with_io(src, NoIO::new()).err();
        assert_eq!(compiled, interpreted);
    }
    assert_eq!(Some(LoopError::UnmatchedClose), compile("[-]]").err());
    assert_eq!(Some(LoopError::UnmatchedOpen), compile("[[->+<]").err());
    assert_eq!(None, compile("[[]][]").err());
}
