use brainfrick_rs::brackets::{match_loops, LoopError};
use brainfrick_rs::compiler::{
    clear_loop_optimizer, compile, contraction_optimizer, copy_loop_optimizer, get_optimizers, lex,
    no_op_reducer, remove_n, Optimizer, OptimizerType,
};
use brainfrick_rs::compiler::CompilerStats;
use brainfrick_rs::instruction::Instruction;
use brainfrick_rs::instruction::Instruction::{Alt, Clear, End, In, Loop, NoOp, Out, Shift};
use brainfrick_rs::text::{push_decimal, push_digits, push_instruction, push_tabs};

/// All four passes, in the compiler's order.
fn optimize(mut instructions: Vec<Instruction>) -> Vec<Instruction> {
    for optimizer in get_optimizers() {
        instructions = optimizer.optimize(instructions);
    }
    instructions
}

#[test]
fn test_contraction_optimizer() {
    let input = vec![Shift(1), Shift(2), Shift(3), Shift(-2)];

    let output = contraction_optimizer(input);
    assert_eq!(vec![Shift(4)], output);
}

#[test]
fn test_clear_loop_optimizer() {
    let input = vec![Loop, Alt(-1), End];

    let output = clear_loop_optimizer(input);
    assert_eq!(vec![Clear], output);
}

#[test]
fn test_clear_loop_offset_optimizer() {
    let input = vec![Shift(1), Loop, Alt(-1), End, Alt(1)];

    let output = clear_loop_optimizer(input);
    assert_eq!(vec![Shift(1), Clear, Alt(1)], output);
}

// A copy loop becomes two instructions: the `Copy`, which leaves the
// counting cell as it is, and the `Clear` that empties it.
#[test]
fn test_copy_loop_optimizer_right() {
    let input = vec![Loop, Alt(-1), Shift(5), Alt(1), Shift(-5), End];

    let output = copy_loop_optimizer(input);
    assert_eq!(vec![Instruction::Copy { mul: 1, offset: 5 }, Clear], output);
}

#[test]
fn test_copy_loop_optimizer_left() {
    let input = vec![Loop, Alt(-1), Shift(-3), Alt(1), Shift(3), End];

    let output = copy_loop_optimizer(input);
    assert_eq!(vec![Instruction::Copy { mul: 1, offset: -3 }, Clear], output);
}

#[test]
fn test_copy_loop_mul() {
    let input = vec![Loop, Alt(-1), Shift(3), Alt(4), Shift(-3), End];

    let output = copy_loop_optimizer(input);
    assert_eq!(vec![Instruction::Copy { mul: 4, offset: 3 }, Clear], output);
}

#[test]
fn try_from_knows_the_eight_commands() {
    assert_eq!(Ok(Shift(1)), Instruction::try_from('>'));
    assert_eq!(Ok(Shift(-1)), Instruction::try_from('<'));
    assert_eq!(Ok(Alt(1)), Instruction::try_from('+'));
    assert_eq!(Ok(Alt(-1)), Instruction::try_from('-'));
    assert_eq!(Ok(Out), Instruction::try_from('.'));
    assert_eq!(Ok(In), Instruction::try_from(','));
    assert_eq!(Ok(Loop), Instruction::try_from('['));
    assert_eq!(Ok(End), Instruction::try_from(']'));
    assert_eq!(Err(()), Instruction::try_from('a'));
    assert_eq!(Err(()), Instruction::try_from(' '));
    assert_eq!(Err(()), Instruction::try_from('\n'));
    assert_eq!(Err(()), Instruction::try_from('é'));
}

#[test]
fn lex_drops_comments_and_keeps_the_order() {
    assert_eq!(Vec::<Instruction>::new(), lex(""));
    assert_eq!(Vec::<Instruction>::new(), lex("no commands here; none"));
    assert_eq!(
        vec![Loop, Alt(-1), Shift(1), Alt(1), Shift(-1), End],
        lex("c|om&ment   a [->+<] comment")
    );
    assert_eq!(
        vec![Shift(1), Shift(-1), Alt(1), Alt(-1), Out, In, Loop, End],
        lex("><+-.,[]")
    );
    // Characters of more than one byte are comments like any other.
    assert_eq!(vec![Alt(1), Out], lex("é+→.ü"));
    // Lexing does not look at the nesting.
    assert_eq!(vec![End, End, Loop], lex("]][ "));
}

#[test]
fn contraction_sums_each_run() {
    assert_eq!(Vec::<Instruction>::new(), contraction_optimizer(vec![]));
    assert_eq!(vec![Alt(-1)], contraction_optimizer(lex("+--+-")));
    assert_eq!(vec![Shift(3)], contraction_optimizer(lex(">><>>")));
    // A run that cancels is summed to zero, not removed.
    assert_eq!(vec![Alt(0)], contraction_optimizer(lex("+-")));
    assert_eq!(vec![Shift(0), Out], contraction_optimizer(lex("><.")));
    // A run of one stays as it is.
    assert_eq!(vec![Shift(7)], contraction_optimizer(vec![Shift(7)]));
    assert_eq!(vec![Alt(1), Shift(1), Alt(1)], contraction_optimizer(lex("+>+")));
    // Runs end at any other instruction, and at a run of the other kind.
    assert_eq!(
        vec![Alt(2), Shift(2), Alt(-2), Out, Shift(-2), Loop, Alt(1), End, Alt(1)],
        contraction_optimizer(lex("++>>--.<<[+]+"))
    );
    assert_eq!(
        vec![Shift(1), NoOp, Shift(1), Clear, Alt(3), Instruction::Copy { mul: 1, offset: 1 }, Alt(-3)],
        contraction_optimizer(vec![
            Shift(1),
            NoOp,
            Shift(1),
            Clear,
            Alt(1),
            Alt(2),
            Instruction::Copy { mul: 1, offset: 1 },
            Alt(-3)
        ])
    );
}

#[test]
fn contraction_wraps_round_in_the_width_of_the_amount() {
    assert_eq!(vec![Alt(i16::MIN)], contraction_optimizer(vec![Alt(i16::MAX), Alt(1)]));
    assert_eq!(vec![Alt(i16::MAX)], contraction_optimizer(vec![Alt(i16::MIN), Alt(-1)]));
    assert_eq!(
        vec![Shift(isize::MIN + 1)],
        contraction_optimizer(vec![Shift(isize::MAX), Shift(2)])
    );
    assert_eq!(vec![Alt(-25_536)], contraction_optimizer(lex(&"+".repeat(40_000))));
}

#[test]
fn contraction_twice_is_contraction_once() {
    let inputs = vec![
        lex("++>>--.<<[+]+"),
        lex("+-+-><><"),
        lex("[->+<][[]][]"),
        vec![Alt(i16::MAX), Alt(1), Alt(1), Shift(isize::MIN), Shift(-1), NoOp, Shift(0), Shift(0)],
        vec![],
    ];
    for input in inputs {
        let once = contraction_optimizer(input);
        let twice = contraction_optimizer(once.clone());
        assert_eq!(once, twice);
    }
}

#[test]
fn no_op_reducer_removes_what_has_no_effect() {
    assert_eq!(Vec::<Instruction>::new(), no_op_reducer(vec![]));
    assert_eq!(Vec::<Instruction>::new(), no_op_reducer(vec![NoOp, Alt(0), Shift(0)]));
    assert_eq!(
        vec![Alt(1), Shift(-1), Out, Clear, Instruction::Copy { mul: 0, offset: 0 }, Loop, End, In],
        no_op_reducer(vec![
            Alt(1),
            NoOp,
            Shift(-1),
            Shift(0),
            Out,
            Clear,
            Alt(0),
            Instruction::Copy { mul: 0, offset: 0 },
            Loop,
            NoOp,
            End,
            In
        ])
    );
    let kept = vec![Loop, Alt(-1), End, Shift(2)];
    assert_eq!(kept, no_op_reducer(kept.clone()));
    assert_eq!(kept, no_op_reducer(no_op_reducer(kept.clone())));
}

#[test]
fn clear_loop_keeps_what_is_outside_the_loop() {
    assert_eq!(Vec::<Instruction>::new(), clear_loop_optimizer(vec![]));
    assert_eq!(
        vec![Out, In, Clear, Out, Clear, Clear, Shift(1)],
        clear_loop_optimizer(lex(".,[-].[-][-]>"))
    );
    // Near misses stay as they are.
    let untouched = vec![
        Loop,
        Alt(1),
        End,
        Loop,
        Alt(-2),
        End,
        Loop,
        Alt(-1),
        Shift(1),
        End,
        Loop,
        Alt(-1),
        Alt(-1),
        End,
        Alt(-1),
        End,
        Loop,
        Alt(-1),
    ];
    assert_eq!(untouched, clear_loop_optimizer(untouched.clone()));
    // A loop around a clear loop is not a clear loop.
    assert_eq!(vec![Loop, Clear, End], clear_loop_optimizer(lex("[[-]]")));
    assert_eq!(vec![Loop, Alt(-1), Clear, End], clear_loop_optimizer(lex("[-[-]]")));
}

#[test]
fn clear_loop_twice_is_clear_loop_once() {
    for src in ["[[-]]", "[-[-]]", ".,[-].[-][-]>", "[[-]-]", "[-][-]]", "[[[-]"] {
        let once = clear_loop_optimizer(lex(src));
        assert_eq!(once, clear_loop_optimizer(once.clone()));
    }
}

#[test]
fn copy_loop_is_found_in_both_orders() {
    // Counting down last.
    assert_eq!(
        vec![Instruction::Copy { mul: 3, offset: 2 }, Clear],
        copy_loop_optimizer(vec![Loop, Shift(2), Alt(3), Shift(-2), Alt(-1), End])
    );
    assert_eq!(
        vec![Instruction::Copy { mul: 7, offset: -4 }, Clear],
        copy_loop_optimizer(vec![Loop, Shift(-4), Alt(7), Shift(4), Alt(-1), End])
    );
    // What stands around the loop stays.
    assert_eq!(
        vec![Alt(2), Instruction::Copy { mul: 2, offset: 3 }, Clear, Shift(3), Out],
        copy_loop_optimizer(vec![
            Alt(2),
            Loop,
            Alt(-1),
            Shift(3),
            Alt(2),
            Shift(-3),
            End,
            Shift(3),
            Out
        ])
    );
    // Two in a row.
    assert_eq!(
        vec![Instruction::Copy { mul: 1, offset: 1 }, Clear, Instruction::Copy { mul: 1, offset: -1 }, Clear],
        copy_loop_optimizer(vec![
            Loop,
            Alt(-1),
            Shift(1),
            Alt(1),
            Shift(-1),
            End,
            Loop,
            Shift(-1),
            Alt(1),
            Shift(1),
            Alt(-1),
            End
        ])
    );
}

#[test]
fn copy_loop_takes_the_multiplier_modulo_256() {
    assert_eq!(
        vec![Instruction::Copy { mul: 255, offset: 1 }, Clear],
        copy_loop_optimizer(vec![Loop, Alt(-1), Shift(1), Alt(255), Shift(-1), End])
    );
    assert_eq!(
        vec![Instruction::Copy { mul: 0, offset: 1 }, Clear],
        copy_loop_optimizer(vec![Loop, Alt(-1), Shift(1), Alt(256), Shift(-1), End])
    );
    assert_eq!(
        vec![Instruction::Copy { mul: 3, offset: 1 }, Clear],
        copy_loop_optimizer(vec![Loop, Alt(-1), Shift(1), Alt(259), Shift(-1), End])
    );
    assert_eq!(
        vec![Instruction::Copy { mul: 255, offset: 1 }, Clear],
        copy_loop_optimizer(vec![Loop, Shift(1), Alt(i16::MAX), Shift(-1), Alt(-1), End])
    );
}

#[test]
fn copy_loop_leaves_near_misses_alone() {
    let near_misses = vec![
        // The amount is not positive.
        vec![Loop, Alt(-1), Shift(5), Alt(0), Shift(-5), End],
        vec![Loop, Alt(-1), Shift(5), Alt(-1), Shift(-5), End],
        vec![Loop, Shift(5), Alt(-2), Shift(-5), Alt(-1), End],
        // The moves do not cancel.
        vec![Loop, Alt(-1), Shift(5), Alt(1), Shift(-4), End],
        vec![Loop, Alt(-1), Shift(5), Alt(1), Shift(5), End],
        vec![Loop, Shift(1), Alt(1), Shift(-2), Alt(-1), End],
        vec![Loop, Alt(-1), Shift(isize::MIN), Alt(1), Shift(isize::MIN), End],
        // The count does not go down by one.
        vec![Loop, Alt(-2), Shift(5), Alt(1), Shift(-5), End],
        vec![Loop, Alt(1), Shift(5), Alt(1), Shift(-5), End],
        vec![Loop, Shift(5), Alt(1), Shift(-5), Alt(-2), End],
        // Wrong instructions.
        vec![Loop, Alt(-1), Shift(5), Out, Shift(-5), End],
        vec![Loop, Alt(-1), Shift(5), Alt(1), Shift(-5), Loop],
        vec![Clear, Alt(-1), Shift(5), Alt(1), Shift(-5), End],
        vec![Loop, Alt(-1), Shift(5), Alt(1), Shift(-5)],
        vec![Alt(-1), Shift(5), Alt(1), Shift(-5), End],
        vec![],
    ];
    for input in near_misses {
        assert_eq!(input, copy_loop_optimizer(input.clone()));
    }
    assert_eq!(
        vec![Instruction::Copy { mul: 1, offset: isize::MAX }, Clear],
        copy_loop_optimizer(vec![
            Loop,
            Alt(-1),
            Shift(isize::MAX),
            Alt(1),
            Shift(isize::MIN + 1),
            End
        ])
    );
}

#[test]
fn copy_loop_twice_is_copy_loop_once() {
    for src in ["[->+<]", "[[->+<]]", "[->+<][>+<-]", "+[->>+++<<]>.", "[->+<", "[->+<]]"] {
        let once = copy_loop_optimizer(lex(src));
        assert_eq!(once, copy_loop_optimizer(once.clone()));
        let contracted = contraction_optimizer(lex(src));
        let once = copy_loop_optimizer(contracted);
        assert_eq!(once, copy_loop_optimizer(once.clone()));
    }
}

#[test]
fn remove_n_drops_from_the_end() {
    let mut v = vec![1, 2, 3, 4, 5];
    remove_n(&mut v, 0);
    assert_eq!(vec![1, 2, 3, 4, 5], v);
    remove_n(&mut v, 2);
    assert_eq!(vec![1, 2, 3], v);
    remove_n(&mut v, 3);
    assert_eq!(Vec::<i32>::new(), v);
    let mut v = vec!['a', 'b'];
    remove_n(&mut v, 5);
    assert_eq!(Vec::<char>::new(), v);
    let mut v = vec!["x"];
    remove_n(&mut v, usize::MAX);
    assert!(v.is_empty());
}

#[test]
fn passes_come_in_their_order() {
    assert_eq!(
        vec![
            OptimizerType::Contraction,
            OptimizerType::NoOpReducer,
            OptimizerType::ClearLoop,
            OptimizerType::CopyLoop
        ],
        get_optimizers()
    );
}

#[test]
fn each_pass_is_its_function() {
    let input = vec![Alt(1), Alt(-1), NoOp, Loop, Alt(-1), End, Loop, Alt(-1), Shift(1)];
    assert_eq!(
        contraction_optimizer(input.clone()),
        OptimizerType::Contraction.optimize(input.clone())
    );
    assert_eq!(no_op_reducer(input.clone()), OptimizerType::NoOpReducer.optimize(input.clone()));
    assert_eq!(
        clear_loop_optimizer(input.clone()),
        OptimizerType::ClearLoop.optimize(input.clone())
    );
    let input = vec![NoOp, Loop, Alt(-1), Shift(1), Alt(1), Shift(-1), End];
    assert_eq!(copy_loop_optimizer(input.clone()), OptimizerType::CopyLoop.optimize(input));
}

#[test]
fn pipeline_needs_contraction_before_folding() {
    // The run `+-` has to be summed and dropped before `[-]` shows.
    assert_eq!(vec![Clear], optimize(lex("[+--]")));
    assert_eq!(vec![Clear], optimize(lex("[><-]")));
    // `->>+<<` only becomes a copy loop once its runs are contracted.
    assert_eq!(vec![Instruction::Copy { mul: 2, offset: 3 }, Clear], optimize(lex("[->>>++<<<]")));
    assert_eq!(vec![Instruction::Copy { mul: 3, offset: 2 }, Clear], optimize(lex("[>>+++<<-]")));
    assert_eq!(Vec::<Instruction>::new(), optimize(lex("+-<>")));
    // None of the folding passes alone would find these.
    assert_eq!(lex("[+--]"), clear_loop_optimizer(lex("[+--]")));
    assert_eq!(lex("[->>+<<]"), copy_loop_optimizer(lex("[->>+<<]")));
}

#[test]
fn compile_gives_the_rewritten_instructions_and_their_jump_table() {
    let p = compile("++[->+++<]>[-]. done").unwrap();
    assert_eq!(
        &vec![Alt(2), Instruction::Copy { mul: 3, offset: 1 }, Clear, Shift(1), Clear, Out],
        p.instructions()
    );
    assert_eq!(&vec![0; 6], p.loop_map());
    assert_eq!(15, p.stats().input_instructions);
    assert_eq!(6, p.stats().output_instructions);

    let p = compile("+[>[+.]<-]").unwrap();
    assert_eq!(
        &vec![Alt(1), Loop, Shift(1), Loop, Alt(1), Out, End, Shift(-1), Alt(-1), End],
        p.instructions()
    );
    assert_eq!(&vec![0, 9, 0, 6, 0, 0, 3, 0, 0, 1], p.loop_map());
    assert_eq!(
        "Alt(1),\nLoop,\n\tShift(1),\n\tLoop,\n\t\tAlt(1),\n\t\tOut,\n\tEnd,\n\tShift(-1),\n\
         \tAlt(-1),\nEnd,\nCompilerStats { input_instructions: 10, output_instructions: 10 }",
        p.to_string()
    );

    let p = compile("").unwrap();
    assert!(p.instructions().is_empty());
    assert!(p.loop_map().is_empty());
    assert_eq!(
        "CompilerStats { input_instructions: 0, output_instructions: 0 }",
        p.to_string()
    );
    assert_eq!(0, p.stats().input_instructions);
}

#[test]
fn compiled_program_holds_nothing_without_effect() {
    for src in ["+-", "><", "+>-<[-+]", "[-]+-[->+<]><", "++--[>><<]"] {
        let p = compile(src).unwrap();
        assert!(p
            .instructions()
            .iter()
            .all(|i| !matches!(i, NoOp | Alt(0) | Shift(0))));
    }
}

#[test]
fn compile_clones() {
    let p = compile("+[>[+.]<-]").unwrap();
    let q = p.clone();
    assert_eq!(p.instructions(), q.instructions());
    assert_eq!(p.loop_map(), q.loop_map());
    assert_eq!(p.stats().input_instructions, q.stats().input_instructions);
    assert_eq!(p.stats().output_instructions, q.stats().output_instructions);
}

#[test]
fn compile_rejects_an_unmatched_close() {
    assert_eq!(LoopError::UnmatchedClose, compile("]").unwrap_err());
    assert_eq!(LoopError::UnmatchedClose, compile("+]").unwrap_err());
    assert_eq!(LoopError::UnmatchedClose, compile("[]]").unwrap_err());
    assert_eq!(LoopError::UnmatchedClose, compile("+[-]>]<[").unwrap_err());
    // The first fault from the left decides.
    assert_eq!(LoopError::UnmatchedClose, compile("][").unwrap_err());
    assert_eq!(LoopError::UnmatchedClose, compile("[[]]][[").unwrap_err());
}

#[test]
fn compile_rejects_an_unmatched_open() {
    assert_eq!(LoopError::UnmatchedOpen, compile("[").unwrap_err());
    assert_eq!(LoopError::UnmatchedOpen, compile("[[]").unwrap_err());
    assert_eq!(LoopError::UnmatchedOpen, compile("+[-]>[").unwrap_err());
    assert_eq!(LoopError::UnmatchedOpen, compile("[[[[").unwrap_err());
    assert_eq!(LoopError::UnmatchedOpen, compile("[-][").unwrap_err());
}

#[test]
fn match_loops_pairs_each_loop_with_its_end() {
    assert_eq!(Ok(vec![]), match_loops(&vec![]));
    assert_eq!(Ok(vec![0, 0, 0]), match_loops(&vec![Alt(1), Out, Clear]));
    assert_eq!(Ok(vec![1, 0]), match_loops(&lex("[]")));
    let table = match_loops(&lex("[->+<][[]][]")).unwrap();
    assert_eq!(vec![5, 0, 0, 0, 0, 0, 9, 8, 7, 6, 11, 10], table);
    // Each pair is symmetric.
    for (place, partner) in table.iter().enumerate() {
        if *partner != 0 || place == 5 {
            assert_eq!(place, table[*partner]);
        }
    }
    assert_eq!(Err(LoopError::UnmatchedClose), match_loops(&lex("[]][")));
    assert_eq!(Err(LoopError::UnmatchedOpen), match_loops(&lex("[[]")));
}

/// `n` in decimal, as the library writes it.
fn decimal(n: i128) -> String {
    let mut text = String::new();
    push_decimal(&mut text, n);
    text
}

#[test]
fn numbers_are_written_in_decimal() {
    assert_eq!("0", decimal(0));
    assert_eq!("7", decimal(7));
    assert_eq!("10", decimal(10));
    assert_eq!("-1", decimal(-1));
    assert_eq!("-10", decimal(-10));
    assert_eq!("30000", decimal(30_000));
    assert_eq!("9223372036854775807", decimal(isize::MAX as i128));
    assert_eq!("-9223372036854775808", decimal(isize::MIN as i128));
    assert_eq!(i128::MAX.to_string(), decimal(i128::MAX));
    assert_eq!((i128::MIN + 1).to_string(), decimal(i128::MIN + 1));
    for n in [-1000i128, -999, -101, -100, -99, -11, -9, 9, 11, 99, 100, 101, 255, 256, 999, 1000] {
        assert_eq!(n.to_string(), decimal(n));
    }

    let mut text = String::from("n = ");
    push_digits(&mut text, 0);
    push_digits(&mut text, 120);
    push_digits(&mut text, u128::MAX);
    assert_eq!(format!("n = 0120{}", u128::MAX), text);
}

#[test]
fn tabs_are_written_as_often_as_asked() {
    let mut text = String::from("a");
    push_tabs(&mut text, 0);
    assert_eq!("a", text);
    push_tabs(&mut text, 1);
    assert_eq!("a\t", text);
    push_tabs(&mut text, 3);
    assert_eq!("a\t\t\t\t", text);
}

#[test]
fn instructions_are_written_as_debug_writes_them() {
    let instructions = vec![
        Shift(1),
        Shift(-1),
        Shift(0),
        Shift(isize::MAX),
        Shift(isize::MIN),
        Alt(1),
        Alt(-1),
        Alt(i16::MAX),
        Alt(i16::MIN),
        Out,
        In,
        Loop,
        End,
        NoOp,
        Clear,
        Instruction::Copy { mul: 0, offset: 0 },
        Instruction::Copy { mul: 255, offset: -3 },
        Instruction::Copy { mul: 2, offset: isize::MIN },
    ];
    for instruction in instructions {
        let mut text = String::from("> ");
        push_instruction(&mut text, instruction);
        assert_eq!(format!("> {:?}", instruction), text);
    }
}

#[test]
fn listing_indents_the_body_of_each_loop() {
    let p = compile("[->+<][[]][]").unwrap();
    assert_eq!(
        "Copy { mul: 1, offset: 1 },\nClear,\nLoop,\n\tLoop,\n\tEnd,\nEnd,\nLoop,\nEnd,\n\
         CompilerStats { input_instructions: 12, output_instructions: 8 }",
        p.to_string()
    );
    // As the formatter of the standard library would write it.
    let p = compile(",[.[-]>+++<<[->>+<<],]").unwrap();
    let mut expected = String::new();
    let mut indent = 0;
    for ins in p.instructions() {
        if *ins == End {
            indent -= 1;
        }
        expected.push_str(&format!("{}{:?},\n", "\t".repeat(indent), *ins));
        if *ins == Loop {
            indent += 1;
        }
    }
    let stats: CompilerStats = p.stats();
    expected.push_str(&format!("{:?}", stats));
    assert_eq!(expected, p.to_string());
}
