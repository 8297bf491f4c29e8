use brainfuck::evaluator::{eval_vec, State};
use brainfuck::optimizer::compact;
use brainfuck::parser::{parse, Error};
use brainfuck::runner::{run_brainfuck, source_chars, Outcome};

const HELLO: &str = "++++++++[>++++[>++>+++>+++>+<<<<-]>+>+>->>+[<]<-]>>.>---.+++++++..+++.>>.<-.<.+++.------.--------.>>+.>++.";

fn finished(output: &[u8]) -> Result<Outcome, Error> {
    Ok(Outcome { output: output.to_vec(), finished: true })
}

#[test]
fn increment_then_print_outputs_one() {
    assert_eq!(run_brainfuck("+.", vec![], 100), finished(&[0x01]));
}

#[test]
fn simple_loop_outputs_nothing_and_clears_the_cell() {
    assert_eq!(run_brainfuck("+++[-]", vec![], 100), finished(&[]));
    let code: Vec<char> = "+++[-]".chars().collect();
    let program = compact(&parse(&code).unwrap());
    let mut state = State::new(vec![], 100);
    eval_vec(&mut state, &program);
    assert!(state.finished());
    assert_eq!(state.cell(), 0);
    assert_eq!(state.pointer(), 0);
    assert_eq!(state.output(), &Vec::<u8>::new());
    assert_eq!(state.budget(), 97);
}

#[test]
fn unmatched_bracket_fails_before_any_output() {
    assert_eq!(
        run_brainfuck("[+", vec![], 100),
        Err(Error::UnbalancedLoop { position: 2, found: None })
    );
    assert_eq!(
        run_brainfuck("+.+.[", vec![], 100),
        Err(Error::UnbalancedLoop { position: 5, found: None })
    );
}

#[test]
fn stray_close_fails_before_any_output() {
    assert_eq!(
        run_brainfuck("+.]+.", vec![], 100),
        Err(Error::UnbalancedLoop { position: 2, found: Some(']') })
    );
}

#[test]
fn hello_world() {
    assert_eq!(HELLO.len(), 106);
    let outcome = run_brainfuck(HELLO, vec![], 10_000).unwrap();
    assert!(outcome.finished);
    assert_eq!(outcome.output, b"Hello World!\n".to_vec());
    assert_eq!(String::from_utf8_lossy(&outcome.output), "Hello World!\n");
}

#[test]
fn hello_world_with_comments() {
    let mut text = String::from("This program greets the world\n");
    for c in HELLO.chars() {
        text.push(c);
        text.push_str(" x\u{2603}\n");
    }
    assert_eq!(
        run_brainfuck(&text, vec![], 10_000),
        finished(b"Hello World!\n")
    );
}

#[test]
fn hello_world_without_newline() {
    let code = "++++++++++[>+++++++>++++++++++>+++>+<<<<-]>++.>+.+++++++..+++.>++.<<+++++++++++++++.>.+++.------.--------.>+.";
    assert_eq!(run_brainfuck(code, vec![], 10_000), finished(b"Hello World!"));
}

#[test]
fn read_at_end_of_input_keeps_the_cell() {
    assert_eq!(run_brainfuck(",.", vec![], 100), finished(&[0]));
    assert_eq!(run_brainfuck("+++,.", vec![], 100), finished(&[3]));
}

#[test]
fn input_is_echoed() {
    assert_eq!(run_brainfuck(",.,.,.", vec![b'a', b'b'], 100), finished(b"abb"));
    assert_eq!(
        run_brainfuck(",[.,]", vec![b'h', b'i', 0, b'x'], 100),
        finished(b"hi")
    );
}

#[test]
fn the_empty_program_outputs_nothing() {
    assert_eq!(run_brainfuck("", vec![1, 2], 0), finished(&[]));
    assert_eq!(run_brainfuck("no commands here", vec![], 0), finished(&[]));
}

#[test]
fn printing_255_after_a_decrement() {
    assert_eq!(run_brainfuck("-.", vec![], 0), finished(&[255]));
    assert_eq!(run_brainfuck("<+.>.", vec![], 0), finished(&[1, 0]));
}

#[test]
fn an_endless_loop_stops_when_the_budget_is_spent() {
    assert_eq!(
        run_brainfuck("+[.]", vec![], 4),
        Ok(Outcome { output: vec![1, 1, 1, 1], finished: false })
    );
    assert_eq!(
        run_brainfuck("+[]", vec![], 0),
        Ok(Outcome { output: vec![], finished: false })
    );
}

#[test]
fn exactly_enough_budget_finishes() {
    assert_eq!(run_brainfuck("+++[.-]", vec![], 3), finished(&[3, 2, 1]));
    assert_eq!(
        run_brainfuck("+++[.-]", vec![], 2),
        Ok(Outcome { output: vec![3, 2], finished: false })
    );
}

#[test]
fn compaction_does_not_change_what_a_program_does() {
    let programs = [
        HELLO,
        "+++[>++<-]>.",
        ",[.,]",
        "+-+-<><>.",
        "-[-[-]>+<]>.",
        "+[>+]",
        ">>>+++<<<[-]>>>.",
    ];
    for text in programs {
        for budget in [0, 1, 5, 300, 10_000] {
            let code: Vec<char> = text.chars().collect();
            let tree = parse(&code).unwrap();
            let small = compact(&tree);
            let mut plain = State::new(vec![4, 3, 0, 9], budget);
            eval_vec(&mut plain, &tree);
            let mut fast = State::new(vec![4, 3, 0, 9], budget);
            eval_vec(&mut fast, &small);
            assert_eq!(plain.output(), fast.output());
            assert_eq!(plain.pointer(), fast.pointer());
            assert_eq!(plain.cell(), fast.cell());
            assert_eq!(plain.budget(), fast.budget());
            assert_eq!(plain.finished(), fast.finished());
        }
    }
}

#[test]
fn source_chars_gives_the_characters_in_order() {
    assert_eq!(source_chars("+[\u{e9}]"), vec!['+', '[', '\u{e9}', ']']);
    assert_eq!(source_chars(""), Vec::<char>::new());
}

#[test]
fn a_larger_budget_changes_nothing_for_a_run_that_finishes() {
    let enough = run_brainfuck(HELLO, vec![], 200).unwrap();
    assert!(enough.finished);
    for budget in [201, 1_000, u64::MAX] {
        assert_eq!(run_brainfuck(HELLO, vec![], budget).unwrap(), enough);
    }
}

#[test]
fn output_is_only_appended_to() {
    let code: Vec<char> = HELLO.chars().collect();
    let program = parse(&code).unwrap();
    let mut emitted: Vec<u8> = Vec::new();
    for budget in 0..60 {
        let mut state = State::new(vec![], budget);
        eval_vec(&mut state, &program);
        assert!(state.output().starts_with(&emitted));
        emitted = state.output().clone();
    }
}
