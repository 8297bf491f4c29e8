use brainfuck::evaluator::{eval, eval_vec, eval_while, State};
use brainfuck::instruction::Instruction;
use brainfuck::machine::HEAP_SIZE;

#[test]
fn a_new_state_is_blank() {
    let state = State::new(vec![1, 2, 3], 7);
    assert_eq!(state.pointer(), 0);
    assert_eq!(state.cell(), 0);
    assert_eq!(state.output(), &Vec::<u8>::new());
    assert_eq!(state.budget(), 7);
    assert!(state.finished());
}

#[test]
fn the_tape_has_4092_cells() {
    assert_eq!(HEAP_SIZE, 4092);
}

#[test]
fn moving_right_advances_the_pointer() {
    let mut state = State::new(vec![], 0);
    eval(&mut state, &Instruction::MovePointer(5));
    assert_eq!(state.pointer(), 5);
    eval(&mut state, &Instruction::MovePointer(-2));
    assert_eq!(state.pointer(), 3);
}

#[test]
fn moving_left_from_cell_zero_wraps_to_the_last_cell() {
    let mut state = State::new(vec![], 0);
    eval(&mut state, &Instruction::MovePointer(-1));
    assert_eq!(state.pointer(), 4091);
    eval(&mut state, &Instruction::MovePointer(1));
    assert_eq!(state.pointer(), 0);
}

#[test]
fn moving_by_the_tape_size_returns_to_the_same_cell() {
    let mut state = State::new(vec![], 0);
    eval(&mut state, &Instruction::MovePointer(17));
    for _ in 0..4092 {
        eval(&mut state, &Instruction::MovePointer(1));
    }
    assert_eq!(state.pointer(), 17);
    for _ in 0..4092 {
        eval(&mut state, &Instruction::MovePointer(-1));
    }
    assert_eq!(state.pointer(), 17);
    eval(&mut state, &Instruction::MovePointer(4092));
    assert_eq!(state.pointer(), 17);
    eval(&mut state, &Instruction::MovePointer(-4092));
    assert_eq!(state.pointer(), 17);
}

#[test]
fn large_moves_are_taken_modulo_the_tape_size() {
    let mut state = State::new(vec![], 0);
    eval(&mut state, &Instruction::MovePointer(10_000));
    assert_eq!(state.pointer(), 10_000 % 4092);
    let mut state = State::new(vec![], 0);
    eval(&mut state, &Instruction::MovePointer(-10_000));
    assert_eq!(state.pointer(), 4092 - 10_000 % 4092);
    let mut state = State::new(vec![], 0);
    eval(&mut state, &Instruction::MovePointer(i64::MAX));
    assert_eq!(state.pointer(), 7);
    let mut state = State::new(vec![], 0);
    eval(&mut state, &Instruction::MovePointer(i64::MIN));
    assert_eq!(state.pointer(), 4084);
}

#[test]
fn cells_wrap_at_256() {
    let mut state = State::new(vec![], 0);
    eval(&mut state, &Instruction::ModifyCell(-1));
    assert_eq!(state.cell(), 255);
    eval(&mut state, &Instruction::ModifyCell(1));
    assert_eq!(state.cell(), 0);
    eval(&mut state, &Instruction::ModifyCell(300));
    assert_eq!(state.cell(), 44);
    eval(&mut state, &Instruction::ModifyCell(-45));
    assert_eq!(state.cell(), 255);
}

#[test]
fn incrementing_256_times_returns_to_the_same_value() {
    let mut state = State::new(vec![], 0);
    eval(&mut state, &Instruction::ModifyCell(99));
    for _ in 0..256 {
        eval(&mut state, &Instruction::ModifyCell(1));
    }
    assert_eq!(state.cell(), 99);
    for _ in 0..256 {
        eval(&mut state, &Instruction::ModifyCell(-1));
    }
    assert_eq!(state.cell(), 99);
}

#[test]
fn cells_are_separate() {
    let mut state = State::new(vec![], 0);
    eval(&mut state, &Instruction::ModifyCell(5));
    eval(&mut state, &Instruction::MovePointer(1));
    assert_eq!(state.cell(), 0);
    eval(&mut state, &Instruction::ModifyCell(9));
    eval(&mut state, &Instruction::MovePointer(-1));
    assert_eq!(state.cell(), 5);
}

#[test]
fn output_appends_the_current_cell() {
    let mut state = State::new(vec![], 0);
    eval(&mut state, &Instruction::ModifyCell(65));
    eval(&mut state, &Instruction::Output);
    eval(&mut state, &Instruction::ModifyCell(1));
    eval(&mut state, &Instruction::Output);
    assert_eq!(state.output(), &vec![65, 66]);
    assert_eq!(state.into_output(), vec![65, 66]);
}

#[test]
fn input_reads_one_byte_each_time() {
    let mut state = State::new(vec![10, 20], 0);
    eval(&mut state, &Instruction::Input);
    assert_eq!(state.cell(), 10);
    eval(&mut state, &Instruction::Input);
    assert_eq!(state.cell(), 20);
}

#[test]
fn input_at_end_of_stream_leaves_the_cell_unchanged() {
    let mut state = State::new(vec![10], 0);
    eval(&mut state, &Instruction::Input);
    eval(&mut state, &Instruction::Input);
    assert_eq!(state.cell(), 10);
    assert!(state.finished());
    let mut state = State::new(vec![], 0);
    eval(&mut state, &Instruction::ModifyCell(42));
    eval(&mut state, &Instruction::Input);
    assert_eq!(state.cell(), 42);
}

#[test]
fn a_loop_whose_cell_is_zero_at_entry_does_nothing() {
    let body = vec![
        Instruction::ModifyCell(1),
        Instruction::Output,
        Instruction::MovePointer(1),
    ];
    let mut state = State::new(vec![], 5);
    eval_while(&mut state, &body);
    assert_eq!(state.pointer(), 0);
    assert_eq!(state.cell(), 0);
    assert_eq!(state.output(), &Vec::<u8>::new());
    assert_eq!(state.budget(), 5);
    assert!(state.finished());
    eval(&mut state, &Instruction::Loop(body));
    assert_eq!(state.budget(), 5);
    assert_eq!(state.output(), &Vec::<u8>::new());
}

#[test]
fn a_loop_without_budget_that_need_not_run_still_finishes() {
    let mut state = State::new(vec![], 0);
    eval_while(&mut state, &vec![Instruction::ModifyCell(1)]);
    assert!(state.finished());
}

#[test]
fn a_loop_repeats_until_the_cell_is_zero() {
    let mut state = State::new(vec![], 10);
    eval(&mut state, &Instruction::ModifyCell(3));
    eval_while(
        &mut state,
        &vec![Instruction::ModifyCell(-1), Instruction::Output],
    );
    assert_eq!(state.cell(), 0);
    assert_eq!(state.output(), &vec![2, 1, 0]);
    assert_eq!(state.budget(), 7);
    assert!(state.finished());
}

#[test]
fn each_pass_of_an_inner_loop_takes_from_the_budget() {
    // Two outer passes, each with three inner passes.
    let program = vec![
        Instruction::ModifyCell(2),
        Instruction::Loop(vec![
            Instruction::MovePointer(1),
            Instruction::ModifyCell(3),
            Instruction::Loop(vec![Instruction::ModifyCell(-1)]),
            Instruction::MovePointer(-1),
            Instruction::ModifyCell(-1),
        ]),
    ];
    let mut state = State::new(vec![], 8);
    eval_vec(&mut state, &program);
    assert!(state.finished());
    assert_eq!(state.budget(), 0);
    let mut state = State::new(vec![], 7);
    eval_vec(&mut state, &program);
    assert!(!state.finished());
}

#[test]
fn a_run_out_of_budget_stops_for_good() {
    let program = vec![
        Instruction::ModifyCell(1),
        Instruction::Loop(vec![Instruction::Output]),
        Instruction::ModifyCell(1),
        Instruction::Output,
    ];
    let mut state = State::new(vec![], 3);
    eval_vec(&mut state, &program);
    assert!(!state.finished());
    assert_eq!(state.output(), &vec![1, 1, 1]);
    assert_eq!(state.cell(), 1);
    assert_eq!(state.budget(), 0);
    eval(&mut state, &Instruction::MovePointer(1));
    eval(&mut state, &Instruction::Input);
    assert_eq!(state.pointer(), 0);
    assert_eq!(state.cell(), 1);
}

#[test]
fn a_sequence_runs_first_to_last() {
    let mut state = State::new(vec![7], 0);
    eval_vec(
        &mut state,
        &vec![
            Instruction::Input,
            Instruction::Output,
            Instruction::ModifyCell(1),
            Instruction::Output,
            Instruction::MovePointer(1),
            Instruction::Output,
        ],
    );
    assert_eq!(state.output(), &vec![7, 8, 0]);
    assert_eq!(state.pointer(), 1);
}
