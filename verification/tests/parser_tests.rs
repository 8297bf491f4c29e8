use brainfuck::instruction::Instruction;
use brainfuck::parser::{get_ast, parse, Error};

fn chars(text: &str) -> Vec<char> {
    text.chars().collect()
}

#[test]
fn each_command_maps_to_its_unit_instruction() {
    let code = chars("><+-.,");
    assert_eq!(
        parse(&code),
        Ok(vec![
            Instruction::MovePointer(1),
            Instruction::MovePointer(-1),
            Instruction::ModifyCell(1),
            Instruction::ModifyCell(-1),
            Instruction::Output,
            Instruction::Input,
        ])
    );
}

#[test]
fn empty_text_is_the_empty_program() {
    assert_eq!(parse(&chars("")), Ok(vec![]));
}

#[test]
fn brackets_become_a_loop_with_its_body() {
    let code = chars("+[-]");
    assert_eq!(
        parse(&code),
        Ok(vec![
            Instruction::ModifyCell(1),
            Instruction::Loop(vec![Instruction::ModifyCell(-1)]),
        ])
    );
}

#[test]
fn loops_nest() {
    let code = chars("[[>]<[]]");
    assert_eq!(
        parse(&code),
        Ok(vec![Instruction::Loop(vec![
            Instruction::Loop(vec![Instruction::MovePointer(1)]),
            Instruction::MovePointer(-1),
            Instruction::Loop(vec![]),
        ])])
    );
}

#[test]
fn other_characters_are_skipped() {
    let plain = chars("+[->+<]");
    let prose = chars("add one: +\n[ loop - then > plus + back < ] done\u{e9}");
    assert_eq!(parse(&prose), parse(&plain));
    assert!(parse(&plain).is_ok());
}

#[test]
fn one_inserted_comment_character_changes_nothing() {
    let plain = chars("+[->+<].");
    for at in 0..=plain.len() {
        let mut longer = plain.clone();
        longer.insert(at, 'x');
        assert_eq!(parse(&longer), parse(&plain));
    }
}

#[test]
fn an_open_loop_is_unbalanced() {
    assert_eq!(
        parse(&chars("[+")),
        Err(Error::UnbalancedLoop { position: 2, found: None })
    );
}

#[test]
fn an_open_inner_loop_is_unbalanced() {
    assert_eq!(
        parse(&chars("+[>[-]")),
        Err(Error::UnbalancedLoop { position: 6, found: None })
    );
}

#[test]
fn a_stray_close_is_unbalanced() {
    assert_eq!(
        parse(&chars("+]+")),
        Err(Error::UnbalancedLoop { position: 1, found: Some(']') })
    );
}

#[test]
fn a_stray_close_after_a_loop_is_unbalanced() {
    assert_eq!(
        parse(&chars("[-]]")),
        Err(Error::UnbalancedLoop { position: 3, found: Some(']') })
    );
}

#[test]
fn get_ast_reads_to_the_end() {
    let code = chars("a+b-");
    assert_eq!(
        get_ast(&code, 0),
        Ok((vec![Instruction::ModifyCell(1), Instruction::ModifyCell(-1)], 4))
    );
}

#[test]
fn get_ast_stops_at_a_close_it_did_not_open() {
    let code = chars("+>]<");
    assert_eq!(
        get_ast(&code, 0),
        Ok((vec![Instruction::ModifyCell(1), Instruction::MovePointer(1)], 2))
    );
}

#[test]
fn get_ast_starts_where_it_is_told() {
    let code = chars("[+-]>");
    assert_eq!(
        get_ast(&code, 1),
        Ok((vec![Instruction::ModifyCell(1), Instruction::ModifyCell(-1)], 3))
    );
    assert_eq!(get_ast(&code, 4), Ok((vec![Instruction::MovePointer(1)], 5)));
    assert_eq!(get_ast(&code, 5), Ok((vec![], 5)));
    assert_eq!(get_ast(&code, 9), Ok((vec![], 9)));
}

#[test]
fn get_ast_fails_inside_an_open_loop() {
    let code = chars("+[[-]");
    assert_eq!(
        get_ast(&code, 0),
        Err(Error::UnbalancedLoop { position: 5, found: None })
    );
}
