use bfi::preproc::{preprocess, PreprocError, Token};

#[test]
fn filter_keeps_only_instruction_chars_and_folds_runs() {
    let code = String::from("++ comment +> <<x--y.,");
    let toks = preprocess(&code).unwrap();
    assert_eq!(
        toks,
        vec![
            Token::Inc(3),
            Token::MoveFwd(1),
            Token::MoveBack(2),
            Token::Dec(2),
            Token::PutCh,
            Token::GetCh,
        ]
    );
}

#[test]
fn empty_program_tokenizes_to_nothing() {
    assert_eq!(preprocess(&String::from("")), Ok(vec![]));
    assert_eq!(preprocess(&String::from("no instructions here!")), Ok(vec![]));
}

#[test]
fn nested_loops_become_nested_trees() {
    let toks = preprocess(&String::from("+[>[-]<]")).unwrap();
    assert_eq!(
        toks,
        vec![
            Token::Inc(1),
            Token::Loop(vec![
                Token::LoopL,
                Token::MoveFwd(1),
                Token::Loop(vec![Token::LoopL, Token::Dec(1), Token::LoopR]),
                Token::MoveBack(1),
                Token::LoopR,
            ]),
        ]
    );
}

#[test]
fn folding_does_not_cross_loop_boundaries() {
    let toks = preprocess(&String::from("+[+]+")).unwrap();
    assert_eq!(
        toks,
        vec![
            Token::Inc(1),
            Token::Loop(vec![Token::LoopL, Token::Inc(1), Token::LoopR]),
            Token::Inc(1),
        ]
    );
}

#[test]
fn folding_distinguishes_kinds() {
    let toks = preprocess(&String::from("+-+")).unwrap();
    assert_eq!(toks, vec![Token::Inc(1), Token::Dec(1), Token::Inc(1)]);
}

#[test]
fn lone_open_is_rejected_as_unmatched_loop_open() {
    assert_eq!(
        preprocess(&String::from("[")),
        Err(PreprocError::UnmatchedLoopOpen)
    );
}

#[test]
fn lone_close_is_rejected_as_unmatched_loop_close_at_position_0() {
    assert_eq!(
        preprocess(&String::from("]")),
        Err(PreprocError::UnmatchedLoopClose(0))
    );
}

#[test]
fn close_position_counts_filtered_characters_only() {
    // After filtering, the text is "+]": the premature close sits at 1.
    assert_eq!(
        preprocess(&String::from("ab +]")),
        Err(PreprocError::UnmatchedLoopClose(1))
    );
}

#[test]
fn premature_close_reported_before_unclosed_open() {
    // Depth goes negative at position 0 even though a "[" is open at the end.
    assert_eq!(
        preprocess(&String::from("][")),
        Err(PreprocError::UnmatchedLoopClose(0))
    );
}

#[test]
fn well_bracketed_text_is_accepted() {
    assert!(preprocess(&String::from("[[]][]")).is_ok());
    assert!(preprocess(&String::from("+[-[.[,]]]")).is_ok());
}
