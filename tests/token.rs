use bf_interp::{InterpError, Token, TokenTree};

#[test]
fn action_token() {
    let expected_pairs = vec![
        (Token::MoveRight, b'>'),
        (Token::MoveLeft, b'<'),
        (Token::Increment, b'+'),
        (Token::Decrement, b'-'),
        (Token::WriteByte, b'.'),
        (Token::ReadByte, b','),
    ];
    for expected_pair in expected_pairs {
        assert_eq!(
            expected_pair.0,
            TokenTree::action(&[expected_pair.1]).unwrap().1
        );
    }
}

#[test]
fn empty_loop() {
    assert_eq!(
        Token::Loop(vec![]),
        TokenTree::action_loop(b"[]").unwrap().1
    );
}

#[test]
fn nested_empty_loop() {
    assert_eq!(
        Token::Loop(vec![Token::Loop(vec![])]),
        TokenTree::action_loop(b"[[]]").unwrap().1
    );
}

#[test]
fn non_empty_loop() {
    assert_eq!(
        Token::Loop(vec![
            Token::Increment,
            Token::WriteByte,
            Token::MoveRight,
            Token::ReadByte,
            Token::Decrement,
            Token::MoveLeft
        ]),
        TokenTree::action_loop(b"[+.>,-<]").unwrap().1
    );
}

#[test]
fn actions_with_loop() {
    assert_eq!(
        Ok(TokenTree(vec![
            Token::Increment,
            Token::Loop(vec![Token::Decrement]),
            Token::WriteByte
        ])),
        TokenTree::from_str("+[-].")
    );
}

#[test]
fn actions_with_nested_loop() {
    assert_eq!(
        Ok(TokenTree(vec![
            Token::Increment,
            Token::Loop(vec![
                Token::Decrement,
                Token::Loop(vec![
                    Token::MoveRight,
                    Token::Increment,
                    Token::Loop(vec![]),
                    Token::Increment,
                    Token::Loop(vec![]),
                ]),
                Token::ReadByte
            ]),
            Token::WriteByte
        ])),
        TokenTree::from_str("+[-[>+[]+[]],].")
    );
}

#[test]
fn adjacent_loops() {
    assert_eq!(
        Ok(TokenTree(vec![
            Token::Loop(vec![]),
            Token::Loop(vec![]),
            Token::Loop(vec![]),
        ])),
        TokenTree::from_str("[][][]")
    );
}

#[test]
fn actions_with_adjacent_loops() {
    assert_eq!(
        Ok(TokenTree(vec![
            Token::Increment,
            Token::Loop(vec![]),
            Token::Loop(vec![]),
            Token::Loop(vec![]),
            Token::Increment,
        ])),
        TokenTree::from_str("+[][][]+")
    );
    assert_eq!(
        Ok(TokenTree(vec![
            Token::Increment,
            Token::Loop(vec![]),
            Token::Increment,
            Token::Loop(vec![]),
            Token::Increment,
            Token::Loop(vec![]),
            Token::Increment,
        ])),
        TokenTree::from_str("+[]+[]+[]+")
    );
}

#[test]
fn actions_with_adjacent_nested_loops() {
    assert_eq!(
        Ok(TokenTree(vec![
            Token::Increment,
            Token::Loop(vec![
                Token::Decrement,
                Token::Loop(vec![Token::Increment]),
                Token::Decrement
            ]),
            Token::Increment,
            Token::Loop(vec![Token::Decrement]),
            Token::Increment
        ])),
        TokenTree::from_str("+[-[+]-]+[-]+")
    );
}

#[test]
fn foreign_bytes_are_ignored() {
    let plain = TokenTree::from_str("+[-].");
    assert_eq!(plain, TokenTree::from_str("a + [ - ] . comment\n"));
    assert_eq!(plain, TokenTree::parse(b"x+y[z-]\xff."));
    assert_eq!(Ok(TokenTree(vec![])), TokenTree::from_str("hello world"));
}

#[test]
fn empty_source_is_empty_program() {
    assert_eq!(Ok(TokenTree(vec![])), TokenTree::from_str(""));
    assert_eq!(Ok(TokenTree(vec![])), TokenTree::parse(&[]));
}

#[test]
fn unbalanced_brackets_are_rejected() {
    assert_eq!(Err(InterpError::MalformedProgram), TokenTree::from_str("["));
    assert_eq!(Err(InterpError::MalformedProgram), TokenTree::from_str("]"));
    assert_eq!(Err(InterpError::MalformedProgram), TokenTree::from_str("[[]"));
    assert_eq!(Err(InterpError::MalformedProgram), TokenTree::from_str("[]]"));
    assert_eq!(Err(InterpError::MalformedProgram), TokenTree::from_str("+][+"));
}

#[test]
fn action_rejects_other_bytes() {
    assert_eq!(None, TokenTree::action(b"["));
    assert_eq!(None, TokenTree::action(b""));
    assert_eq!(None, TokenTree::action(b"a+"));
    assert_eq!(Some((1, Token::Increment)), TokenTree::action(b"+-"));
}

#[test]
fn action_loop_stops_at_its_close() {
    assert_eq!(
        Some((4, Token::Loop(vec![Token::Loop(vec![])]))),
        TokenTree::action_loop(b"[[]]+[]")
    );
    assert_eq!(None, TokenTree::action_loop(b"[+"));
    assert_eq!(None, TokenTree::action_loop(b"[[]"));
    assert_eq!(None, TokenTree::action_loop(b"+[]"));
    assert_eq!(None, TokenTree::action_loop(b""));
}

#[test]
fn symbols_map_to_actions() {
    assert_eq!(Some(Token::MoveRight), Token::from_symbol(b'>'));
    assert_eq!(Some(Token::ReadByte), Token::from_symbol(b','));
    assert_eq!(None, Token::from_symbol(b'['));
    assert_eq!(None, Token::from_symbol(b'a'));
}
