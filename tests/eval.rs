use bf_interp::{execute, process_token, run_program, InterpError, Machine, Token, TokenTree};

#[test]
fn hello_world() {
    let program = "++++++++[>++++[>++>+++>+++>+<<<<-]>+>+>->>+[<]<-]>>.>---.+++++++..+++.>>.<-.<.+++.------.--------.>>+.>++.";
    let (output, result) = run_program(program, vec![]);
    assert_eq!(Ok(()), result);
    assert_eq!(b"Hello World!\n".to_vec(), output);
}

#[test]
fn writes_two_then_zero() {
    let (output, result) = run_program("++.--.", vec![]);
    assert_eq!(Ok(()), result);
    assert_eq!(vec![2u8, 0], output);
}

#[test]
fn read_stores_input_byte() {
    let tree = TokenTree::from_str(",").unwrap();
    let mut m = Machine::new(vec![65]);
    assert_eq!(Ok(()), execute(&tree, &mut m, 10));
    assert_eq!(&[65u8][..], m.tape.cells());
    assert_eq!(1, m.consumed);
}

#[test]
fn read_without_input_fails() {
    let tree = TokenTree::from_str(",").unwrap();
    let mut m = Machine::new(vec![]);
    assert_eq!(Err(InterpError::InputExhausted), execute(&tree, &mut m, 10));
    let (output, result) = run_program(".+.,.", vec![]);
    assert_eq!(Err(InterpError::InputExhausted), result);
    assert_eq!(vec![0u8, 1], output);
}

#[test]
fn malformed_program_writes_nothing() {
    let (output, result) = run_program("+.[", vec![]);
    assert_eq!(Err(InterpError::MalformedProgram), result);
    assert!(output.is_empty());
}

#[test]
fn clearing_loop_repeats_cell_value_times() {
    let clear = Token::Loop(vec![Token::Decrement]);
    for n in [0u8, 1, 7, 255] {
        let mut m = Machine::new(vec![]);
        for _ in 0..n {
            m.tape.increment_cell();
        }
        assert_eq!(Ok(()), process_token(&mut m, &clear, n as u64));
        assert!(m.tape.is_cell_zero());
        if n > 0 {
            let mut short = Machine::new(vec![]);
            for _ in 0..n {
                short.tape.increment_cell();
            }
            assert_eq!(
                Err(InterpError::StepLimitReached),
                process_token(&mut short, &clear, n as u64 - 1)
            );
        }
    }
}

#[test]
fn echo_copies_input() {
    let (output, result) = run_program(",[.,]", b"abc".to_vec());
    assert_eq!(Err(InterpError::InputExhausted), result);
    assert_eq!(b"abc".to_vec(), output);
    let (output, result) = run_program(",.>,.", vec![7, 9]);
    assert_eq!(Ok(()), result);
    assert_eq!(vec![7u8, 9], output);
}

#[test]
fn move_left_then_write() {
    let (output, result) = run_program("+<++.>.", vec![]);
    assert_eq!(Ok(()), result);
    assert_eq!(vec![2u8, 1], output);
}
