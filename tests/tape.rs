use bf_interp::Tape;

#[test]
fn new_tape_has_one_zero_cell() {
    let tape = Tape::new();
    assert_eq!(&[0u8][..], tape.cells());
    assert_eq!(0, tape.pointer());
    assert!(tape.is_cell_zero());
    let tape = Tape::default();
    assert_eq!(&[0u8][..], tape.cells());
}

#[test]
fn increments_wrap_after_256() {
    let mut tape = Tape::new();
    for _ in 0..256 {
        tape.increment_cell();
    }
    assert_eq!(0, tape.current_cell());
    assert!(tape.is_cell_zero());
}

#[test]
fn decrement_from_zero_wraps() {
    let mut tape = Tape::new();
    tape.decrement_cell();
    assert_eq!(255, tape.current_cell());
    tape.increment_cell();
    assert_eq!(0, tape.current_cell());
}

#[test]
fn move_right_grows_tape() {
    let mut tape = Tape::new();
    tape.increment_cell();
    tape.move_pointer_right();
    assert_eq!(&[1u8, 0][..], tape.cells());
    assert_eq!(1, tape.pointer());
    assert!(tape.is_cell_zero());
}

#[test]
fn move_left_at_start_prepends() {
    let mut tape = Tape::new();
    tape.move_pointer_right();
    tape.increment_cell();
    tape.increment_cell();
    tape.move_pointer_left();
    assert_eq!(0, tape.pointer());
    assert_eq!(&[0u8, 2][..], tape.cells());
    tape.increment_cell();
    tape.move_pointer_left();
    assert_eq!(0, tape.pointer());
    assert_eq!(&[0u8, 1, 2][..], tape.cells());
}

#[test]
fn from_bytes_keeps_cells_and_pointer() {
    let mut tape = Tape::from_bytes(&[5, 6, 7], 2);
    assert_eq!(2, tape.pointer());
    assert_eq!(7, tape.current_cell());
    tape.set_cell(9);
    assert_eq!(&[5u8, 6, 9][..], tape.cells());
    tape.move_pointer_left();
    assert_eq!(6, tape.current_cell());
}

#[test]
fn display_single_cell() {
    let mut tape = Tape::new();
    assert_eq!("[000]", tape.display());
    for _ in 0..7 {
        tape.increment_cell();
    }
    assert_eq!("[007]", tape.display());
}

#[test]
fn display_shows_neighbours() {
    let tape = Tape::from_bytes(&[1, 2, 3], 0);
    assert_eq!("[001] 002", tape.display());
    let tape = Tape::from_bytes(&[1, 2, 3], 1);
    assert_eq!("001 [002] 003", tape.display());
    let tape = Tape::from_bytes(&[1, 2, 255], 2);
    assert_eq!("002 [255]", tape.display());
    let tape = Tape::from_bytes(&[120, 48], 1);
    assert_eq!("120 [048]", tape.display());
}
