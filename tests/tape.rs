use tapelang::tape::Tape;

fn move_to(tape: &mut Tape, address: i64) {
    while tape.cursor() < address {
        tape.advance();
    }
    while tape.cursor() > address {
        tape.retreat();
    }
}

#[test]
fn fresh_tape_reads_zero() {
    let mut tape = Tape::new();
    assert_eq!(tape.storage_len(), 0);
    assert_eq!(tape.origin_offset(), 0);
    assert_eq!(tape.read(), 0);
    assert_eq!(tape.storage_len(), 1);
    assert_eq!(tape.origin_offset(), 0);
}

#[test]
fn moving_does_not_grow() {
    let mut tape = Tape::new();
    tape.advance();
    tape.advance();
    tape.retreat();
    assert_eq!(tape.cursor(), 1);
    assert_eq!(tape.storage_len(), 0);
}

#[test]
fn rightward_growth_zero_fills() {
    let mut tape = Tape::new();
    tape.write(7);
    move_to(&mut tape, 4);
    assert_eq!(tape.read(), 0);
    assert_eq!(tape.storage_len(), 5);
    assert_eq!(tape.origin_offset(), 0);
    for a in 1..4 {
        move_to(&mut tape, a);
        assert_eq!(tape.read(), 0);
    }
    move_to(&mut tape, 0);
    assert_eq!(tape.read(), 7);
}

#[test]
fn leftward_growth_by_several_slots_keeps_order() {
    let mut tape = Tape::new();
    tape.write(10);
    tape.advance();
    tape.write(20);
    tape.advance();
    tape.write(30);
    move_to(&mut tape, -3);
    assert_eq!(tape.read(), 0);
    assert_eq!(tape.storage_len(), 6);
    assert_eq!(tape.origin_offset(), 3);
    let expected = [(-3, 0), (-2, 0), (-1, 0), (0, 10), (1, 20), (2, 30)];
    for (address, value) in expected {
        move_to(&mut tape, address);
        assert_eq!(tape.read(), value);
    }
    assert_eq!(tape.storage_len(), 6);
}

#[test]
fn leftward_growth_by_one_slot_zero_fills_front() {
    let mut tape = Tape::new();
    tape.write(9);
    tape.advance();
    tape.write(8);
    move_to(&mut tape, -1);
    assert_eq!(tape.read(), 0);
    assert_eq!(tape.storage_len(), 3);
    assert_eq!(tape.origin_offset(), 1);
    move_to(&mut tape, 0);
    assert_eq!(tape.read(), 9);
    tape.advance();
    assert_eq!(tape.read(), 8);
}

#[test]
fn interleaved_writes_read_back_last_value() {
    let mut tape = Tape::new();
    let writes: [(i64, u8); 8] = [(5, 1), (-4, 2), (0, 3), (5, 4), (-9, 5), (2, 6), (-4, 7), (12, 8)];
    for (address, value) in writes {
        move_to(&mut tape, address);
        tape.write(value);
    }
    let expected: [(i64, u8); 6] = [(5, 4), (-4, 7), (0, 3), (-9, 5), (2, 6), (12, 8)];
    for (address, value) in expected {
        move_to(&mut tape, address);
        assert_eq!(tape.read(), value);
    }
    for address in [-8, -1, 1, 3, 11, 13, -10] {
        move_to(&mut tape, address);
        assert_eq!(tape.read(), 0);
    }
}

#[test]
fn increment_wraps_to_zero() {
    let mut tape = Tape::new();
    tape.write(255);
    tape.increment_cell();
    assert_eq!(tape.read(), 0);
}

#[test]
fn decrement_wraps_to_255() {
    let mut tape = Tape::new();
    tape.decrement_cell();
    assert_eq!(tape.read(), 255);
}

#[test]
fn increment_and_decrement_change_by_one() {
    let mut tape = Tape::new();
    tape.write(41);
    tape.increment_cell();
    assert_eq!(tape.read(), 42);
    tape.decrement_cell();
    tape.decrement_cell();
    assert_eq!(tape.read(), 40);
}

#[test]
fn access_is_possible_near_origin() {
    let mut tape = Tape::new();
    assert!(tape.is_accessible());
    move_to(&mut tape, -1000);
    assert!(tape.is_accessible());
}
