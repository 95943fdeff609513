use bf::rts::RtsState;
use bf::state::State;

fn make(memory: &[u8], pointer: usize) -> State {
    State::with_contents(memory.to_vec(), pointer)
}

#[test]
fn right_moves_right() {
    let mut actual = make(&[0, 0, 0], 0);
    let expected = make(&[0, 0, 0], 1);

    actual.right(1).unwrap();

    assert_eq!(actual, expected);
}

#[test]
fn right_then_left_restores() {
    let mut actual = make(&[0, 0, 0], 0);
    let expected = make(&[0, 0, 0], 0);

    actual.right(1).unwrap();
    actual.left(1).unwrap();

    assert_eq!(actual, expected);
}

#[test]
fn up_goes_to_1() {
    let mut actual = make(&[0, 0, 0], 0);
    actual.up(1);
    assert_eq!(actual, make(&[1, 0, 0], 0))
}

#[test]
fn down_goes_to_255() {
    let mut actual = make(&[0, 0, 0], 0);
    actual.down(1);
    assert_eq!(actual, make(&[255, 0, 0], 0))
}

#[test]
fn load_reads() {
    assert_eq!(make(&[0, 0, 0], 0).load(), 0);
    assert_eq!(make(&[1, 0, 0], 0).load(), 1);
    assert_eq!(make(&[1, 2, 0], 1).load(), 2);
}

#[test]
fn store_writes() {
    let mut actual = make(&[0, 0, 0], 0);
    actual.store(5);
    assert_eq!(actual, make(&[5, 0, 0], 0));
    actual.right(1).unwrap();
    actual.store(8);
    assert_eq!(actual, make(&[5, 8, 0], 1));
}

#[test]
fn longer_sequence_of_actions() {
    let mut actual = make(&[0, 0, 0], 0);
    actual.up(1);
    assert_eq!(actual, make(&[1, 0, 0], 0));
    actual.up(1);
    assert_eq!(actual, make(&[2, 0, 0], 0));
    actual.right(1).unwrap();
    assert_eq!(actual, make(&[2, 0, 0], 1));
    actual.down(1);
    assert_eq!(actual, make(&[2, 255, 0], 1));
    actual.down(1);
    assert_eq!(actual, make(&[2, 254, 0], 1));
    actual.right(1).unwrap();
    assert_eq!(actual, make(&[2, 254, 0], 2));
    actual.store(77);
    assert_eq!(actual, make(&[2, 254, 77], 2));
}

#[test]
fn right_to_right_edge_is_okay() {
    let mut actual = make(&[0, 0, 0], 0);
    actual.right(1).unwrap();
    actual.right(1).unwrap();
    assert_eq!(actual, make(&[0, 0, 0], 2));
}

#[test]
#[should_panic]
fn right_past_edge_is_error() {
    let mut actual = make(&[0, 0, 0], 0);
    actual.right(1).unwrap();
    actual.right(1).unwrap();
    actual.right(1).unwrap();
}

#[test]
#[should_panic]
fn move_left_is_error() {
    let mut machine = make(&[0, 0, 0], 0);
    machine.left(1).unwrap();
}

#[test]
fn up_wraps_from_255_to_0() {
    let mut actual = make(&[255], 0);
    actual.up(1);
    assert_eq!(actual.load(), 0);
}

#[test]
fn down_wraps_from_0_to_255() {
    let mut actual = make(&[0], 0);
    actual.down(1);
    assert_eq!(actual.load(), 255);
}

#[test]
fn left_at_cell_zero_underflows() {
    let mut actual = make(&[0, 0], 0);
    assert_eq!(actual.left(1), Err(bf::common::Error::PointerUnderflow));
    assert_eq!(actual.pointer(), 0);
}

#[test]
fn right_at_last_cell_overflows() {
    let mut actual = State::with_capacity(30000);
    actual.right(29999).unwrap();
    assert_eq!(actual.right(1), Err(bf::common::Error::PointerOverflow));
    assert_eq!(actual.pointer(), 29999);
}

#[test]
fn offsets_add_at_a_distance() {
    let mut actual = make(&[1, 2, 3, 4], 1);
    actual.up_pos_offset(2, 10).unwrap();
    actual.up_neg_offset(1, 255).unwrap();
    assert_eq!(actual, make(&[0, 2, 3, 14], 1));
    assert_eq!(actual.up_pos_offset(3, 1), Err(bf::common::Error::PointerOverflow));
    assert_eq!(actual.up_neg_offset(2, 1), Err(bf::common::Error::PointerUnderflow));
    assert_eq!(actual, make(&[0, 2, 3, 14], 1));
}

#[test]
fn new_state_is_zeroed_with_default_capacity() {
    let s = State::new();
    assert_eq!(s.capacity(), 30000);
    assert_eq!(s.pointer(), 0);
    assert!(s.memory().iter().all(|&b| b == 0));
}

#[test]
fn read_at_end_of_input_stores_zero() {
    let mut rts = RtsState::new(vec![7], Vec::new());
    let mut s = make(&[9, 9], 0);
    s.read(&mut rts);
    assert_eq!(s.load(), 7);
    s.right(1).unwrap();
    s.read(&mut rts);
    assert_eq!(s.load(), 0);
    s.write(&mut rts);
    assert_eq!(rts.into_output(), vec![0]);
}
