use bfsim::storage::{BfArrayImplementation, BfStorageSimu, ARR_SIZE};

#[test]
fn fresh_tape_is_zero() {
    let mut tape = BfArrayImplementation::new();
    for _ in 0..ARR_SIZE {
        assert_eq!(tape.get(), 0);
        tape.right();
    }
}

#[test]
fn right_from_last_cell_lands_on_first() {
    let mut tape = BfArrayImplementation::with_capacity(4);
    tape.set(7);
    tape.right();
    tape.right();
    tape.right();
    tape.set(3);
    tape.right();
    assert_eq!(tape.get(), 7);
}

#[test]
fn left_from_first_cell_lands_on_last() {
    let mut tape = BfArrayImplementation::with_capacity(4);
    tape.left();
    tape.set(9);
    tape.left();
    tape.left();
    tape.left();
    assert_eq!(tape.get(), 0);
    tape.left();
    assert_eq!(tape.get(), 9);
}

#[test]
fn capacity_many_right_moves_return_to_start() {
    let mut tape = BfArrayImplementation::new();
    tape.right();
    tape.right();
    tape.set(42);
    for _ in 0..ARR_SIZE {
        tape.right();
    }
    assert_eq!(tape.get(), 42);
    let mut single = BfArrayImplementation::with_capacity(1);
    single.set(5);
    single.right();
    single.left();
    assert_eq!(single.get(), 5);
}

#[test]
fn increment_then_decrement_restores() {
    let mut tape = BfArrayImplementation::with_capacity(3);
    tape.set(-17);
    tape.add();
    assert_eq!(tape.get(), -16);
    tape.sub();
    assert_eq!(tape.get(), -17);
    tape.sub();
    tape.add();
    assert_eq!(tape.get(), -17);
}

#[test]
fn cells_wrap_at_integer_bounds() {
    let mut tape = BfArrayImplementation::with_capacity(2);
    tape.set(i64::MAX);
    tape.add();
    assert_eq!(tape.get(), i64::MIN);
    tape.sub();
    assert_eq!(tape.get(), i64::MAX);
    tape.right();
    tape.set(i64::MIN);
    tape.sub();
    assert_eq!(tape.get(), i64::MAX);
    tape.add();
    assert_eq!(tape.get(), i64::MIN);
}

#[test]
fn set_touches_only_current_cell() {
    let mut tape = BfArrayImplementation::with_capacity(3);
    tape.set(1);
    tape.right();
    tape.set(2);
    tape.right();
    tape.set(3);
    tape.right();
    assert_eq!(tape.get(), 1);
    tape.right();
    assert_eq!(tape.get(), 2);
    tape.right();
    assert_eq!(tape.get(), 3);
}
