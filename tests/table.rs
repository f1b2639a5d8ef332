use grid_qlearn::action::Action;
use grid_qlearn::q_table::{DecodeError, QTable, Record};
use grid_qlearn::state::State;

fn st(x: usize, y: usize) -> State {
    State { x, y }
}

#[test]
fn missing_entry_reads_zero() {
    let t = QTable::new();
    assert_eq!(t.get(&st(0, 0), &Action::Up), 0);
    assert_eq!(t.get(&st(usize::MAX, 3), &Action::Right), 0);
}

#[test]
fn insert_then_get_and_overwrite() {
    let mut t = QTable::new();
    t.insert(st(2, 3), Action::Down, 42);
    assert_eq!(t.get(&st(2, 3), &Action::Down), 42);
    assert_eq!(t.get(&st(2, 3), &Action::Up), 0);
    assert_eq!(t.get(&st(3, 2), &Action::Down), 0);
    t.insert(st(2, 3), Action::Down, -7);
    assert_eq!(t.get(&st(2, 3), &Action::Down), -7);
    assert_eq!(t.to_records(), vec![(2, 3, 1u8, -7i64)]);
}

#[test]
fn records_keep_first_insertion_order() {
    let mut t = QTable::new();
    t.insert(st(1, 0), Action::Right, 5);
    t.insert(st(0, 1), Action::Left, 6);
    t.insert(st(1, 0), Action::Right, 8);
    assert_eq!(t.to_records(), vec![(1, 0, 3u8, 8i64), (0, 1, 2u8, 6i64)]);
}

#[test]
fn round_trip_keeps_every_value() {
    let mut t = QTable::new();
    t.insert(st(0, 0), Action::Up, -10_000_000);
    t.insert(st(19, 18), Action::Down, 1_000_000_000);
    t.insert(st(5, 5), Action::Left, i64::MIN);
    t.insert(st(usize::MAX, 0), Action::Right, i64::MAX);
    let bytes = t.serialize();
    let u = QTable::deserialize(&bytes).unwrap();
    assert_eq!(u.get(&st(0, 0), &Action::Up), -10_000_000);
    assert_eq!(u.get(&st(19, 18), &Action::Down), 1_000_000_000);
    assert_eq!(u.get(&st(5, 5), &Action::Left), i64::MIN);
    assert_eq!(u.get(&st(usize::MAX, 0), &Action::Right), i64::MAX);
    assert_eq!(u.get(&st(1, 1), &Action::Up), 0);
    assert_eq!(u.to_records(), t.to_records());
}

#[test]
fn round_trip_empty_table() {
    let t = QTable::new();
    let u = QTable::deserialize(&t.serialize()).unwrap();
    assert!(u.to_records().is_empty());
}

#[test]
fn serialize_is_the_binary_encoding_of_records() {
    let mut t = QTable::new();
    t.insert(st(3, 4), Action::Left, 9);
    let expected = bincode::serialize(&vec![(3usize, 4usize, 2u8, 9i64)]).unwrap();
    assert_eq!(t.serialize(), expected);
    assert!(!t.serialize().is_empty());
}

#[test]
fn deserialize_rejects_garbage() {
    assert_eq!(QTable::deserialize(&[1, 2, 3]).err(), Some(DecodeError::Malformed));
    assert_eq!(QTable::deserialize(&[]).err(), Some(DecodeError::Malformed));
}

#[test]
fn deserialize_rejects_unknown_action() {
    let bytes = bincode::serialize(&vec![(0usize, 0usize, 7u8, 1i64)]).unwrap();
    assert_eq!(QTable::deserialize(&bytes).err(), Some(DecodeError::UnknownAction));
}

#[test]
fn from_records_later_record_wins() {
    let recs: Vec<Record> = vec![(1, 1, 0, 5), (1, 1, 0, 9), (2, 1, 3, -1)];
    let t = QTable::from_records(&recs).unwrap();
    assert_eq!(t.get(&st(1, 1), &Action::Up), 9);
    assert_eq!(t.get(&st(2, 1), &Action::Right), -1);
    let bad: Vec<Record> = vec![(1, 1, 0, 5), (0, 0, 4, 0)];
    assert_eq!(QTable::from_records(&bad).err(), Some(DecodeError::UnknownAction));
}
