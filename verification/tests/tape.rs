use brainfuck::tape::Tape;

#[test]
fn get_reads_last_set_or_blank() {
    let mut t = Tape::<u8>::new();
    assert_eq!(t.get(), 0);
    t.set(7);
    assert_eq!(t.get(), 7);
    assert!(t.seek(3).is_ok());
    assert_eq!(t.get(), 0);
    t.set(9);
    assert_eq!(t.get(), 9);
    assert!(t.seek(-3).is_ok());
    assert_eq!(t.get(), 7);
    assert!(t.seek(3).is_ok());
    assert_eq!(t.get(), 9);
}

#[test]
fn seek_nonnegative_succeeds_negative_fails_in_place() {
    let mut t = Tape::<u8>::new();
    assert!(t.seek(5).is_ok());
    assert_eq!(t.pos(), 5);
    assert!(t.seek(-10).is_err());
    assert_eq!(t.pos(), 5);
    assert!(t.seek(-5).is_ok());
    assert_eq!(t.pos(), 0);
    assert!(t.seek(-1).is_err());
    assert_eq!(t.pos(), 0);
    assert!(t.seek(2000).is_ok());
    assert_eq!(t.pos(), 2000);
}

#[test]
fn from_elems_lays_out_sequence_and_rewinds() {
    let mut t = Tape::from_elems(&vec![10u8, 20, 30]);
    assert_eq!(t.pos(), 0);
    assert_eq!(t.get(), 10);
    assert!(t.seek(1).is_ok());
    assert_eq!(t.get(), 20);
    assert!(t.seek(1).is_ok());
    assert_eq!(t.get(), 30);
    assert!(t.seek(1).is_ok());
    assert_eq!(t.get(), 0);
}

#[test]
fn next_returns_then_advances() {
    let mut t = Tape::from_elems(&vec!['a', 'b']);
    assert_eq!(t.next(), 'a');
    assert_eq!(t.pos(), 1);
    assert_eq!(t.next(), 'b');
    assert_eq!(t.pos(), 2);
    assert_eq!(t.next(), '\0');
}

#[test]
fn zero_rewinds_without_touching_data() {
    let mut t = Tape::<u8>::new();
    t.set(42);
    assert!(t.seek(4).is_ok());
    t.set(5);
    t.zero();
    assert_eq!(t.pos(), 0);
    assert_eq!(t.get(), 42);
    assert!(t.seek(4).is_ok());
    assert_eq!(t.get(), 5);
}
