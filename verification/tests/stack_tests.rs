use script_stack::ExecError;
use script_stack::Stack;
use script_stack::StackEntry;

#[test]
fn new_stack_is_empty() {
    let s = Stack::new();
    assert!(s.is_empty());
    assert_eq!(s.len(), 0);
}

#[test]
fn default_stack_is_empty() {
    let s = Stack::default();
    assert!(s.is_empty());
}

#[test]
fn top_addresses_from_the_top() {
    let mut s = Stack::new();
    s.pushnum(10);
    s.pushnum(20);
    s.pushnum(30);
    assert_eq!(*s.top(-1).unwrap(), StackEntry::Num(30));
    assert_eq!(*s.top(-2).unwrap(), StackEntry::Num(20));
    assert_eq!(*s.top(-3).unwrap(), StackEntry::Num(10));
    assert_eq!(s.top(-4), Err(ExecError::InvalidStackOperation));
}

#[test]
fn top_minus_one_is_last_pushed() {
    let mut s = Stack::new();
    s.pushstr(&[1]);
    s.pushnum(7);
    assert_eq!(*s.top(-1).unwrap(), StackEntry::Num(7));
    s.pushstr(&[9]);
    match *s.top(-1).unwrap() {
        StackEntry::StrRef(_) => {}
        StackEntry::Num(_) => panic!("top should be the buffer entry pushed last"),
    }
}

#[test]
fn push_bytes_pop_bytes_round_trip() {
    let mut s = Stack::new();
    s.pushstr(&[7, 8, 9]);
    assert_eq!(s.popstr().unwrap(), vec![7, 8, 9]);
    s.pushstr(&[]);
    assert_eq!(s.popstr().unwrap(), Vec::<u8>::new());
    s.pushstr(&[0, 0, 0, 0]);
    assert_eq!(s.popstr().unwrap(), vec![0, 0, 0, 0]);
}

#[test]
fn topstr_copies_without_padding() {
    let mut s = Stack::new();
    s.pushstr(&[2, 3]);
    assert_eq!(s.topstr(-1).unwrap(), vec![2, 3]);
    assert_eq!(s.len(), 1);
}

#[test]
fn last_reads_the_top() {
    let mut s = Stack::new();
    assert_eq!(s.last(), Err(ExecError::InvalidStackOperation));
    s.pushstr(&[4, 5]);
    assert_eq!(s.last().unwrap(), vec![4, 5]);
}

#[test]
fn flatten_pads_every_entry_to_four_bytes() {
    let mut s = Stack::new();
    s.pushnum(1);
    s.pushstr(&[0x02, 0x03]);
    let n = s.len();
    let b = s.serialize_to_bytes();
    assert_eq!(b, vec![0x01, 0x00, 0x00, 0x00, 0x02, 0x03, 0x00, 0x00]);
    assert_eq!(b.len(), 4 * n);
}

#[test]
fn entry_serialization_is_fixed_width() {
    let s = Stack::from_u8_vec(vec![vec![5]]);
    let e = *s.top(-1).unwrap();
    assert_eq!(e.serialize_to_bytes(&s), vec![5, 0, 0, 0]);

    let mut t = Stack::new();
    t.pushnum(0x01020304);
    let e = *t.top(-1).unwrap();
    assert_eq!(e.serialize_to_bytes(&t), vec![0x04, 0x03, 0x02, 0x01]);
}

#[test]
fn numeric_overflow_on_popnum() {
    let mut s = Stack::new();
    s.pushnum(1i64 << 31);
    assert_eq!(s.popnum(true), Err(ExecError::ScriptIntNumericOverflow));
    assert_eq!(s.len(), 0, "the entry is removed even when the read fails");
}

#[test]
fn numeric_window_checks_only_the_upper_bound() {
    // The interpreter's numeric read checks the 32-bit window only from
    // above; a large negative native entry reads back unchanged.
    let mut s = Stack::new();
    s.pushnum(-(1i64 << 40));
    assert_eq!(s.popnum(true), Ok(-(1i64 << 40)));
}

#[test]
fn topnum_reads_numeric_and_byte_entries() {
    let mut s = Stack::new();
    s.pushnum(41);
    s.pushstr(&[0x2a]);
    assert_eq!(s.topnum(-1, true), Ok(42));
    assert_eq!(s.topnum(-2, true), Ok(41));
    assert_eq!(s.topnum(-3, true), Err(ExecError::InvalidStackOperation));
    assert_eq!(s.len(), 2, "topnum does not mutate");
}

#[test]
fn popnum_decodes_byte_entries() {
    let mut s = Stack::new();
    s.pushstr(&[0xff, 0x00]);
    assert_eq!(s.popnum(true), Ok(255));
    s.pushstr(&[0x7f, 0x00]);
    assert_eq!(s.popnum(true), Err(ExecError::MinimalData));
    s.pushstr(&[0x7f, 0x00]);
    assert_eq!(s.popnum(false), Ok(127));
    s.pushstr(&[1, 0, 0, 0, 0]);
    assert_eq!(s.popnum(false), Err(ExecError::ScriptIntNumericOverflow));
}

#[test]
fn underflow_on_popn_empties_the_stack() {
    let mut s = Stack::new();
    s.pushstr(&[1]);
    assert_eq!(s.popn(3), Err(ExecError::InvalidStackOperation));
    // The pops made before the underflow are not restored.
    assert_eq!(s.len(), 0);
}

#[test]
fn popn_removes_exactly_n() {
    let mut s = Stack::new();
    s.pushnum(1);
    s.pushnum(2);
    s.pushnum(3);
    assert_eq!(s.popn(2), Ok(()));
    assert_eq!(s.len(), 1);
    assert_eq!(*s.top(-1).unwrap(), StackEntry::Num(1));
    assert_eq!(s.popn(0), Ok(()));
    assert_eq!(s.len(), 1);
}

#[test]
fn needn_checks_without_mutating() {
    let mut s = Stack::new();
    s.pushnum(1);
    assert_eq!(s.needn(0), Ok(()));
    assert_eq!(s.needn(1), Ok(()));
    assert_eq!(s.needn(2), Err(ExecError::InvalidStackOperation));
    assert_eq!(s.len(), 1);
}

#[test]
fn pop_returns_the_top_entry() {
    let mut s = Stack::new();
    assert_eq!(s.pop(), None);
    s.pushnum(5);
    assert_eq!(s.pop(), Some(StackEntry::Num(5)));
    assert_eq!(s.pop(), None);
}

#[test]
fn from_builds_in_order() {
    let s = Stack::from_u8_vec(vec![vec![1, 2], vec![3]]);
    assert_eq!(s.len(), 2);
    assert_eq!(s.get(0), vec![1, 2]);
    assert_eq!(s.get(1), vec![3]);
}

#[test]
fn remove_shifts_entries_down() {
    let mut s = Stack::new();
    s.pushnum(10);
    s.pushnum(20);
    s.pushnum(30);
    s.remove(1);
    assert_eq!(s.len(), 2);
    assert_eq!(*s.top(-1).unwrap(), StackEntry::Num(30));
    assert_eq!(*s.top(-2).unwrap(), StackEntry::Num(10));
}

#[test]
fn iter_str_lists_views_bottom_to_top() {
    let mut s = Stack::new();
    s.pushnum(1);
    s.pushstr(&[2, 3]);
    let views = s.iter_str();
    assert_eq!(views, vec![vec![0x01], vec![2, 3]]);
    let reversed: Vec<Vec<u8>> = views.into_iter().rev().collect();
    assert_eq!(reversed, vec![vec![2, 3], vec![0x01]]);
}

#[test]
fn duplicated_buffer_entries_alias_one_buffer() {
    let mut s = Stack::new();
    s.pushstr(&[1, 2]);
    let e = *s.top(-1).unwrap();
    s.push(e);
    let h = match e {
        StackEntry::StrRef(h) => h,
        StackEntry::Num(_) => panic!("expected a buffer entry"),
    };
    s.set_buffer(h, &[9, 9, 9]);
    // The write through one slot's handle is visible through both slots.
    assert_eq!(s.get(0), vec![9, 9, 9]);
    assert_eq!(s.get(1), vec![9, 9, 9]);
}

#[test]
fn pushed_copies_do_not_alias_their_source() {
    let mut s = Stack::new();
    s.pushstr(&[1]);
    s.pushstr(&[1]);
    let e = *s.top(-1).unwrap();
    let h = match e {
        StackEntry::StrRef(h) => h,
        StackEntry::Num(_) => panic!("expected a buffer entry"),
    };
    s.set_buffer(h, &[7]);
    assert_eq!(s.get(0), vec![1], "each pushstr gets a fresh buffer");
    assert_eq!(s.get(1), vec![7]);
}
