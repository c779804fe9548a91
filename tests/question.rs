use bueller::question::Question;

#[test]
fn question() {
    let data = &[0, 0x1, 0x2, 0x3, 0x4][..];
    let q = Question::from_message(data, 0).unwrap();
    assert_eq!(Some(0x0102u16), q.qtype());
    assert_eq!(Some(0x0304u16), q.qclass());
}

#[test]
fn question_missing_footer() {
    let data = &[0][..];
    let q = Question::from_message(data, 0);
    assert!(q.is_none());
}
