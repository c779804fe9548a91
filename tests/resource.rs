use bueller::resource::Resource;

#[test]
fn payload() {
    let data = &[0, 0, 1, 0, 2, 0, 0, 0, 3, 0, 2, 0xaa, 0xab][..];
    let r = Resource::from_message(data, 0).unwrap();
    assert_eq!(Some(1), r.rtype());
    assert_eq!(Some(2), r.rclass());
    assert_eq!(Some(3), r.ttl());
    assert_eq!(Some(2), r.data_length());

    // Truncated packet:
    assert_eq!(2, r.payload(data).unwrap().len());
    assert_eq!(0xaa, r.payload(data).unwrap()[0]);
    assert_eq!(0xab, r.payload(data).unwrap()[1]);
}

#[test]
fn truncated_resource() {
    let data = &[0, 0, 1, 0, 2, 0, 0, 0, 3, 0, 4][..];
    let r = Resource::from_message(data, 0).unwrap();
    assert_eq!(Some(1), r.rtype());
    assert_eq!(Some(2), r.rclass());
    assert_eq!(Some(3), r.ttl());
    assert_eq!(Some(4), r.data_length());

    // Truncated packet:
    assert!(r.payload(data).is_none());
}
