use bueller::domain_name::DomainName;
use bueller::message::MessageCursor;
use std::iter::repeat;

#[test]
fn root() {
    let data = &[0][..];
    let name = DomainName::from_message(data, 0).unwrap();
    let v = name.segments(data).unwrap();
    assert_eq!(1, v.len());
    assert_eq!(0, v[0].len());
}

#[test]
fn doubleroot() {
    let data = &[0, 0][..];
    let name = DomainName::from_message(data, 0).unwrap();
    let v = name.segments(data).unwrap();
    assert_eq!(1, v.len());
    assert_eq!(0, v[0].len());

    let name2 = DomainName::from_message(data, name.end_offset()).unwrap();
    let v2 = name2.segments(data).unwrap();
    assert_eq!(1, v2.len());
    assert_eq!(0, v2[0].len());
}

#[test]
fn after_root() {
    let data = &[0, 1, 'x' as u8, 0][..];
    let name = DomainName::from_message(data, 0).unwrap();
    let v = name.segments(data).unwrap();
    assert_eq!(1, v.len());
    assert_eq!(0, v[0].len());

    let name2 = DomainName::from_message(data, name.end_offset()).unwrap();
    let v2 = name2.segments(data).unwrap();
    assert_eq!(2, v2.len());
    assert_eq!(&['x' as u8], v2[0]);
    assert_eq!(0, v2[1].len());
}

#[test]
fn only_tld() {
    let data = &[3, 'c' as u8, 'o' as u8, 'm' as u8, 0][..];
    let name = DomainName::from_message(data, 0).unwrap();
    let v = name.segments(data).unwrap();
    assert_eq!(2, v.len());
    assert_eq!(&['c' as u8, 'o' as u8, 'm' as u8], v[0]);
    assert_eq!(0, v[1].len());
}

#[test]
fn two_parts() {
    let data = &[1, 'x' as u8, 3, 'c' as u8, 'o' as u8, 'm' as u8, 0][..];
    let name = DomainName::from_message(data, 0).unwrap();
    let v = name.segments(data).unwrap();
    assert_eq!(3, v.len());
    assert_eq!(&['x' as u8], v[0]);
    assert_eq!(&['c' as u8, 'o' as u8, 'm' as u8], v[1]);
    assert_eq!(0, v[2].len());
}

#[test]
fn initial_pointer() {
    let data = &[0xc0, 0x04, 1, 'x' as u8, 3, 'c' as u8, 'o' as u8, 'm' as u8, 0][..];

    let name1 = DomainName::from_message(data, 0).unwrap();
    let v1 = name1.segments(data).unwrap();
    assert_eq!(2, v1.len());
    assert_eq!(&['c' as u8, 'o' as u8, 'm' as u8], v1[0]);
    assert_eq!(0, v1[1].len());

    let name2 = DomainName::from_message(data, name1.end_offset()).unwrap();
    let v2 = name2.segments(data).unwrap();
    assert_eq!(3, v2.len());
    assert_eq!(&['x' as u8], v2[0]);
    assert_eq!(&['c' as u8, 'o' as u8, 'm' as u8], v2[1]);
    assert_eq!(0, v2[2].len());
}

#[test]
fn trailing_pointer() {
    let data = &[1, 'y' as u8, 0xc0, 0x06, 1, 'x' as u8, 3, 'c' as u8, 'o' as u8, 'm' as u8,
                 0][..];

    let name1 = DomainName::from_message(data, 0).unwrap();
    let v1 = name1.segments(data).unwrap();
    assert_eq!(3, v1.len());
    assert_eq!(&['y' as u8], v1[0]);
    assert_eq!(&['c' as u8, 'o' as u8, 'm' as u8], v1[1]);
    assert_eq!(0, v1[2].len());

    let name2 = DomainName::from_message(data, name1.end_offset()).unwrap();
    let v2 = name2.segments(data).unwrap();
    assert_eq!(3, v2.len());
    assert_eq!(&['x' as u8], v2[0]);
    assert_eq!(&['c' as u8, 'o' as u8, 'm' as u8], v2[1]);
    assert_eq!(0, v2[2].len());
}

#[test]
fn invalid_pointer() {
    let data = &[0xc0, 5][..];
    assert!(DomainName::from_message(data, 0).is_none());
}

#[test]
fn pointer_recursion_limit() {
    let data = &[0xc0, 0, 1, 'x' as u8, 0][..];
    assert!(DomainName::from_message(data, 0).is_none());
}

#[test]
fn name_count_limit() {
    let data = &[1, 'x' as u8, 1, 'y' as u8, 0xc0, 0][..];
    assert!(DomainName::from_message(data, 0).is_none());
}

#[test]
fn write_at_no_root() {
    let buffer = &mut repeat(0u8).take(8).collect::<Vec<u8>>();
    let idx = &mut MessageCursor::new(buffer.len());
    idx.allocate(1); // Skip the first byte to see if write_at goes outside its bounds.
    DomainName::write_at(idx, buffer, &[&[1u8, 2u8][..], &[3u8][..]][..]);
    assert_eq!(&vec![0u8, 2, 1, 2, 1, 3, 0, 0], buffer);
}

#[test]
fn write_at_with_root() {
    let buffer = &mut repeat(0u8).take(8).collect::<Vec<u8>>();
    let idx = &mut MessageCursor::new(buffer.len());
    idx.allocate(1); // Skip the first byte to see if write_at goes outside its bounds.
    DomainName::write_at(idx, buffer, &[&[1u8, 2u8][..], &[3u8][..], &[][..]][..]);
    assert_eq!(&vec![0u8, 2, 1, 2, 1, 3, 0, 0], buffer);
}
