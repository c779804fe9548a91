use bueller::header::{Header, HeaderMut, OP_IQUERY, OP_QUERY, OP_STATUS};

#[test]
fn id() {
    let data: &[u8] = &[0xab, 0xcd];
    let h = Header::at(&data[..]);
    assert_eq!(Some(0xabcdu16), h.id());

    let data: &[u8] = &[0xab];
    let h = Header::at(&data[..]);
    assert_eq!(None, h.id());
}

#[test]
fn query_or_response() {
    let data: &[u8] = &[0, 0, 0x00];
    let h = Header::at(&data[..]);
    assert_eq!(Some(false), h.qr());
    assert_eq!(true, h.is_query());
    assert_eq!(false, h.is_response());

    let data: &[u8] = &[0, 0, 0x80];
    let h = Header::at(&data[..]);
    assert_eq!(Some(true), h.qr());
    assert_eq!(false, h.is_query());
    assert_eq!(true, h.is_response());

    let data: &[u8] = &[0, 0];
    let h = Header::at(&data[..]);
    assert_eq!(None, h.qr());
    assert_eq!(false, h.is_query());
    assert_eq!(false, h.is_response());
}

#[test]
fn operation() {
    let data: &[u8] = &[0, 0, 0x78];
    let h = Header::at(&data[..]);
    assert_eq!(Some(15), h.op());

    let data: &[u8] = &[0, 0, 0x18];
    let h = Header::at(&data[..]);
    assert_eq!(Some(3), h.op());

    let data: &[u8] = &[0, 0, 0x10];
    let h = Header::at(&data[..]);
    assert_eq!(Some(OP_STATUS), h.op());

    let data: &[u8] = &[0, 0, 0x08];
    let h = Header::at(&data[..]);
    assert_eq!(Some(OP_IQUERY), h.op());

    let data: &[u8] = &[0, 0, 0x87];
    let h = Header::at(&data[..]);
    assert_eq!(Some(OP_QUERY), h.op());
}

#[test]
fn authoritative() {
    let data: &[u8] = &[0, 0, 0x04];
    let h = Header::at(&data[..]);
    assert_eq!(Some(true), h.aa());

    let data: &[u8] = &[0, 0, 0xfb];
    let h = Header::at(&data[..]);
    assert_eq!(Some(false), h.aa());

    let data: &[u8] = &[0, 0];
    let h = Header::at(&data[..]);
    assert_eq!(None, h.aa());
}

#[test]
fn truncated() {
    let data: &[u8] = &[0, 0, 0x02];
    let h = Header::at(&data[..]);
    assert_eq!(Some(true), h.tc());

    let data: &[u8] = &[0, 0, 0xfc];
    let h = Header::at(&data[..]);
    assert_eq!(Some(false), h.tc());

    let data: &[u8] = &[0, 0];
    let h = Header::at(&data[..]);
    assert_eq!(None, h.tc());
}

#[test]
fn please_recurse() {
    let data: &[u8] = &[0, 0, 0x01];
    let h = Header::at(&data[..]);
    assert_eq!(Some(true), h.rd());

    let data: &[u8] = &[0, 0, 0xfe];
    let h = Header::at(&data[..]);
    assert_eq!(Some(false), h.rd());

    let data: &[u8] = &[0, 0];
    let h = Header::at(&data[..]);
    assert_eq!(None, h.rd());
}

#[test]
fn recursion_available() {
    let data: &[u8] = &[0, 0, 0, 0x80];
    let h = Header::at(&data[..]);
    assert_eq!(Some(true), h.ra());

    let data: &[u8] = &[0, 0, 0, 0x7f];
    let h = Header::at(&data[..]);
    assert_eq!(Some(false), h.ra());

    let data: &[u8] = &[0, 0, 0];
    let h = Header::at(&data[..]);
    assert_eq!(None, h.ra());
}

#[test]
fn response_code() {
    let data: &[u8] = &[0, 0, 0, 0x00];
    let h = Header::at(&data[..]);
    assert_eq!(Some(0), h.rc());

    let data: &[u8] = &[0, 0, 0, 0x0f];
    let h = Header::at(&data[..]);
    assert_eq!(Some(0xf), h.rc());

    let data: &[u8] = &[0, 0, 0];
    let h = Header::at(&data[..]);
    assert_eq!(None, h.rc());
}

#[test]
fn query_count() {
    let data: &[u8] = &[0, 0, 0, 0, 0xab, 0xcd];
    let h = Header::at(&data[..]);
    assert_eq!(Some(0xabcd), h.qd());

    let data: &[u8] = &[0, 0, 0, 0, 0];
    let h = Header::at(&data[..]);
    assert_eq!(None, h.qd());
}

#[test]
fn answer_count() {
    let data: &[u8] = &[0, 0, 0, 0, 0, 0, 0xab, 0xcd];
    let h = Header::at(&data[..]);
    assert_eq!(Some(0xabcd), h.an());

    let data: &[u8] = &[0, 0, 0, 0, 0, 0, 0];
    let h = Header::at(&data[..]);
    assert_eq!(None, h.an());
}

#[test]
fn name_response_count() {
    let data: &[u8] = &[0, 0, 0, 0, 0, 0, 0, 0, 0xab, 0xcd];
    let h = Header::at(&data[..]);
    assert_eq!(Some(0xabcd), h.ns());

    let data: &[u8] = &[0, 0, 0, 0, 0, 0, 0, 0, 0];
    let h = Header::at(&data[..]);
    assert_eq!(None, h.ns());
}

#[test]
fn additional_record_count() {
    let data: &[u8] = &[0, 0, 0, 0, 0, 0, 0, 0, 0, 0, 0xab, 0xcd];
    let h = Header::at(&data[..]);
    assert_eq!(Some(0xabcd), h.ar());

    let data: &[u8] = &[0, 0, 0, 0, 0, 0, 0, 0, 0, 0, 0];
    let h = Header::at(&data[..]);
    assert_eq!(None, h.ar());
}

#[test]
fn set_id() {
    let data: &mut Vec<u8> = &mut vec![0, 0, 0, 0, 0, 0, 0, 0, 0, 0, 0, 0];
    HeaderMut::at_raw().set_id(data, 0xabcd);
    let h = Header::at(data);
    assert_eq!(Some(0xabcd), h.id());
}

#[test]
fn set_qr() {
    let data: &mut Vec<u8> = &mut vec![0, 0, 0, 0, 0, 0, 0, 0, 0, 0, 0, 0];
    HeaderMut::at_raw().set_qr(data, true);
    let h = Header::at(data);
    assert_eq!(Some(true), h.qr());
}

#[test]
fn set_op() {
    let data: &mut Vec<u8> = &mut vec![0, 0, 0, 0, 0, 0, 0, 0, 0, 0, 0, 0];
    HeaderMut::at_raw().set_op(data, 0xff);
    let h = Header::at(data);
    assert_eq!(Some(0xf), h.op());
}

#[test]
fn set_aa() {
    let data: &mut Vec<u8> = &mut vec![0, 0, 0, 0, 0, 0, 0, 0, 0, 0, 0, 0];
    HeaderMut::at_raw().set_aa(data, true);
    let h = Header::at(data);
    assert_eq!(Some(true), h.aa());
}

#[test]
fn set_tc() {
    let data: &mut Vec<u8> = &mut vec![0, 0, 0, 0, 0, 0, 0, 0, 0, 0, 0, 0];
    HeaderMut::at_raw().set_tc(data, true);
    let h = Header::at(data);
    assert_eq!(Some(true), h.tc());
}

#[test]
fn set_rd() {
    let data: &mut Vec<u8> = &mut vec![0, 0, 0, 0, 0, 0, 0, 0, 0, 0, 0, 0];
    HeaderMut::at_raw().set_rd(data, true);
    let h = Header::at(data);
    assert_eq!(Some(true), h.rd());
}

#[test]
fn set_ra() {
    let data: &mut Vec<u8> = &mut vec![0, 0, 0, 0, 0, 0, 0, 0, 0, 0, 0, 0];
    HeaderMut::at_raw().set_ra(data, true);
    let h = Header::at(data);
    assert_eq!(Some(true), h.ra());
}

#[test]
fn set_rc() {
    let data: &mut Vec<u8> = &mut vec![0, 0, 0, 0, 0, 0, 0, 0, 0, 0, 0, 0];
    HeaderMut::at_raw().set_rc(data, 0xff);
    let h = Header::at(data);
    assert_eq!(Some(0xf), h.rc());
}

#[test]
fn set_qd() {
    let data: &mut Vec<u8> = &mut vec![0, 0, 0, 0, 0, 0, 0, 0, 0, 0, 0, 0];
    HeaderMut::at_raw().set_qd(data, 0xabcd);
    let h = Header::at(data);
    assert_eq!(Some(0xabcd), h.qd());
}

#[test]
fn set_an() {
    let data: &mut Vec<u8> = &mut vec![0, 0, 0, 0, 0, 0, 0, 0, 0, 0, 0, 0];
    HeaderMut::at_raw().set_an(data, 0xabcd);
    let h = Header::at(data);
    assert_eq!(Some(0xabcd), h.an());
}

#[test]
fn set_ns() {
    let data: &mut Vec<u8> = &mut vec![0, 0, 0, 0, 0, 0, 0, 0, 0, 0, 0, 0];
    HeaderMut::at_raw().set_ns(data, 0xabcd);
    let h = Header::at(data);
    assert_eq!(Some(0xabcd), h.ns());
}

#[test]
fn set_ar() {
    let data: &mut Vec<u8> = &mut vec![0, 0, 0, 0, 0, 0, 0, 0, 0, 0, 0, 0];
    HeaderMut::at_raw().set_ar(data, 0xabcd);
    let h = Header::at(data);
    assert_eq!(Some(0xabcd), h.ar());
}
