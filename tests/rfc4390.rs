use bueller::rfc4390::encode_dotted_name;

#[test]
fn encode() {
    let name = "123.a-b.ű.déf.";
    let segments = encode_dotted_name(name).unwrap();
    assert_eq!(vec!["123".bytes().collect::<Vec<u8>>(),
                    "a-b".bytes().collect::<Vec<u8>>(),
                    "xn--5ga".bytes().collect::<Vec<u8>>(),
                    "xn--df-bja".bytes().collect::<Vec<u8>>(),
                    "".bytes().collect::<Vec<u8>>()],
               segments);
}
