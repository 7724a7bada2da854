use leech::bencoding::{
    bytes_equal, decode_next_type, dict_put, encode_bytes, encode_int, lex_less, BEncoding,
    BEncodingParseError, DecodeError, DecodeReason, DictEntry,
};

fn bstr(text: &str) -> BEncoding {
    BEncoding::Str(text.as_bytes().to_vec())
}

fn entry(key: &str, value: BEncoding) -> DictEntry {
    DictEntry { key: key.as_bytes().to_vec(), value }
}

fn decode_text(text: &str) -> Result<BEncoding, DecodeError> {
    BEncoding::decode(text.as_bytes().to_vec())
}

fn fails(text: &str, reason: DecodeReason, offset: usize) {
    assert_eq!(decode_text(text).err(), Some(DecodeError { reason, offset }), "{}", text);
}

fn same(a: &BEncoding, b: &BEncoding) -> bool {
    match (a, b) {
        (BEncoding::Int(x), BEncoding::Int(y)) => x == y,
        (BEncoding::Str(x), BEncoding::Str(y)) => x == y,
        (BEncoding::List(x), BEncoding::List(y)) => {
            x.len() == y.len() && x.iter().zip(y.iter()).all(|(p, q)| same(p, q))
        }
        (BEncoding::Dict(x), BEncoding::Dict(y)) => {
            x.len() == y.len()
                && x.iter().zip(y.iter()).all(|(p, q)| p.key == q.key && same(&p.value, &q.value))
        }
        _ => false,
    }
}

#[test]
fn integer_vector() {
    let v = decode_text("i42e").unwrap();
    assert!(same(&v, &BEncoding::Int(42)));
    assert_eq!(BEncoding::encode(&v), b"i42e".to_vec());
}

#[test]
fn byte_string_vector() {
    let v = decode_text("4:spam").unwrap();
    assert!(same(&v, &bstr("spam")));
    assert_eq!(BEncoding::encode(&v), b"4:spam".to_vec());
}

#[test]
fn list_vector() {
    let v = decode_text("l4:spami42ee").unwrap();
    assert!(same(&v, &BEncoding::List(vec![bstr("spam"), BEncoding::Int(42)])));
    assert_eq!(BEncoding::encode(&v), b"l4:spami42ee".to_vec());
}

#[test]
fn dictionary_vector() {
    let input = "d3:cow3:moo4:spam4:eggse";
    let v = decode_text(input).unwrap();
    let expected =
        BEncoding::Dict(vec![entry("cow", bstr("moo")), entry("spam", bstr("eggs"))]);
    assert!(same(&v, &expected));
    assert_eq!(BEncoding::encode(&v), input.as_bytes().to_vec());
}

#[test]
fn canonical_inputs_round_trip() {
    for input in [
        "i0e",
        "i-1e",
        "i9223372036854775807e",
        "i-9223372036854775808e",
        "0:",
        "le",
        "de",
        "lleli1eee",
        "d1:ad1:bi1e1:clee1:zi-7ee",
        "d8:announce3:url4:infod6:lengthi10e4:name1:x12:piece lengthi4e6:pieces0:ee",
    ] {
        let v = decode_text(input).unwrap();
        assert_eq!(BEncoding::encode(&v), input.as_bytes().to_vec(), "{}", input);
    }
}

#[test]
fn values_round_trip() {
    let values = vec![
        BEncoding::Int(0),
        BEncoding::Int(i64::MIN),
        BEncoding::Int(i64::MAX),
        BEncoding::Str(vec![]),
        BEncoding::Str(vec![0, 255, b':', b'e', b'i']),
        BEncoding::List(vec![]),
        BEncoding::Dict(vec![]),
        BEncoding::Dict(vec![
            entry("", BEncoding::Int(1)),
            entry("a", BEncoding::List(vec![BEncoding::Dict(vec![]), bstr("x")])),
            entry("ab", BEncoding::Dict(vec![entry("k", BEncoding::Int(-5))])),
            entry("b", bstr("1:e")),
        ]),
    ];
    for v in &values {
        let decoded = BEncoding::decode(BEncoding::encode(v)).unwrap();
        assert!(same(&decoded, v));
    }
}

#[test]
fn numbers_are_written_in_decimal() {
    assert_eq!(encode_int(0), b"i0e".to_vec());
    assert_eq!(encode_int(-42), b"i-42e".to_vec());
    assert_eq!(encode_int(1234567890), b"i1234567890e".to_vec());
    assert_eq!(encode_int(i64::MIN), b"i-9223372036854775808e".to_vec());
    assert_eq!(encode_bytes(&vec![b'x'; 12]), b"12:xxxxxxxxxxxx".to_vec());
}

#[test]
fn unsorted_keys_are_accepted_and_sorted() {
    let v = decode_text("d4:spam4:eggs3:cow3:mooe").unwrap();
    assert_eq!(BEncoding::encode(&v), b"d3:cow3:moo4:spam4:eggse".to_vec());
}

#[test]
fn of_two_entries_with_one_key_the_last_stays() {
    let v = decode_text("d1:ai1e1:ai2ee").unwrap();
    assert!(same(&v, &BEncoding::Dict(vec![entry("a", BEncoding::Int(2))])));
}

#[test]
fn keys_are_ordered_bytewise() {
    assert!(lex_less(b"a", b"b"));
    assert!(lex_less(b"", b"a"));
    assert!(lex_less(b"a", b"ab"));
    assert!(lex_less(b"Z", b"a"));
    assert!(lex_less(&[0x7f], &[0x80]));
    assert!(!lex_less(b"a", b"a"));
    assert!(!lex_less(b"b", b"a"));
    assert!(!lex_less(b"", b""));
    assert!(bytes_equal(b"abc", b"abc"));
    assert!(!bytes_equal(b"abc", b"abd"));
    assert!(!bytes_equal(b"abc", b"ab"));
}

#[test]
fn dict_put_inserts_in_order_and_replaces() {
    let mut map: Vec<DictEntry> = Vec::new();
    dict_put(&mut map, b"m".to_vec(), BEncoding::Int(1));
    dict_put(&mut map, b"a".to_vec(), BEncoding::Int(2));
    dict_put(&mut map, b"z".to_vec(), BEncoding::Int(3));
    dict_put(&mut map, b"m".to_vec(), BEncoding::Int(4));
    let keys: Vec<Vec<u8>> = map.iter().map(|e| e.key.clone()).collect();
    assert_eq!(keys, vec![b"a".to_vec(), b"m".to_vec(), b"z".to_vec()]);
    assert!(same(&map[1].value, &BEncoding::Int(4)));
}

#[test]
fn input_that_ends_early_is_refused() {
    fails("", DecodeReason::UnexpectedEnd, 0);
    fails("i42", DecodeReason::UnexpectedEnd, 3);
    fails("i", DecodeReason::UnexpectedEnd, 1);
    fails("i-", DecodeReason::UnexpectedEnd, 2);
    fails("4:spa", DecodeReason::UnexpectedEnd, 5);
    fails("4", DecodeReason::UnexpectedEnd, 1);
    fails("l4:spam", DecodeReason::UnexpectedEnd, 7);
    fails("d3:cow", DecodeReason::UnexpectedEnd, 6);
    fails("99999999999999999999999999:x", DecodeReason::UnexpectedEnd, 28);
}

#[test]
fn a_byte_that_starts_no_value_is_refused() {
    fails("x", DecodeReason::UnexpectedByte, 0);
    fails("e", DecodeReason::UnexpectedByte, 0);
    fails("lxe", DecodeReason::UnexpectedByte, 1);
    fails("d1:a-e", DecodeReason::UnexpectedByte, 4);
}

#[test]
fn malformed_integers_are_refused() {
    fails("ie", DecodeReason::InvalidInteger, 1);
    fails("i-e", DecodeReason::InvalidInteger, 2);
    fails("i-0e", DecodeReason::InvalidInteger, 2);
    fails("i007e", DecodeReason::InvalidInteger, 1);
    fails("i00e", DecodeReason::InvalidInteger, 1);
    fails("i+5e", DecodeReason::InvalidInteger, 1);
    fails("i4x2e", DecodeReason::InvalidInteger, 2);
    fails("i--1e", DecodeReason::InvalidInteger, 2);
}

#[test]
fn integers_that_do_not_fit_are_refused() {
    fails("i9223372036854775808e", DecodeReason::IntegerOverflow, 1);
    fails("i-9223372036854775809e", DecodeReason::IntegerOverflow, 2);
    fails("i99999999999999999999999999e", DecodeReason::IntegerOverflow, 1);
}

#[test]
fn malformed_lengths_are_refused() {
    fails("04:spam", DecodeReason::InvalidLength, 0);
    fails("00:", DecodeReason::InvalidLength, 0);
    fails("4x:spam", DecodeReason::InvalidLength, 1);
    fails("4spam", DecodeReason::InvalidLength, 1);
}

#[test]
fn keys_that_are_no_byte_strings_are_refused() {
    fails("di1ei2ee", DecodeReason::InvalidKey, 1);
    fails("dlei2ee", DecodeReason::InvalidKey, 1);
    fails("d1:ai1exe", DecodeReason::InvalidKey, 7);
}

#[test]
fn bytes_after_the_value_are_refused() {
    fails("i42ei43e", DecodeReason::TrailingData, 4);
    fails("4:spamx", DecodeReason::TrailingData, 6);
    fails("lee", DecodeReason::TrailingData, 2);
}

#[test]
fn a_value_inside_an_input_is_decoded_with_its_end() {
    let (v, end) = decode_next_type(b"xxi42eyy", 2).unwrap();
    assert!(same(&v, &BEncoding::Int(42)));
    assert_eq!(end, 6);
    assert_eq!(
        decode_next_type(b"i1e", 3).err(),
        Some(DecodeError { reason: DecodeReason::UnexpectedEnd, offset: 3 })
    );
}

#[test]
fn typed_reads_succeed_on_the_right_kind() {
    let v = decode_text("d1:ai7e1:b2:hi1:cli1ee1:dd1:xi0eee").unwrap();
    assert_eq!(v.get_int("a").unwrap(), 7);
    assert_eq!(v.get_str("b").unwrap(), "hi");
    assert_eq!(v.get_bytes("b").unwrap(), b"hi".to_vec());
    assert_eq!(v.get_list("c").unwrap().len(), 1);
    assert_eq!(v.get_dict("d").unwrap().get_int("x").unwrap(), 0);
    assert!(same(v.get_value("a").unwrap(), &BEncoding::Int(7)));
    assert_eq!(v.to_dict().unwrap().len(), 4);
    assert_eq!(BEncoding::Int(3).to_int().unwrap(), 3);
    assert_eq!(bstr("t").to_str().unwrap(), "t");
    assert_eq!(bstr("t").to_bytes().unwrap(), b"t".to_vec());
    assert_eq!(BEncoding::List(vec![]).to_list().unwrap().len(), 0);
}

#[test]
fn typed_reads_fail_with_the_kind_of_failure() {
    let v = decode_text("d1:ai7e1:b2:hi1:cli1ee1:dd1:xi0eee").unwrap();
    assert!(matches!(v.get_int("b"), Err(BEncodingParseError::NotAInt)));
    assert!(matches!(v.get_str("a"), Err(BEncodingParseError::NotAStr)));
    assert!(matches!(v.get_bytes("c"), Err(BEncodingParseError::NotAStr)));
    assert!(matches!(v.get_list("a"), Err(BEncodingParseError::NotAList)));
    assert!(matches!(v.get_dict("a"), Err(BEncodingParseError::NotADict)));
    assert!(matches!(v.get_int("zz"), Err(BEncodingParseError::MissingKey(ref k)) if k == "zz"));
    assert!(matches!(v.get_dict("zz"), Err(BEncodingParseError::MissingKey(ref k)) if k == "zz"));
    assert!(matches!(BEncoding::Int(1).get_int("a"), Err(BEncodingParseError::NotADict)));
    assert!(matches!(BEncoding::Int(1).to_dict(), Err(BEncodingParseError::NotADict)));
    assert!(matches!(BEncoding::Int(1).to_list(), Err(BEncodingParseError::NotAList)));
    assert!(matches!(bstr("1").to_int(), Err(BEncodingParseError::NotAInt)));
    let binary = BEncoding::Str(vec![0xff, 0xfe]);
    assert!(matches!(binary.to_str(), Err(BEncodingParseError::NotUtf8)));
    assert_eq!(binary.to_bytes().unwrap(), vec![0xff, 0xfe]);
}

#[test]
fn text_is_decoded_as_utf8() {
    let v = BEncoding::Str("héllo ✓".as_bytes().to_vec());
    assert_eq!(v.to_str().unwrap(), "héllo ✓");
}

#[test]
fn failures_have_messages() {
    assert_eq!(BEncodingParseError::NotADict.to_text(), "not a dict!");
    assert_eq!(BEncodingParseError::NotAList.to_text(), "not a list!");
    assert_eq!(BEncodingParseError::NotAInt.to_text(), "not an int!");
    assert_eq!(BEncodingParseError::NotAStr.to_text(), "not a str!");
    assert_eq!(BEncodingParseError::NotUtf8.to_text(), "not valid utf-8!");
    assert_eq!(BEncodingParseError::MissingKey("info".to_string()).to_text(), "missing key `info`");
}

#[test]
fn values_are_shown_with_pieces_left_out() {
    let v = decode_text("d4:infod4:name1:x6:pieces4:\u{1}\u{2}\u{3}\u{4}e4:listli1ei-2e2:abee")
        .unwrap();
    assert_eq!(v.to_text(), "{info : {name : x, pieces : REDACTED}, list : [1, -2, ab]}");
    assert_eq!(BEncoding::Int(i64::MIN).to_text(), "-9223372036854775808");
    assert_eq!(BEncoding::List(vec![]).to_text(), "[]");
    assert_eq!(BEncoding::Dict(vec![]).to_text(), "{}");
    assert_eq!(BEncoding::Str(vec![b'a', 0xff]).to_text(), "a\u{fffd}");
}
