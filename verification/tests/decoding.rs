use bencode::decode::{
    decode, decode_bencoded_string, decode_benc, decode_dictionary, decode_exact, decode_i64,
    decode_list, decode_string, parse_benc, parse_bencoded_dictionary, parse_bencoded_list,
    parse_bencoded_string, parse_i64_to_benc, parse_string_to_benc, DEFAULT_MAX_DEPTH,
};
use bencode::grammar::DecodeError;
use bencode::value::{BDict, Benc};

/// What is decoded from an input that holds one item and nothing else.
fn whole<T>(r: Result<(T, &[u8]), DecodeError>) -> Option<T> {
    match r {
        Ok((item, rest)) if rest.is_empty() => Some(item),
        _ => None,
    }
}

#[test]
fn test_decode_bencoded_string() {
    {
        let slice1 = b"5:Hello";
        let result = b"Hello";

        match whole(decode_bencoded_string(slice1)) {
            None => assert!(false),
            Some(v) => assert_eq!(v, result.to_vec()),
        }

        let slice2 = &[0, 58, 0, 1, 2, 3];
        let slice3 = b":Hello";
        let slice4 = b"5:Hell";
        let slice5 = b"5:Hello World!";

        assert_eq!(whole(decode_bencoded_string(slice2)), None);
        assert_eq!(whole(decode_bencoded_string(slice3)), None);
        assert_eq!(whole(decode_bencoded_string(slice4)), None);
        assert_eq!(whole(decode_bencoded_string(slice5)), None);
    }
    {
        let slice1 = b"1:H";
        let result = b"H";

        match whole(decode_bencoded_string(slice1)) {
            None => assert!(false),
            Some(v) => assert_eq!(v, result.to_vec()),
        }
    }
    {
        let slice1 = b"0:";
        let result = b"";

        match whole(decode_bencoded_string(slice1)) {
            None => assert!(false),
            Some(v) => assert_eq!(v, result.to_vec()),
        }
    }
}

#[test]
fn test_decode_string() {
    let slice1 = b"5:Hello";
    let result = "Hello";

    match whole(decode_string(slice1)) {
        Some(Benc::S(x)) => assert_eq!(x, result.as_bytes()),
        _ => assert!(false),
    }
}

#[test]
fn decode_test_parse_u8_to_benc() {
    let slice1 = b"i0e";
    let slice2 = b"i777e";
    let slice3 = b"i1234567890e";

    match whole(decode_i64(slice1)) {
        Some(Benc::I(x)) => assert_eq!(x, 0),
        _ => assert!(false),
    }
    match whole(decode_i64(slice2)) {
        Some(Benc::I(x)) => assert_eq!(x, 777),
        _ => assert!(false),
    }
    match whole(decode_i64(slice3)) {
        Some(Benc::I(x)) => assert_eq!(x, 1234567890),
        _ => assert!(false),
    }

    let slice4 = b"ie";
    let slice5 = b"i01e";
    let slice6 = b"5:Hello";

    assert_eq!(whole(decode_i64(slice4)), None);
    assert_eq!(whole(decode_i64(slice5)), None);
    assert_eq!(whole(decode_i64(slice6)), None);
}

#[test]
fn test_decode_list() {
    {
        let slice1 = b"le";
        let slice2 = b"li0ee";
        let slice3 = b"li0ei1ei2ee";

        let result2 = vec![Benc::I(0)];
        let result3 = vec![Benc::I(0), Benc::I(1), Benc::I(2)];

        match whole(decode_list(slice1)) {
            Some(Benc::L(v)) => assert!(v.is_empty()),
            _ => assert!(false),
        }
        match whole(decode_list(slice2)) {
            Some(Benc::L(v)) => assert_eq!(v, result2),
            _ => assert!(false),
        }
        match whole(decode_list(slice3)) {
            Some(Benc::L(v)) => assert_eq!(v, result3),
            _ => assert!(false),
        }
    }
    {
        assert!(true);

        let slice1 = b"l5:Hello6:World!e";

        let result1 = vec![
            Benc::S("Hello".as_bytes().to_vec()),
            Benc::S("World!".as_bytes().to_vec()),
        ];

        match whole(decode_list(slice1)) {
            Some(Benc::L(v)) => assert_eq!(v, result1),
            _ => assert!(false),
        }
    }
}

#[test]
fn test_decode_dictionary() {
    let slice1 = b"d1:Ai1e1:Bi2e1:Ci3ee";

    let mut result1: BDict = BDict::new();
    result1.insert(b"A".to_vec(), Benc::I(1));
    result1.insert(b"B".to_vec(), Benc::I(2));
    result1.insert(b"C".to_vec(), Benc::I(3));

    match whole(decode_dictionary(slice1)) {
        Some(Benc::D(d)) => assert_eq!(d, result1),
        _ => assert!(false),
    }
}

#[test]
fn test_decode_benc() {
    let slice1 = b"i0e";
    match whole(decode_benc(slice1)) {
        Some(Benc::I(x)) => assert_eq!(x, 0),
        _ => assert!(false),
    }

    let slice2 = b"5:Hello";
    let result2 = "Hello";
    match whole(decode_benc(slice2)) {
        Some(Benc::S(x)) => assert_eq!(x, result2.as_bytes()),
        _ => assert!(false),
    }

    let slice3 = b"li0ei1ee";
    let result3 = vec![Benc::I(0), Benc::I(1)];
    match whole(decode_benc(slice3)) {
        Some(Benc::L(v)) => assert_eq!(v, result3),
        _ => assert!(false),
    }

    let slice4 = b"d1:Ai1e1:Bi2ee";
    let mut result4: BDict = BDict::new();
    result4.insert(b"A".to_vec(), Benc::I(1));
    result4.insert(b"B".to_vec(), Benc::I(2));
    match whole(decode_benc(slice4)) {
        Some(Benc::D(d)) => assert_eq!(d, result4),
        _ => assert!(false),
    }

    let slice5 = b"li0e5:Helloe";
    let result5 = vec![Benc::I(0), Benc::S("Hello".as_bytes().to_vec())];
    match whole(decode_benc(slice5)) {
        Some(Benc::L(v)) => assert_eq!(v, result5),
        _ => assert!(false),
    }

    let slice6 = b"d1:Ali0ei1ee1:B5:Helloe";
    let mut result6: BDict = BDict::new();
    result6.insert(b"A".to_vec(), Benc::L(vec![Benc::I(0), Benc::I(1)]));
    result6.insert(b"B".to_vec(), Benc::S("Hello".as_bytes().to_vec()));
    match whole(decode_benc(slice6)) {
        Some(Benc::D(d)) => assert_eq!(d, result6),
        _ => assert!(false),
    }
}

#[test]
fn test_parse_bencoded_string() {
    {
        let slice1 = b"5:Hello";
        let result = b"Hello";

        match parse_bencoded_string(slice1).ok() {
            None => assert!(false),
            Some(v) => assert_eq!(v, result.to_vec()),
        }

        let slice2 = &[0, 58, 0, 1, 2, 3];
        let slice3 = b":Hello";
        let slice4 = b"5:Hell";
        let slice5 = b"5:Hello World!";

        assert_eq!(parse_bencoded_string(slice2).ok(), None);
        assert_eq!(parse_bencoded_string(slice3).ok(), None);
        assert_eq!(parse_bencoded_string(slice4).ok(), None);
        assert_eq!(parse_bencoded_string(slice5).ok(), None);
    }
    {
        let slice1 = b"1:H";
        let result = b"H";

        match parse_bencoded_string(slice1).ok() {
            None => assert!(false),
            Some(v) => assert_eq!(v, result.to_vec()),
        }
    }
    {
        let slice1 = b"0:";
        let result = b"";

        match parse_bencoded_string(slice1).ok() {
            None => assert!(false),
            Some(v) => assert_eq!(v, result.to_vec()),
        }
    }
}

#[test]
fn test_parse_string_to_benc() {
    let slice1 = b"5:Hello";
    let result = "Hello";

    match parse_string_to_benc(slice1).ok() {
        Some(Benc::S(x)) => assert_eq!(x, result.as_bytes()),
        _ => assert!(false),
    }
}

#[test]
fn main_test_parse_u8_to_benc() {
    let slice1 = b"i0e";
    let slice2 = b"i777e";
    let slice3 = b"i1234567890e";

    match parse_i64_to_benc(slice1).ok() {
        Some(Benc::I(x)) => assert_eq!(x, 0),
        _ => assert!(false),
    }
    match parse_i64_to_benc(slice2).ok() {
        Some(Benc::I(x)) => assert_eq!(x, 777),
        _ => assert!(false),
    }
    match parse_i64_to_benc(slice3).ok() {
        Some(Benc::I(x)) => assert_eq!(x, 1234567890),
        _ => assert!(false),
    }

    let slice4 = b"ie";
    let slice5 = b"i01e";
    let slice6 = b"5:Hello";

    assert_eq!(parse_i64_to_benc(slice4).ok(), None);
    assert_eq!(parse_i64_to_benc(slice5).ok(), None);
    assert_eq!(parse_i64_to_benc(slice6).ok(), None);
}

#[test]
fn test_parse_bencoded_list() {
    {
        let slice1 = b"le";
        let slice2 = b"li0ee";
        let slice3 = b"li0ei1ei2ee";

        let result2 = vec![Benc::I(0)];
        let result3 = vec![Benc::I(0), Benc::I(1), Benc::I(2)];

        match parse_bencoded_list(slice1).ok() {
            Some(Benc::L(v)) => assert!(v.is_empty()),
            _ => assert!(false),
        }
        match parse_bencoded_list(slice2).ok() {
            Some(Benc::L(v)) => assert_eq!(v, result2),
            _ => assert!(false),
        }
        match parse_bencoded_list(slice3).ok() {
            Some(Benc::L(v)) => assert_eq!(v, result3),
            _ => assert!(false),
        }
    }
    {
        assert!(true);

        let slice1 = b"l5:Hello6:World!e";

        let result1 = vec![
            Benc::S("Hello".as_bytes().to_vec()),
            Benc::S("World!".as_bytes().to_vec()),
        ];

        match parse_bencoded_list(slice1).ok() {
            Some(Benc::L(v)) => assert_eq!(v, result1),
            _ => assert!(false),
        }
    }
}

#[test]
fn test_parse_bencoded_dictionary() {
    let slice1 = b"d1:Ai1e1:Bi2e1:Ci3ee";

    let mut result1: BDict = BDict::new();
    result1.insert(b"A".to_vec(), Benc::I(1));
    result1.insert(b"B".to_vec(), Benc::I(2));
    result1.insert(b"C".to_vec(), Benc::I(3));

    match parse_bencoded_dictionary(slice1).ok() {
        Some(Benc::D(d)) => assert_eq!(d, result1),
        _ => assert!(false),
    }
}

#[test]
fn test_parse_benc() {
    let slice1 = b"i0e";
    match parse_benc(slice1).ok() {
        Some(Benc::I(x)) => assert_eq!(x, 0),
        _ => assert!(false),
    }

    let slice2 = b"5:Hello";
    let result2 = "Hello";
    match parse_benc(slice2).ok() {
        Some(Benc::S(x)) => assert_eq!(x, result2.as_bytes()),
        _ => assert!(false),
    }

    let slice3 = b"li0ei1ee";
    let result3 = vec![Benc::I(0), Benc::I(1)];
    match parse_benc(slice3).ok() {
        Some(Benc::L(v)) => assert_eq!(v, result3),
        _ => assert!(false),
    }

    let slice4 = b"d1:Ai1e1:Bi2ee";
    let mut result4: BDict = BDict::new();
    result4.insert(b"A".to_vec(), Benc::I(1));
    result4.insert(b"B".to_vec(), Benc::I(2));
    match parse_benc(slice4).ok() {
        Some(Benc::D(d)) => assert_eq!(d, result4),
        _ => assert!(false),
    }

    let slice5 = b"li0e5:Helloe";
    let result5 = vec![Benc::I(0), Benc::S("Hello".as_bytes().to_vec())];
    match parse_benc(slice5).ok() {
        Some(Benc::L(v)) => assert_eq!(v, result5),
        _ => assert!(false),
    }

    let slice6 = b"d1:Ali0ei1ee1:B5:Helloe";
    let mut result6: BDict = BDict::new();
    result6.insert(b"A".to_vec(), Benc::L(vec![Benc::I(0), Benc::I(1)]));
    result6.insert(b"B".to_vec(), Benc::S("Hello".as_bytes().to_vec()));
    match parse_benc(slice6).ok() {
        Some(Benc::D(d)) => assert_eq!(d, result6),
        _ => assert!(false),
    }
}

fn dict_of(pairs: Vec<(&[u8], Benc)>) -> Benc {
    let mut dict = BDict::new();
    for (key, value) in pairs {
        dict.insert(key.to_vec(), value);
    }
    Benc::D(dict)
}

fn nothing() -> &'static [u8] {
    &[]
}

#[test]
fn decode_empty_string_is_a_value() {
    assert_eq!(decode_benc(b"0:"), Ok((Benc::S(Vec::new()), nothing())));
    assert_eq!(parse_benc(b"0:"), Ok(Benc::S(Vec::new())));
}

#[test]
fn decode_spam() {
    assert_eq!(decode_benc(b"4:spam"), Ok((Benc::S(b"spam".to_vec()), nothing())));
}

#[test]
fn decode_integers() {
    assert_eq!(decode_benc(b"i0e"), Ok((Benc::I(0), nothing())));
    assert_eq!(decode_benc(b"i-1e"), Ok((Benc::I(-1), nothing())));
    assert_eq!(decode_benc(b"i04e"), Err(DecodeError::MalformedInteger));
    assert_eq!(decode_benc(b"i-0e"), Err(DecodeError::MalformedInteger));
}

#[test]
fn decode_empty_list_is_a_list() {
    assert_eq!(decode_benc(b"le"), Ok((Benc::L(Vec::new()), nothing())));
    assert_ne!(parse_benc(b"le"), parse_benc(b"0:"));
}

#[test]
fn decode_list_of_strings() {
    let expected = Benc::L(vec![Benc::S(b"spam".to_vec()), Benc::S(b"eggs".to_vec())]);
    assert_eq!(decode_benc(b"l4:spam4:eggse"), Ok((expected, nothing())));
}

#[test]
fn decode_dict_of_strings() {
    let expected = dict_of(vec![
        (b"cow", Benc::S(b"moo".to_vec())),
        (b"spam", Benc::S(b"eggs".to_vec())),
    ]);
    let decoded = parse_benc(b"d3:cow3:moo4:spam4:eggse").unwrap();
    assert_eq!(decoded, expected);
    match decoded {
        Benc::D(dict) => {
            let keys: Vec<&[u8]> = dict.as_slice().iter().map(|e| e.0.as_slice()).collect();
            assert_eq!(keys, vec![&b"cow"[..], &b"spam"[..]]);
        }
        _ => panic!("no dictionary"),
    }
}

#[test]
fn decode_empty_dict_is_a_dict() {
    assert_eq!(decode_benc(b"de"), Ok((Benc::D(BDict::new()), nothing())));
    assert_ne!(parse_benc(b"de"), parse_benc(b"le"));
    assert_ne!(parse_benc(b"de"), parse_benc(b"0:"));
}

#[test]
fn decode_truncated_string() {
    assert_eq!(decode_benc(b"5:abc"), Err(DecodeError::TruncatedString));
    assert_eq!(decode_benc(b"5:"), Err(DecodeError::TruncatedString));
    assert_eq!(decode_benc(b"1:"), Err(DecodeError::TruncatedString));
}

#[test]
fn decode_duplicate_key_last_wins() {
    let expected = dict_of(vec![(b"a", Benc::I(2))]);
    assert_eq!(decode_benc(b"d1:ai1e1:ai2ee"), Ok((expected, nothing())));
}

#[test]
fn decode_duplicate_key_keeps_one_entry() {
    match parse_benc(b"d1:ai1e1:bi5e1:ai2e1:ai3ee").unwrap() {
        Benc::D(dict) => {
            assert_eq!(dict.len(), 2);
            assert_eq!(dict.get(b"a"), Some(&Benc::I(3)));
            assert_eq!(dict.get(b"b"), Some(&Benc::I(5)));
        }
        _ => panic!("no dictionary"),
    }
}

#[test]
fn decode_keys_in_any_order_come_out_sorted() {
    let decoded = parse_benc(b"d1:zi1e1:ai2e2:aai3e0:i4ee").unwrap();
    match &decoded {
        Benc::D(dict) => {
            let keys: Vec<&[u8]> = dict.as_slice().iter().map(|e| e.0.as_slice()).collect();
            assert_eq!(keys, vec![&b""[..], &b"a"[..], &b"aa"[..], &b"z"[..]]);
        }
        _ => panic!("no dictionary"),
    }
    assert_eq!(bencode::encode::encode(&decoded), b"d0:i4e1:ai2e2:aai3e1:zi1ee".to_vec());
}

fn nested_lists(depth: usize) -> Vec<u8> {
    let mut input = vec![b'l'; depth];
    input.extend(vec![b'e'; depth]);
    input
}

#[test]
fn decode_nesting_beyond_the_limit_is_an_error() {
    assert_eq!(decode(&nested_lists(4), 3), Err(DecodeError::DepthExceeded));
    assert_eq!(decode_exact(&nested_lists(4), 3), Err(DecodeError::DepthExceeded));
    assert_eq!(decode(b"l", 0), Err(DecodeError::DepthExceeded));
    assert_eq!(decode(b"d", 0), Err(DecodeError::DepthExceeded));
    assert_eq!(decode(b"ld", 1), Err(DecodeError::DepthExceeded));
    assert_eq!(decode(b"d1:ad1:bleee", 2), Err(DecodeError::DepthExceeded));
    assert_eq!(
        decode_benc(&nested_lists(DEFAULT_MAX_DEPTH + 1)),
        Err(DecodeError::DepthExceeded)
    );
    assert_eq!(decode_benc(&vec![b'l'; 100000]), Err(DecodeError::DepthExceeded));
    assert_eq!(decode_benc(&b"d1:a".repeat(100000)), Err(DecodeError::DepthExceeded));
}

#[test]
fn decode_nesting_up_to_the_limit_is_accepted() {
    assert!(decode_exact(&nested_lists(3), 3).is_ok());
    assert!(decode_exact(b"i1e", 0).is_ok());
    assert!(decode_exact(b"0:", 0).is_ok());
    assert!(decode_exact(b"d1:ad1:bleee", 3).is_ok());
    assert!(parse_benc(&nested_lists(DEFAULT_MAX_DEPTH)).is_ok());
    assert_eq!(DEFAULT_MAX_DEPTH, 256);
}

#[test]
fn decode_depth_limit_counts_nesting_not_items() {
    assert!(decode_exact(b"llelelelee", 2).is_ok());
    assert_eq!(decode_exact(b"llelelllee", 2), Err(DecodeError::DepthExceeded));
}

#[test]
fn decode_returns_the_remaining_bytes() {
    assert_eq!(decode_benc(b"i1ei2e"), Ok((Benc::I(1), &b"i2e"[..])));
    assert_eq!(decode_benc(b"4:spamXYZ"), Ok((Benc::S(b"spam".to_vec()), &b"XYZ"[..])));
    assert_eq!(decode_benc(b"lee"), Ok((Benc::L(Vec::new()), &b"e"[..])));
    assert_eq!(decode_benc(b"de "), Ok((Benc::D(BDict::new()), &b" "[..])));
    assert_eq!(
        decode_bencoded_string(b"5:Hello World!"),
        Ok((b"Hello".to_vec(), &b" World!"[..]))
    );
    assert_eq!(decode_i64(b"i7e0:"), Ok((Benc::I(7), &b"0:"[..])));
    assert_eq!(decode_string(b"0:0:"), Ok((Benc::S(Vec::new()), &b"0:"[..])));
    assert_eq!(decode_list(b"lele"), Ok((Benc::L(Vec::new()), &b"le"[..])));
    assert_eq!(decode_dictionary(b"dede"), Ok((Benc::D(BDict::new()), &b"de"[..])));
}

#[test]
fn decode_exact_refuses_trailing_data() {
    assert_eq!(decode_exact(b"i1ei2e", 8), Err(DecodeError::TrailingData));
    assert_eq!(parse_benc(b"4:spamX"), Err(DecodeError::TrailingData));
    assert_eq!(parse_benc(b"lee"), Err(DecodeError::TrailingData));
    assert_eq!(parse_bencoded_string(b"5:Hello World!"), Err(DecodeError::TrailingData));
    assert_eq!(parse_string_to_benc(b"0:0:"), Err(DecodeError::TrailingData));
    assert_eq!(parse_i64_to_benc(b"i7e0:"), Err(DecodeError::TrailingData));
    assert_eq!(parse_bencoded_list(b"lele"), Err(DecodeError::TrailingData));
    assert_eq!(parse_bencoded_dictionary(b"dede"), Err(DecodeError::TrailingData));
    assert_eq!(parse_benc(b"i1e"), Ok(Benc::I(1)));
}

#[test]
fn decode_exact_reports_the_first_error() {
    assert_eq!(decode_exact(b"i1", 8), Err(DecodeError::UnexpectedEof));
    assert_eq!(decode_exact(b"5:abc", 8), Err(DecodeError::TruncatedString));
    assert_eq!(decode_exact(b"lle", 8), Err(DecodeError::MissingTerminator));
}

#[test]
fn decode_unexpected_eof() {
    assert_eq!(decode_benc(b""), Err(DecodeError::UnexpectedEof));
    assert_eq!(decode_benc(b"i"), Err(DecodeError::UnexpectedEof));
    assert_eq!(decode_benc(b"i-"), Err(DecodeError::UnexpectedEof));
    assert_eq!(decode_benc(b"i12"), Err(DecodeError::UnexpectedEof));
    assert_eq!(decode_benc(b"12"), Err(DecodeError::UnexpectedEof));
    assert_eq!(decode_benc(b"d1:a"), Err(DecodeError::UnexpectedEof));
    assert_eq!(decode_benc(b"li5"), Err(DecodeError::UnexpectedEof));
    assert_eq!(decode_bencoded_string(b""), Err(DecodeError::UnexpectedEof));
    assert_eq!(decode_i64(b""), Err(DecodeError::UnexpectedEof));
    assert_eq!(decode_list(b""), Err(DecodeError::UnexpectedEof));
    assert_eq!(decode_dictionary(b""), Err(DecodeError::UnexpectedEof));
}

#[test]
fn decode_invalid_length_prefix() {
    assert_eq!(decode_benc(b"x"), Err(DecodeError::InvalidLengthPrefix));
    assert_eq!(decode_benc(b"e"), Err(DecodeError::InvalidLengthPrefix));
    assert_eq!(decode_benc(b":abc"), Err(DecodeError::InvalidLengthPrefix));
    assert_eq!(decode_benc(b"-1:a"), Err(DecodeError::InvalidLengthPrefix));
    assert_eq!(decode_benc(b"01:a"), Err(DecodeError::InvalidLengthPrefix));
    assert_eq!(decode_benc(b"00:"), Err(DecodeError::InvalidLengthPrefix));
    assert_eq!(decode_benc(b"4spam"), Err(DecodeError::InvalidLengthPrefix));
    assert_eq!(decode_benc(b"4 :spam"), Err(DecodeError::InvalidLengthPrefix));
    assert_eq!(decode_benc(b"di1ei2ee"), Err(DecodeError::InvalidLengthPrefix));
    assert_eq!(decode_benc(b"d1:ae"), Err(DecodeError::InvalidLengthPrefix));
    assert_eq!(decode_benc(b"lxe"), Err(DecodeError::InvalidLengthPrefix));
    assert_eq!(decode_bencoded_string(&[0, 58, 0, 1, 2, 3]), Err(DecodeError::InvalidLengthPrefix));
    assert_eq!(decode_bencoded_string(b"i0e"), Err(DecodeError::InvalidLengthPrefix));
    assert_eq!(decode_string(b"le"), Err(DecodeError::InvalidLengthPrefix));
}

#[test]
fn decode_length_that_no_input_can_hold() {
    assert_eq!(decode_benc(b"18446744073709551615:a"), Err(DecodeError::TruncatedString));
    assert_eq!(decode_benc(b"18446744073709551616:a"), Err(DecodeError::TruncatedString));
    assert_eq!(
        decode_benc(b"99999999999999999999999999999999999999:a"),
        Err(DecodeError::TruncatedString)
    );
    assert_eq!(
        decode_benc(b"99999999999999999999999999999999999999a"),
        Err(DecodeError::InvalidLengthPrefix)
    );
    assert_eq!(
        decode_benc(b"99999999999999999999999999999999999999"),
        Err(DecodeError::UnexpectedEof)
    );
}

#[test]
fn decode_malformed_integer() {
    assert_eq!(decode_benc(b"ie"), Err(DecodeError::MalformedInteger));
    assert_eq!(decode_benc(b"i-e"), Err(DecodeError::MalformedInteger));
    assert_eq!(decode_benc(b"i--1e"), Err(DecodeError::MalformedInteger));
    assert_eq!(decode_benc(b"i+1e"), Err(DecodeError::MalformedInteger));
    assert_eq!(decode_benc(b"i1x"), Err(DecodeError::MalformedInteger));
    assert_eq!(decode_benc(b"i1 e"), Err(DecodeError::MalformedInteger));
    assert_eq!(decode_benc(b"i 1e"), Err(DecodeError::MalformedInteger));
    assert_eq!(decode_benc(b"i1.5e"), Err(DecodeError::MalformedInteger));
    assert_eq!(decode_benc(b"i00e"), Err(DecodeError::MalformedInteger));
    assert_eq!(decode_benc(b"i01e"), Err(DecodeError::MalformedInteger));
    assert_eq!(decode_benc(b"i-01e"), Err(DecodeError::MalformedInteger));
    assert_eq!(decode_benc(b"i-00e"), Err(DecodeError::MalformedInteger));
    assert_eq!(decode_i64(b"5:Hello"), Err(DecodeError::MalformedInteger));
    assert_eq!(decode_i64(b"le"), Err(DecodeError::MalformedInteger));
}

#[test]
fn decode_integer_range() {
    assert_eq!(decode_benc(b"i9223372036854775807e"), Ok((Benc::I(i64::MAX), nothing())));
    assert_eq!(decode_benc(b"i-9223372036854775808e"), Ok((Benc::I(i64::MIN), nothing())));
    assert_eq!(decode_benc(b"i-9223372036854775807e"), Ok((Benc::I(i64::MIN + 1), nothing())));
    assert_eq!(decode_benc(b"i9223372036854775808e"), Err(DecodeError::MalformedInteger));
    assert_eq!(decode_benc(b"i-9223372036854775809e"), Err(DecodeError::MalformedInteger));
    assert_eq!(decode_benc(b"i18446744073709551615e"), Err(DecodeError::MalformedInteger));
    assert_eq!(decode_benc(b"i18446744073709551616e"), Err(DecodeError::MalformedInteger));
    assert_eq!(decode_benc(b"i-18446744073709551616e"), Err(DecodeError::MalformedInteger));
    assert_eq!(
        decode_benc(b"i123456789012345678901234567890e"),
        Err(DecodeError::MalformedInteger)
    );
}

#[test]
fn decode_missing_terminator() {
    assert_eq!(decode_benc(b"l"), Err(DecodeError::MissingTerminator));
    assert_eq!(decode_benc(b"d"), Err(DecodeError::MissingTerminator));
    assert_eq!(decode_benc(b"li1e"), Err(DecodeError::MissingTerminator));
    assert_eq!(decode_benc(b"l4:spam"), Err(DecodeError::MissingTerminator));
    assert_eq!(decode_benc(b"d1:ai1e"), Err(DecodeError::MissingTerminator));
    assert_eq!(decode_benc(b"llee"), Ok((Benc::L(vec![Benc::L(Vec::new())]), nothing())));
    assert_eq!(decode_benc(b"lle"), Err(DecodeError::MissingTerminator));
    assert_eq!(decode_list(b"5:Hello"), Err(DecodeError::MissingTerminator));
    assert_eq!(decode_list(b"de"), Err(DecodeError::MissingTerminator));
    assert_eq!(decode_dictionary(b"le"), Err(DecodeError::MissingTerminator));
    assert_eq!(decode_dictionary(b"i0e"), Err(DecodeError::MissingTerminator));
}

#[test]
fn decode_string_need_not_be_text() {
    let input: Vec<u8> = vec![b'4', b':', 0, 255, 128, b'e', b'i', b'1', b'e'];
    assert_eq!(decode_benc(&input), Ok((Benc::S(vec![0, 255, 128, b'e']), &b"i1e"[..])));
}

#[test]
fn decode_string_may_hold_grammar_bytes() {
    assert_eq!(parse_benc(b"6:i1elde"), Ok(Benc::S(b"i1elde".to_vec())));
    assert_eq!(
        parse_benc(b"l2:lee"),
        Ok(Benc::L(vec![Benc::S(b"le".to_vec())]))
    );
}

#[test]
fn decode_does_not_change_the_input() {
    let input = b"d1:ai1e1:ai2ee".to_vec();
    let copy = input.clone();
    let _ = decode_benc(&input);
    let _ = decode_benc(b"5:abc");
    assert_eq!(input, copy);
}

#[test]
fn decode_is_repeatable() {
    let input = b"d1:bli1ei2ee1:a0:e";
    assert_eq!(decode_benc(input), decode_benc(input));
    assert_eq!(decode_benc(b"i04e"), decode_benc(b"i04e"));
}

#[test]
fn decode_nested_value() {
    let expected = dict_of(vec![
        (b"A", Benc::L(vec![Benc::I(0), dict_of(vec![(b"x", Benc::L(Vec::new()))])])),
        (b"B", Benc::S(b"Hello".to_vec())),
    ]);
    assert_eq!(parse_benc(b"d1:Ali0ed1:xleee1:B5:Helloe"), Ok(expected));
}
