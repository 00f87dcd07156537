use bencode::decode::{decode, decode_exact, decode_exact_strict, decode_strict};
use bencode::encode::encode;
use bencode::grammar::DecodeError;
use bencode::value::{BDict, Benc};

fn dict_of(pairs: Vec<(&[u8], Benc)>) -> Benc {
    let mut dict = BDict::new();
    for (key, value) in pairs {
        dict.insert(key.to_vec(), value);
    }
    Benc::D(dict)
}

#[test]
fn strict_decoding_refuses_a_repeated_key() {
    assert_eq!(
        decode_strict(b"d1:ai1e1:ai2ee", 8),
        Err(DecodeError::DuplicateKeyPolicyViolation)
    );
    assert_eq!(
        decode_exact_strict(b"d1:ai1e1:ai1ee", 8),
        Err(DecodeError::DuplicateKeyPolicyViolation)
    );
    assert_eq!(
        decode_exact_strict(b"d1:ai1e1:bi1e1:bi1ee", 8),
        Err(DecodeError::DuplicateKeyPolicyViolation)
    );
}

#[test]
fn strict_decoding_refuses_keys_out_of_order() {
    assert_eq!(
        decode_strict(b"d1:bi1e1:ai2ee", 8),
        Err(DecodeError::DuplicateKeyPolicyViolation)
    );
    assert_eq!(
        decode_exact_strict(b"d4:spam4:eggs3:cow3:mooe", 8),
        Err(DecodeError::DuplicateKeyPolicyViolation)
    );
    assert_eq!(
        decode_exact_strict(b"d2:aai1e1:ai2ee", 8),
        Err(DecodeError::DuplicateKeyPolicyViolation)
    );
    assert_eq!(
        decode_exact_strict(b"d1:ai1e1:ci2e1:bi3ee", 8),
        Err(DecodeError::DuplicateKeyPolicyViolation)
    );
    assert_eq!(
        decode_exact_strict(b"d1:ai1e0:i2ee", 8),
        Err(DecodeError::DuplicateKeyPolicyViolation)
    );
}

#[test]
fn strict_decoding_looks_into_nested_dictionaries() {
    assert_eq!(
        decode_exact_strict(b"ld1:bi1e1:ai2eee", 8),
        Err(DecodeError::DuplicateKeyPolicyViolation)
    );
    assert_eq!(
        decode_exact_strict(b"d1:ad1:zi1e1:yi2eee", 8),
        Err(DecodeError::DuplicateKeyPolicyViolation)
    );
    assert_eq!(
        decode_exact_strict(b"d1:ad1:yi1e1:zi2eee", 8),
        Ok(dict_of(vec![(b"a", dict_of(vec![(b"y", Benc::I(1)), (b"z", Benc::I(2))]))]))
    );
}

#[test]
fn strict_decoding_accepts_canonical_input() {
    let inputs: Vec<&[u8]> = vec![
        b"0:",
        b"4:spam",
        b"i0e",
        b"i-1e",
        b"le",
        b"de",
        b"l4:spam4:eggse",
        b"d3:cow3:moo4:spam4:eggse",
        b"d1:Ali0ei1ee1:B5:Helloe",
        b"d0:i1e1:ai2e2:aai3e2:abi4e1:bi5ee",
    ];
    for input in inputs {
        let strict = decode_exact_strict(input, 8);
        assert_eq!(strict, decode_exact(input, 8));
        assert_eq!(encode(&strict.unwrap()), input.to_vec());
    }
}

#[test]
fn strict_decoding_returns_the_remaining_bytes() {
    assert_eq!(decode_strict(b"dei1e", 8), Ok((Benc::D(BDict::new()), &b"i1e"[..])));
    assert_eq!(
        decode_strict(b"d1:ai1eeXY", 8),
        Ok((dict_of(vec![(b"a", Benc::I(1))]), &b"XY"[..]))
    );
    assert_eq!(decode_exact_strict(b"dei1e", 8), Err(DecodeError::TrailingData));
}

#[test]
fn strict_decoding_agrees_with_lenient_on_other_errors() {
    let inputs: Vec<&[u8]> = vec![
        b"",
        b"i",
        b"i04e",
        b"i-0e",
        b"5:abc",
        b"01:a",
        b"x",
        b"l",
        b"d1:a",
        b"d1:ai1e",
        b"di1ei2ee",
        b"i9223372036854775808e",
    ];
    for input in inputs {
        assert_eq!(decode_strict(input, 8), decode(input, 8));
        assert!(decode_strict(input, 8).is_err());
    }
    assert_eq!(decode_strict(b"lllee", 2), Err(DecodeError::DepthExceeded));
    assert_eq!(decode_strict(b"d1:ad1:bdeee", 2), Err(DecodeError::DepthExceeded));
}

#[test]
fn strict_decoding_reports_an_error_inside_before_the_key_order() {
    assert_eq!(decode_strict(b"d1:bi1e1:ai04ee", 8), Err(DecodeError::MalformedInteger));
    assert_eq!(decode_strict(b"d1:bi1e1:ai4e", 8), Err(DecodeError::MissingTerminator));
    assert_eq!(decode_strict(b"d1:bi1e1:a5:abc", 8), Err(DecodeError::TruncatedString));
    assert_eq!(decode_strict(b"d1:bi1e1:alee", 1), Err(DecodeError::DepthExceeded));
}

#[test]
fn lenient_decoding_never_reports_the_key_order() {
    assert!(decode(b"d1:bi1e1:ai2ee", 8).is_ok());
    assert!(decode(b"d1:ai1e1:ai2ee", 8).is_ok());
    assert!(decode_exact(b"ld1:bi1e1:ai2e1:bi3eee", 8).is_ok());
}
