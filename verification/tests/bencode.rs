use nreplops_tool::bencode::{scan_next, Error, ObjType};

#[test]
fn bad_input() {
    // Just trash
    assert_eq!(scan_next(b"trash"), Err(Error::BadInput));

    // Illegal integer
    assert_eq!(scan_next(b"i+1e"), Err(Error::BadInput));
    assert_eq!(scan_next(b"i-0e"), Err(Error::BadInput));
    assert_eq!(scan_next(b"i01e"), Err(Error::BadInput));
}

#[test]
fn partial_input() {
    // Empty input
    assert_eq!(scan_next(b""), Err(Error::UnexpectedEnd));

    // Partial integer
    assert_eq!(scan_next(b"i12345"), Err(Error::UnexpectedEnd));

    // Partial byte string
    assert_eq!(scan_next(b"1:"), Err(Error::UnexpectedEnd));
    assert_eq!(scan_next(b"4:foo"), Err(Error::UnexpectedEnd));
}

#[test]
fn integer() {
    assert_eq!(scan_next(b"i0e"), Ok((ObjType::Integer, 3)));
    assert_eq!(scan_next(b"i1e"), Ok((ObjType::Integer, 3)));
    assert_eq!(scan_next(b"i-1e"), Ok((ObjType::Integer, 4)));
    assert_eq!(scan_next(b"i12345e"), Ok((ObjType::Integer, 7)));
}

#[test]
fn byte_string() {
    // Apparently this is okay
    assert_eq!(scan_next(b"0:"), Ok((ObjType::ByteString, 2)));
    assert_eq!(scan_next(b"3:foo"), Ok((ObjType::ByteString, 5)));
    // Apparently this is okay
    assert_eq!(scan_next(b"03:foo"), Ok((ObjType::ByteString, 6)));
    assert_eq!(scan_next(b"10:byte_string"), Ok((ObjType::ByteString, 13)));
}

#[test]
fn list() {
    assert_eq!(scan_next(b"le"), Ok((ObjType::List, 2)));
    assert_eq!(scan_next(b"li0ee"), Ok((ObjType::List, 5)));
    assert_eq!(scan_next(b"lli0eee"), Ok((ObjType::List, 7)));
}

#[test]
fn dictionary() {
    assert_eq!(scan_next(b"de"), Ok((ObjType::Dictionary, 2)));
    assert_eq!(scan_next(b"d3:fooi0ee"), Ok((ObjType::Dictionary, 10)));
    assert_eq!(
        scan_next(b"d3:bar0:3:fooi0ee"),
        Ok((ObjType::Dictionary, 17))
    );
}

#[test]
fn can_have_trailing_input() {
    assert_eq!(
        scan_next(b"d3:bar0:3:fooi0ee13:trailing_input"),
        Ok((ObjType::Dictionary, 17))
    );
}

#[test]
fn dictionary_keys_must_be_byte_strings() {
    assert_eq!(scan_next(b"di0ei0ee"), Err(Error::BadInput));
    assert_eq!(scan_next(b"d3:foo"), Err(Error::UnexpectedEnd));
}

#[test]
fn huge_byte_string_length_is_unexpected_end() {
    assert_eq!(
        scan_next(b"99999999999999999999999999:abc"),
        Err(Error::UnexpectedEnd)
    );
    assert_eq!(scan_next(b"12x"), Err(Error::BadInput));
}

#[test]
fn trailing_input_law_on_values() {
    let whole = b"li1ei2ee";
    let (_, n) = scan_next(whole).unwrap();
    let mut extended = whole.to_vec();
    extended.extend_from_slice(b"garbage");
    assert_eq!(scan_next(&extended), Ok((ObjType::List, n)));
    assert!(n > 0 && n <= whole.len());
}

#[test]
fn a_found_object_is_found_again_in_its_own_bytes() {
    let input = b"d3:foo4:spam3:bari-12ee5:trail";
    let (t, n) = scan_next(input).unwrap();
    assert_eq!(n, 23);
    assert_eq!(scan_next(&input[..n]), Ok((t, n)));
}
