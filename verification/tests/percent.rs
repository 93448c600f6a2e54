use rofis::percent::{hex_value, percent_decode};

#[test]
fn escapes_become_bytes() {
    assert_eq!(percent_decode(b"/a%20b"), b"/a b".to_vec());
    assert_eq!(percent_decode(b"%41%42%43"), b"ABC".to_vec());
    assert_eq!(percent_decode(b"%e9%E9%00%fF"), vec![0xe9, 0xe9, 0x00, 0xff]);
    assert_eq!(percent_decode(b""), Vec::<u8>::new());
    assert_eq!(percent_decode(b"plain"), b"plain".to_vec());
}

#[test]
fn escapes_are_read_from_the_left_and_once() {
    assert_eq!(percent_decode(b"%2541"), b"%41".to_vec());
    assert_eq!(percent_decode(b"%%41"), b"%A".to_vec());
    assert_eq!(percent_decode(b"%4%41"), b"%4A".to_vec());
}

#[test]
fn percent_sign_without_two_digits_stands_for_itself() {
    assert_eq!(percent_decode(b"%"), b"%".to_vec());
    assert_eq!(percent_decode(b"%4"), b"%4".to_vec());
    assert_eq!(percent_decode(b"a%zzb"), b"a%zzb".to_vec());
    assert_eq!(percent_decode(b"%4g"), b"%4g".to_vec());
    assert_eq!(percent_decode(b"%g4"), b"%g4".to_vec());
}

#[test]
fn hexadecimal_digits() {
    assert_eq!(hex_value(b'0'), Some(0));
    assert_eq!(hex_value(b'9'), Some(9));
    assert_eq!(hex_value(b'a'), Some(10));
    assert_eq!(hex_value(b'f'), Some(15));
    assert_eq!(hex_value(b'A'), Some(10));
    assert_eq!(hex_value(b'F'), Some(15));
    assert_eq!(hex_value(b'g'), None);
    assert_eq!(hex_value(b'G'), None);
    assert_eq!(hex_value(b'/'), None);
    assert_eq!(hex_value(b':'), None);
    assert_eq!(hex_value(b'@'), None);
    assert_eq!(hex_value(b'`'), None);
}
