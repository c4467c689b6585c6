use hiroz_nav::pgm::{
    is_space_byte, parse_pgm_header, parse_usize, read_pgm, read_token, NumberError, PgmError,
};

#[test]
fn space_bytes_match_char_whitespace() {
    for b in 0..=255u8 {
        assert_eq!(is_space_byte(b), (b as char).is_whitespace(), "byte {}", b);
    }
}

#[test]
fn read_token_skips_whitespace_and_comments() {
    let data = b"  P5\n# a comment 12 34\n  640 # trailing\n480\n255\n";
    let mut pos = 0usize;
    assert_eq!(read_token(data, &mut pos).unwrap(), b"P5".to_vec());
    assert_eq!(pos, 4);
    assert_eq!(read_token(data, &mut pos).unwrap(), b"640".to_vec());
    assert_eq!(read_token(data, &mut pos).unwrap(), b"480".to_vec());
    assert_eq!(read_token(data, &mut pos).unwrap(), b"255".to_vec());
    assert_eq!(pos, data.len() - 1);
    assert!(matches!(read_token(data, &mut pos), Err(PgmError::UnexpectedEnd)));
    assert_eq!(pos, data.len());
}

#[test]
fn read_token_at_or_past_end() {
    let data = b"abc";
    let mut pos = 3usize;
    assert!(matches!(read_token(data, &mut pos), Err(PgmError::UnexpectedEnd)));
    assert_eq!(pos, 3);
    let mut pos = 10usize;
    assert!(matches!(read_token(data, &mut pos), Err(PgmError::UnexpectedEnd)));
    assert_eq!(pos, 10);
}

#[test]
fn read_token_comment_to_end_of_data() {
    let data = b"   # only a comment";
    let mut pos = 0usize;
    assert!(matches!(read_token(data, &mut pos), Err(PgmError::UnexpectedEnd)));
    assert_eq!(pos, data.len());
}

#[test]
fn read_token_stops_at_latin1_whitespace() {
    let data = [b'a', b'b', 0xa0, b'c', 0x85, b'd'];
    let mut pos = 0usize;
    assert_eq!(read_token(&data, &mut pos).unwrap(), b"ab".to_vec());
    assert_eq!(read_token(&data, &mut pos).unwrap(), b"c".to_vec());
    assert_eq!(read_token(&data, &mut pos).unwrap(), b"d".to_vec());
}

fn std_kind(s: &str) -> Result<usize, NumberError> {
    match s.parse::<usize>() {
        Ok(v) => Ok(v),
        Err(e) => match e.kind() {
            std::num::IntErrorKind::Empty => Err(NumberError::Empty),
            std::num::IntErrorKind::InvalidDigit => Err(NumberError::InvalidDigit),
            std::num::IntErrorKind::PosOverflow => Err(NumberError::PosOverflow),
            _ => panic!("unexpected error kind"),
        },
    }
}

#[test]
fn parse_usize_matches_std() {
    let cases = [
        "", "0", "7", "42", "+42", "+", "-", "-0", "-5", "12a", "a12", "00017",
        "18446744073709551615", "18446744073709551616", "99999999999999999999x",
        "1x99999999999999999999", " 1", "1 ", "++1",
    ];
    for c in cases.iter() {
        assert_eq!(parse_usize(c.as_bytes()), std_kind(c), "case {:?}", c);
    }
}

#[test]
fn parse_usize_values() {
    assert_eq!(parse_usize(b"640"), Ok(640));
    assert_eq!(parse_usize(b"+9"), Ok(9));
    assert_eq!(parse_usize(b"x"), Err(NumberError::InvalidDigit));
    assert_eq!(parse_usize(b""), Err(NumberError::Empty));
}

fn image(header: &str, pixels: &[u8]) -> Vec<u8> {
    let mut v = header.as_bytes().to_vec();
    v.extend_from_slice(pixels);
    v
}

#[test]
fn header_of_small_image() {
    let data = image("P5\n# made by hand\n3 2\n255\n", &[1, 2, 3, 4, 5, 6]);
    let h = parse_pgm_header(&data).unwrap();
    assert_eq!(h.width, 3);
    assert_eq!(h.height, 2);
    assert_eq!(h.maxval, 255);
    assert_eq!(h.header_end, 25);
}

#[test]
fn read_pgm_returns_pixels() {
    let data = image("P5 3 2 255\n", &[1, 2, 3, 4, 5, 6, 7]);
    let (w, h, px) = read_pgm(&data).unwrap();
    assert_eq!((w, h), (3, 2));
    assert_eq!(px, vec![1, 2, 3, 4, 5, 6]);
}

#[test]
fn read_pgm_rejects_other_magic() {
    let data = image("P2 3 2 255\n", &[0; 6]);
    match read_pgm(&data) {
        Err(PgmError::UnsupportedFormat(m)) => assert_eq!(m, b"P2".to_vec()),
        other => panic!("unexpected {:?}", other),
    }
}

#[test]
fn read_pgm_rejects_large_maxval() {
    let data = image("P5 3 2 65535\n", &[0; 12]);
    assert!(matches!(read_pgm(&data), Err(PgmError::MaxvalTooLarge)));
}

#[test]
fn read_pgm_rejects_bad_number() {
    let data = image("P5 3x 2 255\n", &[0; 6]);
    assert!(matches!(read_pgm(&data), Err(PgmError::InvalidNumber(NumberError::InvalidDigit))));
    let data = image("P5 3 99999999999999999999999 255\n", &[]);
    assert!(matches!(read_pgm(&data), Err(PgmError::InvalidNumber(NumberError::PosOverflow))));
}

#[test]
fn read_pgm_rejects_short_header() {
    let data = b"P5 3 2".to_vec();
    assert!(matches!(read_pgm(&data), Err(PgmError::UnexpectedEnd)));
    let data = b"".to_vec();
    assert!(matches!(read_pgm(&data), Err(PgmError::UnexpectedEnd)));
}
