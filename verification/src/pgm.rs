//! Binary PGM (P5, 8-bit grayscale) images: header tokens, decimal numbers and the pixel body.
//!
//! A header is a sequence of tokens separated by whitespace, where a `#` starts a comment that
//! runs to the end of its line: the magic `P5`, the width, the height and the largest pixel value.
//! One whitespace byte follows the last token; then come `width * height` pixel bytes.
use vstd::prelude::*;

verus! {

/// Bytes that count as whitespace: those whose `char` is whitespace in Unicode
/// (tab, line feed, vertical tab, form feed, carriage return, space, next line, no-break space).
pub open spec fn is_space(b: u8) -> bool {
    (9 <= b && b <= 13) || b == 32 || b == 0x85 || b == 0xa0
}

/// The byte `#`, which starts a comment.
pub open spec fn is_hash(b: u8) -> bool {
    b == 35
}

/// The byte of a line feed, which ends a comment.
pub open spec fn is_newline(b: u8) -> bool {
    b == 10
}

/// Where the next token starts: whitespace and comments from `pos` on are skipped.
/// `in_comment` says that a comment has been opened and not yet ended by a line feed.
pub open spec fn skip_blank(data: Seq<u8>, pos: int, in_comment: bool) -> int
    decreases data.len() - pos, if in_comment {
        1int
    } else {
        0int
    },
{
    if in_comment {
        if 0 <= pos < data.len() && !is_newline(data[pos]) {
            skip_blank(data, pos + 1, true)
        } else {
            skip_blank(data, pos, false)
        }
    } else if 0 <= pos < data.len() && is_space(data[pos]) {
        skip_blank(data, pos + 1, false)
    } else if 0 <= pos < data.len() && is_hash(data[pos]) {
        skip_blank(data, pos + 1, true)
    } else {
        pos
    }
}

/// Where a token that starts at `pos` ends: at the first whitespace byte or at the end of the data.
pub open spec fn token_end(data: Seq<u8>, pos: int) -> int
    decreases data.len() - pos,
{
    if 0 <= pos < data.len() && !is_space(data[pos]) {
        token_end(data, pos + 1)
    } else {
        pos
    }
}

/// Why a PGM image was refused.
#[derive(Debug)]
pub enum PgmError {
    /// The header ended before one of its four tokens.
    UnexpectedEnd,
    /// The magic token is not `P5`; it is given.
    UnsupportedFormat(Vec<u8>),
    /// The width, the height or the largest pixel value is not a decimal number that fits.
    InvalidNumber(NumberError),
    /// The largest pixel value is over 255.
    MaxvalTooLarge,
}

/// Why a token is not a decimal number.
#[derive(Debug, Clone, Copy, PartialEq, Eq)]
pub enum NumberError {
    /// The token is empty.
    Empty,
    /// A byte is not a decimal digit (after an optional leading `+`).
    InvalidDigit,
    /// The number is larger than `usize::MAX`.
    PosOverflow,
}

/// What a refusal says, with the magic token as a sequence.
pub enum PgmFault {
    UnexpectedEnd,
    UnsupportedFormat(Seq<u8>),
    InvalidNumber(NumberError),
    MaxvalTooLarge,
}

impl PgmError {
    /// The refusal as a spec value.
    pub open spec fn fault(self) -> PgmFault {
        match self {
            PgmError::UnexpectedEnd => PgmFault::UnexpectedEnd,
            PgmError::UnsupportedFormat(m) => PgmFault::UnsupportedFormat(m@),
            PgmError::InvalidNumber(k) => PgmFault::InvalidNumber(k),
            PgmError::MaxvalTooLarge => PgmFault::MaxvalTooLarge,
        }
    }
}

/// The next token from `pos` on and the position after it: an error where no token is left.
pub open spec fn spec_read_token(data: Seq<u8>, pos: int) -> (Result<Seq<u8>, PgmFault>, int) {
    let start = skip_blank(data, pos, false);
    let end = token_end(data, start);
    if start == end {
        (Err(PgmFault::UnexpectedEnd), end)
    } else {
        (Ok(data.subrange(start, end)), end)
    }
}

/// Decides whether `b` is whitespace in the sense of `is_space`.
pub fn is_space_byte(b: u8) -> (r: bool)
    ensures
        r == is_space(b),
{
    (9 <= b && b <= 13) || b == 32 || b == 0x85 || b == 0xa0
}

/// Proof that `skip_blank` moves forward and stays within reach of the data.
pub proof fn lemma_skip_blank_bounds(data: Seq<u8>, pos: int, in_comment: bool)
    requires
        0 <= pos,
    ensures
        pos <= skip_blank(data, pos, in_comment),
        pos <= data.len() ==> skip_blank(data, pos, in_comment) <= data.len(),
        pos > data.len() ==> skip_blank(data, pos, in_comment) == pos,
    decreases data.len() - pos, if in_comment {
        1int
    } else {
        0int
    },
{
    if in_comment {
        if 0 <= pos < data.len() && !is_newline(data[pos]) {
            lemma_skip_blank_bounds(data, pos + 1, true);
        } else {
            lemma_skip_blank_bounds(data, pos, false);
        }
    } else if 0 <= pos < data.len() && is_space(data[pos]) {
        lemma_skip_blank_bounds(data, pos + 1, false);
    } else if 0 <= pos < data.len() && is_hash(data[pos]) {
        lemma_skip_blank_bounds(data, pos + 1, true);
    }
}

/// Proof that a token ends at or after its start, and within the data where it starts there.
pub proof fn lemma_token_end_bounds(data: Seq<u8>, pos: int)
    requires
        0 <= pos,
    ensures
        pos <= token_end(data, pos),
        pos <= data.len() ==> token_end(data, pos) <= data.len(),
        pos > data.len() ==> token_end(data, pos) == pos,
        forall|i: int| pos <= i < token_end(data, pos) ==> !is_space(#[trigger] data[i]),
        0 <= token_end(data, pos) < data.len() ==> is_space(data[token_end(data, pos)]),
    decreases data.len() - pos,
{
    if 0 <= pos < data.len() && !is_space(data[pos]) {
        lemma_token_end_bounds(data, pos + 1);
    }
}

/// Reads the next whitespace-separated header token, skipping comments that start with `#`.
///
/// `pos` ends after the token, or where the search for one stopped.
pub fn read_token(data: &[u8], pos: &mut usize) -> (r: Result<Vec<u8>, PgmError>)
    ensures
        spec_read_token(data@, *old(pos) as int).1 == *final(pos) as int,
        match spec_read_token(data@, *old(pos) as int).0 {
            Ok(t) => r matches Ok(tok) && tok@ == t,
            Err(f) => r matches Err(e) && e == PgmError::UnexpectedEnd,
        },
{
    let ghost start_spec = skip_blank(data@, *pos as int, false);
    proof {
        lemma_skip_blank_bounds(data@, *pos as int, false);
    }
    loop
        invariant_except_break
            skip_blank(data@, *pos as int, false) == start_spec,
        ensures
            *pos as int == start_spec,
        decreases data@.len() - *pos,
    {
        let ghost p0 = *pos;
        while *pos < data.len() && is_space_byte(data[*pos])
            invariant
                p0 <= *pos,
                skip_blank(data@, *pos as int, false) == start_spec,
            decreases data@.len() - *pos,
        {
            *pos = *pos + 1;
        }
        if *pos < data.len() && data[*pos] == 35 {
            *pos = *pos + 1;
            while *pos < data.len() && data[*pos] != 10
                invariant
                    p0 < *pos <= data@.len(),
                    skip_blank(data@, *pos as int, true) == start_spec,
                decreases data@.len() - *pos,
            {
                *pos = *pos + 1;
            }
        } else {
            break;
        }
    }
    let start = *pos;
    proof {
        lemma_token_end_bounds(data@, start as int);
    }
    while *pos < data.len() && !is_space_byte(data[*pos])
        invariant
            start <= *pos,
            *pos == start || *pos <= data@.len(),
            token_end(data@, *pos as int) == token_end(data@, start as int),
        decreases data@.len() - *pos,
    {
        *pos = *pos + 1;
    }
    if start == *pos {
        return Err(PgmError::UnexpectedEnd);
    }
    let mut tok: Vec<u8> = Vec::new();
    let mut i = start;
    while i < *pos
        invariant
            start <= i <= *pos <= data@.len(),
            tok@ == data@.subrange(start as int, i as int),
        decreases *pos - i,
    {
        tok.push(data[i]);
        i = i + 1;
    }
    Ok(tok)
}

/// A decimal digit.
pub open spec fn is_digit(b: u8) -> bool {
    48 <= b && b <= 57
}

/// Reads the first `n` bytes of `d` as decimal digits from left to right; the first byte that is
/// not a digit, or the first digit after which the value passes `usize::MAX`, stops with an error.
pub open spec fn scan_digits(d: Seq<u8>, n: int) -> Result<int, NumberError>
    decreases n,
{
    if n <= 0 {
        Ok(0)
    } else {
        match scan_digits(d, n - 1) {
            Err(e) => Err(e),
            Ok(v) => if !is_digit(d[n - 1]) {
                Err(NumberError::InvalidDigit)
            } else if v * 10 + (d[n - 1] - 48) > usize::MAX {
                Err(NumberError::PosOverflow)
            } else {
                Ok(v * 10 + (d[n - 1] - 48))
            },
        }
    }
}

/// The digits of an unsigned decimal number: the token without a leading `+`.
pub open spec fn unsigned_digits(tok: Seq<u8>) -> Seq<u8> {
    if tok.len() > 0 && tok[0] == 43 {
        tok.drop_first()
    } else {
        tok
    }
}

/// A token read as an unsigned decimal number: an optional `+`, then at least one digit.
/// A lone sign is an invalid digit, and so is a `-` in front.
pub open spec fn spec_parse_usize(tok: Seq<u8>) -> Result<usize, NumberError> {
    if tok.len() == 0 {
        Err(NumberError::Empty)
    } else if tok.len() == 1 && (tok[0] == 43 || tok[0] == 45) {
        Err(NumberError::InvalidDigit)
    } else {
        let d = unsigned_digits(tok);
        match scan_digits(d, d.len() as int) {
            Ok(v) => Ok(v as usize),
            Err(e) => Err(e),
        }
    }
}

/// Proof that a scan value stays within `usize`.
proof fn lemma_scan_digits_range(d: Seq<u8>, n: int)
    ensures
        scan_digits(d, n) matches Ok(v) ==> 0 <= v <= usize::MAX,
    decreases n,
{
    if n > 0 {
        lemma_scan_digits_range(d, n - 1);
    }
}

/// Proof that once a scan stops with an error, reading more bytes gives the same error.
proof fn lemma_scan_digits_err_stays(d: Seq<u8>, k: int, n: int)
    requires
        k <= n,
        scan_digits(d, k) is Err,
    ensures
        scan_digits(d, n) == scan_digits(d, k),
    decreases n - k,
{
    if k < n {
        lemma_scan_digits_err_stays(d, k, n - 1);
    }
}

/// Reads a token as an unsigned decimal number.
pub fn parse_usize(tok: &[u8]) -> (r: Result<usize, NumberError>)
    ensures
        r == spec_parse_usize(tok@),
{
    if tok.len() == 0 {
        return Err(NumberError::Empty);
    }
    if tok.len() == 1 && (tok[0] == 43 || tok[0] == 45) {
        return Err(NumberError::InvalidDigit);
    }
    let first: usize = if tok[0] == 43 {
        1
    } else {
        0
    };
    let ghost d = unsigned_digits(tok@);
    assert(d =~= tok@.subrange(first as int, tok@.len() as int));
    let mut v: usize = 0;
    let mut i: usize = first;
    while i < tok.len()
        invariant
            tok@.len() > 0,
            d == unsigned_digits(tok@),
            !(tok@.len() == 1 && (tok@[0] == 43 || tok@[0] == 45)),
            first <= i <= tok@.len(),
            d == tok@.subrange(first as int, tok@.len() as int),
            scan_digits(d, i - first) == Ok::<int, NumberError>(v as int),
        decreases tok@.len() - i,
    {
        let c = tok[i];
        assert(d[i - first] == c);
        if c < 48 || c > 57 {
            assert(scan_digits(d, i - first + 1) == Err::<int, NumberError>(NumberError::InvalidDigit));
            proof {
                lemma_scan_digits_err_stays(d, i - first + 1, d.len() as int);
            }
            return Err(NumberError::InvalidDigit);
        }
        let digit = (c - 48) as usize;
        match v.checked_mul(10) {
            None => {
                assert(scan_digits(d, i - first + 1) == Err::<int, NumberError>(NumberError::PosOverflow));
                proof {
                    lemma_scan_digits_err_stays(d, i - first + 1, d.len() as int);
                }
                return Err(NumberError::PosOverflow);
            },
            Some(m) => match m.checked_add(digit) {
                None => {
                    assert(scan_digits(d, i - first + 1) == Err::<int, NumberError>(NumberError::PosOverflow));
                    proof {
                        lemma_scan_digits_err_stays(d, i - first + 1, d.len() as int);
                    }
                    return Err(NumberError::PosOverflow);
                },
                Some(n) => {
                    v = n;
                },
            },
        }
        i = i + 1;
    }
    Ok(v)
}

/// The next token from `pos` on, read as an unsigned decimal number, and the position after it.
pub open spec fn spec_read_number(data: Seq<u8>, pos: int) -> (Result<usize, PgmFault>, int) {
    let t = spec_read_token(data, pos);
    match t.0 {
        Err(f) => (Err(f), t.1),
        Ok(tok) => match spec_parse_usize(tok) {
            Ok(n) => (Ok(n), t.1),
            Err(k) => (Err(PgmFault::InvalidNumber(k)), t.1),
        },
    }
}

/// The header of a binary PGM image.
#[derive(Debug, Clone, Copy, PartialEq, Eq, Structural)]
pub struct PgmHeader {
    pub width: usize,
    pub height: usize,
    pub maxval: usize,
    /// The position just after the last header token.
    pub header_end: usize,
}

/// The magic token of a binary PGM image: `P5`.
pub open spec fn pgm_magic() -> Seq<u8> {
    seq![80u8, 53u8]
}

/// The header of a binary PGM image: the magic `P5`, the width, the height and the largest
/// pixel value, which must be at most 255.
pub open spec fn spec_pgm_header(data: Seq<u8>) -> Result<PgmHeader, PgmFault> {
    let m = spec_read_token(data, 0);
    match m.0 {
        Err(f) => Err(f),
        Ok(magic) => if magic != pgm_magic() {
            Err(PgmFault::UnsupportedFormat(magic))
        } else {
            let w = spec_read_number(data, m.1);
            match w.0 {
                Err(f) => Err(f),
                Ok(width) => {
                    let h = spec_read_number(data, w.1);
                    match h.0 {
                        Err(f) => Err(f),
                        Ok(height) => {
                            let mv = spec_read_number(data, h.1);
                            match mv.0 {
                                Err(f) => Err(f),
                                Ok(maxval) => if maxval > 255 {
                                    Err(PgmFault::MaxvalTooLarge)
                                } else {
                                    Ok(
                                        PgmHeader {
                                            width,
                                            height,
                                            maxval,
                                            header_end: mv.1 as usize,
                                        },
                                    )
                                },
                            }
                        },
                    }
                },
            }
        },
    }
}

/// Reads the next header token as an unsigned decimal number.
fn read_number(data: &[u8], pos: &mut usize) -> (r: Result<usize, PgmError>)
    ensures
        spec_read_number(data@, *old(pos) as int).1 == *final(pos) as int,
        match spec_read_number(data@, *old(pos) as int).0 {
            Ok(n) => r == Ok::<usize, PgmError>(n),
            Err(f) => r matches Err(e) && e.fault() == f,
        },
{
    let tok = read_token(data, pos)?;
    match parse_usize(tok.as_slice()) {
        Ok(n) => Ok(n),
        Err(k) => Err(PgmError::InvalidNumber(k)),
    }
}

/// Proof that the positions after header tokens stay within the data.
proof fn lemma_read_token_end(data: Seq<u8>, pos: int)
    requires
        0 <= pos <= data.len(),
    ensures
        pos <= spec_read_token(data, pos).1 <= data.len(),
{
    lemma_skip_blank_bounds(data, pos, false);
    lemma_token_end_bounds(data, skip_blank(data, pos, false));
}

/// Reads the header of a binary PGM image.
pub fn parse_pgm_header(data: &[u8]) -> (r: Result<PgmHeader, PgmError>)
    ensures
        match spec_pgm_header(data@) {
            Ok(h) => r == Ok::<PgmHeader, PgmError>(h),
            Err(f) => r matches Err(e) && e.fault() == f,
        },
{
    let mut pos: usize = 0;
    let magic = read_token(data, &mut pos)?;
    if !(magic.len() == 2 && magic[0] == 80 && magic[1] == 53) {
        assert(magic@ != pgm_magic());
        return Err(PgmError::UnsupportedFormat(magic));
    }
    assert(magic@ =~= pgm_magic());
    proof {
        lemma_read_token_end(data@, 0);
    }
    let ghost p1 = pos;
    let width = read_number(data, &mut pos)?;
    proof {
        lemma_read_token_end(data@, p1 as int);
    }
    let ghost p2 = pos;
    let height = read_number(data, &mut pos)?;
    proof {
        lemma_read_token_end(data@, p2 as int);
    }
    let maxval = read_number(data, &mut pos)?;
    if maxval > 255 {
        return Err(PgmError::MaxvalTooLarge);
    }
    Ok(PgmHeader { width, height, maxval, header_end: pos })
}

/// The pixel body of an image fits in the data: one whitespace byte after the header, then
/// `width * height` bytes. Images whose header is refused fit trivially.
pub open spec fn pgm_body_fits(data: Seq<u8>) -> bool {
    match spec_pgm_header(data) {
        Ok(h) => h.header_end + 1 + h.width * h.height <= data.len(),
        Err(_) => true,
    }
}

/// The pixels of an image whose header is `h`: the `width * height` bytes after the one
/// whitespace byte that ends the header.
pub open spec fn pgm_pixels(data: Seq<u8>, h: PgmHeader) -> Seq<u8> {
    data.subrange(h.header_end + 1, h.header_end + 1 + h.width * h.height)
}

/// Reads a binary PGM image: its width, its height and its pixels, row by row from the top.
pub fn read_pgm(data: &[u8]) -> (r: Result<(usize, usize, Vec<u8>), PgmError>)
    requires
        pgm_body_fits(data@),
    ensures
        match spec_pgm_header(data@) {
            Ok(h) => r matches Ok(img) && img.0 == h.width && img.1 == h.height && img.2@
                == pgm_pixels(data@, h),
            Err(f) => r matches Err(e) && e.fault() == f,
        },
{
    let header = parse_pgm_header(data)?;
    assert(spec_pgm_header(data@) == Ok::<PgmHeader, PgmFault>(header));
    assert(header.header_end + 1 + header.width * header.height <= data@.len());
    assert(header.width * header.height >= 0) by (nonlinear_arith);
    // The length of the data bounds the arithmetic below.
    let _data_len = data.len();
    let start = header.header_end + 1;
    let len = header.width * header.height;
    let end = start + len;
    let mut pixels: Vec<u8> = Vec::with_capacity(len);
    let mut i = start;
    while i < end
        invariant
            start <= i <= end <= data@.len(),
            pixels@ == data@.subrange(start as int, i as int),
        decreases end - i,
    {
        pixels.push(data[i]);
        i = i + 1;
    }
    Ok((header.width, header.height, pixels))
}

} // verus!
