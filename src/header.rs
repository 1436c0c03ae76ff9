use vstd::prelude::*;
use vstd::slice::slice_to_vec;
use vstd::utf8::*;

use crate::errors::{BlockParseError, Field, FileParseError, HeaderError, LengthExceededError};

verus! {

/// Width of a header block in bytes.
pub const HEADER_SIZE: usize = 4377;

pub const NAME_WIDTH: usize = 255;

pub const SIZE_WIDTH: usize = 14;

pub const MTIME_WIDTH: usize = 12;

pub const PREFIX_WIDTH: usize = 4096;

pub const SIZE_BEGIN: usize = 255;

pub const MTIME_BEGIN: usize = 269;

pub const PREFIX_BEGIN: usize = 281;

/// The string error of `String::from_utf8`.
#[verifier::external_type_specification]
#[verifier::external_body]
pub struct ExFromUtf8Error(std::string::FromUtf8Error);

/// Number of bytes before the first zero byte of `s`, or all of them.
pub open spec fn text_len(s: Seq<u8>) -> nat
    decreases s.len(),
{
    if s.len() == 0 || s[0] == 0 {
        0
    } else {
        1 + text_len(s.drop_first())
    }
}

/// The text of a zero-padded field: its bytes up to the first zero byte.
pub open spec fn field_text(block: Seq<u8>, lower: int, upper: int) -> Seq<u8> {
    let s = block.subrange(lower, upper);
    s.take(text_len(s) as int)
}

/// `s` holds no zero byte.
pub open spec fn nul_free(s: Seq<u8>) -> bool {
    forall|i: int| 0 <= i < s.len() ==> s[i] != 0
}

pub proof fn lemma_text_len(s: Seq<u8>, k: int)
    requires
        0 <= k <= s.len(),
        nul_free(s.take(k)),
        k == s.len() || s[k] == 0,
    ensures
        text_len(s) == k,
    decreases s.len(),
{
    if k > 0 {
        assert(s.take(k)[0] == s[0]);
        let t = s.drop_first();
        assert forall|i: int| 0 <= i < k - 1 implies #[trigger] t.take(k - 1)[i] != 0 by {
            assert(s.take(k)[i + 1] == s[i + 1]);
        }
        lemma_text_len(t, k - 1);
    }
}

/// Relies on `String::from_utf8`: it succeeds exactly on valid UTF-8, and
/// then holds the characters that the bytes encode.
#[verifier::external_body]
fn string_from_utf8(v: Vec<u8>) -> (r: Result<String, std::string::FromUtf8Error>)
    ensures
        r is Ok <==> valid_utf8(v@),
        r is Ok ==> r->Ok_0@ == decode_utf8(v@),
{
    String::from_utf8(v)
}

/// Decodes the zero-padded text field `block[lower..upper]`: the bytes up to
/// the first zero byte, read as UTF-8.
pub fn read_block(block: &[u8], lower: usize, upper: usize) -> (r: Result<String, std::string::FromUtf8Error>)
    requires
        lower <= upper <= block@.len(),
    ensures
        r is Ok <==> valid_utf8(field_text(block@, lower as int, upper as int)),
        r is Ok ==> r->Ok_0@ == decode_utf8(field_text(block@, lower as int, upper as int)),
{
    let mut text: Vec<u8> = Vec::new();
    let mut i: usize = lower;
    while i < upper && block[i] != 0
        invariant
            lower <= i <= upper <= block@.len(),
            text@ == block@.subrange(lower as int, i as int),
            nul_free(text@),
        decreases upper - i,
    {
        text.push(block[i]);
        i = i + 1;
        assert(text@ == block@.subrange(lower as int, i as int));
    }
    proof {
        let s = block@.subrange(lower as int, upper as int);
        assert(s.take(i - lower) == text@);
        lemma_text_len(s, i - lower);
    }
    string_from_utf8(text)
}


/// `c` is an ASCII decimal digit.
pub open spec fn is_digit(c: char) -> bool {
    '0' <= c && c <= '9'
}

pub open spec fn all_digits(s: Seq<char>) -> bool {
    forall|i: int| 0 <= i < s.len() ==> is_digit(#[trigger] s[i])
}

/// The number that the decimal digits `s` stand for.
pub open spec fn digits_value(s: Seq<char>) -> nat
    decreases s.len(),
{
    if s.len() == 0 {
        0
    } else {
        digits_value(s.drop_last()) * 10 + ((s.last() as u32) - ('0' as u32)) as nat
    }
}

/// The digits of an unsigned number's text, after an optional leading `+`.
pub open spec fn unsigned_digits(s: Seq<char>) -> Seq<char> {
    if s.len() > 0 && s[0] == '+' {
        s.drop_first()
    } else {
        s
    }
}

/// What parsing `s` as a `u64` gives: an optional `+`, then one or more
/// decimal digits whose value fits in 64 bits.
pub open spec fn parse_u64_spec(s: Seq<char>) -> Option<u64> {
    let d = unsigned_digits(s);
    if d.len() > 0 && all_digits(d) && digits_value(d) <= u64::MAX {
        Some(digits_value(d) as u64)
    } else {
        None
    }
}

proof fn lemma_digits_value_grows(s: Seq<char>, k: int)
    requires
        0 <= k <= s.len(),
        all_digits(s),
    ensures
        digits_value(s.take(k)) <= digits_value(s),
    decreases s.len(),
{
    if k < s.len() {
        assert(s.drop_last().take(k) == s.take(k));
        assert(is_digit(s[s.len() - 1]));
        lemma_digits_value_grows(s.drop_last(), k);
    } else {
        assert(s.take(k) == s);
    }
}

/// Parses the text `s` as an unsigned 64-bit decimal number, as `u64`'s
/// `FromStr` does.
pub fn parse_u64(s: &str) -> (r: Option<u64>)
    ensures
        r == parse_u64_spec(s@),
{
    let n = s.unicode_len();
    let mut start: usize = 0;
    if n > 0 && s.get_char(0) == '+' {
        start = 1;
    }
    let ghost d = unsigned_digits(s@);
    assert(d == s@.subrange(start as int, n as int));
    if start == n {
        return None;
    }
    let mut v: u64 = 0;
    let mut i: usize = start;
    while i < n
        invariant
            start <= i <= n == s@.len(),
            d == s@.subrange(start as int, n as int),
            d == unsigned_digits(s@),
            all_digits(d.take(i - start)),
            v == digits_value(d.take(i - start)),
        decreases n - i,
    {
        let c = s.get_char(i);
        if !('0' <= c && c <= '9') {
            assert(!is_digit(d[i - start]));
            assert(!all_digits(d));
            return None;
        }
        let dv = ((c as u32) - ('0' as u32)) as u64;
        assert(d.take(i + 1 - start).drop_last() == d.take(i - start));
        assert(d.take(i + 1 - start).last() == c);
        assert(digits_value(d.take(i + 1 - start)) == v * 10 + dv);
        if v > 1844674407370955161 || (v == 1844674407370955161 && dv > 5) {
            proof {
                if all_digits(d) {
                    lemma_digits_value_grows(d, i + 1 - start);
                }
            }
            return None;
        }
        v = v * 10 + dv;
        i = i + 1;
    }
    assert(d.take(n - start) == d);
    Some(v)
}

/// The decimal text of `n`, as ASCII bytes without leading zeros.
pub open spec fn dec_bytes(n: nat) -> Seq<u8>
    decreases n,
{
    if n < 10 {
        seq![(48 + n) as u8]
    } else {
        dec_bytes(n / 10) + seq![(48 + n % 10) as u8]
    }
}

/// Appends the decimal text of `n` to `out`.
fn push_decimal(n: u64, out: &mut Vec<u8>)
    ensures
        final(out)@ == old(out)@ + dec_bytes(n as nat),
    decreases n,
{
    if n < 10 {
        out.push((48 + n) as u8);
    } else {
        push_decimal(n / 10, out);
        out.push((48 + n % 10) as u8);
    }
}

/// The decimal text of `n`.
pub fn decimal_text(n: u64) -> (r: Vec<u8>)
    ensures
        r@ == dec_bytes(n as nat),
{
    let mut out: Vec<u8> = Vec::new();
    push_decimal(n, &mut out);
    assert(out@ == dec_bytes(n as nat));
    out
}


/// Metadata of one archived file, together with the header block it is
/// encoded in.
#[derive(Clone, Debug)]
pub struct Header {
    /// Base name of the file.
    pub name: String,
    /// Size of the file in bytes.
    pub size: u64,
    /// Last modification time, in seconds since the Unix epoch.
    pub mtime: u64,
    /// Path of the file's parent directories; empty for a top-level file.
    pub prefix: String,
    /// The header block: each field zero-padded to its fixed width.
    pub bytes: Vec<u8>,
}

/// The mathematical value of a `Header`.
pub struct HeaderView {
    pub name: Seq<char>,
    pub size: u64,
    pub mtime: u64,
    pub prefix: Seq<char>,
    pub bytes: Seq<u8>,
}

impl View for Header {
    type V = HeaderView;

    open spec fn view(&self) -> HeaderView {
        HeaderView {
            name: self.name@,
            size: self.size,
            mtime: self.mtime,
            prefix: self.prefix@,
            bytes: self.bytes@,
        }
    }
}

/// Decoding of one text field; `field` names it in an error.
pub open spec fn decode_text(block: Seq<u8>, lower: int, upper: int, field: Field) -> Result<
    Seq<char>,
    BlockParseError,
> {
    let t = field_text(block, lower, upper);
    if valid_utf8(t) {
        Ok(decode_utf8(t))
    } else {
        Err(BlockParseError::FromUtf8Error(field))
    }
}

/// Decoding of one numeric field; `field` names it in an error.
pub open spec fn decode_number(block: Seq<u8>, lower: int, upper: int, field: Field) -> Result<
    u64,
    BlockParseError,
> {
    match decode_text(block, lower, upper, field) {
        Err(e) => Err(e),
        Ok(t) => match parse_u64_spec(t) {
            Some(n) => Ok(n),
            None => Err(BlockParseError::IntoU64Error(field)),
        },
    }
}

/// What a header block decodes to. The fields are decoded in the order
/// name, size, modification time, prefix; the first that fails decides the
/// error.
pub open spec fn decode_header(block: Seq<u8>) -> Result<HeaderView, BlockParseError> {
    match decode_text(block, 0, 255, Field::Name) {
        Err(e) => Err(e),
        Ok(name) => match decode_number(block, 255, 269, Field::Size) {
            Err(e) => Err(e),
            Ok(size) => match decode_number(block, 269, 281, Field::Mtime) {
                Err(e) => Err(e),
                Ok(mtime) => match decode_text(block, 281, 4377, Field::Prefix) {
                    Err(e) => Err(e),
                    Ok(prefix) => Ok(
                        HeaderView { name, size, mtime, prefix, bytes: block },
                    ),
                },
            },
        },
    }
}

fn decode_text_field(block: &[u8], lower: usize, upper: usize, field: Field) -> (r: Result<
    String,
    BlockParseError,
>)
    requires
        lower <= upper <= block@.len(),
    ensures
        match decode_text(block@, lower as int, upper as int, field) {
            Ok(t) => r is Ok && r->Ok_0@ == t,
            Err(e) => r == Err::<String, BlockParseError>(e),
        },
{
    match read_block(block, lower, upper) {
        Ok(t) => Ok(t),
        Err(_) => Err(BlockParseError::FromUtf8Error(field)),
    }
}

fn decode_number_field(block: &[u8], lower: usize, upper: usize, field: Field) -> (r: Result<
    u64,
    BlockParseError,
>)
    requires
        lower <= upper <= block@.len(),
    ensures
        r == decode_number(block@, lower as int, upper as int, field),
{
    let t = decode_text_field(block, lower, upper, field)?;
    match parse_u64(t.as_str()) {
        Some(n) => Ok(n),
        None => Err(BlockParseError::IntoU64Error(field)),
    }
}

impl Header {
    /// Parses a header block. The block must hold at least a whole header;
    /// the header keeps all of its bytes.
    pub fn from_bytes(block: &[u8]) -> (r: Result<Header, HeaderError>)
        requires
            block@.len() >= HEADER_SIZE,
        ensures
            match decode_header(block@) {
                Ok(h) => r is Ok && r->Ok_0@ == h,
                Err(e) => r is Err && r->Err_0 == HeaderError::BlockParseError(e),
            },
    {
        let name = match decode_text_field(block, 0, NAME_WIDTH, Field::Name) {
            Ok(t) => t,
            Err(e) => return Err(HeaderError::BlockParseError(e)),
        };
        let size = match decode_number_field(block, SIZE_BEGIN, MTIME_BEGIN, Field::Size) {
            Ok(n) => n,
            Err(e) => return Err(HeaderError::BlockParseError(e)),
        };
        let mtime = match decode_number_field(block, MTIME_BEGIN, PREFIX_BEGIN, Field::Mtime) {
            Ok(n) => n,
            Err(e) => return Err(HeaderError::BlockParseError(e)),
        };
        let prefix = match decode_text_field(block, PREFIX_BEGIN, HEADER_SIZE, Field::Prefix) {
            Ok(t) => t,
            Err(e) => return Err(HeaderError::BlockParseError(e)),
        };
        let bytes = slice_to_vec(block);
        Ok(Header { name, size, mtime, prefix, bytes })
    }
}


/// `s` followed by zero bytes up to `width` bytes.
pub open spec fn padded(s: Seq<u8>, width: int) -> Seq<u8> {
    s + Seq::new((width - s.len()) as nat, |_i: int| 0u8)
}

/// The header block of a file with these fields.
pub open spec fn encode_block(name: Seq<char>, size: u64, mtime: u64, prefix: Seq<char>) -> Seq<
    u8,
> {
    padded(encode_utf8(name), 255) + padded(dec_bytes(size as nat), 14) + padded(
        dec_bytes(mtime as nat),
        12,
    ) + padded(encode_utf8(prefix), 4096)
}

/// Why a header cannot be built from these fields, if it cannot: the first
/// failing condition in this order.
pub open spec fn metadata_check(name: Seq<char>, size: u64, mtime: u64, prefix: Seq<char>) -> Option<
    FileParseError,
> {
    if name.len() == 0 {
        Some(FileParseError::EmptyName)
    } else if encode_utf8(name).len() > 255 {
        Some(FileParseError::Length(LengthExceededError::Name))
    } else if dec_bytes(size as nat).len() > 14 {
        Some(FileParseError::Length(LengthExceededError::Size))
    } else if dec_bytes(mtime as nat).len() > 12 {
        Some(FileParseError::Length(LengthExceededError::Mtime))
    } else if encode_utf8(prefix).len() > 4096 {
        Some(FileParseError::Length(LengthExceededError::Prefix))
    } else {
        None
    }
}

/// Appends `src` and then zero bytes up to `width` bytes in all.
fn append_padded(out: &mut Vec<u8>, src: &[u8], width: usize)
    requires
        src@.len() <= width,
    ensures
        final(out)@ == old(out)@ + padded(src@, width as int),
{
    let ghost start = out@;
    let mut i: usize = 0;
    while i < src.len()
        invariant
            i <= src@.len() <= width,
            out@ == start + src@.take(i as int),
        decreases src@.len() - i,
    {
        out.push(src[i]);
        i = i + 1;
        assert(out@ == start + src@.take(i as int));
    }
    assert(src@.take(i as int) == src@);
    while i < width
        invariant
            src@.len() <= i <= width,
            out@ == start + src@ + Seq::new((i - src@.len()) as nat, |_i: int| 0u8),
        decreases width - i,
    {
        out.push(0u8);
        i = i + 1;
        assert(out@ == start + src@ + Seq::new((i - src@.len()) as nat, |_i: int| 0u8));
    }
    assert(out@ == start + padded(src@, width as int));
}

impl Header {
    /// Builds the header of a file from its base name, size, modification
    /// time and parent directories. Each value must fit its slot of the
    /// block; the first that does not is reported.
    pub fn from_metadata(name: &str, size: u64, mtime: u64, prefix: &str) -> (r: Result<
        Header,
        FileParseError,
    >)
        ensures
            match metadata_check(name@, size, mtime, prefix@) {
                Some(e) => r is Err && r->Err_0 == e,
                None => r is Ok && r->Ok_0@ == (HeaderView {
                    name: name@,
                    size,
                    mtime,
                    prefix: prefix@,
                    bytes: encode_block(name@, size, mtime, prefix@),
                }),
            },
    {
        if name.unicode_len() == 0 {
            return Err(FileParseError::EmptyName);
        }
        let name_bytes = name.as_bytes();
        if name_bytes.len() > NAME_WIDTH {
            return Err(FileParseError::Length(LengthExceededError::Name));
        }
        let size_text = decimal_text(size);
        if size_text.len() > SIZE_WIDTH {
            return Err(FileParseError::Length(LengthExceededError::Size));
        }
        let mtime_text = decimal_text(mtime);
        if mtime_text.len() > MTIME_WIDTH {
            return Err(FileParseError::Length(LengthExceededError::Mtime));
        }
        let prefix_bytes = prefix.as_bytes();
        if prefix_bytes.len() > PREFIX_WIDTH {
            return Err(FileParseError::Length(LengthExceededError::Prefix));
        }
        let mut bytes: Vec<u8> = Vec::new();
        append_padded(&mut bytes, name_bytes, NAME_WIDTH);
        append_padded(&mut bytes, size_text.as_slice(), SIZE_WIDTH);
        append_padded(&mut bytes, mtime_text.as_slice(), MTIME_WIDTH);
        append_padded(&mut bytes, prefix_bytes, PREFIX_WIDTH);
        Ok(Header { name: name.to_owned(), size, mtime, prefix: prefix.to_owned(), bytes })
    }
}


/// `s` holds no NUL character.
pub open spec fn no_nul_char(s: Seq<char>) -> bool {
    forall|i: int| 0 <= i < s.len() ==> s[i] != '\0'
}

/// The character of the decimal digit `d`.
pub open spec fn digit_char(d: nat) -> char {
    ((48 + d) as u32) as char
}

/// The decimal text of `n`, as characters.
pub open spec fn dec_chars(n: nat) -> Seq<char>
    decreases n,
{
    if n < 10 {
        seq![digit_char(n)]
    } else {
        dec_chars(n / 10) + seq![digit_char(n % 10)]
    }
}

proof fn lemma_dec_chars(n: nat)
    ensures
        dec_chars(n).len() == dec_bytes(n).len(),
        dec_bytes(n).len() >= 1,
        all_digits(dec_chars(n)),
        is_ascii_chars(dec_chars(n)),
        forall|i: int| 0 <= i < dec_chars(n).len() ==> #[trigger] dec_chars(n)[i] as u8 == dec_bytes(n)[i],
        nul_free(dec_bytes(n)),
        digits_value(dec_chars(n)) == n,
    decreases n,
{
    if n >= 10 {
        lemma_dec_chars(n / 10);
        let c = dec_chars(n);
        let b = dec_bytes(n);
        assert(c.drop_last() == dec_chars(n / 10));
        assert(b.len() == dec_bytes(n / 10).len() + 1);
        assert forall|i: int| 0 <= i < c.len() implies #[trigger] c[i] as u8 == b[i] by {
            if i < c.len() - 1 {
                assert(c[i] == dec_chars(n / 10)[i]);
                assert(b[i] == dec_bytes(n / 10)[i]);
            }
        }
        assert forall|i: int| 0 <= i < b.len() implies b[i] != 0 by {
            if i < b.len() - 1 {
                assert(b[i] == dec_bytes(n / 10)[i]);
            }
        }
        assert forall|i: int| 0 <= i < c.len() implies is_digit(#[trigger] c[i]) by {
            if i < c.len() - 1 {
                assert(c[i] == dec_chars(n / 10)[i]);
            }
        }
        assert(c.last() == digit_char(n % 10));
        assert((digit_char(n % 10) as u32) - ('0' as u32) == n % 10);
        assert(digits_value(c) == digits_value(dec_chars(n / 10)) * 10 + n % 10);
        assert((n / 10) * 10 + n % 10 == n);
    } else {
        assert(dec_chars(n).drop_last() =~= Seq::<char>::empty());
        assert((digit_char(n) as u32) - ('0' as u32) == n);
        assert(dec_chars(n).last() == digit_char(n));
        assert(digits_value(dec_chars(n)) == digits_value(Seq::<char>::empty()) * 10 + n);
    }
}

/// The decimal text of `n` is valid UTF-8, decodes to its characters, and
/// parses back to `n`.
proof fn lemma_dec_round_trip(n: u64)
    ensures
        valid_utf8(dec_bytes(n as nat)),
        decode_utf8(dec_bytes(n as nat)) == dec_chars(n as nat),
        parse_u64_spec(dec_chars(n as nat)) == Some(n),
        nul_free(dec_bytes(n as nat)),
{
    lemma_dec_chars(n as nat);
    let c = dec_chars(n as nat);
    is_ascii_chars_encode_utf8(c);
    assert(encode_utf8(c) == dec_bytes(n as nat));
    encode_utf8_valid_utf8(c);
    encode_utf8_decode_utf8(c);
    assert(is_digit(c[0]));
    assert(unsigned_digits(c) == c);
}

proof fn lemma_scalar_nul_free(v: u32)
    requires
        is_scalar(v),
        v != 0,
    ensures
        nul_free(encode_scalar(v)),
{
    assert(forall|x: u8| #[trigger] (0xC0u8 | x) != 0u8) by (bit_vector);
    assert(forall|x: u8| #[trigger] (0xE0u8 | x) != 0u8) by (bit_vector);
    assert(forall|x: u8| #[trigger] (0xF0u8 | x) != 0u8) by (bit_vector);
    assert(forall|x: u8| #[trigger] (0x80u8 | x) != 0u8) by (bit_vector);
    if has_width_1_encoding(v) {
        assert(((v & 0x7F) as u8) != 0u8) by (bit_vector)
            requires
                0 < v <= 0x7F,
        ;
    }
}

pub proof fn lemma_encode_nul_free(s: Seq<char>)
    requires
        no_nul_char(s),
    ensures
        nul_free(encode_utf8(s)),
    decreases s.len(),
{
    if s.len() > 0 {
        let v = s[0] as u32;
        char_is_scalar(s[0]);
        if v == 0 {
            char_u32_cast(s[0], v);
            assert(s[0] == '\0');
        }
        lemma_scalar_nul_free(v);
        assert(no_nul_char(s.drop_first()));
        lemma_encode_nul_free(s.drop_first());
        let a = encode_scalar(v);
        let b = encode_utf8(s.drop_first());
        assert forall|i: int| 0 <= i < (a + b).len() implies (a + b)[i] != 0 by {
            if i >= a.len() {
                assert((a + b)[i] == b[i - a.len()]);
            }
        }
    }
}

proof fn lemma_field_of_padded(block: Seq<u8>, lower: int, upper: int, s: Seq<u8>)
    requires
        0 <= lower <= upper <= block.len(),
        s.len() <= upper - lower,
        block.subrange(lower, upper) == padded(s, upper - lower),
        nul_free(s),
    ensures
        field_text(block, lower, upper) == s,
{
    let t = block.subrange(lower, upper);
    assert(t.take(s.len() as int) == s);
    lemma_text_len(t, s.len() as int);
}

/// Decoding the block that encodes a header's fields gives those fields
/// back, when each fits its slot and neither the name nor the prefix holds a
/// NUL character. The name may be empty here.
pub proof fn lemma_decode_encode(name: Seq<char>, size: u64, mtime: u64, prefix: Seq<char>)
    requires
        encode_utf8(name).len() <= 255,
        dec_bytes(size as nat).len() <= 14,
        dec_bytes(mtime as nat).len() <= 12,
        encode_utf8(prefix).len() <= 4096,
        no_nul_char(name),
        no_nul_char(prefix),
    ensures
        decode_header(encode_block(name, size, mtime, prefix)) == Ok::<HeaderView, BlockParseError>(
            HeaderView {
                name,
                size,
                mtime,
                prefix,
                bytes: encode_block(name, size, mtime, prefix),
            },
        ),
{
    let block = encode_block(name, size, mtime, prefix);
    let a = padded(encode_utf8(name), 255);
    let b = padded(dec_bytes(size as nat), 14);
    let c = padded(dec_bytes(mtime as nat), 12);
    let d = padded(encode_utf8(prefix), 4096);
    assert(block == a + b + c + d);
    assert(block.subrange(0, 255) == a);
    assert(block.subrange(255, 269) == b);
    assert(block.subrange(269, 281) == c);
    assert(block.subrange(281, 4377) == d);
    lemma_encode_nul_free(name);
    lemma_encode_nul_free(prefix);
    lemma_dec_round_trip(size);
    lemma_dec_round_trip(mtime);
    lemma_field_of_padded(block, 0, 255, encode_utf8(name));
    lemma_field_of_padded(block, 255, 269, dec_bytes(size as nat));
    lemma_field_of_padded(block, 269, 281, dec_bytes(mtime as nat));
    lemma_field_of_padded(block, 281, 4377, encode_utf8(prefix));
    encode_utf8_valid_utf8(name);
    encode_utf8_valid_utf8(prefix);
    encode_utf8_decode_utf8(name);
    encode_utf8_decode_utf8(prefix);
}

} // verus!
