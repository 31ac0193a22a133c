//! Byte utilities and the domain-name codec.

use crate::errors::ParseError;
use vstd::prelude::*;
use vstd::slice::slice_subrange;
use vstd::utf8::{
    decode_utf8, encode_utf8, encode_utf8_decode_utf8, encode_utf8_valid_utf8, is_ascii_chars,
    is_ascii_chars_encode_utf8, is_char_boundary, is_char_boundary_iff_not_is_continuation_byte,
    is_char_boundary_start_end_of_seq, pop_first_scalar, valid_utf8, valid_utf8_split,
};

verus! {

/// The values that a sequence of items stands for.
pub open spec fn views<T: View>(items: Seq<T>) -> Seq<T::V> {
    Seq::new(items.len(), |i: int| items[i]@)
}

/// The 16-bit value whose high byte is `a` and whose low byte is `b`.
pub open spec fn be16(a: u8, b: u8) -> int {
    a as int * 256 + b as int
}

/// Combines two bytes into a 16-bit value, the high byte first.
pub fn byte_combine(a: u8, b: u8) -> (r: u16)
    ensures
        r as int == be16(a, b),
{
    let r: u16 = ((a as u16) << 8) | b as u16;
    assert(((a as u16) << 8) | b as u16 == (a as u16) * 256 + (b as u16)) by (bit_vector);
    r
}

/// A 16-bit value as two bytes, the high one first.
pub open spec fn u16_wire(value: u16) -> Seq<u8> {
    seq![(value / 256) as u8, (value % 256) as u8]
}

/// The 32-bit value of four bytes, the highest first.
pub open spec fn be32(a: u8, b: u8, c: u8, d: u8) -> int {
    a as int * 16777216 + b as int * 65536 + c as int * 256 + d as int
}

/// The big-endian 32-bit field that starts at `offset`.
pub fn read_u32(bytes: &[u8], offset: usize) -> (r: u32)
    requires
        offset + 4 <= bytes.len(),
    ensures
        r as int == be32(
            bytes@[offset as int],
            bytes@[offset + 1],
            bytes@[offset + 2],
            bytes@[offset + 3],
        ),
{
    let hi: u16 = byte_combine(bytes[offset], bytes[offset + 1]);
    let lo: u16 = byte_combine(bytes[offset + 2], bytes[offset + 3]);
    let r: u32 = ((hi as u32) << 16) | lo as u32;
    assert(((hi as u32) << 16) | lo as u32 == (hi as u32) * 65536 + (lo as u32)) by (bit_vector);
    r
}

/// The jump target held by a two-byte compression pointer: its low 14 bits.
pub open spec fn pointer_target(a: u8, b: u8) -> int {
    (a as int % 64) * 256 + b as int
}

/// The offset that the two bytes of a compression pointer point to.
pub fn bytes_to_name_offset(a: u8, b: u8) -> (r: usize)
    ensures
        r as int == pointer_target(a, b),
{
    let c: u16 = byte_combine(a, b);
    let m: u16 = c & 0b11_1111_1111_1111;
    assert(c & 0b11_1111_1111_1111 == c % 0x4000) by (bit_vector);
    m as usize
}

/// The error of `core::str::from_utf8`, carried through as it is.
#[verifier::external_type_specification]
#[verifier::external_body]
pub struct ExUtf8Error(core::str::Utf8Error);

/// `core::str::from_utf8` accepts exactly the byte strings that are valid
/// UTF-8, and the string slice it hands back has the very bytes it was given.
pub assume_specification[ core::str::from_utf8 ](v: &[u8]) -> (r: Result<
    &str,
    core::str::Utf8Error,
>)
    ensures
        r is Ok <==> valid_utf8(v@),
        r matches Ok(s) ==> encode_utf8(s@) == v@,
;

/// The text that a run of bytes holds, where the bytes are valid UTF-8.
pub fn utf8_text(bytes: &[u8]) -> (r: Option<String>)
    ensures
        r is Some <==> valid_utf8(bytes@),
        r matches Some(s) ==> s@ == decode_utf8(bytes@),
{
    match core::str::from_utf8(bytes) {
        Ok(s) => {
            proof {
                encode_utf8_decode_utf8(s@);
            }
            Some(s.to_owned())
        },
        Err(_) => None,
    }
}

/// A decoded name: its labels, and the offset of the first byte after the
/// name in the place where it stands.
pub type NameResult = Result<(Seq<Seq<char>>, int), ParseError>;

/// The name that starts at `offset`, decoded by visiting at most `steps`
/// length bytes.
///
/// A zero length byte ends the name. A byte of 1 to 63 is the length of a
/// label that follows it. A byte whose two top bits are set starts a two-byte
/// pointer, which must point strictly backward; the rest of the name is read
/// at its target, while the name itself ends behind the pointer.
pub open spec fn name_at(buf: Seq<u8>, offset: int, steps: nat) -> NameResult
    decreases steps,
{
    if !(0 <= offset < buf.len()) {
        Err(ParseError::OutOfRange)
    } else if steps == 0 {
        Err(ParseError::PointerLoop)
    } else if buf[offset] == 0 {
        Ok((Seq::empty(), offset + 1))
    } else if buf[offset] >= 192 {
        if offset + 1 >= buf.len() {
            Err(ParseError::OutOfRange)
        } else if pointer_target(buf[offset], buf[offset + 1]) >= offset {
            Err(ParseError::PointerForward)
        } else {
            match name_at(
                buf,
                pointer_target(buf[offset], buf[offset + 1]),
                (steps - 1) as nat,
            ) {
                Ok((labels, _)) => Ok((labels, offset + 2)),
                Err(e) => Err(e),
            }
        }
    } else if buf[offset] >= 64 {
        Err(ParseError::UnimplementedNameType)
    } else if offset + 1 + buf[offset] > buf.len() {
        Err(ParseError::OutOfRange)
    } else if !valid_utf8(buf.subrange(offset + 1, offset + 1 + buf[offset])) {
        Err(ParseError::InvalidUtf8)
    } else {
        match name_at(buf, offset + 1 + buf[offset], (steps - 1) as nat) {
            Ok((labels, end)) => Ok(
                (seq![decode_utf8(buf.subrange(offset + 1, offset + 1 + buf[offset]))] + labels, end),
            ),
            Err(e) => Err(e),
        }
    }
}

/// The name that starts at `offset` in the message `buf`.
///
/// A walk along labels and pointers that comes to an end visits no length
/// byte twice, so as many steps as the message has bytes are enough for it.
/// A walk that needs more runs in a circle of pointers, each of which points
/// backward; it is refused with `PointerLoop`.
pub open spec fn name_spec(buf: Seq<u8>, offset: int) -> NameResult {
    name_at(buf, offset, buf.len())
}

/// A pointer that does not point strictly backward is refused with
/// `PointerForward`, whatever lies at its target: no step is taken from it.
pub proof fn lemma_forward_pointer_is_refused(buf: Seq<u8>, offset: int)
    requires
        0 <= offset,
        offset + 1 < buf.len(),
        buf[offset] >= 192,
        pointer_target(buf[offset], buf[offset + 1]) >= offset,
    ensures
        name_spec(buf, offset) == Err::<(Seq<Seq<char>>, int), ParseError>(
            ParseError::PointerForward,
        ),
        forall|steps: nat|
            steps > 0 ==> #[trigger] name_at(buf, offset, steps) == Err::<
                (Seq<Seq<char>>, int),
                ParseError,
            >(ParseError::PointerForward),
{
}

/// A name ends behind the offset at which it starts, and inside the message.
pub proof fn lemma_name_end_in_range(buf: Seq<u8>, offset: int, steps: nat)
    requires
        name_at(buf, offset, steps) is Ok,
    ensures
        offset < name_at(buf, offset, steps)->Ok_0.1 <= buf.len(),
    decreases steps,
{
    if steps > 0 && 0 <= offset < buf.len() && 1 <= buf[offset] < 64 {
        lemma_name_end_in_range(buf, offset + 1 + buf[offset], (steps - 1) as nat);
    }
}

/// What is decoded once `labels` are read and the rest of the name yields
/// `rest`; `end` is set once a pointer was followed.
spec fn resume(labels: Seq<Seq<char>>, end: Option<int>, rest: NameResult) -> NameResult {
    match rest {
        Ok((more, e)) => Ok(
            (
                labels + more,
                match end {
                    Some(x) => x,
                    None => e,
                },
            ),
        ),
        Err(e) => Err(e),
    }
}

/// An executable result that holds what the mathematical result holds.
pub open spec fn name_matches(r: Result<(Vec<String>, usize), ParseError>, m: NameResult) -> bool {
    match r {
        Ok((name, end)) => m == Ok::<(Seq<Seq<char>>, int), ParseError>(
            (name.deep_view(), end as int),
        ),
        Err(e) => m == Err::<(Seq<Seq<char>>, int), ParseError>(e),
    }
}

/// Decodes the name that starts at `offset`: its labels, and the offset of
/// what follows the name in place.
pub fn extract_name(bytes: &[u8], offset: usize) -> (r: Result<(Vec<String>, usize), ParseError>)
    ensures
        name_matches(r, name_spec(bytes@, offset as int)),
        r matches Ok((_, end)) ==> offset < end <= bytes.len(),
{
    proof {
        if name_spec(bytes@, offset as int) is Ok {
            lemma_name_end_in_range(bytes@, offset as int, bytes@.len());
        }
    }
    let n: usize = bytes.len();
    let mut name: Vec<String> = Vec::new();
    let mut pos: usize = offset;
    let mut end: Option<usize> = None;
    let mut steps: usize = n;
    assert(name.deep_view() + Seq::<Seq<char>>::empty() =~= name.deep_view());
    loop
        invariant
            n == bytes.len(),
            steps <= n,
            end matches Some(e) ==> e <= n,
            name_spec(bytes@, offset as int) matches Ok((_, e)) ==> offset < e <= n,
            name_spec(bytes@, offset as int) == resume(
                name.deep_view(),
                match end {
                    Some(e) => Some(e as int),
                    None => None,
                },
                name_at(bytes@, pos as int, steps as nat),
            ),
        decreases steps,
    {
        if pos >= n {
            return Err(ParseError::OutOfRange);
        }
        if steps == 0 {
            return Err(ParseError::PointerLoop);
        }
        let b: u8 = bytes[pos];
        if b == 0 {
            let e: usize = match end {
                Some(e) => e,
                None => pos + 1,
            };
            assert(name.deep_view() + Seq::<Seq<char>>::empty() =~= name.deep_view());
            return Ok((name, e));
        }
        if b >= 192 {
            if pos + 1 >= n {
                return Err(ParseError::OutOfRange);
            }
            let target: usize = bytes_to_name_offset(b, bytes[pos + 1]);
            if target >= pos {
                return Err(ParseError::PointerForward);
            }
            if end.is_none() {
                end = Some(pos + 2);
            }
            pos = target;
        } else if b >= 64 {
            return Err(ParseError::UnimplementedNameType);
        } else {
            let len: usize = b as usize;
            if len > n - pos - 1 {
                return Err(ParseError::OutOfRange);
            }
            let label = match utf8_text(slice_subrange(bytes, pos + 1, pos + 1 + len)) {
                Some(label) => label,
                None => {
                    return Err(ParseError::InvalidUtf8);
                },
            };
            let ghost before = name.deep_view();
            let ghost rest = name_at(bytes@, pos + 1 + len, (steps - 1) as nat);
            name.push(label);
            proof {
                assert(name.deep_view() =~= before.push(label@));
                if let Ok((more, _)) = rest {
                    assert(before + (seq![label@] + more) =~= before.push(label@) + more);
                }
            }
            pos = pos + 1 + len;
        }
        steps = steps - 1;
    }
}

/// The error of parsing an integer, carried through as it is.
#[verifier::external_type_specification]
#[verifier::external_body]
pub struct ExParseIntError(core::num::ParseIntError);

/// A decimal digit.
pub open spec fn is_digit(c: char) -> bool {
    48 <= c as u32 <= 57
}

/// The number that decimal digits write.
pub open spec fn number(digits: Seq<char>) -> int
    decreases digits.len(),
{
    if digits.len() == 0 {
        0
    } else {
        number(digits.drop_last()) * 10 + (digits.last() as u32 - 48)
    }
}

/// A text without the plus sign that it may start with.
pub open spec fn unsigned_part(text: Seq<char>) -> Seq<char> {
    if text.len() > 0 && text[0] == '+' {
        text.drop_first()
    } else {
        text
    }
}

/// A text that writes a number of at most 255: decimal digits, at least
/// one, after at most one plus sign.
pub open spec fn is_u8_text(text: Seq<char>) -> bool {
    &&& unsigned_part(text).len() > 0
    &&& forall|i: int|
        0 <= i < unsigned_part(text).len() ==> is_digit(#[trigger] unsigned_part(text)[i])
    &&& number(unsigned_part(text)) <= 255
}

/// `str::parse::<u8>`: succeeds on decimal digits after an optional plus
/// sign, where the number they write fits in eight bits, and gives that
/// number; fails on every other text.
#[verifier::external_body]
fn parse_u8(text: &str) -> (r: Result<u8, core::num::ParseIntError>)
    ensures
        r is Ok <==> is_u8_text(text@),
        r matches Ok(v) ==> v as int == number(unsigned_part(text@)),
{
    text.parse::<u8>()
}

/// The three characters behind the one at byte `offset`, read as a
/// decimal number.
pub fn read_dec(input: &str, offset: usize) -> (r: Result<u8, core::num::ParseIntError>)
    requires
        offset + 4 <= encode_utf8(input@).len(),
        is_char_boundary(encode_utf8(input@), offset + 1),
        is_char_boundary(encode_utf8(input@), offset + 4),
    ensures
        r is Ok <==> is_u8_text(
            decode_utf8(encode_utf8(input@).subrange(offset + 1, offset + 4)),
        ),
        r matches Ok(v) ==> v as int == number(
            unsigned_part(decode_utf8(encode_utf8(input@).subrange(offset + 1, offset + 4))),
        ),
{
    let ghost bytes = encode_utf8(input@);
    let len: usize = input.as_bytes().len();
    assert(offset + 4 <= len);
    let (head, _) = input.split_at(offset + 4);
    proof {
        encode_utf8_valid_utf8(input@);
        encode_utf8_valid_utf8(head@);
        is_char_boundary_iff_not_is_continuation_byte(bytes, offset + 1);
        is_char_boundary_iff_not_is_continuation_byte(encode_utf8(head@), offset + 1);
    }
    let (_, piece) = head.split_at(offset + 1);
    proof {
        encode_utf8_decode_utf8(piece@);
        assert(encode_utf8(piece@) =~= bytes.subrange(offset + 1, offset + 4));
    }
    parse_u8(piece)
}

/// In a valid encoding, the index behind an ASCII byte starts a character.
proof fn lemma_boundary_after_ascii(bytes: Seq<u8>, k: int)
    requires
        valid_utf8(bytes),
        0 <= k < bytes.len(),
        bytes[k] < 128,
    ensures
        is_char_boundary(bytes, k + 1),
{
    is_char_boundary_iff_not_is_continuation_byte(bytes, k);
    valid_utf8_split(bytes, k);
    let tail = bytes.subrange(k, bytes.len() as int);
    assert(tail[0] == bytes[k]);
    assert(pop_first_scalar(tail) =~= bytes.subrange(k + 1, bytes.len() as int));
    if k + 1 < bytes.len() {
        let rest = bytes.subrange(k + 1, bytes.len() as int);
        assert(valid_utf8(rest));
        assert(rest[0] == bytes[k + 1]);
        is_char_boundary_iff_not_is_continuation_byte(bytes, k + 1);
    } else {
        is_char_boundary_start_end_of_seq(bytes);
    }
}

/// Three digit bytes read as text are the three digits.
proof fn lemma_three_digits(bytes: Seq<u8>)
    requires
        bytes.len() == 3,
        48 <= bytes[0] <= 57,
        48 <= bytes[1] <= 57,
        48 <= bytes[2] <= 57,
    ensures
        unsigned_part(decode_utf8(bytes)) == decode_utf8(bytes),
        decode_utf8(bytes).len() == 3,
        forall|i: int| 0 <= i < 3 ==> is_digit(#[trigger] decode_utf8(bytes)[i]),
        number(decode_utf8(bytes)) == (bytes[0] - 48) * 100 + (bytes[1] - 48) * 10 + (bytes[2]
            - 48),
{
    let chars = seq![bytes[0] as char, bytes[1] as char, bytes[2] as char];
    assert(is_ascii_chars(chars));
    is_ascii_chars_encode_utf8(chars);
    assert(encode_utf8(chars) =~= bytes);
    encode_utf8_decode_utf8(chars);
    assert(decode_utf8(bytes) == chars);
    assert(chars[0] != '+');
    let two = chars.drop_last();
    let one = two.drop_last();
    assert(one.drop_last().len() == 0);
    assert(number(one.drop_last()) == 0);
    assert(one.last() == chars[0] && two.last() == chars[1] && chars.last() == chars[2]);
    assert(chars[0] as u32 == bytes[0] && chars[1] as u32 == bytes[1] && chars[2] as u32
        == bytes[2]);
    assert(number(one) == bytes[0] - 48);
    assert(number(two) == number(one) * 10 + (bytes[1] - 48));
    assert(number(chars) == number(two) * 10 + (bytes[2] - 48));
}

/// The number that the escape `\DDD` writes, whose backslash is at `i`.
pub open spec fn escape_value(bytes: Seq<u8>, i: int) -> int {
    (bytes[i + 1] - 48) * 100 + (bytes[i + 2] - 48) * 10 + (bytes[i + 3] - 48)
}

/// From `i` on, every backslash is followed by a byte, and every backslash
/// followed by one of the digits 0 to 2 starts an escape of three digits that
/// write a number of at most 255.
pub open spec fn escapes_ok(bytes: Seq<u8>, i: int) -> bool
    decreases bytes.len() - i,
{
    if i >= bytes.len() {
        true
    } else if bytes[i] != 92 {
        escapes_ok(bytes, i + 1)
    } else if i + 1 >= bytes.len() {
        false
    } else if bytes[i + 1] == 92 {
        escapes_ok(bytes, i + 2)
    } else if 48 <= bytes[i + 1] <= 50 {
        &&& i + 3 < bytes.len()
        &&& 48 <= bytes[i + 2] <= 57
        &&& 48 <= bytes[i + 3] <= 57
        &&& escape_value(bytes, i) <= 255
        &&& escapes_ok(bytes, i + 4)
    } else {
        escapes_ok(bytes, i + 1)
    }
}

/// The labels that the text from `i` on writes, the first of them behind
/// the bytes `cur`: a dot ends a label, two backslashes write one, a
/// backslash and three digits write the byte of that number, and every
/// other byte writes itself.
pub open spec fn labels_from(bytes: Seq<u8>, i: int, cur: Seq<u8>) -> Seq<Seq<u8>>
    decreases bytes.len() - i,
{
    if i >= bytes.len() {
        seq![cur]
    } else if bytes[i] == 92 && i + 1 < bytes.len() && bytes[i + 1] == 92 {
        labels_from(bytes, i + 2, cur.push(92))
    } else if bytes[i] == 92 && i + 3 < bytes.len() && 48 <= bytes[i + 1] <= 50 {
        labels_from(bytes, i + 4, cur.push(escape_value(bytes, i) as u8))
    } else if bytes[i] == 46 {
        seq![cur] + labels_from(bytes, i + 1, Seq::empty())
    } else {
        labels_from(bytes, i + 1, cur.push(bytes[i]))
    }
}

/// The labels, as bytes, of a name written as text with escapes.
pub fn rfc4343_to_wire(input: &str) -> (labels: Vec<Vec<u8>>)
    requires
        escapes_ok(encode_utf8(input@), 0),
    ensures
        views(labels@) == labels_from(encode_utf8(input@), 0, Seq::empty()),
{
    let mut labels: Vec<Vec<u8>> = Vec::new();
    let mut cur: Vec<u8> = Vec::new();
    let input_bytes = input.as_bytes();
    let ghost bytes = encode_utf8(input@);
    proof {
        encode_utf8_valid_utf8(input@);
        assert(views(labels@) + labels_from(bytes, 0, cur@) =~= labels_from(bytes, 0, cur@));
    }
    let mut i: usize = 0;
    while i < input_bytes.len()
        invariant
            i <= input_bytes.len(),
            input_bytes@ == bytes,
            bytes == encode_utf8(input@),
            valid_utf8(bytes),
            escapes_ok(bytes, i as int),
            labels_from(bytes, 0, Seq::empty()) == views(labels@) + labels_from(
                bytes,
                i as int,
                cur@,
            ),
        decreases input_bytes.len() - i,
    {
        let b = input_bytes[i];
        if b == 0x5c {
            if input_bytes[i + 1] == 0x5c {
                cur.push(0x5c);
                i += 2;
                continue ;
            }
            if input_bytes[i + 1] >= 48 && input_bytes[i + 1] <= 50 {
                proof {
                    lemma_boundary_after_ascii(bytes, i as int);
                    lemma_boundary_after_ascii(bytes, i + 3);
                    lemma_three_digits(bytes.subrange(i + 1, i + 4));
                }
                let n = match read_dec(input, i) {
                    Ok(n) => n,
                    Err(_) => unreached(),
                };
                cur.push(n);
                i += 4;
                continue ;
            }
        }
        if b == 46 {
            let ghost before = views(labels@);
            let ghost ended = cur@;
            labels.push(cur);
            cur = Vec::new();
            proof {
                let rest = labels_from(bytes, i + 1, Seq::empty());
                assert(views(labels@) =~= before.push(ended));
                assert(before + (seq![ended] + rest) =~= before.push(ended) + rest);
            }
            i += 1;
            continue ;
        }
        cur.push(b);
        i += 1;
    }
    let ghost before = views(labels@);
    let ghost ended = cur@;
    labels.push(cur);
    assert(views(labels@) =~= before + seq![ended]);
    labels
}

} // verus!
