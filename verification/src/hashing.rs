//! SHA-256 digests in their textual form: lower-case hexadecimal strings,
//! optionally carrying a leading `0x` marker.

use vstd::prelude::*;
use vstd::string::*;
use vstd::utf8::*;

verus! {

/// What `near_sdk::env::sha256` returns for a byte sequence: its SHA-256
/// digest, which depends on the bytes alone. Nothing is proved of it.
pub uninterp spec fn sha256_digest(data: Seq<u8>) -> Seq<u8>;

/// Calls `near_sdk::env::sha256`, which is believed, not proved, to
/// return the SHA-256 digest of `data`: 32 bytes, the same for the same
/// input.
#[verifier::external_body]
pub(crate) fn sha256(data: &[u8]) -> (digest: Vec<u8>)
    ensures
        digest@ == sha256_digest(data@),
        digest@.len() == 32,
{
    near_sdk::env::sha256(data)
}

/// The lower-case hexadecimal digit for a value below 16.
pub open spec fn hex_digit(n: int) -> char {
    if n == 0 {
        '0'
    } else if n == 1 {
        '1'
    } else if n == 2 {
        '2'
    } else if n == 3 {
        '3'
    } else if n == 4 {
        '4'
    } else if n == 5 {
        '5'
    } else if n == 6 {
        '6'
    } else if n == 7 {
        '7'
    } else if n == 8 {
        '8'
    } else if n == 9 {
        '9'
    } else if n == 10 {
        'a'
    } else if n == 11 {
        'b'
    } else if n == 12 {
        'c'
    } else if n == 13 {
        'd'
    } else if n == 14 {
        'e'
    } else {
        'f'
    }
}

/// Two lower-case hexadecimal digits per byte, high nibble first.
pub open spec fn hex_of(bytes: Seq<u8>) -> Seq<char> {
    Seq::new(
        2 * bytes.len(),
        |i: int|
            if i % 2 == 0 {
                hex_digit(bytes[i / 2] as int / 16)
            } else {
                hex_digit(bytes[i / 2] as int % 16)
            },
    )
}

/// An ASCII hexadecimal digit of either case.
pub open spec fn is_hex_char(c: char) -> bool {
    ('0' <= c && c <= '9') || ('a' <= c && c <= 'f') || ('A' <= c && c <= 'F')
}

/// Exactly 64 hexadecimal characters: the shape of a SHA-256 digest.
pub open spec fn is_digest(s: Seq<char>) -> bool {
    s.len() == 64 && forall|i: int| 0 <= i < s.len() ==> is_hex_char(#[trigger] s[i])
}

/// True when the text starts with the marker `0x`.
pub open spec fn has_marker(s: Seq<char>) -> bool {
    s.len() >= 2 && s[0] == '0' && s[1] == 'x'
}

/// The text without a leading `0x` marker.
pub open spec fn strip_marker(s: Seq<char>) -> Seq<char> {
    if has_marker(s) {
        s.subrange(2, s.len() as int)
    } else {
        s
    }
}

/// The lower-case form of an upper-case hexadecimal letter; any other
/// character as it is.
pub open spec fn lower_hex_char(c: char) -> char {
    if c == 'A' {
        'a'
    } else if c == 'B' {
        'b'
    } else if c == 'C' {
        'c'
    } else if c == 'D' {
        'd'
    } else if c == 'E' {
        'e'
    } else if c == 'F' {
        'f'
    } else {
        c
    }
}

/// The text with its upper-case hexadecimal letters in lower case: the
/// form in which digests are compared.
pub open spec fn lower_hex(s: Seq<char>) -> Seq<char> {
    Seq::new(s.len(), |i: int| lower_hex_char(s[i]))
}

/// The 32 bytes of the SHA-256 digest of `data`. A digest has exactly that
/// many bytes, so this is the whole of it, with a length known in proofs.
pub open spec fn digest_bytes(data: Seq<u8>) -> Seq<u8> {
    Seq::new(32, |i: int| sha256_digest(data)[i])
}

/// The hexadecimal SHA-256 digest of the UTF-8 encoding of a text.
pub open spec fn digest_hex(s: Seq<char>) -> Seq<char> {
    hex_of(digest_bytes(encode_utf8(s)))
}

/// Every digit that `hex_digit` produces is a hexadecimal character.
pub proof fn lemma_hex_digit_is_hex(n: int)
    ensures
        is_hex_char(hex_digit(n)),
{
}

/// A hashed text has the shape of a digest.
pub proof fn lemma_digest_hex_is_digest(s: Seq<char>)
    ensures
        is_digest(digest_hex(s)),
{
    lemma_hex_of_is_digest(digest_bytes(encode_utf8(s)));
}

/// The encoding of 32 bytes has the shape of a digest.
pub proof fn lemma_hex_of_is_digest(bytes: Seq<u8>)
    requires
        bytes.len() == 32,
    ensures
        is_digest(hex_of(bytes)),
{
    assert forall|i: int| 0 <= i < hex_of(bytes).len() implies is_hex_char(
        #[trigger] hex_of(bytes)[i],
    ) by {
        lemma_hex_digit_is_hex(bytes[i / 2] as int / 16);
        lemma_hex_digit_is_hex(bytes[i / 2] as int % 16);
    }
}

/// Bytes are rendered in lower case: lowering changes nothing.
pub proof fn lemma_hex_of_is_lower(bytes: Seq<u8>)
    ensures
        lower_hex(hex_of(bytes)) == hex_of(bytes),
{
    assert(lower_hex(hex_of(bytes)) =~= hex_of(bytes));
}

/// A digest in lower case is a digest.
pub proof fn lemma_lower_hex_is_digest(s: Seq<char>)
    requires
        is_digest(s),
    ensures
        is_digest(lower_hex(s)),
{
    assert forall|i: int| 0 <= i < lower_hex(s).len() implies is_hex_char(
        #[trigger] lower_hex(s)[i],
    ) by {
        assert(is_hex_char(s[i]));
    }
}

/// A digest carries no marker, so stripping leaves it as it is.
pub proof fn lemma_digest_has_no_marker(s: Seq<char>)
    requires
        is_digest(s),
    ensures
        !has_marker(s),
        strip_marker(s) == s,
{
    assert(is_hex_char(s[1]));
}

fn hex_digit_str(n: u8) -> (r: &'static str)
    requires
        n < 16,
    ensures
        r@ == seq![hex_digit(n as int)],
{
    proof {
        reveal_strlit("0");
        reveal_strlit("1");
        reveal_strlit("2");
        reveal_strlit("3");
        reveal_strlit("4");
        reveal_strlit("5");
        reveal_strlit("6");
        reveal_strlit("7");
        reveal_strlit("8");
        reveal_strlit("9");
        reveal_strlit("a");
        reveal_strlit("b");
        reveal_strlit("c");
        reveal_strlit("d");
        reveal_strlit("e");
        reveal_strlit("f");
    }
    let r = match n {
        0 => "0",
        1 => "1",
        2 => "2",
        3 => "3",
        4 => "4",
        5 => "5",
        6 => "6",
        7 => "7",
        8 => "8",
        9 => "9",
        10 => "a",
        11 => "b",
        12 => "c",
        13 => "d",
        14 => "e",
        _ => "f",
    };
    assert(r@ =~= seq![hex_digit(n as int)]);
    r
}

/// Renders bytes as lower-case hexadecimal text.
pub fn bytes_to_hex(bytes: &[u8]) -> (hex: String)
    ensures
        hex@ == hex_of(bytes@),
{
    let mut hex = String::new();
    let mut i: usize = 0;
    while i < bytes.len()
        invariant
            i <= bytes@.len(),
            hex@ == hex_of(bytes@.subrange(0, i as int)),
        decreases bytes@.len() - i,
    {
        let b: u8 = bytes[i];
        let ghost before = hex@;
        hex.append(hex_digit_str(b / 16));
        hex.append(hex_digit_str(b % 16));
        proof {
            let prev = bytes@.subrange(0, i as int);
            let next = bytes@.subrange(0, i as int + 1);
            assert(hex@ =~= before + seq![hex_digit(b as int / 16)] + seq![
                hex_digit(b as int % 16),
            ]);
            assert forall|k: int| 0 <= k < hex_of(next).len() implies hex@[k] == hex_of(next)[k] by {
                if k < 2 * i {
                    assert(prev[k / 2] == next[k / 2]);
                    assert(hex@[k] == hex_of(prev)[k]);
                } else {
                    assert(k / 2 == i);
                    assert(next[k / 2] == b);
                }
            }
            assert(hex@ =~= hex_of(next));
        }
        i = i + 1;
    }
    assert(bytes@.subrange(0, i as int) =~= bytes@);
    hex
}

/// Removes a leading `0x` marker, if there is one.
pub fn normalize_hash(hash: &str) -> (normalized: String)
    ensures
        normalized@ == strip_marker(hash@),
{
    let len: usize = hash.unicode_len();
    if len >= 2 && hash.get_char(0) == '0' && hash.get_char(1) == 'x' {
        String::from_str(hash.substring_char(2, len))
    } else {
        String::from_str(hash)
    }
}

/// Tells whether a text has the shape of a digest: 64 hexadecimal characters.
pub fn is_hex_digest(text: &str) -> (r: bool)
    ensures
        r == is_digest(text@),
{
    if !text.is_ascii() {
        proof {
            if is_digest(text@) {
                assert forall|i: int| 0 <= i < text@.len() implies '\0' <= #[trigger] text@[i]
                    <= '\u{7f}' by {
                    assert(is_hex_char(text@[i]));
                }
            }
        }
        return false;
    }
    let bytes = text.as_bytes();
    proof {
        is_ascii_chars_encode_utf8(text@);
    }
    if bytes.len() != 64 {
        return false;
    }
    let mut i: usize = 0;
    while i < 64
        invariant
            i <= 64,
            bytes@.len() == 64,
            text@.len() == 64,
            is_ascii_chars(text@),
            bytes@ == encode_utf8(text@),
            forall|k: int| 0 <= k < text@.len() ==> text@[k] as u8 == bytes@[k],
            forall|k: int| 0 <= k < i ==> is_hex_char(#[trigger] text@[k]),
        decreases 64 - i,
    {
        let b: u8 = bytes[i];
        let hex = (0x30 <= b && b <= 0x39) || (0x61 <= b && b <= 0x66) || (0x41 <= b && b <= 0x46);
        proof {
            let c = text@[i as int];
            assert('\0' <= c <= '\u{7f}');
            assert(c as u8 == b);
            assert(hex == is_hex_char(c));
        }
        if !hex {
            return false;
        }
        i = i + 1;
    }
    true
}

fn lower_hex_byte(b: u8) -> (lowered: u8)
    ensures
        lowered == if 0x41 <= b && b <= 0x46 {
            (b + 0x20) as u8
        } else {
            b
        },
{
    if 0x41 <= b && b <= 0x46 {
        b + 0x20
    } else {
        b
    }
}

/// Tells whether two texts are the same digest, whatever the case of
/// their hexadecimal letters.
pub fn same_digest(a: &str, b: &str) -> (same: bool)
    ensures
        same == (is_digest(a@) && is_digest(b@) && lower_hex(a@) == lower_hex(b@)),
{
    if !is_hex_digest(a) || !is_hex_digest(b) {
        return false;
    }
    let left = a.as_bytes();
    let right = b.as_bytes();
    proof {
        assert forall|i: int| 0 <= i < a@.len() implies '\0' <= #[trigger] a@[i] <= '\u{7f}' by {
            assert(is_hex_char(a@[i]));
        }
        assert forall|i: int| 0 <= i < b@.len() implies '\0' <= #[trigger] b@[i] <= '\u{7f}' by {
            assert(is_hex_char(b@[i]));
        }
        is_ascii_chars_encode_utf8(a@);
        is_ascii_chars_encode_utf8(b@);
    }
    let mut i: usize = 0;
    while i < 64
        invariant
            i <= 64,
            is_digest(a@),
            is_digest(b@),
            left@.len() == 64,
            right@.len() == 64,
            forall|k: int| 0 <= k < 64 ==> a@[k] as u8 == left@[k],
            forall|k: int| 0 <= k < 64 ==> b@[k] as u8 == right@[k],
            forall|k: int| 0 <= k < i ==> lower_hex_char(a@[k]) == lower_hex_char(b@[k]),
        decreases 64 - i,
    {
        let x: u8 = lower_hex_byte(left[i]);
        let y: u8 = lower_hex_byte(right[i]);
        proof {
            let c = a@[i as int];
            let d = b@[i as int];
            assert(is_hex_char(c) && is_hex_char(d));
            assert(lower_hex_char(c) as u8 == x);
            assert(lower_hex_char(d) as u8 == y);
            assert(is_hex_char(lower_hex_char(c)) && is_hex_char(lower_hex_char(d)));
            if x != y {
                assert(lower_hex(a@)[i as int] != lower_hex(b@)[i as int]);
            }
        }
        if x != y {
            return false;
        }
        i = i + 1;
    }
    assert(lower_hex(a@) =~= lower_hex(b@));
    true
}

/// The hexadecimal SHA-256 digest of a text's UTF-8 bytes.
pub fn sha256_hex(text: &str) -> (hex: String)
    ensures
        hex@ == digest_hex(text@),
        is_digest(hex@),
{
    let digest = sha256(text.as_bytes());
    proof {
        assert(digest@ =~= digest_bytes(encode_utf8(text@)));
        lemma_hex_of_is_digest(digest@);
    }
    bytes_to_hex(digest.as_slice())
}

} // verus!
