//! Small text codecs used by the action notation: unsigned decimal numbers
//! and splitting a string at an ASCII delimiter.

use vstd::prelude::*;
use vstd::string::StringSliceAdditionalSpecFns;
use vstd::utf8::{
    decode_utf8, encode_scalar, encode_utf8, encode_utf8_decode_utf8, encode_utf8_valid_utf8,
    is_char_boundary, is_char_boundary_iff_not_is_continuation_byte, valid_utf8,
};

verus! {

/// An ASCII decimal digit.
pub open spec fn is_digit(byte: u8) -> bool {
    48 <= byte <= 57
}

/// The number spelled by a sequence of ASCII digits.
pub open spec fn decimal_value(digits: Seq<u8>) -> nat
    decreases digits.len(),
{
    if digits.len() == 0 {
        0
    } else {
        decimal_value(digits.drop_last()) * 10 + (digits.last() - 48) as nat
    }
}

/// The digits of an unsigned number, after an optional leading `+`.
pub open spec fn unsigned_digits(bytes: Seq<u8>) -> Seq<u8> {
    if bytes.len() > 0 && bytes[0] == 43 {
        bytes.drop_first()
    } else {
        bytes
    }
}

/// The value that the standard `u8` parser reads from `bytes`: an optional
/// `+`, then at least one decimal digit, with a value that fits in a byte.
pub open spec fn parse_u8_spec(bytes: Seq<u8>) -> Option<u8> {
    let digits = unsigned_digits(bytes);
    if digits.len() > 0 && (forall|i: int| 0 <= i < digits.len() ==> is_digit(#[trigger] digits[i]))
        && decimal_value(digits) <= 255 {
        Some(decimal_value(digits) as u8)
    } else {
        None
    }
}

/// The decimal spelling of `n`.
pub open spec fn decimal_text(n: nat) -> Seq<char>
    decreases n,
{
    if n < 10 {
        seq![(48 + n) as char]
    } else {
        decimal_text(n / 10).push((48 + n % 10) as char)
    }
}

proof fn lemma_decimal_value_push(digits: Seq<u8>, byte: u8)
    ensures
        decimal_value(digits.push(byte)) == decimal_value(digits) * 10 + (byte - 48) as nat,
{
    assert(digits.push(byte).drop_last() =~= digits);
}

/// Reads an unsigned byte the way the standard `u8` parser does.
pub fn parse_u8(bytes: &[u8]) -> (r: Option<u8>)
    ensures
        r == parse_u8_spec(bytes@),
{
    let mut start: usize = 0;
    if bytes.len() > 0 && bytes[0] == 43 {
        start = 1;
    }
    let ghost digits = unsigned_digits(bytes@);
    proof {
        assert(digits =~= bytes@.subrange(start as int, bytes@.len() as int));
    }
    if start >= bytes.len() {
        return None;
    }
    let mut value: u32 = 0;
    let mut i = start;
    proof {
        assert(bytes@.subrange(start as int, start as int) =~= Seq::<u8>::empty());
    }
    while i < bytes.len()
        invariant
            start <= i <= bytes@.len(),
            digits == unsigned_digits(bytes@),
            digits == bytes@.subrange(start as int, bytes@.len() as int),
            forall|k: int| start <= k < i ==> is_digit(#[trigger] bytes@[k]),
            value == if decimal_value(bytes@.subrange(start as int, i as int)) < 256 {
                decimal_value(bytes@.subrange(start as int, i as int))
            } else {
                256
            },
        decreases bytes@.len() - i,
    {
        let byte = bytes[i];
        if byte < 48 || byte > 57 {
            proof {
                assert(!is_digit(digits[i - start]));
            }
            return None;
        }
        proof {
            assert(bytes@.subrange(start as int, i + 1) =~= bytes@.subrange(
                start as int,
                i as int,
            ).push(byte));
            lemma_decimal_value_push(bytes@.subrange(start as int, i as int), byte);
        }
        let next = value * 10 + (byte - 48) as u32;
        value = if next > 256 {
            256
        } else {
            next
        };
        i = i + 1;
    }
    proof {
        assert(bytes@.subrange(start as int, i as int) =~= digits);
        assert forall|k: int| 0 <= k < digits.len() implies is_digit(#[trigger] digits[k]) by {
            assert(digits[k] == bytes@[start + k]);
        }
    }
    if value > 255 {
        None
    } else {
        Some(value as u8)
    }
}

/// The one-character string of a decimal digit.
fn digit_text(d: u8) -> (r: &'static str)
    requires
        d < 10,
    ensures
        r@ == seq![(48 + d) as char],
{
    if d == 0 {
        proof {
            reveal_strlit("0");
        }
        "0"
    } else if d == 1 {
        proof {
            reveal_strlit("1");
        }
        "1"
    } else if d == 2 {
        proof {
            reveal_strlit("2");
        }
        "2"
    } else if d == 3 {
        proof {
            reveal_strlit("3");
        }
        "3"
    } else if d == 4 {
        proof {
            reveal_strlit("4");
        }
        "4"
    } else if d == 5 {
        proof {
            reveal_strlit("5");
        }
        "5"
    } else if d == 6 {
        proof {
            reveal_strlit("6");
        }
        "6"
    } else if d == 7 {
        proof {
            reveal_strlit("7");
        }
        "7"
    } else if d == 8 {
        proof {
            reveal_strlit("8");
        }
        "8"
    } else {
        proof {
            reveal_strlit("9");
        }
        "9"
    }
}

/// The decimal spelling of a byte.
pub fn decimal_string(n: u8) -> (r: String)
    ensures
        r@ == decimal_text(n as nat),
{
    if n < 10 {
        String::from_str(digit_text(n))
    } else if n < 100 {
        proof {
            assert(decimal_text((n / 10) as nat) == seq![(48 + n / 10) as char]);
        }
        String::from_str(digit_text(n / 10)).concat(digit_text(n % 10))
    } else {
        proof {
            assert(decimal_text((n / 100) as nat) == seq![(48 + n / 100) as char]);
            assert((n / 10) / 10 == n / 100);
            assert(decimal_text((n / 10) as nat) == decimal_text((n / 100) as nat).push(
                (48 + (n / 10) % 10) as char,
            ));
        }
        String::from_str(digit_text(n / 100)).concat(digit_text((n / 10) % 10)).concat(
            digit_text(n % 10),
        )
    }
}

/// The decimal spelling of an unsigned number.
pub fn decimal_string_u64(n: u64) -> (r: String)
    ensures
        r@ == decimal_text(n as nat),
    decreases n,
{
    if n < 10 {
        String::from_str(digit_text(n as u8))
    } else {
        let head = decimal_string_u64(n / 10);
        proof {
            assert(decimal_text(n as nat) == decimal_text((n / 10) as nat).push(
                (48 + n % 10) as char,
            ));
        }
        head.concat(digit_text((n % 10) as u8))
    }
}

/// Drops a leading one-byte character.
pub fn skip_ascii_char(s: &str) -> (r: &str)
    requires
        s.spec_bytes().len() > 0,
        s.spec_bytes()[0] < 128,
    ensures
        r.spec_bytes() == s.spec_bytes().drop_first(),
{
    proof {
        let bytes = s.spec_bytes();
        encode_utf8_valid_utf8(s@);
        reveal_with_fuel(is_char_boundary, 2);
        assert(is_char_boundary(bytes, 1));
    }
    let (_, rest) = s.split_at(1);
    proof {
        assert(rest.spec_bytes() =~= s.spec_bytes().drop_first());
    }
    rest
}

/// Splits before the one-byte character at byte offset `at`.
pub fn split_before_ascii(s: &str, at: usize) -> (r: (&str, &str))
    requires
        at < s.spec_bytes().len(),
        s.spec_bytes()[at as int] < 128,
    ensures
        r.0.spec_bytes() == s.spec_bytes().take(at as int),
        r.1.spec_bytes() == s.spec_bytes().skip(at as int),
{
    proof {
        encode_utf8_valid_utf8(s@);
        is_char_boundary_iff_not_is_continuation_byte(s.spec_bytes(), at as int);
    }
    let (left, right) = s.split_at(at);
    proof {
        assert(left.spec_bytes() =~= s.spec_bytes().take(at as int));
        assert(right.spec_bytes() =~= s.spec_bytes().skip(at as int));
    }
    (left, right)
}

/// A string's characters are the decoding of its bytes.
pub proof fn lemma_text_of_bytes(s: &str)
    ensures
        s@ == decode_utf8(s.spec_bytes()),
        valid_utf8(s.spec_bytes()),
{
    encode_utf8_decode_utf8(s@);
    encode_utf8_valid_utf8(s@);
}

/// The first offset of `byte` in `bytes`, if any.
pub open spec fn first_offset(bytes: Seq<u8>, byte: u8, k: int) -> bool {
    &&& 0 <= k < bytes.len()
    &&& bytes[k] == byte
    &&& forall|j: int| 0 <= j < k ==> bytes[j] != byte
}

pub fn find_byte(bytes: &[u8], byte: u8) -> (r: Option<usize>)
    ensures
        r matches Some(k) ==> first_offset(bytes@, byte, k as int),
        r is None ==> forall|j: int| 0 <= j < bytes@.len() ==> bytes@[j] != byte,
{
    let mut i: usize = 0;
    while i < bytes.len()
        invariant
            i <= bytes@.len(),
            forall|j: int| 0 <= j < i ==> bytes@[j] != byte,
        decreases bytes@.len() - i,
    {
        if bytes[i] == byte {
            return Some(i);
        }
        i = i + 1;
    }
    None
}


/// The bytes of a text whose characters are all ASCII.
pub open spec fn ascii_bytes(text: Seq<char>) -> Seq<u8> {
    text.map_values(|c: char| (c as u32) as u8)
}

/// Every character is ASCII.
pub open spec fn is_ascii_text(text: Seq<char>) -> bool {
    forall|i: int| 0 <= i < text.len() ==> (#[trigger] text[i]) as u32 <= 127
}

/// An ASCII text is encoded one byte per character.
pub proof fn lemma_encode_ascii(text: Seq<char>)
    requires
        is_ascii_text(text),
    ensures
        encode_utf8(text) == ascii_bytes(text),
    decreases text.len(),
{
    if text.len() > 0 {
        let c = text[0] as u32;
        assert(c <= 127);
        assert((c & 0x7F) as u8 == c as u8) by (bit_vector)
            requires
                c <= 127,
        ;
        assert(encode_scalar(c) =~= seq![c as u8]);
        let rest = text.drop_first();
        assert(is_ascii_text(rest)) by {
            assert forall|i: int| 0 <= i < rest.len() implies (#[trigger] rest[i]) as u32 <= 127 by {
                assert(rest[i] == text[i + 1]);
            }
        }
        lemma_encode_ascii(rest);
        assert(ascii_bytes(text) =~= seq![c as u8] + ascii_bytes(rest));
    }
}

/// The decimal spelling of a number is a non-empty run of ASCII digits
/// that reads back as the number.
pub proof fn lemma_decimal_text(n: nat)
    ensures
        decimal_text(n).len() >= 1,
        forall|i: int| 0 <= i < decimal_text(n).len() ==> 48 <= (#[trigger] decimal_text(n)[i]) as u32 <= 57,
        decimal_value(ascii_bytes(decimal_text(n))) == n,
    decreases n,
{
    if n < 10 {
        let c = (48 + n) as char;
        assert(c as u32 == 48 + n);
        assert((c as u32) as u8 == 48 + n);
        assert(ascii_bytes(decimal_text(n)) =~= seq![(48 + n) as u8]);
        assert(seq![(48 + n) as u8] =~= Seq::<u8>::empty().push((48 + n) as u8));
        lemma_decimal_value_push(Seq::<u8>::empty(), (48 + n) as u8);
    } else {
        lemma_decimal_text(n / 10);
        let head = decimal_text(n / 10);
        let c = (48 + n % 10) as char;
        assert(c as u32 == 48 + n % 10);
        assert((c as u32) as u8 == 48 + n % 10);
        assert(decimal_text(n) == head.push(c));
        assert(ascii_bytes(head.push(c)) =~= ascii_bytes(head).push((c as u32) as u8));
        lemma_decimal_value_push(ascii_bytes(head), (c as u32) as u8);
        assert forall|i: int| 0 <= i < decimal_text(n).len() implies 48 <= (#[trigger] decimal_text(n)[i]) as u32 <= 57 by {
            if i < head.len() {
                assert(decimal_text(n)[i] == head[i]);
            }
        }
    }
}

/// The decimal spelling of a byte reads back as that byte.
pub proof fn lemma_parse_decimal(n: nat)
    requires
        n <= 255,
    ensures
        parse_u8_spec(ascii_bytes(decimal_text(n))) == Some(n as u8),
        forall|i: int| 0 <= i < ascii_bytes(decimal_text(n)).len() ==> is_digit(#[trigger] ascii_bytes(decimal_text(n))[i]),
{
    lemma_decimal_text(n);
    let bytes = ascii_bytes(decimal_text(n));
    assert forall|i: int| 0 <= i < bytes.len() implies is_digit(#[trigger] bytes[i]) by {
        assert(48 <= decimal_text(n)[i] as u32 <= 57);
    }
    assert(bytes[0] != 43) by {
        assert(is_digit(bytes[0]));
    }
    assert(unsigned_digits(bytes) == bytes);
}

} // verus!
