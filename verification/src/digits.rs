//! Decimal and hexadecimal digit strings: the text forms that identify agents and sign
//! messages.
use vstd::prelude::*;
use vstd::arithmetic::power::{pow, lemma_pow_positive};
use vstd::arithmetic::div_mod::lemma_div_denominator;

verus! {

/// The ASCII byte of the decimal digit `d` (`d < 10`).
pub open spec fn decimal_digit(d: nat) -> u8 {
    (48 + d) as u8
}

/// The ASCII decimal digits of `v`, most significant first and without leading zeros
/// (`"0"` for zero): what `Display` writes for an unsigned integer.
pub open spec fn decimal_bytes(v: nat) -> Seq<u8>
    decreases v,
{
    if v < 10 {
        seq![decimal_digit(v)]
    } else {
        decimal_bytes(v / 10).push(decimal_digit(v % 10))
    }
}

/// The same digits as characters.
pub open spec fn decimal_chars(v: nat) -> Seq<char> {
    decimal_bytes(v).map_values(|b: u8| b as char)
}

/// Whether `b` is an ASCII decimal digit.
pub open spec fn is_digit(b: u8) -> bool {
    48 <= b <= 57
}

/// The value of a run of ASCII decimal digits, or `None` when some byte is not a digit.
/// The empty run has value zero.
pub open spec fn digits_value(s: Seq<u8>) -> Option<nat>
    decreases s.len(),
{
    if s.len() == 0 {
        Some(0)
    } else {
        match digits_value(s.drop_last()) {
            Some(v) => if is_digit(s.last()) {
                Some(v * 10 + (s.last() - 48) as nat)
            } else {
                None
            },
            None => None,
        }
    }
}

/// The text that `usize::from_str` reads: an optional leading `+` followed by the digits.
pub open spec fn unsigned_body(s: Seq<u8>) -> Seq<u8> {
    if s.len() > 0 && s[0] == 43u8 {
        s.drop_first()
    } else {
        s
    }
}

/// What `usize::from_str` returns for the UTF-8 text `s`: `Some` exactly when, after an optional
/// `+`, at least one ASCII digit and nothing else remains and the value fits in a `usize`.
pub open spec fn parse_usize_spec(s: Seq<u8>) -> Option<usize> {
    let body = unsigned_body(s);
    if body.len() == 0 {
        None
    } else {
        match digits_value(body) {
            Some(v) => if v <= usize::MAX {
                Some(v as usize)
            } else {
                None
            },
            None => None,
        }
    }
}

/// The lowercase hexadecimal character of the digit `d` (`d < 16`).
pub open spec fn hex_digit(d: nat) -> char {
    if d < 10 {
        (48 + d) as char
    } else {
        (87 + d) as char
    }
}

/// The last `width` hexadecimal digits of `v`, lowercase and zero-padded: for a `u64` and a
/// width of 16, what the format `{:016x}` writes.
pub open spec fn hex_chars(v: nat, width: nat) -> Seq<char>
    decreases width,
{
    if width == 0 {
        seq![]
    } else {
        hex_chars(v / 16, (width - 1) as nat).push(hex_digit(v % 16))
    }
}

/// `String::push`: appends the character `c` to `s`.
#[verifier::external_body]
pub(crate) fn push_char(s: &mut String, c: char)
    ensures
        final(s)@ == old(s)@.push(c),
{
    s.push(c);
}

/// Appends the decimal digits of `v` to `out`.
pub fn push_decimal_bytes(out: &mut Vec<u8>, v: u64)
    ensures
        final(out)@ == old(out)@ + decimal_bytes(v as nat),
    decreases v,
{
    if v >= 10 {
        push_decimal_bytes(out, v / 10);
    }
    out.push((48 + v % 10) as u8);
    proof {
        if v < 10 {
            assert(v % 10 == v);
        }
        assert(final(out)@ =~= old(out)@ + decimal_bytes(v as nat));
    }
}

/// Appends the decimal digits of `v` to `out`, as characters.
pub fn push_decimal_chars(out: &mut String, v: u64)
    ensures
        final(out)@ == old(out)@ + decimal_chars(v as nat),
    decreases v,
{
    if v >= 10 {
        push_decimal_chars(out, v / 10);
    }
    let d: u8 = (48 + v % 10) as u8;
    push_char(out, d as char);
    proof {
        if v < 10 {
            assert(v % 10 == v);
        }
        assert(decimal_chars(v as nat) =~= if v < 10 {
            seq![d as char]
        } else {
            decimal_chars((v / 10) as nat).push(d as char)
        });
        assert(final(out)@ =~= old(out)@ + decimal_chars(v as nat));
    }
}

/// The decimal text of `v`, as `to_string` writes it.
pub fn usize_to_string(v: usize) -> (s: String)
    ensures
        s@ == decimal_chars(v as nat),
{
    let mut s = String::new();
    push_decimal_chars(&mut s, v as u64);
    assert(s@ =~= decimal_chars(v as nat));
    s
}

/// Appends the last `width` hexadecimal digits of `v` to `out`, lowercase and zero-padded.
pub fn push_hex(out: &mut String, v: u64, width: u32)
    ensures
        final(out)@ == old(out)@ + hex_chars(v as nat, width as nat),
    decreases width,
{
    if width > 0 {
        push_hex(out, v / 16, width - 1);
        let d: u64 = v % 16;
        let c: char = if d < 10 {
            ((48 + d) as u8) as char
        } else {
            ((87 + d) as u8) as char
        };
        push_char(out, c);
        assert(final(out)@ =~= old(out)@ + hex_chars(v as nat, width as nat));
    } else {
        assert(final(out)@ =~= old(out)@ + hex_chars(v as nat, width as nat));
    }
}

/// Every prefix of a run of digits has a value no larger than the whole run's.
proof fn lemma_digits_value_prefix(s: Seq<u8>, i: int)
    requires
        0 <= i <= s.len(),
        digits_value(s) is Some,
    ensures
        digits_value(s.take(i)) is Some,
        digits_value(s.take(i))->0 <= digits_value(s)->0,
    decreases s.len() - i,
{
    if i < s.len() {
        lemma_digits_value_prefix(s, i + 1);
        assert(s.take(i + 1).drop_last() =~= s.take(i));
    } else {
        assert(s.take(i) =~= s);
    }
}

/// Reads a `usize` as `usize::from_str` does: `None` where it returns an error.
pub fn parse_usize(text: &str) -> (r: Option<usize>)
    ensures
        r == parse_usize_spec(vstd::utf8::encode_utf8(text@)),
{
    let bytes = text.as_bytes();
    let ghost s = bytes@;
    let len = bytes.len();
    let mut start: usize = 0;
    if len > 0 && bytes[0] == 43u8 {
        start = 1;
    }
    let ghost body = unsigned_body(s);
    assert(s == vstd::utf8::encode_utf8(text@));
    assert(body =~= s.subrange(start as int, len as int));
    if start == len {
        return None;
    }
    let mut value: usize = 0;
    let mut i: usize = start;
    while i < len
        invariant
            start <= i <= len,
            len == s.len(),
            bytes@ == s,
            s == vstd::utf8::encode_utf8(text@),
            body == unsigned_body(s),
            start < len,
            body =~= s.subrange(start as int, len as int),
            digits_value(body.take(i - start)) == Some(value as nat),
        decreases len - i,
    {
        let b = bytes[i];
        assert(body.take(i + 1 - start).drop_last() =~= body.take(i - start));
        assert(body.take(i + 1 - start).last() == b);
        if b < 48u8 || b > 57u8 {
            proof {
                assert(digits_value(body.take(i + 1 - start)) is None);
                if digits_value(body) is Some {
                    lemma_digits_value_prefix(body, i + 1 - start);
                }
                assert(digits_value(body) is None);
            }
            return None;
        }
        let d: usize = (b - 48u8) as usize;
        if value > (usize::MAX - d) / 10 {
            proof {
                assert(value * 10 + d > usize::MAX) by (nonlinear_arith)
                    requires
                        value > (usize::MAX - d) / 10,
                        d <= 9,
                ;
                assert(digits_value(body.take(i + 1 - start)) == Some((value * 10 + d) as nat));
                if digits_value(body) is Some {
                    lemma_digits_value_prefix(body, i + 1 - start);
                }
            }
            return None;
        }
        proof {
            assert(value * 10 + d <= usize::MAX) by (nonlinear_arith)
                requires
                    value <= (usize::MAX - d) / 10,
                    d <= 9,
            ;
        }
        value = value * 10 + d;
        i = i + 1;
    }
    assert(body.take(len - start) =~= body);
    Some(value)
}

/// Reading the decimal digits of `v` gives `v` back.
pub proof fn lemma_digits_value_decimal(v: nat)
    ensures
        digits_value(decimal_bytes(v)) == Some(v),
        decimal_bytes(v).len() > 0,
        is_digit(decimal_bytes(v)[0]),
    decreases v,
{
    assert(digits_value(Seq::<u8>::empty()) == Some(0nat));
    if v < 10 {
        let s = decimal_bytes(v);
        assert(s.drop_last() =~= Seq::<u8>::empty());
    } else {
        lemma_digits_value_decimal(v / 10);
        let s = decimal_bytes(v);
        assert(s == decimal_bytes(v / 10).push(decimal_digit(v % 10)));
        assert(s.drop_last() =~= decimal_bytes(v / 10));
        assert(s[0] == decimal_bytes(v / 10)[0]);
        assert((v / 10) * 10 + v % 10 == v);
    }
}

/// The decimal text of a `usize` reads back as the same `usize`: what `to_string` writes,
/// `usize::from_str` accepts and returns unchanged.
pub proof fn lemma_parse_decimal_roundtrip(v: usize)
    ensures
        parse_usize_spec(decimal_bytes(v as nat)) == Some(v),
{
    lemma_digits_value_decimal(v as nat);
    let s = decimal_bytes(v as nat);
    assert(unsigned_body(s) == s);
}

/// Decimal characters are ASCII, so their UTF-8 bytes are the digit bytes themselves.
pub proof fn lemma_decimal_chars_utf8(v: nat)
    ensures
        vstd::utf8::encode_utf8(decimal_chars(v)) == decimal_bytes(v),
    decreases v,
{
    let c = decimal_chars(v);
    let b = decimal_bytes(v);
    lemma_decimal_bytes_are_digits(v);
    assert(vstd::utf8::is_ascii_chars(c)) by {
        assert forall|i| 0 <= i < c.len() implies '\0' <= #[trigger] c[i] <= '\u{7f}' by {
            assert(is_digit(b[i]));
        }
    }
    vstd::utf8::is_ascii_chars_encode_utf8(c);
    assert(vstd::utf8::encode_utf8(c) =~= b);
}

/// Every byte of a decimal text is a digit.
pub proof fn lemma_decimal_bytes_are_digits(v: nat)
    ensures
        forall|i| 0 <= i < decimal_bytes(v).len() ==> is_digit(#[trigger] decimal_bytes(v)[i]),
    decreases v,
{
    if v >= 10 {
        lemma_decimal_bytes_are_digits(v / 10);
        let p = decimal_bytes(v / 10);
        assert(decimal_bytes(v) == p.push(decimal_digit(v % 10)));
        assert forall|i| 0 <= i < decimal_bytes(v).len() implies is_digit(
            #[trigger] decimal_bytes(v)[i],
        ) by {
            if i < p.len() {
                assert(decimal_bytes(v)[i] == p[i]);
            }
        }
    }
}

/// The decimal text of `v` is canonical: every byte is an ASCII digit, the digits read back as
/// `v`, and there is no leading zero except in the text `"0"` of zero.
pub proof fn lemma_decimal_canonical(v: nat)
    ensures
        forall|i: int| 0 <= i < decimal_bytes(v).len() ==> 48 <= #[trigger] decimal_bytes(v)[i] <= 57,
        digits_value(decimal_bytes(v)) == Some(v),
        decimal_bytes(v)[0] != 48u8 || decimal_bytes(v) == seq![48u8],
        v == 0 <==> decimal_bytes(v) == seq![48u8],
    decreases v,
{
    lemma_decimal_bytes_are_digits(v);
    lemma_digits_value_decimal(v);
    if v >= 10 {
        lemma_decimal_canonical(v / 10);
        let p = decimal_bytes(v / 10);
        assert(decimal_bytes(v) == p.push(decimal_digit(v % 10)));
        assert(decimal_bytes(v)[0] == p[0]);
        assert(decimal_bytes(v).len() > 1);
        if decimal_bytes(v) == seq![48u8] {
            assert(decimal_bytes(v).len() == 1);
        }
    } else if v == 0 {
        assert(decimal_bytes(v) =~= seq![48u8]);
    } else {
        if decimal_bytes(v) == seq![48u8] {
            assert(decimal_bytes(v)[0] == 48u8);
        }
    }
}

/// Each of the `width` characters of `hex_chars(v, width)` is the lowercase hexadecimal digit of
/// `v` at its place: character `k` is digit `(v / 16^(width - 1 - k)) % 16`, written `'0'`–`'9'`
/// or `'a'`–`'f'`.
pub proof fn lemma_hex_chars_digits(v: nat, width: nat)
    ensures
        hex_chars(v, width).len() == width,
        forall|k: int|
            0 <= k < width ==> {
                let d = (v as int / pow(16, (width - 1 - k) as nat)) % 16;
                let c = #[trigger] hex_chars(v, width)[k];
                (d < 10 && c == (48 + d) as char) || (10 <= d && c == (87 + d) as char)
            },
    decreases width,
{
    if width > 0 {
        let w1 = (width - 1) as nat;
        lemma_hex_chars_digits(v / 16, w1);
        let h = hex_chars(v, width);
        assert(h == hex_chars(v / 16, w1).push(hex_digit(v % 16)));
        assert forall|k: int| 0 <= k < width implies {
            let d = (v as int / pow(16, (width - 1 - k) as nat)) % 16;
            let c = #[trigger] hex_chars(v, width)[k];
            (d < 10 && c == (48 + d) as char) || (10 <= d && c == (87 + d) as char)
        } by {
            if k == width - 1 {
                assert(pow(16, 0) == 1) by {
                    reveal(pow);
                }
            } else {
                let e = (width - 2 - k) as nat;
                assert(h[k] == hex_chars(v / 16, w1)[k]);
                assert(pow(16, e + 1) == 16 * pow(16, e)) by {
                    reveal(pow);
                }
                lemma_pow_positive(16, e);
                lemma_div_denominator(v as int, 16, pow(16, e));
                assert((width - 1 - k) as nat == e + 1);
            }
        }
    }
}

/// How `usize::from_str` reads text: it refuses the empty text and a lone `+`; a leading `+`
/// before digits changes nothing; a text that reads as a value consists of digits only, after
/// that optional `+`; and a leading `-` is refused.
pub proof fn lemma_parse_usize_shape(s: Seq<u8>)
    ensures
        parse_usize_spec(Seq::<u8>::empty()) is None,
        parse_usize_spec(seq![43u8]) is None,
        s.len() > 0 && s[0] != 43u8 ==> parse_usize_spec(seq![43u8] + s) == parse_usize_spec(s),
        s.len() > 0 && s[0] == 45u8 ==> parse_usize_spec(s) is None,
        parse_usize_spec(s) is Some ==> forall|i: int|
            0 <= i < unsigned_body(s).len() ==> 48 <= #[trigger] unsigned_body(s)[i] <= 57,
{
    assert(seq![43u8].drop_first() =~= Seq::<u8>::empty());
    if s.len() > 0 && s[0] != 43u8 {
        assert((seq![43u8] + s).drop_first() =~= s);
    }
    if s.len() > 0 && s[0] == 45u8 {
        lemma_digits_value_digits(s);
    }
    if parse_usize_spec(s) is Some {
        lemma_digits_value_digits(unsigned_body(s));
    }
}

proof fn lemma_digits_value_digits(s: Seq<u8>)
    ensures
        digits_value(s) is Some ==> forall|i: int| 0 <= i < s.len() ==> 48 <= #[trigger] s[i] <= 57,
    decreases s.len(),
{
    if s.len() > 0 {
        lemma_digits_value_digits(s.drop_last());
        if digits_value(s) is Some {
            assert forall|i: int| 0 <= i < s.len() implies 48 <= #[trigger] s[i] <= 57 by {
                if i < s.len() - 1 {
                    assert(s[i] == s.drop_last()[i]);
                }
            }
        }
    }
}

} // verus!
