//! Text forms used in reports and keys: lowercase hex, decimal numbers and
//! separator-normalised paths.

use vstd::prelude::*;
use vstd::utf8::{encode_utf8, valid_utf8};

verus! {

/// The lowercase hexadecimal digit for a value below sixteen.
pub open spec fn hex_digit(nibble: int) -> char {
    if nibble == 0 {
        '0'
    } else if nibble == 1 {
        '1'
    } else if nibble == 2 {
        '2'
    } else if nibble == 3 {
        '3'
    } else if nibble == 4 {
        '4'
    } else if nibble == 5 {
        '5'
    } else if nibble == 6 {
        '6'
    } else if nibble == 7 {
        '7'
    } else if nibble == 8 {
        '8'
    } else if nibble == 9 {
        '9'
    } else if nibble == 10 {
        'a'
    } else if nibble == 11 {
        'b'
    } else if nibble == 12 {
        'c'
    } else if nibble == 13 {
        'd'
    } else if nibble == 14 {
        'e'
    } else {
        'f'
    }
}

/// Lowercase hex of a byte string: two digits per byte, high nibble first.
pub open spec fn hex_of(bytes: Seq<u8>) -> Seq<char> {
    Seq::new(
        2 * bytes.len(),
        |i: int|
            if i % 2 == 0 {
                hex_digit(bytes[i / 2] as int / 16)
            } else {
                hex_digit(bytes[i / 2] as int % 16)
            },
    )
}

/// `hex::encode`: walks the bytes in order and yields, for each, the digit of
/// its high four bits and then the digit of its low four bits, both taken from
/// the table `0123456789abcdef`.
#[verifier::external_body]
pub(crate) fn hex_encode(bytes: &Vec<u8>) -> (text: String)
    ensures
        text@ == hex_of(bytes@),
{
    hex::encode(bytes)
}

/// Distinct byte strings have distinct hex forms.
pub proof fn lemma_hex_injective(a: Seq<u8>, b: Seq<u8>)
    requires
        hex_of(a) == hex_of(b),
    ensures
        a == b,
{
    assert(hex_of(a).len() == 2 * a.len());
    assert(hex_of(b).len() == 2 * b.len());
    assert(a.len() == b.len());
    assert forall|i: int| 0 <= i < a.len() implies a[i] == b[i] by {
        let hi_a = hex_of(a)[2 * i];
        let hi_b = hex_of(b)[2 * i];
        let lo_a = hex_of(a)[2 * i + 1];
        let lo_b = hex_of(b)[2 * i + 1];
        assert(hi_a == hex_digit(a[i] as int / 16));
        assert(hi_b == hex_digit(b[i] as int / 16));
        assert(lo_a == hex_digit(a[i] as int % 16));
        assert(lo_b == hex_digit(b[i] as int % 16));
        assert(a[i] as int / 16 == b[i] as int / 16);
        assert(a[i] as int % 16 == b[i] as int % 16);
    }
    assert(a =~= b);
}

/// The order of texts by their characters, a shorter text before each of its
/// extensions.
pub open spec fn text_le(a: Seq<char>, b: Seq<char>) -> bool
    decreases a.len(),
{
    if a.len() == 0 {
        true
    } else if b.len() == 0 {
        false
    } else if a[0] != b[0] {
        (a[0] as u32) < (b[0] as u32)
    } else {
        text_le(a.drop_first(), b.drop_first())
    }
}

/// The order of byte strings by their bytes, a shorter string before each of
/// its extensions.
pub open spec fn bytes_le(a: Seq<u8>, b: Seq<u8>) -> bool
    decreases a.len(),
{
    if a.len() == 0 {
        true
    } else if b.len() == 0 {
        false
    } else if a[0] != b[0] {
        a[0] < b[0]
    } else {
        bytes_le(a.drop_first(), b.drop_first())
    }
}

proof fn lemma_hex_digit_order(x: int, y: int)
    requires
        0 <= x < 16,
        0 <= y < 16,
    ensures
        x < y <==> (hex_digit(x) as u32) < (hex_digit(y) as u32),
        x == y <==> hex_digit(x) == hex_digit(y),
{
}

/// Byte strings stand in the same order as their hex forms.
pub proof fn lemma_hex_order(a: Seq<u8>, b: Seq<u8>)
    ensures
        text_le(hex_of(a), hex_of(b)) == bytes_le(a, b),
    decreases a.len(),
{
    let ha = hex_of(a);
    let hb = hex_of(b);
    if a.len() > 0 && b.len() > 0 {
        let hi_a = a[0] as int / 16;
        let hi_b = b[0] as int / 16;
        let lo_a = a[0] as int % 16;
        let lo_b = b[0] as int % 16;
        assert(ha[0] == hex_digit(hi_a));
        assert(hb[0] == hex_digit(hi_b));
        assert(ha[1] == hex_digit(lo_a));
        assert(hb[1] == hex_digit(lo_b));
        lemma_hex_digit_order(hi_a, hi_b);
        lemma_hex_digit_order(lo_a, lo_b);
        let ta = ha.drop_first();
        let tb = hb.drop_first();
        assert(ta[0] == ha[1]);
        assert(tb[0] == hb[1]);
        if hi_a == hi_b {
            assert(text_le(ha, hb) == text_le(ta, tb));
            if lo_a == lo_b {
                assert(a[0] == b[0]);
                assert(text_le(ta, tb) == text_le(ta.drop_first(), tb.drop_first()));
                assert(ta.drop_first() =~= hex_of(a.drop_first()));
                assert(tb.drop_first() =~= hex_of(b.drop_first()));
                lemma_hex_order(a.drop_first(), b.drop_first());
            }
        }
    }
}

/// Whether `a` stands before `b`, or is equal to it, in the order of bytes.
pub fn bytes_precede(a: &Vec<u8>, b: &Vec<u8>) -> (le: bool)
    ensures
        le == bytes_le(a@, b@),
{
    let mut i: usize = 0;
    proof {
        assert(a@.skip(0) =~= a@);
        assert(b@.skip(0) =~= b@);
    }
    loop
        invariant
            i <= a.len(),
            i <= b.len(),
            bytes_le(a@, b@) == bytes_le(a@.skip(i as int), b@.skip(i as int)),
        decreases a.len() - i,
    {
        if i == a.len() {
            return true;
        }
        if i == b.len() {
            return false;
        }
        proof {
            assert(a@.skip(i as int)[0] == a@[i as int]);
            assert(b@.skip(i as int)[0] == b@[i as int]);
            assert(a@.skip(i as int).drop_first() =~= a@.skip(i + 1));
            assert(b@.skip(i as int).drop_first() =~= b@.skip(i + 1));
        }
        if a[i] != b[i] {
            return a[i] < b[i];
        }
        i = i + 1;
    }
}

/// `String::push`: appends one character to the end of the string.
#[verifier::external_body]
pub(crate) fn push_char(text: &mut String, c: char)
    ensures
        final(text)@ == old(text)@.push(c),
{
    text.push(c)
}

/// `String::from_utf8`: the string whose UTF-8 form is `bytes`, or nothing
/// where `bytes` is not the UTF-8 form of any string.
#[verifier::external_body]
pub(crate) fn string_from_utf8(bytes: Vec<u8>) -> (text: Option<String>)
    ensures
        text is Some <==> valid_utf8(bytes@),
        text matches Some(s) ==> encode_utf8(s@) == bytes@,
{
    String::from_utf8(bytes).ok()
}

/// The decimal digit for a value below ten.
pub open spec fn decimal_digit(d: int) -> char {
    hex_digit(d)
}

/// A number in decimal, without sign or leading zeros.
pub open spec fn decimal_of(n: nat) -> Seq<char>
    decreases n,
{
    if n < 10 {
        seq![decimal_digit(n as int)]
    } else {
        decimal_of(n / 10).push(decimal_digit((n % 10) as int))
    }
}

fn digit_char(d: u64) -> (c: char)
    requires
        d < 16,
    ensures
        c == hex_digit(d as int),
{
    if d == 0 {
        '0'
    } else if d == 1 {
        '1'
    } else if d == 2 {
        '2'
    } else if d == 3 {
        '3'
    } else if d == 4 {
        '4'
    } else if d == 5 {
        '5'
    } else if d == 6 {
        '6'
    } else if d == 7 {
        '7'
    } else if d == 8 {
        '8'
    } else if d == 9 {
        '9'
    } else if d == 10 {
        'a'
    } else if d == 11 {
        'b'
    } else if d == 12 {
        'c'
    } else if d == 13 {
        'd'
    } else if d == 14 {
        'e'
    } else {
        'f'
    }
}

/// Appends `n` in decimal to `text`.
pub fn push_decimal(text: &mut String, n: u64)
    ensures
        final(text)@ == old(text)@ + decimal_of(n as nat),
    decreases n,
{
    if n >= 10 {
        push_decimal(text, n / 10);
    }
    push_char(text, digit_char(n % 10));
    proof {
        if n >= 10 {
            assert(old(text)@ + decimal_of((n / 10) as nat).push(decimal_digit((n % 10) as int))
                =~= (old(text)@ + decimal_of((n / 10) as nat)).push(decimal_digit((n % 10) as int)));
        } else {
            assert(old(text)@ + seq![decimal_digit(n as int)] =~= old(text)@.push(
                decimal_digit(n as int),
            ));
        }
    }
}

/// A path with every occurrence of `separator` replaced by `/`.
pub open spec fn normalized(path: Seq<char>, separator: char) -> Seq<char> {
    Seq::new(path.len(), |i: int| if path[i] == separator { '/' } else { path[i] })
}

/// Rewrites the platform's path separator to `/`, so that cached paths mean
/// the same on every operating system.
pub fn normalize_separators(path: &str, separator: char) -> (out: String)
    ensures
        out@ == normalized(path@, separator),
{
    let mut out = String::new();
    for c in it: path.chars()
        invariant
            it.seq() == path@,
            out@ == normalized(path@.take(it.index() as int), separator),
    {
        let mapped = if c == separator { '/' } else { c };
        push_char(&mut out, mapped);
        proof {
            let i = it.index() as int;
            assert(c == path@[i]);
            assert(path@.take(i + 1) =~= path@.take(i).push(path@[i]));
            assert(normalized(path@.take(i + 1), separator) =~= normalized(
                path@.take(i),
                separator,
            ).push(mapped));
        }
    }
    proof {
        assert(path@.take(path@.len() as int) =~= path@);
    }
    out
}

} // verus!
