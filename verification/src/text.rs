//! ASCII text and its bytes.

use vstd::prelude::*;
use vstd::string::*;
use crate::record::reversed;

verus! {

broadcast use vstd::string::is_ascii_spec_bytes;

/// The bytes of an ASCII text, one for each character.
pub open spec fn bytes_of(s: Seq<char>) -> Seq<u8> {
    Seq::new(s.len(), |i: int| s[i] as u8)
}

/// The text of ASCII bytes, one character for each byte.
pub open spec fn chars_of(b: Seq<u8>) -> Seq<char> {
    Seq::new(b.len(), |i: int| b[i] as char)
}

/// Every byte is below 128.
pub open spec fn is_ascii_bytes(b: Seq<u8>) -> bool {
    forall|i: int| 0 <= i < b.len() ==> #[trigger] b[i] < 128
}

/// A digit or an ASCII letter.
pub open spec fn is_alnum_byte(b: u8) -> bool {
    48 <= b <= 57 || 65 <= b <= 90 || 97 <= b <= 122
}

/// A digit or an ASCII letter.
pub open spec fn is_alnum_char(c: char) -> bool {
    ('0' <= c <= '9') || ('A' <= c <= 'Z') || ('a' <= c <= 'z')
}

/// A label: one or more characters, each a digit or an ASCII letter.
pub open spec fn is_label(s: Seq<char>) -> bool {
    s.len() > 0 && forall|i: int| 0 <= i < s.len() ==> is_alnum_char(#[trigger] s[i])
}

/// A label in bytes: one or more bytes, each a digit or an ASCII letter.
pub open spec fn is_label_bytes(b: Seq<u8>) -> bool {
    b.len() > 0 && forall|i: int| 0 <= i < b.len() ==> is_alnum_byte(#[trigger] b[i])
}

/// ASCII bytes and their text determine each other.
pub proof fn lemma_ascii_round_trip(b: Seq<u8>)
    requires
        is_ascii_bytes(b),
    ensures
        bytes_of(chars_of(b)) == b,
        vstd::utf8::is_ascii_chars(chars_of(b)),
        is_label(chars_of(b)) <==> is_label_bytes(b),
{
    let c = chars_of(b);
    assert forall|i: int| 0 <= i < b.len() implies (#[trigger] c[i]) as u8 == b[i] && '\0' <= c[i]
        <= '\u{7f}' && (is_alnum_char(c[i]) <==> is_alnum_byte(b[i])) by {
        assert(b[i] < 128);
    }
    assert(bytes_of(c) =~= b);
    if is_label(c) {
        assert forall|i: int| 0 <= i < b.len() implies is_alnum_byte(#[trigger] b[i]) by {
            assert(is_alnum_char(c[i]));
        }
    }
    if is_label_bytes(b) {
        assert forall|i: int| 0 <= i < c.len() implies is_alnum_char(#[trigger] c[i]) by {
            assert(is_alnum_byte(b[i]));
        }
    }
}

/// An ASCII text and its bytes determine each other.
pub proof fn lemma_ascii_text_round_trip(s: Seq<char>)
    requires
        vstd::utf8::is_ascii_chars(s),
    ensures
        chars_of(bytes_of(s)) == s,
        is_ascii_bytes(bytes_of(s)),
        is_label(s) <==> is_label_bytes(bytes_of(s)),
{
    let b = bytes_of(s);
    assert forall|i: int| 0 <= i < s.len() implies (#[trigger] b[i]) as char == s[i] && b[i] < 128
        by {
        assert('\0' <= s[i] <= '\u{7f}');
    }
    assert(chars_of(b) =~= s);
    lemma_ascii_round_trip(b);
}

/// A label is ASCII.
pub proof fn lemma_label_is_ascii(s: Seq<char>)
    requires
        is_label(s),
    ensures
        vstd::utf8::is_ascii_chars(s),
        is_label_bytes(bytes_of(s)),
{
    assert forall|i: int| 0 <= i < s.len() implies '\0' <= #[trigger] s[i] <= '\u{7f}' by {
        assert(is_alnum_char(s[i]));
    }
    lemma_ascii_text_round_trip(s);
}

/// Tells whether a byte is a digit or an ASCII letter.
pub fn alnum_byte(b: u8) -> (r: bool)
    ensures
        r == is_alnum_byte(b),
{
    (48 <= b && b <= 57) || (65 <= b && b <= 90) || (97 <= b && b <= 122)
}

/// Tells whether the bytes are a label.
pub fn label_bytes(b: &[u8]) -> (r: bool)
    ensures
        r == is_label_bytes(b@),
{
    if b.len() == 0 {
        return false;
    }
    let mut i: usize = 0;
    while i < b.len()
        invariant
            i <= b.len(),
            forall|j: int| 0 <= j < i ==> is_alnum_byte(#[trigger] b@[j]),
        decreases b.len() - i,
    {
        if !alnum_byte(b[i]) {
            return false;
        }
        i = i + 1;
    }
    true
}

/// Tells whether the text is a label.
pub fn label_text(s: &str) -> (r: bool)
    ensures
        r == is_label(s@),
{
    if !s.is_ascii() {
        proof {
            if is_label(s@) {
                lemma_label_is_ascii(s@);
            }
        }
        return false;
    }
    let b = s.as_bytes();
    proof {
        assert(b@ =~= bytes_of(s@));
        lemma_ascii_text_round_trip(s@);
    }
    label_bytes(b)
}

/// The text that `String::from_utf8_lossy` makes of bytes.
pub uninterp spec fn utf8_lossy(b: Seq<u8>) -> Seq<char>;

/// `String::from_utf8_lossy`: the text that the bytes encode in UTF-8, with
/// the replacement character for what is no UTF-8. A byte below 128 is the
/// encoding of the character with that number, so that of ASCII bytes
/// nothing is replaced and each byte gives its character.
#[verifier::external_body]
pub(crate) fn lossy_text(b: &[u8]) -> (r: String)
    ensures
        r@ == utf8_lossy(b@),
        is_ascii_bytes(b@) ==> r@ == chars_of(b@),
{
    String::from_utf8_lossy(b).into_owned()
}

/// The digits of a number in base ten, as bytes.
pub open spec fn decimal_bytes(n: nat) -> Seq<u8>
    decreases n,
{
    if n < 10 {
        seq![(48 + n) as u8]
    } else {
        decimal_bytes(n / 10).push((48 + n % 10) as u8)
    }
}

/// The digits of a number in base ten.
pub open spec fn decimal_text(n: nat) -> Seq<char> {
    chars_of(decimal_bytes(n))
}

/// The digits of a number are ASCII.
pub proof fn lemma_decimal_ascii(n: nat)
    ensures
        is_ascii_bytes(decimal_bytes(n)),
        decimal_bytes(n).len() > 0,
    decreases n,
{
    if n >= 10 {
        lemma_decimal_ascii(n / 10);
    }
}

/// Writes a number in base ten.
pub fn decimal(n: usize) -> (r: String)
    ensures
        r@ == decimal_text(n as nat),
{
    let mut digits: Vec<u8> = Vec::new();
    let mut rest = n;
    while rest >= 10
        invariant
            decimal_bytes(n as nat) == decimal_bytes(rest as nat) + digits@.reverse(),
        decreases rest,
    {
        let ghost before = digits@;
        let d: u8 = (48 + rest % 10) as u8;
        digits.push(d);
        proof {
            assert(decimal_bytes(rest as nat) == decimal_bytes((rest / 10) as nat).push(d));
            assert(digits@.reverse() =~= seq![d] + before.reverse());
            assert(decimal_bytes((rest / 10) as nat).push(d) + before.reverse()
                =~= decimal_bytes((rest / 10) as nat) + digits@.reverse());
        }
        rest = rest / 10;
    }
    let ghost before = digits@;
    let d: u8 = (48 + rest) as u8;
    digits.push(d);
    proof {
        assert(digits@.reverse() =~= seq![d] + before.reverse());
        assert(decimal_bytes(rest as nat) + before.reverse() =~= digits@.reverse());
    }
    let ghost turned = digits@.reverse();
    let ordered = reversed(digits);
    proof {
        assert(ordered@ =~= turned);
        lemma_decimal_ascii(n as nat);
    }
    lossy_text(ordered.as_slice())
}

/// The 32 digits of Crockford's base 32: the ten figures and the capital
/// letters without I, L, O and U.
pub open spec fn base32_alphabet() -> Seq<u8> {
    seq![
        48u8, 49u8, 50u8, 51u8, 52u8, 53u8, 54u8, 55u8, 56u8, 57u8, 65u8, 66u8, 67u8, 68u8, 69u8,
        70u8, 71u8, 72u8, 74u8, 75u8, 77u8, 78u8, 80u8, 81u8, 82u8, 83u8, 84u8, 86u8, 87u8, 88u8,
        89u8, 90u8,
    ]
}

/// The `n` low digits of a number in Crockford's base 32, the most
/// significant first.
pub open spec fn base32_bytes(x: nat, n: nat) -> Seq<u8>
    decreases n,
{
    if n == 0 {
        Seq::empty()
    } else {
        base32_bytes(x / 32, (n - 1) as nat).push(base32_alphabet()[(x % 32) as int])
    }
}

/// A 128-bit number in the 26 digits of Crockford's base 32.
pub open spec fn base32_text(x: u128) -> Seq<char> {
    chars_of(base32_bytes(x as nat, 26))
}

/// The digits of base 32 are ASCII.
pub proof fn lemma_base32_ascii(x: nat, n: nat)
    ensures
        is_ascii_bytes(base32_bytes(x, n)),
        base32_bytes(x, n).len() == n,
    decreases n,
{
    if n > 0 {
        lemma_base32_ascii(x / 32, (n - 1) as nat);
        assert(base32_alphabet()[(x % 32) as int] < 128);
    }
}

/// Writes a 128-bit number in the 26 digits of Crockford's base 32.
pub fn base32(x: u128) -> (r: String)
    ensures
        r@ == base32_text(x),
        r@.len() == 26,
{
    let alphabet: [u8; 32] = [
        48, 49, 50, 51, 52, 53, 54, 55, 56, 57, 65, 66, 67, 68, 69, 70, 71, 72, 74, 75, 77, 78, 80,
        81, 82, 83, 84, 86, 87, 88, 89, 90,
    ];
    assert(alphabet@ =~= base32_alphabet());
    let mut digits: Vec<u8> = Vec::new();
    let mut rest = x;
    assert(base32_bytes(rest as nat, 26) + digits@.reverse() =~= base32_bytes(x as nat, 26));
    while digits.len() < 26
        invariant
            digits@.len() <= 26,
            alphabet@ == base32_alphabet(),
            base32_bytes(x as nat, 26) == base32_bytes(rest as nat, (26 - digits@.len()) as nat)
                + digits@.reverse(),
        decreases 26 - digits@.len(),
    {
        let ghost before = digits@;
        let ghost left = (26 - before.len()) as nat;
        let d: u8 = alphabet[(rest % 32) as usize];
        digits.push(d);
        proof {
            assert(base32_bytes(rest as nat, left) == base32_bytes(
                (rest / 32) as nat,
                (left - 1) as nat,
            ).push(d));
            assert(digits@.reverse() =~= seq![d] + before.reverse());
            assert(base32_bytes((rest / 32) as nat, (left - 1) as nat).push(d) + before.reverse()
                =~= base32_bytes((rest / 32) as nat, (left - 1) as nat) + digits@.reverse());
        }
        rest = rest / 32;
    }
    let ghost turned = digits@.reverse();
    let ordered = reversed(digits);
    proof {
        assert(ordered@ =~= turned);
        assert(base32_bytes(rest as nat, 0) + turned =~= turned);
        lemma_base32_ascii(x as nat, 26);
    }
    lossy_text(ordered.as_slice())
}

} // verus!
