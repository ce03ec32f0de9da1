//! Comparing and writing text: equality and order of names, and whole
//! numbers in decimal.

use vstd::prelude::*;
use vstd::utf8::{encode_utf8, encode_utf8_decode_utf8};

verus! {

/// Two texts with the same UTF-8 encoding are the same text.
pub proof fn lemma_encoding_is_injective(a: Seq<char>, b: Seq<char>)
    requires
        encode_utf8(a) == encode_utf8(b),
    ensures
        a == b,
{
    encode_utf8_decode_utf8(a);
    encode_utf8_decode_utf8(b);
}

/// Whether two texts are the same, character for character. Case and
/// diacritics count; nothing is normalised.
pub fn same_text(a: &str, b: &str) -> (r: bool)
    ensures
        r == (a@ == b@),
{
    let x = a.as_bytes();
    let y = b.as_bytes();
    if x.len() != y.len() {
        return false;
    }
    let n = x.len();
    let mut i: usize = 0;
    while i < n
        invariant
            i <= n,
            n == x@.len(),
            n == y@.len(),
            x@ == encode_utf8(a@),
            y@ == encode_utf8(b@),
            forall|j: int| 0 <= j < i ==> x@[j] == y@[j],
        decreases n - i,
    {
        if x[i] != y[i] {
            assert(x@[i as int] != y@[i as int]);
            return false;
        }
        i += 1;
    }
    proof {
        assert(x@ =~= y@);
        lemma_encoding_is_injective(a@, b@);
    }
    true
}

/// Lexicographic order on byte strings: `a` comes no later than `b`.
pub open spec fn bytes_le(a: Seq<u8>, b: Seq<u8>) -> bool
    decreases a.len(),
{
    if a.len() == 0 {
        true
    } else if b.len() == 0 {
        false
    } else if a[0] != b[0] {
        a[0] < b[0]
    } else {
        bytes_le(a.drop_first(), b.drop_first())
    }
}

/// The order of names: that of their UTF-8 encodings, byte by byte, which is
/// the order of `str`.
pub open spec fn text_le(a: Seq<char>, b: Seq<char>) -> bool {
    bytes_le(encode_utf8(a), encode_utf8(b))
}

/// Of two byte strings, one comes no later than the other.
pub proof fn lemma_bytes_le_total(a: Seq<u8>, b: Seq<u8>)
    ensures
        bytes_le(a, b) || bytes_le(b, a),
    decreases a.len(),
{
    if a.len() > 0 && b.len() > 0 && a[0] == b[0] {
        lemma_bytes_le_total(a.drop_first(), b.drop_first());
    }
}

/// The order on byte strings is transitive.
pub proof fn lemma_bytes_le_transitive(a: Seq<u8>, b: Seq<u8>, c: Seq<u8>)
    requires
        bytes_le(a, b),
        bytes_le(b, c),
    ensures
        bytes_le(a, c),
    decreases a.len(),
{
    if a.len() > 0 && b.len() > 0 && c.len() > 0 && a[0] == b[0] && b[0] == c[0] {
        lemma_bytes_le_transitive(a.drop_first(), b.drop_first(), c.drop_first());
    }
}

/// Whether `a` comes no later than `b` in the order of names.
pub fn text_no_later(a: &str, b: &str) -> (r: bool)
    ensures
        r == text_le(a@, b@),
{
    let x = a.as_bytes();
    let y = b.as_bytes();
    let mut i: usize = 0;
    assert(x@.skip(0) =~= x@ && y@.skip(0) =~= y@);
    while i < x.len() && i < y.len()
        invariant
            i <= x@.len(),
            i <= y@.len(),
            x@ == encode_utf8(a@),
            y@ == encode_utf8(b@),
            bytes_le(x@, y@) == bytes_le(x@.skip(i as int), y@.skip(i as int)),
        decreases x@.len() - i,
    {
        if x[i] != y[i] {
            return x[i] < y[i];
        }
        assert(x@.skip(i as int).drop_first() =~= x@.skip(i + 1));
        assert(y@.skip(i as int).drop_first() =~= y@.skip(i + 1));
        i += 1;
    }
    i == x.len()
}

/// The character that writes a single decimal digit.
pub open spec fn digit(d: int) -> char
    recommends
        0 <= d < 10,
{
    if d == 0 {
        '0'
    } else if d == 1 {
        '1'
    } else if d == 2 {
        '2'
    } else if d == 3 {
        '3'
    } else if d == 4 {
        '4'
    } else if d == 5 {
        '5'
    } else if d == 6 {
        '6'
    } else if d == 7 {
        '7'
    } else if d == 8 {
        '8'
    } else {
        '9'
    }
}

/// A whole number written in decimal, without sign and without leading
/// zeros; zero is written `0`.
pub open spec fn decimal(n: nat) -> Seq<char>
    decreases n,
{
    if n < 10 {
        seq![digit(n as int)]
    } else {
        decimal(n / 10).push(digit((n % 10) as int))
    }
}

/// The digits of `low`, which holds the lowest digit first, written highest
/// digit first.
spec fn written(low: Seq<u8>) -> Seq<char> {
    Seq::new(low.len(), |i: int| digit(low[low.len() - 1 - i] as int))
}

fn digit_text(d: u8) -> (t: &'static str)
    requires
        d < 10,
    ensures
        t@ == seq![digit(d as int)],
{
    proof {
        reveal_strlit("0");
        reveal_strlit("1");
        reveal_strlit("2");
        reveal_strlit("3");
        reveal_strlit("4");
        reveal_strlit("5");
        reveal_strlit("6");
        reveal_strlit("7");
        reveal_strlit("8");
        reveal_strlit("9");
    }
    let t = match d {
        0 => "0",
        1 => "1",
        2 => "2",
        3 => "3",
        4 => "4",
        5 => "5",
        6 => "6",
        7 => "7",
        8 => "8",
        _ => "9",
    };
    assert(t@ =~= seq![digit(d as int)]);
    t
}

/// Appends the digits of `low`, highest digit first.
fn append_written(s: &mut String, low: &Vec<u8>)
    requires
        forall|j: int| 0 <= j < low@.len() ==> low@[j] < 10,
    ensures
        final(s)@ == old(s)@ + written(low@),
{
    let mut k: usize = low.len();
    assert(s@ =~= old(s)@ + written(low@).subrange(0, 0));
    while k > 0
        invariant
            k <= low@.len(),
            forall|j: int| 0 <= j < low@.len() ==> low@[j] < 10,
            s@ == old(s)@ + written(low@).subrange(0, low@.len() - k),
        decreases k,
    {
        k -= 1;
        s.append(digit_text(low[k]));
        assert(s@ =~= old(s)@ + written(low@).subrange(0, low@.len() - k));
    }
    assert(written(low@).subrange(0, low@.len() as int) =~= written(low@));
}

/// Appends `n` in decimal.
pub fn append_decimal(s: &mut String, n: u64)
    ensures
        final(s)@ == old(s)@ + decimal(n as nat),
{
    let mut low: Vec<u8> = Vec::new();
    low.push((n % 10) as u8);
    let mut rest: u64 = n / 10;
    assert(decimal(n as nat) =~= if rest > 0 {
        decimal(rest as nat) + written(low@)
    } else {
        written(low@)
    });
    while rest > 0
        invariant
            low@.len() > 0,
            forall|j: int| 0 <= j < low@.len() ==> low@[j] < 10,
            decimal(n as nat) == if rest > 0 {
                decimal(rest as nat) + written(low@)
            } else {
                written(low@)
            },
        decreases rest,
    {
        let ghost before = low@;
        let ghost prior = rest;
        let d: u8 = (rest % 10) as u8;
        low.push(d);
        rest = rest / 10;
        assert(decimal(prior as nat) + written(before) =~= if rest > 0 {
            decimal(rest as nat) + written(low@)
        } else {
            written(low@)
        });
    }
    append_written(s, &low);
}

/// Writes `n` in decimal.
pub fn decimal_string(n: u64) -> (s: String)
    ensures
        s@ == decimal(n as nat),
{
    let mut s = String::new();
    append_decimal(&mut s, n);
    assert(s@ =~= decimal(n as nat));
    s
}

/// A whole number written in decimal, with a minus sign before it where it
/// is below zero.
pub open spec fn signed_decimal(n: int) -> Seq<char> {
    if n < 0 {
        seq!['-'] + decimal((-n) as nat)
    } else {
        decimal(n as nat)
    }
}

/// Writes `n` in decimal, with its sign.
pub fn signed_decimal_string(n: i64) -> (s: String)
    ensures
        s@ == signed_decimal(n as int),
{
    let mut s = String::new();
    if n < 0 {
        proof {
            reveal_strlit("-");
        }
        s.append("-");
        assert(s@ =~= seq!['-']);
        let magnitude: u64 = (-(n as i128)) as u64;
        append_decimal(&mut s, magnitude);
    } else {
        append_decimal(&mut s, n as u64);
        assert(s@ =~= decimal(n as nat));
    }
    s
}

/// A whole number written with exactly `width` digits, with zeros before it
/// where it has fewer, and without what it has beyond them.
pub open spec fn fixed_width(n: nat, width: nat) -> Seq<char>
    decreases width,
{
    if width == 0 {
        Seq::empty()
    } else {
        fixed_width(n / 10, (width - 1) as nat).push(digit((n % 10) as int))
    }
}

/// A run of digits without the zeros at its end.
pub open spec fn without_trailing_zeros(digits: Seq<char>) -> Seq<char>
    decreases digits.len(),
{
    if digits.len() > 0 && digits.last() == '0' {
        without_trailing_zeros(digits.drop_last())
    } else {
        digits
    }
}

/// How many units of angle make a degree: angles are held in units of 1e-7
/// degree.
pub const ANGLE_UNITS_PER_DEGREE: i64 = 10_000_000;

/// An angle in units of 1e-7 degree, written in degrees: the sign where it
/// is below zero, the whole degrees, and, where there is a fraction, a point
/// and the fraction's digits up to the last that is not zero.
pub open spec fn degrees(angle: int) -> Seq<char> {
    let magnitude = if angle < 0 {
        -angle
    } else {
        angle
    };
    let whole = decimal((magnitude / (ANGLE_UNITS_PER_DEGREE as int)) as nat);
    let fraction = without_trailing_zeros(
        fixed_width((magnitude % (ANGLE_UNITS_PER_DEGREE as int)) as nat, 7),
    );
    let unsigned = if fraction.len() == 0 {
        whole
    } else {
        whole + seq!['.'] + fraction
    };
    if angle < 0 {
        seq!['-'] + unsigned
    } else {
        unsigned
    }
}

/// Writes an angle in degrees.
pub fn degrees_string(angle: i32) -> (s: String)
    ensures
        s@ == degrees(angle as int),
{
    let mut s = String::new();
    let magnitude: u64 = if angle < 0 {
        proof {
            reveal_strlit("-");
        }
        s.append("-");
        (-(angle as i64)) as u64
    } else {
        angle as u64
    };
    let ghost sign = s@;
    assert(sign =~= if angle < 0 {
        seq!['-']
    } else {
        Seq::<char>::empty()
    });
    append_decimal(&mut s, magnitude / (ANGLE_UNITS_PER_DEGREE as u64));
    let ghost whole = decimal((magnitude / (ANGLE_UNITS_PER_DEGREE as u64)) as nat);
    let ghost part = (magnitude % (ANGLE_UNITS_PER_DEGREE as u64)) as nat;
    let mut rest: u64 = magnitude % (ANGLE_UNITS_PER_DEGREE as u64);
    let mut width: usize = 7;
    while width > 0 && rest % 10 == 0
        invariant
            width <= 7,
            without_trailing_zeros(fixed_width(part, 7)) == without_trailing_zeros(
                fixed_width(rest as nat, width as nat),
            ),
        decreases width,
    {
        assert(fixed_width(rest as nat, width as nat).drop_last() =~= fixed_width(
            (rest / 10) as nat,
            (width - 1) as nat,
        ));
        rest = rest / 10;
        width -= 1;
    }
    let ghost fraction = fixed_width(rest as nat, width as nat);
    assert(without_trailing_zeros(fraction) == fraction);
    assert(fraction.len() == width) by {
        lemma_fixed_width_len(rest as nat, width as nat);
    }
    if width > 0 {
        proof {
            reveal_strlit(".");
        }
        s.append(".");
        let mut low: Vec<u8> = Vec::new();
        let mut left: u64 = rest;
        while low.len() < width
            invariant
                low@.len() <= width <= 7,
                forall|j: int| 0 <= j < low@.len() ==> low@[j] < 10,
                fraction == fixed_width(left as nat, (width - low@.len()) as nat) + written(low@),
            decreases width - low@.len(),
        {
            let ghost before = low@;
            let ghost prior = left;
            low.push((left % 10) as u8);
            left = left / 10;
            assert(fixed_width(prior as nat, (width - before.len()) as nat) + written(before)
                =~= fixed_width(left as nat, (width - low@.len()) as nat) + written(low@));
        }
        assert(fraction =~= written(low@));
        append_written(&mut s, &low);
        assert(s@ =~= sign + (whole + seq!['.'] + fraction));
    } else {
        assert(s@ =~= sign + whole);
    }
    s
}

/// A number written with a fixed width has that many digits.
pub proof fn lemma_fixed_width_len(n: nat, width: nat)
    ensures
        fixed_width(n, width).len() == width,
    decreases width,
{
    if width > 0 {
        lemma_fixed_width_len(n / 10, (width - 1) as nat);
    }
}

} // verus!
