//! Character-level text helpers: decimal formatting, character classes,
//! and conversions between `String` and character vectors.
use vstd::prelude::*;

verus! {

/// The characters of a string slice, in order.
pub fn chars_of(s: &str) -> (v: Vec<char>)
    ensures
        v@ == s@,
{
    let mut v: Vec<char> = Vec::new();
    for c in it: s.chars()
        invariant
            v@ == it.seq().take(it.index() as int),
            it.seq() == s@,
    {
        v.push(c);
    }
    v
}


/// `String` holding exactly the characters of `v`, in order.
///
/// Trusted: std's `FromIterator<&char> for String` (`Iterator::collect`);
/// the contract claims that collecting characters appends each one in order.
#[verifier::external_body]
pub(crate) fn string_from_chars(v: &Vec<char>) -> (s: String)
    ensures
        s@ == v@,
{
    v.iter().collect()
}

/// Appends the characters of `s` to `out`.
pub fn push_str(out: &mut Vec<char>, s: &str)
    ensures
        final(out)@ == old(out)@ + s@,
{
    let ghost start = out@;
    for c in it: s.chars()
        invariant
            out@ == start + it.seq().take(it.index() as int),
            it.seq() == s@,
    {
        out.push(c);
    }
    proof {
        assert(s@.take(s@.len() as int) =~= s@);
    }
}


/// Lexicographic order of texts by code point: the order `str` comparison
/// gives, since UTF-8 byte order follows code point order.
pub open spec fn text_less(a: Seq<char>, b: Seq<char>) -> bool
    decreases a.len(),
{
    if b.len() == 0 {
        false
    } else if a.len() == 0 {
        true
    } else if a[0] != b[0] {
        (a[0] as u32) < (b[0] as u32)
    } else {
        text_less(a.drop_first(), b.drop_first())
    }
}

/// No text is less than itself.
pub proof fn lemma_text_less_irreflexive(a: Seq<char>)
    ensures
        !text_less(a, a),
    decreases a.len(),
{
    if a.len() > 0 {
        lemma_text_less_irreflexive(a.drop_first());
    }
}

/// The text order is transitive.
pub proof fn lemma_text_less_transitive(a: Seq<char>, b: Seq<char>, c: Seq<char>)
    requires
        text_less(a, b),
        text_less(b, c),
    ensures
        text_less(a, c),
    decreases a.len(),
{
    if a.len() > 0 && b.len() > 0 && c.len() > 0 && a[0] == b[0] && b[0] == c[0] {
        lemma_text_less_transitive(a.drop_first(), b.drop_first(), c.drop_first());
    }
}

/// Two different texts are ordered one way or the other.
pub proof fn lemma_text_less_total(a: Seq<char>, b: Seq<char>)
    ensures
        a == b || text_less(a, b) || text_less(b, a),
    decreases a.len(),
{
    if a.len() > 0 && b.len() > 0 && a[0] == b[0] {
        lemma_text_less_total(a.drop_first(), b.drop_first());
        if a.drop_first() == b.drop_first() {
            assert(a =~= seq![a[0]] + a.drop_first());
            assert(b =~= seq![b[0]] + b.drop_first());
        }
    } else if a.len() == 0 && b.len() == 0 {
        assert(a =~= b);
    } else if a.len() > 0 && b.len() > 0 {
        vstd::utf8::char_u32_cast(a[0], a[0] as u32);
        vstd::utf8::char_u32_cast(b[0], b[0] as u32);
    }
}

/// The order is asymmetric.
pub proof fn lemma_text_less_asymmetric(a: Seq<char>, b: Seq<char>)
    ensures
        !(text_less(a, b) && text_less(b, a)),
{
    if text_less(a, b) && text_less(b, a) {
        lemma_text_less_transitive(a, b, a);
        lemma_text_less_irreflexive(a);
    }
}

/// Texts that start with parts of equal length compare by those parts
/// first, and by what follows when the parts are equal.
pub proof fn lemma_text_less_concat(x: Seq<char>, p: Seq<char>, y: Seq<char>, q: Seq<char>)
    requires
        x.len() == y.len(),
    ensures
        text_less(x + p, y + q) <==> (text_less(x, y) || (x == y && text_less(p, q))),
        (x + p == y + q) <==> (x == y && p == q),
    decreases x.len(),
{
    if x.len() == 0 {
        assert(x + p =~= p);
        assert(y + q =~= q);
        assert(x =~= y);
    } else {
        assert((x + p)[0] == x[0]);
        assert((y + q)[0] == y[0]);
        assert((x + p).drop_first() =~= x.drop_first() + p);
        assert((y + q).drop_first() =~= y.drop_first() + q);
        lemma_text_less_concat(x.drop_first(), p, y.drop_first(), q);
        if x[0] == y[0] && x.drop_first() == y.drop_first() {
            assert(x =~= seq![x[0]] + x.drop_first());
            assert(y =~= seq![y[0]] + y.drop_first());
        }
        if x + p == y + q {
            assert(x.drop_first() + p == y.drop_first() + q);
        }
        if x == y && p == q {
            assert(x + p == y + q);
        }
    }
}

/// Whether `a` comes after `b` in string order.
pub fn text_greater(a: &str, b: &str) -> (r: bool)
    ensures
        r == text_less(b@, a@),
{
    let x = chars_of(a);
    let y = chars_of(b);
    let mut i: usize = 0;
    assert(x@.skip(0) =~= x@);
    assert(y@.skip(0) =~= y@);
    while i < x.len() && i < y.len() && x[i] == y[i]
        invariant
            i <= x.len(),
            i <= y.len(),
            text_less(y@, x@) == text_less(y@.skip(i as int), x@.skip(i as int)),
        decreases x.len() - i,
    {
        assert(x@.skip(i as int).drop_first() =~= x@.skip(i as int + 1));
        assert(y@.skip(i as int).drop_first() =~= y@.skip(i as int + 1));
        i = i + 1;
    }
    if i == x.len() {
        false
    } else if i == y.len() {
        true
    } else {
        (x[i] as u32) > (y[i] as u32)
    }
}

/// The lowercase mapping of a text, as std's `str::to_lowercase` gives it.
pub uninterp spec fn lowercase(s: Seq<char>) -> Seq<char>;

/// Trusted: std's `str::to_lowercase`. The contract claims only that the
/// result is a fixed function of the input text (Unicode case mapping,
/// context-sensitive for final sigma); which function is left unsaid.
#[verifier::external_body]
pub(crate) fn to_lowercase(s: &str) -> (r: String)
    ensures
        r@ == lowercase(s@),
{
    s.to_lowercase()
}

/// The uppercase mapping of a text, as std's `str::to_uppercase` gives it.
pub uninterp spec fn uppercase_text(s: Seq<char>) -> Seq<char>;

/// Trusted: std's `str::to_uppercase`. The contract claims only that the
/// result is a fixed function of the input text (Unicode case mapping, where
/// one character may become several); which function is left unsaid.
#[verifier::external_body]
pub(crate) fn to_uppercase(s: &str) -> (r: String)
    ensures
        r@ == uppercase_text(s@),
{
    s.to_uppercase()
}

/// The ASCII digit character for `d` (0..=9).
pub open spec fn digit_char(d: int) -> char {
    (d + 48) as char
}

/// Decimal representation of `n` without leading zeros ("0" for zero).
pub open spec fn decimal(n: nat) -> Seq<char>
    decreases n,
{
    if n < 10 {
        seq![digit_char(n as int)]
    } else {
        decimal(n / 10).push(digit_char((n % 10) as int))
    }
}

/// `s` left-padded with '0' up to `width` characters (as `{:0width}` does).
pub open spec fn zero_padded(s: Seq<char>, width: nat) -> Seq<char> {
    if s.len() >= width {
        s
    } else {
        Seq::new((width - s.len()) as nat, |i: int| '0') + s
    }
}

/// Decimal representation of `n`, zero-padded to `width`.
pub open spec fn padded_decimal(n: nat, width: nat) -> Seq<char> {
    zero_padded(decimal(n), width)
}

/// Ten to the power `w`.
pub open spec fn ten_pow(w: nat) -> nat
    decreases w,
{
    if w == 0 { 1 } else { 10 * ten_pow((w - 1) as nat) }
}

/// Digit characters compare as their digits do.
proof fn lemma_digit_char_order(a: int, b: int)
    requires
        0 <= a <= 9,
        0 <= b <= 9,
    ensures
        (digit_char(a) == digit_char(b)) <==> a == b,
        ((digit_char(a) as u32) < (digit_char(b) as u32)) <==> a < b,
{
    assert((digit_char(a) as u32) == a + 48);
    assert((digit_char(b) as u32) == b + 48);
}

/// A number padded to `w >= 2` places is its leading digits padded to one
/// place fewer, followed by its last digit.
proof fn lemma_padded_decimal_step(n: nat, w: nat)
    requires
        w >= 2,
    ensures
        padded_decimal(n, w) == padded_decimal(n / 10, (w - 1) as nat).push(digit_char((n % 10) as int)),
{
    let c = digit_char((n % 10) as int);
    let s = decimal(n / 10);
    if n >= 10 {
        assert(decimal(n) == s.push(c));
    } else {
        assert(decimal(n) == seq![c]);
        assert(s == seq!['0']);
    }
    if n >= 10 {
        if s.len() + 1 >= w {
            assert(padded_decimal(n, w) == s.push(c));
        } else {
            assert(padded_decimal(n, w) =~= (Seq::new((w - 1 - s.len()) as nat, |i: int| '0') + s).push(c));
        }
    } else {
        assert(padded_decimal(n, w) =~= Seq::new((w - 1) as nat, |i: int| '0').push(c));
        if w == 2 {
            assert(padded_decimal(0, 1) == seq!['0']);
        } else {
            assert(padded_decimal(0, (w - 1) as nat) =~= Seq::new((w - 1) as nat, |i: int| '0'));
        }
    }
}

/// Numbers below `10^w` padded to `w` places have exactly `w` characters,
/// and their texts compare as the numbers do.
pub proof fn lemma_padded_decimal_order(a: nat, b: nat, w: nat)
    requires
        w >= 1,
        a < ten_pow(w),
        b < ten_pow(w),
    ensures
        padded_decimal(a, w).len() == w,
        padded_decimal(b, w).len() == w,
        (padded_decimal(a, w) == padded_decimal(b, w)) <==> a == b,
        text_less(padded_decimal(a, w), padded_decimal(b, w)) <==> a < b,
    decreases w,
{
    if w == 1 {
        assert(ten_pow(1) == 10) by {
            reveal_with_fuel(ten_pow, 2);
        }
        assert(padded_decimal(a, w) == seq![digit_char(a as int)]);
        assert(padded_decimal(b, w) == seq![digit_char(b as int)]);
        lemma_digit_char_order(a as int, b as int);
        assert(seq![digit_char(a as int)][0] == digit_char(a as int));
        assert(seq![digit_char(b as int)][0] == digit_char(b as int));
        assert(seq![digit_char(a as int)].drop_first() =~= Seq::<char>::empty());
        assert(seq![digit_char(b as int)].drop_first() =~= Seq::<char>::empty());
        if a == b {
            lemma_text_less_irreflexive(padded_decimal(a, w));
        }
    } else {
        let w1 = (w - 1) as nat;
        assert(ten_pow(w) == 10 * ten_pow(w1));
        lemma_padded_decimal_order(a / 10, b / 10, w1);
        lemma_padded_decimal_step(a, w);
        lemma_padded_decimal_step(b, w);
        let ca = digit_char((a % 10) as int);
        let cb = digit_char((b % 10) as int);
        lemma_digit_char_order((a % 10) as int, (b % 10) as int);
        lemma_text_less_concat(padded_decimal(a / 10, w1), seq![ca], padded_decimal(b / 10, w1), seq![cb]);
        assert(padded_decimal(a / 10, w1).push(ca) =~= padded_decimal(a / 10, w1) + seq![ca]);
        assert(padded_decimal(b / 10, w1).push(cb) =~= padded_decimal(b / 10, w1) + seq![cb]);
        assert(seq![ca].drop_first() =~= Seq::<char>::empty());
        assert(seq![cb].drop_first() =~= Seq::<char>::empty());
        assert(seq![ca][0] == ca && seq![cb][0] == cb);
        assert(!text_less(Seq::<char>::empty(), Seq::<char>::empty()));
        assert(text_less(seq![ca], seq![cb]) <==> a % 10 < b % 10);
        assert(seq![ca] == seq![cb] <==> a % 10 == b % 10) by {
            if seq![ca] == seq![cb] {
                assert(seq![ca][0] == seq![cb][0]);
            }
        }
    }
}

fn digit(d: u64) -> (c: char)
    requires
        d < 10,
    ensures
        c == digit_char(d as int),
{
    ((d as u8) + 48u8) as char
}

/// The decimal digits of `n`.
pub fn decimal_chars(n: u64) -> (v: Vec<char>)
    ensures
        v@ == decimal(n as nat),
    decreases n,
{
    if n < 10 {
        let mut v: Vec<char> = Vec::new();
        v.push(digit(n));
        v
    } else {
        let mut v = decimal_chars(n / 10);
        v.push(digit(n % 10));
        v
    }
}

/// Appends the decimal digits of `n`, zero-padded to `width`, to `out`.
pub fn push_padded(out: &mut Vec<char>, n: u64, width: usize)
    ensures
        final(out)@ == old(out)@ + padded_decimal(n as nat, width as nat),
{
    let digits = decimal_chars(n);
    let ghost start = out@;
    let mut k: usize = digits.len();
    while k < width
        invariant
            digits@ == decimal(n as nat),
            digits.len() <= k <= width || (k == digits.len() && k >= width),
            out@ == start + Seq::new((k - digits.len()) as nat, |i: int| '0'),
        decreases width - k,
    {
        out.push('0');
        k = k + 1;
        assert(out@ =~= start + Seq::new((k - digits.len()) as nat, |i: int| '0'));
    }
    let ghost before = out@;
    let mut j: usize = 0;
    while j < digits.len()
        invariant
            j <= digits.len(),
            out@ == before + digits@.take(j as int),
        decreases digits.len() - j,
    {
        out.push(digits[j]);
        j = j + 1;
        assert(out@ =~= before + digits@.take(j as int));
    }
    assert(digits@.take(digits.len() as int) =~= digits@);
    assert(out@ =~= old(out)@ + padded_decimal(n as nat, width as nat));
}

} // verus!
