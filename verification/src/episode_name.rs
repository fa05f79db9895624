//! The episode-file naming grammar: the `S00E00` marker (case-insensitive,
//! with optional separators between season and episode), extension
//! stripping, and turning the text before the marker into a series title.
use vstd::prelude::*;
use crate::text::{chars_of, lowercase, string_from_chars, to_lowercase};

verus! {

/// Unicode `White_Space` characters (what `char::is_whitespace` and the
/// `\s` class accept).
pub open spec fn is_white_space(c: char) -> bool {
    let v = c as u32;
    ||| (0x9 <= v && v <= 0xd)
    ||| v == 0x20
    ||| v == 0x85
    ||| v == 0xa0
    ||| v == 0x1680
    ||| (0x2000 <= v && v <= 0x200a)
    ||| v == 0x2028
    ||| v == 0x2029
    ||| v == 0x202f
    ||| v == 0x205f
    ||| v == 0x3000
}

/// Whether `c` is Unicode white space.
pub fn white_space(c: char) -> (b: bool)
    ensures
        b == is_white_space(c),
{
    let v = c as u32;
    (0x9 <= v && v <= 0xd) || v == 0x20 || v == 0x85 || v == 0xa0 || v == 0x1680 || (0x2000 <= v
        && v <= 0x200a) || v == 0x2028 || v == 0x2029 || v == 0x202f || v == 0x205f || v == 0x3000
}

/// Unicode decimal digits, general category `Nd` (Unicode 16.0): the `\d`
/// class of the naming pattern.
pub open spec fn is_decimal_digit(c: char) -> bool {
    let v = c as u32;
    ||| (0x30 <= v && v <= 0x39)
    ||| (0x660 <= v && v <= 0x669)
    ||| (0x6f0 <= v && v <= 0x6f9)
    ||| (0x7c0 <= v && v <= 0x7c9)
    ||| (0x966 <= v && v <= 0x96f)
    ||| (0x9e6 <= v && v <= 0x9ef)
    ||| (0xa66 <= v && v <= 0xa6f)
    ||| (0xae6 <= v && v <= 0xaef)
    ||| (0xb66 <= v && v <= 0xb6f)
    ||| (0xbe6 <= v && v <= 0xbef)
    ||| (0xc66 <= v && v <= 0xc6f)
    ||| (0xce6 <= v && v <= 0xcef)
    ||| (0xd66 <= v && v <= 0xd6f)
    ||| (0xde6 <= v && v <= 0xdef)
    ||| (0xe50 <= v && v <= 0xe59)
    ||| (0xed0 <= v && v <= 0xed9)
    ||| (0xf20 <= v && v <= 0xf29)
    ||| (0x1040 <= v && v <= 0x1049)
    ||| (0x1090 <= v && v <= 0x1099)
    ||| (0x17e0 <= v && v <= 0x17e9)
    ||| (0x1810 <= v && v <= 0x1819)
    ||| (0x1946 <= v && v <= 0x194f)
    ||| (0x19d0 <= v && v <= 0x19d9)
    ||| (0x1a80 <= v && v <= 0x1a89)
    ||| (0x1a90 <= v && v <= 0x1a99)
    ||| (0x1b50 <= v && v <= 0x1b59)
    ||| (0x1bb0 <= v && v <= 0x1bb9)
    ||| (0x1c40 <= v && v <= 0x1c49)
    ||| (0x1c50 <= v && v <= 0x1c59)
    ||| (0xa620 <= v && v <= 0xa629)
    ||| (0xa8d0 <= v && v <= 0xa8d9)
    ||| (0xa900 <= v && v <= 0xa909)
    ||| (0xa9d0 <= v && v <= 0xa9d9)
    ||| (0xa9f0 <= v && v <= 0xa9f9)
    ||| (0xaa50 <= v && v <= 0xaa59)
    ||| (0xabf0 <= v && v <= 0xabf9)
    ||| (0xff10 <= v && v <= 0xff19)
    ||| (0x104a0 <= v && v <= 0x104a9)
    ||| (0x10d30 <= v && v <= 0x10d39)
    ||| (0x10d40 <= v && v <= 0x10d49)
    ||| (0x11066 <= v && v <= 0x1106f)
    ||| (0x110f0 <= v && v <= 0x110f9)
    ||| (0x11136 <= v && v <= 0x1113f)
    ||| (0x111d0 <= v && v <= 0x111d9)
    ||| (0x112f0 <= v && v <= 0x112f9)
    ||| (0x11450 <= v && v <= 0x11459)
    ||| (0x114d0 <= v && v <= 0x114d9)
    ||| (0x11650 <= v && v <= 0x11659)
    ||| (0x116c0 <= v && v <= 0x116c9)
    ||| (0x116d0 <= v && v <= 0x116e3)
    ||| (0x11730 <= v && v <= 0x11739)
    ||| (0x118e0 <= v && v <= 0x118e9)
    ||| (0x11950 <= v && v <= 0x11959)
    ||| (0x11bf0 <= v && v <= 0x11bf9)
    ||| (0x11c50 <= v && v <= 0x11c59)
    ||| (0x11d50 <= v && v <= 0x11d59)
    ||| (0x11da0 <= v && v <= 0x11da9)
    ||| (0x11f50 <= v && v <= 0x11f59)
    ||| (0x16130 <= v && v <= 0x16139)
    ||| (0x16a60 <= v && v <= 0x16a69)
    ||| (0x16ac0 <= v && v <= 0x16ac9)
    ||| (0x16b50 <= v && v <= 0x16b59)
    ||| (0x16d70 <= v && v <= 0x16d79)
    ||| (0x1ccf0 <= v && v <= 0x1ccf9)
    ||| (0x1d7ce <= v && v <= 0x1d7ff)
    ||| (0x1e140 <= v && v <= 0x1e149)
    ||| (0x1e2f0 <= v && v <= 0x1e2f9)
    ||| (0x1e4f0 <= v && v <= 0x1e4f9)
    ||| (0x1e5f1 <= v && v <= 0x1e5fa)
    ||| (0x1e950 <= v && v <= 0x1e959)
    ||| (0x1fbf0 <= v && v <= 0x1fbf9)
}

/// Whether `c` is a Unicode decimal digit.
pub fn decimal_digit(c: char) -> (b: bool)
    ensures
        b == is_decimal_digit(c),
{
    let v = c as u32;
    (0x30 <= v && v <= 0x39) ||
        (0x660 <= v && v <= 0x669) ||
        (0x6f0 <= v && v <= 0x6f9) ||
        (0x7c0 <= v && v <= 0x7c9) ||
        (0x966 <= v && v <= 0x96f) ||
        (0x9e6 <= v && v <= 0x9ef) ||
        (0xa66 <= v && v <= 0xa6f) ||
        (0xae6 <= v && v <= 0xaef) ||
        (0xb66 <= v && v <= 0xb6f) ||
        (0xbe6 <= v && v <= 0xbef) ||
        (0xc66 <= v && v <= 0xc6f) ||
        (0xce6 <= v && v <= 0xcef) ||
        (0xd66 <= v && v <= 0xd6f) ||
        (0xde6 <= v && v <= 0xdef) ||
        (0xe50 <= v && v <= 0xe59) ||
        (0xed0 <= v && v <= 0xed9) ||
        (0xf20 <= v && v <= 0xf29) ||
        (0x1040 <= v && v <= 0x1049) ||
        (0x1090 <= v && v <= 0x1099) ||
        (0x17e0 <= v && v <= 0x17e9) ||
        (0x1810 <= v && v <= 0x1819) ||
        (0x1946 <= v && v <= 0x194f) ||
        (0x19d0 <= v && v <= 0x19d9) ||
        (0x1a80 <= v && v <= 0x1a89) ||
        (0x1a90 <= v && v <= 0x1a99) ||
        (0x1b50 <= v && v <= 0x1b59) ||
        (0x1bb0 <= v && v <= 0x1bb9) ||
        (0x1c40 <= v && v <= 0x1c49) ||
        (0x1c50 <= v && v <= 0x1c59) ||
        (0xa620 <= v && v <= 0xa629) ||
        (0xa8d0 <= v && v <= 0xa8d9) ||
        (0xa900 <= v && v <= 0xa909) ||
        (0xa9d0 <= v && v <= 0xa9d9) ||
        (0xa9f0 <= v && v <= 0xa9f9) ||
        (0xaa50 <= v && v <= 0xaa59) ||
        (0xabf0 <= v && v <= 0xabf9) ||
        (0xff10 <= v && v <= 0xff19) ||
        (0x104a0 <= v && v <= 0x104a9) ||
        (0x10d30 <= v && v <= 0x10d39) ||
        (0x10d40 <= v && v <= 0x10d49) ||
        (0x11066 <= v && v <= 0x1106f) ||
        (0x110f0 <= v && v <= 0x110f9) ||
        (0x11136 <= v && v <= 0x1113f) ||
        (0x111d0 <= v && v <= 0x111d9) ||
        (0x112f0 <= v && v <= 0x112f9) ||
        (0x11450 <= v && v <= 0x11459) ||
        (0x114d0 <= v && v <= 0x114d9) ||
        (0x11650 <= v && v <= 0x11659) ||
        (0x116c0 <= v && v <= 0x116c9) ||
        (0x116d0 <= v && v <= 0x116e3) ||
        (0x11730 <= v && v <= 0x11739) ||
        (0x118e0 <= v && v <= 0x118e9) ||
        (0x11950 <= v && v <= 0x11959) ||
        (0x11bf0 <= v && v <= 0x11bf9) ||
        (0x11c50 <= v && v <= 0x11c59) ||
        (0x11d50 <= v && v <= 0x11d59) ||
        (0x11da0 <= v && v <= 0x11da9) ||
        (0x11f50 <= v && v <= 0x11f59) ||
        (0x16130 <= v && v <= 0x16139) ||
        (0x16a60 <= v && v <= 0x16a69) ||
        (0x16ac0 <= v && v <= 0x16ac9) ||
        (0x16b50 <= v && v <= 0x16b59) ||
        (0x16d70 <= v && v <= 0x16d79) ||
        (0x1ccf0 <= v && v <= 0x1ccf9) ||
        (0x1d7ce <= v && v <= 0x1d7ff) ||
        (0x1e140 <= v && v <= 0x1e149) ||
        (0x1e2f0 <= v && v <= 0x1e2f9) ||
        (0x1e4f0 <= v && v <= 0x1e4f9) ||
        (0x1e5f1 <= v && v <= 0x1e5fa) ||
        (0x1e950 <= v && v <= 0x1e959) ||
        (0x1fbf0 <= v && v <= 0x1fbf9)
}

/// The letter `s` without regard to case (`S`, `s`, and `ſ`, which folds to it).
pub open spec fn is_letter_s(c: char) -> bool {
    c == 'S' || c == 's' || c == '\u{17f}'
}

/// The letter `e` without regard to case.
pub open spec fn is_letter_e(c: char) -> bool {
    c == 'E' || c == 'e'
}

/// Characters allowed between the season and the `e`: white space, `.`, `_`, `-`.
pub open spec fn is_marker_separator(c: char) -> bool {
    is_white_space(c) || c == '.' || c == '_' || c == '-'
}

/// Number of decimal digits in a row from `p`, counting at most `max`.
pub open spec fn digit_run(s: Seq<char>, p: int, max: nat) -> nat
    decreases max,
{
    if max == 0 || p < 0 || p >= s.len() || !is_decimal_digit(s[p]) {
        0
    } else {
        1 + digit_run(s, p + 1, (max - 1) as nat)
    }
}

/// Number of separator characters in a row from `p`.
pub open spec fn separator_run(s: Seq<char>, p: int) -> nat
    decreases s.len() - p,
{
    if p < 0 || p >= s.len() || !is_marker_separator(s[p]) {
        0
    } else {
        1 + separator_run(s, p + 1)
    }
}

/// The marker `s<1-3 digits><separators>e<1-3 digits>` starting at `i`, as the
/// bounds of the two digit groups: `(season start, season end, episode start,
/// episode end)`. Digit groups take as many digits as they can, up to three;
/// a fourth digit right after the season makes the marker fail there.
pub open spec fn marker_at(s: Seq<char>, i: int) -> Option<(int, int, int, int)> {
    if !(0 <= i < s.len() && is_letter_s(s[i])) {
        None
    } else {
        let a = i + 1;
        let b = a + digit_run(s, a, 3);
        let w = b + separator_run(s, b);
        if b == a || w >= s.len() || !is_letter_e(s[w]) {
            None
        } else {
            let c = w + 1;
            let d = c + digit_run(s, c, 3);
            if d == c {
                None
            } else {
                Some((a, b, c, d))
            }
        }
    }
}

/// The leftmost marker at or after `i`: its start and digit-group bounds.
pub open spec fn find_marker_from(s: Seq<char>, i: int) -> Option<(int, (int, int, int, int))>
    decreases s.len() - i,
{
    if i < 0 || i >= s.len() {
        None
    } else {
        match marker_at(s, i) {
            Some(m) => Some((i, m)),
            None => find_marker_from(s, i + 1),
        }
    }
}

/// The leftmost marker in `s`.
pub open spec fn find_marker(s: Seq<char>) -> Option<(int, (int, int, int, int))> {
    find_marker_from(s, 0)
}

fn count_digits(s: &Vec<char>, p: usize, max: usize) -> (n: usize)
    requires
        max <= 3,
        p <= s.len(),
    ensures
        n == digit_run(s@, p as int, max as nat),
        n <= max,
        p + n <= s.len(),
    decreases max,
{
    if max == 0 || p >= s.len() || !decimal_digit(s[p]) {
        0
    } else {
        1 + count_digits(s, p + 1, max - 1)
    }
}

fn count_separators(s: &Vec<char>, p: usize) -> (n: usize)
    requires
        p <= s.len(),
    ensures
        n == separator_run(s@, p as int),
        p + n <= s.len(),
    decreases s.len() - p,
{
    if p >= s.len() {
        0
    } else {
        let c = s[p];
        if !(white_space(c) || c == '.' || c == '_' || c == '-') {
            0
        } else {
            1 + count_separators(s, p + 1)
        }
    }
}

fn marker(s: &Vec<char>, i: usize) -> (r: Option<(usize, usize, usize, usize)>)
    requires
        i < s.len(),
    ensures
        match r {
            Some(m) => marker_at(s@, i as int) == Some((m.0 as int, m.1 as int, m.2 as int, m.3 as int)),
            None => marker_at(s@, i as int) is None,
        },
{
    let c = s[i];
    if !(c == 'S' || c == 's' || c == '\u{17f}') {
        return None;
    }
    let a = i + 1;
    let b = a + count_digits(s, a, 3);
    if b == a || b > s.len() {
        return None;
    }
    proof {
        if b > a {
            assert(is_decimal_digit(s@[a as int]));
        }
    }
    let w = b + count_separators(s, b);
    if w >= s.len() || !(s[w] == 'E' || s[w] == 'e') {
        return None;
    }
    let c2 = w + 1;
    let d = c2 + count_digits(s, c2, 3);
    if d == c2 {
        return None;
    }
    Some((a, b, c2, d))
}

/// The leftmost episode marker in `s`: where it starts and the bounds of its
/// two digit groups.
pub fn find_episode_marker(s: &Vec<char>) -> (r: Option<(usize, usize, usize, usize, usize)>)
    ensures
        match r {
            Some(m) => find_marker(s@) == Some((m.0 as int, (m.1 as int, m.2 as int, m.3 as int, m.4 as int))),
            None => find_marker(s@) is None,
        },
{
    let mut i: usize = 0;
    while i < s.len()
        invariant
            i <= s.len(),
            find_marker(s@) == find_marker_from(s@, i as int),
        decreases s.len() - i,
    {
        match marker(s, i) {
            Some(m) => {
                return Some((i, m.0, m.1, m.2, m.3));
            },
            None => {},
        }
        i = i + 1;
    }
    None
}

/// Whether every character is an ASCII digit.
pub open spec fn all_ascii_digits(g: Seq<char>) -> bool {
    forall|i: int| 0 <= i < g.len() ==> '0' <= #[trigger] g[i] && g[i] <= '9'
}

/// The value of a run of ASCII digits.
pub open spec fn ascii_digits_value(g: Seq<char>) -> nat
    decreases g.len(),
{
    if g.len() == 0 {
        0
    } else {
        ascii_digits_value(g.drop_last()) * 10 + ((g.last() as u32) - 48) as nat
    }
}

/// What a digit group of the marker yields as a number: its value when it is
/// made of ASCII digits, and 0 otherwise (other decimal digits do not parse).
pub open spec fn group_number(g: Seq<char>) -> u32 {
    if g.len() > 0 && all_ascii_digits(g) {
        ascii_digits_value(g) as u32
    } else {
        0
    }
}

proof fn lemma_ascii_digits_value_bound(g: Seq<char>)
    requires
        all_ascii_digits(g),
        g.len() <= 3,
    ensures
        ascii_digits_value(g) < 1000,
        g.len() <= 2 ==> ascii_digits_value(g) < 100,
        g.len() <= 1 ==> ascii_digits_value(g) < 10,
    decreases g.len(),
{
    if g.len() > 0 {
        assert(all_ascii_digits(g.drop_last())) by {
            assert forall|i: int| 0 <= i < g.drop_last().len() implies '0' <= #[trigger] g.drop_last()[i]
                && g.drop_last()[i] <= '9' by {
                assert(g.drop_last()[i] == g[i]);
            }
        }
        lemma_ascii_digits_value_bound(g.drop_last());
        assert('0' <= g[g.len() - 1] && g[g.len() - 1] <= '9');
    }
}

/// Parses a digit group of at most three characters (`str::parse::<u32>`,
/// with 0 when it does not parse).
pub fn parse_group(s: &Vec<char>, from: usize, to: usize) -> (n: u32)
    requires
        from <= to <= s.len(),
        to - from <= 3,
    ensures
        n == group_number(s@.subrange(from as int, to as int)),
{
    let ghost g = s@.subrange(from as int, to as int);
    let mut k: usize = from;
    let mut v: u32 = 0;
    while k < to
        invariant
            from <= k <= to,
            to <= s.len(),
            to - from <= 3,
            g == s@.subrange(from as int, to as int),
            all_ascii_digits(s@.subrange(from as int, k as int)),
            v == ascii_digits_value(s@.subrange(from as int, k as int)),
        decreases to - k,
    {
        let c = s[k];
        if !('0' <= c && c <= '9') {
            proof {
                assert(g[k - from] == c);
            }
            return 0;
        }
        let ghost prefix = s@.subrange(from as int, k as int + 1);
        proof {
            assert(prefix.drop_last() =~= s@.subrange(from as int, k as int));
            assert(all_ascii_digits(prefix)) by {
                assert forall|i: int| 0 <= i < prefix.len() implies '0' <= #[trigger] prefix[i] && prefix[i]
                    <= '9' by {
                    if i < prefix.len() - 1 {
                        assert(prefix[i] == s@.subrange(from as int, k as int)[i]);
                    }
                }
            }
            lemma_ascii_digits_value_bound(s@.subrange(from as int, k as int));
        }
        v = v * 10 + ((c as u32) - 48);
        k = k + 1;
    }
    proof {
        if g.len() > 0 {
            lemma_ascii_digits_value_bound(g);
        }
    }
    if from == to {
        0
    } else {
        v
    }
}

/// The uppercase mapping of a character, as std's `char::to_uppercase` gives it.
pub uninterp spec fn uppercase(c: char) -> Seq<char>;

/// Trusted: std's `char::to_uppercase`, collected into a `String`. The
/// contract claims that the result is a fixed function of the character and,
/// as the documentation says ("one or more chars"), not empty; which Unicode
/// case mapping it is is left unsaid.
#[verifier::external_body]
fn char_to_uppercase(c: char) -> (s: String)
    ensures
        s@ == uppercase(c),
        s@.len() >= 1,
{
    c.to_uppercase().collect()
}

/// Whether every character is an ASCII uppercase letter.
pub open spec fn all_ascii_uppercase(w: Seq<char>) -> bool {
    forall|i: int| 0 <= i < w.len() ==> 'A' <= #[trigger] w[i] && w[i] <= 'Z'
}

/// Title case for one word: all-caps acronyms of up to four letters (e.g.
/// "SNL") stay as they are; otherwise the first character is uppercased and
/// the rest lowercased.
pub open spec fn title_word_text(w: Seq<char>) -> Seq<char> {
    if all_ascii_uppercase(w) && w.len() <= 4 {
        w
    } else if w.len() == 0 {
        w
    } else {
        uppercase(w[0]) + lowercase(w.drop_first())
    }
}

/// Title-cases one word, given as characters.
fn title_word_chars(w: &Vec<char>) -> (r: Vec<char>)
    ensures
        r@ == title_word_text(w@),
        w@.len() > 0 ==> r@.len() > 0,
{
    let mut all_upper = true;
    let mut i: usize = 0;
    while i < w.len()
        invariant
            i <= w.len(),
            all_upper == all_ascii_uppercase(w@.take(i as int)),
        decreases w.len() - i,
    {
        proof {
            let t = w@.take(i as int + 1);
            if all_ascii_uppercase(t) {
                assert forall|k: int| 0 <= k < i implies 'A' <= #[trigger] w@.take(i as int)[k]
                    && w@.take(i as int)[k] <= 'Z' by {
                    assert(w@.take(i as int)[k] == t[k]);
                }
                assert(t[i as int] == w@[i as int]);
            }
        }
        let c = w[i];
        all_upper = all_upper && 'A' <= c && c <= 'Z';
        i = i + 1;
    }
    assert(w@.take(i as int) =~= w@);
    if all_upper && w.len() <= 4 {
        return w.clone();
    }
    if w.len() == 0 {
        return Vec::new();
    }
    let mut out = chars_of(char_to_uppercase(w[0]).as_str());
    let mut rest: Vec<char> = Vec::new();
    let mut k: usize = 1;
    while k < w.len()
        invariant
            1 <= k <= w.len(),
            rest@ == w@.subrange(1, k as int),
        decreases w.len() - k,
    {
        rest.push(w[k]);
        k = k + 1;
        assert(rest@ =~= w@.subrange(1, k as int));
    }
    assert(rest@ =~= w@.drop_first());
    let lower = chars_of(to_lowercase(string_from_chars(&rest).as_str()).as_str());
    let mut j: usize = 0;
    let ghost up = out@;
    while j < lower.len()
        invariant
            j <= lower.len(),
            out@ == up + lower@.take(j as int),
        decreases lower.len() - j,
    {
        out.push(lower[j]);
        j = j + 1;
        assert(out@ =~= up + lower@.take(j as int));
    }
    assert(lower@.take(j as int) =~= lower@);
    out
}

/// `.`, `_` and `-` read as spaces in series titles.
pub open spec fn separator_to_space(c: char) -> char {
    if c == '.' || c == '_' || c == '-' { ' ' } else { c }
}

/// The white-space separated words of `s` from position `i` on, where `cur`
/// is the part of a word already read.
pub open spec fn words_from(s: Seq<char>, i: int, cur: Seq<char>) -> Seq<Seq<char>>
    decreases s.len() - i,
{
    if i < 0 || i >= s.len() {
        if cur.len() > 0 { seq![cur] } else { Seq::empty() }
    } else if is_white_space(s[i]) {
        if cur.len() > 0 {
            seq![cur] + words_from(s, i + 1, Seq::empty())
        } else {
            words_from(s, i + 1, Seq::empty())
        }
    } else {
        words_from(s, i + 1, cur.push(s[i]))
    }
}

/// The white-space separated words of `s` (`str::split_whitespace`).
pub open spec fn words(s: Seq<char>) -> Seq<Seq<char>> {
    words_from(s, 0, Seq::empty())
}

/// Title-cased words, leaving out any that come out empty.
pub open spec fn titled_words(ws: Seq<Seq<char>>) -> Seq<Seq<char>>
    decreases ws.len(),
{
    if ws.len() == 0 {
        ws
    } else {
        let t = title_word_text(ws.last());
        if t.len() > 0 {
            titled_words(ws.drop_last()).push(t)
        } else {
            titled_words(ws.drop_last())
        }
    }
}

/// Words joined with single spaces.
pub open spec fn join_words(ws: Seq<Seq<char>>) -> Seq<char>
    decreases ws.len(),
{
    if ws.len() == 0 {
        Seq::empty()
    } else if ws.len() == 1 {
        ws[0]
    } else {
        join_words(ws.drop_last()) + seq![' '] + ws.last()
    }
}

/// Number of white-space characters at the start of `s`.
pub open spec fn leading_space(s: Seq<char>) -> nat
    decreases s.len(),
{
    if s.len() > 0 && is_white_space(s[0]) { 1 + leading_space(s.drop_first()) } else { 0 }
}

/// Number of white-space characters at the end of `s`.
pub open spec fn trailing_space(s: Seq<char>) -> nat
    decreases s.len(),
{
    if s.len() > 0 && is_white_space(s.last()) { 1 + trailing_space(s.drop_last()) } else { 0 }
}

/// `s` without white space at either end (`str::trim`).
pub open spec fn trim_text(s: Seq<char>) -> Seq<char> {
    let a = leading_space(s);
    if a >= s.len() {
        Seq::empty()
    } else {
        s.subrange(a as int, s.len() - trailing_space(s))
    }
}

/// The series title made from the text before the episode marker: `.`,
/// `_`, `-` become spaces, words are title-cased and joined by single
/// spaces, and the result is trimmed ("Modern.Family." gives "Modern Family").
pub open spec fn clean_name_text(raw: Seq<char>) -> Seq<char> {
    trim_text(join_words(titled_words(words(raw.map_values(|c: char| separator_to_space(c))))))
}

proof fn lemma_leading_space(s: Seq<char>)
    ensures
        leading_space(s) <= s.len(),
        forall|k: int| 0 <= k < leading_space(s) ==> is_white_space(#[trigger] s[k]),
        leading_space(s) < s.len() ==> !is_white_space(s[leading_space(s) as int]),
    decreases s.len(),
{
    if s.len() > 0 && is_white_space(s[0]) {
        lemma_leading_space(s.drop_first());
        assert forall|k: int| 0 <= k < leading_space(s) implies is_white_space(#[trigger] s[k]) by {
            if k > 0 {
                assert(s[k] == s.drop_first()[k - 1]);
            }
        }
    }
}

proof fn lemma_trailing_space(s: Seq<char>)
    ensures
        trailing_space(s) <= s.len(),
        forall|k: int| s.len() - trailing_space(s) <= k < s.len() ==> is_white_space(#[trigger] s[k]),
        trailing_space(s) < s.len() ==> !is_white_space(s[s.len() - 1 - trailing_space(s)]),
    decreases s.len(),
{
    if s.len() > 0 && is_white_space(s.last()) {
        lemma_trailing_space(s.drop_last());
        assert forall|k: int| s.len() - trailing_space(s) <= k < s.len() implies is_white_space(
            #[trigger] s[k],
        ) by {
            if k < s.len() - 1 {
                assert(s[k] == s.drop_last()[k]);
            }
        }
    }
}

/// `s` without white space at either end.
pub fn trim(s: &Vec<char>) -> (r: Vec<char>)
    ensures
        r@ == trim_text(s@),
{
    proof {
        lemma_leading_space(s@);
        lemma_trailing_space(s@);
    }
    let mut a: usize = 0;
    while a < s.len() && white_space(s[a])
        invariant
            a <= s.len(),
            forall|k: int| 0 <= k < a ==> is_white_space(#[trigger] s@[k]),
        decreases s.len() - a,
    {
        a = a + 1;
    }
    assert(a == leading_space(s@)) by {
        let l = leading_space(s@);
        if l < a {
            assert(is_white_space(s@[l as int]));
        } else if l > a {
            assert(is_white_space(s@[a as int]));
        }
    }
    if a >= s.len() {
        return Vec::new();
    }
    let mut b: usize = 0;
    while b < s.len() - a && white_space(s[s.len() - 1 - b])
        invariant
            a < s.len(),
            b <= s.len() - a,
            a == leading_space(s@),
            forall|k: int| s.len() - b <= k < s.len() ==> is_white_space(#[trigger] s@[k]),
        decreases s.len() - a - b,
    {
        b = b + 1;
    }
    assert(b == trailing_space(s@)) by {
        let t = trailing_space(s@);
        if t < b {
            assert(is_white_space(s@[s.len() - 1 - t]));
        } else if t > b {
            if b < s.len() - a {
                assert(is_white_space(s@[s.len() - 1 - b]));
            } else {
                assert(!is_white_space(s@[a as int]));
                assert(is_white_space(s@[a as int]));
            }
        }
    }
    let mut r: Vec<char> = Vec::new();
    let mut k: usize = a;
    while k < s.len() - b
        invariant
            a <= k <= s.len() - b,
            b <= s.len() - a,
            r@ == s@.subrange(a as int, k as int),
        decreases s.len() - b - k,
    {
        r.push(s[k]);
        k = k + 1;
        assert(r@ =~= s@.subrange(a as int, k as int));
    }
    r
}

/// Every title-cased word is non-empty.
proof fn lemma_titled_words_nonempty(ws: Seq<Seq<char>>)
    ensures
        forall|i: int| 0 <= i < titled_words(ws).len() ==> (#[trigger] titled_words(ws)[i]).len() > 0,
    decreases ws.len(),
{
    if ws.len() > 0 {
        lemma_titled_words_nonempty(ws.drop_last());
        let prev = titled_words(ws.drop_last());
        let t = title_word_text(ws.last());
        if t.len() > 0 {
            assert forall|i: int| 0 <= i < prev.push(t).len() implies (#[trigger] prev.push(t)[i]).len() > 0 by {
                if i < prev.len() {
                    assert(prev.push(t)[i] == prev[i]);
                }
            }
        }
    }
}

/// Joining non-empty words gives an empty text only for no words.
proof fn lemma_join_words_empty(ws: Seq<Seq<char>>)
    requires
        forall|i: int| 0 <= i < ws.len() ==> (#[trigger] ws[i]).len() > 0,
    ensures
        (join_words(ws).len() == 0) == (ws.len() == 0),
    decreases ws.len(),
{
    if ws.len() > 1 {
        assert(ws.drop_last()[0] == ws[0]);
        lemma_join_words_empty(ws.drop_last());
    }
}

fn append(out: &mut Vec<char>, t: &Vec<char>)
    ensures
        final(out)@ == old(out)@ + t@,
{
    let ghost start = out@;
    let mut j: usize = 0;
    while j < t.len()
        invariant
            j <= t.len(),
            out@ == start + t@.take(j as int),
        decreases t.len() - j,
    {
        out.push(t[j]);
        j = j + 1;
        assert(out@ =~= start + t@.take(j as int));
    }
    assert(t@.take(j as int) =~= t@);
}

/// Adds one finished word to the joined title.
fn add_word(out: &mut Vec<char>, word: &Vec<char>, Ghost(done): Ghost<Seq<Seq<char>>>)
    requires
        old(out)@ == join_words(titled_words(done)),
    ensures
        final(out)@ == join_words(titled_words(done.push(word@))),
{
    proof {
        lemma_titled_words_nonempty(done);
        lemma_join_words_empty(titled_words(done));
        assert(done.push(word@).drop_last() =~= done);
    }
    let t = title_word_chars(word);
    if t.len() > 0 {
        let ghost prev = titled_words(done);
        assert(titled_words(done.push(word@)) == prev.push(t@));
        if out.len() > 0 {
            out.push(' ');
            assert(prev.push(t@).drop_last() =~= prev);
        }
        append(out, &t);
        proof {
            if prev.len() == 0 {
                assert(out@ =~= t@);
            }
        }
    }
}

/// Turn `Modern.Family.` into `Modern Family`, on characters.
pub(crate) fn clean_name_chars(raw: &Vec<char>) -> (r: Vec<char>)
    ensures
        r@ == clean_name_text(raw@),
{
    let ghost s = raw@.map_values(|c: char| separator_to_space(c));
    let mut out: Vec<char> = Vec::new();
    let mut cur: Vec<char> = Vec::new();
    let ghost mut done: Seq<Seq<char>> = Seq::empty();
    let mut i: usize = 0;
    while i < raw.len()
        invariant
            i <= raw.len(),
            s == raw@.map_values(|c: char| separator_to_space(c)),
            done + words_from(s, i as int, cur@) == words(s),
            out@ == join_words(titled_words(done)),
        decreases raw.len() - i,
    {
        let c0 = raw[i];
        let c = if c0 == '.' || c0 == '_' || c0 == '-' { ' ' } else { c0 };
        assert(c == s[i as int]);
        if white_space(c) {
            if cur.len() > 0 {
                add_word(&mut out, &cur, Ghost(done));
                proof {
                    assert(done + words_from(s, i as int, cur@) =~= done.push(cur@) + words_from(s, i + 1, Seq::empty()));
                    done = done.push(cur@);
                }
                cur = Vec::new();
            } else {
                assert(words_from(s, i as int, cur@) == words_from(s, i + 1, Seq::empty()));
                assert(cur@ =~= Seq::<char>::empty());
            }
        } else {
            let ghost before = cur@;
            cur.push(c);
            assert(words_from(s, i as int, before) == words_from(s, i + 1, cur@));
        }
        i = i + 1;
    }
    if cur.len() > 0 {
        add_word(&mut out, &cur, Ghost(done));
        proof {
            assert(done + words_from(s, i as int, cur@) =~= done.push(cur@));
            done = done.push(cur@);
        }
    } else {
        assert(done + words_from(s, i as int, cur@) =~= done);
    }
    trim(&out)
}

/// Index of the last `'.'` in `s`, or -1.
pub open spec fn last_dot(s: Seq<char>) -> int
    decreases s.len(),
{
    if s.len() == 0 {
        -1
    } else if s.last() == '.' {
        s.len() - 1
    } else {
        last_dot(s.drop_last())
    }
}

/// The file name without its extension: the part after the last `'.'` is an
/// extension only when that dot is not the first character and the dot and
/// what follows take at most five bytes in UTF-8.
pub open spec fn strip_ext_text(name: Seq<char>) -> Seq<char> {
    let i = last_dot(name);
    if i > 0 && vstd::utf8::encode_utf8(name.skip(i)).len() <= 5 {
        name.take(i)
    } else {
        name
    }
}

proof fn lemma_last_dot(s: Seq<char>)
    ensures
        -1 <= last_dot(s) < s.len(),
        last_dot(s) >= 0 ==> s[last_dot(s)] == '.',
        forall|k: int| last_dot(s) < k < s.len() ==> #[trigger] s[k] != '.',
    decreases s.len(),
{
    if s.len() > 0 && s.last() != '.' {
        lemma_last_dot(s.drop_last());
        assert forall|k: int| last_dot(s) < k < s.len() implies #[trigger] s[k] != '.' by {
            if k < s.len() - 1 {
                assert(s[k] == s.drop_last()[k]);
            }
        }
    }
}


/// Number of bytes `c` takes in UTF-8.
fn utf8_width(c: char) -> (n: usize)
    ensures
        n == vstd::utf8::encode_scalar(c as u32).len(),
{
    proof {
        vstd::utf8::char_is_scalar(c);
    }
    let v = c as u32;
    if v < 0x80 {
        1
    } else if v < 0x800 {
        2
    } else if v < 0x10000 {
        3
    } else {
        4
    }
}

/// The UTF-8 length of `s`, or 6 when it is longer than that.
fn utf8_len_capped(s: &Vec<char>) -> (n: usize)
    ensures
        n <= 5 <==> vstd::utf8::encode_utf8(s@).len() <= 5,
{
    let mut total: usize = 0;
    let mut j: usize = s.len();
    assert(s@.skip(j as int) =~= Seq::<char>::empty());
    while j > 0
        invariant
            j <= s.len(),
            total <= 6,
            total == if vstd::utf8::encode_utf8(s@.skip(j as int)).len() > 6 { 6 } else {
                vstd::utf8::encode_utf8(s@.skip(j as int)).len()
            },
        decreases j,
    {
        let w = utf8_width(s[j - 1]);
        assert(s@.skip(j - 1).drop_first() =~= s@.skip(j as int));
        assert(s@.skip(j - 1)[0] == s@[j - 1]);
        total = if total + w > 6 { 6 } else { total + w };
        j = j - 1;
    }
    assert(s@.skip(0) =~= s@);
    total
}

/// Strips a short extension from a file name given as characters.
pub(crate) fn strip_ext_chars(name: &Vec<char>) -> (r: Vec<char>)
    ensures
        r@ == strip_ext_text(name@),
{
    proof {
        lemma_last_dot(name@);
    }
    let mut k: usize = name.len();
    while k > 0 && name[k - 1] != '.'
        invariant
            k <= name.len(),
            forall|j: int| k <= j < name.len() ==> #[trigger] name@[j] != '.',
        decreases k,
    {
        k = k - 1;
    }
    assert(k as int - 1 == last_dot(name@)) by {
        let l = last_dot(name@);
        if l > k - 1 {
            assert(name@[l] == '.');
        } else if l < k - 1 {
            assert(name@[k - 1] == '.');
        }
    }
    if k <= 1 {
        return name.clone();
    }
    let idx = k - 1;
    let mut suffix: Vec<char> = Vec::new();
    let mut j: usize = idx;
    while j < name.len()
        invariant
            idx <= j <= name.len(),
            suffix@ == name@.subrange(idx as int, j as int),
        decreases name.len() - j,
    {
        suffix.push(name[j]);
        j = j + 1;
        assert(suffix@ =~= name@.subrange(idx as int, j as int));
    }
    assert(suffix@ =~= name@.skip(idx as int));
    if utf8_len_capped(&suffix) <= 5 {
        let mut r: Vec<char> = Vec::new();
        let mut m: usize = 0;
        while m < idx
            invariant
                m <= idx < name.len(),
                r@ == name@.take(m as int),
            decreases idx - m,
        {
            r.push(name[m]);
            m = m + 1;
            assert(r@ =~= name@.take(m as int));
        }
        r
    } else {
        name.clone()
    }
}

/// The bounds a marker reports lie inside the text, and each digit group
/// has one to three characters.
pub proof fn lemma_marker_bounds(s: Seq<char>, i: int)
    requires
        find_marker(s) matches Some((start, _)) && start == i,
    ensures
        find_marker(s) matches Some((start, (a, b, c, d))) && 0 <= start < a <= b <= c <= d <= s.len()
            && b - a <= 3 && d - c <= 3,
{
    lemma_find_marker_from(s, 0);
}

proof fn lemma_digit_run_bound(s: Seq<char>, p: int, max: nat)
    ensures
        digit_run(s, p, max) <= max,
        0 <= p ==> p + digit_run(s, p, max) <= s.len() || digit_run(s, p, max) == 0,
    decreases max,
{
    if !(max == 0 || p < 0 || p >= s.len() || !is_decimal_digit(s[p])) {
        lemma_digit_run_bound(s, p + 1, (max - 1) as nat);
    }
}

proof fn lemma_separator_run_bound(s: Seq<char>, p: int)
    ensures
        0 <= p <= s.len() ==> p + separator_run(s, p) <= s.len(),
    decreases s.len() - p,
{
    if !(p < 0 || p >= s.len() || !is_marker_separator(s[p])) {
        lemma_separator_run_bound(s, p + 1);
    }
}

proof fn lemma_find_marker_from(s: Seq<char>, i: int)
    ensures
        find_marker_from(s, i) matches Some((start, (a, b, c, d))) ==> 0 <= start < a <= b <= c <= d
            <= s.len() && b - a <= 3 && d - c <= 3,
    decreases s.len() - i,
{
    if 0 <= i < s.len() {
        match marker_at(s, i) {
            Some(m) => {
                lemma_digit_run_bound(s, i + 1, 3);
                let b = i + 1 + digit_run(s, i + 1, 3);
                lemma_separator_run_bound(s, b);
                let w = b + separator_run(s, b);
                lemma_digit_run_bound(s, w + 1, 3);
            },
            None => {
                lemma_find_marker_from(s, i + 1);
            },
        }
    }
}

/// A trimmed text has no white space at either end.
pub proof fn lemma_trim_text(s: Seq<char>)
    ensures
        trim_text(s).len() == 0 || (!is_white_space(trim_text(s)[0]) && !is_white_space(trim_text(s).last())),
{
    lemma_leading_space(s);
    lemma_trailing_space(s);
    let a = leading_space(s);
    if a < s.len() {
        let t = trailing_space(s);
        if t > s.len() - 1 - a {
            assert(is_white_space(s[a as int]));
        }
        let r = trim_text(s);
        assert(r[0] == s[a as int]);
        assert(r.last() == s[s.len() - 1 - t]);
    }
}

/// A series title made from a file name has no white space at either end.
pub proof fn lemma_clean_name_trimmed(raw: Seq<char>)
    ensures
        clean_name_text(raw).len() == 0 || (!is_white_space(clean_name_text(raw)[0])
            && !is_white_space(clean_name_text(raw).last())),
{
    lemma_trim_text(join_words(titled_words(words(raw.map_values(|c: char| separator_to_space(c))))));
}

/// Title-cases one word: all-caps acronyms of up to four letters stay as
/// they are.
pub fn title_word(w: &str) -> (r: String)
    ensures
        r@ == title_word_text(w@),
        w@.len() > 0 ==> r@.len() > 0,
{
    string_from_chars(&title_word_chars(&chars_of(w)))
}

/// Turn `Modern.Family.` into `Modern Family`.
pub fn clean_series_name(raw: &str) -> (r: String)
    ensures
        r@ == clean_name_text(raw@),
{
    string_from_chars(&clean_name_chars(&chars_of(raw)))
}

/// The file name without its extension, when the extension (with its dot)
/// is at most five bytes long and the dot is not the first character.
pub fn strip_ext(name: &str) -> (r: String)
    ensures
        r@ == strip_ext_text(name@),
{
    string_from_chars(&strip_ext_chars(&chars_of(name)))
}

/// White space reads no word from position `i` on.
proof fn lemma_no_words_from(s: Seq<char>, i: int)
    requires
        0 <= i <= s.len(),
        forall|k: int| 0 <= k < s.len() ==> is_white_space(#[trigger] s[k]),
    ensures
        words_from(s, i, Seq::empty()) == Seq::<Seq<char>>::empty(),
    decreases s.len() - i,
{
    if i < s.len() {
        lemma_no_words_from(s, i + 1);
    }
}

/// A name with no words (only white space, `.`, `_` and `-`) cleans to the
/// empty title.
pub proof fn lemma_clean_name_no_words(raw: Seq<char>)
    requires
        forall|i: int|
            0 <= i < raw.len() ==> is_white_space(#[trigger] raw[i]) || raw[i] == '.' || raw[i] == '_' || raw[i]
                == '-',
    ensures
        clean_name_text(raw) == Seq::<char>::empty(),
{
    let s = raw.map_values(|c: char| separator_to_space(c));
    assert forall|k: int| 0 <= k < s.len() implies is_white_space(#[trigger] s[k]) by {
        assert(s[k] == separator_to_space(raw[k]));
        assert(is_white_space(' '));
    }
    lemma_no_words_from(s, 0);
    let e = Seq::<char>::empty();
    assert(trim_text(e) =~= e);
}

/// A run of `n` decimal digits from `p`, not followed by a further digit
/// unless it already has `max` digits, counts as `n`.
proof fn lemma_digit_run_exact(s: Seq<char>, p: int, max: nat, n: int)
    requires
        0 <= p,
        0 <= n <= max,
        p + n <= s.len(),
        forall|k: int| p <= k < p + n ==> is_decimal_digit(#[trigger] s[k]),
        n == max || p + n >= s.len() || !is_decimal_digit(s[p + n]),
    ensures
        digit_run(s, p, max) == n,
    decreases n,
{
    if n > 0 {
        lemma_digit_run_exact(s, p + 1, (max - 1) as nat, n - 1);
    }
}

/// A run of white space, `.`, `_` and `-` from `p` up to a character that is
/// none of these counts as its length.
proof fn lemma_separator_run_exact(s: Seq<char>, p: int, w: int)
    requires
        0 <= p <= w < s.len(),
        forall|k: int|
            p <= k < w ==> is_white_space(#[trigger] s[k]) || s[k] == '.' || s[k] == '_' || s[k] == '-',
        !is_white_space(s[w]) && s[w] != '.' && s[w] != '_' && s[w] != '-',
    ensures
        separator_run(s, p) == w - p,
    decreases w - p,
{
    if p < w {
        lemma_separator_run_exact(s, p + 1, w);
    }
}

/// The episode marker: an `s` or `S` at `i`, one to three decimal digits (the
/// season, not followed by a fourth digit), any run of white space, `.`, `_`
/// and `-`, an `e` or `E`, and one to three decimal digits (the episode) form
/// a marker at `i` whose digit groups are exactly those runs.
pub proof fn lemma_marker_law(s: Seq<char>, i: int, b: int, w: int, d: int)
    requires
        0 <= i,
        s[i] == 's' || s[i] == 'S',
        i + 1 < b <= i + 4,
        b <= w,
        w + 1 < d <= w + 4,
        d <= s.len(),
        forall|k: int| i + 1 <= k < b ==> is_decimal_digit(#[trigger] s[k]),
        b == i + 4 || !is_decimal_digit(s[b]),
        forall|k: int|
            b <= k < w ==> is_white_space(#[trigger] s[k]) || s[k] == '.' || s[k] == '_' || s[k] == '-',
        s[w] == 'e' || s[w] == 'E',
        forall|k: int| w + 1 <= k < d ==> is_decimal_digit(#[trigger] s[k]),
        d == w + 4 || d >= s.len() || !is_decimal_digit(s[d]),
    ensures
        marker_at(s, i) == Some((i + 1, b, w + 1, d)),
{
    lemma_digit_run_exact(s, i + 1, 3, b - (i + 1));
    assert(!is_white_space(s[w])) by {
        assert(('e' as u32) == 101 && ('E' as u32) == 69);
    }
    lemma_separator_run_exact(s, b, w);
    lemma_digit_run_exact(s, w + 1, 3, d - (w + 1));
}

/// What a digit run counts: that many decimal digits from `p`, at most
/// `max`, and no further digit unless the run has `max` digits.
proof fn lemma_digit_run_props(s: Seq<char>, p: int, max: nat)
    requires
        0 <= p,
    ensures
        digit_run(s, p, max) <= max,
        p + digit_run(s, p, max) <= s.len() || digit_run(s, p, max) == 0,
        forall|k: int| p <= k < p + digit_run(s, p, max) ==> is_decimal_digit(#[trigger] s[k]),
        digit_run(s, p, max) == max || p + digit_run(s, p, max) >= s.len() || !is_decimal_digit(
            s[p + digit_run(s, p, max)],
        ),
    decreases max,
{
    if !(max == 0 || p >= s.len() || !is_decimal_digit(s[p])) {
        lemma_digit_run_props(s, p + 1, (max - 1) as nat);
    }
}

/// What a separator run counts: characters from `p` that are white space,
/// `.`, `_` or `-`, up to one that is none of these (or the end).
proof fn lemma_separator_run_props(s: Seq<char>, p: int)
    requires
        0 <= p <= s.len(),
    ensures
        p + separator_run(s, p) <= s.len(),
        forall|k: int|
            p <= k < p + separator_run(s, p) ==> is_white_space(#[trigger] s[k]) || s[k] == '.' || s[k] == '_'
                || s[k] == '-',
        p + separator_run(s, p) < s.len() ==> !(is_white_space(s[p + separator_run(s, p)]) || s[p
            + separator_run(s, p)] == '.' || s[p + separator_run(s, p)] == '_' || s[p + separator_run(s, p)]
            == '-'),
    decreases s.len() - p,
{
    if p < s.len() && is_marker_separator(s[p]) {
        lemma_separator_run_props(s, p + 1);
    }
}

/// Only the marker grammar is accepted: a marker found at `i` is an `s`
/// (`S`, `s` or `ſ`), its season digits (one to three decimal digits, with
/// no fourth digit after them), a run of white space, `.`, `_` and `-`, an
/// `e` or `E`, and its episode digits (one to three decimal digits, with no
/// fourth digit after them).
pub proof fn lemma_marker_only(s: Seq<char>, i: int)
    requires
        marker_at(s, i) is Some,
    ensures
        ({
            let (a, b, c, d) = marker_at(s, i)->0;
            &&& 0 <= i < s.len()
            &&& s[i] == 's' || s[i] == 'S' || s[i] == '\u{17f}'
            &&& a == i + 1 && a < b <= a + 3 && b < c && c < d <= c + 3 && d <= s.len()
            &&& forall|k: int| a <= k < b ==> is_decimal_digit(#[trigger] s[k])
            &&& b == a + 3 || !is_decimal_digit(s[b])
            &&& forall|k: int|
                b <= k < c - 1 ==> is_white_space(#[trigger] s[k]) || s[k] == '.' || s[k] == '_' || s[k] == '-'
            &&& s[c - 1] == 'e' || s[c - 1] == 'E'
            &&& forall|k: int| c <= k < d ==> is_decimal_digit(#[trigger] s[k])
            &&& d == c + 3 || d >= s.len() || !is_decimal_digit(s[d])
        }),
{
    let a = i + 1;
    lemma_digit_run_props(s, a, 3);
    let b = a + digit_run(s, a, 3);
    lemma_separator_run_props(s, b);
    let w = b + separator_run(s, b);
    let c = w + 1;
    lemma_digit_run_props(s, c, 3);
}

} // verus!
