//! `file://` URIs from the recently-used list: percent-decoding and the
//! file name at the end of a path.
use vstd::prelude::*;
use vstd::utf8::{decode_utf8, encode_scalar, encode_utf8, valid_utf8};
use crate::text::{chars_of, string_from_chars};
use crate::grouping::{first_index, lemma_first_index};

verus! {

/// The value of an ASCII hex digit.
pub open spec fn hex_value(b: u8) -> Option<u8> {
    if 48 <= b <= 57 {
        Some((b - 48) as u8)
    } else if 97 <= b <= 102 {
        Some((b - 97 + 10) as u8)
    } else if 65 <= b <= 70 {
        Some((b - 65 + 10) as u8)
    } else {
        None
    }
}

/// The value of an ASCII hex digit.
pub fn hex_val(b: u8) -> (r: Option<u8>)
    ensures
        r == hex_value(b),
{
    if 48 <= b && b <= 57 {
        Some(b - 48)
    } else if 97 <= b && b <= 102 {
        Some(b - 97 + 10)
    } else if 65 <= b && b <= 70 {
        Some(b - 65 + 10)
    } else {
        None
    }
}

/// Decodes `%XX` escapes in bytes from position `i` on; a `%` not followed
/// by two hex digits is kept as it is.
pub open spec fn percent_decode_from(b: Seq<u8>, i: int) -> Seq<u8>
    decreases b.len() - i,
{
    if i < 0 || i >= b.len() {
        Seq::empty()
    } else if b[i] == 37 && i + 2 < b.len() && hex_value(b[i + 1]) is Some && hex_value(b[i + 2]) is Some {
        seq![(hex_value(b[i + 1])->0 * 16 + hex_value(b[i + 2])->0) as u8] + percent_decode_from(b, i + 3)
    } else {
        seq![b[i]] + percent_decode_from(b, i + 1)
    }
}

/// What std's `String::from_utf8_lossy` makes of a byte sequence.
pub uninterp spec fn utf8_lossy(b: Seq<u8>) -> Seq<char>;

/// Trusted: std's `String::from_utf8_lossy`. The contract claims that the
/// result is a fixed function of the bytes, and that valid UTF-8 is decoded
/// as it is (the documented behaviour); how invalid sequences are replaced
/// with U+FFFD is left unsaid.
#[verifier::external_body]
fn from_utf8_lossy(b: &[u8]) -> (s: String)
    ensures
        s@ == utf8_lossy(b@),
        valid_utf8(b@) ==> s@ == decode_utf8(b@),
{
    String::from_utf8_lossy(b).into_owned()
}

/// The text `s` with its `%XX` escapes decoded (over its UTF-8 bytes); bytes
/// that do not form UTF-8 become U+FFFD.
pub open spec fn percent_decode_text(s: Seq<char>) -> Seq<char> {
    utf8_lossy(percent_decode_from(encode_utf8(s), 0))
}

/// Whether `c` is a hex digit, in either case.
pub open spec fn is_hex_char(c: char) -> bool {
    ('0' <= c && c <= '9') || ('a' <= c && c <= 'f') || ('A' <= c && c <= 'F')
}

/// The value of a hex digit character.
pub open spec fn hex_char_value(c: char) -> int {
    if '0' <= c && c <= '9' {
        c as int - 48
    } else if 'a' <= c && c <= 'f' {
        c as int - 87
    } else {
        c as int - 55
    }
}

/// Whether `t` holds an escape that decoding replaces: a `%` followed by two
/// hex digits.
pub open spec fn has_escape(t: Seq<char>) -> bool {
    exists|i: int| 0 <= i && i + 2 < t.len() && #[trigger] t[i] == '%' && is_hex_char(t[i + 1]) && is_hex_char(t[i + 2])
}

/// Whether `t` writes each byte of `b`, in order, as `%` followed by the two
/// hex digits of the byte (in either case).
pub open spec fn escapes_bytes(t: Seq<char>, b: Seq<u8>) -> bool {
    &&& t.len() == 3 * b.len()
    &&& forall|k: int|
        0 <= k < b.len() ==> {
            &&& t[3 * k] == '%'
            &&& is_hex_char(t[3 * k + 1])
            &&& is_hex_char(t[3 * k + 2])
            &&& hex_char_value(t[3 * k + 1]) * 16 + hex_char_value(t[3 * k + 2]) == #[trigger] b[k]
        }
}

/// The `k`-th escape of an escaped byte sequence.
proof fn lemma_escape_at(t: Seq<char>, b: Seq<u8>, k: int)
    requires
        escapes_bytes(t, b),
        0 <= k < b.len(),
    ensures
        t[3 * k] == '%',
        is_hex_char(t[3 * k + 1]),
        is_hex_char(t[3 * k + 2]),
        hex_char_value(t[3 * k + 1]) * 16 + hex_char_value(t[3 * k + 2]) == b[k],
{
    let x = b[k];
}

/// The UTF-8 bytes of a character: the character itself when it is ASCII,
/// otherwise bytes from 0x80 up.
proof fn lemma_encode_scalar_bytes(c: char)
    ensures
        encode_scalar(c as u32).len() >= 1,
        (c as u32) <= 0x7f ==> encode_scalar(c as u32) == seq![(c as u32) as u8],
        (c as u32) > 0x7f ==> forall|k: int|
            0 <= k < encode_scalar(c as u32).len() ==> #[trigger] encode_scalar(c as u32)[k] >= 0x80,
{
    let v = c as u32;
    vstd::utf8::char_is_scalar(c);
    if v <= 0x7f {
        assert((v & 0x7F) as u8 == v as u8) by (bit_vector)
            requires
                v <= 0x7f,
        ;
    } else {
        assert(forall|x: u32| #![auto] (0x80 | (x & 0x3F) as u8) >= 0x80u8) by (bit_vector);
        assert(forall|x: u32| #![auto] (0xC0 | ((x >> 6) & 0x1F) as u8) >= 0x80u8) by (bit_vector);
        assert(forall|x: u32| #![auto] (0xE0 | ((x >> 12) & 0x0F) as u8) >= 0x80u8) by (bit_vector);
        assert(forall|x: u32| #![auto] (0xF0 | ((x >> 18) & 0x7) as u8) >= 0x80u8) by (bit_vector);
        assert(forall|x: u32| #![auto] (0x80 | ((x >> 6) & 0x3F) as u8) >= 0x80u8) by (bit_vector);
        assert(forall|x: u32| #![auto] (0x80 | ((x >> 12) & 0x3F) as u8) >= 0x80u8) by (bit_vector);
    }
}

/// The byte of an ASCII character is a hex digit exactly when the character
/// is, with the same value.
proof fn lemma_hex_byte(c: char)
    requires
        (c as u32) <= 0x7f,
    ensures
        ((c as u32) as u8) as int == c as int,
        hex_value((c as u32) as u8) is Some <==> is_hex_char(c),
        is_hex_char(c) ==> hex_value((c as u32) as u8)->0 == hex_char_value(c),
        ((c as u32) as u8 == 37) <==> c == '%',
{
}

/// The first UTF-8 byte of a non-empty text is the first byte of its first
/// character.
proof fn lemma_encode_utf8_first(u: Seq<char>)
    requires
        u.len() > 0,
    ensures
        encode_utf8(u) == encode_scalar(u[0] as u32) + encode_utf8(u.drop_first()),
        encode_utf8(u).len() >= 1,
        encode_utf8(u)[0] == encode_scalar(u[0] as u32)[0],
{
    lemma_encode_scalar_bytes(u[0]);
}

/// Decoding from a position of `p + r` inside `r` is decoding `r` from there.
proof fn lemma_decode_shift(p: Seq<u8>, r: Seq<u8>, k: int)
    requires
        0 <= k <= r.len(),
    ensures
        percent_decode_from(p + r, p.len() + k) == percent_decode_from(r, k),
    decreases r.len() - k,
{
    let b = p + r;
    if k < r.len() {
        assert(b[p.len() + k] == r[k]);
        if k + 1 < r.len() {
            assert(b[p.len() + k + 1] == r[k + 1]);
        }
        if k + 2 < r.len() {
            assert(b[p.len() + k + 2] == r[k + 2]);
            lemma_decode_shift(p, r, k + 3);
        }
        lemma_decode_shift(p, r, k + 1);
    }
}

/// Bytes that are not `%` are copied as they are.
proof fn lemma_decode_copy(b: Seq<u8>, i: int, n: int)
    requires
        0 <= i <= n <= b.len(),
        forall|k: int| i <= k < n ==> #[trigger] b[k] != 37,
    ensures
        percent_decode_from(b, i) == b.subrange(i, n) + percent_decode_from(b, n),
    decreases n - i,
{
    if i < n {
        lemma_decode_copy(b, i + 1, n);
        assert(b.subrange(i, n) =~= seq![b[i]] + b.subrange(i + 1, n));
    } else {
        assert(b.subrange(i, n) =~= Seq::<u8>::empty());
    }
}

/// A text without escapes decodes, byte for byte, to itself.
proof fn lemma_decode_no_escape(t: Seq<char>)
    requires
        !has_escape(t),
    ensures
        percent_decode_from(encode_utf8(t), 0) == encode_utf8(t),
    decreases t.len(),
{
    if t.len() == 0 {
        assert(encode_utf8(t) =~= Seq::<u8>::empty());
    } else {
        let c = t[0];
        let rest = t.drop_first();
        let e = encode_scalar(c as u32);
        let br = encode_utf8(rest);
        let b = encode_utf8(t);
        lemma_encode_utf8_first(t);
        assert(!has_escape(rest)) by {
            if has_escape(rest) {
                let i = choose|i: int|
                    0 <= i && i + 2 < rest.len() && #[trigger] rest[i] == '%' && is_hex_char(rest[i + 1])
                        && is_hex_char(rest[i + 2]);
                assert(t[i + 1] == rest[i] && t[i + 2] == rest[i + 1] && t[i + 3] == rest[i + 2]);
            }
        }
        lemma_decode_no_escape(rest);
        lemma_encode_scalar_bytes(c);
        lemma_decode_shift(e, br, 0);
        if c != '%' {
            if (c as u32) <= 0x7f {
                lemma_hex_byte(c);
            }
            assert forall|k: int| 0 <= k < e.len() implies #[trigger] b[k] != 37 by {
                assert(b[k] == e[k]);
            }
            lemma_decode_copy(b, 0, e.len() as int);
            assert(b.subrange(0, e.len() as int) =~= e);
        } else {
            lemma_hex_byte(c);
            assert(e.len() == 1);
            if 2 < b.len() && hex_value(b[1]) is Some && hex_value(b[2]) is Some {
                lemma_encode_utf8_first(rest);
                assert(b[1] == br[0]);
                let c1 = rest[0];
                lemma_encode_scalar_bytes(c1);
                if (c1 as u32) > 0x7f {
                    assert(br[0] >= 0x80);
                }
                lemma_hex_byte(c1);
                let rest2 = rest.drop_first();
                assert(br == seq![(c1 as u32) as u8] + encode_utf8(rest2));
                assert(rest2.len() > 0);
                lemma_encode_utf8_first(rest2);
                assert(b[2] == encode_utf8(rest2)[0]);
                let c2 = rest2[0];
                lemma_encode_scalar_bytes(c2);
                if (c2 as u32) > 0x7f {
                    assert(encode_utf8(rest2)[0] >= 0x80);
                }
                lemma_hex_byte(c2);
                assert(t[1] == c1 && t[2] == c2);
                assert(has_escape(t));
            }
            assert(b[0] == 37);
            assert(percent_decode_from(b, 0) == seq![b[0]] + percent_decode_from(b, 1));
            assert(seq![b[0]] =~= e);
        }
        assert(b =~= e + br);
    }
}

/// A text made only of ASCII characters is its own UTF-8, character by byte.
proof fn lemma_ascii_encode(t: Seq<char>)
    requires
        forall|k: int| 0 <= k < t.len() ==> (#[trigger] t[k] as u32) <= 0x7f,
    ensures
        encode_utf8(t).len() == t.len(),
        forall|k: int| 0 <= k < t.len() ==> #[trigger] encode_utf8(t)[k] == (t[k] as u32) as u8,
    decreases t.len(),
{
    if t.len() > 0 {
        let rest = t.drop_first();
        assert forall|k: int| 0 <= k < rest.len() implies (#[trigger] rest[k] as u32) <= 0x7f by {
            assert(rest[k] == t[k + 1]);
        }
        lemma_ascii_encode(rest);
        lemma_encode_utf8_first(t);
        assert(t[0] as u32 <= 0x7f);
        lemma_encode_scalar_bytes(t[0]);
        assert forall|k: int| 0 <= k < t.len() implies #[trigger] encode_utf8(t)[k] == (t[k] as u32) as u8 by {
            if k > 0 {
                assert(encode_utf8(t)[k] == encode_utf8(rest)[k - 1]);
                assert(rest[k - 1] == t[k]);
            }
        }
    }
}

/// Escaped bytes decode back to the bytes, from the `k`-th escape on.
proof fn lemma_decode_escaped(t: Seq<char>, b: Seq<u8>, k: int)
    requires
        escapes_bytes(t, b),
        0 <= k <= b.len(),
        encode_utf8(t).len() == t.len(),
        forall|j: int| 0 <= j < t.len() ==> #[trigger] encode_utf8(t)[j] == (t[j] as u32) as u8,
    ensures
        percent_decode_from(encode_utf8(t), 3 * k) == b.skip(k),
    decreases b.len() - k,
{
    let bt = encode_utf8(t);
    if k < b.len() {
        lemma_decode_escaped(t, b, k + 1);
        lemma_escape_at(t, b, k);
        assert(bt[3 * k] == (t[3 * k] as u32) as u8);
        assert(bt[3 * k + 1] == (t[3 * k + 1] as u32) as u8);
        assert(bt[3 * k + 2] == (t[3 * k + 2] as u32) as u8);
        lemma_hex_byte(t[3 * k + 1]);
        lemma_hex_byte(t[3 * k + 2]);
        assert(bt[3 * k] == 37);
        assert(b.skip(k) =~= seq![b[k]] + b.skip(k + 1));
    } else {
        assert(b.skip(k) =~= Seq::<u8>::empty());
    }
}

/// Escaped bytes decode back to the bytes.
proof fn lemma_decode_escapes(t: Seq<char>, b: Seq<u8>)
    requires
        escapes_bytes(t, b),
    ensures
        percent_decode_from(encode_utf8(t), 0) == b,
{
    assert forall|j: int| 0 <= j < t.len() implies (#[trigger] t[j] as u32) <= 0x7f by {
        let k = j / 3;
        assert(0 <= k < b.len());
        lemma_escape_at(t, b, k);
        assert(j == 3 * k || j == 3 * k + 1 || j == 3 * k + 2);
    }
    lemma_ascii_encode(t);
    lemma_decode_escaped(t, b, 0);
    assert(b.skip(0) =~= b);
}

/// Minimal percent-decoder (UTF-8 aware).
pub fn percent_decode(s: &str) -> (r: String)
    ensures
        r@ == percent_decode_text(s@),
        !has_escape(s@) ==> r@ == s@,
        forall|x: Seq<char>| escapes_bytes(s@, encode_utf8(x)) ==> r@ == x,
{
    let bytes = s.as_bytes();
    let mut out: Vec<u8> = Vec::new();
    let mut i: usize = 0;
    while i < bytes.len()
        invariant
            i <= bytes.len(),
            bytes@ == encode_utf8(s@),
            out@ + percent_decode_from(bytes@, i as int) == percent_decode_from(bytes@, 0),
        decreases bytes.len() - i,
    {
        if bytes[i] == 37 && bytes.len() >= 3 && i < bytes.len() - 2 {
            let hi = hex_val(bytes[i + 1]);
            let lo = hex_val(bytes[i + 2]);
            if let (Some(h), Some(l)) = (hi, lo) {
                let ghost before = out@;
                out.push(h * 16 + l);
                assert(before + percent_decode_from(bytes@, i as int) =~= out@ + percent_decode_from(bytes@, i + 3));
                i = i + 3;
                continue;
            }
        }
        let ghost before = out@;
        out.push(bytes[i]);
        assert(before + percent_decode_from(bytes@, i as int) =~= out@ + percent_decode_from(bytes@, i + 1));
        i = i + 1;
    }
    assert(out@ =~= percent_decode_from(bytes@, 0));
    let r = from_utf8_lossy(out.as_slice());
    proof {
        if !has_escape(s@) {
            lemma_decode_no_escape(s@);
            vstd::utf8::encode_utf8_valid_utf8(s@);
            vstd::utf8::encode_utf8_decode_utf8(s@);
        }
        assert forall|x: Seq<char>| escapes_bytes(s@, encode_utf8(x)) implies r@ == x by {
            lemma_decode_escapes(s@, encode_utf8(x));
            vstd::utf8::encode_utf8_valid_utf8(x);
            vstd::utf8::encode_utf8_decode_utf8(x);
        }
    }
    r
}

/// Selects the `/` character.
pub open spec fn is_slash() -> spec_fn(char) -> bool {
    |c: char| c == '/'
}

/// The local path of a `file://` URI: what follows the scheme, from the first
/// `/` on (skipping a host name), percent-decoded; `None` for other URIs.
pub open spec fn file_uri_path(href: Seq<char>) -> Option<Seq<char>> {
    if href.len() >= 7 && href.take(7) == seq!['f', 'i', 'l', 'e', ':', '/', '/'] {
        let rest = href.skip(7);
        let slash = first_index(rest, is_slash());
        let part = if slash < 0 { rest } else { rest.skip(slash) };
        Some(percent_decode_text(part))
    } else {
        None
    }
}

/// Convert a `file://` URI to a decoded local path; returns `None` for non-file.
pub fn file_uri_to_path(href: &str) -> (r: Option<String>)
    ensures
        match r {
            Some(p) => file_uri_path(href@) == Some(p@),
            None => file_uri_path(href@) is None,
        },
{
    let h = chars_of(href);
    if !(h.len() >= 7 && h[0] == 'f' && h[1] == 'i' && h[2] == 'l' && h[3] == 'e' && h[4] == ':'
        && h[5] == '/' && h[6] == '/') {
        proof {
            if h.len() >= 7 {
                let p = seq!['f', 'i', 'l', 'e', ':', '/', '/'];
                if h@.take(7) == p {
                    assert(h@[0] == h@.take(7)[0] && h@[1] == h@.take(7)[1] && h@[2] == h@.take(7)[2]
                        && h@[3] == h@.take(7)[3] && h@[4] == h@.take(7)[4] && h@[5] == h@.take(7)[5]
                        && h@[6] == h@.take(7)[6]);
                }
            }
        }
        return None;
    }
    assert(h@.take(7) =~= seq!['f', 'i', 'l', 'e', ':', '/', '/']);
    let ghost rest = h@.skip(7);
    let mut k: usize = 7;
    while k < h.len() && h[k] != '/'
        invariant
            7 <= k <= h.len(),
            rest == h@.skip(7),
            forall|j: int| 0 <= j < k - 7 ==> !(#[trigger] is_slash()(rest[j])),
        decreases h.len() - k,
    {
        assert(rest[k - 7] == h@[k as int]);
        k = k + 1;
    }
    proof {
        lemma_first_index(rest, is_slash());
        let f = first_index(rest, is_slash());
        if k < h.len() {
            assert(rest[k - 7] == h@[k as int]);
            if f >= 0 && f < k - 7 {
                assert(!is_slash()(rest[f]));
            }
            if f == -1 || f > k - 7 {
                assert(!is_slash()(rest[k - 7]));
            }
        } else if f >= 0 {
            assert(!is_slash()(rest[f]));
        }
    }
    let start = if k < h.len() { k } else { 7 };
    let mut part: Vec<char> = Vec::new();
    let mut m: usize = start;
    while m < h.len()
        invariant
            start <= m <= h.len(),
            part@ == h@.subrange(start as int, m as int),
        decreases h.len() - m,
    {
        part.push(h[m]);
        m = m + 1;
        assert(part@ =~= h@.subrange(start as int, m as int));
    }
    proof {
        if k < h.len() {
            assert(part@ =~= rest.skip(k - 7));
        } else {
            assert(part@ =~= rest);
        }
    }
    let text = string_from_chars(&part);
    Some(percent_decode(text.as_str()))
}

/// Index of the last `/` in `p`, or -1.
pub open spec fn last_slash(p: Seq<char>) -> int
    decreases p.len(),
{
    if p.len() == 0 {
        -1
    } else if p.last() == '/' {
        p.len() - 1
    } else {
        last_slash(p.drop_last())
    }
}

proof fn lemma_last_slash(p: Seq<char>)
    ensures
        -1 <= last_slash(p) < p.len(),
        last_slash(p) >= 0 ==> p[last_slash(p)] == '/',
        forall|k: int| last_slash(p) < k < p.len() ==> #[trigger] p[k] != '/',
    decreases p.len(),
{
    if p.len() > 0 && p.last() != '/' {
        lemma_last_slash(p.drop_last());
        assert forall|k: int| last_slash(p) < k < p.len() implies #[trigger] p[k] != '/' by {
            if k < p.len() - 1 {
                assert(p[k] == p.drop_last()[k]);
            }
        }
    }
}

/// The last component of a path: the last `/`-separated segment that is
/// neither empty nor `.` (empty when there is none).
pub open spec fn last_component(p: Seq<char>) -> Seq<char>
    decreases p.len(),
{
    let j = last_slash(p);
    let seg = p.skip(j + 1);
    if seg.len() > 0 && seg != seq!['.'] {
        seg
    } else if j < 0 || j >= p.len() {
        Seq::empty()
    } else {
        last_component(p.take(j))
    }
}

/// The file name of a path, as `Path::file_name` gives it on Unix: its last
/// component, unless there is none or it is `..`.
pub open spec fn file_name_of(p: Seq<char>) -> Option<Seq<char>> {
    let c = last_component(p);
    if c.len() == 0 || c == seq!['.', '.'] {
        None
    } else {
        Some(c)
    }
}

/// The file name at the end of a path, or the empty text when it has none.
pub fn file_name(path: &str) -> (r: String)
    ensures
        r@ == match file_name_of(path@) {
            Some(n) => n,
            None => Seq::empty(),
        },
{
    let p = chars_of(path);
    let mut end: usize = p.len();
    let mut comp: Vec<char> = Vec::new();
    assert(p@.take(p.len() as int) =~= p@);
    loop
        invariant_except_break
            comp@ == Seq::<char>::empty(),
        invariant
            end <= p.len(),
            last_component(p@) == last_component(p@.take(end as int)),
        ensures
            comp@ == last_component(p@),
        decreases end,
    {
        let ghost q = p@.take(end as int);
        proof {
            lemma_last_slash(q);
        }
        let mut j: usize = end;
        while j > 0 && p[j - 1] != '/'
            invariant
                j <= end <= p.len(),
                q == p@.take(end as int),
                forall|k: int| j <= k < end ==> #[trigger] q[k] != '/',
            decreases j,
        {
            assert(q[j - 1] == p@[j - 1]);
            j = j - 1;
        }
        assert(j as int - 1 == last_slash(q)) by {
            let l = last_slash(q);
            if l > j - 1 {
                assert(q[l] == '/');
            } else if l < j - 1 {
                assert(q[j - 1] == p@[j - 1]);
                assert(q[j - 1] == '/');
            }
        }
        let mut seg: Vec<char> = Vec::new();
        let mut m: usize = j;
        while m < end
            invariant
                j <= m <= end <= p.len(),
                seg@ == p@.subrange(j as int, m as int),
            decreases end - m,
        {
            seg.push(p[m]);
            m = m + 1;
            assert(seg@ =~= p@.subrange(j as int, m as int));
        }
        assert(seg@ =~= q.skip(j as int));
        if seg.len() > 0 && !(seg.len() == 1 && seg[0] == '.') {
            proof {
                if seg@ == seq!['.'] {
                    assert(seg@[0] == '.');
                }
            }
            comp = seg;
            assert(comp@ == last_component(q));
            break;
        }
        proof {
            if seg.len() == 1 {
                assert(seg@ =~= seq!['.']);
            }
        }
        if j == 0 {
            assert(last_component(q) =~= Seq::<char>::empty());
            break;
        }
        assert(q.take(j - 1) =~= p@.take(j - 1));
        end = j - 1;
    }
    let ghost c = last_component(p@);
    if comp.len() == 0 || (comp.len() == 2 && comp[0] == '.' && comp[1] == '.') {
        proof {
            if comp.len() == 2 {
                assert(comp@ =~= seq!['.', '.']);
            }
        }
        return string_from_chars(&Vec::new());
    }
    proof {
        if comp@ == seq!['.', '.'] {
            assert(comp@[0] == '.' && comp@[1] == '.');
        }
    }
    string_from_chars(&comp)
}

} // verus!
