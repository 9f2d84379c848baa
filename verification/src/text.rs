//! Text building blocks: decimal and hexadecimal rendering of numbers,
//! XML escaping, and byte-level search in UTF-8 text.
use vstd::prelude::*;
use vstd::string::*;
use vstd::string::StringSliceAdditionalSpecFns;

verus! {

/// Appends one character to a string (`String::push`).
#[verifier::external_body]
pub(crate) fn push_char(s: &mut String, c: char)
    ensures
        final(s)@ == old(s)@.push(c),
{
    s.push(c);
}

/// Appends a string slice to a string.
pub fn push_str(s: &mut String, t: &str)
    ensures
        final(s)@ == old(s)@ + t@,
{
    s.append(t);
}

/// The ASCII digit for a value below 16, upper-case for 10..15.
pub open spec fn hex_digit_char(d: nat) -> char {
    if d < 10 {
        ((48 + d) as u8) as char
    } else {
        ((55 + d) as u8) as char
    }
}

/// Decimal representation of a natural number, without leading zeros.
pub open spec fn decimal(n: nat) -> Seq<char>
    decreases n,
{
    if n < 10 {
        seq![hex_digit_char(n)]
    } else {
        decimal(n / 10).push(hex_digit_char(n % 10))
    }
}

fn digit_char(d: u64) -> (c: char)
    requires
        d < 16,
    ensures
        c == hex_digit_char(d as nat),
{
    if d < 10 {
        ((48 + d) as u8) as char
    } else {
        ((55 + d) as u8) as char
    }
}

/// Appends the decimal representation of `n`.
pub fn push_decimal(s: &mut String, n: u64)
    ensures
        final(s)@ == old(s)@ + decimal(n as nat),
    decreases n,
{
    if n < 10 {
        push_char(s, digit_char(n));
        assert(decimal(n as nat) =~= seq![hex_digit_char(n as nat)]);
    } else {
        push_decimal(s, n / 10);
        push_char(s, digit_char(n % 10));
    }
}

/// Appends the decimal representation of a 128-bit `n`.
pub fn push_decimal_wide(s: &mut String, n: u128)
    ensures
        final(s)@ == old(s)@ + decimal(n as nat),
    decreases n,
{
    if n < 10 {
        push_char(s, digit_char(n as u64));
        assert(decimal(n as nat) =~= seq![hex_digit_char(n as nat)]);
    } else {
        push_decimal_wide(s, n / 10);
        push_char(s, digit_char((n % 10) as u64));
    }
}

/// Decimal representation of an integer, with a minus sign when negative.
pub open spec fn int_decimal(n: int) -> Seq<char> {
    if n < 0 {
        seq!['-'] + decimal((-n) as nat)
    } else {
        decimal(n as nat)
    }
}

/// Appends the decimal representation of a signed integer.
pub fn push_int(s: &mut String, n: i64)
    requires
        n > i64::MIN,
    ensures
        final(s)@ == old(s)@ + int_decimal(n as int),
{
    if n < 0 {
        push_char(s, '-');
        push_decimal(s, (-n) as u64);
    } else {
        push_decimal(s, n as u64);
    }
}

/// `n` in decimal, with leading zeros up to `width` digits.
pub open spec fn zero_padded(n: nat, width: nat) -> Seq<char> {
    let k = decimal(n).len();
    Seq::new(if k < width {
        (width - k) as nat
    } else {
        0
    }, |i: int| '0') + decimal(n)
}

pub proof fn lemma_decimal_len(n: nat)
    ensures
        n < 10 ==> decimal(n).len() == 1,
        10 <= n < 100 ==> decimal(n).len() == 2,
        100 <= n < 1000 ==> decimal(n).len() == 3,
        1000 <= n ==> decimal(n).len() >= 4,
    decreases n,
{
    if n >= 10 {
        lemma_decimal_len(n / 10);
    }
}

/// Appends `n` padded with zeros to `width` (2 or 4) digits.
pub fn push_padded(s: &mut String, n: u64, width: u64)
    requires
        width == 2 || width == 4,
    ensures
        final(s)@ == old(s)@ + zero_padded(n as nat, width as nat),
{
    let ghost start = s@;
    proof {
        lemma_decimal_len(n as nat);
    }
    if width == 4 && n < 1000 {
        push_char(s, '0');
    }
    if width == 4 && n < 100 {
        push_char(s, '0');
    }
    if n < 10 {
        push_char(s, '0');
    }
    push_decimal(s, n);
    assert(s@ =~= start + zero_padded(n as nat, width as nat));
}

// ─── Byte-level search in UTF-8 text ─────────────────────────────────────────

/// Whether `pat` occurs in `b` at index `i`.
pub open spec fn occurs_at<T>(b: Seq<T>, pat: Seq<T>, i: int) -> bool {
    0 <= i && i + pat.len() <= b.len() && b.subrange(i, i + pat.len()) == pat
}

/// Whether `pat` occurs somewhere in `b`.
pub open spec fn has_infix<T>(b: Seq<T>, pat: Seq<T>) -> bool {
    exists|p: int| 0 <= p && p + pat.len() <= b.len() && #[trigger] b.subrange(p, p + pat.len()) == pat
}

/// What occurs in a text still occurs once more is appended.
pub proof fn lemma_infix_extend<T>(s: Seq<T>, x: Seq<T>, t: Seq<T>)
    requires
        has_infix(s, t),
    ensures
        has_infix(s + x, t),
{
    let p = choose|p: int| 0 <= p && p + t.len() <= s.len() && #[trigger] s.subrange(p, p + t.len()) == t;
    assert((s + x).subrange(p, p + t.len()) =~= s.subrange(p, p + t.len()));
}

/// A text after one that ends a line holds the line break and what follows.
pub proof fn lemma_line_after_break(a: Seq<char>, line: Seq<char>, rest: Seq<char>)
    requires
        a.len() > 0,
        a.last() == '\n',
    ensures
        has_infix(a + line + rest, seq!['\n'] + line),
{
    let s = a + line + rest;
    let p = a.len() - 1;
    assert(s.subrange(p, p + (seq!['\n'] + line).len()) =~= seq!['\n'] + line);
}

/// The first index at or after `i` where `pat` occurs in `b`.
pub open spec fn find_from<T>(b: Seq<T>, pat: Seq<T>, i: int) -> Option<int>
    decreases b.len() + 1 - i,
{
    if i < 0 || i > b.len() {
        None
    } else if occurs_at(b, pat, i) {
        Some(i)
    } else {
        find_from(b, pat, i + 1)
    }
}

/// The first index where `pat` occurs in `b` (what `str::find` returns for
/// a pattern made of whole characters).
pub open spec fn find_first<T>(b: Seq<T>, pat: Seq<T>) -> Option<int> {
    find_from(b, pat, 0)
}

pub proof fn lemma_find_from_none<T>(b: Seq<T>, pat: Seq<T>, i: int)
    requires
        0 <= i,
        find_from(b, pat, i) is None,
    ensures
        forall|j: int| i <= j ==> !occurs_at(b, pat, j),
    decreases b.len() + 1 - i,
{
    if i <= b.len() {
        lemma_find_from_none(b, pat, i + 1);
    }
}

/// A found index is a real occurrence, at or after where the search began.
pub proof fn lemma_find_from_some<T>(b: Seq<T>, pat: Seq<T>, i: int)
    requires
        find_from(b, pat, i) is Some,
    ensures
        i <= find_from(b, pat, i)->0,
        occurs_at(b, pat, find_from(b, pat, i)->0),
    decreases b.len() + 1 - i,
{
    if 0 <= i <= b.len() && !occurs_at(b, pat, i) {
        lemma_find_from_some(b, pat, i + 1);
    }
}

pub proof fn lemma_find_from_past_end<T>(b: Seq<T>, pat: Seq<T>, i: int)
    requires
        0 <= i,
        i + pat.len() > b.len(),
    ensures
        find_from(b, pat, i) is None,
    decreases b.len() + 1 - i,
{
    if i <= b.len() {
        lemma_find_from_past_end(b, pat, i + 1);
    }
}

/// The first index in `start..end` where `pat` occurs in `b[start..end]`,
/// as an index into `b`.
pub fn find_in(b: &[u8], start: usize, end: usize, pat: &[u8]) -> (r: Option<usize>)
    requires
        start <= end <= b@.len(),
    ensures
        match find_first(b@.subrange(start as int, end as int), pat@) {
            Some(i) => r is Some && r->0 == i + start,
            None => r is None,
        },
        r matches Some(p) ==> start <= p && p + pat@.len() <= end,
        r matches Some(p) ==> b@.subrange(p as int, p + pat@.len()) == pat@,
{
    let ghost sub = b@.subrange(start as int, end as int);
    proof {
        if find_first(sub, pat@) is Some {
            lemma_find_from_some(sub, pat@, 0);
            let i = find_first(sub, pat@)->0;
            assert(sub.subrange(i, i + pat@.len()) =~= b@.subrange(start + i, start + i + pat@.len()));
        }
    }
    let plen = pat.len();
    if plen > end - start {
        proof {
            lemma_find_from_past_end(sub, pat@, 0);
        }
        return None;
    }
    let mut i: usize = start;
    while i <= end - plen
        invariant
            start <= i <= end - plen,
            end <= b@.len(),
            plen == pat@.len(),
            plen <= end - start,
            sub == b@.subrange(start as int, end as int),
            find_first(sub, pat@) == find_from(sub, pat@, i - start),
        decreases end - i,
    {
        let mut k: usize = 0;
        while k < plen && b[i + k] == pat[k]
            invariant
                k <= plen,
                plen == pat@.len(),
                i + plen <= end,
                end <= b@.len(),
                forall|j: int| 0 <= j < k ==> b@[i + j] == pat@[j],
            decreases plen - k,
        {
            k = k + 1;
        }
        assert(sub.subrange(i - start, i - start + plen) =~= b@.subrange(i as int, (i + plen) as int));
        if k == plen {
            assert(b@.subrange(i as int, (i + plen) as int) =~= pat@);
            return Some(i);
        }
        assert(b@.subrange(i as int, (i + plen) as int)[k as int] != pat@[k as int]);
        if i == end - plen {
            proof {
                lemma_find_from_past_end(sub, pat@, i - start + 1);
            }
            return None;
        }
        i = i + 1;
    }
    None
}

/// The first index in `start..end` where `pat` occurs in `b[start..end]`,
/// as an index into `b` (for text held as characters).
pub fn find_chars(b: &[char], start: usize, end: usize, pat: &[char]) -> (r: Option<usize>)
    requires
        start <= end <= b@.len(),
    ensures
        match find_first(b@.subrange(start as int, end as int), pat@) {
            Some(i) => r is Some && r->0 == i + start,
            None => r is None,
        },
        r matches Some(p) ==> start <= p && p + pat@.len() <= end,
        r matches Some(p) ==> b@.subrange(p as int, p + pat@.len()) == pat@,
{
    let ghost sub = b@.subrange(start as int, end as int);
    proof {
        if find_first(sub, pat@) is Some {
            lemma_find_from_some(sub, pat@, 0);
            let i = find_first(sub, pat@)->0;
            assert(sub.subrange(i, i + pat@.len()) =~= b@.subrange(start + i, start + i + pat@.len()));
        }
    }
    let plen = pat.len();
    if plen > end - start {
        proof {
            lemma_find_from_past_end(sub, pat@, 0);
        }
        return None;
    }
    let mut i: usize = start;
    while i <= end - plen
        invariant
            start <= i <= end - plen,
            end <= b@.len(),
            plen == pat@.len(),
            plen <= end - start,
            sub == b@.subrange(start as int, end as int),
            find_first(sub, pat@) == find_from(sub, pat@, i - start),
        decreases end - i,
    {
        let mut k: usize = 0;
        while k < plen && b[i + k] == pat[k]
            invariant
                k <= plen,
                plen == pat@.len(),
                i + plen <= end,
                end <= b@.len(),
                forall|j: int| 0 <= j < k ==> b@[i + j] == pat@[j],
            decreases plen - k,
        {
            k = k + 1;
        }
        assert(sub.subrange(i - start, i - start + plen) =~= b@.subrange(i as int, (i + plen) as int));
        if k == plen {
            assert(b@.subrange(i as int, (i + plen) as int) =~= pat@);
            return Some(i);
        }
        assert(b@.subrange(i as int, (i + plen) as int)[k as int] != pat@[k as int]);
        if i == end - plen {
            proof {
                lemma_find_from_past_end(sub, pat@, i - start + 1);
            }
            return None;
        }
        i = i + 1;
    }
    None
}

/// The characters of a string slice.
pub fn chars_of(s: &str) -> (v: Vec<char>)
    ensures
        v@ == s@,
{
    let mut v: Vec<char> = Vec::new();
    let ghost all = s@;
    for c in it: s.chars()
        invariant
            it.seq() == all,
            v@ == all.subrange(0, it.index() as int),
    {
        v.push(c);
        proof {
            assert(v@ =~= all.subrange(0, it.index() + 1));
        }
    }
    assert(all.subrange(0, all.len() as int) =~= all);
    v
}

/// Appends characters `v[a..e]` to a string.
pub fn push_chars(out: &mut String, v: &[char], a: usize, e: usize)
    requires
        a <= e <= v@.len(),
    ensures
        final(out)@ == old(out)@ + v@.subrange(a as int, e as int),
{
    let ghost start = out@;
    let mut i = a;
    while i < e
        invariant
            a <= i <= e,
            e <= v@.len(),
            out@ == start + v@.subrange(a as int, i as int),
        decreases e - i,
    {
        push_char(out, v[i]);
        proof {
            assert(v@.subrange(a as int, i + 1) =~= v@.subrange(a as int, i as int).push(v@[i as int]));
        }
        i = i + 1;
    }
}

/// The value of an ASCII hexadecimal digit.
pub open spec fn hex_value(c: u8) -> Option<nat> {
    if 48 <= c <= 57 {
        Some((c - 48) as nat)
    } else if 97 <= c <= 102 {
        Some((c - 87) as nat)
    } else if 65 <= c <= 70 {
        Some((c - 55) as nat)
    } else {
        None
    }
}

/// What `u8::from_str_radix(s, 16)` gives for a two-byte string `s`:
/// two hexadecimal digits, or `+` and one digit.
pub open spec fn parse_hex_pair(b0: u8, b1: u8) -> Option<u8> {
    if b0 == 43 {
        match hex_value(b1) {
            Some(v) => Some(v as u8),
            None => None,
        }
    } else {
        match (hex_value(b0), hex_value(b1)) {
            (Some(x), Some(y)) => Some((16 * x + y) as u8),
            _ => None,
        }
    }
}

fn hex_value_exec(c: u8) -> (r: Option<u8>)
    ensures
        match hex_value(c) {
            Some(v) => r == Some(v as u8) && v < 16,
            None => r is None,
        },
{
    if 48 <= c && c <= 57 {
        Some(c - 48)
    } else if 97 <= c && c <= 102 {
        Some(c - 87)
    } else if 65 <= c && c <= 70 {
        Some(c - 55)
    } else {
        None
    }
}

/// Parses a two-byte string as a hexadecimal `u8`.
pub fn parse_hex_pair_exec(b0: u8, b1: u8) -> (r: Option<u8>)
    ensures
        r == parse_hex_pair(b0, b1),
{
    if b0 == 43 {
        hex_value_exec(b1)
    } else {
        match (hex_value_exec(b0), hex_value_exec(b1)) {
            (Some(x), Some(y)) => Some(16 * x + y),
            _ => None,
        }
    }
}

/// Whether byte index `i` of the UTF-8 bytes `b` starts a character or is the end.
pub fn is_boundary_exec(b: &[u8], i: usize) -> (r: bool)
    requires
        vstd::utf8::valid_utf8(b@),
        i <= b@.len(),
    ensures
        r == vstd::utf8::is_char_boundary(b@, i as int),
{
    proof {
        vstd::utf8::is_char_boundary_start_end_of_seq(b@);
    }
    if i == b.len() {
        true
    } else {
        proof {
            vstd::utf8::is_char_boundary_iff_not_is_continuation_byte(b@, i as int);
        }
        !(0x80 <= b[i] && b[i] <= 0xbf)
    }
}

/// In UTF-8 text, the byte after an ASCII byte starts a character (or is
/// the end).
pub proof fn lemma_boundary_after_ascii(b: Seq<u8>, k: int)
    requires
        vstd::utf8::valid_utf8(b),
        0 < k <= b.len(),
        b[k - 1] < 0x80,
    ensures
        vstd::utf8::is_char_boundary(b, k),
{
    vstd::utf8::is_char_boundary_start_end_of_seq(b);
    if k < b.len() {
        vstd::utf8::is_char_boundary_iff_not_is_continuation_byte(b, k - 1);
        vstd::utf8::valid_utf8_split(b, k - 1);
        let s = b.subrange(k - 1, b.len() as int);
        assert(vstd::utf8::length_of_first_scalar(s) == 1);
        assert(vstd::utf8::pop_first_scalar(s) =~= b.subrange(k, b.len() as int));
        let t = b.subrange(k, b.len() as int);
        assert(vstd::utf8::valid_utf8(t));
        assert(vstd::utf8::valid_first_scalar(t));
        assert(t[0] == b[k]);
        vstd::utf8::is_char_boundary_iff_not_is_continuation_byte(b, k);
    }
}

/// In UTF-8 text, an ASCII byte starts a character.
pub proof fn lemma_boundary_at_ascii(b: Seq<u8>, k: int)
    requires
        vstd::utf8::valid_utf8(b),
        0 <= k < b.len(),
        b[k] < 0x80,
    ensures
        vstd::utf8::is_char_boundary(b, k),
{
    vstd::utf8::is_char_boundary_iff_not_is_continuation_byte(b, k);
}

/// The bytes of UTF-8 text between two character boundaries are UTF-8.
pub proof fn lemma_valid_between(b: Seq<u8>, a: int, e: int)
    requires
        vstd::utf8::valid_utf8(b),
        0 <= a <= e <= b.len(),
        vstd::utf8::is_char_boundary(b, a),
        vstd::utf8::is_char_boundary(b, e),
    ensures
        vstd::utf8::valid_utf8(b.subrange(a, e)),
{
    vstd::utf8::valid_utf8_split(b, a);
    let tb = b.subrange(a, b.len() as int);
    assert(vstd::utf8::is_char_boundary(tb, e - a)) by {
        vstd::utf8::is_char_boundary_start_end_of_seq(tb);
        if e < b.len() {
            vstd::utf8::is_char_boundary_iff_not_is_continuation_byte(b, e);
            vstd::utf8::is_char_boundary_iff_not_is_continuation_byte(tb, e - a);
        } else {
            assert(e - a == tb.len());
        }
    }
    vstd::utf8::valid_utf8_split(tb, e - a);
    assert(tb.subrange(0, e - a) =~= b.subrange(a, e));
}

/// The text of `s` between byte indices `a` and `e`.
pub fn substring_bytes(s: &str, a: usize, e: usize) -> (r: String)
    requires
        a <= e <= s.spec_bytes().len(),
        vstd::utf8::is_char_boundary(s.spec_bytes(), a as int),
        vstd::utf8::is_char_boundary(s.spec_bytes(), e as int),
    ensures
        r@ == vstd::utf8::decode_utf8(s.spec_bytes().subrange(a as int, e as int)),
        vstd::utf8::encode_utf8(r@) == s.spec_bytes().subrange(a as int, e as int),
{
    let ghost bytes = s.spec_bytes();
    proof {
        vstd::utf8::encode_utf8_valid_utf8(s@);
        vstd::utf8::valid_utf8_split(bytes, a as int);
    }
    let (_, tail) = s.split_at(a);
    proof {
        let tb = bytes.subrange(a as int, bytes.len() as int);
        assert(tail.spec_bytes() =~= tb);
        assert(vstd::utf8::is_char_boundary(tb, (e - a) as int)) by {
            vstd::utf8::is_char_boundary_start_end_of_seq(tb);
            if e < bytes.len() {
                vstd::utf8::is_char_boundary_iff_not_is_continuation_byte(bytes, e as int);
                vstd::utf8::is_char_boundary_iff_not_is_continuation_byte(tb, (e - a) as int);
            } else {
                assert(e - a == tb.len());
            }
        }
    }
    let (mid, _) = tail.split_at(e - a);
    proof {
        assert(mid.spec_bytes() =~= bytes.subrange(a as int, e as int));
        vstd::utf8::encode_utf8_decode_utf8(mid@);
    }
    mid.to_owned()
}


// ─── XML escaping and colours ────────────────────────────────────────────────

/// The XML escape of one character: `&`, `<`, `>` and `"` become entities.
pub open spec fn xml_escape_char(c: char) -> Seq<char> {
    if c == '&' {
        "&amp;"@
    } else if c == '<' {
        "&lt;"@
    } else if c == '>' {
        "&gt;"@
    } else if c == '"' {
        "&quot;"@
    } else {
        seq![c]
    }
}

/// `s` with each character escaped by `xml_escape_char`.
pub open spec fn xml_escaped(s: Seq<char>) -> Seq<char>
    decreases s.len(),
{
    if s.len() == 0 {
        Seq::empty()
    } else {
        xml_escaped(s.drop_last()) + xml_escape_char(s.last())
    }
}

/// Appends `s` escaped for XML text and attribute values.
pub fn push_xml_escaped(out: &mut String, s: &str)
    ensures
        final(out)@ == old(out)@ + xml_escaped(s@),
{
    let ghost all = s@;
    let ghost start = out@;
    for c in it: s.chars()
        invariant
            it.seq() == all,
            out@ == start + xml_escaped(all.subrange(0, it.index() as int)),
    {
        proof {
            assert(all.subrange(0, it.index() + 1).drop_last() =~= all.subrange(0, it.index() as int));
        }
        if c == '&' {
            push_str(out, "&amp;");
        } else if c == '<' {
            push_str(out, "&lt;");
        } else if c == '>' {
            push_str(out, "&gt;");
        } else if c == '"' {
            push_str(out, "&quot;");
        } else {
            push_char(out, c);
        }
    }
    assert(all.subrange(0, all.len() as int) =~= all);
}

/// `s` escaped for XML.
pub fn xml_escape(s: &str) -> (r: String)
    ensures
        r@ == xml_escaped(s@),
{
    let mut out = String::new();
    push_xml_escaped(&mut out, s);
    out
}

/// Two upper-case hexadecimal digits of a byte.
pub open spec fn hex_byte(b: u8) -> Seq<char> {
    seq![hex_digit_char((b / 16) as nat), hex_digit_char((b % 16) as nat)]
}

/// A colour as `#RRGGBB` in upper-case hexadecimal.
pub open spec fn hex_color(c: Seq<u8>) -> Seq<char> {
    seq!['#'] + hex_byte(c[0]) + hex_byte(c[1]) + hex_byte(c[2])
}

/// Appends `#RRGGBB` for the colour `c`.
pub fn push_hex_color(out: &mut String, c: [u8; 3])
    ensures
        final(out)@ == old(out)@ + hex_color(c@),
{
    let ghost start = out@;
    push_char(out, '#');
    let mut i: usize = 0;
    while i < 3
        invariant
            i <= 3,
            out@ == start + seq!['#'] + (if i == 0 { Seq::empty() } else if i == 1 { hex_byte(c@[0]) } else if i == 2 {
                hex_byte(c@[0]) + hex_byte(c@[1])
            } else {
                hex_byte(c@[0]) + hex_byte(c@[1]) + hex_byte(c@[2])
            }),
        decreases 3 - i,
    {
        let b = c[i];
        push_char(out, digit_char((b / 16) as u64));
        push_char(out, digit_char((b % 16) as u64));
        proof {
            assert(hex_byte(b) =~= seq![hex_digit_char((b / 16) as nat), hex_digit_char((b % 16) as nat)]);
        }
        i = i + 1;
    }
    assert(out@ =~= start + hex_color(c@));
}

/// The colour `c` as `#RRGGBB`.
pub fn hex(c: [u8; 3]) -> (r: String)
    ensures
        r@ == hex_color(c@),
{
    let mut out = String::new();
    push_hex_color(&mut out, c);
    out
}

/// Escaped text holds no `<`, `>` or `"`.
pub proof fn law_xml_escaped_is_safe(s: Seq<char>)
    ensures
        forall|i: int| 0 <= i < xml_escaped(s).len() ==> #[trigger] xml_escaped(s)[i] != '<' && xml_escaped(s)[i] != '>'
            && xml_escaped(s)[i] != '"',
    decreases s.len(),
{
    reveal_strlit("&amp;");
    reveal_strlit("&lt;");
    reveal_strlit("&gt;");
    reveal_strlit("&quot;");
    if s.len() > 0 {
        law_xml_escaped_is_safe(s.drop_last());
        let a = xml_escaped(s.drop_last());
        let b = xml_escape_char(s.last());
        assert forall|i: int| 0 <= i < xml_escaped(s).len() implies #[trigger] xml_escaped(s)[i] != '<' && xml_escaped(s)[i]
            != '>' && xml_escaped(s)[i] != '"' by {
            if i >= a.len() {
                assert(xml_escaped(s)[i] == b[i - a.len()]);
            } else {
                assert(xml_escaped(s)[i] == a[i]);
            }
        }
    }
}

} // verus!
