//! Text as sequences of characters: whitespace, lines, fields and numerals.

use vstd::prelude::*;
use vstd::string::*;
use vstd::utf8::{decode_utf8, encode_utf8, valid_utf8};

verus! {

broadcast use vstd::string::group_string_axioms;

// ---------------------------------------------------------------------------
// Model
// ---------------------------------------------------------------------------

/// The characters with the Unicode property `White_Space`.
pub open spec fn is_white_space(c: char) -> bool {
    ||| '\u{9}' <= c <= '\u{d}'
    ||| c == ' '
    ||| c == '\u{85}'
    ||| c == '\u{a0}'
    ||| c == '\u{1680}'
    ||| '\u{2000}' <= c <= '\u{200a}'
    ||| c == '\u{2028}'
    ||| c == '\u{2029}'
    ||| c == '\u{202f}'
    ||| c == '\u{205f}'
    ||| c == '\u{3000}'
}

/// `s` without its leading whitespace.
pub open spec fn trimmed_start(s: Seq<char>) -> Seq<char>
    decreases s.len(),
{
    if s.len() > 0 && is_white_space(s[0]) {
        trimmed_start(s.drop_first())
    } else {
        s
    }
}

/// `s` without its trailing whitespace.
pub open spec fn trimmed_end(s: Seq<char>) -> Seq<char>
    decreases s.len(),
{
    if s.len() > 0 && is_white_space(s.last()) {
        trimmed_end(s.drop_last())
    } else {
        s
    }
}

/// `s` without leading and trailing whitespace.
pub open spec fn trimmed(s: Seq<char>) -> Seq<char> {
    trimmed_end(trimmed_start(s))
}

/// Whether `s` holds nothing but whitespace.
pub open spec fn is_blank(s: Seq<char>) -> bool {
    forall|i: int| 0 <= i < s.len() ==> is_white_space(#[trigger] s[i])
}

/// The index of the first `c` in `s`, or `s.len()` when there is none.
pub open spec fn position(s: Seq<char>, c: char) -> int
    decreases s.len(),
{
    if s.len() == 0 || s[0] == c {
        0
    } else {
        1 + position(s.drop_first(), c)
    }
}

/// The fields of `s` between occurrences of `separator`.
pub open spec fn fields(s: Seq<char>, separator: char) -> Seq<Seq<char>>
    decreases s.len(),
{
    let i = position(s, separator);
    if i < 0 || i >= s.len() {
        seq![s]
    } else {
        seq![s.take(i)] + fields(s.skip(i + 1), separator)
    }
}

/// A line without the carriage return of a `\r\n` line ending.
pub open spec fn without_carriage_return(line: Seq<char>) -> Seq<char> {
    if line.len() > 0 && line.last() == '\r' {
        line.drop_last()
    } else {
        line
    }
}

/// The lines of `s`. A line ends with `\n` or `\r\n`; the ending of the last
/// line is optional.
pub open spec fn lines_of(s: Seq<char>) -> Seq<Seq<char>>
    decreases s.len(),
{
    let i = position(s, '\n');
    if s.len() == 0 {
        seq![]
    } else if i < 0 || i >= s.len() {
        seq![s]
    } else {
        seq![without_carriage_return(s.take(i))] + lines_of(s.skip(i + 1))
    }
}

/// The parts one after the other, with `separator` between neighbours.
pub open spec fn joined(parts: Seq<Seq<char>>, separator: Seq<char>) -> Seq<char>
    decreases parts.len(),
{
    if parts.len() == 0 {
        seq![]
    } else if parts.len() == 1 {
        parts[0]
    } else {
        joined(parts.drop_last(), separator) + separator + parts.last()
    }
}

/// Whether `s` begins with `prefix`.
pub open spec fn begins_with(s: Seq<char>, prefix: Seq<char>) -> bool {
    prefix.len() <= s.len() && s.take(prefix.len() as int) == prefix
}

/// Whether `needle` stands at index `i` of `s`.
pub open spec fn stands_at(s: Seq<char>, needle: Seq<char>, i: int) -> bool {
    0 <= i && i + needle.len() <= s.len() && s.subrange(i, i + needle.len()) == needle
}

/// Whether `needle` stands somewhere in `s`.
pub open spec fn has_substring(s: Seq<char>, needle: Seq<char>) -> bool {
    exists|i: int| stands_at(s, needle, i)
}

/// The decimal digit of a number below ten.
pub open spec fn digit_char(d: nat) -> char {
    (('0' as u32) + d) as char
}

/// The decimal numeral of `n`, without leading zeros.
pub open spec fn decimal(n: nat) -> Seq<char>
    decreases n,
{
    if n < 10 {
        seq![digit_char(n)]
    } else {
        decimal(n / 10).push(digit_char(n % 10))
    }
}

/// The characters of each string of a sequence.
pub open spec fn views(parts: Seq<String>) -> Seq<Seq<char>> {
    parts.map_values(|part: String| part@)
}

// ---------------------------------------------------------------------------
// Facts about the model
// ---------------------------------------------------------------------------

pub proof fn lemma_position(s: Seq<char>, c: char)
    ensures
        0 <= position(s, c) <= s.len(),
        forall|k: int| 0 <= k < position(s, c) ==> s[k] != c,
        position(s, c) < s.len() ==> s[position(s, c)] == c,
    decreases s.len(),
{
    if s.len() > 0 && s[0] != c {
        lemma_position(s.drop_first(), c);
        assert forall|k: int| 0 <= k < position(s, c) implies s[k] != c by {
            if k > 0 {
                assert(s[k] == s.drop_first()[k - 1]);
            }
        }
    }
}

pub proof fn lemma_position_unique(s: Seq<char>, c: char, i: int)
    requires
        0 <= i <= s.len(),
        forall|k: int| 0 <= k < i ==> s[k] != c,
        i < s.len() ==> s[i] == c,
    ensures
        position(s, c) == i,
{
    lemma_position(s, c);
}

pub proof fn lemma_trimmed_range(s: Seq<char>, i: int, j: int)
    requires
        0 <= i <= j <= s.len(),
        forall|k: int| 0 <= k < i ==> is_white_space(#[trigger] s[k]),
        forall|k: int| j <= k < s.len() ==> is_white_space(#[trigger] s[k]),
        i == j ==> i == s.len(),
        i < j ==> !is_white_space(s[i]) && !is_white_space(s[j - 1]),
    ensures
        trimmed(s) == s.subrange(i, j),
    decreases s.len(),
{
    if s.len() == 0 {
        assert(trimmed(s) =~= s.subrange(i, j));
    } else if i > 0 {
        let t = s.drop_first();
        assert forall|k: int| 0 <= k < i - 1 implies is_white_space(#[trigger] t[k]) by {
            assert(t[k] == s[k + 1]);
        }
        assert forall|k: int| j - 1 <= k < t.len() implies is_white_space(#[trigger] t[k]) by {
            assert(t[k] == s[k + 1]);
        }
        lemma_trimmed_range(t, i - 1, j - 1);
        assert(t.subrange(i - 1, j - 1) =~= s.subrange(i, j));
    } else {
        assert(trimmed_start(s) == s);
        lemma_trimmed_end_range(s, j);
        assert(s.subrange(0, j) =~= s.take(j));
    }
}

proof fn lemma_trimmed_end_range(s: Seq<char>, j: int)
    requires
        0 <= j <= s.len(),
        forall|k: int| j <= k < s.len() ==> is_white_space(#[trigger] s[k]),
        j > 0 ==> !is_white_space(s[j - 1]),
    ensures
        trimmed_end(s) == s.take(j),
    decreases s.len(),
{
    if j < s.len() {
        lemma_trimmed_end_range(s.drop_last(), j);
        assert(s.drop_last().take(j) =~= s.take(j));
    } else {
        assert(s.take(j) =~= s);
    }
}

/// What is left of `s` after trimming is the part from `r.0` up to `r.1`, and it
/// neither begins nor ends with whitespace.
pub proof fn lemma_trimmed(s: Seq<char>) -> (r: (int, int))
    ensures
        0 <= r.0 <= r.1 <= s.len(),
        trimmed(s) == s.subrange(r.0, r.1),
        trimmed(s).len() > 0 ==> !is_white_space(trimmed(s)[0]) && !is_white_space(
            trimmed(s).last(),
        ),
        trimmed(trimmed(s)) == trimmed(s),
{
    let i = lemma_trimmed_start(s);
    let t = trimmed_start(s);
    let j = lemma_trimmed_end(t);
    let u = trimmed(s);
    assert(u =~= s.subrange(i, i + j));
    if u.len() > 0 {
        assert(u[0] == t[0]);
    }
    lemma_trimmed_range(u, 0, u.len() as int);
    assert(u.subrange(0, u.len() as int) =~= u);
    (i, i + j)
}

/// A number is written with digits, at least one.
pub proof fn lemma_decimal(n: nat)
    ensures
        decimal(n).len() > 0,
        forall|k: int|
            0 <= k < decimal(n).len() ==> '0' <= #[trigger] decimal(n)[k] && decimal(n)[k] <= '9',
    decreases n,
{
    if n >= 10 {
        lemma_decimal(n / 10);
    }
}

proof fn lemma_trimmed_start(s: Seq<char>) -> (i: int)
    ensures
        0 <= i <= s.len(),
        trimmed_start(s) == s.skip(i),
        i < s.len() ==> !is_white_space(s[i]),
    decreases s.len(),
{
    if s.len() > 0 && is_white_space(s[0]) {
        let i = lemma_trimmed_start(s.drop_first());
        assert(s.drop_first().skip(i) =~= s.skip(i + 1));
        i + 1
    } else {
        assert(s.skip(0) =~= s);
        0
    }
}

/// What is left of `s` after trimming its end is the part up to `j`.
pub proof fn lemma_trimmed_end(s: Seq<char>) -> (j: int)
    ensures
        0 <= j <= s.len(),
        trimmed_end(s) == s.take(j),
        j > 0 ==> !is_white_space(s[j - 1]),
    decreases s.len(),
{
    if s.len() > 0 && is_white_space(s.last()) {
        let j = lemma_trimmed_end(s.drop_last());
        assert(s.drop_last().take(j) =~= s.take(j));
        j
    } else {
        assert(s.take(s.len() as int) =~= s);
        s.len() as int
    }
}

/// A text has as many lines as line feeds, and one more if something follows the last.
pub proof fn lines_are_counted_by_their_ends(s: Seq<char>)
    ensures
        lines_of(s).len() == s.to_multiset().count('\n') + (if s.len() > 0 && s.last() != '\n' {
            1nat
        } else {
            0
        }),
    decreases s.len(),
{
    broadcast use vstd::seq_lib::group_to_multiset_ensures;

    let i = position(s, '\n');
    lemma_position(s, '\n');
    if s.len() == 0 {
        assert(s.to_multiset().count('\n') == 0) by {
            if s.to_multiset().count('\n') > 0 {
                assert(s.contains('\n'));
            }
        }
    } else if i >= s.len() {
        assert(!s.contains('\n'));
        assert(s.to_multiset().count('\n') == 0);
    } else {
        let head = s.take(i);
        let rest = s.skip(i + 1);
        lines_are_counted_by_their_ends(rest);
        assert(!head.contains('\n'));
        assert(head.to_multiset().count('\n') == 0);
        vstd::seq_lib::lemma_multiset_commutative(head.push('\n'), rest);
        assert(head.push('\n') + rest =~= s);
        assert(head.push('\n').to_multiset() =~= head.to_multiset().insert('\n'));
        if rest.len() > 0 {
            assert(rest.last() == s.last());
        } else {
            assert(s.last() == '\n');
        }
    }
}

/// Two texts with the same encoding are the same text.
pub proof fn lemma_encode_injective(a: Seq<char>, b: Seq<char>)
    requires
        encode_utf8(a) == encode_utf8(b),
    ensures
        a == b,
{
    vstd::utf8::encode_utf8_decode_utf8(a);
    vstd::utf8::encode_utf8_decode_utf8(b);
}

// ---------------------------------------------------------------------------
// Operations of the standard library
// ---------------------------------------------------------------------------

/// `String::push` appends the character to the end of the string.
pub assume_specification[ String::push ](s: &mut String, c: char)
    ensures
        final(s)@ == old(s)@.push(c),
;

/// `str::from_utf8` accepts exactly the byte sequences that are valid UTF-8, and
/// gives the text that they encode.
#[verifier::external_body]
pub(crate) fn text_from_utf8<'a>(bytes: &'a [u8]) -> (r: Option<&'a str>)
    ensures
        r is Some <==> valid_utf8(bytes@),
        r matches Some(text) ==> text@ == decode_utf8(bytes@),
{
    std::str::from_utf8(bytes).ok()
}

/// What `String::from_utf8_lossy` makes of a byte sequence: the text that it
/// encodes, with a replacement character for each ill-formed part.
pub uninterp spec fn lossy_utf8(bytes: Seq<u8>) -> Seq<char>;

/// The text of a byte sequence: what it encodes, or else what stands for that.
pub open spec fn lossy_text(bytes: Seq<u8>) -> Seq<char> {
    if valid_utf8(bytes) {
        decode_utf8(bytes)
    } else {
        lossy_utf8(bytes)
    }
}

/// `String::from_utf8_lossy` gives the encoded text where the bytes are valid
/// UTF-8. What it puts in place of ill-formed bytes is only named.
#[verifier::external_body]
pub(crate) fn text_from_utf8_lossy(bytes: &[u8]) -> (r: String)
    ensures
        r@ == lossy_utf8(bytes@),
        valid_utf8(bytes@) ==> r@ == decode_utf8(bytes@),
{
    String::from_utf8_lossy(bytes).into_owned()
}

// ---------------------------------------------------------------------------
// Characters and strings
// ---------------------------------------------------------------------------

pub(crate) fn white_space(c: char) -> (r: bool)
    ensures
        r == is_white_space(c),
{
    ('\u{9}' <= c && c <= '\u{d}') || c == ' ' || c == '\u{85}' || c == '\u{a0}' || c == '\u{1680}'
        || ('\u{2000}' <= c && c <= '\u{200a}') || c == '\u{2028}' || c == '\u{2029}' || c
        == '\u{202f}' || c == '\u{205f}' || c == '\u{3000}'
}

pub(crate) fn chars_of(s: &str) -> (r: Vec<char>)
    ensures
        r@ == s@,
{
    let mut out: Vec<char> = Vec::new();
    for c in it: s.chars()
        invariant
            it.seq() == s@,
            out@ == s@.take(it.index()),
    {
        out.push(c);
        assert(s@.take(it.index() + 1) =~= s@.take(it.index()).push(c));
    }
    assert(s@.take(s@.len() as int) =~= s@);
    out
}

/// The characters of `chars` from `from` up to `to`, as a string.
pub(crate) fn string_of(chars: &Vec<char>, from: usize, to: usize) -> (r: String)
    requires
        from <= to <= chars.len(),
    ensures
        r@ == chars@.subrange(from as int, to as int),
{
    let mut out = String::new();
    let mut i: usize = from;
    while i < to
        invariant
            from <= i <= to <= chars.len(),
            out@ == chars@.subrange(from as int, i as int),
        decreases to - i,
    {
        out.push(chars[i]);
        i = i + 1;
        assert(chars@.subrange(from as int, i as int) =~= chars@.subrange(
            from as int,
            i - 1,
        ).push(chars@[i - 1]));
    }
    out
}

pub(crate) fn trim<'a>(s: &'a str) -> (r: &'a str)
    ensures
        r@ == trimmed(s@),
{
    let count = s.unicode_len();
    let mut i: usize = 0;
    let mut start: usize = 0;
    let mut end: usize = 0;
    for c in it: s.chars()
        invariant
            it.seq() == s@,
            count == s@.len(),
            i == it.index(),
            start <= end <= i,
            start == end ==> start == i,
            start < end ==> !is_white_space(s@[start as int]) && !is_white_space(s@[end - 1]),
            forall|k: int| 0 <= k < start ==> is_white_space(#[trigger] s@[k]),
            forall|k: int| end <= k < i ==> is_white_space(#[trigger] s@[k]),
    {
        i = i + 1;
        if !white_space(c) {
            end = i;
        } else if start == end {
            start = i;
            end = i;
        }
    }
    proof {
        lemma_trimmed_range(s@, start as int, end as int);
    }
    s.substring_char(start, end)
}

/// Whether `s` holds nothing but whitespace.
pub(crate) fn blank(s: &str) -> (r: bool)
    ensures
        r == is_blank(s@),
{
    for c in it: s.chars()
        invariant
            it.seq() == s@,
            forall|k: int| 0 <= k < it.index() ==> is_white_space(#[trigger] s@[k]),
    {
        if !white_space(c) {
            assert(!is_white_space(s@[it.index()]));
            return false;
        }
    }
    true
}

/// Whether two strings hold the same characters.
pub(crate) fn same_text(a: &str, b: &str) -> (r: bool)
    ensures
        r == (a@ == b@),
{
    let x = a.as_bytes();
    let y = b.as_bytes();
    if x.len() != y.len() {
        return false;
    }
    let mut i: usize = 0;
    while i < x.len()
        invariant
            x.len() == y.len(),
            i <= x.len(),
            x@ == encode_utf8(a@),
            y@ == encode_utf8(b@),
            forall|k: int| 0 <= k < i ==> x@[k] == y@[k],
        decreases x.len() - i,
    {
        if x[i] != y[i] {
            return false;
        }
        i = i + 1;
    }
    proof {
        assert(x@ =~= y@);
        lemma_encode_injective(a@, b@);
    }
    true
}

/// Whether `prefix` stands at the beginning of `s`.
pub(crate) fn starts_with(s: &str, prefix: &str) -> (r: bool)
    ensures
        r == begins_with(s@, prefix@),
{
    let wanted = chars_of(prefix);
    let mut i: usize = 0;
    for c in it: s.chars()
        invariant
            it.seq() == s@,
            wanted@ == prefix@,
            i == it.index(),
            i <= wanted.len(),
            forall|k: int| 0 <= k < i ==> s@[k] == prefix@[k],
    {
        if i == wanted.len() {
            assert(s@.take(i as int) =~= prefix@);
            return true;
        }
        if wanted[i] != c {
            assert(begins_with(s@, prefix@) ==> s@.take(prefix@.len() as int)[i as int]
                == s@[i as int]);
            return false;
        }
        i = i + 1;
    }
    assert(i == wanted.len() ==> s@.take(i as int) =~= prefix@);
    i == wanted.len()
}

/// Whether `needle` stands somewhere in `s`.
pub(crate) fn contains(s: &str, needle: &str) -> (r: bool)
    ensures
        r == has_substring(s@, needle@),
{
    let hay = chars_of(s);
    let wanted = chars_of(needle);
    let n = hay.len();
    let m = wanted.len();
    let mut i: usize = 0;
    while i <= n && m <= n - i
        invariant
            hay@ == s@,
            wanted@ == needle@,
            n == hay.len(),
            m == wanted.len(),
            i <= n + 1,
            n < usize::MAX || i <= n,
            forall|j: int| 0 <= j < i ==> !stands_at(s@, needle@, j),
        decreases n + 1 - i,
    {
        let mut k: usize = 0;
        while k < m && hay[i + k] == wanted[k]
            invariant
                n == hay.len(),
                m == wanted.len(),
                i + m <= n,
                k <= m,
                forall|j: int| 0 <= j < k ==> hay@[i + j] == wanted@[j],
            decreases m - k,
        {
            k = k + 1;
        }
        if k == m {
            assert(s@.subrange(i as int, i + m) =~= needle@);
            assert(stands_at(s@, needle@, i as int));
            return true;
        }
        assert(stands_at(s@, needle@, i as int) ==> s@.subrange(i as int, i + m)[k as int] == s@[i
            + k]);
        i = i + 1;
    }
    false
}

/// The index of the first `c` of `chars` at or after `from`, or the length.
pub(crate) fn find_from(chars: &Vec<char>, from: usize, c: char) -> (r: usize)
    requires
        from <= chars.len(),
    ensures
        from <= r <= chars.len(),
        r == from + position(chars@.skip(from as int), c),
{
    let mut i: usize = from;
    while i < chars.len() && chars[i] != c
        invariant
            from <= i <= chars.len(),
            forall|k: int| from <= k < i ==> chars@[k] != c,
        decreases chars.len() - i,
    {
        i = i + 1;
    }
    proof {
        lemma_position_unique(chars@.skip(from as int), c, i - from);
    }
    i
}

/// The fields of `s` between occurrences of `separator`.
pub(crate) fn split(s: &str, separator: char) -> (r: Vec<String>)
    ensures
        views(r@) == fields(s@, separator),
{
    let chars = chars_of(s);
    let mut out: Vec<String> = Vec::new();
    let mut from: usize = 0;
    proof {
        assert(s@.skip(0) =~= s@);
        assert(views(out@) + fields(s@, separator) =~= fields(s@, separator));
    }
    loop
        invariant
            chars@ == s@,
            from <= chars.len(),
            views(out@) + fields(s@.skip(from as int), separator) == fields(s@, separator),
        decreases chars.len() - from,
    {
        let end = find_from(&chars, from, separator);
        let field = string_of(&chars, from, end);
        let ghost rest = s@.skip(from as int);
        let ghost before = views(out@);
        out.push(field);
        proof {
            assert(views(out@) =~= before.push(field@));
            assert(field@ =~= rest.take(end - from));
        }
        if end == chars.len() {
            proof {
                assert(rest.take(end - from) =~= rest);
                assert(before + seq![rest] =~= before.push(rest));
            }
            return out;
        }
        proof {
            assert(rest.skip(end - from + 1) =~= s@.skip(end + 1));
            assert(before + (seq![field@] + fields(s@.skip(end + 1), separator)) =~= before.push(
                field@,
            ) + fields(s@.skip(end + 1), separator));
        }
        from = end + 1;
    }
}

/// The lines of `s`.
pub(crate) fn lines(s: &str) -> (r: Vec<String>)
    ensures
        views(r@) == lines_of(s@),
{
    let chars = chars_of(s);
    let mut out: Vec<String> = Vec::new();
    let mut from: usize = 0;
    proof {
        assert(s@.skip(0) =~= s@);
        assert(views(out@) + lines_of(s@) =~= lines_of(s@));
    }
    while from < chars.len()
        invariant
            chars@ == s@,
            from <= chars.len(),
            views(out@) + lines_of(s@.skip(from as int)) == lines_of(s@),
        decreases chars.len() - from,
    {
        let end = find_from(&chars, from, '\n');
        let ghost rest = s@.skip(from as int);
        let ghost before = views(out@);
        let ended = end < chars.len();
        let mut stop: usize = end;
        if ended && from < end && chars[end - 1] == '\r' {
            stop = end - 1;
        }
        let line = string_of(&chars, from, stop);
        out.push(line);
        proof {
            assert(views(out@) =~= before.push(line@));
            if ended {
                assert(without_carriage_return(rest.take(end - from)) =~= line@);
                assert(rest.skip(end - from + 1) =~= s@.skip(end + 1));
                assert(before + (seq![line@] + lines_of(s@.skip(end + 1))) =~= before.push(line@)
                    + lines_of(s@.skip(end + 1)));
            } else {
                assert(line@ =~= rest);
                assert(before + seq![rest] =~= before.push(rest));
                assert(s@.skip(end as int) =~= seq![]);
                assert(before.push(rest) + lines_of(seq![]) =~= before.push(rest));
            }
        }
        from = if ended { end + 1 } else { end };
    }
    proof {
        assert(s@.skip(from as int) =~= seq![]);
        assert(views(out@) + lines_of(seq![]) =~= views(out@));
    }
    out
}

pub(crate) fn push_decimal(out: &mut String, n: u64)
    ensures
        final(out)@ == old(out)@ + decimal(n as nat),
    decreases n,
{
    if n >= 10 {
        push_decimal(out, n / 10);
    }
    let d: u8 = (n % 10) as u8;
    out.push((48 + d) as char);
    proof {
        assert(out@ =~= old(out)@ + decimal(n as nat));
    }
}

/// The parts one after the other, with `separator` between neighbours.
pub(crate) fn join(parts: &Vec<String>, separator: &str) -> (r: String)
    ensures
        r@ == joined(views(parts@), separator@),
{
    let ghost all = views(parts@);
    let mut out = String::new();
    let mut i: usize = 0;
    while i < parts.len()
        invariant
            i <= parts.len(),
            all == views(parts@),
            out@ == joined(all.take(i as int), separator@),
        decreases parts.len() - i,
    {
        if i > 0 {
            out.append(separator);
        }
        out.append(parts[i].as_str());
        proof {
            assert(all.take(i + 1).drop_last() =~= all.take(i as int));
            if i == 0 {
                assert(all.take(0) =~= seq![]);
                assert(all.take(1)[0] == all[0]);
                assert(out@ =~= all[0]);
            }
        }
        i = i + 1;
    }
    assert(all.take(all.len() as int) =~= all);
    out
}

/// A line ends at a line feed, and a carriage return before that belongs to its end. The
/// last line needs no end, and keeps a carriage return.
pub proof fn lines_end_at_line_feeds(line: Seq<char>, rest: Seq<char>)
    requires
        !line.contains('\n'),
    ensures
        line.len() == 0 || line.last() != '\r' ==> lines_of(line + seq!['\n'] + rest) == seq![line]
            + lines_of(rest),
        lines_of(line + seq!['\r', '\n'] + rest) == seq![line] + lines_of(rest),
        line.len() > 0 ==> lines_of(line) == seq![line],
        lines_of(seq![]) == Seq::<Seq<char>>::empty(),
{
    let n = line.len() as int;
    assert forall|k: int| 0 <= k < n implies line[k] != '\n' by {
        assert(line.contains(line[k]));
    }
    lemma_position_unique(line, '\n', n);
    let plain = line + seq!['\n'] + rest;
    lemma_position_unique(plain, '\n', n);
    assert(plain.take(n) =~= line);
    assert(plain.skip(n + 1) =~= rest);
    let returned = line + seq!['\r', '\n'] + rest;
    assert(returned[n] == '\r');
    lemma_position_unique(returned, '\n', n + 1);
    assert(returned.take(n + 1) =~= line.push('\r'));
    assert(returned.take(n + 1).drop_last() =~= line);
    assert(returned.skip(n + 2) =~= rest);
}

/// The parts of a list are joined with a separator between each two, and none at the ends.
pub proof fn separators_stand_between_parts(
    first: Seq<Seq<char>>,
    second: Seq<Seq<char>>,
    separator: Seq<char>,
)
    requires
        first.len() > 0,
        second.len() > 0,
    ensures
        joined(first + second, separator) == joined(first, separator) + separator + joined(
            second,
            separator,
        ),
        joined(seq![first[0]], separator) == first[0],
        joined(seq![], separator) == Seq::<char>::empty(),
    decreases second.len(),
{
    let all = first + second;
    assert(all.last() == second.last());
    if second.len() == 1 {
        assert(all.drop_last() =~= first);
        assert(joined(all, separator) =~= joined(first, separator) + separator + joined(
            second,
            separator,
        ));
    } else {
        let fewer = second.drop_last();
        separators_stand_between_parts(first, fewer, separator);
        assert(all.drop_last() =~= first + fewer);
        assert(joined(all, separator) =~= joined(first, separator) + separator + joined(
            second,
            separator,
        ));
    }
}

} // verus!
