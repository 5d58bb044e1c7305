//! Text operations of the vault: trimming, case folding, substring search and
//! line counting.
use vstd::prelude::*;
use vstd::utf8::encode_utf8;

verus! {

// ---------------------------------------------------------------------------
// Case and whitespace tables of the standard library
// ---------------------------------------------------------------------------

/// What `str::to_lowercase` returns for a string.
pub uninterp spec fn lowercase(s: Seq<char>) -> Seq<char>;

/// `str::to_lowercase`: the result depends on the text alone, and is called
/// [`lowercase`] in every contract. Each character is mapped to one or more, so
/// that the empty text stays empty and no other text becomes empty. What the
/// Unicode case tables map each character to is left unsaid.
pub assume_specification[ str::to_lowercase ](s: &str) -> (lower: String)
    ensures
        lower@ == lowercase(s@),
        lower@.len() == 0 <==> s@.len() == 0,
;

/// Whether a character has the Unicode property `White_Space`: tab to carriage
/// return, space, next line, no-break space, ogham space mark, the spaces from
/// en quad to hair space, line and paragraph separator, narrow no-break space,
/// medium mathematical space, and ideographic space.
pub open spec fn white_space(c: char) -> bool {
    ||| '\u{9}' <= c <= '\u{d}'
    ||| c == ' '
    ||| c == '\u{85}'
    ||| c == '\u{a0}'
    ||| c == '\u{1680}'
    ||| '\u{2000}' <= c <= '\u{200a}'
    ||| c == '\u{2028}'
    ||| c == '\u{2029}'
    ||| c == '\u{202f}'
    ||| c == '\u{205f}'
    ||| c == '\u{3000}'
}

/// `char::is_whitespace`: membership in the Unicode `White_Space` property,
/// which is [`white_space`].
pub assume_specification[ char::is_whitespace ](c: char) -> (b: bool)
    ensures
        b == white_space(c),
;

/// `String::push`: appends one character.
pub assume_specification[ String::push ](s: &mut String, c: char)
    ensures
        final(s)@ == old(s)@.push(c),
;

// ---------------------------------------------------------------------------
// Characters
// ---------------------------------------------------------------------------

/// The characters of `s`, in order.
pub fn chars_of(s: &str) -> (chars: Vec<char>)
    ensures
        chars@ == s@,
{
    let mut chars: Vec<char> = Vec::new();
    for c in it: s.chars()
        invariant
            it.seq() == s@,
            chars@ == s@.take(it.index()),
    {
        assert(s@.take(it.index() + 1) =~= s@.take(it.index()).push(c));
        chars.push(c);
    }
    assert(s@.take(s@.len() as int) =~= s@);
    chars
}

/// Whether two strings hold the same characters.
pub fn same_text(a: &str, b: &str) -> (same: bool)
    ensures
        same == (a@ == b@),
{
    let left = chars_of(a);
    let right = chars_of(b);
    if left.len() != right.len() {
        return false;
    }
    let mut i: usize = 0;
    while i < left.len()
        invariant
            left@ == a@,
            right@ == b@,
            left.len() == right.len(),
            i <= left.len(),
            forall|j: int| 0 <= j < i ==> left@[j] == right@[j],
        decreases left.len() - i,
    {
        if left[i] != right[i] {
            return false;
        }
        i += 1;
    }
    assert(a@ =~= b@);
    true
}

/// The texts of a list of strings.
pub open spec fn texts(strings: Seq<String>) -> Seq<Seq<char>> {
    strings.map_values(|s: String| s@)
}

/// The texts of a list of pairs of strings.
pub open spec fn text_pairs(pairs: Seq<(String, String)>) -> Seq<(Seq<char>, Seq<char>)> {
    pairs.map_values(|pair: (String, String)| (pair.0@, pair.1@))
}

/// Whether `s` is one of `strings`.
pub fn list_contains(strings: &Vec<String>, s: &String) -> (found: bool)
    ensures
        found == texts(strings@).contains(s@),
{
    let mut i: usize = 0;
    while i < strings.len()
        invariant
            i <= strings.len(),
            forall|j: int| 0 <= j < i ==> #[trigger] texts(strings@)[j] != s@,
        decreases strings.len() - i,
    {
        if strings[i] == *s {
            assert(texts(strings@)[i as int] == s@);
            return true;
        }
        i += 1;
    }
    false
}

// ---------------------------------------------------------------------------
// Trimming
// ---------------------------------------------------------------------------

/// `s` without its leading white space.
pub open spec fn trim_start(s: Seq<char>) -> Seq<char>
    decreases s.len(),
{
    if s.len() > 0 && white_space(s.first()) {
        trim_start(s.drop_first())
    } else {
        s
    }
}

/// `s` without its trailing white space.
pub open spec fn trim_end(s: Seq<char>) -> Seq<char>
    decreases s.len(),
{
    if s.len() > 0 && white_space(s.last()) {
        trim_end(s.drop_last())
    } else {
        s
    }
}

/// `s` without the white space around it.
pub open spec fn trimmed(s: Seq<char>) -> Seq<char> {
    trim_end(trim_start(s))
}

proof fn lemma_trim_start_skips(s: Seq<char>, n: int)
    requires
        0 <= n <= s.len(),
        forall|i: int| 0 <= i < n ==> white_space(#[trigger] s[i]),
        n < s.len() ==> !white_space(s[n]),
    ensures
        trim_start(s) == s.skip(n),
    decreases n,
{
    if n == 0 {
        assert(s.skip(0) =~= s);
    } else {
        assert(white_space(s[0]));
        let rest = s.drop_first();
        assert forall|i: int| 0 <= i < n - 1 implies white_space(#[trigger] rest[i]) by {
            assert(white_space(s[i + 1]));
        }
        lemma_trim_start_skips(rest, n - 1);
        assert(rest.skip(n - 1) =~= s.skip(n));
    }
}

proof fn lemma_trim_end_takes(s: Seq<char>, n: int)
    requires
        0 <= n <= s.len(),
        forall|i: int| n <= i < s.len() ==> white_space(#[trigger] s[i]),
        n > 0 ==> !white_space(s[n - 1]),
    ensures
        trim_end(s) == s.take(n),
    decreases s.len() - n,
{
    if n == s.len() {
        assert(s.take(n) =~= s);
    } else {
        assert(white_space(s[s.len() - 1]));
        lemma_trim_end_takes(s.drop_last(), n);
        assert(s.drop_last().take(n) =~= s.take(n));
    }
}

/// The part of `s` between its leading and its trailing white space.
pub fn trim(s: &str) -> (t: &str)
    ensures
        t@ == trimmed(s@),
{
    let chars = chars_of(s);
    let mut from: usize = 0;
    while from < chars.len() && chars[from].is_whitespace()
        invariant
            chars@ == s@,
            from <= chars.len(),
            forall|i: int| 0 <= i < from ==> white_space(#[trigger] s@[i]),
        ensures
            from < chars.len() ==> !white_space(s@[from as int]),
        decreases chars.len() - from,
    {
        from += 1;
    }
    let mut to: usize = chars.len();
    while to > from && chars[to - 1].is_whitespace()
        invariant
            chars@ == s@,
            from <= to <= chars.len(),
            forall|i: int| to <= i < s@.len() ==> white_space(#[trigger] s@[i]),
        ensures
            to > from ==> !white_space(s@[to - 1]),
        decreases to,
    {
        to -= 1;
    }
    proof {
        lemma_trim_start_skips(s@, from as int);
        let rest = s@.skip(from as int);
        let n = to - from;
        assert forall|i: int| n <= i < rest.len() implies white_space(#[trigger] rest[i]) by {
            assert(white_space(s@[i + from]));
        }
        lemma_trim_end_takes(rest, n);
        assert(rest.take(n) =~= s@.subrange(from as int, to as int));
    }
    s.substring_char(from, to)
}

// ---------------------------------------------------------------------------
// Searching
// ---------------------------------------------------------------------------

/// Whether `part` stands in `whole` at position `at`.
pub open spec fn occurs_at(whole: Seq<char>, part: Seq<char>, at: int) -> bool {
    0 <= at && at + part.len() <= whole.len() && whole.subrange(at, at + part.len()) == part
}

/// Whether `part` is a substring of `whole`.
pub open spec fn contains_text(whole: Seq<char>, part: Seq<char>) -> bool {
    exists|at: int| occurs_at(whole, part, at)
}

/// Whether `part` is a substring of `whole`.
pub fn contains(whole: &str, part: &str) -> (found: bool)
    ensures
        found == contains_text(whole@, part@),
{
    let text = chars_of(whole);
    let pattern = chars_of(part);
    if pattern.len() > text.len() {
        return false;
    }
    let last: usize = text.len() - pattern.len();
    let mut at: usize = 0;
    loop
        invariant
            text@ == whole@,
            pattern@ == part@,
            last == text.len() - pattern.len(),
            at <= last,
            forall|i: int| 0 <= i < at ==> !occurs_at(whole@, part@, i),
        decreases last - at,
    {
        let mut matched: usize = 0;
        while matched < pattern.len() && text[at + matched] == pattern[matched]
            invariant
                text@ == whole@,
                pattern@ == part@,
                last == text.len() - pattern.len(),
                at <= last,
                matched <= pattern.len(),
                forall|i: int| 0 <= i < matched ==> whole@[at + i] == part@[i],
            ensures
                matched < pattern.len() ==> whole@[at + matched] != part@[matched as int],
            decreases pattern.len() - matched,
        {
            matched += 1;
        }
        let ghost window = whole@.subrange(at as int, at + part@.len());
        if matched == pattern.len() {
            assert(window =~= part@);
            assert(occurs_at(whole@, part@, at as int));
            return true;
        }
        assert(window[matched as int] == whole@[at + matched]);
        assert(!occurs_at(whole@, part@, at as int));
        if at == last {
            return false;
        }
        at += 1;
    }
}

/// `s` up to its first `stop`, or all of it.
pub open spec fn before(s: Seq<char>, stop: char) -> Seq<char>
    decreases s.len(),
{
    if s.len() == 0 || s.first() == stop {
        Seq::empty()
    } else {
        seq![s.first()] + before(s.drop_first(), stop)
    }
}

pub(crate) proof fn lemma_before_takes(s: Seq<char>, stop: char, n: int)
    requires
        0 <= n <= s.len(),
        forall|i: int| 0 <= i < n ==> #[trigger] s[i] != stop,
        n < s.len() ==> s[n] == stop,
    ensures
        before(s, stop) == s.take(n),
    decreases n,
{
    if n == 0 {
        assert(s.take(0) =~= Seq::<char>::empty());
    } else {
        assert(s[0] != stop);
        let rest = s.drop_first();
        assert forall|i: int| 0 <= i < n - 1 implies #[trigger] rest[i] != stop by {
            assert(s[i + 1] != stop);
        }
        lemma_before_takes(rest, stop, n - 1);
        assert(seq![s.first()] + rest.take(n - 1) =~= s.take(n));
    }
}

/// The part of `s` before the first `stop`; all of `s` where there is none.
pub fn text_before(s: &str, stop: char) -> (head: &str)
    ensures
        head@ == before(s@, stop),
{
    let chars = chars_of(s);
    let mut n: usize = 0;
    while n < chars.len() && chars[n] != stop
        invariant
            chars@ == s@,
            n <= chars.len(),
            forall|i: int| 0 <= i < n ==> #[trigger] s@[i] != stop,
        ensures
            n < chars.len() ==> s@[n as int] == stop,
        decreases chars.len() - n,
    {
        n += 1;
    }
    proof {
        lemma_before_takes(s@, stop, n as int);
        assert(s@.take(n as int) =~= s@.subrange(0, n as int));
    }
    s.substring_char(0, n)
}

/// `s` without `suffix` where it ends in it, and `s` where it does not.
pub open spec fn without_suffix(s: Seq<char>, suffix: Seq<char>) -> Seq<char> {
    if suffix.is_suffix_of(s) {
        s.take(s.len() - suffix.len())
    } else {
        s
    }
}

/// Cuts `suffix` off the end of `s`, once, where it stands there.
pub fn strip_suffix<'a>(s: &'a str, suffix: &str) -> (head: &'a str)
    ensures
        head@ == without_suffix(s@, suffix@),
{
    let chars = chars_of(s);
    let tail = chars_of(suffix);
    if tail.len() > chars.len() {
        return s;
    }
    let start: usize = chars.len() - tail.len();
    let mut i: usize = 0;
    while i < tail.len()
        invariant
            chars@ == s@,
            tail@ == suffix@,
            start == chars.len() - tail.len(),
            i <= tail.len(),
            forall|j: int| 0 <= j < i ==> s@[start + j] == suffix@[j],
        decreases tail.len() - i,
    {
        if chars[start + i] != tail[i] {
            assert(s@.subrange(start as int, s@.len() as int)[i as int] != suffix@[i as int]);
            return s;
        }
        i += 1;
    }
    assert(s@.subrange(start as int, s@.len() as int) =~= suffix@);
    assert(s@.take(start as int) =~= s@.subrange(0, start as int));
    s.substring_char(0, start)
}

// ---------------------------------------------------------------------------
// ASCII case
// ---------------------------------------------------------------------------

/// `c` with `A` to `Z` mapped to `a` to `z` and every other character kept.
pub open spec fn ascii_lower(c: char) -> char {
    if 'A' <= c <= 'Z' {
        (c as u32 + 32) as char
    } else {
        c
    }
}

/// Whether two strings are equal up to the case of ASCII letters.
pub open spec fn same_ignoring_ascii_case(a: Seq<char>, b: Seq<char>) -> bool {
    &&& a.len() == b.len()
    &&& forall|i: int| 0 <= i < a.len() ==> ascii_lower(#[trigger] a[i]) == ascii_lower(b[i])
}

fn same_letter(a: char, b: char) -> (same: bool)
    ensures
        same == (ascii_lower(a) == ascii_lower(b)),
{
    let left: u32 = if 'A' <= a && a <= 'Z' {
        a as u32 + 32
    } else {
        a as u32
    };
    let right: u32 = if 'A' <= b && b <= 'Z' {
        b as u32 + 32
    } else {
        b as u32
    };
    left == right
}

/// Whether `a` and `b` are equal up to the case of ASCII letters.
pub fn eq_ignore_ascii_case(a: &str, b: &str) -> (same: bool)
    ensures
        same == same_ignoring_ascii_case(a@, b@),
{
    let left = chars_of(a);
    let right = chars_of(b);
    if left.len() != right.len() {
        return false;
    }
    let mut i: usize = 0;
    while i < left.len()
        invariant
            left@ == a@,
            right@ == b@,
            left.len() == right.len(),
            i <= left.len(),
            forall|j: int| 0 <= j < i ==> ascii_lower(#[trigger] a@[j]) == ascii_lower(b@[j]),
        decreases left.len() - i,
    {
        if !same_letter(left[i], right[i]) {
            assert(ascii_lower(a@[i as int]) != ascii_lower(b@[i as int]));
            return false;
        }
        i += 1;
    }
    true
}

// ---------------------------------------------------------------------------
// Lines
// ---------------------------------------------------------------------------

/// How many newline bytes `bytes` holds.
pub open spec fn newlines(bytes: Seq<u8>) -> nat {
    bytes.filter(|b: u8| b == 10u8).len()
}

/// `offset` where it lies in `text`, the end of `text` where it does not.
pub open spec fn clamped(text: Seq<char>, offset: int) -> int {
    if offset < encode_utf8(text).len() {
        offset
    } else {
        encode_utf8(text).len() as int
    }
}

/// The number, from 1, of the line of `text` on which byte `offset` lies.
pub open spec fn line_number(text: Seq<char>, offset: int) -> nat {
    newlines(encode_utf8(text).take(clamped(text, offset))) + 1
}

/// 1-based line number containing the byte at `offset`. Counts newline bytes,
/// which is safe wherever the characters begin and end. An offset past the end
/// of the text lies on its last line.
pub fn line_for_offset(text: &str, offset: usize) -> (line: u32)
    requires
        line_number(text@, offset as int) <= u32::MAX,
    ensures
        line == line_number(text@, offset as int),
{
    let bytes = text.as_bytes();
    let end: usize = if offset < bytes.len() { offset } else { bytes.len() };
    let ghost is_newline = |b: u8| b == 10u8;
    let mut line: u32 = 1;
    let mut i: usize = 0;
    while i < end
        invariant
            bytes@ == encode_utf8(text@),
            is_newline == (|b: u8| b == 10u8),
            end == clamped(text@, offset as int),
            end <= bytes.len(),
            i <= end,
            line == bytes@.take(i as int).filter(is_newline).len() + 1,
            line_number(text@, offset as int) <= u32::MAX,
        decreases end - i,
    {
        proof {
            let so_far = bytes@.take(i as int);
            assert(bytes@.take(i + 1) =~= so_far.push(bytes@[i as int]));
            so_far.lemma_filter_push(bytes@[i as int], is_newline);
            let whole = bytes@.take(end as int);
            assert(whole =~= bytes@.take(i + 1) + bytes@.subrange(i + 1, end as int));
            Seq::filter_distributes_over_add(
                bytes@.take(i + 1),
                bytes@.subrange(i + 1, end as int),
                is_newline,
            );
        }
        if bytes[i] == 10u8 {
            line += 1;
        }
        i += 1;
    }
    line
}

// ---------------------------------------------------------------------------
// Laws
// ---------------------------------------------------------------------------

proof fn lemma_trim_start_bare(s: Seq<char>)
    ensures
        trim_start(s).len() > 0 ==> !white_space(trim_start(s).first()),
    decreases s.len(),
{
    if s.len() > 0 && white_space(s.first()) {
        lemma_trim_start_bare(s.drop_first());
    }
}

proof fn lemma_trim_end_bare(s: Seq<char>)
    ensures
        trim_end(s).len() > 0 ==> !white_space(trim_end(s).last()) && trim_end(s).first()
            == s.first(),
    decreases s.len(),
{
    if s.len() > 0 && white_space(s.last()) {
        lemma_trim_end_bare(s.drop_last());
    }
}

/// A trimmed text neither begins nor ends with white space, so trimming it
/// again changes nothing.
pub proof fn trim_twice(s: Seq<char>)
    ensures
        trimmed(s).len() > 0 ==> !white_space(trimmed(s).first()) && !white_space(
            trimmed(s).last(),
        ),
        trimmed(trimmed(s)) == trimmed(s),
{
    lemma_trim_start_bare(s);
    lemma_trim_end_bare(trim_start(s));
}

/// Every text contains the empty text and itself.
pub proof fn contains_empty_and_self(s: Seq<char>)
    ensures
        contains_text(s, Seq::empty()),
        contains_text(s, s),
{
    assert(s.subrange(0, 0) =~= Seq::<char>::empty());
    assert(occurs_at(s, Seq::empty(), 0));
    assert(s.subrange(0, s.len() as int) =~= s);
    assert(occurs_at(s, s, 0));
}

/// A text that contains another contains what that one contains.
pub proof fn contains_transitive(a: Seq<char>, b: Seq<char>, c: Seq<char>)
    requires
        contains_text(a, b),
        contains_text(b, c),
    ensures
        contains_text(a, c),
{
    let i = choose|i: int| occurs_at(a, b, i);
    let j = choose|j: int| occurs_at(b, c, j);
    assert(a.subrange(i + j, i + j + c.len()) =~= a.subrange(i, i + b.len()).subrange(
        j,
        j + c.len(),
    ));
    assert(occurs_at(a, c, i + j));
}

/// Lines are numbered from 1, and never downwards; what lies past the end of
/// the text is on its last line.
pub proof fn lines_ascend(text: Seq<char>, a: int, b: int)
    requires
        0 <= a <= b,
    ensures
        line_number(text, 0) == 1,
        1 <= line_number(text, a) <= line_number(text, b),
        encode_utf8(text).len() <= a ==> line_number(text, a) == line_number(text, b),
{
    let bytes = encode_utf8(text);
    let is_newline = |c: u8| c == 10u8;
    let x = clamped(text, a);
    let y = clamped(text, b);
    assert(bytes.take(clamped(text, 0)) =~= Seq::<u8>::empty());
    assert(bytes.take(y) =~= bytes.take(x) + bytes.subrange(x, y));
    Seq::filter_distributes_over_add(bytes.take(x), bytes.subrange(x, y), is_newline);
}

/// Lines are counted by newlines alone: the first byte is on line 1, the byte
/// behind a newline is on the next line, and the byte behind any other byte is
/// on the same line.
pub proof fn newline_begins_a_line(text: Seq<char>, k: int)
    requires
        0 <= k < encode_utf8(text).len(),
    ensures
        line_number(text, 0) == 1,
        encode_utf8(text)[k] == 10 ==> line_number(text, k + 1) == line_number(text, k) + 1,
        encode_utf8(text)[k] != 10 ==> line_number(text, k + 1) == line_number(text, k),
{
    let bytes = encode_utf8(text);
    let is_newline = |c: u8| c == 10u8;
    lines_ascend(text, 0, 0);
    assert(clamped(text, k + 1) == k + 1);
    assert(bytes.take(k + 1) =~= bytes.take(k).push(bytes[k]));
    bytes.take(k).lemma_filter_push(bytes[k], is_newline);
}

/// White space around a text is taken off, and nothing else: what stands
/// between white space, and neither begins nor ends with any, is left.
pub proof fn trim_leaves_the_middle(lead: Seq<char>, s: Seq<char>, trail: Seq<char>)
    requires
        forall|i: int| 0 <= i < lead.len() ==> white_space(#[trigger] lead[i]),
        forall|i: int| 0 <= i < trail.len() ==> white_space(#[trigger] trail[i]),
        s.len() > 0 ==> !white_space(s[0]) && !white_space(s[s.len() - 1]),
    ensures
        trimmed(lead + s + trail) == s,
{
    let whole = lead + s + trail;
    if s.len() == 0 {
        assert forall|i: int| 0 <= i < whole.len() implies white_space(#[trigger] whole[i]) by {
            if i < lead.len() {
                assert(whole[i] == lead[i]);
            } else {
                assert(whole[i] == trail[i - lead.len()]);
            }
        }
        lemma_trim_start_skips(whole, whole.len() as int);
        assert(whole.skip(whole.len() as int) =~= s);
        assert(trim_end(s) =~= s);
    } else {
        let n = lead.len() as int;
        assert forall|i: int| 0 <= i < n implies white_space(#[trigger] whole[i]) by {
            assert(whole[i] == lead[i]);
        }
        assert(whole[n] == s[0]);
        lemma_trim_start_skips(whole, n);
        let rest = whole.skip(n);
        assert(rest =~= s + trail);
        let m = s.len() as int;
        assert forall|i: int| m <= i < rest.len() implies white_space(#[trigger] rest[i]) by {
            assert(rest[i] == trail[i - m]);
        }
        assert(rest[m - 1] == s[m - 1]);
        lemma_trim_end_takes(rest, m);
        assert(rest.take(m) =~= s);
    }
}

/// A text is found in every text in which it stands, at whatever place, and in
/// no other.
pub proof fn substring_is_found(whole: Seq<char>, part: Seq<char>)
    ensures
        forall|a: Seq<char>, b: Seq<char>|
            contains_text(#[trigger] (a + part + b), part),
        contains_text(whole, part) <==> exists|a: Seq<char>, b: Seq<char>|
            whole == #[trigger] (a + part + b),
{
    assert forall|a: Seq<char>, b: Seq<char>| contains_text(#[trigger] (a + part + b), part) by {
        let at = a.len() as int;
        assert((a + part + b).subrange(at, at + part.len()) =~= part);
        assert(occurs_at(a + part + b, part, at));
    }
    if contains_text(whole, part) {
        let at = choose|at: int| occurs_at(whole, part, at);
        let a = whole.subrange(0, at);
        let b = whole.subrange(at + part.len(), whole.len() as int);
        assert(whole.subrange(at, at + part.len()) == part);
        assert(whole =~= a + part + b);
    }
}

/// A text is cut right before the first stop: what holds no stop stays whole,
/// and so does what stands before a stop.
pub proof fn cut_at_the_first_stop(head: Seq<char>, stop: char, tail: Seq<char>)
    requires
        !head.contains(stop),
    ensures
        before(head, stop) == head,
        before(head + seq![stop] + tail, stop) == head,
{
    assert forall|i: int| 0 <= i < head.len() implies #[trigger] head[i] != stop by {
        assert(head.contains(head[i]));
    }
    lemma_before_takes(head, stop, head.len() as int);
    assert(head.take(head.len() as int) =~= head);
    let whole = head + seq![stop] + tail;
    assert forall|i: int| 0 <= i < head.len() implies #[trigger] whole[i] != stop by {
        assert(whole[i] == head[i]);
    }
    assert(whole[head.len() as int] == stop);
    lemma_before_takes(whole, stop, head.len() as int);
    assert(whole.take(head.len() as int) =~= head);
}

/// A suffix is cut off, once, where a text ends in it; a text that does not
/// stays as it is.
pub proof fn suffix_is_cut_off(s: Seq<char>, suffix: Seq<char>)
    ensures
        without_suffix(s + suffix, suffix) == s,
        (forall|a: Seq<char>| #[trigger] (a + suffix) != s) ==> without_suffix(s, suffix) == s,
{
    let whole = s + suffix;
    assert(whole.subrange(s.len() as int, whole.len() as int) =~= suffix);
    assert(whole.take(s.len() as int) =~= s);
    if suffix.is_suffix_of(s) {
        let a = s.take(s.len() - suffix.len());
        assert(a + suffix =~= s);
    }
}

/// Two texts are the same without regard to case if and only if they have the
/// same length and agree in every place, up to a capital and its small letter.
pub proof fn ascii_case_is_ignored(a: Seq<char>, b: Seq<char>)
    ensures
        same_ignoring_ascii_case(a, b) <==> a.len() == b.len() && forall|i: int|
            #![trigger a[i]]
            0 <= i < a.len() ==> a[i] == b[i] || (65 <= a[i] as u32 <= 90 && b[i] as u32 == a[i] as u32
                + 32) || (65 <= b[i] as u32 <= 90 && a[i] as u32 == b[i] as u32 + 32),
{
    assert forall|c: char, d: char| (#[trigger] ascii_lower(c) == #[trigger] ascii_lower(d)) == (c
        == d || (65 <= c as u32 <= 90 && d as u32 == c as u32 + 32) || (65 <= d as u32 <= 90
        && c as u32 == d as u32 + 32)) by {
        assert((ascii_lower(c) as u32 == ascii_lower(d) as u32) ==> ascii_lower(c) == ascii_lower(
            d,
        ));
    }
    if a.len() == b.len() {
        assert forall|i: int|
            #![trigger a[i]]
            0 <= i < a.len() && same_ignoring_ascii_case(a, b) implies a[i] == b[i] || (65
            <= a[i] as u32 <= 90 && b[i] as u32 == a[i] as u32 + 32) || (65 <= b[i] as u32 <= 90
            && a[i] as u32 == b[i] as u32 + 32) by {
            assert(ascii_lower(a[i]) == ascii_lower(b[i]));
        }
    }
}

/// A list of strings stands for their texts, one for one.
pub proof fn texts_are_one_for_one(strings: Seq<String>, pairs: Seq<(String, String)>)
    ensures
        texts(strings).len() == strings.len(),
        forall|i: int| 0 <= i < strings.len() ==> #[trigger] texts(strings)[i] == strings[i]@,
        text_pairs(pairs).len() == pairs.len(),
        forall|i: int|
            0 <= i < pairs.len() ==> (#[trigger] text_pairs(pairs)[i]).0 == pairs[i].0@
                && text_pairs(pairs)[i].1 == pairs[i].1@,
{
}

} // verus!
