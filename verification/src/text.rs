//! Text as sequences of characters: splitting, searching, comparing and
//! building strings.

use vstd::prelude::*;
use vstd::string::*;
use vstd::utf8::*;

verus! {

broadcast use vstd::string::group_string_axioms;

/// `String::push` of the standard library: the character is appended at the end.
pub assume_specification[ String::push ](text: &mut String, c: char)
    ensures
        final(text)@ == old(text)@.push(c),
;

/// The lower-case form of a text under the Unicode case mappings.
pub uninterp spec fn lowercase(text: Seq<char>) -> Seq<char>;

/// A text of ASCII characters only.
pub open spec fn is_ascii_text(text: Seq<char>) -> bool {
    forall|i: int| 0 <= i < text.len() ==> (#[trigger] text[i]) as u32 <= 0x7f
}

/// An ASCII character with a capital letter made small.
pub open spec fn ascii_lower(c: char) -> char {
    if 'A' <= c <= 'Z' {
        (c as u32 + 32) as char
    } else {
        c
    }
}

/// `str::to_lowercase` of the standard library. The result is a function of
/// the text; in a text of ASCII characters the letters `A` to `Z` become `a`
/// to `z` and nothing else changes.
#[verifier::external_body]
pub(crate) fn to_lowercase(text: &str) -> (lower: String)
    ensures
        lower@ == lowercase(text@),
        is_ascii_text(text@) ==> lower@ == text@.map_values(|c: char| ascii_lower(c)),
{
    text.to_lowercase()
}

/// The characters of a text, in order.
pub fn chars_of(text: &str) -> (chars: Vec<char>)
    ensures
        chars@ == text@,
{
    let mut chars: Vec<char> = Vec::new();
    for c in it: text.chars()
        invariant
            it.seq() == text@,
            chars@ == text@.take(it.index() as int),
    {
        assert(text@.take(it.index() + 1) =~= text@.take(it.index() as int).push(c));
        chars.push(c);
    }
    assert(text@.take(text@.len() as int) =~= text@);
    chars
}

/// The text made of the characters `chars[from..to]`.
pub fn text_between(chars: &Vec<char>, from: usize, to: usize) -> (text: String)
    requires
        from <= to <= chars.len(),
    ensures
        text@ == chars@.subrange(from as int, to as int),
{
    let mut text = String::new();
    let mut i: usize = from;
    while i < to
        invariant
            from <= i <= to <= chars.len(),
            text@ == chars@.subrange(from as int, i as int),
        decreases to - i,
    {
        text.push(chars[i]);
        i = i + 1;
        assert(chars@.subrange(from as int, i as int) =~= chars@.subrange(from as int, i - 1).push(
            chars@[i - 1],
        ));
    }
    text
}

/// Whether two texts hold the same characters.
pub fn text_eq(a: &str, b: &str) -> (same: bool)
    ensures
        same == (a@ == b@),
{
    let x = a.as_bytes();
    let y = b.as_bytes();
    proof {
        encode_utf8_decode_utf8(a@);
        encode_utf8_decode_utf8(b@);
    }
    if x.len() != y.len() {
        return false;
    }
    let mut i: usize = 0;
    while i < x.len()
        invariant
            i <= x.len(),
            x.len() == y.len(),
            x@ == encode_utf8(a@),
            y@ == encode_utf8(b@),
            x@.take(i as int) == y@.take(i as int),
        decreases x.len() - i,
    {
        if x[i] != y[i] {
            return false;
        }
        i = i + 1;
        assert(x@.take(i as int) =~= x@.take(i - 1).push(x@[i - 1]));
        assert(y@.take(i as int) =~= y@.take(i - 1).push(y@[i - 1]));
    }
    assert(x@.take(i as int) =~= x@);
    assert(y@.take(i as int) =~= y@);
    true
}

/// The views of a list of texts.
pub open spec fn texts(list: Seq<String>) -> Seq<Seq<char>> {
    list.map_values(|text: String| text@)
}

/// The view of a text that may be missing.
pub open spec fn text_option(text: Option<String>) -> Option<Seq<char>> {
    match text {
        Some(text) => Some(text@),
        None => None,
    }
}

/// The character of a decimal digit.
pub open spec fn digit_char(digit: nat) -> char {
    (0x30 + digit) as char
}

/// A number written in decimal, without leading zeros.
pub open spec fn decimal(n: nat) -> Seq<char>
    decreases n,
{
    if n < 10 {
        seq![digit_char(n)]
    } else {
        decimal(n / 10).push(digit_char(n % 10))
    }
}

/// A number written in decimal reads back as that number, has digits only, and
/// does not begin with a zero unless it is zero.
pub proof fn law_decimal_reads_back(n: nat)
    ensures
        decimal(n).len() > 0,
        decimal(n).fold_left(0, |value: int, c: char| 10 * value + (c as int - '0' as int)) == n,
        forall|i: int| 0 <= i < decimal(n).len() ==> '0' <= #[trigger] decimal(n)[i] <= '9',
        n > 0 ==> decimal(n)[0] != '0',
        n == 0 ==> decimal(n).len() == 1,
    decreases n,
{
    let f = |value: int, c: char| 10 * value + (c as int - '0' as int);
    let text = decimal(n);
    reveal_with_fuel(Seq::fold_left, 2);
    if n >= 10 {
        law_decimal_reads_back(n / 10);
        assert(text.drop_last() =~= decimal(n / 10));
    } else {
        assert(text.drop_last() =~= Seq::empty());
    }
}

/// Appends a number in decimal.
pub fn push_decimal(text: &mut String, n: u64)
    ensures
        final(text)@ == old(text)@ + decimal(n as nat),
    decreases n,
{
    if n >= 10 {
        push_decimal(text, n / 10);
    }
    let digit: u8 = (n % 10) as u8;
    text.push((0x30 + digit) as char);
    assert(text@ =~= old(text)@ + decimal(n as nat));
}

/// Whether `needle` occurs in `text` at position `at`.
pub open spec fn occurs_at(text: Seq<char>, needle: Seq<char>, at: int) -> bool {
    &&& 0 <= at
    &&& at + needle.len() <= text.len()
    &&& text.subrange(at, at + needle.len()) == needle
}

/// Whether `needle` occurs somewhere in `text`.
pub open spec fn occurs_in(text: Seq<char>, needle: Seq<char>) -> bool {
    exists|at: int| occurs_at(text, needle, at)
}

/// Whether `needle` occurs in `text` at position `at`, which leaves room for it.
fn matches_at(text: &Vec<char>, needle: &Vec<char>, at: usize) -> (found: bool)
    requires
        at + needle.len() <= text.len(),
    ensures
        found == occurs_at(text@, needle@, at as int),
{
    let mut i: usize = 0;
    while i < needle.len()
        invariant
            i <= needle.len(),
            at + needle.len() <= text.len(),
            forall|k: int| 0 <= k < i ==> text@[at + k] == needle@[k],
        decreases needle.len() - i,
    {
        if text[at + i] != needle[i] {
            assert(text@.subrange(at as int, at + needle@.len())[i as int] != needle@[i as int]);
            return false;
        }
        i = i + 1;
    }
    assert(text@.subrange(at as int, at + needle@.len()) =~= needle@);
    true
}

/// Whether `needle` occurs somewhere in `text`. The empty text occurs in every text.
pub fn contains_text(text: &str, needle: &str) -> (found: bool)
    ensures
        found == occurs_in(text@, needle@),
{
    let haystack = chars_of(text);
    let wanted = chars_of(needle);
    let mut at: usize = 0;
    if wanted.len() > haystack.len() {
        return false;
    }
    let last: usize = haystack.len() - wanted.len();
    while at < last
        invariant
            haystack@ == text@,
            wanted@ == needle@,
            wanted.len() <= haystack.len(),
            last == haystack.len() - wanted.len(),
            at <= last,
            forall|k: int| 0 <= k < at ==> !occurs_at(text@, needle@, k),
        decreases last - at,
    {
        if matches_at(&haystack, &wanted, at) {
            return true;
        }
        at = at + 1;
    }
    matches_at(&haystack, &wanted, last)
}

/// The characters that the first `n` bytes of a text encode.
pub open spec fn byte_prefix(text: Seq<char>, n: int) -> Seq<char> {
    decode_utf8(encode_utf8(text).subrange(0, n))
}

/// The first `n` bytes of a text, which end a character.
pub fn take_bytes(text: &str, n: usize) -> (prefix: String)
    requires
        is_char_boundary(encode_utf8(text@), n as int),
    ensures
        prefix@ == byte_prefix(text@, n as int),
{
    let (head, _) = text.split_at(n);
    proof {
        encode_utf8_decode_utf8(head@);
    }
    head.to_owned()
}

/// A text without the run of `c` it begins with.
pub open spec fn trimmed_start(text: Seq<char>, c: char) -> Seq<char>
    decreases text.len(),
{
    if text.len() > 0 && text[0] == c {
        trimmed_start(text.drop_first(), c)
    } else {
        text
    }
}

/// A text without the run of `c` it begins with.
pub fn trim_start(text: &str, c: char) -> (trimmed: String)
    ensures
        trimmed@ == trimmed_start(text@, c),
{
    let chars = chars_of(text);
    let mut i: usize = 0;
    assert(text@.skip(0) =~= text@);
    while i < chars.len() && chars[i] == c
        invariant
            i <= chars.len(),
            chars@ == text@,
            trimmed_start(text@.skip(i as int), c) == trimmed_start(text@, c),
        decreases chars.len() - i,
    {
        assert(text@.skip(i as int).drop_first() =~= text@.skip(i + 1));
        i = i + 1;
    }
    assert(text@.skip(i as int) =~= text@.subrange(i as int, text@.len() as int));
    text_between(&chars, i, chars.len())
}

/// The position of the first line feed, or the length of the text where there is none.
pub open spec fn line_end(text: Seq<char>) -> nat
    decreases text.len(),
{
    if text.len() == 0 || text[0] == '\n' {
        0
    } else {
        1 + line_end(text.drop_first())
    }
}

/// A line without the carriage return before its line feed.
pub open spec fn without_return(line: Seq<char>) -> Seq<char> {
    if line.len() > 0 && line.last() == '\r' {
        line.drop_last()
    } else {
        line
    }
}

pub proof fn lemma_line_end(text: Seq<char>)
    ensures
        line_end(text) <= text.len(),
        forall|k: int| 0 <= k < line_end(text) ==> text[k] != '\n',
        line_end(text) < text.len() ==> text[line_end(text) as int] == '\n',
    decreases text.len(),
{
    if text.len() > 0 && text[0] != '\n' {
        let rest = text.drop_first();
        lemma_line_end(rest);
        assert forall|k: int| 0 <= k < line_end(text) implies text[k] != '\n' by {
            if k > 0 {
                assert(rest[k - 1] == text[k]);
            }
        }
    }
}

/// The lines of a text. A line ends at a line feed, or at a carriage return
/// and a line feed; the last line may go without.
pub open spec fn lines(text: Seq<char>) -> Seq<Seq<char>>
    decreases text.len(),
    via lines_decreases
{
    let end = line_end(text);
    if text.len() == 0 {
        Seq::empty()
    } else if end < text.len() {
        seq![without_return(text.take(end as int))] + lines(text.skip(end as int + 1))
    } else {
        seq![text]
    }
}

#[via_fn]
proof fn lines_decreases(text: Seq<char>) {
    lemma_line_end(text);
}

/// The lines of a text, without their line endings.
pub fn split_lines(text: &str) -> (list: Vec<String>)
    ensures
        texts(list@) == lines(text@),
{
    let chars = chars_of(text);
    let mut list: Vec<String> = Vec::new();
    let mut start: usize = 0;
    assert(text@.skip(0) =~= text@);
    assert(texts(list@) + lines(text@) =~= lines(text@));
    while start < chars.len()
        invariant
            start <= chars.len(),
            chars@ == text@,
            texts(list@) + lines(text@.skip(start as int)) == lines(text@),
        decreases chars.len() - start,
    {
        let ghost rest = text@.skip(start as int);
        let mut end: usize = start;
        proof {
            assert(text@.skip(end as int) =~= rest);
        }
        while end < chars.len() && chars[end] != '\n'
            invariant
                start <= end <= chars.len(),
                chars@ == text@,
                rest == text@.skip(start as int),
                line_end(rest) == (end - start) + line_end(text@.skip(end as int)),
            decreases chars.len() - end,
        {
            assert(text@.skip(end as int).drop_first() =~= text@.skip(end + 1));
            end = end + 1;
        }
        let ghost before = list@;
        if end < chars.len() {
            let mut stop: usize = end;
            if start < end && chars[end - 1] == '\r' {
                stop = end - 1;
            }
            assert(rest.take(end - start) =~= text@.subrange(start as int, end as int));
            assert(without_return(rest.take(end - start)) =~= text@.subrange(
                start as int,
                stop as int,
            ));
            list.push(text_between(&chars, start, stop));
            start = end + 1;
            assert(rest.skip(line_end(rest) as int + 1) =~= text@.skip(start as int));
        } else {
            assert(rest =~= text@.subrange(start as int, end as int));
            list.push(text_between(&chars, start, end));
            start = end;
            assert(lines(text@.skip(start as int)) =~= Seq::empty());
        }
        assert(texts(list@) =~= texts(before).push(list@.last()@));
        assert(texts(before) + lines(rest) =~= texts(list@) + lines(text@.skip(start as int)));
    }
    assert(lines(text@.skip(start as int)) =~= Seq::empty());
    assert(texts(list@) + lines(text@.skip(start as int)) =~= texts(list@));
    list
}

/// What is appended after a complete line is split on its own.
pub proof fn lemma_lines_append(head: Seq<char>, tail: Seq<char>)
    requires
        head.len() == 0 || head.last() == '\n',
    ensures
        lines(head + tail) == lines(head) + lines(tail),
    decreases head.len(),
{
    let all = head + tail;
    if head.len() == 0 {
        assert(all =~= tail);
        assert(lines(head) + lines(tail) =~= lines(tail));
    } else {
        let end = line_end(head) as int;
        lemma_line_end(head);
        lemma_line_end(all);
        assert(end < head.len());
        assert(all[end] == '\n');
        assert(line_end(all) == end) by {
            if line_end(all) < end {
                assert(all[line_end(all) as int] == head[line_end(all) as int]);
            }
        }
        let rest = head.skip(end + 1);
        lemma_lines_append(rest, tail);
        assert(all.take(end) =~= head.take(end));
        assert(all.skip(end + 1) =~= rest + tail);
        assert(lines(all) =~= lines(head) + lines(tail));
    }
}

/// A text occurs in another exactly where the other is made of something, the
/// text, and something more.
pub proof fn law_occurrence(text: Seq<char>, needle: Seq<char>)
    ensures
        occurs_in(text, needle) <==> exists|head: Seq<char>, rest: Seq<char>|
            text == #[trigger] (head + needle + rest),
{
    if occurs_in(text, needle) {
        let at = choose|at: int| occurs_at(text, needle, at);
        let head = text.take(at);
        let rest = text.skip(at + needle.len());
        assert(text =~= head + needle + rest) by {
            assert(text =~= head + text.subrange(at, at + needle.len()) + rest);
        }
    }
    if exists|head: Seq<char>, rest: Seq<char>| text == #[trigger] (head + needle + rest) {
        let (head, rest) = choose|head: Seq<char>, rest: Seq<char>|
            text == #[trigger] (head + needle + rest);
        let at = head.len() as int;
        assert(text.subrange(at, at + needle.len()) =~= needle);
        assert(occurs_at(text, needle, at));
    }
}

/// Trimming takes away the run of a character that a text begins with, all of
/// it and nothing else.
pub proof fn law_trimmed_start(run: Seq<char>, rest: Seq<char>, c: char)
    requires
        forall|i: int| 0 <= i < run.len() ==> #[trigger] run[i] == c,
        rest.len() > 0 ==> rest[0] != c,
    ensures
        trimmed_start(run + rest, c) == rest,
    decreases run.len(),
{
    if run.len() > 0 {
        assert(run[0] == c);
        assert((run + rest).drop_first() =~= run.drop_first() + rest);
        law_trimmed_start(run.drop_first(), rest, c);
    } else {
        assert(run + rest =~= rest);
    }
}

proof fn lemma_line_end_at(line: Seq<char>, rest: Seq<char>)
    requires
        !line.contains('\n'),
    ensures
        line_end(line.push('\n') + rest) == line.len(),
        line_end(line) == line.len(),
{
    let text = line.push('\n') + rest;
    lemma_line_end(text);
    lemma_line_end(line);
    let end = line_end(text) as int;
    assert(text[line.len() as int] == '\n');
    if end < line.len() {
        assert(line[end] == '\n');
    }
    if line_end(line) < line.len() {
        assert(line[line_end(line) as int] == '\n');
    }
}

/// A text without a line feed is one line, or none where it is empty. A line
/// that ends in a line feed, or in a carriage return and a line feed, is
/// followed by the lines of what follows it.
pub proof fn law_lines(line: Seq<char>, rest: Seq<char>)
    requires
        !line.contains('\n'),
    ensures
        line.len() == 0 ==> lines(line) == Seq::<Seq<char>>::empty(),
        line.len() > 0 ==> lines(line) == seq![line],
        line.len() == 0 || line.last() != '\r' ==> lines(line + seq!['\n'] + rest) == seq![line]
            + lines(rest),
        lines(line + seq!['\r', '\n'] + rest) == seq![line] + lines(rest),
{
    lemma_line_end_at(line, rest);
    let plain = line.push('\n') + rest;
    assert(line + seq!['\n'] + rest =~= plain);
    assert(plain.take(line.len() as int) =~= line);
    assert(plain.skip(line.len() as int + 1) =~= rest);
    let ended = line.push('\r');
    assert(!ended.contains('\n')) by {
        if ended.contains('\n') {
            let i = ended.index_of('\n');
            assert(line[i] == '\n');
        }
    }
    lemma_line_end_at(ended, rest);
    let returned = ended.push('\n') + rest;
    assert(line + seq!['\r', '\n'] + rest =~= returned);
    assert(returned.take(ended.len() as int) =~= ended);
    assert(returned.skip(ended.len() as int + 1) =~= rest);
    assert(ended.drop_last() =~= line);
}

/// The characters that the first bytes of a text encode are the ones it begins
/// with, and take just these bytes.
pub proof fn law_byte_prefix(text: Seq<char>, n: int)
    requires
        is_char_boundary(encode_utf8(text), n),
    ensures
        byte_prefix(text, n).len() <= text.len(),
        byte_prefix(text, n) == text.take(byte_prefix(text, n).len() as int),
        encode_utf8(byte_prefix(text, n)) == encode_utf8(text).subrange(0, n),
{
    let bytes = encode_utf8(text);
    encode_utf8_valid_utf8(text);
    encode_utf8_decode_utf8(text);
    decode_utf8_split(bytes, n);
    valid_utf8_split(bytes, n);
    decode_utf8_encode_utf8(bytes.subrange(0, n));
    let head = byte_prefix(text, n);
    assert(text == head + decode_utf8(bytes.subrange(n, bytes.len() as int)));
    assert(head =~= text.take(head.len() as int));
}

} // verus!
