//! Text as sequences of characters.

use vstd::prelude::*;
use vstd::string::*;

verus! {

/// `String::push` of the standard library appends one character to the text.
pub assume_specification[ String::push ](s: &mut String, c: char)
    ensures
        final(s)@ == old(s)@.push(c),
;

/// What `char::is_alphanumeric` of the standard library answers for a character
/// beyond ASCII.
pub uninterp spec fn unicode_alphanumeric(c: char) -> bool;

/// The ASCII letters and digits, and what counts as such beyond ASCII.
pub open spec fn char_is_alphanumeric(c: char) -> bool {
    if c as u32 <= 0x7f {
        '0' <= c <= '9' || 'A' <= c <= 'Z' || 'a' <= c <= 'z'
    } else {
        unicode_alphanumeric(c)
    }
}

/// `char::is_alphanumeric` of the standard library answers by the Unicode
/// properties of the character alone. In ASCII those hold of the letters and
/// digits; which characters they hold of beyond it is left to a name.
pub assume_specification[ char::is_alphanumeric ](c: char) -> (answer: bool)
    ensures
        c as u32 <= 0x7f ==> answer == ('0' <= c <= '9' || 'A' <= c <= 'Z' || 'a' <= c <= 'z'),
        c as u32 > 0x7f ==> answer == unicode_alphanumeric(c),
;

/// The characters with the Unicode property `White_Space`.
pub open spec fn char_is_whitespace(c: char) -> bool {
    let code = c as u32;
    0x9 <= code <= 0xd || code == 0x20 || code == 0x85 || code == 0xa0 || code == 0x1680 || 0x2000
        <= code <= 0x200a || code == 0x2028 || code == 0x2029 || code == 0x202f || code == 0x205f
        || code == 0x3000
}

/// `char::is_whitespace` of the standard library answers whether the character
/// has the Unicode property `White_Space`.
pub assume_specification[ char::is_whitespace ](c: char) -> (answer: bool)
    ensures
        answer == char_is_whitespace(c),
;

/// What the `Debug` form of a string is: the text in quotes, escaped.
pub uninterp spec fn debug_quoted(text: Seq<char>) -> Seq<char>;

/// `format!("{:?}", ..)` of the standard library on a string: the result is
/// determined by the text alone.
#[verifier::external_body]
pub(crate) fn quote(text: &str) -> (quoted: String)
    ensures
        quoted@ == debug_quoted(text@),
{
    format!("{:?}", text)
}

/// `pattern` stands in `text` at position `i`.
pub open spec fn occurs_at(text: Seq<char>, pattern: Seq<char>, i: int) -> bool {
    0 <= i && i + pattern.len() <= text.len() && text.subrange(i, i + pattern.len()) == pattern
}

/// `text` begins with `pattern`.
pub open spec fn begins_with(text: Seq<char>, pattern: Seq<char>) -> bool {
    occurs_at(text, pattern, 0)
}

/// `text` ends in `pattern`.
pub open spec fn finishes_with(text: Seq<char>, pattern: Seq<char>) -> bool {
    occurs_at(text, pattern, text.len() - pattern.len())
}

/// `pattern` stands somewhere in `text`.
pub open spec fn holds_text(text: Seq<char>, pattern: Seq<char>) -> bool {
    exists|i: int| occurs_at(text, pattern, i)
}

pub fn chars_of(text: &str) -> (chars: Vec<char>)
    ensures
        chars@ == text@,
{
    let mut chars: Vec<char> = Vec::new();
    for c in it: text.chars()
        invariant
            chars@ == text@.take(it.index()),
            it.seq() == text@,
    {
        chars.push(c);
    }
    chars
}

pub fn string_of(chars: &Vec<char>) -> (text: String)
    ensures
        text@ == chars@,
{
    let mut text = String::new();
    for i in 0..chars.len()
        invariant
            text@ == chars@.take(i as int),
    {
        text.push(chars[i]);
        assert(chars@.take(i + 1) =~= chars@.take(i as int).push(chars@[i as int]));
    }
    assert(chars@.take(chars@.len() as int) =~= chars@);
    text
}

/// Whether `pattern` stands in `text` at position `i`.
pub fn matches_at(text: &Vec<char>, pattern: &Vec<char>, i: usize) -> (found: bool)
    requires
        i <= text@.len(),
    ensures
        found == occurs_at(text@, pattern@, i as int),
{
    let length: usize = text.len();
    if pattern.len() > length - i {
        return false;
    }
    for k in 0..pattern.len()
        invariant
            length == text@.len(),
            i + pattern@.len() <= length,
            forall|j: int| 0 <= j < k ==> text@[i + j] == pattern@[j],
    {
        if text[i + k] != pattern[k] {
            assert(text@.subrange(i as int, i + pattern@.len())[k as int] == text@[i + k]);
            return false;
        }
    }
    assert(text@.subrange(i as int, i + pattern@.len()) =~= pattern@);
    true
}

pub fn str_eq(left: &str, right: &str) -> (same: bool)
    ensures
        same == (left@ == right@),
{
    let left = chars_of(left);
    let right = chars_of(right);
    if left.len() != right.len() {
        return false;
    }
    let same = matches_at(&left, &right, 0);
    assert(left@.subrange(0, left@.len() as int) =~= left@);
    same
}

pub fn starts_with(text: &str, pattern: &str) -> (found: bool)
    ensures
        found == begins_with(text@, pattern@),
{
    matches_at(&chars_of(text), &chars_of(pattern), 0)
}

pub fn ends_with(text: &str, pattern: &str) -> (found: bool)
    ensures
        found == finishes_with(text@, pattern@),
{
    let text = chars_of(text);
    let pattern = chars_of(pattern);
    if pattern.len() > text.len() {
        return false;
    }
    matches_at(&text, &pattern, text.len() - pattern.len())
}

#[verifier::loop_isolation(false)]
pub fn contains_text(text: &str, pattern: &str) -> (found: bool)
    ensures
        found == holds_text(text@, pattern@),
{
    let text = chars_of(text);
    let pattern = chars_of(pattern);
    let mut i: usize = 0;
    while i < text.len()
        invariant
            i <= text@.len(),
            forall|j: int| j < i ==> !#[trigger] occurs_at(text@, pattern@, j),
        decreases text@.len() - i,
    {
        if matches_at(&text, &pattern, i) {
            return true;
        }
        i = i + 1;
    }
    let at_end = matches_at(&text, &pattern, i);
    assert forall|j: int| j != i implies !#[trigger] occurs_at(text@, pattern@, j) by {}
    at_end
}

/// The character of a digit.
pub open spec fn digit(d: nat) -> char {
    if d == 0 {
        '0'
    } else if d == 1 {
        '1'
    } else if d == 2 {
        '2'
    } else if d == 3 {
        '3'
    } else if d == 4 {
        '4'
    } else if d == 5 {
        '5'
    } else if d == 6 {
        '6'
    } else if d == 7 {
        '7'
    } else if d == 8 {
        '8'
    } else {
        '9'
    }
}

/// The decimal notation of a number.
pub open spec fn decimal(n: nat) -> Seq<char>
    decreases n,
{
    if n < 10 {
        seq![digit(n)]
    } else {
        decimal(n / 10).push(digit(n % 10))
    }
}

fn digit_char(d: u128) -> (c: char)
    requires
        d < 10,
    ensures
        c == digit(d as nat),
{
    match d {
        0 => '0',
        1 => '1',
        2 => '2',
        3 => '3',
        4 => '4',
        5 => '5',
        6 => '6',
        7 => '7',
        8 => '8',
        _ => '9',
    }
}

/// Appends the decimal notation of `n`.
pub fn push_count(out: &mut String, n: u128)
    ensures
        final(out)@ == old(out)@ + decimal(n as nat),
    decreases n,
{
    if n < 10 {
        out.push(digit_char(n));
        assert(out@ =~= old(out)@ + decimal(n as nat));
    } else {
        push_count(out, n / 10);
        out.push(digit_char(n % 10));
        assert(out@ =~= old(out)@ + decimal(n as nat));
    }
}

/// Appends the decimal notation of `n`.
pub fn push_decimal(out: &mut String, n: usize)
    ensures
        final(out)@ == old(out)@ + decimal(n as nat),
{
    push_count(out, n as u128);
}

/// Appends `text`.
pub fn push_text(out: &mut String, text: &str)
    ensures
        final(out)@ == old(out)@ + text@,
{
    out.append(text);
}

/// Returns an owned copy of `text`.
pub fn text_of(text: &str) -> (out: String)
    ensures
        out@ == text@,
{
    text.to_owned()
}

/// The first `count` characters of a text.
pub open spec fn shortened(text: Seq<char>, count: nat) -> Seq<char> {
    if text.len() > count {
        text.take(count as int)
    } else {
        text
    }
}

/// Returns the first `count` characters of `text`.
pub fn shorten(text: &str, count: usize) -> (out: String)
    ensures
        out@ == shortened(text@, count as nat),
{
    let chars = chars_of(text);
    let end: usize = if chars.len() > count {
        count
    } else {
        chars.len()
    };
    let mut out = String::new();
    for i in 0..end
        invariant
            end <= chars@.len(),
            out@ == chars@.take(i as int),
    {
        out.push(chars[i]);
        assert(chars@.take(i + 1) =~= chars@.take(i as int).push(chars@[i as int]));
    }
    assert(chars@.take(chars@.len() as int) =~= chars@);
    out
}

/// The texts of a list.
pub open spec fn texts(list: Seq<String>) -> Seq<Seq<char>> {
    list.map_values(|text: String| text@)
}

// ---- rewriting -----------------------------------------------------------

/// The first position from `i` on that does not belong to a word.
pub open spec fn word_end(word: Seq<bool>, i: int) -> int
    decreases word.len() - i,
{
    if 0 <= i < word.len() && word[i] {
        word_end(word, i + 1)
    } else {
        i
    }
}

/// The position behind the first closing brace from `i` on, or the end.
pub open spec fn brace_end(text: Seq<char>, i: int) -> int
    decreases text.len() - i,
{
    if !(0 <= i < text.len()) {
        i
    } else if text[i] == '}' {
        i + 1
    } else {
        brace_end(text, i + 1)
    }
}

proof fn lemma_word_end(word: Seq<bool>, i: int)
    requires
        0 <= i <= word.len(),
    ensures
        i <= word_end(word, i) <= word.len(),
    decreases word.len() - i,
{
    if i < word.len() && word[i] {
        lemma_word_end(word, i + 1);
    }
}

proof fn lemma_brace_end(text: Seq<char>, i: int)
    requires
        0 <= i <= text.len(),
    ensures
        i <= brace_end(text, i) <= text.len(),
    decreases text.len() - i,
{
    if i < text.len() && text[i] != '}' {
        lemma_brace_end(text, i + 1);
    }
}

/// `text` from position `i` on with a mark, `None`, in place of each region: of an
/// apostrophe together with the word behind it, and of an opening brace together
/// with everything up to the closing one. `word` tells which characters belong to
/// a word.
pub open spec fn regions_marked(text: Seq<char>, word: Seq<bool>, i: int) -> Seq<Option<char>>
    decreases text.len() - i,
    when word.len() == text.len() && 0 <= i
    via regions_marked_decreases
{
    if i >= text.len() {
        Seq::empty()
    } else if text[i] == '\'' {
        seq![None] + regions_marked(text, word, word_end(word, i + 1))
    } else if text[i] == '{' {
        seq![None] + regions_marked(text, word, brace_end(text, i + 1))
    } else {
        seq![Some(text[i])] + regions_marked(text, word, i + 1)
    }
}

#[via_fn]
proof fn regions_marked_decreases(text: Seq<char>, word: Seq<bool>, i: int) {
    if i < text.len() {
        lemma_word_end(word, i + 1);
        lemma_brace_end(text, i + 1);
    }
}

/// Puts a mark in place of each region of a formatted type. `word[i]` tells
/// whether `text[i]` belongs to a word.
#[verifier::loop_isolation(false)]
pub fn mark_regions(text: &Vec<char>, word: &Vec<bool>) -> (out: Vec<Option<char>>)
    requires
        word@.len() == text@.len(),
    ensures
        out@ == regions_marked(text@, word@, 0),
{
    let n: usize = text.len();
    let mut out: Vec<Option<char>> = Vec::new();
    let mut i: usize = 0;
    while i < n
        invariant
            i <= n,
            regions_marked(text@, word@, 0) == out@ + regions_marked(text@, word@, i as int),
        decreases n - i,
    {
        let c: char = text[i];
        let ghost start = i as int;
        let ghost before = out@;
        let ghost rest = regions_marked(text@, word@, start);
        i = i + 1;
        if c == '\'' {
            while i < n && word[i]
                invariant
                    start < i <= n,
                    word_end(word@, start + 1) == word_end(word@, i as int),
                decreases n - i,
            {
                i = i + 1;
            }
            out.push(None);
        } else if c == '{' {
            let mut closed = false;
            while i < n && !closed
                invariant
                    start < i <= n,
                    brace_end(text@, start + 1) == (if closed {
                        i as int
                    } else {
                        brace_end(text@, i as int)
                    }),
                decreases n - i,
            {
                closed = text[i] == '}';
                i = i + 1;
            }
            out.push(None);
        } else {
            out.push(Some(c));
        }
        assert(out@ + regions_marked(text@, word@, i as int) =~= before + rest);
    }
    assert(out@ + Seq::<Option<char>>::empty() =~= out@);
    out
}

/// Two texts that differ only in a name behind an apostrophe at position `p`: it
/// has `a` characters in the one and `b` in the other, all of a word and none of
/// them a closing brace.
spec fn renamed(
    left: Seq<char>,
    left_word: Seq<bool>,
    right: Seq<char>,
    right_word: Seq<bool>,
    p: int,
    a: int,
    b: int,
) -> bool {
    &&& 0 <= p && 0 <= a && 0 <= b
    &&& left_word.len() == left.len() && right_word.len() == right.len()
    &&& left.len() - a == right.len() - b > p
    &&& left[p] == '\''
    &&& forall|k: int| 0 <= k <= p ==> #[trigger] left[k] == right[k]
    &&& forall|k: int| 0 <= k <= p ==> #[trigger] left_word[k] == right_word[k]
    &&& forall|k: int| p < k <= p + a ==> #[trigger] left[k] != '}'
    &&& forall|k: int| p < k <= p + a ==> #[trigger] left_word[k]
    &&& forall|k: int| p < k <= p + b ==> #[trigger] right[k] != '}'
    &&& forall|k: int| p < k <= p + b ==> #[trigger] right_word[k]
    &&& forall|k: int| p + a < k < left.len() ==> #[trigger] left[k] == right[k - a + b]
    &&& forall|k: int|
        p + a < k < left.len() ==> #[trigger] left_word[k] == right_word[k - a + b]
}

/// Position `j` of the one text stands for position `k` of the other.
spec fn aligned(p: int, a: int, b: int, j: int, k: int) -> bool {
    (j == k && j <= p) || (j > p + a && k - b == j - a)
}

/// A word of only word characters is passed over.
proof fn lemma_word_run(word: Seq<bool>, i: int, end: int)
    requires
        0 <= i <= end <= word.len(),
        forall|k: int| i <= k < end ==> #[trigger] word[k],
    ensures
        word_end(word, i) == word_end(word, end),
    decreases end - i,
{
    if i < end {
        lemma_word_run(word, i + 1, end);
    }
}

proof fn lemma_brace_run(text: Seq<char>, i: int, end: int)
    requires
        0 <= i <= end <= text.len(),
        forall|k: int| i <= k < end ==> #[trigger] text[k] != '}',
    ensures
        brace_end(text, i) == brace_end(text, end),
    decreases end - i,
{
    if i < end {
        lemma_brace_run(text, i + 1, end);
    }
}

/// A skipped region ends at the same place of both texts.
proof fn lemma_ends_aligned(
    left: Seq<char>,
    left_word: Seq<bool>,
    right: Seq<char>,
    right_word: Seq<bool>,
    p: int,
    a: int,
    b: int,
    j: int,
    k: int,
)
    requires
        renamed(left, left_word, right, right_word, p, a, b),
        0 <= j <= left.len(),
        aligned(p, a, b, j, k),
    ensures
        aligned(p, a, b, word_end(left_word, j), word_end(right_word, k)),
        aligned(p, a, b, brace_end(left, j), brace_end(right, k)),
    decreases left.len() - j,
{
    if j < left.len() {
        if j == p {
            lemma_ends_aligned(
                left,
                left_word,
                right,
                right_word,
                p,
                a,
                b,
                p + 1 + a,
                p + 1 + b,
            );
            lemma_word_run(left_word, p + 1, p + 1 + a);
            lemma_word_run(right_word, p + 1, p + 1 + b);
            lemma_brace_run(left, p + 1, p + 1 + a);
            lemma_brace_run(right, p + 1, p + 1 + b);
        } else {
            lemma_ends_aligned(left, left_word, right, right_word, p, a, b, j + 1, k + 1);
        }
    }
}

proof fn lemma_renamed_regions(
    left: Seq<char>,
    left_word: Seq<bool>,
    right: Seq<char>,
    right_word: Seq<bool>,
    p: int,
    a: int,
    b: int,
    j: int,
    k: int,
)
    requires
        renamed(left, left_word, right, right_word, p, a, b),
        0 <= j <= left.len(),
        aligned(p, a, b, j, k),
    ensures
        regions_marked(left, left_word, j) == regions_marked(right, right_word, k),
    decreases left.len() - j,
{
    if j < left.len() {
        if j == p {
            let (l, r) = (p + 1 + a, p + 1 + b);
            lemma_word_run(left_word, p + 1, l);
            lemma_word_run(right_word, p + 1, r);
            lemma_ends_aligned(left, left_word, right, right_word, p, a, b, l, r);
            lemma_word_end(left_word, l);
            lemma_renamed_regions(
                left,
                left_word,
                right,
                right_word,
                p,
                a,
                b,
                word_end(left_word, l),
                word_end(right_word, r),
            );
        } else {
            assert(left[j] == right[k]);
            lemma_ends_aligned(left, left_word, right, right_word, p, a, b, j + 1, k + 1);
            lemma_word_end(left_word, j + 1);
            lemma_brace_end(left, j + 1);
            let (l, r) = if left[j] == '\'' {
                (word_end(left_word, j + 1), word_end(right_word, k + 1))
            } else if left[j] == '{' {
                (brace_end(left, j + 1), brace_end(right, k + 1))
            } else {
                (j + 1, k + 1)
            };
            lemma_renamed_regions(left, left_word, right, right_word, p, a, b, l, r);
        }
    }
}

/// What a text is with its regions marked does not depend on the name behind an
/// apostrophe.
pub proof fn lemma_region_name_goes(
    before: Seq<char>,
    a: Seq<char>,
    b: Seq<char>,
    after: Seq<char>,
    word: spec_fn(char) -> bool,
)
    requires
        forall|i: int| 0 <= i < a.len() ==> word(#[trigger] a[i]) && a[i] != '}',
        forall|i: int| 0 <= i < b.len() ==> word(#[trigger] b[i]) && b[i] != '}',
    ensures
        ({
            let left = before + seq!['\''] + a + after;
            let right = before + seq!['\''] + b + after;
            regions_marked(left, left.map_values(word), 0) == regions_marked(
                right,
                right.map_values(word),
                0,
            )
        }),
{
    let left = before + seq!['\''] + a + after;
    let right = before + seq!['\''] + b + after;
    let p = before.len() as int;
    assert forall|k: int| p < k <= p + a.len() implies #[trigger] left[k] == a[k - p - 1] by {}
    assert forall|k: int| p < k <= p + b.len() implies #[trigger] right[k] == b[k - p - 1] by {}
    lemma_renamed_regions(
        left,
        left.map_values(word),
        right,
        right.map_values(word),
        p,
        a.len() as int,
        b.len() as int,
        0,
        0,
    );
}

/// `text` from position `i` on with every occurrence of `pattern` replaced, the
/// occurrences taken from left to right without overlap.
pub open spec fn replaced(text: Seq<char>, pattern: Seq<char>, with: Seq<char>, i: int) -> Seq<char>
    decreases text.len() - i,
{
    if i < 0 || i >= text.len() {
        Seq::empty()
    } else if pattern.len() > 0 && occurs_at(text, pattern, i) {
        with + replaced(text, pattern, with, i + pattern.len())
    } else {
        seq![text[i]] + replaced(text, pattern, with, i + 1)
    }
}

/// Replaces every occurrence of `pattern`, from left to right without overlap.
#[verifier::loop_isolation(false)]
pub fn replace(text: &Vec<char>, pattern: &Vec<char>, with: &Vec<char>) -> (out: Vec<char>)
    requires
        pattern@.len() > 0,
    ensures
        out@ == replaced(text@, pattern@, with@, 0),
{
    let n: usize = text.len();
    let mut out: Vec<char> = Vec::new();
    let mut i: usize = 0;
    while i < n
        invariant
            i <= n,
            replaced(text@, pattern@, with@, 0) == out@ + replaced(
                text@,
                pattern@,
                with@,
                i as int,
            ),
        decreases n - i,
    {
        let ghost before = out@;
        let ghost rest = replaced(text@, pattern@, with@, i as int);
        if matches_at(text, pattern, i) {
            for k in 0..with.len()
                invariant
                    out@ == before + with@.take(k as int),
            {
                out.push(with[k]);
                assert(out@ =~= before + with@.take(k + 1));
            }
            assert(with@.take(with@.len() as int) =~= with@);
            i = i + pattern.len();
        } else {
            out.push(text[i]);
            i = i + 1;
        }
        assert(out@ + replaced(text@, pattern@, with@, i as int) =~= before + rest);
    }
    assert(out@ + Seq::<char>::empty() =~= out@);
    out
}

/// The words of a text, joined by single spaces. `space` tells which characters
/// separate words.
pub open spec fn squeezed(text: Seq<char>, space: Seq<bool>) -> Seq<char>
    decreases text.len(),
{
    if text.len() == 0 || space.len() != text.len() {
        Seq::empty()
    } else {
        let before = squeezed(text.drop_last(), space.drop_last());
        if space.last() {
            before
        } else if before.len() > 0 && space[space.len() - 2] {
            before.push(' ').push(text.last())
        } else {
            before.push(text.last())
        }
    }
}

/// A text whose white space is collapsed already: no separator at either end, no
/// two in a row, and each of them a single space.
spec fn tidy(text: Seq<char>, space: spec_fn(char) -> bool) -> bool {
    &&& text.len() > 0 ==> !space(text[0]) && !space(text.last())
    &&& forall|i: int|
        0 <= i < text.len() && space(#[trigger] text[i]) ==> text[i] == ' ' && i + 1 < text.len()
            && !space(text[i + 1])
}

proof fn lemma_squeezed_is_tidy(text: Seq<char>, space: spec_fn(char) -> bool)
    ensures
        tidy(squeezed(text, text.map_values(space)), space),
    decreases text.len(),
{
    if text.len() > 0 {
        let flags = text.map_values(space);
        assert(flags.drop_last() =~= text.drop_last().map_values(space));
        lemma_squeezed_is_tidy(text.drop_last(), space);
        let before = squeezed(text.drop_last(), flags.drop_last());
        let after = squeezed(text, flags);
        if !flags.last() && before.len() > 0 {
            assert forall|i: int| 0 <= i < after.len() && space(#[trigger] after[i]) implies after[i]
                == ' ' && i + 1 < after.len() && !space(after[i + 1]) by {
                if i < before.len() {
                    assert(space(before[i]));
                }
            }
        }
    }
}

proof fn lemma_tidy_is_squeezed(text: Seq<char>, space: spec_fn(char) -> bool, n: int)
    requires
        tidy(text, space),
        0 <= n <= text.len(),
    ensures
        squeezed(text.take(n), text.take(n).map_values(space)) =~= if n > 0 && space(text[n - 1]) {
            text.take(n - 1)
        } else {
            text.take(n)
        },
    decreases n,
{
    if n > 0 {
        let prefix = text.take(n);
        let flags = prefix.map_values(space);
        assert(prefix.drop_last() =~= text.take(n - 1));
        assert(flags.drop_last() =~= text.take(n - 1).map_values(space));
        lemma_tidy_is_squeezed(text, space, n - 1);
        if n > 1 && space(text[n - 2]) {
            assert(!space(text[n - 2 + 1]));
        }
    }
}

/// Collapsing white space a second time changes nothing.
pub proof fn lemma_squeezed_once(text: Seq<char>, space: spec_fn(char) -> bool)
    ensures
        ({
            let once = squeezed(text, text.map_values(space));
            squeezed(once, once.map_values(space)) == once
        }),
{
    let once = squeezed(text, text.map_values(space));
    lemma_squeezed_is_tidy(text, space);
    lemma_tidy_is_squeezed(once, space, once.len() as int);
    assert(once.take(once.len() as int) =~= once);
}

/// A word, and what a brace opens, end where they end in the rest of the text
/// alone.
proof fn lemma_ends_in_rest(front: Seq<char>, rest: Seq<char>, word: spec_fn(char) -> bool, i: int)
    requires
        0 <= i <= rest.len(),
    ensures
        word_end((front + rest).map_values(word), front.len() + i) == front.len() + word_end(
            rest.map_values(word),
            i,
        ),
        brace_end(front + rest, front.len() + i) == front.len() + brace_end(rest, i),
    decreases rest.len() - i,
{
    if i < rest.len() {
        assert((front + rest)[front.len() + i] == rest[i]);
        lemma_ends_in_rest(front, rest, word, i + 1);
    }
}

/// The regions of a text from behind `front` on are those of the rest alone.
pub proof fn lemma_marked_rest(
    front: Seq<char>,
    rest: Seq<char>,
    word: spec_fn(char) -> bool,
    i: int,
)
    requires
        0 <= i <= rest.len(),
    ensures
        regions_marked(front + rest, (front + rest).map_values(word), front.len() + i)
            == regions_marked(rest, rest.map_values(word), i),
    decreases rest.len() - i,
{
    if i < rest.len() {
        assert((front + rest)[front.len() + i] == rest[i]);
        lemma_ends_in_rest(front, rest, word, i + 1);
        lemma_word_end(rest.map_values(word), i + 1);
        lemma_brace_end(rest, i + 1);
        let next = if rest[i] == '\'' {
            word_end(rest.map_values(word), i + 1)
        } else if rest[i] == '{' {
            brace_end(rest, i + 1)
        } else {
            i + 1
        };
        lemma_marked_rest(front, rest, word, next);
    }
}

proof fn lemma_word_ends_in_front(
    front: Seq<char>,
    rest: Seq<char>,
    word: spec_fn(char) -> bool,
    i: int,
)
    requires
        0 <= i <= front.len(),
        rest.len() > 0 ==> !word(rest[0]),
    ensures
        word_end((front + rest).map_values(word), i) == word_end(front.map_values(word), i),
    decreases front.len() - i,
{
    if i < front.len() {
        lemma_word_ends_in_front(front, rest, word, i + 1);
    } else if rest.len() > 0 {
        assert((front + rest)[i] == rest[0]);
    }
}

/// Where a text is cut in front of a character that belongs to no word, and no
/// brace is opened before, the regions of the two parts are those of the whole.
pub proof fn lemma_marked_parts(
    front: Seq<char>,
    rest: Seq<char>,
    word: spec_fn(char) -> bool,
    i: int,
)
    requires
        0 <= i <= front.len(),
        !front.contains('{'),
        rest.len() > 0 ==> !word(rest[0]),
    ensures
        regions_marked(front + rest, (front + rest).map_values(word), i) =~= regions_marked(
            front,
            front.map_values(word),
            i,
        ) + regions_marked(rest, rest.map_values(word), 0),
    decreases front.len() - i,
{
    if i < front.len() {
        assert((front + rest)[i] == front[i]);
        assert(front.contains(front[i]));
        lemma_word_ends_in_front(front, rest, word, i + 1);
        lemma_word_end(front.map_values(word), i + 1);
        let next = if front[i] == '\'' {
            word_end(front.map_values(word), i + 1)
        } else {
            i + 1
        };
        lemma_marked_parts(front, rest, word, next);
    } else {
        lemma_marked_rest(front, rest, word, 0);
    }
}

/// A region in front of a character that belongs to no word is a single mark.
pub proof fn lemma_marked_lifetime(name: Seq<char>, rest: Seq<char>, word: spec_fn(char) -> bool)
    requires
        forall|i: int| 0 <= i < name.len() ==> word(#[trigger] name[i]),
        rest.len() > 0 ==> !word(rest[0]),
    ensures
        ({
            let text = seq!['\''] + name + rest;
            regions_marked(text, text.map_values(word), 0) =~= seq![None] + regions_marked(
                rest,
                rest.map_values(word),
                0,
            )
        }),
{
    let front = seq!['\''] + name;
    let text = front + rest;
    assert(text =~= seq!['\''] + name + rest);
    let flags = text.map_values(word);
    assert forall|k: int| 1 <= k < front.len() implies #[trigger] flags[k] by {
        assert(text[k] == name[k - 1]);
    }
    lemma_word_run(flags, 1, front.len() as int);
    if rest.len() > 0 {
        assert(text[front.len() as int] == rest[0]);
    }
    lemma_marked_rest(front, rest, word, 0);
}

/// A text without an apostrophe and an opening brace has no regions.
pub proof fn lemma_no_regions(text: Seq<char>, word: Seq<bool>, i: int)
    requires
        word.len() == text.len(),
        0 <= i <= text.len(),
        !text.contains('\''),
        !text.contains('{'),
    ensures
        regions_marked(text, word, i) =~= text.skip(i).map_values(|c: char| Some(c)),
    decreases text.len() - i,
{
    if i < text.len() {
        assert(text.contains(text[i]));
        lemma_no_regions(text, word, i + 1);
        assert(text.skip(i) =~= seq![text[i]] + text.skip(i + 1));
    }
}

/// Where a pattern does not occur, replacing it changes nothing.
pub proof fn lemma_nothing_replaced(text: Seq<char>, pattern: Seq<char>, with: Seq<char>, i: int)
    requires
        0 <= i <= text.len(),
        !holds_text(text, pattern),
    ensures
        replaced(text, pattern, with, i) =~= text.skip(i),
    decreases text.len() - i,
{
    if i < text.len() {
        assert(!occurs_at(text, pattern, i));
        lemma_nothing_replaced(text, pattern, with, i + 1);
    }
}

/// Collapses every run of separators to a single space and drops those at both
/// ends. `space[i]` tells whether `text[i]` separates words.
#[verifier::loop_isolation(false)]
pub fn squeeze(text: &Vec<char>, space: &Vec<bool>) -> (out: Vec<char>)
    requires
        space@.len() == text@.len(),
    ensures
        out@ == squeezed(text@, space@),
{
    let mut out: Vec<char> = Vec::new();
    assert(text@.take(0) =~= Seq::<char>::empty());
    for i in 0..text.len()
        invariant
            out@ == squeezed(text@.take(i as int), space@.take(i as int)),
            i == 0 ==> out@.len() == 0,
    {
        assert(text@.take(i + 1).drop_last() =~= text@.take(i as int));
        assert(space@.take(i + 1).drop_last() =~= space@.take(i as int));
        if !space[i] {
            if out.len() > 0 && space[i - 1] {
                out.push(' ');
            }
            out.push(text[i]);
        }
    }
    assert(text@.take(text@.len() as int) =~= text@);
    assert(space@.take(space@.len() as int) =~= space@);
    out
}

} // verus!
