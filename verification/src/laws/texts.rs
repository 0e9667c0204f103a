//! How numbers, types and program points read.

use crate::mir::{Local, Location};
use crate::mir_util;
use crate::text;
use vstd::prelude::*;

verus! {

/// The number that a row of digits stands for.
pub open spec fn number_of(digits: Seq<char>) -> int
    decreases digits.len(),
{
    if digits.len() == 0 {
        0
    } else {
        number_of(digits.drop_last()) * 10 + (digits.last() as int - '0' as int)
    }
}

/// A number is written in decimal digits that stand for it, without a zero in
/// front.
pub proof fn law_decimal_notation(n: nat)
    ensures
        number_of(text::decimal(n)) == n,
        text::decimal(n).len() > 0,
        forall|i: int|
            0 <= i < text::decimal(n).len() ==> '0' <= #[trigger] text::decimal(n)[i] <= '9',
        n > 0 ==> text::decimal(n)[0] != '0',
    decreases n,
{
    if n < 10 {
        let digits = text::decimal(n);
        assert(digits.drop_last() =~= Seq::empty());
        assert(number_of(digits.drop_last()) == 0);
        assert(digits.last() == text::digit(n));
    } else {
        law_decimal_notation(n / 10);
        let digits = text::decimal(n);
        assert(digits.drop_last() =~= text::decimal(n / 10));
        assert(digits.last() == text::digit(n % 10));
        assert(n == (n / 10) * 10 + n % 10);
        assert(digits[0] == text::decimal(n / 10)[0]);
    }
}

/// A local is shown as an underscore and its number, a point as its block and its
/// position in brackets.
pub proof fn law_locals_and_points(local: Local, at: Location)
    ensures
        mir_util::local_text(local) == "_"@ + text::decimal(local as nat),
        mir_util::location_text(at) == "bb"@ + text::decimal(at.block as nat) + "["@
            + text::decimal(at.statement_index as nat) + "]"@,
{
}

/// A character opens neither a lifetime nor an erased region.
pub open spec fn is_plain(c: char) -> bool {
    c != '\'' && c != '{'
}

/// Every character of a text is plain.
pub open spec fn all_plain(text: Seq<char>) -> bool {
    forall|i: int| 0 <= i < text.len() ==> is_plain(#[trigger] text[i])
}

proof fn lemma_word_end(word: Seq<bool>, i: int)
    ensures
        i <= text::word_end(word, i),
        i <= word.len() ==> text::word_end(word, i) <= word.len(),
    decreases word.len() - i,
{
    if 0 <= i < word.len() && word[i] {
        lemma_word_end(word, i + 1);
    }
}

proof fn lemma_brace_end(text: Seq<char>, i: int)
    ensures
        i <= text::brace_end(text, i),
        i <= text.len() ==> text::brace_end(text, i) <= text.len(),
    decreases text.len() - i,
{
    if 0 <= i < text.len() && text[i] != '}' {
        lemma_brace_end(text, i + 1);
    }
}

proof fn lemma_marked_plain(text: Seq<char>, word: Seq<bool>, i: int)
    requires
        word.len() == text.len(),
        0 <= i,
    ensures
        forall|k: int|
            0 <= k < text::regions_marked(text, word, i).len() ==> (
            #[trigger] text::regions_marked(text, word, i)[k] matches Some(c) ==> is_plain(c)),
    decreases text.len() - i,
{
    if i < text.len() {
        lemma_word_end(word, i + 1);
        lemma_brace_end(text, i + 1);
        let all = text::regions_marked(text, word, i);
        let (first, rest) = if text[i] == '\'' {
            (None, text::regions_marked(text, word, text::word_end(word, i + 1)))
        } else if text[i] == '{' {
            (None, text::regions_marked(text, word, text::brace_end(text, i + 1)))
        } else {
            (Some(text[i]), text::regions_marked(text, word, i + 1))
        };
        if text[i] == '\'' {
            lemma_marked_plain(text, word, text::word_end(word, i + 1));
        } else if text[i] == '{' {
            lemma_marked_plain(text, word, text::brace_end(text, i + 1));
        } else {
            lemma_marked_plain(text, word, i + 1);
        }
        assert(all == seq![first] + rest);
        assert forall|k: int| 0 <= k < all.len() implies (#[trigger] all[k] matches Some(c)
            ==> is_plain(c)) by {
            if k > 0 {
                assert(all[k] == rest[k - 1]);
            }
        }
    }
}

proof fn lemma_dropped_plain(marked: Seq<Option<char>>, count: nat)
    requires
        count <= marked.len(),
        forall|k: int|
            0 <= k < marked.len() ==> (#[trigger] marked[k] matches Some(c) ==> is_plain(c)),
    ensures
        all_plain(mir_util::regions_dropped(marked, count)),
    decreases count,
{
    if count > 0 {
        lemma_dropped_plain(marked, (count - 1) as nat);
        assert(marked[count - 1] matches Some(c) ==> is_plain(c));
    }
}

proof fn lemma_replaced_plain(text: Seq<char>, pattern: Seq<char>, with: Seq<char>, i: int)
    requires
        all_plain(text),
        all_plain(with),
        0 <= i,
    ensures
        all_plain(text::replaced(text, pattern, with, i)),
    decreases text.len() - i,
{
    if i < text.len() {
        let all = text::replaced(text, pattern, with, i);
        if pattern.len() > 0 && text::occurs_at(text, pattern, i) {
            let rest = text::replaced(text, pattern, with, i + pattern.len());
            lemma_replaced_plain(text, pattern, with, i + pattern.len());
            assert forall|k: int| 0 <= k < all.len() implies is_plain(#[trigger] all[k]) by {
                if k < with.len() {
                    assert(all[k] == with[k]);
                } else {
                    assert(all[k] == rest[k - with.len()]);
                }
            }
        } else {
            let rest = text::replaced(text, pattern, with, i + 1);
            lemma_replaced_plain(text, pattern, with, i + 1);
            assert forall|k: int| 0 <= k < all.len() implies is_plain(#[trigger] all[k]) by {
                if k > 0 {
                    assert(all[k] == rest[k - 1]);
                }
            }
        }
    }
}

proof fn lemma_squeezed_plain(text: Seq<char>, space: Seq<bool>)
    requires
        all_plain(text),
    ensures
        all_plain(text::squeezed(text, space)),
    decreases text.len(),
{
    if text.len() > 0 && space.len() == text.len() {
        let rest = text.drop_last();
        assert forall|k: int| 0 <= k < rest.len() implies is_plain(#[trigger] rest[k]) by {
            assert(text[k] == rest[k]);
        }
        lemma_squeezed_plain(rest, space.drop_last());
        assert(is_plain(text[text.len() - 1]));
    }
}

/// Neither a lifetime nor an erased region shows in a normalized type: no
/// apostrophe and no opening brace is left.
pub proof fn law_no_region_shows(text: Seq<char>)
    ensures
        !mir_util::normalized(text).contains('\''),
        !mir_util::normalized(text).contains('{'),
{
    let word = mir_util::word_flags(text);
    let marked = text::regions_marked(text, word, 0);
    lemma_marked_plain(text, word, 0);
    let dropped = mir_util::without_regions(text);
    lemma_dropped_plain(marked, marked.len());
    reveal_strlit(",");
    reveal_strlit("<");
    reveal_strlit(">");
    assert(","@[0] == ',' && "<"@[0] == '<' && ">"@[0] == '>');
    let merged = text::replaced(dropped, ", ,"@, ","@, 0);
    lemma_replaced_plain(dropped, ", ,"@, ","@, 0);
    let opened = text::replaced(merged, "<,"@, "<"@, 0);
    lemma_replaced_plain(merged, "<,"@, "<"@, 0);
    let closed = text::replaced(opened, ", >"@, ">"@, 0);
    lemma_replaced_plain(opened, ", >"@, ">"@, 0);
    lemma_replaced_plain(closed, ",>"@, ">"@, 0);
    let cleaned = mir_util::commas_cleaned(dropped);
    lemma_squeezed_plain(cleaned, mir_util::space_flags(cleaned));
}

/// A region in braces leaves as little behind as a lifetime in its place.
pub proof fn law_braced_region_is_like_a_lifetime(
    before: Seq<char>,
    inner: Seq<char>,
    name: Seq<char>,
    after: Seq<char>,
)
    requires
        !before.contains('{'),
        !inner.contains('}'),
        forall|i: int|
            0 <= i < name.len() ==> text::char_is_alphanumeric(#[trigger] name[i]) || name[i] == '_',
        after.len() > 0 ==> !text::char_is_alphanumeric(after[0]) && after[0] != '_',
    ensures
        mir_util::normalized(before + (seq!['{'] + inner + seq!['}'] + after))
            == mir_util::normalized(before + (seq!['\''] + name + after)),
{
    let word = |c: char| text::char_is_alphanumeric(c) || c == '_';
    let braced = seq!['{'] + inner + seq!['}'] + after;
    let lifetime = seq!['\''] + name + after;
    assert(braced[0] == '{');
    assert(lifetime[0] == '\'');
    text::lemma_marked_parts(before, braced, word, 0);
    text::lemma_marked_parts(before, lifetime, word, 0);
    text::lemma_marked_lifetime(name, after, word);
    let front = seq!['{'] + inner + seq!['}'];
    assert(braced =~= front + after);
    lemma_brace_found(inner, after, 0);
    text::lemma_marked_rest(front, after, word, 0);
    let flags = braced.map_values(word);
    assert(text::regions_marked(braced, flags, 0) == seq![None] + text::regions_marked(
        braced,
        flags,
        text::brace_end(braced, 1),
    ));
    assert(text::regions_marked(braced, flags, 0) == text::regions_marked(
        lifetime,
        lifetime.map_values(word),
        0,
    ));
    let left = before + braced;
    let right = before + lifetime;
    assert(mir_util::word_flags(left) =~= left.map_values(word));
    assert(mir_util::word_flags(right) =~= right.map_values(word));
}

proof fn lemma_brace_found(inner: Seq<char>, after: Seq<char>, i: int)
    requires
        !inner.contains('}'),
        0 <= i <= inner.len(),
    ensures
        text::brace_end(seq!['{'] + inner + seq!['}'] + after, i + 1) == inner.len() + 2,
    decreases inner.len() - i,
{
    let braced = seq!['{'] + inner + seq!['}'] + after;
    if i < inner.len() {
        assert(braced[i + 1] == inner[i]);
        assert(inner.contains(inner[i]));
        lemma_brace_found(inner, after, i + 1);
    } else {
        assert(braced[i + 1] == '}');
    }
}

/// A text has single spaces for its only white space, and none at either end.
pub open spec fn is_tidy(text: Seq<char>) -> bool {
    &&& forall|i: int|
        0 <= i < text.len() && text::char_is_whitespace(#[trigger] text[i]) ==> text[i] == ' ' && 0
            < i < text.len() - 1 && !text::char_is_whitespace(text[i - 1])
}

/// Single spaces between words stay as they are.
pub proof fn law_single_spaces_stay(text: Seq<char>)
    requires
        is_tidy(text),
    ensures
        text::squeezed(text, mir_util::space_flags(text)) == text,
{
    lemma_squeezed_prefix(text, text.len());
    assert(text.take(text.len() as int) =~= text);
    assert(mir_util::space_flags(text).take(text.len() as int) =~= mir_util::space_flags(text));
    if text.len() > 0 {
        if text::char_is_whitespace(text[text.len() - 1]) {
        }
    }
}

proof fn lemma_squeezed_prefix(text: Seq<char>, n: nat)
    requires
        is_tidy(text),
        n <= text.len(),
    ensures
        text::squeezed(text.take(n as int), mir_util::space_flags(text).take(n as int)) == (if n > 0
            && text::char_is_whitespace(text[n - 1]) {
            text.take(n - 1)
        } else {
            text.take(n as int)
        }),
    decreases n,
{
    let flags = mir_util::space_flags(text);
    if n > 0 {
        lemma_squeezed_prefix(text, (n - 1) as nat);
        assert(text.take(n as int).drop_last() =~= text.take(n - 1));
        assert(flags.take(n as int).drop_last() =~= flags.take(n - 1));
        assert(flags.take(n as int).last() == text::char_is_whitespace(text[n - 1]));
        assert(text.take(n as int).last() == text[n - 1]);
        let before = text::squeezed(text.take(n - 1), flags.take(n - 1));
        if text::char_is_whitespace(text[n - 1]) {
            assert(!text::char_is_whitespace(text[n - 1 - 1]));
        } else {
            if n > 1 {
                assert(flags.take(n as int)[n - 2] == text::char_is_whitespace(text[n - 2]));
                if text::char_is_whitespace(text[n - 2]) {
                    assert(text[n - 2] == ' ' && 0 < n - 2);
                    assert(before.push(' ').push(text[n - 1]) =~= text.take(n as int));
                } else {
                    assert(before.push(text[n - 1]) =~= text.take(n as int));
                }
            } else {
                assert(before =~= Seq::empty());
                assert(before.push(text[n - 1]) =~= text.take(n as int));
            }
        }
    } else {
        assert(text.take(0) =~= Seq::empty());
    }
}

/// A text is shortened to its first characters, and left alone where it has no more
/// than that.
pub proof fn law_shortened_text(text: Seq<char>, count: nat, i: int)
    ensures
        text.len() <= count ==> text::shortened(text, count) == text,
        text.len() > count ==> text::shortened(text, count).len() == count,
        0 <= i < count && i < text.len() ==> text::shortened(text, count)[i] == text[i],
{
}

} // verus!
