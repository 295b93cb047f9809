//! Taking apart the two input texts: the file of species trees and the list
//! of transfer counts.
//!
//! Both texts hold ASCII characters only.

use crate::newick::texts_of;
use crate::parse::{all_digits, char_at, digits_value, read_digits, text_len, ParseError};
use vstd::prelude::*;
use vstd::string::*;

verus! {

/// The character is a blank: a space, a tab, a line feed, a vertical tab, a
/// form feed or a carriage return.
pub open spec fn is_blank(c: char) -> bool {
    c == ' ' || c == '\t' || c == '\n' || c == '\u{b}' || c == '\u{c}' || c == '\r'
}

/// The text without its blanks.
pub open spec fn without_blanks(s: Seq<char>) -> Seq<char>
    decreases s.len(),
{
    if s.len() == 0 {
        Seq::empty()
    } else if is_blank(s.last()) {
        without_blanks(s.drop_last())
    } else {
        without_blanks(s.drop_last()).push(s.last())
    }
}

/// The position of the first `mark` at or after `from`, or the length of the
/// text where there is none.
pub open spec fn next_mark(s: Seq<char>, mark: char, from: int) -> int
    decreases s.len() - from,
{
    if 0 <= from < s.len() && s[from] != mark {
        next_mark(s, mark, from + 1)
    } else {
        from
    }
}

/// The trees of a text without blanks, from `from` on: the text is cut at
/// every semicolon, pieces that are empty are dropped, and each piece that
/// is left gets its semicolon back.
pub open spec fn trees_from(s: Seq<char>, from: int) -> Seq<Seq<char>>
    decreases s.len() - from,
{
    if !(0 <= from <= s.len()) {
        Seq::empty()
    } else {
        let end = next_mark(s, ';', from);
        let head = if end > from {
            seq![s.subrange(from, end).push(';')]
        } else {
            Seq::empty()
        };
        if from <= end < s.len() {
            head + trees_from(s, end + 1)
        } else {
            head
        }
    }
}

/// The trees of a text: blanks do not count, and every piece between two
/// semicolons that is not empty is a tree.
pub open spec fn trees_in(content: Seq<char>) -> Seq<Seq<char>> {
    trees_from(without_blanks(content), 0)
}

fn blank(c: char) -> (b: bool)
    ensures
        b == is_blank(c),
{
    c == ' ' || c == '\t' || c == '\n' || c == '\u{b}' || c == '\u{c}' || c == '\r'
}

/// The position of the first `mark` at or after `from`.
fn find_mark(text: &str, len: usize, mark: char, from: usize) -> (end: usize)
    requires
        text.is_ascii(),
        len == text@.len(),
        from <= len,
    ensures
        end == next_mark(text@, mark, from as int),
        from <= end <= len,
{
    let mut i: usize = from;
    loop
        invariant
            text.is_ascii(),
            len == text@.len(),
            from <= i <= len,
            next_mark(text@, mark, from as int) == next_mark(text@, mark, i as int),
        ensures
            i == next_mark(text@, mark, from as int),
        decreases len - i,
    {
        if i >= len {
            break ;
        }
        if char_at(text, i) == mark {
            break ;
        }
        i += 1;
    }
    i
}

/// The text without its blanks.
fn strip_blanks(text: &str) -> (clean: String)
    requires
        text.is_ascii(),
    ensures
        clean@ == without_blanks(text@),
        clean.is_ascii(),
{
    let len: usize = text_len(text);
    let mut clean = String::new();
    let mut i: usize = 0;
    while i < len
        invariant
            text.is_ascii(),
            len == text@.len(),
            i <= len,
            clean@ == without_blanks(text@.take(i as int)),
            clean.is_ascii(),
        decreases len - i,
    {
        let c: char = char_at(text, i);
        proof {
            assert(text@.take(i + 1).drop_last() =~= text@.take(i as int));
            assert(text@.take(i + 1).last() == c);
        }
        if !blank(c) {
            let ghost before = clean@;
            let piece = text.substring_ascii(i, i + 1);
            assert(piece@ =~= seq![c]);
            clean.append(piece);
            assert(clean@ =~= before.push(c));
            assert forall|k: int| 0 <= k < clean@.len() implies '\0' <= #[trigger] clean@[k]
                <= '\u{7f}' by {
                if k < before.len() {
                    assert(clean@[k] == before[k]);
                } else {
                    assert(clean@[k] == text@[i as int]);
                }
            }
        }
        i += 1;
    }
    assert(text@.take(len as int) =~= text@);
    clean
}

/// Cuts a text into the trees it holds, each closed by its semicolon.
///
/// Blanks do not count, wherever they stand, and empty pieces between
/// semicolons are passed over. What stands after the last semicolon is a
/// tree too.
pub fn split_trees(content: &str) -> (trees: Result<Vec<String>, ParseError>)
    ensures
        match trees {
            Ok(trees) => is_ascii(content) && texts_of(trees@) == trees_in(content@),
            Err(e) => e == ParseError::NotAscii && !is_ascii(content),
        },
{
    if !content.is_ascii() {
        return Err(ParseError::NotAscii);
    }
    let clean: String = strip_blanks(content);
    let text: &str = clean.as_str();
    let len: usize = text_len(text);
    let mut trees: Vec<String> = Vec::new();
    let mut from: usize = 0;
    proof {
        reveal_strlit(";");
        assert(texts_of(trees@) =~= Seq::<Seq<char>>::empty());
    }
    loop
        invariant_except_break
            texts_of(trees@) + trees_from(text@, from as int) == trees_from(text@, 0),
        invariant
            text.is_ascii(),
            len == text@.len(),
            from <= len,
            ";"@ == seq![';'],
        ensures
            texts_of(trees@) == trees_from(text@, 0),
        decreases len - from,
    {
        let end: usize = find_mark(text, len, ';', from);
        let ghost before = trees@;
        let ghost head = if end > from {
            seq![text@.subrange(from as int, end as int).push(';')]
        } else {
            Seq::<Seq<char>>::empty()
        };
        if end > from {
            let mut tree: String = text.substring_ascii(from, end).to_owned();
            tree.append(";");
            assert(tree@ =~= text@.subrange(from as int, end as int).push(';'));
            trees.push(tree);
        }
        assert(texts_of(trees@) =~= texts_of(before) + head);
        if end >= len {
            assert(trees_from(text@, from as int) == head);
            assert(texts_of(trees@) =~= texts_of(before) + trees_from(text@, from as int));
            break ;
        }
        assert(trees_from(text@, from as int) == head + trees_from(text@, end + 1));
        assert(texts_of(trees@) + trees_from(text@, end + 1) =~= texts_of(before) + trees_from(
            text@,
            from as int,
        ));
        from = end + 1;
    }
    Ok(trees)
}

/// The position of the first character at or after `from` that is no
/// blank, or the length of the text where only blanks follow.
pub open spec fn skip_blanks(s: Seq<char>, from: int) -> int
    decreases s.len() - from,
{
    if 0 <= from < s.len() && is_blank(s[from]) {
        skip_blanks(s, from + 1)
    } else {
        from
    }
}

/// The position behind the last character before `to` that is no blank, but
/// not less than `low`.
pub open spec fn drop_blanks(s: Seq<char>, low: int, to: int) -> int
    decreases to - low,
{
    if low < to <= s.len() && is_blank(s[to - 1]) {
        drop_blanks(s, low, to - 1)
    } else {
        to
    }
}

/// The text without the blanks at its beginning and at its end.
pub open spec fn trimmed(s: Seq<char>) -> Seq<char> {
    let first = skip_blanks(s, 0);
    s.subrange(first, drop_blanks(s, first, s.len() as int))
}

/// The count that a field stands for: digits, with or without a plus sign
/// in front, whose value fits; `None` for anything else.
pub open spec fn count_of(field: Seq<char>) -> Option<usize> {
    let digits = if field.len() > 0 && field[0] == '+' {
        field.skip(1)
    } else {
        field
    };
    if digits.len() > 0 && all_digits(digits) && digits_value(digits) <= usize::MAX {
        Some(digits_value(digits) as usize)
    } else {
        None
    }
}

/// The counts of a text from `from` on: the text is cut at every comma, and
/// every field that stands for a count gives one.
pub open spec fn counts_from(s: Seq<char>, from: int) -> Seq<usize>
    decreases s.len() - from,
{
    if !(0 <= from <= s.len()) {
        Seq::empty()
    } else {
        let end = next_mark(s, ',', from);
        let head = match count_of(s.subrange(from, end)) {
            Some(n) => seq![n],
            None => Seq::empty(),
        };
        if from <= end < s.len() {
            head + counts_from(s, end + 1)
        } else {
            head
        }
    }
}

/// The counts of a text: blanks at its beginning and end do not count, and
/// of the fields between commas those that are not counts are passed over.
pub open spec fn counts_in(content: Seq<char>) -> Seq<usize> {
    counts_from(trimmed(content), 0)
}

/// The count that the field between `from` and `to` stands for.
fn read_count(text: &str, from: usize, to: usize) -> (count: Option<usize>)
    requires
        text.is_ascii(),
        from <= to <= text@.len(),
    ensures
        count == count_of(text@.subrange(from as int, to as int)),
{
    let ghost field = text@.subrange(from as int, to as int);
    let mut start: usize = from;
    if from < to {
        if char_at(text, from) == '+' {
            start = from + 1;
        }
    }
    let ghost digits = text@.subrange(start as int, to as int);
    assert(digits =~= if field.len() > 0 && field[0] == '+' {
        field.skip(1)
    } else {
        field
    });
    let (value, overflow, stop) = read_digits(text, start, to, usize::MAX as u64);
    if stop < to {
        assert(digits[stop - start] == text@[stop as int]);
        return None;
    }
    if start == to {
        return None;
    }
    if overflow {
        return None;
    }
    Some(value as usize)
}

/// Reads the transfer counts of a text: numbers separated by commas.
///
/// Blanks at the beginning and at the end of the text do not count. A field
/// that is no number, an empty one too, is passed over.
pub fn read_counts(content: &str) -> (counts: Result<Vec<usize>, ParseError>)
    ensures
        match counts {
            Ok(counts) => is_ascii(content) && counts@ == counts_in(content@),
            Err(e) => e == ParseError::NotAscii && !is_ascii(content),
        },
{
    if !content.is_ascii() {
        return Err(ParseError::NotAscii);
    }
    let whole: usize = text_len(content);
    let mut first: usize = 0;
    loop
        invariant
            content.is_ascii(),
            whole == content@.len(),
            first <= whole,
            skip_blanks(content@, 0) == skip_blanks(content@, first as int),
        ensures
            first == skip_blanks(content@, 0),
        decreases whole - first,
    {
        if first >= whole {
            break ;
        }
        if !blank(char_at(content, first)) {
            break ;
        }
        first += 1;
    }
    let mut last: usize = whole;
    loop
        invariant
            content.is_ascii(),
            whole == content@.len(),
            first <= last <= whole,
            drop_blanks(content@, first as int, whole as int) == drop_blanks(
                content@,
                first as int,
                last as int,
            ),
        ensures
            last == drop_blanks(content@, first as int, whole as int),
        decreases last - first,
    {
        if last <= first {
            break ;
        }
        if !blank(char_at(content, last - 1)) {
            break ;
        }
        last -= 1;
    }
    let text: &str = content.substring_ascii(first, last);
    assert(text@ == trimmed(content@));
    let len: usize = text_len(text);
    let mut counts: Vec<usize> = Vec::new();
    let mut from: usize = 0;
    loop
        invariant_except_break
            counts@ + counts_from(text@, from as int) == counts_from(text@, 0),
        invariant
            text.is_ascii(),
            len == text@.len(),
            from <= len,
        ensures
            counts@ == counts_from(text@, 0),
        decreases len - from,
    {
        let end: usize = find_mark(text, len, ',', from);
        let ghost before = counts@;
        let ghost head = match count_of(text@.subrange(from as int, end as int)) {
            Some(n) => seq![n],
            None => Seq::<usize>::empty(),
        };
        if let Some(n) = read_count(text, from, end) {
            counts.push(n);
        }
        assert(counts@ =~= before + head);
        if end >= len {
            assert(counts_from(text@, from as int) == head);
            assert(counts@ =~= before + counts_from(text@, from as int));
            break ;
        }
        assert(counts_from(text@, from as int) == head + counts_from(text@, end + 1));
        assert(counts@ + counts_from(text@, end + 1) =~= before + counts_from(
            text@,
            from as int,
        ));
        from = end + 1;
    }
    Ok(counts)
}

} // verus!
