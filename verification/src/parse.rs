//! Reading trees from text.
//!
//! A tree is written as a subtree followed by a semicolon. A subtree is a
//! label, or two subtrees in round brackets, separated by a comma, followed
//! by a label. A label is a name, which may be empty, and after it, if
//! anything, a colon and a length, which may be empty too. Names and lengths
//! run up to the next bracket, comma, colon or semicolon. The text holds
//! ASCII characters only and no blanks.
//!
//! A length is a decimal number in branch length units: digits with at most
//! one point among them, and a plus or minus sign in front if any. It is
//! read to the nearest tick. A length that is left out is zero. A length
//! that cannot be read counts as zero as well, and is handed back as it
//! stands in the text.

use crate::newick::{decimal, digit_char, newick_text, six_decimals, texts_of, time_text};
use crate::node::Node;
use vstd::prelude::*;
use vstd::string::*;

verus! {

/// The character is a decimal digit.
pub open spec fn is_digit(c: char) -> bool {
    '0' <= c && c <= '9'
}

/// The value of a decimal digit.
pub open spec fn digit_value(c: char) -> int {
    c as u32 as int - 48
}

/// Every character is a decimal digit.
pub open spec fn all_digits(s: Seq<char>) -> bool {
    forall|i: int| 0 <= i < s.len() ==> is_digit(#[trigger] s[i])
}

/// The number that a sequence of digits stands for; zero for no digits.
pub open spec fn digits_value(s: Seq<char>) -> nat
    decreases s.len(),
{
    if s.len() == 0 {
        0
    } else {
        (digits_value(s.drop_last()) * 10 + digit_value(s.last())) as nat
    }
}

/// The position of the first point at or after `from`, or the length where
/// there is none.
pub open spec fn first_dot(s: Seq<char>, from: int) -> int
    decreases s.len() - from,
{
    if 0 <= from < s.len() && s[from] != '.' {
        first_dot(s, from + 1)
    } else {
        from
    }
}

/// Ten to the power of `k`, for `k` up to six.
pub open spec fn scale(k: int) -> int {
    if k <= 0 {
        1
    } else if k == 1 {
        10
    } else if k == 2 {
        100
    } else if k == 3 {
        1_000
    } else if k == 4 {
        10_000
    } else if k == 5 {
        100_000
    } else {
        1_000_000
    }
}

/// The ticks that the digits behind the point stand for: the first six
/// digits count, and the seventh rounds them up where it is five or more.
pub open spec fn millionths(fraction: Seq<char>) -> int {
    let shown = if fraction.len() < 6 {
        fraction.len() as int
    } else {
        6
    };
    digits_value(fraction.take(shown)) * scale(6 - shown) + if fraction.len() > 6 && digit_value(
        fraction[6],
    ) >= 5 {
        1int
    } else {
        0int
    }
}

/// The ticks that an unsigned decimal number stands for, or `None` where the
/// text is no such number: it has to be digits with at most one point among
/// them, and at least one digit.
pub open spec fn magnitude(body: Seq<char>) -> Option<int> {
    let dot = first_dot(body, 0);
    let whole = body.take(dot);
    let fraction = if dot < body.len() {
        body.skip(dot + 1)
    } else {
        Seq::empty()
    };
    if all_digits(whole) && all_digits(fraction) && whole.len() + fraction.len() >= 1 {
        Some(digits_value(whole) * 1_000_000 + millionths(fraction))
    } else {
        None
    }
}

/// The ticks that a decimal number stands for, or `None` where the text is
/// no decimal number or the ticks do not fit in 64 bits.
pub open spec fn decimal_ticks(token: Seq<char>) -> Option<i64> {
    let negative = token.len() > 0 && token[0] == '-';
    let signed = token.len() > 0 && (token[0] == '-' || token[0] == '+');
    let body = if signed {
        token.skip(1)
    } else {
        token
    };
    match magnitude(body) {
        Some(m) => {
            let v = if negative {
                -m
            } else {
                m
            };
            if i64::MIN <= v <= i64::MAX {
                Some(v as i64)
            } else {
                None
            }
        },
        None => None,
    }
}

/// The first point does not come before the place from which it is sought.
proof fn lemma_first_dot(s: Seq<char>, from: int)
    requires
        0 <= from <= s.len(),
    ensures
        from <= first_dot(s, from) <= s.len(),
        first_dot(s, from) < s.len() ==> s[first_dot(s, from)] == '.',
        forall|k: int| from <= k < first_dot(s, from) ==> s[k] != '.',
    decreases s.len() - from,
{
    if from < s.len() && s[from] != '.' {
        lemma_first_dot(s, from + 1);
    }
}

/// The character at position `i` of a text of ASCII characters.
pub(crate) fn char_at(text: &str, i: usize) -> (c: char)
    requires
        text.is_ascii(),
        i < text@.len(),
    ensures
        c == text@[i as int],
{
    let b: u8 = text.get_ascii(i);
    assert('\0' <= text@[i as int] <= '\u{7f}');
    b as char
}

/// The number of characters of a text of ASCII characters.
pub(crate) fn text_len(text: &str) -> (n: usize)
    requires
        text.is_ascii(),
    ensures
        n == text@.len(),
{
    proof {
        is_ascii_spec_bytes(text);
        assert(is_ascii(text));
        assert(text.spec_bytes().len() == text@.len());
    }
    text.as_bytes().len()
}

/// The value of the character where it is a digit.
fn digit_of(c: char) -> (d: Option<u64>)
    ensures
        match d {
            Some(v) => is_digit(c) && v == digit_value(c) && v <= 9,
            None => !is_digit(c),
        },
{
    if c >= '0' && c <= '9' {
        Some((c as u8 - 48) as u64)
    } else {
        None
    }
}

/// Ten to the power of `k`, for `k` up to six.
fn scale_of(k: usize) -> (p: u64)
    requires
        k <= 6,
    ensures
        p == scale(k as int),
{
    if k == 0 {
        1
    } else if k == 1 {
        10
    } else if k == 2 {
        100
    } else if k == 3 {
        1_000
    } else if k == 4 {
        10_000
    } else if k == 5 {
        100_000
    } else {
        1_000_000
    }
}

/// Up to six digits stand for less than ten to the power of their number.
proof fn lemma_digits_value_bound(s: Seq<char>)
    requires
        all_digits(s),
        s.len() <= 6,
    ensures
        digits_value(s) < scale(s.len() as int),
        digits_value(s) * scale(6 - s.len()) < 1_000_000,
    decreases s.len(),
{
    if s.len() > 0 {
        assert(is_digit(s.last()));
        assert(all_digits(s.drop_last())) by {
            assert forall|i: int| 0 <= i < s.drop_last().len() implies is_digit(
                #[trigger] s.drop_last()[i],
            ) by {
                assert(s.drop_last()[i] == s[i]);
            }
        }
        lemma_digits_value_bound(s.drop_last());
    }
}

/// No point stands among digits: the first point of a text that begins with
/// `k` digits is at `k` or later.
proof fn lemma_digits_before_dot(body: Seq<char>, k: int, from: int)
    requires
        0 <= from <= k <= body.len(),
        all_digits(body.take(k)),
    ensures
        first_dot(body, from) == first_dot(body, k),
    decreases k - from,
{
    if from < k {
        assert(body.take(k)[from] == body[from]);
        assert(is_digit(body[from]));
        lemma_digits_before_dot(body, k, from + 1);
    }
}

/// Reads the digits that begin at `from`: their value, or that it is
/// greater than `limit`, and where they end.
pub(crate) fn read_digits(text: &str, from: usize, to: usize, limit: u64) -> (read: (
    u64,
    bool,
    usize,
))
    requires
        text.is_ascii(),
        from <= to <= text@.len(),
    ensures
        from <= read.2 <= to,
        all_digits(text@.subrange(from as int, read.2 as int)),
        read.2 == to || !is_digit(text@[read.2 as int]),
        !read.1 ==> read.0 == digits_value(text@.subrange(from as int, read.2 as int)) && read.0
            <= limit,
        read.1 ==> digits_value(text@.subrange(from as int, read.2 as int)) > limit,
{
    let mut i: usize = from;
    let mut whole: u64 = 0;
    let mut overflow: bool = false;
    loop
        invariant
            text.is_ascii(),
            from <= i <= to <= text@.len(),
            all_digits(text@.subrange(from as int, i as int)),
            !overflow ==> whole == digits_value(text@.subrange(from as int, i as int)) && whole
                <= limit,
            overflow ==> digits_value(text@.subrange(from as int, i as int)) > limit,
        ensures
            i == to || !is_digit(text@[i as int]),
        decreases to - i,
    {
        if i >= to {
            break ;
        }
        let c: char = char_at(text, i);
        let d: u64 = match digit_of(c) {
            Some(d) => d,
            None => {
                break ;
            },
        };
        proof {
            let seen = text@.subrange(from as int, i as int);
            let more = text@.subrange(from as int, i + 1);
            assert(more.drop_last() =~= seen);
            assert(more.last() == c);
            assert forall|m: int| 0 <= m < more.len() implies is_digit(#[trigger] more[m]) by {
                if m < seen.len() {
                    assert(seen[m] == more[m]);
                }
            }
        }
        if !overflow {
            let next: u128 = (whole as u128) * 10 + d as u128;
            if next > limit as u128 {
                overflow = true;
            } else {
                whole = next as u64;
            }
        }
        i += 1;
    }
    (whole, overflow, i)
}

/// Reads the digits behind the point, which run from `from` to `to`: the
/// ticks they stand for, or `None` where they are not all digits.
fn read_fraction(text: &str, from: usize, to: usize) -> (fine: Option<u64>)
    requires
        text.is_ascii(),
        from <= to <= text@.len(),
    ensures
        match fine {
            Some(f) => all_digits(text@.subrange(from as int, to as int)) && f == millionths(
                text@.subrange(from as int, to as int),
            ) && f <= 1_000_000,
            None => !all_digits(text@.subrange(from as int, to as int)),
        },
{
    let ghost fraction = text@.subrange(from as int, to as int);
    let mut i: usize = from;
    let mut frac: u64 = 0;
    let mut shown: usize = 0;
    let mut round_up: bool = false;
    while i < to
        invariant
            text.is_ascii(),
            from <= i <= to <= text@.len(),
            fraction == text@.subrange(from as int, to as int),
            all_digits(fraction.take(i - from)),
            shown <= 6,
            shown == (if i - from < 6 {
                i - from
            } else {
                6
            }),
            frac == digits_value(fraction.take(shown as int)),
            round_up == (i - from > 6 && digit_value(fraction[6]) >= 5),
        decreases to - i,
    {
        let c: char = char_at(text, i);
        let ghost k = i - from;
        assert(fraction[k] == c);
        let d: u64 = match digit_of(c) {
            Some(d) => d,
            None => {
                return None;
            },
        };
        proof {
            assert forall|m: int| 0 <= m < k + 1 implies is_digit(
                #[trigger] fraction.take(k + 1)[m],
            ) by {
                if m < k {
                    assert(fraction.take(k)[m] == fraction.take(k + 1)[m]);
                }
            }
        }
        if i - from < 6 {
            proof {
                assert(fraction.take(k + 1).drop_last() =~= fraction.take(k));
                assert(fraction.take(k + 1).last() == c);
                assert forall|m: int| 0 <= m < k implies is_digit(#[trigger] fraction.take(k)[m]) by {}
                lemma_digits_value_bound(fraction.take(k));
            }
            frac = frac * 10 + d;
            shown += 1;
        } else if i - from == 6 {
            round_up = d >= 5;
        }
        i += 1;
    }
    proof {
        assert(fraction.take(fraction.len() as int) =~= fraction);
        let seen = fraction.take(shown as int);
        assert forall|m: int| 0 <= m < seen.len() implies is_digit(#[trigger] seen[m]) by {
            assert(seen[m] == fraction[m]);
        }
        lemma_digits_value_bound(seen);
    }
    let fine: u64 = frac * scale_of(6 - shown) + if round_up {
        1
    } else {
        0
    };
    Some(fine)
}

/// The ticks that the decimal number between `from` and `to` stands for.
fn read_length(text: &str, from: usize, to: usize) -> (ticks: Option<i64>)
    requires
        text.is_ascii(),
        from <= to <= text@.len(),
    ensures
        ticks == decimal_ticks(text@.subrange(from as int, to as int)),
{
    let ghost token = text@.subrange(from as int, to as int);
    let mut start: usize = from;
    let mut negative: bool = false;
    if from < to {
        let sign: char = char_at(text, from);
        if sign == '-' {
            negative = true;
            start = from + 1;
        } else if sign == '+' {
            start = from + 1;
        }
    }
    let ghost body = text@.subrange(start as int, to as int);
    assert(negative == (token.len() > 0 && token[0] == '-'));
    assert(body =~= if token.len() > 0 && (token[0] == '-' || token[0] == '+') {
        token.skip(1)
    } else {
        token
    });
    let (whole, overflow, stop) = read_digits(text, start, to, 9_223_372_036_854);
    let ghost dot = stop - start;
    proof {
        assert(body.take(dot) =~= text@.subrange(start as int, stop as int));
        lemma_digits_before_dot(body, dot, 0);
        lemma_first_dot(body, dot);
    }
    let fine: u64 = if stop < to {
        assert(body[dot] == text@[stop as int]);
        if char_at(text, stop) != '.' {
            proof {
                let d = first_dot(body, 0);
                assert(body.take(d)[dot] == body[dot]);
            }
            return None;
        }
        assert(first_dot(body, 0) == dot);
        assert(body.skip(dot + 1) =~= text@.subrange(stop + 1, to as int));
        match read_fraction(text, stop + 1, to) {
            Some(fine) => fine,
            None => {
                return None;
            },
        }
    } else {
        assert(first_dot(body, 0) == body.len());
        assert(body.take(dot) =~= body);
        assert(millionths(Seq::<char>::empty()) == 0) by {
            assert(Seq::<char>::empty().take(0) =~= Seq::<char>::empty());
        }
        0
    };
    if to - start == 0 || (to - start == 1 && stop < to) {
        return None;
    }
    if overflow {
        return None;
    }
    let size: i128 = (whole as i128) * 1_000_000 + fine as i128;
    let value: i128 = if negative {
        -size
    } else {
        size
    };
    if value < i64::MIN as i128 || value > i64::MAX as i128 {
        None
    } else {
        Some(value as i64)
    }
}

/// Why a text could not be read as a tree.
#[derive(Clone, Copy, Debug, PartialEq, Eq, Structural)]
pub enum ParseError {
    /// The text holds a character that is not ASCII.
    NotAscii,
    /// The text is not a tree followed by a semicolon.
    Syntax,
}

/// What a text says of a tree: for each node its name, its length in ticks
/// and, for an inner node, its two subtrees.
pub ghost struct Shape {
    pub name: Seq<char>,
    pub length: int,
    pub children: Option<Box<(Shape, Shape)>>,
}

/// A tree as it was read, with the lengths that could not be read, as they
/// stand in the text and in the order in which their labels end.
#[derive(Debug, PartialEq, Eq)]
pub struct Parsed {
    pub tree: Node,
    pub unreadable_lengths: Vec<String>,
}

/// The shape of a tree whose nodes have no child or two.
pub open spec fn shape_of(node: Node) -> Shape
    decreases node,
{
    Shape {
        name: node.name@,
        length: node.length as int,
        children: match (node.left_child, node.right_child) {
            (Some(l), Some(r)) => Some(Box::new((shape_of(*l), shape_of(*r)))),
            _ => None,
        },
    }
}

/// The tree is as a reader leaves it: every node has no child or two, and
/// none has a parent or a depth.
pub open spec fn is_fresh(node: Node) -> bool
    decreases node,
{
    &&& node.parent is None
    &&& node.depth is None
    &&& match (node.left_child, node.right_child) {
        (None, None) => true,
        (Some(l), Some(r)) => is_fresh(*l) && is_fresh(*r),
        _ => false,
    }
}

/// The character ends a name or a length.
pub open spec fn is_delimiter(c: char) -> bool {
    c == '(' || c == ')' || c == ',' || c == ':' || c == ';'
}

/// Where the name or length that begins at `pos` ends: at the next
/// delimiter, or at the end of the text.
pub open spec fn token_end(s: Seq<char>, pos: int) -> int
    decreases s.len() - pos,
{
    if 0 <= pos < s.len() && !is_delimiter(s[pos]) {
        token_end(s, pos + 1)
    } else {
        pos
    }
}

/// The length that a token stands for: zero where it is empty or cannot be
/// read.
pub open spec fn length_of(token: Seq<char>) -> int {
    match decimal_ticks(token) {
        Some(ticks) => ticks as int,
        None => 0,
    }
}

/// The token is a length that cannot be read.
pub open spec fn is_unreadable(token: Seq<char>) -> bool {
    token.len() > 0 && decimal_ticks(token) is None
}

/// One label as it stands in a text: the name, the length token, and where
/// the label ends.
pub ghost struct Label {
    pub name: Seq<char>,
    pub token: Seq<char>,
    pub end: int,
}

/// The label that begins at `pos`: a name up to the next delimiter and, if
/// that is a colon, a length up to the delimiter after it.
pub open spec fn label_at(s: Seq<char>, pos: int) -> Label {
    let name_end = token_end(s, pos);
    if name_end < s.len() && s[name_end] == ':' {
        let end = token_end(s, name_end + 1);
        Label { name: s.subrange(pos, name_end), token: s.subrange(name_end + 1, end), end: end }
    } else {
        Label { name: s.subrange(pos, name_end), token: Seq::empty(), end: name_end }
    }
}

/// One subtree as it stands in a text: its shape, where it ends, and those
/// of its lengths that cannot be read, in the order in which their labels
/// end.
pub ghost struct Reading {
    pub shape: Shape,
    pub end: int,
    pub unreadable: Seq<Seq<char>>,
}

/// The length of a label, if it is one that cannot be read.
pub open spec fn unreadable_of(token: Seq<char>) -> Seq<Seq<char>> {
    if is_unreadable(token) {
        seq![token]
    } else {
        Seq::empty()
    }
}

/// The subtree that begins at `pos`, or `None` where there is none: an
/// opening bracket, a subtree, a comma, a subtree, a closing bracket and a
/// label; or, where no bracket opens, a label alone.
pub open spec fn subtree_at(s: Seq<char>, pos: int) -> Option<Reading>
    decreases s.len() - pos,
{
    if !(0 <= pos <= s.len()) {
        None
    } else if pos < s.len() && s[pos] == '(' {
        match subtree_at(s, pos + 1) {
            None => None,
            Some(left) => {
                if pos < left.end < s.len() && s[left.end] == ',' {
                    match subtree_at(s, left.end + 1) {
                        None => None,
                        Some(right) => {
                            if right.end < s.len() && s[right.end] == ')' {
                                let label = label_at(s, right.end + 1);
                                Some(
                                    Reading {
                                        shape: Shape {
                                            name: label.name,
                                            length: length_of(label.token),
                                            children: Some(Box::new((left.shape, right.shape))),
                                        },
                                        end: label.end,
                                        unreadable: left.unreadable + right.unreadable
                                            + unreadable_of(label.token),
                                    },
                                )
                            } else {
                                None
                            }
                        },
                    }
                } else {
                    None
                }
            },
        }
    } else {
        let label = label_at(s, pos);
        Some(
            Reading {
                shape: Shape { name: label.name, length: length_of(label.token), children: None },
                end: label.end,
                unreadable: unreadable_of(label.token),
            },
        )
    }
}

/// The tree that the whole text stands for, or `None` where it is not one
/// subtree followed by a semicolon and nothing else.
pub open spec fn tree_in(s: Seq<char>) -> Option<Reading> {
    match subtree_at(s, 0) {
        Some(reading) => if reading.end + 1 == s.len() && s[reading.end] == ';' {
            Some(reading)
        } else {
            None
        },
        None => None,
    }
}

/// Tells whether the character ends a name or a length.
fn ends_token(c: char) -> (ends: bool)
    ensures
        ends == is_delimiter(c),
{
    c == '(' || c == ')' || c == ',' || c == ':' || c == ';'
}

/// Where the name or length that begins at `pos` ends.
fn find_token_end(text: &str, len: usize, pos: usize) -> (end: usize)
    requires
        text.is_ascii(),
        len == text@.len(),
        pos <= len,
    ensures
        end == token_end(text@, pos as int),
        pos <= end <= len,
{
    let mut i: usize = pos;
    loop
        invariant
            text.is_ascii(),
            len == text@.len(),
            pos <= i <= len,
            token_end(text@, pos as int) == token_end(text@, i as int),
        ensures
            i == token_end(text@, pos as int),
        decreases len - i,
    {
        if i >= len {
            break ;
        }
        if ends_token(char_at(text, i)) {
            break ;
        }
        i += 1;
    }
    i
}

/// Reads the label that begins at `pos`: its name, its length, the length
/// as it stands in the text if it could not be read, and where the label
/// ends.
fn read_label(text: &str, len: usize, pos: usize) -> (label: (String, i64, Vec<String>, usize))
    requires
        text.is_ascii(),
        len == text@.len(),
        pos <= len,
    ensures
        label.0@ == label_at(text@, pos as int).name,
        label.1 == length_of(label_at(text@, pos as int).token),
        texts_of(label.2@) == unreadable_of(label_at(text@, pos as int).token),
        label.3 == label_at(text@, pos as int).end,
        pos <= label.3 <= len,
{
    let name_end: usize = find_token_end(text, len, pos);
    let name: String = text.substring_ascii(pos, name_end).to_owned();
    let mut unreadable: Vec<String> = Vec::new();
    assert(texts_of(unreadable@) =~= Seq::<Seq<char>>::empty());
    if name_end < len {
        if char_at(text, name_end) == ':' {
            let end: usize = find_token_end(text, len, name_end + 1);
            if end == name_end + 1 {
                assert(text@.subrange(name_end + 1, end as int) =~= Seq::<char>::empty());
                return (name, 0, unreadable, end);
            }
            return match read_length(text, name_end + 1, end) {
                Some(ticks) => (name, ticks, unreadable, end),
                None => {
                    unreadable.push(text.substring_ascii(name_end + 1, end).to_owned());
                    assert(texts_of(unreadable@) =~= seq![
                        text@.subrange(name_end + 1, end as int),
                    ]);
                    (name, 0, unreadable, end)
                },
            };
        }
    }
    (name, 0, unreadable, name_end)
}

/// Reads the subtree that begins at `pos`: the tree, where it ends, and
/// those of its lengths that could not be read.
fn read_subtree(text: &str, len: usize, pos: usize) -> (read: Option<(Node, usize, Vec<String>)>)
    requires
        text.is_ascii(),
        len == text@.len(),
        pos <= len,
    ensures
        match read {
            Some((node, end, unreadable)) => {
                &&& subtree_at(text@, pos as int) matches Some(reading)
                &&& reading.shape == shape_of(node)
                &&& reading.end == end
                &&& reading.unreadable == texts_of(unreadable@)
                &&& is_fresh(node)
                &&& pos <= end <= len
            },
            None => subtree_at(text@, pos as int) is None,
        },
    decreases len - pos,
{
    if pos < len {
        if char_at(text, pos) == '(' {
            let (left, comma, mut unreadable) = match read_subtree(text, len, pos + 1) {
                Some(read) => read,
                None => {
                    return None;
                },
            };
            if comma >= len {
                return None;
            }
            if char_at(text, comma) != ',' {
                return None;
            }
            let (right, close, mut right_bad) = match read_subtree(text, len, comma + 1) {
                Some(read) => read,
                None => {
                    return None;
                },
            };
            if close >= len {
                return None;
            }
            if char_at(text, close) != ')' {
                return None;
            }
            let (name, length, mut own_bad, end) = read_label(text, len, close + 1);
            let ghost left_texts = texts_of(unreadable@);
            let ghost right_texts = texts_of(right_bad@);
            let ghost own_texts = texts_of(own_bad@);
            unreadable.append(&mut right_bad);
            assert(texts_of(unreadable@) =~= left_texts + right_texts);
            unreadable.append(&mut own_bad);
            assert(texts_of(unreadable@) =~= left_texts + right_texts + own_texts);
            let node = Node {
                name: name,
                left_child: Some(Box::new(left)),
                right_child: Some(Box::new(right)),
                parent: None,
                depth: None,
                length: length,
            };
            return Some((node, end, unreadable));
        }
    }
    let (name, length, unreadable, end) = read_label(text, len, pos);
    let node = Node {
        name: name,
        left_child: None,
        right_child: None,
        parent: None,
        depth: None,
        length: length,
    };
    Some((node, end, unreadable))
}

/// Reads a tree from a text that holds one subtree and a closing semicolon.
///
/// The two subtrees of an inner node are its left and right child in the
/// order in which they stand in the text. A name that is left out is empty,
/// a length that is left out is zero. A length that cannot be read is zero
/// too, and is handed back as it stands in the text.
pub fn newick_to_tree(text: &str) -> (read: Result<Parsed, ParseError>)
    ensures
        match read {
            Ok(parsed) => {
                &&& is_ascii(text)
                &&& tree_in(text@) matches Some(reading)
                &&& reading.shape == shape_of(parsed.tree)
                &&& reading.unreadable == texts_of(parsed.unreadable_lengths@)
                &&& is_fresh(parsed.tree)
            },
            Err(ParseError::NotAscii) => !is_ascii(text),
            Err(ParseError::Syntax) => is_ascii(text) && tree_in(text@) is None,
        },
{
    if !text.is_ascii() {
        return Err(ParseError::NotAscii);
    }
    let len: usize = text_len(text);
    match read_subtree(text, len, 0) {
        None => Err(ParseError::Syntax),
        Some((tree, end, unreadable)) => {
            if end >= len {
                return Err(ParseError::Syntax);
            }
            if end + 1 != len {
                return Err(ParseError::Syntax);
            }
            if char_at(text, end) != ';' {
                return Err(ParseError::Syntax);
            }
            Ok(Parsed { tree: tree, unreadable_lengths: unreadable })
        },
    }
}

/// The digits with one more stand for ten times as much and the last digit.
proof fn lemma_digits_push(s: Seq<char>, c: char)
    requires
        all_digits(s),
        is_digit(c),
    ensures
        all_digits(s.push(c)),
        digits_value(s.push(c)) == digits_value(s) * 10 + digit_value(c),
{
    assert(s.push(c).drop_last() =~= s);
    assert(s.push(c).last() == c);
    assert forall|i: int| 0 <= i < s.push(c).len() implies is_digit(#[trigger] s.push(c)[i]) by {
        if i < s.len() {
            assert(s.push(c)[i] == s[i]);
        }
    }
}

/// A number written in decimal is digits that stand for the number.
pub proof fn lemma_decimal(n: nat)
    ensures
        decimal(n).len() >= 1,
        all_digits(decimal(n)),
        digits_value(decimal(n)) == n,
    decreases n,
{
    if n < 10 {
        lemma_digits_push(Seq::<char>::empty(), digit_char(n as int));
        assert(decimal(n) =~= Seq::<char>::empty().push(digit_char(n as int)));
    } else {
        lemma_decimal(n / 10);
        lemma_digits_push(decimal(n / 10), digit_char((n % 10) as int));
    }
}

/// The digits of a number down to some place, with the digit of the next
/// place, are its digits down to the next place.
proof fn lemma_next_digit(n: nat, place: nat, lower: nat)
    requires
        lower > 0,
        place == lower * 10,
    ensures
        (n / place) * 10 + (n / lower) % 10 == n / lower,
{
    vstd::arithmetic::div_mod::lemma_div_denominator(n as int, lower as int, 10);
    vstd::arithmetic::div_mod::lemma_fundamental_div_mod((n / lower) as int, 10);
}

/// The six decimals of a number of ticks below one unit stand for that
/// number.
pub proof fn lemma_six_decimals(n: nat)
    requires
        n < 1_000_000,
    ensures
        six_decimals(n).len() == 6,
        all_digits(six_decimals(n)),
        digits_value(six_decimals(n)) == n,
{
    let d5 = digit_char((n / 100000) as int % 10);
    let d4 = digit_char((n / 10000) as int % 10);
    let d3 = digit_char((n / 1000) as int % 10);
    let d2 = digit_char((n / 100) as int % 10);
    let d1 = digit_char((n / 10) as int % 10);
    let d0 = digit_char(n as int % 10);
    let s0 = Seq::<char>::empty();
    let s1 = s0.push(d5);
    let s2 = s1.push(d4);
    let s3 = s2.push(d3);
    let s4 = s3.push(d2);
    let s5 = s4.push(d1);
    let s6 = s5.push(d0);
    lemma_digits_push(s0, d5);
    assert(digits_value(s1) == n / 100000) by {
        assert(n / 100000 < 10);
    }
    lemma_digits_push(s1, d4);
    assert(digits_value(s2) == n / 10000) by {
        lemma_next_digit(n, 100000, 10000);
    }
    lemma_digits_push(s2, d3);
    assert(digits_value(s3) == n / 1000) by {
        lemma_next_digit(n, 10000, 1000);
    }
    lemma_digits_push(s3, d2);
    assert(digits_value(s4) == n / 100) by {
        lemma_next_digit(n, 1000, 100);
    }
    lemma_digits_push(s4, d1);
    assert(digits_value(s5) == n / 10) by {
        lemma_next_digit(n, 100, 10);
    }
    lemma_digits_push(s5, d0);
    assert(digits_value(s6) == n) by {
        lemma_next_digit(n, 10, 1);
    }
    assert(six_decimals(n) =~= s6);
}

/// No character of a written time ends a name or a length.
pub open spec fn no_delimiter(s: Seq<char>) -> bool {
    forall|i: int| 0 <= i < s.len() ==> !is_delimiter(#[trigger] s[i])
}

/// A time as it is written is read as the same time.
pub proof fn lemma_time_read_back(ticks: i64)
    ensures
        decimal_ticks(time_text(ticks as int)) == Some(ticks),
        no_delimiter(time_text(ticks as int)),
        time_text(ticks as int).len() > 0,
{
    let t = ticks as int;
    let size = if t < 0 {
        (-t) as nat
    } else {
        t as nat
    };
    let whole = decimal(size / 1_000_000);
    let fine = six_decimals(size % 1_000_000);
    let token = time_text(t);
    lemma_decimal(size / 1_000_000);
    lemma_six_decimals(size % 1_000_000);
    let body = whole + seq!['.'] + fine;
    let k = whole.len() as int;
    assert(body.take(k) =~= whole);
    assert(body.skip(k + 1) =~= fine);
    assert(body[k] == '.');
    lemma_digits_before_dot(body, k, 0);
    assert(first_dot(body, 0) == k);
    assert(fine.take(6) =~= fine);
    assert(millionths(fine) == size % 1_000_000);
    assert(magnitude(body) == Some(size as int));
    if t < 0 {
        assert(token =~= seq!['-'] + body);
        assert(token[0] == '-');
        assert(token.skip(1) =~= body);
    } else {
        assert(token =~= body);
        assert(token[0] == whole[0]);
        assert(is_digit(whole[0]));
        assert(token[0] != '-' && token[0] != '+');
    }
    assert forall|i: int| 0 <= i < token.len() implies !is_delimiter(#[trigger] token[i]) by {
        let j = if t < 0 {
            i - 1
        } else {
            i
        };
        if j < 0 {
        } else if j < k {
            assert(body[j] == whole[j]);
            assert(is_digit(whole[j]));
        } else if j == k {
        } else {
            assert(body[j] == fine[j - k - 1]);
            assert(is_digit(fine[j - k - 1]));
        }
    }
}

/// A run of characters without delimiter that is followed by a delimiter,
/// or by nothing, is one name or length.
proof fn lemma_token_run(s: Seq<char>, pos: int, n: int)
    requires
        0 <= pos,
        0 <= n,
        pos + n <= s.len(),
        forall|k: int| pos <= k < pos + n ==> !is_delimiter(#[trigger] s[k]),
        pos + n == s.len() || is_delimiter(s[pos + n]),
    ensures
        token_end(s, pos) == pos + n,
    decreases n,
{
    if n > 0 {
        assert(!is_delimiter(s[pos]));
        lemma_token_run(s, pos + 1, n - 1);
    }
}

/// Every node has no child or two, and no name holds a delimiter.
pub open spec fn is_writable(node: Node) -> bool
    decreases node,
{
    &&& no_delimiter(node.name@)
    &&& match (node.left_child, node.right_child) {
        (None, None) => true,
        (Some(l), Some(r)) => is_writable(*l) && is_writable(*r),
        _ => false,
    }
}

/// A written label is read as the same name and length.
proof fn lemma_label_read_back(s: Seq<char>, pos: int, name: Seq<char>, ticks: i64)
    requires
        0 <= pos,
        no_delimiter(name),
        pos + name.len() + 1 + time_text(ticks as int).len() < s.len(),
        s.subrange(pos, pos + name.len() + 1 + time_text(ticks as int).len()) == name + seq![':']
            + time_text(ticks as int),
        is_delimiter(s[pos + name.len() + 1 + time_text(ticks as int).len()]),
    ensures
        label_at(s, pos) == (Label {
            name: name,
            token: time_text(ticks as int),
            end: pos + name.len() + 1 + time_text(ticks as int).len(),
        }),
        length_of(time_text(ticks as int)) == ticks,
        !is_unreadable(time_text(ticks as int)),
        pos < s.len() && s[pos] != '(',
{
    let time = time_text(ticks as int);
    let written = name + seq![':'] + time;
    let colon = pos + name.len();
    let end = colon + 1 + time.len();
    lemma_time_read_back(ticks);
    assert forall|k: int| pos <= k < end implies s[k] == written[k - pos] by {
        assert(s.subrange(pos, end)[k - pos] == s[k]);
    }
    assert forall|k: int| pos <= k < colon implies !is_delimiter(#[trigger] s[k]) by {
        assert(s[k] == written[k - pos]);
        assert(written[k - pos] == name[k - pos]);
    }
    assert(s[colon] == written[colon - pos]);
    assert(written[colon - pos] == ':');
    lemma_token_run(s, pos, name.len() as int);
    assert forall|k: int| colon + 1 <= k < end implies !is_delimiter(#[trigger] s[k]) by {
        assert(s[k] == written[k - pos]);
        assert(written[k - pos] == time[k - colon - 1]);
    }
    lemma_token_run(s, colon + 1, time.len() as int);
    assert(s.subrange(pos, colon) =~= name) by {
        assert forall|k: int| 0 <= k < name.len() implies s.subrange(pos, colon)[k] == name[k] by {
            assert(s[pos + k] == written[k]);
        }
    }
    assert(s.subrange(colon + 1, end) =~= time) by {
        assert forall|k: int| 0 <= k < time.len() implies s.subrange(colon + 1, end)[k]
            == time[k] by {
            assert(s[colon + 1 + k] == written[colon + 1 + k - pos]);
        }
    }
    if name.len() > 0 {
        assert(s[pos] == written[0]);
        assert(written[0] == name[0]);
        assert(!is_delimiter(name[0]));
    }
}

/// What is read where a bracket opens, two subtrees stand with a comma
/// between them, the bracket closes and a label follows.
proof fn lemma_inner_read(s: Seq<char>, pos: int, left: Reading, right: Reading, label: Label)
    requires
        0 <= pos < s.len(),
        s[pos] == '(',
        subtree_at(s, pos + 1) == Some(left),
        pos < left.end < s.len(),
        s[left.end] == ',',
        subtree_at(s, left.end + 1) == Some(right),
        right.end < s.len(),
        s[right.end] == ')',
        label_at(s, right.end + 1) == label,
    ensures
        subtree_at(s, pos) == Some(
            Reading {
                shape: Shape {
                    name: label.name,
                    length: length_of(label.token),
                    children: Some(Box::new((left.shape, right.shape))),
                },
                end: label.end,
                unreadable: left.unreadable + right.unreadable + unreadable_of(label.token),
            },
        ),
{
}

/// Where the text of an inner node stands: the bracket, the text of the
/// left subtree, the comma, the text of the right subtree, the closing
/// bracket and the label.
proof fn lemma_inner_layout(s: Seq<char>, pos: int, node: Node)
    requires
        node.left_child is Some,
        node.right_child is Some,
        0 <= pos,
        pos + newick_text(node).len() <= s.len(),
        s.subrange(pos, pos + newick_text(node).len()) == newick_text(node),
    ensures
        ({
            let left = newick_text(*node.left_child->0);
            let right = newick_text(*node.right_child->0);
            let label = node.name@ + seq![':'] + time_text(node.length as int);
            let comma = pos + 1 + left.len();
            let close = comma + 1 + right.len();
            &&& newick_text(node).len() == left.len() + right.len() + label.len() + 3
            &&& s[pos] == '('
            &&& s.subrange(pos + 1, comma) == left
            &&& s[comma] == ','
            &&& s.subrange(comma + 1, close) == right
            &&& s[close] == ')'
            &&& s.subrange(close + 1, close + 1 + label.len()) == label
        }),
{
    let text = newick_text(node);
    let left = newick_text(*node.left_child->0);
    let right = newick_text(*node.right_child->0);
    let label = node.name@ + seq![':'] + time_text(node.length as int);
    let comma = pos + 1 + left.len();
    let close = comma + 1 + right.len();
    assert(text =~= seq!['('] + left + seq![','] + right + seq![')'] + label);
    assert forall|k: int| 0 <= k < text.len() implies s[pos + k] == text[k] by {
        assert(s.subrange(pos, pos + text.len())[k] == s[pos + k]);
    }
    assert(s[pos] == text[0]);
    assert(s.subrange(pos + 1, comma) =~= left) by {
        assert forall|k: int| 0 <= k < left.len() implies s.subrange(pos + 1, comma)[k]
            == left[k] by {
            assert(s[pos + 1 + k] == text[1 + k]);
        }
    }
    assert(s[comma] == text[comma - pos]);
    assert(s.subrange(comma + 1, close) =~= right) by {
        assert forall|k: int| 0 <= k < right.len() implies s.subrange(comma + 1, close)[k]
            == right[k] by {
            assert(s[comma + 1 + k] == text[comma + 1 + k - pos]);
        }
    }
    assert(s[close] == text[close - pos]);
    assert(s.subrange(close + 1, close + 1 + label.len()) =~= label) by {
        assert forall|k: int| 0 <= k < label.len() implies s.subrange(
            close + 1,
            close + 1 + label.len(),
        )[k] == label[k] by {
            assert(s[close + 1 + k] == text[close + 1 + k - pos]);
        }
    }
}

/// A tree as it is written is read as the same tree: wherever the text of a
/// writable tree stands in front of a delimiter, the subtree that is read
/// there has the shape of the tree, ends where the text ends, and has no
/// length that cannot be read.
pub proof fn lemma_subtree_read_back(s: Seq<char>, pos: int, node: Node)
    requires
        is_writable(node),
        0 <= pos,
        pos + newick_text(node).len() < s.len(),
        s.subrange(pos, pos + newick_text(node).len()) == newick_text(node),
        is_delimiter(s[pos + newick_text(node).len()]),
    ensures
        subtree_at(s, pos) == Some(
            Reading {
                shape: shape_of(node),
                end: pos + newick_text(node).len(),
                unreadable: Seq::empty(),
            },
        ),
    decreases node,
{
    match (node.left_child, node.right_child) {
        (Some(l), Some(r)) => {
            let comma = pos + 1 + newick_text(*l).len();
            let close = comma + 1 + newick_text(*r).len();
            lemma_inner_layout(s, pos, node);
            lemma_subtree_read_back(s, pos + 1, *l);
            lemma_subtree_read_back(s, comma + 1, *r);
            lemma_label_read_back(s, close + 1, node.name@, node.length);
            let none = Seq::<Seq<char>>::empty();
            assert(none + none + none =~= none);
            lemma_inner_read(
                s,
                pos,
                subtree_at(s, pos + 1)->0,
                subtree_at(s, comma + 1)->0,
                label_at(s, close + 1),
            );
        },
        _ => {
            assert(newick_text(node) =~= node.name@ + seq![':'] + time_text(node.length as int));
            lemma_label_read_back(s, pos, node.name@, node.length);
        },
    }
}

/// A whole tree as it is written, semicolon included, is read as the same
/// tree.
pub proof fn lemma_tree_read_back(node: Node)
    requires
        is_writable(node),
    ensures
        tree_in(newick_text(node).push(';')) == Some(
            Reading {
                shape: shape_of(node),
                end: newick_text(node).len() as int,
                unreadable: Seq::empty(),
            },
        ),
{
    let s = newick_text(node).push(';');
    assert(s.subrange(0, newick_text(node).len() as int) =~= newick_text(node));
    lemma_subtree_read_back(s, 0, node);
}

} // verus!
