//! The mathematical model of a text snapshot: a `Seq<char>` together with the
//! line structure induced by `'\n'` terminators and the UTF-8 byte offsets of
//! its characters. Every coordinate conversion of the engine is specified
//! against these functions.

use vstd::prelude::*;

verus! {

/// Number of `'\n'` characters in `s`. Line `l` is the text between the
/// `l`-th and the `l+1`-th newline; a text always has `newline_count + 1`
/// lines, the last one possibly empty.
pub open spec fn newline_count(s: Seq<char>) -> int
    decreases s.len(),
{
    if s.len() <= 0 {
        0
    } else {
        (if s[0] == '\n' {
            1int
        } else {
            0int
        }) + newline_count(s.skip(1))
    }
}

/// Line index of the character position `i` (0 <= i <= s.len()): the number
/// of newlines strictly before `i`.
pub open spec fn line_index_of(s: Seq<char>, i: int) -> int {
    newline_count(s.take(i))
}

/// Character index of the first character of line `l`; `s.len()` when `l`
/// lies past the last line.
pub open spec fn line_start(s: Seq<char>, l: int) -> int
    decreases s.len(),
{
    if l <= 0 || s.len() <= 0 {
        0
    } else if s[0] == '\n' {
        1 + line_start(s.skip(1), l - 1)
    } else {
        1 + line_start(s.skip(1), l)
    }
}

/// Number of bytes of the UTF-8 encoding of the single character `c`.
pub open spec fn char_size(c: char) -> int {
    if (c as int) < 0x80 {
        1
    } else if (c as int) < 0x800 {
        2
    } else if (c as int) < 0x10000 {
        3
    } else {
        4
    }
}

/// Number of bytes of the UTF-8 encoding of `s`.
pub open spec fn size_of_chars(s: Seq<char>) -> int
    decreases s.len(),
{
    if s.len() <= 0 {
        0
    } else {
        char_size(s[0]) + size_of_chars(s.skip(1))
    }
}

/// Byte offset of the character at index `i` (0 <= i <= s.len()).
pub open spec fn byte_index_of(s: Seq<char>, i: int) -> int {
    size_of_chars(s.take(i))
}

/// Character index containing the byte at offset `b` (0 <= b <=
/// size_of_chars(s)); a byte in the middle of a character's encoding belongs
/// to that character, and the one-past-the-end byte maps to `s.len()`.
pub open spec fn char_index_at_byte(s: Seq<char>, b: int) -> int
    decreases s.len(),
{
    if s.len() <= 0 || b < char_size(s[0]) {
        0
    } else {
        1 + char_index_at_byte(s.skip(1), b - char_size(s[0]))
    }
}

pub proof fn lemma_newline_count_singleton(c: char)
    ensures
        newline_count(seq![c]) == if c == '\n' {
            1int
        } else {
            0int
        },
{
    assert(seq![c].skip(1) =~= Seq::<char>::empty());
    assert(newline_count(Seq::<char>::empty()) == 0);
}

pub proof fn lemma_size_singleton(c: char)
    ensures
        size_of_chars(seq![c]) == char_size(c),
{
    assert(seq![c].skip(1) =~= Seq::<char>::empty());
    assert(size_of_chars(Seq::<char>::empty()) == 0);
}

pub proof fn lemma_newline_count_nonneg(s: Seq<char>)
    ensures
        0 <= newline_count(s) <= s.len(),
    decreases s.len(),
{
    if s.len() > 0 {
        lemma_newline_count_nonneg(s.skip(1));
    }
}

pub proof fn lemma_newline_count_append(a: Seq<char>, b: Seq<char>)
    ensures
        newline_count(a + b) == newline_count(a) + newline_count(b),
    decreases a.len(),
{
    if a.len() <= 0 {
        assert(a + b =~= b);
    } else {
        lemma_newline_count_append(a.skip(1), b);
        assert((a + b).skip(1) =~= a.skip(1) + b);
    }
}

/// Newlines in a prefix are no more numerous than in a longer prefix.
pub proof fn lemma_line_index_monotone(s: Seq<char>, i: int, j: int)
    requires
        0 <= i <= j <= s.len(),
    ensures
        line_index_of(s, i) <= line_index_of(s, j),
        line_index_of(s, j) <= line_index_of(s, i) + (j - i),
{
    assert(s.take(j) =~= s.take(i) + s.take(j).skip(i));
    lemma_newline_count_append(s.take(i), s.take(j).skip(i));
    lemma_newline_count_nonneg(s.take(j).skip(i));
}

pub proof fn lemma_line_start_bounds(s: Seq<char>, l: int)
    ensures
        0 <= line_start(s, l) <= s.len(),
    decreases s.len(),
{
    if l > 0 && s.len() > 0 {
        lemma_line_start_bounds(s.skip(1), if s[0] == '\n' { l - 1 } else { l });
    }
}

pub proof fn lemma_line_start_monotone(s: Seq<char>, l: int, m: int)
    requires
        l <= m,
    ensures
        line_start(s, l) <= line_start(s, m),
    decreases s.len(),
{
    lemma_line_start_bounds(s, l);
    lemma_line_start_bounds(s, m);
    if l > 0 && s.len() > 0 {
        if s[0] == '\n' {
            lemma_line_start_monotone(s.skip(1), l - 1, m - 1);
        } else {
            lemma_line_start_monotone(s.skip(1), l, m);
        }
    }
}

/// The start of line `l` lies on line `l` itself (when the line exists), and
/// is either 0 or directly preceded by a newline.
pub proof fn lemma_line_start_is_on_line(s: Seq<char>, l: int)
    requires
        0 <= l <= newline_count(s),
    ensures
        line_index_of(s, line_start(s, l)) == l,
        line_start(s, l) == 0 || s[line_start(s, l) - 1] == '\n',
    decreases s.len(),
{
    lemma_newline_count_nonneg(s);
    if l == 0 {
        assert(s.take(0) =~= Seq::<char>::empty());
    } else {
        let tail = s.skip(1);
        let l2: int = if s[0] == '\n' { l - 1 } else { l };
        lemma_line_start_is_on_line(tail, l2);
        let r = line_start(s, l);
        lemma_line_start_bounds(tail, l2);
        assert(s.take(r) =~= seq![s[0]] + tail.take(r - 1));
        lemma_newline_count_append(seq![s[0]], tail.take(r - 1));
        lemma_newline_count_singleton(s[0]);
        if r - 1 == 0 {
            assert(s[r - 1] == s[0]);
            if s[0] != '\n' {
                // l2 == l > 0 and line_start(tail, l2) == 0 forces l2 == 0.
                assert(tail.take(0) =~= Seq::<char>::empty());
            }
        } else {
            assert(s[r - 1] == tail[r - 2]);
        }
    }
}

/// Every position lies between the start of its line and the start of the
/// next line.
pub proof fn lemma_line_start_of_line_index(s: Seq<char>, i: int)
    requires
        0 <= i <= s.len(),
    ensures
        line_start(s, line_index_of(s, i)) <= i,
        i < line_start(s, line_index_of(s, i) + 1) || i == s.len(),
    decreases s.len(),
{
    lemma_newline_count_nonneg(s.take(i));
    if i == 0 {
        assert(s.take(0) =~= Seq::<char>::empty());
        if s.len() > 0 {
            lemma_line_start_bounds(s.skip(1), 1);
            assert(line_start(s.skip(1), 0) == 0);
        }
    } else {
        let tail = s.skip(1);
        lemma_line_start_of_line_index(tail, i - 1);
        lemma_line_start_bounds(tail, line_index_of(tail, i - 1) + 1);
        assert(s.take(i) =~= seq![s[0]] + tail.take(i - 1));
        lemma_newline_count_append(seq![s[0]], tail.take(i - 1));
        lemma_newline_count_singleton(s[0]);
        let l = line_index_of(s, i);
        if s[0] == '\n' {
            assert(line_index_of(tail, i - 1) == l - 1);
        } else {
            assert(line_index_of(tail, i - 1) == l);
            lemma_newline_count_nonneg(tail.take(i - 1));
        }
    }
}

pub proof fn lemma_char_size_bounds(c: char)
    ensures
        1 <= char_size(c) <= 4,
{
}

pub proof fn lemma_size_nonneg(s: Seq<char>)
    ensures
        s.len() <= size_of_chars(s),
        size_of_chars(s) <= 4 * s.len(),
    decreases s.len(),
{
    if s.len() > 0 {
        lemma_size_nonneg(s.skip(1));
    }
}

pub proof fn lemma_size_append(a: Seq<char>, b: Seq<char>)
    ensures
        size_of_chars(a + b) == size_of_chars(a) + size_of_chars(b),
    decreases a.len(),
{
    if a.len() <= 0 {
        assert(a + b =~= b);
    } else {
        lemma_size_append(a.skip(1), b);
        assert((a + b).skip(1) =~= a.skip(1) + b);
    }
}

pub proof fn lemma_byte_index_monotone(s: Seq<char>, i: int, j: int)
    requires
        0 <= i <= j <= s.len(),
    ensures
        byte_index_of(s, i) + (j - i) <= byte_index_of(s, j),
        byte_index_of(s, j) <= byte_index_of(s, i) + 4 * (j - i),
{
    assert(s.take(j) =~= s.take(i) + s.take(j).skip(i));
    lemma_size_append(s.take(i), s.take(j).skip(i));
    lemma_size_nonneg(s.take(j).skip(i));
}

/// A byte offset maps into the text.
pub proof fn lemma_char_at_byte_in_range(s: Seq<char>, b: int)
    ensures
        0 <= char_index_at_byte(s, b) <= s.len(),
    decreases s.len(),
{
    if s.len() > 0 && !(b < char_size(s[0])) {
        lemma_char_at_byte_in_range(s.skip(1), b - char_size(s[0]));
    }
}

/// Later bytes belong to later (or the same) characters.
pub proof fn lemma_char_at_byte_monotone(s: Seq<char>, b1: int, b2: int)
    requires
        b1 <= b2,
    ensures
        char_index_at_byte(s, b1) <= char_index_at_byte(s, b2),
    decreases s.len(),
{
    if s.len() > 0 {
        if b1 < char_size(s[0]) {
            lemma_char_at_byte_in_range(s, b1);
            lemma_char_at_byte_in_range(s, b2);
        } else {
            lemma_char_at_byte_monotone(s.skip(1), b1 - char_size(s[0]), b2 - char_size(s[0]));
        }
    }
}

} // verus!
