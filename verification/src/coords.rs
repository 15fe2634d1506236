//! Coordinate index: the 1-indexed line and the 0-indexed column (counted in
//! Unicode scalar values, never bytes) of the position just past a prefix of
//! the source text, and the UTF-8 byte length of a scalar sequence.

use vstd::prelude::*;

verus! {

/// Number of newline scalars in `s`.
pub open spec fn newline_count(s: Seq<char>) -> nat
    decreases s.len(),
{
    if s.len() == 0 {
        0
    } else {
        newline_count(s.drop_last()) + if s.last() == '\n' {
            1nat
        } else {
            0nat
        }
    }
}

/// The 1-indexed line on which the scalar just past the fragment `s` falls:
/// one more than the number of newlines in `s`.
pub open spec fn line_number(s: Seq<char>) -> nat {
    newline_count(s) + 1
}

/// The 0-indexed column, in scalars, of the position just past the fragment
/// `s`: the number of scalars after the last newline of `s`, or all of `s`
/// when it holds no newline.
pub open spec fn column_number(s: Seq<char>) -> nat
    decreases s.len(),
{
    if s.len() == 0 {
        0
    } else if s.last() == '\n' {
        0
    } else {
        column_number(s.drop_last()) + 1
    }
}

pub proof fn lemma_newline_count_le_len(s: Seq<char>)
    ensures
        newline_count(s) <= s.len(),
    decreases s.len(),
{
    if s.len() > 0 {
        lemma_newline_count_le_len(s.drop_last());
    }
}

/// The byte length of the UTF-8 encoding of a single scalar.
pub open spec fn char_byte_len(c: char) -> nat {
    vstd::utf8::encode_scalar(c as u32).len()
}

/// The byte length of the UTF-8 encoding of a scalar sequence.
pub open spec fn byte_len(s: Seq<char>) -> nat {
    vstd::utf8::encode_utf8(s).len()
}

pub proof fn lemma_encode_utf8_concat(a: Seq<char>, b: Seq<char>)
    ensures
        vstd::utf8::encode_utf8(a + b) == vstd::utf8::encode_utf8(a) + vstd::utf8::encode_utf8(b),
    decreases a.len(),
{
    if a.len() == 0 {
        assert(a + b =~= b);
        assert(vstd::utf8::encode_utf8(a) + vstd::utf8::encode_utf8(b) =~= vstd::utf8::encode_utf8(
            b,
        ));
    } else {
        assert((a + b).drop_first() =~= a.drop_first() + b);
        lemma_encode_utf8_concat(a.drop_first(), b);
        assert(vstd::utf8::encode_utf8(a + b) =~= vstd::utf8::encode_utf8(a)
            + vstd::utf8::encode_utf8(b));
    }
}

pub proof fn lemma_byte_len_concat(a: Seq<char>, b: Seq<char>)
    ensures
        byte_len(a + b) == byte_len(a) + byte_len(b),
{
    lemma_encode_utf8_concat(a, b);
}

pub proof fn lemma_byte_len_singleton(c: char)
    ensures
        byte_len(seq![c]) == char_byte_len(c),
{
    let s = seq![c];
    assert(s.drop_first() =~= Seq::<char>::empty());
    assert(vstd::utf8::encode_utf8(s.drop_first()) =~= Seq::<u8>::empty());
    assert(vstd::utf8::encode_utf8(s) =~= vstd::utf8::encode_scalar(c as u32)
        + vstd::utf8::encode_utf8(s.drop_first()));
}

/// Every scalar takes at least one byte, so a fragment never has more
/// scalars than bytes.
pub proof fn lemma_byte_len_ge_len(s: Seq<char>)
    ensures
        byte_len(s) >= s.len(),
    decreases s.len(),
{
    if s.len() > 0 {
        lemma_byte_len_ge_len(s.drop_first());
    }
}

pub proof fn lemma_byte_len_take_succ(s: Seq<char>, i: int)
    requires
        0 <= i < s.len(),
    ensures
        byte_len(s.take(i + 1)) == byte_len(s.take(i)) + char_byte_len(s[i]),
{
    assert(s.take(i + 1) =~= s.take(i) + seq![s[i]]);
    lemma_byte_len_concat(s.take(i), seq![s[i]]);
    lemma_byte_len_singleton(s[i]);
}

/// The width, in bytes, of the UTF-8 encoding of one scalar.
pub fn char_utf8_width(c: char) -> (w: usize)
    ensures
        w == char_byte_len(c),
        1 <= w <= 4,
{
    proof {
        vstd::utf8::char_is_scalar(c);
    }
    let u = c as u32;
    if u < 0x80 {
        1
    } else if u < 0x800 {
        2
    } else if u < 0x10000 {
        3
    } else {
        4
    }
}

/// The number of newline scalars in `s`.
pub fn count_newlines(s: &str) -> (n: usize)
    ensures
        n == newline_count(s@),
{
    let len = s.unicode_len();
    let mut count: usize = 0;
    let mut i: usize = 0;
    proof {
        assert(s@.take(0) =~= Seq::<char>::empty());
    }
    while i < len
        invariant
            i <= len,
            len == s@.len(),
            count == newline_count(s@.take(i as int)),
            count <= i,
        decreases len - i,
    {
        let c = s.get_char(i);
        proof {
            assert(s@.take(i + 1).drop_last() =~= s@.take(i as int));
            assert(s@.take(i + 1).last() == s@[i as int]);
        }
        if c == '\n' {
            count = count + 1;
        }
        i = i + 1;
    }
    proof {
        assert(s@.take(len as int) =~= s@);
    }
    count
}

/// Given a fragment of the source, the 1-indexed number of the line on which
/// the character just past the fragment falls: the newline count plus one.
pub fn count_lines(fragment: &str) -> (n: usize)
    requires
        fragment@.len() < usize::MAX,
    ensures
        n == line_number(fragment@),
{
    let newlines = count_newlines(fragment);
    proof {
        lemma_newline_count_le_len(fragment@);
    }
    newlines + 1
}

/// Given a fragment of the source, the 0-indexed column, in scalars, of the
/// position just past the fragment.
pub fn calculate_column(fragment: &str) -> (col: usize)
    ensures
        col == column_number(fragment@),
{
    let len = fragment.unicode_len();
    let mut col: usize = 0;
    let mut i: usize = 0;
    proof {
        assert(fragment@.take(0) =~= Seq::<char>::empty());
    }
    while i < len
        invariant
            i <= len,
            len == fragment@.len(),
            col == column_number(fragment@.take(i as int)),
            col <= i,
        decreases len - i,
    {
        let c = fragment.get_char(i);
        proof {
            assert(fragment@.take(i + 1).drop_last() =~= fragment@.take(i as int));
            assert(fragment@.take(i + 1).last() == fragment@[i as int]);
        }
        if c == '\n' {
            col = 0;
        } else {
            col = col + 1;
        }
        i = i + 1;
    }
    proof {
        assert(fragment@.take(len as int) =~= fragment@);
    }
    col
}

} // verus!
