//! Source tokenizer: an ordered sequence of tokens that concatenates back to
//! the input byte-for-byte, first with byte offsets, then with line and
//! scalar-column coordinates.

use vstd::prelude::*;

use crate::coords::{
    byte_len, char_byte_len, char_utf8_width, column_number, lemma_byte_len_concat,
    lemma_byte_len_singleton, lemma_byte_len_take_succ, line_number,
};

verus! {

/// A token of the source string together with the 0-indexed byte offset at
/// which it starts.
#[derive(Debug)]
pub struct TokenWithLocation {
    /// The full text of this token, delimiters (like `//`) included.
    pub content: String,
    /// The byte offset of the token's first byte in the source string.
    pub location: usize,
}

/// A token of the source string together with the 1-indexed line and the
/// 0-indexed scalar column of its first scalar.
#[derive(Debug)]
pub struct TokenWithLineColumn {
    /// The full text of this token, delimiters (like `//`) included.
    pub content: String,
    /// The first line on which the token appears (1-indexed).
    pub line: usize,
    /// The column of the token's first scalar (0-indexed, in scalars).
    pub column: usize,
}

/// The concatenation of a sequence of scalar sequences.
pub open spec fn concat_of(ts: Seq<Seq<char>>) -> Seq<char>
    decreases ts.len(),
{
    if ts.len() == 0 {
        Seq::<char>::empty()
    } else {
        concat_of(ts.drop_last()) + ts.last()
    }
}

pub proof fn lemma_concat_of_take_succ(ts: Seq<Seq<char>>, i: int)
    requires
        0 <= i < ts.len(),
    ensures
        concat_of(ts.take(i + 1)) == concat_of(ts.take(i)) + ts[i],
{
    assert(ts.take(i + 1).drop_last() =~= ts.take(i));
    assert(ts.take(i + 1).last() == ts[i]);
}

pub proof fn lemma_concat_of_split(ts: Seq<Seq<char>>, i: int)
    requires
        0 <= i <= ts.len(),
    ensures
        concat_of(ts) == concat_of(ts.take(i)) + concat_of(ts.skip(i)),
    decreases ts.len() - i,
{
    if i == ts.len() {
        assert(ts.take(i) =~= ts);
        assert(concat_of(ts.skip(i)) =~= Seq::<char>::empty());
        assert(concat_of(ts.take(i)) + concat_of(ts.skip(i)) =~= concat_of(ts));
    } else {
        lemma_concat_of_split(ts, i + 1);
        lemma_concat_of_take_succ(ts, i);
        assert(ts.skip(i).drop_first() =~= ts.skip(i + 1));
        assert(ts.skip(i) =~= seq![ts[i]] + ts.skip(i + 1));
        // concat over a cons cell: peel the head off the tail side
        lemma_concat_of_cons(ts[i], ts.skip(i + 1));
        assert((concat_of(ts.take(i)) + ts[i]) + concat_of(ts.skip(i + 1)) =~= concat_of(
            ts.take(i),
        ) + (ts[i] + concat_of(ts.skip(i + 1))));
    }
}

pub proof fn lemma_concat_of_cons(head: Seq<char>, tail: Seq<Seq<char>>)
    ensures
        concat_of(seq![head] + tail) == head + concat_of(tail),
    decreases tail.len(),
{
    if tail.len() == 0 {
        assert(seq![head] + tail =~= seq![head]);
        assert(seq![head].drop_last() =~= Seq::<Seq<char>>::empty());
        assert(seq![head].last() == head);
        assert(concat_of(Seq::<Seq<char>>::empty()) == Seq::<char>::empty());
        assert(concat_of(seq![head]) == Seq::<char>::empty() + head);
        assert(concat_of(tail) == Seq::<char>::empty());
        assert(Seq::<char>::empty() + head =~= head + Seq::<char>::empty());
    } else {
        let whole = seq![head] + tail;
        assert(whole.drop_last() =~= seq![head] + tail.drop_last());
        assert(whole.last() == tail.last());
        lemma_concat_of_cons(head, tail.drop_last());
        assert((head + concat_of(tail.drop_last())) + tail.last() =~= head + (concat_of(
            tail.drop_last(),
        ) + tail.last()));
    }
}

/// The number of leading scalars of `s` whose encodings lie wholly within the
/// first `b` bytes of the encoding of `s`.
pub open spec fn scalars_within(s: Seq<char>, b: int) -> int
    decreases s.len(),
{
    if s.len() == 0 {
        0
    } else if char_byte_len(s[0]) as int <= b {
        1 + scalars_within(s.drop_first(), b - char_byte_len(s[0]))
    } else {
        0
    }
}

/// Whether byte offset `b` falls on a scalar boundary of `s`.
pub open spec fn is_scalar_boundary(s: Seq<char>, b: int) -> bool {
    byte_len(s.take(scalars_within(s, b))) == b
}

/// The scalars of `s` that precede byte offset `b`.
pub open spec fn prefix_at(s: Seq<char>, b: int) -> Seq<char> {
    s.take(scalars_within(s, b))
}

pub proof fn lemma_scalars_within_bounds(s: Seq<char>, b: int)
    ensures
        0 <= scalars_within(s, b) <= s.len(),
    decreases s.len(),
{
    if s.len() > 0 && char_byte_len(s[0]) as int <= b {
        lemma_scalars_within_bounds(s.drop_first(), b - char_byte_len(s[0]));
    }
}

/// The byte length of a strictly longer scalar prefix is strictly larger.
pub proof fn lemma_byte_len_take_strict_mono(s: Seq<char>, i: int, j: int)
    requires
        0 <= i < j <= s.len(),
    ensures
        byte_len(s.take(i)) < byte_len(s.take(j)),
    decreases j - i,
{
    lemma_byte_len_take_succ(s, i);
    assert(char_byte_len(s[i]) >= 1) by {
        vstd::utf8::char_is_scalar(s[i]);
    }
    if i + 1 < j {
        lemma_byte_len_take_strict_mono(s, i + 1, j);
    }
}

pub proof fn lemma_byte_len_take_mono(s: Seq<char>, i: int, j: int)
    requires
        0 <= i <= j <= s.len(),
    ensures
        byte_len(s.take(i)) <= byte_len(s.take(j)),
{
    if i < j {
        lemma_byte_len_take_strict_mono(s, i, j);
    } else {
        assert(s.take(i) =~= s.take(j));
    }
}

/// The byte length of every scalar prefix of `s` is a scalar boundary, and
/// the prefix at that offset is the prefix itself.
pub proof fn lemma_take_is_boundary(s: Seq<char>, k: int)
    requires
        0 <= k <= s.len(),
    ensures
        scalars_within(s, byte_len(s.take(k)) as int) == k,
        is_scalar_boundary(s, byte_len(s.take(k)) as int),
        prefix_at(s, byte_len(s.take(k)) as int) == s.take(k),
    decreases k,
{
    let b = byte_len(s.take(k)) as int;
    if k == 0 {
        assert(s.take(0) =~= Seq::<char>::empty());
        assert(byte_len(s.take(0)) == 0);
        if s.len() > 0 {
            assert(char_byte_len(s[0]) >= 1) by {
                vstd::utf8::char_is_scalar(s[0]);
            }
        }
        assert(scalars_within(s, 0) == 0);
    } else {
        let rest = s.drop_first();
        assert(s.take(k) =~= seq![s[0]] + rest.take(k - 1));
        lemma_byte_len_concat(seq![s[0]], rest.take(k - 1));
        lemma_byte_len_singleton(s[0]);
        lemma_take_is_boundary(rest, k - 1);
        assert(scalars_within(s, b) == 1 + scalars_within(rest, b - char_byte_len(s[0])));
        assert(s.take(scalars_within(s, b)) =~= s.take(k));
    }
}

/// The texts of a sequence of located tokens, in order.
pub open spec fn token_contents(ts: Seq<TokenWithLocation>) -> Seq<Seq<char>> {
    ts.map_values(|t: TokenWithLocation| t.content@)
}

/// What the lexer produces for a given source text: an ordered sequence of
/// token texts. The result depends on the text alone.
pub uninterp spec fn lex_of(s: Seq<char>) -> Seq<Seq<char>>;

/// Relies on ra_ap_syntax::SourceFile::parse: the syntax tree is documented
/// as a full-fidelity representation of any text, so its leaf tokens, taken
/// in order, are nonempty and concatenate back to exactly the input, and the
/// lexer is a pure function of the text. The parser stack stores text
/// offsets as `u32`, so the input's byte length must stay below 2^32.
#[verifier::external_body]
fn lex_source(source: &str) -> (r: Vec<String>)
    requires
        byte_len(source@) < 0x1_0000_0000,
    ensures
        r@.map_values(|t: String| t@) == lex_of(source@),
        concat_of(r@.map_values(|t: String| t@)) == source@,
        forall|i: int| 0 <= i < r@.len() ==> (#[trigger] r@[i])@.len() > 0,
{
    let parse = ra_ap_syntax::SourceFile::parse(source, ra_ap_syntax::Edition::Edition2021);
    let mut out = Vec::new();
    for element in parse.syntax_node().descendants_with_tokens() {
        if let Some(token) = element.into_token() {
            out.push(token.text().to_string());
        }
    }
    out
}

/// Tokenize a source string. The token texts are the lexer's, in order and
/// each nonempty; each token carries the byte offset at which it starts, so
/// the offsets ascend strictly, and the tokens concatenate back to the
/// source exactly.
pub fn source_to_tokens_with_location(source: &str) -> (r: Vec<TokenWithLocation>)
    requires
        byte_len(source@) < 0x1_0000_0000,
    ensures
        token_contents(r@) == lex_of(source@),
        concat_of(token_contents(r@)) == source@,
        forall|i: int| 0 <= i < r@.len() ==> (#[trigger] r@[i]).content@.len() > 0,
        forall|i: int|
            0 <= i < r@.len() ==> #[trigger] r@[i].location as int == byte_len(
                concat_of(token_contents(r@).take(i)),
            ),
{
    let texts = lex_source(source);
    let ghost all = texts@.map_values(|t: String| t@);
    let total_bytes = source.as_bytes().len();
    proof {
        assert(total_bytes == byte_len(source@));
        assert(all.take(0) =~= Seq::<Seq<char>>::empty());
    }
    let n = texts.len();
    let mut out: Vec<TokenWithLocation> = Vec::new();
    let mut location: usize = 0;
    let mut i: usize = 0;
    while i < n
        invariant
            0 <= i <= n,
            n == texts@.len(),
            all == texts@.map_values(|t: String| t@),
            all == lex_of(source@),
            token_contents(out@) == all.take(i as int),
            out@.len() == i,
            location == byte_len(concat_of(all.take(i as int))),
            concat_of(all) == source@,
            total_bytes == byte_len(source@),
            forall|j: int|
                0 <= j < i ==> #[trigger] out@[j].location as int == byte_len(
                    concat_of(all.take(j)),
                ),
        decreases n - i,
    {
        let t = texts[i].clone();
        proof {
            assert(texts@.map_values(|x: String| x@)[i as int] == texts@[i as int]@);
            assert(t@ == all[i as int]);
            lemma_concat_of_take_succ(all, i as int);
            lemma_byte_len_concat(concat_of(all.take(i as int)), all[i as int]);
            lemma_concat_of_split(all, i + 1);
            lemma_byte_len_concat(concat_of(all.take(i + 1)), concat_of(all.skip(i + 1)));
        }
        let len = t.as_str().len();
        proof {
            assert(byte_len(concat_of(all.take(i + 1))) <= byte_len(source@));
            assert(len == byte_len(t@));
        }
        let ghost prev = out@;
        out.push(TokenWithLocation { content: t, location });
        location = location + len;
        i = i + 1;
        proof {
            assert forall|j: int| 0 <= j < i implies token_contents(out@)[j] == all.take(
                i as int,
            )[j] by {
                assert(token_contents(out@)[j] == out@[j].content@);
                if j < i - 1 {
                    assert(out@[j] == prev[j]);
                    assert(token_contents(prev)[j] == prev[j].content@);
                }
            }
            assert(token_contents(out@) =~= all.take(i as int));
        }
    }
    proof {
        assert(all.take(n as int) =~= all);
        assert(forall|j: int|
            0 <= j < n ==> #[trigger] token_contents(out@).take(j) =~= all.take(j));
        assert forall|j: int| 0 <= j < out@.len() implies (#[trigger] out@[j]).content@.len()
            > 0 by {
            assert(token_contents(out@)[j] == out@[j].content@);
            assert(texts@.map_values(|t: String| t@)[j] == texts@[j]@);
        }
    }
    out
}

/// The 1-indexed line and 0-indexed scalar column of the position at byte
/// offset `location` of `source`.
fn line_col_at(source: &str, location: usize) -> (r: (usize, usize))
    requires
        is_scalar_boundary(source@, location as int),
        source@.len() < usize::MAX,
    ensures
        r.0 == line_number(prefix_at(source@, location as int)),
        r.1 == column_number(prefix_at(source@, location as int)),
{
    let ghost s = source@;
    let ghost sw = scalars_within(s, location as int);
    proof {
        lemma_scalars_within_bounds(s, location as int);
    }
    let mut i: usize = 0;
    let mut consumed: usize = 0;
    let mut newlines: usize = 0;
    let mut col: usize = 0;
    proof {
        assert(s.take(0) =~= Seq::<char>::empty());
    }
    while consumed < location
        invariant
            0 <= i <= s.len() < usize::MAX,
            s == source@,
            sw == scalars_within(s, location as int),
            0 <= sw <= s.len(),
            is_scalar_boundary(s, location as int),
            consumed == byte_len(s.take(i as int)),
            consumed <= location,
            i <= sw,
            newlines == crate::coords::newline_count(s.take(i as int)),
            newlines <= i,
            col == column_number(s.take(i as int)),
            col <= i,
        decreases location - consumed,
    {
        proof {
            // consumed < location == byte_len(take(sw)), so i < sw <= len
            if i >= sw {
                lemma_byte_len_take_mono(s, sw, i as int);
            }
        }
        let c = source.get_char(i);
        let w = char_utf8_width(c);
        proof {
            lemma_byte_len_take_succ(s, i as int);
            lemma_byte_len_take_mono(s, i + 1, sw);
            assert(s.take(i + 1).drop_last() =~= s.take(i as int));
            assert(s.take(i + 1).last() == s[i as int]);
        }
        consumed = consumed + w;
        if c == '\n' {
            newlines = newlines + 1;
            col = 0;
        } else {
            col = col + 1;
        }
        i = i + 1;
    }
    proof {
        // byte_len(take(i)) == location == byte_len(take(sw)) forces i == sw
        if i < sw {
            lemma_byte_len_take_strict_mono(s, i as int, sw);
        }
        if sw < i {
            lemma_byte_len_take_strict_mono(s, sw, i as int);
        }
        assert(i == sw);
    }
    (newlines + 1, col)
}

/// Attach 1-indexed line and 0-indexed scalar-column coordinates to located
/// tokens: each token's position is that of the source prefix that precedes
/// its byte offset.
pub fn tokens_with_location_to_tokens_with_line_and_column(
    source: &str,
    tokens_in: Vec<TokenWithLocation>,
) -> (r: Vec<TokenWithLineColumn>)
    requires
        forall|i: int|
            0 <= i < tokens_in@.len() ==> is_scalar_boundary(
                source@,
                #[trigger] tokens_in@[i].location as int,
            ),
        source@.len() < usize::MAX,
    ensures
        r@.len() == tokens_in@.len(),
        forall|i: int|
            0 <= i < r@.len() ==> {
                &&& (#[trigger] r@[i]).content == tokens_in@[i].content
                &&& r@[i].line == line_number(prefix_at(source@, tokens_in@[i].location as int))
                &&& r@[i].column == column_number(prefix_at(source@, tokens_in@[i].location as int))
            },
{
    let ghost all = tokens_in@;
    let n = tokens_in.len();
    let mut out: Vec<TokenWithLineColumn> = Vec::new();
    let mut i: usize = 0;
    while i < n
        invariant
            0 <= i <= n,
            n == all.len(),
            tokens_in@ == all,
            out@.len() == i,
            source@.len() < usize::MAX,
            forall|j: int|
                0 <= j < all.len() ==> is_scalar_boundary(
                    source@,
                    #[trigger] all[j].location as int,
                ),
            forall|j: int|
                0 <= j < i ==> {
                    &&& (#[trigger] out@[j]).content == all[j].content
                    &&& out@[j].line == line_number(prefix_at(source@, all[j].location as int))
                    &&& out@[j].column == column_number(prefix_at(source@, all[j].location as int))
                },
        decreases n - i,
    {
        let content = tokens_in[i].content.clone();
        let location = tokens_in[i].location;
        let (line, column) = line_col_at(source, location);
        out.push(TokenWithLineColumn { content, line, column });
        i = i + 1;
    }
    out
}

} // verus!
