//! Developer-comment pipeline: from a source string to the literal sets of
//! its developer comments. Line comments are grouped by line adjacency;
//! each block comment becomes a set of its own, one literal per line.

use vstd::prelude::*;

use crate::classify::{
    classified, classify, is_block_comment_text, retained, token_with_line_column_to_token_with_type,
    retain_only_developer_comments, TokenType, TokenWithType,
};
use crate::coords::{byte_len, column_number, line_number};
use crate::literal::{
    literal_from_ok, literal_wf, CommentError, CommentVariant, TrimmedLiteral,
};
use crate::litset::{set_wf, LiteralSet};
use crate::tokens::{
    concat_of, lemma_take_is_boundary, lex_of, source_to_tokens_with_location, token_contents,
    tokens_with_location_to_tokens_with_line_and_column, lemma_concat_of_split,
};

verus! {

/// The lines of `s`, split on newline scalars; empty pieces are kept, and
/// the empty text has one empty line.
pub open spec fn split_lines(s: Seq<char>) -> Seq<Seq<char>>
    decreases s.len(),
{
    if s.len() == 0 {
        seq![Seq::<char>::empty()]
    } else if s[0] == '\n' {
        seq![Seq::<char>::empty()] + split_lines(s.drop_first())
    } else {
        let rest = split_lines(s.drop_first());
        seq![seq![s[0]] + rest[0]] + rest.drop_first()
    }
}

pub proof fn lemma_split_lines_len(s: Seq<char>)
    ensures
        split_lines(s).len() >= 1,
    decreases s.len(),
{
    if s.len() > 0 {
        lemma_split_lines_len(s.drop_first());
    }
}

/// A newline-free text is one line.
pub proof fn lemma_split_lines_whole(a: Seq<char>)
    requires
        forall|j: int| 0 <= j < a.len() ==> a[j] != '\n',
    ensures
        split_lines(a) == seq![a],
    decreases a.len(),
{
    if a.len() == 0 {
        assert(a =~= Seq::<char>::empty());
        assert(split_lines(a) =~= seq![a]);
    } else {
        lemma_split_lines_whole(a.drop_first());
        let rest = split_lines(a.drop_first());
        assert(rest == seq![a.drop_first()]);
        assert(rest[0] == a.drop_first());
        assert(rest.drop_first() =~= Seq::<Seq<char>>::empty());
        assert(seq![a[0]] + rest[0] =~= a);
        assert(split_lines(a) == seq![seq![a[0]] + rest[0]] + rest.drop_first());
        assert(seq![seq![a[0]] + rest[0]] + rest.drop_first() =~= seq![a]);
    }
}

/// Splitting at the first newline: the newline-free head becomes one line,
/// the tail splits on its own.
pub proof fn lemma_split_lines_cut(a: Seq<char>, b: Seq<char>)
    requires
        forall|j: int| 0 <= j < a.len() ==> a[j] != '\n',
    ensures
        split_lines(a + seq!['\n'] + b) == seq![a] + split_lines(b),
    decreases a.len(),
{
    let s = a + seq!['\n'] + b;
    if a.len() == 0 {
        assert(s[0] == '\n');
        assert(s.drop_first() =~= b);
        assert(a =~= Seq::<char>::empty());
        assert(split_lines(s) == seq![Seq::<char>::empty()] + split_lines(s.drop_first()));
        assert(seq![Seq::<char>::empty()] + split_lines(s.drop_first()) =~= seq![a] + split_lines(
            b,
        ));
    } else {
        assert(s[0] == a[0]);
        assert(s[0] != '\n');
        assert(s.drop_first() =~= a.drop_first() + seq!['\n'] + b);
        lemma_split_lines_cut(a.drop_first(), b);
        let rest = split_lines(s.drop_first());
        assert(rest == seq![a.drop_first()] + split_lines(b));
        assert(rest[0] == (seq![a.drop_first()] + split_lines(b))[0]);
        assert(rest[0] == a.drop_first());
        assert(rest.drop_first() =~= split_lines(b));
        assert(seq![s[0]] + rest[0] =~= a);
        assert(split_lines(s) == seq![seq![s[0]] + rest[0]] + rest.drop_first());
        assert(seq![seq![s[0]] + rest[0]] + rest.drop_first() =~= seq![a] + split_lines(b));
    }
}

/// A text that splits into one line is that line, and holds no newline.
pub proof fn lemma_split_single(s: Seq<char>)
    requires
        split_lines(s).len() == 1,
    ensures
        split_lines(s)[0] == s,
    decreases s.len(),
{
    if s.len() == 0 {
        assert(split_lines(s)[0] =~= s);
    } else if s[0] == '\n' {
        lemma_split_lines_len(s.drop_first());
        assert(false);
    } else {
        let rest = split_lines(s.drop_first());
        lemma_split_lines_len(s.drop_first());
        assert(rest.len() == 1);
        lemma_split_single(s.drop_first());
        assert(split_lines(s)[0] == seq![s[0]] + rest[0]);
        assert(seq![s[0]] + s.drop_first() =~= s);
    }
}

/// Split a string at its newline scalars.
pub(crate) fn split_on_newlines(s: &str) -> (r: Vec<String>)
    ensures
        r@.map_values(|x: String| x@) == split_lines(s@),
        r@.len() >= 1,
{
    let n = s.unicode_len();
    let mut out: Vec<String> = Vec::new();
    let mut start: usize = 0;
    let mut i: usize = 0;
    proof {
        assert(s@.skip(0) =~= s@);
    }
    while i < n
        invariant
            0 <= start <= i <= n,
            n == s@.len(),
            split_lines(s@) == out@.map_values(|x: String| x@) + split_lines(
                s@.skip(start as int),
            ),
            forall|j: int| start <= j < i ==> s@[j] != '\n',
        decreases n - i,
    {
        if s.get_char(i) == '\n' {
            let piece = s.substring_char(start, i).to_owned();
            proof {
                assert(piece@ =~= s@.subrange(start as int, i as int));
                assert(s@.skip(start as int) =~= piece@ + seq!['\n'] + s@.skip(i + 1));
                lemma_split_lines_cut(piece@, s@.skip(i + 1));
            }
            let ghost prev = out@;
            out.push(piece);
            proof {
                assert(out@.map_values(|x: String| x@) =~= prev.map_values(|x: String| x@).push(
                    piece@,
                ));
                assert(prev.map_values(|x: String| x@).push(piece@) + split_lines(s@.skip(i + 1))
                    =~= prev.map_values(|x: String| x@) + (seq![piece@] + split_lines(
                    s@.skip(i + 1),
                )));
            }
            start = i + 1;
        }
        i = i + 1;
    }
    let piece = s.substring_char(start, n).to_owned();
    proof {
        assert(piece@ =~= s@.skip(start as int));
        lemma_split_lines_whole(piece@);
    }
    let ghost prev = out@;
    out.push(piece);
    proof {
        assert(out@.map_values(|x: String| x@) =~= prev.map_values(|x: String| x@).push(piece@));
        assert(prev.map_values(|x: String| x@).push(piece@) =~= prev.map_values(|x: String| x@)
            + seq![piece@]);
    }
    out
}

/// The postfix width of a block comment's final line: two scalars when the
/// line ends with `*/`, none otherwise.
pub open spec fn block_line_post(l: Seq<char>) -> nat {
    if l.len() >= 2 && l[l.len() - 2] == '*' && l[l.len() - 1] == '/' {
        2
    } else {
        0
    }
}

/// Whether `s` ends with `*/`.
fn ends_with_block_postfix(s: &str) -> (r: bool)
    ensures
        r == (block_line_post(s@) == 2),
{
    let n = s.unicode_len();
    n >= 2 && s.get_char(n - 2) == '*' && s.get_char(n - 1) == '/'
}

/// The prefix width of the line at index `i` of a block comment.
pub open spec fn block_line_pre(i: int) -> nat {
    if i == 0 {
        2
    } else {
        0
    }
}

/// The postfix width of the line at index `i` of a block comment split into
/// `lines`: the whole `*/` for a one-line comment; for a multi-line one,
/// two scalars on the final line when it ends with `*/`, and none anywhere
/// else.
pub open spec fn block_post_at(lines: Seq<Seq<char>>, i: int) -> nat {
    if lines.len() == 1 {
        2
    } else if i == lines.len() - 1 {
        block_line_post(lines[i])
    } else {
        0
    }
}

/// The column at which the line at index `i` of a block comment starts.
pub open spec fn block_column_at(column: nat, i: int) -> nat {
    if i == 0 {
        column
    } else {
        0
    }
}

/// The conditions under which a block-comment token turns into a full
/// literal set: properly delimited text, line numbers that stay in `usize`,
/// and every line's literal construction succeeding.
pub open spec fn block_set_ok(content: Seq<char>, line: nat, column: nat) -> bool {
    let lines = split_lines(content);
    &&& is_block_comment_text(content)
    &&& line + lines.len() - 1 <= usize::MAX
    &&& (forall|i: int|
        0 <= i < lines.len() ==> literal_from_ok(
            #[trigger] lines[i],
            block_line_pre(i),
            block_post_at(lines, i),
            (line + i) as nat,
            block_column_at(column, i),
        ))
}

/// Whether `l` is the literal of the line at index `i` of the block-comment
/// token `t`.
pub open spec fn is_block_literal_of(l: TrimmedLiteral, t: TokenWithType, i: int) -> bool {
    let lines = split_lines(t.content@);
    &&& l.variant == CommentVariant::Unknown
    &&& l.raw@ == lines[i]
    &&& l.pre == block_line_pre(i)
    &&& l.post == block_post_at(lines, i)
    &&& l.line == t.line + i
    &&& l.column == block_column_at(t.column as nat, i)
    &&& literal_wf(l)
}

/// Whether `ls` is the literal set of the block-comment token `t`: one
/// literal per line of the token text.
pub open spec fn is_block_set_of(ls: LiteralSet, t: TokenWithType) -> bool {
    &&& ls.literals@.len() == split_lines(t.content@).len()
    &&& (forall|i: int|
        0 <= i < ls.literals@.len() ==> is_block_literal_of(#[trigger] ls.literals@[i], t, i))
    &&& set_wf(ls.literals@)
}

/// Appending the literal of the next block-comment line keeps the set
/// valid and adjacent.
proof fn lemma_block_extend(prev: Seq<TrimmedLiteral>, lit: TrimmedLiteral, t: TokenWithType, i: int)
    requires
        prev.len() == i,
        i >= 1,
        forall|j: int| 0 <= j < i ==> is_block_literal_of(#[trigger] prev[j], t, j),
        is_block_literal_of(lit, t, i),
        set_wf(prev),
    ensures
        lit.line == prev.last().line + 1,
        set_wf(prev.push(lit)),
        forall|j: int| 0 <= j < i + 1 ==> is_block_literal_of(#[trigger] prev.push(lit)[j], t, j),
{
    assert(is_block_literal_of(prev[i - 1], t, i - 1));
    assert(forall|j: int| 0 <= j < i ==> prev.push(lit)[j] == prev[j]);
    assert(prev.push(lit)[i as int] == lit);
}

/// Attempt to build a literal set from a block-comment token: one literal
/// per line, the first with the `/*` prefix trimmed, the last with the `*/`
/// postfix trimmed when it carries one. Fails when the token is not a
/// properly delimited block comment or a line's literal cannot be built.
#[verifier::rlimit(100)]
#[verifier::spinoff_prover]
pub fn literal_set_from_block_comment(token: &TokenWithType) -> (r: Result<
    LiteralSet,
    CommentError,
>)
    ensures
        r is Ok <==> (token.kind == TokenType::BlockComment && block_set_ok(
            token.content@,
            token.line as nat,
            token.column as nat,
        )),
        r matches Ok(ls) ==> is_block_set_of(ls, *token),
{
    let ghost lines_spec = split_lines(token.content@);
    match token.kind {
        TokenType::BlockComment => (),
        _ => {
            return Err(CommentError::WrongTokenKind);
        },
    }
    if !crate::classify::content_is_block_comment(token.content.as_str()) {
        return Err(CommentError::ImproperlyDelimited);
    }
    let lines = split_on_newlines(token.content.as_str());
    let count = lines.len();
    proof {
        assert(lines@.map_values(|x: String| x@).len() == count);
    }
    if count - 1 > usize::MAX - token.line {
        return Err(CommentError::PositionArithmeticWrapped);
    }
    if count == 1 {
        proof {
            assert(lines@.map_values(|x: String| x@)[0] == lines@[0]@);
            lemma_split_single(token.content@);
            assert(lines@[0]@ == token.content@);
            assert(block_post_at(lines_spec, 0) == 2);
        }
        let literal = match TrimmedLiteral::from(
            CommentVariant::Unknown,
            lines[0].as_str(),
            token.kind.pre_in_chars(),
            token.kind.post_in_chars(),
            token.line,
            token.column,
        ) {
            Err(e) => {
                proof {
                    assert(!literal_from_ok(lines_spec[0], 2, 2, token.line as nat, token.column as nat));
                }
                return Err(e);
            },
            Ok(l) => l,
        };
        let set = LiteralSet::from(literal);
        proof {
            assert(set.literals@.len() == 1);
            assert(is_block_literal_of(set.literals@[0], *token, 0));
            assert forall|i2: int| 0 <= i2 < lines_spec.len() implies literal_from_ok(
                #[trigger] lines_spec[i2],
                block_line_pre(i2),
                block_post_at(lines_spec, i2),
                (token.line + i2) as nat,
                block_column_at(token.column as nat, i2),
            ) by {
                assert(i2 == 0);
            }
        }
        Ok(set)
    } else {
        proof {
            assert(lines@.map_values(|x: String| x@)[0] == lines@[0]@);
            assert(block_post_at(lines_spec, 0) == 0);
            assert(block_line_pre(0) == 2);
        }
        let first = match TrimmedLiteral::from(
            CommentVariant::Unknown,
            lines[0].as_str(),
            token.kind.pre_in_chars(),
            0,
            token.line,
            token.column,
        ) {
            Err(e) => {
                proof {
                    assert(!literal_from_ok(lines_spec[0], 2, 0, token.line as nat, token.column as nat));
                }
                return Err(e);
            },
            Ok(l) => l,
        };
        let mut set = LiteralSet::from(first);
        let mut i: usize = 1;
        while i < count
            invariant
                1 <= i <= count,
                count == lines@.len(),
                count >= 2,
                lines@.map_values(|x: String| x@) == lines_spec,
                lines_spec == split_lines(token.content@),
                token.kind == TokenType::BlockComment,
                count - 1 <= usize::MAX - token.line,
                set.literals@.len() == i,
                set_wf(set.literals@),
                forall|j: int|
                    0 <= j < i ==> is_block_literal_of(#[trigger] set.literals@[j], *token, j),
            decreases count - i,
        {
            proof {
                assert(lines@.map_values(|x: String| x@)[i as int] == lines@[i as int]@);
                assert(block_line_pre(i as int) == 0);
                if i + 1 == count {
                    assert(block_post_at(lines_spec, i as int) == block_line_post(
                        lines_spec[i as int],
                    ));
                } else {
                    assert(block_post_at(lines_spec, i as int) == 0);
                }
            }
            let post = if i + 1 == count && ends_with_block_postfix(lines[i].as_str()) {
                token.kind.post_in_chars()
            } else {
                0
            };
            let line_number = token.line + i;
            proof {
                assert(post as nat == block_post_at(lines_spec, i as int));
            }
            let literal = match TrimmedLiteral::from(
                CommentVariant::Unknown,
                lines[i].as_str(),
                0,
                post,
                line_number,
                0,
            ) {
                Err(e) => {
                    proof {
                        assert(!literal_from_ok(
                            lines_spec[i as int],
                            block_line_pre(i as int),
                            block_post_at(lines_spec, i as int),
                            (token.line + i) as nat,
                            block_column_at(token.column as nat, i as int),
                        ));
                    }
                    return Err(e);
                },
                Ok(l) => l,
            };
            let ghost prev_lits = set.literals@;
            proof {
                assert(is_block_literal_of(literal, *token, i as int));
                lemma_block_extend(prev_lits, literal, *token, i as int);
            }
            match set.add_adjacent(literal) {
                Ok(_) => (),
                Err(_) => {
                    proof {
                        assert(false);
                    }
                    return Err(CommentError::ImproperlyDelimited);
                },
            }
            i = i + 1;
        }
        proof {
            assert forall|i2: int| 0 <= i2 < lines_spec.len() implies literal_from_ok(
                #[trigger] lines_spec[i2],
                block_line_pre(i2),
                block_post_at(lines_spec, i2),
                (token.line + i2) as nat,
                block_column_at(token.column as nat, i2),
            ) by {
                assert(is_block_literal_of(set.literals@[i2], *token, i2));
            }
        }
        Ok(set)
    }
}

/// Whether `l` is the literal of the line-comment token `t`: the `//`
/// prefix trimmed, nothing trimmed at the back.
pub open spec fn is_line_literal_of(l: TrimmedLiteral, t: TokenWithType) -> bool {
    &&& l.variant == CommentVariant::Unknown
    &&& l.raw@ == t.content@
    &&& l.pre == 2
    &&& l.post == 0
    &&& l.line == t.line
    &&& l.column == t.column
    &&& literal_wf(l)
}

/// Attempt to build a literal from a line-comment token. Fails when the
/// token is of another kind or the literal construction fails.
pub fn literal_from_line_comment(token: &TokenWithType) -> (r: Result<TrimmedLiteral,
    CommentError,
>)
    ensures
        r is Ok <==> (token.kind == TokenType::LineComment && literal_from_ok(
            token.content@,
            2,
            0,
            token.line as nat,
            token.column as nat,
        )),
        r matches Ok(l) ==> is_line_literal_of(l, *token),
{
    match token.kind {
        TokenType::LineComment => TrimmedLiteral::from(
            CommentVariant::Unknown,
            token.content.as_str(),
            token.kind.pre_in_chars(),
            token.kind.post_in_chars(),
            token.line,
            token.column,
        ),
        _ => Err(CommentError::WrongTokenKind),
    }
}

/// Whether a token is a line comment that yields a literal.
pub open spec fn line_kept(t: TokenWithType) -> bool {
    t.kind == TokenType::LineComment && literal_from_ok(
        t.content@,
        2,
        0,
        t.line as nat,
        t.column as nat,
    )
}

/// The kept line-comment tokens grouped into runs of consecutive lines: a
/// token joins the last group exactly when its line is one below the
/// group's last line.
pub open spec fn line_comment_groups(ts: Seq<TokenWithType>) -> Seq<Seq<TokenWithType>>
    decreases ts.len(),
{
    if ts.len() == 0 {
        Seq::<Seq<TokenWithType>>::empty()
    } else {
        let prev = line_comment_groups(ts.drop_last());
        let t = ts.last();
        if line_kept(t) {
            if prev.len() > 0 && t.line == prev.last().last().line + 1 {
                prev.update(prev.len() - 1, prev.last().push(t))
            } else {
                prev.push(seq![t])
            }
        } else {
            prev
        }
    }
}

/// Whether the sets `r` are, set for set and literal for literal, the
/// literals of the token groups `groups`.
pub open spec fn sets_match_groups(r: Seq<LiteralSet>, groups: Seq<Seq<TokenWithType>>) -> bool {
    &&& r.len() == groups.len()
    &&& (forall|g: int|
        0 <= g < r.len() ==> (#[trigger] r[g]).literals@.len() == groups[g].len())
    &&& (forall|g: int, k: int|
        0 <= g < r.len() && 0 <= k < groups[g].len() ==> is_line_literal_of(
            #[trigger] r[g].literals@[k],
            groups[g][k],
        ))
    &&& (forall|g: int| 0 <= g < r.len() ==> set_wf((#[trigger] r[g]).literals@))
}

/// Whether the sets `r` are exactly the literal sets of the line-comment
/// groups of `ts`.
pub open spec fn are_line_comment_sets(r: Seq<LiteralSet>, ts: Seq<TokenWithType>) -> bool {
    sets_match_groups(r, line_comment_groups(ts))
}

/// One grouping step: how the groups of a prefix grow by its next token.
proof fn lemma_groups_step(ts: Seq<TokenWithType>, i: int)
    requires
        0 <= i < ts.len(),
    ensures
        line_comment_groups(ts.take(i + 1)) == ({
            let prev = line_comment_groups(ts.take(i));
            let t = ts[i];
            if line_kept(t) {
                if prev.len() > 0 && t.line == prev.last().last().line + 1 {
                    prev.update(prev.len() - 1, prev.last().push(t))
                } else {
                    prev.push(seq![t])
                }
            } else {
                prev
            }
        }),
{
    assert(ts.take(i + 1).drop_last() =~= ts.take(i));
    assert(ts.take(i + 1).last() == ts[i]);
}

/// Putting back a set with the very same literals keeps the match.
proof fn lemma_match_replace_last(r: Seq<LiteralSet>, groups: Seq<Seq<TokenWithType>>, s: LiteralSet)
    requires
        sets_match_groups(r, groups),
        r.len() > 0,
        s.literals@ == r.last().literals@,
    ensures
        sets_match_groups(r.update(r.len() - 1, s), groups),
{
    let r2 = r.update(r.len() - 1, s);
    assert(forall|g: int| 0 <= g < r.len() - 1 ==> r2[g] == r[g]);
    assert(r2[r.len() - 1] == s);
    assert forall|g: int, k: int|
        0 <= g < r2.len() && 0 <= k < groups[g].len() implies is_line_literal_of(
        #[trigger] r2[g].literals@[k],
        groups[g][k],
    ) by {
        assert(is_line_literal_of(r[g].literals@[k], groups[g][k]));
    }
}

/// Opening a new one-literal set keeps the sets matching the groups.
proof fn lemma_match_push(
    r: Seq<LiteralSet>,
    groups: Seq<Seq<TokenWithType>>,
    s: LiteralSet,
    lit: TrimmedLiteral,
    t: TokenWithType,
)
    requires
        sets_match_groups(r, groups),
        s.literals@ == seq![lit],
        is_line_literal_of(lit, t),
        set_wf(s.literals@),
    ensures
        sets_match_groups(r.push(s), groups.push(seq![t])),
{
    let r2 = r.push(s);
    let g2 = groups.push(seq![t]);
    assert(forall|g: int| 0 <= g < r.len() ==> r2[g] == r[g] && g2[g] == groups[g]);
    assert(r2[r.len() as int] == s);
    assert(g2[groups.len() as int] == seq![t]);
    assert(s.literals@[0] == lit);
    assert forall|g: int, k: int|
        0 <= g < r2.len() && 0 <= k < g2[g].len() implies is_line_literal_of(
        #[trigger] r2[g].literals@[k],
        g2[g][k],
    ) by {
        if g < r.len() {
            assert(is_line_literal_of(r[g].literals@[k], groups[g][k]));
        } else {
            assert(g2[g][k] == t);
            assert(r2[g].literals@[k] == lit);
        }
    }
}

/// Appending an adjacent literal to the last set keeps the sets matching
/// the groups.
#[verifier::rlimit(100)]
#[verifier::spinoff_prover]
proof fn lemma_match_update(
    r: Seq<LiteralSet>,
    groups: Seq<Seq<TokenWithType>>,
    s2: LiteralSet,
    lit: TrimmedLiteral,
    t: TokenWithType,
)
    requires
        sets_match_groups(r, groups),
        r.len() > 0,
        s2.literals@ == r.last().literals@.push(lit),
        is_line_literal_of(lit, t),
        set_wf(s2.literals@),
    ensures
        sets_match_groups(
            r.update(r.len() - 1, s2),
            groups.update(groups.len() - 1, groups.last().push(t)),
        ),
{
    let r2 = r.update(r.len() - 1, s2);
    let g2 = groups.update(groups.len() - 1, groups.last().push(t));
    assert(forall|g: int| 0 <= g < r.len() - 1 ==> r2[g] == r[g] && g2[g] == groups[g]);
    assert(r2[r.len() - 1] == s2);
    assert(g2[groups.len() - 1] == groups.last().push(t));
    assert forall|g: int, k: int|
        0 <= g < r2.len() && 0 <= k < g2[g].len() implies is_line_literal_of(
        #[trigger] r2[g].literals@[k],
        g2[g][k],
    ) by {
        if g < r.len() - 1 {
            assert(is_line_literal_of(r[g].literals@[k], groups[g][k]));
        } else {
            if k < groups.last().len() {
                assert(r2[g].literals@[k] == r.last().literals@[k]);
                assert(g2[g][k] == groups.last()[k]);
                assert(is_line_literal_of(r.last().literals@[k], groups.last()[k]));
            } else {
                assert(r2[g].literals@[k] == lit);
                assert(g2[g][k] == t);
            }
        }
    }
}

/// Group the line-comment tokens of the input into literal sets: a new set
/// opens whenever a literal is not line-adjacent to the current set. Tokens
/// of other kinds, and tokens whose literal cannot be built, are skipped.
#[verifier::rlimit(100)]
#[verifier::spinoff_prover]
pub fn literal_sets_from_line_comments(tokens: &Vec<TokenWithType>) -> (r: Vec<LiteralSet>)
    ensures
        are_line_comment_sets(r@, tokens@),
{
    let ghost all = tokens@;
    let n = tokens.len();
    let mut sets: Vec<LiteralSet> = Vec::new();
    let mut i: usize = 0;
    proof {
        assert(all.take(0) =~= Seq::<TokenWithType>::empty());
    }
    while i < n
        invariant
            0 <= i <= n,
            n == all.len(),
            tokens@ == all,
            sets_match_groups(sets@, line_comment_groups(all.take(i as int))),
        decreases n - i,
    {
        let token = &tokens[i];
        proof {
            lemma_groups_step(all, i as int);
        }
        let keep = match token.kind {
            TokenType::LineComment => true,
            _ => false,
        };
        let ghost groups_prev = line_comment_groups(all.take(i as int));
        if keep {
            match literal_from_line_comment(token) {
                Err(_) => {
                    proof {
                        assert(!line_kept(all[i as int]));
                    }
                },
                Ok(literal) => {
                    proof {
                        assert(line_kept(all[i as int]));
                        assert(is_line_literal_of(literal, all[i as int]));
                    }
                    let ghost prev_sets = sets@;
                    match sets.pop() {
                        None => {
                            let fresh = LiteralSet::from(literal);
                            sets.push(fresh);
                            proof {
                                assert(sets@ =~= prev_sets.push(fresh));
                                lemma_match_push(
                                    prev_sets,
                                    groups_prev,
                                    fresh,
                                    literal,
                                    all[i as int],
                                );
                            }
                        },
                        Some(mut s) => {
                            proof {
                                assert(prev_sets.len() == groups_prev.len());
                                assert(s == prev_sets.last());
                                assert(is_line_literal_of(
                                    s.literals@.last(),
                                    groups_prev.last().last(),
                                ));
                            }
                            match s.add_adjacent(literal) {
                                Err(lit2) => {
                                    proof {
                                        assert(all[i as int].line != groups_prev.last().last().line
                                            + 1);
                                    }
                                    sets.push(s);
                                    let ghost put_back = sets@;
                                    let fresh = LiteralSet::from(lit2);
                                    sets.push(fresh);
                                    proof {
                                        assert(put_back =~= prev_sets.update(
                                            prev_sets.len() - 1,
                                            s,
                                        ));
                                        lemma_match_replace_last(prev_sets, groups_prev, s);
                                        assert(sets@ =~= put_back.push(fresh));
                                        lemma_match_push(
                                            put_back,
                                            groups_prev,
                                            fresh,
                                            lit2,
                                            all[i as int],
                                        );
                                    }
                                },
                                Ok(_) => {
                                    proof {
                                        assert(all[i as int].line == groups_prev.last().last().line
                                            + 1);
                                    }
                                    sets.push(s);
                                    proof {
                                        assert(sets@ =~= prev_sets.update(
                                            prev_sets.len() - 1,
                                            s,
                                        ));
                                        lemma_match_update(
                                            prev_sets,
                                            groups_prev,
                                            s,
                                            literal,
                                            all[i as int],
                                        );
                                    }
                                },
                            }
                        },
                    }
                },
            }
        } else {
            proof {
                assert(!line_kept(all[i as int]));
            }
        }
        i = i + 1;
    }
    proof {
        assert(all.take(n as int) =~= all);
    }
    sets
}

/// The block-comment tokens of `ts` that yield a full literal set.
pub open spec fn ok_block_tokens(ts: Seq<TokenWithType>) -> Seq<TokenWithType>
    decreases ts.len(),
{
    if ts.len() == 0 {
        Seq::<TokenWithType>::empty()
    } else {
        let prev = ok_block_tokens(ts.drop_last());
        let t = ts.last();
        if t.kind == TokenType::BlockComment && block_set_ok(
            t.content@,
            t.line as nat,
            t.column as nat,
        ) {
            prev.push(t)
        } else {
            prev
        }
    }
}

/// Dropping the `Other` tokens changes neither the line-comment groups nor
/// the usable block-comment tokens.
pub proof fn lemma_retained_same_comments(ts: Seq<TokenWithType>)
    ensures
        line_comment_groups(retained(ts)) == line_comment_groups(ts),
        ok_block_tokens(retained(ts)) == ok_block_tokens(ts),
    decreases ts.len(),
{
    if ts.len() > 0 {
        lemma_retained_same_comments(ts.drop_last());
        let t = ts.last();
        if t.kind != TokenType::Other {
            assert(retained(ts) == retained(ts.drop_last()).push(t));
            assert(retained(ts).drop_last() =~= retained(ts.drop_last()));
            assert(retained(ts).last() == t);
        } else {
            assert(retained(ts) == retained(ts.drop_last()));
            assert(!line_kept(t));
        }
    }
}

/// Whether `toks` are the classified, located tokens of `source`: the texts
/// the lexer yields, each tagged with its kind and with the line and column
/// of the source prefix before it.
pub open spec fn located_tokens_match(toks: Seq<TokenWithType>, source: Seq<char>) -> bool {
    &&& toks.len() == lex_of(source).len()
    &&& (forall|i: int|
        0 <= i < toks.len() ==> {
            let prefix = concat_of(lex_of(source).take(i));
            &&& (#[trigger] toks[i]).content@ == lex_of(source)[i]
            &&& toks[i].kind == classify(lex_of(source)[i])
            &&& toks[i].line == line_number(prefix)
            &&& toks[i].column == column_number(prefix)
        })
}

/// Whether `r` is the full extraction for `source` through the classified
/// tokens `toks`: the line-comment sets in source order, then one set per
/// usable block comment, in source order.
pub open spec fn extraction_of(r: Seq<LiteralSet>, toks: Seq<TokenWithType>, source: Seq<char>) -> bool {
    let groups = line_comment_groups(toks);
    let blocks = ok_block_tokens(toks);
    &&& located_tokens_match(toks, source)
    &&& r.len() == groups.len() + blocks.len()
    &&& sets_match_groups(r.take(groups.len() as int), groups)
    &&& (forall|b: int|
        0 <= b < blocks.len() ==> is_block_set_of(#[trigger] r[groups.len() + b], blocks[b]))
}

/// How the usable block tokens of a prefix grow by its next token.
proof fn lemma_ok_blocks_step(ts: Seq<TokenWithType>, i: int)
    requires
        0 <= i < ts.len(),
    ensures
        ok_block_tokens(ts.take(i + 1)) == ({
            let prev = ok_block_tokens(ts.take(i));
            let t = ts[i];
            if t.kind == TokenType::BlockComment && block_set_ok(
                t.content@,
                t.line as nat,
                t.column as nat,
            ) {
                prev.push(t)
            } else {
                prev
            }
        }),
{
    assert(ts.take(i + 1).drop_last() =~= ts.take(i));
    assert(ts.take(i + 1).last() == ts[i]);
}

/// The complete pipeline: tokenize the source, attach coordinates, classify,
/// keep the developer comments, and build the literal sets: the line-comment
/// sets in source order, then one set for each usable block comment.
#[verifier::rlimit(100)]
pub fn extract_developer_comments(source: &str) -> (r: Vec<LiteralSet>)
    requires
        source@.len() < usize::MAX,
        byte_len(source@) < 0x1_0000_0000,
    ensures
        exists|toks: Seq<TokenWithType>| extraction_of(r@, toks, source@),
{
    let located = source_to_tokens_with_location(source);
    let ghost texts = lex_of(source@);
    let ghost located_view = located@;
    proof {
        assert forall|i: int| 0 <= i < located_view.len() implies crate::tokens::is_scalar_boundary(
            source@,
            #[trigger] located_view[i].location as int,
        ) by {
            lemma_concat_of_split(token_contents(located_view), i);
            let p = concat_of(token_contents(located_view).take(i));
            assert(source@.take(p.len() as int) =~= p);
            lemma_take_is_boundary(source@, p.len() as int);
        }
    }
    let with_coords = tokens_with_location_to_tokens_with_line_and_column(source, located);
    let tagged = token_with_line_column_to_token_with_type(with_coords);
    let ghost toks = tagged@;
    proof {
        assert forall|i: int| 0 <= i < toks.len() implies {
            let prefix = concat_of(lex_of(source@).take(i));
            &&& (#[trigger] toks[i]).content@ == lex_of(source@)[i]
            &&& toks[i].kind == classify(lex_of(source@)[i])
            &&& toks[i].line == line_number(prefix)
            &&& toks[i].column == column_number(prefix)
        } by {
            assert(classified(with_coords@)[i] == TokenWithType {
                kind: classify(with_coords@[i].content@),
                content: with_coords@[i].content,
                line: with_coords@[i].line,
                column: with_coords@[i].column,
            });
            assert(token_contents(located_view)[i] == located_view[i].content@);
            lemma_concat_of_split(token_contents(located_view), i);
            let p = concat_of(token_contents(located_view).take(i));
            assert(source@.take(p.len() as int) =~= p);
            lemma_take_is_boundary(source@, p.len() as int);
        }
        assert(located_tokens_match(toks, source@));
    }
    let tokens = retain_only_developer_comments(tagged);
    let ghost kept = tokens@;
    proof {
        lemma_retained_same_comments(toks);
    }
    let mut literal_sets = literal_sets_from_line_comments(&tokens);
    let ghost groups = line_comment_groups(kept);
    let ghost line_sets = literal_sets@;
    let ghost blocks = ok_block_tokens(kept);
    let n = tokens.len();
    let mut i: usize = 0;
    proof {
        assert(kept.take(0) =~= Seq::<TokenWithType>::empty());
    }
    while i < n
        invariant
            0 <= i <= n,
            n == kept.len(),
            tokens@ == kept,
            literal_sets@.len() == line_sets.len() + ok_block_tokens(kept.take(i as int)).len(),
            literal_sets@.take(line_sets.len() as int) == line_sets,
            forall|b: int|
                0 <= b < ok_block_tokens(kept.take(i as int)).len() ==> is_block_set_of(
                    #[trigger] literal_sets@[line_sets.len() + b],
                    ok_block_tokens(kept.take(i as int))[b],
                ),
        decreases n - i,
    {
        let token = &tokens[i];
        proof {
            lemma_ok_blocks_step(kept, i as int);
        }
        let is_block = match token.kind {
            TokenType::BlockComment => true,
            _ => false,
        };
        if is_block {
            match literal_set_from_block_comment(token) {
                Ok(ls) => {
                    let ghost prev = literal_sets@;
                    literal_sets.push(ls);
                    proof {
                        assert(literal_sets@.take(line_sets.len() as int) =~= prev.take(
                            line_sets.len() as int,
                        ));
                        assert(ok_block_tokens(kept.take(i + 1)) == ok_block_tokens(
                            kept.take(i as int),
                        ).push(kept[i as int]));
                    }
                },
                Err(_) => (),
            }
        }
        i = i + 1;
    }
    proof {
        assert(kept.take(n as int) =~= kept);
        assert(extraction_of(literal_sets@, toks, source@));
    }
    literal_sets
}

} // verus!

