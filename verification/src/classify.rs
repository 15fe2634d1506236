//! Comment classifier: tags a token as a developer block comment, a developer
//! line comment, or something else. Doc-comment variants (`///`, `//!`,
//! `/** */`, `/*! */`) are never developer comments; classification is a
//! pure function of the token text.

use vstd::prelude::*;

use crate::tokens::TokenWithLineColumn;

verus! {

/// The kind of a token: developer block comment, developer line comment, or
/// anything else.
#[derive(Clone, Copy, Debug, PartialEq, Eq, Structural)]
pub enum TokenType {
    BlockComment,
    LineComment,
    Other,
}

/// Block-comment text: delimited by `/*` and `*/`, with anything (newlines
/// included) between the delimiters — except the doc variants. `/*!` opens
/// an inner doc comment, and `/**` whose next scalar is neither `*` nor `/`
/// opens an outer one, so `/**/` and `/***/` stay ordinary.
pub open spec fn is_block_comment_text(s: Seq<char>) -> bool {
    &&& s.len() >= 4
    &&& s[0] == '/'
    &&& s[1] == '*'
    &&& s[s.len() - 2] == '*'
    &&& s[s.len() - 1] == '/'
    &&& s[2] != '!'
    &&& !(s[2] == '*' && s[3] != '*' && s[3] != '/')
}

/// Line-comment text: starts with `//`, the next scalar is neither `/` nor
/// `!` (those open doc comments), and no newline follows.
pub open spec fn is_line_comment_text(s: Seq<char>) -> bool {
    &&& s.len() >= 3
    &&& s[0] == '/'
    &&& s[1] == '/'
    &&& s[2] != '/'
    &&& s[2] != '!'
    &&& (forall|i: int| 3 <= i < s.len() ==> s[i] != '\n')
}

/// The kind assigned to a token with the given text.
pub open spec fn classify(s: Seq<char>) -> TokenType {
    if is_block_comment_text(s) {
        TokenType::BlockComment
    } else if is_line_comment_text(s) {
        TokenType::LineComment
    } else {
        TokenType::Other
    }
}

/// The prefix delimiter scalars of a token kind.
pub open spec fn spec_pre(t: TokenType) -> Seq<char> {
    match t {
        TokenType::BlockComment => seq!['/', '*'],
        TokenType::LineComment => seq!['/', '/'],
        TokenType::Other => Seq::<char>::empty(),
    }
}

/// The postfix delimiter scalars of a token kind.
pub open spec fn spec_post(t: TokenType) -> Seq<char> {
    match t {
        TokenType::BlockComment => seq!['*', '/'],
        TokenType::LineComment => Seq::<char>::empty(),
        TokenType::Other => Seq::<char>::empty(),
    }
}

impl TokenType {
    /// The prefix delimiter for this kind of token.
    pub fn pre(&self) -> (r: &str)
        ensures
            r@ == spec_pre(*self),
    {
        match self {
            TokenType::BlockComment => {
                let s = "/*";
                proof {
                    reveal_strlit("/*");
                    assert(s@ =~= spec_pre(TokenType::BlockComment));
                }
                s
            },
            TokenType::LineComment => {
                let s = "//";
                proof {
                    reveal_strlit("//");
                    assert(s@ =~= spec_pre(TokenType::LineComment));
                }
                s
            },
            TokenType::Other => {
                let s = "";
                proof {
                    reveal_strlit("");
                    assert(s@ =~= spec_pre(TokenType::Other));
                }
                s
            },
        }
    }

    /// The postfix delimiter for this kind of token.
    pub fn post(&self) -> (r: &str)
        ensures
            r@ == spec_post(*self),
    {
        match self {
            TokenType::BlockComment => {
                let s = "*/";
                proof {
                    reveal_strlit("*/");
                    assert(s@ =~= spec_post(TokenType::BlockComment));
                }
                s
            },
            TokenType::LineComment => {
                let s = "";
                proof {
                    reveal_strlit("");
                    assert(s@ =~= spec_post(TokenType::LineComment));
                }
                s
            },
            TokenType::Other => {
                let s = "";
                proof {
                    reveal_strlit("");
                    assert(s@ =~= spec_post(TokenType::Other));
                }
                s
            },
        }
    }

    /// The kind, described in words.
    pub fn describe(&self) -> (r: String)
        ensures
            *self == TokenType::BlockComment ==> r@ == "developer block comment"@,
            *self == TokenType::LineComment ==> r@ == "developer line comment"@,
            *self == TokenType::Other ==> r@ == "not a developer comment"@,
    {
        match self {
            TokenType::BlockComment => String::from_str("developer block comment"),
            TokenType::LineComment => String::from_str("developer line comment"),
            TokenType::Other => String::from_str("not a developer comment"),
        }
    }

    /// The scalar length of the prefix delimiter.
    pub fn pre_in_chars(&self) -> (n: usize)
        ensures
            n == spec_pre(*self).len(),
    {
        match self {
            TokenType::BlockComment => 2,
            TokenType::LineComment => 2,
            TokenType::Other => 0,
        }
    }

    /// The scalar length of the postfix delimiter.
    pub fn post_in_chars(&self) -> (n: usize)
        ensures
            n == spec_post(*self).len(),
    {
        match self {
            TokenType::BlockComment => 2,
            TokenType::LineComment => 0,
            TokenType::Other => 0,
        }
    }
}

/// Decides whether `s` is developer block-comment text.
pub(crate) fn content_is_block_comment(s: &str) -> (r: bool)
    ensures
        r == is_block_comment_text(s@),
{
    let n = s.unicode_len();
    if n < 4 {
        return false;
    }
    if s.get_char(0) != '/' || s.get_char(1) != '*' || s.get_char(n - 2) != '*' || s.get_char(
        n - 1,
    ) != '/' {
        return false;
    }
    let third = s.get_char(2);
    if third == '!' {
        return false;
    }
    if third == '*' {
        let fourth = s.get_char(3);
        if fourth != '*' && fourth != '/' {
            return false;
        }
    }
    true
}

/// Decides whether `s` is developer line-comment text.
fn content_is_line_comment(s: &str) -> (r: bool)
    ensures
        r == is_line_comment_text(s@),
{
    let n = s.unicode_len();
    if n < 3 {
        return false;
    }
    if s.get_char(0) != '/' || s.get_char(1) != '/' {
        return false;
    }
    let third = s.get_char(2);
    if third == '/' || third == '!' {
        return false;
    }
    let mut i: usize = 3;
    while i < n
        invariant
            3 <= i <= n,
            n == s@.len(),
            forall|j: int| 3 <= j < i ==> s@[j] != '\n',
        decreases n - i,
    {
        if s.get_char(i) == '\n' {
            return false;
        }
        i = i + 1;
    }
    true
}

/// A token tagged with its kind and the line and column of its first scalar.
#[derive(Debug)]
pub struct TokenWithType {
    /// Is the token a developer block comment, a developer line comment, or
    /// something else.
    pub kind: TokenType,
    /// The full text of the token, delimiters included.
    pub content: String,
    /// 1-indexed first line of the token.
    pub line: usize,
    /// 0-indexed column, in scalars, of the token's first scalar.
    pub column: usize,
}

impl TokenWithType {
    /// Tag a located token with its kind, worked out from the token text
    /// alone.
    pub fn from(token: TokenWithLineColumn) -> (r: Self)
        ensures
            r.kind == classify(token.content@),
            r.content == token.content,
            r.line == token.line,
            r.column == token.column,
    {
        let kind = if content_is_block_comment(token.content.as_str()) {
            TokenType::BlockComment
        } else if content_is_line_comment(token.content.as_str()) {
            TokenType::LineComment
        } else {
            TokenType::Other
        };
        TokenWithType { kind, content: token.content, line: token.line, column: token.column }
    }
}

/// The classified counterparts of a sequence of located tokens.
pub open spec fn classified(ts: Seq<TokenWithLineColumn>) -> Seq<TokenWithType> {
    ts.map_values(
        |t: TokenWithLineColumn|
            TokenWithType {
                kind: classify(t.content@),
                content: t.content,
                line: t.line,
                column: t.column,
            },
    )
}

/// Classify every token of a sequence.
pub fn token_with_line_column_to_token_with_type(tokens_in: Vec<TokenWithLineColumn>) -> (r: Vec<
    TokenWithType,
>)
    ensures
        r@ == classified(tokens_in@),
{
    let ghost all = tokens_in@;
    let n = tokens_in.len();
    let mut out: Vec<TokenWithType> = Vec::new();
    let mut i: usize = 0;
    while i < n
        invariant
            0 <= i <= n,
            n == all.len(),
            tokens_in@ == all,
            out@ == classified(all.take(i as int)),
        decreases n - i,
    {
        let t = TokenWithLineColumn {
            content: tokens_in[i].content.clone(),
            line: tokens_in[i].line,
            column: tokens_in[i].column,
        };
        proof {
            assert(t == all[i as int]);
        }
        let tagged = TokenWithType::from(t);
        let ghost prev = out@;
        out.push(tagged);
        i = i + 1;
        proof {
            assert forall|j: int| 0 <= j < i implies out@[j] == classified(
                all.take(i as int),
            )[j] by {
                assert(classified(all.take(i as int))[j] == TokenWithType {
                    kind: classify(all.take(i as int)[j].content@),
                    content: all.take(i as int)[j].content,
                    line: all.take(i as int)[j].line,
                    column: all.take(i as int)[j].column,
                });
                if j < i - 1 {
                    assert(out@[j] == prev[j]);
                    assert(classified(all.take(i - 1))[j] == TokenWithType {
                        kind: classify(all.take(i - 1)[j].content@),
                        content: all.take(i - 1)[j].content,
                        line: all.take(i - 1)[j].line,
                        column: all.take(i - 1)[j].column,
                    });
                }
            }
            assert(out@ =~= classified(all.take(i as int)));
        }
    }
    proof {
        assert(all.take(n as int) =~= all);
    }
    out
}

/// The developer-comment tokens of a classified sequence, in order: every
/// `Other` token is dropped, the rest are kept.
pub open spec fn retained(ts: Seq<TokenWithType>) -> Seq<TokenWithType>
    decreases ts.len(),
{
    if ts.len() == 0 {
        Seq::<TokenWithType>::empty()
    } else if ts.last().kind != TokenType::Other {
        retained(ts.drop_last()).push(ts.last())
    } else {
        retained(ts.drop_last())
    }
}

/// Keep only the developer-comment tokens: every `Other` token is dropped.
pub fn retain_only_developer_comments(tokens: Vec<TokenWithType>) -> (r: Vec<TokenWithType>)
    ensures
        r@ == retained(tokens@),
{
    let ghost all = tokens@;
    let n = tokens.len();
    let mut out: Vec<TokenWithType> = Vec::new();
    let mut i: usize = 0;
    proof {
        assert(all.take(0) =~= Seq::<TokenWithType>::empty());
    }
    while i < n
        invariant
            0 <= i <= n,
            n == all.len(),
            tokens@ == all,
            out@ == retained(all.take(i as int)),
        decreases n - i,
    {
        let t = TokenWithType {
            kind: tokens[i].kind,
            content: tokens[i].content.clone(),
            line: tokens[i].line,
            column: tokens[i].column,
        };
        proof {
            assert(t == all[i as int]);
            assert(all.take(i + 1).drop_last() =~= all.take(i as int));
            assert(all.take(i + 1).last() == all[i as int]);
        }
        let keep = match t.kind {
            TokenType::Other => false,
            _ => true,
        };
        if keep {
            out.push(t);
        }
        i = i + 1;
        proof {
            assert(out@ =~= retained(all.take(i as int)));
        }
    }
    proof {
        assert(all.take(n as int) =~= all);
    }
    out
}

} // verus!
