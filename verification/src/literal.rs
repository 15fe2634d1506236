//! A trimmed literal: one contiguous line of developer-comment content with
//! its delimiter widths stripped and a precise span in the source file.

use vstd::prelude::*;

use crate::coords::{byte_len, lemma_byte_len_concat, newline_count};
use crate::span::{Position, Span};

verus! {

/// The comment syntaxes the core distinguishes when rendering.
#[derive(Clone, Copy, Debug, PartialEq, Eq, Structural)]
pub enum CommentVariant {
    Unknown,
}

/// Why a token could not be turned into a literal or a literal set.
#[derive(Clone, Copy, Debug, PartialEq, Eq, Structural)]
pub enum CommentError {
    /// The claimed delimiter widths exceed the token text.
    DelimitersTooWide,
    /// Start or end position arithmetic would wrap.
    PositionArithmeticWrapped,
    /// The token is not of the comment kind the caller asked for.
    WrongTokenKind,
    /// The token text does not carry the delimiters of its claimed kind.
    ImproperlyDelimited,
}

/// A single comment-content line: the raw text, the delimiter widths (in
/// scalars) stripped from its ends, the trimmed content between them, and the
/// line and column at which the raw text starts.
#[derive(Debug, Clone)]
pub struct TrimmedLiteral {
    /// The comment syntax this literal came from.
    pub variant: CommentVariant,
    /// The full text of the literal, delimiters included.
    pub raw: String,
    /// The text between the delimiters.
    pub content: String,
    /// Scalars stripped from the front of `raw`.
    pub pre: usize,
    /// Scalars stripped from the back of `raw`.
    pub post: usize,
    /// 1-indexed line of the first scalar of `raw`.
    pub line: usize,
    /// 0-indexed scalar column of the first scalar of `raw`.
    pub column: usize,
}

/// Validity of a literal: the delimiters fit inside the raw text, the content
/// is exactly the raw text between them, and span arithmetic stays within
/// `usize`.
pub open spec fn literal_wf(l: TrimmedLiteral) -> bool {
    &&& l.pre + l.post <= l.raw@.len()
    &&& l.content@ == l.raw@.subrange(l.pre as int, l.raw@.len() - l.post)
    &&& l.column + l.raw@.len() >= l.post + 1
    &&& l.column + l.raw@.len() <= usize::MAX
    &&& l.line + newline_count(l.raw@) <= usize::MAX
    &&& byte_len(l.raw@) <= usize::MAX
}

/// The conditions under which a literal can be built: the delimiters fit and
/// the span arithmetic neither wraps below zero nor overflows.
pub open spec fn literal_from_ok(
    raw: Seq<char>,
    pre: nat,
    post: nat,
    line: nat,
    column: nat,
) -> bool {
    &&& pre + post <= raw.len()
    &&& column + raw.len() >= post + 1
    &&& column + raw.len() <= usize::MAX
    &&& line + newline_count(raw) <= usize::MAX
}

/// The span covered by a literal's content: from the first scalar after the
/// prefix delimiter to the last scalar before the postfix delimiter,
/// inclusive.
pub open spec fn spec_span(l: TrimmedLiteral) -> Span {
    Span {
        start: Position { line: l.line, column: (l.column + l.pre) as usize },
        end: Position {
            line: (l.line + newline_count(l.raw@)) as usize,
            column: (l.column + l.raw@.len() - l.post - 1) as usize,
        },
    }
}

/// The byte length of a middle piece is at most the byte length of the whole.
proof fn lemma_byte_len_subrange(s: Seq<char>, a: int, b: int)
    requires
        0 <= a <= b <= s.len(),
    ensures
        byte_len(s.subrange(a, b)) <= byte_len(s),
{
    assert(s =~= (s.take(a) + s.subrange(a, b)) + s.skip(b));
    lemma_byte_len_concat(s.take(a) + s.subrange(a, b), s.skip(b));
    lemma_byte_len_concat(s.take(a), s.subrange(a, b));
}

impl TrimmedLiteral {
    /// Build a literal from a token text, delimiter widths (in scalars) and
    /// the token's position. Fails exactly when the delimiters do not fit in
    /// the text or when span arithmetic would wrap.
    pub fn from(
        variant: CommentVariant,
        raw: &str,
        pre: usize,
        post: usize,
        line: usize,
        column: usize,
    ) -> (r: Result<TrimmedLiteral, CommentError>)
        ensures
            r is Ok <==> literal_from_ok(
                raw@,
                pre as nat,
                post as nat,
                line as nat,
                column as nat,
            ),
            r matches Ok(l) ==> {
                &&& literal_wf(l)
                &&& l.variant == variant
                &&& l.raw@ == raw@
                &&& l.content@ == raw@.subrange(pre as int, raw@.len() - post)
                &&& l.pre == pre
                &&& l.post == post
                &&& l.line == line
                &&& l.column == column
            },
    {
        let chars = raw.unicode_len();
        if pre > chars || post > chars - pre {
            return Err(CommentError::DelimitersTooWide);
        }
        if chars > usize::MAX - column {
            return Err(CommentError::PositionArithmeticWrapped);
        }
        if post >= column + chars {
            return Err(CommentError::PositionArithmeticWrapped);
        }
        let newlines = crate::coords::count_newlines(raw);
        if newlines > usize::MAX - line {
            return Err(CommentError::PositionArithmeticWrapped);
        }
        let raw_bytes = raw.as_bytes().len();
        proof {
            assert(raw_bytes == byte_len(raw@));
        }
        let content = raw.substring_char(pre, chars - post).to_owned();
        Ok(
            TrimmedLiteral {
                variant,
                raw: raw.to_owned(),
                content,
                pre,
                post,
                line,
                column,
            },
        )
    }

    /// Scalars stripped from the front.
    pub fn pre(&self) -> (r: usize)
        ensures
            r == self.pre,
    {
        self.pre
    }

    /// Scalars stripped from the back.
    pub fn post(&self) -> (r: usize)
        ensures
            r == self.post,
    {
        self.post
    }

    /// The comment syntax this literal came from.
    pub fn variant(&self) -> (r: CommentVariant)
        ensures
            r == self.variant,
    {
        self.variant
    }

    /// The scalar length of the trimmed content.
    pub fn len_in_chars(&self) -> (r: usize)
        requires
            literal_wf(*self),
        ensures
            r == self.content@.len(),
            r == self.raw@.len() - self.pre - self.post,
    {
        self.content.as_str().unicode_len()
    }

    /// The byte length of the trimmed content.
    pub fn len(&self) -> (r: usize)
        requires
            literal_wf(*self),
        ensures
            r == byte_len(self.content@),
    {
        proof {
            lemma_byte_len_subrange(self.raw@, self.pre as int, self.raw@.len() - self.post);
        }
        self.content.as_str().len()
    }

    /// The trimmed content.
    pub fn as_str(&self) -> (r: &str)
        ensures
            r@ == self.content@,
    {
        self.content.as_str()
    }

    /// The span of the trimmed content in the source file.
    pub fn span(&self) -> (r: Span)
        requires
            literal_wf(*self),
        ensures
            r == spec_span(*self),
    {
        let chars = self.raw.as_str().unicode_len();
        let newlines = crate::coords::count_newlines(self.raw.as_str());
        Span {
            start: Position { line: self.line, column: self.column + self.pre },
            end: Position {
                line: self.line + newlines,
                column: self.column + chars - self.post - 1,
            },
        }
    }
}

} // verus!
