//! General properties of the library, stated and proved once: stability of
//! classification, what retention drops, the bounds a literal's span obeys,
//! the full-range inversion of a chunk's map, the round trip through the
//! tokenizer, and the behaviour of the eraser on already-plain content.

use vstd::prelude::*;

use crate::chunk::{
    emission_ok, entries_wf, entry_start, lemma_entry_start_mono, lemma_entry_start_step,
    rendered_content, spans_found, spans_found_ok, span_trimmed,
};
use crate::classify::{classified, classify, retained, TokenType, TokenWithType};
use crate::coords::{byte_len, newline_count};
use crate::developer::split_lines;
use crate::literal::{literal_wf, spec_span, TrimmedLiteral};
use crate::litset::set_wf;
use crate::mapping::ByteRange;
use crate::overlay::{
    is_emphasis, is_fence_line, join_from, lemma_erase_inline_identity, lemma_join_split,
    line_strip, overlay_plain,
};
use crate::span::{span_ordered, Span};
use crate::tokens::{concat_of, lex_of, TokenWithLineColumn};

verus! {

/// Classification is stable: the kind assigned to a token text is a pure
/// function of that text, so classifying the same text twice gives the
/// same kind.
pub proof fn lemma_classification_stable(a: Seq<char>, b: Seq<char>)
    requires
        a == b,
    ensures
        classify(a) == classify(b),
{
}

/// A doc line comment: `///` or `//!`.
pub open spec fn is_doc_line_comment(s: Seq<char>) -> bool {
    s.len() >= 3 && s[0] == '/' && s[1] == '/' && (s[2] == '/' || s[2] == '!')
}

/// A doc block comment: `/*!`, or `/**` whose next scalar is neither `*`
/// nor `/` (so `/**/` and `/***/` are ordinary block comments).
pub open spec fn is_doc_block_comment(s: Seq<char>) -> bool {
    s.len() >= 4 && s[0] == '/' && s[1] == '*' && (s[2] == '!' || (s[2] == '*' && s[3] != '*'
        && s[3] != '/'))
}

proof fn lemma_retained_kinds(ts: Seq<TokenWithType>)
    requires
        forall|j: int| 0 <= j < ts.len() ==> (#[trigger] ts[j]).kind == classify(ts[j].content@),
    ensures
        forall|i: int|
            0 <= i < retained(ts).len() ==> (#[trigger] retained(ts)[i]).kind != TokenType::Other
                && retained(ts)[i].kind == classify(retained(ts)[i].content@),
    decreases ts.len(),
{
    if ts.len() > 0 {
        assert(forall|j: int|
            0 <= j < ts.drop_last().len() ==> #[trigger] ts.drop_last()[j] == ts[j]);
        lemma_retained_kinds(ts.drop_last());
        if ts.last().kind != TokenType::Other {
            assert(forall|i: int|
                0 <= i < retained(ts.drop_last()).len() ==> #[trigger] retained(ts)[i] == retained(
                    ts.drop_last(),
                )[i]);
            assert(retained(ts)[retained(ts).len() - 1] == ts.last());
        }
    }
}

/// Retention drops every `Other` token, and with it every doc comment:
/// what survives classification and retention is neither a doc line comment
/// (`///`, `//!`) nor a doc block comment (`/** */`, `/*! */`).
pub proof fn lemma_retention_drops_other_and_doc_comments(ts: Seq<TokenWithLineColumn>)
    ensures
        forall|i: int|
            0 <= i < retained(classified(ts)).len() ==> (#[trigger] retained(
                classified(ts),
            )[i]).kind != TokenType::Other && !is_doc_line_comment(
                retained(classified(ts))[i].content@,
            ) && !is_doc_block_comment(retained(classified(ts))[i].content@),
{
    let cls = classified(ts);
    assert(forall|j: int| 0 <= j < cls.len() ==> (#[trigger] cls[j]).kind == classify(
        cls[j].content@,
    )) by {
        assert(forall|j: int|
            0 <= j < ts.len() ==> #[trigger] cls[j] == TokenWithType {
                kind: classify(ts[j].content@),
                content: ts[j].content,
                line: ts[j].line,
                column: ts[j].column,
            });
    }
    lemma_retained_kinds(cls);
    assert forall|i: int| 0 <= i < retained(cls).len() implies !is_doc_line_comment(
        (#[trigger] retained(cls)[i]).content@,
    ) && !is_doc_block_comment(retained(cls)[i].content@) by {
        let c = retained(cls)[i].content@;
        if is_doc_line_comment(c) {
            assert(c[1] == '/');
            assert(!crate::classify::is_block_comment_text(c));
            assert(!crate::classify::is_line_comment_text(c));
            assert(classify(c) == TokenType::Other);
        }
        if is_doc_block_comment(c) {
            assert(c[1] == '*');
            assert(!crate::classify::is_block_comment_text(c));
            assert(!crate::classify::is_line_comment_text(c));
            assert(classify(c) == TokenType::Other);
        }
    }
}

/// A literal's delimiters fit inside its raw text, and its span never ends
/// before it starts. A literal whose trimmed content is empty is the one
/// exception: its degenerate span would end one scalar early, so the law
/// asks for at least one content scalar.
pub proof fn lemma_literal_span_ordered(l: TrimmedLiteral)
    requires
        literal_wf(l),
        l.content@.len() >= 1,
    ensures
        l.pre + l.post <= l.raw@.len(),
        span_ordered(spec_span(l)),
{
    assert(l.content@.len() == l.raw@.len() - l.pre - l.post);
}

/// Tokenize, render, tokenize: rendering the tokens of a source (their
/// concatenation, which is the source itself) and tokenizing again yields
/// the very same tokens. The hypothesis is the tokenizer's guarantee that
/// its tokens concatenate back to the input.
pub proof fn lemma_tokenize_render_tokenize(source: Seq<char>)
    requires
        concat_of(lex_of(source)) == source,
    ensures
        lex_of(concat_of(lex_of(source))) == lex_of(source),
{
}

/// Querying a chunk's whole content returns every map entry, whole and in
/// order: the inversion of the map over the full range is the map itself.
/// The chunk's entries must be well-formed, start at byte zero, each be
/// nonempty, end at the content's end, and carry one-line spans with
/// ordered columns.
pub proof fn lemma_find_spans_full_range(es: Seq<(ByteRange, Span)>, len: int)
    requires
        entries_wf(es),
        es.len() >= 1,
        es[0].0.start == 0,
        forall|i: int| 0 <= i < es.len() ==> (#[trigger] es[i]).0.start < es[i].0.end,
        es[es.len() - 1].0.end == len,
        forall|i: int| 0 <= i < es.len() ==> (#[trigger] es[i]).0.end <= len,
        forall|i: int|
            0 <= i < es.len() ==> (#[trigger] es[i]).1.start.line == es[i].1.end.line
                && es[i].1.start.column <= es[i].1.end.column,
    ensures
        spans_found(es, 0, len, 0, false) == es,
        spans_found_ok(es, 0, len, 0, false),
{
    assert(len > 0);
    if es.len() == 1 {
        assert(0 <= len - 1 < es[0].0.end);
        assert(span_trimmed(es[0].0, es[0].1, 0, len) == es[0].1);
        assert(spans_found(es, 0, len, 1, true) == Seq::<(ByteRange, Span)>::empty());
        assert(spans_found(es, 0, len, 0, false) =~= es);
        assert(emission_ok(es[0].0, es[0].1, 0, len));
        assert(spans_found_ok(es, 0, len, 1, true));
    } else {
        assert(es[0].0.end <= es[es.len() - 1].0.start);
        assert(es[es.len() - 1].0.start < es[es.len() - 1].0.end);
        assert(!(0 <= len - 1 < es[0].0.end));
        assert(span_trimmed(es[0].0, es[0].1, 0, es[0].0.end as int) == es[0].1);
        lemma_find_spans_rest(es, len, 1);
        assert(spans_found(es, 0, len, 0, false) =~= seq![es[0]] + es.skip(1));
        assert(seq![es[0]] + es.skip(1) =~= es);
        assert(emission_ok(es[0].0, es[0].1, 0, es[0].0.end as int));
    }
}

/// From any later entry on, the full-range query emits every entry whole.
proof fn lemma_find_spans_rest(es: Seq<(ByteRange, Span)>, len: int, i: int)
    requires
        entries_wf(es),
        es.len() >= 1,
        es[0].0.start == 0,
        forall|j: int| 0 <= j < es.len() ==> (#[trigger] es[j]).0.start < es[j].0.end,
        es[es.len() - 1].0.end == len,
        forall|j: int| 0 <= j < es.len() ==> (#[trigger] es[j]).0.end <= len,
        forall|j: int|
            0 <= j < es.len() ==> (#[trigger] es[j]).1.start.line == es[j].1.end.line
                && es[j].1.start.column <= es[j].1.end.column,
        1 <= i <= es.len(),
    ensures
        spans_found(es, 0, len, i, true) == es.skip(i),
        spans_found_ok(es, 0, len, i, true),
    decreases es.len() - i,
{
    if i == es.len() {
        assert(es.skip(i) =~= Seq::<(ByteRange, Span)>::empty());
    } else {
        let rg = es[i].0;
        let sp = es[i].1;
        assert(es[0].0.end <= rg.start);
        assert(!(rg.start <= 0 < rg.end));
        assert(!(rg.start <= len < rg.end));
        lemma_find_spans_rest(es, len, i + 1);
        assert(spans_found(es, 0, len, i, true) == seq![(rg, sp)] + es.skip(i + 1));
        assert(seq![(rg, sp)] + es.skip(i + 1) =~= es.skip(i));
        assert(emission_ok(rg, sp, rg.start as int, rg.end as int));
    }
}

/// Lines with no Markdown structure: no fence lines, nothing to strip at
/// any line start, no inline emphasis or code-span markers, and no two
/// blank lines in a row.
pub open spec fn is_plain_lines(lines: Seq<Seq<char>>) -> bool {
    &&& (forall|i: int|
        0 <= i < lines.len() ==> !is_fence_line(#[trigger] lines[i]) && line_strip(lines[i])
            == 0)
    &&& (forall|i: int, j: int|
        0 <= i < lines.len() && 0 <= j < lines[i].len() ==> !is_emphasis(
            #[trigger] lines[i][j],
        ))
    &&& (forall|i: int|
        0 < i < lines.len() ==> !((#[trigger] lines[i]).len() == 0 && lines[i - 1].len() == 0))
}

proof fn lemma_erase_plain_suffix(lines: Seq<Seq<char>>, i: int, any_kept: bool, prev_blank: bool)
    requires
        is_plain_lines(lines),
        0 <= i < lines.len(),
        prev_blank ==> i > 0 && lines[i - 1].len() == 0,
    ensures
        overlay_plain(lines, i, any_kept, prev_blank) == (if any_kept {
            seq!['\n']
        } else {
            Seq::<char>::empty()
        }) + join_from(lines, i),
    decreases lines.len() - i,
{
    let l = lines[i];
    assert(!is_fence_line(l));
    assert(line_strip(l) == 0);
    assert(!(l.len() == 0 && prev_blank));
    assert(l.skip(0) =~= l);
    assert(forall|j: int| 0 <= j < l.len() ==> !is_emphasis(#[trigger] l[j]));
    lemma_erase_inline_identity(l);
    let sep: Seq<char> = if any_kept {
        seq!['\n']
    } else {
        Seq::<char>::empty()
    };
    if i == lines.len() - 1 {
        assert(overlay_plain(lines, i + 1, true, l.len() == 0) == Seq::<char>::empty());
        assert(sep + l + Seq::<char>::empty() =~= sep + join_from(lines, i));
    } else {
        lemma_erase_plain_suffix(lines, i + 1, true, l.len() == 0);
        assert(overlay_plain(lines, i, any_kept, prev_blank) == sep + l + (seq!['\n'] + join_from(
            lines,
            i + 1,
        )));
        assert(sep + l + (seq!['\n'] + join_from(lines, i + 1)) =~= sep + (l + seq!['\n']
            + join_from(lines, i + 1)));
        assert(join_from(lines, i) == l + seq!['\n'] + join_from(lines, i + 1));
        assert(sep + (l + seq!['\n'] + join_from(lines, i + 1)) =~= sep + join_from(lines, i));
    }
}

/// Erasing Markdown from already-plain content changes nothing: the plain
/// rendering is the content itself, so erasure is idempotent on its own
/// output whenever that output is plain.
pub proof fn lemma_erase_plain_identity(s: Seq<char>)
    requires
        is_plain_lines(split_lines(s)),
    ensures
        overlay_plain(split_lines(s), 0, false, false) == s,
{
    crate::developer::lemma_split_lines_len(s);
    lemma_erase_plain_suffix(split_lines(s), 0, false, false);
    lemma_join_split(s);
    assert(Seq::<char>::empty() + join_from(split_lines(s), 0) =~= join_from(
        split_lines(s),
        0,
    ));
}

/// For a chunk built from a literal set, each mapping range covers exactly
/// one literal's content, so the scalars a range covers are as many as its
/// span names: a single-line literal's span is exactly as many scalars wide
/// as its content.
pub proof fn lemma_range_and_span_scalar_lengths(l: TrimmedLiteral)
    requires
        literal_wf(l),
        newline_count(l.raw@) == 0,
        l.content@.len() >= 1,
    ensures
        spec_span(l).end.line == spec_span(l).start.line,
        spec_span(l).end.column + 1 - spec_span(l).start.column == l.content@.len(),
{
    assert(l.content@.len() == l.raw@.len() - l.pre - l.post);
}

/// Composing the chunk map with the overlay map and inverting over the full
/// plain range: on plain content the overlay is the identity, so the full
/// plain range is the full content range, and inverting the chunk's map
/// over it returns the original span set.
pub proof fn lemma_overlay_composition_on_plain(s: Seq<char>, es: Seq<(ByteRange, Span)>)
    requires
        is_plain_lines(split_lines(s)),
        entries_wf(es),
        es.len() >= 1,
        es[0].0.start == 0,
        forall|i: int| 0 <= i < es.len() ==> (#[trigger] es[i]).0.start < es[i].0.end,
        es[es.len() - 1].0.end == byte_len(s),
        forall|i: int| 0 <= i < es.len() ==> (#[trigger] es[i]).0.end <= byte_len(s),
        forall|i: int|
            0 <= i < es.len() ==> (#[trigger] es[i]).1.start.line == es[i].1.end.line
                && es[i].1.start.column <= es[i].1.end.column,
    ensures
        overlay_plain(split_lines(s), 0, false, false) == s,
        spans_found(es, 0, byte_len(s) as int, 0, false) == es,
        spans_found_ok(es, 0, byte_len(s) as int, 0, false),
{
    lemma_erase_plain_identity(s);
    lemma_find_spans_full_range(es, byte_len(s) as int);
}

/// The byte just past the last rendered literal is the rendering's end.
proof fn lemma_entry_start_total(lits: Seq<TrimmedLiteral>)
    requires
        lits.len() >= 1,
    ensures
        entry_start(lits, lits.len() as int) == byte_len(rendered_content(lits)) + 1,
{
    assert(lits.take(lits.len() as int) =~= lits);
}

/// Each rendered literal's bytes end before the rendering does.
proof fn lemma_chunk_entry_end_bound(lits: Seq<TrimmedLiteral>, i: int)
    requires
        0 <= i < lits.len(),
    ensures
        entry_start(lits, i) + byte_len(lits[i].content@) + 1 <= byte_len(rendered_content(lits))
            + 1,
        i == lits.len() - 1 ==> entry_start(lits, i) + byte_len(lits[i].content@) == byte_len(
            rendered_content(lits),
        ),
{
    lemma_entry_start_step(lits, i);
    if i + 1 < lits.len() {
        lemma_entry_start_mono(lits, i + 1, lits.len() as int);
    }
    lemma_entry_start_total(lits);
}

/// A one-line literal's span sits on one line, with ordered columns when the
/// content is nonempty.
proof fn lemma_literal_span_one_line(l: TrimmedLiteral)
    requires
        literal_wf(l),
        newline_count(l.raw@) == 0,
        l.content@.len() >= 1,
    ensures
        spec_span(l).start.line == spec_span(l).end.line,
        spec_span(l).start.column <= spec_span(l).end.column,
{
    assert(l.content@.len() == l.raw@.len() - l.pre - l.post);
}

/// A chunk rendered from a literal set of one-line literals with nonempty
/// contents meets every hypothesis of the full-range inversion: its entries
/// start at byte zero, are nonempty, tile the rendering up to its last byte,
/// and carry one-line spans with ordered columns.
#[verifier::rlimit(100)]
pub proof fn lemma_chunk_entries_invert_whole(lits: Seq<TrimmedLiteral>, es: Seq<(ByteRange, Span)>)
    requires
        set_wf(lits),
        forall|i: int|
            0 <= i < lits.len() ==> newline_count((#[trigger] lits[i]).raw@) == 0
                && lits[i].content@.len() >= 1,
        entries_wf(es),
        es.len() == lits.len(),
        forall|i: int|
            0 <= i < lits.len() ==> {
                let e = #[trigger] es[i];
                &&& e.0.start == entry_start(lits, i)
                &&& e.0.end == entry_start(lits, i) + byte_len(lits[i].content@)
                &&& e.1 == spec_span(lits[i])
            },
    ensures
        spans_found(es, 0, byte_len(rendered_content(lits)) as int, 0, false) == es,
        spans_found_ok(es, 0, byte_len(rendered_content(lits)) as int, 0, false),
{
    let n = lits.len() as int;
    let len = byte_len(rendered_content(lits)) as int;
    assert(lits.take(0) =~= Seq::<TrimmedLiteral>::empty());
    assert(es[0].0.start == 0);
    assert forall|i: int| 0 <= i < n implies (#[trigger] es[i]).0.start < es[i].0.end by {
        crate::coords::lemma_byte_len_ge_len(lits[i].content@);
    }
    assert forall|i: int| 0 <= i < n implies (#[trigger] es[i]).0.end <= len by {
        lemma_chunk_entry_end_bound(lits, i);
    }
    assert(es[n - 1].0.end == len) by {
        lemma_chunk_entry_end_bound(lits, n - 1);
    }
    assert forall|i: int| 0 <= i < n implies (#[trigger] es[i]).1.start.line == es[i].1.end.line
        && es[i].1.start.column <= es[i].1.end.column by {
        lemma_literal_span_one_line(lits[i]);
    }
    lemma_find_spans_full_range(es, len);
}

} // verus!
