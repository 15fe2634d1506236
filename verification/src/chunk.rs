//! Checkable chunks: a rendered content string paired with an ordered map
//! from byte ranges of the content back to spans of the original file, and
//! the inversion of that map over a queried range.

use vstd::prelude::*;

use indexmap::IndexMap;

use crate::coords::{byte_len, lemma_byte_len_concat, lemma_byte_len_singleton};
use crate::literal::{literal_wf, spec_span, TrimmedLiteral};
use crate::litset::{set_wf, LiteralSet};
use crate::mapping::{
    mapping_entries, mapping_get_index, mapping_insert, mapping_len, mapping_new, ByteRange,
};
use crate::span::{Position, Span};

verus! {

/// Where a chunk's content came from: enough to open the original file when
/// reporting. Paths are carried as plain strings.
#[derive(Debug, Clone, Hash, PartialEq, Eq)]
pub enum ContentOrigin {
    CommonMarkFile(String),
    RustDocTest(String, Span),
    RustSourceFile(String),
}

/// The rendered content of a literal set: the trimmed contents joined by
/// single newlines.
pub open spec fn rendered_content(ls: Seq<TrimmedLiteral>) -> Seq<char>
    decreases ls.len(),
{
    if ls.len() == 0 {
        Seq::<char>::empty()
    } else if ls.len() == 1 {
        ls[0].content@
    } else {
        rendered_content(ls.drop_last()) + seq!['\n'] + ls.last().content@
    }
}

/// The byte offset at which literal `i` of a rendered set starts.
pub open spec fn entry_start(ls: Seq<TrimmedLiteral>, i: int) -> int {
    byte_len(rendered_content(ls.take(i))) + if i == 0 {
        0int
    } else {
        1int
    }
}

pub proof fn lemma_rendered_step(ls: Seq<TrimmedLiteral>, i: int)
    requires
        0 <= i < ls.len(),
    ensures
        i == 0 ==> rendered_content(ls.take(1)) == ls[0].content@,
        i > 0 ==> rendered_content(ls.take(i + 1)) == rendered_content(ls.take(i)) + seq!['\n']
            + ls[i].content@,
{
    assert(ls.take(i + 1).drop_last() =~= ls.take(i));
    assert(ls.take(i + 1).last() == ls[i]);
    if i == 0 {
        assert(ls.take(1)[0] == ls[0]);
    }
}

pub proof fn lemma_newline_byte()
    ensures
        crate::coords::char_byte_len('\n') == 1,
        byte_len(seq!['\n']) == 1,
{
    assert(('\n' as u32) < 0x80);
    lemma_byte_len_singleton('\n');
}

/// The rendered prefix never has more bytes than the whole rendering.
pub proof fn lemma_rendered_take_byte_mono(ls: Seq<TrimmedLiteral>, i: int)
    requires
        0 <= i <= ls.len(),
    ensures
        byte_len(rendered_content(ls.take(i))) <= byte_len(rendered_content(ls)),
    decreases ls.len(),
{
    if i == ls.len() {
        assert(ls.take(i) =~= ls);
    } else {
        assert(ls.drop_last().take(i) =~= ls.take(i));
        lemma_rendered_take_byte_mono(ls.drop_last(), i);
        if ls.len() == 1 {
            assert(ls.drop_last() =~= ls.take(0));
            assert(rendered_content(ls.drop_last()) == Seq::<char>::empty());
        } else {
            lemma_byte_len_concat(
                rendered_content(ls.drop_last()) + seq!['\n'],
                ls.last().content@,
            );
            lemma_byte_len_concat(rendered_content(ls.drop_last()), seq!['\n']);
        }
    }
}

/// Each rendered literal starts one separator byte past the end of its
/// predecessor's bytes.
pub proof fn lemma_entry_start_step(ls: Seq<TrimmedLiteral>, i: int)
    requires
        0 <= i < ls.len(),
    ensures
        entry_start(ls, i + 1) == entry_start(ls, i) + byte_len(ls[i].content@) + 1,
{
    lemma_rendered_step(ls, i);
    lemma_newline_byte();
    if i > 0 {
        lemma_byte_len_concat(rendered_content(ls.take(i)) + seq!['\n'], ls[i].content@);
        lemma_byte_len_concat(rendered_content(ls.take(i)), seq!['\n']);
    } else {
        assert(ls.take(0) =~= Seq::<TrimmedLiteral>::empty());
        assert(byte_len(rendered_content(ls.take(0))) == 0);
    }
}

/// Rendered literals occupy disjoint, strictly ascending byte ranges.
pub proof fn lemma_entry_start_mono(ls: Seq<TrimmedLiteral>, a: int, b: int)
    requires
        0 <= a < b <= ls.len(),
    ensures
        entry_start(ls, a) + byte_len(ls[a].content@) + 1 <= entry_start(ls, b),
    decreases b - a,
{
    lemma_entry_start_step(ls, a);
    if a + 1 < b {
        lemma_entry_start_mono(ls, a + 1, b);
    }
}

/// A span fragment trimmed to a sub-range `[fs, fe)` of its byte range: the
/// start column moves right by the bytes cut on the left, the end column
/// moves left by the bytes cut on the right.
pub open spec fn span_trimmed(rg: ByteRange, sp: Span, fs: int, fe: int) -> Span {
    Span {
        start: Position {
            line: sp.start.line,
            column: (sp.start.column + fs - rg.start) as usize,
        },
        end: Position { line: sp.end.line, column: (sp.end.column - (rg.end - fe)) as usize },
    }
}

/// The conditions under which a fragment `[fs, fe)` of an entry can be
/// emitted: the span sits on one line and the trimmed columns stay ordered
/// and within `usize`.
pub open spec fn emission_ok(rg: ByteRange, sp: Span, fs: int, fe: int) -> bool {
    &&& sp.start.line == sp.end.line
    &&& rg.start <= fs
    &&& fe <= rg.end
    &&& sp.start.column + (fs - rg.start) <= usize::MAX
    &&& rg.end - fe <= sp.end.column
    &&& sp.start.column + (fs - rg.start) <= sp.end.column - (rg.end - fe)
}

/// The fragments that the query `[qs, qe)` selects from the entries at
/// position `i` on, given whether an earlier entry contained `qs`.
pub open spec fn spans_found(
    es: Seq<(ByteRange, Span)>,
    qs: int,
    qe: int,
    i: int,
    active: bool,
) -> Seq<(ByteRange, Span)>
    decreases es.len() - i,
{
    if i < 0 || i >= es.len() {
        Seq::<(ByteRange, Span)>::empty()
    } else {
        let rg = es[i].0;
        let sp = es[i].1;
        if rg.start <= qs < rg.end {
            let fe: int = if qe > 0 && rg.start <= qe - 1 < rg.end {
                qe
            } else {
                rg.end as int
            };
            seq![
                (ByteRange { start: qs as usize, end: fe as usize }, span_trimmed(rg, sp, qs, fe)),
            ] + spans_found(es, qs, qe, i + 1, true)
        } else if active {
            if rg.start <= qe < rg.end {
                seq![
                    (
                        ByteRange { start: rg.start, end: qe as usize },
                        span_trimmed(rg, sp, rg.start as int, qe),
                    ),
                ] + spans_found(es, qs, qe, i + 1, false)
            } else {
                seq![(rg, sp)] + spans_found(es, qs, qe, i + 1, true)
            }
        } else {
            spans_found(es, qs, qe, i + 1, false)
        }
    }
}

/// Whether every fragment that `spans_found` emits satisfies `emission_ok`.
pub open spec fn spans_found_ok(
    es: Seq<(ByteRange, Span)>,
    qs: int,
    qe: int,
    i: int,
    active: bool,
) -> bool
    decreases es.len() - i,
{
    if i < 0 || i >= es.len() {
        true
    } else {
        let rg = es[i].0;
        let sp = es[i].1;
        if rg.start <= qs < rg.end {
            let fe: int = if qe > 0 && rg.start <= qe - 1 < rg.end {
                qe
            } else {
                rg.end as int
            };
            emission_ok(rg, sp, qs, fe) && spans_found_ok(es, qs, qe, i + 1, true)
        } else if active {
            if rg.start <= qe < rg.end {
                emission_ok(rg, sp, rg.start as int, qe) && spans_found_ok(es, qs, qe, i + 1, false)
            } else {
                emission_ok(rg, sp, rg.start as int, rg.end as int) && spans_found_ok(
                    es,
                    qs,
                    qe,
                    i + 1,
                    true,
                )
            }
        } else {
            spans_found_ok(es, qs, qe, i + 1, false)
        }
    }
}

/// Validity of a chunk's map: per entry the range is ordered, and the ranges
/// come in strictly ascending, non-overlapping order.
pub open spec fn entries_wf(es: Seq<(ByteRange, Span)>) -> bool {
    &&& (forall|i: int|
        0 <= i < es.len() ==> (#[trigger] es[i]).0.start <= es[i].0.end)
    &&& (forall|i: int, j: int|
        0 <= i < j < es.len() ==> (#[trigger] es[i]).0.end <= (#[trigger] es[j]).0.start
            && es[i].0.start < es[j].0.start)
}

/// A chunk of rendered content to be checked, with the ordered map from byte
/// ranges of the content back to spans of the original file.
#[derive(Debug)]
pub struct CheckableChunk {
    /// Rendered contents.
    pub content: String,
    /// Mapping from ranges within `content` to spans in the original file.
    pub source_mapping: IndexMap<ByteRange, Span>,
}

impl LiteralSet {
    /// Render the set: the trimmed contents joined by single newlines, each
    /// literal's byte range in the rendering mapped to its span in the file.
    #[verifier::rlimit(100)]
    pub fn into_chunk(self) -> (r: CheckableChunk)
        requires
            set_wf(self.literals@),
            byte_len(rendered_content(self.literals@)) <= usize::MAX,
        ensures
            r.content@ == rendered_content(self.literals@),
            mapping_entries(r.source_mapping).len() == self.literals@.len(),
            forall|i: int|
                0 <= i < self.literals@.len() ==> {
                    let e = #[trigger] mapping_entries(r.source_mapping)[i];
                    &&& e.0.start == entry_start(self.literals@, i)
                    &&& e.0.end == entry_start(self.literals@, i) + byte_len(
                        self.literals@[i].content@,
                    )
                    &&& e.1 == spec_span(self.literals@[i])
                },
            entries_wf(mapping_entries(r.source_mapping)),
    {
        let ghost lits = self.literals@;
        let n = self.literals.len();
        let mut content = String::new();
        let mut map = mapping_new();
        let mut pos: usize = 0;
        let mut i: usize = 0;
        proof {
            assert(lits.take(0) =~= Seq::<TrimmedLiteral>::empty());
            assert(content@ =~= rendered_content(lits.take(0)));
        }
        while i < n
            invariant
                0 <= i <= n,
                n == lits.len(),
                self.literals@ == lits,
                set_wf(lits),
                byte_len(rendered_content(lits)) <= usize::MAX,
                content@ == rendered_content(lits.take(i as int)),
                pos == byte_len(content@),
                mapping_entries(map).len() == i,
                forall|j: int|
                    0 <= j < i ==> {
                        let e = #[trigger] mapping_entries(map)[j];
                        &&& e.0.start == entry_start(lits, j)
                        &&& e.0.end == entry_start(lits, j) + byte_len(lits[j].content@)
                        &&& e.1 == spec_span(lits[j])
                    },
                forall|j: int| 0 <= j < i ==> (#[trigger] mapping_entries(map)[j]).0.start <= pos
                    && mapping_entries(map)[j].0.end <= pos,
                forall|a: int, b: int|
                    0 <= a < b < i ==> (#[trigger] mapping_entries(map)[a]).0.start < (
                    #[trigger] mapping_entries(map)[b]).0.start,
            decreases n - i,
        {
            let lit = &self.literals[i];
            proof {
                lemma_rendered_step(lits, i as int);
                lemma_newline_byte();
                lemma_rendered_take_byte_mono(lits, i + 1);
                if i > 0 {
                    lemma_byte_len_concat(
                        rendered_content(lits.take(i as int)) + seq!['\n'],
                        lits[i as int].content@,
                    );
                    lemma_byte_len_concat(rendered_content(lits.take(i as int)), seq!['\n']);
                } else {
                    assert(rendered_content(lits.take(1)) == lits[0].content@);
                }
            }
            if i > 0 {
                let nl = "\n";
                proof {
                    reveal_strlit("\n");
                    assert(nl@ =~= seq!['\n']);
                }
                content.append(nl);
                pos = pos + 1;
            }
            let start = pos;
            content.append(lit.as_str());
            let len = lit.len();
            let span = lit.span();
            pos = pos + len;
            let key = ByteRange { start, end: pos };
            let ghost prev_entries = mapping_entries(map);
            proof {
                assert forall|j: int| 0 <= j < i implies (#[trigger] prev_entries[j]).0 != key by {
                    assert(prev_entries[j].0.start <= byte_len(
                        rendered_content(lits.take(i as int)),
                    ));
                }
            }
            let _ = mapping_insert(&mut map, key, span);
            i = i + 1;
            proof {
                assert(mapping_entries(map) == prev_entries.push((key, span)));
                assert(content@ =~= rendered_content(lits.take(i as int)));
            }
        }
        proof {
            assert(lits.take(n as int) =~= lits);
            assert forall|a: int, b: int| 0 <= a < b < n implies (#[trigger] mapping_entries(
                map,
            )[a]).0.end <= (#[trigger] mapping_entries(map)[b]).0.start && mapping_entries(
                map,
            )[a].0.start < mapping_entries(map)[b].0.start by {
                lemma_entry_start_mono(lits, a, b);
            }
        }
        CheckableChunk { content, source_mapping: map }
    }
}

impl CheckableChunk {
    /// The chunk of a literal set: render and map it.
    pub fn from_literalset(set: LiteralSet) -> (r: CheckableChunk)
        requires
            set_wf(set.literals@),
            byte_len(rendered_content(set.literals@)) <= usize::MAX,
        ensures
            r.content@ == rendered_content(set.literals@),
            mapping_entries(r.source_mapping).len() == set.literals@.len(),
            forall|i: int|
                0 <= i < set.literals@.len() ==> {
                    let e = #[trigger] mapping_entries(r.source_mapping)[i];
                    &&& e.0.start == entry_start(set.literals@, i)
                    &&& e.0.end == entry_start(set.literals@, i) + byte_len(
                        set.literals@[i].content@,
                    )
                    &&& e.1 == spec_span(set.literals@[i])
                },
            entries_wf(mapping_entries(r.source_mapping)),
    {
        set.into_chunk()
    }

    /// A chunk from a content string and a map taken as authoritative.
    pub fn from_string(content: String, source_mapping: IndexMap<ByteRange, Span>) -> (r:
        CheckableChunk)
        ensures
            r.content == content,
            mapping_entries(r.source_mapping) == mapping_entries(source_mapping),
    {
        CheckableChunk { content, source_mapping }
    }

    /// A chunk from borrowed content and a map taken as authoritative.
    pub fn from_str(content: &str, source_mapping: IndexMap<ByteRange, Span>) -> (r:
        CheckableChunk)
        ensures
            r.content@ == content@,
            mapping_entries(r.source_mapping) == mapping_entries(source_mapping),
    {
        Self::from_string(String::from_str(content), source_mapping)
    }

    /// The chunks of a whole file's literal sets, one per set, in order.
    #[verifier::rlimit(100)]
    pub fn from_literalsets(sets: Vec<LiteralSet>) -> (r: Vec<CheckableChunk>)
        requires
            forall|i: int|
                0 <= i < sets@.len() ==> set_wf((#[trigger] sets@[i]).literals@) && byte_len(
                    rendered_content(sets@[i].literals@),
                ) <= usize::MAX,
        ensures
            r@.len() == sets@.len(),
            forall|i: int|
                0 <= i < r@.len() ==> {
                    let chunk = #[trigger] r@[i];
                    &&& chunk.content@ == rendered_content(sets@[i].literals@)
                    &&& mapping_entries(chunk.source_mapping).len() == sets@[i].literals@.len()
                    &&& entries_wf(mapping_entries(chunk.source_mapping))
                    &&& (forall|j: int|
                        0 <= j < sets@[i].literals@.len() ==> {
                            let e = #[trigger] mapping_entries(chunk.source_mapping)[j];
                            &&& e.0.start == entry_start(sets@[i].literals@, j)
                            &&& e.0.end == entry_start(sets@[i].literals@, j) + byte_len(
                                sets@[i].literals@[j].content@,
                            )
                            &&& e.1 == spec_span(sets@[i].literals@[j])
                        })
                },
    {
        let ghost all = sets@;
        let mut out: Vec<CheckableChunk> = Vec::new();
        let mut rest = sets;
        let ghost mut taken: int = 0;
        while rest.len() > 0
            invariant
                0 <= taken <= all.len(),
                rest@ =~= all.skip(taken),
                out@.len() == taken,
                forall|i: int|
                    0 <= i < all.len() ==> set_wf((#[trigger] all[i]).literals@) && byte_len(
                        rendered_content(all[i].literals@),
                    ) <= usize::MAX,
                forall|i: int|
                    0 <= i < taken ==> {
                        let chunk = #[trigger] out@[i];
                        &&& chunk.content@ == rendered_content(all[i].literals@)
                        &&& mapping_entries(chunk.source_mapping).len() == all[i].literals@.len()
                        &&& entries_wf(mapping_entries(chunk.source_mapping))
                        &&& (forall|j: int|
                            0 <= j < all[i].literals@.len() ==> {
                                let e = #[trigger] mapping_entries(chunk.source_mapping)[j];
                                &&& e.0.start == entry_start(all[i].literals@, j)
                                &&& e.0.end == entry_start(all[i].literals@, j) + byte_len(
                                    all[i].literals@[j].content@,
                                )
                                &&& e.1 == spec_span(all[i].literals@[j])
                            })
                    },
            decreases all.len() - taken,
        {
            let set = rest.remove(0);
            proof {
                assert(set == all.skip(taken)[0]);
                assert(all.skip(taken)[0] == all[taken]);
                assert forall|j: int| 0 <= j < rest@.len() implies rest@[j] == all.skip(
                    taken + 1,
                )[j] by {
                    assert(all.skip(taken).remove(0)[j] == all.skip(taken)[j + 1]);
                    assert(all.skip(taken)[j + 1] == all[taken + 1 + j]);
                    assert(all.skip(taken + 1)[j] == all[taken + 1 + j]);
                }
            }
            let chunk = Self::from_literalset(set);
            out.push(chunk);
            proof {
                taken = taken + 1;
            }
        }
        proof {
            assert(all.skip(taken).len() == 0);
        }
        out
    }

    /// The rendered content.
    pub fn as_str(&self) -> (r: &str)
        ensures
            r@ == self.content@,
    {
        self.content.as_str()
    }

    /// Which part of the queried byte range maps to which span: the query is
    /// cut at the map's entry boundaries, and each fragment's span has its
    /// columns trimmed by the bytes cut from its entry.
    pub fn find_spans(&self, range: ByteRange) -> (r: IndexMap<ByteRange, Span>)
        requires
            entries_wf(mapping_entries(self.source_mapping)),
            spans_found_ok(
                mapping_entries(self.source_mapping),
                range.start as int,
                range.end as int,
                0,
                false,
            ),
        ensures
            mapping_entries(r) == spans_found(
                mapping_entries(self.source_mapping),
                range.start as int,
                range.end as int,
                0,
                false,
            ),
    {
        let ghost es = mapping_entries(self.source_mapping);
        let ghost qs = range.start as int;
        let ghost qe = range.end as int;
        let n = mapping_len(&self.source_mapping);
        let mut out = mapping_new();
        let mut active = false;
        let mut i: usize = 0;
        while i < n
            invariant
                0 <= i <= n,
                n == es.len(),
                es == mapping_entries(self.source_mapping),
                qs == range.start as int,
                qe == range.end as int,
                entries_wf(es),
                spans_found_ok(es, qs, qe, 0, false),
                spans_found_ok(es, qs, qe, i as int, active),
                spans_found(es, qs, qe, 0, false) == mapping_entries(out) + spans_found(
                    es,
                    qs,
                    qe,
                    i as int,
                    active,
                ),
                forall|a: int, b: int|
                    0 <= a < b < mapping_entries(out).len() ==> (#[trigger] mapping_entries(
                        out,
                    )[a]).0.start < (#[trigger] mapping_entries(out)[b]).0.start,
                i < n ==> forall|a: int|
                    0 <= a < mapping_entries(out).len() ==> (#[trigger] mapping_entries(
                        out,
                    )[a]).0.start < es[i as int].0.start,
            decreases n - i,
        {
            let entry = mapping_get_index(&self.source_mapping, i).unwrap();
            let rg = entry.0;
            let sp = entry.1;
            let ghost prev = mapping_entries(out);
            let ghost prev_active = active;
            let mut emit: Option<(ByteRange, Span)> = None;
            if rg.start <= range.start && range.start < rg.end {
                active = true;
                let fe: usize = if range.end > 0 && rg.start <= range.end - 1 && range.end - 1
                    < rg.end {
                    range.end
                } else {
                    rg.end
                };
                let key = ByteRange { start: range.start, end: fe };
                let value = Span {
                    start: Position {
                        line: sp.start.line,
                        column: sp.start.column + (range.start - rg.start),
                    },
                    end: Position { line: sp.end.line, column: sp.end.column - (rg.end - fe) },
                };
                emit = Some((key, value));
            } else if active {
                if rg.start <= range.end && range.end < rg.end {
                    active = false;
                    let key = ByteRange { start: rg.start, end: range.end };
                    let value = Span {
                        start: Position { line: sp.start.line, column: sp.start.column },
                        end: Position {
                            line: sp.end.line,
                            column: sp.end.column - (rg.end - range.end),
                        },
                    };
                    emit = Some((key, value));
                } else {
                    emit = Some((rg, sp));
                }
            }
            match emit {
                Some((key, value)) => {
                    proof {
                        assert forall|j: int| 0 <= j < prev.len() implies (
                        #[trigger] prev[j]).0 != key by {
                            assert(prev[j].0.start < es[i as int].0.start);
                        }
                    }
                    let _ = mapping_insert(&mut out, key, value);
                    proof {
                        assert(mapping_entries(out) == prev.push((key, value)));
                        assert(spans_found(es, qs, qe, i as int, prev_active) == seq![
                            (key, value),
                        ] + spans_found(es, qs, qe, i + 1, active));
                        assert(prev + spans_found(es, qs, qe, i as int, prev_active) =~= prev.push(
                            (key, value),
                        ) + spans_found(es, qs, qe, i + 1, active));
                    }
                },
                None => {
                    proof {
                        assert(spans_found(es, qs, qe, i as int, prev_active) == spans_found(
                            es,
                            qs,
                            qe,
                            i + 1,
                            active,
                        ));
                    }
                },
            }
            i = i + 1;
            proof {
                if i < n {
                    assert forall|a: int| 0 <= a < mapping_entries(out).len() implies (
                    #[trigger] mapping_entries(out)[a]).0.start < es[i as int].0.start by {
                        assert(es[i - 1].0.start < es[i as int].0.start);
                        assert(es[i - 1].0.end <= es[i as int].0.start);
                    }
                }
            }
        }
        proof {
            assert(spans_found(es, qs, qe, n as int, active) == Seq::<(
                ByteRange,
                Span,
            )>::empty());
            assert(mapping_entries(out) + Seq::<(ByteRange, Span)>::empty() =~= mapping_entries(
                out,
            ));
        }
        out
    }
}

} // verus!
