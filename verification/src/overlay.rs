//! Plain-text overlay of a chunk: Markdown structure erased, with a map
//! from byte ranges of the plain text back to byte ranges of the chunk's
//! content. The eraser is line-oriented: heading hashes and list bullets
//! are stripped from line starts, code-fence lines are dropped whole, runs
//! of blank lines collapse to one, and emphasis and code-span markers are
//! dropped wherever they stand. Every other scalar is preserved verbatim,
//! so each maximal kept run is contiguous in both renderings and gets one
//! map entry.

use vstd::prelude::*;

use crate::chunk::CheckableChunk;
use crate::coords::{
    byte_len, char_byte_len, char_utf8_width, lemma_byte_len_concat, lemma_byte_len_singleton,
    lemma_byte_len_take_succ,
};
use crate::developer::{split_lines, split_on_newlines};
use crate::mapping::ByteRange;
use crate::tokens::lemma_byte_len_take_mono;

verus! {

/// The length of the run of `#` scalars at the start of a line.
pub open spec fn hash_run(l: Seq<char>) -> int
    decreases l.len(),
{
    if l.len() == 0 || l[0] != '#' {
        0
    } else {
        1 + hash_run(l.drop_first())
    }
}

pub proof fn lemma_hash_run_bounds(l: Seq<char>)
    ensures
        0 <= hash_run(l) <= l.len(),
    decreases l.len(),
{
    if l.len() > 0 && l[0] == '#' {
        lemma_hash_run_bounds(l.drop_first());
    }
}

/// How many scalars the eraser strips from the front of a line: a heading
/// prefix (`#` run plus one space), or a list bullet (`- `, `* `, `+ `).
pub open spec fn line_strip(l: Seq<char>) -> int {
    if hash_run(l) >= 1 && hash_run(l) < l.len() && l[hash_run(l)] == ' ' {
        hash_run(l) + 1
    } else if l.len() >= 2 && (l[0] == '-' || l[0] == '*' || l[0] == '+') && l[1] == ' ' {
        2
    } else {
        0
    }
}

/// A code-fence line: it opens with three backticks or three tildes.
pub open spec fn is_fence_line(l: Seq<char>) -> bool {
    l.len() >= 3 && ((l[0] == '`' && l[1] == '`' && l[2] == '`') || (l[0] == '~' && l[1] == '~'
        && l[2] == '~'))
}

/// An inline marker the eraser drops: emphasis stars and underscores, and
/// the backticks of inline code spans.
pub open spec fn is_emphasis(c: char) -> bool {
    c == '*' || c == '_' || c == '`'
}

/// The text of a line tail with every inline marker dropped.
pub open spec fn erase_inline(t: Seq<char>) -> Seq<char>
    decreases t.len(),
{
    if t.len() == 0 {
        Seq::<char>::empty()
    } else if is_emphasis(t[0]) {
        erase_inline(t.drop_first())
    } else {
        seq![t[0]] + erase_inline(t.drop_first())
    }
}

/// The length of the leading run of kept scalars.
pub open spec fn run_len(t: Seq<char>) -> int
    decreases t.len(),
{
    if t.len() == 0 || is_emphasis(t[0]) {
        0
    } else {
        1 + run_len(t.drop_first())
    }
}

pub proof fn lemma_run_len_bounds(t: Seq<char>)
    ensures
        0 <= run_len(t) <= t.len(),
    decreases t.len(),
{
    if t.len() > 0 && !is_emphasis(t[0]) {
        lemma_run_len_bounds(t.drop_first());
    }
}

/// The leading run is exactly the kept scalars up to the first marker.
pub proof fn lemma_run_len_exact(t: Seq<char>, k: int)
    requires
        0 <= k <= t.len(),
        forall|m: int| 0 <= m < k ==> !is_emphasis(t[m]),
        k == t.len() || is_emphasis(t[k]),
    ensures
        run_len(t) == k,
    decreases k,
{
    if k == 0 {
    } else {
        assert(!is_emphasis(t[0]));
        assert(t.drop_first().len() == t.len() - 1);
        assert(forall|m: int| 0 <= m < k - 1 ==> t.drop_first()[m] == t[m + 1]);
        if k - 1 < t.drop_first().len() {
            assert(t.drop_first()[k - 1] == t[k]);
        }
        lemma_run_len_exact(t.drop_first(), k - 1);
    }
}

/// Erasure passes a kept run through verbatim.
pub proof fn lemma_erase_inline_run(t: Seq<char>, k: int)
    requires
        0 <= k <= t.len(),
        forall|m: int| 0 <= m < k ==> !is_emphasis(t[m]),
    ensures
        erase_inline(t) == t.take(k) + erase_inline(t.skip(k)),
    decreases k,
{
    if k == 0 {
        assert(t.take(0) =~= Seq::<char>::empty());
        assert(t.skip(0) =~= t);
        assert(t.take(0) + erase_inline(t) =~= erase_inline(t));
    } else {
        assert(!is_emphasis(t[0]));
        assert(forall|m: int| 0 <= m < k - 1 ==> t.drop_first()[m] == t[m + 1]);
        lemma_erase_inline_run(t.drop_first(), k - 1);
        assert(t.drop_first().take(k - 1) =~= t.take(k).drop_first());
        assert(t.drop_first().skip(k - 1) =~= t.skip(k));
        assert(seq![t[0]] + (t.take(k).drop_first() + erase_inline(t.skip(k))) =~= t.take(k)
            + erase_inline(t.skip(k)));
    }
}

/// Erasure leaves a marker-free text unchanged.
pub proof fn lemma_erase_inline_identity(t: Seq<char>)
    requires
        forall|m: int| 0 <= m < t.len() ==> !is_emphasis(t[m]),
    ensures
        erase_inline(t) == t,
{
    lemma_erase_inline_run(t, t.len() as int);
    assert(t.take(t.len() as int) =~= t);
    assert(erase_inline(t.skip(t.len() as int)) == Seq::<char>::empty());
    assert(t + Seq::<char>::empty() =~= t);
}

/// The map entries of one line tail `t` standing at chunk byte offset `cb`
/// and plain byte offset `pb`: one entry per maximal kept run, covering the
/// run's bytes in both renderings.
pub open spec fn inline_entries(t: Seq<char>, cb: int, pb: int) -> Seq<(ByteRange, ByteRange)>
    decreases t.len(),
{
    if t.len() == 0 {
        Seq::<(ByteRange, ByteRange)>::empty()
    } else if is_emphasis(t[0]) {
        inline_entries(t.drop_first(), cb + char_byte_len(t[0]), pb)
    } else {
        let k = {
            let r = 1 + run_len(t.drop_first());
            if 1 <= r && r <= t.len() {
                r
            } else {
                t.len() as int
            }
        };
        let b = byte_len(t.take(k)) as int;
        seq![
            (
                ByteRange { start: pb as usize, end: (pb + b) as usize },
                ByteRange { start: cb as usize, end: (cb + b) as usize },
            ),
        ] + inline_entries(t.skip(k), cb + b, pb + b)
    }
}

/// The lines from index `i` on, joined by single newlines.
pub open spec fn join_from(lines: Seq<Seq<char>>, i: int) -> Seq<char>
    decreases lines.len() - i,
{
    if i < 0 || i >= lines.len() {
        Seq::<char>::empty()
    } else if i == lines.len() - 1 {
        lines[i]
    } else {
        lines[i] + seq!['\n'] + join_from(lines, i + 1)
    }
}

/// Joining the split lines of a text gives the text back.
pub proof fn lemma_join_split(s: Seq<char>)
    ensures
        join_from(split_lines(s), 0) == s,
    decreases s.len(),
{
    let lines = split_lines(s);
    crate::developer::lemma_split_lines_len(s);
    if s.len() == 0 {
        assert(lines =~= seq![Seq::<char>::empty()]);
        assert(join_from(lines, 0) =~= s);
    } else if s[0] == '\n' {
        let rest = split_lines(s.drop_first());
        lemma_join_split(s.drop_first());
        crate::developer::lemma_split_lines_len(s.drop_first());
        assert(lines == seq![Seq::<char>::empty()] + rest);
        assert(lines.len() == 1 + rest.len());
        assert(lines[0] == Seq::<char>::empty());
        lemma_join_shift(Seq::<char>::empty(), rest);
        assert(join_from(lines, 0) == Seq::<char>::empty() + seq!['\n'] + join_from(rest, 0));
        assert(Seq::<char>::empty() + seq!['\n'] + join_from(rest, 0) =~= seq!['\n']
            + s.drop_first());
        assert(seq!['\n'] + s.drop_first() =~= s);
    } else {
        let rest = split_lines(s.drop_first());
        lemma_join_split(s.drop_first());
        crate::developer::lemma_split_lines_len(s.drop_first());
        assert(lines == seq![seq![s[0]] + rest[0]] + rest.drop_first());
        if rest.len() == 1 {
            assert(lines.len() == 1);
            assert(join_from(lines, 0) == lines[0]);
            assert(join_from(rest, 0) == rest[0]);
            assert(lines[0] == seq![s[0]] + rest[0]);
            assert(seq![s[0]] + rest[0] =~= seq![s[0]] + s.drop_first());
            assert(seq![s[0]] + s.drop_first() =~= s);
        } else {
            lemma_join_shift(seq![s[0]] + rest[0], rest.drop_first());
            assert(join_from(lines, 0) == (seq![s[0]] + rest[0]) + seq!['\n'] + join_from(
                rest.drop_first(),
                0,
            ));
            lemma_join_shift(rest[0], rest.drop_first());
            assert(rest =~= seq![rest[0]] + rest.drop_first());
            assert(join_from(rest, 0) == rest[0] + seq!['\n'] + join_from(rest.drop_first(), 0));
            assert((seq![s[0]] + rest[0]) + seq!['\n'] + join_from(rest.drop_first(), 0) =~= seq![
                s[0],
            ] + (rest[0] + seq!['\n'] + join_from(rest.drop_first(), 0)));
            assert(seq![s[0]] + s.drop_first() =~= s);
        }
    }
}

/// Joining a head line before a tail of lines.
pub proof fn lemma_join_shift(head: Seq<char>, tail: Seq<Seq<char>>)
    ensures
        tail.len() == 0 ==> join_from(seq![head] + tail, 0) == head,
        tail.len() > 0 ==> join_from(seq![head] + tail, 0) == head + seq!['\n'] + join_from(
            tail,
            0,
        ),
    decreases tail.len(),
{
    let whole = seq![head] + tail;
    assert(whole[0] == head);
    if tail.len() == 0 {
        assert(whole.len() == 1);
    } else {
        assert(whole.len() >= 2);
        assert forall|j: int| 0 <= j < tail.len() implies join_from(whole, j + 1) == join_from(
            tail,
            j,
        ) by {
            lemma_join_offset(whole, tail, j);
        }
        assert(join_from(whole, 0) == whole[0] + seq!['\n'] + join_from(whole, 1));
    }
}

/// Joining from an offset of a one-longer list of lines.
proof fn lemma_join_offset(whole: Seq<Seq<char>>, tail: Seq<Seq<char>>, j: int)
    requires
        whole =~= seq![whole[0]] + tail,
        0 <= j < tail.len(),
    ensures
        join_from(whole, j + 1) == join_from(tail, j),
    decreases tail.len() - j,
{
    assert(whole[j + 1] == tail[j]);
    if j == tail.len() - 1 {
        assert(join_from(whole, j + 1) == whole[j + 1]);
    } else {
        lemma_join_offset(whole, tail, j + 1);
    }
}

/// The plain text that the lines from index `i` on contribute: `any_kept`
/// says whether an earlier line was kept (so a separator is owed),
/// `prev_blank` whether the last kept line was blank.
pub open spec fn overlay_plain(
    lines: Seq<Seq<char>>,
    i: int,
    any_kept: bool,
    prev_blank: bool,
) -> Seq<char>
    decreases lines.len() - i,
{
    if i < 0 || i >= lines.len() {
        Seq::<char>::empty()
    } else {
        let l = lines[i];
        if is_fence_line(l) {
            overlay_plain(lines, i + 1, any_kept, prev_blank)
        } else if l.len() == 0 && prev_blank {
            overlay_plain(lines, i + 1, any_kept, true)
        } else {
            let body = erase_inline(l.skip(line_strip(l)));
            let sep: Seq<char> = if any_kept {
                seq!['\n']
            } else {
                Seq::<char>::empty()
            };
            sep + body + overlay_plain(lines, i + 1, true, l.len() == 0)
        }
    }
}

/// The map entries that the lines from index `i` on contribute: the run
/// entries of each kept line's stripped tail. `cb` and `pb` are the byte
/// offsets of line `i` in the chunk content and of the next write in the
/// plain text.
pub open spec fn overlay_entries(
    lines: Seq<Seq<char>>,
    i: int,
    any_kept: bool,
    prev_blank: bool,
    cb: int,
    pb: int,
) -> Seq<(ByteRange, ByteRange)>
    decreases lines.len() - i,
{
    if i < 0 || i >= lines.len() {
        Seq::<(ByteRange, ByteRange)>::empty()
    } else {
        let l = lines[i];
        let lb = byte_len(l) as int;
        if is_fence_line(l) {
            overlay_entries(lines, i + 1, any_kept, prev_blank, cb + lb + 1, pb)
        } else if l.len() == 0 && prev_blank {
            overlay_entries(lines, i + 1, any_kept, true, cb + lb + 1, pb)
        } else {
            let tail = l.skip(line_strip(l));
            let strip_b = byte_len(l.take(line_strip(l))) as int;
            let pb0 = pb + if any_kept {
                1int
            } else {
                0int
            };
            inline_entries(tail, cb + strip_b, pb0) + overlay_entries(
                lines,
                i + 1,
                true,
                l.len() == 0,
                cb + lb + 1,
                pb0 + byte_len(erase_inline(tail)),
            )
        }
    }
}

/// A plain-text overlay of a chunk: the erased rendering and the ordered
/// map from its byte ranges back to byte ranges of the chunk content.
#[derive(Debug)]
pub struct PlainOverlay {
    /// The plain text, Markdown structure erased.
    pub plain: String,
    /// For each maximal kept run, its byte range in `plain` against the
    /// byte range of the same text in the chunk's content.
    pub chunk_map: Vec<(ByteRange, ByteRange)>,
}

/// The scalar length of the run of `#` at the start of a line.
fn hash_run_len(l: &str) -> (r: usize)
    ensures
        r == hash_run(l@),
        r <= l@.len(),
{
    let n = l.unicode_len();
    let mut i: usize = 0;
    proof {
        assert(l@.skip(0) =~= l@);
    }
    while i < n
        invariant
            0 <= i <= n,
            n == l@.len(),
            hash_run(l@) == i + hash_run(l@.skip(i as int)),
        decreases n - i,
    {
        proof {
            assert(l@.skip(i as int)[0] == l@[i as int]);
            assert(l@.skip(i as int).drop_first() =~= l@.skip(i + 1));
            lemma_hash_run_bounds(l@.skip(i as int));
        }
        if l.get_char(i) != '#' {
            return i;
        }
        i = i + 1;
    }
    proof {
        assert(l@.skip(n as int).len() == 0);
    }
    n
}

/// How many scalars the eraser strips from the front of this line.
fn line_strip_len(l: &str) -> (r: usize)
    ensures
        r == line_strip(l@),
        r <= l@.len(),
{
    let n = l.unicode_len();
    let hashes = hash_run_len(l);
    if hashes >= 1 && hashes < n && l.get_char(hashes) == ' ' {
        return hashes + 1;
    }
    if n >= 2 {
        let c0 = l.get_char(0);
        if (c0 == '-' || c0 == '*' || c0 == '+') && l.get_char(1) == ' ' {
            return 2;
        }
    }
    0
}

/// Whether this line opens a code fence.
fn is_fence(l: &str) -> (r: bool)
    ensures
        r == is_fence_line(l@),
{
    let n = l.unicode_len();
    if n < 3 {
        return false;
    }
    let c0 = l.get_char(0);
    let c1 = l.get_char(1);
    let c2 = l.get_char(2);
    (c0 == '`' && c1 == '`' && c2 == '`') || (c0 == '~' && c1 == '~' && c2 == '~')
}

/// Whether this scalar is an inline marker the eraser drops.
fn is_emphasis_char(c: char) -> (r: bool)
    ensures
        r == is_emphasis(c),
{
    c == '*' || c == '_' || c == '`'
}

/// Append the kept runs of one line's stripped tail to the plain text, and
/// their entries to the map: one entry per maximal run of scalars that are
/// not inline markers. `cb` is the line's byte offset in the chunk content;
/// `pb0` is where the next write lands in the plain text.
#[verifier::rlimit(100)]
fn erase_line_tail(
    l: &str,
    strip: usize,
    cb: usize,
    pb0: usize,
    plain: &mut String,
    map: &mut Vec<(ByteRange, ByteRange)>,
) -> (pb_end: usize)
    requires
        strip as int <= l@.len(),
        pb0 == byte_len(old(plain)@),
        pb0 <= cb + byte_len(l@.take(strip as int)),
        cb + byte_len(l@) <= usize::MAX,
    ensures
        final (plain)@ == old(plain)@ + erase_inline(l@.skip(strip as int)),
        final (map)@ == old(map)@ + inline_entries(
            l@.skip(strip as int),
            cb + byte_len(l@.take(strip as int)),
            pb0 as int,
        ),
        pb_end == byte_len(final (plain)@),
        pb_end <= cb + byte_len(l@),
{
    let ghost lv = l@;
    let ghost plain0 = plain@;
    let ghost map0 = map@;
    let chars = l.unicode_len();
    let mut j: usize = strip;
    let stripped = l.substring_char(0, strip);
    let bj0 = stripped.len();
    proof {
        assert(stripped@ =~= lv.take(strip as int));
        lemma_byte_len_take_mono(lv, strip as int, lv.len() as int);
        assert(lv.take(lv.len() as int) =~= lv);
    }
    let mut bj: usize = bj0;
    let mut pb_cur: usize = pb0;
    while j < chars
        invariant
            strip <= j <= chars,
            chars == lv.len(),
            lv == l@,
            bj == byte_len(lv.take(j as int)),
            cb + byte_len(lv) <= usize::MAX,
            pb_cur <= cb + bj,
            pb_cur == byte_len(plain@),
            plain0 + erase_inline(lv.skip(strip as int)) == plain@ + erase_inline(
                lv.skip(j as int),
            ),
            map0 + inline_entries(
                lv.skip(strip as int),
                cb + byte_len(lv.take(strip as int)),
                pb0 as int,
            ) == map@ + inline_entries(lv.skip(j as int), cb + bj, pb_cur as int),
        decreases chars - j,
    {
        proof {
            assert(lv.skip(j as int)[0] == lv[j as int]);
            assert(lv.skip(j as int).drop_first() =~= lv.skip(j + 1));
            lemma_byte_len_take_succ(lv, j as int);
            lemma_byte_len_take_mono(lv, j + 1, chars as int);
            assert(lv.take(chars as int) =~= lv);
        }
        let c = l.get_char(j);
        if is_emphasis_char(c) {
            let w = char_utf8_width(c);
            bj = bj + w;
            j = j + 1;
        } else {
            let mut k: usize = j + 1;
            let mut run_done = false;
            while k < chars && !run_done
                invariant
                    strip <= j < k <= chars,
                    chars == lv.len(),
                    lv == l@,
                    forall|m: int| j <= m < k ==> !is_emphasis(lv[m]),
                    run_done ==> k < chars && is_emphasis(lv[k as int]),
                decreases chars - k, (if run_done {
                    0int
                } else {
                    1int
                }),
            {
                let c2 = l.get_char(k);
                if is_emphasis_char(c2) {
                    run_done = true;
                } else {
                    k = k + 1;
                }
            }
            let piece = l.substring_char(j, k);
            let rb = piece.len();
            proof {
                let t = lv.skip(j as int);
                assert(piece@ =~= lv.subrange(j as int, k as int));
                assert(t.take(k - j) =~= lv.subrange(j as int, k as int));
                assert(t.skip(k - j) =~= lv.skip(k as int));
                assert(forall|m: int| 0 <= m < k - j ==> t[m] == lv[j + m]);
                lemma_run_len_exact(t, k - j);
                lemma_run_len_bounds(t.drop_first());
                assert(t.drop_first() =~= lv.skip(j + 1));
                lemma_erase_inline_run(t, k - j);
                assert(lv.take(k as int) =~= lv.take(j as int) + lv.subrange(j as int, k as int));
                lemma_byte_len_concat(lv.take(j as int), lv.subrange(j as int, k as int));
                lemma_byte_len_take_mono(lv, k as int, chars as int);
                assert(rb == byte_len(t.take(k - j)));
                lemma_byte_len_concat(plain@, piece@);
            }
            let entry = (
                ByteRange { start: pb_cur, end: pb_cur + rb },
                ByteRange { start: cb + bj, end: cb + bj + rb },
            );
            let ghost plain_before = plain@;
            let ghost map_before = map@;
            plain.append(piece);
            map.push(entry);
            proof {
                assert(plain@ =~= plain_before + piece@);
                assert(map@ =~= map_before.push(entry));
                let t = lv.skip(j as int);
                assert(inline_entries(t, cb + bj, pb_cur as int) == seq![entry] + inline_entries(
                    lv.skip(k as int),
                    cb + bj + rb,
                    pb_cur + rb,
                ));
                assert(map_before + (seq![entry] + inline_entries(
                    lv.skip(k as int),
                    cb + bj + rb,
                    pb_cur + rb,
                )) =~= map_before.push(entry) + inline_entries(
                    lv.skip(k as int),
                    cb + bj + rb,
                    pb_cur + rb,
                ));
                assert(plain_before + (t.take(k - j) + erase_inline(lv.skip(k as int))) =~= (
                plain_before + piece@) + erase_inline(lv.skip(k as int)));
            }
            pb_cur = pb_cur + rb;
            bj = bj + rb;
            j = k;
        }
    }
    proof {
        assert(lv.skip(chars as int).len() == 0);
        assert(erase_inline(lv.skip(chars as int)) == Seq::<char>::empty());
        assert(inline_entries(lv.skip(chars as int), cb + bj, pb_cur as int) == Seq::<(
            ByteRange,
            ByteRange,
        )>::empty());
        assert(plain@ + Seq::<char>::empty() =~= plain@);
        assert(map@ + Seq::<(ByteRange, ByteRange)>::empty() =~= map@);
        assert(lv.take(chars as int) =~= lv);
    }
    pb_cur
}

impl CheckableChunk {
    /// The plain overlay of this chunk: Markdown structure erased, with the
    /// map back to the chunk's content.
    #[verifier::rlimit(100)]
    pub fn erase_markdown(&self) -> (r: PlainOverlay)
        requires
            byte_len(self.content@) < usize::MAX,
        ensures
            r.plain@ == overlay_plain(split_lines(self.content@), 0, false, false),
            r.chunk_map@ == overlay_entries(split_lines(self.content@), 0, false, false, 0, 0),
    {
        let ghost lines_spec = split_lines(self.content@);
        let ghost total = byte_len(self.content@) as int;
        let lines = split_on_newlines(self.content.as_str());
        let n = lines.len();
        let mut plain = String::new();
        let mut map: Vec<(ByteRange, ByteRange)> = Vec::new();
        let mut any_kept = false;
        let mut prev_blank = false;
        let mut cb: usize = 0;
        let mut pb: usize = 0;
        let mut i: usize = 0;
        proof {
            lemma_join_split(self.content@);
        }
        while i < n
            invariant
                0 <= i <= n,
                n == lines@.len(),
                lines@.map_values(|x: String| x@) == lines_spec,
                lines_spec == split_lines(self.content@),
                total == byte_len(self.content@),
                total < usize::MAX,
                i < n ==> cb + byte_len(join_from(lines_spec, i as int)) == total,
                i == n ==> cb <= total + 1,
                !any_kept ==> pb == 0,
                any_kept && i < n ==> pb + 1 <= cb,
                pb <= total,
                pb == byte_len(plain@),
                overlay_plain(lines_spec, 0, false, false) == plain@ + overlay_plain(
                    lines_spec,
                    i as int,
                    any_kept,
                    prev_blank,
                ),
                overlay_entries(lines_spec, 0, false, false, 0, 0) == map@ + overlay_entries(
                    lines_spec,
                    i as int,
                    any_kept,
                    prev_blank,
                    cb as int,
                    pb as int,
                ),
            decreases n - i,
        {
            let l = &lines[i];
            proof {
                assert(lines@.map_values(|x: String| x@)[i as int] == lines@[i as int]@);
                if i + 1 < n {
                    assert(join_from(lines_spec, i as int) == lines_spec[i as int] + seq!['\n']
                        + join_from(lines_spec, i + 1));
                    lemma_byte_len_concat(
                        lines_spec[i as int] + seq!['\n'],
                        join_from(lines_spec, i + 1),
                    );
                    lemma_byte_len_concat(lines_spec[i as int], seq!['\n']);
                    lemma_byte_len_singleton('\n');
                } else {
                    assert(join_from(lines_spec, i as int) == lines_spec[i as int]);
                }
            }
            let lb = l.as_str().len();
            let ghost prev_plain = plain@;
            let ghost prev_map = map@;
            let ghost old_cb = cb as int;
            let ghost old_pb = pb as int;
            let ghost old_any = any_kept;
            let ghost old_blank = prev_blank;
            let fence = is_fence(l.as_str());
            let blank_skip = !fence && l.as_str().is_empty() && prev_blank;
            if !fence && !blank_skip {
                let strip = line_strip_len(l.as_str());
                let ghost tail = lines_spec[i as int].skip(line_strip(lines_spec[i as int]));
                let pb0: usize = if any_kept {
                    pb + 1
                } else {
                    pb
                };
                let ghost sep: Seq<char> = if any_kept {
                    seq!['\n']
                } else {
                    Seq::<char>::empty()
                };
                if any_kept {
                    let nl = "\n";
                    proof {
                        reveal_strlit("\n");
                        assert(nl@ =~= seq!['\n']);
                        lemma_byte_len_concat(plain@, nl@);
                        lemma_byte_len_singleton('\n');
                    }
                    plain.append(nl);
                }
                proof {
                    assert(lines_spec[i as int] =~= lines_spec[i as int].take(strip as int)
                        + lines_spec[i as int].skip(strip as int));
                    lemma_byte_len_concat(
                        lines_spec[i as int].take(strip as int),
                        lines_spec[i as int].skip(strip as int),
                    );
                }
                let pb_end = erase_line_tail(l.as_str(), strip, cb, pb0, &mut plain, &mut map);
                prev_blank = lb == 0;
                any_kept = true;
                pb = pb_end;
                proof {
                    let strip_b = byte_len(lines_spec[i as int].take(line_strip(
                        lines_spec[i as int],
                    ))) as int;
                    assert(plain@ =~= (prev_plain + sep) + erase_inline(tail));
                    assert(overlay_plain(lines_spec, i as int, old_any, old_blank) == sep
                        + erase_inline(tail) + overlay_plain(
                        lines_spec,
                        i + 1,
                        true,
                        lines_spec[i as int].len() == 0,
                    ));
                    assert(prev_plain + (sep + erase_inline(tail) + overlay_plain(
                        lines_spec,
                        i + 1,
                        true,
                        lines_spec[i as int].len() == 0,
                    )) =~= plain@ + overlay_plain(
                        lines_spec,
                        i + 1,
                        true,
                        lines_spec[i as int].len() == 0,
                    ));
                    assert(overlay_entries(lines_spec, i as int, old_any, old_blank, old_cb, old_pb)
                        == inline_entries(tail, old_cb + strip_b, pb0 as int) + overlay_entries(
                        lines_spec,
                        i + 1,
                        true,
                        lines_spec[i as int].len() == 0,
                        old_cb + lb + 1,
                        pb0 + byte_len(erase_inline(tail)),
                    ));
                    assert(pb_end == pb0 + byte_len(erase_inline(tail))) by {
                        lemma_byte_len_concat(prev_plain + sep, erase_inline(tail));
                        lemma_byte_len_concat(prev_plain, sep);
                        if old_any {
                            lemma_byte_len_singleton('\n');
                        } else {
                            assert(sep =~= Seq::<char>::empty());
                        }
                    }
                    assert(prev_map + (inline_entries(tail, old_cb + strip_b, pb0 as int)
                        + overlay_entries(
                        lines_spec,
                        i + 1,
                        true,
                        lines_spec[i as int].len() == 0,
                        old_cb + lb + 1,
                        pb_end as int,
                    )) =~= map@ + overlay_entries(
                        lines_spec,
                        i + 1,
                        true,
                        lines_spec[i as int].len() == 0,
                        old_cb + lb + 1,
                        pb_end as int,
                    ));
                }
            } else {
                proof {
                    if fence {
                        assert(overlay_plain(lines_spec, i as int, old_any, old_blank)
                            == overlay_plain(lines_spec, i + 1, old_any, old_blank));
                        assert(overlay_entries(
                            lines_spec,
                            i as int,
                            old_any,
                            old_blank,
                            old_cb,
                            old_pb,
                        ) == overlay_entries(
                            lines_spec,
                            i + 1,
                            old_any,
                            old_blank,
                            old_cb + lb + 1,
                            old_pb,
                        ));
                    } else {
                        assert(lines_spec[i as int].len() == 0);
                        assert(overlay_plain(lines_spec, i as int, old_any, old_blank)
                            == overlay_plain(lines_spec, i + 1, old_any, true));
                        assert(overlay_entries(
                            lines_spec,
                            i as int,
                            old_any,
                            old_blank,
                            old_cb,
                            old_pb,
                        ) == overlay_entries(
                            lines_spec,
                            i + 1,
                            old_any,
                            true,
                            old_cb + lb + 1,
                            old_pb,
                        ));
                    }
                }
            }
            cb = cb + lb;
            if i + 1 < n {
                cb = cb + 1;
            }
            i = i + 1;
            proof {
                if i < n {
                    assert(cb + byte_len(join_from(lines_spec, i as int)) == total);
                }
            }
        }
        PlainOverlay { plain, chunk_map: map }
    }
}

} // verus!
