//! The plain-text splitter: where a text is cut, stated over positions.

use vstd::prelude::*;
use vstd::string::StrSliceExecFns;
use crate::document::{doc_views, str_views, Document, SplitError};

verus! {

/// The first position at or after `i` where `sep` occurs within `text[..end]`,
/// or `end` where it occurs at none. An empty separator occurs nowhere.
pub open spec fn next_cut(text: Seq<char>, sep: Seq<char>, i: int, end: int) -> int
    decreases end - i,
{
    if sep.len() == 0 || i < 0 || end > text.len() || i + sep.len() > end {
        end
    } else if text.subrange(i, i + sep.len()) == sep {
        i
    } else {
        next_cut(text, sep, i + 1, end)
    }
}

/// The cuts that divide `(a, b]` into runs of exactly `limit` characters and a
/// shorter last one.
pub open spec fn hard_cuts(limit: int, a: int, b: int) -> Seq<int>
    decreases b - a,
{
    if limit <= 0 || a >= b {
        Seq::empty()
    } else if b - a <= limit {
        seq![b]
    } else {
        seq![a + limit] + hard_cuts(limit, a + limit, b)
    }
}

/// The ends of the pieces of `text[a..b]`: the range itself where it fits in
/// `limit`; else its segments before each occurrence of the separator `seps[k]`,
/// each divided by the separators after `k` in turn; with no separator left,
/// hard cuts.
pub open spec fn piece_cuts(
    text: Seq<char>,
    seps: Seq<Seq<char>>,
    limit: int,
    k: int,
    a: int,
    b: int,
) -> Seq<int>
    decreases seps.len() - k, b - a, 1int,
{
    if a >= b || limit <= 0 || k < 0 {
        Seq::empty()
    } else if b - a <= limit {
        seq![b]
    } else if k >= seps.len() {
        hard_cuts(limit, a, b)
    } else {
        segment_cuts(text, seps, limit, k, a, b)
    }
}

/// The ends of the pieces of `text[a..b]` once it is divided before every
/// occurrence of `seps[k]` that starts after `a`.
pub open spec fn segment_cuts(
    text: Seq<char>,
    seps: Seq<Seq<char>>,
    limit: int,
    k: int,
    a: int,
    b: int,
) -> Seq<int>
    decreases seps.len() - k, b - a, 0int,
{
    if a >= b || limit <= 0 || k < 0 || k >= seps.len() {
        Seq::empty()
    } else {
        let e = next_cut(text, seps[k], a + 1, b);
        if a < e <= b {
            piece_cuts(text, seps, limit, k + 1, a, e) + segment_cuts(text, seps, limit, k, e, b)
        } else {
            Seq::empty()
        }
    }
}

/// Greedy merging: of the cuts from index `i` on, those that stay when a chunk
/// that began at `start` takes every following piece that still fits in `limit`.
pub open spec fn merge_cuts(cuts: Seq<int>, limit: int, start: int, i: int) -> Seq<int>
    decreases cuts.len() - i,
{
    if i < 0 || i >= cuts.len() {
        Seq::empty()
    } else if i + 1 < cuts.len() && cuts[i + 1] - start <= limit {
        merge_cuts(cuts, limit, start, i + 1)
    } else {
        seq![cuts[i]] + merge_cuts(cuts, limit, cuts[i], i + 1)
    }
}

/// The ends of the chunk bodies of `text`: its pieces, merged greedily.
pub open spec fn chunk_cuts(text: Seq<char>, seps: Seq<Seq<char>>, limit: int) -> Seq<int> {
    merge_cuts(piece_cuts(text, seps, limit, 0, 0, text.len() as int), limit, 0, 0)
}

/// Where chunk `i` begins: `overlap` characters before the end of the chunk
/// before it, or at the start of the text where that would fall before it.
pub open spec fn chunk_start(cuts: Seq<int>, overlap: int, i: int) -> int {
    if i <= 0 || cuts[i - 1] - overlap < 0 {
        0
    } else {
        cuts[i - 1] - overlap
    }
}

/// The chunks of `text`: bodies of at most `max_size - overlap` characters, each
/// but the first prefixed with the last `overlap` characters of the chunk before
/// it (with all of it where it is shorter).
pub open spec fn chunks_of(
    text: Seq<char>,
    seps: Seq<Seq<char>>,
    max_size: int,
    overlap: int,
) -> Seq<Seq<char>> {
    let cuts = chunk_cuts(text, seps, max_size - overlap);
    Seq::new(cuts.len(), |i: int| text.subrange(chunk_start(cuts, overlap, i), cuts[i]))
}

/// The end of the piece or chunk before index `i`, or `a` for the first: where
/// the body of the one at `i` begins.
pub open spec fn cut_before(cuts: Seq<int>, a: int, i: int) -> int {
    if i <= 0 {
        a
    } else {
        cuts[i - 1]
    }
}

/// The run that ends at cut `i` is non-empty, at most `limit` long, and lies
/// within `(a, b]`.
pub open spec fn cut_fits(cuts: Seq<int>, a: int, b: int, limit: int, i: int) -> bool {
    &&& cut_before(cuts, a, i) < cuts[i]
    &&& cuts[i] <= cut_before(cuts, a, i) + limit
    &&& a < cuts[i] <= b
}

/// `cuts` divides `(a, b]` into non-empty runs of at most `limit` characters.
pub open spec fn cuts_cover(cuts: Seq<int>, a: int, b: int, limit: int) -> bool {
    &&& a < b ==> cuts.len() > 0 && cuts.last() == b
    &&& a >= b ==> cuts.len() == 0
    &&& forall|i: int| 0 <= i < cuts.len() ==> #[trigger] cut_fits(cuts, a, b, limit, i)
}

proof fn lemma_cover_join(x: Seq<int>, y: Seq<int>, a: int, m: int, b: int, limit: int)
    requires
        cuts_cover(x, a, m, limit),
        cuts_cover(y, m, b, limit),
        a <= m <= b,
    ensures
        cuts_cover(x + y, a, b, limit),
{
    let z = x + y;
    if a == m {
        assert(z =~= y);
    } else if m == b {
        assert(z =~= x);
    } else {
        assert(z.last() == y.last());
        assert forall|i: int| 0 <= i < z.len() implies #[trigger] cut_fits(z, a, b, limit, i) by {
            if i < x.len() {
                assert(cut_fits(x, a, m, limit, i));
                assert(z[i] == x[i]);
                if i > 0 {
                    assert(z[i - 1] == x[i - 1]);
                }
            } else {
                let j = i - x.len();
                assert(cut_fits(y, m, b, limit, j));
                assert(z[i] == y[j]);
                if j > 0 {
                    assert(z[i - 1] == y[j - 1]);
                } else {
                    assert(z[i - 1] == x.last());
                }
            }
        }
    }
}

proof fn lemma_hard_cuts(limit: int, a: int, b: int)
    requires
        limit > 0,
        a <= b,
    ensures
        cuts_cover(hard_cuts(limit, a, b), a, b, limit),
    decreases b - a,
{
    if a < b && b - a > limit {
        lemma_hard_cuts(limit, a + limit, b);
        assert(cut_fits(seq![a + limit], a, a + limit, limit, 0));
        lemma_cover_join(seq![a + limit], hard_cuts(limit, a + limit, b), a, a + limit, b, limit);
    }
}

proof fn lemma_next_cut(text: Seq<char>, sep: Seq<char>, i: int, end: int)
    requires
        i <= end,
    ensures
        i <= next_cut(text, sep, i, end) <= end,
    decreases end - i,
{
    if !(sep.len() == 0 || i < 0 || end > text.len() || i + sep.len() > end) && text.subrange(
        i,
        i + sep.len(),
    ) != sep {
        lemma_next_cut(text, sep, i + 1, end);
    }
}

proof fn lemma_piece_cuts(
    text: Seq<char>,
    seps: Seq<Seq<char>>,
    limit: int,
    k: int,
    a: int,
    b: int,
)
    requires
        limit > 0,
        0 <= k,
        a <= b,
    ensures
        cuts_cover(piece_cuts(text, seps, limit, k, a, b), a, b, limit),
    decreases seps.len() - k, b - a, 1int,
{
    if a < b && b - a > limit {
        if k >= seps.len() {
            lemma_hard_cuts(limit, a, b);
        } else {
            lemma_segment_cuts(text, seps, limit, k, a, b);
        }
    }
}

proof fn lemma_segment_cuts(
    text: Seq<char>,
    seps: Seq<Seq<char>>,
    limit: int,
    k: int,
    a: int,
    b: int,
)
    requires
        limit > 0,
        0 <= k < seps.len(),
        a <= b,
    ensures
        cuts_cover(segment_cuts(text, seps, limit, k, a, b), a, b, limit),
    decreases seps.len() - k, b - a, 0int,
{
    if a < b {
        let e = next_cut(text, seps[k], a + 1, b);
        lemma_next_cut(text, seps[k], a + 1, b);
        lemma_piece_cuts(text, seps, limit, k + 1, a, e);
        lemma_segment_cuts(text, seps, limit, k, e, b);
        lemma_cover_join(
            piece_cuts(text, seps, limit, k + 1, a, e),
            segment_cuts(text, seps, limit, k, e, b),
            a,
            e,
            b,
            limit,
        );
    }
}

proof fn lemma_merge_cuts(cuts: Seq<int>, a: int, b: int, limit: int, start: int, i: int)
    requires
        cuts_cover(cuts, a, b, limit),
        0 <= i < cuts.len(),
        start < cuts[i] <= start + limit,
    ensures
        cuts_cover(merge_cuts(cuts, limit, start, i), start, b, limit),
    decreases cuts.len() - i,
{
    assert(cut_fits(cuts, a, b, limit, i));
    if i + 1 < cuts.len() {
        assert(cut_fits(cuts, a, b, limit, i + 1));
        assert(cuts[i] < cuts[i + 1] <= cuts[i] + limit);
        if cuts[i + 1] - start <= limit {
            lemma_merge_cuts(cuts, a, b, limit, start, i + 1);
        } else {
            lemma_merge_cuts(cuts, a, b, limit, cuts[i], i + 1);
            assert(cut_fits(seq![cuts[i]], start, cuts[i], limit, 0));
            lemma_cover_join(
                seq![cuts[i]],
                merge_cuts(cuts, limit, cuts[i], i + 1),
                start,
                cuts[i],
                b,
                limit,
            );
        }
    } else {
        assert(cuts[i] == cuts.last());
        assert(merge_cuts(cuts, limit, cuts[i], i + 1) =~= Seq::<int>::empty());
        assert(merge_cuts(cuts, limit, start, i) =~= seq![cuts[i]]);
        assert(cut_fits(seq![cuts[i]], start, b, limit, 0));
    }
}

/// The chunk bodies of a text divide it: their ends rise strictly from the
/// first to the text's length, no two more than `limit` apart.
pub proof fn lemma_chunk_cuts_cover(text: Seq<char>, seps: Seq<Seq<char>>, limit: int)
    requires
        limit > 0,
    ensures
        cuts_cover(chunk_cuts(text, seps, limit), 0, text.len() as int, limit),
{
    let n = text.len() as int;
    let pieces = piece_cuts(text, seps, limit, 0, 0, n);
    lemma_piece_cuts(text, seps, limit, 0, 0, n);
    if n > 0 {
        assert(cut_fits(pieces, 0, n, limit, 0));
        lemma_merge_cuts(pieces, 0, n, limit, 0, 0);
    }
}

/// The bodies of the chunks of `text`: each chunk without its overlap prefix.
pub open spec fn chunk_bodies(text: Seq<char>, seps: Seq<Seq<char>>, limit: int) -> Seq<Seq<char>> {
    let cuts = chunk_cuts(text, seps, limit);
    Seq::new(cuts.len(), |i: int| text.subrange(cut_before(cuts, 0, i), cuts[i]))
}

/// The parts, one after the other.
pub open spec fn concat(parts: Seq<Seq<char>>) -> Seq<char>
    decreases parts.len(),
{
    if parts.len() == 0 {
        Seq::empty()
    } else {
        concat(parts.drop_last()) + parts.last()
    }
}

/// The smaller of two numbers.
pub open spec fn least(x: int, y: int) -> int {
    if x <= y {
        x
    } else {
        y
    }
}

/// With an overlap smaller than the chunk size, every chunk is non-empty and
/// holds at most `max_size` characters; an empty text has no chunks, any other
/// has at least one.
pub proof fn lemma_chunk_size_bound(
    text: Seq<char>,
    seps: Seq<Seq<char>>,
    max_size: int,
    overlap: int,
)
    requires
        0 <= overlap < max_size,
    ensures
        (chunks_of(text, seps, max_size, overlap).len() == 0) == (text.len() == 0),
        forall|i: int|
            0 <= i < chunks_of(text, seps, max_size, overlap).len() ==> 0 < (#[trigger] chunks_of(
                text,
                seps,
                max_size,
                overlap,
            )[i]).len() <= max_size,
{
    let limit = max_size - overlap;
    let n = text.len() as int;
    let cuts = chunk_cuts(text, seps, limit);
    let chunks = chunks_of(text, seps, max_size, overlap);
    lemma_chunk_cuts_cover(text, seps, limit);
    assert forall|i: int| 0 <= i < chunks.len() implies 0 < (#[trigger] chunks[i]).len()
        <= max_size by {
        assert(cut_fits(cuts, 0, n, limit, i));
        if i > 0 {
            assert(cut_fits(cuts, 0, n, limit, i - 1));
        }
    }
}

/// With a positive overlap, each chunk after the first begins with the last
/// `overlap` characters of the chunk before it, or with all of that chunk
/// where it holds fewer.
pub proof fn lemma_chunks_overlap(
    text: Seq<char>,
    seps: Seq<Seq<char>>,
    max_size: int,
    overlap: int,
    i: int,
)
    requires
        0 < overlap < max_size,
        0 <= i,
        i + 1 < chunks_of(text, seps, max_size, overlap).len(),
    ensures
        ({
            let chunks = chunks_of(text, seps, max_size, overlap);
            let shared = least(overlap, chunks[i].len() as int);
            &&& shared <= chunks[i + 1].len()
            &&& chunks[i + 1].subrange(0, shared) == chunks[i].subrange(
                chunks[i].len() - shared,
                chunks[i].len() as int,
            )
        }),
{
    let limit = max_size - overlap;
    let n = text.len() as int;
    let cuts = chunk_cuts(text, seps, limit);
    let chunks = chunks_of(text, seps, max_size, overlap);
    lemma_chunk_cuts_cover(text, seps, limit);
    assert(cut_fits(cuts, 0, n, limit, i));
    assert(cut_fits(cuts, 0, n, limit, i + 1));
    if i > 0 {
        assert(cut_fits(cuts, 0, n, limit, i - 1));
    }
    let shared = least(overlap, chunks[i].len() as int);
    assert(chunk_start(cuts, overlap, i + 1) == cuts[i] - shared);
    assert(chunks[i + 1].subrange(0, shared) =~= text.subrange(cuts[i] - shared, cuts[i]));
    assert(chunks[i].subrange(chunks[i].len() - shared, chunks[i].len() as int) =~= text.subrange(
        cuts[i] - shared,
        cuts[i],
    ));
}

proof fn lemma_bodies_prefix(text: Seq<char>, seps: Seq<Seq<char>>, limit: int, j: int)
    requires
        limit > 0,
        0 <= j <= chunk_cuts(text, seps, limit).len(),
    ensures
        concat(chunk_bodies(text, seps, limit).take(j)) == text.subrange(
            0,
            cut_before(chunk_cuts(text, seps, limit), 0, j),
        ),
    decreases j,
{
    let n = text.len() as int;
    let cuts = chunk_cuts(text, seps, limit);
    let bodies = chunk_bodies(text, seps, limit);
    lemma_chunk_cuts_cover(text, seps, limit);
    if j == 0 {
        assert(concat(bodies.take(0)) =~= text.subrange(0, 0));
    } else {
        lemma_bodies_prefix(text, seps, limit, j - 1);
        assert(cut_fits(cuts, 0, n, limit, j - 1));
        if j > 1 {
            assert(cut_fits(cuts, 0, n, limit, j - 2));
        }
        assert(bodies.take(j).drop_last() =~= bodies.take(j - 1));
        assert(bodies.take(j).last() == text.subrange(cut_before(cuts, 0, j - 1), cuts[j - 1]));
        assert(text.subrange(0, cut_before(cuts, 0, j - 1)) + text.subrange(
            cut_before(cuts, 0, j - 1),
            cuts[j - 1],
        ) =~= text.subrange(0, cuts[j - 1]));
    }
}

/// The chunk bodies, one after the other, are the text: nothing is lost,
/// added or moved, whatever the separators and the sizes.
pub proof fn lemma_bodies_rebuild(text: Seq<char>, seps: Seq<Seq<char>>, limit: int)
    requires
        limit > 0,
    ensures
        concat(chunk_bodies(text, seps, limit)) == text,
{
    let cuts = chunk_cuts(text, seps, limit);
    let bodies = chunk_bodies(text, seps, limit);
    lemma_chunk_cuts_cover(text, seps, limit);
    lemma_bodies_prefix(text, seps, limit, cuts.len() as int);
    assert(bodies.take(cuts.len() as int) =~= bodies);
    if cuts.len() > 0 {
        assert(text.subrange(0, text.len() as int) =~= text);
    } else {
        assert(text =~= text.subrange(0, 0));
    }
}

/// Each chunk is its body behind a prefix of at most `overlap` characters:
/// without that prefix it is the body.
pub proof fn lemma_chunk_without_prefix(
    text: Seq<char>,
    seps: Seq<Seq<char>>,
    max_size: int,
    overlap: int,
    i: int,
)
    requires
        0 <= overlap < max_size,
        0 <= i < chunks_of(text, seps, max_size, overlap).len(),
    ensures
        ({
            let cuts = chunk_cuts(text, seps, max_size - overlap);
            let chunk = chunks_of(text, seps, max_size, overlap)[i];
            let prefix = cut_before(cuts, 0, i) - chunk_start(cuts, overlap, i);
            &&& 0 <= prefix <= overlap
            &&& prefix < chunk.len()
            &&& chunk.subrange(prefix, chunk.len() as int) == chunk_bodies(
                text,
                seps,
                max_size - overlap,
            )[i]
        }),
{
    let limit = max_size - overlap;
    let n = text.len() as int;
    let cuts = chunk_cuts(text, seps, limit);
    let chunk = chunks_of(text, seps, max_size, overlap)[i];
    let prefix = cut_before(cuts, 0, i) - chunk_start(cuts, overlap, i);
    lemma_chunk_cuts_cover(text, seps, limit);
    assert(cut_fits(cuts, 0, n, limit, i));
    if i > 0 {
        assert(cut_fits(cuts, 0, n, limit, i - 1));
    }
    assert(chunk.subrange(prefix, chunk.len() as int) =~= text.subrange(
        cut_before(cuts, 0, i),
        cuts[i],
    ));
}

/// Without overlap the chunks, one after the other, are the text; so
/// splitting what they rebuild gives the same chunks again.
pub proof fn lemma_split_rebuilds(text: Seq<char>, seps: Seq<Seq<char>>, max_size: int)
    requires
        max_size > 0,
    ensures
        concat(chunks_of(text, seps, max_size, 0)) == text,
        chunks_of(concat(chunks_of(text, seps, max_size, 0)), seps, max_size, 0) == chunks_of(
            text,
            seps,
            max_size,
            0,
        ),
{
    let n = text.len() as int;
    let cuts = chunk_cuts(text, seps, max_size);
    lemma_chunk_cuts_cover(text, seps, max_size);
    lemma_bodies_rebuild(text, seps, max_size);
    assert forall|i: int| 0 <= i < cuts.len() implies chunk_start(cuts, 0, i) == cut_before(cuts, 0, i) by {
        if i > 0 {
            assert(cut_fits(cuts, 0, n, max_size, i - 1));
        }
    }
    assert(chunks_of(text, seps, max_size, 0) =~= chunk_bodies(text, seps, max_size));
}

/// The chunks of one document, each under the document's path.
pub open spec fn split_one(
    doc: (Seq<char>, Seq<char>),
    seps: Seq<Seq<char>>,
    max_size: int,
    overlap: int,
) -> Seq<(Seq<char>, Seq<char>)> {
    let chunks = chunks_of(doc.1, seps, max_size, overlap);
    Seq::new(chunks.len(), |i: int| (doc.0, chunks[i]))
}

/// The chunks of every document, in the documents' order.
pub open spec fn split_all(
    docs: Seq<(Seq<char>, Seq<char>)>,
    seps: Seq<Seq<char>>,
    max_size: int,
    overlap: int,
) -> Seq<(Seq<char>, Seq<char>)>
    decreases docs.len(),
{
    if docs.len() == 0 {
        Seq::empty()
    } else {
        split_all(docs.drop_last(), seps, max_size, overlap) + split_one(
            docs.last(),
            seps,
            max_size,
            overlap,
        )
    }
}

/// With an overlap smaller than the chunk size, every chunk of every
/// document is non-empty and holds at most `max_size` characters.
pub proof fn lemma_split_all_bound(
    docs: Seq<(Seq<char>, Seq<char>)>,
    seps: Seq<Seq<char>>,
    max_size: int,
    overlap: int,
)
    requires
        0 <= overlap < max_size,
    ensures
        forall|i: int|
            0 <= i < split_all(docs, seps, max_size, overlap).len() ==> 0 < (#[trigger] split_all(
                docs,
                seps,
                max_size,
                overlap,
            )[i]).1.len() <= max_size,
    decreases docs.len(),
{
    if docs.len() > 0 {
        let before = split_all(docs.drop_last(), seps, max_size, overlap);
        let here = split_one(docs.last(), seps, max_size, overlap);
        let chunks = chunks_of(docs.last().1, seps, max_size, overlap);
        lemma_split_all_bound(docs.drop_last(), seps, max_size, overlap);
        lemma_chunk_size_bound(docs.last().1, seps, max_size, overlap);
        assert forall|i: int| 0 <= i < (before + here).len() implies 0 < (#[trigger] (before
            + here)[i]).1.len() <= max_size by {
            if i >= before.len() {
                assert((before + here)[i] == here[i - before.len()]);
                assert(here[i - before.len()].1 == chunks[i - before.len()]);
            }
        }
    }
}

/// Cut positions as mathematical integers.
pub open spec fn cut_ints(cuts: Seq<usize>) -> Seq<int> {
    Seq::new(cuts.len(), |i: int| cuts[i] as int)
}

/// The separators as character sequences.
pub open spec fn sep_seqs(seps: Seq<Vec<char>>) -> Seq<Seq<char>> {
    Seq::new(seps.len(), |i: int| seps[i]@)
}

/// The characters of a string, for access by position.
pub fn to_chars(s: &str) -> (v: Vec<char>)
    ensures
        v@ == s@,
{
    broadcast use vstd::string::axiom_spec_iter;

    let mut v: Vec<char> = Vec::new();
    for c in it: s.chars()
        invariant
            it.seq() == s@,
            v@ == s@.subrange(0, it.index()),
    {
        v.push(c);
        proof {
            assert(v@ =~= s@.subrange(0, it.index() + 1));
        }
    }
    proof {
        assert(v@ =~= s@);
    }
    v
}

fn to_char_seps(seps: &Vec<String>) -> (v: Vec<Vec<char>>)
    ensures
        sep_seqs(v@) == str_views(seps@),
{
    let mut v: Vec<Vec<char>> = Vec::new();
    let mut i: usize = 0;
    while i < seps.len()
        invariant
            i <= seps.len(),
            v@.len() == i,
            forall|j: int| 0 <= j < i ==> (#[trigger] v@[j])@ == seps@[j]@,
        decreases seps.len() - i,
    {
        v.push(to_chars(seps[i].as_str()));
        i += 1;
    }
    proof {
        assert(sep_seqs(v@) =~= str_views(seps@));
    }
    v
}

fn occurs_at(text: &Vec<char>, sep: &Vec<char>, i: usize) -> (r: bool)
    requires
        i + sep.len() <= text.len(),
    ensures
        r == (text@.subrange(i as int, i + sep.len()) == sep@),
{
    let m = sep.len();
    let mut j: usize = 0;
    while j < m
        invariant
            j <= m,
            m == sep.len(),
            i + m <= text.len(),
            forall|t: int| 0 <= t < j ==> text@[i + t] == sep@[t],
        decreases m - j,
    {
        if text[i + j] != sep[j] {
            proof {
                assert(text@.subrange(i as int, i + m)[j as int] == text@[i + j]);
            }
            return false;
        }
        j += 1;
    }
    proof {
        assert(text@.subrange(i as int, i + m) =~= sep@);
    }
    true
}

fn find_next_cut(text: &Vec<char>, sep: &Vec<char>, from: usize, end: usize) -> (e: usize)
    requires
        from <= end <= text.len(),
    ensures
        e as int == next_cut(text@, sep@, from as int, end as int),
        from <= e <= end,
{
    let m = sep.len();
    let mut i: usize = from;
    while m > 0 && m <= end - i
        invariant
            from <= i <= end <= text.len(),
            m == sep.len(),
            next_cut(text@, sep@, i as int, end as int) == next_cut(
                text@,
                sep@,
                from as int,
                end as int,
            ),
        decreases end - i,
    {
        if occurs_at(text, sep, i) {
            return i;
        }
        i += 1;
    }
    end
}

fn push_hard_cuts(limit: usize, a: usize, b: usize, out: &mut Vec<usize>)
    requires
        limit > 0,
        a <= b,
    ensures
        cut_ints(final(out)@) == cut_ints(old(out)@) + hard_cuts(limit as int, a as int, b as int),
{
    let ghost before = cut_ints(out@);
    let ghost all = hard_cuts(limit as int, a as int, b as int);
    let mut cur: usize = a;
    while b - cur > limit
        invariant
            a <= cur <= b,
            limit > 0,
            cut_ints(out@) + hard_cuts(limit as int, cur as int, b as int) == before + all,
        decreases b - cur,
    {
        let ghost prev = cut_ints(out@);
        let ghost rest = hard_cuts(limit as int, cur as int, b as int);
        cur = cur + limit;
        out.push(cur);
        proof {
            let tail = hard_cuts(limit as int, cur as int, b as int);
            assert(rest == seq![cur as int] + tail);
            assert(cut_ints(out@) =~= prev + seq![cur as int]);
            assert(cut_ints(out@) + tail =~= prev + rest);
        }
    }
    let ghost prev = cut_ints(out@);
    if cur < b {
        out.push(b);
        proof {
            assert(cut_ints(out@) =~= prev + seq![b as int]);
        }
    } else {
        proof {
            assert(prev + Seq::<int>::empty() =~= prev);
        }
    }
}

fn push_piece_cuts(
    text: &Vec<char>,
    seps: &Vec<Vec<char>>,
    limit: usize,
    k: usize,
    a: usize,
    b: usize,
    out: &mut Vec<usize>,
)
    requires
        limit > 0,
        a <= b <= text.len(),
        k <= seps.len(),
    ensures
        cut_ints(final(out)@) == cut_ints(old(out)@) + piece_cuts(
            text@,
            sep_seqs(seps@),
            limit as int,
            k as int,
            a as int,
            b as int,
        ),
    decreases seps.len() - k,
{
    let ghost before = cut_ints(out@);
    let ghost sv = sep_seqs(seps@);
    let ghost all = piece_cuts(text@, sv, limit as int, k as int, a as int, b as int);
    if a >= b {
        proof {
            assert(before + Seq::<int>::empty() =~= before);
        }
        return;
    }
    if b - a <= limit {
        out.push(b);
        proof {
            assert(cut_ints(out@) =~= before + seq![b as int]);
        }
        return;
    }
    if k >= seps.len() {
        push_hard_cuts(limit, a, b, out);
        return;
    }
    let sep = &seps[k];
    let mut cur: usize = a;
    while cur < b
        invariant
            a <= cur <= b <= text.len(),
            limit > 0,
            k < seps.len(),
            sv == sep_seqs(seps@),
            sep@ == sv[k as int],
            cut_ints(out@) + segment_cuts(text@, sv, limit as int, k as int, cur as int, b as int)
                == before + all,
        decreases b - cur,
    {
        let ghost prev = cut_ints(out@);
        let ghost rest = segment_cuts(text@, sv, limit as int, k as int, cur as int, b as int);
        let e = find_next_cut(text, sep, cur + 1, b);
        push_piece_cuts(text, seps, limit, k + 1, cur, e, out);
        proof {
            let head = piece_cuts(text@, sv, limit as int, k + 1, cur as int, e as int);
            let tail = segment_cuts(text@, sv, limit as int, k as int, e as int, b as int);
            assert(rest == head + tail);
            assert(cut_ints(out@) + tail =~= prev + rest);
        }
        cur = e;
    }
    proof {
        assert(cut_ints(out@) + Seq::<int>::empty() =~= cut_ints(out@));
    }
}

fn merge_piece_cuts(cuts: &Vec<usize>, limit: usize, Ghost(b): Ghost<int>) -> (out: Vec<usize>)
    requires
        limit > 0,
        cuts_cover(cut_ints(cuts@), 0, b, limit as int),
    ensures
        cut_ints(out@) == merge_cuts(cut_ints(cuts@), limit as int, 0, 0),
{
    let n = cuts.len();
    let ghost c = cut_ints(cuts@);
    let mut out: Vec<usize> = Vec::new();
    let mut start: usize = 0;
    let mut i: usize = 0;
    proof {
        if n > 0 {
            assert(cut_fits(c, 0, b, limit as int, 0));
        }
        assert(cut_ints(out@) + merge_cuts(c, limit as int, 0, 0) =~= merge_cuts(
            c,
            limit as int,
            0,
            0,
        ));
    }
    while i < n
        invariant
            i <= n,
            n == cuts.len(),
            c == cut_ints(cuts@),
            cuts_cover(c, 0, b, limit as int),
            i < n ==> start < cuts[i as int],
            cut_ints(out@) + merge_cuts(c, limit as int, start as int, i as int) == merge_cuts(
                c,
                limit as int,
                0,
                0,
            ),
        decreases n - i,
    {
        proof {
            if i + 1 < n {
                assert(cut_fits(c, 0, b, limit as int, i + 1));
            }
        }
        if i + 1 < n && cuts[i + 1] - start <= limit {
            i += 1;
        } else {
            let ghost prev = cut_ints(out@);
            let ghost rest = merge_cuts(c, limit as int, start as int, i as int);
            start = cuts[i];
            out.push(start);
            i += 1;
            proof {
                let tail = merge_cuts(c, limit as int, start as int, i as int);
                assert(rest == seq![start as int] + tail);
                assert(cut_ints(out@) =~= prev + seq![start as int]);
                assert(cut_ints(out@) + tail =~= prev + rest);
            }
        }
    }
    proof {
        assert(cut_ints(out@) + Seq::<int>::empty() =~= cut_ints(out@));
    }
    out
}

fn append_chunks(path: &str, chunks: &Vec<String>, out: &mut Vec<Document>)
    ensures
        doc_views(final(out)@) == doc_views(old(out)@) + Seq::new(
            chunks@.len(),
            |i: int| (path@, chunks@[i]@),
        ),
{
    let ghost before = doc_views(out@);
    let mut i: usize = 0;
    proof {
        assert(doc_views(out@) =~= before + Seq::new(0, |j: int| (path@, chunks@[j]@)));
    }
    while i < chunks.len()
        invariant
            i <= chunks.len(),
            doc_views(out@) == before + Seq::new(i as nat, |j: int| (path@, chunks@[j]@)),
        decreases chunks.len() - i,
    {
        let ghost prev = doc_views(out@);
        out.push(Document::create(path, chunks[i].as_str()));
        i += 1;
        proof {
            assert(doc_views(out@) =~= prev.push((path@, chunks@[i - 1]@)));
            assert(doc_views(out@) =~= before + Seq::new(i as nat, |j: int| (path@, chunks@[j]@)));
        }
    }
}

/// Splits text at separators, most meaningful first, into chunks of bounded size.
pub struct TextSplitter {
    pub splitter_chunk_size: usize,
    pub chunk_overlap: usize,
    pub separators: Vec<String>,
}

impl TextSplitter {
    /// The separators, most meaningful first, as character sequences.
    pub open spec fn separator_views(&self) -> Seq<Seq<char>> {
        str_views(self.separators@)
    }

    /// Chunks of 400 characters, no overlap, no separators.
    pub fn create() -> (s: TextSplitter)
        ensures
            s.splitter_chunk_size == 400,
            s.chunk_overlap == 0,
            s.separator_views() == Seq::<Seq<char>>::empty(),
    {
        let s = TextSplitter { splitter_chunk_size: 400, chunk_overlap: 0, separators: Vec::new() };
        proof {
            assert(s.separator_views() =~= Seq::<Seq<char>>::empty());
        }
        s
    }

    pub fn with_chunk_size(self, chunk_size: usize) -> (s: TextSplitter)
        ensures
            s.splitter_chunk_size == chunk_size,
            s.chunk_overlap == self.chunk_overlap,
            s.separator_views() == self.separator_views(),
    {
        TextSplitter {
            splitter_chunk_size: chunk_size,
            chunk_overlap: self.chunk_overlap,
            separators: self.separators,
        }
    }

    pub fn with_chunk_overlap(self, overlap: usize) -> (s: TextSplitter)
        ensures
            s.splitter_chunk_size == self.splitter_chunk_size,
            s.chunk_overlap == overlap,
            s.separator_views() == self.separator_views(),
    {
        TextSplitter {
            splitter_chunk_size: self.splitter_chunk_size,
            chunk_overlap: overlap,
            separators: self.separators,
        }
    }

    pub fn with_separators(self, separators: Vec<String>) -> (s: TextSplitter)
        ensures
            s.splitter_chunk_size == self.splitter_chunk_size,
            s.chunk_overlap == self.chunk_overlap,
            s.separator_views() == str_views(separators@),
    {
        TextSplitter {
            splitter_chunk_size: self.splitter_chunk_size,
            chunk_overlap: self.chunk_overlap,
            separators,
        }
    }

    /// The separators, most meaningful first.
    pub fn separators(&self) -> (v: Vec<String>)
        ensures
            str_views(v@) == self.separator_views(),
    {
        let mut v: Vec<String> = Vec::new();
        let mut i: usize = 0;
        while i < self.separators.len()
            invariant
                i <= self.separators.len(),
                v@.len() == i,
                forall|j: int| 0 <= j < i ==> (#[trigger] v@[j])@ == self.separators@[j]@,
            decreases self.separators.len() - i,
        {
            v.push(self.separators[i].clone());
            i += 1;
        }
        proof {
            assert(str_views(v@) =~= str_views(self.separators@));
        }
        v
    }

    /// The chunks of one text. Fails exactly when the overlap is not smaller
    /// than the chunk size.
    pub fn split_text(&self, content: &str) -> (r: Result<Vec<String>, SplitError>)
        ensures
            match r {
                Ok(chunks) => self.chunk_overlap < self.splitter_chunk_size && str_views(chunks@)
                    == chunks_of(
                    content@,
                    self.separator_views(),
                    self.splitter_chunk_size as int,
                    self.chunk_overlap as int,
                ),
                Err(e) => self.chunk_overlap >= self.splitter_chunk_size && e is Config,
            },
    {
        if self.chunk_overlap >= self.splitter_chunk_size {
            return Err(SplitError::Config);
        }
        let overlap = self.chunk_overlap;
        let limit = self.splitter_chunk_size - overlap;
        let text = to_chars(content);
        let seps = to_char_seps(&self.separators);
        let n = text.len();
        let mut pieces: Vec<usize> = Vec::new();
        push_piece_cuts(&text, &seps, limit, 0, 0, n, &mut pieces);
        let ghost sv = self.separator_views();
        proof {
            lemma_piece_cuts(text@, sv, limit as int, 0, 0, n as int);
            assert(cut_ints(pieces@) =~= piece_cuts(text@, sv, limit as int, 0, 0, n as int));
            lemma_chunk_cuts_cover(text@, sv, limit as int);
        }
        let merged = merge_piece_cuts(&pieces, limit, Ghost(n as int));
        let ghost cuts = cut_ints(merged@);
        let mut chunks: Vec<String> = Vec::new();
        let mut i: usize = 0;
        while i < merged.len()
            invariant
                i <= merged.len(),
                n == content@.len(),
                cuts == cut_ints(merged@),
                cuts_cover(cuts, 0, n as int, limit as int),
                chunks@.len() == i,
                str_views(chunks@) == Seq::new(
                    i as nat,
                    |j: int| content@.subrange(chunk_start(cuts, overlap as int, j), cuts[j]),
                ),
            decreases merged.len() - i,
        {
            proof {
                assert(cut_fits(cuts, 0, n as int, limit as int, i as int));
                if i > 0 {
                    assert(cut_fits(cuts, 0, n as int, limit as int, i - 1));
                }
            }
            let end = merged[i];
            let start = if i == 0 {
                0
            } else if merged[i - 1] < overlap {
                0
            } else {
                merged[i - 1] - overlap
            };
            let ghost prev = str_views(chunks@);
            let ghost before = chunks@;
            let chunk = content.substring_char(start, end).to_owned();
            proof {
                assert(end as int == cuts[i as int]);
                assert(start as int == chunk_start(cuts, overlap as int, i as int));
            }
            chunks.push(chunk);
            i += 1;
            proof {
                assert forall|j: int| 0 <= j < i implies (#[trigger] str_views(chunks@)[j])
                    == content@.subrange(chunk_start(cuts, overlap as int, j), cuts[j]) by {
                    if j < i - 1 {
                        assert(chunks@[j] == before[j]);
                        assert(prev[j] == before[j]@);
                    }
                }
                assert(str_views(chunks@) =~= Seq::new(
                    i as nat,
                    |j: int| content@.subrange(chunk_start(cuts, overlap as int, j), cuts[j]),
                ));
            }
        }
        proof {
            assert(str_views(chunks@) =~= chunks_of(
                content@,
                sv,
                self.splitter_chunk_size as int,
                overlap as int,
            ));
        }
        Ok(chunks)
    }

    /// The chunks of every document, in the documents' order, each under the
    /// path of the document it was cut from. Fails exactly when the overlap is
    /// not smaller than the chunk size.
    pub fn split_documents(&self, documents: &[Document]) -> (r: Result<Vec<Document>, SplitError>)
        ensures
            match r {
                Ok(chunks) => self.chunk_overlap < self.splitter_chunk_size && doc_views(chunks@)
                    == split_all(
                    doc_views(documents@),
                    self.separator_views(),
                    self.splitter_chunk_size as int,
                    self.chunk_overlap as int,
                ),
                Err(e) => self.chunk_overlap >= self.splitter_chunk_size && e is Config,
            },
            r matches Ok(chunks) ==> forall|i: int|
                0 <= i < chunks@.len() ==> 0 < (#[trigger] chunks@[i]).content@.len()
                    <= self.splitter_chunk_size,
    {
        if self.chunk_overlap >= self.splitter_chunk_size {
            return Err(SplitError::Config);
        }
        let ghost docs = doc_views(documents@);
        let ghost sv = self.separator_views();
        let ghost size = self.splitter_chunk_size as int;
        let ghost overlap = self.chunk_overlap as int;
        let mut out: Vec<Document> = Vec::new();
        let mut i: usize = 0;
        proof {
            assert(doc_views(out@) =~= split_all(docs.take(0), sv, size, overlap));
        }
        while i < documents.len()
            invariant
                i <= documents.len(),
                docs == doc_views(documents@),
                sv == self.separator_views(),
                size == self.splitter_chunk_size as int,
                overlap == self.chunk_overlap as int,
                overlap < size,
                doc_views(out@) == split_all(docs.take(i as int), sv, size, overlap),
            decreases documents.len() - i,
        {
            let doc = &documents[i];
            match self.split_text(doc.content.as_str()) {
                Ok(chunks) => {
                    let ghost prev = doc_views(out@);
                    append_chunks(doc.path(), &chunks, &mut out);
                    proof {
                        let upto = docs.take(i + 1);
                        assert(upto.drop_last() =~= docs.take(i as int));
                        assert(upto.last() == doc@);
                        assert(split_one(doc@, sv, size, overlap) =~= Seq::new(
                            chunks@.len(),
                            |j: int| (doc@.0, chunks@[j]@),
                        ));
                    }
                },
                Err(e) => {
                    return Err(e);
                },
            }
            i += 1;
        }
        proof {
            assert(docs.take(documents@.len() as int) =~= docs);
            lemma_split_all_bound(docs, sv, size, overlap);
            assert forall|i: int| 0 <= i < out@.len() implies 0 < (#[trigger] out@[i]).content@.len()
                <= self.splitter_chunk_size by {
                assert(doc_views(out@)[i].1 == out@[i].content@);
            }
        }
        Ok(out)
    }
}

} // verus!
