//! The mathematical model of the index: what its values stand for, and what
//! scoring a block means.

use vstd::prelude::*;

use crate::index::keyed::with_key;
use crate::index::narrow::{low16, low32, low8};

verus! {

/// What the postings of one term in one block stand for.
#[verifier::ext_equal]
pub enum PostingsView {
    /// Pairs of a document's place in the block and its score.
    Sparse(Seq<(u8, u8)>),
    /// One score for each place in the block; zero where the term is absent.
    Dense(Seq<u8>),
}

/// A block: its terms, each with its postings.
pub type BlockView = Seq<(u16, PostingsView)>;

/// What the posting list `list` of the term `term` says of the document `doc`.
pub open spec fn postings_of(list: Seq<(u32, u32)>, term: u32, doc: int) -> Seq<(u32, u32)>
    decreases list.len(),
{
    if list.len() == 0 {
        Seq::empty()
    } else {
        let rest = postings_of(list.drop_last(), term, doc);
        if list.last().0 == doc {
            rest.push((term, list.last().1))
        } else {
            rest
        }
    }
}

/// The postings of one document, each as its term, the document's place in the
/// block, and the score.
pub open spec fn document_postings(document: Seq<(u32, u32)>, place: int) -> Seq<
    (u32, u32, u32),
> {
    Seq::new(
        document.len(),
        |i: int| (document[i].0, low32(place), document[i].1),
    )
}

/// The postings of a block's documents, one document after the other.
pub open spec fn block_postings(documents: Seq<Seq<(u32, u32)>>) -> Seq<(u32, u32, u32)>
    decreases documents.len(),
{
    if documents.len() == 0 {
        Seq::empty()
    } else {
        block_postings(documents.drop_last()) + document_postings(
            documents.last(),
            documents.len() - 1,
        )
    }
}

/// The terms below `bound` that occur in `postings`, each once, in ascending order.
pub open spec fn terms_below(postings: Seq<(u32, u32, u32)>, bound: nat) -> Seq<u32>
    decreases bound,
{
    if bound == 0 {
        Seq::empty()
    } else {
        let term = (bound - 1) as u32;
        let below = terms_below(postings, (bound - 1) as nat);
        if with_key(postings, term).len() > 0 {
            below.push(term)
        } else {
            below
        }
    }
}

/// The terms that occur in `postings`, each once, in ascending order.
pub open spec fn terms_of(postings: Seq<(u32, u32, u32)>) -> Seq<u32> {
    terms_below(postings, 0x1_0000_0000)
}

/// The place and the score of each posting, in 8 bits each.
pub open spec fn narrow_pairs(postings: Seq<(u32, u32, u32)>) -> Seq<(u8, u8)> {
    Seq::new(
        postings.len(),
        |i: int| (low8(postings[i].1 as int), low8(postings[i].2 as int)),
    )
}

/// The pairs of place and score that `postings` holds for `term`.
pub open spec fn term_pairs(postings: Seq<(u32, u32, u32)>, term: u32) -> Seq<(u8, u8)> {
    narrow_pairs(with_key(postings, term))
}

/// The score of the last pair for the document at `doc`, or zero.
pub open spec fn last_score(pairs: Seq<(u8, u8)>, doc: int) -> u8
    decreases pairs.len(),
{
    if pairs.len() == 0 {
        0
    } else if pairs.last().0 == doc {
        pairs.last().1
    } else {
        last_score(pairs.drop_last(), doc)
    }
}

/// One score for each of `bsize` documents.
pub open spec fn dense_scores(pairs: Seq<(u8, u8)>, bsize: nat) -> Seq<u8> {
    Seq::new(bsize, |doc: int| last_score(pairs, doc))
}

/// More than `threshold` pairs are stored densely, fewer sparsely.
pub open spec fn choose_postings(
    pairs: Seq<(u8, u8)>,
    bsize: nat,
    threshold: nat,
) -> PostingsView {
    if pairs.len() > threshold {
        PostingsView::Dense(dense_scores(pairs, bsize))
    } else {
        PostingsView::Sparse(pairs)
    }
}

/// The block that stands for `documents`.
pub open spec fn block_of(
    documents: Seq<Seq<(u32, u32)>>,
    bsize: nat,
    threshold: nat,
) -> BlockView {
    let postings = block_postings(documents);
    let terms = terms_of(postings);
    Seq::new(
        terms.len(),
        |k: int|
            (
                low16(terms[k] as int),
                choose_postings(term_pairs(postings, terms[k]), bsize, threshold),
            ),
    )
}

/// How many blocks of `bsize` hold `len` documents.
pub open spec fn block_count(len: nat, bsize: nat) -> nat {
    (if len % bsize == 0 {
        len / bsize
    } else {
        len / bsize + 1
    })
}

/// The documents of block `b`: `bsize` of them, or what is left in the last block.
pub open spec fn chunk<T>(documents: Seq<T>, bsize: nat, b: int) -> Seq<T> {
    let end = (b + 1) * bsize;
    documents.subrange(
        b * bsize,
        if end <= documents.len() {
            end
        } else {
            documents.len() as int
        },
    )
}

/// The blocks that stand for `documents`.
pub open spec fn blocks_of(
    documents: Seq<Seq<(u32, u32)>>,
    bsize: nat,
    threshold: nat,
) -> Seq<BlockView> {
    Seq::new(
        block_count(documents.len(), bsize),
        |b: int| block_of(chunk(documents, bsize, b), bsize, threshold),
    )
}

/// How many terms of a block are stored sparsely.
pub open spec fn sparse_in_block(block: BlockView) -> nat
    decreases block.len(),
{
    if block.len() == 0 {
        0
    } else {
        sparse_in_block(block.drop_last()) + if block.last().1 is Sparse {
            1nat
        } else {
            0
        }
    }
}

/// How many terms are stored sparsely, over all blocks.
pub open spec fn sparse_count(blocks: Seq<BlockView>) -> nat
    decreases blocks.len(),
{
    if blocks.len() == 0 {
        0
    } else {
        sparse_count(blocks.drop_last()) + sparse_in_block(blocks.last())
    }
}

/// How many terms of a block are stored densely.
pub open spec fn dense_in_block(block: BlockView) -> nat
    decreases block.len(),
{
    if block.len() == 0 {
        0
    } else {
        dense_in_block(block.drop_last()) + if block.last().1 is Dense {
            1nat
        } else {
            0
        }
    }
}

/// How many terms are stored densely, over all blocks.
pub open spec fn dense_count(blocks: Seq<BlockView>) -> nat
    decreases blocks.len(),
{
    if blocks.len() == 0 {
        0
    } else {
        dense_count(blocks.drop_last()) + dense_in_block(blocks.last())
    }
}

/// How many terms the blocks list, each counted once in each block that has it.
pub open spec fn entry_count(blocks: Seq<BlockView>) -> nat
    decreases blocks.len(),
{
    if blocks.len() == 0 {
        0
    } else {
        entry_count(blocks.drop_last()) + blocks.last().len()
    }
}

/// The sum of the scores that `pairs` gives to the document at `doc`.
pub open spec fn pair_sum(pairs: Seq<(u8, u8)>, doc: int) -> nat
    decreases pairs.len(),
{
    if pairs.len() == 0 {
        0
    } else {
        let rest = pair_sum(pairs.drop_last(), doc);
        if pairs.last().0 == doc {
            rest + pairs.last().1 as nat
        } else {
            rest
        }
    }
}

/// What one term adds to the document at `doc`, before the query's weight.
pub open spec fn impact(postings: PostingsView, doc: int) -> nat {
    match postings {
        PostingsView::Sparse(pairs) => pair_sum(pairs, doc),
        PostingsView::Dense(scores) => if 0 <= doc < scores.len() {
            scores[doc] as nat
        } else {
            0
        },
    }
}

/// Every score in `postings` belongs to one of the first `bsize` documents.
pub open spec fn fits_block(postings: PostingsView, bsize: nat) -> bool {
    match postings {
        PostingsView::Sparse(pairs) => forall|j: int|
            0 <= j < pairs.len() ==> (#[trigger] pairs[j]).0 < bsize,
        PostingsView::Dense(scores) => forall|j: int|
            bsize <= j < scores.len() ==> #[trigger] scores[j] == 0,
    }
}

/// The first place at or after `from` whose term is not below `term`.
pub open spec fn skip_below(block: BlockView, from: int, term: u16) -> int
    decreases block.len() - from,
{
    if 0 <= from < block.len() && block[from].0 < term {
        skip_below(block, from + 1, term)
    } else {
        from
    }
}

/// Where the walk through the block stands after the first `n` query terms.
///
/// The walk only moves forward: a query term below one that came before it
/// does not bring it back.
pub open spec fn cursor(query: Seq<(u16, u8)>, block: BlockView, n: int) -> int
    decreases n,
{
    if n <= 0 {
        0
    } else {
        skip_below(block, cursor(query, block, n - 1), query[n - 1].0)
    }
}

/// The walk stops for query term `i` at an entry of that very term.
pub open spec fn hit(query: Seq<(u16, u8)>, block: BlockView, i: int) -> bool {
    let c = cursor(query, block, i + 1);
    0 <= c < block.len() && block[c].0 == query[i].0
}

/// What query term `i` adds to the document at `doc`.
pub open spec fn contribution(
    query: Seq<(u16, u8)>,
    block: BlockView,
    doc: int,
    i: int,
) -> nat {
    if hit(query, block, i) {
        query[i].1 as nat * impact(block[cursor(query, block, i + 1)].1, doc)
    } else {
        0
    }
}

/// The score of the document at `doc` for the first `n` query terms.
pub open spec fn partial_score(
    query: Seq<(u16, u8)>,
    block: BlockView,
    doc: int,
    n: int,
) -> nat
    decreases n,
{
    if n <= 0 {
        0
    } else {
        partial_score(query, block, doc, n - 1) + contribution(query, block, doc, n - 1)
    }
}

/// The score of the document at `doc` for the whole query.
pub open spec fn score(query: Seq<(u16, u8)>, block: BlockView, doc: int) -> nat {
    partial_score(query, block, doc, query.len() as int)
}

/// What the first `n` entries of a block add to the document at `doc` for one
/// query term: its weight times the impact of each entry of that term.
pub open spec fn term_product(
    query_term: (u16, u8),
    block: BlockView,
    doc: int,
    n: int,
) -> nat
    decreases n,
{
    if n <= 0 {
        0
    } else {
        term_product(query_term, block, doc, n - 1) + if block[n - 1].0 == query_term.0 {
            query_term.1 as nat * impact(block[n - 1].1, doc)
        } else {
            0
        }
    }
}

/// The sum, over the first `n` query terms and all entries of the block, of the
/// weight times the impact wherever the terms are equal.
pub open spec fn block_product(
    query: Seq<(u16, u8)>,
    block: BlockView,
    doc: int,
    n: int,
) -> nat
    decreases n,
{
    if n <= 0 {
        0
    } else {
        block_product(query, block, doc, n - 1) + term_product(
            query[n - 1],
            block,
            doc,
            block.len() as int,
        )
    }
}

/// Every entry that the query meets keeps to the first `bsize` documents.
pub open spec fn hits_fit(query: Seq<(u16, u8)>, block: BlockView, bsize: nat) -> bool {
    forall|i: int|
        0 <= i < query.len() && #[trigger] hit(query, block, i) ==> fits_block(
            block[cursor(query, block, i + 1)].1,
            bsize,
        )
}

/// Every score of the block can be held in 16 bits.
pub open spec fn scores_fit(query: Seq<(u16, u8)>, block: BlockView, bsize: nat) -> bool {
    forall|doc: int| 0 <= doc < bsize ==> #[trigger] score(query, block, doc) <= u16::MAX
}

/// The sum of the scores that a document gives to `term`.
pub open spec fn term_score(document: Seq<(u32, u32)>, term: u32) -> nat
    decreases document.len(),
{
    if document.len() == 0 {
        0
    } else {
        let rest = term_score(document.drop_last(), term);
        if document.last().0 == term {
            rest + document.last().1 as nat
        } else {
            rest
        }
    }
}

/// The product of the first `n` terms of a query with a document: for each term,
/// the query's weight times the document's score.
pub open spec fn partial_product(
    query: Seq<(u16, u8)>,
    document: Seq<(u32, u32)>,
    n: int,
) -> nat
    decreases n,
{
    if n <= 0 {
        0
    } else {
        partial_product(query, document, n - 1) + query[n - 1].1 as nat * term_score(
            document,
            query[n - 1].0 as u32,
        )
    }
}

/// The inner product of a query with a document.
pub open spec fn inner_product(query: Seq<(u16, u8)>, document: Seq<(u32, u32)>) -> nat {
    partial_product(query, document, query.len() as int)
}

/// No term occurs twice in the document.
pub open spec fn distinct_terms(document: Seq<(u32, u32)>) -> bool {
    forall|i: int, j: int|
        0 <= i < j < document.len() ==> (#[trigger] document[i]).0 != (
        #[trigger] document[j]).0
}

/// The terms of the document can be held in 16 bits.
pub open spec fn narrow_terms(document: Seq<(u32, u32)>) -> bool {
    forall|i: int| 0 <= i < document.len() ==> (#[trigger] document[i]).0 <= u16::MAX
}

/// The terms of the document can be held in 16 bits, its scores in 8.
pub open spec fn narrow_document(document: Seq<(u32, u32)>) -> bool {
    forall|i: int|
        0 <= i < document.len() ==> (#[trigger] document[i]).0 <= u16::MAX && document[i].1
            <= u8::MAX
}

/// The query's terms never descend.
pub open spec fn ascending_query(query: Seq<(u16, u8)>) -> bool {
    forall|i: int, j: int|
        0 <= i <= j < query.len() ==> (#[trigger] query[i]).0 <= (#[trigger] query[j]).0
}

/// The block's terms ascend, without repetition.
pub open spec fn ascending_block(block: BlockView) -> bool {
    forall|i: int, j: int|
        0 <= i < j < block.len() ==> (#[trigger] block[i]).0 < (#[trigger] block[j]).0
}

/// The walk never leaves the block, and never goes back.
pub proof fn lemma_skip_below(block: BlockView, from: int, term: u16)
    requires
        0 <= from <= block.len(),
    ensures
        from <= skip_below(block, from, term) <= block.len(),
        skip_below(block, from, term) < block.len() ==> block[skip_below(
            block,
            from,
            term,
        )].0 >= term,
        forall|k: int|
            from <= k < skip_below(block, from, term) ==> (#[trigger] block[k]).0 < term,
    decreases block.len() - from,
{
    if from < block.len() && block[from].0 < term {
        lemma_skip_below(block, from + 1, term);
    }
}

pub proof fn lemma_cursor_in_range(query: Seq<(u16, u8)>, block: BlockView, n: int)
    requires
        0 <= n <= query.len(),
    ensures
        0 <= cursor(query, block, n) <= block.len(),
    decreases n,
{
    if n > 0 {
        lemma_cursor_in_range(query, block, n - 1);
        lemma_skip_below(block, cursor(query, block, n - 1), query[n - 1].0);
    }
}

/// A longer part of the query scores at least as much.
pub proof fn lemma_partial_score_grows(
    query: Seq<(u16, u8)>,
    block: BlockView,
    doc: int,
    m: int,
    n: int,
)
    requires
        m <= n,
    ensures
        partial_score(query, block, doc, m) <= partial_score(query, block, doc, n),
    decreases n - m,
{
    if m < n {
        lemma_partial_score_grows(query, block, doc, m, n - 1);
    }
}

/// Once the walk has reached the block's end, nothing more is met or scored.
pub proof fn lemma_cursor_at_end(query: Seq<(u16, u8)>, block: BlockView, m: int, n: int)
    requires
        0 <= m <= n <= query.len(),
        cursor(query, block, m) == block.len(),
    ensures
        cursor(query, block, n) == block.len(),
        forall|i: int| m <= i < n ==> !#[trigger] hit(query, block, i),
        forall|doc: int|
            #[trigger] partial_score(query, block, doc, n) == partial_score(
                query,
                block,
                doc,
                m,
            ),
    decreases n - m,
{
    if m < n {
        lemma_cursor_at_end(query, block, m, n - 1);
        assert(cursor(query, block, n) == block.len());
        assert(!hit(query, block, n - 1));
        assert forall|doc: int| #[trigger]
            partial_score(query, block, doc, n) == partial_score(query, block, doc, m) by {
            assert(partial_score(query, block, doc, n - 1) == partial_score(
                query,
                block,
                doc,
                m,
            ));
        }
    }
}

} // verus!
