//! The forward index and the scoring of its blocks.

use vstd::arithmetic::mul::{
    lemma_mul_by_zero_is_zero, lemma_mul_inequality, lemma_mul_is_distributive_add,
    lemma_mul_left_inequality,
};
use vstd::prelude::*;
use vstd::std_specs::iter::IteratorSpec;

use crate::index::blocks::index_blocks;
use crate::index::dense_ratio::{stored_threshold, DenseRatio};
use crate::index::keyed::{is_stable_sort, law_sorted_documents_ascend, stable_sort_by_key};
use crate::index::meaning::{law_counts_span_all_blocks, law_posting_lists_are_filtered};
use crate::index::model::{
    blocks_of, cursor, dense_count, dense_in_block, fits_block, hit, hits_fit, impact,
    lemma_cursor_at_end, lemma_partial_score_grows, pair_sum, partial_score, postings_of,
    score, scores_fit, skip_below, sparse_count, sparse_in_block, BlockView, PostingsView,
};

verus! {

/// A document's postings within a block: its terms, and the impacts of each.
#[derive(Clone)]
pub struct BlockDocument {
    pub terms: Vec<u16>,
    pub docs_impacts: Vec<Vec<(u8, u8)>>,
}

impl Default for BlockDocument {
    fn default() -> (document: BlockDocument)
        ensures
            document.terms@ == Seq::<u16>::empty(),
            document.docs_impacts@ == Seq::<Vec<(u8, u8)>>::empty(),
    {
        BlockDocument { terms: Vec::new(), docs_impacts: Vec::new() }
    }
}

/// The postings of one term in one block of documents.
#[derive(Clone)]
pub enum Postings {
    /// Pairs of a document's place in the block and its score.
    Sparse(Vec<(u8, u8)>),
    /// One score for each place in the block, zero where the term is absent.
    Dense(Vec<u8>),
}

impl View for Postings {
    type V = PostingsView;

    open spec fn view(&self) -> PostingsView {
        match self {
            Postings::Sparse(pairs) => PostingsView::Sparse(pairs@),
            Postings::Dense(scores) => PostingsView::Dense(scores@),
        }
    }
}

/// A forward index in blocks of `block_size` documents. Each block lists its
/// terms with their postings.
#[derive(Clone)]
pub struct BlockForwardIndex {
    pub data: Vec<Vec<(u16, Postings)>>,
    pub block_size: usize,
}

/// What the entries of a block stand for.
pub open spec fn block_view(entries: Seq<(u16, Postings)>) -> BlockView {
    Seq::new(entries.len(), |i: int| (entries[i].0, entries[i].1@))
}

impl View for BlockForwardIndex {
    type V = Seq<BlockView>;

    open spec fn view(&self) -> Seq<BlockView> {
        Seq::new(self.data@.len(), |b: int| block_view(self.data@[b]@))
    }
}

impl Default for BlockForwardIndex {
    fn default() -> (index: BlockForwardIndex)
        ensures
            index@ == Seq::<BlockView>::empty(),
            index.block_size == 0,
    {
        let index = BlockForwardIndex { data: Vec::new(), block_size: 0 };
        assert(index@ =~= Seq::<BlockView>::empty());
        index
    }
}

impl BlockForwardIndex {
    /// How many terms are stored sparsely, and how many densely, over all blocks.
    pub fn count_postings(&self) -> (counts: (u128, u128))
        ensures
            counts.0 == sparse_count(self@),
            counts.1 == dense_count(self@),
            counts.0 == self@.flatten().filter(
                |entry: (u16, PostingsView)| entry.1 is Sparse,
            ).len(),
            counts.1 == self@.flatten().filter(
                |entry: (u16, PostingsView)| entry.1 is Dense,
            ).len(),
    {
        let mut num_sparse: u128 = 0;
        let mut num_dense: u128 = 0;
        let mut b: usize = 0;
        while b < self.data.len()
            invariant
                0 <= b <= self.data@.len(),
                num_sparse == sparse_count(self@.take(b as int)),
                num_dense == dense_count(self@.take(b as int)),
                num_sparse + num_dense <= b * usize::MAX,
            decreases self.data@.len() - b,
        {
            let block: &Vec<(u16, Postings)> = &self.data[b];
            let ghost view = block_view(block@);
            let ghost (sparse, dense) = (num_sparse, num_dense);
            let mut i: usize = 0;
            assert(view.take(0) =~= Seq::empty());
            while i < block.len()
                invariant
                    0 <= i <= block@.len(),
                    b < usize::MAX,
                    view == block_view(block@),
                    num_sparse == sparse + sparse_in_block(view.take(i as int)),
                    num_dense == dense + dense_in_block(view.take(i as int)),
                    num_sparse + num_dense == sparse + dense + i,
                    sparse + dense <= b * usize::MAX,
                decreases block@.len() - i,
            {
                proof {
                    assert(view.take(i + 1).drop_last() =~= view.take(i as int));
                    assert((b + 1) * usize::MAX == b * usize::MAX + usize::MAX)
                        by (nonlinear_arith);
                    assert((b + 1) * usize::MAX <= usize::MAX * usize::MAX)
                        by (nonlinear_arith)
                        requires
                            b + 1 <= usize::MAX,
                    ;
                    assert(usize::MAX * usize::MAX <= 0xffff_ffff_ffff_ffff
                        * 0xffff_ffff_ffff_ffff) by (nonlinear_arith)
                        requires
                            0 <= usize::MAX <= 0xffff_ffff_ffff_ffff,
                    ;
                }
                match &block[i].1 {
                    Postings::Sparse(_) => {
                        num_sparse += 1;
                    },
                    Postings::Dense(_) => {
                        num_dense += 1;
                    },
                }
                i += 1;
            }
            proof {
                assert(view.take(i as int) =~= view);
                assert(self@.take(b + 1).drop_last() =~= self@.take(b as int));
                assert(self@.take(b + 1).last() == view);
                assert((b + 1) * usize::MAX == b * usize::MAX + usize::MAX)
                    by (nonlinear_arith);
            }
            b += 1;
        }
        proof {
            assert(self@.take(b as int) =~= self@);
            law_counts_span_all_blocks(self@);
        }
        (num_sparse, num_dense)
    }
}

/// For each document, the terms that it holds, each with its score.
#[derive(Clone)]
pub struct ForwardIndex {
    data: Vec<Vec<(u32, u32)>>,
}

/// What the documents of an index stand for.
pub open spec fn documents_view(documents: Seq<Vec<(u32, u32)>>) -> Seq<Seq<(u32, u32)>> {
    Seq::new(documents.len(), |d: int| documents[d]@)
}

impl View for ForwardIndex {
    type V = Seq<Seq<(u32, u32)>>;

    closed spec fn view(&self) -> Seq<Seq<(u32, u32)>> {
        documents_view(self.data@)
    }
}

impl Default for ForwardIndex {
    fn default() -> (index: ForwardIndex)
        ensures
            index@ == Seq::<Seq<(u32, u32)>>::empty(),
    {
        let index = ForwardIndex { data: Vec::new() };
        assert(index@ =~= Seq::<Seq<(u32, u32)>>::empty());
        index
    }
}

impl ForwardIndex {
    /// An index of the given documents, each as it stands.
    pub fn from_documents(documents: Vec<Vec<(u32, u32)>>) -> (index: ForwardIndex)
        ensures
            index@ == documents_view(documents@),
    {
        ForwardIndex { data: documents }
    }
}

/// An index is walked document by document.
impl<'a> IntoIterator for &'a ForwardIndex {
    type Item = &'a Vec<(u32, u32)>;

    type IntoIter = std::slice::Iter<'a, Vec<(u32, u32)>>;

    fn into_iter(self) -> (documents: std::slice::Iter<'a, Vec<(u32, u32)>>)
        ensures
            documents_view(documents.remaining().unref()) == self@,
    {
        self.data.iter()
    }
}

/// Gathers the documents of a forward index.
pub struct ForwardIndexBuilder {
    forward_index: ForwardIndex,
}

impl View for ForwardIndexBuilder {
    type V = Seq<Seq<(u32, u32)>>;

    closed spec fn view(&self) -> Seq<Seq<(u32, u32)>> {
        self.forward_index@
    }
}

impl ForwardIndexBuilder {
    /// A builder that holds `num_documents` documents without terms.
    pub fn new(num_documents: usize) -> (builder: ForwardIndexBuilder)
        ensures
            builder@ == Seq::new(num_documents as nat, |d: int| Seq::<(u32, u32)>::empty()),
    {
        let mut data: Vec<Vec<(u32, u32)>> = Vec::new();
        while data.len() < num_documents
            invariant
                data@.len() <= num_documents,
                forall|d: int| 0 <= d < data@.len() ==> (#[trigger] data@[d])@.len() == 0,
            decreases num_documents - data@.len(),
        {
            data.push(Vec::new());
        }
        let builder = ForwardIndexBuilder { forward_index: ForwardIndex { data } };
        assert(builder@ =~~= Seq::new(
            num_documents as nat,
            |d: int| Seq::<(u32, u32)>::empty(),
        ));
        builder
    }

    /// Adds the postings of one term: each pair names a document and the score
    /// that the term has in it.
    pub fn insert_posting_list(&mut self, term_id: u32, posting_list: &Vec<(u32, u32)>)
        requires
            forall|i: int|
                0 <= i < posting_list@.len() ==> (#[trigger] posting_list@[i]).0 < old(
                    self,
                )@.len(),
        ensures
            final(self)@ == Seq::new(
                old(self)@.len(),
                |d: int| old(self)@[d] + postings_of(posting_list@, term_id, d),
            ),
            forall|d: int|
                0 <= d < old(self)@.len() ==> #[trigger] final(self)@[d] == old(self)@[d]
                    + posting_list@.filter(|pair: (u32, u32)| pair.0 == d).map_values(
                    |pair: (u32, u32)| (term_id, pair.1),
                ),
    {
        let ghost before = self@;
        let mut i: usize = 0;
        while i < posting_list.len()
            invariant
                before == old(self)@,
                0 <= i <= posting_list@.len(),
                forall|k: int|
                    0 <= k < posting_list@.len() ==> (#[trigger] posting_list@[k]).0
                        < before.len(),
                self.forward_index.data@.len() == before.len(),
                forall|d: int|
                    0 <= d < before.len() ==> (#[trigger] self.forward_index.data@[d])@
                        == before[d] + postings_of(
                        posting_list@.take(i as int),
                        term_id,
                        d,
                    ),
            decreases posting_list@.len() - i,
        {
            let (doc_id, score): (u32, u32) = posting_list[i];
            assert(posting_list@.take(i + 1).drop_last() =~= posting_list@.take(i as int));
            self.forward_index.data[doc_id as usize].push((term_id, score));
            i += 1;
        }
        assert(posting_list@.take(i as int) =~= posting_list@);
        assert(self@ =~~= Seq::new(
            before.len(),
            |d: int| before[d] + postings_of(posting_list@, term_id, d),
        ));
        proof {
            law_posting_lists_are_filtered(before, posting_list@, term_id, self@);
        }
    }

    /// Adds a document after those that are there.
    pub fn insert_document(&mut self, vector: Vec<(u32, u32)>)
        ensures
            final(self)@ == old(self)@.push(vector@),
    {
        self.forward_index.data.push(vector);
        assert(self@ =~~= old(self)@.push(vector@));
    }

    /// Orders each document by term and hands the index over. The builder is
    /// left without documents.
    pub fn build(&mut self) -> (index: ForwardIndex)
        ensures
            index@.len() == old(self)@.len(),
            forall|d: int|
                0 <= d < index@.len() ==> is_stable_sort(old(self)@[d], #[trigger] index@[d]),
            forall|d: int, i: int, j: int|
                0 <= d < index@.len() && 0 <= i <= j < index@[d].len() ==> (
                #[trigger] index@[d][i]).0 <= (#[trigger] index@[d][j]).0,
            forall|d: int|
                0 <= d < index@.len() ==> (#[trigger] index@[d]).to_multiset() == old(
                    self,
                )@[d].to_multiset(),
            final(self)@ == Seq::<Seq<(u32, u32)>>::empty(),
    {
        let ghost before = self@;
        let mut d: usize = 0;
        while d < self.forward_index.data.len()
            invariant
                before == old(self)@,
                0 <= d <= before.len(),
                self.forward_index.data@.len() == before.len(),
                forall|k: int|
                    0 <= k < d ==> is_stable_sort(
                        before[k],
                        (#[trigger] self.forward_index.data@[k])@,
                    ),
                forall|k: int|
                    d <= k < before.len() ==> (#[trigger] self.forward_index.data@[k])@
                        == before[k],
            decreases before.len() - d,
        {
            stable_sort_by_key(&mut self.forward_index.data[d]);
            d += 1;
        }
        let mut index: ForwardIndex = ForwardIndex::default();
        std::mem::swap(&mut index, &mut self.forward_index);
        proof {
            assert forall|d: int| 0 <= d < index@.len() implies (
            #[trigger] index@[d]).to_multiset() == before[d].to_multiset() && (forall|
                i: int,
                j: int,
            |
                0 <= i <= j < index@[d].len() ==> (#[trigger] index@[d][i]).0 <= (
                #[trigger] index@[d][j]).0) by {
                law_sorted_documents_ascend(before[d], index@[d], 0);
            }
        }
        index
    }
}

/// Groups the documents into blocks of `block_size`. A term of a block is stored
/// densely where it has more postings than `dense_ratio` of the block's size.
pub fn fwd2bfwd_with_dense_ratio(
    fwd: &ForwardIndex,
    block_size: usize,
    dense_ratio: DenseRatio,
) -> (index: BlockForwardIndex)
    requires
        block_size > 0,
    ensures
        index.block_size == block_size,
        index@ == blocks_of(
            fwd@,
            block_size as nat,
            stored_threshold(block_size as nat, dense_ratio@),
        ),
{
    let threshold: usize = dense_ratio.threshold(block_size);
    let data: Vec<Vec<(u16, Postings)>> = index_blocks(
        fwd.data.as_slice(),
        block_size,
        threshold,
    );
    let index = BlockForwardIndex { data, block_size };
    assert(index@ =~= blocks_of(fwd@, block_size as nat, threshold as nat));
    index
}

/// Groups the documents into blocks of `block_size`. A term of a block is stored
/// densely where it has more postings than a quarter of the block's size.
pub fn fwd2bfwd(fwd: &ForwardIndex, block_size: usize) -> (index: BlockForwardIndex)
    requires
        block_size > 0,
    ensures
        index.block_size == block_size,
        index@ == blocks_of(
            fwd@,
            block_size as nat,
            stored_threshold(block_size as nat, (1, 2)),
        ),
{
    fwd2bfwd_with_dense_ratio(fwd, block_size, DenseRatio::quarter())
}

/// Adds to each score `value` times what `postings` gives to that document.
///
/// Says `false` where a document lies outside `scores` or a sum outgrows 16 bits.
fn add_postings(scores: &mut Vec<u16>, postings: &Postings, value: u8) -> (ok: bool)
    ensures
        final(scores)@.len() == old(scores)@.len(),
        ok ==> fits_block(postings@, old(scores)@.len()) && forall|d: int|
            0 <= d < old(scores)@.len() ==> #[trigger] final(scores)@[d] == old(scores)@[d]
                + value as nat * impact(postings@, d),
        !ok ==> !fits_block(postings@, old(scores)@.len()) || exists|d: int|
            0 <= d < old(scores)@.len() && #[trigger] old(scores)@[d] + value as nat * impact(
                postings@,
                d,
            ) > u16::MAX,
{
    let ghost base = scores@;
    let bsize: usize = scores.len();
    proof {
        lemma_mul_by_zero_is_zero(value as int);
    }
    match postings {
        Postings::Sparse(pairs) => {
            let mut j: usize = 0;
            while j < pairs.len()
                invariant
                    0 <= j <= pairs@.len(),
                    base == old(scores)@,
                    bsize == base.len(),
                    scores@.len() == bsize,
                    postings@ == PostingsView::Sparse(pairs@),
                    forall|k: int| 0 <= k < j ==> (#[trigger] pairs@[k]).0 < bsize,
                    forall|d: int|
                        0 <= d < bsize ==> #[trigger] scores@[d] == base[d] + value as nat
                            * pair_sum(pairs@.take(j as int), d),
                decreases pairs@.len() - j,
            {
                let pair: (u8, u8) = pairs[j];
                let place: usize = pair.0 as usize;
                if place >= bsize {
                    assert(!fits_block(postings@, base.len())) by {
                        assert(postings@->Sparse_0[j as int].0 >= bsize);
                    }
                    return false;
                }
                proof {
                    lemma_mul_inequality(value as int, 255, pair.1 as int);
                    lemma_mul_is_distributive_add(
                        value as int,
                        pair_sum(pairs@.take(j as int), place as int) as int,
                        pair.1 as int,
                    );
                    assert(pairs@.take(j + 1).drop_last() =~= pairs@.take(j as int));
                }
                let gain: u16 = value as u16 * pair.1 as u16;
                match scores[place].checked_add(gain) {
                    Some(sum) => {
                        scores[place] = sum;
                    },
                    None => {
                        proof {
                            let d = place as int;
                            lemma_pair_sum_grows(pairs@, d, j + 1);
                            lemma_mul_left_inequality(
                                value as int,
                                pair_sum(pairs@.take(j + 1), d) as int,
                                pair_sum(pairs@, d) as int,
                            );
                            assert(base[d] + value as nat * impact(postings@, d) > u16::MAX);
                        }
                        return false;
                    },
                }
                j += 1;
            }
            assert(pairs@.take(pairs@.len() as int) =~= pairs@);
        },
        Postings::Dense(dense) => {
            let mut k: usize = 0;
            while k < dense.len()
                invariant
                    0 <= k <= dense@.len(),
                    base == old(scores)@,
                    bsize == base.len(),
                    scores@.len() == bsize,
                    postings@ == PostingsView::Dense(dense@),
                    forall|j: int| bsize <= j < k ==> #[trigger] dense@[j] == 0,
                    forall|d: int|
                        0 <= d < bsize ==> #[trigger] scores@[d] == base[d] + if d < k {
                            value as nat * dense@[d] as nat
                        } else {
                            0
                        },
                decreases dense@.len() - k,
            {
                let s: u16 = dense[k] as u16;
                if s != 0 {
                    if k >= bsize {
                        assert(!fits_block(postings@, base.len())) by {
                            assert(postings@->Dense_0[k as int] != 0);
                        }
                        return false;
                    }
                    proof {
                        lemma_mul_inequality(value as int, 255, s as int);
                    }
                    let gain: u16 = value as u16 * s;
                    match scores[k].checked_add(gain) {
                        Some(sum) => {
                            scores[k] = sum;
                        },
                        None => {
                            assert(base[k as int] + value as nat * impact(postings@, k as int)
                                > u16::MAX);
                            return false;
                        },
                    }
                }
                k += 1;
            }
        },
    }
    true
}

/// Scores every document of a block against a query, where that can be done.
///
/// The query and the block are walked side by side, as `cursor` says: both are
/// meant to be in ascending order of their terms. `None` tells that an entry
/// that the query meets scores a document outside the block, or that a score
/// outgrows 16 bits.
pub fn checked_block_score(
    query: &Vec<(u16, u8)>,
    document: &[(u16, Postings)],
    bsize: usize,
) -> (scores: Option<Vec<u16>>)
    ensures
        scores is Some <==> hits_fit(query@, block_view(document@), bsize as nat) && scores_fit(
            query@,
            block_view(document@),
            bsize as nat,
        ),
        scores matches Some(scores) ==> scores@.len() == bsize && forall|doc: int|
            0 <= doc < bsize ==> #[trigger] scores@[doc] == score(
                query@,
                block_view(document@),
                doc,
            ),
{
    let ghost block = block_view(document@);
    let mut doc_score: Vec<u16> = vec![0; bsize];
    let mut place: usize = 0;
    let mut i: usize = 0;
    while i < query.len()
        invariant
            0 <= i <= query@.len(),
            block == block_view(document@),
            place == cursor(query@, block, i as int),
            0 <= place <= block.len(),
            doc_score@.len() == bsize,
            forall|k: int|
                0 <= k < i && #[trigger] hit(query@, block, k) ==> fits_block(
                    block[cursor(query@, block, k + 1)].1,
                    bsize as nat,
                ),
            forall|doc: int|
                0 <= doc < bsize ==> #[trigger] doc_score@[doc] == partial_score(
                    query@,
                    block,
                    doc,
                    i as int,
                ),
        decreases query@.len() - i,
    {
        let (coordinate, value): (u16, u8) = query[i];
        let ghost start = place as int;
        while place < document.len() && document[place].0 < coordinate
            invariant
                block == block_view(document@),
                start <= place <= block.len(),
                skip_below(block, start, coordinate) == skip_below(
                    block,
                    place as int,
                    coordinate,
                ),
            decreases block.len() - place,
        {
            place += 1;
        }
        assert(place == cursor(query@, block, i + 1));
        if place == document.len() {
            proof {
                lemma_cursor_at_end(query@, block, i + 1, query@.len() as int);
                assert(!hit(query@, block, i as int));
                assert forall|doc: int| 0 <= doc < bsize implies #[trigger] doc_score@[doc]
                    == score(query@, block, doc) by {
                    assert(partial_score(query@, block, doc, i + 1) == doc_score@[doc]);
                }
                lemma_held_scores_fit(query@, block, doc_score@);
            }
            return Some(doc_score);
        }
        let entry: &(u16, Postings) = &document[place];
        assert(block[place as int] == (entry.0, entry.1@));
        if entry.0 == coordinate {
            assert(hit(query@, block, i as int));
            let ghost before = doc_score@;
            if !add_postings(&mut doc_score, &entry.1, value) {
                proof {
                    if fits_block(entry.1@, bsize as nat) {
                        let doc = choose|d: int|
                            0 <= d < bsize && #[trigger] before[d] + value as nat * impact(
                                entry.1@,
                                d,
                            ) > u16::MAX;
                        lemma_partial_score_grows(
                            query@,
                            block,
                            doc,
                            i + 1,
                            query@.len() as int,
                        );
                        assert(partial_score(query@, block, doc, i + 1) > u16::MAX);
                        assert(score(query@, block, doc) > u16::MAX);
                    }
                }
                return None;
            }
        }
        i += 1;
    }
    proof {
        lemma_held_scores_fit(query@, block, doc_score@);
    }
    Some(doc_score)
}

proof fn lemma_held_scores_fit(query: Seq<(u16, u8)>, block: BlockView, scores: Seq<u16>)
    requires
        forall|doc: int|
            0 <= doc < scores.len() ==> #[trigger] scores[doc] == score(query, block, doc),
    ensures
        scores_fit(query, block, scores.len()),
{
    assert forall|doc: int| 0 <= doc < scores.len() implies #[trigger] score(query, block, doc)
        <= u16::MAX by {
        assert(scores[doc] == score(query, block, doc));
    }
}

/// Scores every document of a block against a query.
///
/// A document's score is the sum, over the query's terms that the walk meets in
/// the block, of the query's weight times the document's own score.
pub fn block_score(
    query: &Vec<(u16, u8)>,
    document: &[(u16, Postings)],
    bsize: usize,
) -> (scores: Vec<u16>)
    requires
        hits_fit(query@, block_view(document@), bsize as nat),
        scores_fit(query@, block_view(document@), bsize as nat),
    ensures
        scores@.len() == bsize,
        forall|doc: int|
            0 <= doc < bsize ==> #[trigger] scores@[doc] == score(
                query@,
                block_view(document@),
                doc,
            ),
{
    match checked_block_score(query, document, bsize) {
        Some(scores) => scores,
        None => Vec::new(),
    }
}

proof fn lemma_pair_sum_grows(pairs: Seq<(u8, u8)>, doc: int, n: int)
    requires
        0 <= n <= pairs.len(),
    ensures
        pair_sum(pairs.take(n), doc) <= pair_sum(pairs, doc),
    decreases pairs.len(),
{
    if n == pairs.len() {
        assert(pairs.take(n) =~= pairs);
    } else {
        lemma_pair_sum_grows(pairs.drop_last(), doc, n);
        assert(pairs.drop_last().take(n) =~= pairs.take(n));
    }
}

} // verus!
