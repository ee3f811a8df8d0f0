//! Turning the documents of one block into the block's terms and postings.

use rayon::iter::ParallelIterator;
use rayon::slice::ParallelSlice;
use vstd::arithmetic::div_mod::lemma_fundamental_div_mod;
use vstd::prelude::*;

use crate::index::forward_index::{block_view, documents_view, Postings};
use crate::index::keyed::{
    is_stable_sort, lemma_with_key_contains, sorted_by_key, stable_sort_by_key, with_key,
};
use crate::index::model::{
    block_count, block_of, block_postings, choose_postings, chunk, dense_scores,
    document_postings, term_pairs, terms_below, terms_of,
};
use crate::index::narrow::{low16, low32, to_low16, to_low32, to_low8};

verus! {

/// The postings of a block's documents, one document after the other.
fn collect_postings(block: &[Vec<(u32, u32)>]) -> (postings: Vec<(u32, u32, u32)>)
    ensures
        postings@ == block_postings(documents_view(block@)),
{
    let ghost documents = documents_view(block@);
    let mut postings: Vec<(u32, u32, u32)> = Vec::new();
    let mut place: usize = 0;
    while place < block.len()
        invariant
            0 <= place <= block@.len(),
            documents == documents_view(block@),
            postings@ == block_postings(documents.take(place as int)),
        decreases block@.len() - place,
    {
        let document: &Vec<(u32, u32)> = &block[place];
        let low: u32 = to_low32(place);
        let ghost before = postings@;
        let mut i: usize = 0;
        while i < document.len()
            invariant
                0 <= i <= document@.len(),
                low == low32(place as int),
                postings@ == before + document_postings(document@, place as int).take(
                    i as int,
                ),
            decreases document@.len() - i,
        {
            let (term, score): (u32, u32) = document[i];
            postings.push((term, low, score));
            i += 1;
            assert(postings@ =~= before + document_postings(document@, place as int).take(
                i as int,
            ));
        }
        proof {
            let upto = documents.take(place + 1);
            assert(upto.drop_last() =~= documents.take(place as int));
            assert(upto.last() == document@);
            assert(document_postings(document@, place as int).take(i as int)
                =~= document_postings(document@, place as int));
        }
        place += 1;
    }
    assert(documents.take(place as int) =~= documents);
    postings
}

/// Pairs of place and score, gathered under each term.
spec fn gathers(
    gathered: Seq<(u16, Vec<(u8, u8)>)>,
    postings: Seq<(u32, u32, u32)>,
    terms: Seq<u32>,
) -> bool {
    &&& gathered.len() == terms.len()
    &&& forall|k: int|
        0 <= k < terms.len() ==> (#[trigger] gathered[k]).0 == low16(terms[k] as int)
            && gathered[k].1@ == term_pairs(postings, terms[k])
}

/// Gathers sorted postings under their terms.
fn gather_by_term(postings: &Vec<(u32, u32, u32)>) -> (gathered: Vec<(u16, Vec<(u8, u8)>)>)
    requires
        sorted_by_key(postings@),
    ensures
        gathers(gathered@, postings@, terms_of(postings@)),
{
    let mut gathered: Vec<(u16, Vec<(u8, u8)>)> = Vec::new();
    let mut current_term: Option<u32> = None;
    let mut current_scores: Vec<(u8, u8)> = Vec::new();
    let mut i: usize = 0;
    while i < postings.len()
        invariant
            0 <= i <= postings@.len(),
            sorted_by_key(postings@),
            match current_term {
                None => i == 0 && gathered@.len() == 0 && current_scores@.len() == 0,
                Some(term) => {
                    let done = postings@.take(i as int);
                    &&& i > 0
                    &&& postings@[i - 1].0 == term
                    &&& gathers(gathered@, done, terms_below(done, term as nat))
                    &&& current_scores@ == term_pairs(done, term)
                },
            },
        decreases postings@.len() - i,
    {
        let (term, place, score): (u32, u32, u32) = postings[i];
        let pair: (u8, u8) = (to_low8(place), to_low8(score));
        let ghost done = postings@.take(i as int);
        let ghost next = postings@.take(i + 1);
        proof {
            assert(next.drop_last() =~= done);
            assert(next.last() == postings@[i as int]);
        }
        match current_term {
            Some(current) => {
                if current == term {
                    let ghost terms = terms_below(done, term as nat);
                    current_scores.push(pair);
                    proof {
                        lemma_same_terms(done, next, term as nat);
                        lemma_terms_below_bounds(done, term as nat);
                        assert(current_scores@ =~= term_pairs(next, term));
                        assert forall|k: int| 0 <= k < terms.len() implies term_pairs(
                            next,
                            #[trigger] terms[k],
                        ) == term_pairs(done, terms[k]) by {}
                        assert(gathers(gathered@, next, terms));
                    }
                } else {
                    let ghost terms = terms_below(done, current as nat);
                    let mut finished: Vec<(u8, u8)> = Vec::new();
                    std::mem::swap(&mut finished, &mut current_scores);
                    gathered.push((to_low16(current), finished));
                    current_scores.push(pair);
                    proof {
                        assert(current < term) by {
                            assert(postings@[i - 1].0 <= postings@[i as int].0);
                        }
                        lemma_same_terms(done, next, term as nat);
                        lemma_terms_below_bounds(done, term as nat);
                        lemma_sorted_prefix(postings@, i as int);
                        lemma_last_term(done, term as nat);
                        assert(terms_below(done, term as nat) == terms.push(current));
                        lemma_no_key(done, term);
                        assert(current_scores@ =~= term_pairs(next, term));
                        let grown = terms_below(next, term as nat);
                        assert forall|k: int| 0 <= k < grown.len() implies term_pairs(
                            next,
                            #[trigger] grown[k],
                        ) == term_pairs(done, grown[k]) by {}
                        assert(gathers(gathered@, next, grown));
                    }
                    current_term = Some(term);
                }
            },
            None => {
                current_scores.push(pair);
                current_term = Some(term);
                proof {
                    assert(done =~= Seq::empty());
                    lemma_same_terms(done, next, term as nat);
                    lemma_no_terms(term as nat);
                    lemma_no_key(done, term);
                    assert(with_key(next, term) == with_key(done, term).push(next.last()));
                    assert(current_scores@ =~= term_pairs(next, term));
                }
            },
        }
        i += 1;
    }
    proof {
        assert(postings@.take(i as int) =~= postings@);
    }
    match current_term {
        Some(current) => {
            proof {
                lemma_sorted_prefix(postings@, i as int);
                lemma_last_term(postings@, 0x1_0000_0000);
            }
            gathered.push((to_low16(current), current_scores));
        },
        None => {
            proof {
                assert(postings@ =~= Seq::empty());
                lemma_no_terms(0x1_0000_0000);
            }
        },
    }
    gathered
}

/// One score for each of `block_size` documents: that of the document's last
/// pair, or zero.
fn expand(pairs: &Vec<(u8, u8)>, block_size: usize) -> (dense: Vec<u8>)
    requires
        forall|j: int| 0 <= j < pairs@.len() ==> (#[trigger] pairs@[j]).0 < block_size,
    ensures
        dense@ == dense_scores(pairs@, block_size as nat),
{
    let mut dense: Vec<u8> = vec![0; block_size];
    let mut j: usize = 0;
    assert(dense@ =~= dense_scores(pairs@.take(0), block_size as nat));
    while j < pairs.len()
        invariant
            0 <= j <= pairs@.len(),
            forall|k: int| 0 <= k < pairs@.len() ==> (#[trigger] pairs@[k]).0 < block_size,
            dense@ == dense_scores(pairs@.take(j as int), block_size as nat),
        decreases pairs@.len() - j,
    {
        let (place, score): (u8, u8) = pairs[j];
        let ghost before = dense@;
        dense[place as usize] = score;
        proof {
            assert(pairs@.take(j + 1).drop_last() =~= pairs@.take(j as int));
            assert(dense@ =~= dense_scores(pairs@.take(j + 1), block_size as nat));
        }
        j += 1;
    }
    assert(pairs@.take(j as int) =~= pairs@);
    dense
}

/// The terms of a block of documents, in ascending order, with their postings:
/// dense where more than `threshold` pairs belong to a term, sparse elsewhere.
///
/// Terms are kept in 16 bits, places and scores in 8 bits each.
pub fn index_block(
    block: &[Vec<(u32, u32)>],
    block_size: usize,
    threshold: usize,
) -> (entries: Vec<(u16, Postings)>)
    requires
        block@.len() <= block_size,
    ensures
        block_view(entries@) == block_of(
            documents_view(block@),
            block_size as nat,
            threshold as nat,
        ),
{
    let mut postings: Vec<(u32, u32, u32)> = collect_postings(block);
    let ghost unsorted = postings@;
    stable_sort_by_key(&mut postings);
    let gathered: Vec<(u16, Vec<(u8, u8)>)> = gather_by_term(&postings);
    let ghost terms = terms_of(unsorted);
    proof {
        lemma_terms_of_sorted(unsorted, postings@, 0x1_0000_0000);
        assert forall|k: int| 0 <= k < terms.len() implies term_pairs(
            postings@,
            #[trigger] terms[k],
        ) == term_pairs(unsorted, terms[k]) by {
            assert(with_key(postings@, terms[k]) == with_key(unsorted, terms[k]));
        }
        assert forall|k: int, j: int|
            0 <= k < gathered@.len() && 0 <= j < gathered@[k].1@.len() implies (
        #[trigger] gathered@[k].1@[j]).0 < block_size by {
            lemma_places_fit(documents_view(block@), terms[k], j);
        }
    }
    let mut entries: Vec<(u16, Postings)> = Vec::with_capacity(gathered.len());
    for (term, pairs) in it: gathered
        invariant
            gathers(gathered@, unsorted, terms),
            it.seq() == gathered@,
            forall|k: int, j: int|
                0 <= k < gathered@.len() && 0 <= j < gathered@[k].1@.len() ==> (
                #[trigger] gathered@[k].1@[j]).0 < block_size,
            entries@.len() == it.index(),
            forall|k: int|
                0 <= k < entries@.len() ==> (#[trigger] entries@[k]).0 == low16(
                    terms[k] as int,
                ) && entries@[k].1@ == choose_postings(
                    term_pairs(unsorted, terms[k]),
                    block_size as nat,
                    threshold as nat,
                ),
    {
        if pairs.len() > threshold {
            let dense: Vec<u8> = expand(&pairs, block_size);
            entries.push((term, Postings::Dense(dense)));
        } else {
            entries.push((term, Postings::Sparse(pairs)));
        }
    }
    assert(block_view(entries@) =~= block_of(
        documents_view(block@),
        block_size as nat,
        threshold as nat,
    ));
    entries
}

/// Indexes the blocks of `block_size` documents in parallel, with `par_chunks`,
/// `map` and `collect` of rayon.
///
/// Trusted of them: the documents are cut into chunks of `block_size`, the last
/// one shorter where they do not divide evenly; `index_block` is called on each
/// chunk; and what it returns comes back in the order of the chunks. `par_chunks`
/// panics on a chunk size of zero.
#[verifier::external_body]
fn index_chunks(
    documents: &[Vec<(u32, u32)>],
    block_size: usize,
    threshold: usize,
) -> (blocks: Vec<Vec<(u16, Postings)>>)
    requires
        block_size > 0,
    ensures
        blocks@.len() == block_count(documents@.len(), block_size as nat),
        forall|b: int|
            0 <= b < blocks@.len() ==> exists|block: &[Vec<(u32, u32)>]|
                block@ == chunk(documents@, block_size as nat, b) && call_ensures(
                    index_block,
                    (block, block_size, threshold),
                    #[trigger] blocks@[b],
                ),
{
    documents
        .par_chunks(block_size)
        .map(|block| index_block(block, block_size, threshold))
        .collect()
}

/// The blocks of `block_size` documents each, in order.
pub fn index_blocks(
    documents: &[Vec<(u32, u32)>],
    block_size: usize,
    threshold: usize,
) -> (blocks: Vec<Vec<(u16, Postings)>>)
    requires
        block_size > 0,
    ensures
        blocks@.len() == block_count(documents@.len(), block_size as nat),
        forall|b: int|
            0 <= b < blocks@.len() ==> block_view((#[trigger] blocks@[b])@) == block_of(
                chunk(documents_view(documents@), block_size as nat, b),
                block_size as nat,
                threshold as nat,
            ),
{
    let blocks: Vec<Vec<(u16, Postings)>> = index_chunks(documents, block_size, threshold);
    proof {
        assert forall|b: int| 0 <= b < blocks@.len() implies block_view(
            (#[trigger] blocks@[b])@,
        ) == block_of(
            chunk(documents_view(documents@), block_size as nat, b),
            block_size as nat,
            threshold as nat,
        ) by {
            let block = choose|block: &[Vec<(u32, u32)>]|
                block@ == chunk(documents@, block_size as nat, b) && call_ensures(
                    index_block,
                    (block, block_size, threshold),
                    blocks@[b],
                );
            lemma_chunk_bounds(documents@.len(), block_size as nat, b);
            assert(documents_view(block@) =~= chunk(
                documents_view(documents@),
                block_size as nat,
                b,
            ));
        }
    }
    blocks
}

/// Every block begins among the documents.
pub proof fn lemma_chunk_bounds(len: nat, bsize: nat, b: int)
    requires
        bsize > 0,
        0 <= b < block_count(len, bsize),
    ensures
        0 <= b * bsize < len,
        b * bsize < (b + 1) * bsize,
{
    lemma_fundamental_div_mod(len as int, bsize as int);
    let q = len / bsize;
    assert((b + 1) * bsize == b * bsize + bsize) by (nonlinear_arith);
    assert(0 <= b * bsize) by (nonlinear_arith)
        requires
            0 <= b,
    ;
    if b < q {
        assert((b + 1) * bsize <= q * bsize) by (nonlinear_arith)
            requires
                b + 1 <= q,
        ;
        assert(q * bsize == bsize * q) by (nonlinear_arith);
    } else {
        assert(b == q);
        assert(q * bsize == bsize * q) by (nonlinear_arith);
    }
}

/// Sorting does not change which terms occur.
proof fn lemma_terms_of_sorted(
    before: Seq<(u32, u32, u32)>,
    after: Seq<(u32, u32, u32)>,
    bound: nat,
)
    requires
        is_stable_sort(before, after),
    ensures
        terms_below(after, bound) == terms_below(before, bound),
    decreases bound,
{
    if bound > 0 {
        lemma_terms_of_sorted(before, after, (bound - 1) as nat);
        assert(with_key(after, (bound - 1) as u32) == with_key(before, (bound - 1) as u32));
    }
}

/// A posting's place lies among the block's documents.
proof fn lemma_posting_place(documents: Seq<Seq<(u32, u32)>>, i: int)
    requires
        0 <= i < block_postings(documents).len(),
    ensures
        block_postings(documents)[i].1 < documents.len(),
    decreases documents.len(),
{
    let rest = block_postings(documents.drop_last());
    if i < rest.len() {
        lemma_posting_place(documents.drop_last(), i);
    } else {
        assert(block_postings(documents)[i] == document_postings(
            documents.last(),
            documents.len() - 1,
        )[i - rest.len()]);
    }
}

/// So does a pair's place.
pub proof fn lemma_places_fit(documents: Seq<Seq<(u32, u32)>>, term: u32, j: int)
    requires
        0 <= j < term_pairs(block_postings(documents), term).len(),
    ensures
        term_pairs(block_postings(documents), term)[j].0 < documents.len(),
{
    let postings = block_postings(documents);
    let kept = with_key(postings, term);
    lemma_with_key_contains(postings, term, kept[j]);
    assert(kept.contains(kept[j]));
    let i = choose|i: int| 0 <= i < postings.len() && postings[i] == kept[j];
    lemma_posting_place(documents, i);
}

proof fn lemma_sorted_prefix(postings: Seq<(u32, u32, u32)>, n: int)
    requires
        sorted_by_key(postings),
        0 <= n <= postings.len(),
    ensures
        sorted_by_key(postings.take(n)),
{
    let prefix = postings.take(n);
    assert forall|i: int, j: int| 0 <= i <= j < prefix.len() implies (
    #[trigger] prefix[i]).0 <= (#[trigger] prefix[j]).0 by {
        assert(postings[i].0 <= postings[j].0);
    }
}

/// No postings, no terms.
proof fn lemma_no_terms(bound: nat)
    ensures
        terms_below(Seq::empty(), bound) == Seq::<u32>::empty(),
    decreases bound,
{
    if bound > 0 {
        lemma_no_terms((bound - 1) as nat);
    }
}

/// Postings without a posting of `key`.
pub proof fn lemma_no_key(postings: Seq<(u32, u32, u32)>, key: u32)
    requires
        forall|i: int| 0 <= i < postings.len() ==> (#[trigger] postings[i]).0 != key,
    ensures
        with_key(postings, key) == Seq::<(u32, u32, u32)>::empty(),
    decreases postings.len(),
{
    if postings.len() > 0 {
        lemma_no_key(postings.drop_last(), key);
    }
}

/// Terms are listed below the bound only.
pub proof fn lemma_terms_below_bounds(postings: Seq<(u32, u32, u32)>, bound: nat)
    requires
        bound <= 0x1_0000_0000,
    ensures
        forall|k: int|
            0 <= k < terms_below(postings, bound).len() ==> #[trigger] terms_below(
                postings,
                bound,
            )[k] < bound,
    decreases bound,
{
    if bound > 0 {
        let below = terms_below(postings, (bound - 1) as nat);
        lemma_terms_below_bounds(postings, (bound - 1) as nat);
        assert forall|k: int| 0 <= k < terms_below(postings, bound).len() implies
            #[trigger] terms_below(postings, bound)[k] < bound by {
            if k < below.len() {
                assert(terms_below(postings, bound)[k] == below[k]);
            }
        }
    }
}

/// One more posting at or above the bound changes no term below it.
proof fn lemma_same_terms(
    before: Seq<(u32, u32, u32)>,
    after: Seq<(u32, u32, u32)>,
    bound: nat,
)
    requires
        after.len() > 0,
        after.drop_last() == before,
        bound <= after.last().0,
    ensures
        terms_below(after, bound) == terms_below(before, bound),
    decreases bound,
{
    if bound > 0 {
        lemma_same_terms(before, after, (bound - 1) as nat);
    }
}

/// Between the last term of sorted postings and a higher bound lies no term.
proof fn lemma_last_term(postings: Seq<(u32, u32, u32)>, bound: nat)
    requires
        sorted_by_key(postings),
        postings.len() > 0,
        postings.last().0 < bound <= 0x1_0000_0000,
    ensures
        terms_below(postings, bound) == terms_below(
            postings,
            postings.last().0 as nat,
        ).push(postings.last().0),
    decreases bound,
{
    let last = postings.last().0;
    if bound == last + 1 {
        assert(with_key(postings, last).len() > 0);
    } else {
        let term = (bound - 1) as u32;
        assert forall|i: int| 0 <= i < postings.len() implies (#[trigger] postings[i]).0
            != term by {
            assert(postings[i].0 <= postings[postings.len() - 1].0);
        }
        lemma_no_key(postings, term);
        lemma_last_term(postings, (bound - 1) as nat);
    }
}

} // verus!
