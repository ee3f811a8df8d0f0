//! What holds of the index as a whole.

use vstd::arithmetic::div_mod::{
    lemma_div_is_ordered, lemma_div_pos_is_pos, lemma_fundamental_div_mod, lemma_mod_bound,
};
use vstd::prelude::*;

use crate::index::blocks::{lemma_chunk_bounds, lemma_places_fit, lemma_terms_below_bounds};
use crate::index::keyed::{
    is_stable_sort, law_stable_sort_permutes, lemma_distinct_keys, lemma_with_key_contains,
    with_key,
};
use crate::index::model::{
    ascending_block, ascending_query, block_count, block_of, block_postings, block_product,
    blocks_of, choose_postings, chunk, contribution, cursor, dense_count, dense_in_block,
    dense_scores, distinct_terms, document_postings, entry_count, fits_block, hit, hits_fit,
    impact, inner_product, last_score, lemma_cursor_in_range, lemma_skip_below, narrow_document,
    narrow_terms, pair_sum, partial_product, partial_score, postings_of, score, scores_fit,
    skip_below, sparse_count, sparse_in_block, term_pairs, term_product, term_score, terms_below,
    terms_of, BlockView, PostingsView,
};
use crate::index::narrow::low8;

verus! {

/// Pairs that name no document twice.
pub open spec fn distinct_places(pairs: Seq<(u8, u8)>) -> bool {
    forall|i: int, j: int|
        0 <= i < j < pairs.len() ==> (#[trigger] pairs[i]).0 != (#[trigger] pairs[j]).0
}

/// Where no document is named twice, storing pairs densely changes no score.
pub proof fn law_dense_keeps_scores(pairs: Seq<(u8, u8)>, bsize: nat, doc: int)
    requires
        distinct_places(pairs),
        0 <= doc < bsize,
    ensures
        impact(PostingsView::Dense(dense_scores(pairs, bsize)), doc) == impact(
            PostingsView::Sparse(pairs),
            doc,
        ),
{
    lemma_last_score_is_sum(pairs, doc);
}

proof fn lemma_last_score_is_sum(pairs: Seq<(u8, u8)>, doc: int)
    requires
        distinct_places(pairs),
    ensures
        last_score(pairs, doc) == pair_sum(pairs, doc),
    decreases pairs.len(),
{
    if pairs.len() > 0 {
        let rest = pairs.drop_last();
        if pairs.last().0 == doc {
            assert forall|i: int| 0 <= i < rest.len() implies (#[trigger] rest[i]).0 != doc by {
                assert(pairs[i].0 != pairs[pairs.len() - 1].0);
            }
            lemma_sum_of_absent(rest, doc);
        } else {
            lemma_last_score_is_sum(rest, doc);
        }
    }
}

proof fn lemma_sum_of_absent(pairs: Seq<(u8, u8)>, doc: int)
    requires
        forall|i: int| 0 <= i < pairs.len() ==> (#[trigger] pairs[i]).0 != doc,
    ensures
        pair_sum(pairs, doc) == 0,
    decreases pairs.len(),
{
    if pairs.len() > 0 {
        lemma_sum_of_absent(pairs.drop_last(), doc);
    }
}

/// Filtering by key goes through joining.
proof fn lemma_with_key_joined(
    one: Seq<(u32, u32, u32)>,
    other: Seq<(u32, u32, u32)>,
    key: u32,
)
    ensures
        with_key(one + other, key) == with_key(one, key) + with_key(other, key),
    decreases other.len(),
{
    if other.len() == 0 {
        assert(one + other =~= one);
        assert(with_key(one, key) + with_key(other, key) =~= with_key(one, key));
    } else {
        let joined = one + other;
        assert(joined.drop_last() =~= one + other.drop_last());
        assert(joined.last() == other.last());
        lemma_with_key_joined(one, other.drop_last(), key);
        assert(with_key(joined, key) =~= with_key(one, key) + with_key(other, key));
    }
}

/// The sums of joined pairs add up.
pub proof fn lemma_pair_sum_joined(one: Seq<(u8, u8)>, other: Seq<(u8, u8)>, doc: int)
    ensures
        pair_sum(one + other, doc) == pair_sum(one, doc) + pair_sum(other, doc),
    decreases other.len(),
{
    if other.len() == 0 {
        assert(one + other =~= one);
    } else {
        let joined = one + other;
        assert(joined.drop_last() =~= one + other.drop_last());
        assert(joined.last() == other.last());
        lemma_pair_sum_joined(one, other.drop_last(), doc);
    }
}

/// The order of the pairs changes no document's sum.
pub proof fn law_pair_order_changes_no_sum(
    one: Seq<(u8, u8)>,
    other: Seq<(u8, u8)>,
    doc: int,
)
    requires
        one.to_multiset() == other.to_multiset(),
    ensures
        pair_sum(one, doc) == pair_sum(other, doc),
    decreases one.len(),
{
    broadcast use vstd::seq_lib::group_to_multiset_ensures;

    one.to_multiset_ensures();
    other.to_multiset_ensures();
    if one.len() > 0 {
        let last = one.last();
        assert(one.contains(one[one.len() - 1]));
        assert(one.to_multiset().count(last) > 0);
        assert(other.contains(last));
        let i = choose|i: int| 0 <= i < other.len() && other[i] == last;
        let (a, b) = (one.drop_last(), other.remove(i));
        assert(a =~= one.remove(one.len() - 1));
        assert(a.to_multiset() =~= b.to_multiset());
        law_pair_order_changes_no_sum(a, b, doc);
        let (front, back) = (other.take(i), other.skip(i + 1));
        assert(b =~= front + back);
        assert(other =~= front.push(last) + back);
        lemma_pair_sum_joined(front, back, doc);
        lemma_pair_sum_joined(front.push(last), back, doc);
        assert(front.push(last).drop_last() =~= front);
    }
}

/// What the postings of one document say of the document at `doc`.
proof fn lemma_document_sum(document: Seq<(u32, u32)>, place: int, term: u32, doc: int)
    requires
        narrow_document(document),
        0 <= place <= u8::MAX,
    ensures
        pair_sum(term_pairs(document_postings(document, place), term), doc) == if place == doc {
            term_score(document, term)
        } else {
            0
        },
    decreases document.len(),
{
    let postings = document_postings(document, place);
    if document.len() > 0 {
        let rest = document.drop_last();
        assert(narrow_document(rest)) by {
            assert forall|i: int| 0 <= i < rest.len() implies (#[trigger] rest[i]).0 <= u16::MAX
                && rest[i].1 <= u8::MAX by {
                assert(rest[i] == document[i]);
            }
        }
        lemma_document_sum(rest, place, term, doc);
        assert(postings.drop_last() =~= document_postings(rest, place));
        let last = document[document.len() - 1];
        assert(last.1 <= u8::MAX);
        if last.0 == term {
            assert(with_key(postings, term) == with_key(postings.drop_last(), term).push(
                postings.last(),
            ));
            let pairs = term_pairs(postings, term);
            assert(pairs.drop_last() =~= term_pairs(postings.drop_last(), term));
            assert(pairs.last() == (low8(place), low8(last.1 as int)));
        }
    } else {
        assert(term_pairs(postings, term) =~= Seq::empty());
    }
}

/// What the postings of a block say of the document at `doc`: its own scores.
pub proof fn lemma_block_sum(documents: Seq<Seq<(u32, u32)>>, term: u32, doc: int)
    requires
        documents.len() <= 0x100,
        forall|d: int| 0 <= d < documents.len() ==> narrow_document(#[trigger] documents[d]),
    ensures
        pair_sum(term_pairs(block_postings(documents), term), doc) == if 0 <= doc
            < documents.len() {
            term_score(documents[doc], term)
        } else {
            0
        },
    decreases documents.len(),
{
    if documents.len() == 0 {
        assert(term_pairs(block_postings(documents), term) =~= Seq::empty());
    } else {
        let rest = documents.drop_last();
        let place = documents.len() - 1;
        let (front, back) = (block_postings(rest), document_postings(documents.last(), place));
        lemma_block_sum(rest, term, doc);
        assert(narrow_document(documents[place]));
        lemma_document_sum(documents.last(), place, term, doc);
        lemma_with_key_joined(front, back, term);
        assert(term_pairs(front + back, term) =~= term_pairs(front, term) + term_pairs(
            back,
            term,
        ));
        lemma_pair_sum_joined(term_pairs(front, term), term_pairs(back, term), doc);
    }
}

/// Where no document holds a term twice, the pairs of a term name no document
/// twice.
proof fn lemma_pairs_distinct(documents: Seq<Seq<(u32, u32)>>, term: u32)
    requires
        documents.len() <= 0x100,
        forall|d: int| 0 <= d < documents.len() ==> distinct_terms(#[trigger] documents[d]),
    ensures
        distinct_places(term_pairs(block_postings(documents), term)),
    decreases documents.len(),
{
    if documents.len() == 0 {
        assert(term_pairs(block_postings(documents), term) =~= Seq::empty());
    } else {
        let rest = documents.drop_last();
        let place = documents.len() - 1;
        let document = documents[place];
        let (front, back) = (block_postings(rest), document_postings(document, place));
        lemma_pairs_distinct(rest, term);
        lemma_with_key_joined(front, back, term);
        let (left, right) = (term_pairs(front, term), term_pairs(back, term));
        let pairs = term_pairs(front + back, term);
        assert(pairs =~= left + right);
        assert(distinct_terms(document));
        lemma_distinct_keys(back, term);
        assert forall|j: int| 0 <= j < right.len() implies (#[trigger] right[j]).0 == place by {
            let kept = with_key(back, term);
            lemma_with_key_contains(back, term, kept[j]);
            assert(kept.contains(kept[j]));
        }
        assert forall|i: int, j: int| 0 <= i < j < pairs.len() implies (#[trigger] pairs[i]).0
            != (#[trigger] pairs[j]).0 by {
            if j < left.len() {
                assert(left[i].0 != left[j].0);
            } else {
                assert(i < left.len());
                lemma_places_fit(rest, term, i);
                assert(right[j - left.len()].0 == place);
            }
        }
    }
}

/// No term that is stored densely names a document twice.
pub open spec fn dense_terms_once(documents: Seq<Seq<(u32, u32)>>, threshold: nat) -> bool {
    forall|term: u32| #[trigger]
        with_key(block_postings(documents), term).len() > threshold ==> distinct_places(
            term_pairs(block_postings(documents), term),
        )
}

/// Where no document holds a term twice, no term names a document twice, whatever
/// the threshold.
pub proof fn law_distinct_terms_name_documents_once(
    documents: Seq<Seq<(u32, u32)>>,
    threshold: nat,
)
    requires
        documents.len() <= 0x100,
        forall|d: int| 0 <= d < documents.len() ==> distinct_terms(#[trigger] documents[d]),
    ensures
        dense_terms_once(documents, threshold),
{
    assert forall|term: u32| #[trigger]
        with_key(block_postings(documents), term).len() > threshold implies distinct_places(
        term_pairs(block_postings(documents), term),
    ) by {
        lemma_pairs_distinct(documents, term);
    }
}

/// Terms are listed in ascending order, and those that occur are listed.
pub proof fn lemma_terms_listed(postings: Seq<(u32, u32, u32)>, bound: nat)
    requires
        bound <= 0x1_0000_0000,
    ensures
        forall|i: int, j: int|
            0 <= i < j < terms_below(postings, bound).len() ==> #[trigger] terms_below(
                postings,
                bound,
            )[i] < #[trigger] terms_below(postings, bound)[j],
        forall|k: int|
            0 <= k < terms_below(postings, bound).len() ==> with_key(
                postings,
                #[trigger] terms_below(postings, bound)[k],
            ).len() > 0,
        forall|term: u32|
            term < bound && #[trigger] with_key(postings, term).len() > 0 ==> terms_below(
                postings,
                bound,
            ).contains(term),
    decreases bound,
{
    if bound > 0 {
        let last = (bound - 1) as u32;
        let below = terms_below(postings, (bound - 1) as nat);
        let terms = terms_below(postings, bound);
        lemma_terms_listed(postings, (bound - 1) as nat);
        lemma_terms_below_bounds(postings, (bound - 1) as nat);
        assert forall|i: int, j: int| 0 <= i < j < terms.len() implies #[trigger] terms[i]
            < #[trigger] terms[j] by {
            assert(terms[i] == below[i]);
            if j < below.len() {
                assert(terms[j] == below[j]);
            }
        }
        assert forall|k: int| 0 <= k < terms.len() implies with_key(
            postings,
            #[trigger] terms[k],
        ).len() > 0 by {
            if k < below.len() {
                assert(terms[k] == below[k]);
            }
        }
        assert forall|term: u32|
            term < bound && #[trigger] with_key(postings, term).len() > 0 implies terms.contains(
            term,
        ) by {
            if term == last {
                assert(terms[terms.len() - 1] == term);
            } else {
                assert(below.contains(term));
                let k = choose|k: int| 0 <= k < below.len() && below[k] == term;
                assert(terms[k] == term);
            }
        }
    }
}

/// The terms of postings are known by two things: they ascend without repetition,
/// and they are those that occur.
pub proof fn law_terms_are_determined(postings: Seq<(u32, u32, u32)>, terms: Seq<u32>)
    requires
        forall|i: int, j: int|
            0 <= i < j < terms.len() ==> #[trigger] terms[i] < #[trigger] terms[j],
        forall|term: u32|
            #[trigger] terms.contains(term) <==> with_key(postings, term).len() > 0,
    ensures
        terms_of(postings) == terms,
{
    let listed = terms_of(postings);
    lemma_terms_listed(postings, 0x1_0000_0000);
    assert forall|term: u32| #[trigger] listed.contains(term) <==> terms.contains(term) by {
        if listed.contains(term) {
            let k = choose|k: int| 0 <= k < listed.len() && listed[k] == term;
            assert(with_key(postings, listed[k]).len() > 0);
        }
        if terms.contains(term) {
            assert(with_key(postings, term).len() > 0);
        }
    }
    lemma_ascending_unique(listed, terms);
}

proof fn lemma_ascending_unique(one: Seq<u32>, other: Seq<u32>)
    requires
        forall|i: int, j: int|
            0 <= i < j < one.len() ==> #[trigger] one[i] < #[trigger] one[j],
        forall|i: int, j: int|
            0 <= i < j < other.len() ==> #[trigger] other[i] < #[trigger] other[j],
        forall|term: u32| #[trigger] one.contains(term) <==> other.contains(term),
    ensures
        one == other,
    decreases one.len(),
{
    if one.len() == 0 {
        if other.len() > 0 {
            assert(other.contains(other[0]));
            assert(one.contains(other[0]));
        }
        assert(one =~= other);
    } else {
        let last = one[one.len() - 1];
        assert(one.contains(last));
        let k = choose|k: int| 0 <= k < other.len() && other[k] == last;
        let top = other[other.len() - 1];
        assert(other.contains(top));
        assert(one.contains(top));
        let m = choose|m: int| 0 <= m < one.len() && one[m] == top;
        assert(last == top) by {
            if k < other.len() - 1 {
                assert(other[k] < other[other.len() - 1]);
            }
            if m < one.len() - 1 {
                assert(one[m] < one[one.len() - 1]);
            }
        }
        let (a, b) = (one.drop_last(), other.drop_last());
        assert forall|term: u32| #[trigger] a.contains(term) <==> b.contains(term) by {
            lemma_before_last(one, term);
            lemma_before_last(other, term);
            assert(one.contains(term) <==> other.contains(term));
        }
        lemma_ascending_unique(a, b);
        assert(one =~= a.push(last));
        assert(other =~= b.push(top));
    }
}

proof fn lemma_before_last(terms: Seq<u32>, term: u32)
    requires
        terms.len() > 0,
        forall|i: int, j: int|
            0 <= i < j < terms.len() ==> #[trigger] terms[i] < #[trigger] terms[j],
    ensures
        terms.drop_last().contains(term) <==> terms.contains(term) && term != terms.last(),
{
    let rest = terms.drop_last();
    if rest.contains(term) {
        let k = choose|k: int| 0 <= k < rest.len() && rest[k] == term;
        assert(terms[k] == term);
        assert(terms[k] < terms[terms.len() - 1]);
    }
    if terms.contains(term) && term != terms.last() {
        let k = choose|k: int| 0 <= k < terms.len() && terms[k] == term;
        assert(rest[k] == term);
    }
}

/// A posting of the block has its term from one of the documents.
proof fn lemma_posting_source(documents: Seq<Seq<(u32, u32)>>, i: int)
    requires
        0 <= i < block_postings(documents).len(),
        forall|d: int| 0 <= d < documents.len() ==> narrow_terms(#[trigger] documents[d]),
    ensures
        block_postings(documents)[i].0 <= u16::MAX,
    decreases documents.len(),
{
    let rest = block_postings(documents.drop_last());
    if i < rest.len() {
        lemma_posting_source(documents.drop_last(), i);
    } else {
        let document = documents[documents.len() - 1];
        assert(narrow_terms(document));
        assert(block_postings(documents)[i].0 == document[i - rest.len()].0);
    }
}

/// A block made from documents with terms of 16 bits lists exactly the terms that
/// occur in them, in ascending order and without repetition.
pub proof fn law_block_lists_terms(
    documents: Seq<Seq<(u32, u32)>>,
    bsize: nat,
    threshold: nat,
)
    requires
        forall|d: int| 0 <= d < documents.len() ==> narrow_terms(#[trigger] documents[d]),
    ensures
        ascending_block(block_of(documents, bsize, threshold)),
        block_of(documents, bsize, threshold).len() == terms_of(block_postings(documents)).len(),
        forall|k: int|
            0 <= k < block_of(documents, bsize, threshold).len() ==> (#[trigger] block_of(
                documents,
                bsize,
                threshold,
            )[k]).0 == terms_of(block_postings(documents))[k],
        forall|term: u32|
            terms_of(block_postings(documents)).contains(term) <==> #[trigger] with_key(
                block_postings(documents),
                term,
            ).len() > 0,
{
    let postings = block_postings(documents);
    let terms = terms_of(postings);
    let block = block_of(documents, bsize, threshold);
    lemma_terms_listed(postings, 0x1_0000_0000);
    assert forall|term: u32| terms.contains(term) <==> #[trigger] with_key(
        postings,
        term,
    ).len() > 0 by {
        if terms.contains(term) {
            let k = choose|k: int| 0 <= k < terms.len() && terms[k] == term;
            assert(with_key(postings, terms[k]).len() > 0);
        }
    }
    assert forall|k: int| 0 <= k < block.len() implies (#[trigger] block[k]).0 == terms[k] by {
        let kept = with_key(postings, terms[k]);
        assert(kept.len() > 0);
        lemma_with_key_contains(postings, terms[k], kept[0]);
        assert(kept.contains(kept[0]));
        let i = choose|i: int| 0 <= i < postings.len() && postings[i] == kept[0];
        lemma_posting_source(documents, i);
    }
    assert forall|i: int, j: int| 0 <= i < j < block.len() implies (#[trigger] block[i]).0 < (
    #[trigger] block[j]).0 by {
        assert(terms[i] < terms[j]);
    }
}

/// With an ascending query, everything behind the walk lies below the last term.
proof fn lemma_walk(query: Seq<(u16, u8)>, block: BlockView, n: int)
    requires
        ascending_query(query),
        1 <= n <= query.len(),
    ensures
        0 <= cursor(query, block, n) <= block.len(),
        forall|k: int|
            0 <= k < cursor(query, block, n) ==> (#[trigger] block[k]).0 < query[n - 1].0,
        cursor(query, block, n) < block.len() ==> block[cursor(query, block, n)].0 >= query[n
            - 1].0,
    decreases n,
{
    lemma_cursor_in_range(query, block, n - 1);
    lemma_skip_below(block, cursor(query, block, n - 1), query[n - 1].0);
    if n > 1 {
        lemma_walk(query, block, n - 1);
        assert(query[n - 2].0 <= query[n - 1].0);
    }
}

/// With an ascending query and an ascending block, the walk misses no term: it
/// stops at the entry of every query term that the block lists.
pub proof fn law_walk_finds_terms(query: Seq<(u16, u8)>, block: BlockView, i: int, k: int)
    requires
        ascending_query(query),
        ascending_block(block),
        0 <= i < query.len(),
        0 <= k < block.len(),
        block[k].0 == query[i].0,
    ensures
        hit(query, block, i),
        cursor(query, block, i + 1) == k,
{
    lemma_walk(query, block, i + 1);
    let c = cursor(query, block, i + 1);
    assert(c <= k);
    if c < k {
        assert(block[c].0 < block[k].0);
    }
}

/// With an ascending query and an ascending block, a document's score is the sum
/// of the query's weight times the block's impact over all query terms and all
/// entries of the block with equal terms.
pub proof fn law_scores_are_block_products(query: Seq<(u16, u8)>, block: BlockView, doc: int)
    requires
        ascending_query(query),
        ascending_block(block),
    ensures
        score(query, block, doc) == block_product(query, block, doc, query.len() as int),
{
    lemma_partial_block_products(query, block, doc, query.len() as int);
}

proof fn lemma_partial_block_products(
    query: Seq<(u16, u8)>,
    block: BlockView,
    doc: int,
    n: int,
)
    requires
        ascending_query(query),
        ascending_block(block),
        0 <= n <= query.len(),
    ensures
        partial_score(query, block, doc, n) == block_product(query, block, doc, n),
    decreases n,
{
    if n > 0 {
        lemma_partial_block_products(query, block, doc, n - 1);
        lemma_term_product(query, block, doc, n - 1, block.len() as int);
    }
}

/// Of the entries of a block, the one where the walk stops adds to a query term's
/// product, and no other.
proof fn lemma_term_product(
    query: Seq<(u16, u8)>,
    block: BlockView,
    doc: int,
    i: int,
    n: int,
)
    requires
        ascending_query(query),
        ascending_block(block),
        0 <= i < query.len(),
        0 <= n <= block.len(),
    ensures
        term_product(query[i], block, doc, n) == if cursor(query, block, i + 1) < n {
            contribution(query, block, doc, i)
        } else {
            0
        },
    decreases n,
{
    lemma_walk(query, block, i + 1);
    if n > 0 {
        lemma_term_product(query, block, doc, i, n - 1);
        if block[n - 1].0 == query[i].0 {
            law_walk_finds_terms(query, block, i, n - 1);
        }
    }
}

/// One query term adds its weight times the document's own score.
proof fn lemma_contribution(
    documents: Seq<Seq<(u32, u32)>>,
    bsize: nat,
    threshold: nat,
    query: Seq<(u16, u8)>,
    doc: int,
    i: int,
)
    requires
        documents.len() <= bsize,
        documents.len() <= 0x100,
        forall|d: int| 0 <= d < documents.len() ==> narrow_document(#[trigger] documents[d]),
        dense_terms_once(documents, threshold),
        ascending_query(query),
        0 <= doc < documents.len(),
        0 <= i < query.len(),
    ensures
        contribution(query, block_of(documents, bsize, threshold), doc, i) == query[i].1 as nat
            * term_score(documents[doc], query[i].0 as u32),
{
    let postings = block_postings(documents);
    let terms = terms_of(postings);
    let block = block_of(documents, bsize, threshold);
    let term = query[i].0 as u32;
    let pairs = term_pairs(postings, term);
    assert forall|d: int| 0 <= d < documents.len() implies narrow_terms(
        #[trigger] documents[d],
    ) by {
        assert(narrow_document(documents[d]));
    }
    law_block_lists_terms(documents, bsize, threshold);
    lemma_block_sum(documents, term, doc);
    if with_key(postings, term).len() > 0 {
        assert(terms.contains(term));
        let k = choose|k: int| 0 <= k < terms.len() && terms[k] == term;
        assert(block[k].0 == terms[k]);
        law_walk_finds_terms(query, block, i, k);
        if pairs.len() > threshold {
            law_dense_keeps_scores(pairs, bsize, doc);
        }
        assert(block[k].1 == choose_postings(pairs, bsize, threshold));
    } else {
        assert(pairs =~= Seq::empty());
        assert(term_score(documents[doc], term) == 0);
        if hit(query, block, i) {
            let c = cursor(query, block, i + 1);
            assert(block[c].0 == terms[c]);
            assert(terms.contains(terms[c]));
        }
        assert(query[i].1 as nat * 0 == 0);
    }
}

/// A block scores each of its documents by the inner product of the query with
/// that document.
///
/// The block holds at most 256 documents; their terms have 16 bits and their
/// scores 8; none holds a term twice that is stored densely; and the query's terms
/// ascend.
pub proof fn law_block_scores_are_inner_products(
    documents: Seq<Seq<(u32, u32)>>,
    bsize: nat,
    threshold: nat,
    query: Seq<(u16, u8)>,
    doc: int,
)
    requires
        documents.len() <= bsize,
        documents.len() <= 0x100,
        forall|d: int| 0 <= d < documents.len() ==> narrow_document(#[trigger] documents[d]),
        dense_terms_once(documents, threshold),
        ascending_query(query),
        0 <= doc < documents.len(),
    ensures
        score(query, block_of(documents, bsize, threshold), doc) == inner_product(
            query,
            documents[doc],
        ),
{
    lemma_partial_products(documents, bsize, threshold, query, doc, query.len() as int);
}

proof fn lemma_partial_products(
    documents: Seq<Seq<(u32, u32)>>,
    bsize: nat,
    threshold: nat,
    query: Seq<(u16, u8)>,
    doc: int,
    n: int,
)
    requires
        documents.len() <= bsize,
        documents.len() <= 0x100,
        forall|d: int| 0 <= d < documents.len() ==> narrow_document(#[trigger] documents[d]),
        dense_terms_once(documents, threshold),
        ascending_query(query),
        0 <= doc < documents.len(),
        0 <= n <= query.len(),
    ensures
        partial_score(query, block_of(documents, bsize, threshold), doc, n) == partial_product(
            query,
            documents[doc],
            n,
        ),
    decreases n,
{
    if n > 0 {
        lemma_partial_products(documents, bsize, threshold, query, doc, n - 1);
        lemma_contribution(documents, bsize, threshold, query, doc, n - 1);
    }
}

/// A block made from such documents can be scored against the query, where the
/// inner products can be held in 16 bits.
pub proof fn law_block_can_be_scored(
    documents: Seq<Seq<(u32, u32)>>,
    bsize: nat,
    threshold: nat,
    query: Seq<(u16, u8)>,
)
    requires
        documents.len() <= bsize,
        documents.len() <= 0x100,
        forall|d: int|
            0 <= d < documents.len() ==> narrow_document(#[trigger] documents[d])
                && inner_product(query, documents[d]) <= u16::MAX,
        dense_terms_once(documents, threshold),
        ascending_query(query),
    ensures
        hits_fit(query, block_of(documents, bsize, threshold), bsize),
        scores_fit(query, block_of(documents, bsize, threshold), bsize),
{
    let block = block_of(documents, bsize, threshold);
    law_block_fits(documents, bsize, threshold, query);
    assert forall|doc: int| 0 <= doc < bsize implies #[trigger] score(query, block, doc)
        <= u16::MAX by {
        if doc < documents.len() {
            law_block_scores_are_inner_products(documents, bsize, threshold, query, doc);
            assert(inner_product(query, documents[doc]) <= u16::MAX);
        } else {
            law_empty_places_score_zero(documents, bsize, threshold, query, doc);
        }
    }
}

/// The walk depends on the terms of a block alone.
proof fn lemma_walk_by_terms(one: BlockView, other: BlockView, from: int, term: u16)
    requires
        one.len() == other.len(),
        forall|k: int| 0 <= k < one.len() ==> (#[trigger] one[k]).0 == (#[trigger] other[k]).0,
        0 <= from <= one.len(),
    ensures
        skip_below(one, from, term) == skip_below(other, from, term),
    decreases one.len() - from,
{
    if from < one.len() {
        assert(one[from].0 == other[from].0);
        if one[from].0 < term {
            lemma_walk_by_terms(one, other, from + 1, term);
        }
    }
}

/// Two blocks that list the same terms, with the same impact on a document, give
/// that document the same score, for any query.
pub proof fn law_scores_follow_impacts(
    one: BlockView,
    other: BlockView,
    query: Seq<(u16, u8)>,
    doc: int,
)
    requires
        one.len() == other.len(),
        forall|k: int|
            0 <= k < one.len() ==> (#[trigger] one[k]).0 == (#[trigger] other[k]).0 && impact(
                one[k].1,
                doc,
            ) == impact(other[k].1, doc),
    ensures
        score(query, one, doc) == score(query, other, doc),
{
    lemma_partial_scores_agree(one, other, query, doc, query.len() as int);
}

proof fn lemma_partial_scores_agree(
    one: BlockView,
    other: BlockView,
    query: Seq<(u16, u8)>,
    doc: int,
    n: int,
)
    requires
        one.len() == other.len(),
        forall|k: int|
            0 <= k < one.len() ==> (#[trigger] one[k]).0 == (#[trigger] other[k]).0 && impact(
                one[k].1,
                doc,
            ) == impact(other[k].1, doc),
        0 <= n <= query.len(),
    ensures
        cursor(query, one, n) == cursor(query, other, n),
        partial_score(query, one, doc, n) == partial_score(query, other, doc, n),
    decreases n,
{
    if n > 0 {
        lemma_partial_scores_agree(one, other, query, doc, n - 1);
        lemma_cursor_in_range(query, one, n - 1);
        lemma_cursor_in_range(query, one, n);
        lemma_walk_by_terms(one, other, cursor(query, one, n - 1), query[n - 1].0);
        let c = cursor(query, one, n);
        if c < one.len() {
            assert(one[c].0 == other[c].0);
        }
        assert(contribution(query, one, doc, n - 1) == contribution(query, other, doc, n - 1));
    }
}

/// Where no document holds a term twice that is stored densely, the threshold
/// above which terms are stored so changes no score, for any query.
pub proof fn law_threshold_changes_no_score(
    documents: Seq<Seq<(u32, u32)>>,
    bsize: nat,
    one: nat,
    other: nat,
    query: Seq<(u16, u8)>,
    doc: int,
)
    requires
        dense_terms_once(documents, one),
        dense_terms_once(documents, other),
        0 <= doc < bsize,
    ensures
        score(query, block_of(documents, bsize, one), doc) == score(
            query,
            block_of(documents, bsize, other),
            doc,
        ),
{
    let (a, b) = (block_of(documents, bsize, one), block_of(documents, bsize, other));
    assert forall|k: int| 0 <= k < a.len() implies (#[trigger] a[k]).0 == (#[trigger] b[k]).0
        && impact(a[k].1, doc) == impact(b[k].1, doc) by {
        let term = terms_of(block_postings(documents))[k];
        let pairs = term_pairs(block_postings(documents), term);
        if pairs.len() > one || pairs.len() > other {
            assert(with_key(block_postings(documents), term).len() == pairs.len());
            law_dense_keeps_scores(pairs, bsize, doc);
        }
        assert(a[k].1 == choose_postings(pairs, bsize, one));
        assert(b[k].1 == choose_postings(pairs, bsize, other));
    }
    law_scores_follow_impacts(a, b, query, doc);
}

/// A block made from documents keeps every score within its size, so that any
/// query can be scored on it as far as the sums can be held.
pub proof fn law_block_fits(
    documents: Seq<Seq<(u32, u32)>>,
    bsize: nat,
    threshold: nat,
    query: Seq<(u16, u8)>,
)
    requires
        documents.len() <= bsize,
    ensures
        hits_fit(query, block_of(documents, bsize, threshold), bsize),
{
    let block = block_of(documents, bsize, threshold);
    let postings = block_postings(documents);
    let terms = terms_of(postings);
    assert forall|i: int| 0 <= i < query.len() && #[trigger] hit(query, block, i) implies
        fits_block(block[cursor(query, block, i + 1)].1, bsize) by {
        let c = cursor(query, block, i + 1);
        let pairs = term_pairs(postings, terms[c]);
        assert(block[c].1 == choose_postings(pairs, bsize, threshold));
        assert forall|j: int| 0 <= j < pairs.len() implies (#[trigger] pairs[j]).0 < bsize by {
            lemma_places_fit(documents, terms[c], j);
        }
    }
}

/// A block that is not full scores zero at the places behind its documents.
pub proof fn law_empty_places_score_zero(
    documents: Seq<Seq<(u32, u32)>>,
    bsize: nat,
    threshold: nat,
    query: Seq<(u16, u8)>,
    doc: int,
)
    requires
        documents.len() <= doc,
    ensures
        score(query, block_of(documents, bsize, threshold), doc) == 0,
{
    lemma_empty_place(documents, bsize, threshold, query, doc, query.len() as int);
}

proof fn lemma_empty_place(
    documents: Seq<Seq<(u32, u32)>>,
    bsize: nat,
    threshold: nat,
    query: Seq<(u16, u8)>,
    doc: int,
    n: int,
)
    requires
        documents.len() <= doc,
    ensures
        partial_score(query, block_of(documents, bsize, threshold), doc, n) == 0,
    decreases n,
{
    if n > 0 {
        let block = block_of(documents, bsize, threshold);
        lemma_empty_place(documents, bsize, threshold, query, doc, n - 1);
        if hit(query, block, n - 1) {
            let c = cursor(query, block, n);
            let term = terms_of(block_postings(documents))[c];
            let pairs = term_pairs(block_postings(documents), term);
            assert(block[c].1 == choose_postings(pairs, bsize, threshold));
            assert forall|j: int| 0 <= j < pairs.len() implies (#[trigger] pairs[j]).0 != doc by {
                lemma_places_fit(documents, term, j);
            }
            lemma_sum_of_absent(pairs, doc);
            lemma_last_of_absent(pairs, doc);
            assert(impact(block[c].1, doc) == 0);
            assert(query[n - 1].1 as nat * 0 == 0);
        }
    }
}

proof fn lemma_last_of_absent(pairs: Seq<(u8, u8)>, doc: int)
    requires
        forall|i: int| 0 <= i < pairs.len() ==> (#[trigger] pairs[i]).0 != doc,
    ensures
        last_score(pairs, doc) == 0,
    decreases pairs.len(),
{
    if pairs.len() > 0 {
        lemma_last_of_absent(pairs.drop_last(), doc);
    }
}

/// Dense postings have a score for each place of the block.
pub proof fn law_dense_postings_span_the_block(
    documents: Seq<Seq<(u32, u32)>>,
    bsize: nat,
    threshold: nat,
    k: int,
)
    requires
        0 <= k < block_of(documents, bsize, threshold).len(),
    ensures
        block_of(documents, bsize, threshold)[k].1 matches PostingsView::Dense(scores)
            ==> scores.len() == bsize,
{
}

/// With a threshold of zero, every term is stored densely.
pub proof fn law_zero_threshold_stores_densely(
    documents: Seq<Seq<(u32, u32)>>,
    bsize: nat,
    k: int,
)
    requires
        0 <= k < block_of(documents, bsize, 0).len(),
    ensures
        block_of(documents, bsize, 0)[k].1 is Dense,
{
    let postings = block_postings(documents);
    lemma_terms_listed(postings, 0x1_0000_0000);
    assert(with_key(postings, terms_of(postings)[k]).len() > 0);
}

/// With the block's size as the threshold, no term is stored densely, where no
/// document holds a term twice.
pub proof fn law_full_threshold_stores_sparsely(
    documents: Seq<Seq<(u32, u32)>>,
    bsize: nat,
    k: int,
)
    requires
        documents.len() <= bsize,
        forall|d: int| 0 <= d < documents.len() ==> distinct_terms(#[trigger] documents[d]),
        0 <= k < block_of(documents, bsize, bsize).len(),
    ensures
        block_of(documents, bsize, bsize)[k].1 is Sparse,
{
    lemma_pairs_within_documents(documents, terms_of(block_postings(documents))[k]);
}

proof fn lemma_pairs_within_documents(documents: Seq<Seq<(u32, u32)>>, term: u32)
    requires
        forall|d: int| 0 <= d < documents.len() ==> distinct_terms(#[trigger] documents[d]),
    ensures
        with_key(block_postings(documents), term).len() <= documents.len(),
    decreases documents.len(),
{
    if documents.len() > 0 {
        let rest = documents.drop_last();
        let document = documents[documents.len() - 1];
        let back = document_postings(document, documents.len() - 1);
        lemma_pairs_within_documents(rest, term);
        lemma_with_key_joined(block_postings(rest), back, term);
        assert(distinct_terms(document));
        lemma_distinct_keys(back, term);
    }
}

/// Every document stands in one block: the document `d` at the place `d % bsize`
/// of the block `d / bsize`.
pub proof fn law_blocks_hold_documents<T>(documents: Seq<T>, bsize: nat, d: int)
    requires
        bsize > 0,
        0 <= d < documents.len(),
    ensures
        0 <= d / bsize as int,
        (d / bsize as int) < block_count(documents.len(), bsize),
        chunk(documents, bsize, d / bsize as int).len() <= bsize,
        0 <= d % bsize as int,
        d % (bsize as int) < chunk(documents, bsize, d / bsize as int).len(),
        chunk(documents, bsize, d / bsize as int)[d % bsize as int] == documents[d],
{
    let (size, len) = (bsize as int, documents.len() as int);
    let (b, place) = (d / size, d % size);
    lemma_fundamental_div_mod(d, size);
    lemma_fundamental_div_mod(len, size);
    lemma_mod_bound(d, size);
    lemma_mod_bound(len, size);
    lemma_div_pos_is_pos(d, size);
    lemma_div_is_ordered(d, len, size);
    assert(size * b == b * size) by (nonlinear_arith);
    assert((b + 1) * size == b * size + size) by (nonlinear_arith);
    if len % size == 0 && b == len / size {
        assert(d >= len);
    }
    assert(b < block_count(documents.len(), bsize));
    lemma_chunk_bounds(documents.len(), bsize, b);
}

/// The index scores every document by the inner product of the query with it.
///
/// The document's block holds at most 256 documents; their terms have 16 bits and
/// their scores 8; none holds a term twice that is stored densely; and the query's
/// terms ascend.
pub proof fn law_index_scores_are_inner_products(
    documents: Seq<Seq<(u32, u32)>>,
    bsize: nat,
    threshold: nat,
    query: Seq<(u16, u8)>,
    d: int,
)
    requires
        0 < bsize,
        0 <= d < documents.len(),
        chunk(documents, bsize, d / bsize as int).len() <= 0x100,
        forall|k: int|
            0 <= k < chunk(documents, bsize, d / bsize as int).len() ==> narrow_document(
                #[trigger] chunk(documents, bsize, d / bsize as int)[k],
            ),
        dense_terms_once(chunk(documents, bsize, d / bsize as int), threshold),
        ascending_query(query),
    ensures
        score(
            query,
            blocks_of(documents, bsize, threshold)[d / bsize as int],
            d % bsize as int,
        ) == inner_product(query, documents[d]),
{
    law_blocks_hold_documents(documents, bsize, d);
    let part = chunk(documents, bsize, d / bsize as int);
    law_block_scores_are_inner_products(part, bsize, threshold, query, d % bsize as int);
}

/// A posting list gives a document the scores that it lists for it, all under the
/// list's own term.
pub proof fn law_posting_list_is_read_back(
    list: Seq<(u32, u32)>,
    term: u32,
    doc: u32,
    posting: (u32, u32),
)
    ensures
        postings_of(list, term, doc as int).contains(posting) <==> posting.0 == term
            && list.contains((doc, posting.1)),
    decreases list.len(),
{
    if list.len() > 0 {
        let rest = list.drop_last();
        let (short, full) = (
            postings_of(rest, term, doc as int),
            postings_of(list, term, doc as int),
        );
        law_posting_list_is_read_back(rest, term, doc, posting);
        assert(list =~= rest.push(list.last()));
        lemma_push_contains(rest, list.last(), (doc, posting.1));
        lemma_push_contains(short, (term, list.last().1), posting);
    }
}

proof fn lemma_push_contains(s: Seq<(u32, u32)>, last: (u32, u32), item: (u32, u32))
    ensures
        s.push(last).contains(item) <==> s.contains(item) || item == last,
{
    let pushed = s.push(last);
    if s.contains(item) {
        let k = choose|k: int| 0 <= k < s.len() && s[k] == item;
        assert(pushed[k] == item);
    }
    if item == last {
        assert(pushed[s.len() as int] == item);
    }
    if pushed.contains(item) && item != last {
        let k = choose|k: int| 0 <= k < pushed.len() && pushed[k] == item;
        assert(s[k] == item);
    }
}

/// What a builder is given it hands over: after a posting list was added to the
/// document `before`, the built document holds what was there and what the list
/// says of it, and nothing else.
pub proof fn law_build_keeps_postings(
    before: Seq<(u32, u32)>,
    list: Seq<(u32, u32)>,
    term: u32,
    doc: u32,
    built: Seq<(u32, u32)>,
    posting: (u32, u32),
)
    requires
        is_stable_sort(before + postings_of(list, term, doc as int), built),
    ensures
        built.contains(posting) <==> before.contains(posting) || (posting.0 == term
            && list.contains((doc, posting.1))),
{
    let added = postings_of(list, term, doc as int);
    law_stable_sort_permutes(before + added, built);
    law_posting_list_is_read_back(list, term, doc, posting);
    vstd::seq_lib::lemma_seq_concat_contains_all_elements(before, added, posting);
}

/// Every term of every block is stored either sparsely or densely.
pub proof fn law_sparse_and_dense_make_all(blocks: Seq<BlockView>)
    ensures
        sparse_count(blocks) + dense_count(blocks) == entry_count(blocks),
    decreases blocks.len(),
{
    if blocks.len() > 0 {
        law_sparse_and_dense_make_all(blocks.drop_last());
        lemma_block_is_sparse_or_dense(blocks.last());
    }
}

proof fn lemma_block_is_sparse_or_dense(block: BlockView)
    ensures
        sparse_in_block(block) + dense_in_block(block) == block.len(),
    decreases block.len(),
{
    if block.len() > 0 {
        lemma_block_is_sparse_or_dense(block.drop_last());
    }
}

} // verus!
