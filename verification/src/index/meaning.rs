//! What each notion of the model means, said of plain sequences.

use vstd::arithmetic::div_mod::{lemma_fundamental_div_mod, lemma_mod_bound};
use vstd::prelude::*;

use crate::index::blocks::lemma_chunk_bounds;
use crate::index::forward_index::{block_view, documents_view, BlockForwardIndex, Postings};
use crate::index::keyed::{law_with_key_filters, lemma_with_key_contains, with_key, Keyed};
use crate::index::laws::{
    law_block_lists_terms, law_dense_keeps_scores, law_distinct_terms_name_documents_once,
    lemma_block_sum, lemma_pair_sum_joined, lemma_terms_listed,
};
use crate::index::model::{
    block_count, block_of, block_postings, block_product, blocks_of, choose_postings, chunk,
    cursor, dense_count, dense_in_block, dense_scores, distinct_terms, document_postings,
    entry_count, fits_block, hit, hits_fit, impact, inner_product, last_score,
    lemma_cursor_in_range, lemma_skip_below, narrow_document, narrow_terms, pair_sum,
    partial_product, partial_score, postings_of, score, scores_fit, sparse_count,
    sparse_in_block, term_pairs, term_product, term_score, terms_of, BlockView, PostingsView,
};
use crate::index::narrow::{lemma_low_of_low32, low32};

verus! {

/// Stored values stand for what they hold, each in its place.
pub proof fn law_views_keep_places(
    postings: Postings,
    entries: Seq<(u16, Postings)>,
    documents: Seq<Vec<(u32, u32)>>,
    index: BlockForwardIndex,
    i: int,
)
    ensures
        postings matches Postings::Sparse(pairs) ==> postings@ == PostingsView::Sparse(pairs@),
        postings matches Postings::Dense(scores) ==> postings@ == PostingsView::Dense(scores@),
        block_view(entries).len() == entries.len(),
        0 <= i < entries.len() ==> block_view(entries)[i] == (entries[i].0, entries[i].1@),
        documents_view(documents).len() == documents.len(),
        0 <= i < documents.len() ==> documents_view(documents)[i] == documents[i]@,
        index@.len() == index.data@.len(),
        0 <= i < index.data@.len() ==> index@[i] == block_view(index.data@[i]@),
{
}

/// A posting list gives a document one posting for each pair that names it: in the
/// order of the list, under the list's term, and with the pair's score.
pub proof fn law_posting_list_is_filtered(list: Seq<(u32, u32)>, term: u32, doc: int)
    ensures
        postings_of(list, term, doc) == list.filter(
            |pair: (u32, u32)| pair.0 == doc,
        ).map_values(|pair: (u32, u32)| (term, pair.1)),
        postings_of(list, term, doc).len() == list.filter(
            |pair: (u32, u32)| pair.0 == doc,
        ).len(),
    decreases list.len(),
{
    reveal(Seq::filter);
    let named = |pair: (u32, u32)| pair.0 == doc;
    let posted = |pair: (u32, u32)| (term, pair.1);
    let given = postings_of(list, term, doc);
    if list.len() == 0 {
        assert(given =~= list.filter(named).map_values(posted));
    } else {
        let rest = list.drop_last();
        law_posting_list_is_filtered(rest, term, doc);
        if list.last().0 == doc {
            assert(given =~= rest.filter(named).push(list.last()).map_values(posted));
        }
    }
}

/// A posting list adds to every document what it has for it.
pub proof fn law_posting_lists_are_filtered(
    before: Seq<Seq<(u32, u32)>>,
    list: Seq<(u32, u32)>,
    term: u32,
    after: Seq<Seq<(u32, u32)>>,
)
    requires
        after == Seq::new(before.len(), |d: int| before[d] + postings_of(list, term, d)),
    ensures
        forall|d: int|
            0 <= d < before.len() ==> #[trigger] after[d] == before[d] + list.filter(
                |pair: (u32, u32)| pair.0 == d,
            ).map_values(|pair: (u32, u32)| (term, pair.1)),
{
    assert forall|d: int| 0 <= d < before.len() implies #[trigger] after[d] == before[d]
        + list.filter(|pair: (u32, u32)| pair.0 == d).map_values(
        |pair: (u32, u32)| (term, pair.1),
    ) by {
        lemma_filtered_by(
            list,
            term,
            d,
            |pair: (u32, u32)| pair.0 == d,
            |pair: (u32, u32)| (term, pair.1),
        );
    }
}

proof fn lemma_filtered_by(
    list: Seq<(u32, u32)>,
    term: u32,
    doc: int,
    named: spec_fn((u32, u32)) -> bool,
    posted: spec_fn((u32, u32)) -> (u32, u32),
)
    requires
        forall|pair: (u32, u32)| #[trigger] named(pair) == (pair.0 == doc),
        forall|pair: (u32, u32)| #[trigger] posted(pair) == (term, pair.1),
    ensures
        postings_of(list, term, doc) == list.filter(named).map_values(posted),
{
    law_posting_list_is_filtered(list, term, doc);
    assert(named =~= (|pair: (u32, u32)| pair.0 == doc));
    assert(posted =~= (|pair: (u32, u32)| (term, pair.1)));
}

/// As often as a posting list has a score for a document, so often the document
/// gets it.
pub proof fn law_posting_list_keeps_counts(
    list: Seq<(u32, u32)>,
    term: u32,
    doc: u32,
    score: u32,
)
    ensures
        postings_of(list, term, doc as int).to_multiset().count((term, score))
            == list.to_multiset().count((doc, score)),
    decreases list.len(),
{
    broadcast use vstd::seq_lib::group_to_multiset_ensures;

    let given = postings_of(list, term, doc as int);
    if list.len() == 0 {
        assert(list =~= Seq::<(u32, u32)>::empty());
        assert(given =~= Seq::<(u32, u32)>::empty());
    } else {
        let (rest, last) = (list.drop_last(), list.last());
        law_posting_list_keeps_counts(rest, term, doc, score);
        assert(list =~= rest.push(last));
        assert(list.to_multiset() =~= rest.to_multiset().insert(last));
        if last.0 == doc {
            let short = postings_of(rest, term, doc as int);
            assert(given.to_multiset() =~= short.to_multiset().insert((term, last.1)));
        }
    }
}

/// Two lists of a term, one after the other, give what the joined list gives; a list
/// that does not name a document gives it nothing.
pub proof fn law_posting_lists_join(
    one: Seq<(u32, u32)>,
    other: Seq<(u32, u32)>,
    term: u32,
    doc: u32,
)
    ensures
        postings_of(one + other, term, doc as int) == postings_of(one, term, doc as int)
            + postings_of(other, term, doc as int),
        (forall|i: int| 0 <= i < one.len() ==> (#[trigger] one[i]).0 != doc) ==> postings_of(
            one,
            term,
            doc as int,
        ).len() == 0,
    decreases other.len(), one.len(),
{
    if one.len() > 0 && (forall|i: int|
        0 <= i < one.len() ==> (#[trigger] one[i]).0 != doc) {
        let rest = one.drop_last();
        assert(one[one.len() - 1].0 != doc);
        assert forall|i: int| 0 <= i < rest.len() implies (#[trigger] rest[i]).0 != doc by {
            assert(one[i].0 != doc);
        }
        law_posting_lists_join(rest, other, term, doc);
    }
    let joined = one + other;
    if other.len() == 0 {
        assert(joined =~= one);
        assert(postings_of(one, term, doc as int) + postings_of(other, term, doc as int)
            =~= postings_of(one, term, doc as int));
    } else {
        law_posting_lists_join(one, other.drop_last(), term, doc);
        assert(joined.drop_last() =~= one + other.drop_last());
        assert(postings_of(joined, term, doc as int) =~= postings_of(one, term, doc as int)
            + postings_of(other, term, doc as int));
    }
}

/// The postings of a block are those of its documents in their order, each with the
/// place of its document.
pub proof fn law_block_postings_are_placed(documents: Seq<Seq<(u32, u32)>>)
    ensures
        block_postings(documents) == documents.map(
            |d: int, document: Seq<(u32, u32)>|
                document.map_values(
                    |p: (u32, u32)| (p.0, (d % 0x1_0000_0000) as u32, p.1),
                ),
        ).flatten(),
    decreases documents.len(),
{
    let place = |d: int, document: Seq<(u32, u32)>|
        document.map_values(|p: (u32, u32)| (p.0, (d % 0x1_0000_0000) as u32, p.1));
    if documents.len() > 0 {
        let rest = documents.drop_last();
        law_block_postings_are_placed(rest);
        let last = place(documents.len() - 1, documents.last());
        assert(documents.map(place) =~= rest.map(place).push(last));
        rest.map(place).lemma_flatten_push(last);
        assert(document_postings(documents.last(), documents.len() - 1) =~= last);
    }
}

/// The terms of postings ascend without repetition, and are those that occur.
pub proof fn law_terms_are_those_that_occur(postings: Seq<(u32, u32, u32)>, term: u32)
    ensures
        forall|i: int, j: int|
            0 <= i < j < terms_of(postings).len() ==> #[trigger] terms_of(postings)[i]
                < #[trigger] terms_of(postings)[j],
        terms_of(postings).contains(term) <==> exists|i: int|
            0 <= i < postings.len() && (#[trigger] postings[i]).0 == term,
{
    let terms = terms_of(postings);
    lemma_terms_listed(postings, 0x1_0000_0000);
    let kept = with_key(postings, term);
    if terms.contains(term) {
        let k = choose|k: int| 0 <= k < terms.len() && terms[k] == term;
        assert(with_key(postings, terms[k]).len() > 0);
        lemma_with_key_contains(postings, term, kept[0]);
        assert(kept.contains(kept[0]));
        let i = choose|i: int| 0 <= i < postings.len() && postings[i] == kept[0];
        assert(postings[i].0 == term);
    }
    if exists|i: int| 0 <= i < postings.len() && (#[trigger] postings[i]).0 == term {
        let i = choose|i: int| 0 <= i < postings.len() && (#[trigger] postings[i]).0 == term;
        lemma_with_key_contains(postings, term, postings[i]);
        assert(postings.contains(postings[i]));
        assert(kept.len() > 0);
    }
}

/// The pairs of a term are the places and scores of its postings, in their order
/// and in 8 bits each.
pub proof fn law_term_pairs_are_filtered(postings: Seq<(u32, u32, u32)>, term: u32)
    ensures
        term_pairs(postings, term) == postings.filter(
            |p: (u32, u32, u32)| p.0 == term,
        ).map_values(|p: (u32, u32, u32)| ((p.1 % 0x100) as u8, (p.2 % 0x100) as u8)),
{
    law_with_key_filters(postings, term);
    assert((|p: (u32, u32, u32)| p.0 == term) =~= (|item: (u32, u32, u32)|
        item.key_spec() == term));
    assert(term_pairs(postings, term) =~= postings.filter(
        |p: (u32, u32, u32)| p.0 == term,
    ).map_values(|p: (u32, u32, u32)| ((p.1 % 0x100) as u8, (p.2 % 0x100) as u8)));
}

/// The sparse terms of a block are counted one by one, and so are the dense ones.
pub proof fn law_blocks_are_counted(block: BlockView)
    ensures
        sparse_in_block(block) == block.filter(
            |entry: (u16, PostingsView)| entry.1 is Sparse,
        ).len(),
        dense_in_block(block) == block.filter(
            |entry: (u16, PostingsView)| entry.1 is Dense,
        ).len(),
        (forall|j: int| 0 <= j < block.len() ==> (#[trigger] block[j]).1 is Dense)
            ==> sparse_in_block(block) == 0 && dense_in_block(block) == block.len(),
        (forall|j: int| 0 <= j < block.len() ==> (#[trigger] block[j]).1 is Sparse)
            ==> sparse_in_block(block) == block.len() && dense_in_block(block) == 0,
    decreases block.len(),
{
    reveal(Seq::filter);
    if block.len() > 0 {
        let rest = block.drop_last();
        law_blocks_are_counted(rest);
        assert(block.last() == block[block.len() - 1]);
        assert forall|j: int| 0 <= j < rest.len() implies rest[j] == #[trigger] block[j] by {}
        if forall|j: int| 0 <= j < block.len() ==> (#[trigger] block[j]).1 is Dense {
            assert forall|j: int| 0 <= j < rest.len() implies (#[trigger] rest[j]).1 is Dense by {
                assert(block[j].1 is Dense);
            }
        }
        if forall|j: int| 0 <= j < block.len() ==> (#[trigger] block[j]).1 is Sparse {
            assert forall|j: int| 0 <= j < rest.len() implies (#[trigger] rest[j]).1
                is Sparse by {
                assert(block[j].1 is Sparse);
            }
        }
    }
}

/// Over all blocks, the sparse and the dense terms are those of the blocks taken
/// together.
pub proof fn law_counts_span_all_blocks(blocks: Seq<BlockView>)
    ensures
        sparse_count(blocks) == blocks.flatten().filter(
            |entry: (u16, PostingsView)| entry.1 is Sparse,
        ).len(),
        dense_count(blocks) == blocks.flatten().filter(
            |entry: (u16, PostingsView)| entry.1 is Dense,
        ).len(),
        entry_count(blocks) == blocks.flatten().len(),
    decreases blocks.len(),
{
    let sparse = |entry: (u16, PostingsView)| entry.1 is Sparse;
    let dense = |entry: (u16, PostingsView)| entry.1 is Dense;
    if blocks.len() > 0 {
        let (rest, last) = (blocks.drop_last(), blocks.last());
        law_counts_span_all_blocks(rest);
        law_blocks_are_counted(last);
        assert(blocks =~= rest.push(last));
        rest.lemma_flatten_push(last);
        Seq::filter_distributes_over_add(rest.flatten(), last, sparse);
        Seq::filter_distributes_over_add(rest.flatten(), last, dense);
    } else {
        reveal(Seq::filter);
    }
}

/// The counts of two indexes taken together are the sums of their counts.
pub proof fn law_counts_add_up(one: Seq<BlockView>, other: Seq<BlockView>)
    ensures
        sparse_count(one + other) == sparse_count(one) + sparse_count(other),
        dense_count(one + other) == dense_count(one) + dense_count(other),
    decreases other.len(),
{
    let joined = one + other;
    if other.len() == 0 {
        assert(joined =~= one);
    } else {
        law_counts_add_up(one, other.drop_last());
        assert(joined.drop_last() =~= one + other.drop_last());
    }
}

/// A dense score is that of the last pair for its place, and zero where no pair
/// names the place.
pub proof fn law_last_pair_counts(pairs: Seq<(u8, u8)>, bsize: nat, doc: int, i: int)
    ensures
        dense_scores(pairs, bsize).len() == bsize,
        0 <= doc < bsize ==> dense_scores(pairs, bsize)[doc] == last_score(pairs, doc),
        0 <= i < pairs.len() && pairs[i].0 == doc && (forall|j: int|
            i < j < pairs.len() ==> (#[trigger] pairs[j]).0 != doc) ==> last_score(pairs, doc)
            == pairs[i].1,
        (forall|j: int| 0 <= j < pairs.len() ==> (#[trigger] pairs[j]).0 != doc) ==> last_score(
            pairs,
            doc,
        ) == 0,
    decreases pairs.len(),
{
    if pairs.len() > 0 {
        let rest = pairs.drop_last();
        law_last_pair_counts(rest, bsize, doc, i);
        let last = pairs.len() - 1;
        if forall|j: int| 0 <= j < pairs.len() ==> (#[trigger] pairs[j]).0 != doc {
            assert(pairs[last].0 != doc);
            assert forall|j: int| 0 <= j < rest.len() implies (#[trigger] rest[j]).0 != doc by {
                assert(pairs[j].0 != doc);
            }
        }
        if 0 <= i < last && pairs[i].0 == doc && (forall|j: int|
            i < j < pairs.len() ==> (#[trigger] pairs[j]).0 != doc) {
            assert(pairs[last].0 != doc);
            assert forall|j: int| i < j < rest.len() implies (#[trigger] rest[j]).0 != doc by {
                assert(pairs[j].0 != doc);
            }
        }
    }
}

/// Pairs are stored densely exactly where they are more than the threshold, and as
/// they are elsewhere.
pub proof fn law_more_than_the_threshold_is_dense(
    pairs: Seq<(u8, u8)>,
    bsize: nat,
    threshold: nat,
)
    ensures
        choose_postings(pairs, bsize, threshold) is Dense <==> pairs.len() > threshold,
        pairs.len() > threshold ==> choose_postings(pairs, bsize, threshold)
            == PostingsView::Dense(dense_scores(pairs, bsize)),
        pairs.len() <= threshold ==> choose_postings(pairs, bsize, threshold)
            == PostingsView::Sparse(pairs),
{
}

/// The pairs of a term within one document: that document's place, and its scores
/// for the term.
proof fn lemma_document_pairs(document: Seq<(u32, u32)>, place: int, term: u32)
    ensures
        term_pairs(document_postings(document, place), term) == document.filter(
            |p: (u32, u32)| p.0 == term,
        ).map_values(|p: (u32, u32)| ((place % 0x100) as u8, (p.1 % 0x100) as u8)),
    decreases document.len(),
{
    reveal(Seq::filter);
    let postings = document_postings(document, place);
    let of_term = |p: (u32, u32)| p.0 == term;
    let paired = |p: (u32, u32)| ((place % 0x100) as u8, (p.1 % 0x100) as u8);
    lemma_low_of_low32(place);
    if document.len() == 0 {
        assert(term_pairs(postings, term) =~= document.filter(of_term).map_values(paired));
    } else {
        let (rest, last) = (document.drop_last(), document.last());
        lemma_document_pairs(rest, place, term);
        assert(postings.drop_last() =~= document_postings(rest, place));
        assert(postings.last() == (last.0, low32(place), last.1));
        let short = term_pairs(postings.drop_last(), term);
        if last.0 == term {
            assert(term_pairs(postings, term) =~= short.push(paired(last)));
            assert(short.push(paired(last)) =~= rest.filter(of_term).push(last).map_values(
                paired,
            ));
        }
    }
}

/// The pairs of a term in a block: for one document after the other, the document's
/// place and its scores for the term. There are as many as the documents have
/// postings of the term.
pub proof fn law_block_pairs_follow_documents(documents: Seq<Seq<(u32, u32)>>, term: u32)
    ensures
        term_pairs(block_postings(documents), term) == documents.map(
            |d: int, document: Seq<(u32, u32)>|
                document.filter(|p: (u32, u32)| p.0 == term).map_values(
                    |p: (u32, u32)| ((d % 0x100) as u8, (p.1 % 0x100) as u8),
                ),
        ).flatten(),
        term_pairs(block_postings(documents), term).len() == documents.flatten().filter(
            |p: (u32, u32)| p.0 == term,
        ).len(),
    decreases documents.len(),
{
    let of_term = |p: (u32, u32)| p.0 == term;
    let paired = |d: int, document: Seq<(u32, u32)>|
        document.filter(|p: (u32, u32)| p.0 == term).map_values(
            |p: (u32, u32)| ((d % 0x100) as u8, (p.1 % 0x100) as u8),
        );
    let pairs = term_pairs(block_postings(documents), term);
    if documents.len() == 0 {
        reveal(Seq::filter);
        assert(pairs =~= documents.map(paired).flatten());
    } else {
        let (rest, last) = (documents.drop_last(), documents.last());
        let place = documents.len() - 1;
        let (front, back) = (block_postings(rest), document_postings(last, place));
        law_block_pairs_follow_documents(rest, term);
        lemma_document_pairs(last, place, term);
        law_with_key_filters(front, term);
        law_with_key_filters(back, term);
        law_with_key_filters(front + back, term);
        Seq::filter_distributes_over_add(
            front,
            back,
            |item: (u32, u32, u32)| item.key_spec() == term,
        );
        assert(pairs =~= term_pairs(front, term) + term_pairs(back, term));
        assert(term_pairs(back, term) =~= paired(place, last));
        assert(documents.map(paired) =~= rest.map(paired).push(paired(place, last)));
        rest.map(paired).lemma_flatten_push(paired(place, last));
        assert(documents =~= rest.push(last));
        rest.lemma_flatten_push(last);
        Seq::filter_distributes_over_add(rest.flatten(), last, of_term);
    }
}

/// An entry of a block holds the term in 16 bits. It is dense exactly where the
/// documents have more postings of the term than the threshold; otherwise it holds
/// the places and scores of these postings, document by document.
pub proof fn law_entries_follow_documents(
    documents: Seq<Seq<(u32, u32)>>,
    bsize: nat,
    threshold: nat,
    k: int,
    term: u32,
)
    requires
        0 <= k < terms_of(block_postings(documents)).len(),
        terms_of(block_postings(documents))[k] == term,
    ensures
        block_of(documents, bsize, threshold).len() == terms_of(block_postings(documents)).len(),
        block_of(documents, bsize, threshold)[k].0 == term % 0x1_0000,
        block_of(documents, bsize, threshold)[k].1 is Dense <==> documents.flatten().filter(
            |p: (u32, u32)| p.0 == term,
        ).len() > threshold,
        block_of(documents, bsize, threshold)[k].1 matches PostingsView::Sparse(pairs) ==> pairs
            == documents.map(
            |d: int, document: Seq<(u32, u32)>|
                document.filter(|p: (u32, u32)| p.0 == term).map_values(
                    |p: (u32, u32)| ((d % 0x100) as u8, (p.1 % 0x100) as u8),
                ),
        ).flatten(),
        block_of(documents, bsize, threshold)[k].1 matches PostingsView::Dense(scores) ==> scores
            == dense_scores(
            documents.map(
                |d: int, document: Seq<(u32, u32)>|
                    document.filter(|p: (u32, u32)| p.0 == term).map_values(
                        |p: (u32, u32)| ((d % 0x100) as u8, (p.1 % 0x100) as u8),
                    ),
            ).flatten(),
            bsize,
        ),
{
    law_block_pairs_follow_documents(documents, term);
}

/// Where terms have 16 bits, a block lists the terms of its documents, each once
/// and in ascending order; and a term is dense exactly where the documents have
/// more postings of it than the threshold.
pub proof fn law_dense_terms_exceed_the_threshold(
    documents: Seq<Seq<(u32, u32)>>,
    bsize: nat,
    threshold: nat,
    term: u16,
)
    requires
        forall|d: int, i: int|
            0 <= d < documents.len() && 0 <= i < documents[d].len() ==> (
            #[trigger] documents[d][i]).0 <= u16::MAX,
    ensures
        forall|i: int, j: int|
            0 <= i < j < block_of(documents, bsize, threshold).len() ==> (#[trigger] block_of(
                documents,
                bsize,
                threshold,
            )[i]).0 < (#[trigger] block_of(documents, bsize, threshold)[j]).0,
        (exists|k: int|
            0 <= k < block_of(documents, bsize, threshold).len() && (#[trigger] block_of(
                documents,
                bsize,
                threshold,
            )[k]).0 == term) <==> documents.flatten().filter(
            |p: (u32, u32)| p.0 == term,
        ).len() > 0,
        forall|k: int|
            0 <= k < block_of(documents, bsize, threshold).len() && (#[trigger] block_of(
                documents,
                bsize,
                threshold,
            )[k]).0 == term ==> (block_of(documents, bsize, threshold)[k].1 is Dense
                <==> documents.flatten().filter(|p: (u32, u32)| p.0 == term).len() > threshold),
{
    let block = block_of(documents, bsize, threshold);
    let postings = block_postings(documents);
    let terms = terms_of(postings);
    let wide = term as u32;
    assert forall|d: int| 0 <= d < documents.len() implies narrow_terms(
        #[trigger] documents[d],
    ) by {
        assert forall|i: int| 0 <= i < documents[d].len() implies (#[trigger] documents[d][i]).0
            <= u16::MAX by {}
    }
    law_block_lists_terms(documents, bsize, threshold);
    law_block_pairs_follow_documents(documents, wide);
    assert((|p: (u32, u32)| p.0 == term) =~= (|p: (u32, u32)| p.0 == wide));
    assert(terms.contains(wide) <==> with_key(postings, wide).len() > 0);
    if terms.contains(wide) {
        let k = choose|k: int| 0 <= k < terms.len() && terms[k] == wide;
        assert(block[k].0 == terms[k]);
    }
    assert forall|k: int| 0 <= k < block.len() && (#[trigger] block[k]).0 == term implies (
    block[k].1 is Dense <==> documents.flatten().filter(|p: (u32, u32)| p.0 == term).len()
        > threshold) && terms.contains(wide) by {
        assert(block[k].0 == terms[k]);
        law_entries_follow_documents(documents, bsize, threshold, k, wide);
    }
}

/// The sum of a document's scores over given pairs: pair by pair, those that name
/// the document.
pub proof fn law_pair_sum_adds_up(pairs: Seq<(u8, u8)>, doc: int)
    ensures
        pair_sum(pairs, doc) == pairs.fold_left(
            0nat,
            |sum: nat, p: (u8, u8)|
                if p.0 == doc {
                    sum + p.1 as nat
                } else {
                    sum
                },
        ),
    decreases pairs.len(),
{
    if pairs.len() > 0 {
        law_pair_sum_adds_up(pairs.drop_last(), doc);
    }
}

/// A dense score belongs to the document at its own place. Of sparse pairs, each
/// adds its score to the document that it names.
pub proof fn law_impacts_go_to_their_places(
    scores: Seq<u8>,
    one: Seq<(u8, u8)>,
    other: Seq<(u8, u8)>,
    pair: (u8, u8),
    doc: int,
)
    ensures
        0 <= doc < scores.len() ==> impact(PostingsView::Dense(scores), doc) == scores[doc],
        !(0 <= doc < scores.len()) ==> impact(PostingsView::Dense(scores), doc) == 0,
        impact(PostingsView::Sparse(Seq::empty()), doc) == 0,
        impact(PostingsView::Sparse(seq![pair]), doc) == if pair.0 == doc {
            pair.1
        } else {
            0
        },
        impact(PostingsView::Sparse(one + other), doc) == impact(PostingsView::Sparse(one), doc)
            + impact(PostingsView::Sparse(other), doc),
{
    lemma_pair_sum_joined(one, other, doc);
    assert(seq![pair].drop_last() =~= Seq::empty());
    assert(seq![pair].last() == pair);
    assert(pair_sum(Seq::<(u8, u8)>::empty(), doc) == 0);
}

/// Postings keep to a block where no pair names a place outside it, and no dense
/// score outside it is above zero.
pub proof fn law_fitting_postings_stay_inside(
    pairs: Seq<(u8, u8)>,
    scores: Seq<u8>,
    bsize: nat,
)
    ensures
        fits_block(PostingsView::Sparse(pairs), bsize) <==> !exists|j: int|
            0 <= j < pairs.len() && (#[trigger] pairs[j]).0 >= bsize,
        fits_block(PostingsView::Dense(scores), bsize) <==> !exists|j: int|
            bsize <= j < scores.len() && #[trigger] scores[j] > 0,
{
    let (sparse, dense) = (PostingsView::Sparse(pairs), PostingsView::Dense(scores));
    if exists|j: int| 0 <= j < pairs.len() && (#[trigger] pairs[j]).0 >= bsize {
        let j = choose|j: int| 0 <= j < pairs.len() && (#[trigger] pairs[j]).0 >= bsize;
        assert(sparse->Sparse_0[j].0 >= bsize);
    } else {
        assert forall|j: int| 0 <= j < pairs.len() implies (
        #[trigger] sparse->Sparse_0[j]).0 < bsize by {
            assert(pairs[j].0 < bsize);
        }
    }
    if exists|j: int| bsize <= j < scores.len() && #[trigger] scores[j] > 0 {
        let j = choose|j: int| bsize <= j < scores.len() && #[trigger] scores[j] > 0;
        assert(dense->Dense_0[j] > 0);
    } else {
        assert forall|j: int| bsize <= j < scores.len() implies #[trigger] dense->Dense_0[j]
            == 0 by {
            assert(!(scores[j] > 0));
        }
    }
}

/// The walk starts at the first entry. For each query term it goes on over the
/// entries below that term, and no further.
pub proof fn law_walk_passes_lower_terms(query: Seq<(u16, u8)>, block: BlockView, n: int)
    requires
        0 <= n < query.len(),
    ensures
        cursor(query, block, 0) == 0,
        0 <= cursor(query, block, n) <= cursor(query, block, n + 1) <= block.len(),
        forall|k: int|
            cursor(query, block, n) <= k < cursor(query, block, n + 1) ==> (
            #[trigger] block[k]).0 < query[n].0,
        cursor(query, block, n + 1) < block.len() ==> block[cursor(query, block, n + 1)].0
            >= query[n].0,
{
    lemma_cursor_in_range(query, block, n);
    lemma_skip_below(block, cursor(query, block, n), query[n].0);
}

/// A score is the sum, over the query's terms, of the weight times the impact of
/// the entry where the walk stops, as far as that entry is of the query's term.
pub proof fn law_scores_add_up(query: Seq<(u16, u8)>, block: BlockView, doc: int)
    ensures
        score(query, block, doc) == Seq::new(
            query.len(),
            |i: int|
                if 0 <= cursor(query, block, i + 1) < block.len() && block[cursor(
                    query,
                    block,
                    i + 1,
                )].0 == query[i].0 {
                    query[i].1 as nat * impact(block[cursor(query, block, i + 1)].1, doc)
                } else {
                    0nat
                },
        ).fold_left(0nat, |sum: nat, gain: nat| sum + gain),
{
    lemma_partial_scores_add_up(query, block, doc, query.len() as int);
}

proof fn lemma_partial_scores_add_up(
    query: Seq<(u16, u8)>,
    block: BlockView,
    doc: int,
    n: int,
)
    requires
        0 <= n <= query.len(),
    ensures
        partial_score(query, block, doc, n) == Seq::new(
            n as nat,
            |i: int|
                if 0 <= cursor(query, block, i + 1) < block.len() && block[cursor(
                    query,
                    block,
                    i + 1,
                )].0 == query[i].0 {
                    query[i].1 as nat * impact(block[cursor(query, block, i + 1)].1, doc)
                } else {
                    0nat
                },
        ).fold_left(0nat, |sum: nat, gain: nat| sum + gain),
    decreases n,
{
    let gain = |i: int|
        if 0 <= cursor(query, block, i + 1) < block.len() && block[cursor(query, block, i + 1)].0
            == query[i].0 {
            query[i].1 as nat * impact(block[cursor(query, block, i + 1)].1, doc)
        } else {
            0nat
        };
    if n > 0 {
        lemma_partial_scores_add_up(query, block, doc, n - 1);
        assert(Seq::new(n as nat, gain).drop_last() =~= Seq::new((n - 1) as nat, gain));
    }
}

/// A query can be scored on a block where each entry at which the walk stops for a
/// term of the query keeps to the block, and each score has 16 bits.
pub proof fn law_scorable_blocks(query: Seq<(u16, u8)>, block: BlockView, bsize: nat)
    ensures
        hits_fit(query, block, bsize) <==> !exists|i: int|
            0 <= i < query.len() && 0 <= #[trigger] cursor(query, block, i + 1) < block.len()
                && block[cursor(query, block, i + 1)].0 == query[i].0 && !fits_block(
                block[cursor(query, block, i + 1)].1,
                bsize,
            ),
        scores_fit(query, block, bsize) <==> !exists|doc: int|
            0 <= doc < bsize && #[trigger] score(query, block, doc) > u16::MAX,
{
    let outside = exists|i: int|
        0 <= i < query.len() && 0 <= #[trigger] cursor(query, block, i + 1) < block.len()
            && block[cursor(query, block, i + 1)].0 == query[i].0 && !fits_block(
            block[cursor(query, block, i + 1)].1,
            bsize,
        );
    if outside {
        let i = choose|i: int|
            0 <= i < query.len() && 0 <= #[trigger] cursor(query, block, i + 1) < block.len()
                && block[cursor(query, block, i + 1)].0 == query[i].0 && !fits_block(
                block[cursor(query, block, i + 1)].1,
                bsize,
            );
        assert(hit(query, block, i));
    } else {
        assert forall|i: int| 0 <= i < query.len() && #[trigger] hit(query, block, i) implies
            fits_block(block[cursor(query, block, i + 1)].1, bsize) by {
            assert(0 <= cursor(query, block, i + 1) < block.len());
        }
    }
    if !(exists|doc: int| 0 <= doc < bsize && #[trigger] score(query, block, doc) > u16::MAX) {
        assert forall|doc: int| 0 <= doc < bsize implies #[trigger] score(query, block, doc)
            <= u16::MAX by {}
    }
}

/// What a document's scores for a term add up to.
pub proof fn law_term_score_adds_up(document: Seq<(u32, u32)>, term: u32)
    ensures
        term_score(document, term) == document.fold_left(
            0nat,
            |sum: nat, p: (u32, u32)|
                if p.0 == term {
                    sum + p.1 as nat
                } else {
                    sum
                },
        ),
    decreases document.len(),
{
    if document.len() > 0 {
        law_term_score_adds_up(document.drop_last(), term);
    }
}

/// A document that holds a term once scores it as it says; one without the term
/// scores it zero.
pub proof fn law_term_score_of_a_posting(document: Seq<(u32, u32)>, term: u32, i: int)
    requires
        forall|m: int, n: int|
            0 <= m < n < document.len() ==> (#[trigger] document[m]).0 != (
            #[trigger] document[n]).0,
    ensures
        0 <= i < document.len() && document[i].0 == term ==> term_score(document, term)
            == document[i].1,
        (forall|n: int| 0 <= n < document.len() ==> (#[trigger] document[n]).0 != term)
            ==> term_score(document, term) == 0,
    decreases document.len(),
{
    if document.len() > 0 {
        let rest = document.drop_last();
        let last = document.len() - 1;
        assert forall|m: int, n: int| 0 <= m < n < rest.len() implies (#[trigger] rest[m]).0 != (
        #[trigger] rest[n]).0 by {
            assert(document[m].0 != document[n].0);
        }
        law_term_score_of_a_posting(rest, term, i);
        if document[last].0 == term {
            assert forall|n: int| 0 <= n < rest.len() implies (#[trigger] rest[n]).0 != term by {
                assert(document[n].0 != document[last].0);
            }
        } else if forall|n: int| 0 <= n < document.len() ==> (#[trigger] document[n]).0 != term {
            assert forall|n: int| 0 <= n < rest.len() implies (#[trigger] rest[n]).0 != term by {
                assert(document[n].0 != term);
            }
        }
    }
}

/// The inner product of a query with a document: the sum, over the query, of the
/// weight times the document's score for the term.
pub proof fn law_inner_product_adds_up(query: Seq<(u16, u8)>, document: Seq<(u32, u32)>)
    ensures
        inner_product(query, document) == query.fold_left(
            0nat,
            |sum: nat, q: (u16, u8)| sum + q.1 as nat * term_score(document, q.0 as u32),
        ),
{
    lemma_partial_product_adds_up(query, document, query.len() as int);
    assert(query.take(query.len() as int) =~= query);
}

proof fn lemma_partial_product_adds_up(
    query: Seq<(u16, u8)>,
    document: Seq<(u32, u32)>,
    n: int,
)
    requires
        0 <= n <= query.len(),
    ensures
        partial_product(query, document, n) == query.take(n).fold_left(
            0nat,
            |sum: nat, q: (u16, u8)| sum + q.1 as nat * term_score(document, q.0 as u32),
        ),
    decreases n,
{
    if n > 0 {
        lemma_partial_product_adds_up(query, document, n - 1);
        assert(query.take(n).drop_last() =~= query.take(n - 1));
    }
}

/// The product of a query with a block: the sum, over the query's terms and the
/// block's entries of the same term, of the weight times the impact.
pub proof fn law_block_product_adds_up(query: Seq<(u16, u8)>, block: BlockView, doc: int)
    ensures
        block_product(query, block, doc, query.len() as int) == query.fold_left(
            0nat,
            |sum: nat, q: (u16, u8)|
                sum + block.fold_left(
                    0nat,
                    |part: nat, e: (u16, PostingsView)|
                        if e.0 == q.0 {
                            part + q.1 as nat * impact(e.1, doc)
                        } else {
                            part
                        },
                ),
        ),
{
    lemma_partial_block_product_adds_up(query, block, doc, query.len() as int);
    assert(query.take(query.len() as int) =~= query);
}

proof fn lemma_partial_block_product_adds_up(
    query: Seq<(u16, u8)>,
    block: BlockView,
    doc: int,
    n: int,
)
    requires
        0 <= n <= query.len(),
    ensures
        block_product(query, block, doc, n) == query.take(n).fold_left(
            0nat,
            |sum: nat, q: (u16, u8)|
                sum + block.fold_left(
                    0nat,
                    |part: nat, e: (u16, PostingsView)|
                        if e.0 == q.0 {
                            part + q.1 as nat * impact(e.1, doc)
                        } else {
                            part
                        },
                ),
        ),
    decreases n,
{
    if n > 0 {
        lemma_partial_block_product_adds_up(query, block, doc, n - 1);
        assert(query.take(n).drop_last() =~= query.take(n - 1));
        lemma_term_product_adds_up(query[n - 1], block, doc, block.len() as int);
        assert(block.take(block.len() as int) =~= block);
    }
}

proof fn lemma_term_product_adds_up(
    query_term: (u16, u8),
    block: BlockView,
    doc: int,
    n: int,
)
    requires
        0 <= n <= block.len(),
    ensures
        term_product(query_term, block, doc, n) == block.take(n).fold_left(
            0nat,
            |part: nat, e: (u16, PostingsView)|
                if e.0 == query_term.0 {
                    part + query_term.1 as nat * impact(e.1, doc)
                } else {
                    part
                },
        ),
    decreases n,
{
    if n > 0 {
        lemma_term_product_adds_up(query_term, block, doc, n - 1);
        assert(block.take(n).drop_last() =~= block.take(n - 1));
    }
}

/// An entry of a block gives each document its own score for the term. Where it is
/// dense, the score of the document `d` stands at the place `d`, and the places
/// behind the last document hold zero.
///
/// The block holds at most 256 documents; their terms have 16 bits and their scores
/// 8; and none holds a term twice.
pub proof fn law_entries_hold_the_documents_scores(
    documents: Seq<Seq<(u32, u32)>>,
    bsize: nat,
    threshold: nat,
    k: int,
    d: int,
)
    requires
        documents.len() <= bsize,
        documents.len() <= 0x100,
        forall|e: int, i: int|
            0 <= e < documents.len() && 0 <= i < documents[e].len() ==> (
            #[trigger] documents[e][i]).0 <= u16::MAX && documents[e][i].1 <= u8::MAX,
        forall|e: int, i: int, j: int|
            0 <= e < documents.len() && 0 <= i < j < documents[e].len() ==> (
            #[trigger] documents[e][i]).0 != (#[trigger] documents[e][j]).0,
        0 <= k < block_of(documents, bsize, threshold).len(),
        0 <= d < bsize,
    ensures
        impact(block_of(documents, bsize, threshold)[k].1, d) == if d < documents.len() {
            term_score(documents[d], block_of(documents, bsize, threshold)[k].0 as u32)
        } else {
            0
        },
        block_of(documents, bsize, threshold)[k].1 matches PostingsView::Dense(scores)
            ==> scores.len() == bsize && (d < documents.len() ==> scores[d] == term_score(
            documents[d],
            block_of(documents, bsize, threshold)[k].0 as u32,
        )) && (documents.len() <= d ==> scores[d] == 0),
        block_of(documents, bsize, threshold)[k].1 matches PostingsView::Dense(scores)
            ==> forall|i: int|
            d < documents.len() && 0 <= i < documents[d].len() && (
            #[trigger] documents[d][i]).0 == block_of(documents, bsize, threshold)[k].0
                ==> scores[d] == documents[d][i].1,
{
    let block = block_of(documents, bsize, threshold);
    let postings = block_postings(documents);
    let term = terms_of(postings)[k];
    let pairs = term_pairs(postings, term);
    assert forall|e: int| 0 <= e < documents.len() implies narrow_document(
        #[trigger] documents[e],
    ) && narrow_terms(documents[e]) && distinct_terms(documents[e]) by {
        assert forall|i: int| 0 <= i < documents[e].len() implies (#[trigger] documents[e][i]).0
            <= u16::MAX && documents[e][i].1 <= u8::MAX by {}
    }
    law_block_lists_terms(documents, bsize, threshold);
    assert(block[k].0 == term);
    lemma_block_sum(documents, term, d);
    law_distinct_terms_name_documents_once(documents, 0);
    lemma_terms_listed(postings, 0x1_0000_0000);
    assert(with_key(postings, term).len() > 0);
    law_dense_keeps_scores(pairs, bsize, d);
    assert(block[k].1 == choose_postings(pairs, bsize, threshold));
    assert forall|i: int|
        d < documents.len() && 0 <= i < documents[d].len() && (#[trigger] documents[d][i]).0
            == block[k].0 implies term_score(documents[d], term) == documents[d][i].1 by {
        law_term_score_of_a_posting(documents[d], term, i);
    }
}

/// Blocks take the documents in their order, `bsize` at a time: there are as many
/// blocks as that needs, and the last one takes what is left.
pub proof fn law_blocks_take_documents_in_order<T>(documents: Seq<T>, bsize: nat, b: int, k: int)
    requires
        bsize > 0,
    ensures
        documents.len() <= block_count(documents.len(), bsize) * bsize < documents.len() + bsize,
        0 <= b < block_count(documents.len(), bsize) ==> chunk(documents, bsize, b).len() == if (
        b + 1) * bsize <= documents.len() {
            bsize as int
        } else {
            documents.len() - b * bsize
        },
        0 <= b < block_count(documents.len(), bsize) && 0 <= k < chunk(documents, bsize, b).len()
            ==> chunk(documents, bsize, b)[k] == documents[b * bsize + k],
{
    let (size, len) = (bsize as int, documents.len() as int);
    let count = block_count(documents.len(), bsize) as int;
    lemma_fundamental_div_mod(len, size);
    lemma_mod_bound(len, size);
    let q = len / size;
    assert(size * q == q * size) by (nonlinear_arith);
    assert((q + 1) * size == q * size + size) by (nonlinear_arith);
    assert((b + 1) * size == b * size + size) by (nonlinear_arith);
    if 0 <= b < count {
        lemma_chunk_bounds(documents.len(), bsize, b);
    }
}

/// An index has a block for each group of documents, made from that group.
pub proof fn law_index_has_a_block_for_each_group(
    documents: Seq<Seq<(u32, u32)>>,
    bsize: nat,
    threshold: nat,
    b: int,
)
    ensures
        blocks_of(documents, bsize, threshold).len() == block_count(documents.len(), bsize),
        0 <= b < block_count(documents.len(), bsize) ==> blocks_of(documents, bsize, threshold)[b]
            == block_of(chunk(documents, bsize, b), bsize, threshold),
{
}

} // verus!
