//! Random blocks and queries on which the scoring of a block is timed.

use std::collections::HashSet;

use vstd::prelude::*;

use crate::index::forward_index::{block_view, Postings};
use crate::index::keyed::{
    law_equal_ties_sort_uniquely, law_sorted_parts_ascend, sorted_by_key, ties_are_equal,
    unstable_sort_by_key, Keyed,
};
use crate::index::laws::{law_pair_order_changes_no_sum, law_scores_follow_impacts};
use crate::index::model::{
    cursor, fits_block, hit, hits_fit, impact, score, PostingsView,
};
use crate::index::narrow::{lemma_low_of_low32, low16, low8, to_low16, to_low32, to_low8};
use crate::random::{
    after, draw_i32, draw_ratio, draw_u8, draw_usize, drawn_chance, drawn_number, seeded, shuffle,
    shuffled, Draws, Past, Request,
};

verus! {

/// A query, a block to score it on, and the size of the block.
#[derive(Clone)]
pub struct BenchDoc {
    pub query: Vec<(u16, u8)>,
    pub document: Vec<(u16, Postings)>,
    pub block_size: usize,
}

/// The terms from zero on, in 16 bits each.
pub open spec fn first_terms(num_terms: nat) -> Seq<u16> {
    Seq::new(num_terms, |t: int| low16(t))
}

/// The terms of the entries of a block.
pub open spec fn entry_terms(entries: Seq<(u16, Postings)>) -> Seq<u16> {
    Seq::new(entries.len(), |j: int| entries[j].0)
}

/// The first `n` of `order`, or all where there are fewer.
pub open spec fn leading(order: Seq<u16>, n: nat) -> Seq<u16> {
    if n <= order.len() {
        order.take(n as int)
    } else {
        order
    }
}

/// Postings as they may be drawn: scores of at most five, for the documents of a
/// block of `bsize`; dense ones for each document, sparse ones positive, not more
/// than `max_len`, and in ascending order of the documents.
pub open spec fn drawable(
    postings: PostingsView,
    dense: bool,
    bsize: nat,
    max_len: nat,
) -> bool {
    match postings {
        PostingsView::Dense(scores) => {
            &&& dense
            &&& scores.len() == bsize
            &&& forall|d: int| 0 <= d < bsize ==> #[trigger] scores[d] <= 5
        },
        PostingsView::Sparse(pairs) => {
            &&& !dense
            &&& pairs.len() <= max_len
            &&& sorted_by_key(pairs)
            &&& forall|j: int|
                0 <= j < pairs.len() ==> (#[trigger] pairs[j]).0 < bsize && 1 <= pairs[j].1
                    <= 5
        },
    }
}

/// Which of the first `num_terms` terms are dense: those among the first
/// `num_dense` of `order`.
pub fn dense_flags(order: &Vec<u16>, num_terms: usize, num_dense: usize) -> (flags: Vec<bool>)
    ensures
        flags@ == Seq::new(
            num_terms as nat,
            |t: int| leading(order@, num_dense as nat).contains(low16(t)),
        ),
{
    broadcast use vstd::std_specs::hash::group_hash_axioms;

    let ghost head = leading(order@, num_dense as nat);
    let mut dense_terms: HashSet<u16> = HashSet::new();
    let mut i: usize = 0;
    while i < order.len() && i < num_dense
        invariant
            0 <= i <= head.len(),
            head == leading(order@, num_dense as nat),
            forall|term: u16|
                #[trigger] dense_terms@.contains(term) <==> head.take(i as int).contains(term),
        decreases order@.len() - i,
    {
        let term: u16 = order[i];
        let ghost before = head.take(i as int);
        let ghost after = head.take(i + 1);
        dense_terms.insert(term);
        proof {
            assert(after =~= before.push(term));
            assert forall|t: u16| #[trigger] dense_terms@.contains(t) <==> after.contains(t) by {
                vstd::seq_lib::lemma_seq_contains_after_push(before, term, t);
                if after.contains(t) && t != term {
                    let k = choose|k: int| 0 <= k < after.len() && after[k] == t;
                    assert(before[k] == t);
                }
            }
        }
        i += 1;
    }
    assert(head.take(i as int) =~= head);
    let mut flags: Vec<bool> = Vec::new();
    let mut term: usize = 0;
    while term < num_terms
        invariant
            0 <= term <= num_terms,
            forall|t: u16| #[trigger] dense_terms@.contains(t) <==> head.contains(t),
            flags@ == Seq::new(term as nat, |t: int| head.contains(low16(t))),
        decreases num_terms - term,
    {
        let term_id: u16 = wrap_term(term);
        let dense: bool = dense_terms.contains(&term_id);
        flags.push(dense);
        term += 1;
        assert(flags@ =~= Seq::new(term as nat, |t: int| head.contains(low16(t))));
    }
    flags
}

/// The term with the number `term`, in 16 bits.
fn wrap_term(term: usize) -> (term_id: u16)
    ensures
        term_id == low16(term as int),
{
    proof {
        lemma_low_of_low32(term as int);
    }
    to_low16(to_low32(term))
}

/// Pairs each of the first terms of `order` with its weight, and lists the
/// postings of each term in ascending order of the terms.
pub fn assemble_bench_doc(
    order: &Vec<u16>,
    weights: &Vec<u8>,
    drawn: Vec<Postings>,
    block_size: usize,
) -> (doc: BenchDoc)
    requires
        weights@.len() <= order@.len(),
    ensures
        doc.block_size == block_size,
        doc.query@ == Seq::new(weights@.len(), |i: int| (order@[i], weights@[i])),
        doc.document@.to_multiset() == Seq::new(
            drawn@.len(),
            |t: int| (low16(t), drawn@[t]),
        ).to_multiset(),
        sorted_by_key(doc.document@),
        drawn@.len() <= 0x1_0000 ==> doc.document@ == Seq::new(
            drawn@.len(),
            |t: int| (low16(t), drawn@[t]),
        ),
{
    let ghost entries = Seq::new(drawn@.len(), |t: int| (low16(t), drawn@[t]));
    let mut query: Vec<(u16, u8)> = Vec::new();
    while query.len() < weights.len()
        invariant
            query@.len() <= weights@.len() <= order@.len(),
            forall|i: int|
                0 <= i < query@.len() ==> #[trigger] query@[i] == (order@[i], weights@[i]),
        decreases weights@.len() - query@.len(),
    {
        let i: usize = query.len();
        query.push((order[i], weights[i]));
    }
    assert(query@ =~= Seq::new(weights@.len(), |i: int| (order@[i], weights@[i])));
    let mut document: Vec<(u16, Postings)> = Vec::with_capacity(drawn.len());
    for postings in it: drawn
        invariant
            it.seq() == drawn@,
            document@.len() == it.index(),
            entries == Seq::new(drawn@.len(), |t: int| (low16(t), drawn@[t])),
            document@ =~= entries.take(it.index() as int),
    {
        let term: usize = document.len();
        document.push((wrap_term(term), postings));
    }
    assert(document@ =~= entries);
    unstable_sort_by_key(&mut document);
    proof {
        if drawn@.len() <= 0x1_0000 {
            assert(sorted_by_key(entries));
            law_equal_ties_sort_uniquely(entries, document@);
        }
    }
    BenchDoc { query, document, block_size }
}

/// The scores of a block's documents, where a document without a score has zero.
pub open spec fn filled(scores: Seq<Option<u8>>) -> Seq<u8> {
    Seq::new(
        scores.len(),
        |d: int|
            match scores[d] {
                Some(score) => score,
                None => 0,
            },
    )
}

/// The dense postings of given scores.
pub fn dense_postings(scores: &Vec<Option<u8>>) -> (postings: Postings)
    ensures
        postings@ == PostingsView::Dense(filled(scores@)),
{
    let mut dense: Vec<u8> = vec![0; scores.len()];
    let mut d: usize = 0;
    while d < scores.len()
        invariant
            0 <= d <= scores@.len(),
            dense@.len() == scores@.len(),
            forall|k: int| 0 <= k < d ==> #[trigger] dense@[k] == filled(scores@)[k],
            forall|k: int| d <= k < dense@.len() ==> #[trigger] dense@[k] == 0,
        decreases scores@.len() - d,
    {
        match scores[d] {
            Some(score) => {
                dense[d] = score;
            },
            None => {},
        }
        d += 1;
    }
    assert(dense@ =~= filled(scores@));
    Postings::Dense(dense)
}

/// The sparse postings of given pairs: the same pairs, ordered by document.
pub fn sparse_postings(pairs: Vec<(u8, u8)>) -> (postings: Postings)
    ensures
        arranged(postings@, PostingsView::Sparse(pairs@)),
        postings@ is Sparse,
        postings@->Sparse_0.to_multiset() == pairs@.to_multiset(),
        forall|i: int, j: int|
            0 <= i <= j < postings@->Sparse_0.len() ==> (#[trigger] postings@->Sparse_0[i]).0 <= (
            #[trigger] postings@->Sparse_0[j]).0,
{
    let mut sorted: Vec<(u8, u8)> = pairs;
    // Sorting improves the walk through the pairs.
    unstable_sort_by_key(&mut sorted);
    proof {
        law_sorted_parts_ascend(sorted@, Seq::empty());
    }
    Postings::Sparse(sorted)
}

/// `postings` are what was drawn: dense ones as drawn, sparse ones ordered by
/// document. The order of the pairs of one document is left open.
pub open spec fn arranged(postings: PostingsView, drawn: PostingsView) -> bool {
    match (postings, drawn) {
        (PostingsView::Dense(scores), PostingsView::Dense(dense)) => scores == dense,
        (PostingsView::Sparse(sorted), PostingsView::Sparse(pairs)) => {
            &&& sorted_by_key(sorted)
            &&& sorted.to_multiset() == pairs.to_multiset()
        },
        _ => false,
    }
}

/// The scores that are drawn for `n` documents, and the past after that: every
/// other document has one, from one to five.
pub open spec fn drawn_scores(past: Past, n: nat) -> (Seq<Option<u8>>, Past)
    decreases n,
{
    if n == 0 {
        (Seq::empty(), past)
    } else {
        let (scores, before) = drawn_scores(past, (n - 1) as nat);
        let tossed = after(before, Request::Ratio { numerator: 1, denominator: 2 });
        if drawn_chance(before.0, before.1, 1, 2) {
            (
                scores.push(Some(drawn_number(tossed.0, tossed.1, 8, 1, 5) as u8)),
                after(tossed, Request::Range { bits: 8, low: 1, high: 5 }),
            )
        } else {
            (scores.push(None), tossed)
        }
    }
}

/// The `n` pairs of a document and a score that are drawn for a block of `bsize`,
/// and the past after that.
pub open spec fn drawn_pairs(past: Past, bsize: nat, n: nat) -> (Seq<(u8, u8)>, Past)
    decreases n,
{
    if n == 0 {
        (Seq::empty(), past)
    } else {
        let (pairs, before) = drawn_pairs(past, bsize, (n - 1) as nat);
        let bits = usize::BITS as nat;
        let placed = after(before, Request::Range { bits, low: 0, high: bsize - 1 });
        let place = drawn_number(before.0, before.1, bits, 0, bsize - 1);
        let score = drawn_number(placed.0, placed.1, 32, 1, 5);
        (
            pairs.push((low8(place), score as u8)),
            after(placed, Request::Range { bits: 32, low: 1, high: 5 }),
        )
    }
}

/// The postings that are drawn for a term, the pairs of sparse ones in the order
/// in which they are drawn, and the past after that.
pub open spec fn drawn_postings(past: Past, dense: bool, bsize: nat, max_len: nat) -> (
    PostingsView,
    Past,
) {
    if dense {
        let (scores, end) = drawn_scores(past, bsize);
        (PostingsView::Dense(filled(scores)), end)
    } else {
        let bits = usize::BITS as nat;
        let sized = after(past, Request::Range { bits, low: 0, high: max_len as int });
        let len = drawn_number(past.0, past.1, bits, 0, max_len as int);
        let (pairs, end) = drawn_pairs(sized, bsize, len as nat);
        (PostingsView::Sparse(pairs), end)
    }
}

/// The postings that are drawn for the first `n` terms, one term after the other,
/// and the past after that.
pub open spec fn drawn_terms(
    past: Past,
    flags: Seq<bool>,
    bsize: nat,
    max_len: nat,
    n: nat,
) -> (Seq<PostingsView>, Past)
    decreases n,
{
    if n == 0 {
        (Seq::empty(), past)
    } else {
        let (terms, before) = drawn_terms(past, flags, bsize, max_len, (n - 1) as nat);
        let (postings, end) = drawn_postings(before, flags[n - 1], bsize, max_len);
        (terms.push(postings), end)
    }
}

/// Draws the dense postings of a term.
fn draw_dense(draws: &mut Draws, block_size: usize) -> (postings: Postings)
    ensures
        postings@ == PostingsView::Dense(filled(drawn_scores(old(draws)@, block_size as nat).0)),
        final(draws)@ == drawn_scores(old(draws)@, block_size as nat).1,
        forall|max_len: nat| #[trigger]
            drawable(postings@, true, block_size as nat, max_len),
{
    let mut scores: Vec<Option<u8>> = Vec::new();
    while scores.len() < block_size
        invariant
            scores@.len() <= block_size,
            scores@ == drawn_scores(old(draws)@, scores@.len()).0,
            draws@ == drawn_scores(old(draws)@, scores@.len()).1,
            forall|d: int|
                0 <= d < scores@.len() ==> (#[trigger] scores@[d] matches Some(score) ==> score
                    <= 5),
        decreases block_size - scores@.len(),
    {
        if draw_ratio(draws, 1, 2) {
            scores.push(Some(draw_u8(draws, 1, 5)));
        } else {
            scores.push(None);
        }
    }
    dense_postings(&scores)
}

/// Draws the sparse postings of a term: `len` pairs, ordered by document.
fn draw_sparse(draws: &mut Draws, block_size: usize, len: usize) -> (postings: Postings)
    requires
        block_size > 0 || len == 0,
    ensures
        arranged(
            postings@,
            PostingsView::Sparse(drawn_pairs(old(draws)@, block_size as nat, len as nat).0),
        ),
        final(draws)@ == drawn_pairs(old(draws)@, block_size as nat, len as nat).1,
        drawable(postings@, false, block_size as nat, len as nat),
        postings@->Sparse_0.len() == len,
{
    let mut pairs: Vec<(u8, u8)> = Vec::new();
    while pairs.len() < len
        invariant
            pairs@.len() <= len,
            block_size > 0 || len == 0,
            pairs@ == drawn_pairs(old(draws)@, block_size as nat, pairs@.len()).0,
            draws@ == drawn_pairs(old(draws)@, block_size as nat, pairs@.len()).1,
            forall|j: int|
                0 <= j < pairs@.len() ==> (#[trigger] pairs@[j]).0 < block_size && 1
                    <= pairs@[j].1 <= 5,
        decreases len - pairs@.len(),
    {
        let place: usize = draw_usize(draws, 0, block_size - 1);
        let did: u8 = to_low8(to_low32(place));
        let sc: u8 = draw_i32(draws, 1, 5) as u8;
        proof {
            lemma_low_of_low32(place as int);
        }
        pairs.push((did, sc));
    }
    let ghost unsorted = pairs@;
    let postings: Postings = sparse_postings(pairs);
    proof {
        let sorted = postings@->Sparse_0;
        unsorted.to_multiset_ensures();
        sorted.to_multiset_ensures();
        assert forall|j: int| 0 <= j < sorted.len() implies (#[trigger] sorted[j]).0 < block_size
            && 1 <= sorted[j].1 <= 5 by {
            assert(sorted.contains(sorted[j]));
            assert(sorted.to_multiset().count(sorted[j]) > 0);
            assert(unsorted.contains(sorted[j]));
        }
    }
    postings
}

/// What holds of a random block and query, whatever was drawn: `order` is the
/// order in which the terms were shuffled.
///
/// The query takes the leading terms of `order`, with positive weights. The block
/// lists every term, in ascending order, and those among the `num_dense` leading
/// terms of `order` are dense.
pub open spec fn is_bench_doc(
    doc: BenchDoc,
    order: Seq<u16>,
    num_terms: nat,
    query_len: nat,
    num_dense: nat,
    max_len: nat,
) -> bool {
    &&& order.to_multiset() == first_terms(num_terms).to_multiset()
    &&& doc.query@.len() == leading(order, query_len).len()
    &&& forall|i: int|
        0 <= i < doc.query@.len() ==> (#[trigger] doc.query@[i]).0 == order[i] && 1
            <= doc.query@[i].1
    &&& doc.document@.len() == num_terms
    &&& sorted_by_key(doc.document@)
    &&& entry_terms(doc.document@).to_multiset() == first_terms(num_terms).to_multiset()
    &&& forall|j: int|
        0 <= j < doc.document@.len() ==> drawable(
            (#[trigger] doc.document@[j]).1@,
            leading(order, num_dense).contains(doc.document@[j].0),
            doc.block_size as nat,
            max_len,
        )
}

/// The seed of the generator of random blocks.
pub const BENCH_SEED: u64 = 12345;

/// The smaller of two numbers.
pub open spec fn smaller(a: nat, b: nat) -> nat {
    if a <= b {
        a
    } else {
        b
    }
}

/// The order in which the terms are shuffled.
pub open spec fn bench_order(num_terms: nat) -> Seq<u16> {
    shuffled(BENCH_SEED, Seq::empty(), first_terms(num_terms))
}

/// The generator's past when the terms are shuffled and `n` weights are drawn.
pub open spec fn weights_past(num_terms: nat, n: nat) -> Past {
    (
        BENCH_SEED,
        seq![Request::Shuffle { len: num_terms }] + Seq::new(
            n,
            |i: int| Request::Range { bits: 8, low: 1, high: 255 },
        ),
    )
}

/// The weight that is drawn for the query term `i`.
pub open spec fn bench_weight(num_terms: nat, i: int) -> u8 {
    let past = weights_past(num_terms, i as nat);
    drawn_number(past.0, past.1, 8, 1, 255) as u8
}

/// The query that is drawn: the leading terms of the order, with their weights.
pub open spec fn bench_query(num_terms: nat, query_len: nat) -> Seq<(u16, u8)> {
    Seq::new(
        smaller(num_terms, query_len),
        |i: int| (bench_order(num_terms)[i], bench_weight(num_terms, i)),
    )
}

/// Which terms are dense: those among the `num_dense` leading terms of the order.
pub open spec fn bench_flags(num_terms: nat, num_dense: nat) -> Seq<bool> {
    Seq::new(
        num_terms,
        |t: int| leading(bench_order(num_terms), num_dense).contains(low16(t)),
    )
}

/// The postings that are drawn for each term, once the query is drawn.
pub open spec fn bench_postings(
    num_terms: nat,
    query_len: nat,
    bsize: nat,
    num_dense: nat,
    max_len: nat,
) -> Seq<PostingsView> {
    drawn_terms(
        weights_past(num_terms, smaller(num_terms, query_len)),
        bench_flags(num_terms, num_dense),
        bsize,
        max_len,
        num_terms,
    ).0
}

/// `entries` hold the drawn postings, each under its term.
pub open spec fn are_entries(entries: Seq<(u16, Postings)>, drawn: Seq<PostingsView>) -> bool {
    &&& entries.len() == drawn.len()
    &&& forall|t: int|
        0 <= t < drawn.len() ==> (#[trigger] entries[t]).0 == low16(t) && arranged(
            entries[t].1@,
            drawn[t],
        )
}

/// `document` lists the drawn postings in ascending order of their terms. Terms
/// that 16 bits cannot tell apart may stand in any order.
pub open spec fn lists_drawn(document: Seq<(u16, Postings)>, drawn: Seq<PostingsView>) -> bool {
    &&& sorted_by_key(document)
    &&& exists|entries: Seq<(u16, Postings)>| #[trigger]
        are_entries(entries, drawn) && document.to_multiset() == entries.to_multiset() && (
        drawn.len() <= 0x1_0000 ==> document == entries)
}

/// `doc` is what is drawn for the given sizes.
pub open spec fn is_generated(
    doc: BenchDoc,
    num_terms: nat,
    query_len: nat,
    bsize: nat,
    num_dense: nat,
    max_len: nat,
) -> bool {
    &&& doc.block_size == bsize
    &&& doc.query@ == bench_query(num_terms, query_len)
    &&& bench_postings(num_terms, query_len, bsize, num_dense, max_len).len() == num_terms
    &&& lists_drawn(
        doc.document@,
        bench_postings(num_terms, query_len, bsize, num_dense, max_len),
    )
}

/// A random block of `num_terms` terms, and a random query of `query_len` of
/// them. `num_dense` of the terms are dense; a sparse one has `avg_sparse_len`
/// pairs on average.
///
/// The seed is fixed, so the same sizes give the same draws.
pub fn gen_bench_doc(
    num_terms: usize,
    query_len: usize,
    block_size: usize,
    num_dense: usize,
    avg_sparse_len: usize,
) -> (doc: BenchDoc)
    requires
        num_dense >= num_terms || avg_sparse_len * 2 <= usize::MAX,
        block_size > 0 || avg_sparse_len == 0 || num_dense >= num_terms,
    ensures
        is_generated(
            doc,
            num_terms as nat,
            query_len as nat,
            block_size as nat,
            num_dense as nat,
            (avg_sparse_len * 2) as nat,
        ),
        is_bench_doc(
            doc,
            bench_order(num_terms as nat),
            num_terms as nat,
            query_len as nat,
            num_dense as nat,
            (avg_sparse_len * 2) as nat,
        ),
{
    let ghost max_len = (avg_sparse_len * 2) as nat;
    let mut draws: Draws = seeded(BENCH_SEED);
    let mut order: Vec<u16> = Vec::new();
    while order.len() < num_terms
        invariant
            order@.len() <= num_terms,
            order@ =~= first_terms(order@.len()),
        decreases num_terms - order@.len(),
    {
        order.push(wrap_term(order.len()));
    }
    shuffle(&mut order, &mut draws);
    proof {
        assert(order@ == bench_order(num_terms as nat));
        order@.to_multiset_ensures();
        first_terms(num_terms as nat).to_multiset_ensures();
        assert(draws@.1 =~= weights_past(num_terms as nat, 0).1);
    }
    let mut weights: Vec<u8> = Vec::new();
    while weights.len() < order.len() && weights.len() < query_len
        invariant
            order@.len() == num_terms,
            weights@.len() <= smaller(num_terms as nat, query_len as nat),
            draws@ == weights_past(num_terms as nat, weights@.len()),
            forall|i: int|
                0 <= i < weights@.len() ==> 1 <= #[trigger] weights@[i] && weights@[i]
                    == bench_weight(num_terms as nat, i),
        decreases order@.len() - weights@.len(),
    {
        weights.push(draw_u8(&mut draws, 1, 255));
        assert(draws@.1 =~= weights_past(num_terms as nat, weights@.len()).1);
    }
    let ghost start = draws@;
    let flags: Vec<bool> = dense_flags(&order, num_terms, num_dense);
    assert(flags@ =~= bench_flags(num_terms as nat, num_dense as nat));
    let mut drawn: Vec<Postings> = Vec::new();
    while drawn.len() < num_terms
        invariant
            drawn@.len() <= num_terms,
            max_len == avg_sparse_len * 2,
            num_dense >= num_terms || avg_sparse_len * 2 <= usize::MAX,
            block_size > 0 || avg_sparse_len == 0 || num_dense >= num_terms,
            order@ == bench_order(num_terms as nat),
            order@.to_multiset() == first_terms(num_terms as nat).to_multiset(),
            order@.len() == num_terms,
            flags@ == bench_flags(num_terms as nat, num_dense as nat),
            draws@ == drawn_terms(start, flags@, block_size as nat, max_len, drawn@.len()).1,
            drawn@.len() == drawn_terms(
                start,
                flags@,
                block_size as nat,
                max_len,
                drawn@.len(),
            ).0.len(),
            forall|t: int|
                0 <= t < drawn@.len() ==> drawable(
                    (#[trigger] drawn@[t])@,
                    flags@[t],
                    block_size as nat,
                    max_len,
                ) && arranged(
                    drawn@[t]@,
                    drawn_terms(start, flags@, block_size as nat, max_len, drawn@.len()).0[t],
                ),
        decreases num_terms - drawn@.len(),
    {
        let term: usize = drawn.len();
        proof {
            if num_dense >= num_terms {
                assert(leading(order@, num_dense as nat) =~= order@);
                lemma_order_holds(order@, num_terms as nat, term as int);
            }
        }
        if flags[term] {
            drawn.push(draw_dense(&mut draws, block_size));
        } else {
            let len: usize = draw_usize(&mut draws, 0, avg_sparse_len * 2);
            drawn.push(draw_sparse(&mut draws, block_size, len));
        }
    }
    let ghost entries = Seq::new(drawn@.len(), |t: int| (low16(t), drawn@[t]));
    let doc: BenchDoc = assemble_bench_doc(&order, &weights, drawn, block_size);
    proof {
        let document = doc.document@;
        let raw = bench_postings(
            num_terms as nat,
            query_len as nat,
            block_size as nat,
            num_dense as nat,
            max_len,
        );
        document.to_multiset_ensures();
        entries.to_multiset_ensures();
        assert(are_entries(entries, raw));
        assert(doc.query@ =~= bench_query(num_terms as nat, query_len as nat));
        assert forall|j: int| 0 <= j < document.len() implies drawable(
            (#[trigger] document[j]).1@,
            leading(order@, num_dense as nat).contains(document[j].0),
            block_size as nat,
            max_len,
        ) by {
            assert(document.contains(document[j]));
            assert(document.to_multiset().count(document[j]) > 0);
            assert(entries.contains(document[j]));
            let t = choose|t: int| 0 <= t < entries.len() && entries[t] == document[j];
            assert(drawable(drawn@[t]@, flags@[t], block_size as nat, max_len));
        }
        lemma_terms_permuted(document, entries);
        assert(entry_terms(entries) =~= first_terms(num_terms as nat));
    }
    doc
}

/// A shuffled order holds every term.
proof fn lemma_order_holds(order: Seq<u16>, num_terms: nat, t: int)
    requires
        order.to_multiset() == first_terms(num_terms).to_multiset(),
        0 <= t < num_terms,
    ensures
        order.contains(low16(t)),
{
    let terms = first_terms(num_terms);
    order.to_multiset_ensures();
    terms.to_multiset_ensures();
    assert(terms[t] == low16(t));
    assert(terms.contains(low16(t)));
    assert(terms.to_multiset().count(low16(t)) > 0);
}

/// The same entries in another order have the same terms in another order.
proof fn lemma_terms_permuted(one: Seq<(u16, Postings)>, other: Seq<(u16, Postings)>)
    requires
        one.to_multiset() == other.to_multiset(),
    ensures
        entry_terms(one).to_multiset() == entry_terms(other).to_multiset(),
    decreases one.len(),
{
    one.to_multiset_ensures();
    other.to_multiset_ensures();
    if one.len() == 0 {
        assert(entry_terms(one) =~= entry_terms(other));
    } else {
        let last = one.last();
        assert(one.contains(one[one.len() - 1]));
        assert(one.to_multiset().count(last) > 0);
        assert(other.contains(last));
        let i = choose|i: int| 0 <= i < other.len() && other[i] == last;
        let (a, b) = (one.drop_last(), other.remove(i));
        assert(a =~= one.remove(one.len() - 1));
        broadcast use vstd::seq_lib::group_to_multiset_ensures;

        assert(a.to_multiset() =~= b.to_multiset());
        lemma_terms_permuted(a, b);
        assert(entry_terms(a) =~= entry_terms(one).remove(one.len() - 1));
        assert(entry_terms(b) =~= entry_terms(other).remove(i));
        let (s, t) = (entry_terms(one), entry_terms(other));
        assert(s.to_multiset() =~= entry_terms(a).to_multiset().insert(last.0)) by {
            assert(s =~= entry_terms(a).push(last.0));
        }
        assert(t =~= entry_terms(b).insert(i, last.0));
        assert(t.to_multiset() =~= entry_terms(b).to_multiset().insert(last.0));
    }
}

/// Two lists of entries with the same terms and the same postings in each place.
/// The order of the pairs of one document is left open.
pub open spec fn entries_agree(
    one: Seq<(u16, Postings)>,
    other: Seq<(u16, Postings)>,
) -> bool {
    &&& one.len() == other.len()
    &&& forall|t: int|
        0 <= t < one.len() ==> (#[trigger] one[t]).0 == (#[trigger] other[t]).0 && arranged(
            one[t].1@,
            other[t].1@,
        )
}

/// Sorting leaves no order open in these postings: pairs of one document have the
/// same score.
pub open spec fn fixed_order(postings: PostingsView) -> bool {
    postings matches PostingsView::Sparse(pairs) ==> ties_are_equal(pairs)
}

/// Sorting leaves no order open in this block: neither in the postings of a term,
/// nor between entries of the same term.
pub open spec fn fixed_block(document: Seq<(u16, Postings)>) -> bool {
    &&& forall|t: int| 0 <= t < document.len() ==> fixed_order((#[trigger] document[t]).1@)
    &&& forall|i: int, j: int|
        0 <= i < document.len() && 0 <= j < document.len() && (#[trigger] document[i]).0 == (
        #[trigger] document[j]).0 ==> document[i].1@ == document[j].1@
}

/// The same sizes give the same query and the same block: the same terms in the
/// same places, and the same entries. Where 16 bits tell the terms apart, each
/// entry stands in the same place.
///
/// The block is the same to the last pair, for any number of terms, wherever the
/// order of a sort that is not stable is fixed. That order alone is left open.
pub proof fn law_same_sizes_same_block(
    one: BenchDoc,
    other: BenchDoc,
    num_terms: nat,
    query_len: nat,
    bsize: nat,
    num_dense: nat,
    max_len: nat,
)
    requires
        is_generated(one, num_terms, query_len, bsize, num_dense, max_len),
        is_generated(other, num_terms, query_len, bsize, num_dense, max_len),
    ensures
        one.query@ == other.query@,
        one.block_size == other.block_size,
        entry_terms(one.document@) == entry_terms(other.document@),
        exists|a: Seq<(u16, Postings)>, b: Seq<(u16, Postings)>| #[trigger]
            entries_agree(a, b) && a.to_multiset() == one.document@.to_multiset()
                && b.to_multiset() == other.document@.to_multiset(),
        fixed_block(one.document@) ==> block_view(one.document@) == block_view(other.document@),
        num_terms <= 0x1_0000 ==> entries_agree(one.document@, other.document@),
        num_terms <= 0x1_0000 ==> forall|t: int|
            0 <= t < num_terms && fixed_order((#[trigger] one.document@[t]).1@)
                ==> one.document@[t].1@ == other.document@[t].1@,
{
    let drawn = bench_postings(num_terms, query_len, bsize, num_dense, max_len);
    let a = choose|entries: Seq<(u16, Postings)>| #[trigger]
        are_entries(entries, drawn) && one.document@.to_multiset() == entries.to_multiset() && (
        drawn.len() <= 0x1_0000 ==> one.document@ == entries);
    let b = choose|entries: Seq<(u16, Postings)>| #[trigger]
        are_entries(entries, drawn) && other.document@.to_multiset() == entries.to_multiset() && (
        drawn.len() <= 0x1_0000 ==> other.document@ == entries);
    assert(entries_agree(a, b));
    let (s, t) = (entry_terms(one.document@), entry_terms(other.document@));
    lemma_terms_permuted(one.document@, a);
    lemma_terms_permuted(other.document@, b);
    assert(entry_terms(a) =~= entry_terms(b));
    let leq = |x: u16, y: u16| x <= y;
    assert forall|i: int, j: int| 0 <= i < j < s.len() implies leq(s[i], s[j]) by {
        assert(one.document@[i].key_spec() <= one.document@[j].key_spec());
    }
    assert forall|i: int, j: int| 0 <= i < j < t.len() implies leq(t[i], t[j]) by {
        assert(other.document@[i].key_spec() <= other.document@[j].key_spec());
    }
    vstd::seq_lib::lemma_sorted_unique(s, t, leq);
    assert forall|t: int| 0 <= t < num_terms && fixed_order((#[trigger] a[t]).1@) implies a[t].1@
        == b[t].1@ by {
        assert(arranged(a[t].1@, drawn[t]) && arranged(b[t].1@, drawn[t]));
        match (a[t].1@, b[t].1@) {
            (PostingsView::Sparse(pairs), PostingsView::Sparse(others)) => {
                law_equal_ties_sort_uniquely(pairs, others);
            },
            _ => {},
        }
    }
    if fixed_block(one.document@) {
        lemma_fixed_blocks_agree(one.document@, other.document@, a, b);
    }
}

/// Two blocks of the same terms in the same places, from entries that are the same
/// wherever their order is fixed, are the same where the first one's order is.
proof fn lemma_fixed_blocks_agree(
    one: Seq<(u16, Postings)>,
    other: Seq<(u16, Postings)>,
    a: Seq<(u16, Postings)>,
    b: Seq<(u16, Postings)>,
)
    requires
        entry_terms(one) == entry_terms(other),
        one.to_multiset() == a.to_multiset(),
        other.to_multiset() == b.to_multiset(),
        entries_agree(a, b),
        forall|t: int|
            0 <= t < a.len() && fixed_order((#[trigger] a[t]).1@) ==> a[t].1@ == b[t].1@,
        fixed_block(one),
    ensures
        block_view(one) == block_view(other),
{
    one.to_multiset_ensures();
    other.to_multiset_ensures();
    a.to_multiset_ensures();
    b.to_multiset_ensures();
    assert(entry_terms(one).len() == entry_terms(other).len());
    assert forall|k: int| 0 <= k < one.len() implies (#[trigger] block_view(one)[k])
        == block_view(other)[k] by {
        assert(one[k].0 == entry_terms(one)[k] && entry_terms(other)[k] == other[k].0);
        assert(other.contains(other[k]));
        assert(other.to_multiset().count(other[k]) > 0);
        assert(b.contains(other[k]));
        let t = choose|t: int| 0 <= t < b.len() && b[t] == other[k];
        assert(a[t].0 == b[t].0);
        assert(a.contains(a[t]));
        assert(a.to_multiset().count(a[t]) > 0);
        assert(one.contains(a[t]));
        let j = choose|j: int| 0 <= j < one.len() && one[j] == a[t];
        assert(fixed_order(one[j].1@));
        assert(one[j].0 == one[k].0);
    }
    assert(block_view(one) =~= block_view(other));
}

/// The same sizes give a block with the same scores, for any query: the order of
/// the pairs of one document does not show.
pub proof fn law_same_sizes_same_scores(
    one: BenchDoc,
    other: BenchDoc,
    num_terms: nat,
    query_len: nat,
    bsize: nat,
    num_dense: nat,
    max_len: nat,
    query: Seq<(u16, u8)>,
    doc: int,
)
    requires
        is_generated(one, num_terms, query_len, bsize, num_dense, max_len),
        is_generated(other, num_terms, query_len, bsize, num_dense, max_len),
        num_terms <= 0x1_0000,
    ensures
        score(query, block_view(one.document@), doc) == score(
            query,
            block_view(other.document@),
            doc,
        ),
{
    law_same_sizes_same_block(one, other, num_terms, query_len, bsize, num_dense, max_len);
    let (a, b) = (block_view(one.document@), block_view(other.document@));
    assert forall|k: int| 0 <= k < a.len() implies (#[trigger] a[k]).0 == (#[trigger] b[k]).0
        && impact(a[k].1, doc) == impact(b[k].1, doc) by {
        assert(one.document@[k].0 == other.document@[k].0);
        match (a[k].1, b[k].1) {
            (PostingsView::Sparse(pairs), PostingsView::Sparse(others)) => {
                law_pair_order_changes_no_sum(pairs, others, doc);
            },
            _ => {},
        }
    }
    law_scores_follow_impacts(a, b, query, doc);
}

/// Of two queries over the same number of terms, the shorter one is where the
/// longer one starts, whatever the blocks are like.
pub proof fn law_shorter_query_is_prefix(
    one: BenchDoc,
    other: BenchDoc,
    num_terms: nat,
    query_lens: (nat, nat),
    bsizes: (nat, nat),
    num_denses: (nat, nat),
    max_lens: (nat, nat),
)
    requires
        is_generated(one, num_terms, query_lens.0, bsizes.0, num_denses.0, max_lens.0),
        is_generated(other, num_terms, query_lens.1, bsizes.1, num_denses.1, max_lens.1),
        query_lens.0 <= query_lens.1,
    ensures
        one.query@.is_prefix_of(other.query@),
        one.query@.len() == smaller(num_terms, query_lens.0),
        other.query@.len() == smaller(num_terms, query_lens.1),
{
    assert(one.query@ =~= other.query@.take(one.query@.len() as int));
}

/// Any query can be scored on a random block, as far as the sums can be held.
pub proof fn law_bench_doc_fits(
    doc: BenchDoc,
    order: Seq<u16>,
    num_terms: nat,
    query_len: nat,
    num_dense: nat,
    max_len: nat,
    query: Seq<(u16, u8)>,
)
    requires
        is_bench_doc(doc, order, num_terms, query_len, num_dense, max_len),
    ensures
        hits_fit(query, block_view(doc.document@), doc.block_size as nat),
{
    let block = block_view(doc.document@);
    assert forall|i: int| 0 <= i < query.len() && #[trigger] hit(query, block, i) implies
        fits_block(block[cursor(query, block, i + 1)].1, doc.block_size as nat) by {
        let c = cursor(query, block, i + 1);
        assert(block[c].1 == doc.document@[c].1@);
    }
}

/// A random block of up to 65536 terms lists the terms from zero on, each once.
pub proof fn law_bench_doc_lists_terms(
    doc: BenchDoc,
    order: Seq<u16>,
    num_terms: nat,
    query_len: nat,
    num_dense: nat,
    max_len: nat,
)
    requires
        is_bench_doc(doc, order, num_terms, query_len, num_dense, max_len),
        num_terms <= 0x1_0000,
    ensures
        forall|j: int| 0 <= j < num_terms ==> (#[trigger] doc.document@[j]).0 == j,
{
    let leq = |a: u16, b: u16| a <= b;
    let (listed, terms) = (entry_terms(doc.document@), first_terms(num_terms));
    assert forall|i: int, j: int| 0 <= i < j < listed.len() implies leq(listed[i], listed[j]) by {
        assert(doc.document@[i].key_spec() <= doc.document@[j].key_spec());
    }
    vstd::seq_lib::lemma_sorted_unique(listed, terms, leq);
    assert forall|j: int| 0 <= j < num_terms implies (#[trigger] doc.document@[j]).0 == j by {
        assert(listed[j] == terms[j]);
    }
}

/// Every query term among the leading `num_dense` of the shuffled order meets a
/// dense entry, wherever the block lists it.
pub proof fn law_leading_query_terms_are_dense(
    doc: BenchDoc,
    order: Seq<u16>,
    num_terms: nat,
    query_len: nat,
    num_dense: nat,
    max_len: nat,
    i: int,
    j: int,
)
    requires
        is_bench_doc(doc, order, num_terms, query_len, num_dense, max_len),
        0 <= i < doc.query@.len(),
        i < num_dense,
        0 <= j < doc.document@.len(),
        doc.document@[j].0 == doc.query@[i].0,
    ensures
        doc.document@[j].1 is Dense,
{
    assert(leading(order, num_dense)[i] == doc.query@[i].0);
    assert(leading(order, num_dense).contains(doc.document@[j].0));
    assert(drawable(doc.document@[j].1@, true, doc.block_size as nat, max_len));
}

/// A dense vector holds each document's own score, and zero for a document without
/// one. The terms that lead an order are its first ones, and the terms from zero on
/// are counted in 16 bits.
pub proof fn law_parts_keep_their_places(
    scores: Seq<Option<u8>>,
    order: Seq<u16>,
    entries: Seq<(u16, Postings)>,
    n: nat,
    i: int,
)
    ensures
        filled(scores).len() == scores.len(),
        0 <= i < scores.len() && scores[i] is Some ==> Some(filled(scores)[i]) == scores[i],
        0 <= i < scores.len() && scores[i] is None ==> filled(scores)[i] == 0,
        leading(order, n).len() == smaller(order.len(), n),
        smaller(order.len(), n) <= n && smaller(order.len(), n) <= order.len() && (smaller(
            order.len(),
            n,
        ) == n || smaller(order.len(), n) == order.len()),
        0 <= i < leading(order, n).len() ==> leading(order, n)[i] == order[i],
        first_terms(n).len() == n,
        0 <= i < n ==> first_terms(n)[i] == i % 0x1_0000,
        entry_terms(entries).len() == entries.len(),
        0 <= i < entries.len() ==> entry_terms(entries)[i] == entries[i].0,
{
}

/// Dense postings are stored as drawn. Sparse ones are the drawn pairs, in ascending
/// order of the places.
pub proof fn law_arranged_postings_hold_what_was_drawn(
    postings: PostingsView,
    drawn: PostingsView,
)
    requires
        arranged(postings, drawn),
    ensures
        drawn is Dense ==> postings == drawn,
        drawn is Sparse ==> postings is Sparse && postings->Sparse_0.to_multiset()
            == drawn->Sparse_0.to_multiset() && forall|i: int, j: int|
            0 <= i <= j < postings->Sparse_0.len() ==> (#[trigger] postings->Sparse_0[i]).0 <= (
            #[trigger] postings->Sparse_0[j]).0,
{
    if drawn is Sparse {
        law_sorted_parts_ascend(postings->Sparse_0, Seq::empty());
    }
}

/// The scores of a dense term are drawn document by document: with a chance of one
/// in two a document has one, from one to five.
pub proof fn law_scores_are_drawn_in_turn(past: Past, n: nat)
    ensures
        drawn_scores(past, 0) == (Seq::<Option<u8>>::empty(), past),
        ({
            let (scores, before) = drawn_scores(past, n);
            let (longer, end) = drawn_scores(past, n + 1);
            let tossed = before.1.push(Request::Ratio { numerator: 1, denominator: 2 });
            &&& end.0 == before.0
            &&& drawn_chance(before.0, before.1, 1, 2) ==> longer == scores.push(
                Some(drawn_number(before.0, tossed, 8, 1, 5) as u8),
            ) && end.1 == tossed.push(Request::Range { bits: 8, low: 1, high: 5 })
            &&& !drawn_chance(before.0, before.1, 1, 2) ==> longer == scores.push(None) && end.1
                == tossed
        }),
{
    assert((n + 1 - 1) as nat == n);
}

/// The pairs of a sparse term are drawn one by one: first the place within the
/// block, then the score, from one to five.
pub proof fn law_pairs_are_drawn_in_turn(past: Past, bsize: nat, n: nat)
    ensures
        drawn_pairs(past, bsize, 0) == (Seq::<(u8, u8)>::empty(), past),
        ({
            let (pairs, before) = drawn_pairs(past, bsize, n);
            let (longer, end) = drawn_pairs(past, bsize, n + 1);
            let bits = usize::BITS as nat;
            let placed = before.1.push(Request::Range { bits, low: 0, high: bsize - 1 });
            let place = drawn_number(before.0, before.1, bits, 0, bsize - 1);
            let score = drawn_number(before.0, placed, 32, 1, 5);
            &&& longer == pairs.push(((place % 0x100) as u8, score as u8))
            &&& end == (before.0, placed.push(Request::Range { bits: 32, low: 1, high: 5 }))
        }),
{
    assert((n + 1 - 1) as nat == n);
}

/// The terms are drawn in turn: a dense one as a score for each document of the
/// block, a sparse one as a length up to `max_len` and so many pairs.
pub proof fn law_terms_are_drawn_in_turn(
    past: Past,
    flags: Seq<bool>,
    bsize: nat,
    max_len: nat,
    n: nat,
)
    ensures
        drawn_terms(past, flags, bsize, max_len, 0) == (Seq::<PostingsView>::empty(), past),
        ({
            let (terms, before) = drawn_terms(past, flags, bsize, max_len, n);
            let (longer, end) = drawn_terms(past, flags, bsize, max_len, n + 1);
            let bits = usize::BITS as nat;
            let len = drawn_number(before.0, before.1, bits, 0, max_len as int);
            let sized = (
                before.0,
                before.1.push(Request::Range { bits, low: 0, high: max_len as int }),
            );
            &&& flags[n as int] ==> longer == terms.push(
                PostingsView::Dense(filled(drawn_scores(before, bsize).0)),
            ) && end == drawn_scores(before, bsize).1
            &&& !flags[n as int] ==> longer == terms.push(
                PostingsView::Sparse(drawn_pairs(sized, bsize, len as nat).0),
            ) && end == drawn_pairs(sized, bsize, len as nat).1
        }),
{
    assert((n + 1 - 1) as nat == n);
}

/// The terms are shuffled first; then a weight is drawn for each query term; then
/// the postings. A query term is one of the shuffled order, with a weight from one
/// to 255 of its own. A term is dense where it is among the first of the order.
pub proof fn law_query_is_drawn_first(
    num_terms: nat,
    query_len: nat,
    bsize: nat,
    num_dense: nat,
    max_len: nat,
    i: int,
)
    ensures
        bench_order(num_terms) == shuffled(
            12345,
            Seq::empty(),
            Seq::new(num_terms, |t: int| (t % 0x1_0000) as u16),
        ),
        bench_query(num_terms, query_len).len() == smaller(num_terms, query_len),
        0 <= i < smaller(num_terms, query_len) ==> bench_query(num_terms, query_len)[i] == (
            bench_order(num_terms)[i],
            drawn_number(
                12345,
                seq![Request::Shuffle { len: num_terms }] + Seq::new(
                    i as nat,
                    |k: int| Request::Range { bits: 8, low: 1, high: 255 },
                ),
                8,
                1,
                255,
            ) as u8,
        ),
        bench_flags(num_terms, num_dense).len() == num_terms,
        0 <= i < num_terms ==> (bench_flags(num_terms, num_dense)[i] <==> exists|j: int|
            0 <= j < smaller(bench_order(num_terms).len(), num_dense) && #[trigger] bench_order(
                num_terms,
            )[j] == i % 0x1_0000),
        bench_postings(num_terms, query_len, bsize, num_dense, max_len) == drawn_terms(
            (
                12345,
                seq![Request::Shuffle { len: num_terms }] + Seq::new(
                    smaller(num_terms, query_len),
                    |k: int| Request::Range { bits: 8, low: 1, high: 255 },
                ),
            ),
            bench_flags(num_terms, num_dense),
            bsize,
            max_len,
            num_terms,
        ).0,
{
    let order = bench_order(num_terms);
    let head = leading(order, num_dense);
    assert(first_terms(num_terms) =~= Seq::new(num_terms, |t: int| (t % 0x1_0000) as u16));
    if 0 <= i < num_terms {
        if head.contains(low16(i)) {
            let j = choose|j: int| 0 <= j < head.len() && head[j] == low16(i);
            assert(order[j] == i % 0x1_0000);
        }
        if exists|j: int|
            0 <= j < smaller(order.len(), num_dense) && #[trigger] order[j] == i % 0x1_0000 {
            let j = choose|j: int|
                0 <= j < smaller(order.len(), num_dense) && #[trigger] order[j] == i % 0x1_0000;
            assert(head[j] == low16(i));
        }
    }
}

/// A random block holds each term with what was drawn for it, in ascending order of
/// the terms; up to 65536 terms, each at the place of its number.
pub proof fn law_block_holds_what_was_drawn(
    doc: BenchDoc,
    num_terms: nat,
    query_len: nat,
    bsize: nat,
    num_dense: nat,
    max_len: nat,
    t: int,
)
    requires
        is_generated(doc, num_terms, query_len, bsize, num_dense, max_len),
    ensures
        doc.block_size == bsize,
        doc.query@ == bench_query(num_terms, query_len),
        doc.document@.len() == num_terms,
        forall|i: int, j: int|
            0 <= i <= j < num_terms ==> (#[trigger] doc.document@[i]).0 <= (
            #[trigger] doc.document@[j]).0,
        exists|entries: Seq<(u16, Postings)>|
            #![trigger entries.to_multiset()]
            entries.to_multiset() == doc.document@.to_multiset() && entries.len() == num_terms && (
            forall|e: int|
                0 <= e < num_terms ==> (#[trigger] entries[e]).0 == e % 0x1_0000 && arranged(
                    entries[e].1@,
                    bench_postings(num_terms, query_len, bsize, num_dense, max_len)[e],
                )),
        num_terms <= 0x1_0000 && 0 <= t < num_terms ==> doc.document@[t].0 == t && arranged(
            doc.document@[t].1@,
            bench_postings(num_terms, query_len, bsize, num_dense, max_len)[t],
        ),
{
    let drawn = bench_postings(num_terms, query_len, bsize, num_dense, max_len);
    let entries = choose|entries: Seq<(u16, Postings)>| #[trigger]
        are_entries(entries, drawn) && doc.document@.to_multiset() == entries.to_multiset() && (
        drawn.len() <= 0x1_0000 ==> doc.document@ == entries);
    doc.document@.to_multiset_ensures();
    entries.to_multiset_ensures();
    law_sorted_parts_ascend(Seq::empty(), doc.document@);
    assert forall|e: int| 0 <= e < num_terms implies (#[trigger] entries[e]).0 == e % 0x1_0000
        && arranged(entries[e].1@, drawn[e]) by {
        assert(entries[e].0 == low16(e));
    }
    if num_terms <= 0x1_0000 && 0 <= t < num_terms {
        assert(entries[t].0 == low16(t));
    }
}

} // verus!
