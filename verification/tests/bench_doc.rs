use bmp::bench_doc::{
    assemble_bench_doc, dense_flags, dense_postings, gen_bench_doc, sparse_postings, BenchDoc,
};
use bmp::index::forward_index::{block_score, checked_block_score, Postings};
use rand::prelude::{Rng, SeedableRng, SliceRandom, StdRng};

/// A comparable form of the entries of a block.
fn plain(document: &[(u16, Postings)]) -> Vec<(u16, bool, Vec<(u8, u8)>)> {
    document
        .iter()
        .map(|(term, postings)| match postings {
            Postings::Sparse(pairs) => (*term, false, pairs.clone()),
            Postings::Dense(scores) => {
                (*term, true, scores.iter().map(|score| (0, *score)).collect())
            }
        })
        .collect()
}

fn is_dense(postings: &Postings) -> bool {
    matches!(postings, Postings::Dense(_))
}

#[test]
fn leading_terms_are_flagged_dense() {
    assert_eq!(dense_flags(&vec![3, 0, 2, 1], 4, 2), vec![true, false, false, true]);
    assert_eq!(dense_flags(&vec![3, 0, 2, 1], 4, 0), vec![false; 4]);
    assert_eq!(dense_flags(&vec![3, 0, 2, 1], 4, 9), vec![true; 4]);
}

#[test]
fn parts_are_assembled() {
    let drawn = vec![Postings::Sparse(vec![(1, 2)]), Postings::Dense(vec![5, 0])];
    let doc = assemble_bench_doc(&vec![1, 0], &vec![9], drawn, 2);
    assert_eq!(doc.query, vec![(1, 9)]);
    assert_eq!(doc.block_size, 2);
    assert_eq!(
        plain(&doc.document),
        vec![(0, false, vec![(1, 2)]), (1, true, vec![(0, 5), (0, 0)])]
    );
}

#[test]
fn assembled_terms_beyond_16_bits_are_sorted() {
    let drawn: Vec<Postings> = (0..65538).map(|_| Postings::Sparse(vec![])).collect();
    let doc = assemble_bench_doc(&vec![], &vec![], drawn, 1);
    assert_eq!(doc.document.len(), 65538);
    let terms: Vec<u16> = doc.document.iter().map(|entry| entry.0).collect();
    assert_eq!(terms[..5], [0, 0, 1, 1, 2]);
    assert!(terms.windows(2).all(|pair| pair[0] <= pair[1]));
}

/// The same draws, made by hand.
fn by_hand(
    num_terms: usize,
    query_len: usize,
    block_size: usize,
    num_dense: usize,
    avg_sparse_len: usize,
) -> BenchDoc {
    let mut rng = StdRng::seed_from_u64(12345);
    let mut all_terms: Vec<u16> = (0..num_terms).map(|i| i as u16).collect();
    all_terms.shuffle(&mut rng);
    let query: Vec<(u16, u8)> = all_terms
        .iter()
        .copied()
        .take(query_len)
        .map(|t| (t, rng.gen_range(1..=255)))
        .collect();
    let dense_terms: Vec<u16> = all_terms.iter().copied().take(num_dense).collect();
    let mut document: Vec<(u16, Postings)> = Vec::new();
    for term in 0..num_terms {
        if dense_terms.contains(&(term as u16)) {
            let mut dense = vec![0u8; block_size];
            for score in dense.iter_mut() {
                if rng.gen_bool(0.5) {
                    *score = rng.gen_range(1..=5);
                }
            }
            document.push((term as u16, Postings::Dense(dense)));
        } else {
            let len = rng.gen_range(0..=avg_sparse_len * 2);
            let mut pairs = Vec::new();
            for _ in 0..len {
                let did = rng.gen_range(0..block_size) as u8;
                let sc = rng.gen_range(1..=5) as u8;
                pairs.push((did, sc));
            }
            pairs.sort_unstable_by_key(|p| p.0);
            document.push((term as u16, Postings::Sparse(pairs)));
        }
    }
    document.sort_unstable_by_key(|(t, _)| *t);
    BenchDoc { query, document, block_size }
}

#[test]
fn a_random_block_follows_the_seed() {
    for num_dense in [0usize, 20, 50, 200] {
        let doc = gen_bench_doc(200, 10, 32, num_dense, 8);
        let expected = by_hand(200, 10, 32, num_dense, 8);
        assert_eq!(doc.query, expected.query);
        assert_eq!(plain(&doc.document), plain(&expected.document));
        assert_eq!(doc.block_size, 32);
    }
}

#[test]
fn a_random_block_is_shuffled_and_shaped() {
    let doc = gen_bench_doc(200, 10, 32, 50, 8);
    assert_eq!(doc.query.len(), 10);
    assert_ne!(doc.query.iter().map(|q| q.0).collect::<Vec<_>>(), (0..10).collect::<Vec<u16>>());
    assert_eq!(doc.document.len(), 200);
    assert_eq!(doc.document.iter().filter(|entry| is_dense(&entry.1)).count(), 50);
    for (t, (term, postings)) in doc.document.iter().enumerate() {
        assert_eq!(t, *term as usize);
        match postings {
            Postings::Dense(scores) => {
                assert_eq!(scores.len(), 32);
                assert!(scores.iter().all(|score| *score <= 5));
            }
            Postings::Sparse(pairs) => {
                assert!(pairs.len() <= 16);
                assert!(pairs.windows(2).all(|pair| pair[0].0 <= pair[1].0));
                assert!(pairs.iter().all(|p| p.0 < 32 && 1 <= p.1 && p.1 <= 5));
            }
        }
    }
    // The query's terms lead the shuffled order, so they are dense.
    for (term, weight) in &doc.query {
        assert!(*weight >= 1);
        assert!(is_dense(&doc.document[*term as usize].1));
    }
    assert!(checked_block_score(&doc.query, &doc.document, doc.block_size).is_some());
}

#[test]
fn a_random_block_may_be_small() {
    let doc = gen_bench_doc(3, 10, 0, 3, 8);
    assert_eq!((doc.query.len(), doc.document.len()), (3, 3));
    let doc = gen_bench_doc(0, 10, 32, 5, 8);
    assert_eq!((doc.query.len(), doc.document.len()), (0, 0));
    let doc = gen_bench_doc(4, 2, 0, 0, 0);
    assert!(doc.document.iter().all(|entry| !is_dense(&entry.1)));
}

#[test]
fn drawn_pairs_are_sorted_by_document() {
    let postings = sparse_postings(vec![(7, 1), (2, 5), (9, 3), (0, 4)]);
    assert_eq!(plain(&[(0, postings)])[0].2, vec![(0, 4), (2, 5), (7, 1), (9, 3)]);
    // Two pairs of one document both stay, in either order.
    match sparse_postings(vec![(3, 1), (1, 2), (3, 5)]) {
        Postings::Sparse(pairs) => {
            assert_eq!(pairs[0], (1, 2));
            let mut rest = pairs[1..].to_vec();
            rest.sort();
            assert_eq!(rest, vec![(3, 1), (3, 5)]);
        }
        Postings::Dense(_) => panic!("dense"),
    }
    // Where pairs of one document are the same, one order is left.
    let postings = sparse_postings(vec![(3, 1), (1, 2), (3, 1)]);
    assert_eq!(plain(&[(0, postings)])[0].2, vec![(1, 2), (3, 1), (3, 1)]);
    assert!(matches!(sparse_postings(vec![]), Postings::Sparse(pairs) if pairs.is_empty()));
}

#[test]
fn drawn_scores_fill_a_block() {
    match dense_postings(&vec![None, Some(3), Some(0), None, Some(255)]) {
        Postings::Dense(scores) => assert_eq!(scores, vec![0, 3, 0, 0, 255]),
        Postings::Sparse(_) => panic!("sparse"),
    }
    assert!(matches!(dense_postings(&vec![]), Postings::Dense(scores) if scores.is_empty()));
}

#[test]
fn the_same_sizes_give_the_same_block() {
    let (one, other) = (gen_bench_doc(60, 7, 32, 15, 8), gen_bench_doc(60, 7, 32, 15, 8));
    assert_eq!(one.query, other.query);
    assert_eq!(one.block_size, other.block_size);
    assert_eq!(plain(&one.document), plain(&other.document));
    let query: Vec<(u16, u8)> = (0..60).map(|term| (term, 3)).collect();
    assert_eq!(block_score(&query, &one.document, 32), block_score(&query, &other.document, 32));
}

#[test]
fn the_same_sizes_give_the_same_block_beyond_16_bits() {
    // Entries that share a term are the same here, so their order does not show.
    let (one, other) = (gen_bench_doc(65540, 3, 4, 0, 0), gen_bench_doc(65540, 3, 4, 0, 0));
    assert_eq!(one.query, other.query);
    assert_eq!(plain(&one.document), plain(&other.document));
    assert_eq!(one.document.len(), 65540);
}

#[test]
fn a_shorter_query_is_a_prefix_of_a_longer_one() {
    let long = gen_bench_doc(40, 12, 16, 10, 4).query;
    for (query_len, block_size, num_dense, avg_sparse_len) in
        [(0usize, 16usize, 10usize, 4usize), (5, 8, 0, 2), (12, 256, 40, 9), (11, 1, 3, 0)]
    {
        let short = gen_bench_doc(40, query_len, block_size, num_dense, avg_sparse_len).query;
        assert_eq!(short[..], long[..query_len]);
    }
    assert_eq!(gen_bench_doc(40, 99, 16, 10, 4).query.len(), 40);
}

#[test]
fn an_all_dense_block_does_not_look_at_the_sparse_length() {
    let doc = gen_bench_doc(3, 2, 4, 3, usize::MAX);
    let expected = gen_bench_doc(3, 2, 4, 3, 0);
    assert_eq!(doc.query, expected.query);
    assert_eq!(plain(&doc.document), plain(&expected.document));
    assert!(doc.document.iter().all(|entry| is_dense(&entry.1)));
}
