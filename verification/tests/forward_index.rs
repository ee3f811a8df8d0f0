use bmp::index::blocks::{index_block, index_blocks};
use bmp::index::dense_ratio::DenseRatio;
use bmp::index::forward_index::{
    block_score, checked_block_score, fwd2bfwd, fwd2bfwd_with_dense_ratio, BlockDocument,
    BlockForwardIndex, ForwardIndex, ForwardIndexBuilder, Postings,
};

fn documents(index: &ForwardIndex) -> Vec<Vec<(u32, u32)>> {
    index.into_iter().cloned().collect()
}

fn sparse(postings: &Postings) -> Vec<(u8, u8)> {
    match postings {
        Postings::Sparse(pairs) => pairs.clone(),
        Postings::Dense(_) => panic!("sparse postings were expected"),
    }
}

fn dense(postings: &Postings) -> Vec<u8> {
    match postings {
        Postings::Sparse(_) => panic!("dense postings were expected"),
        Postings::Dense(scores) => scores.clone(),
    }
}

fn ratio(value: f32) -> DenseRatio {
    DenseRatio::from_f32_bits(value.to_bits())
}

#[test]
fn test_block_score() {
    // Test mixed and sparse Postings Lists
    // Test with mixed (Sparse and Dense) Postings
    let query = vec![(1, 2), (2, 3)];
    let document = vec![
        (1, Postings::Sparse(vec![(0, 1), (2, 2)])),
        (
            2,
            Postings::Dense(vec![
                1, 2, 3, 4, 0, 0, 0, 0, 0, 0, 0, 0, 0, 0, 0, 0, 0, 0, 0, 0, 0, 0, 0, 0, 0, 0, 0,
                0, 0, 0, 0, 0,
            ]),
        ),
    ];
    let bsize = 32;
    let doc_score = block_score(&query, &document, bsize);
    // For coordinate 1 (Sparse): (0,1) and (2,2) with value 2
    // doc_score[0] += 2*1 = 2
    // doc_score[2] += 2*2 = 4
    // For coordinate 2 (Dense): [1,2,3,4,...] with value 3
    // doc_score[0] += 3*1 = 3
    // doc_score[1] += 3*2 = 6
    // doc_score[2] += 3*3 = 9
    // doc_score[3] += 3*4 = 12
    // So final doc_score[0] = 2+3=5, [1]=6, [2]=4+9=13, [3]=12
    let mut expected = vec![0u16; 32];
    expected[0] = 5;
    expected[1] = 6;
    expected[2] = 13;
    expected[3] = 12;
    assert_eq!(doc_score, expected);

    // Test with only Sparse Postings
    let query = vec![(5, 1)];
    let document = vec![(5, Postings::Sparse(vec![(0, 2), (3, 4), (7, 1)]))];
    let bsize = 8;
    let doc_score = block_score(&query, &document, bsize);
    let mut expected = vec![0u16; 8];
    expected[0] = 2;
    expected[3] = 4;
    expected[7] = 1;
    assert_eq!(doc_score, expected);

    // Test with only Dense Postings
    let query = vec![(10, 2)];
    let document = vec![(10, Postings::Dense(vec![1, 0, 2, 3, 0, 0, 0, 0]))];
    let bsize = 8;
    let doc_score = block_score(&query, &document, bsize);
    let mut expected = vec![0u16; 8];
    expected[0] = 2;
    expected[2] = 4;
    expected[3] = 6;
    assert_eq!(doc_score, expected);
}

#[test]
fn block_score_of_an_empty_query_or_block_is_zero() {
    let document = vec![(1, Postings::Sparse(vec![(0, 1)]))];
    assert_eq!(block_score(&vec![], &document, 3), vec![0, 0, 0]);
    assert_eq!(block_score(&vec![(1, 1)], &[], 2), vec![0, 0]);
    assert_eq!(block_score(&vec![(2, 9)], &document, 2), vec![0, 0]);
}

#[test]
fn block_score_meets_a_repeated_query_term_twice() {
    let document = vec![(4, Postings::Sparse(vec![(1, 3)])), (6, Postings::Dense(vec![1, 1]))];
    let query = vec![(4, 2), (4, 5), (6, 1)];
    assert_eq!(block_score(&query, &document, 2), vec![1, 22]);
}

#[test]
fn block_score_does_not_go_back_for_a_lower_query_term() {
    let document = vec![(1, Postings::Sparse(vec![(0, 1)])), (9, Postings::Sparse(vec![(0, 2)]))];
    assert_eq!(block_score(&vec![(9, 1), (1, 1)], &document, 1), vec![2]);
    assert_eq!(block_score(&vec![(1, 1), (9, 1)], &document, 1), vec![3]);
}

#[test]
fn block_score_adds_up_a_document_named_twice() {
    let document = vec![(1, Postings::Sparse(vec![(0, 200), (0, 100)]))];
    assert_eq!(block_score(&vec![(1, 100)], &document, 1), vec![30000]);
}

#[test]
fn checked_block_score_refuses_a_place_outside_the_block() {
    let document = vec![(1, Postings::Sparse(vec![(0, 1), (4, 1)]))];
    assert_eq!(checked_block_score(&vec![(1, 1)], &document, 4), None);
    assert_eq!(checked_block_score(&vec![(1, 1)], &document, 5), Some(vec![1, 0, 0, 0, 1]));
    // An entry that the query does not meet is not looked at.
    assert_eq!(checked_block_score(&vec![(2, 1)], &document, 1), Some(vec![0]));
}

#[test]
fn checked_block_score_allows_dense_zeros_outside_the_block() {
    let fits = vec![(1, Postings::Dense(vec![3, 0, 0]))];
    assert_eq!(checked_block_score(&vec![(1, 2)], &fits, 1), Some(vec![6]));
    let exceeds = vec![(1, Postings::Dense(vec![3, 0, 7]))];
    assert_eq!(checked_block_score(&vec![(1, 2)], &exceeds, 1), None);
}

#[test]
fn checked_block_score_refuses_a_sum_above_16_bits() {
    let document = vec![(1, Postings::Sparse(vec![(0, 255)])), (2, Postings::Dense(vec![2, 1]))];
    assert_eq!(checked_block_score(&vec![(1, 255), (2, 255)], &document, 2), Some(vec![65535, 255]));
    let document = vec![(1, Postings::Sparse(vec![(0, 255)])), (2, Postings::Dense(vec![3, 1]))];
    assert_eq!(checked_block_score(&vec![(1, 255), (2, 255)], &document, 2), None);
    let document = vec![(1, Postings::Sparse(vec![(0, 255), (0, 255)]))];
    assert_eq!(checked_block_score(&vec![(1, 255)], &document, 2), None);
}

#[test]
fn builder_inverts_posting_lists() {
    let mut builder = ForwardIndexBuilder::new(3);
    builder.insert_posting_list(7, &vec![(0, 10), (2, 30)]);
    builder.insert_posting_list(3, &vec![(2, 5), (0, 6)]);
    let index = builder.build();
    assert_eq!(documents(&index), vec![vec![(3, 6), (7, 10)], vec![], vec![(3, 5), (7, 30)]]);
}

#[test]
fn build_orders_documents_stably_and_empties_the_builder() {
    let mut builder = ForwardIndexBuilder::new(1);
    builder.insert_document(vec![(5, 1), (2, 2), (5, 0), (2, 9), (1, 1)]);
    let index = builder.build();
    assert_eq!(documents(&index), vec![vec![], vec![(1, 1), (2, 2), (2, 9), (5, 1), (5, 0)]]);
    assert_eq!(documents(&builder.build()), Vec::<Vec<(u32, u32)>>::new());
    builder.insert_document(vec![(1, 1)]);
    assert_eq!(documents(&builder.build()), vec![vec![(1, 1)]]);
}

#[test]
fn an_index_is_walked_document_by_document() {
    let index = ForwardIndex::from_documents(vec![vec![(2, 1), (1, 1)], vec![(3, 3)]]);
    let mut seen = Vec::new();
    for document in &index {
        seen.push(document.len());
    }
    assert_eq!(seen, vec![2, 1]);
    assert_eq!(documents(&index), vec![vec![(2, 1), (1, 1)], vec![(3, 3)]]);
    assert_eq!(documents(&index.clone()), documents(&index));
}

#[test]
fn defaults_are_empty() {
    assert_eq!(documents(&ForwardIndex::default()).len(), 0);
    let blocks = BlockForwardIndex::default();
    assert_eq!((blocks.data.len(), blocks.block_size), (0, 0));
    let document = BlockDocument::default();
    assert_eq!((document.terms.len(), document.docs_impacts.len()), (0, 0));
}

fn sample() -> ForwardIndex {
    ForwardIndex::from_documents(vec![
        vec![(1, 10), (4, 20)],
        vec![(4, 21)],
        vec![(0, 30), (4, 22)],
        vec![(4, 23), (1, 11)],
        vec![(1, 12)],
    ])
}

#[test]
fn documents_are_grouped_into_blocks() {
    let index = fwd2bfwd(&sample(), 4);
    assert_eq!(index.block_size, 4);
    assert_eq!(index.data.len(), 2);
    let terms: Vec<u16> = index.data[0].iter().map(|entry| entry.0).collect();
    assert_eq!(terms, vec![0, 1, 4]);
    // More than a quarter of four documents is dense.
    assert_eq!(sparse(&index.data[0][0].1), vec![(2, 30)]);
    assert_eq!(dense(&index.data[0][1].1), vec![10, 0, 0, 11]);
    assert_eq!(dense(&index.data[0][2].1), vec![20, 21, 22, 23]);
    assert_eq!(index.data[1].len(), 1);
    assert_eq!(index.data[1][0].0, 1);
    assert_eq!(sparse(&index.data[1][0].1), vec![(0, 12)]);
}

#[test]
fn blocks_stand_in_the_order_of_the_documents() {
    let all: Vec<Vec<(u32, u32)>> = (0..1000u32).map(|d| vec![(d, d % 256)]).collect();
    let index = fwd2bfwd_with_dense_ratio(&ForwardIndex::from_documents(all), 3, ratio(1.0));
    assert_eq!(index.data.len(), 334);
    for d in 0..1000usize {
        let (term, postings) = &index.data[d / 3][d % 3];
        assert_eq!(*term as usize, d);
        assert_eq!(sparse(postings), vec![((d % 3) as u8, (d % 256) as u8)]);
    }
}

#[test]
fn an_empty_index_has_no_blocks() {
    let index = fwd2bfwd(&ForwardIndex::default(), 8);
    assert_eq!((index.data.len(), index.block_size), (0, 8));
}

#[test]
fn the_ratio_decides_what_is_dense() {
    let zero = fwd2bfwd_with_dense_ratio(&sample(), 4, ratio(0.0));
    assert_eq!(zero.count_postings(), (0, 4));
    let half = fwd2bfwd_with_dense_ratio(&sample(), 4, ratio(0.5));
    assert_eq!(half.count_postings(), (3, 1));
    let full = fwd2bfwd_with_dense_ratio(&sample(), 4, ratio(1.0));
    assert_eq!(full.count_postings(), (4, 0));
    let quarter = fwd2bfwd(&sample(), 4);
    assert_eq!(quarter.count_postings(), (2, 2));
    let encoded = fwd2bfwd_with_dense_ratio(&sample(), 4, ratio(0.25));
    assert_eq!(encoded.count_postings(), (2, 2));
}

#[test]
fn a_term_twice_in_a_document_is_kept_sparsely_and_overwritten_densely() {
    let block = vec![vec![(3, 7), (3, 9)], vec![(3, 1)]];
    let entries = index_block(&block, 2, 3);
    assert_eq!(sparse(&entries[0].1), vec![(0, 7), (0, 9), (1, 1)]);
    let entries = index_block(&block, 2, 2);
    assert_eq!(dense(&entries[0].1), vec![9, 1]);
}

#[test]
fn large_values_keep_their_low_bits() {
    let entries = index_block(&[vec![(65536 + 5, 256 + 3), (6, 511)]], 1, 1);
    // Terms are ordered before they are cut to 16 bits.
    assert_eq!(entries[0].0, 6);
    assert_eq!(sparse(&entries[0].1), vec![(0, 255)]);
    assert_eq!(entries[1].0, 5);
    assert_eq!(sparse(&entries[1].1), vec![(0, 3)]);
    let mut block = vec![Vec::new(); 258];
    block[257] = vec![(1, 4)];
    let entries = index_block(&block, 300, 1);
    assert_eq!(sparse(&entries[0].1), vec![(1, 4)]);
    let entries = index_block(&block, 258, 0);
    let scores = dense(&entries[0].1);
    assert_eq!((scores.len(), scores[1], scores[257]), (258, 4, 0));
}

#[test]
fn blocks_are_indexed_one_by_one() {
    let all = vec![vec![(1, 1)], vec![(2, 2)], vec![(1, 3)]];
    let blocks = index_blocks(&all, 2, 1);
    assert_eq!(blocks.len(), 2);
    assert_eq!(blocks[0].len(), 2);
    assert_eq!(sparse(&blocks[1][0].1), vec![(0, 3)]);
}

#[test]
fn scores_are_inner_products_whatever_the_ratio() {
    let all: Vec<Vec<(u32, u32)>> = (0..37u32)
        .map(|d| (0..12).filter(|t| (d * 7 + t * 5) % 4 != 0).map(|t| (t, (d + t) % 9)).collect())
        .collect();
    let query: Vec<(u16, u8)> = vec![(0, 3), (2, 1), (3, 200), (7, 4), (11, 9), (40, 5)];
    let fwd = ForwardIndex::from_documents(all.clone());
    for value in [0.0f32, 0.1, 0.25, 0.6, 1.0] {
        let index = fwd2bfwd_with_dense_ratio(&fwd, 8, ratio(value));
        for (d, document) in all.iter().enumerate() {
            let expected: u32 = query
                .iter()
                .map(|(term, weight)| {
                    document
                        .iter()
                        .filter(|posting| posting.0 == *term as u32)
                        .map(|posting| posting.1 * *weight as u32)
                        .sum::<u32>()
                })
                .sum();
            let scores = block_score(&query, &index.data[d / 8], 8);
            assert_eq!(scores[d % 8] as u32, expected);
        }
        // The last block is not full.
        assert_eq!(block_score(&query, &index.data[4], 8)[5..], [0, 0, 0]);
    }
}

#[test]
fn a_score_is_the_sum_over_equal_terms() {
    let query = vec![(2u16, 3u8), (4, 10), (4, 1), (9, 7)];
    let block = vec![
        (1u16, Postings::Dense(vec![9, 9, 9])),
        (2, Postings::Sparse(vec![(1, 5), (0, 2), (1, 1)])),
        (4, Postings::Dense(vec![0, 4, 6])),
        (8, Postings::Sparse(vec![(2, 8)])),
    ];
    assert_eq!(block_score(&query, &block, 3), vec![6, 3 * 6 + 11 * 4, 11 * 6]);
    // The order of the pairs changes no score.
    let turned = vec![(2u16, Postings::Sparse(vec![(1, 1), (1, 5), (0, 2)]))];
    assert_eq!(block_score(&query, &turned, 3), vec![6, 18, 0]);
}

#[test]
fn large_scores_do_not_hide_terms() {
    let index =
        ForwardIndex::from_documents(vec![vec![(7, 300), (2, 1)], vec![(65535, u32::MAX)]]);
    let blocks = fwd2bfwd(&index, 2);
    let terms: Vec<u16> = blocks.data[0].iter().map(|entry| entry.0).collect();
    assert_eq!(terms, vec![2, 7, 65535]);
}
