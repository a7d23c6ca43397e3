use ngram_trie::NGramTrie;
use ngram_trie::TrieError;

#[test]
fn fresh_trie_counts_zero() {
    let trie = NGramTrie::new(3);
    assert_eq!(trie.search(&[1, 2, 3]), Ok(0));
    assert_eq!(trie.search(&[0, 0, 0]), Ok(0));
    assert_eq!(trie.search(&[-7, 5, 2]), Ok(0));
}

#[test]
fn repeated_insert_counts_exactly() {
    let mut trie = NGramTrie::new(2);
    assert_eq!(trie.search(&[4, 9]), Ok(0));
    for k in 1..=5u64 {
        assert_eq!(trie.insert(&[4, 9]), Ok(()));
        assert_eq!(trie.search(&[4, 9]), Ok(k));
    }
    assert_eq!(trie.insertions(), 5);
}

#[test]
fn insert_order_is_commutative() {
    let a = [1, 2, 3];
    let b = [1, 5, 3];
    let mut one = NGramTrie::new(3);
    assert_eq!(one.insert(&a), Ok(()));
    assert_eq!(one.insert(&b), Ok(()));
    assert_eq!(one.insert(&a), Ok(()));
    let mut two = NGramTrie::new(3);
    assert_eq!(two.insert(&a), Ok(()));
    assert_eq!(two.insert(&a), Ok(()));
    assert_eq!(two.insert(&b), Ok(()));
    assert_eq!(one.search(&a), two.search(&a));
    assert_eq!(one.search(&b), two.search(&b));
    assert_eq!(one.search(&a), Ok(2));
    assert_eq!(one.search(&b), Ok(1));
    assert_eq!(one.search(&[9, 9, 9]), two.search(&[9, 9, 9]));
}

#[test]
fn shared_prefix_counts_are_independent() {
    let mut trie = NGramTrie::new(4);
    assert_eq!(trie.insert(&[1, 2, 3, 4]), Ok(()));
    assert_eq!(trie.insert(&[1, 2, 3, 4]), Ok(()));
    assert_eq!(trie.insert(&[1, 2, 3, 5]), Ok(()));
    assert_eq!(trie.search(&[1, 2, 3, 4]), Ok(2));
    assert_eq!(trie.search(&[1, 2, 3, 5]), Ok(1));
    assert_eq!(trie.search(&[1, 2, 4, 5]), Ok(0));
}

#[test]
fn wrong_length_always_fails() {
    for len in 1..=4usize {
        let mut trie = NGramTrie::new(len);
        for wrong in 0..=6usize {
            if wrong == len {
                continue;
            }
            let seq = vec![1; wrong];
            assert_eq!(trie.insert(&seq), Err(TrieError::LengthMismatch));
            assert_eq!(trie.search(&seq), Err(TrieError::LengthMismatch));
        }
    }
}

#[test]
fn search_never_mutates() {
    let mut trie = NGramTrie::new(3);
    assert_eq!(trie.insert(&[1, 2, 3]), Ok(()));
    for _ in 0..50 {
        assert_eq!(trie.search(&[1, 2, 3]), Ok(1));
        assert_eq!(trie.search(&[1, 2, 4]), Ok(0));
        assert_eq!(trie.search(&[5, 5, 5]), Ok(0));
    }
    assert_eq!(trie.insertions(), 1);
    assert_eq!(trie.insert(&[1, 2, 3]), Ok(()));
    assert_eq!(trie.search(&[1, 2, 3]), Ok(2));
}

#[test]
fn end_to_end_length_three() {
    let mut trie = NGramTrie::new(3);
    assert_eq!(trie.insert(&[1, 2, 3]), Ok(()));
    assert_eq!(trie.insert(&[1, 2, 3]), Ok(()));
    assert_eq!(trie.insert(&[1, 2, 4]), Ok(()));
    assert_eq!(trie.insert(&[2, 3, 4]), Ok(()));
    assert_eq!(trie.search(&[1, 2, 3]), Ok(2));
    assert_eq!(trie.search(&[1, 2, 4]), Ok(1));
    assert_eq!(trie.search(&[2, 3, 4]), Ok(1));
    assert_eq!(trie.search(&[3, 4, 5]), Ok(0));
}

#[test]
fn demo_corpus_counts() {
    let mut trie = NGramTrie::new(4);
    let grams: [[i32; 4]; 10] = [
        [1, 2, 3, 4],
        [1, 2, 3, 4],
        [1, 2, 3, 5],
        [1, 2, 4, 5],
        [2, 3, 4, 5],
        [3, 4, 5, 6],
        [4, 5, 6, 7],
        [1, 3, 5, 7],
        [2, 4, 6, 8],
        [1, 2, 3, 4],
    ];
    for g in grams.iter() {
        assert_eq!(trie.insert(g), Ok(()));
    }
    assert_eq!(trie.search(&[1, 2, 3, 4]), Ok(3));
    assert_eq!(trie.search(&[1, 2, 3, 5]), Ok(1));
    assert_eq!(trie.search(&[1, 2, 4, 5]), Ok(1));
    assert_eq!(trie.search(&[2, 3, 4, 5]), Ok(1));
    assert_eq!(trie.search(&[3, 4, 5, 6]), Ok(1));
    assert_eq!(trie.search(&[4, 5, 6, 7]), Ok(1));
    assert_eq!(trie.search(&[1, 3, 5, 7]), Ok(1));
    assert_eq!(trie.search(&[2, 4, 6, 8]), Ok(1));
    assert_eq!(trie.search(&[5, 6, 7, 8]), Ok(0));
    assert_eq!(trie.insertions(), 10);
    assert_eq!(trie.ngram_len(), 4);
}

#[test]
fn negative_tokens_are_ordinary() {
    let mut trie = NGramTrie::new(2);
    assert_eq!(trie.insert(&[-1, i32::MIN]), Ok(()));
    assert_eq!(trie.search(&[-1, i32::MIN]), Ok(1));
    assert_eq!(trie.search(&[-1, i32::MAX]), Ok(0));
}
