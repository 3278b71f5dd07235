use zip_huff::error::HuffmanError;
use zip_huff::freqs::{char_frequencies, word_frequencies, FrequencyMap};
use zip_huff::huffman::{huffman_tree, Tree};

fn abcd() -> FrequencyMap<char> {
    let mut freqs = FrequencyMap::new();
    freqs.insert('a', 40);
    freqs.insert('b', 35);
    freqs.insert('c', 20);
    freqs.insert('d', 5);
    freqs
}

#[test]
fn learn_frequencies_test() {
    let input = vec!["this is an epic sentence".to_string(), "xyz ".to_string()];
    let freqs = char_frequencies(&input);
    assert_eq!(freqs.get(&' '), Some(5));
    assert_eq!(freqs.get(&'t'), Some(2));
    assert_eq!(freqs.get(&'i'), Some(3));
    assert_eq!(freqs.get(&'p'), Some(1));
    assert_eq!(freqs.get(&'z'), Some(1));
    assert_eq!(freqs.len(), 13);
}

#[test]
fn huffman_tree_test() {
    let freqs = abcd();

    let tree = huffman_tree(&freqs).unwrap();
    assert_eq!(tree.freq(), 100);

    // the most frequent character only requires 1 bit
    assert_eq!(tree.left().and_then(|n| n.token()), Some('a'));
    assert_eq!(tree.left().map(|n| n.freq()), Some(40));

    // the second most frequent character requires 2 bits
    assert_eq!(
        tree.right().and_then(|t| t.right()).and_then(|n| n.token()),
        Some('b')
    );
    assert_eq!(
        tree.right().and_then(|t| t.right()).map(|n| n.freq()),
        Some(35)
    );

    // the least frequent characters require 3 bits
    assert_eq!(
        tree.right()
            .and_then(|t| t.left())
            .and_then(|t| t.left())
            .and_then(|n| n.token()),
        Some('d')
    );
    assert_eq!(
        tree.right()
            .and_then(|t| t.left())
            .and_then(|t| t.left())
            .map(|n| n.freq()),
        Some(5)
    );

    assert_eq!(
        tree.right()
            .and_then(|t| t.left())
            .and_then(|t| t.right())
            .and_then(|n| n.token()),
        Some('c')
    );
    assert_eq!(
        tree.right()
            .and_then(|t| t.left())
            .and_then(|t| t.right())
            .map(|n| n.freq()),
        Some(20)
    );
}

#[test]
fn tree_is_the_same_whatever_order_the_entries_came_in_when_weights_differ() {
    let mut freqs = FrequencyMap::new();
    freqs.insert('d', 5);
    freqs.insert('b', 35);
    freqs.insert('a', 40);
    freqs.insert('c', 20);
    let tree = huffman_tree(&freqs).unwrap();
    assert_eq!(tree, huffman_tree(&abcd()).unwrap());
}

#[test]
fn inner_weights_are_sums() {
    let tree = huffman_tree(&abcd()).unwrap();
    let right = tree.right().unwrap();
    assert_eq!(right.freq(), 60);
    assert_eq!(right.left().unwrap().freq(), 25);
    assert_eq!(right.token(), None);
    assert!(tree.left().unwrap().left().is_none());
    assert!(tree.left().unwrap().right().is_none());
}

#[test]
fn empty_map_has_no_tree() {
    let freqs: FrequencyMap<char> = FrequencyMap::new();
    assert_eq!(huffman_tree(&freqs), Err(HuffmanError::EmptyAlphabet));
}

#[test]
fn single_token_gives_a_single_leaf() {
    let mut freqs = FrequencyMap::new();
    freqs.insert("only".to_string(), 7);
    let tree = huffman_tree(&freqs).unwrap();
    assert_eq!(tree, Tree::Leaf { freq: 7, token: "only".to_string() });
    assert_eq!(tree.token(), Some("only".to_string()));
    assert!(tree.left().is_none());
    assert!(tree.right().is_none());
}

#[test]
fn equal_weights_merge_in_order_of_entry() {
    let mut freqs = FrequencyMap::new();
    freqs.insert('x', 1);
    freqs.insert('y', 1);
    freqs.insert('z', 1);
    // x and y are merged first; z, which entered before their node, is the
    // lighter of the last two and goes left.
    let tree = huffman_tree(&freqs).unwrap();
    assert_eq!(tree.freq(), 3);
    assert_eq!(tree.left().and_then(|n| n.token()), Some('z'));
    let node = tree.right().unwrap();
    assert_eq!(node.freq(), 2);
    assert_eq!(node.left().and_then(|n| n.token()), Some('x'));
    assert_eq!(node.right().and_then(|n| n.token()), Some('y'));
}

#[test]
fn zero_counts_get_leaves_too() {
    let mut freqs = FrequencyMap::new();
    freqs.insert('p', 0);
    freqs.insert('q', 3);
    let tree = huffman_tree(&freqs).unwrap();
    assert_eq!(tree.freq(), 3);
    assert_eq!(tree.left().and_then(|n| n.token()), Some('p'));
    assert_eq!(tree.right().and_then(|n| n.token()), Some('q'));
}

#[test]
fn frequency_map_insert_replaces_and_reports() {
    let mut freqs = FrequencyMap::new();
    assert!(freqs.is_empty());
    assert_eq!(freqs.insert('a', 1), None);
    assert_eq!(freqs.insert('a', 9), Some(1));
    assert_eq!(freqs.get(&'a'), Some(9));
    assert_eq!(freqs.get(&'b'), None);
    assert_eq!(freqs.len(), 1);
    assert!(!freqs.is_empty());
    assert_eq!(*freqs.token_at(0), 'a');
    assert_eq!(freqs.count_at(0), 9);
}

#[test]
fn frequency_map_add_and_merge() {
    let mut left = FrequencyMap::new();
    left.add('a', 2);
    left.add('b', 1);
    left.add('a', 3);
    let mut right = FrequencyMap::new();
    right.add('c', 4);
    right.add('a', 1);
    left.merge(&right);
    assert_eq!(left.get(&'a'), Some(6));
    assert_eq!(left.get(&'b'), Some(1));
    assert_eq!(left.get(&'c'), Some(4));
    assert_eq!(left.len(), 3);
    // entries stay in the order in which the tokens were first seen
    assert_eq!(*left.token_at(0), 'a');
    assert_eq!(*left.token_at(1), 'b');
    assert_eq!(*left.token_at(2), 'c');
}

#[test]
fn counting_ignores_the_order_of_the_lines() {
    let lines = vec!["abc".to_string(), "".to_string(), "cab cab".to_string(), "b".to_string()];
    let shuffled = vec!["b".to_string(), "cab cab".to_string(), "abc".to_string(), "".to_string()];
    let one = char_frequencies(&lines);
    let two = char_frequencies(&shuffled);
    assert_eq!(one.len(), two.len());
    for i in 0..one.len() {
        assert_eq!(two.get(one.token_at(i)), Some(one.count_at(i)));
    }
    assert_eq!(one.get(&'a'), Some(3));
    assert_eq!(one.get(&'b'), Some(4));
    assert_eq!(one.get(&'c'), Some(3));
    assert_eq!(one.get(&' '), Some(1));

    let one = word_frequencies(&lines);
    let two = word_frequencies(&shuffled);
    assert_eq!(one.len(), 3);
    assert_eq!(two.len(), 3);
    assert_eq!(one.get(&"cab".to_string()), Some(2));
    assert_eq!(two.get(&"cab".to_string()), Some(2));
    assert_eq!(two.get(&"abc".to_string()), Some(1));
    assert_eq!(two.get(&"b".to_string()), Some(1));
}

#[test]
fn counting_in_chunks_and_merging_gives_the_counts_of_one_pass() {
    let lines = vec!["to be or".to_string(), "not to be".to_string(), "that is".to_string()];
    let whole = word_frequencies(&lines);
    let mut merged = word_frequencies(&lines[..1].to_vec());
    merged.merge(&word_frequencies(&lines[1..].to_vec()));
    assert_eq!(whole.len(), merged.len());
    for i in 0..whole.len() {
        assert_eq!(merged.get(whole.token_at(i)), Some(whole.count_at(i)));
    }
    assert_eq!(whole.get(&"to".to_string()), Some(2));
    assert_eq!(whole.get(&"be".to_string()), Some(2));
    assert_eq!(whole.get(&"is".to_string()), Some(1));
}

#[test]
fn empty_corpus_counts_nothing() {
    let freqs = char_frequencies(&Vec::new());
    assert!(freqs.is_empty());
    let freqs = word_frequencies(&vec!["   ".to_string(), "".to_string()]);
    assert!(freqs.is_empty());
}

fn weighted_length(freqs: &FrequencyMap<char>) -> u64 {
    let table = huffman_tree(freqs).unwrap().to_encoder();
    (0..freqs.len())
        .map(|i| {
            let code = table.get(freqs.token_at(i)).unwrap();
            freqs.count_at(i) * code.len() as u64
        })
        .sum()
}

#[test]
fn weighted_length_of_the_example() {
    // 40 * 1 + 35 * 2 + 20 * 3 + 5 * 3
    assert_eq!(weighted_length(&abcd()), 185);
}

/// The least weighted length over all ways to merge the weights pair by
/// pair, found by trying them all.
fn least_by_search(weights: Vec<u64>) -> u64 {
    if weights.len() <= 1 {
        return 0;
    }
    let mut least = u64::MAX;
    for i in 0..weights.len() {
        for j in i + 1..weights.len() {
            let mut rest: Vec<u64> = weights
                .iter()
                .enumerate()
                .filter(|(k, _)| *k != i && *k != j)
                .map(|(_, w)| *w)
                .collect();
            rest.push(weights[i] + weights[j]);
            least = least.min(weights[i] + weights[j] + least_by_search(rest));
        }
    }
    least
}

#[test]
fn no_way_of_merging_is_shorter() {
    let samples: Vec<Vec<u64>> = vec![
        vec![40, 35, 20, 5],
        vec![1, 1, 1, 1, 1],
        vec![1, 2, 4, 8, 16, 32],
        vec![7, 7, 3, 3, 3, 0],
        vec![10, 9, 8, 1, 1, 1],
        vec![5, 5],
    ];
    for weights in samples {
        let mut freqs = FrequencyMap::new();
        for (i, weight) in weights.iter().enumerate() {
            freqs.insert((b'a' + i as u8) as char, *weight);
        }
        assert_eq!(weighted_length(&freqs), least_by_search(weights));
    }
}
