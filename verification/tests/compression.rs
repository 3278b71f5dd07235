use bit_vec::BitVec;
use zip_huff::bits::{
    bit_at, bit_count, copy_bits, equal_bits, extend_bits, hash_bits, new_bits, push_bit, rebuilt,
};
use zip_huff::blob::{deserialize, document_from, serialize};
use zip_huff::codec::{decode_line, encode_line};
use zip_huff::compression::{
    compress, compress_tokens, extract, extract_tokens, CompressedData,
};
use zip_huff::table::{encoder_to_decoder, Encoder};
use zip_huff::error::HuffmanError;
use zip_huff::freqs::{char_frequencies, token_frequencies, word_frequencies, FrequencyMap};
use zip_huff::huffman::{huffman_tree, Tree};
use zip_huff::index::{mix, mix_bit, mix_char, Index, SEED};
use zip_huff::token::{chars_of, join_chars, join_words, separates, words_of, Token};

fn bools(v: &BitVec) -> Vec<bool> {
    (0..bit_count(v)).map(|i| bit_at(v, i)).collect()
}

fn from_bools(bits: &[bool]) -> BitVec {
    let mut v = new_bits();
    for bit in bits {
        push_bit(&mut v, *bit);
    }
    v
}

fn abcd_table() -> Encoder<char> {
    let mut freqs = FrequencyMap::new();
    freqs.insert('a', 40);
    freqs.insert('b', 35);
    freqs.insert('c', 20);
    freqs.insert('d', 5);
    huffman_tree(&freqs).unwrap().to_encoder()
}

#[test]
fn compress_decompress_test() {
    let lines = vec![
        "hey there! nice to meet you.".to_string(),
        "Serde is a framework for serializing and deserializing Rust data structures"
            .to_string(),
    ];

    let data = compress(&lines, char_frequencies, |line: &String| {
        line.chars().collect::<Vec<char>>()
    })
    .unwrap();
    let res_lines = extract(&data, |x: Vec<char>| x.into_iter().collect()).unwrap();
    assert_eq!(&lines, &res_lines);

    let data = compress(&lines, word_frequencies, |line: &String| {
        line.split_ascii_whitespace()
            .map(|token| token.to_string())
            .collect::<Vec<String>>()
    })
    .unwrap();
    let res_lines = extract(&data, |x: Vec<String>| x.join(" ")).unwrap();
    assert_eq!(&lines, &res_lines);
}

#[test]
fn round_trip_with_the_library_tokenisers() {
    let lines = vec![
        "the quick brown fox".to_string(),
        "".to_string(),
        "jumps over the lazy dog".to_string(),
        "the end".to_string(),
    ];
    let data = compress(&lines, char_frequencies, chars_of).unwrap();
    assert_eq!(extract(&data, join_chars).unwrap(), lines);
    let data = compress(&lines, word_frequencies, words_of).unwrap();
    assert_eq!(extract(&data, join_words).unwrap(), lines);
}

#[test]
fn character_mode_keeps_irregular_spacing() {
    let lines = vec!["  two  spaces\tand a tab ".to_string(), "\u{e9}t\u{e9} \u{1F600}".to_string()];
    let data = compress(&lines, char_frequencies, chars_of).unwrap();
    assert_eq!(extract(&data, join_chars).unwrap(), lines);
}

#[test]
fn word_mode_normalises_spacing() {
    let lines = vec!["  two  spaces\tand a tab ".to_string()];
    let data = compress(&lines, word_frequencies, words_of).unwrap();
    assert_eq!(
        extract(&data, join_words).unwrap(),
        vec!["two spaces and a tab".to_string()]
    );
}

#[test]
fn single_distinct_token_round_trips() {
    let lines = vec!["aaaa".to_string(), "a".to_string(), "".to_string(), "aa".to_string()];
    let data = compress(&lines, char_frequencies, chars_of).unwrap();
    assert_eq!(extract(&data, join_chars).unwrap(), lines);

    let lines = vec!["again again again".to_string(), "again".to_string()];
    let data = compress(&lines, word_frequencies, words_of).unwrap();
    assert_eq!(extract(&data, join_words).unwrap(), lines);
}

#[test]
fn single_leaf_gets_the_one_bit_code() {
    let tree = Tree::Leaf { freq: 3, token: 'a' };
    let table = tree.to_encoder();
    assert_eq!(table.len(), 1);
    assert_eq!(*table.token_at(0), 'a');
    assert_eq!(bools(table.code_at(0)), vec![false]);
    let line = encode_line(&table, &vec!['a', 'a', 'a']).unwrap();
    assert_eq!(bools(&line), vec![false, false, false]);
}

#[test]
fn code_table_follows_the_paths() {
    let table = abcd_table();
    assert_eq!(table.len(), 4);
    assert_eq!(bools(table.get(&'a').unwrap()), vec![false]);
    assert_eq!(bools(table.get(&'b').unwrap()), vec![true, true]);
    assert_eq!(bools(table.get(&'c').unwrap()), vec![true, false, true]);
    assert_eq!(bools(table.get(&'d').unwrap()), vec![true, false, false]);
    assert!(table.get(&'e').is_none());
    // leaves from left to right
    assert_eq!(*table.token_at(0), 'a');
    assert_eq!(*table.token_at(1), 'd');
    assert_eq!(*table.token_at(2), 'c');
    assert_eq!(*table.token_at(3), 'b');
}

#[test]
fn no_code_is_the_beginning_of_another() {
    let lines = vec!["a man a plan a canal panama".to_string(), "xyzzy".to_string()];
    let table = huffman_tree(&char_frequencies(&lines)).unwrap().to_encoder();
    for i in 0..table.len() {
        let short = bools(table.code_at(i));
        assert!(!short.is_empty());
        for j in 0..table.len() {
            if i != j {
                let long = bools(table.code_at(j));
                assert!(!long.starts_with(&short));
            }
        }
    }
}

#[test]
fn line_codec_packs_and_unpacks() {
    let table = abcd_table();
    let line = encode_line(&table, &vec!['b', 'a', 'd']).unwrap();
    assert_eq!(bools(&line), vec![true, true, false, true, false, false]);
    let decoder = encoder_to_decoder(&table);
    assert_eq!(decoder.len(), 4);
    assert_eq!(decode_line(&decoder, &line).unwrap(), vec!['b', 'a', 'd']);
    assert_eq!(decoder.get(&from_bools(&[true, true])), Some(&'b'));
    assert_eq!(decoder.get(&from_bools(&[true])), None);
}

#[test]
fn blank_line_is_no_bits() {
    let table = abcd_table();
    let line = encode_line(&table, &Vec::new()).unwrap();
    assert_eq!(bit_count(&line), 0);
    let decoder = encoder_to_decoder(&table);
    assert_eq!(decode_line(&decoder, &line).unwrap(), Vec::<char>::new());
}

#[test]
fn unknown_token_is_reported() {
    let table = abcd_table();
    assert_eq!(
        encode_line(&table, &vec!['a', 'z']).err(),
        Some(HuffmanError::TokenNotFound)
    );
    let lines = vec!["abc".to_string()];
    let blob = compress(
        &lines,
        |_: &Vec<String>| {
            let mut freqs = FrequencyMap::new();
            freqs.insert('a', 1);
            freqs.insert('b', 1);
            freqs
        },
        chars_of,
    );
    assert_eq!(blob, Err(HuffmanError::TokenNotFound));
}

#[test]
fn leftover_bits_are_corruption() {
    let table = abcd_table();
    let decoder = encoder_to_decoder(&table);
    let line = from_bools(&[false, true, false]);
    assert_eq!(
        decode_line(&decoder, &line).err(),
        Some(HuffmanError::DecodeCorruption)
    );
    let document = CompressedData { encoder: table, data: vec![from_bools(&[false]), line] };
    assert_eq!(extract_tokens(&document).err(), Some(HuffmanError::DecodeCorruption));
    let blob = serialize(&document).unwrap();
    assert_eq!(
        extract(&blob, join_chars),
        Err(HuffmanError::DecodeCorruption)
    );
}

#[test]
fn corpus_without_tokens_has_no_alphabet() {
    let lines = vec!["".to_string(), "".to_string()];
    assert_eq!(
        compress(&lines, char_frequencies, chars_of),
        Err(HuffmanError::EmptyAlphabet)
    );
    let lines = vec![" \t ".to_string()];
    assert_eq!(
        compress(&lines, word_frequencies, words_of),
        Err(HuffmanError::EmptyAlphabet)
    );
    let none: Vec<String> = Vec::new();
    assert_eq!(
        compress(&none, char_frequencies, chars_of),
        Err(HuffmanError::EmptyAlphabet)
    );
}

#[test]
fn truncated_blob_is_refused() {
    let lines = vec![
        "hey there! nice to meet you.".to_string(),
        "Serde is a framework for serializing and deserializing Rust data structures"
            .to_string(),
    ];
    let blob = compress(&lines, char_frequencies, chars_of).unwrap();
    for cut in 1..6 {
        let short = blob[..blob.len() - cut].to_vec();
        let result = extract(&short, join_chars);
        assert!(matches!(
            result,
            Err(HuffmanError::Serialization) | Err(HuffmanError::DecodeCorruption)
        ));
    }
    assert_eq!(
        extract(&Vec::new(), join_chars),
        Err(HuffmanError::Serialization)
    );
    assert_eq!(
        extract(&vec![0xc1, 0x00, 0xff], join_words),
        Err(HuffmanError::Serialization)
    );
}

#[test]
fn word_blob_is_no_character_blob() {
    let lines = vec!["alpha beta".to_string()];
    let blob = compress(&lines, word_frequencies, words_of).unwrap();
    assert_eq!(
        extract(&blob, join_chars),
        Err(HuffmanError::Serialization)
    );
}

#[test]
fn blob_round_trips_through_the_document() {
    let lines = vec![vec!['a', 'b'], vec![], vec!['b', 'b', 'c']];
    let freqs = token_frequencies(&lines);
    assert_eq!(freqs.get(&'b'), Some(3));
    let document = compress_tokens(&freqs, &lines).unwrap();
    let blob = serialize(&document).unwrap();
    let read: CompressedData<char> = deserialize(&blob).unwrap();
    assert_eq!(read.encoder.len(), document.encoder.len());
    for i in 0..read.encoder.len() {
        let code = document.encoder.get(read.encoder.token_at(i)).unwrap();
        assert!(equal_bits(code, read.encoder.code_at(i)));
    }
    assert_eq!(read.data, document.data);
    assert_eq!(extract_tokens(&read).unwrap(), lines);
}

#[test]
fn blob_is_the_same_on_every_run() {
    let lines = vec!["one two three two one".to_string(), "three".to_string()];
    let first = compress(&lines, word_frequencies, words_of).unwrap();
    let second = compress(&lines, word_frequencies, words_of).unwrap();
    assert_eq!(first, second);
}

#[test]
fn blob_is_a_map_and_a_list() {
    let lines = vec!["ab".to_string()];
    let blob = compress(&lines, char_frequencies, chars_of).unwrap();
    // [ {"a": [[0], 1], "b": [[1], 1]}, [ [[2], 2] ] ]
    assert_eq!(
        blob,
        vec![
            0x92, 0x82, 0xa1, b'a', 0x92, 0x91, 0x00, 0x01, 0xa1, b'b', 0x92, 0x91, 0x01, 0x01,
            0x91, 0x92, 0x91, 0x02, 0x02
        ]
    );
}

#[test]
fn record_with_a_short_vector_is_refused() {
    // a line that claims 40 bits and stores one block of 32
    let blob = vec![0x92, 0x81, 0xa1, b'a', 0x92, 0x91, 0x00, 0x01, 0x91, 0x92, 0x91, 0x00, 0x28];
    assert_eq!(
        extract(&blob, join_chars),
        Err(HuffmanError::Serialization)
    );
    let (table, lines): (std::collections::BTreeMap<String, BitVec>, Vec<BitVec>) =
        rmp_serde::from_slice(&blob).unwrap();
    assert!(rebuilt(&lines[0]).is_none());
    let document = document_from::<char>(table.into_iter().collect(), lines);
    assert_eq!(document.err(), Some(HuffmanError::Serialization));
}

#[test]
fn record_with_spare_blocks_is_made_canonical() {
    // a code of one bit that stores two blocks, the second with bits set
    let blob = vec![0x92, 0x81, 0xa1, b'a', 0x92, 0x92, 0x00, 0x07, 0x01, 0x91, 0x92, 0x91, 0x00, 0x02];
    let document: CompressedData<char> = deserialize(&blob).unwrap();
    assert!(equal_bits(document.encoder.code_at(0), &from_bools(&[false])));
    assert_eq!(join_chars_all(extract_tokens(&document).unwrap()), vec!["aa".to_string()]);
}

fn join_chars_all(lines: Vec<Vec<char>>) -> Vec<String> {
    lines.into_iter().map(join_chars).collect()
}

#[test]
fn bit_vectors_grow_copy_and_compare() {
    let mut v = new_bits();
    assert_eq!(bit_count(&v), 0);
    push_bit(&mut v, true);
    push_bit(&mut v, false);
    push_bit(&mut v, true);
    assert_eq!(bit_count(&v), 3);
    assert!(bit_at(&v, 0));
    assert!(!bit_at(&v, 1));
    assert!(bit_at(&v, 2));
    let copy = copy_bits(&v);
    assert!(equal_bits(&v, &copy));
    let mut longer = copy_bits(&v);
    extend_bits(&mut longer, &from_bools(&[false, false]));
    assert_eq!(bools(&longer), vec![true, false, true, false, false]);
    assert!(!equal_bits(&v, &longer));
    assert!(!equal_bits(&v, &from_bools(&[true, true, true])));
    assert_eq!(bools(&rebuilt(&longer).unwrap()), bools(&longer));
}

#[test]
fn tokenisers_split_and_joiners_join() {
    assert_eq!(chars_of(&"a b".to_string()), vec!['a', ' ', 'b']);
    assert_eq!(
        words_of(&" \tto  be\nor\r\x0cnot ".to_string()),
        vec!["to".to_string(), "be".to_string(), "or".to_string(), "not".to_string()]
    );
    assert_eq!(words_of(&"".to_string()), Vec::<String>::new());
    assert_eq!(words_of(&"a\u{b}b\u{a0}c".to_string()), vec!["a\u{b}b\u{a0}c".to_string()]);
    assert_eq!(join_chars(vec!['h', 'i']), "hi".to_string());
    assert_eq!(join_chars(Vec::new()), "".to_string());
    assert_eq!(
        join_words(vec!["to".to_string(), "be".to_string()]),
        "to be".to_string()
    );
    assert_eq!(join_words(vec!["one".to_string()]), "one".to_string());
    assert_eq!(join_words(Vec::new()), "".to_string());
    assert!(separates(' ') && separates('\t') && separates('\n'));
    assert!(separates('\r') && separates('\x0c'));
    assert!(!separates('\u{b}') && !separates('a') && !separates('\u{a0}'));
}

#[test]
fn tokens_have_texts() {
    assert_eq!('x'.to_text(), "x".to_string());
    assert_eq!(<char as Token>::from_text(&"x".to_string()), Some('x'));
    assert_eq!(<char as Token>::from_text(&"xy".to_string()), None);
    assert_eq!(<char as Token>::from_text(&"".to_string()), None);
    assert_eq!("word".to_string().to_text(), "word".to_string());
    assert_eq!(
        <String as Token>::from_text(&"word".to_string()),
        Some("word".to_string())
    );
    assert!('a'.same_as(&'a') && !'a'.same_as(&'b'));
    assert!("a".to_string().same_as(&"a".to_string()));
    assert!(!"a".to_string().same_as(&"ab".to_string()));
    assert_eq!('q'.duplicate(), 'q');
    assert_eq!("dup".to_string().duplicate(), "dup".to_string());
}

#[test]
fn errors_describe_themselves() {
    assert_eq!(
        HuffmanError::Serialization.message(),
        "the compressed data is malformed or truncated"
    );
    assert_eq!(HuffmanError::EmptyAlphabet.message(), "the input holds no token");
    assert_eq!(
        HuffmanError::TokenNotFound.message(),
        "a token is missing from the code table"
    );
    assert_eq!(
        HuffmanError::DecodeCorruption.message(),
        "the bit stream does not end on a code boundary"
    );
}

#[test]
fn hash_codes_follow_the_formula() {
    assert_eq!(SEED, 5381);
    assert_eq!(mix(5381, 97), 177_670);
    assert_eq!(mix(0x1_0000_0005, 0x2_0000_0007), 172);
    assert_eq!(mix_char(5381, 'a'), 177_670);
    assert_eq!(mix_bit(5381, false), 177_574);
    assert_eq!(mix_bit(5381, true), 177_575);
    assert_eq!('a'.hash_code(), 177_670);
    assert_eq!("a".to_string().hash_code(), 177_670);
    assert_eq!("ab".to_string().hash_code(), 5_863_208);
    assert_eq!("".to_string().hash_code(), 5381);
    assert_eq!(hash_bits(&from_bools(&[])), 5381);
    assert_eq!(hash_bits(&from_bools(&[true, false])), 177_575 * 33 + 1);

    let index = Index::new();
    assert!(index.bucket_of(7).is_none());
}

#[test]
fn tables_with_many_entries_find_every_token() {
    let words: Vec<String> = (0..500).map(|i| format!("w{}", i * 7919 % 1000)).collect();
    let lines = vec![words.join(" "), words[..50].join(" ")];
    let freqs = word_frequencies(&lines);
    assert_eq!(freqs.len(), 500);
    assert_eq!(freqs.get(&words[3]), Some(2));
    assert_eq!(freqs.get(&words[77]), Some(1));
    assert_eq!(freqs.get(&"absent".to_string()), None);
    let table = huffman_tree(&freqs).unwrap().to_encoder();
    let decoder = encoder_to_decoder(&table);
    for word in &words {
        let code = table.get(word).unwrap();
        assert_eq!(decoder.get(code), Some(word));
    }
    let blob = compress(&lines, word_frequencies, words_of).unwrap();
    assert_eq!(extract(&blob, join_words).unwrap(), lines);
}

#[test]
fn repeated_token_in_a_table_is_found_at_its_first_entry() {
    let mut table: Encoder<char> = Encoder::new();
    table.push('a', from_bools(&[false]));
    table.push('b', from_bools(&[true, false]));
    table.push('a', from_bools(&[true, true]));
    assert_eq!(bools(table.get(&'a').unwrap()), vec![false]);
    let decoder = encoder_to_decoder(&table);
    assert_eq!(decoder.get(&from_bools(&[true, true])), Some(&'a'));
    assert_eq!(decoder.get(&from_bools(&[false])).copied(), Some('a'));
}
