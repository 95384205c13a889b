use mdma::builder::{build_dictionary, initialize, MdmaIndex, Word};
use mdma::entropy_ranking::{rank, update_model};
use mdma::match_finder::{generate, Match};
use mdma::parser::{decode, encode_dict, parse, tokens_to_bytes};
use mdma::suffix_array::build_lcp_array;

/// A corpus with one strongly repeated word: 8 copies of the 32 distinct
/// bytes 0..32, followed by the same bytes reversed so that no symbol is
/// consumed entirely.
fn repeated_word_corpus() -> Vec<u8> {
    let mut buf = Vec::new();
    for _ in 0..8 {
        for b in 0u8..32 {
            buf.push(b);
        }
    }
    for b in (0u8..32).rev() {
        buf.push(b);
    }
    buf
}

fn dict_literal_bytes(dict: &[Word], index: &MdmaIndex) -> Vec<Vec<u8>> {
    dict.iter()
        .map(|w| index.buf[w.location..w.location + w.len as usize].to_vec())
        .collect()
}

#[test]
fn empty_corpus_builds_nothing() {
    let mut index = initialize(Vec::new());
    let dict = build_dictionary(&mut index);
    assert!(dict.is_empty());
    let tokens = parse(&dict, &index);
    assert!(tokens.is_empty());
    let file = encode_dict(&dict, &index);
    assert_eq!(file, vec![0, 0, 0, 0]);
    let decoded = decode(&tokens, &dict_literal_bytes(&dict, &index)).unwrap();
    assert!(decoded.is_empty());
}

#[test]
fn all_distinct_bytes_yield_literals() {
    // 256 distinct bytes: no candidate of length >= 2 occurs twice, so the
    // dictionary is empty and the stream is 256 literal tokens
    let buf: Vec<u8> = (0u8..=255).collect();
    let mut index = initialize(buf.clone());
    let dict = build_dictionary(&mut index);
    assert!(dict.is_empty());
    let tokens = parse(&dict, &index);
    assert_eq!(tokens.len(), 256);
    for (i, t) in tokens.iter().enumerate() {
        assert_eq!(*t as usize, i);
    }
    let decoded = decode(&tokens, &dict_literal_bytes(&dict, &index)).unwrap();
    assert_eq!(decoded, buf);
}

#[test]
fn tiny_corpus_gains_nothing() {
    // "abababab": "ab" is counted 4 times and "abab" twice, but on 8 bytes
    // the fixed dictionary overhead of 8·(len+1) bits exceeds any gain, so
    // no word is committed and the stream is all literals
    let buf: Vec<u8> = b"abababab".to_vec();
    let mut index = initialize(buf.clone());
    let dict = build_dictionary(&mut index);
    assert!(dict.is_empty());
    assert_eq!(index.n, 8);
    for p in 0..8 {
        assert_eq!(index.offsets[p], 7 - p as i32);
    }
    let tokens = parse(&dict, &index);
    assert_eq!(tokens, vec![97, 98, 97, 98, 97, 98, 97, 98]);
    let decoded = decode(&tokens, &dict_literal_bytes(&dict, &index)).unwrap();
    assert_eq!(decoded, buf);
}

#[test]
fn rank_rejects_rare_candidate() {
    // a candidate whose occurrences have been consumed down to fewer than 2
    // is invalidated; here a fabricated candidate over a single suffix
    let buf: Vec<u8> = b"abababab".to_vec();
    let index = initialize(buf);
    let mut m = Match { self_ref: true, is_valid: true, sa_index: 0, sa_count: 1, len: 2 };
    let w = rank(&mut m, &index);
    assert!(w.is_none());
    assert!(!m.is_valid);
}

#[test]
fn rank_accepts_repeated_word() {
    let buf = repeated_word_corpus();
    let index = initialize(buf);
    let lcp = build_lcp_array(&index.buf, &index.sa);
    let mut matches: Vec<Match> = Vec::new();
    generate(&mut matches, lcp);
    let mut m = *matches.iter().find(|m| m.len == 32 && m.sa_count == 8).unwrap();
    let w = rank(&mut m, &index).unwrap();
    assert_eq!(w.count, 8);
    assert_eq!(w.len, 32);
    assert_eq!(w.location, 0);
    assert!(w.rank > 0);
    assert!(m.is_valid);
}

#[test]
fn driver_commits_repeated_word() {
    let buf = repeated_word_corpus();
    let mut index = initialize(buf.clone());
    let dict = build_dictionary(&mut index);
    // exactly the 32-byte word, credited 8 substitutions
    assert_eq!(dict.len(), 1);
    assert_eq!(dict[0].len, 32);
    assert_eq!(dict[0].count, 8);
    assert_eq!(dict[0].location, 0);
    assert!(dict[0].rank > 0);
    // residual size: 288 - 8·31
    assert_eq!(index.n, 40);
    // token stream: 8 word tokens and 32 literals
    let tokens = parse(&dict, &index);
    assert_eq!(tokens.len(), 40);
    for k in 0..8 {
        assert_eq!(tokens[k], 256);
    }
    for k in 0..32 {
        assert_eq!(tokens[8 + k], 31 - k as u16);
    }
    let decoded = decode(&tokens, &dict_literal_bytes(&dict, &index)).unwrap();
    assert_eq!(decoded, buf);
}

#[test]
fn dictionary_file_layout() {
    let buf = repeated_word_corpus();
    let mut index = initialize(buf);
    let dict = build_dictionary(&mut index);
    let file = encode_dict(&dict, &index);
    // count 1, length 32, then the word's 32 literal bytes
    let mut expected: Vec<u8> = vec![0, 0, 0, 1, 0, 32];
    for b in 0u8..32 {
        expected.push(b);
    }
    assert_eq!(file, expected);
}

#[test]
fn committed_words_meet_floor_properties() {
    // every committed word has at least 2 recorded occurrences and had a
    // strictly positive rank when it was selected
    let buf = repeated_word_corpus();
    let mut index = initialize(buf);
    let dict = build_dictionary(&mut index);
    assert!(!dict.is_empty());
    for w in &dict {
        assert!(w.count >= 2);
        assert!(w.rank > 0);
        assert!(w.len >= 2);
    }
}

#[test]
fn residual_size_accounting() {
    // n shrinks by exactly count·(len-1) per commit and never goes negative
    let buf = repeated_word_corpus();
    let n0 = buf.len() as u32;
    let mut index = initialize(buf);
    let dict = build_dictionary(&mut index);
    let mut expected = n0;
    for w in &dict {
        expected -= w.count * (w.len as u32 - 1);
    }
    assert_eq!(index.n, expected);
    assert!(index.n >= 1);
}

#[test]
fn build_twice_is_identical() {
    // the builder is a pure function of the corpus bytes
    let buf = repeated_word_corpus();
    let mut index1 = initialize(buf.clone());
    let dict1 = build_dictionary(&mut index1);
    let tokens1 = parse(&dict1, &index1);
    let mut index2 = initialize(buf);
    let dict2 = build_dictionary(&mut index2);
    let tokens2 = parse(&dict2, &index2);
    assert_eq!(dict1.len(), dict2.len());
    for (a, b) in dict1.iter().zip(dict2.iter()) {
        assert_eq!(a.rank, b.rank);
        assert_eq!(a.location, b.location);
        assert_eq!(a.count, b.count);
        assert_eq!(a.len, b.len);
        assert_eq!(a.sa_index, b.sa_index);
        assert_eq!(a.sa_count, b.sa_count);
    }
    assert_eq!(tokens1, tokens2);
}

#[test]
fn round_trip_on_mixed_text() {
    // a small text with several overlapping repeats
    let buf: Vec<u8> = b"the quick brown fox jumps over the lazy dog; \
the quick brown fox jumps over the lazy dog; \
the quick brown fox jumps over the lazy dog; \
the quick brown fox jumps over the lazy dog"
        .to_vec();
    let mut index = initialize(buf.clone());
    let dict = build_dictionary(&mut index);
    let tokens = parse(&dict, &index);
    let decoded = decode(&tokens, &dict_literal_bytes(&dict, &index)).unwrap();
    assert_eq!(decoded, buf);
    for w in &dict {
        assert!(w.count >= 2);
        assert!(w.rank > 0);
    }
}

#[test]
fn coverage_partitions_the_buffer() {
    // after the driver terminates, consumed positions carry word tokens that
    // tile the buffer in word-length spans; free positions report the exact
    // distance to the next consumed position
    let buf = repeated_word_corpus();
    let mut index = initialize(buf);
    let dict = build_dictionary(&mut index);
    let n = index.offsets.len();
    let mut p = 0;
    while p < n {
        let v = index.offsets[p];
        if v < 0 {
            let w = (-v - 256) as usize;
            assert!(w < dict.len());
            let len = dict[w].len as usize;
            assert!(p + len <= n);
            // the whole span carries the same token, and its bytes equal the
            // word's bytes
            for k in 0..len {
                assert_eq!(index.offsets[p + k], v);
                assert_eq!(index.buf[p + k], index.buf[dict[w].location + k]);
            }
            p += len;
        } else {
            // distance to the next consumed position
            let mut q = p + 1;
            while q < n && index.offsets[q] >= 0 {
                q += 1;
            }
            assert_eq!(v as usize, q - p - 1);
            p += 1;
        }
    }
}

#[test]
fn update_model_subtracts_word_counts() {
    let buf: Vec<u8> = b"abcabcabc".to_vec();
    let mut index = initialize(buf);
    assert_eq!(index.model[b'a' as usize], 3);
    let word = Word { rank: 1, location: 0, sa_index: 0, sa_count: 2, count: 2, len: 3 };
    update_model(&word, &mut index);
    assert_eq!(index.model[b'a' as usize], 1);
    assert_eq!(index.model[b'b' as usize], 1);
    assert_eq!(index.model[b'c' as usize], 1);
    assert_eq!(index.n, 9 - 2 * 2);
}

#[test]
fn tie_breaks_to_earliest_candidate() {
    // two 16-byte words over disjoint alphabets with exactly symmetric
    // statistics: 8 copies each, every symbol appearing once more in a
    // reversed tail. Their ranks are exactly equal in the first round, so
    // the strict comparison keeps the earlier-emitted candidate - the one
    // over the lexicographically smaller alphabet.
    let mut buf: Vec<u8> = Vec::new();
    for _ in 0..8 {
        for b in 0u8..16 {
            buf.push(b);
        }
    }
    for _ in 0..8 {
        for b in 16u8..32 {
            buf.push(b);
        }
    }
    for b in (0u8..16).rev() {
        buf.push(b);
    }
    for b in (16u8..32).rev() {
        buf.push(b);
    }
    let mut index = initialize(buf.clone());
    let dict = build_dictionary(&mut index);
    assert_eq!(dict.len(), 2);
    assert_eq!(dict[0].location, 0);
    assert_eq!(dict[0].len, 16);
    assert_eq!(dict[0].count, 8);
    assert_eq!(dict[1].location, 128);
    assert_eq!(dict[1].len, 16);
    assert_eq!(dict[1].count, 8);
    let tokens = parse(&dict, &index);
    let decoded = decode(&tokens, &dict_literal_bytes(&dict, &index)).unwrap();
    assert_eq!(decoded, buf);
}

#[test]
fn tokens_to_bytes_is_big_endian() {
    let tokens: Vec<u16> = vec![0, 97, 256, 257, 65535];
    let bytes = tokens_to_bytes(&tokens);
    assert_eq!(bytes, vec![0, 0, 0, 97, 1, 0, 1, 1, 255, 255]);
}

#[test]
fn decode_rejects_out_of_range_token() {
    let tokens: Vec<u16> = vec![97, 300];
    let words: Vec<Vec<u8>> = Vec::new();
    assert!(decode(&tokens, &words).is_none());
}
