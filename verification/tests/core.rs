use mdma::builder::initialize;
use mdma::counting::count;
use mdma::fast_log2::{log2_q16, xlog2_q16};
use mdma::match_finder::{generate, Match};
use mdma::suffix_array::{build_lcp_array, build_suffix_array};

#[test]
fn suffix_array_of_banana() {
    let buf: Vec<u8> = b"banana".to_vec();
    let sa = build_suffix_array(&buf);
    assert_eq!(sa, vec![5, 3, 1, 0, 4, 2]);
}

#[test]
fn lcp_array_of_banana() {
    let buf: Vec<u8> = b"banana".to_vec();
    let sa = build_suffix_array(&buf);
    let lcp = build_lcp_array(&buf, &sa);
    assert_eq!(lcp, vec![1, 3, 0, 0, 2, 0]);
}

#[test]
fn suffix_array_of_empty_buffer() {
    let buf: Vec<u8> = Vec::new();
    let sa = build_suffix_array(&buf);
    assert!(sa.is_empty());
    let lcp = build_lcp_array(&buf, &sa);
    assert!(lcp.is_empty());
}

#[test]
fn log2_exact_on_powers_of_two() {
    assert_eq!(log2_q16(1), 0);
    assert_eq!(log2_q16(2), 65536);
    assert_eq!(log2_q16(4), 131072);
    assert_eq!(log2_q16(1024), 10 * 65536);
}

#[test]
fn log2_of_three_and_five() {
    // exact values of the Q16 approximation; true log2(3) is about 103872.3/2^16
    assert_eq!(log2_q16(3), 103872);
    // true log2(5) is about 152169.9/2^16; the approximation stays within a
    // fraction of a percent
    assert_eq!(log2_q16(5), 151632);
}

#[test]
fn xlog2_exact_on_power_of_two() {
    assert_eq!(xlog2_q16(8), 8 * 3 * 65536);
    assert_eq!(xlog2_q16(1), 0);
}

#[test]
fn generate_finds_ab_candidates() {
    // corpus "abababab": suffix array is [6,4,2,0,7,5,3,1]
    let buf: Vec<u8> = b"abababab".to_vec();
    let index = initialize(buf.clone());
    assert_eq!(index.sa, vec![6, 4, 2, 0, 7, 5, 3, 1]);
    let lcp = build_lcp_array(&index.buf, &index.sa);
    let mut matches: Vec<Match> = Vec::new();
    generate(&mut matches, lcp);
    // the candidate "ab": length 2 over the four 'a'-suffixes
    assert!(matches.iter().any(|m| m.len == 2 && m.sa_count == 4));
    // the candidate "abab": length 4 over three suffixes
    assert!(matches.iter().any(|m| m.len == 4 && m.sa_count == 3));
    // every emitted candidate starts valid, with a usable range
    for m in &matches {
        assert!(m.is_valid);
        assert!(m.self_ref);
        assert!(m.len >= 2);
        assert!(m.sa_count >= 2);
    }
}

#[test]
fn count_ab_occurrences() {
    // "ab" occurs 4 times non-overlapping at 0, 2, 4, 6
    let buf: Vec<u8> = b"abababab".to_vec();
    let index = initialize(buf);
    let lcp = build_lcp_array(&index.buf, &index.sa);
    let mut matches: Vec<Match> = Vec::new();
    generate(&mut matches, lcp);
    let mut m = *matches.iter().find(|m| m.len == 2 && m.sa_count == 4).unwrap();
    let (c, loc) = count(&mut m, &index);
    assert_eq!(c, 4);
    assert_eq!(loc, 0);
}

#[test]
fn count_abab_resolves_self_overlap() {
    // "abab" occurs at 0, 2, 4; greedy overlap resolution keeps 0 and 4
    let buf: Vec<u8> = b"abababab".to_vec();
    let index = initialize(buf);
    let lcp = build_lcp_array(&index.buf, &index.sa);
    let mut matches: Vec<Match> = Vec::new();
    generate(&mut matches, lcp);
    let mut m = *matches.iter().find(|m| m.len == 4 && m.sa_count == 3).unwrap();
    let (c, loc) = count(&mut m, &index);
    assert_eq!(c, 2);
    assert_eq!(loc, 0);
    // an overlap was seen, so the flag stays set
    assert!(m.self_ref);
}

#[test]
fn count_fast_after_overlap_flag_clears() {
    // "ab" never overlaps itself: the first scan clears the flag, and the
    // plain scan afterwards reports the same count and location
    let buf: Vec<u8> = b"abababab".to_vec();
    let index = initialize(buf);
    let lcp = build_lcp_array(&index.buf, &index.sa);
    let mut matches: Vec<Match> = Vec::new();
    generate(&mut matches, lcp);
    let mut m = *matches.iter().find(|m| m.len == 2 && m.sa_count == 4).unwrap();
    let (c1, loc1) = count(&mut m, &index);
    assert!(!m.self_ref);
    let (c2, loc2) = count(&mut m, &index);
    assert_eq!((c1, loc1), (c2, loc2));
}

#[test]
fn initialize_builds_model_and_offsets() {
    let buf: Vec<u8> = b"abababab".to_vec();
    let index = initialize(buf);
    assert_eq!(index.n, 8);
    assert_eq!(index.model[b'a' as usize], 4);
    assert_eq!(index.model[b'b' as usize], 4);
    assert_eq!(index.model[0], 0);
    // every position initially reports "free up to the end"
    for p in 0..8 {
        assert_eq!(index.offsets[p], 7 - p as i32);
    }
}
