use lmsg_rs::lmsg::{compress, compress_multiple, compress_multiple_raw, compress_raw};
use lmsg_rs::packed::IntVector;

fn plain(rules: &Vec<IntVector>) -> Vec<Vec<usize>> {
    rules.iter().map(|r| r.to_vec()).collect()
}

fn expand_symbol(rules: &Vec<Vec<usize>>, symbol: usize, out: &mut Vec<usize>) {
    if symbol < 256 {
        out.push(symbol);
    } else {
        for &inner in &rules[symbol - 256] {
            expand_symbol(rules, inner, out);
        }
    }
}

fn expand(rules: &Vec<Vec<usize>>) -> Vec<usize> {
    let mut out = Vec::new();
    for &symbol in rules.last().unwrap() {
        expand_symbol(rules, symbol, &mut out);
    }
    out
}

fn with_sentinel(bytes: &[u8]) -> Vec<usize> {
    let mut text: Vec<usize> = bytes.iter().map(|&b| b as usize).collect();
    text.push(0);
    text
}

fn check_round_trip(bytes: &[u8]) -> Vec<Vec<usize>> {
    let rules = plain(&compress_raw(bytes.to_vec()));
    assert_eq!(expand(&rules), with_sentinel(bytes));
    for (k, rule) in rules.iter().enumerate() {
        for &symbol in rule {
            assert!(symbol < 256 + k);
        }
    }
    rules
}

#[test]
fn empty_input_is_the_sentinel_alone() {
    let rules = plain(&compress_raw(Vec::new()));
    assert_eq!(rules, vec![vec![0]]);
}

#[test]
fn single_byte() {
    let rules = plain(&compress_raw(b"a".to_vec()));
    assert_eq!(rules, vec![vec![97, 0]]);
}

#[test]
fn abab_gets_one_rule() {
    let rules = check_round_trip(b"abab");
    assert_eq!(rules.len(), 2);
    assert_eq!(rules[0], vec![97, 98]);
    assert_eq!(rules[1], vec![97, 98, 256, 0]);
}

#[test]
fn substrings_that_differ_in_their_last_symbol_give_equal_rules() {
    let rules = check_round_trip(b"ababab");
    assert_eq!(
        rules,
        vec![vec![97, 98], vec![97, 98], vec![97, 98, 257, 256, 0]]
    );
}

#[test]
fn equal_substrings_share_a_rule() {
    let rules = check_round_trip(b"abcabcabcabd");
    assert_eq!(rules[0], vec![97, 98, 99]);
    let uses = rules.iter().flatten().filter(|&&s| s == 256).count();
    assert!(uses >= 2);
}

#[test]
fn all_equal_bytes_give_no_rule() {
    let rules = check_round_trip(b"aaaaaaaa");
    assert_eq!(rules, vec![vec![97, 97, 97, 97, 97, 97, 97, 97, 0]]);
}

#[test]
fn dna_sample_round_trips() {
    let rules = check_round_trip(b"gccttaacattattacgccta");
    assert!(rules.len() >= 2);
    assert_eq!(expand(&rules).len(), 22);
}

#[test]
fn longer_sample_round_trips() {
    check_round_trip(b"gccttaacattattacgcctaagcfsadfsdfffsdfstaasdfcgacgtagctatcgtagctacgtactagt");
}

#[test]
fn last_run_repeats_its_rule() {
    let rules = check_round_trip(b"cacacab");
    assert_eq!(
        rules,
        vec![vec![97, 98], vec![97, 99], vec![97, 99], vec![99, 257, 257, 256, 0]]
    );
}

#[test]
fn slow_text_takes_one_round_per_symbol() {
    let rules = check_round_trip(b"edcbac");
    assert_eq!(
        rules,
        vec![
            vec![97, 99],
            vec![98, 256],
            vec![99, 257],
            vec![100, 258],
            vec![101, 259, 0]
        ]
    );
}

#[test]
fn builder_is_deterministic() {
    let first = plain(&compress_raw(b"mississippi river".to_vec()));
    let second = plain(&compress_raw(b"mississippi river".to_vec()));
    assert_eq!(first, second);
}

#[test]
fn repetitive_text_shrinks() {
    let mut data = Vec::new();
    for i in 0..4096usize {
        data.push(b"ACGT"[(i * i + i / 7) % 4]);
    }
    for _ in 0..4 {
        let copy = data.clone();
        data.extend(copy);
    }
    let rules = check_round_trip(&data);
    let symbols: usize = rules.iter().map(|r| r.len()).sum();
    assert!(rules.len() < data.len());
    assert!(symbols < data.len());
}

#[test]
fn all_byte_values_round_trip() {
    let mut data = Vec::new();
    for round in 0..3usize {
        for b in 1..=255u8 {
            data.push(b);
            if (b as usize + round) % 5 == 0 {
                data.push(255 - b + 1);
            }
        }
    }
    check_round_trip(&data);
}

#[test]
fn rules_widen_with_the_alphabet() {
    let rules = compress_raw(b"abab".to_vec());
    assert_eq!(rules[0].bits_per_element(), 8);
    assert_eq!(rules[1].bits_per_element(), 9);
}

#[test]
fn compress_takes_a_string() {
    let rules = plain(&compress("abab".to_owned()));
    assert_eq!(rules, vec![vec![97, 98], vec![97, 98, 256, 0]]);
}

#[test]
fn compress_multiple_of_one_string() {
    let rules = plain(&compress_multiple(vec!["abab".to_owned()]));
    assert_eq!(rules, vec![vec![97, 98], vec![97, 98, 256, 0]]);
}

#[test]
fn compress_multiple_raw_of_nothing() {
    let rules = plain(&compress_multiple_raw(Vec::new()));
    assert_eq!(rules, vec![vec![0]]);
}

#[test]
fn compress_multiple_raw_of_one_empty_string() {
    let rules = plain(&compress_multiple_raw(vec![Vec::new()]));
    assert_eq!(rules, vec![vec![0]]);
}

#[test]
fn compress_multiple_raw_of_one_string() {
    let rules = plain(&compress_multiple_raw(vec![b"gccttaacattattacgccta".to_vec()]));
    assert_eq!(rules, plain(&compress_raw(b"gccttaacattattacgccta".to_vec())));
}

#[test]
fn rules_differ_where_substrings_differ_before_their_last_symbol() {
    let rules = check_round_trip(b"abcabdabcabe");
    for x in 0..rules.len() {
        for y in x + 1..rules.len() {
            assert_ne!(rules[x], rules[y]);
        }
    }
}

#[test]
fn equal_substrings_get_the_same_symbol() {
    let rules = check_round_trip(b"xabcabcabcy");
    assert_eq!(rules[0], vec![97, 98, 99]);
    let start = rules.last().unwrap();
    assert_eq!(expand(&rules), with_sentinel(b"xabcabcabcy"));
    assert!(start.iter().filter(|&&s| s >= 256).count() >= 1);
}

fn pseudo_random(len: usize, symbols: &[u8], mut state: u64) -> Vec<u8> {
    let mut data = Vec::with_capacity(len);
    for _ in 0..len {
        state = state
            .wrapping_mul(6364136223846793005)
            .wrapping_add(1442695040888963407);
        data.push(symbols[((state >> 33) % symbols.len() as u64) as usize]);
    }
    data
}

#[test]
fn random_texts_round_trip() {
    for seed in 0..40u64 {
        let len = 1 + (seed as usize * 37) % 700;
        let data = pseudo_random(len, b"abc", seed);
        check_round_trip(&data);
    }
    for seed in 0..10u64 {
        let data = pseudo_random(300, b"\x01\x02\xfe\xff", seed + 100);
        check_round_trip(&data);
    }
}

#[test]
fn long_random_text_grows_a_large_alphabet() {
    let data = pseudo_random(30_000, b"ACGT", 7);
    let rules = check_round_trip(&data);
    assert!(rules.len() > 600);
    let symbols: usize = rules.iter().map(|r| r.len()).sum();
    assert!(rules.len() + rules.last().unwrap().len() <= data.len() + 2);
    assert!(symbols > 0);
}
