use lmsg_rs::iss::{iss, LS};
use lmsg_rs::packed::{BitVector, IntVector};

fn text(bytes: &[u8], width: usize) -> IntVector {
    let mut values: Vec<usize> = bytes.iter().map(|&b| b as usize).collect();
    values.push(0);
    IntVector::from_values(&values, width)
}

fn l_types(ls: &LS) -> Vec<bool> {
    (0..ls.len()).map(|i| ls.is_l(i)).collect()
}

fn lms_positions(ls: &LS) -> Vec<usize> {
    (0..ls.len()).filter(|&i| ls.is_lms(i)).collect()
}

#[test]
fn packed_values_come_back() {
    let values = vec![5usize, 0, 511, 256, 1];
    let v = IntVector::from_values(&values, 9);
    assert_eq!(v.to_vec(), values);
    assert_eq!(v.bits_per_element(), 9);
}

#[test]
fn word_wide_values_come_back() {
    let values = vec![usize::MAX, 0, 1, usize::MAX - 1];
    let v = IntVector::from_values(&values, usize::BITS as usize);
    assert_eq!(v.to_vec(), values);
}

#[test]
fn packed_bits_come_back() {
    let bits = vec![true, false, false, true, true];
    let v = BitVector::from_bits(&bits);
    assert_eq!(v.to_bits(5), bits);
}

#[test]
fn classifier_follows_the_comparison_rule() {
    let s = text(b"cacacab", 8);
    let ls = LS::from(&s);
    assert_eq!(ls.len(), 8);
    assert!(!ls.is_empty());
    assert_eq!(
        l_types(&ls),
        vec![true, false, true, false, true, false, true, false]
    );
    assert_eq!(lms_positions(&ls), vec![1, 3, 5, 7]);
    assert_eq!(ls.inner().to_bits(8), l_types(&ls));
}

#[test]
fn classifier_copies_the_type_of_an_equal_successor() {
    let s = text(b"aabba", 8);
    let ls = LS::from(&s);
    assert_eq!(l_types(&ls), vec![false, false, true, true, true, false]);
    assert_eq!(lms_positions(&ls), vec![5]);
}

#[test]
fn is_s_is_the_opposite_of_is_l() {
    let s = text(b"mississippi", 8);
    let ls = LS::from(&s);
    for i in 0..ls.len() {
        assert_eq!(ls.is_s(i), !ls.is_l(i));
    }
    assert_eq!(lms_positions(&ls), vec![1, 4, 7, 11]);
}

#[test]
fn all_equal_symbols_have_one_transition() {
    let s = text(b"aaaaaaaa", 8);
    let ls = LS::from(&s);
    assert_eq!(
        l_types(&ls),
        vec![true, true, true, true, true, true, true, true, false]
    );
    assert_eq!(lms_positions(&ls), vec![8]);
}

#[test]
fn first_position_is_never_lms() {
    let s = text(b"ab", 8);
    let ls = LS::from(&s);
    assert!(ls.is_s(0));
    assert!(!ls.is_lms(0));
    assert!(ls.is_lms(2));
}

#[test]
fn sentinel_alone_is_of_type_s() {
    let s = text(b"", 8);
    let ls = LS::from(&s);
    assert_eq!(ls.len(), 1);
    assert_eq!(l_types(&ls), vec![false]);
    assert_eq!(lms_positions(&ls), Vec::<usize>::new());
}

#[test]
fn next_lms_index_finds_the_next_one() {
    let s = text(b"cacacab", 8);
    let ls = LS::from(&s);
    assert_eq!(ls.next_lms_index(0), Some(1));
    assert_eq!(ls.next_lms_index(1), Some(3));
    assert_eq!(ls.next_lms_index(2), Some(3));
    assert_eq!(ls.next_lms_index(5), Some(7));
    assert_eq!(ls.next_lms_index(7), None);
    assert_eq!(ls.next_lms_index(100), None);
}

#[test]
fn induced_sort_of_the_sentinel_alone() {
    let s = text(b"", 8);
    let ls = LS::from(&s);
    assert_eq!(iss(&s, &ls, 256).to_vec(), Vec::<usize>::new());
}

#[test]
fn induced_sort_of_one_symbol() {
    let s = text(b"a", 8);
    let ls = LS::from(&s);
    assert_eq!(iss(&s, &ls, 256).to_vec(), vec![1]);
}

#[test]
fn induced_sort_orders_by_lms_substring() {
    let s = text(b"mississippi", 8);
    let ls = LS::from(&s);
    assert_eq!(iss(&s, &ls, 256).to_vec(), vec![11, 7, 1, 4]);
}

#[test]
fn induced_sort_keeps_equal_substrings_in_the_order_reached() {
    let s = text(b"cacacab", 8);
    let ls = LS::from(&s);
    assert_eq!(iss(&s, &ls, 256).to_vec(), vec![7, 5, 1, 3]);
}

#[test]
fn induced_sort_lists_every_lms_position_once() {
    let bytes = b"gccttaacattattacgcctaagcfsadfsdfffsdfstaasdfcgacgtagctatcgtagctacgtactagt";
    let s = text(bytes, 8);
    let ls = LS::from(&s);
    let sorted = iss(&s, &ls, 256).to_vec();
    assert_eq!(sorted[0], bytes.len());
    let mut again = sorted.clone();
    again.sort();
    assert_eq!(again, lms_positions(&ls));
    let symbols = s.to_vec();
    for pair in sorted.windows(2) {
        assert!(symbols[pair[0]] <= symbols[pair[1]]);
    }
}

#[test]
fn induced_sort_works_over_a_grown_alphabet() {
    let values = vec![299usize, 257, 300, 257, 300, 256, 0];
    let s = IntVector::from_values(&values, 9);
    let ls = LS::from(&s);
    let sorted = iss(&s, &ls, 301).to_vec();
    assert_eq!(sorted, vec![6, 3, 1]);
    assert_eq!(iss(&s, &ls, 301).bits_per_element(), usize::BITS as usize);
}

#[test]
fn classifier_takes_a_plain_slice() {
    let symbols = vec![99usize, 97, 99, 97, 99, 97, 98, 0];
    let ls = LS::from_slice(&symbols);
    assert_eq!(
        l_types(&ls),
        vec![true, false, true, false, true, false, true, false]
    );
    let packed = LS::from(&IntVector::from_values(&symbols, 8));
    assert_eq!(l_types(&packed), l_types(&ls));
}

fn lms_substring(symbols: &[usize], ls: &LS, p: usize) -> Vec<usize> {
    let end = ls.next_lms_index(p).unwrap_or(symbols.len() - 1) + 1;
    symbols[p..end].to_vec()
}

const SAMPLES: [&[u8]; 6] = [
    b"mississippi",
    b"cacacab",
    b"ababab",
    b"abracadabra abracadabra",
    b"gccttaacattattacgcctaagcfsadfsdfffsdfstaasdfcgacgtagctatcgtagctacgtactagt",
    b"edcbac",
];

#[test]
fn suffixes_are_in_order_where_substrings_differ() {
    for bytes in SAMPLES {
        let s = text(bytes, 8);
        let ls = LS::from(&s);
        let symbols = s.to_vec();
        let sorted = iss(&s, &ls, 256).to_vec();
        for x in 0..sorted.len() {
            for y in x + 1..sorted.len() {
                let sx = lms_substring(&symbols, &ls, sorted[x]);
                let sy = lms_substring(&symbols, &ls, sorted[y]);
                if sx != sy {
                    assert!(symbols[sorted[x]..] <= symbols[sorted[y]..]);
                }
            }
        }
    }
}

#[test]
fn suffixes_of_equal_substrings_can_be_out_of_order() {
    let s = text(b"mississippi", 8);
    let ls = LS::from(&s);
    let symbols = s.to_vec();
    let sorted = iss(&s, &ls, 256).to_vec();
    assert_eq!(sorted[2..], [1, 4]);
    assert!(symbols[1..] > symbols[4..]);
}

#[test]
fn equal_substrings_stand_together() {
    for bytes in SAMPLES {
        let s = text(bytes, 8);
        let ls = LS::from(&s);
        let symbols = s.to_vec();
        let sorted = iss(&s, &ls, 256).to_vec();
        for x in 0..sorted.len() {
            for y in x + 1..sorted.len() {
                let sx = lms_substring(&symbols, &ls, sorted[x]);
                if sx == lms_substring(&symbols, &ls, sorted[y]) {
                    for z in x..y {
                        assert_eq!(lms_substring(&symbols, &ls, sorted[z]), sx);
                    }
                }
            }
        }
    }
}
