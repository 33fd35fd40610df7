use lmsg_rs::lmsg::{compress_raw, ensure_representable, replace_patterns};
use lmsg_rs::packed::{BitVector, IntVector};

#[test]
fn narrow_vector_is_widened() {
    let v = IntVector::from_values(&vec![97, 98, 0], 8);
    let w = ensure_representable(v, 257);
    assert_eq!(w.bits_per_element(), 9);
    assert_eq!(w.to_vec(), vec![97, 98, 0]);
}

#[test]
fn power_of_two_alphabet_needs_no_extra_bit() {
    let v = IntVector::from_values(&vec![97, 98, 0], 8);
    let w = ensure_representable(v, 256);
    assert_eq!(w.bits_per_element(), 8);
    assert_eq!(w.to_vec(), vec![97, 98, 0]);
}

#[test]
fn wide_vector_stays_as_it_is() {
    let v = IntVector::from_values(&vec![300, 5, 0], 12);
    let w = ensure_representable(v, 301);
    assert_eq!(w.bits_per_element(), 12);
    assert_eq!(w.to_vec(), vec![300, 5, 0]);
}

#[test]
fn substrings_give_way_to_rule_symbols() {
    let mut input = IntVector::from_values(&vec![99, 97, 99, 97, 99, 97, 98, 0], 9);
    let same = BitVector::from_bits(&vec![false, false, false, true]);
    let lms_pos = IntVector::from_values(&vec![7, 5, 1, 3], 4);
    let rules = vec![
        IntVector::from_values(&vec![97, 98], 8),
        IntVector::from_values(&vec![97, 99], 8),
        IntVector::from_values(&vec![97, 99], 8),
    ];
    replace_patterns(&mut input, same, lms_pos, &rules, 4, 0);
    assert_eq!(input.to_vec(), vec![99, 257, 257, 256, 0]);
    assert_eq!(input.bits_per_element(), 9);
}

#[test]
fn rule_symbols_count_from_the_rules_before() {
    let mut input = IntVector::from_values(&vec![257, 256, 258, 256, 258, 0], 9);
    let same = BitVector::from_bits(&vec![false, false, true]);
    let lms_pos = IntVector::from_values(&vec![5, 1, 3], 3);
    let rules = vec![
        IntVector::from_values(&vec![97], 8),
        IntVector::from_values(&vec![98], 8),
        IntVector::from_values(&vec![99], 8),
        IntVector::from_values(&vec![256, 258], 9),
    ];
    replace_patterns(&mut input, same, lms_pos, &rules, 3, 3);
    assert_eq!(input.to_vec(), vec![257, 259, 259, 0]);
}

#[test]
fn text_without_listed_positions_stays() {
    let mut input = IntVector::from_values(&vec![97, 98, 99, 0], 8);
    let same = BitVector::from_bits(&vec![false]);
    let lms_pos = IntVector::from_values(&vec![3], 3);
    let rules: Vec<IntVector> = Vec::new();
    replace_patterns(&mut input, same, lms_pos, &rules, 3, 0);
    assert_eq!(input.to_vec(), vec![97, 98, 99, 0]);
}

#[test]
fn run() {
    let input2 = b"gccttaacattattacgccta";
    let input3 = b"gccttaacattattacgcctaagcfsadfsdfffsdfstaasdfcgacgtagctatcgtagctacgtactagt";
    for input in [&input2[..], &input3[..]] {
        let rules = compress_raw(input.to_vec());
        for (i, rule) in rules.iter().enumerate() {
            let mut rhs = String::new();
            for v in rule.to_vec() {
                if v < 256 {
                    if v == 0 {
                        rhs.push_str("\\0 ");
                    } else {
                        rhs.push_str(&format!("{} ", v as u8 as char));
                    }
                } else {
                    rhs.push_str(&format!("R{} ", v - 256));
                }
            }
            println!("R{i} -> {rhs}");
        }
        assert!(rules.len() >= 2);
    }
}
