use circom_wasm::algebra::{Constraint, LinearExpr, LinearTerm};
use circom_wasm::bytes::{into_format, u32_to_le, u64_to_le};
use circom_wasm::field::{trim_bytes, Field};
use circom_wasm::include_logic::{FileStack, IncludesGraph};
use circom_wasm::log_writer::LogWasm;
use circom_wasm::simplifier::rebuild_witness;
use circom_wasm::string_util::usize_to_string;

fn field97() -> Field {
    Field::new(vec![97]).unwrap()
}

fn simple_expr(terms: &[(usize, &[u8])]) -> LinearExpr {
    let mut v: Vec<LinearTerm> = Vec::new();
    for (signal, coeff) in terms {
        v.push(LinearTerm { signal: *signal, coeff: coeff.to_vec() });
    }
    LinearExpr { terms: v }
}

#[test]
fn field_rejects_zero_and_one() {
    assert!(Field::new(vec![]).is_none());
    assert!(Field::new(vec![0, 0]).is_none());
    assert!(Field::new(vec![1]).is_none());
    assert!(Field::new(vec![2]).is_some());
}

#[test]
fn field_arithmetic_reduces_canonically() {
    let f = field97();
    // 60 + 70 = 130 = 33 mod 97
    assert_eq!(f.add(&vec![60], &vec![70]), vec![33]);
    // 10 * 10 = 100 = 3 mod 97
    assert_eq!(f.mul(&vec![10], &vec![10]), vec![3]);
    // 5 - 9 = -4 = 93 mod 97
    assert_eq!(f.sub(&vec![5], &vec![9]), vec![93]);
    // 200 mod 97 = 6
    assert_eq!(f.reduce(&vec![200]), vec![6]);
    // the inverse of 96 (= -1) is 96
    assert_eq!(f.inv(&vec![96]), Some(vec![96]));
    // zero has no inverse
    assert_eq!(f.inv(&vec![]), None);
}

#[test]
fn trim_strips_trailing_zero_bytes() {
    assert_eq!(trim_bytes(vec![5, 0, 0]), vec![5]);
    assert_eq!(trim_bytes(vec![0, 0]), Vec::<u8>::new());
    assert_eq!(trim_bytes(vec![0, 7]), vec![0, 7]);
}

#[test]
fn fixed_width_encodings_are_little_endian() {
    assert_eq!(u32_to_le(0x01020304), vec![4, 3, 2, 1]);
    assert_eq!(u64_to_le(0x0102030405060708), vec![8, 7, 6, 5, 4, 3, 2, 1]);
    let (padded, size) = into_format(&[9, 8], 4);
    assert_eq!(padded, vec![9, 8, 0, 0]);
    assert_eq!(size, 4);
    let (kept, size2) = into_format(&[9, 8, 7], 2);
    assert_eq!(kept, vec![9, 8, 7]);
    assert_eq!(size2, 3);
}

#[test]
fn normalization_is_idempotent() {
    let f = field97();
    // 98 reduces to 1, a zero coefficient disappears
    let mut e = simple_expr(&[(1, &[98]), (2, &[97]), (3, &[4])]);
    e.fix(&f);
    assert_eq!(e.terms.len(), 2);
    assert_eq!(e.terms[0].signal, 1);
    assert_eq!(e.terms[0].coeff, vec![1]);
    assert_eq!(e.terms[1].signal, 3);
    assert_eq!(e.terms[1].coeff, vec![4]);
    // normalizing the already-normalized expression changes nothing
    let before: Vec<(usize, Vec<u8>)> =
        e.terms.iter().map(|t| (t.signal, t.coeff.clone())).collect();
    e.fix(&f);
    let after: Vec<(usize, Vec<u8>)> =
        e.terms.iter().map(|t| (t.signal, t.coeff.clone())).collect();
    assert_eq!(before, after);
}

#[test]
fn substitution_rewrites_every_side() {
    let f = field97();
    // substitute 2 := 3 + 4 into  2*s2 + s3 = 0 (as the C side)
    let sub = circom_wasm::algebra::Substitution {
        signal: 2,
        expr: simple_expr(&[(3, &[1]), (4, &[1])]),
    };
    let mut c = Constraint {
        a: simple_expr(&[]),
        b: simple_expr(&[]),
        c: simple_expr(&[(2, &[2]), (3, &[1])]),
    };
    let changed = c.apply_substitution(&sub, &f);
    assert!(changed);
    // 2*(s3 + s4) + s3 = 3*s3 + 2*s4
    assert_eq!(c.c.terms.len(), 2);
    assert_eq!(c.c.terms[0].signal, 3);
    assert_eq!(c.c.terms[0].coeff, vec![3]);
    assert_eq!(c.c.terms[1].signal, 4);
    assert_eq!(c.c.terms[1].coeff, vec![2]);
    // a source that occurs nowhere changes nothing
    let unchanged = c.apply_substitution(
        &circom_wasm::algebra::Substitution { signal: 9, expr: simple_expr(&[(3, &[1])]) },
        &f,
    );
    assert!(!unchanged);
}

#[test]
fn witness_rebuild_is_total_and_injective() {
    let deleted = vec![false, true, false, false, false];
    let forbidden = vec![false, false, true, false, false];
    let used = vec![false, false, false, true, false];
    let map = rebuild_witness(5, &deleted, &forbidden, &used, true);
    // 0 unused and erased; 1 deleted; 2 forbidden stays; 3 used stays; 4 unused
    assert_eq!(map.map, vec![None, None, Some(0), Some(1), None]);
    assert_eq!(map.witness, vec![2, 3]);
    // with removal disabled, every non-deleted signal survives
    let map2 = rebuild_witness(5, &deleted, &forbidden, &used, false);
    assert_eq!(map2.witness, vec![0, 2, 3, 4]);
    assert_eq!(map2.map[0], Some(0));
}

#[test]
fn log_lines_render_counts_in_decimal() {
    let mut log = LogWasm::new();
    log.is_successful = true;
    log.no_public_inputs = 12;
    log.no_wires = 305;
    let lines = LogWasm::print_array(&log);
    assert_eq!(lines.len(), 6);
    assert_eq!(lines[0], "public inputs: 12");
    assert_eq!(lines[4], "wires: 305");
    log.no_linear = 2;
    let lines2 = LogWasm::print_array(&log);
    assert_eq!(lines2.len(), 8);
    assert_eq!(lines2[6], "non-linear constraints: 0");
    assert_eq!(lines2[7], "linear constraints: 2");
    let failed = LogWasm::new();
    let lines3 = LogWasm::print_array(&failed);
    assert_eq!(lines3, vec!["previous errors were found".to_string()]);
}

#[test]
fn decimal_rendering_matches() {
    assert_eq!(usize_to_string(0), "0");
    assert_eq!(usize_to_string(7), "7");
    assert_eq!(usize_to_string(90210), "90210");
}

#[test]
fn file_stack_takes_each_file_once() {
    let libraries = vec!["a".to_string(), "b".to_string()];
    let mut stack = FileStack::new("a".to_string());
    let included = FileStack::add_include(&mut stack, "b".to_string(), &libraries);
    assert_eq!(included.unwrap(), "b");
    let missing = FileStack::add_include(&mut stack, "zz".to_string(), &libraries);
    assert!(missing.is_err());
    // files come back by library position, each at most once
    assert_eq!(FileStack::take_next(&mut stack), Some(1));
    // re-including a taken file queues nothing
    FileStack::add_include(&mut stack, "b".to_string(), &libraries).unwrap();
    assert_eq!(FileStack::take_next(&mut stack), Some(0));
    assert_eq!(FileStack::take_next(&mut stack), None);
}

#[test]
fn includes_graph_reports_pragma_free_chains() {
    let libraries = vec!["top".to_string(), "helper".to_string()];
    let mut graph = IncludesGraph::new();
    // "top" uses custom gates without declaring the pragma
    graph.add_node("top".to_string(), false, true);
    graph.add_node("helper".to_string(), true, false);
    graph.add_edge("top".to_string(), &libraries).unwrap();
    let bad_edge = graph.add_edge("unknown".to_string(), &libraries);
    assert!(bad_edge.is_err());
    let paths = graph.get_problematic_paths();
    // the chain starting at "top" is problematic: "top" misses the pragma
    assert!(!paths.is_empty());
    assert_eq!(paths[0][0], "top");
    let line = IncludesGraph::display_path(&vec!["a".to_string(), "b".to_string(), "c".to_string()]);
    assert_eq!(line, "a -> b -> c");
}

#[test]
fn large_prime_field_arithmetic() {
    // a 254-bit prime, little-endian
    let prime: Vec<u8> = vec![
        0x01, 0x00, 0x00, 0xf0, 0x93, 0xf5, 0xe1, 0x43, 0x91, 0x70, 0xb9, 0x79, 0x48, 0xe8,
        0x33, 0x28, 0x5d, 0x58, 0x81, 0x81, 0xb6, 0x45, 0x50, 0xb8, 0x29, 0xa0, 0x31, 0xe1,
        0x72, 0x4e, 0x64, 0x30,
    ];
    let f = Field::new(prime.clone()).unwrap();
    // (p - 1) + 2 = 1 mod p
    let mut p_minus_one = prime.clone();
    p_minus_one[0] = 0x00;
    assert_eq!(f.add(&p_minus_one, &vec![2]), vec![1]);
    // 2 * inverse(2) = 1 mod p
    let inv2 = f.inv(&vec![2]).unwrap();
    assert_eq!(f.mul(&inv2, &vec![2]), vec![1]);
    // the field width rounds the 254 bits up to 32 bytes
    assert_eq!(f.prime_bits(), 254);
}

#[test]
fn decode_rejects_truncated_artifacts() {
    assert!(circom_wasm::porting::decode_header(&vec![]).is_none());
    assert!(circom_wasm::porting::decode_header(&vec![0x72, 0x31, 0x63, 0x73, 1, 0, 0, 0]).is_none());
    // a valid preamble whose header section is cut short
    let cut = vec![
        0x72, 0x31, 0x63, 0x73, 1, 0, 0, 0, 3, 0, 0, 0, 1, 0, 0, 0, 0, 0, 0, 0, 0, 0, 0, 0,
        8, 0, 0, 0,
    ];
    assert!(circom_wasm::porting::decode_header(&cut).is_none());
}

#[test]
fn inverse_exists_exactly_for_coprime_values() {
    // modulus 9: 3 shares a factor, 2 does not
    let f = Field::new(vec![9]).unwrap();
    assert_eq!(f.inv(&vec![3]), None);
    let inv2 = f.inv(&vec![2]).unwrap();
    assert_eq!(f.mul(&inv2, &vec![2]), vec![1]);
}
