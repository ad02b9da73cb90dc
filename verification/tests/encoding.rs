use circom_wasm::algebra::{Constraint, LinearExpr, LinearTerm};
use circom_wasm::dag::{Dag, DagEdge, DagNode, SimplificationFlags};
use circom_wasm::porting::{decode_header, generate_output_r1cs, port_r1cs_wasm};
use circom_wasm::r1cs_writer::R1CSWriterWasm;
use circom_wasm::simplifier::{map_to_list, ConstraintList, ConstraintStorage, SignalMap};
use circom_wasm::field::Field;
use circom_wasm::dag::Encoding;

fn mk_expr(terms: &[(usize, &[u8])]) -> LinearExpr {
    let mut v: Vec<LinearTerm> = Vec::new();
    for (signal, coeff) in terms {
        v.push(LinearTerm { signal: *signal, coeff: coeff.to_vec() });
    }
    LinearExpr { terms: v }
}

#[test]
fn writer_emits_fixed_preamble() {
    let writer = R1CSWriterWasm::new(8, false);
    let bytes = writer.finish_writing();
    assert_eq!(bytes, vec![0x72, 0x31, 0x63, 0x73, 1, 0, 0, 0, 3, 0, 0, 0]);
    let writer = R1CSWriterWasm::new(8, true);
    let bytes = writer.finish_writing();
    assert_eq!(&bytes[8..12], &[5, 0, 0, 0]);
}

#[test]
fn writer_frames_one_constraint_exactly() {
    let writer = R1CSWriterWasm::new(2, false);
    let mut section = writer.start_constraints_section();
    let a = mk_expr(&[(1, &[7])]);
    let b = mk_expr(&[]);
    let c = mk_expr(&[(0, &[9]), (2, &[1, 1])]);
    section.write_constraint_usize(&a, &b, &c);
    assert_eq!(section.constraints_written(), 1);
    let writer = section.end_section();
    let bytes = writer.finish_writing();
    let mut expected = vec![0x72, 0x31, 0x63, 0x73, 1, 0, 0, 0, 3, 0, 0, 0];
    // section tag 2 and its byte length
    expected.extend_from_slice(&[2, 0, 0, 0]);
    expected.extend_from_slice(&[30, 0, 0, 0, 0, 0, 0, 0]);
    // block A: one term, signal 1, coefficient 7 padded to 2 bytes
    expected.extend_from_slice(&[1, 0, 0, 0, 1, 0, 0, 0, 7, 0]);
    // block B: empty
    expected.extend_from_slice(&[0, 0, 0, 0]);
    // block C: two terms
    expected.extend_from_slice(&[2, 0, 0, 0, 0, 0, 0, 0, 9, 0, 2, 0, 0, 0, 1, 1]);
    assert_eq!(bytes, expected);
}

#[test]
fn signal_section_pads_to_eight_bytes() {
    let writer = R1CSWriterWasm::new(8, false);
    let mut section = writer.start_signal_section();
    section.write_signal_usize(3);
    section.write_signal(&vec![0xAB, 0xCD]);
    let writer = section.end_section();
    let bytes = writer.finish_writing();
    assert_eq!(&bytes[12..16], &[3, 0, 0, 0]);
    assert_eq!(&bytes[16..24], &[16, 0, 0, 0, 0, 0, 0, 0]);
    assert_eq!(&bytes[24..32], &[3, 0, 0, 0, 0, 0, 0, 0]);
    assert_eq!(&bytes[32..40], &[0xAB, 0xCD, 0, 0, 0, 0, 0, 0]);
}

fn gate_dag() -> Dag {
    let child = DagNode {
        name: b"cg(1)".to_vec(),
        parameters: vec![vec![5]],
        is_custom_gate: true,
        n_signals: 1,
        forbidden_if_main: Vec::new(),
        constraints: vec![Constraint {
            a: mk_expr(&[(1, &[1])]),
            b: mk_expr(&[(1, &[1])]),
            c: mk_expr(&[(1, &[1])]),
        }],
        edges: Vec::new(),
        ordered_signals: vec![1],
    };
    let main = DagNode {
        name: b"main".to_vec(),
        parameters: Vec::new(),
        is_custom_gate: false,
        n_signals: 1,
        forbidden_if_main: vec![1],
        constraints: Vec::new(),
        edges: vec![DagEdge { goes_to: 0, bindings: Vec::new() }],
        ordered_signals: Vec::new(),
    };
    Dag {
        prime: vec![97],
        nodes: vec![child, main],
        main_id: 1,
        public_inputs: 0,
        public_outputs: 0,
        private_inputs: 0,
    }
}

#[test]
fn custom_gate_sections_follow_the_core() {
    let flags = SimplificationFlags {
        no_rounds: 1,
        flag_s: false,
        parallel_flag: false,
        flag_old_heuristics: false,
        port_substitution: false,
    };
    let (list, _log) = map_to_list(gate_dag(), flags).unwrap();
    let with_gates = port_r1cs_wasm(&list, true).unwrap();
    let without = port_r1cs_wasm(&list, false).unwrap();
    // the core sections agree except for the announced section count
    assert_eq!(&with_gates[8..12], &[5, 0, 0, 0]);
    assert_eq!(&without[8..12], &[3, 0, 0, 0]);
    assert_eq!(&with_gates[12..without.len()], &without[12..]);
    // the gates-used section: one gate named "cg" with one 8-byte parameter
    let mut tail = with_gates[without.len()..].to_vec();
    assert_eq!(&tail[0..4], &[4, 0, 0, 0]);
    assert_eq!(&tail[4..12], &[19, 0, 0, 0, 0, 0, 0, 0]);
    assert_eq!(&tail[12..16], &[1, 0, 0, 0]);
    assert_eq!(&tail[16..19], b"cg\0");
    assert_eq!(&tail[19..23], &[1, 0, 0, 0]);
    assert_eq!(&tail[23..31], &[5, 0, 0, 0, 0, 0, 0, 0]);
    tail = tail[31..].to_vec();
    // the gates-applied section: one site, gate 0, one signal
    assert_eq!(&tail[0..4], &[5, 0, 0, 0]);
    assert_eq!(&tail[4..12], &[20, 0, 0, 0, 0, 0, 0, 0]);
    assert_eq!(&tail[12..16], &[1, 0, 0, 0]);
    assert_eq!(&tail[16..20], &[0, 0, 0, 0]);
    assert_eq!(&tail[20..24], &[1, 0, 0, 0]);
    let header = decode_header(&with_gates).unwrap();
    assert_eq!(header.total_wires, 2);
}

#[test]
fn erased_signal_in_a_constraint_fails_the_encode() {
    let list = ConstraintList {
        field: Field::new(vec![97]).unwrap(),
        dag_encoding: Encoding { nodes: Vec::new() },
        no_public_outputs: 0,
        no_public_inputs: 0,
        no_private_inputs: 0,
        no_labels: 2,
        constraints: ConstraintStorage {
            constraints: vec![Constraint {
                a: mk_expr(&[]),
                b: mk_expr(&[]),
                c: mk_expr(&[(1, &[1])]),
            }],
        },
        signal_map: SignalMap { map: vec![None, None], witness: Vec::new() },
    };
    assert!(port_r1cs_wasm(&list, false).is_err());
    let msgs = generate_output_r1cs(&list, false).unwrap_err();
    assert_eq!(msgs.len(), 1);
    assert_eq!(msgs[0], "Could not generate r1cs output for the selected file");
}

#[test]
fn empty_constraints_leave_the_written_count() {
    let list = ConstraintList {
        field: Field::new(vec![97]).unwrap(),
        dag_encoding: Encoding { nodes: Vec::new() },
        no_public_outputs: 0,
        no_public_inputs: 0,
        no_private_inputs: 0,
        no_labels: 1,
        constraints: ConstraintStorage {
            constraints: vec![
                Constraint { a: mk_expr(&[]), b: mk_expr(&[]), c: mk_expr(&[]) },
                Constraint { a: mk_expr(&[]), b: mk_expr(&[]), c: mk_expr(&[(0, &[3])]) },
            ],
        },
        signal_map: SignalMap { map: vec![Some(0)], witness: vec![0] },
    };
    let bytes = port_r1cs_wasm(&list, false).unwrap();
    let header = decode_header(&bytes).unwrap();
    // the fully empty constraint is excluded from what is written
    assert_eq!(header.number_of_constraints, 1);
}
