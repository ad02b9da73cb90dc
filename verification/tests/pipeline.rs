use circom_wasm::algebra::{Constraint, LinearExpr, LinearTerm};
use circom_wasm::dag::{Dag, DagNode, SimplificationFlags};
use circom_wasm::porting::{decode_header, port_r1cs_wasm};
use circom_wasm::simplifier::map_to_list;

fn expr(terms: &[(usize, &[u8])]) -> LinearExpr {
    let mut v: Vec<LinearTerm> = Vec::new();
    for (signal, coeff) in terms {
        v.push(LinearTerm { signal: *signal, coeff: coeff.to_vec() });
    }
    LinearExpr { terms: v }
}

fn linear_constraint(terms: &[(usize, &[u8])]) -> Constraint {
    Constraint { a: expr(&[]), b: expr(&[]), c: expr(terms) }
}

fn scenario_dag() -> Dag {
    // signals {0=const, 1, 2, 3} over the prime 97, constraints
    // {1 = 2, 2 = 5, 3 = 1 + 2}, forbidden = {3}
    let node = DagNode {
        name: b"main".to_vec(),
        parameters: Vec::new(),
        is_custom_gate: false,
        n_signals: 3,
        forbidden_if_main: vec![3],
        constraints: vec![
            linear_constraint(&[(1, &[1]), (2, &[96])]),
            linear_constraint(&[(0, &[5]), (2, &[96])]),
            linear_constraint(&[(1, &[1]), (2, &[1]), (3, &[96])]),
        ],
        edges: Vec::new(),
        ordered_signals: Vec::new(),
    };
    Dag {
        prime: vec![97],
        nodes: vec![node],
        main_id: 0,
        public_inputs: 0,
        public_outputs: 1,
        private_inputs: 0,
    }
}

fn default_flags() -> SimplificationFlags {
    SimplificationFlags {
        no_rounds: 2,
        flag_s: false,
        parallel_flag: false,
        flag_old_heuristics: false,
        port_substitution: false,
    }
}

#[test]
fn scenario_single_output_survives() {
    let (list, log) = map_to_list(scenario_dag(), default_flags()).unwrap();
    // signals 1 and 2 are eliminated, only the boundary output 3 survives
    assert_eq!(log.no_wires, 1);
    assert_eq!(log.no_labels, 4);
    assert_eq!(list.get_witness_as_vec(), vec![3]);
    // one residual linear constraint remains: 3 = 10
    assert_eq!(list.constraints.constraints.len(), 1);
    let c = &list.constraints.constraints[0];
    assert!(c.a.terms.is_empty());
    assert!(c.b.terms.is_empty());
    assert_eq!(c.c.terms.len(), 2);
    assert_eq!(c.c.terms[0].signal, 0);
    assert_eq!(c.c.terms[0].coeff, vec![10]);
    assert_eq!(c.c.terms[1].signal, 3);
    assert_eq!(c.c.terms[1].coeff, vec![96]);
}

#[test]
fn scenario_header_reports_one_wire() {
    let (list, _log) = map_to_list(scenario_dag(), default_flags()).unwrap();
    let bytes = port_r1cs_wasm(&list, false).unwrap();
    assert_eq!(&bytes[0..4], b"r1cs");
    assert_eq!(&bytes[4..8], &[1, 0, 0, 0]);
    assert_eq!(&bytes[8..12], &[3, 0, 0, 0]);
    let header = decode_header(&bytes).unwrap();
    assert_eq!(header.field_size, 8);
    assert_eq!(header.total_wires, 1);
    assert_eq!(header.public_outputs, 1);
    assert_eq!(header.public_inputs, 0);
    assert_eq!(header.private_inputs, 0);
    assert_eq!(header.number_of_labels, 4);
    assert_eq!(header.number_of_constraints, 1);
}

fn cluster_dag(constraints: Vec<Constraint>) -> Dag {
    let node = DagNode {
        name: b"main".to_vec(),
        parameters: Vec::new(),
        is_custom_gate: false,
        n_signals: 5,
        forbidden_if_main: Vec::new(),
        constraints,
        edges: Vec::new(),
        ordered_signals: Vec::new(),
    };
    Dag {
        prime: vec![97],
        nodes: vec![node],
        main_id: 0,
        public_inputs: 0,
        public_outputs: 0,
        private_inputs: 0,
    }
}

#[test]
fn disjoint_clusters_solve_independently() {
    // two disjoint equality clusters {a=b} and {c=d, d=e}, in either
    // dispatch order, give the same final system
    let eq = |x: usize, y: usize| linear_constraint(&[(x, &[1u8][..]), (y, &[96u8][..])]);
    let order_one = vec![eq(1, 2), eq(3, 4), eq(4, 5)];
    let order_two = vec![eq(3, 4), eq(4, 5), eq(1, 2)];
    let (list_one, log_one) = map_to_list(cluster_dag(order_one), default_flags()).unwrap();
    let (list_two, log_two) = map_to_list(cluster_dag(order_two), default_flags()).unwrap();
    assert_eq!(log_one.no_wires, log_two.no_wires);
    assert_eq!(list_one.get_witness_as_vec(), list_two.get_witness_as_vec());
    let bytes_one = port_r1cs_wasm(&list_one, false).unwrap();
    let bytes_two = port_r1cs_wasm(&list_two, false).unwrap();
    assert_eq!(bytes_one, bytes_two);
}

#[test]
fn round_budget_zero_keeps_first_pass_only() {
    let flags = SimplificationFlags { no_rounds: 0, ..default_flags() };
    let (list, log) = map_to_list(scenario_dag(), flags).unwrap();
    // the mandatory first pass still runs; the result is the same here
    assert_eq!(log.no_wires, 1);
    assert_eq!(list.constraints.constraints.len(), 1);
}

#[test]
fn decode_rejects_wrong_magic() {
    let (list, _log) = map_to_list(scenario_dag(), default_flags()).unwrap();
    let mut bytes = port_r1cs_wasm(&list, false).unwrap();
    bytes[0] = 0x00;
    assert!(decode_header(&bytes).is_none());
}

#[test]
fn mapping_rejects_a_degenerate_prime() {
    let mut dag = scenario_dag();
    dag.prime = vec![1];
    assert!(map_to_list(dag, default_flags()).is_none());
}
