//! Assembly of the binary artifact from a simplified constraint list, and
//! the header decoder for checking a produced artifact.
//!
//! The encoding order is fixed: header, constraints, wire map, and, when
//! custom gates are present, the gates-used and gates-applied sections. The
//! constraint section holds every non-empty stored constraint with its
//! signals renumbered through the witness map; the constraint count written
//! in the header is recomputed from what was actually emitted.

use vstd::prelude::*;

use crate::algebra::{Constraint, LinearExpr, LinearTerm};
use crate::bytes::{le_bytes, le_val, lemma_le_val_append, pow256};
use crate::field::prime_bits_spec;
use crate::log_writer::LogWasm;
use crate::r1cs_writer::{header_body_bytes, lc_block_bytes, preamble_bytes, section_bytes,
    CustomGateApp, CustomGateUse, HeaderData, R1CSWriterWasm};
use crate::simplifier::{ConstraintList, SignalMap};

verus! {

/// The field byte width for a prime of the given bit length: the bit length
/// rounded up to a multiple of 64, in bytes.
pub open spec fn field_size_spec(bits: nat) -> nat {
    if bits % 64 == 0 {
        bits / 8
    } else {
        (bits / 64 + 1) * 8
    }
}

/// A signal renumbered through the witness map; the constant signal 0 stays
/// wire 0.
pub open spec fn renum_sig(sig: nat, m: Seq<Option<usize>>) -> nat {
    if sig == 0 {
        0
    } else if sig < m.len() {
        match m[sig as int] {
            Some(i) => i as nat,
            None => 0,
        }
    } else {
        0
    }
}

pub open spec fn renum_terms(s: Seq<(nat, Seq<u8>)>, m: Seq<Option<usize>>) -> Seq<
    (nat, Seq<u8>),
>
    decreases s.len(),
{
    if s.len() == 0 {
        Seq::empty()
    } else {
        seq![(renum_sig(s[0].0, m), s[0].1)] + renum_terms(s.subrange(1, s.len() as int), m)
    }
}

/// The constraint-section body: the three renumbered blocks of every
/// non-empty constraint, in storage order.
pub open spec fn cons_bodies(cs: Seq<Constraint>, m: Seq<Option<usize>>, fs: nat) -> Seq<u8>
    decreases cs.len(),
{
    if cs.len() == 0 {
        Seq::empty()
    } else {
        let rest = cons_bodies(cs.subrange(1, cs.len() as int), m, fs);
        if cs[0].is_empty_spec() {
            rest
        } else {
            lc_block_bytes(renum_terms(cs[0].a@, m), fs) + lc_block_bytes(
                renum_terms(cs[0].b@, m),
                fs,
            ) + lc_block_bytes(renum_terms(cs[0].c@, m), fs) + rest
        }
    }
}

/// How many constraints the section actually holds.
pub open spec fn written_count(cs: Seq<Constraint>) -> nat
    decreases cs.len(),
{
    if cs.len() == 0 {
        0
    } else {
        (if cs[0].is_empty_spec() {
            0nat
        } else {
            1nat
        }) + written_count(cs.subrange(1, cs.len() as int))
    }
}

/// The wire-to-label body: each witness index's original signal, 8 bytes.
pub open spec fn wires_body(w: Seq<usize>) -> Seq<u8>
    decreases w.len(),
{
    if w.len() == 0 {
        Seq::empty()
    } else {
        le_bytes(w[0] as nat, 8) + wires_body(w.subrange(1, w.len() as int))
    }
}

/// The first three sections every artifact carries.
pub open spec fn artifact_core(list: ConstraintList, num_sections: nat) -> Seq<u8> {
    let prime = list.field.prime_bytes();
    let fs = field_size_spec(prime_bits_spec(prime));
    let hb = header_body_bytes(
        prime,
        fs,
        list.signal_map.witness@.len(),
        list.no_public_outputs as nat,
        list.no_public_inputs as nat,
        list.no_private_inputs as nat,
        list.no_labels as nat,
        written_count(list.constraints.constraints@),
    );
    let cb = cons_bodies(list.constraints.constraints@, list.signal_map.map@, fs);
    let wb = wires_body(list.signal_map.witness@);
    preamble_bytes(num_sections) + section_bytes(1, hb) + section_bytes(2, cb) + section_bytes(
        3,
        wb,
    )
}

proof fn lemma_cons_bodies_snoc(cs: Seq<Constraint>, m: Seq<Option<usize>>, fs: nat)
    requires
        cs.len() > 0,
    ensures
        cons_bodies(cs, m, fs) == cons_bodies(cs.drop_last(), m, fs) + ({
            let c = cs.last();
            if c.is_empty_spec() {
                Seq::<u8>::empty()
            } else {
                lc_block_bytes(renum_terms(c.a@, m), fs) + lc_block_bytes(renum_terms(c.b@, m), fs)
                    + lc_block_bytes(renum_terms(c.c@, m), fs)
            }
        }),
        written_count(cs) == written_count(cs.drop_last()) + (if cs.last().is_empty_spec() {
            0nat
        } else {
            1nat
        }),
    decreases cs.len(),
{
    let tail_part = {
        let c = cs.last();
        if c.is_empty_spec() {
            Seq::<u8>::empty()
        } else {
            lc_block_bytes(renum_terms(c.a@, m), fs) + lc_block_bytes(renum_terms(c.b@, m), fs)
                + lc_block_bytes(renum_terms(c.c@, m), fs)
        }
    };
    if cs.len() == 1 {
        assert(cs.drop_last() =~= Seq::empty());
        assert(cs.subrange(1, cs.len() as int) =~= Seq::empty());
        assert(cs.last() == cs[0]);
        assert(cons_bodies(Seq::empty(), m, fs) =~= Seq::<u8>::empty());
        if cs[0].is_empty_spec() {
            assert(cons_bodies(cs, m, fs) =~= tail_part);
        } else {
            assert(cons_bodies(cs, m, fs) =~= tail_part);
        }
        assert(cons_bodies(cs.drop_last(), m, fs) + tail_part =~= tail_part);
    } else {
        let t = cs.subrange(1, cs.len() as int);
        lemma_cons_bodies_snoc(t, m, fs);
        assert(t.last() == cs.last());
        assert(t.drop_last() =~= cs.drop_last().subrange(1, cs.drop_last().len() as int));
        assert(cs.drop_last()[0] == cs[0]);
        if cs[0].is_empty_spec() {
            assert(cons_bodies(cs, m, fs) == cons_bodies(t, m, fs));
            assert(cons_bodies(cs.drop_last(), m, fs) == cons_bodies(t.drop_last(), m, fs));
        } else {
            let head = lc_block_bytes(renum_terms(cs[0].a@, m), fs) + lc_block_bytes(
                renum_terms(cs[0].b@, m),
                fs,
            ) + lc_block_bytes(renum_terms(cs[0].c@, m), fs);
            assert(cons_bodies(cs, m, fs) == head + cons_bodies(t, m, fs));
            assert(cons_bodies(cs.drop_last(), m, fs) == head + cons_bodies(t.drop_last(), m, fs));
            assert(head + (cons_bodies(t.drop_last(), m, fs) + tail_part) =~= (head
                + cons_bodies(t.drop_last(), m, fs)) + tail_part);
        }
    }
}

proof fn lemma_wires_body_snoc(w: Seq<usize>)
    requires
        w.len() > 0,
    ensures
        wires_body(w) == wires_body(w.drop_last()) + le_bytes(w.last() as nat, 8),
    decreases w.len(),
{
    if w.len() == 1 {
        assert(w.drop_last() =~= Seq::empty());
        assert(w.subrange(1, w.len() as int) =~= Seq::empty());
        assert(wires_body(Seq::<usize>::empty()) =~= Seq::<u8>::empty());
        assert(wires_body(w) =~= le_bytes(w[0] as nat, 8) + Seq::<u8>::empty());
        assert(le_bytes(w[0] as nat, 8) + Seq::<u8>::empty() =~= le_bytes(w[0] as nat, 8));
        assert(Seq::<u8>::empty() + le_bytes(w[0] as nat, 8) =~= le_bytes(w[0] as nat, 8));
    } else {
        let t = w.subrange(1, w.len() as int);
        lemma_wires_body_snoc(t);
        assert(t.last() == w.last());
        assert(t.drop_last() =~= w.drop_last().subrange(1, w.drop_last().len() as int));
        assert(w.drop_last()[0] == w[0]);
        assert(wires_body(w.drop_last()) =~= le_bytes(w[0] as nat, 8) + wires_body(t.drop_last()));
        assert(le_bytes(w[0] as nat, 8) + (wires_body(t.drop_last()) + le_bytes(
            w.last() as nat,
            8,
        )) =~= (le_bytes(w[0] as nat, 8) + wires_body(t.drop_last())) + le_bytes(
            w.last() as nat,
            8,
        ));
    }
}


/// When a term sequence can be renumbered: every witness signal survives.
pub open spec fn renumberable(s: Seq<(nat, Seq<u8>)>, m: Seq<Option<usize>>) -> bool {
    forall|k: int|
        0 <= k < s.len() ==> (#[trigger] s[k]).0 == 0 || (s[k].0 < m.len() && m[s[k].0 as int] is Some)
}

/// When a constraint list fits the artifact's fixed widths, so that encoding
/// it is owed to succeed.
pub open spec fn encodable(list: ConstraintList) -> bool {
    let prime = list.field.prime_bytes();
    let fs = field_size_spec(prime_bits_spec(prime));
    let m = list.signal_map.map@;
    &&& prime.len() <= usize::MAX / 8
    &&& prime_bits_spec(prime) <= usize::MAX - 64
    &&& fs < 0x1_0000_0000
    &&& list.signal_map.witness@.len() < 0x1_0000_0000
    &&& list.no_public_outputs < 0x1_0000_0000
    &&& list.no_public_inputs < 0x1_0000_0000
    &&& list.no_private_inputs < 0x1_0000_0000
    &&& written_count(list.constraints.constraints@) < 0x1_0000_0000
    &&& forall|j: int|
        0 <= j < list.constraints.constraints@.len() ==> {
            let c = #[trigger] list.constraints.constraints@[j];
            &&& renumberable(c.a@, m)
            &&& renumberable(c.b@, m)
            &&& renumberable(c.c@, m)
            &&& crate::r1cs_writer::lc_fits(renum_terms(c.a@, m), fs)
            &&& crate::r1cs_writer::lc_fits(renum_terms(c.b@, m), fs)
            &&& crate::r1cs_writer::lc_fits(renum_terms(c.c@, m), fs)
        }
}


/// The per-constraint facts an encodable list gives at one index.
proof fn lemma_encodable_at(list: ConstraintList, j: int)
    requires
        encodable(list),
        0 <= j < list.constraints.constraints@.len(),
    ensures
        renumberable(list.constraints.constraints@[j].a@, list.signal_map.map@),
        renumberable(list.constraints.constraints@[j].b@, list.signal_map.map@),
        renumberable(list.constraints.constraints@[j].c@, list.signal_map.map@),
        crate::r1cs_writer::lc_fits(
            renum_terms(list.constraints.constraints@[j].a@, list.signal_map.map@),
            field_size_spec(prime_bits_spec(list.field.prime_bytes())),
        ),
        crate::r1cs_writer::lc_fits(
            renum_terms(list.constraints.constraints@[j].b@, list.signal_map.map@),
            field_size_spec(prime_bits_spec(list.field.prime_bytes())),
        ),
        crate::r1cs_writer::lc_fits(
            renum_terms(list.constraints.constraints@[j].c@, list.signal_map.map@),
            field_size_spec(prime_bits_spec(list.field.prime_bytes())),
        ),
{
    assert(list.constraints.constraints@[j] == list.constraints.constraints@[j]);
}

/// A prefix never holds more written constraints than the whole.
proof fn lemma_written_count_prefix(cs: Seq<Constraint>, i: int)
    requires
        0 <= i <= cs.len(),
    ensures
        written_count(cs.subrange(0, i)) <= written_count(cs),
    decreases cs.len() - i,
{
    if i == cs.len() {
        assert(cs.subrange(0, i) =~= cs);
    } else {
        lemma_cons_bodies_snoc(cs.subrange(0, i + 1), Seq::empty(), 0);
        assert(cs.subrange(0, i + 1).drop_last() =~= cs.subrange(0, i));
        lemma_written_count_prefix(cs, i + 1);
    }
}

/// Renumbers a linear combination through the witness map. Fails when a
/// witness signal of the combination was erased; such a constraint cannot be
/// serialized, which is fatal to the encode operation.
fn renum_expr(e: &LinearExpr, map: &SignalMap) -> (r: Result<LinearExpr, ()>)
    ensures
        r matches Ok(out) ==> out@ == renum_terms(e@, map.map@),
        renumberable(e@, map.map@) ==> r is Ok,
{
    let mut terms: Vec<LinearTerm> = Vec::new();
    let n = e.terms.len();
    let mut i: usize = 0;
    while i < n
        invariant
            i <= n,
            n == e@.len(),
            terms@.map_values(|t: LinearTerm| t@) =~= renum_terms(e@.subrange(0, i as int), map.map@),
        decreases n - i,
    {
        let ghost before = terms@.map_values(|t: LinearTerm| t@);
        let sig = e.terms[i].signal;
        let coeff = crate::algebra::clone_bytes(&e.terms[i].coeff);
        proof {
            assert(e@[i as int].0 == sig as nat);
        }
        let new_sig: usize = if sig == 0 {
            0
        } else if sig < map.map.len() {
            match map.get(sig) {
                Some(idx) => idx,
                None => {
                    proof {
                        assert(!renumberable(e@, map.map@));
                    }
                    return Err(());
                },
            }
        } else {
            proof {
                assert(!renumberable(e@, map.map@));
            }
            return Err(());
        };
        terms.push(LinearTerm { signal: new_sig, coeff });
        proof {
            assert(e@[i as int] == (e.terms@[i as int].signal as nat, e.terms@[i as int].coeff@));
            assert(new_sig as nat == renum_sig(e@[i as int].0, map.map@));
            let pre = e@.subrange(0, i as int);
            let cur = e@.subrange(0, i + 1);
            lemma_renum_snoc(cur, map.map@);
            assert(cur.drop_last() =~= pre);
            assert(cur.last() == e@[i as int]);
            assert(terms@.map_values(|t: LinearTerm| t@) =~= before + seq![
                (new_sig as nat, coeff@),
            ]);
        }
        i += 1;
    }
    proof {
        assert(e@.subrange(0, n as int) =~= e@);
    }
    Ok(LinearExpr { terms })
}

proof fn lemma_renum_snoc(s: Seq<(nat, Seq<u8>)>, m: Seq<Option<usize>>)
    requires
        s.len() > 0,
    ensures
        renum_terms(s, m) == renum_terms(s.drop_last(), m) + seq![
            (renum_sig(s.last().0, m), s.last().1),
        ],
    decreases s.len(),
{
    let last_part = seq![(renum_sig(s.last().0, m), s.last().1)];
    if s.len() == 1 {
        assert(s.drop_last() =~= Seq::empty());
        assert(s.subrange(1, s.len() as int) =~= Seq::empty());
        assert(s.last() == s[0]);
        assert(renum_terms(Seq::<(nat, Seq<u8>)>::empty(), m) =~= Seq::<(nat, Seq<u8>)>::empty());
        assert(renum_terms(s, m) =~= last_part);
        assert(renum_terms(s.drop_last(), m) + last_part =~= last_part);
    } else {
        let t = s.subrange(1, s.len() as int);
        lemma_renum_snoc(t, m);
        assert(t.last() == s.last());
        assert(t.drop_last() =~= s.drop_last().subrange(1, s.drop_last().len() as int));
        assert(s.drop_last()[0] == s[0]);
        let head = seq![(renum_sig(s[0].0, m), s[0].1)];
        assert(renum_terms(s, m) == head + renum_terms(t, m));
        assert(renum_terms(s.drop_last(), m) == head + renum_terms(t.drop_last(), m));
        assert(head + (renum_terms(t.drop_last(), m) + last_part) =~= (head + renum_terms(
            t.drop_last(),
            m,
        )) + last_part);
    }
}

/// Serializes the constraint list as an artifact: header, constraints, wire
/// map, and the custom-gate sections when asked for. Fails when a count
/// exceeds its fixed width or a constraint references an erased signal.
#[verifier::rlimit(100)]
pub fn port_r1cs_wasm(list: &ConstraintList, custom_gates: bool) -> (r: Result<Vec<u8>, ()>)
    requires
        list.wf(),
    ensures
        r matches Ok(bytes) ==> {
            let core = artifact_core(
                *list,
                if custom_gates {
                    5nat
                } else {
                    3nat
                },
            );
            &&& bytes@.len() >= core.len()
            &&& bytes@.subrange(0, core.len() as int) == core
            &&& (!custom_gates ==> bytes@ == core)
        },
        custom_gates ==> (r matches Ok(bytes) ==> gate_sections_follow(*list, bytes@)),
        !custom_gates && encodable(*list) ==> r is Ok,
{
    let ghost p = list.field.modulus();
    let ghost mv = list.signal_map.map@;
    let prime = list.field.prime_le_bytes();
    if prime.len() > usize::MAX / 8 {
        return Err(());
    }
    let bits = list.field.prime_bits();
    if bits > usize::MAX - 64 {
        return Err(());
    }
    let field_size: usize = if bits % 64 == 0 {
        bits / 8
    } else {
        (bits / 64 + 1) * 8
    };
    let ghost fs = field_size as nat;
    proof {
        assert(fs == field_size_spec(prime_bits_spec(list.field.prime_bytes())));
        lemma_prime_fits(list.field.prime_bytes(), fs);
    }
    if (field_size as u64) >= 0x1_0000_0000u64 {
        return Err(());
    }
    let no_wires = list.signal_map.no_wires();
    if (no_wires as u64) >= 0x1_0000_0000u64 || (list.no_public_outputs as u64) >= 0x1_0000_0000u64
        || (list.no_public_inputs as u64) >= 0x1_0000_0000u64 || (list.no_private_inputs as u64) >= 0x1_0000_0000u64 {
        return Err(());
    }

    // constraint section first into its own writer state, counting as we go
    let r1cs = R1CSWriterWasm::new(field_size, custom_gates);
    let ghost preamble = r1cs.output@;
    let header_section = r1cs.start_header_section();
    // the header body needs the written-constraint count; write the other
    // sections into a separate pass by assembling constraints first
    let nc = list.constraints.get_no_constraints();
    let mut written: usize = 0;
    let mut cons_writer = R1CSWriterWasm::new(field_size, custom_gates).start_constraints_section();
    let ghost cons_prefix = cons_writer.prefix();
    let mut ci: usize = 0;
    while ci < nc
        invariant
            ci <= nc,
            nc == list.constraints.constraints@.len(),
            list.wf(),
            p == list.field.modulus(),
            mv == list.signal_map.map@,
            fs == field_size as nat,
            fs == field_size_spec(prime_bits_spec(list.field.prime_bytes())),
            field_size < 0x1_0000_0000,
            cons_writer.wf(),
            cons_writer.field_size == field_size,
            cons_writer.index == 1,
            cons_writer.prefix() == cons_prefix,
            cons_writer.body() =~= cons_bodies(
                list.constraints.constraints@.subrange(0, ci as int),
                mv,
                fs,
            ),
            written <= ci,
            written as nat == written_count(list.constraints.constraints@.subrange(0, ci as int)),
            cons_writer.number_of_constraints == written,
        decreases nc - ci,
    {
        let c = list.constraints.read_constraint(ci);
        let ghost pre = list.constraints.constraints@.subrange(0, ci as int);
        let ghost cur = list.constraints.constraints@.subrange(0, ci + 1);
        proof {
            lemma_cons_bodies_snoc(cur, mv, fs);
            assert(cur.drop_last() =~= pre);
            assert(cur.last() == list.constraints.constraints@[ci as int]);
        }
        if !c.is_empty() {
            proof {
                if encodable(*list) {
                    lemma_encodable_at(*list, ci as int);
                    assert(*c == list.constraints.constraints@[ci as int]);
                }
            }
            let ra = match renum_expr(&c.a, &list.signal_map) {
                Ok(v) => v,
                Err(()) => {
                    return Err(());
                },
            };
            let rb = match renum_expr(&c.b, &list.signal_map) {
                Ok(v) => v,
                Err(()) => {
                    return Err(());
                },
            };
            let rc = match renum_expr(&c.c, &list.signal_map) {
                Ok(v) => v,
                Err(()) => {
                    return Err(());
                },
            };
            if !lc_fits_exec(&ra, field_size) || !lc_fits_exec(&rb, field_size) || !lc_fits_exec(
                &rc,
                field_size,
            ) {
                return Err(());
            }
            if (written as u64) >= 0xFFFF_FFFFu64 {
                proof {
                    if encodable(*list) {
                        lemma_written_count_prefix(list.constraints.constraints@, ci + 1);
                        lemma_cons_bodies_snoc(cur, mv, fs);
                    }
                }
                return Err(());
            }
            cons_writer.write_constraint_usize(&ra, &rb, &rc);
            proof {
                assert(cons_writer.body() =~= cons_bodies(cur, mv, fs));
            }
            written += 1;
        }
        ci += 1;
    }
    proof {
        assert(list.constraints.constraints@.subrange(0, nc as int)
            =~= list.constraints.constraints@);
    }

    // now the header with the true written count
    if (written as u64) >= 0x1_0000_0000u64 {
        proof {
            if encodable(*list) {
                assert(written as nat == written_count(list.constraints.constraints@));
            }
        }
        return Err(());
    }
    let mut header_section = header_section;
    let data = HeaderData {
        field: prime,
        total_wires: no_wires,
        public_outputs: list.no_public_outputs,
        public_inputs: list.no_public_inputs,
        private_inputs: list.no_private_inputs,
        number_of_labels: list.no_labels,
        number_of_constraints: written,
    };
    header_section.write_section(data);
    let r1cs = header_section.end_section();

    // splice the constraint section after the header
    let ghost after_header = r1cs.output@;
    let cons_done = cons_writer.end_section();
    let cons_bytes_full = cons_done.finish_writing();
    let mut output = r1cs.finish_writing();
    append_tail(&mut output, &cons_bytes_full, 12);

    // wire-to-label section
    let writer = R1CSWriterWasm { field_size, output, sections: Vec::new() };
    let mut signal_section = writer.start_signal_section();
    let ghost wires_prefix = signal_section.prefix();
    let nw = list.signal_map.witness.len();
    let mut wi: usize = 0;
    while wi < nw
        invariant
            wi <= nw,
            nw == list.signal_map.witness@.len(),
            signal_section.wf(),
            signal_section.index == 2,
            signal_section.field_size == field_size,
            signal_section.prefix() == wires_prefix,
            signal_section.body() =~= wires_body(list.signal_map.witness@.subrange(0, wi as int)),
        decreases nw - wi,
    {
        let sigv = list.signal_map.witness[wi];
        let ghost pre = list.signal_map.witness@.subrange(0, wi as int);
        let ghost cur = list.signal_map.witness@.subrange(0, wi + 1);
        proof {
            lemma_wires_body_snoc(cur);
            assert(cur.drop_last() =~= pre);
            assert(cur.last() == list.signal_map.witness@[wi as int]);
        }
        signal_section.write_signal_usize(sigv);
        wi += 1;
    }
    proof {
        assert(list.signal_map.witness@.subrange(0, nw as int) =~= list.signal_map.witness@);
    }
    let writer = signal_section.end_section();
    let output = writer.finish_writing();

    proof {
        let hb = header_body_bytes(
            list.field.prime_bytes(),
            fs,
            list.signal_map.witness@.len(),
            list.no_public_outputs as nat,
            list.no_public_inputs as nat,
            list.no_private_inputs as nat,
            list.no_labels as nat,
            written_count(list.constraints.constraints@),
        );
        let cb = cons_bodies(list.constraints.constraints@, mv, fs);
        let wb = wires_body(list.signal_map.witness@);
        let ns = if custom_gates {
            5nat
        } else {
            3nat
        };
        assert(output@ =~= preamble_bytes(ns) + section_bytes(1, hb) + section_bytes(2, cb)
            + section_bytes(3, wb));
        assert(output@ == artifact_core(*list, ns));
    }

    if !custom_gates {
        return Ok(output);
    }

    // custom-gate sections
    let ghost core_len = output@.len();
    let writer = R1CSWriterWasm { field_size, output, sections: Vec::new() };
    let mut used_section = writer.start_custom_gates_used_section();
    let usage = collect_gate_usages(&list.dag_encoding);
    let usage_fits = gates_fit(&usage, field_size);
    if !usage_fits {
        return Err(());
    }
    used_section.write_custom_gates_usages(&usage);
    let writer = used_section.end_section();
    let mut applied_section = writer.start_custom_gates_applied_section();
    let apps = match collect_gate_applications(&list.dag_encoding, &usage, &list.signal_map) {
        Ok(v) => v,
        Err(()) => {
            return Err(());
        },
    };
    if !apps_fit(&apps) {
        return Err(());
    }
    applied_section.write_custom_gates_applications(&apps);
    let writer = applied_section.end_section();
    let output = writer.finish_writing();
    proof {
        assert(output@.subrange(0, core_len as int) == artifact_core(*list, 5nat));
        let uv = usage@.map_values(|g: CustomGateUse| g@);
        let av = apps@.map_values(|g: CustomGateApp| g@);
        assert(output@ =~= artifact_core(*list, 5) + section_bytes(
            4,
            le_bytes(uv.len(), 4) + crate::r1cs_writer::gates_used_bytes(uv, fs),
        ) + section_bytes(
            5,
            le_bytes(av.len(), 4) + crate::r1cs_writer::gates_applied_bytes(av),
        ));
        assert(gate_sections_follow(*list, output@));
    }
    Ok(output)
}


/// With custom gates, the bytes hold the three core sections and then two
/// further complete sections: the distinct gates with their parameters at
/// field width, and the application sites.
pub open spec fn gate_sections_follow(list: ConstraintList, bytes: Seq<u8>) -> bool {
    let fs = field_size_spec(prime_bits_spec(list.field.prime_bytes()));
    exists|u: Seq<(Seq<u8>, Seq<Seq<u8>>)>, a: Seq<(nat, Seq<usize>)>|
        bytes == artifact_core(list, 5) + section_bytes(
            4,
            le_bytes(u.len(), 4) + #[trigger] crate::r1cs_writer::gates_used_bytes(u, fs),
        ) + section_bytes(
            5,
            le_bytes(a.len(), 4) + #[trigger] crate::r1cs_writer::gates_applied_bytes(a),
        )
}

/// The prime's minimal bytes fit the computed field width.
proof fn lemma_prime_fits(prime: Seq<u8>, fs: nat)
    requires
        crate::bytes::minimal_le(prime),
        fs == field_size_spec(prime_bits_spec(prime)),
    ensures
        prime.len() <= fs,
{
    if prime.len() == 0 {
    } else {
        let bits = prime_bits_spec(prime);
        assert(crate::field::bit_len(prime[prime.len() - 1] as nat) >= 1) by {
            assert(prime[prime.len() - 1] != 0);
        }
        assert(bits >= 8 * (prime.len() - 1) + 1);
        assert(fs * 8 >= bits) by {
            if bits % 64 == 0 {
                vstd::arithmetic::div_mod::lemma_fundamental_div_mod(bits as int, 8);
                assert(bits % 8 == 0) by (nonlinear_arith)
                    requires bits % 64 == 0;
                assert((bits / 8) * 8 == bits) by (nonlinear_arith)
                    requires bits % 8 == 0;
            } else {
                assert((bits / 64 + 1) * 8 * 8 == (bits / 64 + 1) * 64) by (nonlinear_arith);
                vstd::arithmetic::div_mod::lemma_fundamental_div_mod(bits as int, 64);
                assert(bits == 64 * (bits / 64) + bits % 64);
                assert((bits / 64 + 1) * 64 == 64 * (bits / 64) + 64) by (nonlinear_arith);
            }
        }
        assert(8 * prime.len() <= bits + 7);
        assert(8 * prime.len() <= fs * 8 + 7);
        assert(prime.len() <= fs) by (nonlinear_arith)
            requires 8 * prime.len() <= fs * 8 + 7;
    }
}

/// Whether every term of the combination fits the fixed widths.
fn lc_fits_exec(e: &LinearExpr, field_size: usize) -> (r: bool)
    ensures
        r == crate::r1cs_writer::lc_fits(e@, field_size as nat),
{
    if (e.terms.len() as u64) >= 0x1_0000_0000u64 {
        proof {
            assert(!crate::r1cs_writer::lc_fits(e@, field_size as nat));
        }
        return false;
    }
    let n = e.terms.len();
    let mut i: usize = 0;
    while i < n
        invariant
            i <= n,
            n == e@.len(),
            n < 0x1_0000_0000,
            forall|k: int|
                0 <= k < i ==> (#[trigger] e@[k]).0 < 0x1_0000_0000 && e@[k].1.len()
                    <= field_size,
        decreases n - i,
    {
        proof {
            assert(e@[i as int] == (e.terms@[i as int].signal as nat, e.terms@[i as int].coeff@));
        }
        if (e.terms[i].signal as u64) >= 0x1_0000_0000u64 || e.terms[i].coeff.len() > field_size {
            return false;
        }
        i += 1;
    }
    true
}

/// Appends the bytes of `src` from `from` on.
fn append_tail(out: &mut Vec<u8>, src: &Vec<u8>, from: usize)
    requires
        from <= src@.len(),
    ensures
        final(out)@ == old(out)@ + src@.subrange(from as int, src@.len() as int),
{
    let mut i: usize = from;
    while i < src.len()
        invariant
            from <= i <= src@.len(),
            out@ =~= old(out)@ + src@.subrange(from as int, i as int),
        decreases src@.len() - i,
    {
        out.push(src[i]);
        i += 1;
    }
    proof {
        assert(out@ =~= old(out)@ + src@.subrange(from as int, src@.len() as int));
    }
}

/// Gathers the distinct custom gates from the encoding, in occurrence order;
/// each name is cut at its last parenthesis, dropping the instantiation
/// arguments the instance name carries.
fn collect_gate_usages(enc: &crate::dag::Encoding) -> (r: Vec<CustomGateUse>)
{
    let mut r: Vec<CustomGateUse> = Vec::new();
    let n = enc.nodes.len();
    let mut i: usize = 0;
    while i < n
        invariant
            i <= n,
            n == enc.nodes@.len(),
        decreases n - i,
    {
        if enc.nodes[i].is_custom_gate {
            let name = trim_at_last_paren(&enc.nodes[i].name);
            let mut parameters: Vec<Vec<u8>> = Vec::new();
            let np = enc.nodes[i].parameters.len();
            let mut pi: usize = 0;
            while pi < np
                invariant
                    pi <= np,
                    i < enc.nodes@.len(),
                    np == enc.nodes@[i as int].parameters@.len(),
                decreases np - pi,
            {
                parameters.push(crate::algebra::clone_bytes(&enc.nodes[i].parameters[pi]));
                pi += 1;
            }
            r.push(CustomGateUse { name, parameters });
        }
        i += 1;
    }
    r
}

/// The name bytes before the last opening parenthesis; the whole name when
/// none occurs.
fn trim_at_last_paren(name: &Vec<u8>) -> (r: Vec<u8>)
{
    let mut cut = name.len();
    let mut i: usize = 0;
    while i < name.len()
        invariant
            i <= name@.len(),
            cut <= name@.len(),
        decreases name@.len() - i,
    {
        if name[i] == 40 {
            cut = i;
        }
        i += 1;
    }
    let mut r: Vec<u8> = Vec::new();
    let mut j: usize = 0;
    while j < cut
        invariant
            j <= cut,
            cut <= name@.len(),
        decreases cut - j,
    {
        r.push(name[j]);
        j += 1;
    }
    r
}

/// Whether every gate entry fits the fixed widths.
fn gates_fit(gs: &Vec<CustomGateUse>, field_size: usize) -> (r: bool)
    ensures
        r ==> gs@.len() < 0x1_0000_0000 && forall|i: int|
            0 <= i < gs@.len() ==> (#[trigger] gs@[i])@.1.len() < 0x1_0000_0000 && forall|j: int|
                0 <= j < gs@[i]@.1.len() ==> (#[trigger] gs@[i]@.1[j]).len() <= field_size,
{
    if (gs.len() as u64) >= 0x1_0000_0000u64 {
        return false;
    }
    let mut i: usize = 0;
    while i < gs.len()
        invariant
            i <= gs@.len(),
            forall|k: int|
                0 <= k < i ==> (#[trigger] gs@[k])@.1.len() < 0x1_0000_0000 && forall|j: int|
                    0 <= j < gs@[k]@.1.len() ==> (#[trigger] gs@[k]@.1[j]).len() <= field_size,
        decreases gs@.len() - i,
    {
        if (gs[i].parameters.len() as u64) >= 0x1_0000_0000u64 {
            return false;
        }
        let mut j: usize = 0;
        while j < gs[i].parameters.len()
            invariant
                i < gs@.len(),
                j <= gs@[i as int].parameters@.len(),
                forall|k: int|
                    0 <= k < j ==> (#[trigger] gs@[i as int]@.1[k]).len() <= field_size,
            decreases gs@[i as int].parameters@.len() - j,
        {
            if gs[i].parameters[j].len() > field_size {
                return false;
            }
            proof {
                assert(gs@[i as int]@.1[j as int] == gs@[i as int].parameters@[j as int]@);
            }
            j += 1;
        }
        proof {
            assert(gs@[i as int]@.1.len() == gs@[i as int].parameters@.len());
        }
        i += 1;
    }
    true
}

/// Whether the application sites fit the fixed widths.
fn apps_fit(gs: &Vec<CustomGateApp>) -> (r: bool)
    ensures
        r ==> gs@.len() < 0x1_0000_0000 && forall|i: int|
            0 <= i < gs@.len() ==> (#[trigger] gs@[i]).index < 0x1_0000_0000
                && gs@[i].signals@.len() < 0x1_0000_0000,
{
    if (gs.len() as u64) >= 0x1_0000_0000u64 {
        return false;
    }
    let mut i: usize = 0;
    while i < gs.len()
        invariant
            i <= gs@.len(),
            forall|k: int|
                0 <= k < i ==> (#[trigger] gs@[k]).index < 0x1_0000_0000 && gs@[k].signals@.len()
                    < 0x1_0000_0000,
        decreases gs@.len() - i,
    {
        if (gs[i].index as u64) >= 0x1_0000_0000u64 || (gs[i].signals.len() as u64) >= 0x1_0000_0000u64 {
            return false;
        }
        i += 1;
    }
    true
}

/// Gathers the application sites: every custom-gate instance, the applied
/// gate by occurrence order (matched by trimmed name), the touched signals
/// as witness indices. Fails when an applied signal was erased or a gate is
/// unknown.
fn collect_gate_applications(
    enc: &crate::dag::Encoding,
    usage: &Vec<CustomGateUse>,
    map: &SignalMap,
) -> (r: Result<Vec<CustomGateApp>, ()>)
{
    let mut r: Vec<CustomGateApp> = Vec::new();
    let n = enc.nodes.len();
    let mut i: usize = 0;
    while i < n
        invariant
            i <= n,
            n == enc.nodes@.len(),
        decreases n - i,
    {
        if enc.nodes[i].is_custom_gate {
            let name = trim_at_last_paren(&enc.nodes[i].name);
            let idx = match find_gate_index(usage, &name) {
                Some(k) => k,
                None => {
                    return Err(());
                },
            };
            let mut signals: Vec<usize> = Vec::new();
            let ns = enc.nodes[i].ordered_signals.len();
            let mut si: usize = 0;
            while si < ns
                invariant
                    si <= ns,
                    i < enc.nodes@.len(),
                    ns == enc.nodes@[i as int].ordered_signals@.len(),
                decreases ns - si,
            {
                let s = enc.nodes[i].ordered_signals[si];
                if s >= map.map.len() {
                    return Err(());
                }
                match map.get(s) {
                    Some(w) => {
                        signals.push(w);
                    },
                    None => {
                        return Err(());
                    },
                }
                si += 1;
            }
            r.push(CustomGateApp { index: idx, signals });
        }
        i += 1;
    }
    Ok(r)
}

/// First gate entry whose trimmed name equals the given one.
fn find_gate_index(usage: &Vec<CustomGateUse>, name: &Vec<u8>) -> (r: Option<usize>)
    ensures
        r matches Some(i) ==> i < usage@.len(),
{
    let mut i: usize = 0;
    while i < usage.len()
        invariant
            i <= usage@.len(),
        decreases usage@.len() - i,
    {
        if bytes_equal(&usage[i].name, name) {
            return Some(i);
        }
        i += 1;
    }
    None
}

fn bytes_equal(a: &Vec<u8>, b: &Vec<u8>) -> (r: bool)
    ensures
        r <==> a@ == b@,
{
    if a.len() != b.len() {
        proof {
            assert(a@ != b@);
        }
        return false;
    }
    let mut i: usize = 0;
    while i < a.len()
        invariant
            i <= a@.len(),
            a@.len() == b@.len(),
            forall|j: int| 0 <= j < i ==> a@[j] == b@[j],
        decreases a@.len() - i,
    {
        if a[i] != b[i] {
            return false;
        }
        i += 1;
    }
    proof {
        assert(a@ =~= b@);
    }
    true
}

/// The header fields read back from an artifact: field width, wire count,
/// output and input counts, label count, constraint count.
pub open spec fn parse_header_fields(bytes: Seq<u8>) -> Option<(nat, nat, nat, nat, nat, nat, nat)> {
    if bytes.len() < 28 {
        None
    } else if bytes.subrange(0, 8) != seq![0x72u8, 0x31u8, 0x63u8, 0x73u8, 1u8, 0u8, 0u8, 0u8] {
        None
    } else if bytes.subrange(12, 16) != le_bytes(1, 4) {
        None
    } else {
        let fs = le_val(bytes.subrange(24, 28));
        if bytes.len() < 28 + fs + 28 {
            None
        } else {
            let base = (28 + fs) as int;
            Some(
                (
                    fs,
                    le_val(bytes.subrange(base, base + 4)),
                    le_val(bytes.subrange(base + 4, base + 8)),
                    le_val(bytes.subrange(base + 8, base + 12)),
                    le_val(bytes.subrange(base + 12, base + 16)),
                    le_val(bytes.subrange(base + 16, base + 24)),
                    le_val(bytes.subrange(base + 24, base + 28)),
                ),
            )
        }
    }
}

/// The header fields decoded from an artifact, in the order the spec parser
/// gives them.
pub struct DecodedHeader {
    pub field_size: u64,
    pub total_wires: u64,
    pub public_outputs: u64,
    pub public_inputs: u64,
    pub private_inputs: u64,
    pub number_of_labels: u64,
    pub number_of_constraints: u64,
}

/// `le_val` of one more byte at the end.
proof fn lemma_le_val_push(s: Seq<u8>, b: u8)
    ensures
        le_val(s.push(b)) == le_val(s) + pow256(s.len()) * (b as nat),
{
    assert(s.push(b) =~= s + seq![b]);
    lemma_le_val_append(s, seq![b]);
    crate::bytes::lemma_le_val_single(b);
}

/// Reads a little-endian number of up to 8 bytes.
fn read_le(bytes: &Vec<u8>, off: usize, k: usize) -> (r: u64)
    requires
        k <= 8,
        off + k <= bytes@.len(),
    ensures
        r as nat == le_val(bytes@.subrange(off as int, (off + k) as int)),
{
    let n = bytes.len();
    let ghost window = bytes@.subrange(off as int, (off + k) as int);
    let mut val: u64 = 0;
    let mut factor: u64 = 1;
    let mut i: usize = 0;
    proof {
        assert(window.subrange(0, 0) =~= Seq::<u8>::empty());
        crate::bytes::lemma_pow256_pos(0);
    }
    while i < k
        invariant
            i <= k,
            k <= 8,
            off + k <= n,
            n == bytes@.len(),
            window == bytes@.subrange(off as int, (off + k) as int),
            val as nat == le_val(window.subrange(0, i as int)),
            (val as nat) < pow256(i as nat),
            i < 8 ==> factor as nat == pow256(i as nat),
        decreases k - i,
    {
        let b = bytes[off + i];
        proof {
            reveal_with_fuel(pow256, 9);
            assert(pow256(8) == 0x1_0000_0000_0000_0000);
            crate::field::lemma_pow256_mono((i + 1) as nat, 8);
            assert(pow256(i as nat) * (b as nat) <= pow256(i as nat) * 255) by (nonlinear_arith)
                requires b <= 255;
            assert((val as nat) + pow256(i as nat) * 255 < 256 * pow256(i as nat))
                by (nonlinear_arith)
                requires (val as nat) < pow256(i as nat);
            assert(256 * pow256(i as nat) == pow256((i + 1) as nat));
            let pre = window.subrange(0, i as int);
            let cur = window.subrange(0, i + 1);
            assert(cur =~= pre.push(window[i as int]));
            assert(window[i as int] == bytes@[off + i]);
            lemma_le_val_push(pre, bytes@[off + i]);
        }
        val = val + factor * (b as u64);
        if i + 1 < 8 {
            proof {
                assert(256 * pow256(i as nat) == pow256((i + 1) as nat));
                crate::field::lemma_pow256_mono((i + 1) as nat, 7);
                reveal_with_fuel(pow256, 9);
            }
            factor = factor * 256;
        }
        i += 1;
    }
    proof {
        assert(window.subrange(0, k as int) =~= window);
    }
    val
}

/// Decodes the header section of an artifact; the fields come back exactly
/// as the spec parser reads them.
pub fn decode_header(bytes: &Vec<u8>) -> (r: Option<DecodedHeader>)
    ensures
        match r {
            Some(h) => parse_header_fields(bytes@) == Some(
                (
                    h.field_size as nat,
                    h.total_wires as nat,
                    h.public_outputs as nat,
                    h.public_inputs as nat,
                    h.private_inputs as nat,
                    h.number_of_labels as nat,
                    h.number_of_constraints as nat,
                ),
            ),
            None => parse_header_fields(bytes@) is None,
        },
{
    if bytes.len() < 28 {
        return None;
    }
    let magic_ok = bytes[0] == 0x72 && bytes[1] == 0x31 && bytes[2] == 0x63 && bytes[3] == 0x73
        && bytes[4] == 1 && bytes[5] == 0 && bytes[6] == 0 && bytes[7] == 0;
    if !magic_ok {
        proof {
            let m = seq![0x72u8, 0x31u8, 0x63u8, 0x73u8, 1u8, 0u8, 0u8, 0u8];
            if bytes@.subrange(0, 8) == m {
                assert(bytes@[0] == m[0] && bytes@[1] == m[1] && bytes@[2] == m[2] && bytes@[3]
                    == m[3] && bytes@[4] == m[4] && bytes@[5] == m[5] && bytes@[6] == m[6]
                    && bytes@[7] == m[7]) by {
                    assert forall|j: int| 0 <= j < 8 implies bytes@[j] == m[j] by {
                        assert(bytes@.subrange(0, 8)[j] == bytes@[j]);
                    }
                }
            }
        }
        return None;
    }
    proof {
        assert(bytes@.subrange(0, 8) =~= seq![0x72u8, 0x31u8, 0x63u8, 0x73u8, 1u8, 0u8, 0u8, 0u8]);
    }
    let tag_ok = bytes[12] == 1 && bytes[13] == 0 && bytes[14] == 0 && bytes[15] == 0;
    proof {
        reveal_with_fuel(le_bytes, 5);
        assert(le_bytes(1, 4) =~= seq![1u8, 0u8, 0u8, 0u8]);
        if tag_ok {
            assert(bytes@.subrange(12, 16) =~= le_bytes(1, 4));
        } else {
            if bytes@.subrange(12, 16) == le_bytes(1, 4) {
                assert forall|j: int| 0 <= j < 4 implies bytes@[12 + j] == le_bytes(1, 4)[j] by {
                    assert(bytes@.subrange(12, 16)[j] == bytes@[12 + j]);
                }
            }
        }
    }
    if !tag_ok {
        return None;
    }
    let fs64 = read_le(bytes, 24, 4);
    proof {
        crate::bytes::lemma_le_val_bound(bytes@.subrange(24, 28));
        reveal_with_fuel(pow256, 5);
    }
    let fs = fs64 as usize;
    if bytes.len() < 28 || fs > bytes.len() - 28 || bytes.len() - 28 - fs < 28 {
        proof {
            assert(bytes@.len() < 28 + le_val(bytes@.subrange(24, 28)) + 28);
        }
        return None;
    }
    let base = 28 + fs;
    let total_wires = read_le(bytes, base, 4);
    let public_outputs = read_le(bytes, base + 4, 4);
    let public_inputs = read_le(bytes, base + 8, 4);
    let private_inputs = read_le(bytes, base + 12, 4);
    let number_of_labels = read_le(bytes, base + 16, 8);
    let number_of_constraints = read_le(bytes, base + 24, 4);
    Some(
        DecodedHeader {
            field_size: fs64,
            total_wires,
            public_outputs,
            public_inputs,
            private_inputs,
            number_of_labels,
            number_of_constraints,
        },
    )
}

/// Decoding a produced artifact's header section reproduces the exact field
/// width, wire and input/output counts, label count and constraint count
/// that were encoded, whatever follows the first three sections.
pub proof fn lemma_header_round_trip(
    prime: Seq<u8>,
    fs: nat,
    w: nat,
    po: nat,
    pi: nat,
    pri: nat,
    nl: nat,
    nc: nat,
    cb: Seq<u8>,
    wb: Seq<u8>,
    ns: nat,
    tail: Seq<u8>,
)
    requires
        prime.len() <= fs,
        fs < 0x1_0000_0000,
        w < 0x1_0000_0000,
        po < 0x1_0000_0000,
        pi < 0x1_0000_0000,
        pri < 0x1_0000_0000,
        nc < 0x1_0000_0000,
        nl < 0x1_0000_0000_0000_0000,
    ensures
        parse_header_fields(
            preamble_bytes(ns) + section_bytes(1, header_body_bytes(prime, fs, w, po, pi, pri, nl, nc))
                + section_bytes(2, cb) + section_bytes(3, wb) + tail,
        ) == Some((fs, w, po, pi, pri, nl, nc)),
{
    let hb = header_body_bytes(prime, fs, w, po, pi, pri, nl, nc);
    let bytes = preamble_bytes(ns) + section_bytes(1, hb) + section_bytes(2, cb) + section_bytes(
        3,
        wb,
    ) + tail;
    crate::bytes::lemma_le_bytes_len(ns, 4);
    crate::bytes::lemma_le_bytes_len(fs, 4);
    crate::bytes::lemma_le_bytes_len(w, 4);
    crate::bytes::lemma_le_bytes_len(po, 4);
    crate::bytes::lemma_le_bytes_len(pi, 4);
    crate::bytes::lemma_le_bytes_len(pri, 4);
    crate::bytes::lemma_le_bytes_len(nl, 8);
    crate::bytes::lemma_le_bytes_len(nc, 4);
    crate::bytes::lemma_le_bytes_len(1, 4);
    crate::bytes::lemma_le_bytes_len(hb.len(), 8);
    let pad = crate::r1cs_writer::pad_bytes(prime, fs);
    assert(pad.len() == fs);
    assert(hb.len() == fs + 32);
    let prefix = preamble_bytes(ns) + section_bytes(1, hb);
    assert(prefix.len() == 36 + fs + 20);
    assert(bytes.len() >= prefix.len());
    assert forall|j: int| 0 <= j < prefix.len() implies bytes[j] == prefix[j] by {}
    // the fixed preamble
    assert(bytes.subrange(0, 8) =~= seq![0x72u8, 0x31u8, 0x63u8, 0x73u8, 1u8, 0u8, 0u8, 0u8]);
    // the header tag
    assert(bytes.subrange(12, 16) =~= le_bytes(1, 4));
    // the field width
    assert(bytes.subrange(24, 28) =~= le_bytes(fs, 4));
    reveal_with_fuel(crate::bytes::pow256, 9);
    crate::bytes::lemma_le_bytes_val(fs, 4);
    assert(le_val(bytes.subrange(24, 28)) == fs);
    assert(bytes.len() >= 28 + fs + 28);
    let base = (28 + fs) as int;
    // the six counts, at their fixed offsets after the padded prime
    assert(bytes.subrange(base, base + 4) =~= le_bytes(w, 4));
    assert(bytes.subrange(base + 4, base + 8) =~= le_bytes(po, 4));
    assert(bytes.subrange(base + 8, base + 12) =~= le_bytes(pi, 4));
    assert(bytes.subrange(base + 12, base + 16) =~= le_bytes(pri, 4));
    assert(bytes.subrange(base + 16, base + 24) =~= le_bytes(nl, 8));
    assert(bytes.subrange(base + 24, base + 28) =~= le_bytes(nc, 4));
    crate::bytes::lemma_le_bytes_val(w, 4);
    crate::bytes::lemma_le_bytes_val(po, 4);
    crate::bytes::lemma_le_bytes_val(pi, 4);
    crate::bytes::lemma_le_bytes_val(pri, 4);
    crate::bytes::lemma_le_bytes_val(nl, 8);
    crate::bytes::lemma_le_bytes_val(nc, 4);
}

/// The round trip stated of a serialized constraint list: parsing the bytes
/// the encoder produced gives back exactly what was passed to it.
pub proof fn lemma_artifact_round_trip(list: ConstraintList, ns: nat, tail: Seq<u8>)
    requires
        crate::bytes::minimal_le(list.field.prime_bytes()),
        field_size_spec(prime_bits_spec(list.field.prime_bytes())) < 0x1_0000_0000,
        list.signal_map.witness@.len() < 0x1_0000_0000,
        list.no_public_outputs < 0x1_0000_0000,
        list.no_public_inputs < 0x1_0000_0000,
        list.no_private_inputs < 0x1_0000_0000,
        written_count(list.constraints.constraints@) < 0x1_0000_0000,
        list.no_labels < 0x1_0000_0000_0000_0000,
    ensures
        parse_header_fields(artifact_core(list, ns) + tail) == Some(
            (
                field_size_spec(prime_bits_spec(list.field.prime_bytes())),
                list.signal_map.witness@.len() as nat,
                list.no_public_outputs as nat,
                list.no_public_inputs as nat,
                list.no_private_inputs as nat,
                list.no_labels as nat,
                written_count(list.constraints.constraints@),
            ),
        ),
{
    let prime = list.field.prime_bytes();
    let fs = field_size_spec(prime_bits_spec(prime));
    lemma_prime_fits(prime, fs);
    let hb = header_body_bytes(
        prime,
        fs,
        list.signal_map.witness@.len(),
        list.no_public_outputs as nat,
        list.no_public_inputs as nat,
        list.no_private_inputs as nat,
        list.no_labels as nat,
        written_count(list.constraints.constraints@),
    );
    let cb = cons_bodies(list.constraints.constraints@, list.signal_map.map@, fs);
    let wb = wires_body(list.signal_map.witness@);
    lemma_header_round_trip(
        prime,
        fs,
        list.signal_map.witness@.len(),
        list.no_public_outputs as nat,
        list.no_public_inputs as nat,
        list.no_private_inputs as nat,
        list.no_labels as nat,
        written_count(list.constraints.constraints@),
        cb,
        wb,
        ns,
        tail,
    );
    assert(artifact_core(list, ns) + tail =~= preamble_bytes(ns) + section_bytes(1, hb)
        + section_bytes(2, cb) + section_bytes(3, wb) + tail);
}

/// How many stored constraints are linear.
pub open spec fn linear_count(cs: Seq<Constraint>) -> nat
    decreases cs.len(),
{
    if cs.len() == 0 {
        0nat
    } else {
        (if cs[0].is_linear_spec() {
            1nat
        } else {
            0nat
        }) + linear_count(cs.subrange(1, cs.len() as int))
    }
}

proof fn lemma_linear_count_snoc(cs: Seq<Constraint>)
    requires
        cs.len() > 0,
    ensures
        linear_count(cs) == linear_count(cs.drop_last()) + (if cs.last().is_linear_spec() {
            1nat
        } else {
            0nat
        }),
    decreases cs.len(),
{
    if cs.len() == 1 {
        assert(cs.drop_last() =~= Seq::empty());
        assert(cs.subrange(1, cs.len() as int) =~= Seq::empty());
        assert(cs.last() == cs[0]);
    } else {
        let t = cs.subrange(1, cs.len() as int);
        lemma_linear_count_snoc(t);
        assert(t.last() == cs.last());
        assert(t.drop_last() =~= cs.drop_last().subrange(1, cs.drop_last().len() as int));
        assert(cs.drop_last()[0] == cs[0]);
    }
}

/// What a constraint list can export.
pub trait R1csExporter {
    /// When the exporter is in a state fit for serialization.
    spec fn export_wf(&self) -> bool;

    /// What a successful export means for this exporter.
    spec fn export_ok(&self, custom_gates: bool, bytes: Seq<u8>, log: LogWasm) -> bool;

    /// The binary artifact and its summary log.
    fn r1cs(&self, custom_gates: bool) -> (r: Result<(Vec<u8>, LogWasm), ()>)
        requires
            self.export_wf(),
        ensures
            r matches Ok(pair) ==> self.export_ok(custom_gates, pair.0@, pair.1),
    ;
}

impl R1csExporter for ConstraintList {
    open spec fn export_wf(&self) -> bool {
        self.wf()
    }

    /// The bytes are the serializer's artifact and the log carries this
    /// list's counts.
    open spec fn export_ok(&self, custom_gates: bool, bytes: Seq<u8>, log: LogWasm) -> bool {
        let core = artifact_core(
            *self,
            if custom_gates {
                5nat
            } else {
                3nat
            },
        );
        &&& bytes.len() >= core.len()
        &&& bytes.subrange(0, core.len() as int) == core
        &&& (!custom_gates ==> bytes == core)
        &&& log.no_labels == self.no_labels
        &&& log.no_wires == self.signal_map.witness@.len()
        &&& log.no_public_inputs == self.no_public_inputs
        &&& log.no_public_outputs == self.no_public_outputs
        &&& log.no_private_inputs == self.no_private_inputs
        &&& log.no_linear == linear_count(self.constraints.constraints@)
        &&& log.no_non_linear + log.no_linear == self.constraints.constraints@.len()
    }

    fn r1cs(&self, custom_gates: bool) -> Result<(Vec<u8>, LogWasm), ()> {
        let bytes = match port_r1cs_wasm(self, custom_gates) {
            Ok(b) => b,
            Err(()) => {
                return Err(());
            },
        };
        let mut log = LogWasm::new();
        log.no_labels = self.no_labels();
        log.no_wires = self.no_wires();
        log.no_private_inputs = self.no_private_inputs;
        log.no_public_inputs = self.no_public_inputs;
        log.no_public_outputs = self.no_public_outputs;
        let n = self.constraints.get_no_constraints();
        let mut no_linear: usize = 0;
        let mut no_non_linear: usize = 0;
        let mut i: usize = 0;
        while i < n
            invariant
                i <= n,
                n == self.constraints.constraints@.len(),
                no_linear <= i,
                no_non_linear <= i,
                no_linear as nat == linear_count(self.constraints.constraints@.subrange(0, i as int)),
                no_linear + no_non_linear == i,
            decreases n - i,
        {
            proof {
                let cur = self.constraints.constraints@.subrange(0, i + 1);
                lemma_linear_count_snoc(cur);
                assert(cur.drop_last() =~= self.constraints.constraints@.subrange(0, i as int));
                assert(cur.last() == self.constraints.constraints@[i as int]);
            }
            if self.constraints.read_constraint(i).is_linear() {
                no_linear = no_linear + 1;
            } else {
                no_non_linear = no_non_linear + 1;
            }
            i += 1;
        }
        proof {
            assert(self.constraints.constraints@.subrange(0, n as int)
                =~= self.constraints.constraints@);
        }
        log.no_linear = no_linear;
        log.no_non_linear = no_non_linear;
        Ok((bytes, log))
    }
}

/// Produces the artifact bytes of a simplified system, or the failure
/// message when serialization fails.
pub fn generate_output_r1cs(exporter: &ConstraintList, custom_gates: bool) -> (r: Result<
    Vec<u8>,
    Vec<String>,
>)
    requires
        exporter.wf(),
    ensures
        r matches Ok(bytes) ==> {
            let core = artifact_core(
                *exporter,
                if custom_gates {
                    5nat
                } else {
                    3nat
                },
            );
            &&& bytes@.len() >= core.len()
            &&& bytes@.subrange(0, core.len() as int) == core
            &&& (!custom_gates ==> bytes@ == core)
        },
        !custom_gates && encodable(*exporter) ==> r is Ok,
        r matches Err(msgs) ==> msgs@.len() == 1 && msgs@[0]@
            == "Could not generate r1cs output for the selected file"@,
{
    match port_r1cs_wasm(exporter, custom_gates) {
        Ok(bytes) => Ok(bytes),
        Err(()) => {
            let mut msgs: Vec<String> = Vec::new();
            msgs.push(String::from_str("Could not generate r1cs output for the selected file"));
            Err(msgs)
        },
    }
}

} // verus!
