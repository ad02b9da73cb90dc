//! Section-framed binary writer for a simplified constraint system.
//!
//! The artifact starts with a 4-byte magic tag, a 4-byte format version and a
//! 4-byte section count, followed by sections; each section is a 4-byte type
//! tag, an 8-byte byte-length and the body. The length is reserved as a
//! placeholder when the section starts and patched once the body is written.
//!
//! Every write appends to a growable buffer; each writer state ties the
//! buffer to the start of the open section, so that ending the section
//! proves the buffer is the prefix plus one fully framed section.

use vstd::prelude::*;

use crate::bytes::{into_format, le_bytes, le_val, u32_to_le, u64_to_le};

verus! {

/// Byte width of a section-length field.
pub const LENGTH_BYTES: usize = 8;

/// The fixed preamble: magic tag `r1cs`, version 1, section count.
pub open spec fn preamble_bytes(num_sections: nat) -> Seq<u8> {
    seq![0x72u8, 0x31u8, 0x63u8, 0x73u8, 1u8, 0u8, 0u8, 0u8] + le_bytes(num_sections, 4)
}

/// One framed section: type tag, byte length, body.
pub open spec fn section_bytes(stype: nat, body: Seq<u8>) -> Seq<u8> {
    le_bytes(stype, 4) + le_bytes(body.len(), 8) + body
}

/// A little-endian number padded with zero bytes to `n` bytes.
pub open spec fn pad_bytes(s: Seq<u8>, n: nat) -> Seq<u8> {
    s + Seq::new((n - s.len()) as nat, |i: int| 0u8)
}

/// One term of an encoded linear-combination block.
pub open spec fn term_bytes(t: (nat, Seq<u8>), fs: nat) -> Seq<u8> {
    le_bytes(t.0, 4) + pad_bytes(t.1, fs)
}

pub open spec fn terms_bytes(s: Seq<(nat, Seq<u8>)>, fs: nat) -> Seq<u8>
    decreases s.len(),
{
    if s.len() == 0 {
        Seq::empty()
    } else {
        term_bytes(s[0], fs) + terms_bytes(s.subrange(1, s.len() as int), fs)
    }
}

/// An encoded linear-combination block: term count, then each term.
pub open spec fn lc_block_bytes(s: Seq<(nat, Seq<u8>)>, fs: nat) -> Seq<u8> {
    le_bytes(s.len(), 4) + terms_bytes(s, fs)
}

pub proof fn lemma_terms_bytes_snoc(s: Seq<(nat, Seq<u8>)>, fs: nat)
    requires
        s.len() > 0,
    ensures
        terms_bytes(s, fs) == terms_bytes(s.drop_last(), fs) + term_bytes(s.last(), fs),
    decreases s.len(),
{
    if s.len() == 1 {
        assert(s.drop_last() =~= Seq::empty());
        assert(s.subrange(1, s.len() as int) =~= Seq::empty());
        assert(terms_bytes(s, fs) =~= term_bytes(s[0], fs) + terms_bytes(Seq::empty(), fs));
        assert(term_bytes(s[0], fs) + Seq::<u8>::empty() =~= term_bytes(s[0], fs));
        assert(Seq::<u8>::empty() + term_bytes(s[0], fs) =~= term_bytes(s[0], fs));
    } else {
        let t = s.subrange(1, s.len() as int);
        lemma_terms_bytes_snoc(t, fs);
        assert(t.drop_last() =~= s.drop_last().subrange(1, s.drop_last().len() as int));
        assert(t.last() == s.last());
        assert(terms_bytes(s, fs) =~= term_bytes(s[0], fs) + (terms_bytes(t.drop_last(), fs)
            + term_bytes(s.last(), fs)));
        assert(term_bytes(s[0], fs) + (terms_bytes(t.drop_last(), fs) + term_bytes(
            s.last(),
            fs,
        )) =~= (term_bytes(s[0], fs) + terms_bytes(t.drop_last(), fs)) + term_bytes(
            s.last(),
            fs,
        ));
        assert(s.drop_last()[0] == s[0]);
        assert(terms_bytes(s.drop_last(), fs) =~= term_bytes(s[0], fs) + terms_bytes(
            t.drop_last(),
            fs,
        ));
    }
}

/// The header-section body: field width, prime, wire and input/output counts,
/// label count, constraint count.
pub open spec fn header_body_bytes(
    prime: Seq<u8>,
    fs: nat,
    total_wires: nat,
    public_outputs: nat,
    public_inputs: nat,
    private_inputs: nat,
    number_of_labels: nat,
    number_of_constraints: nat,
) -> Seq<u8> {
    le_bytes(fs, 4) + pad_bytes(prime, fs) + le_bytes(total_wires, 4) + le_bytes(public_outputs, 4)
        + le_bytes(public_inputs, 4) + le_bytes(private_inputs, 4) + le_bytes(number_of_labels, 8)
        + le_bytes(number_of_constraints, 4)
}

/// The header counts, as handed to the header section.
pub struct HeaderData {
    pub field: Vec<u8>,
    pub total_wires: usize,
    pub public_outputs: usize,
    pub public_inputs: usize,
    pub private_inputs: usize,
    pub number_of_labels: usize,
    pub number_of_constraints: usize,
}

/// Appends the bytes of `src` to `out`.
fn append_bytes(out: &mut Vec<u8>, src: &Vec<u8>)
    ensures
        final(out)@ == old(out)@ + src@,
{
    let mut i: usize = 0;
    while i < src.len()
        invariant
            i <= src@.len(),
            out@ =~= old(out)@ + src@.subrange(0, i as int),
        decreases src@.len() - i,
    {
        out.push(src[i]);
        i += 1;
    }
    proof {
        assert(out@ =~= old(out)@ + src@);
    }
}

/// Overwrites the `LENGTH_BYTES` bytes at `at` with `bytes`.
fn patch_length(out: &mut Vec<u8>, at: usize, bytes: &Vec<u8>)
    requires
        bytes@.len() == LENGTH_BYTES,
        at + LENGTH_BYTES <= old(out)@.len(),
    ensures
        final(out)@ =~= old(out)@.subrange(0, at as int) + bytes@ + old(out)@.subrange(
            at + LENGTH_BYTES,
            old(out)@.len() as int,
        ),
{
    let total = out.len();
    let mut i: usize = 0;
    while i < LENGTH_BYTES
        invariant
            i <= LENGTH_BYTES,
            bytes@.len() == LENGTH_BYTES,
            at + LENGTH_BYTES <= out@.len(),
            out@.len() == total,
            out@.len() == old(out)@.len(),
            forall|j: int| 0 <= j < at ==> out@[j] == old(out)@[j],
            forall|j: int| at + LENGTH_BYTES <= j < out@.len() ==> out@[j] == old(out)@[j],
            forall|j: int| 0 <= j < i ==> out@[at + j] == #[trigger] bytes@[j],
            forall|j: int| i <= j < LENGTH_BYTES ==> #[trigger] out@[at + j] == old(out)@[at + j],
        decreases LENGTH_BYTES - i,
    {
        out.set(at + i, bytes[i]);
        i += 1;
    }
}

/// The buffer-backed artifact writer, between sections.
pub struct R1CSWriterWasm {
    pub field_size: usize,
    pub output: Vec<u8>,
    pub sections: Vec<bool>,
}

/// An open section: `go_back` is where the length placeholder sits; the body
/// grows at the end of the buffer.
pub struct HeaderSectionWasm {
    pub output: Vec<u8>,
    pub go_back: usize,
    pub size: usize,
    pub index: usize,
    pub field_size: usize,
    pub sections: Vec<bool>,
}

pub struct ConstraintSectionWasm {
    pub output: Vec<u8>,
    pub number_of_constraints: usize,
    pub go_back: usize,
    pub size: usize,
    pub index: usize,
    pub field_size: usize,
    pub sections: Vec<bool>,
}

pub struct SignalSectionWasm {
    pub output: Vec<u8>,
    pub go_back: usize,
    pub size: usize,
    pub index: usize,
    pub field_size: usize,
    pub sections: Vec<bool>,
}

pub struct CustomGatesUsedSectionWasm {
    pub output: Vec<u8>,
    pub go_back: usize,
    pub size: usize,
    pub index: usize,
    pub field_size: usize,
    pub sections: Vec<bool>,
}

pub struct CustomGatesAppliedSectionWasm {
    pub output: Vec<u8>,
    pub go_back: usize,
    pub size: usize,
    pub index: usize,
    pub field_size: usize,
    pub sections: Vec<bool>,
}

/// The shape every open section keeps: the buffer holds an arbitrary prefix,
/// the section's type tag, the length placeholder, then the body written so
/// far.
pub open spec fn section_open(output: Seq<u8>, go_back: nat, index: nat) -> bool {
    &&& go_back >= 4
    &&& go_back + 8 <= output.len()
    &&& output.subrange(go_back - 4, go_back as int) == le_bytes(index + 1, 4)
}

/// The prefix written before the open section started.
pub open spec fn sec_prefix(output: Seq<u8>, go_back: nat) -> Seq<u8> {
    output.subrange(0, go_back - 4)
}

/// The body of the open section written so far.
pub open spec fn sec_body(output: Seq<u8>, go_back: nat) -> Seq<u8> {
    output.subrange((go_back + 8) as int, output.len() as int)
}

/// Starts a section: appends the type tag and a length placeholder.
fn start_section(output: &mut Vec<u8>, stype: u32) -> (go_back: usize)
    requires
        stype >= 1,
    ensures
        section_open(final(output)@, go_back as nat, (stype - 1) as nat),
        sec_prefix(final(output)@, go_back as nat) == old(output)@,
        sec_body(final(output)@, go_back as nat) =~= Seq::<u8>::empty(),
{
    let tag = u32_to_le(stype);
    append_bytes(output, &tag);
    let go_back = output.len();
    let placeholder = u64_to_le(0);
    append_bytes(output, &placeholder);
    proof {
        assert(output@.subrange(go_back - 4, go_back as int) =~= le_bytes(stype as nat, 4));
        assert(output@.subrange(0, go_back - 4) =~= old(output)@);
        assert(output@.subrange(go_back + 8, output@.len() as int) =~= Seq::<u8>::empty());
    }
    go_back
}

/// Ends a section: patches the placeholder with the body length.
fn end_section_at(output: &mut Vec<u8>, go_back: usize, ghost_index: Ghost<nat>)
    requires
        section_open(old(output)@, go_back as nat, ghost_index@),
    ensures
        final(output)@ =~= sec_prefix(old(output)@, go_back as nat) + section_bytes(
            ghost_index@ + 1,
            sec_body(old(output)@, go_back as nat),
        ),
{
    let size = output.len() - go_back - LENGTH_BYTES;
    let size_bytes = u64_to_le(size as u64);
    patch_length(output, go_back, &size_bytes);
    proof {
        let orig = old(output)@;
        let body = sec_body(orig, go_back as nat);
        assert(orig.subrange(go_back + 8, orig.len() as int) == body);
        assert(output@ =~= orig.subrange(0, go_back as int) + size_bytes@ + body);
        assert(orig.subrange(0, go_back as int) =~= sec_prefix(orig, go_back as nat) + le_bytes(
            ghost_index@ + 1,
            4,
        ));
        assert(size as nat == body.len());
        assert(output@ =~= sec_prefix(orig, go_back as nat) + (le_bytes(ghost_index@ + 1, 4)
            + le_bytes(body.len(), 8) + body));
    }
}

impl R1CSWriterWasm {
    /// A fresh writer: magic tag, version, and the section count (3, or 5
    /// with custom gates).
    pub fn new(field_size: usize, custom_gates: bool) -> (r: R1CSWriterWasm)
        ensures
            r.output@ == preamble_bytes(if custom_gates { 5nat } else { 3nat }),
            r.field_size == field_size,
            r.sections@.len() == 5,
            forall|i: int| 0 <= i < 5 ==> !(#[trigger] r.sections@[i]),
    {
        let num_sections: u32 = if custom_gates { 5 } else { 3 };
        let mut output: Vec<u8> = Vec::new();
        output.push(0x72);
        output.push(0x31);
        output.push(0x63);
        output.push(0x73);
        output.push(1);
        output.push(0);
        output.push(0);
        output.push(0);
        let count = u32_to_le(num_sections);
        append_bytes(&mut output, &count);
        proof {
            assert(output@ =~= preamble_bytes(num_sections as nat));
        }
        let mut sections: Vec<bool> = Vec::new();
        let mut i: usize = 0;
        while i < 5
            invariant
                sections@.len() == i,
                i <= 5,
                forall|j: int| 0 <= j < i ==> !(#[trigger] sections@[j]),
            decreases 5 - i,
        {
            sections.push(false);
            i += 1;
        }
        R1CSWriterWasm { field_size, output, sections }
    }

    pub fn start_header_section(self) -> (r: HeaderSectionWasm)
        ensures
            r.wf(),
            r.prefix() == self.output@,
            r.body() =~= Seq::<u8>::empty(),
            r.field_size == self.field_size,
            r.size == 0,
            r.sections@ == self.sections@,
            r.index == 0,
    {
        let mut output = self.output;
        let go_back = start_section(&mut output, 1);
        HeaderSectionWasm {
            output,
            go_back,
            size: 0,
            index: 0,
            field_size: self.field_size,
            sections: self.sections,
        }
    }

    pub fn start_constraints_section(self) -> (r: ConstraintSectionWasm)
        ensures
            r.wf(),
            r.prefix() == self.output@,
            r.body() =~= Seq::<u8>::empty(),
            r.field_size == self.field_size,
            r.size == 0,
            r.sections@ == self.sections@,
            r.number_of_constraints == 0,
            r.index == 1,
    {
        let mut output = self.output;
        let go_back = start_section(&mut output, 2);
        ConstraintSectionWasm {
            number_of_constraints: 0,
            output,
            go_back,
            size: 0,
            index: 1,
            field_size: self.field_size,
            sections: self.sections,
        }
    }

    pub fn start_signal_section(self) -> (r: SignalSectionWasm)
        ensures
            r.wf(),
            r.prefix() == self.output@,
            r.body() =~= Seq::<u8>::empty(),
            r.field_size == self.field_size,
            r.size == 0,
            r.sections@ == self.sections@,
            r.index == 2,
    {
        let mut output = self.output;
        let go_back = start_section(&mut output, 3);
        SignalSectionWasm {
            output,
            go_back,
            size: 0,
            index: 2,
            field_size: self.field_size,
            sections: self.sections,
        }
    }

    pub fn start_custom_gates_used_section(self) -> (r: CustomGatesUsedSectionWasm)
        ensures
            r.wf(),
            r.prefix() == self.output@,
            r.body() =~= Seq::<u8>::empty(),
            r.field_size == self.field_size,
            r.size == 0,
            r.sections@ == self.sections@,
            r.index == 3,
    {
        let mut output = self.output;
        let go_back = start_section(&mut output, 4);
        CustomGatesUsedSectionWasm {
            output,
            go_back,
            size: 0,
            index: 3,
            field_size: self.field_size,
            sections: self.sections,
        }
    }

    pub fn start_custom_gates_applied_section(self) -> (r: CustomGatesAppliedSectionWasm)
        ensures
            r.wf(),
            r.prefix() == self.output@,
            r.body() =~= Seq::<u8>::empty(),
            r.field_size == self.field_size,
            r.size == 0,
            r.sections@ == self.sections@,
            r.index == 4,
    {
        let mut output = self.output;
        let go_back = start_section(&mut output, 5);
        CustomGatesAppliedSectionWasm {
            output,
            go_back,
            size: 0,
            index: 4,
            field_size: self.field_size,
            sections: self.sections,
        }
    }

    /// Hands the finished artifact bytes out.
    pub fn finish_writing(self) -> (r: Vec<u8>)
        ensures
            r@ == self.output@,
    {
        self.output
    }
}

impl HeaderSectionWasm {
    pub open spec fn wf(&self) -> bool {
        section_open(self.output@, self.go_back as nat, self.index as nat)
    }

    pub open spec fn prefix(&self) -> Seq<u8> {
        sec_prefix(self.output@, self.go_back as nat)
    }

    pub open spec fn body(&self) -> Seq<u8> {
        sec_body(self.output@, self.go_back as nat)
    }

    /// Writes the header body. The counts must fit their fixed widths and
    /// the prime its declared byte width.
    pub fn write_section(&mut self, data: HeaderData)
        requires
            old(self).wf(),
            data.field@.len() <= old(self).field_size,
            old(self).field_size < 0x1_0000_0000,
            data.total_wires < 0x1_0000_0000,
            data.public_outputs < 0x1_0000_0000,
            data.public_inputs < 0x1_0000_0000,
            data.private_inputs < 0x1_0000_0000,
            data.number_of_constraints < 0x1_0000_0000,
        ensures
            final(self).wf(),
            final(self).prefix() == old(self).prefix(),
            final(self).body() =~= old(self).body() + header_body_bytes(
                data.field@,
                old(self).field_size as nat,
                data.total_wires as nat,
                data.public_outputs as nat,
                data.public_inputs as nat,
                data.private_inputs as nat,
                data.number_of_labels as nat,
                data.number_of_constraints as nat,
            ),
            final(self).index == old(self).index,
            final(self).field_size == old(self).field_size,
            final(self).go_back == old(self).go_back,
            final(self).size == final(self).body().len(),
    {
        let ghost orig = self.output@;
        let fs_bytes = u32_to_le(self.field_size as u32);
        append_bytes(&mut self.output, &fs_bytes);
        let (prime_padded, _) = into_format(data.field.as_slice(), self.field_size);
        append_bytes(&mut self.output, &prime_padded);
        proof {
            assert(prime_padded@ =~= pad_bytes(data.field@, self.field_size as nat));
        }
        let w = u32_to_le(data.total_wires as u32);
        append_bytes(&mut self.output, &w);
        let po = u32_to_le(data.public_outputs as u32);
        append_bytes(&mut self.output, &po);
        let pi = u32_to_le(data.public_inputs as u32);
        append_bytes(&mut self.output, &pi);
        let pri = u32_to_le(data.private_inputs as u32);
        append_bytes(&mut self.output, &pri);
        let nl = u64_to_le(data.number_of_labels as u64);
        append_bytes(&mut self.output, &nl);
        let nc = u32_to_le(data.number_of_constraints as u32);
        append_bytes(&mut self.output, &nc);
        self.size = self.output.len() - self.go_back - LENGTH_BYTES;
        proof {
            lemma_section_append(
                orig,
                self.output@,
                self.go_back as nat,
                self.index as nat,
                header_body_bytes(
                    data.field@,
                    self.field_size as nat,
                    data.total_wires as nat,
                    data.public_outputs as nat,
                    data.public_inputs as nat,
                    data.private_inputs as nat,
                    data.number_of_labels as nat,
                    data.number_of_constraints as nat,
                ),
            );
        }
    }

    /// Ends the section, patching its true length over the placeholder.
    pub fn end_section(self) -> (r: R1CSWriterWasm)
        requires
            self.wf(),
        ensures
            r.output@ =~= self.prefix() + section_bytes((self.index + 1) as nat, self.body()),
            r.field_size == self.field_size,
            self.index < self.sections@.len() ==> r.sections@ == self.sections@.update(
                self.index as int,
                true,
            ),
    {
        let mut output = self.output;
        end_section_at(&mut output, self.go_back, Ghost(self.index as nat));
        let mut sections = self.sections;
        if self.index < sections.len() {
            sections.set(self.index, true);
        }
        R1CSWriterWasm { output, field_size: self.field_size, sections }
    }
}

impl ConstraintSectionWasm {
    pub open spec fn wf(&self) -> bool {
        section_open(self.output@, self.go_back as nat, self.index as nat)
    }

    pub open spec fn prefix(&self) -> Seq<u8> {
        sec_prefix(self.output@, self.go_back as nat)
    }

    pub open spec fn body(&self) -> Seq<u8> {
        sec_body(self.output@, self.go_back as nat)
    }

    /// Writes one constraint: the three sparse linear-combination blocks
    /// `A`, `B`, `C`, each a term count then `(signal, coefficient)` pairs.
    pub fn write_constraint_usize(
        &mut self,
        a: &crate::algebra::LinearExpr,
        b: &crate::algebra::LinearExpr,
        c: &crate::algebra::LinearExpr,
    )
        requires
            old(self).wf(),
            old(self).number_of_constraints < usize::MAX,
            lc_fits(a@, old(self).field_size as nat),
            lc_fits(b@, old(self).field_size as nat),
            lc_fits(c@, old(self).field_size as nat),
        ensures
            final(self).wf(),
            final(self).prefix() == old(self).prefix(),
            final(self).body() =~= old(self).body() + lc_block_bytes(
                a@,
                old(self).field_size as nat,
            ) + lc_block_bytes(b@, old(self).field_size as nat) + lc_block_bytes(
                c@,
                old(self).field_size as nat,
            ),
            final(self).number_of_constraints == old(self).number_of_constraints + 1,
            final(self).index == old(self).index,
            final(self).field_size == old(self).field_size,
            final(self).go_back == old(self).go_back,
            final(self).size == final(self).body().len(),
    {
        let ghost orig = self.output@;
        let ghost fs = self.field_size as nat;
        let block_a = lc_block(a, self.field_size);
        append_bytes(&mut self.output, &block_a);
        let block_b = lc_block(b, self.field_size);
        append_bytes(&mut self.output, &block_b);
        let block_c = lc_block(c, self.field_size);
        append_bytes(&mut self.output, &block_c);
        self.size = self.output.len() - self.go_back - LENGTH_BYTES;
        self.number_of_constraints = self.number_of_constraints + 1;
        proof {
            lemma_section_append(
                orig,
                self.output@,
                self.go_back as nat,
                self.index as nat,
                block_a@ + block_b@ + block_c@,
            );
            assert(self.output@ =~= orig + (block_a@ + block_b@ + block_c@));
            assert(sec_body(self.output@, self.go_back as nat) =~= sec_body(orig, self.go_back as nat)
                + lc_block_bytes(a@, fs) + lc_block_bytes(b@, fs) + lc_block_bytes(c@, fs));
        }
    }

    pub fn end_section(self) -> (r: R1CSWriterWasm)
        requires
            self.wf(),
        ensures
            r.output@ =~= self.prefix() + section_bytes((self.index + 1) as nat, self.body()),
            r.field_size == self.field_size,
            self.index < self.sections@.len() ==> r.sections@ == self.sections@.update(
                self.index as int,
                true,
            ),
    {
        let mut output = self.output;
        end_section_at(&mut output, self.go_back, Ghost(self.index as nat));
        let mut sections = self.sections;
        if self.index < sections.len() {
            sections.set(self.index, true);
        }
        R1CSWriterWasm { output, field_size: self.field_size, sections }
    }

    /// How many constraints this section holds so far.
    pub fn constraints_written(&self) -> (r: usize)
        ensures
            r == self.number_of_constraints,
    {
        self.number_of_constraints
    }
}

/// The machine limits a linear combination must meet to be encodable:
/// counts and signal ids fit 4 bytes, coefficients fit the field width.
pub open spec fn lc_fits(s: Seq<(nat, Seq<u8>)>, fs: nat) -> bool {
    &&& s.len() < 0x1_0000_0000
    &&& forall|i: int|
        0 <= i < s.len() ==> (#[trigger] s[i]).0 < 0x1_0000_0000 && s[i].1.len() <= fs
}

/// Encodes one sparse linear-combination block.
fn lc_block(e: &crate::algebra::LinearExpr, field_size: usize) -> (r: Vec<u8>)
    requires
        lc_fits(e@, field_size as nat),
    ensures
        r@ == lc_block_bytes(e@, field_size as nat),
{
    let ghost fs = field_size as nat;
    let mut r = u32_to_le(e.terms.len() as u32);
    let ghost head = r@;
    let n = e.terms.len();
    let mut i: usize = 0;
    while i < n
        invariant
            i <= n,
            n == e@.len(),
            lc_fits(e@, fs),
            field_size as nat == fs,
            r@ =~= head + terms_bytes(e@.subrange(0, i as int), fs),
        decreases n - i,
    {
        let ghost before = r@;
        let sig_bytes = u32_to_le(e.terms[i].signal as u32);
        append_bytes(&mut r, &sig_bytes);
        let (coeff_padded, _) = into_format(e.terms[i].coeff.as_slice(), field_size);
        append_bytes(&mut r, &coeff_padded);
        proof {
            assert(e@[i as int] == (e.terms@[i as int].signal as nat, e.terms@[i as int].coeff@));
            assert(coeff_padded@ =~= pad_bytes(e@[i as int].1, fs));
            assert(r@ =~= before + term_bytes(e@[i as int], fs));
            let pre = e@.subrange(0, i as int);
            let cur = e@.subrange(0, i + 1);
            assert(cur.drop_last() =~= pre);
            assert(cur.last() == e@[i as int]);
            lemma_terms_bytes_snoc(cur, fs);
            assert(r@ =~= head + terms_bytes(cur, fs));
        }
        i += 1;
    }
    proof {
        assert(e@.subrange(0, n as int) =~= e@);
        assert(r@ =~= lc_block_bytes(e@, fs));
    }
    r
}

impl SignalSectionWasm {
    pub open spec fn wf(&self) -> bool {
        section_open(self.output@, self.go_back as nat, self.index as nat)
    }

    pub open spec fn prefix(&self) -> Seq<u8> {
        sec_prefix(self.output@, self.go_back as nat)
    }

    pub open spec fn body(&self) -> Seq<u8> {
        sec_body(self.output@, self.go_back as nat)
    }

    /// Writes one original signal id, as up-to-8 little-endian bytes padded
    /// to 8.
    pub fn write_signal(&mut self, bytes: &Vec<u8>)
        requires
            old(self).wf(),
            bytes@.len() <= 8,
        ensures
            final(self).wf(),
            final(self).prefix() == old(self).prefix(),
            final(self).body() =~= old(self).body() + pad_bytes(bytes@, 8),
            final(self).index == old(self).index,
            final(self).field_size == old(self).field_size,
            final(self).go_back == old(self).go_back,
            final(self).size == final(self).body().len(),
    {
        let ghost orig = self.output@;
        let (padded, _) = into_format(bytes.as_slice(), 8);
        append_bytes(&mut self.output, &padded);
        self.size = self.output.len() - self.go_back - LENGTH_BYTES;
        proof {
            assert(padded@ =~= pad_bytes(bytes@, 8));
            lemma_section_append(orig, self.output@, self.go_back as nat, self.index as nat, padded@);
        }
    }

    /// Writes one original signal id given as a number.
    pub fn write_signal_usize(&mut self, signal: usize)
        requires
            old(self).wf(),
        ensures
            final(self).wf(),
            final(self).prefix() == old(self).prefix(),
            final(self).body() =~= old(self).body() + le_bytes(signal as nat, 8),
            final(self).index == old(self).index,
            final(self).field_size == old(self).field_size,
            final(self).go_back == old(self).go_back,
            final(self).size == final(self).body().len(),
    {
        let ghost orig = self.output@;
        let bytes = u64_to_le(signal as u64);
        append_bytes(&mut self.output, &bytes);
        self.size = self.output.len() - self.go_back - LENGTH_BYTES;
        proof {
            lemma_section_append(orig, self.output@, self.go_back as nat, self.index as nat, bytes@);
        }
    }

    pub fn end_section(self) -> (r: R1CSWriterWasm)
        requires
            self.wf(),
        ensures
            r.output@ =~= self.prefix() + section_bytes((self.index + 1) as nat, self.body()),
            r.field_size == self.field_size,
            self.index < self.sections@.len() ==> r.sections@ == self.sections@.update(
                self.index as int,
                true,
            ),
    {
        let mut output = self.output;
        end_section_at(&mut output, self.go_back, Ghost(self.index as nat));
        let mut sections = self.sections;
        if self.index < sections.len() {
            sections.set(self.index, true);
        }
        R1CSWriterWasm { output, field_size: self.field_size, sections }
    }
}

/// One custom-gate entry: its name and its instantiation parameters.
pub struct CustomGateUse {
    pub name: Vec<u8>,
    pub parameters: Vec<Vec<u8>>,
}

impl View for CustomGateUse {
    type V = (Seq<u8>, Seq<Seq<u8>>);

    open spec fn view(&self) -> (Seq<u8>, Seq<Seq<u8>>) {
        (self.name@, self.parameters@.map_values(|v: Vec<u8>| v@))
    }
}

/// One custom-gate application site: which gate it applies, by occurrence
/// index, and the witness signals it touches.
pub struct CustomGateApp {
    pub index: usize,
    pub signals: Vec<usize>,
}

impl View for CustomGateApp {
    type V = (nat, Seq<usize>);

    open spec fn view(&self) -> (nat, Seq<usize>) {
        (self.index as nat, self.signals@)
    }
}

pub open spec fn gate_params_bytes(ps: Seq<Seq<u8>>, fs: nat) -> Seq<u8>
    decreases ps.len(),
{
    if ps.len() == 0 {
        Seq::empty()
    } else {
        pad_bytes(ps[0], fs) + gate_params_bytes(ps.subrange(1, ps.len() as int), fs)
    }
}

/// One entry of the gates-used body: null-terminated name, parameter count,
/// parameters at field width.
pub open spec fn gate_use_bytes(g: (Seq<u8>, Seq<Seq<u8>>), fs: nat) -> Seq<u8> {
    g.0 + seq![0u8] + le_bytes(g.1.len(), 4) + gate_params_bytes(g.1, fs)
}

pub open spec fn gates_used_bytes(gs: Seq<(Seq<u8>, Seq<Seq<u8>>)>, fs: nat) -> Seq<u8>
    decreases gs.len(),
{
    if gs.len() == 0 {
        Seq::empty()
    } else {
        gate_use_bytes(gs[0], fs) + gates_used_bytes(gs.subrange(1, gs.len() as int), fs)
    }
}

pub open spec fn app_signals_bytes(ss: Seq<usize>) -> Seq<u8>
    decreases ss.len(),
{
    if ss.len() == 0 {
        Seq::empty()
    } else {
        le_bytes(ss[0] as nat, 8) + app_signals_bytes(ss.subrange(1, ss.len() as int))
    }
}

/// One entry of the gates-applied body: gate index, signal count, signals.
pub open spec fn gate_app_bytes(g: (nat, Seq<usize>)) -> Seq<u8> {
    le_bytes(g.0, 4) + le_bytes(g.1.len(), 4) + app_signals_bytes(g.1)
}

pub open spec fn gates_applied_bytes(gs: Seq<(nat, Seq<usize>)>) -> Seq<u8>
    decreases gs.len(),
{
    if gs.len() == 0 {
        Seq::empty()
    } else {
        gate_app_bytes(gs[0]) + gates_applied_bytes(gs.subrange(1, gs.len() as int))
    }
}

proof fn lemma_gates_used_snoc(gs: Seq<(Seq<u8>, Seq<Seq<u8>>)>, fs: nat)
    requires
        gs.len() > 0,
    ensures
        gates_used_bytes(gs, fs) == gates_used_bytes(gs.drop_last(), fs) + gate_use_bytes(
            gs.last(),
            fs,
        ),
    decreases gs.len(),
{
    if gs.len() == 1 {
        assert(gs.drop_last() =~= Seq::empty());
        assert(gs.subrange(1, gs.len() as int) =~= Seq::empty());
        assert(gate_use_bytes(gs[0], fs) + Seq::<u8>::empty() =~= gate_use_bytes(gs[0], fs));
        assert(Seq::<u8>::empty() + gate_use_bytes(gs[0], fs) =~= gate_use_bytes(gs[0], fs));
    } else {
        let t = gs.subrange(1, gs.len() as int);
        lemma_gates_used_snoc(t, fs);
        assert(t.drop_last() =~= gs.drop_last().subrange(1, gs.drop_last().len() as int));
        assert(t.last() == gs.last());
        assert(gs.drop_last()[0] == gs[0]);
        assert(gates_used_bytes(gs.drop_last(), fs) =~= gate_use_bytes(gs[0], fs)
            + gates_used_bytes(t.drop_last(), fs));
        assert(gate_use_bytes(gs[0], fs) + (gates_used_bytes(t.drop_last(), fs) + gate_use_bytes(
            gs.last(),
            fs,
        )) =~= (gate_use_bytes(gs[0], fs) + gates_used_bytes(t.drop_last(), fs)) + gate_use_bytes(
            gs.last(),
            fs,
        ));
    }
}

proof fn lemma_gates_applied_snoc(gs: Seq<(nat, Seq<usize>)>)
    requires
        gs.len() > 0,
    ensures
        gates_applied_bytes(gs) == gates_applied_bytes(gs.drop_last()) + gate_app_bytes(gs.last()),
    decreases gs.len(),
{
    if gs.len() == 1 {
        assert(gs.drop_last() =~= Seq::empty());
        assert(gs.subrange(1, gs.len() as int) =~= Seq::empty());
        assert(gate_app_bytes(gs[0]) + Seq::<u8>::empty() =~= gate_app_bytes(gs[0]));
        assert(Seq::<u8>::empty() + gate_app_bytes(gs[0]) =~= gate_app_bytes(gs[0]));
    } else {
        let t = gs.subrange(1, gs.len() as int);
        lemma_gates_applied_snoc(t);
        assert(t.drop_last() =~= gs.drop_last().subrange(1, gs.drop_last().len() as int));
        assert(t.last() == gs.last());
        assert(gs.drop_last()[0] == gs[0]);
        assert(gates_applied_bytes(gs.drop_last()) =~= gate_app_bytes(gs[0]) + gates_applied_bytes(
            t.drop_last(),
        ));
        assert(gate_app_bytes(gs[0]) + (gates_applied_bytes(t.drop_last()) + gate_app_bytes(
            gs.last(),
        )) =~= (gate_app_bytes(gs[0]) + gates_applied_bytes(t.drop_last())) + gate_app_bytes(
            gs.last(),
        ));
    }
}

proof fn lemma_gate_params_snoc(ps: Seq<Seq<u8>>, fs: nat)
    requires
        ps.len() > 0,
    ensures
        gate_params_bytes(ps, fs) == gate_params_bytes(ps.drop_last(), fs) + pad_bytes(
            ps.last(),
            fs,
        ),
    decreases ps.len(),
{
    if ps.len() == 1 {
        assert(ps.drop_last() =~= Seq::empty());
        assert(ps.subrange(1, ps.len() as int) =~= Seq::empty());
        assert(pad_bytes(ps[0], fs) + Seq::<u8>::empty() =~= pad_bytes(ps[0], fs));
        assert(Seq::<u8>::empty() + pad_bytes(ps[0], fs) =~= pad_bytes(ps[0], fs));
    } else {
        let t = ps.subrange(1, ps.len() as int);
        lemma_gate_params_snoc(t, fs);
        assert(t.drop_last() =~= ps.drop_last().subrange(1, ps.drop_last().len() as int));
        assert(t.last() == ps.last());
        assert(ps.drop_last()[0] == ps[0]);
        assert(gate_params_bytes(ps.drop_last(), fs) =~= pad_bytes(ps[0], fs) + gate_params_bytes(
            t.drop_last(),
            fs,
        ));
        assert(pad_bytes(ps[0], fs) + (gate_params_bytes(t.drop_last(), fs) + pad_bytes(
            ps.last(),
            fs,
        )) =~= (pad_bytes(ps[0], fs) + gate_params_bytes(t.drop_last(), fs)) + pad_bytes(
            ps.last(),
            fs,
        ));
    }
}

proof fn lemma_app_signals_snoc(ss: Seq<usize>)
    requires
        ss.len() > 0,
    ensures
        app_signals_bytes(ss) == app_signals_bytes(ss.drop_last()) + le_bytes(
            ss.last() as nat,
            8,
        ),
    decreases ss.len(),
{
    if ss.len() == 1 {
        assert(ss.drop_last() =~= Seq::empty());
        assert(ss.subrange(1, ss.len() as int) =~= Seq::empty());
        assert(le_bytes(ss[0] as nat, 8) + Seq::<u8>::empty() =~= le_bytes(ss[0] as nat, 8));
        assert(Seq::<u8>::empty() + le_bytes(ss[0] as nat, 8) =~= le_bytes(ss[0] as nat, 8));
    } else {
        let t = ss.subrange(1, ss.len() as int);
        lemma_app_signals_snoc(t);
        assert(t.drop_last() =~= ss.drop_last().subrange(1, ss.drop_last().len() as int));
        assert(t.last() == ss.last());
        assert(ss.drop_last()[0] == ss[0]);
        assert(app_signals_bytes(ss.drop_last()) =~= le_bytes(ss[0] as nat, 8) + app_signals_bytes(
            t.drop_last(),
        ));
        assert(le_bytes(ss[0] as nat, 8) + (app_signals_bytes(t.drop_last()) + le_bytes(
            ss.last() as nat,
            8,
        )) =~= (le_bytes(ss[0] as nat, 8) + app_signals_bytes(t.drop_last())) + le_bytes(
            ss.last() as nat,
            8,
        ));
    }
}

impl CustomGatesUsedSectionWasm {
    pub open spec fn wf(&self) -> bool {
        section_open(self.output@, self.go_back as nat, self.index as nat)
    }

    pub open spec fn prefix(&self) -> Seq<u8> {
        sec_prefix(self.output@, self.go_back as nat)
    }

    pub open spec fn body(&self) -> Seq<u8> {
        sec_body(self.output@, self.go_back as nat)
    }

    /// Writes the distinct custom gates: a count, then per gate a null-terminated
    /// name, a parameter count and the parameters at field width.
    pub fn write_custom_gates_usages(&mut self, data: &Vec<CustomGateUse>)
        requires
            old(self).wf(),
            data@.len() < 0x1_0000_0000,
            forall|i: int|
                0 <= i < data@.len() ==> (#[trigger] data@[i])@.1.len() < 0x1_0000_0000
                    && forall|j: int|
                    0 <= j < data@[i]@.1.len() ==> (#[trigger] data@[i]@.1[j]).len() <= old(
                        self,
                    ).field_size,
        ensures
            final(self).wf(),
            final(self).prefix() == old(self).prefix(),
            final(self).body() =~= old(self).body() + le_bytes(data@.len(), 4) + gates_used_bytes(
                data@.map_values(|g: CustomGateUse| g@),
                old(self).field_size as nat,
            ),
            final(self).index == old(self).index,
            final(self).field_size == old(self).field_size,
            final(self).go_back == old(self).go_back,
            final(self).size == final(self).body().len(),
    {
        let ghost orig = self.output@;
        let ghost fs = self.field_size as nat;
        let ghost gv = data@.map_values(|g: CustomGateUse| g@);
        let mut chunk = u32_to_le(data.len() as u32);
        let ghost head = chunk@;
        let n = data.len();
        let mut i: usize = 0;
        while i < n
            invariant
                i <= n,
                n == data@.len(),
                gv == data@.map_values(|g: CustomGateUse| g@),
                self.field_size as nat == fs,
                data@.len() < 0x1_0000_0000,
                forall|k: int|
                    0 <= k < data@.len() ==> (#[trigger] data@[k])@.1.len() < 0x1_0000_0000
                        && forall|j: int|
                        0 <= j < data@[k]@.1.len() ==> (#[trigger] data@[k]@.1[j]).len()
                            <= self.field_size,
                chunk@ =~= head + gates_used_bytes(gv.subrange(0, i as int), fs),
            decreases n - i,
        {
            let ghost before = chunk@;
            let gate = &data[i];
            append_bytes(&mut chunk, &gate.name);
            chunk.push(0);
            let np = u32_to_le(gate.parameters.len() as u32);
            append_bytes(&mut chunk, &np);
            let ghost params_head = chunk@;
            let ghost pv = gate.parameters@.map_values(|v: Vec<u8>| v@);
            let m = gate.parameters.len();
            let mut j: usize = 0;
            while j < m
                invariant
                    j <= m,
                    m == pv.len(),
                    pv == gate.parameters@.map_values(|v: Vec<u8>| v@),
                    self.field_size as nat == fs,
                    forall|k: int| 0 <= k < pv.len() ==> (#[trigger] pv[k]).len() <= fs,
                    chunk@ =~= params_head + gate_params_bytes(pv.subrange(0, j as int), fs),
                decreases m - j,
            {
                let ghost pbefore = chunk@;
                let (padded, _) = into_format(gate.parameters[j].as_slice(), self.field_size);
                append_bytes(&mut chunk, &padded);
                proof {
                    assert(padded@ =~= pad_bytes(pv[j as int], fs));
                    let pre = pv.subrange(0, j as int);
                    let cur = pv.subrange(0, j + 1);
                    assert(cur.drop_last() =~= pre);
                    assert(cur.last() == pv[j as int]);
                    lemma_gate_params_snoc(cur, fs);
                    assert(chunk@ =~= params_head + gate_params_bytes(cur, fs));
                }
                j += 1;
            }
            proof {
                assert(pv.subrange(0, m as int) =~= pv);
                assert(gv[i as int] == (gate.name@, pv));
                assert(chunk@ =~= before + gate_use_bytes(gv[i as int], fs));
                let pre = gv.subrange(0, i as int);
                let cur = gv.subrange(0, i + 1);
                assert(cur.drop_last() =~= pre);
                assert(cur.last() == gv[i as int]);
                lemma_gates_used_snoc(cur, fs);
                assert(chunk@ =~= head + gates_used_bytes(cur, fs));
            }
            i += 1;
        }
        proof {
            assert(gv.subrange(0, n as int) =~= gv);
        }
        append_bytes(&mut self.output, &chunk);
        self.size = self.output.len() - self.go_back - LENGTH_BYTES;
        proof {
            lemma_section_append(orig, self.output@, self.go_back as nat, self.index as nat, chunk@);
            assert(sec_body(self.output@, self.go_back as nat) =~= sec_body(orig, self.go_back as nat)
                + le_bytes(gv.len(), 4) + gates_used_bytes(gv, fs));
        }
    }

    pub fn end_section(self) -> (r: R1CSWriterWasm)
        requires
            self.wf(),
        ensures
            r.output@ =~= self.prefix() + section_bytes((self.index + 1) as nat, self.body()),
            r.field_size == self.field_size,
            self.index < self.sections@.len() ==> r.sections@ == self.sections@.update(
                self.index as int,
                true,
            ),
    {
        let mut output = self.output;
        end_section_at(&mut output, self.go_back, Ghost(self.index as nat));
        let mut sections = self.sections;
        if self.index < sections.len() {
            sections.set(self.index, true);
        }
        R1CSWriterWasm { output, field_size: self.field_size, sections }
    }
}

impl CustomGatesAppliedSectionWasm {
    pub open spec fn wf(&self) -> bool {
        section_open(self.output@, self.go_back as nat, self.index as nat)
    }

    pub open spec fn prefix(&self) -> Seq<u8> {
        sec_prefix(self.output@, self.go_back as nat)
    }

    pub open spec fn body(&self) -> Seq<u8> {
        sec_body(self.output@, self.go_back as nat)
    }

    /// Writes the application sites: a count, then per site the applied
    /// gate's occurrence index, a signal count and the witness signals as 8 bytes
    /// each.
    pub fn write_custom_gates_applications(&mut self, data: &Vec<CustomGateApp>)
        requires
            old(self).wf(),
            data@.len() < 0x1_0000_0000,
            forall|i: int|
                0 <= i < data@.len() ==> (#[trigger] data@[i]).index < 0x1_0000_0000
                    && data@[i].signals@.len() < 0x1_0000_0000,
        ensures
            final(self).wf(),
            final(self).prefix() == old(self).prefix(),
            final(self).body() =~= old(self).body() + le_bytes(data@.len(), 4)
                + gates_applied_bytes(data@.map_values(|g: CustomGateApp| g@)),
            final(self).index == old(self).index,
            final(self).field_size == old(self).field_size,
            final(self).go_back == old(self).go_back,
            final(self).size == final(self).body().len(),
    {
        let ghost orig = self.output@;
        let ghost gv = data@.map_values(|g: CustomGateApp| g@);
        let mut chunk = u32_to_le(data.len() as u32);
        let ghost head = chunk@;
        let n = data.len();
        let mut i: usize = 0;
        while i < n
            invariant
                i <= n,
                n == data@.len(),
                gv == data@.map_values(|g: CustomGateApp| g@),
                data@.len() < 0x1_0000_0000,
                forall|k: int|
                    0 <= k < data@.len() ==> (#[trigger] data@[k]).index < 0x1_0000_0000
                        && data@[k].signals@.len() < 0x1_0000_0000,
                chunk@ =~= head + gates_applied_bytes(gv.subrange(0, i as int)),
            decreases n - i,
        {
            let ghost before = chunk@;
            let gate = &data[i];
            let idx = u32_to_le(gate.index as u32);
            append_bytes(&mut chunk, &idx);
            let ns = u32_to_le(gate.signals.len() as u32);
            append_bytes(&mut chunk, &ns);
            let ghost sig_head = chunk@;
            let ghost sv = gate.signals@;
            let m = gate.signals.len();
            let mut j: usize = 0;
            while j < m
                invariant
                    j <= m,
                    m == sv.len(),
                    sv == gate.signals@,
                    chunk@ =~= sig_head + app_signals_bytes(sv.subrange(0, j as int)),
                decreases m - j,
            {
                let sb = u64_to_le(gate.signals[j] as u64);
                append_bytes(&mut chunk, &sb);
                proof {
                    let pre = sv.subrange(0, j as int);
                    let cur = sv.subrange(0, j + 1);
                    assert(cur.drop_last() =~= pre);
                    assert(cur.last() == sv[j as int]);
                    lemma_app_signals_snoc(cur);
                    assert(chunk@ =~= sig_head + app_signals_bytes(cur));
                }
                j += 1;
            }
            proof {
                assert(sv.subrange(0, m as int) =~= sv);
                assert(gv[i as int] == (gate.index as nat, sv));
                assert(chunk@ =~= before + gate_app_bytes(gv[i as int]));
                let pre = gv.subrange(0, i as int);
                let cur = gv.subrange(0, i + 1);
                assert(cur.drop_last() =~= pre);
                assert(cur.last() == gv[i as int]);
                lemma_gates_applied_snoc(cur);
                assert(chunk@ =~= head + gates_applied_bytes(cur));
            }
            i += 1;
        }
        proof {
            assert(gv.subrange(0, n as int) =~= gv);
        }
        append_bytes(&mut self.output, &chunk);
        self.size = self.output.len() - self.go_back - LENGTH_BYTES;
        proof {
            lemma_section_append(orig, self.output@, self.go_back as nat, self.index as nat, chunk@);
            assert(sec_body(self.output@, self.go_back as nat) =~= sec_body(orig, self.go_back as nat)
                + le_bytes(gv.len(), 4) + gates_applied_bytes(gv));
        }
    }

    pub fn end_section(self) -> (r: R1CSWriterWasm)
        requires
            self.wf(),
        ensures
            r.output@ =~= self.prefix() + section_bytes((self.index + 1) as nat, self.body()),
            r.field_size == self.field_size,
            self.index < self.sections@.len() ==> r.sections@ == self.sections@.update(
                self.index as int,
                true,
            ),
    {
        let mut output = self.output;
        end_section_at(&mut output, self.go_back, Ghost(self.index as nat));
        let mut sections = self.sections;
        if self.index < sections.len() {
            sections.set(self.index, true);
        }
        R1CSWriterWasm { output, field_size: self.field_size, sections }
    }
}

/// Appending bytes to a buffer with an open section appends them to its body
/// and moves nothing else.
proof fn lemma_section_append(orig: Seq<u8>, new: Seq<u8>, go_back: nat, index: nat, added: Seq<u8>)
    requires
        section_open(orig, go_back, index),
        new =~= orig + added,
    ensures
        section_open(new, go_back, index),
        sec_prefix(new, go_back) == sec_prefix(orig, go_back),
        sec_body(new, go_back) =~= sec_body(orig, go_back) + added,
{
    assert(new.subrange(go_back - 4, go_back as int) =~= orig.subrange(go_back - 4, go_back as int));
    assert(new.subrange(0, go_back - 4) =~= orig.subrange(0, go_back - 4));
    assert(new.subrange((go_back + 8) as int, new.len() as int) =~= orig.subrange(
        (go_back + 8) as int,
        orig.len() as int,
    ) + added);
}

} // verus!
