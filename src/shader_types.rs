//! The host-side instruction, and the fixed binary layouts exchanged with the
//! device: the 256-byte instruction record and the 8-byte result record, both
//! made of little-endian 32-bit words.
use vstd::prelude::*;

verus! {

/// Qubits whose amplitudes one compute lane handles.
pub const MAX_QUBITS_PER_THREAD: u32 = 10;
/// Qubits whose amplitudes one workgroup handles.
pub const MAX_QUBITS_PER_WORKGROUP: u32 = 12;
/// Stride of an instruction record: the device's dynamic-offset granularity.
pub const OP_RECORD_BYTES: usize = 256;
/// Size of a result record.
pub const RESULT_RECORD_BYTES: usize = 8;

/// One instruction as the parsers produce it. Qubit operands that the
/// operation does not use are zero. The angle of a rotation is kept as the
/// decimal literal that the source wrote; it becomes a 32-bit float only when
/// the instruction is encoded for the device.
#[derive(Clone, Debug, PartialEq, Eq)]
pub struct Op {
    pub op_id: u32,
    pub q1: u32,
    pub q2: u32,
    pub q3: u32,
    pub angle: Option<Vec<u8>>,
}

pub struct OpModel {
    pub op_id: u32,
    pub q1: u32,
    pub q2: u32,
    pub q3: u32,
    pub angle: Option<Seq<u8>>,
}

impl View for Op {
    type V = OpModel;

    open spec fn view(&self) -> OpModel {
        OpModel {
            op_id: self.op_id,
            q1: self.q1,
            q2: self.q2,
            q3: self.q3,
            angle: match self.angle {
                Some(a) => Some(a@),
                None => None,
            },
        }
    }
}

/// An instruction without operands or angle.
pub open spec fn bare_op(code: u32) -> OpModel {
    OpModel { op_id: code, q1: 0, q2: 0, q3: 0, angle: None }
}

pub open spec fn ops_view(v: Seq<Op>) -> Seq<OpModel> {
    v.map_values(|o: Op| o@)
}

impl Op {
    pub fn bare(code: u32) -> (r: Op)
        ensures
            r@ == bare_op(code),
    {
        Op { op_id: code, q1: 0, q2: 0, q3: 0, angle: None }
    }

    /// The wire form of this instruction, given the IEEE-754 single-precision
    /// bits of its angle; an instruction without an angle encodes zero.
    pub fn to_record(&self, angle_bits: u32) -> (r: OpRecord)
        ensures
            r == record_of(*self, angle_bits),
    {
        OpRecord {
            op_id: self.op_id,
            q1: self.q1,
            q2: self.q2,
            q3: self.q3,
            angle_bits: if self.angle.is_some() {
                angle_bits
            } else {
                0
            },
        }
    }
}

/// The wire form of `op` when its angle has the float bits `angle_bits`.
pub open spec fn record_of(op: Op, angle_bits: u32) -> OpRecord {
    OpRecord {
        op_id: op.op_id,
        q1: op.q1,
        q2: op.q2,
        q3: op.q3,
        angle_bits: if op.angle is Some {
            angle_bits
        } else {
            0
        },
    }
}

/// The wire form of one instruction: five 32-bit words (the angle as the bits
/// of a 32-bit float) padded with zeros to 256 bytes.
#[derive(Clone, Copy, Debug, PartialEq, Eq)]
pub struct OpRecord {
    pub op_id: u32,
    pub q1: u32,
    pub q2: u32,
    pub q3: u32,
    pub angle_bits: u32,
}

/// One sampled outcome as the device reports it: a basis-state index and the
/// bits of its 32-bit float probability.
#[derive(Clone, Copy, Debug, PartialEq, Eq)]
pub struct Result {
    pub entry_idx: u32,
    pub probability_bits: u32,
}

pub open spec fn le_bytes(w: u32) -> Seq<u8> {
    seq![
        (w % 0x100) as u8,
        ((w / 0x100) % 0x100) as u8,
        ((w / 0x1_0000) % 0x100) as u8,
        (w / 0x100_0000) as u8,
    ]
}

/// The little-endian word stored at `b[i..i + 4]`.
pub open spec fn le_word(b: Seq<u8>, i: int) -> u32 {
    (b[i] + b[i + 1] * 0x100 + b[i + 2] * 0x1_0000 + b[i + 3] * 0x100_0000) as u32
}

pub open spec fn record_bytes(r: OpRecord) -> Seq<u8> {
    le_bytes(r.op_id) + le_bytes(r.q1) + le_bytes(r.q2) + le_bytes(r.q3) + le_bytes(r.angle_bits)
        + Seq::new(236, |i: int| 0u8)
}

/// Reads an instruction record back; only a 256-byte text is one.
pub open spec fn record_from_bytes(b: Seq<u8>) -> Option<OpRecord> {
    if b.len() == OP_RECORD_BYTES {
        Some(
            OpRecord {
                op_id: le_word(b, 0),
                q1: le_word(b, 4),
                q2: le_word(b, 8),
                q3: le_word(b, 12),
                angle_bits: le_word(b, 16),
            },
        )
    } else {
        None
    }
}

/// The instruction buffer: every record back to back at the 256-byte stride.
pub open spec fn ops_buffer(rs: Seq<OpRecord>) -> Seq<u8>
    decreases rs.len(),
{
    if rs.len() == 0 {
        seq![]
    } else {
        ops_buffer(rs.drop_last()) + record_bytes(rs.last())
    }
}

pub open spec fn result_at(b: Seq<u8>, k: int) -> Result {
    Result { entry_idx: le_word(b, 8 * k), probability_bits: le_word(b, 8 * k + 4) }
}

proof fn lemma_le_word_of_bytes(w: u32)
    ensures
        le_word(le_bytes(w), 0) == w,
{
    let b = le_bytes(w);
    assert(b[0] == w % 0x100);
    assert(b[1] == (w / 0x100) % 0x100);
    assert(b[2] == (w / 0x1_0000) % 0x100);
    assert(b[3] == w / 0x100_0000);
    assert(w % 0x100 + ((w / 0x100) % 0x100) * 0x100 + ((w / 0x1_0000) % 0x100) * 0x1_0000 + (w
        / 0x100_0000) * 0x100_0000 == w) by (nonlinear_arith);
}

/// Encoding an instruction record and reading it back gives the same fields:
/// the binary layout loses nothing.
pub proof fn lemma_op_record_round_trip(r: OpRecord)
    ensures
        record_from_bytes(record_bytes(r)) == Some(r),
        record_bytes(r).len() == OP_RECORD_BYTES,
{
    let b = record_bytes(r);
    lemma_le_word_of_bytes(r.op_id);
    lemma_le_word_of_bytes(r.q1);
    lemma_le_word_of_bytes(r.q2);
    lemma_le_word_of_bytes(r.q3);
    lemma_le_word_of_bytes(r.angle_bits);
    assert(b.subrange(0, 4) =~= le_bytes(r.op_id));
    assert(b.subrange(4, 8) =~= le_bytes(r.q1));
    assert(b.subrange(8, 12) =~= le_bytes(r.q2));
    assert(b.subrange(12, 16) =~= le_bytes(r.q3));
    assert(b.subrange(16, 20) =~= le_bytes(r.angle_bits));
    assert(le_word(b, 0) == le_word(b.subrange(0, 4), 0));
    assert(le_word(b, 4) == le_word(b.subrange(4, 8), 0));
    assert(le_word(b, 8) == le_word(b.subrange(8, 12), 0));
    assert(le_word(b, 12) == le_word(b.subrange(12, 16), 0));
    assert(le_word(b, 16) == le_word(b.subrange(16, 20), 0));
}

fn push_le_word(out: &mut Vec<u8>, w: u32)
    ensures
        final(out)@ == old(out)@ + le_bytes(w),
{
    out.push((w % 0x100) as u8);
    out.push(((w / 0x100) % 0x100) as u8);
    out.push(((w / 0x1_0000) % 0x100) as u8);
    out.push((w / 0x100_0000) as u8);
    assert(final(out)@ =~= old(out)@ + le_bytes(w));
}

fn read_le_word(b: &[u8], i: usize) -> (w: u32)
    requires
        i + 4 <= b@.len(),
    ensures
        w == le_word(b@, i as int),
{
    b[i] as u32 + (b[i + 1] as u32) * 0x100 + (b[i + 2] as u32) * 0x1_0000 + (b[i + 3] as u32)
        * 0x100_0000
}

impl OpRecord {
    /// The 256 bytes of this record.
    pub fn encode(&self) -> (r: Vec<u8>)
        ensures
            r@ == record_bytes(*self),
    {
        let mut out: Vec<u8> = Vec::new();
        push_le_word(&mut out, self.op_id);
        push_le_word(&mut out, self.q1);
        push_le_word(&mut out, self.q2);
        push_le_word(&mut out, self.q3);
        push_le_word(&mut out, self.angle_bits);
        let ghost head = out@;
        let mut i: usize = 0;
        while i < 236
            invariant
                i <= 236,
                out@ =~= head + Seq::new(i as nat, |k: int| 0u8),
            decreases 236 - i,
        {
            out.push(0);
            i = i + 1;
        }
        assert(out@ =~= record_bytes(*self));
        out
    }

    /// Reads a record from exactly 256 bytes.
    pub fn decode(b: &[u8]) -> (r: Option<OpRecord>)
        ensures
            r == record_from_bytes(b@),
    {
        if b.len() != OP_RECORD_BYTES {
            return None;
        }
        Some(
            OpRecord {
                op_id: read_le_word(b, 0),
                q1: read_le_word(b, 4),
                q2: read_le_word(b, 8),
                q3: read_le_word(b, 12),
                angle_bits: read_le_word(b, 16),
            },
        )
    }
}

/// The instruction buffer for `records`, one 256-byte record per instruction.
pub fn encode_ops(records: &[OpRecord]) -> (r: Vec<u8>)
    ensures
        r@ == ops_buffer(records@),
        r@.len() == records@.len() * OP_RECORD_BYTES,
{
    let mut out: Vec<u8> = Vec::new();
    let mut i: usize = 0;
    while i < records.len()
        invariant
            i <= records@.len(),
            out@ == ops_buffer(records@.take(i as int)),
            out@.len() == i * OP_RECORD_BYTES,
        decreases records@.len() - i,
    {
        let bytes = records[i].encode();
        let mut k: usize = 0;
        let ghost before = out@;
        while k < bytes.len()
            invariant
                k <= bytes@.len(),
                bytes@.len() == OP_RECORD_BYTES,
                out@ =~= before + bytes@.take(k as int),
                before.len() == i * OP_RECORD_BYTES,
            decreases bytes@.len() - k,
        {
            out.push(bytes[k]);
            k = k + 1;
        }
        assert(records@.take(i + 1).drop_last() =~= records@.take(i as int));
        assert(bytes@.take(bytes@.len() as int) =~= bytes@);
        proof {
            lemma_op_record_round_trip(records@[i as int]);
        }
        i = i + 1;
    }
    assert(records@.take(records@.len() as int) =~= records@);
    out
}

/// Reads the result records out of a readback buffer; a trailing partial
/// record is not read.
pub fn decode_results(b: &[u8]) -> (r: Vec<Result>)
    ensures
        r@.len() == b@.len() / (RESULT_RECORD_BYTES as nat),
        forall|k: int| 0 <= k < r@.len() ==> #[trigger] r@[k] == result_at(b@, k),
{
    let n = b.len();
    let count = n / RESULT_RECORD_BYTES;
    let mut out: Vec<Result> = Vec::new();
    let mut k: usize = 0;
    while k < count
        invariant
            k <= count,
            n == b@.len(),
            count == b@.len() / (RESULT_RECORD_BYTES as nat),
            out@.len() == k,
            forall|j: int| 0 <= j < k ==> #[trigger] out@[j] == result_at(b@, j),
        decreases count - k,
    {
        assert(8 * k + 8 <= b@.len());
        let entry = read_le_word(b, 8 * k);
        let prob = read_le_word(b, 8 * k + 4);
        out.push(Result { entry_idx: entry, probability_bits: prob });
        k = k + 1;
    }
    out
}

} // verus!
