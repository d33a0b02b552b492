//! The circuit: a qubit count and the ordered instructions, built by either
//! front end.
use crate::dsl;
use crate::ops::{arity, MEVERYZ, RESET};
use crate::qir;
use crate::shader_types::{bare_op, ops_view, record_of, Op, OpModel, OpRecord};
use crate::text::{contains, has_substring};
use vstd::prelude::*;
use vstd::string::StringSliceAdditionalSpecFns;

verus! {

/// No circuit names a qubit at or above this count.
pub const MAX_CIRCUIT_QUBITS: u32 = 30;

/// Why a source text is not a circuit. Text-format errors carry the 1-based
/// line where they occur.
#[derive(Clone, Copy, Debug, PartialEq, Eq)]
pub enum ParseError {
    /// The line names no known operation.
    InvalidOperation { line: usize },
    /// A rotation is written without its angle.
    MissingAngle { line: usize },
    /// An angle is given to an operation that takes none.
    UnexpectedAngle { line: usize },
    /// The operation got the wrong number of arguments; the angle counts as one.
    ArgumentCount { line: usize, got: usize, expected: usize },
    /// A qubit operand is not an unsigned 32-bit integer.
    InvalidQubit { line: usize },
    /// The angle is not a parenthesized floating-point literal.
    InvalidAngle { line: usize },
    /// The IR has no `attributes #0 = {` block.
    MissingAttributes,
    /// The attribute block is not closed.
    UnterminatedAttributes,
    /// The attribute block does not declare `qir_profiles`.
    MissingProfile,
    /// The declared profile is not `base_profile`.
    WrongProfile,
    /// The attribute block does not declare `required_num_qubits`.
    MissingQubitCount,
    /// The attribute block does not declare `required_num_results`.
    MissingResultCount,
    /// `required_num_qubits` is not an unsigned 32-bit integer.
    InvalidQubitCount,
    /// `required_num_results` is not an unsigned 32-bit integer.
    InvalidResultCount,
    /// A quantum call statement cannot be taken apart.
    InvalidCall { line: usize },
    /// A call argument has none of the accepted shapes.
    InvalidArgument { line: usize },
    /// A `qis` call names an operation that is not supported.
    UnsupportedOperation { line: usize },
    /// A `qis` call's arguments do not fit its operation.
    ArgumentMismatch { line: usize },
    /// The entry point is opened but never closed.
    UnterminatedEntryPoint,
    /// The circuit needs more than `MAX_CIRCUIT_QUBITS` qubits.
    TooManyQubits,
}

/// A validated program: its qubit count and its instructions in the order
/// they apply.
#[derive(Clone, Debug, PartialEq, Eq)]
pub struct Circuit {
    pub qubit_count: u32,
    pub ops: Vec<Op>,
}

pub struct CircuitModel {
    pub qubit_count: u32,
    pub ops: Seq<OpModel>,
}

impl View for Circuit {
    type V = CircuitModel;

    open spec fn view(&self) -> CircuitModel {
        CircuitModel { qubit_count: self.qubit_count, ops: ops_view(self.ops@) }
    }
}

pub open spec fn parsed(r: Result<Circuit, ParseError>) -> Result<CircuitModel, ParseError> {
    match r {
        Ok(c) => Ok(c@),
        Err(e) => Err(e),
    }
}

pub open spec fn max_nat(a: nat, b: nat) -> nat {
    if a >= b {
        a
    } else {
        b
    }
}

/// One more than the highest qubit index in the instruction's fields.
pub open spec fn op_span(o: OpModel) -> nat {
    max_nat(max_nat(o.q1 as nat, o.q2 as nat), o.q3 as nat) + 1
}

/// One more than the highest qubit index that `ops` name, or 0 without ops.
pub open spec fn qubit_span(ops: Seq<OpModel>) -> nat
    decreases ops.len(),
{
    if ops.len() == 0 {
        0
    } else {
        max_nat(qubit_span(ops.drop_last()), op_span(ops.last()))
    }
}

/// `op` names qubit `q` among the operands its operation takes.
pub open spec fn names_qubit(op: OpModel, q: nat) -> bool {
    ||| arity(op.op_id) >= 1 && q == op.q1
    ||| arity(op.op_id) >= 2 && q == op.q2
    ||| arity(op.op_id) >= 3 && q == op.q3
}

/// The qubit fields that `op`'s operation does not take are zero.
pub open spec fn unused_operands_zero(op: OpModel) -> bool {
    &&& arity(op.op_id) < 2 ==> op.q2 == 0
    &&& arity(op.op_id) < 3 ==> op.q3 == 0
}

/// Over instructions whose unused fields are zero, `qubit_span` is one more
/// than the highest qubit that an instruction names, and 0 without
/// instructions.
pub proof fn lemma_span_is_highest_named(ops: Seq<OpModel>)
    requires
        forall|i: int| 0 <= i < ops.len() ==> unused_operands_zero(#[trigger] ops[i]),
    ensures
        forall|i: int, q: nat|
            0 <= i < ops.len() && #[trigger] names_qubit(ops[i], q) ==> q < qubit_span(ops),
        ops.len() > 0 ==> exists|i: int|
            0 <= i < ops.len() && names_qubit(#[trigger] ops[i], (qubit_span(ops) - 1) as nat),
        ops.len() == 0 ==> qubit_span(ops) == 0,
    decreases ops.len(),
{
    if ops.len() > 0 {
        let prev = ops.drop_last();
        let last = ops.last();
        let n = ops.len() - 1;
        assert forall|i: int| 0 <= i < prev.len() implies unused_operands_zero(#[trigger] prev[i]) by {
            assert(prev[i] == ops[i]);
        }
        lemma_span_is_highest_named(prev);
        assert(unused_operands_zero(ops[n]));
        assert forall|i: int, q: nat|
            0 <= i < ops.len() && #[trigger] names_qubit(ops[i], q) implies q < qubit_span(ops) by {
            if i < n {
                assert(names_qubit(prev[i], q));
            }
        }
        if op_span(last) >= qubit_span(prev) {
            assert(names_qubit(ops[n], (qubit_span(ops) - 1) as nat));
        } else {
            let i = choose|i: int|
                0 <= i < prev.len() && names_qubit(#[trigger] prev[i], (qubit_span(prev) - 1) as nat);
            assert(names_qubit(ops[i], (qubit_span(ops) - 1) as nat));
        }
    }
}

/// The circuit around parsed instructions: a leading reset, the instructions,
/// and a trailing measurement of every qubit unless `measured`.
pub open spec fn circuit_of(
    body: Seq<OpModel>,
    qubit_count: nat,
    measured: bool,
) -> Result<CircuitModel, ParseError> {
    if qubit_count > MAX_CIRCUIT_QUBITS {
        Err(ParseError::TooManyQubits)
    } else {
        Ok(
            CircuitModel {
                qubit_count: qubit_count as u32,
                ops: seq![bare_op(RESET)] + body + if measured {
                    seq![]
                } else {
                    seq![bare_op(MEVERYZ)]
                },
            },
        )
    }
}

/// Marks a source as the IR dialect rather than the circuit text format.
pub open spec fn qis_marker() -> Seq<u8> {
    "@__quantum__qis__".spec_bytes()
}

pub fn op_extent(op: &Op) -> (r: u64)
    ensures
        r == op_span(op@),
{
    let mut m = op.q1;
    if op.q2 > m {
        m = op.q2;
    }
    if op.q3 > m {
        m = op.q3;
    }
    m as u64 + 1
}

/// Puts the parsed instructions in a circuit, as `circuit_of` describes.
pub fn assemble(body: Vec<Op>, qubit_count: u64, measured: bool) -> (r: Result<
    Circuit,
    ParseError,
>)
    ensures
        parsed(r) == circuit_of(ops_view(body@), qubit_count as nat, measured),
        r matches Ok(c) ==> c.qubit_count <= MAX_CIRCUIT_QUBITS,
{
    if qubit_count > MAX_CIRCUIT_QUBITS as u64 {
        return Err(ParseError::TooManyQubits);
    }
    let mut body = body;
    let ghost parsed_ops = ops_view(body@);
    let mut ops: Vec<Op> = Vec::new();
    ops.push(Op::bare(RESET));
    ops.append(&mut body);
    if !measured {
        ops.push(Op::bare(MEVERYZ));
    }
    let r = Circuit { qubit_count: qubit_count as u32, ops };
    assert(r@.ops =~= circuit_of(parsed_ops, qubit_count as nat, measured).unwrap().ops);
    Ok(r)
}

impl Circuit {
    /// Parses a circuit in the circuit text format, one instruction per line,
    /// for instance `x 0`, `rz(0.5) 1`, `rzz (0.125) 1 3` or `ccx 0 1 2`.
    /// A source that calls `@__quantum__qis__` is read as the IR dialect
    /// instead.
    pub fn from_str(src: &str) -> (r: Result<Circuit, ParseError>)
        ensures
            parsed(r) == if has_substring(src.spec_bytes(), qis_marker()) {
                qir::qir_circuit(src.spec_bytes())
            } else {
                dsl::dsl_circuit(src.spec_bytes())
            },
            r matches Ok(c) ==> c.qubit_count <= MAX_CIRCUIT_QUBITS,
    {
        let bytes = src.as_bytes();
        if contains(bytes, "@__quantum__qis__".as_bytes()) {
            return Circuit::from_qir_str(src);
        }
        dsl::parse_dsl(bytes)
    }

    /// Parses a program in the supported subset of the quantum IR.
    pub fn from_qir_str(qir: &str) -> (r: Result<Circuit, ParseError>)
        ensures
            parsed(r) == qir::qir_circuit(qir.spec_bytes()),
            r matches Ok(c) ==> c.qubit_count <= MAX_CIRCUIT_QUBITS,
    {
        qir::parse_qir(qir.as_bytes())
    }

    /// The wire records of the instructions, given the IEEE-754 bits of each
    /// instruction's angle (ignored for instructions without one).
    pub fn records(&self, angle_bits: &[u32]) -> (r: Vec<OpRecord>)
        requires
            angle_bits@.len() == self.ops@.len(),
        ensures
            r@.len() == self.ops@.len(),
            forall|i: int|
                0 <= i < r@.len() ==> #[trigger] r@[i] == record_of(self.ops@[i], angle_bits@[i]),
    {
        let mut out: Vec<OpRecord> = Vec::new();
        let mut i: usize = 0;
        while i < self.ops.len()
            invariant
                i <= self.ops@.len(),
                angle_bits@.len() == self.ops@.len(),
                out@.len() == i,
                forall|j: int|
                    0 <= j < i ==> #[trigger] out@[j] == record_of(self.ops@[j], angle_bits@[j]),
            decreases self.ops@.len() - i,
        {
            out.push(self.ops[i].to_record(angle_bits[i]));
            i = i + 1;
        }
        out
    }
}

} // verus!
