//! The supported subset of the quantum IR: an `attributes #0` block that
//! declares the base profile and the qubit and result counts, and one entry
//! function, `define void @name() #0`, whose `__quantum__qis__` calls are the
//! instructions. Runtime calls (`__quantum__rt__`) are skipped.
use crate::circuit::{
    assemble, circuit_of, max_nat, op_extent, parsed, qubit_span, Circuit, CircuitModel,
    ParseError, MAX_CIRCUIT_QUBITS,
};
use crate::ops::{
    CCX, CX, CZ, H, ID, MEVERYZ, MZ, RESET, RX, RY, RZ, RZZ, S, SX, SX_ADJ, S_ADJ, T, T_ADJ, X, Y,
    Z,
};
use crate::shader_types::{bare_op, ops_view, Op, OpModel};
use crate::text::{
    arg_spans, bytes_eq, check_float_literal, contains, copy_range, digit_run, digit_run_end,
    ends_with, find, first_occurrence, has_prefix, has_substring, has_suffix, is_float_literal,
    last_occurrence, line_spans, lines, parse_u32, rfind_byte, spans_view,
    spans_within, split_args, split_lines, starts_with, trim, trimmed, u32_value, CLOSE_BRACE,
    CLOSE_PAREN, OPEN_PAREN, QUOTE,
};
use vstd::prelude::*;
use vstd::string::StringSliceAdditionalSpecFns;

verus! {

pub open spec fn attributes_marker() -> Seq<u8> {
    "attributes #0 = {".spec_bytes()
}

pub open spec fn profile_key() -> Seq<u8> {
    "\"qir_profiles\"=\"".spec_bytes()
}

pub open spec fn qubits_key() -> Seq<u8> {
    "\"required_num_qubits\"=\"".spec_bytes()
}

pub open spec fn results_key() -> Seq<u8> {
    "\"required_num_results\"=\"".spec_bytes()
}

pub open spec fn quantum_marker() -> Seq<u8> {
    "@__quantum__".spec_bytes()
}

pub open spec fn qubit_ref_prefix() -> Seq<u8> {
    "%Qubit* inttoptr (i64 ".spec_bytes()
}

pub open spec fn result_ref_prefix() -> Seq<u8> {
    "%Result* inttoptr (i64 ".spec_bytes()
}

/// The quoted value that follows `key` in an attribute block.
pub open spec fn attr_value(block: Seq<u8>, key: Seq<u8>) -> Option<Seq<u8>> {
    match first_occurrence(block, key) {
        None => None,
        Some(k) => {
            let rest = block.skip(k + key.len());
            match first_occurrence(rest, seq![QUOTE]) {
                None => None,
                Some(e) => Some(rest.take(e)),
            }
        },
    }
}

/// The qubit count that an attribute block declares, once the profile and
/// both counts are checked.
pub open spec fn block_qubits(block: Seq<u8>) -> Result<u32, ParseError> {
    match attr_value(block, profile_key()) {
        None => Err(ParseError::MissingProfile),
        Some(profile) => if profile != "base_profile".spec_bytes() {
            Err(ParseError::WrongProfile)
        } else {
            match attr_value(block, qubits_key()) {
                None => Err(ParseError::MissingQubitCount),
                Some(q) => match attr_value(block, results_key()) {
                    None => Err(ParseError::MissingResultCount),
                    Some(r) => match u32_value(q) {
                        None => Err(ParseError::InvalidQubitCount),
                        Some(n) => match u32_value(r) {
                            None => Err(ParseError::InvalidResultCount),
                            Some(_) => Ok(n),
                        },
                    },
                },
            }
        },
    }
}

/// The qubit count that the first `attributes #0` block of `s` declares.
pub open spec fn declared_qubits(s: Seq<u8>) -> Result<u32, ParseError> {
    match first_occurrence(s, attributes_marker()) {
        None => Err(ParseError::MissingAttributes),
        Some(i) => {
            let after = s.skip(i + attributes_marker().len());
            match first_occurrence(after, seq![CLOSE_BRACE]) {
                None => Err(ParseError::UnterminatedAttributes),
                Some(e) => block_qubits(after.take(e)),
            }
        },
    }
}

/// A call argument: a qubit or result reference, a float literal, an integer,
/// or the null pointer.
pub enum ArgModel {
    Ref(u32),
    Double(Seq<u8>),
    Int(u32),
    Null,
}

pub enum CallArg {
    Ref(u32),
    Double(Vec<u8>),
    Int(u32),
    Null,
}

impl View for CallArg {
    type V = ArgModel;

    open spec fn view(&self) -> ArgModel {
        match self {
            CallArg::Ref(n) => ArgModel::Ref(*n),
            CallArg::Double(v) => ArgModel::Double(v@),
            CallArg::Int(n) => ArgModel::Int(*n),
            CallArg::Null => ArgModel::Null,
        }
    }
}

pub open spec fn args_view(v: Seq<CallArg>) -> Seq<ArgModel> {
    v.map_values(|a: CallArg| a@)
}

/// What a trimmed, non-empty argument is, if it has one of the accepted shapes.
pub open spec fn classify_arg(a: Seq<u8>) -> Option<ArgModel> {
    if has_prefix(a, qubit_ref_prefix()) || has_prefix(a, result_ref_prefix()) {
        let k = if has_prefix(a, qubit_ref_prefix()) {
            qubit_ref_prefix().len() as int
        } else {
            result_ref_prefix().len() as int
        };
        match u32_value(a.subrange(k, digit_run_end(a, k))) {
            None => None,
            Some(v) => Some(ArgModel::Ref(v)),
        }
    } else if has_prefix(a, "double ".spec_bytes()) {
        let v = trimmed(a.skip("double ".spec_bytes().len() as int));
        if is_float_literal(v) {
            Some(ArgModel::Double(v))
        } else {
            None
        }
    } else if has_prefix(a, "i64 ".spec_bytes()) {
        match u32_value(trimmed(a.skip("i64 ".spec_bytes().len() as int))) {
            None => None,
            Some(v) => Some(ArgModel::Int(v)),
        }
    } else if a == "i8* null".spec_bytes() {
        Some(ArgModel::Null)
    } else {
        None
    }
}

/// The classified arguments of the pieces `spans` of `text`; empty pieces are
/// skipped.
pub open spec fn classify_pieces(text: Seq<u8>, spans: Seq<(int, int)>) -> Option<Seq<ArgModel>>
    decreases spans.len(),
{
    if spans.len() == 0 {
        Some(seq![])
    } else {
        match classify_pieces(text, spans.drop_last()) {
            None => None,
            Some(args) => {
                let a = trimmed(text.subrange(spans.last().0, spans.last().1));
                if a.len() == 0 {
                    Some(args)
                } else {
                    match classify_arg(a) {
                        None => None,
                        Some(x) => Some(args.push(x)),
                    }
                }
            },
        }
    }
}

/// The arguments of a call's parenthesized list.
pub open spec fn call_args(text: Seq<u8>) -> Option<Seq<ArgModel>> {
    classify_pieces(text, arg_spans(text))
}

/// A call's name without a `__body` suffix, then without a trailing `__`.
pub open spec fn call_name(raw: Seq<u8>) -> Seq<u8> {
    let n = if has_suffix(raw, "__body".spec_bytes()) {
        raw.take(raw.len() - "__body".spec_bytes().len())
    } else {
        raw
    };
    if has_suffix(n, "__".spec_bytes()) {
        n.take(n.len() - "__".spec_bytes().len())
    } else {
        n
    }
}

/// The operation that a `qis` call name denotes.
pub open spec fn qis_op_code(name: Seq<u8>) -> Option<u32> {
    if name == "id".spec_bytes() {
        Some(ID)
    } else if name == "x".spec_bytes() {
        Some(X)
    } else if name == "y".spec_bytes() {
        Some(Y)
    } else if name == "z".spec_bytes() {
        Some(Z)
    } else if name == "h".spec_bytes() {
        Some(H)
    } else if name == "s".spec_bytes() {
        Some(S)
    } else if name == "s_adj".spec_bytes() || name == "s__adj".spec_bytes() {
        Some(S_ADJ)
    } else if name == "t".spec_bytes() {
        Some(T)
    } else if name == "t_adj".spec_bytes() || name == "t__adj".spec_bytes() {
        Some(T_ADJ)
    } else if name == "sx".spec_bytes() {
        Some(SX)
    } else if name == "sx_adj".spec_bytes() || name == "sx__adj".spec_bytes() {
        Some(SX_ADJ)
    } else if name == "rx".spec_bytes() {
        Some(RX)
    } else if name == "ry".spec_bytes() {
        Some(RY)
    } else if name == "rz".spec_bytes() {
        Some(RZ)
    } else if name == "cx".spec_bytes() {
        Some(CX)
    } else if name == "cz".spec_bytes() {
        Some(CZ)
    } else if name == "rzz".spec_bytes() {
        Some(RZZ)
    } else if name == "ccx".spec_bytes() {
        Some(CCX)
    } else if name == "m".spec_bytes() || name == "mz".spec_bytes() {
        Some(MZ)
    } else {
        None
    }
}

pub open spec fn ref_of(a: ArgModel) -> Option<u32> {
    match a {
        ArgModel::Ref(n) => Some(n),
        _ => None,
    }
}

pub open spec fn double_of(a: ArgModel) -> Option<Seq<u8>> {
    match a {
        ArgModel::Double(v) => Some(v),
        _ => None,
    }
}

pub open spec fn is_ref(a: ArgModel) -> bool {
    ref_of(a) is Some
}

pub open spec fn gate(code: u32, q1: u32, q2: u32, q3: u32, angle: Option<Seq<u8>>) -> OpModel {
    OpModel { op_id: code, q1, q2, q3, angle }
}

/// The instruction that operation `code` makes of `args`: a rotation takes
/// `[angle, qubit]`, `rzz` takes `[angle, qubit, qubit]`, `cx` and `cz` two
/// qubits, `ccx` three, a measurement a qubit and whatever follows it, and
/// every other operation one qubit.
pub open spec fn qis_op(code: u32, args: Seq<ArgModel>) -> Option<OpModel> {
    if code == RX || code == RY || code == RZ {
        if args.len() == 2 && double_of(args[0]) is Some && is_ref(args[1]) {
            Some(gate(code, ref_of(args[1]).unwrap(), 0, 0, double_of(args[0])))
        } else {
            None
        }
    } else if code == RZZ {
        if args.len() == 3 && double_of(args[0]) is Some && is_ref(args[1]) && is_ref(args[2]) {
            Some(
                gate(
                    code,
                    ref_of(args[1]).unwrap(),
                    ref_of(args[2]).unwrap(),
                    0,
                    double_of(args[0]),
                ),
            )
        } else {
            None
        }
    } else if code == CX || code == CZ {
        if args.len() == 2 && is_ref(args[0]) && is_ref(args[1]) {
            Some(gate(code, ref_of(args[0]).unwrap(), ref_of(args[1]).unwrap(), 0, None))
        } else {
            None
        }
    } else if code == CCX {
        if args.len() == 3 && is_ref(args[0]) && is_ref(args[1]) && is_ref(args[2]) {
            Some(
                gate(
                    code,
                    ref_of(args[0]).unwrap(),
                    ref_of(args[1]).unwrap(),
                    ref_of(args[2]).unwrap(),
                    None,
                ),
            )
        } else {
            None
        }
    } else if code == MZ {
        if args.len() >= 1 && is_ref(args[0]) {
            Some(gate(code, ref_of(args[0]).unwrap(), 0, 0, None))
        } else {
            None
        }
    } else {
        if args.len() == 1 && is_ref(args[0]) {
            Some(gate(code, ref_of(args[0]).unwrap(), 0, 0, None))
        } else {
            None
        }
    }
}

/// What the quantum call on trimmed line `n` contributes: nothing for a call
/// outside `qis`, an instruction, or an error.
pub open spec fn qir_call(line: Seq<u8>, n: int) -> Result<Option<OpModel>, ParseError> {
    let at = first_occurrence(line, quantum_marker()).unwrap();
    let after = line.skip(at + quantum_marker().len());
    match first_occurrence(after, "__".spec_bytes()) {
        None => Err(ParseError::InvalidCall { line: n as usize }),
        Some(c) => if after.take(c) != "qis".spec_bytes() {
            Ok(None)
        } else {
            let rest = after.skip(c + "__".spec_bytes().len());
            match first_occurrence(rest, seq![OPEN_PAREN]) {
                None => Err(ParseError::InvalidCall { line: n as usize }),
                Some(p) => {
                    let open = at + quantum_marker().len() + c + "__".spec_bytes().len() + p;
                    match last_occurrence(line, CLOSE_PAREN) {
                        None => Err(ParseError::InvalidCall { line: n as usize }),
                        Some(close) => if close < open {
                            Err(ParseError::InvalidCall { line: n as usize })
                        } else {
                            match call_args(line.subrange(open + 1, close)) {
                                None => Err(ParseError::InvalidArgument { line: n as usize }),
                                Some(args) => match qis_op_code(call_name(rest.take(p))) {
                                    None => Err(ParseError::UnsupportedOperation { line: n as usize }),
                                    Some(code) => match qis_op(code, args) {
                                        None => Err(ParseError::ArgumentMismatch { line: n as usize }),
                                        Some(op) => Ok(Some(op)),
                                    },
                                },
                            }
                        },
                    }
                },
            }
        },
    }
}

/// Where the scan stands with respect to the entry function.
#[derive(Clone, Copy, Debug, PartialEq, Eq)]
pub enum EntryPhase {
    Before,
    Inside,
    Done,
}

/// `define void @name() #0`: the entry function's definition line.
pub open spec fn is_entry_definition(line: Seq<u8>) -> bool {
    &&& has_prefix(line, "define void @".spec_bytes())
    &&& has_substring(line, "()".spec_bytes())
    &&& has_substring(line, " #0".spec_bytes())
}

/// `ret ...` or `}`: the end of the entry function.
pub open spec fn is_entry_end(line: Seq<u8>) -> bool {
    has_prefix(line, "ret ".spec_bytes()) || line == "}".spec_bytes()
}

/// A line that calls into the quantum runtime or instruction set.
pub open spec fn is_quantum_call(line: Seq<u8>) -> bool {
    has_substring(line, "call ".spec_bytes()) && has_substring(line, quantum_marker())
}

/// What trimmed line `n` does in `phase`: the next phase and the instruction
/// it adds, if any.
#[verifier::opaque]
pub open spec fn qir_line(phase: EntryPhase, line: Seq<u8>, n: int) -> Result<
    (EntryPhase, Option<OpModel>),
    ParseError,
> {
    if line.len() == 0 {
        Ok((phase, None))
    } else {
        match phase {
            EntryPhase::Done => Ok((phase, None)),
            EntryPhase::Before => if is_entry_definition(line) {
                Ok((EntryPhase::Inside, None))
            } else {
                Ok((phase, None))
            },
            EntryPhase::Inside => if is_entry_end(line) {
                Ok((EntryPhase::Done, None))
            } else if !is_quantum_call(line) {
                Ok((phase, None))
            } else {
                match qir_call(line, n) {
                    Err(e) => Err(e),
                    Ok(op) => Ok((phase, op)),
                }
            },
        }
    }
}

/// One step of the scan over trimmed line `n`.
pub open spec fn qir_step(
    phase: EntryPhase,
    body: Seq<OpModel>,
    line: Seq<u8>,
    n: int,
) -> Result<(EntryPhase, Seq<OpModel>), ParseError> {
    match qir_line(phase, line, n) {
        Err(e) => Err(e),
        Ok((next, None)) => Ok((next, body)),
        Ok((next, Some(op))) => Ok((next, body.push(op))),
    }
}

/// The scan over the lines `ls`, numbered from 1.
pub open spec fn qir_scan(ls: Seq<Seq<u8>>) -> Result<(EntryPhase, Seq<OpModel>), ParseError>
    decreases ls.len(),
{
    if ls.len() == 0 {
        Ok((EntryPhase::Before, seq![]))
    } else {
        match qir_scan(ls.drop_last()) {
            Err(e) => Err(e),
            Ok((phase, body)) => qir_step(phase, body, trimmed(ls.last()), ls.len() as int),
        }
    }
}

/// Some instruction is an explicit measurement.
pub open spec fn measures(body: Seq<OpModel>) -> bool {
    exists|i: int| 0 <= i < body.len() && #[trigger] body[i].op_id == MZ
}

/// The circuit that an IR program denotes: a reset, the entry function's
/// instructions, and a measurement of every qubit when none was explicit, over
/// the larger of the declared qubit count and one more than the highest index
/// used.
pub open spec fn qir_circuit(s: Seq<u8>) -> Result<CircuitModel, ParseError> {
    match declared_qubits(s) {
        Err(e) => Err(e),
        Ok(declared) => match qir_scan(lines(s)) {
            Err(e) => Err(e),
            Ok((phase, body)) => if phase is Inside {
                Err(ParseError::UnterminatedEntryPoint)
            } else {
                circuit_of(body, max_nat(declared as nat, qubit_span(body)), measures(body))
            },
        },
    }
}

/// How many of `ops` have operation `code`.
pub open spec fn count_code(ops: Seq<OpModel>, code: u32) -> nat
    decreases ops.len(),
{
    if ops.len() == 0 {
        0
    } else {
        count_code(ops.drop_last(), code) + if ops.last().op_id == code {
            1nat
        } else {
            0nat
        }
    }
}

proof fn lemma_count_concat(a: Seq<OpModel>, b: Seq<OpModel>, code: u32)
    ensures
        count_code(a + b, code) == count_code(a, code) + count_code(b, code),
    decreases b.len(),
{
    if b.len() == 0 {
        assert(a + b =~= a);
    } else {
        assert((a + b).drop_last() =~= a + b.drop_last());
        lemma_count_concat(a, b.drop_last(), code);
    }
}

proof fn lemma_count_absent(ops: Seq<OpModel>, code: u32)
    requires
        forall|i: int| 0 <= i < ops.len() ==> (#[trigger] ops[i]).op_id != code,
    ensures
        count_code(ops, code) == 0,
    decreases ops.len(),
{
    if ops.len() > 0 {
        assert forall|i: int| 0 <= i < ops.len() - 1 implies (#[trigger] ops.drop_last()[i]).op_id
            != code by {
            assert(ops.drop_last()[i] == ops[i]);
        }
        lemma_count_absent(ops.drop_last(), code);
    }
}

proof fn lemma_scan_never_measures_all(ls: Seq<Seq<u8>>)
    requires
        qir_scan(ls) is Ok,
    ensures
        forall|i: int|
            0 <= i < qir_scan(ls).unwrap().1.len() ==> (#[trigger] qir_scan(ls).unwrap().1[i]).op_id
                != MEVERYZ,
    decreases ls.len(),
{
    if ls.len() > 0 {
        lemma_scan_never_measures_all(ls.drop_last());
        reveal(qir_line);
    }
}

/// An IR program gets the instruction that measures every qubit exactly when
/// it makes no explicit measurement: then once, as its last instruction;
/// otherwise never.
pub proof fn lemma_qir_measure_all(src: Seq<u8>)
    requires
        qir_circuit(src) is Ok,
    ensures
        ({
            let ops = qir_circuit(src).unwrap().ops;
            &&& count_code(ops, MEVERYZ) == if measures(ops) {
                0nat
            } else {
                1nat
            }
            &&& !measures(ops) ==> ops.last().op_id == MEVERYZ
        }),
{
    let body = qir_scan(lines(src)).unwrap().1;
    let ops = qir_circuit(src).unwrap().ops;
    lemma_scan_never_measures_all(lines(src));
    lemma_count_absent(body, MEVERYZ);
    let tail: Seq<OpModel> = if measures(body) {
        seq![]
    } else {
        seq![bare_op(MEVERYZ)]
    };
    assert(ops == seq![bare_op(RESET)] + body + tail);
    lemma_count_concat(seq![bare_op(RESET)], body, MEVERYZ);
    lemma_count_concat(seq![bare_op(RESET)] + body, tail, MEVERYZ);
    lemma_count_absent(seq![bare_op(RESET)], MEVERYZ);
    if !measures(body) {
        assert(tail.drop_last() =~= Seq::<OpModel>::empty());
        assert(count_code(Seq::<OpModel>::empty(), MEVERYZ) == 0);
        assert(tail.last().op_id == MEVERYZ);
        assert(count_code(tail, MEVERYZ) == 1);
        assert(ops.last() == tail[0]);
    } else {
        assert(count_code(tail, MEVERYZ) == 0);
    }
    assert(measures(ops) == measures(body)) by {
        if measures(body) {
            let i = choose|i: int| 0 <= i < body.len() && #[trigger] body[i].op_id == MZ;
            assert(ops[i + 1] == body[i]);
        }
        if measures(ops) {
            let i = choose|i: int| 0 <= i < ops.len() && #[trigger] ops[i].op_id == MZ;
            assert(1 <= i < body.len() + 1);
            assert(body[i - 1] == ops[i]);
        }
    }
}

pub open spec fn opt_bytes(o: Option<Vec<u8>>) -> Option<Seq<u8>> {
    match o {
        Some(v) => Some(v@),
        None => None,
    }
}

pub open spec fn opt_arg(o: Option<CallArg>) -> Option<ArgModel> {
    match o {
        Some(a) => Some(a@),
        None => None,
    }
}

pub open spec fn opt_args(o: Option<Vec<CallArg>>) -> Option<Seq<ArgModel>> {
    match o {
        Some(v) => Some(args_view(v@)),
        None => None,
    }
}

pub open spec fn opt_op(o: Option<Op>) -> Option<OpModel> {
    match o {
        Some(op) => Some(op@),
        None => None,
    }
}

pub open spec fn call_result(r: Result<Option<Op>, ParseError>) -> Result<
    Option<OpModel>,
    ParseError,
> {
    match r {
        Ok(Some(op)) => Ok(Some(op@)),
        Ok(None) => Ok(None),
        Err(e) => Err(e),
    }
}

fn one_byte(b: u8) -> (r: Vec<u8>)
    ensures
        r@ == seq![b],
{
    let mut r: Vec<u8> = Vec::new();
    r.push(b);
    assert(r@ =~= seq![b]);
    r
}

fn read_attr(block: &[u8], key: &[u8]) -> (r: Option<Vec<u8>>)
    ensures
        opt_bytes(r) == attr_value(block@, key@),
{
    let k = match find(block, key) {
        None => {
            return None;
        },
        Some(k) => k,
    };
    let n = block.len();
    let rest = copy_range(block, k + key.len(), n);
    assert(rest@ =~= block@.skip(k + key@.len()));
    let quote = one_byte(QUOTE);
    match find(rest.as_slice(), quote.as_slice()) {
        None => None,
        Some(e) => {
            let v = copy_range(rest.as_slice(), 0, e);
            assert(v@ =~= rest@.take(e as int));
            Some(v)
        },
    }
}

fn read_declared_qubits(s: &[u8]) -> (r: Result<u32, ParseError>)
    ensures
        r == declared_qubits(s@),
{
    let marker = "attributes #0 = {".as_bytes();
    let i = match find(s, marker) {
        None => {
            return Err(ParseError::MissingAttributes);
        },
        Some(i) => i,
    };
    let n = s.len();
    let after = copy_range(s, i + marker.len(), n);
    assert(after@ =~= s@.skip(i + attributes_marker().len()));
    let brace = one_byte(CLOSE_BRACE);
    let e = match find(after.as_slice(), brace.as_slice()) {
        None => {
            return Err(ParseError::UnterminatedAttributes);
        },
        Some(e) => e,
    };
    let block = copy_range(after.as_slice(), 0, e);
    assert(block@ =~= after@.take(e as int));
    let profile = match read_attr(block.as_slice(), "\"qir_profiles\"=\"".as_bytes()) {
        None => {
            return Err(ParseError::MissingProfile);
        },
        Some(p) => p,
    };
    if !bytes_eq(profile.as_slice(), "base_profile".as_bytes()) {
        return Err(ParseError::WrongProfile);
    }
    let qubits = match read_attr(block.as_slice(), "\"required_num_qubits\"=\"".as_bytes()) {
        None => {
            return Err(ParseError::MissingQubitCount);
        },
        Some(q) => q,
    };
    let results = match read_attr(block.as_slice(), "\"required_num_results\"=\"".as_bytes()) {
        None => {
            return Err(ParseError::MissingResultCount);
        },
        Some(r) => r,
    };
    let n = match parse_u32(qubits.as_slice()) {
        None => {
            return Err(ParseError::InvalidQubitCount);
        },
        Some(n) => n,
    };
    match parse_u32(results.as_slice()) {
        None => Err(ParseError::InvalidResultCount),
        Some(_) => Ok(n),
    }
}

fn classify(a: &[u8]) -> (r: Option<CallArg>)
    ensures
        opt_arg(r) == classify_arg(a@),
{
    let qubit_prefix = "%Qubit* inttoptr (i64 ".as_bytes();
    let result_prefix = "%Result* inttoptr (i64 ".as_bytes();
    let is_qubit = starts_with(a, qubit_prefix);
    if is_qubit || starts_with(a, result_prefix) {
        let k = if is_qubit {
            qubit_prefix.len()
        } else {
            result_prefix.len()
        };
        let end = digit_run(a, k);
        let digits = copy_range(a, k, end);
        match parse_u32(digits.as_slice()) {
            None => None,
            Some(v) => Some(CallArg::Ref(v)),
        }
    } else if starts_with(a, "double ".as_bytes()) {
        let tail = copy_range(a, "double ".as_bytes().len(), a.len());
        assert(tail@ =~= a@.skip("double ".spec_bytes().len() as int));
        let v = trim(tail.as_slice());
        if check_float_literal(v.as_slice()) {
            Some(CallArg::Double(v))
        } else {
            None
        }
    } else if starts_with(a, "i64 ".as_bytes()) {
        let tail = copy_range(a, "i64 ".as_bytes().len(), a.len());
        assert(tail@ =~= a@.skip("i64 ".spec_bytes().len() as int));
        let v = trim(tail.as_slice());
        match parse_u32(v.as_slice()) {
            None => None,
            Some(n) => Some(CallArg::Int(n)),
        }
    } else if bytes_eq(a, "i8* null".as_bytes()) {
        Some(CallArg::Null)
    } else {
        None
    }
}

proof fn lemma_pieces_failure_stays(text: Seq<u8>, spans: Seq<(int, int)>, j: int)
    requires
        0 <= j <= spans.len(),
        classify_pieces(text, spans.take(j)) is None,
    ensures
        classify_pieces(text, spans) is None,
    decreases spans.len() - j,
{
    if j < spans.len() {
        assert(spans.take(j + 1).drop_last() =~= spans.take(j));
        lemma_pieces_failure_stays(text, spans, j + 1);
    } else {
        assert(spans.take(j) =~= spans);
    }
}

/// Classifies the arguments of a call's parenthesized list.
fn parse_args(text: &[u8]) -> (r: Option<Vec<CallArg>>)
    ensures
        opt_args(r) == call_args(text@),
{
    let spans = split_args(text);
    let ghost sp = spans_view(spans@);
    let mut args: Vec<CallArg> = Vec::new();
    let mut k: usize = 0;
    assert(sp.take(0) =~= seq![]);
    assert(args_view(args@) =~= seq![]);
    while k < spans.len()
        invariant
            k <= spans@.len(),
            sp == spans_view(spans@),
            sp == arg_spans(text@),
            spans_within(spans@, text@.len()),
            classify_pieces(text@, sp.take(k as int)) == Some(args_view(args@)),
        decreases spans@.len() - k,
    {
        assert(sp[k as int] == (spans@[k as int].0 as int, spans@[k as int].1 as int));
        assert(sp.take(k + 1).drop_last() =~= sp.take(k as int));
        assert(sp.take(k + 1).last() == sp[k as int]);
        let piece = copy_range(text, spans[k].0, spans[k].1);
        let a = trim(piece.as_slice());
        if a.len() > 0 {
            match classify(a.as_slice()) {
                None => {
                    proof {
                        lemma_pieces_failure_stays(text@, sp, k + 1);
                    }
                    return None;
                },
                Some(x) => {
                    let ghost before = args_view(args@);
                    args.push(x);
                    assert(args_view(args@) =~= before.push(x@));
                },
            }
        }
        k = k + 1;
    }
    assert(sp.take(k as int) =~= sp);
    Some(args)
}

fn lookup_qis_op(name: &[u8]) -> (r: Option<u32>)
    ensures
        r == qis_op_code(name@),
{
    if bytes_eq(name, "id".as_bytes()) {
        Some(ID)
    } else if bytes_eq(name, "x".as_bytes()) {
        Some(X)
    } else if bytes_eq(name, "y".as_bytes()) {
        Some(Y)
    } else if bytes_eq(name, "z".as_bytes()) {
        Some(Z)
    } else if bytes_eq(name, "h".as_bytes()) {
        Some(H)
    } else if bytes_eq(name, "s".as_bytes()) {
        Some(S)
    } else if bytes_eq(name, "s_adj".as_bytes()) || bytes_eq(name, "s__adj".as_bytes()) {
        Some(S_ADJ)
    } else if bytes_eq(name, "t".as_bytes()) {
        Some(T)
    } else if bytes_eq(name, "t_adj".as_bytes()) || bytes_eq(name, "t__adj".as_bytes()) {
        Some(T_ADJ)
    } else if bytes_eq(name, "sx".as_bytes()) {
        Some(SX)
    } else if bytes_eq(name, "sx_adj".as_bytes()) || bytes_eq(name, "sx__adj".as_bytes()) {
        Some(SX_ADJ)
    } else if bytes_eq(name, "rx".as_bytes()) {
        Some(RX)
    } else if bytes_eq(name, "ry".as_bytes()) {
        Some(RY)
    } else if bytes_eq(name, "rz".as_bytes()) {
        Some(RZ)
    } else if bytes_eq(name, "cx".as_bytes()) {
        Some(CX)
    } else if bytes_eq(name, "cz".as_bytes()) {
        Some(CZ)
    } else if bytes_eq(name, "rzz".as_bytes()) {
        Some(RZZ)
    } else if bytes_eq(name, "ccx".as_bytes()) {
        Some(CCX)
    } else if bytes_eq(name, "m".as_bytes()) || bytes_eq(name, "mz".as_bytes()) {
        Some(MZ)
    } else {
        None
    }
}

fn arg_ref(a: &CallArg) -> (r: Option<u32>)
    ensures
        r == ref_of(a@),
{
    match a {
        CallArg::Ref(n) => Some(*n),
        _ => None,
    }
}

fn arg_double(a: &CallArg) -> (r: Option<Vec<u8>>)
    ensures
        opt_bytes(r) == double_of(a@),
{
    match a {
        CallArg::Double(v) => Some(copy_range(v.as_slice(), 0, v.len())),
        _ => None,
    }
}

/// Builds the instruction that operation `code` makes of `args`, as `qis_op`
/// describes.
fn build_qis_op(code: u32, args: &Vec<CallArg>) -> (r: Option<Op>)
    ensures
        opt_op(r) == qis_op(code, args_view(args@)),
{
    let ghost a = args_view(args@);
    let n = args.len();
    if n >= 1 {
        assert(a[0] == args@[0]@);
    }
    if n >= 2 {
        assert(a[1] == args@[1]@);
    }
    if n >= 3 {
        assert(a[2] == args@[2]@);
    }
    if code == RX || code == RY || code == RZ {
        if n != 2 {
            return None;
        }
        match (arg_double(&args[0]), arg_ref(&args[1])) {
            (Some(angle), Some(q)) => Some(Op { op_id: code, q1: q, q2: 0, q3: 0, angle: Some(angle) }),
            _ => None,
        }
    } else if code == RZZ {
        if n != 3 {
            return None;
        }
        match (arg_double(&args[0]), arg_ref(&args[1]), arg_ref(&args[2])) {
            (Some(angle), Some(q1), Some(q2)) => Some(
                Op { op_id: code, q1, q2, q3: 0, angle: Some(angle) },
            ),
            _ => None,
        }
    } else if code == CX || code == CZ {
        if n != 2 {
            return None;
        }
        match (arg_ref(&args[0]), arg_ref(&args[1])) {
            (Some(q1), Some(q2)) => Some(Op { op_id: code, q1, q2, q3: 0, angle: None }),
            _ => None,
        }
    } else if code == CCX {
        if n != 3 {
            return None;
        }
        match (arg_ref(&args[0]), arg_ref(&args[1]), arg_ref(&args[2])) {
            (Some(q1), Some(q2), Some(q3)) => Some(Op { op_id: code, q1, q2, q3, angle: None }),
            _ => None,
        }
    } else if code == MZ {
        if n < 1 {
            return None;
        }
        match arg_ref(&args[0]) {
            Some(q) => Some(Op { op_id: code, q1: q, q2: 0, q3: 0, angle: None }),
            None => None,
        }
    } else {
        if n != 1 {
            return None;
        }
        match arg_ref(&args[0]) {
            Some(q) => Some(Op { op_id: code, q1: q, q2: 0, q3: 0, angle: None }),
            None => None,
        }
    }
}

/// A call's name without a `__body` suffix, then without a trailing `__`.
fn strip_call_name(raw: &[u8]) -> (r: Vec<u8>)
    ensures
        r@ == call_name(raw@),
{
    let body_suffix = "__body".as_bytes();
    let n1 = if ends_with(raw, body_suffix) {
        copy_range(raw, 0, raw.len() - body_suffix.len())
    } else {
        copy_range(raw, 0, raw.len())
    };
    assert(raw@.subrange(0, raw@.len() as int) =~= raw@);
    let separator = "__".as_bytes();
    if ends_with(n1.as_slice(), separator) {
        copy_range(n1.as_slice(), 0, n1.len() - separator.len())
    } else {
        n1
    }
}

/// Parses the quantum call on trimmed line `n`, as `qir_call` describes.
fn parse_call(line: &[u8], n: usize) -> (r: Result<Option<Op>, ParseError>)
    requires
        has_substring(line@, quantum_marker()),
    ensures
        call_result(r) == qir_call(line@, n as int),
{
    let marker = "@__quantum__".as_bytes();
    let at = match find(line, marker) {
        Some(at) => at,
        None => {
            return Ok(None);
        },
    };
    let len = line.len();
    let after = copy_range(line, at + marker.len(), len);
    assert(after@ =~= line@.skip(at + quantum_marker().len()));
    let separator = "__".as_bytes();
    let after_len = after.len();
    let c = match find(after.as_slice(), separator) {
        None => {
            return Err(ParseError::InvalidCall { line: n });
        },
        Some(c) => c,
    };
    let category = copy_range(after.as_slice(), 0, c);
    assert(category@ =~= after@.take(c as int));
    if !bytes_eq(category.as_slice(), "qis".as_bytes()) {
        return Ok(None);
    }
    let rest = copy_range(after.as_slice(), c + separator.len(), after_len);
    assert(rest@ =~= after@.skip(c + "__".spec_bytes().len()));
    let paren = one_byte(OPEN_PAREN);
    let p = match find(rest.as_slice(), paren.as_slice()) {
        None => {
            return Err(ParseError::InvalidCall { line: n });
        },
        Some(p) => p,
    };
    let open = at + marker.len() + c + separator.len() + p;
    assert(rest@.subrange(p as int, p + 1)[0] == OPEN_PAREN);
    assert(rest@[p as int] == OPEN_PAREN);
    assert(after@[c + separator@.len() + p] == OPEN_PAREN);
    assert(line@[open as int] == OPEN_PAREN);
    let close = match rfind_byte(line, CLOSE_PAREN) {
        None => {
            return Err(ParseError::InvalidCall { line: n });
        },
        Some(close) => close,
    };
    if close < open {
        return Err(ParseError::InvalidCall { line: n });
    }
    let text = copy_range(line, open + 1, close);
    let args = match parse_args(text.as_slice()) {
        None => {
            return Err(ParseError::InvalidArgument { line: n });
        },
        Some(args) => args,
    };
    let raw_name = copy_range(rest.as_slice(), 0, p);
    assert(raw_name@ =~= rest@.take(p as int));
    let name = strip_call_name(raw_name.as_slice());
    let code = match lookup_qis_op(name.as_slice()) {
        None => {
            return Err(ParseError::UnsupportedOperation { line: n });
        },
        Some(code) => code,
    };
    match build_qis_op(code, &args) {
        None => Err(ParseError::ArgumentMismatch { line: n }),
        Some(op) => Ok(Some(op)),
    }
}

proof fn lemma_scan_error_stays(ls: Seq<Seq<u8>>, j: int)
    requires
        0 <= j <= ls.len(),
        qir_scan(ls.take(j)) is Err,
    ensures
        qir_scan(ls) == qir_scan(ls.take(j)),
    decreases ls.len() - j,
{
    if j < ls.len() {
        assert(ls.take(j + 1).drop_last() =~= ls.take(j));
        lemma_scan_error_stays(ls, j + 1);
    } else {
        assert(ls.take(j) =~= ls);
    }
}

proof fn lemma_measures_push(body: Seq<OpModel>, op: OpModel)
    ensures
        measures(body.push(op)) == (measures(body) || op.op_id == MZ),
{
    let longer = body.push(op);
    if op.op_id == MZ {
        assert(longer[body.len() as int].op_id == MZ);
    }
    if measures(body) {
        let i = choose|i: int| 0 <= i < body.len() && #[trigger] body[i].op_id == MZ;
        assert(longer[i].op_id == MZ);
    }
    if measures(longer) && op.op_id != MZ {
        let i = choose|i: int| 0 <= i < longer.len() && #[trigger] longer[i].op_id == MZ;
        assert(body[i].op_id == MZ);
    }
}

pub open spec fn line_step(r: Result<(EntryPhase, Option<Op>), ParseError>) -> Result<
    (EntryPhase, Option<OpModel>),
    ParseError,
> {
    match r {
        Err(e) => Err(e),
        Ok((next, Some(op))) => Ok((next, Some(op@))),
        Ok((next, None)) => Ok((next, None)),
    }
}

/// Takes trimmed line `n` in `phase`, as `qir_line` describes.
fn scan_line(phase: EntryPhase, line: &[u8], n: usize) -> (r: Result<
    (EntryPhase, Option<Op>),
    ParseError,
>)
    ensures
        line_step(r) == qir_line(phase, line@, n as int),
{
    reveal(qir_line);
    if line.len() == 0 {
        return Ok((phase, None));
    }
    match phase {
        EntryPhase::Done => Ok((phase, None)),
        EntryPhase::Before => {
            if starts_with(line, "define void @".as_bytes()) && contains(line, "()".as_bytes())
                && contains(line, " #0".as_bytes()) {
                Ok((EntryPhase::Inside, None))
            } else {
                Ok((phase, None))
            }
        },
        EntryPhase::Inside => {
            if starts_with(line, "ret ".as_bytes()) || bytes_eq(line, "}".as_bytes()) {
                Ok((EntryPhase::Done, None))
            } else if contains(line, "call ".as_bytes()) && contains(line, "@__quantum__".as_bytes()) {
                match parse_call(line, n) {
                    Err(e) => Err(e),
                    Ok(op) => Ok((phase, op)),
                }
            } else {
                Ok((phase, None))
            }
        },
    }
}

/// Parses an IR program, as `qir_circuit` describes.
pub fn parse_qir(s: &[u8]) -> (r: Result<Circuit, ParseError>)
    ensures
        parsed(r) == qir_circuit(s@),
        r matches Ok(c) ==> c.qubit_count <= MAX_CIRCUIT_QUBITS,
{
    let declared = match read_declared_qubits(s) {
        Err(e) => {
            return Err(e);
        },
        Ok(d) => d,
    };
    let spans = split_lines(s);
    let ghost ls = lines(s@);
    let mut phase = EntryPhase::Before;
    let mut body: Vec<Op> = Vec::new();
    let mut span: u64 = 0;
    let mut measured = false;
    let mut k: usize = 0;
    assert(ls.take(0) =~= seq![]);
    assert(ops_view(body@) =~= seq![]);
    while k < spans.len()
        invariant
            k <= spans@.len(),
            ls == lines(s@),
            declared_qubits(s@) == Ok::<u32, ParseError>(declared),
            spans_view(spans@) == line_spans(s@),
            spans_within(spans@, s@.len()),
            qir_scan(ls.take(k as int)) == Ok::<(EntryPhase, Seq<OpModel>), ParseError>(
                (phase, ops_view(body@)),
            ),
            span as nat == qubit_span(ops_view(body@)),
            span <= 0x1_0000_0000,
            measured == measures(ops_view(body@)),
        decreases spans@.len() - k,
    {
        assert(spans_view(spans@)[k as int] == (spans@[k as int].0 as int, spans@[k as int].1 as int));
        let raw = copy_range(s, spans[k].0, spans[k].1);
        assert(raw@ == ls[k as int]);
        assert(ls.take(k + 1).drop_last() =~= ls.take(k as int));
        assert(ls.take(k + 1).last() == ls[k as int]);
        let line = trim(raw.as_slice());
        match scan_line(phase, line.as_slice(), k + 1) {
            Err(e) => {
                proof {
                    lemma_scan_error_stays(ls, k + 1);
                }
                return Err(e);
            },
            Ok((next, None)) => {
                phase = next;
            },
            Ok((next, Some(op))) => {
                let extent = op_extent(&op);
                if extent > span {
                    span = extent;
                }
                let is_measure = op.op_id == MZ;
                let ghost before = ops_view(body@);
                proof {
                    lemma_measures_push(before, op@);
                }
                body.push(op);
                assert(ops_view(body@) =~= before.push(op@));
                assert(ops_view(body@).drop_last() =~= before);
                measured = measured || is_measure;
                phase = next;
            },
        }
        k = k + 1;
    }
    assert(ls.take(k as int) =~= ls);
    if let EntryPhase::Inside = phase {
        return Err(ParseError::UnterminatedEntryPoint);
    }
    let count: u64 = if declared as u64 > span {
        declared as u64
    } else {
        span
    };
    assemble(body, count, measured)
}

} // verus!
