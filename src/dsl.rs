//! The circuit text format: one instruction per line, `name [(angle)] qubit...`.
//! Blank lines and lines whose first word begins with `#` are skipped. The
//! angle may be attached to the name (`rz(0.5) 0`) or be the next word
//! (`rz (0.5) 0`). Names are matched without regard to ASCII case.
use crate::circuit::{
    assemble, circuit_of, lemma_span_is_highest_named, names_qubit, op_extent, parsed,
    qubit_span, unused_operands_zero, Circuit, CircuitModel, ParseError, MAX_CIRCUIT_QUBITS,
};
use crate::ops::{
    angle_required, arity, qubit_arity, takes_angle, CCX, CX, CZ, H, ID, MRESETZ, MZ, RESET, RX, RY,
    RZ, RZZ, S, SX, SX_ADJ, S_ADJ, T, T_ADJ, X, Y, Z,
};
use crate::shader_types::{ops_view, Op, OpModel};
use crate::text::{
    bytes_eq, check_float_literal, copy_range, find, first_occurrence, is_float_literal, lines,
    line_spans, lower, opt_int, parse_u32, spans_view, split_lines, split_words, to_lower,
    spans_within, u32_value, word, word_spans, words_within, CLOSE_PAREN, HASH, OPEN_PAREN,
};
use vstd::prelude::*;
use vstd::string::StringSliceAdditionalSpecFns;

verus! {

/// The operation that a lower-cased name denotes.
pub open spec fn dsl_op_code(name: Seq<u8>) -> Option<u32> {
    if name == "id".spec_bytes() {
        Some(ID)
    } else if name == "reset".spec_bytes() {
        Some(RESET)
    } else if name == "x".spec_bytes() {
        Some(X)
    } else if name == "y".spec_bytes() {
        Some(Y)
    } else if name == "z".spec_bytes() {
        Some(Z)
    } else if name == "h".spec_bytes() {
        Some(H)
    } else if name == "s".spec_bytes() {
        Some(S)
    } else if name == "s_adj".spec_bytes() || name == "sadj".spec_bytes() || name
        == "sdag".spec_bytes() {
        Some(S_ADJ)
    } else if name == "t".spec_bytes() {
        Some(T)
    } else if name == "t_adj".spec_bytes() || name == "tadj".spec_bytes() || name
        == "tdag".spec_bytes() {
        Some(T_ADJ)
    } else if name == "sx".spec_bytes() {
        Some(SX)
    } else if name == "sx_adj".spec_bytes() || name == "sxadj".spec_bytes() {
        Some(SX_ADJ)
    } else if name == "rx".spec_bytes() {
        Some(RX)
    } else if name == "ry".spec_bytes() {
        Some(RY)
    } else if name == "rz".spec_bytes() {
        Some(RZ)
    } else if name == "cx".spec_bytes() {
        Some(CX)
    } else if name == "cz".spec_bytes() {
        Some(CZ)
    } else if name == "rzz".spec_bytes() {
        Some(RZZ)
    } else if name == "ccx".spec_bytes() || name == "toffoli".spec_bytes() {
        Some(CCX)
    } else if name == "mz".spec_bytes() {
        Some(MZ)
    } else if name == "mresetz".spec_bytes() {
        Some(MRESETZ)
    } else {
        None
    }
}

/// `(literal)`: an angle word.
pub open spec fn is_angle_word(w: Seq<u8>) -> bool {
    &&& w.len() >= 2
    &&& w[0] == OPEN_PAREN
    &&& w.last() == CLOSE_PAREN
    &&& is_float_literal(w.subrange(1, w.len() - 1))
}

/// The qubit operand `j` of a line whose operands begin at word `start`.
pub open spec fn operand(line: Seq<u8>, start: int, j: int) -> u32 {
    u32_value(word(line, start + j)).unwrap()
}

/// The instruction on line `n` once its operation `code` is known; `paren` is
/// where the first word holds a `(`, if it does.
pub open spec fn dsl_operands(line: Seq<u8>, n: int, code: u32, paren: Option<int>) -> Result<
    Option<OpModel>,
    ParseError,
> {
    let count = word_spans(line).len() as int;
    let attached = paren is Some;
    let separate = !attached && count > 1 && word(line, 1)[0] == OPEN_PAREN;
    let needs = takes_angle(code);
    let start: int = if separate {
        2
    } else {
        1
    };
    let extra: int = if needs {
        1
    } else {
        0
    };
    let want = arity(code) as int;
    if needs && !(attached || separate) {
        Err(ParseError::MissingAngle { line: n as usize })
    } else if !needs && (attached || separate) {
        Err(ParseError::UnexpectedAngle { line: n as usize })
    } else if count - start != want {
        Err(
            ParseError::ArgumentCount {
                line: n as usize,
                got: (count - start + extra) as usize,
                expected: (want + extra) as usize,
            },
        )
    } else if exists|k: int| start <= k < count && #[trigger] u32_value(word(line, k)) is None {
        Err(ParseError::InvalidQubit { line: n as usize })
    } else {
        let angle_word = if attached {
            word(line, 0).skip(paren.unwrap())
        } else {
            word(line, 1)
        };
        if needs && !is_angle_word(angle_word) {
            Err(ParseError::InvalidAngle { line: n as usize })
        } else {
            Ok(
                Some(
                    OpModel {
                        op_id: code,
                        q1: operand(line, start, 0),
                        q2: if want >= 2 {
                            operand(line, start, 1)
                        } else {
                            0
                        },
                        q3: if want >= 3 {
                            operand(line, start, 2)
                        } else {
                            0
                        },
                        angle: if needs {
                            Some(angle_word.subrange(1, angle_word.len() - 1))
                        } else {
                            None
                        },
                    },
                ),
            )
        }
    }
}

/// What line `n` contributes: nothing, one instruction, or an error. The
/// checks come in this order: the name, the presence of an angle, the number
/// of arguments, the qubit operands, the angle literal.
pub open spec fn dsl_line(line: Seq<u8>, n: int) -> Result<Option<OpModel>, ParseError> {
    if word_spans(line).len() == 0 || word(line, 0)[0] == HASH {
        Ok(None)
    } else {
        let first = word(line, 0);
        let paren = first_occurrence(first, seq![OPEN_PAREN]);
        let name = match paren {
            Some(p) => first.take(p),
            None => first,
        };
        match dsl_op_code(lower(name)) {
            None => Err(ParseError::InvalidOperation { line: n as usize }),
            Some(code) => dsl_operands(line, n, code, paren),
        }
    }
}

/// The instructions of `ls`, numbered from line 1, or the first line's error.
pub open spec fn dsl_body(ls: Seq<Seq<u8>>) -> Result<Seq<OpModel>, ParseError>
    decreases ls.len(),
{
    if ls.len() == 0 {
        Ok(seq![])
    } else {
        match dsl_body(ls.drop_last()) {
            Err(e) => Err(e),
            Ok(body) => match dsl_line(ls.last(), ls.len() as int) {
                Err(e) => Err(e),
                Ok(None) => Ok(body),
                Ok(Some(op)) => Ok(body.push(op)),
            },
        }
    }
}

/// The circuit that a text in the circuit text format denotes: a reset, its
/// instructions, and a measurement of every qubit, over one more qubit than
/// the highest index it names. Unlike the IR front end, this format always
/// ends with the measurement of every qubit, whether or not the text measures
/// explicitly.
pub open spec fn dsl_circuit(s: Seq<u8>) -> Result<CircuitModel, ParseError> {
    match dsl_body(lines(s)) {
        Err(e) => Err(e),
        Ok(body) => circuit_of(body, qubit_span(body), false),
    }
}

proof fn lemma_body_operands(ls: Seq<Seq<u8>>)
    requires
        dsl_body(ls) is Ok,
    ensures
        forall|i: int|
            0 <= i < dsl_body(ls).unwrap().len() ==> unused_operands_zero(
                #[trigger] dsl_body(ls).unwrap()[i],
            ),
    decreases ls.len(),
{
    if ls.len() > 0 {
        lemma_body_operands(ls.drop_last());
    }
}

/// In every text that the circuit text format accepts, the qubit count is one more
/// than the highest qubit index that an instruction names, and 0 when the
/// text has no instruction.
pub proof fn lemma_dsl_qubit_count(src: Seq<u8>)
    requires
        dsl_circuit(src) is Ok,
    ensures
        ({
            let c = dsl_circuit(src).unwrap();
            let body = c.ops.subrange(1, c.ops.len() - 1);
            &&& forall|i: int, q: nat|
                0 <= i < body.len() && #[trigger] names_qubit(body[i], q) ==> q < c.qubit_count
            &&& c.qubit_count > 0 ==> exists|i: int|
                0 <= i < body.len() && names_qubit(#[trigger] body[i], (c.qubit_count - 1) as nat)
            &&& body.len() == 0 ==> c.qubit_count == 0
        }),
{
    let body = dsl_body(lines(src)).unwrap();
    lemma_body_operands(lines(src));
    lemma_span_is_highest_named(body);
    let c = dsl_circuit(src).unwrap();
    assert(c.ops.subrange(1, c.ops.len() - 1) =~= body);
}

pub open spec fn line_result(r: Result<Option<Op>, ParseError>) -> Result<
    Option<OpModel>,
    ParseError,
> {
    match r {
        Ok(Some(op)) => Ok(Some(op@)),
        Ok(None) => Ok(None),
        Err(e) => Err(e),
    }
}

proof fn lemma_body_error_stays(ls: Seq<Seq<u8>>, j: int)
    requires
        0 <= j <= ls.len(),
        dsl_body(ls.take(j)) is Err,
    ensures
        dsl_body(ls) == dsl_body(ls.take(j)),
    decreases ls.len() - j,
{
    if j < ls.len() {
        assert(ls.take(j + 1).drop_last() =~= ls.take(j));
        lemma_body_error_stays(ls, j + 1);
    } else {
        assert(ls.take(j) =~= ls);
    }
}

fn lookup_dsl_op(name: &[u8]) -> (r: Option<u32>)
    ensures
        r == dsl_op_code(name@),
{
    if bytes_eq(name, "id".as_bytes()) {
        Some(ID)
    } else if bytes_eq(name, "reset".as_bytes()) {
        Some(RESET)
    } else if bytes_eq(name, "x".as_bytes()) {
        Some(X)
    } else if bytes_eq(name, "y".as_bytes()) {
        Some(Y)
    } else if bytes_eq(name, "z".as_bytes()) {
        Some(Z)
    } else if bytes_eq(name, "h".as_bytes()) {
        Some(H)
    } else if bytes_eq(name, "s".as_bytes()) {
        Some(S)
    } else if bytes_eq(name, "s_adj".as_bytes()) || bytes_eq(name, "sadj".as_bytes()) || bytes_eq(
        name,
        "sdag".as_bytes(),
    ) {
        Some(S_ADJ)
    } else if bytes_eq(name, "t".as_bytes()) {
        Some(T)
    } else if bytes_eq(name, "t_adj".as_bytes()) || bytes_eq(name, "tadj".as_bytes()) || bytes_eq(
        name,
        "tdag".as_bytes(),
    ) {
        Some(T_ADJ)
    } else if bytes_eq(name, "sx".as_bytes()) {
        Some(SX)
    } else if bytes_eq(name, "sx_adj".as_bytes()) || bytes_eq(name, "sxadj".as_bytes()) {
        Some(SX_ADJ)
    } else if bytes_eq(name, "rx".as_bytes()) {
        Some(RX)
    } else if bytes_eq(name, "ry".as_bytes()) {
        Some(RY)
    } else if bytes_eq(name, "rz".as_bytes()) {
        Some(RZ)
    } else if bytes_eq(name, "cx".as_bytes()) {
        Some(CX)
    } else if bytes_eq(name, "cz".as_bytes()) {
        Some(CZ)
    } else if bytes_eq(name, "rzz".as_bytes()) {
        Some(RZZ)
    } else if bytes_eq(name, "ccx".as_bytes()) || bytes_eq(name, "toffoli".as_bytes()) {
        Some(CCX)
    } else if bytes_eq(name, "mz".as_bytes()) {
        Some(MZ)
    } else if bytes_eq(name, "mresetz".as_bytes()) {
        Some(MRESETZ)
    } else {
        None
    }
}

/// Copies word `k` of `line`, given the spans of its words.
fn copy_word(line: &[u8], words: &Vec<(usize, usize)>, k: usize) -> (r: Vec<u8>)
    requires
        spans_view(words@) == word_spans(line@),
        words_within(words@, line@.len()),
        k < words@.len(),
    ensures
        r@ == word(line@, k as int),
        r@.len() > 0,
{
    assert(spans_view(words@)[k as int] == (words@[k as int].0 as int, words@[k as int].1 as int));
    copy_range(line, words[k].0, words[k].1)
}

/// Parses line `n` of a text in the circuit text format, as `dsl_line` describes.
pub fn parse_dsl_line(line: &[u8], n: usize) -> (r: Result<Option<Op>, ParseError>)
    ensures
        line_result(r) == dsl_line(line@, n as int),
{
    let words = split_words(line);
    if words.len() == 0 {
        return Ok(None);
    }
    let first = copy_word(line, &words, 0);
    if first[0] == HASH {
        return Ok(None);
    }
    let mut paren_mark: Vec<u8> = Vec::new();
    paren_mark.push(OPEN_PAREN);
    assert(paren_mark@ =~= seq![OPEN_PAREN]);
    let paren = find(first.as_slice(), paren_mark.as_slice());
    let name_end = match paren {
        Some(p) => p,
        None => first.len(),
    };
    let raw_name = copy_range(first.as_slice(), 0, name_end);
    assert(raw_name@ =~= match opt_int(paren) {
        Some(p) => first@.take(p),
        None => first@,
    });
    let name = to_lower(raw_name.as_slice());
    let code = match lookup_dsl_op(name.as_slice()) {
        Some(c) => c,
        None => {
            return Err(ParseError::InvalidOperation { line: n });
        },
    };
    let count = words.len();
    let attached = paren.is_some();
    let mut separate = false;
    if !attached && count > 1 {
        let second = copy_word(line, &words, 1);
        separate = second[0] == OPEN_PAREN;
    }
    let needs = angle_required(code);
    if needs && !(attached || separate) {
        return Err(ParseError::MissingAngle { line: n });
    }
    if !needs && (attached || separate) {
        return Err(ParseError::UnexpectedAngle { line: n });
    }
    let start: usize = if separate {
        2
    } else {
        1
    };
    let extra: usize = if needs {
        1
    } else {
        0
    };
    let want = qubit_arity(code);
    if count - start != want {
        return Err(ParseError::ArgumentCount { line: n, got: count - start + extra, expected: want + extra });
    }
    let mut qubits: Vec<u32> = Vec::new();
    let mut bad = false;
    let mut j: usize = 0;
    while j < want
        invariant
            j <= want,
            want == arity(code),
            start + want == count,
            count == words@.len(),
            spans_view(words@) == word_spans(line@),
            words_within(words@, line@.len()),
            !bad ==> qubits@.len() == j,
            !bad ==> forall|i: int|
                0 <= i < j ==> u32_value(word(line@, start + i)) == Some(#[trigger] qubits@[i]),
            bad ==> exists|k: int|
                start <= k < count && #[trigger] u32_value(word(line@, k)) is None,
        decreases want - j,
    {
        if !bad {
            let w = copy_word(line, &words, start + j);
            match parse_u32(w.as_slice()) {
                Some(q) => qubits.push(q),
                None => {
                    let ghost k = start + j;
                    assert(start <= k < count && u32_value(word(line@, k)) is None);
                    bad = true;
                },
            }
        }
        j = j + 1;
    }
    if bad {
        return Err(ParseError::InvalidQubit { line: n });
    }
    assert forall|k: int| start <= k < count implies #[trigger] u32_value(word(line@, k)) is Some by {
        assert(u32_value(word(line@, start + (k - start))) == Some(qubits@[k - start]));
    }
    let mut angle: Option<Vec<u8>> = None;
    if needs {
        let w = if attached {
            copy_range(first.as_slice(), paren.unwrap(), first.len())
        } else {
            copy_word(line, &words, 1)
        };
        assert(attached ==> w@ =~= word(line@, 0).skip(opt_int(paren).unwrap()));
        let wl = w.len();
        if wl < 2 || w[0] != OPEN_PAREN || w[wl - 1] != CLOSE_PAREN {
            return Err(ParseError::InvalidAngle { line: n });
        }
        let literal = copy_range(w.as_slice(), 1, wl - 1);
        if !check_float_literal(literal.as_slice()) {
            return Err(ParseError::InvalidAngle { line: n });
        }
        angle = Some(literal);
    }
    let q1 = qubits[0];
    let q2 = if want >= 2 {
        qubits[1]
    } else {
        0
    };
    let q3 = if want >= 3 {
        qubits[2]
    } else {
        0
    };
    Ok(Some(Op { op_id: code, q1, q2, q3, angle }))
}

/// Parses a text in the circuit text format, as `dsl_circuit` describes.
pub fn parse_dsl(s: &[u8]) -> (r: Result<Circuit, ParseError>)
    ensures
        parsed(r) == dsl_circuit(s@),
        r matches Ok(c) ==> c.qubit_count <= MAX_CIRCUIT_QUBITS,
{
    let spans = split_lines(s);
    let ghost ls = lines(s@);
    let mut body: Vec<Op> = Vec::new();
    let mut span: u64 = 0;
    let mut k: usize = 0;
    assert(ls.take(0) =~= seq![]);
    assert(ops_view(body@) =~= seq![]);
    while k < spans.len()
        invariant
            k <= spans@.len(),
            ls == lines(s@),
            spans_view(spans@) == line_spans(s@),
            spans_within(spans@, s@.len()),
            dsl_body(ls.take(k as int)) == Ok::<Seq<OpModel>, ParseError>(ops_view(body@)),
            span as nat == qubit_span(ops_view(body@)),
            span <= 0x1_0000_0000,
        decreases spans@.len() - k,
    {
        assert(spans_view(spans@)[k as int] == (spans@[k as int].0 as int, spans@[k as int].1 as int));
        let line = copy_range(s, spans[k].0, spans[k].1);
        assert(line@ == ls[k as int]);
        assert(ls.take(k + 1).drop_last() =~= ls.take(k as int));
        assert(ls.take(k + 1).last() == ls[k as int]);
        match parse_dsl_line(line.as_slice(), k + 1) {
            Err(e) => {
                proof {
                    lemma_body_error_stays(ls, k + 1);
                }
                return Err(e);
            },
            Ok(None) => {},
            Ok(Some(op)) => {
                let extent = op_extent(&op);
                if extent > span {
                    span = extent;
                }
                let ghost before = ops_view(body@);
                body.push(op);
                assert(ops_view(body@) =~= before.push(op@));
                assert(ops_view(body@).drop_last() =~= before);
            },
        }
        k = k + 1;
    }
    assert(ls.take(k as int) =~= ls);
    assemble(body, span, false)
}

} // verus!
