//! The text protocol around a bit sequence: a header line with the length
//! and the number of operations, then one operation per line.
//!
//! ```text
//! S <index> <0|1>      set the bit at <index>
//! G <index>            print the bit at <index> as a line "0" or "1"
//! R <first> <last>     reverse the bits from <first> to <last>, both included
//! ```
//!
//! Reading and writing files is left to the caller: `run` takes the whole
//! input as bytes and gives the output as bytes.

use vstd::prelude::*;
use crate::sequence::{bit_at, with_bit, with_reversed, zeros, BitRange};

verus! {

/// The byte between two fields of a line.
pub const SPACE: u8 = 32;

/// The byte at the end of a line.
pub const NEWLINE: u8 = 10;

/// The byte `+`.
pub const PLUS: u8 = 43;

/// The byte `-`.
pub const MINUS: u8 = 45;

/// The digit `0`.
pub const ZERO: u8 = 48;

/// The digit `1`.
pub const ONE: u8 = 49;

/// The digit `9`.
pub const NINE: u8 = 57;

/// The letter of the operation that prints a bit.
pub const LETTER_G: u8 = 71;

/// The letter of the operation that reverses a range.
pub const LETTER_R: u8 = 82;

/// The letter of the operation that sets a bit.
pub const LETTER_S: u8 = 83;

/// One operation on the sequence.
#[derive(Debug, Clone, Copy, PartialEq, Eq)]
pub enum Operation {
    SetBit { index: i32, bit: bool },
    GetBit { index: i32 },
    ReverseRange { first: i32, last: i32 },
}

/// Why a session ends early.
#[derive(Debug, Clone, Copy, PartialEq, Eq)]
pub enum Failure {
    /// A line is no header or no operation: an unknown letter, a missing
    /// field, or a field that is no number.
    Malformed,
    /// A bit was asked for at a position that the sequence does not have.
    OutOfRange,
}

/// Blank bytes at the end of a line are not part of it: the space and the
/// control characters from tab to carriage return.
pub open spec fn is_blank(b: u8) -> bool {
    b == SPACE || 9 <= b <= 13
}

/// The line without the blanks at its end.
pub open spec fn trimmed(line: Seq<u8>) -> Seq<u8>
    decreases line.len(),
{
    if line.len() > 0 && is_blank(line.last()) {
        trimmed(line.drop_last())
    } else {
        line
    }
}

/// The pieces of a text between separators. A text without separator is one
/// piece; two separators in a row hold an empty piece between them.
pub open spec fn pieces(text: Seq<u8>, sep: u8) -> Seq<Seq<u8>>
    decreases text.len(),
{
    if text.len() == 0 {
        seq![Seq::empty()]
    } else if text.last() == sep {
        pieces(text.drop_last(), sep).push(Seq::empty())
    } else {
        let before = pieces(text.drop_last(), sep);
        before.update(before.len() - 1, before.last().push(text.last()))
    }
}

/// Whether all bytes are decimal digits.
pub open spec fn all_digits(digits: Seq<u8>) -> bool {
    forall|k: int| 0 <= k < digits.len() ==> ZERO <= #[trigger] digits[k] <= NINE
}

/// The number that decimal digits stand for.
pub open spec fn digits_value(digits: Seq<u8>) -> int
    decreases digits.len(),
{
    if digits.len() == 0 {
        0
    } else {
        digits_value(digits.drop_last()) * 10 + (digits.last() - ZERO)
    }
}

/// The number that a field stands for: decimal digits, at least one, after
/// an optional sign, with a value that fits in 32 bits.
pub open spec fn number(field: Seq<u8>) -> Option<i32> {
    let signed = field.len() > 0 && (field[0] == MINUS || field[0] == PLUS);
    let digits = if signed {
        field.subrange(1, field.len() as int)
    } else {
        field
    };
    let value = if field.len() > 0 && field[0] == MINUS {
        -digits_value(digits)
    } else {
        digits_value(digits)
    };
    if digits.len() > 0 && all_digits(digits) && i32::MIN <= value <= i32::MAX {
        Some(value as i32)
    } else {
        None
    }
}

/// More digits do not make a number smaller.
proof fn lemma_digits_grow(digits: Seq<u8>, k: int)
    requires
        all_digits(digits),
        0 <= k <= digits.len(),
    ensures
        0 <= digits_value(digits.subrange(0, k)) <= digits_value(digits),
    decreases digits.len() - k,
{
    if k == digits.len() {
        assert(digits.subrange(0, k) =~= digits);
        lemma_digits_positive(digits);
    } else {
        lemma_digits_grow(digits, k + 1);
        let longer = digits.subrange(0, k + 1);
        assert(longer.drop_last() =~= digits.subrange(0, k));
        assert(longer.last() == digits[k]);
        lemma_digits_positive(digits.subrange(0, k));
    }
}

/// Digits stand for no negative number.
proof fn lemma_digits_positive(digits: Seq<u8>)
    requires
        all_digits(digits),
    ensures
        0 <= digits_value(digits),
    decreases digits.len(),
{
    if digits.len() > 0 {
        assert forall|k: int| 0 <= k < digits.drop_last().len() implies 48
            <= #[trigger] digits.drop_last()[k] <= 57 by {
            assert(digits.drop_last()[k] == digits[k]);
        }
        lemma_digits_positive(digits.drop_last());
    }
}

/// Reads the number in `text` between `start` and `end`.
fn parse_number(text: &[u8], start: usize, end: usize) -> (value: Option<i32>)
    requires
        start <= end <= text@.len(),
    ensures
        value == number(text@.subrange(start as int, end as int)),
{
    let ghost field = text@.subrange(start as int, end as int);
    let mut at: usize = start;
    let mut negative = false;
    if at < end && text[at] == MINUS {
        negative = true;
        at = at + 1;
    } else if at < end && text[at] == PLUS {
        at = at + 1;
    }
    let first: usize = at;
    let ghost digits = text@.subrange(first as int, end as int);
    proof {
        if first > start {
            assert(field[0] == text@[start as int]);
            assert(digits =~= field.subrange(1, field.len() as int));
        } else {
            if field.len() > 0 {
                assert(field[0] == text@[start as int]);
            }
            assert(digits =~= field);
        }
    }
    if at >= end {
        return None;
    }
    let mut total: i64 = 0;
    while at < end
        invariant
            first <= at <= end <= text@.len(),
            start <= end,
            field == text@.subrange(start as int, end as int),
            negative == (field.len() > 0 && field[0] == 45),
            digits == (if field.len() > 0 && (field[0] == 45 || field[0] == 43) {
                field.subrange(1, field.len() as int)
            } else {
                field
            }),
            digits == text@.subrange(first as int, end as int),
            all_digits(digits.subrange(0, at - first)),
            total == digits_value(digits.subrange(0, at - first)),
            0 <= total <= 2147483648,
        decreases end - at,
    {
        let b: u8 = text[at];
        let ghost shorter = digits.subrange(0, at - first);
        let ghost longer = digits.subrange(0, at + 1 - first);
        proof {
            assert(longer.drop_last() =~= shorter);
            assert(longer.last() == b);
        }
        if b < ZERO || b > NINE {
            proof {
                assert(digits[at - first] == b);
            }
            return None;
        }
        total = total * 10 + (b - ZERO) as i64;
        proof {
            assert forall|k: int| 0 <= k < longer.len() implies 48 <= #[trigger] longer[k]
                <= 57 by {
                if k < shorter.len() {
                    assert(longer[k] == shorter[k]);
                }
            }
        }
        if total > 2147483648 {
            proof {
                if all_digits(digits) {
                    lemma_digits_grow(digits, at + 1 - first);
                }
            }
            return None;
        }
        at = at + 1;
    }
    proof {
        assert(digits.subrange(0, at - first) =~= digits);
    }
    let value: i64 = if negative {
        -total
    } else {
        total
    };
    if value > 2147483647 {
        None
    } else {
        Some(value as i32)
    }
}

/// The end of the text between `start` and `end` once the blanks at its end
/// are left out.
fn trim_end(text: &[u8], start: usize, end: usize) -> (cut: usize)
    requires
        start <= end <= text@.len(),
    ensures
        start <= cut <= end,
        text@.subrange(start as int, cut as int) == trimmed(
            text@.subrange(start as int, end as int),
        ),
{
    let mut cut: usize = end;
    while cut > start && (text[cut - 1] == SPACE || (9 <= text[cut - 1] && text[cut - 1] <= 13))
        invariant
            start <= cut <= end <= text@.len(),
            trimmed(text@.subrange(start as int, cut as int)) == trimmed(
                text@.subrange(start as int, end as int),
            ),
        decreases cut,
    {
        proof {
            let line = text@.subrange(start as int, cut as int);
            assert(line.last() == text@[cut - 1]);
            assert(line.drop_last() =~= text@.subrange(start as int, cut - 1));
        }
        cut = cut - 1;
    }
    proof {
        let line = text@.subrange(start as int, cut as int);
        if cut > start {
            assert(line.last() == text@[cut - 1]);
        }
    }
    cut
}

/// Cuts the text between `start` and `end` at every separator: the result
/// holds, for each piece in turn, where it starts and where it ends.
fn split(text: &[u8], start: usize, end: usize, sep: u8) -> (spans: Vec<(usize, usize)>)
    requires
        start <= end <= text@.len(),
    ensures
        spans@.len() == pieces(text@.subrange(start as int, end as int), sep).len(),
        spans@.len() >= 1,
        forall|k: int|
            0 <= k < spans@.len() ==> {
                &&& start <= (#[trigger] spans@[k]).0 <= spans@[k].1 <= end
                &&& text@.subrange(spans@[k].0 as int, spans@[k].1 as int) == pieces(
                    text@.subrange(start as int, end as int),
                    sep,
                )[k]
            },
{
    let mut spans: Vec<(usize, usize)> = Vec::new();
    let mut open: usize = start;
    let mut at: usize = start;
    proof {
        assert(text@.subrange(start as int, start as int) =~= Seq::<u8>::empty());
        assert(pieces(Seq::<u8>::empty(), sep) =~= seq![Seq::<u8>::empty()]);
    }
    while at < end
        invariant
            start <= open <= at <= end <= text@.len(),
            spans@.len() + 1 == pieces(text@.subrange(start as int, at as int), sep).len(),
            pieces(text@.subrange(start as int, at as int), sep).last() == text@.subrange(
                open as int,
                at as int,
            ),
            forall|k: int|
                0 <= k < spans@.len() ==> {
                    &&& start <= (#[trigger] spans@[k]).0 <= spans@[k].1 <= end
                    &&& text@.subrange(spans@[k].0 as int, spans@[k].1 as int) == pieces(
                        text@.subrange(start as int, at as int),
                        sep,
                    )[k]
                },
        decreases end - at,
    {
        let ghost shorter = text@.subrange(start as int, at as int);
        let ghost longer = text@.subrange(start as int, at + 1);
        let ghost was = spans@;
        proof {
            assert(longer.drop_last() =~= shorter);
            assert(longer.last() == text@[at as int]);
        }
        if text[at] == sep {
            spans.push((open, at));
            open = at + 1;
            proof {
                assert(text@.subrange(open as int, open as int) =~= Seq::<u8>::empty());
                assert forall|k: int| 0 <= k < spans@.len() implies {
                    &&& start <= (#[trigger] spans@[k]).0 <= spans@[k].1 <= end
                    &&& text@.subrange(spans@[k].0 as int, spans@[k].1 as int) == pieces(
                        longer,
                        sep,
                    )[k]
                } by {
                    if k < was.len() {
                        assert(spans@[k] == was[k]);
                    }
                }
            }
        } else {
            proof {
                assert(text@.subrange(open as int, at + 1) =~= text@.subrange(
                    open as int,
                    at as int,
                ).push(text@[at as int]));
            }
        }
        at = at + 1;
    }
    spans.push((open, end));
    proof {
        let all = pieces(text@.subrange(start as int, end as int), sep);
        assert forall|k: int| 0 <= k < spans@.len() implies {
            &&& start <= (#[trigger] spans@[k]).0 <= spans@[k].1 <= end
            &&& text@.subrange(spans@[k].0 as int, spans@[k].1 as int) == all[k]
        } by {
            if k == spans@.len() - 1 {
                assert(all[k] == all.last());
            }
        }
    }
    spans
}

/// What a line asks for. The line is cut at each space once the blanks at
/// its end are left out. The first field is the letter of the operation,
/// the fields behind it are its numbers; a bit is set where the field is
/// `1` and cleared for any other field. Fields behind those that the
/// operation needs are not read.
pub open spec fn operation(line: Seq<u8>) -> Result<Operation, Failure> {
    let fields = pieces(trimmed(line), SPACE);
    if fields[0] == seq![LETTER_S] {
        if fields.len() >= 3 && number(fields[1]) is Some {
            Ok(Operation::SetBit { index: number(fields[1])->0, bit: fields[2] == seq![ONE] })
        } else {
            Err(Failure::Malformed)
        }
    } else if fields[0] == seq![LETTER_G] {
        if fields.len() >= 2 && number(fields[1]) is Some {
            Ok(Operation::GetBit { index: number(fields[1])->0 })
        } else {
            Err(Failure::Malformed)
        }
    } else if fields[0] == seq![LETTER_R] {
        if fields.len() >= 3 && number(fields[1]) is Some && number(fields[2]) is Some {
            Ok(
                Operation::ReverseRange {
                    first: number(fields[1])->0,
                    last: number(fields[2])->0,
                },
            )
        } else {
            Err(Failure::Malformed)
        }
    } else {
        Err(Failure::Malformed)
    }
}

/// What a header line gives: the length of the sequence and the number of
/// operations, the first two fields of the line.
pub open spec fn header(line: Seq<u8>) -> Result<(i32, i32), Failure> {
    let fields = pieces(trimmed(line), SPACE);
    if fields.len() >= 2 && number(fields[0]) is Some && number(fields[1]) is Some {
        Ok((number(fields[0])->0, number(fields[1])->0))
    } else {
        Err(Failure::Malformed)
    }
}

/// Whether the text between the two ends of a span is the one byte `b`.
fn is_byte(text: &[u8], span: (usize, usize), b: u8) -> (same: bool)
    requires
        span.0 <= span.1 <= text@.len(),
    ensures
        same == (text@.subrange(span.0 as int, span.1 as int) == seq![b]),
{
    let ghost field = text@.subrange(span.0 as int, span.1 as int);
    if span.1 - span.0 == 1 {
        proof {
            assert(field[0] == text@[span.0 as int]);
            if text@[span.0 as int] == b {
                assert(field =~= seq![b]);
            } else {
                assert(seq![b][0] == b);
            }
        }
        text[span.0] == b
    } else {
        proof {
            assert(seq![b].len() == 1);
        }
        false
    }
}

/// Reads the operation on the line between `start` and `end`.
fn parse_operation_in(text: &[u8], start: usize, end: usize) -> (parsed: Result<
    Operation,
    Failure,
>)
    requires
        start <= end <= text@.len(),
    ensures
        parsed == operation(text@.subrange(start as int, end as int)),
{
    let cut = trim_end(text, start, end);
    let fields = split(text, start, cut, SPACE);
    if is_byte(text, fields[0], LETTER_S) {
        if fields.len() < 3 {
            return Err(Failure::Malformed);
        }
        match parse_number(text, fields[1].0, fields[1].1) {
            None => Err(Failure::Malformed),
            Some(index) => Ok(
                Operation::SetBit { index: index, bit: is_byte(text, fields[2], ONE) },
            ),
        }
    } else if is_byte(text, fields[0], LETTER_G) {
        if fields.len() < 2 {
            return Err(Failure::Malformed);
        }
        match parse_number(text, fields[1].0, fields[1].1) {
            None => Err(Failure::Malformed),
            Some(index) => Ok(Operation::GetBit { index: index }),
        }
    } else if is_byte(text, fields[0], LETTER_R) {
        if fields.len() < 3 {
            return Err(Failure::Malformed);
        }
        match parse_number(text, fields[1].0, fields[1].1) {
            None => Err(Failure::Malformed),
            Some(first) => match parse_number(text, fields[2].0, fields[2].1) {
                None => Err(Failure::Malformed),
                Some(last) => Ok(Operation::ReverseRange { first: first, last: last }),
            },
        }
    } else {
        Err(Failure::Malformed)
    }
}

/// Reads the header on the line between `start` and `end`.
fn parse_header_in(text: &[u8], start: usize, end: usize) -> (parsed: Result<(i32, i32), Failure>)
    requires
        start <= end <= text@.len(),
    ensures
        parsed == header(text@.subrange(start as int, end as int)),
{
    let cut = trim_end(text, start, end);
    let fields = split(text, start, cut, SPACE);
    if fields.len() < 2 {
        return Err(Failure::Malformed);
    }
    match parse_number(text, fields[0].0, fields[0].1) {
        None => Err(Failure::Malformed),
        Some(length) => match parse_number(text, fields[1].0, fields[1].1) {
            None => Err(Failure::Malformed),
            Some(count) => Ok((length, count)),
        },
    }
}

/// Reads one operation from a line.
pub fn parse_operation(line: &[u8]) -> (parsed: Result<Operation, Failure>)
    ensures
        parsed == operation(line@),
{
    proof {
        assert(line@.subrange(0, line@.len() as int) =~= line@);
    }
    parse_operation_in(line, 0, line.len())
}

/// Reads the length of the sequence and the number of operations from a
/// header line.
pub fn parse_header(line: &[u8]) -> (parsed: Result<(i32, i32), Failure>)
    ensures
        parsed == header(line@),
{
    proof {
        assert(line@.subrange(0, line@.len() as int) =~= line@);
    }
    parse_header_in(line, 0, line.len())
}

/// What one operation does to the bits, and the bit that it prints, if
/// any. A bit asked for at a position that the sequence does not have ends
/// the session; a position to set or a range to reverse that the sequence
/// does not have changes nothing.
pub open spec fn step(bits: Seq<bool>, op: Operation) -> Result<(Seq<bool>, Option<bool>), Failure> {
    match op {
        Operation::SetBit { index, bit } => Ok((with_bit(bits, index as int, bit), None)),
        Operation::GetBit { index } => match bit_at(bits, index as int) {
            Some(b) => Ok((bits, Some(b))),
            None => Err(Failure::OutOfRange),
        },
        Operation::ReverseRange { first, last } => Ok(
            (with_reversed(bits, first as int, last as int), None),
        ),
    }
}

/// The line that a printed bit makes.
pub open spec fn rendered(printed: Option<bool>) -> Seq<u8> {
    match printed {
        None => Seq::empty(),
        Some(b) => seq![if b {
            ONE
        } else {
            ZERO
        }, NEWLINE],
    }
}

/// The `k`-th line of a text; behind the last line every line is empty.
pub open spec fn line_at(lines: Seq<Seq<u8>>, k: int) -> Seq<u8> {
    if 0 <= k < lines.len() {
        lines[k]
    } else {
        Seq::empty()
    }
}

/// The rest of a session: the operations on the lines `next + 1` to `count`
/// are made one after the other on `bits`, and what they print is added to
/// `out`. The first line that fails ends the session.
pub open spec fn played(
    lines: Seq<Seq<u8>>,
    next: int,
    count: int,
    bits: Seq<bool>,
    out: Seq<u8>,
) -> (Seq<u8>, Option<Failure>)
    decreases count - next,
{
    if next >= count {
        (out, None)
    } else {
        match operation(line_at(lines, next + 1)) {
            Err(e) => (out, Some(e)),
            Ok(op) => match step(bits, op) {
                Err(e) => (out, Some(e)),
                Ok((after, printed)) => played(
                    lines,
                    next + 1,
                    count,
                    after,
                    out + rendered(printed),
                ),
            },
        }
    }
}

/// A whole session: the output, and the failure that ended it early, if
/// any. The first line of the input gives the length of the sequence, which
/// starts with all bits false, and the number of operations.
pub open spec fn ran(input: Seq<u8>) -> (Seq<u8>, Option<Failure>) {
    let lines = pieces(input, NEWLINE);
    match header(lines[0]) {
        Err(e) => (Seq::empty(), Some(e)),
        Ok((length, count)) => played(
            lines,
            0,
            count as int,
            zeros(length as int),
            Seq::empty(),
        ),
    }
}

/// How a session ended: what it printed, and why it ended early, if it did.
#[derive(Debug)]
pub struct Outcome {
    pub output: Vec<u8>,
    pub failure: Option<Failure>,
}

/// Makes one operation on the sequence and gives the bit to print, if any.
pub fn apply(range: &mut BitRange, op: Operation) -> (printed: Result<Option<bool>, Failure>)
    requires
        old(range).wf(),
    ensures
        final(range).wf(),
        match step(old(range)@, op) {
            Ok((after, bit)) => printed == Ok::<Option<bool>, Failure>(bit) && final(range)@
                == after,
            Err(e) => printed == Err::<Option<bool>, Failure>(e) && final(range)@ == old(range)@,
        },
{
    match op {
        Operation::SetBit { index, bit } => {
            range.set(index, bit);
            Ok(None)
        },
        Operation::GetBit { index } => match range.get(index) {
            None => Err(Failure::OutOfRange),
            Some(b) => Ok(Some(b)),
        },
        Operation::ReverseRange { first, last } => {
            range.reverse_range(first, last);
            Ok(None)
        },
    }
}

/// Runs a whole session on the bytes of the input and gives the bytes of
/// the output.
pub fn run(input: &[u8]) -> (outcome: Outcome)
    ensures
        (outcome.output@, outcome.failure) == ran(input@),
{
    let mut output: Vec<u8> = Vec::new();
    proof {
        assert(input@.subrange(0, input@.len() as int) =~= input@);
    }
    let lines = split(input, 0, input.len(), NEWLINE);
    let ghost texts = pieces(input@, 10);
    let (length, count) = match parse_header_in(input, lines[0].0, lines[0].1) {
        Err(e) => {
            return Outcome { output: output, failure: Some(e) };
        },
        Ok(pair) => pair,
    };
    let mut range = BitRange::new(length);
    let mut next: i32 = 0;
    while next < count
        invariant
            0 <= next,
            range.wf(),
            texts == pieces(input@, 10),
            lines@.len() == texts.len(),
            forall|k: int|
                0 <= k < lines@.len() ==> {
                    &&& (#[trigger] lines@[k]).0 <= lines@[k].1 <= input@.len()
                    &&& input@.subrange(lines@[k].0 as int, lines@[k].1 as int) == texts[k]
                },
            played(texts, next as int, count as int, range@, output@) == ran(input@),
        decreases count - next,
    {
        let at: usize = next as usize + 1;
        let parsed = if at < lines.len() {
            parse_operation_in(input, lines[at].0, lines[at].1)
        } else {
            proof {
                assert(input@.subrange(0, 0) =~= Seq::<u8>::empty());
            }
            parse_operation_in(input, 0, 0)
        };
        let op = match parsed {
            Err(e) => {
                return Outcome { output: output, failure: Some(e) };
            },
            Ok(op) => op,
        };
        match apply(&mut range, op) {
            Err(e) => {
                return Outcome { output: output, failure: Some(e) };
            },
            Ok(None) => {
                proof {
                    assert(output@ + rendered(None) =~= output@);
                }
            },
            Ok(Some(bit)) => {
                let ghost before = output@;
                output.push(
                    if bit {
                        ONE
                    } else {
                        ZERO
                    },
                );
                output.push(NEWLINE);
                proof {
                    assert(output@ =~= before + rendered(Some(bit)));
                }
            },
        }
        next = next + 1;
    }
    Outcome { output: output, failure: None }
}

} // verus!
