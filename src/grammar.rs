//! The frame sequence notation and its parser.
//!
//! ```text
//! FrameSequenceString := FrameSequence EOI
//! FrameSequence       := FrameSequencePart ("," FrameSequencePart)*
//! FrameSequencePart   := FrameRange | Frame
//! FrameRange          := Frame "-" Frame ("@" (PositiveNumber | "b"))?
//! Frame               := "-"? Digit+
//! PositiveNumber      := Digit+            (with a value above zero)
//! ```
//!
//! No whitespace is allowed anywhere. A literal outside the range of `isize`
//! is reported as an error of its own.
use vstd::prelude::*;

verus! {

/// How a range is walked.
#[derive(Clone, Copy, Debug, PartialEq, Eq)]
pub enum Step {
    /// `@n`: every `n`-th frame (`n > 0`).
    Every(isize),
    /// `@b`: coarse-to-fine binary subdivision.
    Binary,
}

/// One comma-separated element of a frame sequence.
#[derive(Clone, Copy, Debug, PartialEq, Eq)]
pub enum Part {
    /// A single frame.
    Single(isize),
    /// `left-right`, optionally with `@step`.
    Range { left: isize, right: isize, step: Option<Step> },
}

/// What the parser would have accepted where it stopped.
#[derive(Clone, Copy, Debug, PartialEq, Eq)]
pub enum Token {
    Minus,
    Digit,
    PositiveNumber,
    BinarySymbol,
    At,
    Comma,
    EndOfInput,
}

/// Input that does not match the notation: the byte offset at which it
/// stops matching, and what could have stood there.
#[derive(Debug, PartialEq, Eq)]
pub struct SyntaxError {
    pub position: usize,
    pub expected: Vec<Token>,
}

/// Why a frame sequence string was rejected.
#[derive(Debug, PartialEq, Eq)]
pub enum ParseError {
    Syntax(SyntaxError),
    /// The number that starts at this byte offset does not fit in `isize`.
    OutOfRange { position: usize },
}

/// The mathematical form of a `ParseError`.
pub enum ParseFailure {
    Syntax { position: int, expected: Seq<Token> },
    OutOfRange { position: int },
}

impl View for ParseError {
    type V = ParseFailure;

    open spec fn view(&self) -> ParseFailure {
        match self {
            ParseError::Syntax(e) => ParseFailure::Syntax {
                position: e.position as int,
                expected: e.expected@,
            },
            ParseError::OutOfRange { position } => ParseFailure::OutOfRange {
                position: *position as int,
            },
        }
    }
}

pub open spec fn is_digit(c: u8) -> bool {
    48 <= c <= 57
}

/// The end of the run of digits that starts at `i`.
pub open spec fn digits_end(s: Seq<u8>, i: int) -> int
    decreases s.len() - i,
{
    if 0 <= i < s.len() && is_digit(s[i]) {
        digits_end(s, i + 1)
    } else {
        i
    }
}

/// The decimal value of the digits `s[i..j]`.
pub open spec fn digits_value(s: Seq<u8>, i: int, j: int) -> int
    decreases j - i,
{
    if j <= i {
        0
    } else {
        digits_value(s, i, j - 1) * 10 + (s[j - 1] - 48)
    }
}

/// The frame that starts at `i`, with the offset after it.
pub open spec fn frame_at(s: Seq<u8>, i: int) -> Result<(isize, int), ParseFailure> {
    let neg = 0 <= i < s.len() && s[i] == 45;
    let d = if neg {
        i + 1
    } else {
        i
    };
    let e = digits_end(s, d);
    let v = digits_value(s, d, e);
    if e == d {
        Err(
            ParseFailure::Syntax {
                position: d,
                expected: if neg {
                    seq![Token::Digit]
                } else {
                    seq![Token::Minus, Token::Digit]
                },
            },
        )
    } else if neg && v <= isize::MAX + 1 {
        Ok(((-v) as isize, e))
    } else if !neg && v <= isize::MAX {
        Ok((v as isize, e))
    } else {
        Err(ParseFailure::OutOfRange { position: i })
    }
}

/// The step specifier that starts at `p` (just after an `@`).
pub open spec fn step_at(s: Seq<u8>, p: int) -> Result<(Step, int), ParseFailure> {
    let e = digits_end(s, p);
    let v = digits_value(s, p, e);
    if 0 <= p < s.len() && s[p] == 98 {
        Ok((Step::Binary, p + 1))
    } else if e == p || v == 0 {
        Err(
            ParseFailure::Syntax {
                position: p,
                expected: seq![Token::PositiveNumber, Token::BinarySymbol],
            },
        )
    } else if v <= isize::MAX {
        Ok((Step::Every(v as isize), e))
    } else {
        Err(ParseFailure::OutOfRange { position: p })
    }
}

/// The part that starts at `i`, with the offset after it.
pub open spec fn part_at(s: Seq<u8>, i: int) -> Result<(Part, int), ParseFailure> {
    match frame_at(s, i) {
        Err(f) => Err(f),
        Ok((left, e1)) => if e1 < s.len() && s[e1] == 45 {
            match frame_at(s, e1 + 1) {
                Err(f) => Err(f),
                Ok((right, e2)) => if e2 < s.len() && s[e2] == 64 {
                    match step_at(s, e2 + 1) {
                        Err(f) => Err(f),
                        Ok((step, e3)) => Ok(
                            (Part::Range { left, right, step: Some(step) }, e3),
                        ),
                    }
                } else {
                    Ok((Part::Range { left, right, step: None }, e2))
                },
            }
        } else {
            Ok((Part::Single(left), e1))
        },
    }
}

/// What may follow a complete part.
pub open spec fn follow_tokens(p: Part) -> Seq<Token> {
    match p {
        Part::Single(_) => seq![Token::Minus, Token::Comma, Token::EndOfInput],
        Part::Range { step: None, .. } => seq![Token::At, Token::Comma, Token::EndOfInput],
        Part::Range { step: Some(_), .. } => seq![Token::Comma, Token::EndOfInput],
    }
}

/// The parts of the frame sequence that starts at `i` and runs to the end
/// of `s`.
pub open spec fn parts_from(s: Seq<u8>, i: int) -> Result<Seq<Part>, ParseFailure>
    decreases s.len() - i,
    via parts_from_decreases
{
    match part_at(s, i) {
        Err(f) => Err(f),
        Ok((p, e)) => if e >= s.len() {
            Ok(seq![p])
        } else if s[e] == 44 {
            match parts_from(s, e + 1) {
                Ok(ps) => Ok(seq![p] + ps),
                Err(f) => Err(f),
            }
        } else {
            Err(ParseFailure::Syntax { position: e, expected: follow_tokens(p) })
        },
    }
}

/// The parts of a whole frame sequence string, given as bytes.
pub open spec fn parse_parts_spec(s: Seq<u8>) -> Result<Seq<Part>, ParseFailure> {
    parts_from(s, 0)
}

pub(crate) proof fn lemma_digits_end(s: Seq<u8>, i: int)
    ensures
        digits_end(s, i) >= i,
        0 <= i ==> digits_end(s, i) <= if i <= s.len() {
            s.len() as int
        } else {
            i
        },
        forall|k: int| i <= k < digits_end(s, i) ==> is_digit(#[trigger] s[k]),
        0 <= digits_end(s, i) < s.len() ==> !is_digit(s[digits_end(s, i)]),
    decreases s.len() - i,
{
    if 0 <= i < s.len() && is_digit(s[i]) {
        lemma_digits_end(s, i + 1);
    }
}

pub(crate) proof fn lemma_part_end(s: Seq<u8>, i: int)
    ensures
        part_at(s, i) matches Ok((_, e)) ==> e > i,
{
    let neg = 0 <= i < s.len() && s[i] == 45;
    let d = if neg {
        i + 1
    } else {
        i
    };
    lemma_digits_end(s, d);
    if let Ok((_, e1)) = frame_at(s, i) {
        lemma_digits_end(s, e1 + 2);
        let neg2 = 0 <= e1 + 1 < s.len() && s[e1 + 1] == 45;
        lemma_digits_end(s, if neg2 {
            e1 + 2
        } else {
            e1 + 1
        });
        if let Ok((_, e2)) = frame_at(s, e1 + 1) {
            lemma_digits_end(s, e2 + 1);
        }
    }
}

#[via_fn]
proof fn parts_from_decreases(s: Seq<u8>, i: int) {
    lemma_part_end(s, i);
}

pub(crate) proof fn lemma_digits_value(s: Seq<u8>, i: int, k: int, j: int)
    requires
        i <= k <= j,
        forall|x: int| i <= x < j ==> is_digit(#[trigger] s[x]),
    ensures
        0 <= digits_value(s, i, k) <= digits_value(s, i, j),
    decreases j - i,
{
    if j > k {
        lemma_digits_value(s, i, k, j - 1);
    } else if k > i {
        lemma_digits_value(s, i, k - 1, k - 1);
    }
}

/// The end of the run of digits that starts at `i`.
fn scan_digits(b: &[u8], i: usize) -> (e: usize)
    requires
        i <= b@.len(),
    ensures
        e == digits_end(b@, i as int),
{
    let mut e: usize = i;
    while e < b.len() && b[e] >= 48 && b[e] <= 57
        invariant
            i <= e <= b@.len(),
            digits_end(b@, e as int) == digits_end(b@, i as int),
        decreases b@.len() - e,
    {
        e += 1;
    }
    e
}

/// The value of the digits `b[i..j]`, or `None` when it exceeds
/// `isize::MAX + 1`.
fn digits_number(b: &[u8], i: usize, j: usize) -> (r: Option<u64>)
    requires
        i <= j <= b@.len(),
        forall|x: int| i <= x < j ==> is_digit(#[trigger] b@[x]),
    ensures
        match r {
            Some(v) => v == digits_value(b@, i as int, j as int) && v <= isize::MAX + 1,
            None => digits_value(b@, i as int, j as int) > isize::MAX + 1,
        },
{
    let limit: u128 = isize::MAX as u128 + 1;
    let mut acc: u64 = 0;
    let mut k: usize = i;
    while k < j
        invariant
            i <= k <= j <= b@.len(),
            forall|x: int| i <= x < j ==> is_digit(#[trigger] b@[x]),
            limit == isize::MAX + 1,
            acc == digits_value(b@, i as int, k as int),
            acc <= limit,
        decreases j - k,
    {
        let next: u128 = acc as u128 * 10 + (b[k] - 48) as u128;
        if next > limit {
            proof {
                lemma_digits_value(b@, i as int, k + 1, j as int);
            }
            return None;
        }
        acc = next as u64;
        k += 1;
    }
    Some(acc)
}

fn tokens(a: Token, b: Option<Token>, c: Option<Token>) -> (v: Vec<Token>)
    ensures
        v@ == seq![a] + (match b {
            Some(x) => seq![x],
            None => seq![],
        }) + (match c {
            Some(x) => seq![x],
            None => seq![],
        }),
{
    let mut v: Vec<Token> = Vec::new();
    v.push(a);
    if let Some(x) = b {
        v.push(x);
    }
    if let Some(x) = c {
        v.push(x);
    }
    assert(v@ =~= seq![a] + (match b {
        Some(x) => seq![x],
        None => seq![],
    }) + (match c {
        Some(x) => seq![x],
        None => seq![],
    }));
    v
}

fn syntax_error(position: usize, expected: Vec<Token>) -> (e: ParseError)
    ensures
        e@ == (ParseFailure::Syntax { position: position as int, expected: expected@ }),
{
    ParseError::Syntax(SyntaxError { position, expected })
}

/// Parses the frame that starts at `i`.
fn parse_frame(b: &[u8], i: usize) -> (r: Result<(isize, usize), ParseError>)
    requires
        i <= b@.len(),
    ensures
        match r {
            Ok((v, e)) => frame_at(b@, i as int) == Ok::<(isize, int), ParseFailure>(
                (v, e as int),
            ),
            Err(err) => frame_at(b@, i as int) == Err::<(isize, int), ParseFailure>(err@),
        },
{
    let neg = i < b.len() && b[i] == 45;
    let d = if neg {
        i + 1
    } else {
        i
    };
    let e = scan_digits(b, d);
    proof {
        lemma_digits_end(b@, d as int);
    }
    if e == d {
        let expected = if neg {
            tokens(Token::Digit, None, None)
        } else {
            tokens(Token::Minus, Some(Token::Digit), None)
        };
        assert(expected@ =~= if neg {
            seq![Token::Digit]
        } else {
            seq![Token::Minus, Token::Digit]
        });
        return Err(syntax_error(d, expected));
    }
    match digits_number(b, d, e) {
        Some(v) => {
            if neg {
                if v == isize::MAX as u64 + 1 {
                    Ok((isize::MIN, e))
                } else {
                    Ok((-(v as isize), e))
                }
            } else if v <= isize::MAX as u64 {
                Ok((v as isize, e))
            } else {
                Err(ParseError::OutOfRange { position: i })
            }
        },
        None => Err(ParseError::OutOfRange { position: i }),
    }
}

/// Parses the step specifier that starts at `p`, just after an `@`.
fn parse_step(b: &[u8], p: usize) -> (r: Result<(Step, usize), ParseError>)
    requires
        p <= b@.len(),
    ensures
        match r {
            Ok((st, e)) => step_at(b@, p as int) == Ok::<(Step, int), ParseFailure>(
                (st, e as int),
            ),
            Err(err) => step_at(b@, p as int) == Err::<(Step, int), ParseFailure>(err@),
        },
{
    if p < b.len() && b[p] == 98 {
        return Ok((Step::Binary, p + 1));
    }
    let e = scan_digits(b, p);
    proof {
        lemma_digits_end(b@, p as int);
    }
    let expected = tokens(Token::PositiveNumber, Some(Token::BinarySymbol), None);
    assert(expected@ =~= seq![Token::PositiveNumber, Token::BinarySymbol]);
    if e == p {
        return Err(syntax_error(p, expected));
    }
    match digits_number(b, p, e) {
        Some(v) => {
            if v == 0 {
                Err(syntax_error(p, expected))
            } else if v <= isize::MAX as u64 {
                Ok((Step::Every(v as isize), e))
            } else {
                Err(ParseError::OutOfRange { position: p })
            }
        },
        None => Err(ParseError::OutOfRange { position: p }),
    }
}

/// Parses the part that starts at `i`.
fn parse_part(b: &[u8], i: usize) -> (r: Result<(Part, usize), ParseError>)
    requires
        i <= b@.len(),
    ensures
        match r {
            Ok((part, e)) => part_at(b@, i as int) == Ok::<(Part, int), ParseFailure>(
                (part, e as int),
            ),
            Err(err) => part_at(b@, i as int) == Err::<(Part, int), ParseFailure>(err@),
        },
{
    proof {
        lemma_part_bounds(b@, i as int);
    }
    let (left, e1) = match parse_frame(b, i) {
        Ok(x) => x,
        Err(err) => return Err(err),
    };
    if e1 < b.len() && b[e1] == 45 {
        let (right, e2) = match parse_frame(b, e1 + 1) {
            Ok(x) => x,
            Err(err) => return Err(err),
        };
        if e2 < b.len() && b[e2] == 64 {
            match parse_step(b, e2 + 1) {
                Ok((step, e3)) => Ok((Part::Range { left, right, step: Some(step) }, e3)),
                Err(err) => Err(err),
            }
        } else {
            Ok((Part::Range { left, right, step: None }, e2))
        }
    } else {
        Ok((Part::Single(left), e1))
    }
}

proof fn lemma_part_bounds(s: Seq<u8>, i: int)
    requires
        0 <= i <= s.len(),
    ensures
        frame_at(s, i) matches Ok((_, e)) ==> i < e <= s.len(),
        frame_at(s, i) matches Ok((_, e)) ==> (e < s.len() && s[e] == 45 ==> (frame_at(s, e + 1) matches Ok((_, e2)) ==> e2 <= s.len())),
        part_at(s, i) matches Ok((_, e)) ==> i < e <= s.len(),
{
    let neg = 0 <= i < s.len() && s[i] == 45;
    lemma_digits_end(s, if neg {
        i + 1
    } else {
        i
    });
    if let Ok((_, e1)) = frame_at(s, i) {
        if e1 < s.len() {
            let neg2 = 0 <= e1 + 1 < s.len() && s[e1 + 1] == 45;
            lemma_digits_end(s, if neg2 {
                e1 + 2
            } else {
                e1 + 1
            });
            if let Ok((_, e2)) = frame_at(s, e1 + 1) {
                if e2 < s.len() {
                    lemma_digits_end(s, e2 + 1);
                }
            }
        }
    }
}

/// What may follow the part `p`.
fn follow(p: &Part) -> (v: Vec<Token>)
    ensures
        v@ == follow_tokens(*p),
{
    let v = match p {
        Part::Single(_) => tokens(Token::Minus, Some(Token::Comma), Some(Token::EndOfInput)),
        Part::Range { step: None, .. } => tokens(
            Token::At,
            Some(Token::Comma),
            Some(Token::EndOfInput),
        ),
        Part::Range { step: Some(_), .. } => tokens(Token::Comma, Some(Token::EndOfInput), None),
    };
    assert(v@ =~= follow_tokens(*p));
    v
}

/// Parses a whole frame sequence string, given as bytes, into its parts.
pub fn parse_parts(b: &[u8]) -> (r: Result<Vec<Part>, ParseError>)
    ensures
        match r {
            Ok(parts) => parse_parts_spec(b@) == Ok::<Seq<Part>, ParseFailure>(parts@),
            Err(err) => parse_parts_spec(b@) == Err::<Seq<Part>, ParseFailure>(err@),
        },
{
    let mut parts: Vec<Part> = Vec::new();
    let mut i: usize = 0;
    loop
        invariant
            i <= b@.len(),
            parts_from(b@, 0) == match parts_from(b@, i as int) {
                Ok(ps) => Ok(parts@ + ps),
                Err(f) => Err::<Seq<Part>, ParseFailure>(f),
            },
        decreases b@.len() - i,
    {
        proof {
            lemma_part_bounds(b@, i as int);
        }
        let (part, e) = match parse_part(b, i) {
            Ok(x) => x,
            Err(err) => return Err(err),
        };
        if e >= b.len() {
            let ghost before = parts@;
            parts.push(part);
            assert(parts@ =~= before + seq![part]);
            return Ok(parts);
        } else if b[e] == 44 {
            let ghost before = parts@;
            parts.push(part);
            assert(forall|ps: Seq<Part>| before + (seq![part] + ps) =~= parts@ + ps);
            i = e + 1;
        } else {
            return Err(syntax_error(e, follow(&part)));
        }
    }
}

} // verus!
