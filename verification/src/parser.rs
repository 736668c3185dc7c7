//! The frontend: a recursive-descent parser for the surface syntax that
//! emits the stack-based opcode sequence.
//!
//! Syntax: integer literals; infix `+ - * /`; `NdM` for rolls; `rr`,
//! `rl N`, `rh N`, `\l N`, `\h N`, `^ N`, `_ N`, `b N`, `w N` on dice;
//! comparisons `< > == !=`; boolean `and` / `or`; and the bracketed
//! select `[ pred ? arm1 arm2 ... : default ]`. Binding grows from
//! boolean (loosest) over comparison, sum and product to the dice
//! operators (tightest); all infix operators associate to the left.

use vstd::prelude::*;

use crate::descriptor::{SudiceCode, SudiceExpression};

verus! {

/// Why a source text was rejected.
#[derive(Debug, Clone, Copy, PartialEq, Eq)]
pub enum ParseError {
    /// A byte outside the language's alphabet.
    BadToken,
    /// The input ended where more was owed.
    UnexpectedEnd,
    /// A token out of place.
    UnexpectedToken,
    /// A numeric literal beyond the 64-bit range.
    NumberOverflow,
    /// The program would outgrow the address space of the instruction
    /// pointer.
    TooLong,
}

/// A plausible select table at one position: a `Select` there has at
/// least two entries (its arms and the final skip), strictly increasing
/// offsets, and a skip that stays inside the program.
pub open spec fn select_table_wf_at(code: Seq<SudiceCode>, i: int) -> bool {
    code[i] matches SudiceCode::Select(ov) ==> {
        &&& ov@.len() >= 2
        &&& (forall|a: int, b: int| 0 <= a < b < ov@.len() ==> #[trigger] ov@[a] < #[trigger] ov@[b])
        &&& i + ov@[ov@.len() - 1] + 1 <= code.len()
    }
}

/// Every select table in the program is plausible.
pub open spec fn select_tables_wf(code: Seq<SudiceCode>) -> bool {
    forall|i: int| 0 <= i < code.len() ==> #[trigger] select_table_wf_at(code, i)
}

/// Plausible select tables survive concatenation: the spans stay inside
/// their own half.
pub proof fn lemma_select_tables_wf_concat(a: Seq<SudiceCode>, b: Seq<SudiceCode>)
    requires
        select_tables_wf(a),
        select_tables_wf(b),
    ensures
        select_tables_wf(a + b),
{
    assert forall|i: int| 0 <= i < (a + b).len() implies #[trigger] select_table_wf_at(
        a + b,
        i,
    ) by {
        if i < a.len() {
            assert(select_table_wf_at(a, i));
            assert((a + b)[i] == a[i]);
        } else {
            assert(select_table_wf_at(b, i - a.len()));
            assert((a + b)[i] == b[i - a.len()]);
        }
    };
}

/// The sum of the part lengths from index `j` on.
pub open spec fn sufsum(v: Seq<usize>, j: int) -> int
    decreases v.len() - j,
{
    if j < 0 || j >= v.len() {
        0
    } else {
        v[j] + sufsum(v, j + 1)
    }
}

/// Appending a part adds its length to every suffix sum.
pub proof fn lemma_sufsum_push(v: Seq<usize>, x: usize, j: int)
    requires
        0 <= j <= v.len(),
    ensures
        sufsum(v.push(x), j) == sufsum(v, j) + x,
    decreases v.len() - j,
{
    if j < v.len() {
        lemma_sufsum_push(v, x, j + 1);
    } else {
        assert(sufsum(v, j) == 0);
        assert(sufsum(v.push(x), j + 1) == 0);
        assert(sufsum(v.push(x), j) == x + sufsum(v.push(x), j + 1));
    }
}

#[derive(Debug, Clone, Copy, PartialEq, Eq)]
enum Token {
    Num(i64),
    Plus,
    Minus,
    Star,
    Slash,
    Die,
    RerollWord,
    RerollLow,
    RerollHigh,
    DropLow,
    DropHigh,
    CapAbove,
    CapBelow,
    Best,
    Worst,
    LessThan,
    GreaterThan,
    EqualEqual,
    NotEqual,
    AndWord,
    OrWord,
    OpenParen,
    CloseParen,
    OpenBracket,
    CloseBracket,
    Question,
    Colon,
}

fn is_digit(b: u8) -> (r: bool)
    ensures
        r == (48 <= b <= 57),
{
    48u8 <= b && b <= 57u8
}

fn is_letter(b: u8) -> (r: bool)
    ensures
        r == (97 <= b <= 122),
{
    97u8 <= b && b <= 122u8
}

/// Cut the source into tokens; spaces separate, words bind greedily.
fn tokenize(bytes: &Vec<u8>) -> (r: Result<Vec<Token>, ParseError>)
{
    let mut toks: Vec<Token> = Vec::new();
    let mut i: usize = 0;
    while i < bytes.len()
        decreases bytes.len() - i,
    {
        let b = bytes[i];
        if b == 32u8 {
            i = i + 1;
        } else if is_digit(b) {
            let mut value: i64 = (b - 48u8) as i64;
            let mut k = i + 1;
            while k < bytes.len() && is_digit(bytes[k])
                invariant
                    0 <= value,
                    i < k <= bytes.len(),
                decreases bytes.len() - k,
            {
                let d = (bytes[k] - 48u8) as i64;
                let scaled = match value.checked_mul(10) {
                    Some(s) => s,
                    None => {
                        return Err(ParseError::NumberOverflow);
                    },
                };
                value = match scaled.checked_add(d) {
                    Some(s) => s,
                    None => {
                        return Err(ParseError::NumberOverflow);
                    },
                };
                k = k + 1;
            }
            toks.push(Token::Num(value));
            i = k;
        } else if is_letter(b) {
            let start = i;
            let mut j = i + 1;
            while j < bytes.len() && is_letter(bytes[j])
                invariant
                    start < j <= bytes.len(),
                decreases bytes.len() - j,
            {
                j = j + 1;
            }
            let wlen = j - start;
            let t = if wlen == 1 && bytes[start] == 100u8 {
                Token::Die
            } else if wlen == 1 && bytes[start] == 98u8 {
                Token::Best
            } else if wlen == 1 && bytes[start] == 119u8 {
                Token::Worst
            } else if wlen == 2 && bytes[start] == 114u8 && bytes[start + 1] == 114u8 {
                Token::RerollWord
            } else if wlen == 2 && bytes[start] == 114u8 && bytes[start + 1] == 108u8 {
                Token::RerollLow
            } else if wlen == 2 && bytes[start] == 114u8 && bytes[start + 1] == 104u8 {
                Token::RerollHigh
            } else if wlen == 2 && bytes[start] == 111u8 && bytes[start + 1] == 114u8 {
                Token::OrWord
            } else if wlen == 3 && bytes[start] == 97u8 && bytes[start + 1] == 110u8 && bytes[start
                + 2] == 100u8 {
                Token::AndWord
            } else {
                return Err(ParseError::BadToken);
            };
            toks.push(t);
            i = j;
        } else if b == 92u8 {
            if i + 1 >= bytes.len() {
                return Err(ParseError::UnexpectedEnd);
            }
            let c = bytes[i + 1];
            if c == 108u8 {
                toks.push(Token::DropLow);
            } else if c == 104u8 {
                toks.push(Token::DropHigh);
            } else {
                return Err(ParseError::BadToken);
            }
            i = i + 2;
        } else if b == 61u8 {
            if i + 1 >= bytes.len() || bytes[i + 1] != 61u8 {
                return Err(ParseError::BadToken);
            }
            toks.push(Token::EqualEqual);
            i = i + 2;
        } else if b == 33u8 {
            if i + 1 >= bytes.len() || bytes[i + 1] != 61u8 {
                return Err(ParseError::BadToken);
            }
            toks.push(Token::NotEqual);
            i = i + 2;
        } else {
            let t = if b == 43u8 {
                Token::Plus
            } else if b == 45u8 {
                Token::Minus
            } else if b == 42u8 {
                Token::Star
            } else if b == 47u8 {
                Token::Slash
            } else if b == 94u8 {
                Token::CapAbove
            } else if b == 95u8 {
                Token::CapBelow
            } else if b == 60u8 {
                Token::LessThan
            } else if b == 62u8 {
                Token::GreaterThan
            } else if b == 40u8 {
                Token::OpenParen
            } else if b == 41u8 {
                Token::CloseParen
            } else if b == 91u8 {
                Token::OpenBracket
            } else if b == 93u8 {
                Token::CloseBracket
            } else if b == 63u8 {
                Token::Question
            } else if b == 58u8 {
                Token::Colon
            } else {
                return Err(ParseError::BadToken);
            };
            toks.push(t);
            i = i + 1;
        }
    }
    Ok(toks)
}

/// Whether the token is an infix operator of the given binding level
/// (0 boolean, 1 comparison, 2 sum, 3 product, 4 dice).
fn level_op(t: Token, level: u8) -> (r: bool) {
    match t {
        Token::AndWord => level == 0,
        Token::OrWord => level == 0,
        Token::LessThan => level == 1,
        Token::GreaterThan => level == 1,
        Token::EqualEqual => level == 1,
        Token::NotEqual => level == 1,
        Token::Plus => level == 2,
        Token::Minus => level == 2,
        Token::Star => level == 3,
        Token::Slash => level == 3,
        Token::Die => level == 4,
        Token::RerollWord => level == 4,
        Token::RerollLow => level == 4,
        Token::RerollHigh => level == 4,
        Token::DropLow => level == 4,
        Token::DropHigh => level == 4,
        Token::CapAbove => level == 4,
        Token::CapBelow => level == 4,
        Token::Best => level == 4,
        Token::Worst => level == 4,
        _ => false,
    }
}

/// Join the code of two operands under one infix operator. For a roll
/// the die count runs first and the face count ends on top of the stack;
/// everywhere else the right operand runs first, so that the left one
/// ends on top.
fn combine(op: Token, left: Vec<SudiceCode>, right: Vec<SudiceCode>) -> (r: Result<
    Vec<SudiceCode>,
    ParseError,
>)
    ensures
        (r matches Ok(c) ==> c@.len() == left@.len() + right@.len() + 1),
        (r matches Ok(c) ==> (select_tables_wf(left@) && select_tables_wf(right@)
            ==> select_tables_wf(c@))),
{
    let ghost lv = left@;
    let ghost rv = right@;
    let mut l = left;
    let mut rt = right;
    match op {
        Token::Die => {
            l.append(&mut rt);
            l.push(SudiceCode::Roll);
            proof {
                lemma_combine_wf(lv, rv, l@, lv + rv, SudiceCode::Roll);
            }
            Ok(l)
        },
        Token::Best => {
            let off = l.len();
            rt.append(&mut l);
            rt.push(SudiceCode::BestOf(off));
            proof {
                lemma_combine_wf(lv, rv, rt@, rv + lv, SudiceCode::BestOf(off as usize));
            }
            Ok(rt)
        },
        Token::Worst => {
            let off = l.len();
            rt.append(&mut l);
            rt.push(SudiceCode::WorstOf(off));
            proof {
                lemma_combine_wf(lv, rv, rt@, rv + lv, SudiceCode::WorstOf(off as usize));
            }
            Ok(rt)
        },
        _ => {
            let opcode = match op {
                Token::Plus => SudiceCode::Add,
                Token::Minus => SudiceCode::Sub,
                Token::Star => SudiceCode::Mul,
                Token::Slash => SudiceCode::Div,
                Token::RerollWord => SudiceCode::Reroll,
                Token::RerollLow => SudiceCode::RerollLowest,
                Token::RerollHigh => SudiceCode::RerollHighest,
                Token::DropLow => SudiceCode::DropLowest,
                Token::DropHigh => SudiceCode::DropHighest,
                Token::CapAbove => SudiceCode::Ceil,
                Token::CapBelow => SudiceCode::Floor,
                Token::LessThan => SudiceCode::Lt,
                Token::GreaterThan => SudiceCode::Gt,
                Token::EqualEqual => SudiceCode::Eq,
                Token::NotEqual => SudiceCode::Ne,
                Token::AndWord => SudiceCode::And,
                Token::OrWord => SudiceCode::Or,
                _ => {
                    return Err(ParseError::UnexpectedToken);
                },
            };
            rt.append(&mut l);
            rt.push(opcode);
            proof {
                lemma_combine_wf(lv, rv, rt@, rv + lv, opcode);
            }
            Ok(rt)
        },
    }
}

/// Joining two programs under one non-select opcode keeps the select
/// tables plausible.
proof fn lemma_combine_wf(
    lv: Seq<SudiceCode>,
    rv: Seq<SudiceCode>,
    c: Seq<SudiceCode>,
    joined: Seq<SudiceCode>,
    op: SudiceCode,
)
    requires
        !(op is Select),
        c == joined.push(op),
        joined == lv + rv || joined == rv + lv,
    ensures
        select_tables_wf(lv) && select_tables_wf(rv) ==> select_tables_wf(c),
{
    if select_tables_wf(lv) && select_tables_wf(rv) {
        if joined == lv + rv {
            lemma_select_tables_wf_concat(lv, rv);
        } else {
            lemma_select_tables_wf_concat(rv, lv);
        }
        assert(select_tables_wf(seq![op])) by {
            assert(select_table_wf_at(seq![op], 0));
        };
        lemma_select_tables_wf_concat(joined, seq![op]);
        assert(c =~= joined + seq![op]);
    }
}

/// Parse one expression at the loosest binding level.
fn parse_expr(toks: &Vec<Token>, pos: usize) -> (r: Result<(Vec<SudiceCode>, usize), ParseError>)
    requires
        pos <= toks@.len(),
    ensures
        (r matches Ok(p) ==> pos < p.1 <= toks@.len() && p.0@.len() > 0 && select_tables_wf(
            p.0@,
        )),
    decreases toks@.len() - pos, 6int,
{
    parse_level(toks, pos, 0)
}

/// Parse a chain of left-associative operators of one binding level.
fn parse_level(toks: &Vec<Token>, pos: usize, level: u8) -> (r: Result<
    (Vec<SudiceCode>, usize),
    ParseError,
>)
    requires
        pos <= toks@.len(),
        level <= 4,
    ensures
        (r matches Ok(p) ==> pos < p.1 <= toks@.len() && p.0@.len() > 0 && select_tables_wf(
            p.0@,
        )),
    decreases toks@.len() - pos, 5int - level,
{
    let first = if level == 4 {
        parse_primary(toks, pos)
    } else {
        parse_level(toks, pos, level + 1)
    };
    let (mut code, mut p) = match first {
        Ok(t) => t,
        Err(e) => {
            return Err(e);
        },
    };
    while p < toks.len() && level_op(toks[p], level)
        invariant
            pos < p <= toks@.len(),
            level <= 4,
            code@.len() > 0,
            select_tables_wf(code@),
        decreases toks@.len() - p,
    {
        let op = toks[p];
        let next = if level == 4 {
            parse_primary(toks, p + 1)
        } else {
            parse_level(toks, p + 1, level + 1)
        };
        let (right, p2) = match next {
            Ok(t) => t,
            Err(e) => {
                return Err(e);
            },
        };
        code = match combine(op, code, right) {
            Ok(c) => c,
            Err(e) => {
                return Err(e);
            },
        };
        p = p2;
    }
    Ok((code, p))
}

/// Parse a literal, a negated literal, a parenthesised expression or a
/// bracketed select.
fn parse_primary(toks: &Vec<Token>, pos: usize) -> (r: Result<
    (Vec<SudiceCode>, usize),
    ParseError,
>)
    requires
        pos <= toks@.len(),
    ensures
        (r matches Ok(p) ==> pos < p.1 <= toks@.len() && p.0@.len() > 0 && select_tables_wf(
            p.0@,
        )),
    decreases toks@.len() - pos, 0int,
{
    if pos >= toks.len() {
        return Err(ParseError::UnexpectedEnd);
    }
    match toks[pos] {
        Token::Num(n) => {
            let mut c: Vec<SudiceCode> = Vec::new();
            c.push(SudiceCode::Num(n));
            proof {
                assert(select_table_wf_at(c@, 0));
            }
            Ok((c, pos + 1))
        },
        Token::Minus => {
            if pos + 1 >= toks.len() {
                return Err(ParseError::UnexpectedEnd);
            }
            match toks[pos + 1] {
                Token::Num(n) => {
                    if n == i64::MIN {
                        return Err(ParseError::NumberOverflow);
                    }
                    let mut c: Vec<SudiceCode> = Vec::new();
                    c.push(SudiceCode::Num(-n));
                    proof {
                        assert(select_table_wf_at(c@, 0));
                    }
                    Ok((c, pos + 2))
                },
                _ => Err(ParseError::UnexpectedToken),
            }
        },
        Token::OpenParen => {
            let (code, p) = match parse_expr(toks, pos + 1) {
                Ok(t) => t,
                Err(e) => {
                    return Err(e);
                },
            };
            if p >= toks.len() {
                return Err(ParseError::UnexpectedEnd);
            }
            match toks[p] {
                Token::CloseParen => Ok((code, p + 1)),
                _ => Err(ParseError::UnexpectedToken),
            }
        },
        Token::OpenBracket => parse_select(toks, pos),
        _ => Err(ParseError::UnexpectedToken),
    }
}

/// Parse `[ pred ? arm1 arm2 ... : default ]` and lay the arms out
/// behind a `Select` whose offsets are the prefix sums of the arm
/// lengths, each arm closed by a `Jump` to the end of the body.
fn parse_select(toks: &Vec<Token>, pos: usize) -> (r: Result<
    (Vec<SudiceCode>, usize),
    ParseError,
>)
    requires
        pos < toks@.len(),
        toks@[pos as int] == Token::OpenBracket,
    ensures
        (r matches Ok(p) ==> pos < p.1 <= toks@.len() && p.0@.len() > 0 && select_tables_wf(
            p.0@,
        )),
    decreases toks@.len() - pos, 0int, 0int,
{
    let tlen = toks.len();
    let (pred, p1) = match parse_expr(toks, pos + 1) {
        Ok(t) => t,
        Err(e) => {
            return Err(e);
        },
    };
    if p1 >= tlen {
        return Err(ParseError::UnexpectedEnd);
    }
    match toks[p1] {
        Token::Question => {},
        _ => {
            return Err(ParseError::UnexpectedToken);
        },
    }
    let mut q = p1 + 1;
    let mut arms: Vec<Vec<SudiceCode>> = Vec::new();
    while q < toks.len() && !matches!(toks[q], Token::Colon)
        invariant
            pos < q <= toks@.len(),
            forall|t: int| 0 <= t < arms@.len() ==> select_tables_wf(#[trigger] arms@[t]@),
        decreases toks@.len() - q,
    {
        let (a, q2) = match parse_expr(toks, q) {
            Ok(t) => t,
            Err(e) => {
                return Err(e);
            },
        };
        arms.push(a);
        q = q2;
    }
    if arms.len() == 0 {
        return Err(ParseError::UnexpectedToken);
    }
    if q >= toks.len() {
        return Err(ParseError::UnexpectedEnd);
    }
    let (dflt, q3) = match parse_expr(toks, q + 1) {
        Ok(t) => t,
        Err(e) => {
            return Err(e);
        },
    };
    if q3 >= toks.len() {
        return Err(ParseError::UnexpectedEnd);
    }
    match toks[q3] {
        Token::CloseBracket => {},
        _ => {
            return Err(ParseError::UnexpectedToken);
        },
    }
    let ghost armcount = arms@.len();
    // Assemble the body back to front: the default arm first, each arm
    // prefixed in turn with a jump over what follows it.
    let mut body = dflt;
    body.push(SudiceCode::Jump(0));
    let mut v: Vec<usize> = Vec::new();
    v.push(body.len());
    proof {
        lemma_select_tables_wf_concat(dflt@, seq![SudiceCode::Jump(0)]);
        assert(select_table_wf_at(seq![SudiceCode::Jump(0)], 0));
        assert(body@ =~= dflt@ + seq![SudiceCode::Jump(0)]);
        assert(sufsum(v@, 0) == v@[0] + sufsum(v@, 1));
    }
    while arms.len() > 0
        invariant
            select_tables_wf(body@),
            forall|t: int| 0 <= t < arms@.len() ==> select_tables_wf(#[trigger] arms@[t]@),
            forall|t: int| 0 <= t < v@.len() ==> 1 <= #[trigger] v@[t],
            v@.len() == 1 + (armcount - arms@.len()),
            arms@.len() <= armcount,
            body@.len() == sufsum(v@, 0),
        decreases arms@.len(),
    {
        let mut a = match arms.pop() {
            Some(a) => a,
            None => {
                return Err(ParseError::UnexpectedToken);
            },
        };
        let ghost av = a@;
        let ghost bv = body@;
        let ghost vv = v@;
        a.push(SudiceCode::Jump(body.len()));
        v.push(a.len());
        a.append(&mut body);
        body = a;
        proof {
            assert(select_table_wf_at(seq![SudiceCode::Jump(bv.len() as usize)], 0));
            lemma_select_tables_wf_concat(av, seq![SudiceCode::Jump(bv.len() as usize)]);
            assert(av + seq![SudiceCode::Jump(bv.len() as usize)] =~= av.push(
                SudiceCode::Jump(bv.len() as usize),
            ));
            lemma_select_tables_wf_concat(
                av.push(SudiceCode::Jump(bv.len() as usize)),
                bv,
            );
            lemma_sufsum_push(vv, (av.len() + 1) as usize, 0);
        }
    }
    // The jump table: prefix sums of the arm lengths, ending with the
    // length of the whole body.
    let mut offs: Vec<usize> = Vec::new();
    let mut sum: usize = 0;
    let mut i = v.len();
    while i > 0
        invariant
            i <= v@.len(),
            forall|t: int| 0 <= t < v@.len() ==> 1 <= #[trigger] v@[t],
            offs@.len() + i == v@.len(),
            sum as int == sufsum(v@, i as int),
            forall|a: int, b: int|
                0 <= a < b < offs@.len() ==> #[trigger] offs@[a] < #[trigger] offs@[b],
            offs@.len() > 0 ==> offs@[offs@.len() - 1] == sum,
        decreases i,
    {
        i = i - 1;
        sum = match sum.checked_add(v[i]) {
            Some(s) => s,
            None => {
                return Err(ParseError::TooLong);
            },
        };
        offs.push(sum);
    }
    let ghost offsv = offs@;
    let ghost predv = pred@;
    let ghost bodyv = body@;
    let mut code = pred;
    code.push(SudiceCode::Select(offs));
    code.append(&mut body);
    proof {
        assert(offsv[offsv.len() - 1] == bodyv.len());
        assert forall|j: int| 0 <= j < code@.len() implies #[trigger] select_table_wf_at(
            code@,
            j,
        ) by {
            if j < predv.len() {
                assert(select_table_wf_at(predv, j));
                assert(code@[j] == predv[j]);
            } else if j == predv.len() {
                assert(code@[j] matches SudiceCode::Select(ov) && ov@ == offsv);
            } else {
                assert(select_table_wf_at(bodyv, j - predv.len() - 1));
                assert(code@[j] == bodyv[j - predv.len() - 1]);
            }
        };
    }
    Ok((code, q3 + 1))
}

/// Parse a whole source text into a program; every byte must be
/// consumed.
pub fn parse(src: &str) -> (r: Result<SudiceExpression, ParseError>)
    ensures
        (r matches Ok(e) ==> e.code@.len() > 0 && select_tables_wf(e.code@)),
{
    let bytes = src.as_bytes_vec();
    let toks = match tokenize(&bytes) {
        Ok(t) => t,
        Err(e) => {
            return Err(e);
        },
    };
    let (code, p) = match parse_expr(&toks, 0) {
        Ok(t) => t,
        Err(e) => {
            return Err(e);
        },
    };
    if p != toks.len() {
        return Err(ParseError::UnexpectedToken);
    }
    Ok(SudiceExpression { code })
}

} // verus!
