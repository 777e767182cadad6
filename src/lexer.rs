use vstd::prelude::*;
use vstd::string::*;
use crate::number::{Number, Op, fits};

verus! {

/// A classified unit of an expression.
#[derive(Clone, Copy, Debug, PartialEq, Eq, Structural)]
pub enum Token {
    Operand(Number),
    Operator(Op),
    LeftParen,
    RightParen,
    /// A character that is no digit, decimal point, operator or parenthesis.
    Error(char),
}

/// A run of digits and decimal points that is no decimal literal: it has more
/// than one point, no digit, or a value that does not fit.
#[derive(Clone, Copy, Debug, PartialEq, Eq, Structural)]
pub struct NumericParseError;

pub open spec fn is_digit(c: char) -> bool {
    '0' <= c && c <= '9'
}

/// The characters that make up numeric literals.
pub open spec fn is_num_char(c: char) -> bool {
    is_digit(c) || c == '.'
}

pub open spec fn digit_value(c: char) -> int {
    c as int - '0' as int
}

pub open spec fn count_dots(s: Seq<char>) -> nat
    decreases s.len(),
{
    if s.len() == 0 {
        0
    } else {
        count_dots(s.drop_last()) + if s.last() == '.' { 1nat } else { 0nat }
    }
}

/// The digits of `s`, points left out, read as one decimal integer.
pub open spec fn mantissa(s: Seq<char>) -> int
    decreases s.len(),
{
    if s.len() == 0 {
        0
    } else if s.last() == '.' {
        mantissa(s.drop_last())
    } else {
        mantissa(s.drop_last()) * 10 + digit_value(s.last())
    }
}

/// The number of characters after the decimal point of `s` (0 without one).
pub open spec fn frac_len(s: Seq<char>) -> nat
    decreases s.len(),
{
    if s.len() == 0 || s.last() == '.' {
        0
    } else if count_dots(s.drop_last()) > 0 {
        frac_len(s.drop_last()) + 1
    } else {
        0
    }
}

pub open spec fn pow10(n: nat) -> int
    decreases n,
{
    if n == 0 { 1 } else { 10 * pow10((n - 1) as nat) }
}

/// The value of a run of digits and points read as a decimal literal
/// (`"12"`, `"1.5"`, `".5"`, `"5."`): the fraction `mantissa / 10^frac_len`.
pub open spec fn parse_decimal_spec(s: Seq<char>) -> Option<Number> {
    if count_dots(s) <= 1 && count_dots(s) < s.len() && fits(mantissa(s)) && fits(pow10(frac_len(s))) {
        Some(Number { num: mantissa(s) as i128, den: pow10(frac_len(s)) as i128 })
    } else {
        None
    }
}

/// The token for a character that does not belong to a literal.
pub open spec fn classify(c: char) -> Token {
    if c == '+' {
        Token::Operator(Op::Add)
    } else if c == '-' {
        Token::Operator(Op::Sub)
    } else if c == '*' {
        Token::Operator(Op::Mul)
    } else if c == '/' {
        Token::Operator(Op::Div)
    } else if c == '(' {
        Token::LeftParen
    } else if c == ')' {
        Token::RightParen
    } else {
        Token::Error(c)
    }
}

/// The tokens for a pending literal run: none for an empty run.
pub open spec fn flush(buf: Seq<char>) -> Option<Seq<Token>> {
    if buf.len() == 0 {
        Some(seq![])
    } else {
        match parse_decimal_spec(buf) {
            Some(n) => Some(seq![Token::Operand(n)]),
            None => None,
        }
    }
}

/// `p` put in front of the tokens of `o`, if there are any.
pub open spec fn prepend(p: Seq<Token>, o: Option<Seq<Token>>) -> Option<Seq<Token>> {
    match o {
        Some(t) => Some(p + t),
        None => None,
    }
}

/// Scans `rest` left to right with the literal run `buf` pending: digits and
/// points join the run; any other character ends it, and is classified.
pub open spec fn lex(buf: Seq<char>, rest: Seq<char>) -> Option<Seq<Token>>
    decreases rest.len(),
{
    if rest.len() == 0 {
        flush(buf)
    } else if is_num_char(rest[0]) {
        lex(buf.push(rest[0]), rest.drop_first())
    } else {
        match flush(buf) {
            None => None,
            Some(f) => prepend(f.push(classify(rest[0])), lex(seq![], rest.drop_first())),
        }
    }
}

/// The tokens of `s`, or `None` where a literal run cannot be parsed.
pub open spec fn tokens_of(s: Seq<char>) -> Option<Seq<Token>> {
    lex(seq![], s)
}

proof fn lemma_prefix_bounds(s: Seq<char>, j: int, k: int)
    requires
        0 <= j <= k <= s.len(),
        forall|i: int| 0 <= i < s.len() ==> is_num_char(#[trigger] s[i]),
    ensures
        0 <= mantissa(s.take(j)) <= mantissa(s.take(k)),
        count_dots(s.take(j)) <= count_dots(s.take(k)),
        count_dots(s.take(k)) <= 1 ==> frac_len(s.take(j)) <= frac_len(s.take(k)),
    decreases k - j,
{
    if j < k {
        lemma_prefix_bounds(s, j, k - 1);
        assert(s.take(k).drop_last() =~= s.take(k - 1));
        assert(is_num_char(s[k - 1]));
    } else {
        lemma_mantissa_nonneg(s.take(j));
    }
}

proof fn lemma_mantissa_nonneg(s: Seq<char>)
    requires
        forall|i: int| 0 <= i < s.len() ==> is_num_char(#[trigger] s[i]),
    ensures
        mantissa(s) >= 0,
    decreases s.len(),
{
    if s.len() > 0 {
        lemma_mantissa_nonneg(s.drop_last());
        assert(is_num_char(s[s.len() - 1]));
    }
}

proof fn lemma_pow10_mono(a: nat, b: nat)
    requires
        a <= b,
    ensures
        1 <= pow10(a) <= pow10(b),
    decreases b,
{
    if a < b {
        lemma_pow10_mono(a, (b - 1) as nat);
    } else if a > 0 {
        lemma_pow10_mono((a - 1) as nat, (a - 1) as nat);
    }
}

/// Reads a run of digits and points as a decimal literal.
pub fn parse_decimal(run: &Vec<char>) -> (r: Result<Number, NumericParseError>)
    requires
        forall|i: int| 0 <= i < run@.len() ==> is_num_char(#[trigger] run@[i]),
    ensures
        r == match parse_decimal_spec(run@) {
            Some(n) => Ok(n),
            None => Err(NumericParseError),
        },
{
    let s = Ghost(run@);
    let mut mant: i128 = 0;
    let mut den: i128 = 1;
    let mut dots: usize = 0;
    let mut i: usize = 0;
    while i < run.len()
        invariant
            s@ == run@,
            0 <= i <= run@.len(),
            forall|k: int| 0 <= k < run@.len() ==> is_num_char(#[trigger] run@[k]),
            mant == mantissa(s@.take(i as int)),
            den == pow10(frac_len(s@.take(i as int))),
            dots == count_dots(s@.take(i as int)),
            dots <= 1,
        decreases run@.len() - i,
    {
        let c = run[i];
        proof {
            assert(s@.take(i + 1).drop_last() =~= s@.take(i as int));
            lemma_prefix_bounds(s@, i + 1, s@.len() as int);
            assert(s@.take(s@.len() as int) =~= s@);
            if count_dots(s@) <= 1 {
                lemma_pow10_mono(frac_len(s@.take(i + 1)), frac_len(s@));
            }
        }
        if c == '.' {
            if dots == 1 {
                return Err(NumericParseError);
            }
            dots = 1;
        } else {
            let d: i128 = (c as u32 - '0' as u32) as i128;
            mant = match mant.checked_mul(10) { Some(v) => v, None => return Err(NumericParseError) };
            mant = match mant.checked_add(d) { Some(v) => v, None => return Err(NumericParseError) };
            if dots == 1 {
                den = match den.checked_mul(10) { Some(v) => v, None => return Err(NumericParseError) };
            }
        }
        i = i + 1;
    }
    assert(s@.take(i as int) =~= s@);
    if dots as usize >= run.len() {
        return Err(NumericParseError);
    }
    Ok(Number { num: mant, den })
}

/// The token for a character that does not belong to a literal.
pub fn classify_char(c: char) -> (t: Token)
    ensures
        t == classify(c),
{
    if c == '+' {
        Token::Operator(Op::Add)
    } else if c == '-' {
        Token::Operator(Op::Sub)
    } else if c == '*' {
        Token::Operator(Op::Mul)
    } else if c == '/' {
        Token::Operator(Op::Div)
    } else if c == '(' {
        Token::LeftParen
    } else if c == ')' {
        Token::RightParen
    } else {
        Token::Error(c)
    }
}

/// Splits `s` into tokens, left to right. Each maximal run of digits and
/// points becomes one operand; every other character becomes one token.
/// Fails where a run is no decimal literal.
pub fn tokenize(s: &str) -> (r: Result<Vec<Token>, NumericParseError>)
    ensures
        r matches Ok(v) ==> tokens_of(s@) == Some(v@),
        r is Err <==> tokens_of(s@) is None,
{
    let n = s.unicode_len();
    let mut out: Vec<Token> = Vec::new();
    let mut buf: Vec<char> = Vec::new();
    let mut i: usize = 0;
    proof {
        assert(s@.skip(0) =~= s@);
        assert(buf@ =~= seq![]);
        if let Some(t) = tokens_of(s@) {
            assert(out@ + t =~= t);
        }
    }
    while i < n
        invariant
            n == s@.len(),
            0 <= i <= n,
            forall|k: int| 0 <= k < buf@.len() ==> is_num_char(#[trigger] buf@[k]),
            tokens_of(s@) == prepend(out@, lex(buf@, s@.skip(i as int))),
        decreases n - i,
    {
        let c = s.get_char(i);
        let ghost rest = s@.skip(i as int);
        assert(rest[0] == c);
        assert(rest.drop_first() =~= s@.skip(i + 1));
        if c == '.' || ('0' <= c && c <= '9') {
            buf.push(c);
        } else {
            if buf.len() > 0 {
                match parse_decimal(&buf) {
                    Ok(v) => out.push(Token::Operand(v)),
                    Err(e) => return Err(e),
                }
            }
            let t = classify_char(c);
            proof {
                let f = flush(buf@);
                let tail = lex(seq![], s@.skip(i + 1));
                if tail is Some {
                    assert(out@ + f->Some_0.push(t) + tail->Some_0 =~= (out@ + f->Some_0).push(t)
                        + tail->Some_0);
                }
            }
            out.push(t);
            buf.clear();
            proof {
                assert(buf@ =~= seq![]);
            }
        }
        i = i + 1;
    }
    assert(s@.skip(n as int).len() == 0);
    if buf.len() > 0 {
        match parse_decimal(&buf) {
            Ok(v) => out.push(Token::Operand(v)),
            Err(e) => return Err(e),
        }
    }
    proof {
        assert(out@ + seq![] =~= out@);
    }
    Ok(out)
}

} // verus!
