//! The 1-based number of the grouping column.

use vstd::prelude::*;
use vstd::string::StringSliceAdditionalSpecFns;

verus! {

/// Why a column number argument was rejected, following the error kinds of
/// parsing a non-zero `usize`.
#[derive(Clone, Copy, Debug, PartialEq, Eq, Structural)]
pub enum ParseColumnError {
    /// The text is empty.
    Empty,
    /// A character is not a decimal digit (or a sign stands alone).
    InvalidDigit,
    /// The number does not fit in a `usize`.
    PosOverflow,
    /// The number is zero, which names no column.
    Zero,
}

/// True when `b` is the byte of an ASCII decimal digit.
pub open spec fn is_digit(b: u8) -> bool {
    0x30 <= b && b <= 0x39
}

/// The value of the decimal digit whose byte is `b`.
pub open spec fn digit_value(b: u8) -> nat {
    (b - 0x30) as nat
}

/// Reads the digits in `d` from left to right, stopping at the first byte
/// that is not a digit or at the first digit that would carry the value past
/// `usize::MAX`.
pub open spec fn parse_digits(d: Seq<u8>) -> Result<nat, ParseColumnError>
    decreases d.len(),
{
    if d.len() == 0 {
        Ok(0)
    } else {
        match parse_digits(d.drop_last()) {
            Err(e) => Err(e),
            Ok(v) => if !is_digit(d.last()) {
                Err(ParseColumnError::InvalidDigit)
            } else if v * 10 + digit_value(d.last()) > usize::MAX {
                Err(ParseColumnError::PosOverflow)
            } else {
                Ok(v * 10 + digit_value(d.last()))
            },
        }
    }
}

/// The outcome of parsing the UTF-8 text `b` as a column number: an optional
/// leading `+`, then decimal digits, with a value from 1 to `usize::MAX`. A
/// sign with nothing after it is an invalid digit; `-` is never accepted.
pub open spec fn parse_column(b: Seq<u8>) -> Result<nat, ParseColumnError> {
    if b.len() == 0 {
        Err(ParseColumnError::Empty)
    } else if b.len() == 1 && (b[0] == 0x2b || b[0] == 0x2d) {
        Err(ParseColumnError::InvalidDigit)
    } else {
        let digits = if b[0] == 0x2b { b.drop_first() } else { b };
        match parse_digits(digits) {
            Ok(v) => if v == 0 { Err(ParseColumnError::Zero) } else { Ok(v) },
            Err(e) => Err(e),
        }
    }
}

/// The decimal digits of `n`, most significant first, without sign or
/// leading zeros.
pub open spec fn decimal(n: nat) -> Seq<u8>
    decreases n,
{
    if n < 10 {
        seq![(0x30 + n) as u8]
    } else {
        decimal(n / 10).push((0x30 + n % 10) as u8)
    }
}

/// Reading the decimal digits of any `n` up to `usize::MAX` gives `n`.
proof fn lemma_parse_digits_decimal(n: nat)
    requires
        n <= usize::MAX,
    ensures
        parse_digits(decimal(n)) == Ok::<nat, ParseColumnError>(n),
        decimal(n).len() > 0,
        is_digit(decimal(n)[0]),
    decreases n,
{
    if n < 10 {
        assert(decimal(n).drop_last() =~= Seq::<u8>::empty());
        assert(((0x30 + n) as u8) as nat == 0x30 + n);
        assert(decimal(n).last() == (0x30 + n) as u8);
        assert(parse_digits(decimal(n).drop_last()) == Ok::<nat, ParseColumnError>(0));
    } else {
        let q = n / 10;
        let r = n % 10;
        assert(n == q * 10 + r);
        assert(((0x30 + r) as u8) as nat == 0x30 + r);
        lemma_parse_digits_decimal(q);
        assert(decimal(n).drop_last() == decimal(q));
        assert(decimal(n).last() == (0x30 + r) as u8);
        assert(decimal(n)[0] == decimal(q)[0]);
    }
}

/// The column number written in decimal parses to itself, for every number
/// from 1 to `usize::MAX`, also with a leading `+`.
pub proof fn lemma_parse_column_decimal(n: nat)
    requires
        0 < n <= usize::MAX,
    ensures
        parse_column(decimal(n)) == Ok::<nat, ParseColumnError>(n),
        parse_column(seq![0x2bu8] + decimal(n)) == Ok::<nat, ParseColumnError>(n),
{
    lemma_parse_digits_decimal(n);
    let d = decimal(n);
    assert((seq![0x2bu8] + d).drop_first() =~= d);
    assert((seq![0x2bu8] + d)[0] == 0x2b);
}

/// The grouping column, counting from 1. A value of this type is never zero.
#[derive(Clone, Copy, Debug, PartialEq, Eq, Structural)]
pub struct ColumnNumber {
    number: usize,
}

impl ColumnNumber {
    #[verifier::type_invariant]
    spec fn is_nonzero(self) -> bool {
        self.number > 0
    }

    /// The column number as a mathematical integer.
    pub closed spec fn value(self) -> nat {
        self.number as nat
    }

    /// The column numbered `number`, or `None` for zero.
    pub fn new(number: usize) -> (r: Option<ColumnNumber>)
        ensures
            r is Some <==> number > 0,
            r matches Some(c) ==> c.value() == number,
    {
        if number == 0 {
            None
        } else {
            Some(ColumnNumber { number })
        }
    }

    /// The column number, counting from 1.
    pub fn get(self) -> (r: usize)
        ensures
            r == self.value(),
            r >= 1,
    {
        proof {
            use_type_invariant(&self);
        }
        self.number
    }

    /// The 0-based index this column number refers to.
    pub fn index(self) -> (r: usize)
        ensures
            r + 1 == self.value(),
    {
        proof {
            use_type_invariant(&self);
        }
        self.number - 1
    }

    /// Parses a column number the way a non-zero `usize` is parsed from text.
    #[verifier::rlimit(40)]
    #[verifier::spinoff_prover]
    pub fn from_str(s: &str) -> (r: Result<ColumnNumber, ParseColumnError>)
        ensures
            match parse_column(s.spec_bytes()) {
                Ok(v) => r matches Ok(c) && c.value() == v,
                Err(e) => r == Err::<ColumnNumber, ParseColumnError>(e),
            },
    {
        let b = s.as_bytes();
        let n = b.len();
        if n == 0 {
            return Err(ParseColumnError::Empty);
        }
        if n == 1 && (b[0] == 0x2b || b[0] == 0x2d) {
            return Err(ParseColumnError::InvalidDigit);
        }
        let start: usize = if b[0] == 0x2b { 1 } else { 0 };
        let ghost digits = if b@[0] == 0x2b { b@.drop_first() } else { b@ };
        assert(digits == b@.subrange(start as int, n as int));
        let mut value: usize = 0;
        let mut i: usize = start;
        while i < n
            invariant
                start <= i <= n,
                n == b@.len(),
                b@ == s.spec_bytes(),
                !(n == 1 && (b@[0] == 0x2b || b@[0] == 0x2d)),
                digits == (if b@[0] == 0x2b { b@.drop_first() } else { b@ }),
                digits == b@.subrange(start as int, n as int),
                parse_digits(b@.subrange(start as int, i as int)) == Ok::<nat, ParseColumnError>(
                    value as nat,
                ),
            decreases n - i,
        {
            let c = b[i];
            assert(b@.subrange(start as int, i + 1).drop_last() == b@.subrange(
                start as int,
                i as int,
            ));
            if c < 0x30 || c > 0x39 {
                assert(parse_digits(b@.subrange(start as int, i + 1)) == Err::<nat, ParseColumnError>(
                    ParseColumnError::InvalidDigit,
                ));
                proof {
                    assert(digits.take(i - start + 1) == b@.subrange(start as int, i + 1));
                    lemma_parse_digits_error_persists(digits, (i - start + 1) as nat);
                }
                return Err(ParseColumnError::InvalidDigit);
            }
            let d = (c - 0x30) as usize;
            if value > (usize::MAX - d) / 10 {
                assert(value * 10 + d > usize::MAX) by (nonlinear_arith)
                    requires
                        value > (usize::MAX - d) / 10,
                        d <= 9,
                ;
                assert(parse_digits(b@.subrange(start as int, i + 1)) == Err::<nat, ParseColumnError>(
                    ParseColumnError::PosOverflow,
                ));
                proof {
                    assert(digits.take(i - start + 1) == b@.subrange(start as int, i + 1));
                    lemma_parse_digits_error_persists(digits, (i - start + 1) as nat);
                }
                return Err(ParseColumnError::PosOverflow);
            }
            assert(value * 10 + d <= usize::MAX) by (nonlinear_arith)
                requires
                    value <= (usize::MAX - d) / 10,
                    d <= 9,
            ;
            value = value * 10 + d;
            i = i + 1;
        }
        assert(b@.subrange(start as int, n as int) == digits);
        if value == 0 {
            Err(ParseColumnError::Zero)
        } else {
            Ok(ColumnNumber { number: value })
        }
    }
}

/// Once reading the first `k` bytes of `d` fails, reading all of `d` fails
/// the same way.
proof fn lemma_parse_digits_error_persists(d: Seq<u8>, k: nat)
    requires
        k <= d.len(),
        parse_digits(d.take(k as int)) is Err,
    ensures
        parse_digits(d) == parse_digits(d.take(k as int)),
    decreases d.len() - k,
{
    if k < d.len() {
        assert(d.take(k as int + 1).drop_last() == d.take(k as int));
        lemma_parse_digits_error_persists(d, k + 1);
    } else {
        assert(d.take(k as int) == d);
    }
}

} // verus!
