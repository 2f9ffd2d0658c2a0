//! Natural numbers of any size, held as their canonical decimal digits.
use num_bigint::BigUint;
use vstd::prelude::*;

verus! {

/// Value of a big-endian sequence of decimal digits (leading zeros add nothing).
pub open spec fn digits_value(s: Seq<u8>) -> nat
    decreases s.len(),
{
    if s.len() == 0 {
        0
    } else {
        digits_value(s.drop_last()) * 10 + s.last() as nat
    }
}

/// The canonical decimal digits of `v`: no leading zero, and zero is the single digit `0`.
pub open spec fn decimal(v: nat) -> Seq<u8>
    decreases v,
{
    if v < 10 {
        seq![v as u8]
    } else {
        decimal(v / 10).push((v % 10) as u8)
    }
}

/// Every element is a decimal digit.
pub open spec fn all_digits(s: Seq<u8>) -> bool {
    forall|i: int| 0 <= i < s.len() ==> s[i] < 10
}

/// Reading back the canonical digits of `v` gives `v`.
pub proof fn lemma_decimal_value(v: nat)
    ensures
        digits_value(decimal(v)) == v,
        all_digits(decimal(v)),
        decimal(v).len() >= 1,
    decreases v,
{
    let s = decimal(v);
    if v >= 10 {
        lemma_decimal_value(v / 10);
        assert(s.drop_last() =~= decimal(v / 10));
        assert(s.last() as nat == v % 10);
        assert(digits_value(s) == digits_value(decimal(v / 10)) * 10 + v % 10);
        assert(v == (v / 10) * 10 + v % 10);
    } else {
        assert(s.drop_last() =~= Seq::<u8>::empty());
        assert(s.last() as nat == v);
        assert(digits_value(s) == digits_value(s.drop_last()) * 10 + s.last() as nat);
    }
}

/// Distinct naturals have distinct canonical digits.
pub proof fn lemma_decimal_injective(a: nat, b: nat)
    ensures
        (decimal(a) == decimal(b)) == (a == b),
{
    lemma_decimal_value(a);
    lemma_decimal_value(b);
}

/// Decimal digits written as ASCII characters.
pub open spec fn ascii_of(s: Seq<u8>) -> Seq<u8> {
    s.map_values(|d: u8| (d + 48) as u8)
}

/// The decimal text of `v`, as ASCII bytes.
pub open spec fn text(v: nat) -> Seq<u8> {
    ascii_of(decimal(v))
}

/// The byte is an ASCII decimal digit.
pub open spec fn is_ascii_digit(b: u8) -> bool {
    48 <= b <= 57
}

/// A non-empty run of ASCII decimal digits.
pub open spec fn is_number_text(s: Seq<u8>) -> bool {
    s.len() > 0 && forall|i: int| 0 <= i < s.len() ==> is_ascii_digit(#[trigger] s[i])
}

/// The value of a run of ASCII decimal digits.
pub open spec fn text_value(s: Seq<u8>) -> nat {
    digits_value(s.map_values(|b: u8| (b - 48) as u8))
}

/// The byte can take no part in a decimal number: not a digit, a sign or a separator.
pub open spec fn is_foreign_byte(b: u8) -> bool {
    !is_ascii_digit(b) && b != 43 && b != 95
}

/// The decimal text of each `v` reads back as `v`.
pub proof fn lemma_text_value(v: nat)
    ensures
        is_number_text(text(v)),
        text_value(text(v)) == v,
{
    lemma_decimal_value(v);
    let t = text(v);
    assert(t.map_values(|b: u8| (b - 48) as u8) =~= decimal(v));
}

/// Relies on `BigUint::parse_bytes` in base ten: it reads a run of decimal digits
/// (after at most one `+`, with `_` allowed between digits) and refuses an empty text or
/// any other byte; the value read goes out through `to_radix_be`.
#[verifier::external_body]
fn parse_decimal(s: &[u8]) -> (r: Option<Vec<u8>>)
    ensures
        is_number_text(s@) ==> r is Some && r->Some_0@ == decimal(text_value(s@)),
        s@.len() == 0 ==> r is None,
        (exists|i: int| 0 <= i < s@.len() && is_foreign_byte(#[trigger] s@[i])) ==> r is None,
        r is Some ==> r->Some_0@ == decimal(digits_value(r->Some_0@)),
{
    BigUint::parse_bytes(s, 10).map(|n| n.to_radix_be(10))
}

/// A natural number, held as its canonical decimal digits (most significant first).
#[derive(Debug, PartialEq, Eq)]
pub struct Natural {
    pub digits: Vec<u8>,
}

impl View for Natural {
    type V = nat;

    open spec fn view(&self) -> nat {
        digits_value(self.digits@)
    }
}

/// Relies on `BigUint::from(u64)`, and on `BigUint::to_radix_be` in base ten to hand
/// the value back as its canonical digits (`[0]` for zero).
#[verifier::external_body]
fn digits_of_u64(n: u64) -> (r: Vec<u8>)
    ensures
        r@ == decimal(n as nat),
{
    BigUint::from(n).to_radix_be(10)
}

/// Relies on `BigUint`'s subtraction (it panics below zero, which `requires` leaves out);
/// the operands come in through `BigUint::from_radix_be` in base ten, which accepts any
/// digits below ten, and the result goes out through `to_radix_be`.
#[verifier::external_body]
pub(crate) fn sub_digits(a: &Vec<u8>, b: &Vec<u8>) -> (r: Vec<u8>)
    requires
        all_digits(a@),
        all_digits(b@),
        digits_value(a@) >= digits_value(b@),
    ensures
        r@ == decimal((digits_value(a@) - digits_value(b@)) as nat),
{
    let x = BigUint::from_radix_be(a, 10).unwrap();
    let y = BigUint::from_radix_be(b, 10).unwrap();
    (x - y).to_radix_be(10)
}

/// Relies on `BigUint`'s addition of one; operand and result convert as in `sub_digits`.
#[verifier::external_body]
fn succ_digits(a: &Vec<u8>) -> (r: Vec<u8>)
    requires
        all_digits(a@),
    ensures
        r@ == decimal(digits_value(a@) + 1),
{
    let x = BigUint::from_radix_be(a, 10).unwrap();
    (x + 1u32).to_radix_be(10)
}

/// Relies on `BigUint`'s `<=`; the operands convert as in `sub_digits`.
#[verifier::external_body]
fn le_digits(a: &Vec<u8>, b: &Vec<u8>) -> (r: bool)
    requires
        all_digits(a@),
        all_digits(b@),
    ensures
        r == (digits_value(a@) <= digits_value(b@)),
{
    BigUint::from_radix_be(a, 10).unwrap() <= BigUint::from_radix_be(b, 10).unwrap()
}

impl Clone for Natural {
    fn clone(&self) -> (r: Natural)
        ensures
            r.digits@ == self.digits@,
    {
        Natural { digits: self.digits.clone() }
    }
}

impl Natural {
    /// The digits are the canonical decimal digits of the value.
    pub open spec fn wf(&self) -> bool {
        self.digits@ == decimal(self@)
    }

    /// The natural number `n`.
    pub fn from_u64(n: u64) -> (r: Natural)
        ensures
            r.wf(),
            r@ == n as nat,
    {
        let digits = digits_of_u64(n);
        proof {
            lemma_decimal_value(n as nat);
        }
        Natural { digits }
    }

    /// Reads a decimal text, as `parse_decimal` does.
    pub fn parse(s: &[u8]) -> (r: Option<Natural>)
        ensures
            is_number_text(s@) ==> (r matches Some(n) && n.wf() && n@ == text_value(s@)),
            s@.len() == 0 ==> r is None,
            (exists|i: int| 0 <= i < s@.len() && is_foreign_byte(#[trigger] s@[i])) ==> r is None,
            r matches Some(n) ==> n.wf(),
    {
        match parse_decimal(s) {
            Some(digits) => {
                proof {
                    lemma_decimal_value(digits_value(digits@));
                    lemma_decimal_value(text_value(s@));
                }
                Some(Natural { digits })
            },
            None => None,
        }
    }

    /// The decimal text of this number, as ASCII bytes.
    pub fn to_text(&self) -> (r: Vec<u8>)
        requires
            self.wf(),
        ensures
            r@ == text(self@),
    {
        proof {
            lemma_decimal_value(self@);
        }
        let mut r: Vec<u8> = Vec::new();
        let mut i: usize = 0;
        while i < self.digits.len()
            invariant
                i <= self.digits.len(),
                all_digits(self.digits@),
                r@ == ascii_of(self.digits@.take(i as int)),
            decreases self.digits.len() - i,
        {
            r.push(self.digits[i] + 48);
            i += 1;
            assert(r@ =~= ascii_of(self.digits@.take(i as int)));
        }
        assert(self.digits@.take(i as int) =~= self.digits@);
        r
    }

    /// Zero.
    pub fn zero() -> (r: Natural)
        ensures
            r.wf(),
            r@ == 0,
    {
        Natural::from_u64(0)
    }

    /// Whether the two numbers are equal.
    pub fn equals(&self, other: &Natural) -> (r: bool)
        requires
            self.wf(),
            other.wf(),
        ensures
            r == (self@ == other@),
    {
        proof {
            lemma_decimal_injective(self@, other@);
        }
        if self.digits.len() != other.digits.len() {
            return false;
        }
        let mut i: usize = 0;
        while i < self.digits.len()
            invariant
                self.wf(),
                other.wf(),
                self.digits.len() == other.digits.len(),
                i <= self.digits.len(),
                forall|j: int| 0 <= j < i ==> self.digits@[j] == other.digits@[j],
            decreases self.digits.len() - i,
        {
            if self.digits[i] != other.digits[i] {
                assert(self.digits@[i as int] != other.digits@[i as int]);
                assert(self.digits@ != other.digits@);
                proof {
                    lemma_decimal_injective(self@, other@);
                }
                return false;
            }
            i += 1;
        }
        assert(self.digits@ =~= other.digits@);
        true
    }

    /// Whether this number is at most `other`.
    pub fn le(&self, other: &Natural) -> (r: bool)
        requires
            self.wf(),
            other.wf(),
        ensures
            r == (self@ <= other@),
    {
        proof {
            lemma_decimal_value(self@);
            lemma_decimal_value(other@);
        }
        le_digits(&self.digits, &other.digits)
    }

    /// The next natural number.
    pub fn successor(&self) -> (r: Natural)
        requires
            self.wf(),
        ensures
            r.wf(),
            r@ == self@ + 1,
    {
        proof {
            lemma_decimal_value(self@);
            lemma_decimal_value(self@ + 1);
        }
        Natural { digits: succ_digits(&self.digits) }
    }
}

} // verus!
