//! Text forms: integers in hexadecimal, polynomials as sums of terms.

use vstd::prelude::*;
use crate::big_int::u1024::U1024;
use crate::field::config::FieldConfig;
use crate::ring::element::RingElement;

verus! {

/// The hexadecimal digit for `n < 16`, lower case.
pub open spec fn hex_digit(n: int) -> char {
    if n == 0 {
        '0'
    } else if n == 1 {
        '1'
    } else if n == 2 {
        '2'
    } else if n == 3 {
        '3'
    } else if n == 4 {
        '4'
    } else if n == 5 {
        '5'
    } else if n == 6 {
        '6'
    } else if n == 7 {
        '7'
    } else if n == 8 {
        '8'
    } else if n == 9 {
        '9'
    } else if n == 10 {
        'a'
    } else if n == 11 {
        'b'
    } else if n == 12 {
        'c'
    } else if n == 13 {
        'd'
    } else if n == 14 {
        'e'
    } else {
        'f'
    }
}

/// The hexadecimal digit for `n < 16`, lower case.
pub fn hex_digit_of(n: u8) -> (c: char)
    requires
        n < 16,
    ensures
        c == hex_digit(n as int),
{
    if n == 0 {
        '0'
    } else if n == 1 {
        '1'
    } else if n == 2 {
        '2'
    } else if n == 3 {
        '3'
    } else if n == 4 {
        '4'
    } else if n == 5 {
        '5'
    } else if n == 6 {
        '6'
    } else if n == 7 {
        '7'
    } else if n == 8 {
        '8'
    } else if n == 9 {
        '9'
    } else if n == 10 {
        'a'
    } else if n == 11 {
        'b'
    } else if n == 12 {
        'c'
    } else if n == 13 {
        'd'
    } else if n == 14 {
        'e'
    } else {
        'f'
    }
}

/// Hexadecimal digit `d` of a limb, digit 0 the most significant of 16.
pub open spec fn limb_nibble(limb: u64, d: int) -> u64 {
    (limb >> ((4 * (15 - d)) as u64)) & 15
}

/// The 256 hexadecimal digits of an integer, most significant first.
pub open spec fn hex_digits(v: U1024) -> Seq<char> {
    Seq::new(256, |i: int| hex_digit(limb_nibble(v.0[15 - i / 16], i % 16) as int))
}

/// An integer in hexadecimal: `0x` and 256 digits.
pub open spec fn hex_text(v: U1024) -> Seq<char> {
    seq!['0', 'x'] + hex_digits(v)
}

/// The decimal digits of `n`.
pub open spec fn decimal_text(n: nat) -> Seq<char>
    decreases n,
{
    if n < 10 {
        seq![hex_digit(n as int)]
    } else {
        decimal_text(n / 10).push(hex_digit((n % 10) as int))
    }
}

/// One term of a polynomial: the coefficient in hexadecimal, and the
/// power of `x` where the degree is not 0.
pub open spec fn term_text(v: nat, degree: nat) -> Seq<char> {
    let h = hex_text(U1024::from_nat(v));
    if degree == 0 {
        h
    } else if degree == 1 {
        h.push('x')
    } else {
        h.push('x').push('^') + decimal_text(degree)
    }
}

/// What stands before a term: nothing before the first, ` + ` before the
/// others.
pub open spec fn separator(first: bool) -> Seq<char> {
    if first {
        Seq::empty()
    } else {
        seq![' ', '+', ' ']
    }
}

/// The terms of degree below `k` with a coefficient other than 0, highest
/// degree first and joined by ` + `; `0` if `first` and there is none.
pub open spec fn terms_text(c: Seq<nat>, k: nat, first: bool) -> Seq<char>
    decreases k,
{
    if k == 0 {
        if first {
            seq!['0']
        } else {
            Seq::empty()
        }
    } else {
        let i = (k - 1) as nat;
        if c[i as int] == 0 {
            terms_text(c, i, first)
        } else {
            separator(first) + term_text(c[i as int], i) + terms_text(c, i, false)
        }
    }
}

/// A polynomial with coefficients `c`, lowest degree first, as text.
pub open spec fn polynomial_text(c: Seq<nat>) -> Seq<char> {
    terms_text(c, c.len(), true)
}

/// The string of the given characters.
///
/// Wraps `String::from_iter` over the characters: the string holds them
/// in order.
#[verifier::external_body]
fn collect_string(chars: &Vec<char>) -> (s: String)
    ensures
        s@ == chars@,
{
    String::from_iter(chars.iter())
}

/// Appends the decimal digits of `n`.
fn push_decimal(out: &mut Vec<char>, n: usize)
    ensures
        final(out)@ == old(out)@ + decimal_text(n as nat),
    decreases n,
{
    if n >= 10 {
        push_decimal(out, n / 10);
    }
    let ghost before = out@;
    out.push(hex_digit_of((n % 10) as u8));
    proof {
        if n >= 10 {
            assert(out@ =~= old(out)@ + decimal_text((n / 10) as nat).push(
                hex_digit((n % 10) as int),
            ));
        } else {
            assert(out@ =~= old(out)@ + seq![hex_digit(n as int)]);
        }
    }
}

/// Appends an integer in hexadecimal.
fn push_hex(out: &mut Vec<char>, v: &U1024)
    ensures
        final(out)@ == old(out)@ + hex_text(*v),
{
    let ghost start = out@;
    out.push('0');
    out.push('x');
    let mut i: usize = 0;
    while i < 256
        invariant
            i <= 256,
            out@ == start + seq!['0', 'x'] + hex_digits(*v).subrange(0, i as int),
        decreases 256 - i,
    {
        let limb: u64 = v.0[15 - i / 16];
        let d: usize = i % 16;
        let shift: u64 = (4 * (15 - d)) as u64;
        let nibble: u64 = (limb >> shift) & 15;
        assert((limb >> shift) & 15 < 16) by (bit_vector);
        out.push(hex_digit_of(nibble as u8));
        i += 1;
        assert(out@ =~= start + seq!['0', 'x'] + hex_digits(*v).subrange(0, i as int));
    }
    assert(hex_digits(*v).subrange(0, 256) =~= hex_digits(*v));
    assert(out@ =~= start + hex_text(*v));
}

/// Concatenation is associative.
proof fn lemma_concat_three(a: Seq<char>, b: Seq<char>, c: Seq<char>)
    ensures
        a + (b + c) == (a + b) + c,
{
    assert(a + (b + c) =~= (a + b) + c);
}

/// Appends one term, with its separator.
fn push_term(out: &mut Vec<char>, val: &U1024, degree: usize, first: bool)
    ensures
        final(out)@ == old(out)@ + (separator(first) + term_text(val@, degree as nat)),
{
    let ghost start = out@;
    if !first {
        out.push(' ');
        out.push('+');
        out.push(' ');
    }
    assert(out@ =~= start + separator(first));
    let ghost led = out@;
    proof {
        val.lemma_from_nat_view();
    }
    push_hex(out, val);
    let ghost h = hex_text(*val);
    if degree == 1 {
        out.push('x');
        assert(out@ =~= led + h.push('x'));
    } else if degree > 1 {
        out.push('x');
        out.push('^');
        let ghost marked = out@;
        push_decimal(out, degree);
        assert(out@ =~= led + (h.push('x').push('^') + decimal_text(degree as nat)));
    }
    proof {
        assert(out@ == led + term_text(val@, degree as nat));
        lemma_concat_three(start, separator(first), term_text(val@, degree as nat));
    }
}

impl U1024 {
    /// The integer in hexadecimal: `0x` and 256 digits, most significant
    /// first.
    pub fn to_hex(&self) -> (s: String)
        ensures
            s@ == hex_text(*self),
    {
        let mut out: Vec<char> = Vec::new();
        push_hex(&mut out, self);
        assert(out@ =~= hex_text(*self));
        collect_string(&out)
    }
}

impl<C: FieldConfig> RingElement<C> {
    /// The polynomial as text: its terms with a coefficient other than 0,
    /// highest degree first, joined by ` + `; `0` for the zero polynomial.
    pub fn to_text(&self) -> (s: String)
        requires
            self.wf(),
        ensures
            s@ == polynomial_text(self.coefficient_values()),
    {
        let elem = self.clone_to_coefficient();
        let coeffs = elem.coefficients();
        let ghost c = crate::poly::ntt::values(coeffs@);
        proof {
            elem.lemma_values();
        }
        let n = coeffs.len();
        let mut out: Vec<char> = Vec::new();
        let mut first = true;
        let mut k: usize = n;
        assert(out@ + terms_text(c, k as nat, first) =~= polynomial_text(c));
        while k > 0
            invariant
                k <= n,
                n == coeffs@.len(),
                c == crate::poly::ntt::values(coeffs@),
                out@ + terms_text(c, k as nat, first) == polynomial_text(c),
            decreases k,
        {
            let i: usize = k - 1;
            let coeff = coeffs[i];
            let ghost before = out@;
            let ghost rest = terms_text(c, i as nat, false);
            if !coeff.is_zero() {
                let val = coeff.to_u1024();
                push_term(&mut out, &val, i, first);
                proof {
                    assert(c[i as int] == val@);
                    assert(terms_text(c, k as nat, first) == separator(first) + term_text(
                        val@,
                        i as nat,
                    ) + rest);
                    lemma_concat_three(before, separator(first) + term_text(val@, i as nat), rest);
                }
                first = false;
            }
            k = i;
        }
        if first {
            out.push('0');
        }
        assert(out@ =~= polynomial_text(c));
        collect_string(&out)
    }
}

} // verus!
