use vstd::arithmetic::power::{lemma_pow_positive, pow};
use vstd::prelude::*;

verus! {

/// Position of a symbol in the digit alphabet `0-9` followed by `a-z`
/// (upper-case letters rank as their lower-case forms); 36 for any other symbol.
pub open spec fn symbol_rank(c: char) -> nat {
    let u = c as int;
    if '0' as int <= u <= '9' as int {
        (u - '0' as int) as nat
    } else if 'a' as int <= u <= 'z' as int {
        (u - 'a' as int + 10) as nat
    } else if 'A' as int <= u <= 'Z' as int {
        (u - 'A' as int + 10) as nat
    } else {
        36
    }
}

/// The canonical (lower-case) symbol of digit value `d < 36`.
pub open spec fn digit_symbol(d: nat) -> char {
    if d < 10 {
        ('0' as int + d) as char
    } else {
        ('a' as int + d - 10) as char
    }
}

/// Every symbol of `s` is a digit in `radix`.
pub open spec fn all_digits(s: Seq<char>, radix: nat) -> bool {
    forall|i: int| 0 <= i < s.len() ==> symbol_rank(#[trigger] s[i]) < radix
}

/// The number that the digit sequence `s` denotes in `radix`, most significant first.
pub open spec fn digits_value(s: Seq<char>, radix: nat) -> nat
    decreases s.len(),
{
    if s.len() == 0 {
        0
    } else {
        digits_value(s.drop_last(), radix) * radix + symbol_rank(s.last())
    }
}

/// The canonical digit sequence of `v` in `radix`, most significant first, without
/// leading zeros (zero itself is one digit).
pub open spec fn digits_of(v: nat, radix: nat) -> Seq<char>
    decreases v,
{
    if radix < 2 || v < radix {
        seq![digit_symbol(v)]
    } else {
        proof {
            lemma_quotient_smaller(v, radix);
        }
        digits_of(v / radix, radix).push(digit_symbol(v % radix))
    }
}

/// Dividing by the radix makes a number of two or more digits smaller.
pub proof fn lemma_quotient_smaller(v: nat, radix: nat)
    requires
        2 <= radix <= v,
    ensures
        v / radix < v,
{
    assert(v / radix < v) by (nonlinear_arith)
        requires
            2 <= radix <= v,
    ;
}

/// The canonical symbol of a digit value ranks as that value.
pub proof fn lemma_symbol_round_trip(d: nat)
    requires
        d < 36,
    ensures
        symbol_rank(digit_symbol(d)) == d,
{
}

/// The canonical digits of `v` are digits of `radix` and denote `v`.
pub proof fn lemma_digits_of_value(v: nat, radix: nat)
    requires
        2 <= radix <= 36,
    ensures
        all_digits(digits_of(v, radix), radix),
        digits_value(digits_of(v, radix), radix) == v,
        digits_of(v, radix).len() >= 1,
    decreases v,
{
    if v < radix {
        lemma_symbol_round_trip(v);
        let s = digits_of(v, radix);
        assert(s.drop_last() =~= Seq::<char>::empty());
        assert(s.last() == digit_symbol(v));
        assert(digits_value(s, radix) == digits_value(s.drop_last(), radix) * radix + symbol_rank(s.last()));
    } else {
        lemma_quotient_smaller(v, radix);
        lemma_digits_of_value(v / radix, radix);
        lemma_symbol_round_trip(v % radix);
        let s = digits_of(v, radix);
        assert(s.drop_last() =~= digits_of(v / radix, radix));
        assert(v == (v / radix) * radix + v % radix) by (nonlinear_arith)
            requires
                radix > 0,
        ;
    }
}

/// Digit value `d` of a radix up to 36, as its symbol.
fn digit_to_symbol(d: u32) -> (c: char)
    requires
        d < 36,
    ensures
        c == digit_symbol(d as nat),
{
    if d < 10 {
        ((d as u8) + 48u8) as char
    } else {
        ((d as u8) + 87u8) as char
    }
}

/// The value of symbol `c` as a digit in `radix`, if it is one.
pub fn symbol_to_digit(c: char, radix: u32) -> (r: Option<u32>)
    requires
        2 <= radix <= 36,
    ensures
        r == (if symbol_rank(c) < radix {
            Some(symbol_rank(c) as u32)
        } else {
            None
        }),
{
    let u = c as u32;
    let rank: u32 = if '0' as u32 <= u && u <= '9' as u32 {
        u - '0' as u32
    } else if 'a' as u32 <= u && u <= 'z' as u32 {
        u - 'a' as u32 + 10
    } else if 'A' as u32 <= u && u <= 'Z' as u32 {
        u - 'A' as u32 + 10
    } else {
        36
    };
    if rank < radix {
        Some(rank)
    } else {
        None
    }
}

/// The digits of `x` in `radix`, most significant first.
pub fn get_digits(x: u32, radix: u32) -> (r: Vec<char>)
    requires
        2 <= radix <= 36,
    ensures
        r@ == digits_of(x as nat, radix as nat),
{
    let mut rest: u32 = x;
    let mut low_first: Vec<char> = Vec::new();
    loop
        invariant_except_break
            2 <= radix <= 36,
            digits_of(x as nat, radix as nat) == digits_of(rest as nat, radix as nat) + low_first@.reverse(),
        ensures
            digits_of(x as nat, radix as nat) == low_first@.reverse(),
        decreases rest,
    {
        let m = rest % radix;
        let ghost before = low_first@;
        let ghost old_rest = rest;
        rest = rest / radix;
        assert(rest == 0 <==> old_rest < radix) by (nonlinear_arith)
            requires
                rest == old_rest / radix,
                radix >= 2,
        ;
        assert(old_rest < radix ==> m == old_rest) by (nonlinear_arith)
            requires
                m == old_rest % radix,
                radix >= 2,
        ;
        low_first.push(digit_to_symbol(m));
        assert(low_first@.reverse() =~= seq![digit_symbol(m as nat)] + before.reverse());
        if rest == 0 {
            assert(digits_of(old_rest as nat, radix as nat) == seq![digit_symbol(m as nat)]);
            assert(digits_of(x as nat, radix as nat) =~= low_first@.reverse());
            break;
        }
        assert(digits_of(x as nat, radix as nat) =~= digits_of(rest as nat, radix as nat)
            + low_first@.reverse());
    }
    let mut r: Vec<char> = Vec::new();
    let mut i: usize = low_first.len();
    while i > 0
        invariant
            i <= low_first.len(),
            r@ == low_first@.subrange(i as int, low_first.len() as int).reverse(),
        decreases i,
    {
        i = i - 1;
        r.push(low_first[i]);
        assert(r@ =~= low_first@.subrange(i as int, low_first.len() as int).reverse());
    }
    assert(low_first@.subrange(0, low_first.len() as int) =~= low_first@);
    r
}

/// The number denoted by `digits` in `radix`; `None` if a symbol is not a digit
/// there or the number does not fit in `u32`.
pub fn to_number(digits: &[char], radix: u32) -> (r: Option<u32>)
    requires
        2 <= radix <= 36,
    ensures
        r == (if all_digits(digits@, radix as nat) && digits_value(digits@, radix as nat)
            <= u32::MAX {
            Some(digits_value(digits@, radix as nat) as u32)
        } else {
            None
        }),
{
    let mut value: u32 = 0;
    let mut i: usize = 0;
    while i < digits.len()
        invariant
            2 <= radix <= 36,
            i <= digits@.len(),
            all_digits(digits@.subrange(0, i as int), radix as nat),
            value == digits_value(digits@.subrange(0, i as int), radix as nat),
        decreases digits@.len() - i,
    {
        let c = digits[i];
        let prefix = Ghost(digits@.subrange(0, i as int));
        let next = Ghost(digits@.subrange(0, i + 1));
        assert(next@.drop_last() =~= prefix@);
        proof {
            lemma_value_monotone(digits@, i as nat + 1, radix as nat);
        }
        match symbol_to_digit(c, radix) {
            None => {
                proof {
                    lemma_invalid_spoils(digits@, i as int, radix as nat);
                }
                return None;
            },
            Some(d) => {
                match value.checked_mul(radix) {
                    None => {
                        proof {
                            lemma_value_monotone(digits@, digits@.len(), radix as nat);
                            assert(digits@.subrange(0, digits@.len() as int) =~= digits@);
                            assert(next@.last() == c);
                        }
                        return None;
                    },
                    Some(scaled) => {
                        match scaled.checked_add(d) {
                            None => {
                                proof {
                                    lemma_value_monotone(digits@, digits@.len(), radix as nat);
                                    assert(digits@.subrange(0, digits@.len() as int) =~= digits@);
                                    assert(next@.last() == c);
                                }
                                return None;
                            },
                            Some(v) => {
                                assert(next@.last() == c);
                                value = v;
                            },
                        }
                    },
                }
            },
        }
        i = i + 1;
    }
    assert(digits@.subrange(0, i as int) =~= digits@);
    Some(value)
}

/// One symbol that is no digit makes the whole sequence invalid.
proof fn lemma_invalid_spoils(s: Seq<char>, i: int, radix: nat)
    requires
        0 <= i < s.len(),
        symbol_rank(s[i]) >= radix,
    ensures
        !all_digits(s, radix),
{
}

/// Extending a digit sequence never makes its value smaller: the value of every
/// prefix is at most the value of the whole.
pub proof fn lemma_value_monotone(s: Seq<char>, k: nat, radix: nat)
    requires
        k <= s.len(),
        radix >= 1,
    ensures
        forall|j: nat|
            j <= k ==> digits_value(#[trigger] s.subrange(0, j as int), radix) <= digits_value(
                s.subrange(0, k as int),
                radix,
            ),
    decreases k,
{
    if k > 0 {
        lemma_value_monotone(s, (k - 1) as nat, radix);
        let p = s.subrange(0, k as int);
        assert(p.drop_last() =~= s.subrange(0, k - 1));
        let a = digits_value(s.subrange(0, k - 1), radix);
        assert(a * radix >= a) by (nonlinear_arith)
            requires
                radix >= 1,
        ;
    }
}

/// The value of two digit sequences written one after the other.
pub proof fn lemma_value_concat(x: Seq<char>, y: Seq<char>, radix: nat)
    ensures
        digits_value(x + y, radix) == digits_value(x, radix) * pow(radix as int, y.len())
            + digits_value(y, radix),
    decreases y.len(),
{
    if y.len() == 0 {
        assert(x + y =~= x);
        assert(pow(radix as int, 0) == 1) by {
            reveal(pow);
        }
    } else {
        let y0 = y.drop_last();
        lemma_value_concat(x, y0, radix);
        assert((x + y).drop_last() =~= x + y0);
        assert((x + y).last() == y.last());
        let vx = digits_value(x, radix);
        let p = pow(radix as int, y0.len());
        let v0 = digits_value(y0, radix);
        assert(pow(radix as int, y.len()) == radix * p) by {
            reveal(pow);
        }
        assert(digits_value(y, radix) == v0 * radix + symbol_rank(y.last()));
        assert(digits_value(x + y, radix) == digits_value(x + y0, radix) * radix + symbol_rank(y.last()));
        assert((vx * p + v0) * radix == vx * (radix * p) + v0 * radix) by (nonlinear_arith);
    }
}

/// A sequence of `k` digits denotes less than `radix` to the `k`.
pub proof fn lemma_value_below_pow(x: Seq<char>, radix: nat)
    requires
        all_digits(x, radix),
    ensures
        digits_value(x, radix) < pow(radix as int, x.len()),
    decreases x.len(),
{
    if x.len() == 0 {
        assert(pow(radix as int, 0) == 1) by {
            reveal(pow);
        }
    } else {
        let x0 = x.drop_last();
        assert(all_digits(x0, radix));
        lemma_value_below_pow(x0, radix);
        let v0 = digits_value(x0, radix);
        let p = pow(radix as int, x0.len());
        let d = symbol_rank(x.last());
        assert(d < radix);
        assert(pow(radix as int, x.len()) == radix * p) by {
            reveal(pow);
        }
        assert(digits_value(x, radix) == v0 * radix + d);
        assert(v0 * radix + d < radix * p) by (nonlinear_arith)
            requires
                v0 < p,
                d < radix,
        ;
    }
}

/// A canonical digit sequence of two or more digits denotes at least `radix`.
pub proof fn lemma_long_digits_positive(v: nat, radix: nat)
    requires
        2 <= radix <= 36,
        digits_of(v, radix).len() >= 2,
    ensures
        v >= radix,
{
}

} // verus!
