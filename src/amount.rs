//! Conversion of decimal amounts into the smallest currency unit.
use vstd::prelude::*;
use vstd::string::StrSliceExecFns;
use crate::error::ContractError;

verus! {

/// Number of decimal places of the smallest currency unit.
pub const UNIT_SCALE_EXPONENT: u32 = 24;

/// `10^UNIT_SCALE_EXPONENT`: the smallest units in one whole unit.
pub const UNIT_SCALE: u128 = 1_000_000_000_000_000_000_000_000;

/// `10^n`.
pub open spec fn pow10(n: nat) -> nat
    decreases n,
{
    if n == 0 {
        1
    } else {
        10 * pow10((n - 1) as nat)
    }
}

pub open spec fn is_digit(c: char) -> bool {
    '0' <= c && c <= '9'
}

pub open spec fn all_digits(s: Seq<char>) -> bool {
    forall|i: int| 0 <= i < s.len() ==> is_digit(#[trigger] s[i])
}

/// A non-empty run of decimal digits.
pub open spec fn is_digits(s: Seq<char>) -> bool {
    s.len() > 0 && all_digits(s)
}

pub open spec fn digit_value(c: char) -> nat {
    (c as nat - '0' as nat) as nat
}

/// The number that a run of decimal digits spells.
pub open spec fn digits_value(s: Seq<char>) -> nat
    decreases s.len(),
{
    if s.len() == 0 {
        0
    } else {
        digits_value(s.drop_last()) * 10 + digit_value(s.last())
    }
}

/// `s` is `<digits>.<digits>` with the dot at `p`.
pub open spec fn dot_at(s: Seq<char>, p: int) -> bool {
    0 <= p < s.len() && s[p] == '.' && is_digits(s.take(p)) && is_digits(s.skip(p + 1))
}

/// The amount that `s` denotes, in the smallest unit, when `s` is well formed
/// and has at most `UNIT_SCALE_EXPONENT` fractional digits.
pub open spec fn amount_value(s: Seq<char>) -> Option<nat> {
    if is_digits(s) {
        Some(digits_value(s) * pow10(UNIT_SCALE_EXPONENT as nat))
    } else if exists|p: int| dot_at(s, p) {
        let p = choose|p: int| dot_at(s, p);
        let frac = s.skip(p + 1);
        if frac.len() <= UNIT_SCALE_EXPONENT {
            Some(
                digits_value(s.take(p)) * pow10(UNIT_SCALE_EXPONENT as nat) + digits_value(frac)
                    * pow10((UNIT_SCALE_EXPONENT - frac.len()) as nat),
            )
        } else {
            None
        }
    } else {
        None
    }
}

proof fn lemma_pow10_positive(n: nat)
    ensures
        pow10(n) >= 1,
    decreases n,
{
    if n > 0 {
        lemma_pow10_positive((n - 1) as nat);
    }
}

proof fn lemma_digits_value_prefix(s: Seq<char>, k: int)
    requires
        0 <= k <= s.len(),
    ensures
        digits_value(s.take(k)) <= digits_value(s),
    decreases s.len() - k,
{
    if k < s.len() {
        lemma_digits_value_prefix(s, k + 1);
        assert(s.take(k + 1).drop_last() =~= s.take(k));
    } else {
        assert(s.take(k) =~= s);
    }
}

proof fn lemma_digits_value_bound(s: Seq<char>)
    requires
        all_digits(s),
    ensures
        digits_value(s) < pow10(s.len()),
    decreases s.len(),
{
    if s.len() > 0 {
        lemma_digits_value_bound(s.drop_last());
        assert(is_digit(s[s.len() - 1]));
        assert(all_digits(s.drop_last()));
    }
}

proof fn lemma_pow10_monotone(a: nat, b: nat)
    requires
        a <= b,
    ensures
        pow10(a) <= pow10(b),
    decreases b - a,
{
    if a < b {
        lemma_pow10_monotone(a, (b - 1) as nat);
        lemma_pow10_positive((b - 1) as nat);
    }
}

proof fn lemma_pow10_scale()
    ensures
        pow10(UNIT_SCALE_EXPONENT as nat) == UNIT_SCALE,
{
    reveal_with_fuel(pow10, 25);
}

/// Without a dot, only a run of digits denotes an amount.
proof fn lemma_amount_without_dot(s: Seq<char>)
    requires
        forall|j: int| 0 <= j < s.len() ==> s[j] != '.',
    ensures
        amount_value(s) == (if is_digits(s) {
            Some(digits_value(s) * pow10(UNIT_SCALE_EXPONENT as nat))
        } else {
            None::<nat>
        }),
{
    assert(forall|p: int| !dot_at(s, p));
}

/// With its first dot at `p`, `s` denotes an amount exactly when both sides
/// of that dot are digits and the fraction is short enough.
proof fn lemma_amount_with_dot(s: Seq<char>, p: int)
    requires
        0 <= p < s.len(),
        s[p] == '.',
        forall|j: int| 0 <= j < p ==> s[j] != '.',
    ensures
        !is_digits(s),
        amount_value(s) == (if dot_at(s, p) && s.len() - p - 1 <= UNIT_SCALE_EXPONENT {
            Some(
                digits_value(s.take(p)) * pow10(UNIT_SCALE_EXPONENT as nat) + digits_value(
                    s.skip(p + 1),
                ) * pow10((UNIT_SCALE_EXPONENT - (s.len() - p - 1)) as nat),
            )
        } else {
            None::<nat>
        }),
{
    assert(!is_digit(s[p]));
    assert forall|q: int| #[trigger] dot_at(s, q) implies q == p by {
        if q > p {
            assert(s.take(q)[p] == '.');
        }
    }
    if dot_at(s, p) {
        assert(exists|q: int| dot_at(s, q));
    }
}

/// `"0.1"` is one tenth of a unit.
pub proof fn lemma_one_tenth()
    ensures
        amount_value("0.1"@) == Some((UNIT_SCALE / 10) as nat),
{
    reveal_strlit("0.1");
    let s = "0.1"@;
    assert(s.len() == 3);
    assert(s[0] == '0' && s[1] == '.' && s[2] == '1');
    lemma_amount_with_dot(s, 1);
    assert(s.take(1) =~= seq!['0']);
    assert(s.skip(2) =~= seq!['1']);
    assert(seq!['0'].last() == '0' && seq!['1'].last() == '1');
    assert(seq!['0'].drop_last() =~= Seq::<char>::empty());
    assert(seq!['1'].drop_last() =~= Seq::<char>::empty());
    assert(digits_value(Seq::<char>::empty()) == 0);
    assert(digits_value(seq!['0']) == 0);
    assert(digits_value(seq!['1']) == 1);
    assert(dot_at(s, 1));
    lemma_pow10_scale();
    assert(pow10(23) == UNIT_SCALE / 10) by {
        reveal_with_fuel(pow10, 24);
    }
    assert(((UNIT_SCALE_EXPONENT - (s.len() - 1 - 1)) as nat) == 23);
    assert(digits_value(s.skip(2)) * pow10(23) == pow10(23));
}

/// Value of the digit run `s[from..to]`, if it is one and fits in `u128`.
fn parse_digits(s: &str, from: usize, to: usize) -> (r: Option<u128>)
    requires
        from <= to <= s@.len(),
    ensures
        match r {
            Some(v) => is_digits(s@.subrange(from as int, to as int)) && v as nat
                == digits_value(s@.subrange(from as int, to as int)),
            None => !is_digits(s@.subrange(from as int, to as int)) || digits_value(
                s@.subrange(from as int, to as int),
            ) > u128::MAX,
        },
{
    let ghost whole = s@.subrange(from as int, to as int);
    if from == to {
        return None;
    }
    let mut acc: u128 = 0;
    let mut i: usize = from;
    while i < to
        invariant
            from <= i <= to <= s@.len(),
            whole == s@.subrange(from as int, to as int),
            all_digits(whole.take(i - from)),
            acc as nat == digits_value(whole.take(i - from)),
        decreases to - i,
    {
        let c = s.get_char(i);
        proof {
            assert(whole.take(i - from + 1).drop_last() =~= whole.take(i - from));
            assert(whole[i - from] == c);
        }
        if c < '0' || c > '9' {
            assert(!is_digit(whole[i - from]));
            return None;
        }
        let d: u128 = ((c as u32) - ('0' as u32)) as u128;
        match acc.checked_mul(10) {
            Some(m) => match m.checked_add(d) {
                Some(n) => {
                    acc = n;
                },
                None => {
                    proof {
                        lemma_digits_value_prefix(whole, i - from + 1);
                    }
                    return None;
                },
            },
            None => {
                proof {
                    lemma_digits_value_prefix(whole, i - from + 1);
                }
                return None;
            },
        }
        i = i + 1;
    }
    assert(whole.take(to - from) =~= whole);
    Some(acc)
}

/// Converts a decimal amount (`"<digits>"` or `"<digits>.<digits>"`) into
/// the smallest currency unit.
pub fn convert_to_yocto(value: &str) -> (r: Result<u128, ContractError>)
    ensures
        match r {
            Ok(v) => amount_value(value@) == Some(v as nat),
            Err(e) => e == ContractError::InvalidAmount && (amount_value(value@) is None
                || amount_value(value@).unwrap() > u128::MAX),
        },
{
    let ghost s = value@;
    let n = value.unicode_len();
    let mut p: usize = 0;
    while p < n && value.get_char(p) != '.'
        invariant
            p <= n == s.len(),
            s == value@,
            forall|j: int| 0 <= j < p ==> s[j] != '.',
        decreases n - p,
    {
        p = p + 1;
    }
    proof {
        lemma_pow10_scale();
        if p == n {
            assert(s.subrange(0, p as int) =~= s);
            lemma_amount_without_dot(s);
        } else {
            assert(s.subrange(0, p as int) =~= s.take(p as int));
            assert(s.subrange(p + 1, n as int) =~= s.skip(p + 1));
            lemma_amount_with_dot(s, p as int);
        }
    }
    let whole = match parse_digits(value, 0, p) {
        Some(w) => w,
        None => {
            proof {
                lemma_pow10_positive(UNIT_SCALE_EXPONENT as nat);
                assert(digits_value(s.take(p as int)) * UNIT_SCALE >= digits_value(
                    s.take(p as int),
                )) by (nonlinear_arith)
                    requires
                        UNIT_SCALE >= 1,
                ;
            }
            return Err(ContractError::InvalidAmount);
        },
    };
    let scaled = match whole.checked_mul(UNIT_SCALE) {
        Some(v) => v,
        None => {
            return Err(ContractError::InvalidAmount);
        },
    };
    if p == n {
        return Ok(scaled);
    }
    let frac_len = n - p - 1;
    if frac_len > UNIT_SCALE_EXPONENT as usize {
        return Err(ContractError::InvalidAmount);
    }
    let ghost fs = s.skip(p + 1);
    proof {
        lemma_pow10_monotone(fs.len(), UNIT_SCALE_EXPONENT as nat);
    }
    let frac = match parse_digits(value, p + 1, n) {
        Some(f) => f,
        None => {
            proof {
                if is_digits(fs) {
                    lemma_digits_value_bound(fs);
                }
            }
            return Err(ContractError::InvalidAmount);
        },
    };
    proof {
        lemma_digits_value_bound(fs);
        assert(pow10(0) == 1);
        assert(frac as nat * pow10(0) == frac as nat);
    }
    let mut f: u128 = frac;
    let mut j: usize = frac_len;
    while j < UNIT_SCALE_EXPONENT as usize
        invariant
            frac_len <= j <= UNIT_SCALE_EXPONENT,
            frac_len == fs.len(),
            f < pow10(j as nat),
            f as nat == frac as nat * pow10((j - frac_len) as nat),
            pow10(UNIT_SCALE_EXPONENT as nat) == UNIT_SCALE,
        decreases UNIT_SCALE_EXPONENT - j,
    {
        proof {
            lemma_pow10_monotone((j + 1) as nat, UNIT_SCALE_EXPONENT as nat);
            assert(pow10((j + 1 - frac_len) as nat) == 10 * pow10((j - frac_len) as nat));
            assert(frac as nat * (10 * pow10((j - frac_len) as nat)) == 10 * (frac as nat
                * pow10((j - frac_len) as nat))) by (nonlinear_arith);
        }
        f = f * 10;
        j = j + 1;
    }
    match scaled.checked_add(f) {
        Some(total) => Ok(total),
        None => Err(ContractError::InvalidAmount),
    }
}

} // verus!
