use vstd::prelude::*;
use vstd::string::StringSliceAdditionalSpecFns;

use crate::birthday::{has_pin_length, is_digit, parse_outcome, Birthday, PAD};
use crate::error::PersonError;

verus! {

pub open spec fn is_digit_or_space(c: u8) -> bool {
    is_digit(c) || c == 32
}

/// The digits of `b` as numbers, rightmost first; other bytes are skipped.
pub open spec fn reversed_digits(b: Seq<u8>) -> Seq<nat>
    decreases b.len(),
{
    if b.len() == 0 {
        Seq::empty()
    } else if is_digit(b[0]) {
        reversed_digits(b.drop_first()).push((b[0] - 48) as nat)
    } else {
        reversed_digits(b.drop_first())
    }
}

/// A digit doubled, with 9 taken off when the product has two digits.
pub open spec fn doubled(n: nat) -> nat {
    if 2 * n >= 10 {
        (2 * n - 9) as nat
    } else {
        2 * n
    }
}

/// The Luhn sum of the first `k` digits, counted from the right: every second
/// digit, starting with the second, is doubled.
pub open spec fn luhn_sum(ds: Seq<nat>, k: int) -> nat
    decreases k,
{
    if k <= 0 {
        0
    } else {
        luhn_sum(ds, k - 1) + if (k - 1) % 2 == 1 {
            doubled(ds[k - 1])
        } else {
            ds[k - 1]
        }
    }
}

/// An identity number, as bytes, passes the checksum: it holds only digits and
/// spaces, 10 or 12 digits in all, and the Luhn sum of its last ten digits is a
/// multiple of ten.
pub open spec fn pin_valid(b: Seq<u8>) -> bool {
    &&& forall|i: int| 0 <= i < b.len() ==> is_digit_or_space(#[trigger] b[i])
    &&& (reversed_digits(b).len() == 10 || reversed_digits(b).len() == 12)
    &&& luhn_sum(reversed_digits(b), 10) % 10 == 0
}

/// The lookup table of the checksum: added to `n`, it gives `doubled(n)` modulo ten.
pub open spec fn eval_number(n: nat) -> nat {
    if n <= 4 {
        n
    } else if n <= 8 {
        (n + 1) as nat
    } else {
        0
    }
}

/// The running sum of the checksum loop: each digit, its table entry at odd
/// positions, and the position plus one.
pub open spec fn weighted_sum(ds: Seq<nat>, k: int) -> nat
    decreases k,
{
    if k <= 0 {
        0
    } else {
        weighted_sum(ds, k - 1) + ds[k - 1] + if (k - 1) % 2 == 1 {
            eval_number(ds[k - 1])
        } else {
            0
        } + k as nat
    }
}

/// The tens that the table adds on top of a doubled digit.
spec fn carry(n: nat) -> nat {
    if 5 <= n <= 8 {
        1
    } else {
        0
    }
}

spec fn carries(ds: Seq<nat>, k: int) -> nat
    decreases k,
{
    if k <= 0 {
        0
    } else {
        carries(ds, k - 1) + if (k - 1) % 2 == 1 {
            carry(ds[k - 1])
        } else {
            0
        }
    }
}

proof fn lemma_weighted_sum(ds: Seq<nat>, k: int)
    requires
        0 <= k <= ds.len(),
        forall|i: int| 0 <= i < ds.len() ==> #[trigger] ds[i] <= 9,
    ensures
        weighted_sum(ds, k) == luhn_sum(ds, k) + 10 * carries(ds, k) + k * (k + 1) / 2,
    decreases k,
{
    if k > 0 {
        lemma_weighted_sum(ds, k - 1);
        let n = ds[k - 1];
        assert(n <= 9);
        assert(n + eval_number(n) == doubled(n) + 10 * carry(n));
        assert(k * (k + 1) / 2 == (k - 1) * k / 2 + k) by (nonlinear_arith);
        if (k - 1) % 2 == 1 {
            assert(weighted_sum(ds, k) == weighted_sum(ds, k - 1) + n + eval_number(n) + k);
            assert(luhn_sum(ds, k) == luhn_sum(ds, k - 1) + doubled(n));
            assert(carries(ds, k) == carries(ds, k - 1) + carry(n));
        } else {
            assert(weighted_sum(ds, k) == weighted_sum(ds, k - 1) + n + k);
            assert(luhn_sum(ds, k) == luhn_sum(ds, k - 1) + n);
            assert(carries(ds, k) == carries(ds, k - 1));
        }
    } else {
        assert(k * (k + 1) / 2 == 0) by (nonlinear_arith)
            requires
                k == 0,
        ;
    }
}

proof fn lemma_reversed_digits_bounded(b: Seq<u8>)
    ensures
        forall|i: int|
            0 <= i < reversed_digits(b).len() ==> #[trigger] reversed_digits(b)[i] <= 9,
    decreases b.len(),
{
    if b.len() > 0 {
        let rest = reversed_digits(b.drop_first());
        lemma_reversed_digits_bounded(b.drop_first());
        if is_digit(b[0]) {
            let ds = rest.push((b[0] - 48) as nat);
            assert(reversed_digits(b) == ds);
            assert forall|i: int| 0 <= i < ds.len() implies #[trigger] ds[i] <= 9 by {
                if i < rest.len() {
                    assert(ds[i] == rest[i]);
                }
            }
        }
    }
}

/// Whether the identity number passes the Luhn checksum over its last ten digits.
pub fn validate_pin(pin: &str) -> (r: bool)
    ensures
        r == pin_valid(pin.spec_bytes()),
{
    let bytes = pin.as_bytes();
    let ghost b = bytes@;
    let n = bytes.len();
    let mut i: usize = 0;
    while i < n
        invariant
            b == bytes@,
            b == pin.spec_bytes(),
            n == b.len(),
            i <= n,
            forall|j: int| 0 <= j < i ==> is_digit_or_space(#[trigger] b[j]),
        decreases n - i,
    {
        if !(bytes[i] >= 48 && bytes[i] <= 57) && bytes[i] != 32 {
            assert(!is_digit_or_space(b[i as int]));
            assert(!pin_valid(b));
            return false;
        }
        i = i + 1;
    }
    // The digits, rightmost first.
    let mut digits: Vec<usize> = Vec::new();
    let mut j: usize = n;
    while j > 0
        invariant
            b == bytes@,
            b == pin.spec_bytes(),
            n == b.len(),
            j <= n,
            digits@.len() == reversed_digits(b.subrange(j as int, n as int)).len(),
            forall|k: int|
                0 <= k < digits@.len() ==> digits@[k] as nat == #[trigger] reversed_digits(
                    b.subrange(j as int, n as int),
                )[k],
        decreases j,
    {
        let c = bytes[j - 1];
        assert(b.subrange(j - 1, n as int).drop_first() =~= b.subrange(j as int, n as int));
        if c >= 48 && c <= 57 {
            digits.push((c - 48) as usize);
        }
        j = j - 1;
    }
    assert(b.subrange(0, n as int) =~= b);
    let ghost ds = reversed_digits(b);
    if digits.len() != 10 && digits.len() != 12 {
        return false;
    }
    proof {
        lemma_reversed_digits_bounded(b);
    }
    let table: [usize; 10] = [0, 1, 2, 3, 4, 6, 7, 8, 9, 0];
    assert(table@ == seq![0usize, 1, 2, 3, 4, 6, 7, 8, 9, 0]);
    let mut sum: usize = 0;
    let mut k: usize = 0;
    while k < 10
        invariant
            k <= 10,
            digits@.len() >= 10,
            digits@.len() == ds.len(),
            forall|m: int| 0 <= m < digits@.len() ==> digits@[m] as nat == #[trigger] ds[m],
            forall|m: int| 0 <= m < ds.len() ==> #[trigger] ds[m] <= 9,
            table@ == seq![0usize, 1, 2, 3, 4, 6, 7, 8, 9, 0],
            sum as nat == weighted_sum(ds, k as int),
            sum <= 40 * k,
        decreases 10 - k,
    {
        let d = digits[k];
        assert(ds[k as int] <= 9);
        assert(table@[d as int] as nat == eval_number(d as nat));
        let e = table[d];
        let odd = k % 2;
        assert(e * odd == if odd == 1 {
            e
        } else {
            0
        }) by (nonlinear_arith)
            requires
                odd == 0 || odd == 1,
        ;
        sum = sum + d + e * odd + k + 1;
        k = k + 1;
    }
    proof {
        lemma_weighted_sum(ds, 10);
    }
    match sum.checked_sub(55) {
        Some(s) => s % 10 == 0,
        None => false,
    }
}

proof fn lemma_all_digits_counted(b: Seq<u8>)
    requires
        forall|i: int| 0 <= i < b.len() ==> is_digit(#[trigger] b[i]),
    ensures
        reversed_digits(b).len() == b.len(),
    decreases b.len(),
{
    if b.len() > 0 {
        assert(is_digit(b[0]));
        assert forall|i: int| 0 <= i < b.drop_first().len() implies is_digit(
            #[trigger] b.drop_first()[i],
        ) by {
            assert(b.drop_first()[i] == b[i + 1]);
        }
        lemma_all_digits_counted(b.drop_first());
    }
}

/// An identity number of any length but 10 or 12 bytes is refused by the parser
/// with `InvalidPinLength`, and fails the checksum unless it holds a space (the
/// checksum counts digits, not bytes).
pub proof fn lemma_wrong_length_refused(b: Seq<u8>)
    requires
        !has_pin_length(b),
    ensures
        forall|r: Result<Birthday, PersonError>|
            parse_outcome(b, r) ==> r == Err::<Birthday, PersonError>(
                PersonError::InvalidPinLength(b.len() as usize),
            ),
        pin_valid(b) ==> exists|i: int| 0 <= i < b.len() && b[i] == PAD,
{
    if pin_valid(b) && !(exists|i: int| 0 <= i < b.len() && b[i] == PAD) {
        assert forall|i: int| 0 <= i < b.len() implies is_digit(#[trigger] b[i]) by {
            assert(is_digit_or_space(b[i]));
            assert(b[i] != PAD);
        }
        lemma_all_digits_counted(b);
    }
}

/// Two parse results agree: equal, or both `InvalidPin` with the same reason text.
pub open spec fn same_outcome(
    r1: Result<Birthday, PersonError>,
    r2: Result<Birthday, PersonError>,
) -> bool {
    match (r1, r2) {
        (Err(PersonError::InvalidPin(x)), Err(PersonError::InvalidPin(y))) => x@ == y@,
        _ => r1 == r2,
    }
}

/// Parsing and the checksum are functions of the identity number alone: any two
/// results that they may give for the same bytes agree.
pub proof fn lemma_pure(
    b: Seq<u8>,
    r1: Result<Birthday, PersonError>,
    r2: Result<Birthday, PersonError>,
    v1: bool,
    v2: bool,
)
    requires
        parse_outcome(b, r1),
        parse_outcome(b, r2),
        v1 == pin_valid(b),
        v2 == pin_valid(b),
    ensures
        same_outcome(r1, r2),
        v1 == v2,
{
}

} // verus!
