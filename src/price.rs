use std::cmp::Ordering;
use vstd::prelude::*;

verus! {

/// Largest power of ten that fits in a `u128`.
pub const MAX_U128_DECIMALS: u8 = 38;

/// Largest number of decimals that a valid price may carry.
pub const MAX_VALID_DECIMALS: u8 = 77;

/// `10^n`.
pub open spec fn pow10(n: nat) -> nat
    decreases n,
{
    if n == 0 {
        1
    } else {
        10 * pow10((n - 1) as nat)
    }
}

/// The three-way order of two integers.
pub open spec fn int_order(x: int, y: int) -> Ordering {
    if x < y {
        Ordering::Less
    } else if x == y {
        Ordering::Equal
    } else {
        Ordering::Greater
    }
}

/// The opposite of an ordering.
pub open spec fn flip(o: Ordering) -> Ordering {
    match o {
        Ordering::Less => Ordering::Greater,
        Ordering::Equal => Ordering::Equal,
        Ordering::Greater => Ordering::Less,
    }
}

/// An exact non-negative price: `multiplier * 10^(-decimals)`.
#[derive(Clone, Copy, Debug)]
pub struct Price {
    pub multiplier: u128,
    pub decimals: u8,
}

/// Why a price was refused.
#[derive(Clone, Copy, Debug, PartialEq, Eq, Structural)]
pub enum PriceError {
    /// The price carries more decimals than `MAX_VALID_DECIMALS`.
    OutOfRange,
}

impl Price {
    /// The price as an integer on the common scale `10^(-255)`, on which every
    /// `u8` number of decimals can be written exactly.
    pub open spec fn scaled(self) -> int {
        self.multiplier * pow10((255 - self.decimals) as nat)
    }

    pub open spec fn is_valid(self) -> bool {
        self.decimals <= MAX_VALID_DECIMALS
    }

    /// Fails with `OutOfRange` exactly when the price has too many decimals.
    pub fn assert_valid(&self) -> (r: Result<(), PriceError>)
        ensures
            r == if self.is_valid() {
                Ok::<(), PriceError>(())
            } else {
                Err(PriceError::OutOfRange)
            },
    {
        if self.decimals <= MAX_VALID_DECIMALS {
            Ok(())
        } else {
            Err(PriceError::OutOfRange)
        }
    }
}

/// The order on prices: the order of their exact values.
pub open spec fn price_order(a: Price, b: Price) -> Ordering {
    int_order(a.scaled(), b.scaled())
}

pub proof fn lemma_pow10_positive(n: nat)
    ensures
        pow10(n) >= 1,
    decreases n,
{
    if n > 0 {
        lemma_pow10_positive((n - 1) as nat);
    }
}

pub proof fn lemma_pow10_add(a: nat, b: nat)
    ensures
        pow10(a + b) == pow10(a) * pow10(b),
    decreases a,
{
    if a > 0 {
        let a1 = (a - 1) as nat;
        lemma_pow10_add(a1, b);
        assert(a + b == (a1 + b) + 1);
        assert(pow10(a + b) == 10 * pow10(a1 + b));
        assert(pow10(a) == 10 * pow10(a1));
        assert(10 * (pow10((a - 1) as nat) * pow10(b)) == (10 * pow10((a - 1) as nat)) * pow10(b))
            by (nonlinear_arith);
    } else {
        assert(pow10(0) == 1);
        assert(a + b == b);
    }
}

pub proof fn lemma_pow10_monotone(a: nat, b: nat)
    requires
        a <= b,
    ensures
        pow10(a) <= pow10(b),
    decreases b,
{
    if a < b {
        lemma_pow10_monotone(a, (b - 1) as nat);
        lemma_pow10_positive((b - 1) as nat);
    }
}

proof fn lemma_order_scale(x: int, y: int, k: int)
    requires
        k > 0,
    ensures
        int_order(x * k, y * k) == int_order(x, y),
{
    if x < y {
        assert(x * k < y * k) by (nonlinear_arith)
            requires
                x < y,
                k > 0,
        ;
    } else if x == y {
    } else {
        assert(x * k > y * k) by (nonlinear_arith)
            requires
                x > y,
                k > 0,
        ;
    }
}

proof fn lemma_pow10_38()
    ensures
        pow10(38) == 100000000000000000000000000000000000000,
{
    reveal_with_fuel(pow10, 39);
}

/// `10^n` as a `u128`.
fn pow10_u128(n: u8) -> (r: u128)
    requires
        n <= MAX_U128_DECIMALS,
    ensures
        r == pow10(n as nat),
{
    let mut r: u128 = 1;
    let mut i: u8 = 0;
    while i < n
        invariant
            i <= n <= MAX_U128_DECIMALS,
            r == pow10(i as nat),
        decreases n - i,
    {
        proof {
            lemma_pow10_monotone((i + 1) as nat, 38);
            lemma_pow10_38();
        }
        r = r * 10;
        i = i + 1;
    }
    r
}

/// The order when `fine` has at least as many decimals as `coarse`.
fn compare_finer(fine: &Price, coarse: &Price) -> (r: Ordering)
    requires
        fine.decimals >= coarse.decimals,
    ensures
        r == price_order(*fine, *coarse),
{
    let diff: u8 = fine.decimals - coarse.decimals;
    let ghost k: int = pow10((255 - fine.decimals) as nat) as int;
    proof {
        lemma_pow10_positive((255 - fine.decimals) as nat);
        lemma_pow10_add(diff as nat, (255 - fine.decimals) as nat);
        assert(coarse.scaled() == (coarse.multiplier * pow10(diff as nat)) * k) by (nonlinear_arith)
            requires
                coarse.scaled() == coarse.multiplier * (pow10(diff as nat) * k),
        ;
        lemma_order_scale(fine.multiplier as int, coarse.multiplier * pow10(diff as nat), k);
    }
    if diff > MAX_U128_DECIMALS {
        // Scaling `coarse` up would overflow: a positive `coarse` exceeds any
        // `fine`, and a zero one is exceeded by any positive `fine`.
        proof {
            lemma_pow10_positive((255 - fine.decimals) as nat);
            lemma_pow10_positive((255 - coarse.decimals) as nat);
            assert(fine.multiplier > 0 ==> fine.scaled() > 0) by (nonlinear_arith)
                requires
                    fine.scaled() == fine.multiplier * pow10((255 - fine.decimals) as nat),
                    pow10((255 - fine.decimals) as nat) >= 1,
            ;
            assert(coarse.multiplier == 0 ==> coarse.scaled() == 0) by (nonlinear_arith)
                requires
                    coarse.scaled() == coarse.multiplier * pow10((255 - coarse.decimals) as nat),
            ;
            assert(fine.multiplier == 0 ==> fine.scaled() == 0) by (nonlinear_arith)
                requires
                    fine.scaled() == fine.multiplier * pow10((255 - fine.decimals) as nat),
            ;
            if coarse.multiplier > 0 {
                lemma_finer_is_smaller(*fine, *coarse);
            }
        }
        if coarse.multiplier > 0 {
            return Ordering::Less;
        } else if fine.multiplier == 0 {
            return Ordering::Equal;
        } else {
            return Ordering::Greater;
        }
    }
    match coarse.multiplier.checked_mul(pow10_u128(diff)) {
        Some(om) => {
            if fine.multiplier < om {
                Ordering::Less
            } else if fine.multiplier == om {
                Ordering::Equal
            } else {
                Ordering::Greater
            }
        },
        None => Ordering::Less,
    }
}

impl Price {
    /// The total order on prices, by exact value across decimal scales.
    pub fn compare(&self, other: &Price) -> (r: Ordering)
        ensures
            r == price_order(*self, *other),
    {
        if self.decimals < other.decimals {
            match compare_finer(other, self) {
                Ordering::Less => Ordering::Greater,
                Ordering::Equal => Ordering::Equal,
                Ordering::Greater => Ordering::Less,
            }
        } else {
            compare_finer(self, other)
        }
    }
}

impl PartialEq for Price {
    /// Prices are equal when they denote the same value, whatever their scales.
    fn eq(&self, other: &Price) -> (r: bool) {
        match self.compare(other) {
            Ordering::Equal => true,
            _ => false,
        }
    }
}

impl vstd::std_specs::cmp::PartialEqSpecImpl for Price {
    open spec fn obeys_eq_spec() -> bool {
        true
    }

    open spec fn eq_spec(&self, other: &Price) -> bool {
        price_order(*self, *other) == Ordering::Equal
    }
}

impl PartialOrd for Price {
    fn partial_cmp(&self, other: &Price) -> (r: Option<Ordering>) {
        Some(self.compare(other))
    }
}

impl vstd::std_specs::cmp::PartialOrdSpecImpl for Price {
    open spec fn obeys_partial_cmp_spec() -> bool {
        true
    }

    open spec fn partial_cmp_spec(&self, other: &Price) -> Option<Ordering> {
        Some(price_order(*self, *other))
    }
}

/// A price more than `MAX_U128_DECIMALS` places finer than a positive price
/// is smaller than it.
proof fn lemma_finer_is_smaller(fine: Price, coarse: Price)
    requires
        fine.decimals > coarse.decimals + MAX_U128_DECIMALS,
        coarse.multiplier > 0,
    ensures
        fine.scaled() < coarse.scaled(),
{
    let diff = (fine.decimals - coarse.decimals) as nat;
    let e = (255 - fine.decimals) as nat;
    let k = pow10(e);
    lemma_pow10_positive(e);
    lemma_pow10_add(diff, e);
    lemma_pow10_monotone(39, diff);
    lemma_pow10_38();
    assert(pow10(39) == 10 * pow10(38));
    let c = coarse.multiplier as int;
    let f = fine.multiplier as int;
    let p = pow10(diff) as int;
    assert(f < p);
    assert(f * k < p * k) by (nonlinear_arith)
        requires
            f < p,
            k >= 1,
    ;
    assert(p * k <= c * p * k) by (nonlinear_arith)
        requires
            p >= 0,
            c >= 1,
            k >= 1,
    ;
    assert(c * (p * k) == c * p * k) by (nonlinear_arith);
}

/// The order is total and antisymmetric: every price equals itself, and
/// swapping the operands flips the result.
pub proof fn lemma_order_antisymmetric(a: Price, b: Price)
    ensures
        price_order(a, a) == Ordering::Equal,
        price_order(a, b) == flip(price_order(b, a)),
{
}

/// The order is transitive.
pub proof fn lemma_order_transitive(a: Price, b: Price, c: Price)
    ensures
        price_order(a, b) != Ordering::Greater && price_order(b, c) != Ordering::Greater
            ==> price_order(a, c) != Ordering::Greater,
        price_order(a, b) == Ordering::Less && price_order(b, c) != Ordering::Greater
            ==> price_order(a, c) == Ordering::Less,
        price_order(a, b) != Ordering::Greater && price_order(b, c) == Ordering::Less
            ==> price_order(a, c) == Ordering::Less,
        price_order(a, b) == Ordering::Equal && price_order(b, c) == Ordering::Equal
            ==> price_order(a, c) == Ordering::Equal,
{
}

/// A price equals its rescaled form: `m` at `d` decimals equals `m * 10^k` at
/// `d + k` decimals.
pub proof fn lemma_order_rescaled(p: Price, q: Price, k: nat)
    requires
        q.decimals == p.decimals + k,
        q.multiplier == p.multiplier * pow10(k),
    ensures
        price_order(p, q) == Ordering::Equal,
        price_order(q, p) == Ordering::Equal,
{
    let e = (255 - q.decimals) as nat;
    lemma_pow10_add(k, e);
    assert(p.scaled() == p.multiplier * (pow10(k) * pow10(e)));
    assert(q.scaled() == (p.multiplier * pow10(k)) * pow10(e));
    assert(p.multiplier * (pow10(k) * pow10(e)) == (p.multiplier * pow10(k)) * pow10(e))
        by (nonlinear_arith);
}

} // verus!
