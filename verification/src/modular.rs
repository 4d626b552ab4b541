use vstd::prelude::*;
use vstd::arithmetic::div_mod::{
    lemma_mod_twice,
    lemma_mul_mod_noop_general,
    lemma_mul_mod_noop_right,
    lemma_small_mod,
};
use vstd::arithmetic::power::{
    lemma_pow0,
    lemma_pow1,
    lemma_pow_adds,
    lemma_pow_mod_noop,
    lemma_pow_multiplies,
    lemma_square_is_pow2,
    pow,
};
use crate::arith::product_grid;
use crate::det::determinant;
use crate::laws::{
    all_unital, lemma_determinant_of_identity, lemma_determinant_with_zero_row,
    lemma_identity_times, lemma_times_identity,
};
use crate::matrix::{identity_grid, rectangular};
use crate::scalar::{unital, zero_absorbs, Scalar};

verus! {

/// The prime `2^31 - 1`.
pub const MODULUS: u64 = 2_147_483_647;

/// An integer modulo [`MODULUS`]: a scalar whose arithmetic is exact and never
/// leaves the type. Since the modulus is prime, every number but zero has a
/// reciprocal, and division by zero gives zero.
#[derive(Clone, Copy, Debug, PartialEq, Eq)]
pub struct Modular {
    value: u64,
}

impl Modular {
    #[verifier::type_invariant]
    spec fn reduced(self) -> bool {
        self.value < MODULUS
    }

    /// The number that stands for the class.
    pub closed spec fn residue(self) -> int {
        self.value as int
    }

    /// The class of `n`.
    pub closed spec fn of(n: int) -> Modular {
        Modular { value: (n % (MODULUS as int)) as u64 }
    }

    /// Whether the number that stands for the class is the least one that is
    /// not negative. Every value that a program holds is canonical.
    pub open spec fn canonical(self) -> bool {
        0 <= self.residue() < MODULUS
    }

    /// The class of `n` is held by the remainder of `n`.
    pub proof fn lemma_residue_of(n: int)
        ensures
            Modular::of(n).residue() == n % (MODULUS as int),
            Modular::of(n).canonical(),
    {
    }

    /// A canonical value is the class of its own residue.
    pub proof fn lemma_of_residue(x: Modular)
        requires
            x.canonical(),
        ensures
            Modular::of(x.residue()) == x,
    {
    }

    /// Numbers with the same remainder have the same class.
    pub proof fn lemma_of_same_remainder(a: int, b: int)
        requires
            a % (MODULUS as int) == b % (MODULUS as int),
        ensures
            Modular::of(a) == Modular::of(b),
    {
    }

    /// The class of `n`.
    pub fn new(n: u64) -> (r: Self)
        ensures
            r == Modular::of(n as int),
    {
        Modular { value: n % MODULUS }
    }

    /// The class of `n`, which may be negative.
    pub fn from_int(n: i64) -> (r: Self)
        ensures
            r == Modular::of(n as int),
    {
        if n >= 0 {
            Modular { value: (n as u64) % MODULUS }
        } else {
            let below: u64 = (-(n + 1)) as u64;
            Modular { value: MODULUS - 1 - below % MODULUS }
        }
    }

    /// The least number of the class that is not negative.
    pub fn value(&self) -> (n: u64)
        ensures
            n == self.residue(),
            self.canonical(),
    {
        proof {
            use_type_invariant(self);
        }
        self.value
    }
}

/// One round of raising to a power by squaring keeps the product of what has
/// been gathered and what is still to be raised.
proof fn lemma_raise_step(acc: int, cur: int, e: nat)
    requires
        e > 0,
    ensures
        ({
            let gathered = if e % 2 == 1 {
                (acc * cur) % (MODULUS as int)
            } else {
                acc
            };
            let squared = (cur * cur) % (MODULUS as int);
            (gathered * pow(squared, e / 2)) % (MODULUS as int) == (acc * pow(cur, e)) % (
            MODULUS as int)
        }),
{
    let p = MODULUS as int;
    let q = e / 2;
    let odd = e % 2 == 1;
    let factor = if odd {
        cur
    } else {
        1
    };
    let gathered = if odd {
        (acc * cur) % p
    } else {
        acc
    };
    let squared = (cur * cur) % p;
    let x = pow(cur * cur, q);
    lemma_pow_mod_noop(cur * cur, q, p);
    assert(pow(squared, q) % p == x % p);
    lemma_square_is_pow2(cur);
    lemma_pow_multiplies(cur, 2, q);
    assert(x == pow(cur, 2 * q));
    lemma_pow_adds(cur, 2 * q, (e % 2) as nat);
    lemma_pow1(cur);
    lemma_pow0(cur);
    assert(pow(cur, e) == x * factor);
    assert(acc * pow(cur, e) == (acc * factor) * x) by (nonlinear_arith)
        requires
            pow(cur, e) == x * factor,
    ;
    lemma_mul_mod_noop_general(gathered, pow(squared, q), p);
    lemma_mul_mod_noop_general(acc * factor, x, p);
    assert(gathered % p == (acc * factor) % p) by {
        if odd {
            lemma_mod_twice(acc * cur, p);
        } else {
            assert(acc * 1 == acc);
        }
    }
}

/// `base` raised to `exp`, modulo [`MODULUS`].
pub fn raise(base: u64, exp: u64) -> (r: u64)
    requires
        base < MODULUS,
    ensures
        r == pow(base as int, exp as nat) % (MODULUS as int),
        r < MODULUS,
{
    let mut acc: u64 = 1;
    let mut cur: u64 = base;
    let mut e: u64 = exp;
    proof {
        assert(1 * pow(base as int, exp as nat) == pow(base as int, exp as nat));
    }
    while e > 0
        invariant
            acc < MODULUS,
            cur < MODULUS,
            (acc * pow(cur as int, e as nat)) % (MODULUS as int) == pow(base as int, exp as nat)
                % (MODULUS as int),
        decreases e,
    {
        proof {
            lemma_raise_step(acc as int, cur as int, e as nat);
            assert(acc * cur < 0x4000_0000_0000_0000) by (nonlinear_arith)
                requires
                    acc < 0x8000_0000,
                    cur < 0x8000_0000,
            ;
            assert(cur * cur < 0x4000_0000_0000_0000) by (nonlinear_arith)
                requires
                    cur < 0x8000_0000,
            ;
        }
        if e % 2 == 1 {
            acc = acc * cur % MODULUS;
        }
        cur = cur * cur % MODULUS;
        e = e / 2;
    }
    proof {
        lemma_pow0(cur as int);
        assert(acc * 1 == acc);
        lemma_small_mod(acc as nat, MODULUS as nat);
    }
    acc
}


impl Scalar for Modular {
    open spec fn zero_spec() -> Self {
        Modular::of(0)
    }

    open spec fn one_spec() -> Self {
        Modular::of(1)
    }

    /// Exact numbers carry no noise.
    open spec fn epsilon_spec() -> Self {
        Modular::of(0)
    }

    open spec fn plus_spec(self, rhs: Self) -> Self {
        Modular::of(self.residue() + rhs.residue())
    }

    open spec fn minus_spec(self, rhs: Self) -> Self {
        Modular::of(self.residue() - rhs.residue())
    }

    open spec fn times_spec(self, rhs: Self) -> Self {
        Modular::of(self.residue() * rhs.residue())
    }

    /// The product with the reciprocal, which is the power `MODULUS - 2`.
    open spec fn over_spec(self, rhs: Self) -> Self {
        Modular::of(self.residue() * pow(rhs.residue(), (MODULUS - 2) as nat))
    }

    /// Every class is an integer.
    open spec fn floor_spec(self) -> Self {
        self
    }

    /// Every class is an integer.
    open spec fn round_spec(self) -> Self {
        self
    }

    open spec fn same_spec(self, rhs: Self) -> bool {
        self.residue() == rhs.residue()
    }

    /// The order of the residues.
    open spec fn below_spec(self, rhs: Self) -> bool {
        self.residue() < rhs.residue()
    }

    fn zero() -> (r: Self) {
        Modular { value: 0 }
    }

    fn one() -> (r: Self) {
        Modular { value: 1 }
    }

    fn epsilon() -> (r: Self) {
        Modular { value: 0 }
    }

    fn plus(self, rhs: Self) -> (r: Self) {
        proof {
            use_type_invariant(self);
            use_type_invariant(rhs);
        }
        Modular { value: (self.value + rhs.value) % MODULUS }
    }

    fn minus(self, rhs: Self) -> (r: Self) {
        proof {
            use_type_invariant(self);
            use_type_invariant(rhs);
        }
        Modular { value: (self.value + (MODULUS - rhs.value)) % MODULUS }
    }

    fn times(self, rhs: Self) -> (r: Self) {
        proof {
            use_type_invariant(self);
            use_type_invariant(rhs);
            assert(self.value * rhs.value < 0x4000_0000_0000_0000) by (nonlinear_arith)
                requires
                    self.value < 0x8000_0000,
                    rhs.value < 0x8000_0000,
            ;
        }
        Modular { value: self.value * rhs.value % MODULUS }
    }

    fn over(self, rhs: Self) -> (r: Self) {
        proof {
            use_type_invariant(self);
            use_type_invariant(rhs);
        }
        let reciprocal = raise(rhs.value, MODULUS - 2);
        proof {
            assert(self.value * reciprocal < 0x4000_0000_0000_0000) by (nonlinear_arith)
                requires
                    self.value < 0x8000_0000,
                    reciprocal < 0x8000_0000,
            ;
            lemma_mul_mod_noop_right(
                self.value as int,
                pow(rhs.value as int, (MODULUS - 2) as nat),
                MODULUS as int,
            );
        }
        Modular { value: self.value * reciprocal % MODULUS }
    }

    fn floor(self) -> (r: Self) {
        self
    }

    fn round(self) -> (r: Self) {
        self
    }

    fn same(self, rhs: Self) -> (r: bool) {
        self.value == rhs.value
    }

    fn below(self, rhs: Self) -> (r: bool) {
        self.value < rhs.value
    }
}

/// Among the integers modulo a prime, every product with zero is zero.
pub proof fn lemma_modular_zero_absorbs()
    ensures
        zero_absorbs::<Modular>(),
{
    assert forall|x: Modular|
        x.times_spec(Modular::zero_spec()) == Modular::zero_spec() && Modular::zero_spec().times_spec(
            x,
        ) == Modular::zero_spec() by {
        assert(x.residue() * 0 == 0);
        assert(0 * x.residue() == 0);
    }
}

/// Every canonical integer modulo a prime behaves against zero and one as a
/// number should.
pub proof fn lemma_modular_unital(x: Modular)
    requires
        x.canonical(),
    ensures
        unital(x),
{
    assert(x.residue() * 0 == 0);
    assert(0 * x.residue() == 0);
    assert(x.residue() * 1 == x.residue());
    assert(1 * x.residue() == x.residue());
}

/// Whether every entry of the grid is canonical.
pub open spec fn all_canonical(cells: Seq<Seq<Modular>>) -> bool {
    forall|i: int, j: int|
        0 <= i < cells.len() && 0 <= j < cells[i].len() ==> (#[trigger] cells[i][j]).canonical()
}

/// Zero and one are canonical, and so behave as they should.
pub proof fn lemma_modular_units()
    ensures
        Modular::zero_spec().canonical(),
        Modular::one_spec().canonical(),
        unital(Modular::zero_spec()),
        unital(Modular::one_spec()),
{
    Modular::lemma_residue_of(0);
    Modular::lemma_residue_of(1);
    lemma_modular_unital(Modular::of(0));
    lemma_modular_unital(Modular::of(1));
}

/// Over the integers modulo the prime, the determinant of the identity is one
/// in any size.
pub proof fn lemma_modular_determinant_of_identity(n: nat)
    ensures
        determinant(identity_grid::<Modular>(n)) == Modular::one_spec(),
{
    lemma_modular_zero_absorbs();
    lemma_modular_units();
    lemma_determinant_of_identity::<Modular>(n);
}

/// Over the integers modulo the prime, the determinant of a square grid with a
/// row of zeros is zero.
pub proof fn lemma_modular_determinant_with_zero_row(cells: Seq<Seq<Modular>>, row: int)
    requires
        rectangular(cells, cells.len()),
        0 <= row < cells.len(),
        forall|j: int| 0 <= j < cells.len() ==> #[trigger] cells[row][j] == Modular::zero_spec(),
    ensures
        determinant(cells) == Modular::zero_spec(),
{
    lemma_modular_zero_absorbs();
    lemma_modular_units();
    lemma_determinant_with_zero_row(cells, row);
}

/// Over the integers modulo the prime, the product of a grid of canonical
/// values with the identity, on either side, is that grid.
pub proof fn lemma_modular_identity_product(a: Seq<Seq<Modular>>, cols: nat)
    requires
        rectangular(a, cols),
        all_canonical(a),
    ensures
        product_grid(identity_grid::<Modular>(a.len()), a, cols) == a,
        product_grid(a, identity_grid::<Modular>(cols), cols) == a,
{
    lemma_modular_units();
    assert forall|i: int, j: int| 0 <= i < a.len() && 0 <= j < a[i].len() implies unital(
        #[trigger] a[i][j],
    ) by {
        lemma_modular_unital(a[i][j]);
    }
    assert(all_unital(a));
    lemma_identity_times(a, cols);
    lemma_times_identity(a, cols);
}

} // verus!
