use vstd::prelude::*;
use vstd::arithmetic::div_mod::{lemma_add_mod_noop, lemma_mul_mod_noop_left, lemma_small_mod};
use vstd::arithmetic::power::{lemma1_pow, lemma_pow0, lemma_pow1, lemma_pow_adds, pow};
use crate::error::MatrixError;
use crate::matrix::{rectangular, Matrix};
use crate::modular::{all_canonical, Modular, MODULUS};
use crate::render::{is_word, lemma_text_round_trip, text_of};
use crate::scalar::Scalar;
use crate::text::{
    is_blank, lemma_pieces_nonempty, lemma_pieces_stretch, pieces, reading, reads, split,
};

verus! {

/// Whether `c` is one of the ten digits.
pub open spec fn is_digit(c: char) -> bool {
    48 <= c as u32 <= 57
}

/// Whether every character of `s` is a digit.
pub open spec fn all_digits(s: Seq<char>) -> bool {
    forall|i: int| 0 <= i < s.len() ==> is_digit(#[trigger] s[i])
}

/// The number that the digits write in base ten.
pub open spec fn decimal(digits: Seq<char>) -> int
    decreases digits.len(),
{
    if digits.len() == 0 {
        0
    } else {
        decimal(digits.drop_last()) * 10 + (digits.last() as u32 - 48)
    }
}

/// Whether `parts` is one stretch of digits or two, none of them empty.
pub open spec fn digit_runs(parts: Seq<Seq<char>>) -> bool {
    &&& parts.len() <= 2
    &&& forall|k: int|
        0 <= k < parts.len() ==> (#[trigger] parts[k]).len() > 0 && all_digits(parts[k])
}

/// The class that `body` writes without a sign: digits, and after them an
/// optional point with digits of its own. The digits after the point count as
/// so many tenths, hundredths and so on, each a quotient in the field.
pub open spec fn unsigned_written(body: Seq<char>) -> Option<Modular> {
    let parts = pieces(body, '.');
    if digit_runs(parts) {
        let fraction = if parts.len() == 2 {
            parts[1]
        } else {
            Seq::empty()
        };
        Some(
            Modular::of(decimal(parts[0] + fraction)).over_spec(
                Modular::of(pow(10, fraction.len())),
            ),
        )
    } else {
        None
    }
}

/// The class that `token` writes: an unsigned number, or the difference of
/// zero and the unsigned number that follows a minus sign.
pub open spec fn written(token: Seq<char>) -> Option<Modular> {
    if token.len() > 0 && token[0] == '-' {
        match unsigned_written(token.drop_first()) {
            Some(size) => Some(Modular::zero_spec().minus_spec(size)),
            None => None,
        }
    } else {
        unsigned_written(token)
    }
}

/// Appends `part` to `all` if it is a stretch of digits, and says whether it
/// is one.
fn gather_digits(all: &mut Vec<char>, part: &Vec<char>) -> (ok: bool)
    ensures
        ok == (part@.len() > 0 && all_digits(part@)),
        ok ==> final(all)@ == old(all)@ + part@,
{
    if part.len() == 0 {
        return false;
    }
    let mut i: usize = 0;
    while i < part.len()
        invariant
            i <= part@.len(),
            all@ == old(all)@ + part@.take(i as int),
            all_digits(part@.take(i as int)),
        decreases part@.len() - i,
    {
        let c = part[i];
        let n: u32 = c as u32;
        if n < 48 || n > 57 {
            return false;
        }
        all.push(c);
        assert(all@ =~= old(all)@ + part@.take(i + 1));
        i = i + 1;
    }
    assert(part@.take(part@.len() as int) =~= part@);
    true
}

/// The class of the number that the digits write.
fn read_decimal(digits: &Vec<char>) -> (r: Modular)
    requires
        all_digits(digits@),
    ensures
        r == Modular::of(decimal(digits@)),
{
    let mut acc: u64 = 0;
    let mut i: usize = 0;
    assert(digits@.take(0) =~= Seq::empty());
    while i < digits.len()
        invariant
            i <= digits@.len(),
            all_digits(digits@),
            acc < MODULUS,
            acc == decimal(digits@.take(i as int)) % (MODULUS as int),
        decreases digits@.len() - i,
    {
        let c = digits[i];
        let d: u64 = (c as u32 - 48) as u64;
        proof {
            let now = digits@.take(i + 1);
            let before = decimal(digits@.take(i as int));
            assert(now.drop_last() =~= digits@.take(i as int));
            assert(now.last() == c);
            assert(decimal(now) == before * 10 + d);
            lemma_mul_mod_noop_left(before, 10, MODULUS as int);
            lemma_add_mod_noop(before * 10, d as int, MODULUS as int);
            lemma_add_mod_noop(acc * 10, d as int, MODULUS as int);
        }
        acc = (acc * 10 + d) % MODULUS;
        i = i + 1;
    }
    assert(digits@.take(digits@.len() as int) =~= digits@);
    proof {
        lemma_small_mod(acc as nat, MODULUS as nat);
        vstd::arithmetic::div_mod::lemma_mod_twice(decimal(digits@), MODULUS as int);
        Modular::lemma_of_same_remainder(acc as int, decimal(digits@));
    }
    Modular::new(acc)
}

/// The class of ten to the power `e`.
fn power_of_ten(e: usize) -> (r: Modular)
    ensures
        r == Modular::of(pow(10, e as nat)),
{
    let mut acc: u64 = 1;
    let mut i: usize = 0;
    proof {
        lemma_pow0(10);
    }
    while i < e
        invariant
            i <= e,
            acc < MODULUS,
            acc == pow(10, i as nat) % (MODULUS as int),
        decreases e - i,
    {
        proof {
            lemma_pow_adds(10, i as nat, 1);
            lemma_pow1(10);
            lemma_mul_mod_noop_left(pow(10, i as nat), 10, MODULUS as int);
        }
        acc = acc * 10 % MODULUS;
        i = i + 1;
    }
    proof {
        lemma_small_mod(acc as nat, MODULUS as nat);
        vstd::arithmetic::div_mod::lemma_mod_twice(pow(10, e as nat), MODULUS as int);
        Modular::lemma_of_same_remainder(acc as int, pow(10, e as nat));
    }
    Modular::new(acc)
}

impl Modular {
    /// Reads the class that `token` writes, if it writes one.
    pub fn parse(token: Vec<char>) -> (r: Option<Self>)
        ensures
            r == written(token@),
    {
        let negative = token.len() > 0 && token[0] == '-';
        let mut body: Vec<char> = Vec::new();
        let mut i: usize = if negative {
            1
        } else {
            0
        };
        let ghost skipped = i as int;
        while i < token.len()
            invariant
                0 <= skipped <= i <= token@.len(),
                body@ == token@.subrange(skipped, i as int),
            decreases token@.len() - i,
        {
            body.push(token[i]);
            assert(body@ =~= token@.subrange(skipped, i + 1));
            i = i + 1;
        }
        assert(body@ =~= if negative {
            token@.drop_first()
        } else {
            token@
        });
        let parts = split(&body, '.');
        proof {
            lemma_pieces_nonempty(body@, '.');
        }
        let ghost cut = pieces(body@, '.');
        assert(cut.len() == parts@.len());
        if parts.len() > 2 {
            return None;
        }
        let mut digits: Vec<char> = Vec::new();
        assert(cut[0] == parts@[0]@);
        if !gather_digits(&mut digits, &parts[0]) {
            assert(!(cut[0].len() > 0 && all_digits(cut[0])));
            return None;
        }
        assert(digits@ =~= cut[0]);
        let mut places: usize = 0;
        if parts.len() == 2 {
            assert(cut[1] == parts@[1]@);
            if !gather_digits(&mut digits, &parts[1]) {
                assert(!(cut[1].len() > 0 && all_digits(cut[1])));
                return None;
            }
            places = parts[1].len();
        }
        let ghost fraction = if cut.len() == 2 {
            cut[1]
        } else {
            Seq::empty()
        };
        assert(digits@ =~= cut[0] + fraction);
        assert(all_digits(digits@));
        let size = read_decimal(&digits).over(power_of_ten(places));
        if negative {
            Some(Modular::zero().minus(size))
        } else {
            Some(size)
        }
    }
}

/// The digit for `d`, which is below ten.
pub open spec fn digit(d: nat) -> char {
    ((48 + d) as u8) as char
}

/// The digits that write `n` in base ten, without leading zeros.
pub open spec fn digits_of(n: nat) -> Seq<char>
    decreases n,
{
    if n < 10 {
        seq![digit(n)]
    } else {
        digits_of(n / 10).push(digit(n % 10))
    }
}

/// The tokens that write the residues of the grid, entry for entry.
pub open spec fn tokens_of(grid: Seq<Seq<Modular>>) -> Seq<Seq<Seq<char>>> {
    Seq::new(
        grid.len(),
        |i: int| Seq::new(grid[i].len(), |k: int| digits_of(grid[i][k].residue() as nat)),
    )
}

impl Modular {
    /// The digits of the least number of the class that is not negative.
    pub fn write(self) -> (token: Vec<char>)
        ensures
            token@ == digits_of(self.residue() as nat),
    {
        let mut n: u64 = self.value();
        let mut low: Vec<char> = Vec::new();
        while n >= 10
            invariant
                digits_of(self.residue() as nat) == digits_of(n as nat) + Seq::new(
                    low@.len(),
                    |j: int| low@[low@.len() - 1 - j],
                ),
            decreases n,
        {
            let ghost before = low@;
            low.push((48u8 + (n % 10) as u8) as char);
            proof {
                let turned = Seq::new(before.len(), |j: int| before[before.len() - 1 - j]);
                let now = Seq::new(low@.len(), |j: int| low@[low@.len() - 1 - j]);
                assert(now =~= seq![digit((n % 10) as nat)] + turned);
                assert(digits_of(n as nat) + turned =~= digits_of((n / 10) as nat) + now);
            }
            n = n / 10;
        }
        let mut token: Vec<char> = Vec::new();
        token.push((48u8 + n as u8) as char);
        let mut left: usize = low.len();
        while left > 0
            invariant
                left <= low@.len(),
                token@ == digits_of(n as nat) + Seq::new(
                    (low@.len() - left) as nat,
                    |j: int| low@[low@.len() - 1 - j],
                ),
            decreases left,
        {
            left = left - 1;
            token.push(low[left]);
            assert(token@ =~= digits_of(n as nat) + Seq::new(
                (low@.len() - left) as nat,
                |j: int| low@[low@.len() - 1 - j],
            ));
        }
        token
    }
}

/// The digits of a number are digits, at least one of them, and write that
/// number.
pub proof fn lemma_digits_of(n: nat)
    ensures
        digits_of(n).len() > 0,
        all_digits(digits_of(n)),
        decimal(digits_of(n)) == n,
    decreases n,
{
    if n >= 10 {
        lemma_digits_of(n / 10);
        let head = digits_of(n / 10);
        assert(digits_of(n).drop_last() =~= head);
        assert forall|i: int| 0 <= i < digits_of(n).len() implies is_digit(
            #[trigger] digits_of(n)[i],
        ) by {
            if i < head.len() {
                assert(digits_of(n)[i] == head[i]);
            }
        }
        assert(digits_of(n).last() == digit(n % 10));
        assert(digit(n % 10) as u32 - 48 == n % 10);
        assert(decimal(digits_of(n)) == decimal(head) * 10 + n % 10);
    } else {
        assert(digits_of(n).drop_last() =~= Seq::<char>::empty());
        assert(decimal(Seq::<char>::empty()) == 0);
        assert(digits_of(n).last() == digit(n));
        assert(digit(n) as u32 - 48 == n);
        assert(decimal(digits_of(n)) == decimal(Seq::<char>::empty()) * 10 + n);
    }
}

/// What a canonical value writes is a word, and reads back as that value.
pub proof fn lemma_written_digits(x: Modular)
    requires
        x.canonical(),
    ensures
        is_word(digits_of(x.residue() as nat)),
        written(digits_of(x.residue() as nat)) == Some(x),
{
    let n = x.residue() as nat;
    let token = digits_of(n);
    lemma_digits_of(n);
    assert forall|i: int| 0 <= i < token.len() implies !is_blank(#[trigger] token[i])
        && token[i] != ';' && token[i] != '.' && token[i] != '-' by {
        assert(is_digit(token[i]));
    }
    assert(token[0] != '-');
    lemma_pieces_stretch(Seq::empty(), token, '.');
    assert(Seq::<char>::empty() + token =~= token);
    assert(pieces(Seq::<char>::empty(), '.') == seq![Seq::<char>::empty()]);
    assert(pieces(token, '.') =~= seq![token]);
    assert(token + Seq::<char>::empty() =~= token);
    Modular::lemma_residue_of(n as int);
    Modular::lemma_residue_of(pow(10, 0));
    lemma_pow0(10);
    lemma1_pow((MODULUS - 2) as nat);
    assert(n * 1 == n);
    Modular::lemma_of_residue(x);
}

/// A matrix of integers modulo the prime comes back from its own text: where
/// reading the text of a grid of canonical values with [`Modular::parse`]
/// comes to anything, it comes to a matrix with the entries of the grid.
pub proof fn lemma_modular_round_trip(
    grid: Seq<Seq<Modular>>,
    cols: nat,
    r: Result<Matrix<Modular>, MatrixError>,
)
    requires
        grid.len() > 0,
        rectangular(grid, cols),
        all_canonical(grid),
        reading(Modular::parse, pieces(text_of(tokens_of(grid)), ';'), r),
    ensures
        r is Ok,
        r->Ok_0@ == grid,
        r->Ok_0.cols_spec() == cols,
{
    let tokens = tokens_of(grid);
    assert forall|i: int, k: int|
        0 <= i < tokens.len() && 0 <= k < tokens[i].len() implies is_word(
        #[trigger] tokens[i][k],
    ) by {
        assert(grid[i][k].canonical());
        lemma_written_digits(grid[i][k]);
    }
    assert forall|i: int, k: int, out: Option<Modular>|
        0 <= i < tokens.len() && 0 <= k < tokens[i].len() && #[trigger] reads(
            Modular::parse,
            tokens[i][k],
            out,
        ) implies out == Some(grid[i][k]) by {
        assert(grid[i][k].canonical());
        lemma_written_digits(grid[i][k]);
    }
    lemma_text_round_trip(Modular::parse, grid, cols, tokens, r);
}

} // verus!
