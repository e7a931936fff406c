//! Number-theory progress bars.

use vstd::prelude::*;
use crate::progress::ProgressStyle;
use crate::progress::draw;
use crate::grid::{lemma_gains_nothing, lemma_gains_trans, BrailleGrid};
use vstd::arithmetic::div_mod::{lemma_add_mod_noop, lemma_fundamental_div_mod, lemma_mod_multiples_basic};
use std::collections::HashSet;

verus! {

/// Sieve of Eratosthenes: integers 1..N laid left→right; composites are
/// crossed out one by one, primes remain lit. `eased` controls how many
/// integers are visible; `time` sweeps a highlight over the current sieve
/// multiple.
pub struct Sieve;

impl ProgressStyle for Sieve {
    open spec fn style_name(&self) -> Seq<char> {
        "sieve-eratosthenes"@
    }

    open spec fn style_theme(&self) -> Seq<char> {
        "numbertheory"@
    }

    open spec fn style_description(&self) -> Seq<char> {
        "Sieve of Eratosthenes: integers cross composites, primes survive as lit dots"@
    }

    fn name(&self) -> (r: &str) {
        "sieve-eratosthenes"
    }

    fn theme(&self) -> (r: &str) {
        "numbertheory"
    }

    fn describe(&self) -> (r: &str) {
        "Sieve of Eratosthenes: integers cross composites, primes survive as lit dots"
    }
}

/// Ulam spiral: integers spiral outward from the centre of the grid; primes
/// glow along diagonals. `eased` reveals integers 1..N; `time` pulses the
/// prime dots.
pub struct UlamSpiral;

impl ProgressStyle for UlamSpiral {
    open spec fn style_name(&self) -> Seq<char> {
        "ulam-spiral"@
    }

    open spec fn style_theme(&self) -> Seq<char> {
        "numbertheory"@
    }

    open spec fn style_description(&self) -> Seq<char> {
        "Ulam spiral: integers coil outward from centre, primes cluster on diagonals"@
    }

    fn name(&self) -> (r: &str) {
        "ulam-spiral"
    }

    fn theme(&self) -> (r: &str) {
        "numbertheory"
    }

    fn describe(&self) -> (r: &str) {
        "Ulam spiral: integers coil outward from centre, primes cluster on diagonals"
    }
}

/// Prime counting function π(x): a curve showing how many primes are ≤ x,
/// displayed as a rising step graph filling left to right with `eased`.
/// `time` scrolls a thin vertical scan line.
pub struct PrimeCounting;

impl ProgressStyle for PrimeCounting {
    open spec fn style_name(&self) -> Seq<char> {
        "prime-counting"@
    }

    open spec fn style_theme(&self) -> Seq<char> {
        "numbertheory"@
    }

    open spec fn style_description(&self) -> Seq<char> {
        "π(x) prime-counting function: a rising step curve filling as primes accumulate"@
    }

    fn name(&self) -> (r: &str) {
        "prime-counting"
    }

    fn theme(&self) -> (r: &str) {
        "numbertheory"
    }

    fn describe(&self) -> (r: &str) {
        "π(x) prime-counting function: a rising step curve filling as primes accumulate"
    }
}

/// Collatz conjecture: for each seed n (swept by `eased` over 1..N), plot
/// the stopping trajectory (n→n/2 if even, 3n+1 if odd). Height encodes
/// the value normalised to the peak value in the window. `time` selects
/// which trajectory is currently highlighted.
pub struct Collatz;

impl ProgressStyle for Collatz {
    open spec fn style_name(&self) -> Seq<char> {
        "collatz"@
    }

    open spec fn style_theme(&self) -> Seq<char> {
        "numbertheory"@
    }

    open spec fn style_description(&self) -> Seq<char> {
        "Collatz (3n+1): seeds swept left→right, trajectory height is stopping sequence depth"@
    }

    fn name(&self) -> (r: &str) {
        "collatz"
    }

    fn theme(&self) -> (r: &str) {
        "numbertheory"
    }

    fn describe(&self) -> (r: &str) {
        "Collatz (3n+1): seeds swept left→right, trajectory height is stopping sequence depth"
    }
}

/// Fibonacci golden spiral: draws successive quarter-circle arcs in squares
/// whose side lengths are Fibonacci numbers. `eased` controls how many arcs
/// are drawn; `time` rotates a glowing cursor along the outermost arc. The
/// golden ratio φ = (1+√5)/2 governs growth.
pub struct FibonacciSpiral;

impl ProgressStyle for FibonacciSpiral {
    open spec fn style_name(&self) -> Seq<char> {
        "fibonacci-spiral"@
    }

    open spec fn style_theme(&self) -> Seq<char> {
        "numbertheory"@
    }

    open spec fn style_description(&self) -> Seq<char> {
        "Golden spiral: Fibonacci quarter-circle arcs converging on φ"@
    }

    fn name(&self) -> (r: &str) {
        "fibonacci-spiral"
    }

    fn theme(&self) -> (r: &str) {
        "numbertheory"
    }

    fn describe(&self) -> (r: &str) {
        "Golden spiral: Fibonacci quarter-circle arcs converging on φ"
    }
}

/// Pascal's triangle mod p: rows revealed = `eased × height`. Mod 2 yields
/// Sierpinski's gasket; `time` cycles through mod 2, 3, 5 to show different
/// self-similar patterns.
pub struct PascalMod;

impl ProgressStyle for PascalMod {
    open spec fn style_name(&self) -> Seq<char> {
        "pascal-mod"@
    }

    open spec fn style_theme(&self) -> Seq<char> {
        "numbertheory"@
    }

    open spec fn style_description(&self) -> Seq<char> {
        "Pascal's triangle mod p: Sierpinski (p=2), mod-3, mod-5 patterns cycling with time"@
    }

    fn name(&self) -> (r: &str) {
        "pascal-mod"
    }

    fn theme(&self) -> (r: &str) {
        "numbertheory"
    }

    fn describe(&self) -> (r: &str) {
        "Pascal's triangle mod p: Sierpinski (p=2), mod-3, mod-5 patterns cycling with time"
    }
}

/// Euler totient φ(n) histogram: bar height at column n is φ(n)/n, revealing
/// left to right as `eased` grows. Primes peek at the top (φ(p)=p−1≈p).
pub struct TotientHistogram;

impl ProgressStyle for TotientHistogram {
    open spec fn style_name(&self) -> Seq<char> {
        "totient-histogram"@
    }

    open spec fn style_theme(&self) -> Seq<char> {
        "numbertheory"@
    }

    open spec fn style_description(&self) -> Seq<char> {
        "Euler totient φ(n): columns show φ(n)/n — primes spike to the top, composites sag"@
    }

    fn name(&self) -> (r: &str) {
        "totient-histogram"
    }

    fn theme(&self) -> (r: &str) {
        "numbertheory"
    }

    fn describe(&self) -> (r: &str) {
        "Euler totient φ(n): columns show φ(n)/n — primes spike to the top, composites sag"
    }
}

/// Stern-Brocot tree: fractions from the Farey sequence F_n plotted as
/// vertical spikes whose height is the denominator. `eased` controls the
/// order n of the Farey sequence; `time` pulses a cursor scanning fractions.
pub struct SternBrocot;

impl ProgressStyle for SternBrocot {
    open spec fn style_name(&self) -> Seq<char> {
        "stern-brocot"@
    }

    open spec fn style_theme(&self) -> Seq<char> {
        "numbertheory"@
    }

    open spec fn style_description(&self) -> Seq<char> {
        "Stern-Brocot / Farey F_n: every rational in [0,1] placed by value, height = denominator"@
    }

    fn name(&self) -> (r: &str) {
        "stern-brocot"
    }

    fn theme(&self) -> (r: &str) {
        "numbertheory"
    }

    fn describe(&self) -> (r: &str) {
        "Stern-Brocot / Farey F_n: every rational in [0,1] placed by value, height = denominator"
    }
}

/// Continued fraction convergents of φ = [1;1,1,1,…]: each convergent p_k/q_k
/// is a best rational approximation. `eased` reveals convergents; each is
/// drawn as a dot at (x=value×width, y=row k). Convergents alternate above /
/// below the true value — the zig-zag visualises the approximation theorem.
pub struct ContinuedFraction;

impl ProgressStyle for ContinuedFraction {
    open spec fn style_name(&self) -> Seq<char> {
        "continued-fraction-phi"@
    }

    open spec fn style_theme(&self) -> Seq<char> {
        "numbertheory"@
    }

    open spec fn style_description(&self) -> Seq<char> {
        "Continued fraction convergents of φ: zig-zagging best rationals approaching the golden ratio"@
    }

    fn name(&self) -> (r: &str) {
        "continued-fraction-phi"
    }

    fn theme(&self) -> (r: &str) {
        "numbertheory"
    }

    fn describe(&self) -> (r: &str) {
        "Continued fraction convergents of φ: zig-zagging best rationals approaching the golden ratio"
    }
}

/// Modular multiplication circle: N points around a circle; connect point i to
/// (k·i) mod N for each i. k=2 draws a cardioid; k=3 a nephroid; k swept by
/// `eased` reveals new curves. `time` rotates the whole figure slowly.
pub struct ModularCircle;

impl ProgressStyle for ModularCircle {
    open spec fn style_name(&self) -> Seq<char> {
        "modular-circle"@
    }

    open spec fn style_theme(&self) -> Seq<char> {
        "numbertheory"@
    }

    open spec fn style_description(&self) -> Seq<char> {
        "Modular multiplication circle: string art i→k·i mod N, k swept by progress (cardioid at k=2)"@
    }

    fn name(&self) -> (r: &str) {
        "modular-circle"
    }

    fn theme(&self) -> (r: &str) {
        "numbertheory"
    }

    fn describe(&self) -> (r: &str) {
        "Modular multiplication circle: string art i→k·i mod N, k swept by progress (cardioid at k=2)"
    }
}

/// Recamán's sequence: a(0)=0; a(n) = a(n-1)−n if positive and not already
/// in the sequence, else a(n-1)+n. Plotted as arcs (half-circles) on a
/// number line, alternating above/below. `eased` reveals terms; `time`
/// pulses the leading arc.
pub struct Recaman;

impl ProgressStyle for Recaman {
    open spec fn style_name(&self) -> Seq<char> {
        "recaman"@
    }

    open spec fn style_theme(&self) -> Seq<char> {
        "numbertheory"@
    }

    open spec fn style_description(&self) -> Seq<char> {
        "Recamán's sequence: arcs above/below a number line, each term a backward or forward jump"@
    }

    fn name(&self) -> (r: &str) {
        "recaman"
    }

    fn theme(&self) -> (r: &str) {
        "numbertheory"
    }

    fn describe(&self) -> (r: &str) {
        "Recamán's sequence: arcs above/below a number line, each term a backward or forward jump"
    }
}

/// Digital root vortex math: place digits 1–9 around a circle; connect the
/// digital root sequence of n (n, n+n, …) as a cycle of chords. `eased`
/// selects the base number n ∈ 1..9; `time` rotates and pulses the figure.
/// The vortex math pattern mod 9 reveals hidden symmetries (3–6–9, 1–2–4–8–7–5).
pub struct DigitalRoot;

impl ProgressStyle for DigitalRoot {
    open spec fn style_name(&self) -> Seq<char> {
        "digital-root-vortex"@
    }

    open spec fn style_theme(&self) -> Seq<char> {
        "numbertheory"@
    }

    open spec fn style_description(&self) -> Seq<char> {
        "Vortex math: digital-root cycles 1–9 drawn as chords on a circle, revealing mod-9 symmetry"@
    }

    fn name(&self) -> (r: &str) {
        "digital-root-vortex"
    }

    fn theme(&self) -> (r: &str) {
        "numbertheory"
    }

    fn describe(&self) -> (r: &str) {
        "Vortex math: digital-root cycles 1–9 drawn as chords on a circle, revealing mod-9 symmetry"
    }
}

/// `n` is prime: at least 2 and divisible by no integer strictly between
/// 1 and `n`.
pub open spec fn is_prime_spec(n: int) -> bool {
    n >= 2 && forall|d: int| 2 <= d < n ==> #[trigger] (n % d) != 0
}

/// A proper divisor of `n` yields a divisor no larger than it whose square
/// is at most `n`.
pub proof fn lemma_small_divisor(n: int, d: int) -> (e: int)
    requires
        2 <= d < n,
        n % d == 0,
    ensures
        2 <= e <= d,
        e * e <= n,
        n % e == 0,
{
    let q = n / d;
    lemma_fundamental_div_mod(n, d);
    assert(n == d * q);
    assert(q >= 2) by (nonlinear_arith)
        requires
            n == d * q,
            2 <= d < n,
    ;
    if d <= q {
        assert(d * d <= d * q) by (nonlinear_arith)
            requires
                d <= q,
                d >= 0,
        ;
        d
    } else {
        assert(q * q < d * q) by (nonlinear_arith)
            requires
                q < d,
                q > 0,
        ;
        assert(n == d * q);
        lemma_mod_multiples_basic(d, q);
        q
    }
}

/// An odd number has no even divisor.
proof fn lemma_odd_no_even_divisor(n: int, d: int)
    requires
        n % 2 == 1,
        d >= 2,
        d % 2 == 0,
    ensures
        n % d != 0,
{
    if n % d == 0 {
        let q = n / d;
        let k = d / 2;
        lemma_fundamental_div_mod(n, d);
        lemma_fundamental_div_mod(d, 2);
        assert(n == (k * q) * 2) by (nonlinear_arith)
            requires
                n == d * q,
                d == 2 * k,
        ;
        lemma_mod_multiples_basic(k * q, 2);
    }
}

/// A number with no divisor `d` with `2 <= d` and `d * d <= n` is prime
/// (when at least 2).
proof fn lemma_prime_by_small_divisors(n: int, bound: int)
    requires
        n >= 2,
        bound * bound > n,
        bound >= 2,
        forall|d: int| 2 <= d < bound ==> #[trigger] (n % d) != 0,
    ensures
        is_prime_spec(n),
{
    assert forall|d: int| 2 <= d < n implies #[trigger] (n % d) != 0 by {
        if n % d == 0 {
            let e = lemma_small_divisor(n, d);
            if e >= bound {
                assert(e * e >= bound * bound) by (nonlinear_arith)
                    requires
                        e >= bound,
                        bound >= 0,
                ;
            }
            assert(n % e != 0);
        }
    }
}

/// Trial-division primality test. Returns `false` for 0 and 1.
///
/// Divisors are tried up to the square root; for a prime at or above
/// `(2^32 - 1)^2` the squared divisor would leave `u64`, so such primes are
/// outside the domain.
pub fn is_prime(n: u64) -> (r: bool)
    requires
        n < 18446744065119617025u64 || !is_prime_spec(n as int),
    ensures
        r == is_prime_spec(n as int),
{
    if n < 2 {
        return false;
    }
    if n == 2 {
        return true;
    }
    if n % 2 == 0 {
        assert(n as int % 2 == 0);
        return false;
    }
    let mut i: u64 = 3;
    while i * i <= n
        invariant
            3 <= i <= 0xFFFF_FFFF,
            i * i <= u64::MAX,
            i % 2 == 1,
            n % 2 == 1,
            n >= 3,
            n < 18446744065119617025u64 || !is_prime_spec(n as int),
            forall|d: int| 2 <= d < i ==> #[trigger] (n as int % d) != 0,
        decreases 0x1_0000_0000u64 - i,
    {
        if n % i == 0 {
            assert(i < n) by (nonlinear_arith)
                requires
                    i * i <= n,
                    i >= 3,
            ;
            return false;
        }
        proof {
            lemma_odd_no_even_divisor(n as int, i + 1);
            assert forall|d: int| 2 <= d < i + 2 implies #[trigger] (n as int % d) != 0 by {
                if d == i + 1 {
                    lemma_odd_no_even_divisor(n as int, d);
                }
            }
            if i == 0xFFFF_FFFF {
                lemma_prime_by_small_divisors(n as int, i + 2);
                assert(false);
            }
        }
        i = i + 2;
        assert(i * i <= u64::MAX) by (nonlinear_arith)
            requires
                i <= 0xFFFF_FFFF,
        ;
    }
    proof {
        lemma_prime_by_small_divisors(n as int, i as int);
    }
    true
}

/// Greatest common divisor by Euclid's recurrence.
pub open spec fn gcd_spec(a: nat, b: nat) -> nat
    decreases b,
{
    if b == 0 {
        a
    } else {
        gcd_spec(b, a % b)
    }
}

/// Euclid's greatest common divisor.
pub fn gcd(a: usize, b: usize) -> (r: usize)
    ensures
        r == gcd_spec(a as nat, b as nat),
{
    let ghost g = gcd_spec(a as nat, b as nat);
    let mut a = a;
    let mut b = b;
    while b != 0
        invariant
            gcd_spec(a as nat, b as nat) == g,
        decreases b,
    {
        let t = b;
        b = a % b;
        a = t;
    }
    a
}

/// Multiples of `d` are closed under adding and subtracting multiples.
proof fn lemma_divides_combination(x: int, y: int, q: int, d: int)
    requires
        d > 0,
        x % d == 0,
        y % d == 0,
    ensures
        (x + q * y) % d == 0,
        (x - q * y) % d == 0,
{
    lemma_fundamental_div_mod(x, d);
    lemma_fundamental_div_mod(y, d);
    let i = x / d;
    let j = y / d;
    assert(x + q * y == (i + q * j) * d) by (nonlinear_arith)
        requires
            x == d * i,
            y == d * j,
    ;
    assert(x - q * y == (i - q * j) * d) by (nonlinear_arith)
        requires
            x == d * i,
            y == d * j,
    ;
    lemma_mod_multiples_basic(i + q * j, d);
    lemma_mod_multiples_basic(i - q * j, d);
}

/// The greatest common divisor divides both arguments (and is positive
/// unless both are zero).
pub proof fn lemma_gcd_divides(a: nat, b: nat)
    requires
        a > 0 || b > 0,
    ensures
        gcd_spec(a, b) > 0,
        a % gcd_spec(a, b) == 0,
        b % gcd_spec(a, b) == 0,
    decreases b,
{
    if b > 0 {
        lemma_gcd_divides(b, a % b);
        let g = gcd_spec(a, b) as int;
        lemma_fundamental_div_mod(a as int, b as int);
        lemma_divides_combination((a % b) as int, b as int, (a / b) as int, g);
        assert(a as int == (a % b) as int + (a / b) as int * (b as int)) by (nonlinear_arith)
            requires
                a as int == b as int * (a as int / b as int) + a as int % b as int,
        ;
    } else {
        assert(a as int % a as int == 0) by {
            lemma_mod_multiples_basic(1, a as int);
        }
    }
}

/// Every common divisor of the arguments divides their greatest common
/// divisor.
pub proof fn lemma_gcd_greatest(a: nat, b: nat, d: int)
    requires
        d > 0,
        a as int % d == 0,
        b as int % d == 0,
    ensures
        gcd_spec(a, b) as int % d == 0,
    decreases b,
{
    if b > 0 {
        lemma_fundamental_div_mod(a as int, b as int);
        lemma_divides_combination(a as int, b as int, (a / b) as int, d);
        assert((a % b) as int == a as int - (a / b) as int * (b as int)) by (nonlinear_arith)
            requires
                a as int == b as int * (a as int / b as int) + a as int % b as int,
        ;
        lemma_gcd_greatest(b, a % b, d);
    }
}

/// Bezout's identity: the greatest common divisor is an integer combination
/// of the arguments.
pub proof fn lemma_bezout(a: nat, b: nat) -> (xy: (int, int))
    ensures
        a * xy.0 + b * xy.1 == gcd_spec(a, b),
    decreases b,
{
    if b == 0 {
        (1, 0)
    } else {
        let (x, y) = lemma_bezout(b, a % b);
        let q = (a / b) as int;
        lemma_fundamental_div_mod(a as int, b as int);
        assert(a * y + b * (x - q * y) == b * x + (a % b) * y) by (nonlinear_arith)
            requires
                a as int == b as int * q + (a % b) as int,
        ;
        (y, x - q * y)
    }
}

/// A positive divisor of a positive number is at most that number.
proof fn lemma_divisor_le(n: int, d: int)
    requires
        n > 0,
        d > 0,
        n % d == 0,
    ensures
        d <= n,
{
    lemma_fundamental_div_mod(n, d);
    assert(d <= n) by (nonlinear_arith)
        requires
            n == d * (n / d),
            n > 0,
            d > 0,
    ;
}

/// Euclid's lemma: a prime dividing a product divides one of the factors.
pub proof fn lemma_euclid(p: int, a: int, b: int)
    requires
        is_prime_spec(p),
        a >= 0,
        b >= 0,
        (a * b) % p == 0,
        a % p != 0,
    ensures
        b % p == 0,
{
    lemma_gcd_divides(p as nat, a as nat);
    let g = gcd_spec(p as nat, a as nat) as int;
    lemma_divisor_le(p, g);
    if g != 1 {
        if g < p {
            assert(p % g != 0);
        }
        assert(false);
    }
    let (x, y) = lemma_bezout(p as nat, a as nat);
    lemma_fundamental_div_mod(a * b, p);
    let k = (a * b) / p;
    assert(b == (b * x + k * y) * p) by (nonlinear_arith)
        requires
            p * x + a * y == 1,
            a * b == p * k,
    ;
    lemma_mod_multiples_basic(b * x + k * y, p);
}

/// Euler's product over the primes that divide `n`, from `p` up: each such
/// prime `q`, in increasing order, takes `acc` to `acc - acc / q`.
pub open spec fn euler_product(n: nat, acc: nat, p: nat) -> nat
    decreases n + 1 - p,
{
    if p > n {
        acc
    } else if is_prime_spec(p as int) && n % p == 0 {
        euler_product(n, (acc - acc / p) as nat, p + 1)
    } else {
        euler_product(n, acc, p + 1)
    }
}

/// Euler's totient by the product formula `n * prod (1 - 1/q)` over the
/// primes `q` dividing `n`, each factor applied in turn with integer
/// division.
pub open spec fn totient_spec(n: nat) -> nat {
    euler_product(n, n, 2)
}

/// With no prime divisor of `n` from `p` up, the product leaves `acc` alone.
proof fn lemma_euler_none(n: nat, acc: nat, p: nat)
    requires
        forall|q: int| p <= q <= n && #[trigger] is_prime_spec(q) ==> n as int % q != 0,
    ensures
        euler_product(n, acc, p) == acc,
    decreases n + 1 - p,
{
    if p <= n {
        lemma_euler_none(n, acc, p + 1);
    }
}

/// With `t` the only prime divisor of `n` from `p` up, the product applies
/// `t` alone.
proof fn lemma_euler_tail(n: nat, acc: nat, p: nat, t: nat)
    requires
        p <= t <= n,
        is_prime_spec(t as int),
        n % t == 0,
        forall|q: int| p <= q <= n && #[trigger] is_prime_spec(q) && n as int % q == 0 ==> q == t,
    ensures
        euler_product(n, acc, p) == acc - acc / t,
    decreases n + 1 - p,
{
    if p == t {
        lemma_euler_none(n, (acc - acc / t) as nat, p + 1);
    } else {
        lemma_euler_tail(n, acc, p + 1, t);
    }
}

/// Euler's totient `phi(p) = p - 1` of a prime.
pub proof fn lemma_totient_prime(p: nat)
    requires
        is_prime_spec(p as int),
    ensures
        totient_spec(p) == p - 1,
{
    assert(p as int % p as int == 0) by {
        lemma_mod_multiples_basic(1, p as int);
    }
    assert forall|q: int| 2 <= q <= p && #[trigger] is_prime_spec(q) && p as int % q == 0 implies q == p by {
        if q < p {
            assert(p as int % q != 0);
        }
    }
    lemma_euler_tail(p, p, 2, p);
    assert(p / p == 1) by {
        vstd::arithmetic::div_mod::lemma_div_by_self(p as int);
    }
}

/// Stripping a prime factor `p` keeps every other prime factor.
proof fn lemma_strip_keeps_primes(temp: int, p: int, q: int)
    requires
        temp >= 1,
        2 <= p < q,
        temp % p == 0,
        is_prime_spec(q),
    ensures
        (temp % q == 0) <==> ((temp / p) % q == 0),
{
    lemma_fundamental_div_mod(temp, p);
    let r = temp / p;
    assert(r >= 0) by (nonlinear_arith)
        requires
            temp == p * r,
            temp >= 1,
            p >= 2,
    ;
    if r % q == 0 {
        lemma_fundamental_div_mod(r, q);
        let k = r / q;
        assert(temp == (k * p) * q) by (nonlinear_arith)
            requires
                temp == p * r,
                r == q * k,
        ;
        lemma_mod_multiples_basic(k * p, q);
    }
    if temp % q == 0 {
        assert(p % q != 0) by {
            vstd::arithmetic::div_mod::lemma_small_mod(p as nat, q as nat);
        }
        assert(r * p == temp) by (nonlinear_arith)
            requires
                temp == p * r,
        ;
        lemma_euclid(q, p, r);
    }
}

/// Euler's totient by trial factoring: Euler's product formula over the
/// prime factors of `n` (0 for 0).
pub fn totient(n: usize) -> (phi: usize)
    ensures
        phi == totient_spec(n as nat),
{
    if n == 0 {
        return 0;
    }
    let ghost nn = n as int;
    let mut phi = n;
    let mut temp = n;
    let mut p: usize = 2;
    assert(n as int % n as int == 0) by {
        lemma_mod_multiples_basic(1, n as int);
    }
    while p <= temp / p
        invariant
            nn == n,
            n >= 1,
            2 <= p,
            1 <= temp <= n,
            phi <= n,
            nn % (temp as int) == 0,
            forall|d: int| 2 <= d < p ==> #[trigger] (temp as int % d) != 0,
            forall|q: int| p <= q && #[trigger] is_prime_spec(q) ==> ((nn % q == 0) <==> (temp as int % q == 0)),
            euler_product(n as nat, phi as nat, p as nat) == totient_spec(n as nat),
        decreases n + 1 - p,
    {
        assert(p <= temp) by (nonlinear_arith)
            requires
                p <= temp / p,
                p >= 2,
                temp >= 1,
        ;
        assert(p + 1 <= usize::MAX) by (nonlinear_arith)
            requires
                p <= temp / p,
                p >= 2,
                temp <= usize::MAX,
        ;
        if temp % p == 0 {
            proof {
                assert(is_prime_spec(p as int)) by {
                    assert forall|d: int| 2 <= d < p implies #[trigger] (p as int % d) != 0 by {
                        if p as int % d == 0 {
                            lemma_divides_trans(temp as int, p as int, d);
                        }
                    }
                }
                assert(nn % (p as int) == 0);
            }
            let ghost phi0 = phi;
            while temp % p == 0
                invariant
                    nn == n,
                    2 <= p,
                    1 <= temp <= n,
                    is_prime_spec(p as int),
                    nn % (temp as int) == 0,
                    forall|d: int| 2 <= d < p ==> #[trigger] (temp as int % d) != 0,
                    forall|q: int| p < q && #[trigger] is_prime_spec(q) ==> ((nn % q == 0) <==> (temp as int % q == 0)),
                decreases temp,
            {
                let ghost t0 = temp as int;
                proof {
                    lemma_divisor_le(t0, p as int);
                    lemma_fundamental_div_mod(t0, p as int);
                    assert(t0 / (p as int) >= 1) by (nonlinear_arith)
                        requires
                            t0 == p * (t0 / p as int),
                            t0 >= 1,
                            p >= 2,
                    ;
                    assert(t0 % (t0 / p as int) == 0) by {
                        assert(t0 == (p as int) * (t0 / p as int));
                        lemma_mod_multiples_basic(p as int, t0 / p as int);
                    }
                    lemma_divides_trans(nn, t0, t0 / p as int);
                    assert forall|d: int| 2 <= d < p implies #[trigger] ((t0 / p as int) % d) != 0 by {
                        if (t0 / p as int) % d == 0 {
                            lemma_divides_trans(t0, t0 / p as int, d);
                        }
                    }
                    assert forall|q: int| p < q && #[trigger] is_prime_spec(q) implies ((nn % q == 0) <==> ((t0
                        / p as int) % q == 0)) by {
                        lemma_strip_keeps_primes(t0, p as int, q);
                    }
                    assert(t0 / (p as int) < t0) by (nonlinear_arith)
                        requires
                            t0 == p * (t0 / p as int),
                            t0 >= 1,
                            p >= 2,
                    ;
                }
                temp = temp / p;
            }
            phi = phi - phi / p;
            proof {
                assert(euler_product(n as nat, phi0 as nat, p as nat) == euler_product(n as nat, phi as nat, (p + 1) as nat));
            }
        } else {
            proof {
                if is_prime_spec(p as int) {
                    assert(nn % (p as int) != 0);
                }
                assert(euler_product(n as nat, phi as nat, p as nat) == euler_product(n as nat, phi as nat, (p + 1) as nat));
            }
        }
        p = p + 1;
    }
    proof {
        assert(p * p > temp) by (nonlinear_arith)
            requires
                p > temp / p,
                p >= 2,
        ;
    }
    if temp > 1 {
        proof {
            lemma_prime_by_small_divisors(temp as int, p as int);
            if temp < p {
                assert(temp as int % temp as int == 0) by {
                    lemma_mod_multiples_basic(1, temp as int);
                }
            }
            assert forall|q: int| p <= q <= n && #[trigger] is_prime_spec(q) && nn % q == 0 implies q == temp by {
                assert(temp as int % q == 0);
                lemma_divisor_le(temp as int, q);
                if q < temp {
                    assert(temp as int % q != 0);
                }
            }
            assert(temp as int % temp as int == 0) by {
                lemma_mod_multiples_basic(1, temp as int);
            }
            lemma_euler_tail(n as nat, phi as nat, p as nat, temp as nat);
        }
        phi = phi - phi / temp;
    } else {
        proof {
            assert forall|q: int| p <= q <= n && #[trigger] is_prime_spec(q) implies nn % q != 0 by {
                assert(temp as int % q == 1int % q);
                vstd::arithmetic::div_mod::lemma_small_mod(1, q as nat);
            }
            lemma_euler_none(n as nat, phi as nat, p as nat);
        }
    }
    phi
}

/// Digital root in `1..=9`: `n mod 9`, with multiples of 9 (and 0) at 9.
pub open spec fn digital_root_spec(n: int) -> int {
    if n % 9 == 0 {
        9
    } else {
        n % 9
    }
}

/// Sum of the decimal digits of `n`.
pub open spec fn digit_sum(n: nat) -> nat
    decreases n,
{
    if n == 0 {
        0
    } else {
        (n % 10) + digit_sum(n / 10)
    }
}

proof fn lemma_digit_sum_mod(n: nat)
    ensures
        digit_sum(n) % 9 == n % 9,
        digit_sum(n) <= n,
    decreases n,
{
    if n > 0 {
        let q = n / 10;
        let r = n % 10;
        lemma_digit_sum_mod(q);
        let d = digit_sum(q);
        assert(digit_sum(n) % 9 == n % 9) by (nonlinear_arith)
            requires
                d % 9 == q % 9,
                n == 10 * q + r,
                digit_sum(n) == r + d,
                0 <= r < 10,
                q >= 0,
                d >= 0,
        ;
    }
}

/// The digital root is the repeated digit sum: a one-digit number is its
/// own root, a number has the root of its digit sum, and the digit sum of a
/// number of two or more digits is smaller, so summing digits again and
/// again ends on the root.
pub proof fn lemma_digital_root_digits(n: nat)
    ensures
        1 <= n <= 9 ==> digital_root_spec(n as int) == n,
        n >= 1 ==> digital_root_spec(n as int) == digital_root_spec(digit_sum(n) as int),
        n >= 10 ==> digit_sum(n) < n,
        n >= 1 ==> 1 <= digital_root_spec(n as int) <= 9,
{
    lemma_digit_sum_mod(n);
    if n >= 10 {
        let q = n / 10;
        lemma_digit_sum_mod(q);
        assert(digit_sum(n) == n % 10 + digit_sum(q));
    }
}

/// Digital root of `n` mod 9 (returns `1..=9`; 0 gives 9).
pub fn digital_root(n: usize) -> (r: usize)
    ensures
        r == digital_root_spec(n as int),
        1 <= r <= 9,
{
    if n == 0 {
        return 9;
    }
    let r = n % 9;
    if r == 0 {
        9
    } else {
        r
    }
}

/// The vortex cycle of `base`: starting from `base`, keep adding `base` and
/// taking the digital root, until the walk comes back to `base` or holds
/// nine entries.
pub fn digital_root_cycle(base: usize) -> (cycle: Vec<usize>)
    requires
        2 * base <= usize::MAX,
    ensures
        1 <= cycle.len() <= 9,
        cycle[0] == base,
        forall|i: int| 0 <= i < cycle.len() - 1 ==> #[trigger] cycle[i + 1] == digital_root_spec(cycle[i] + base),
        forall|i: int| 1 <= i < cycle.len() ==> #[trigger] cycle[i] != base,
        cycle.len() == 9 || digital_root_spec(cycle[cycle.len() - 1] + base) == base,
{
    let mut cycle: Vec<usize> = Vec::new();
    cycle.push(base);
    let mut cur = base;
    let mut k: usize = 0;
    while k < 8
        invariant
            2 * base <= usize::MAX,
            k <= 8,
            cycle.len() == k + 1,
            cycle[0] == base,
            cur == cycle[cycle.len() - 1],
            k > 0 ==> cur <= 9,
            forall|i: int| 0 <= i < cycle.len() - 1 ==> #[trigger] cycle[i + 1] == digital_root_spec(cycle[i] + base),
            forall|i: int| 1 <= i < cycle.len() ==> #[trigger] cycle[i] != base,
        decreases 8 - k,
    {
        let next = digital_root(cur + base);
        if next == cycle[0] {
            return cycle;
        }
        cycle.push(next);
        cur = next;
        k = k + 1;
    }
    cycle
}

/// One step of the Collatz map: halve even numbers, send odd `k` to `3k + 1`.
pub open spec fn collatz_step(k: int) -> int {
    if k % 2 == 0 {
        k / 2
    } else {
        3 * k + 1
    }
}

/// Number of Collatz steps from `k` to 1, giving up after `fuel` steps.
pub open spec fn collatz_steps(k: int, fuel: nat) -> nat
    decreases fuel,
{
    if k == 1 || fuel == 0 {
        0
    } else {
        1 + collatz_steps(collatz_step(k), (fuel - 1) as nat)
    }
}

/// The first `fuel` steps of the trajectory from `k` (until it reaches 1)
/// stay within `u64`.
pub open spec fn collatz_fits(k: int, fuel: nat) -> bool
    decreases fuel,
{
    if k == 1 || fuel == 0 {
        true
    } else {
        (k % 2 == 0 || 3 * k + 1 <= u64::MAX) && collatz_fits(collatz_step(k), (fuel - 1) as nat)
    }
}

/// Collatz stopping time of `k`: steps to reach 1, capped at 10,000.
pub fn stopping_time(k: u64) -> (count: u64)
    requires
        collatz_fits(k as int, 10_000),
    ensures
        count == collatz_steps(k as int, 10_000),
{
    let ghost total = collatz_steps(k as int, 10_000);
    let mut k = k;
    let mut count: u64 = 0;
    while k != 1 && count < 10_000
        invariant
            count <= 10_000,
            collatz_fits(k as int, (10_000 - count) as nat),
            collatz_steps(k as int, (10_000 - count) as nat) + count == total,
        decreases 10_000 - count,
    {
        k = if k % 2 == 0 { k / 2 } else { 3 * k + 1 };
        count += 1;
    }
    count
}

/// Collatz stopping time of `k` (capped at 10,000 steps), or `None` when
/// the trajectory would leave `u64` before reaching 1 or the cap.
pub fn checked_stopping_time(k: u64) -> (r: Option<u64>)
    ensures
        r == (if collatz_fits(k as int, 10_000) {
            Some(collatz_steps(k as int, 10_000) as u64)
        } else {
            None::<u64>
        }),
{
    let ghost k0 = k as int;
    let mut cur = k;
    let mut count: u64 = 0;
    while cur != 1 && count < 10_000
        invariant
            k0 == k as int,
            count <= 10_000,
            collatz_fits(k0, 10_000) == collatz_fits(cur as int, (10_000 - count) as nat),
            collatz_steps(k0, 10_000) == collatz_steps(cur as int, (10_000 - count) as nat) + count,
        decreases 10_000 - count,
    {
        if cur % 2 == 0 {
            cur = cur / 2;
        } else if cur <= (u64::MAX - 1) / 3 {
            cur = 3 * cur + 1;
        } else {
            assert(3 * cur + 1 > u64::MAX);
            assert(!collatz_fits(cur as int, (10_000 - count) as nat));
            return None;
        }
        count += 1;
    }
    Some(count)
}

/// `k` has a divisor `d` with `2 <= d < p` and `d < k`.
pub open spec fn has_divisor_below(k: int, p: int) -> bool {
    exists|d: int| 2 <= d < p && d < k && #[trigger] (k % d) == 0
}

/// Divisibility is transitive.
proof fn lemma_divides_trans(k: int, p: int, d: int)
    requires
        p > 0,
        d > 0,
        k % p == 0,
        p % d == 0,
    ensures
        k % d == 0,
{
    lemma_fundamental_div_mod(k, p);
    lemma_fundamental_div_mod(p, d);
    let a = k / p;
    let b = p / d;
    assert(k == (a * b) * d) by (nonlinear_arith)
        requires
            k == p * a,
            p == d * b,
    ;
    lemma_mod_multiples_basic(a * b, d);
}

/// Between two consecutive multiples of `p` there is no multiple of `p`.
proof fn lemma_no_multiple_between(m: int, p: int, k: int)
    requires
        p > 0,
        m % p == 0,
        m < k < m + p,
    ensures
        k % p != 0,
{
    lemma_fundamental_div_mod(m, p);
    lemma_fundamental_div_mod(k, p);
    if k % p == 0 {
        let a = m / p;
        let b = k / p;
        assert(false) by (nonlinear_arith)
            requires
                m == p * a,
                k == p * b,
                m < k < m + p,
                p > 0,
        ;
    }
}

/// Sieve of Eratosthenes over `0..=n`: entry `k` is `true` exactly when `k`
/// is not prime (so 0 and 1 are marked too).
pub fn sieve_composites(n: usize) -> (composite: Vec<bool>)
    requires
        2 * n <= usize::MAX,
    ensures
        composite.len() == n + 1,
        forall|k: int| 0 <= k <= n ==> #[trigger] composite[k] == !is_prime_spec(k),
{
    let mut composite: Vec<bool> = Vec::new();
    let mut i: usize = 0;
    while i <= n
        invariant
            i <= n + 1,
            2 * n <= usize::MAX,
            composite.len() == i,
            forall|k: int| 0 <= k < i ==> #[trigger] composite[k] == (k < 2),
        decreases n + 1 - i,
    {
        composite.push(i < 2);
        i = i + 1;
    }
    let mut p: usize = 2;
    while p <= n
        invariant
            2 <= p <= n + 2,
            2 * n <= usize::MAX,
            composite.len() == n + 1,
            forall|k: int| 0 <= k <= n ==> #[trigger] composite[k] == (k < 2 || has_divisor_below(k, p as int)),
        decreases n + 2 - p,
    {
        let ghost before = composite@;
        if !composite[p] {
            proof {
                lemma_mod_multiples_basic(2, p as int);
                lemma_mod_multiples_basic(1, p as int);
                assert forall|k: int| 0 <= k <= n implies #[trigger] composite[k] == (before[k] || (p < k < 2 * p
                    && k % p as int == 0)) by {
                    if p < k < 2 * p {
                        lemma_no_multiple_between(p as int, p as int, k);
                    }
                }
            }
            let mut m = p * 2;
            while m <= n
                invariant
                    2 <= p <= n,
                    2 * n <= usize::MAX,
                    2 * p <= m <= n + p,
                    m % p == 0,
                    composite.len() == n + 1,
                    forall|k: int| 0 <= k <= n ==> #[trigger] composite[k] == (before[k] || (p < k < m && k % p as int == 0)),
                decreases n + p - m,
            {
                composite.set(m, true);
                proof {
                    assert forall|k: int| 0 <= k <= n implies #[trigger] composite[k] == (before[k] || (p < k < m + p
                        && k % p as int == 0)) by {
                        if m < k < m + p {
                            lemma_no_multiple_between(m as int, p as int, k);
                        }
                        if k == m {
                            assert(k % p as int == 0);
                        }
                    }
                    assert((m + p) as int % p as int == 0) by {
                        vstd::arithmetic::div_mod::lemma_mod_add_multiples_vanish(m as int, p as int);
                    }
                }
                m = m + p;
            }
            proof {
                assert forall|k: int| 0 <= k <= n implies #[trigger] composite[k] == (k < 2 || has_divisor_below(k, p + 1)) by {
                    if p < k && k % p as int == 0 {
                        assert(has_divisor_below(k, p + 1));
                    }
                    if has_divisor_below(k, p + 1) && !has_divisor_below(k, p as int) {
                        let d = choose|d: int| 2 <= d < p + 1 && d < k && #[trigger] (k % d) == 0;
                        assert(d == p);
                    }
                }
            }
        } else {
            proof {
                assert(has_divisor_below(p as int, p as int));
                let d = choose|d: int| 2 <= d < p && d < p && #[trigger] (p as int % d) == 0;
                assert forall|k: int| 0 <= k <= n implies #[trigger] composite[k] == (k < 2 || has_divisor_below(k, p + 1)) by {
                    if p < k && k % p as int == 0 {
                        lemma_divides_trans(k, p as int, d);
                        assert(has_divisor_below(k, p as int));
                    }
                    if has_divisor_below(k, p + 1) && !has_divisor_below(k, p as int) {
                        let e = choose|e: int| 2 <= e < p + 1 && e < k && #[trigger] (k % e) == 0;
                        assert(e == p);
                        lemma_divides_trans(k, p as int, d);
                        assert(has_divisor_below(k, p as int));
                    }
                }
            }
        }
        p = p + 1;
    }
    proof {
        assert forall|k: int| 0 <= k <= n implies #[trigger] composite[k] == !is_prime_spec(k) by {
            if k >= 2 && has_divisor_below(k, p as int) {
                let d = choose|d: int| 2 <= d < p && d < k && #[trigger] (k % d) == 0;
                assert(!is_prime_spec(k));
            }
            if k >= 2 && !is_prime_spec(k) {
                let d = choose|d: int| 2 <= d < k && #[trigger] (k % d) != 0 == false;
                assert(has_divisor_below(k, p as int));
            }
        }
    }
    composite
}

/// Dot column of the `k`-th of `n` integers laid across `w` dot columns.
pub open spec fn integer_column(k: int, n: int, w: int) -> int {
    let x = (k - 1) * w / n;
    if x < w - 1 {
        x
    } else {
        w - 1
    }
}

/// Height in dots of a composite's tick: a quarter of the bar, at least one.
pub open spec fn sieve_tick(h: int) -> int {
    if h / 4 > 1 {
        h / 4
    } else {
        1
    }
}

/// Dot `(x, y)` is part of the mark of integer `k` in a sieve frame of
/// `w x h` dots over `n` integers: a full column for a prime, a bottom tick
/// for 1 and the composites.
pub open spec fn sieve_mark(k: int, n: int, w: int, h: int, x: int, y: int) -> bool {
    &&& x == integer_column(k, n, w)
    &&& 0 <= y < h
    &&& (is_prime_spec(k) || y >= h - sieve_tick(h))
}

/// The marks of integers `1..k` (exclusive) in a sieve frame.
pub open spec fn sieve_marks(n: int, w: int, h: int, k: int) -> spec_fn(int, int) -> bool {
    |x: int, y: int| exists|j: int| 1 <= j < k && #[trigger] sieve_mark(j, n, w, h, x, y)
}

proof fn lemma_column_bounds(k: int, n: int, w: int, m: int) by (nonlinear_arith)
    requires
        1 <= k <= m,
        m <= n,
        w >= 1,
    ensures
        0 <= (k - 1) * w <= (m - 1) * w,
        0 <= (k - 1) * w / n < w,
{
    assert((k - 1) * w <= (n - 1) * w);
    assert((k - 1) * w / n <= (n - 1) * w / n);
    assert((n - 1) * w < n * w);
}

impl Sieve {
    /// One frame of the sieve over the integers `1..=n`: the first
    /// `revealed` of them laid left to right across the dot width, each
    /// prime as a full column and every other integer as a bottom tick.
    pub fn draw(&self, grid: &mut BrailleGrid, n: usize, revealed: usize)
        requires
            old(grid)@.wf(),
            1 <= n,
            2 * n <= usize::MAX,
            revealed <= n,
            revealed == 0 || (revealed - 1) * old(grid)@.dot_width() <= usize::MAX,
        ensures
            old(grid)@.gains_dots(
                final(grid)@,
                sieve_marks(n as int, old(grid)@.dot_width() as int, old(grid)@.dot_height() as int, revealed + 1),
            ),
    {
        let ghost g0 = grid@;
        let (w, h) = draw::dot_dims(grid);
        let composite = sieve_composites(n);
        let tick = if h / 4 > 1 { h / 4 } else { 1 };
        proof {
            lemma_gains_nothing(g0, sieve_marks(n as int, w as int, h as int, 1));
        }
        let mut k: usize = 1;
        while k <= revealed
            invariant
                g0.wf(),
                w == g0.dot_width(),
                h == g0.dot_height(),
                w >= 2,
                h >= 4,
                tick == sieve_tick(h as int),
                1 <= n,
                revealed <= n,
                revealed == 0 || (revealed - 1) * w <= usize::MAX,
                composite.len() == n + 1,
                forall|j: int| 0 <= j <= n ==> #[trigger] composite[j] == !is_prime_spec(j),
                1 <= k <= revealed + 1,
                g0.gains_dots(grid@, sieve_marks(n as int, w as int, h as int, k as int)),
            decreases revealed + 1 - k,
        {
            proof {
                lemma_column_bounds(k as int, n as int, w as int, revealed as int);
            }
            let xx = (k - 1) * w / n;
            let x = if xx < w - 1 { xx } else { w - 1 };
            let lo = if composite[k] { h - tick } else { 0 };
            let ghost g1 = grid@;
            draw::vline(grid, x, lo, h - 1);
            proof {
                let before = sieve_marks(n as int, w as int, h as int, k as int);
                let after = sieve_marks(n as int, w as int, h as int, k + 1);
                let seg = |px: int, py: int| px == x && (if lo <= h - 1 { lo <= py <= h - 1 } else { h - 1 <= py <= lo });
                assert forall|px: int, py: int| g0.in_dots(px, py) implies (after(px, py) <==> (before(px, py) || seg(px, py))) by {
                    if after(px, py) {
                        let j = choose|j: int| 1 <= j < k + 1 && #[trigger] sieve_mark(j, n as int, w as int, h as int, px, py);
                        if j < k {
                            assert(before(px, py));
                        }
                    }
                    if seg(px, py) {
                        assert(sieve_mark(k as int, n as int, w as int, h as int, px, py));
                    }
                    if before(px, py) {
                        let j = choose|j: int| 1 <= j < k && #[trigger] sieve_mark(j, n as int, w as int, h as int, px, py);
                        assert(sieve_mark(j, n as int, w as int, h as int, px, py));
                    }
                }
                lemma_gains_trans(g0, g1, grid@, before, seg, after);
            }
            k = k + 1;
        }
    }
}

/// Where the Ulam walk stands after some steps: its offset from the centre,
/// its heading (0 right, 1 up, 2 left, 3 down), the length of the current
/// leg, the steps taken on it and the legs completed.
pub ghost struct UlamState {
    pub x: int,
    pub y: int,
    pub dir: int,
    pub leg: int,
    pub taken: int,
    pub legs: int,
}

/// One step of the walk: move one cell along the heading; at the end of a
/// leg turn left, and lengthen the legs after every second turn.
pub open spec fn ulam_advance(s: UlamState) -> UlamState {
    let nx = if s.dir == 0 { s.x + 1 } else if s.dir == 2 { s.x - 1 } else { s.x };
    let ny = if s.dir == 1 { s.y - 1 } else if s.dir == 3 { s.y + 1 } else { s.y };
    if s.taken + 1 == s.leg {
        let legs = s.legs + 1;
        UlamState {
            x: nx,
            y: ny,
            dir: (s.dir + 1) % 4,
            leg: if legs % 2 == 0 { s.leg + 1 } else { s.leg },
            taken: 0,
            legs,
        }
    } else {
        UlamState { x: nx, y: ny, taken: s.taken + 1, ..s }
    }
}

/// The walk after `i` steps, starting at the centre heading right with a
/// leg of one cell. Integer `i + 1` of the spiral sits where it stands.
pub open spec fn ulam_state(i: nat) -> UlamState
    decreases i,
{
    if i == 0 {
        UlamState { x: 0, y: 0, dir: 0, leg: 1, taken: 0, legs: 0 }
    } else {
        ulam_advance(ulam_state((i - 1) as nat))
    }
}

/// The walk stays within `i` cells of the centre after `i` steps, and its
/// counters stay in range.
pub proof fn lemma_ulam_bounds(i: nat)
    ensures
        0 <= ulam_state(i).dir < 4,
        1 <= ulam_state(i).leg <= i + 1,
        0 <= ulam_state(i).taken < ulam_state(i).leg,
        0 <= ulam_state(i).legs <= i,
        -(i as int) <= ulam_state(i).x <= i,
        -(i as int) <= ulam_state(i).y <= i,
    decreases i,
{
    if i > 0 {
        lemma_ulam_bounds((i - 1) as nat);
    }
}

/// Consecutive integers of the Ulam spiral sit in edge-adjacent cells.
pub proof fn lemma_ulam_adjacent(i: nat)
    ensures
        ({
            let a = ulam_state(i);
            let b = ulam_state(i + 1);
            (if a.x >= b.x { a.x - b.x } else { b.x - a.x }) + (if a.y >= b.y { a.y - b.y } else { b.y - a.y }) == 1
        }),
{
    lemma_ulam_bounds(i);
    assert(ulam_state(i + 1) == ulam_advance(ulam_state(i)));
}

/// Cells of the square spiral before leg `l`: legs `0, 1, 2, 3, ...` are
/// `1, 1, 2, 2, 3, 3, ...` cells long, so `n(n + 1)` cells precede leg `2n`
/// and `(n + 1)^2` precede leg `2n + 1`.
pub open spec fn spiral_before(l: int) -> int {
    let n = l / 2;
    if l % 2 == 0 { n * (n + 1) } else { (n + 1) * (n + 1) }
}

/// The number of the square-spiral cell `(x, y)`, counted from 0 at the
/// centre: the spiral winds right, up (decreasing `y`), left and down, each
/// ring one cell wider than the last. Every cell of the plane lies on
/// exactly one leg, read off its coordinates: the bottom edge `y = m`
/// (leg `4m`), the right edge `x = m + 1` (leg `4m + 1`), the top edge
/// `y = -(m + 1)` (leg `4m + 2`) or the left edge `x = -(m + 1)` (leg
/// `4m + 3`).
pub open spec fn spiral_index(x: int, y: int) -> int {
    if y >= 0 && -y <= x <= y {
        spiral_before(4 * y) + (x + y)
    } else if x >= 1 && -(x - 1) <= y <= x - 1 {
        spiral_before(4 * (x - 1) + 1) + (x - 1 - y)
    } else if y <= -1 && y + 1 <= x <= -y {
        spiral_before(4 * (-y - 1) + 2) + (-y - x)
    } else {
        spiral_before(4 * (-x - 1) + 3) + (y - x)
    }
}

proof fn lemma_spiral_before_step(l: int) by (nonlinear_arith)
    requires
        l >= 0,
    ensures
        spiral_before(l + 1) == spiral_before(l) + l / 2 + 1,
{
    let n = l / 2;
    if l % 2 == 0 {
        assert(l + 1 == 2 * n + 1);
        assert((l + 1) / 2 == n && (l + 1) % 2 == 1);
    } else {
        assert(l + 1 == 2 * (n + 1));
        assert((l + 1) / 2 == n + 1 && (l + 1) % 2 == 0);
    }
}

/// Where leg `l` of the square spiral starts: `(-m, m)`, `(m + 1, m)`,
/// `(m + 1, -(m + 1))` or `(-(m + 1), -(m + 1))` for `l = 4m + k`, `k` in
/// `0..4`.
pub open spec fn spiral_corner(l: int) -> (int, int) {
    let m = l / 4;
    let k = l % 4;
    if k == 0 {
        (-m, m)
    } else if k == 1 {
        (m + 1, m)
    } else if k == 2 {
        (m + 1, -(m + 1))
    } else {
        (-(m + 1), -(m + 1))
    }
}

/// The cell `t` steps along leg `l` from its start, heading right, up,
/// left or down as `l % 4` says.
pub open spec fn spiral_at(l: int, t: int) -> (int, int) {
    let c = spiral_corner(l);
    let k = l % 4;
    if k == 0 {
        (c.0 + t, c.1)
    } else if k == 1 {
        (c.0, c.1 - t)
    } else if k == 2 {
        (c.0 - t, c.1)
    } else {
        (c.0, c.1 + t)
    }
}

/// The walk after `i` steps is on leg `legs`, `taken` cells along it; leg
/// `l` is `l / 2 + 1` cells long, so the legs keep widening.
proof fn lemma_ulam_closed(i: nat)
    ensures
        ulam_state(i).legs >= 0,
        ulam_state(i).leg == ulam_state(i).legs / 2 + 1,
        ulam_state(i).dir == ulam_state(i).legs % 4,
        0 <= ulam_state(i).taken < ulam_state(i).leg,
        i == spiral_before(ulam_state(i).legs) + ulam_state(i).taken,
        (ulam_state(i).x, ulam_state(i).y) == spiral_at(ulam_state(i).legs, ulam_state(i).taken),
    decreases i,
{
    if i > 0 {
        let j = (i - 1) as nat;
        lemma_ulam_closed(j);
        let s = ulam_state(j);
        assert(ulam_state(i) == ulam_advance(s));
        let l = s.legs;
        lemma_spiral_before_step(l);
        let m = l / 4;
        if s.taken + 1 == s.leg {
            let l2 = l + 1;
            assert(l2 / 4 == (if l % 4 == 3 { m + 1 } else { m }));
            assert(l2 % 4 == (if l % 4 == 3 { 0 } else { l % 4 + 1 }));
            assert(l / 2 == 2 * m + (if l % 4 >= 2 { 1int } else { 0 }));
            assert(l2 / 2 == (if l % 2 == 1 { l / 2 + 1 } else { l / 2 }));
        }
    }
}

/// The Ulam walk is the square spiral: after `i` steps it stands on the
/// spiral cell numbered `i`.
pub proof fn lemma_ulam_spiral(i: nat)
    ensures
        spiral_index(ulam_state(i).x, ulam_state(i).y) == i,
{
    lemma_ulam_closed(i);
    let s = ulam_state(i);
    let l = s.legs;
    let t = s.taken;
    let m = l / 4;
    assert(l / 2 == 2 * m + (if l % 4 >= 2 { 1int } else { 0 }));
    if l % 4 == 0 {
        assert(4 * m == l);
    } else if l % 4 == 1 {
        assert(4 * m + 1 == l);
    } else if l % 4 == 2 {
        assert(4 * m + 2 == l);
    } else {
        assert(4 * m + 3 == l);
    }
}

/// No two integers of the Ulam spiral share a cell: the walk never comes
/// back to a cell it has left.
pub proof fn lemma_ulam_distinct(i: nat, j: nat)
    requires
        i != j,
    ensures
        (ulam_state(i).x, ulam_state(i).y) != (ulam_state(j).x, ulam_state(j).y),
{
    lemma_ulam_spiral(i);
    lemma_ulam_spiral(j);
}

/// The prime dots of an Ulam frame centred at `(cx, cy)`: integer `k` of
/// `1..end` (exclusive) is drawn where the walk stands after `k - 1` steps,
/// when `k` is prime.
pub open spec fn ulam_primes(cx: int, cy: int, end: int) -> spec_fn(int, int) -> bool {
    |x: int, y: int|
        exists|k: int|
            1 <= k < end && is_prime_spec(k) && x == cx + #[trigger] ulam_state((k - 1) as nat).x && y == cy
                + ulam_state((k - 1) as nat).y
}

impl UlamSpiral {
    /// One frame of the Ulam spiral: the integers `1..=revealed` walk out
    /// from the centre of the dot lattice, and each prime lights its dot.
    pub fn draw(&self, grid: &mut BrailleGrid, revealed: usize)
        requires
            old(grid)@.wf(),
            old(grid)@.dot_width() / 2 + revealed <= i32::MAX,
            old(grid)@.dot_height() / 2 + revealed <= i32::MAX,
        ensures
            old(grid)@.gains_dots(
                final(grid)@,
                ulam_primes(
                    old(grid)@.dot_width() as int / 2,
                    old(grid)@.dot_height() as int / 2,
                    revealed + 1,
                ),
            ),
    {
        let ghost g0 = grid@;
        let (w, h) = draw::dot_dims(grid);
        let cx = (w / 2) as i32;
        let cy = (h / 2) as i32;
        let ghost cxi = (w / 2) as int;
        let ghost cyi = (h / 2) as int;
        let mut x: i32 = 0;
        let mut y: i32 = 0;
        let mut dir: usize = 0;
        let mut steps_in_leg: usize = 1;
        let mut steps_taken: usize = 0;
        let mut leg_count: usize = 0;
        proof {
            lemma_gains_nothing(g0, ulam_primes(cxi, cyi, 1));
        }
        let mut n_i: usize = 1;
        while n_i <= revealed
            invariant
                g0.wf(),
                cx == cxi,
                cy == cyi,
                cxi + revealed <= i32::MAX,
                cyi + revealed <= i32::MAX,
                0 <= cxi,
                0 <= cyi,
                1 <= n_i <= revealed + 1,
                ({
                    let st = ulam_state((n_i - 1) as nat);
                    &&& x == st.x
                    &&& y == st.y
                    &&& dir == st.dir
                    &&& steps_in_leg == st.leg
                    &&& steps_taken == st.taken
                    &&& leg_count == st.legs
                }),
                g0.gains_dots(grid@, ulam_primes(cxi, cyi, n_i as int)),
            decreases revealed + 1 - n_i,
        {
            proof {
                lemma_ulam_bounds((n_i - 1) as nat);
                lemma_ulam_bounds(n_i as nat);
                assert(ulam_state(n_i as nat) == ulam_advance(ulam_state((n_i - 1) as nat)));
            }
            let px = cx + x;
            let py = cy + y;
            let ghost g1 = grid@;
            let prime = is_prime(n_i as u64);
            if prime {
                draw::dot_i(grid, px, py);
            }
            proof {
                let before = ulam_primes(cxi, cyi, n_i as int);
                let after = ulam_primes(cxi, cyi, n_i + 1);
                let st = ulam_state((n_i - 1) as nat);
                assert forall|qx: int, qy: int| g0.in_dots(qx, qy) implies (#[trigger] grid@.is_lit(qx, qy) <==> (g0.is_lit(qx, qy)
                    || after(qx, qy))) by {
                    if prime {
                        crate::grid::lemma_with_dot_lit(g1, px as int, py as int, qx, qy);
                    }
                    if after(qx, qy) {
                        let k = choose|k: int|
                            1 <= k < n_i + 1 && is_prime_spec(k) && qx == cxi + #[trigger] ulam_state((k - 1) as nat).x
                                && qy == cyi + ulam_state((k - 1) as nat).y;
                        if k < n_i {
                            assert(before(qx, qy));
                        }
                    }
                    if before(qx, qy) {
                        let k = choose|k: int|
                            1 <= k < n_i && is_prime_spec(k) && qx == cxi + #[trigger] ulam_state((k - 1) as nat).x
                                && qy == cyi + ulam_state((k - 1) as nat).y;
                        assert(after(qx, qy));
                    }
                    if prime && qx == px && qy == py {
                        assert(qx == cxi + ulam_state((n_i - 1) as nat).x);
                        assert(after(qx, qy));
                    }
                }
                if prime {
                    crate::grid::lemma_with_dot_lit(g1, px as int, py as int, 0, 0);
                }
            }
            if dir == 0 {
                x = x + 1;
            } else if dir == 2 {
                x = x - 1;
            } else if dir == 1 {
                y = y - 1;
            } else {
                y = y + 1;
            }
            steps_taken += 1;
            if steps_taken == steps_in_leg {
                steps_taken = 0;
                dir = (dir + 1) % 4;
                leg_count += 1;
                if leg_count % 2 == 0 {
                    steps_in_leg += 1;
                }
            }
            n_i = n_i + 1;
        }
    }
}

/// The prime-counting function: how many primes are at most `k`.
pub open spec fn prime_count(k: nat) -> nat
    decreases k,
{
    if k == 0 {
        0
    } else {
        prime_count((k - 1) as nat) + if is_prime_spec(k as int) { 1nat } else { 0nat }
    }
}

/// `pi(k)` for every `k` in `0..=n`.
pub fn prime_counts(n: usize) -> (counts: Vec<usize>)
    requires
        n < usize::MAX,
        n < 18446744065119617025u64,
    ensures
        counts.len() == n + 1,
        forall|k: int| 0 <= k <= n ==> #[trigger] counts[k] == prime_count(k as nat),
{
    let mut counts: Vec<usize> = Vec::new();
    counts.push(0);
    let mut pi: usize = 0;
    let mut k: usize = 1;
    while k <= n
        invariant
            1 <= k <= n + 1,
            n < usize::MAX,
            n < 18446744065119617025u64,
            counts.len() == k,
            pi == prime_count((k - 1) as nat),
            pi < k,
            forall|j: int| 0 <= j < k ==> #[trigger] counts[j] == prime_count(j as nat),
        decreases n + 1 - k,
    {
        if is_prime(k as u64) {
            pi += 1;
        }
        counts.push(pi);
        k = k + 1;
    }
    counts
}

/// `pi` never decreases and never exceeds its argument.
pub proof fn lemma_prime_count_monotone(j: nat, k: nat)
    requires
        j <= k,
    ensures
        prime_count(j) <= prime_count(k),
        prime_count(k) <= k,
    decreases k,
{
    if k > 0 {
        lemma_prime_count_monotone(if j < k { j } else { (k - 1) as nat }, (k - 1) as nat);
    }
}

/// Top dot row of the step for integer `k` in a prime-counting frame `h`
/// dots tall over `1..=n`: `pi(k)` scaled against `pi(n)`, and never below
/// the bottom row.
pub open spec fn counting_top(k: int, n: int, h: int) -> int {
    let pm = if prime_count(n as nat) > 1 { prime_count(n as nat) as int } else { 1 };
    let scaled = prime_count(k as nat) * h / pm;
    let bar = if scaled < h { scaled } else { h };
    if h - bar < h - 1 {
        h - bar
    } else {
        h - 1
    }
}

/// Dot `(x, y)` belongs to the step of integer `k` in a prime-counting frame.
pub open spec fn counting_mark(k: int, n: int, w: int, h: int, x: int, y: int) -> bool {
    &&& x == integer_column(k, n, w)
    &&& counting_top(k, n, h) <= y < h
}

/// The steps of integers `1..end` (exclusive) in a prime-counting frame.
pub open spec fn counting_marks(n: int, w: int, h: int, end: int) -> spec_fn(int, int) -> bool {
    |x: int, y: int| exists|k: int| 1 <= k < end && #[trigger] counting_mark(k, n, w, h, x, y)
}

proof fn lemma_scaled_bound(c: int, h: int, pm: int) by (nonlinear_arith)
    requires
        0 <= c,
        h >= 0,
        pm >= 1,
    ensures
        0 <= c * h / pm <= c * h,
{
}

impl PrimeCounting {
    /// One frame of the prime-counting curve over `1..=n`: for each of the
    /// first `revealed` integers a column rising to `pi(k)` scaled against
    /// `pi(n)`, plus a full-height scan line at column `scan_x` when it lies
    /// on the lattice.
    pub fn draw(&self, grid: &mut BrailleGrid, n: usize, revealed: usize, scan_x: usize)
        requires
            old(grid)@.wf(),
            1 <= n < usize::MAX,
            n < 18446744065119617025u64,
            revealed <= n,
            revealed == 0 || (revealed - 1) * old(grid)@.dot_width() <= usize::MAX,
            prime_count(revealed as nat) * old(grid)@.dot_height() <= usize::MAX,
        ensures
            old(grid)@.gains_dots(
                final(grid)@,
                |x: int, y: int|
                    counting_marks(n as int, old(grid)@.dot_width() as int, old(grid)@.dot_height() as int, revealed + 1)(x, y)
                        || (scan_x < old(grid)@.dot_width() && x == scan_x && 0 <= y < old(grid)@.dot_height()),
            ),
    {
        let ghost g0 = grid@;
        let (w, h) = draw::dot_dims(grid);
        let counts = prime_counts(n);
        let pi_max = if counts[n] > 1 { counts[n] } else { 1 };
        proof {
            lemma_gains_nothing(g0, counting_marks(n as int, w as int, h as int, 1));
        }
        let mut k: usize = 1;
        while k <= revealed
            invariant
                g0.wf(),
                w == g0.dot_width(),
                h == g0.dot_height(),
                w >= 2,
                h >= 4,
                1 <= n,
                revealed <= n,
                revealed == 0 || (revealed - 1) * w <= usize::MAX,
                prime_count(revealed as nat) * h <= usize::MAX,
                counts.len() == n + 1,
                forall|j: int| 0 <= j <= n ==> #[trigger] counts[j] == prime_count(j as nat),
                pi_max == (if prime_count(n as nat) > 1 { prime_count(n as nat) as int } else { 1 }),
                1 <= k <= revealed + 1,
                g0.gains_dots(grid@, counting_marks(n as int, w as int, h as int, k as int)),
            decreases revealed + 1 - k,
        {
            proof {
                lemma_column_bounds(k as int, n as int, w as int, revealed as int);
                lemma_prime_count_monotone(k as nat, revealed as nat);
                lemma_scaled_bound(prime_count(k as nat) as int, h as int, pi_max as int);
                assert(prime_count(k as nat) * h <= prime_count(revealed as nat) * h) by (nonlinear_arith)
                    requires
                        prime_count(k as nat) <= prime_count(revealed as nat),
                        h >= 0,
                ;
            }
            let xx = (k - 1) * w / n;
            let x = if xx < w - 1 { xx } else { w - 1 };
            let scaled = counts[k] * h / pi_max;
            let bar_h = if scaled < h { scaled } else { h };
            let y0 = h - bar_h;
            let ghost g1 = grid@;
            draw::vline(grid, x, y0, h - 1);
            proof {
                let before = counting_marks(n as int, w as int, h as int, k as int);
                let after = counting_marks(n as int, w as int, h as int, k + 1);
                let seg = |px: int, py: int| px == x && (if y0 <= h - 1 { y0 <= py <= h - 1 } else { h - 1 <= py <= y0 });
                assert forall|px: int, py: int| g0.in_dots(px, py) implies (after(px, py) <==> (before(px, py) || seg(px, py))) by {
                    if after(px, py) {
                        let j = choose|j: int| 1 <= j < k + 1 && #[trigger] counting_mark(j, n as int, w as int, h as int, px, py);
                        if j < k {
                            assert(before(px, py));
                        }
                    }
                    if seg(px, py) {
                        assert(counting_mark(k as int, n as int, w as int, h as int, px, py));
                    }
                    if before(px, py) {
                        let j = choose|j: int| 1 <= j < k && #[trigger] counting_mark(j, n as int, w as int, h as int, px, py);
                        assert(counting_mark(j, n as int, w as int, h as int, px, py));
                    }
                }
                lemma_gains_trans(g0, g1, grid@, before, seg, after);
            }
            k = k + 1;
        }
        let ghost g1 = grid@;
        if scan_x < w {
            draw::vline(grid, scan_x, 0, h - 1);
            proof {
                let before = counting_marks(n as int, w as int, h as int, revealed + 1);
                let seg = |px: int, py: int| px == scan_x && (if 0 <= h - 1 { 0 <= py <= h - 1 } else { h - 1 <= py <= 0 });
                lemma_gains_trans(
                    g0,
                    g1,
                    grid@,
                    before,
                    seg,
                    |x: int, y: int| before(x, y) || (scan_x < w && x == scan_x && 0 <= y < h),
                );
            }
        }
    }
}

/// Binomial coefficients by Pascal's rule.
pub open spec fn binomial(n: nat, k: nat) -> nat
    decreases n,
{
    if k == 0 {
        1
    } else if n == 0 {
        0
    } else {
        binomial((n - 1) as nat, (k - 1) as nat) + binomial((n - 1) as nat, k)
    }
}

/// Advances a Pascal row mod `modulus` in place, right to left:
/// `row[c] = (row[c] + row[c-1]) mod modulus` for every `c >= 1`.
pub fn pascal_next_row(row: &mut Vec<u64>, modulus: u64)
    requires
        modulus >= 1,
        modulus <= 0x8000_0000_0000_0000u64,
        forall|i: int| 0 <= i < old(row).len() ==> #[trigger] old(row)[i] < modulus,
    ensures
        final(row).len() == old(row).len(),
        final(row).len() > 0 ==> final(row)[0] == old(row)[0],
        forall|c: int| 1 <= c < old(row).len() ==> #[trigger] final(row)[c] == (old(row)[c] + old(row)[c - 1]) % (
        modulus as int),
        forall|i: int| 0 <= i < final(row).len() ==> #[trigger] final(row)[i] < modulus,
{
    let ghost start = row@;
    let len = row.len();
    let mut c = len;
    while c > 1
        invariant
            1 <= c <= len || (len == 0 && c == 0),
            row.len() == len,
            start.len() == len,
            modulus >= 1,
            modulus <= 0x8000_0000_0000_0000u64,
            forall|i: int| 0 <= i < len ==> #[trigger] start[i] < modulus,
            forall|j: int| 0 <= j < c ==> #[trigger] row[j] == start[j],
            forall|j: int| c <= j < len ==> #[trigger] row[j] == (start[j] + start[j - 1]) % (modulus as int),
        decreases c,
    {
        c = c - 1;
        let v = (row[c] + row[c - 1]) % modulus;
        row.set(c, v);
    }
    proof {
        assert forall|i: int| 0 <= i < len implies #[trigger] row[i] < modulus by {
            if i >= 1 && i >= c {
                assert(row[i] == (start[i] + start[i - 1]) % (modulus as int));
            }
        }
    }
}

/// One Pascal step mod `m` takes row `r` of binomial coefficients mod `m`
/// to row `r + 1`.
pub proof fn lemma_pascal_step_binomial(old_row: Seq<u64>, new_row: Seq<u64>, r: nat, m: int)
    requires
        m >= 1,
        new_row.len() == old_row.len(),
        old_row.len() > 0 ==> new_row[0] == old_row[0],
        forall|c: int| 1 <= c < old_row.len() ==> #[trigger] new_row[c] == (old_row[c] + old_row[c - 1]) % m,
        forall|c: int| 0 <= c < old_row.len() ==> #[trigger] old_row[c] == binomial(r, c as nat) as int % m,
    ensures
        forall|c: int| 0 <= c < new_row.len() ==> #[trigger] new_row[c] == binomial(r + 1, c as nat) as int % m,
{
    assert forall|c: int| 0 <= c < new_row.len() implies #[trigger] new_row[c] == binomial(r + 1, c as nat) as int % m by {
        if c == 0 {
            assert(old_row[0] == binomial(r, 0) as int % m);
        } else {
            let a = binomial(r, c as nat) as int;
            let b = binomial(r, (c - 1) as nat) as int;
            assert(old_row[c] == a % m);
            assert(old_row[c - 1] == b % m);
            lemma_add_mod_noop(a, b, m);
            assert(binomial(r + 1, c as nat) == binomial(r, (c - 1) as nat) + binomial(r, c as nat));
        }
    }
}

/// The first Pascal row, `[1, 0, 0, ...]`, is row 0 of the binomial
/// coefficients mod any modulus above 1.
pub proof fn lemma_pascal_first_row(row: Seq<u64>, m: int)
    requires
        m >= 2,
        row.len() > 0,
        row[0] == 1,
        forall|c: int| 1 <= c < row.len() ==> #[trigger] row[c] == 0,
    ensures
        forall|c: int| 0 <= c < row.len() ==> #[trigger] row[c] == binomial(0, c as nat) as int % m,
{
    assert forall|c: int| 0 <= c < row.len() implies #[trigger] row[c] == binomial(0, c as nat) as int % m by {
        if c == 0 {
            assert(1int % m == 1) by {
                vstd::arithmetic::div_mod::lemma_small_mod(1, m as nat);
            }
        } else {
            assert(binomial(0, c as nat) == 0);
            assert(0int % m == 0) by {
                vstd::arithmetic::div_mod::lemma_small_mod(0, m as nat);
            }
        }
    }
}

/// Entries of row `r` of a Pascal frame whose rows hold `row_len` numbers.
pub open spec fn pascal_entries(r: int, row_len: int) -> int {
    if r + 1 < row_len {
        r + 1
    } else {
        row_len
    }
}

/// Dot column of entry `c` of a row of `e` entries spread over `w` columns.
pub open spec fn pascal_column(c: int, e: int, w: int) -> int {
    if e <= 1 {
        w / 2
    } else {
        c * (w - 1) / (e - 1)
    }
}

/// Dot `(x, y)` shows entry `c` of row `r` of Pascal's triangle mod `m`:
/// the entry is not divisible by `m` and sits at row `r`, spread across the
/// `w` dot columns.
pub open spec fn pascal_mark(r: int, c: int, m: int, w: int, row_len: int, x: int, y: int) -> bool {
    &&& 0 <= r
    &&& 0 <= c < pascal_entries(r, row_len)
    &&& binomial(r as nat, c as nat) as int % m != 0
    &&& x == pascal_column(c, pascal_entries(r, row_len), w)
    &&& y == r
}

/// The marks of the rows before `rows`, and of the first `cols` entries of
/// row `rows`.
pub open spec fn pascal_marks(m: int, w: int, row_len: int, rows: int, cols: int) -> spec_fn(int, int) -> bool {
    |x: int, y: int|
        exists|r: int, c: int|
            (r < rows || (r == rows && c < cols)) && #[trigger] pascal_mark(r, c, m, w, row_len, x, y)
}

/// Row width of a Pascal frame `w` dots wide: at most 512 entries.
pub open spec fn pascal_row_len(w: int) -> int {
    if w < 512 {
        w
    } else {
        512
    }
}

proof fn lemma_pascal_column_bound(c: int, e: int, w: int, lim: int) by (nonlinear_arith)
    requires
        2 <= e,
        0 <= c < e,
        e <= lim,
        w >= 1,
        (lim - 1) * (w - 1) <= usize::MAX,
    ensures
        0 <= c * (w - 1) <= usize::MAX,
        0 <= c * (w - 1) / (e - 1) < w,
{
    assert(c * (w - 1) <= (e - 1) * (w - 1));
    assert((e - 1) * (w - 1) <= (lim - 1) * (w - 1));
    assert(c * (w - 1) / (e - 1) <= (e - 1) * (w - 1) / (e - 1));
}

impl PascalMod {
    /// One frame of Pascal's triangle mod `modulus`: rows `0..rows` from the
    /// top, each row's entries (at most 512) spread across the dot width, a
    /// dot for every entry not divisible by the modulus.
    pub fn draw(&self, grid: &mut BrailleGrid, modulus: u64, rows: usize)
        requires
            old(grid)@.wf(),
            2 <= modulus <= 0x8000_0000_0000_0000u64,
            rows <= old(grid)@.dot_height(),
            (pascal_row_len(old(grid)@.dot_width() as int) - 1) * (old(grid)@.dot_width() - 1) <= usize::MAX,
        ensures
            old(grid)@.gains_dots(
                final(grid)@,
                pascal_marks(
                    modulus as int,
                    old(grid)@.dot_width() as int,
                    pascal_row_len(old(grid)@.dot_width() as int),
                    rows as int,
                    0,
                ),
            ),
    {
        let ghost g0 = grid@;
        let (w, h) = draw::dot_dims(grid);
        let row_len = if w < 512 { w } else { 512 };
        let ghost m = modulus as int;
        let mut row: Vec<u64> = Vec::new();
        let mut i: usize = 0;
        while i < row_len
            invariant
                i <= row_len,
                row.len() == i,
                forall|c: int| 0 <= c < i ==> #[trigger] row[c] == (if c == 0 { 1u64 } else { 0u64 }),
            decreases row_len - i,
        {
            row.push(if i == 0 { 1 } else { 0 });
            i = i + 1;
        }
        proof {
            lemma_pascal_first_row(row@, m);
            lemma_gains_nothing(g0, pascal_marks(m, w as int, row_len as int, 0, 0));
        }
        let mut r: usize = 0;
        while r < rows
            invariant
                g0.wf(),
                w == g0.dot_width(),
                w >= 2,
                row_len == pascal_row_len(w as int),
                2 <= row_len <= 512,
                m == modulus,
                2 <= modulus <= 0x8000_0000_0000_0000u64,
                (row_len - 1) * (w - 1) <= usize::MAX,
                r <= rows,
                rows <= g0.dot_height(),
                row.len() == row_len,
                forall|c: int| 0 <= c < row_len ==> #[trigger] row[c] == binomial(r as nat, c as nat) as int % m,
                g0.gains_dots(grid@, pascal_marks(m, w as int, row_len as int, r as int, 0)),
            decreases rows - r,
        {
            let entries = if r + 1 < row_len { r + 1 } else { row_len };
            let mut c: usize = 0;
            while c < entries
                invariant
                    g0.wf(),
                    w == g0.dot_width(),
                    w >= 2,
                    row_len == pascal_row_len(w as int),
                    2 <= row_len <= 512,
                    m == modulus,
                    2 <= modulus,
                    (row_len - 1) * (w - 1) <= usize::MAX,
                    r < rows,
                    entries == pascal_entries(r as int, row_len as int),
                    1 <= entries <= row_len,
                    c <= entries,
                    row.len() == row_len,
                    forall|j: int| 0 <= j < row_len ==> #[trigger] row[j] == binomial(r as nat, j as nat) as int % m,
                    g0.gains_dots(grid@, pascal_marks(m, w as int, row_len as int, r as int, c as int)),
                decreases entries - c,
            {
                let ghost before = pascal_marks(m, w as int, row_len as int, r as int, c as int);
                let ghost after = pascal_marks(m, w as int, row_len as int, r as int, c + 1);
                if row[c] % modulus != 0 {
                    let x = if entries <= 1 {
                        w / 2
                    } else {
                        proof {
                            lemma_pascal_column_bound(c as int, entries as int, w as int, row_len as int);
                        }
                        c * (w - 1) / (entries - 1)
                    };
                    let ghost g1 = grid@;
                    draw::dot(grid, x, r);
                    proof {
                        assert(row[c as int] % modulus == row[c as int]) by {
                            vstd::arithmetic::div_mod::lemma_mod_twice(binomial(r as nat, c as nat) as int, m);
                        }
                        assert forall|px: int, py: int| g0.in_dots(px, py) implies (after(px, py) <==> (before(px, py) || (
                        px == x && py == r))) by {
                            if after(px, py) {
                                let (rr, cc) = choose|rr: int, cc: int|
                                    (rr < r || (rr == r && cc < c + 1)) && #[trigger] pascal_mark(rr, cc, m, w as int, row_len as int, px, py);
                                if rr < r || cc < c {
                                    assert(before(px, py));
                                }
                            }
                            if before(px, py) {
                                let (rr, cc) = choose|rr: int, cc: int|
                                    (rr < r || (rr == r && cc < c)) && #[trigger] pascal_mark(rr, cc, m, w as int, row_len as int, px, py);
                                assert(pascal_mark(rr, cc, m, w as int, row_len as int, px, py));
                            }
                            if px == x && py == r {
                                assert(pascal_mark(r as int, c as int, m, w as int, row_len as int, px, py));
                            }
                        }
                        crate::grid::lemma_gains_dot(g0, g1, x as int, r as int, before, after);
                    }
                } else {
                    proof {
                        assert(row[c as int] % modulus == row[c as int]) by {
                            vstd::arithmetic::div_mod::lemma_mod_twice(binomial(r as nat, c as nat) as int, m);
                        }
                        assert forall|px: int, py: int| g0.in_dots(px, py) implies (after(px, py) <==> before(px, py)) by {
                            if after(px, py) {
                                let (rr, cc) = choose|rr: int, cc: int|
                                    (rr < r || (rr == r && cc < c + 1)) && #[trigger] pascal_mark(rr, cc, m, w as int, row_len as int, px, py);
                                if rr < r || cc < c {
                                    assert(before(px, py));
                                }
                            }
                            if before(px, py) {
                                let (rr, cc) = choose|rr: int, cc: int|
                                    (rr < r || (rr == r && cc < c)) && #[trigger] pascal_mark(rr, cc, m, w as int, row_len as int, px, py);
                                assert(pascal_mark(rr, cc, m, w as int, row_len as int, px, py));
                            }
                        }
                    }
                }
                c = c + 1;
            }
            let ghost old_row = row@;
            proof {
                assert forall|j: int| 0 <= j < row_len implies #[trigger] row[j] < modulus by {
                    vstd::arithmetic::div_mod::lemma_mod_bound(binomial(r as nat, j as nat) as int, m);
                }
            }
            pascal_next_row(&mut row, modulus);
            proof {
                lemma_pascal_step_binomial(old_row, row@, r as nat, m);
                let cur = pascal_marks(m, w as int, row_len as int, r as int, entries as int);
                let next = pascal_marks(m, w as int, row_len as int, r + 1, 0);
                assert forall|px: int, py: int| g0.in_dots(px, py) implies (#[trigger] grid@.is_lit(px, py) <==> (g0.is_lit(px, py)
                    || next(px, py))) by {
                    if cur(px, py) {
                        let (rr, cc) = choose|rr: int, cc: int|
                            (rr < r || (rr == r && cc < entries)) && #[trigger] pascal_mark(rr, cc, m, w as int, row_len as int, px, py);
                        assert(pascal_mark(rr, cc, m, w as int, row_len as int, px, py));
                    }
                    if next(px, py) {
                        let (rr, cc) = choose|rr: int, cc: int|
                            (rr < r + 1 || (rr == r + 1 && cc < 0)) && #[trigger] pascal_mark(rr, cc, m, w as int, row_len as int, px, py);
                        assert(cur(px, py));
                    }
                }
            }
            r = r + 1;
        }
    }
}

/// Fibonacci numbers: 0, 1, 1, 2, 3, 5, ...
pub open spec fn fib(n: nat) -> nat
    decreases n,
{
    if n == 0 {
        0
    } else if n == 1 {
        1
    } else {
        fib((n - 2) as nat) + fib((n - 1) as nat)
    }
}

proof fn lemma_fib_monotone(i: nat, j: nat)
    requires
        i <= j,
    ensures
        fib(i) <= fib(j),
    decreases j,
{
    if i < j {
        lemma_fib_monotone(i, (j - 1) as nat);
        if j >= 2 {
            assert(fib(j) == fib((j - 2) as nat) + fib((j - 1) as nat));
        }
    }
}

/// Cassini's identity: `F(n+2) F(n) - F(n+1)^2 = (-1)^(n+1)`.
pub proof fn lemma_cassini(n: nat)
    ensures
        fib(n + 2) * fib(n) - fib(n + 1) * fib(n + 1) == (if n % 2 == 0 { -1int } else { 1int }),
    decreases n,
{
    if n > 0 {
        lemma_cassini((n - 1) as nat);
        let a = fib((n - 1) as nat) as int;
        let b = fib(n) as int;
        let c = fib(n + 1) as int;
        let d = fib(n + 2) as int;
        assert(c == a + b);
        assert(d == b + c);
        assert(d * b - c * c == -(c * a - b * b)) by (nonlinear_arith)
            requires
                c == a + b,
                d == b + c,
        ;
        let m = (n - 1) as nat;
        assert(m + 2 == n + 1 && m + 1 == n);
        assert(c * a - b * b == (if m % 2 == 0 { -1int } else { 1int }));
        assert((m % 2 == 0) == (n % 2 == 1));
        assert(d * b - c * c == (if n % 2 == 0 { -1int } else { 1int }));
        assert(fib(n + 2) * fib(n) - fib(n + 1) * fib(n + 1) == d * b - c * c);
    } else {
        assert(fib(0) == 0);
        assert(fib(1) == 1);
        assert(fib(2) == 1);
        assert(fib(n + 2) * fib(n) - fib(n + 1) * fib(n + 1) == -1) by (nonlinear_arith)
            requires
                n == 0,
                fib(n + 2) == 1,
                fib(n) == 0,
                fib(n + 1) == 1,
        ;
    }
}

/// Consecutive convergents `F(k+1)/F(k+2)` and `F(k+2)/F(k+3)` of the
/// golden ratio's continued fraction straddle their limit: their cross
/// difference `p(k+1) q(k) - p(k) q(k+1)` alternates between -1 and +1.
pub proof fn lemma_convergents_alternate(k: nat)
    ensures
        fib(k + 2) * fib(k + 2) - fib(k + 1) * fib(k + 3) == (if k % 2 == 0 { -1int } else { 1int }),
{
    lemma_cassini(k + 1);
    assert(fib(k + 3) * fib(k + 1) == fib(k + 1) * fib(k + 3)) by (nonlinear_arith);
}

/// Fibonacci side lengths for the golden spiral: `1, 1, 2, 3, 5, ...`
/// grown until one reaches `max_dim`, and never more than 21 of them.
pub fn spiral_fibs(max_dim: usize) -> (fibs: Vec<usize>)
    ensures
        2 <= fibs.len() <= 21,
        forall|i: int| 0 <= i < fibs.len() ==> #[trigger] fibs[i] == fib((i + 1) as nat),
        forall|i: int| 1 <= i < fibs.len() - 1 ==> #[trigger] fibs[i] < max_dim,
        fibs.len() == 21 || fibs[fibs.len() - 1] >= max_dim,
{
    let mut fibs: Vec<usize> = Vec::new();
    fibs.push(1);
    fibs.push(1);
    proof {
        reveal_with_fuel(fib, 3);
        lemma_fib_monotone(1, 20);
        lemma_fib_monotone(2, 20);
    }
    while fibs[fibs.len() - 1] < max_dim
        invariant
            2 <= fibs.len() <= 20,
            forall|i: int| 0 <= i < fibs.len() ==> #[trigger] fibs[i] == fib((i + 1) as nat),
            forall|i: int| 1 <= i < fibs.len() - 1 ==> #[trigger] fibs[i] < max_dim,
            forall|i: int| 0 <= i < fibs.len() ==> #[trigger] fibs[i] <= fib(20),
        decreases 21 - fibs.len(),
    {
        let n = fibs.len();
        proof {
            lemma_fib_monotone((n + 1) as nat, 21);
            assert(fib(21) == fib(19) + fib(20));
            lemma_fib_fits_20();
        }
        let next = fibs[n - 1] + fibs[n - 2];
        fibs.push(next);
        if fibs.len() > 20 {
            return fibs;
        }
        proof {
            lemma_fib_monotone((n + 1) as nat, 20);
        }
    }
    fibs
}

proof fn lemma_fib_fits_20()
    ensures
        fib(20) <= 6765,
        fib(19) <= 4181,
{
    assert(fib(0) == 0);
    assert(fib(1) == 1);
    assert(fib(2) == 1);
    assert(fib(3) == 2);
    assert(fib(4) == 3);
    assert(fib(5) == 5);
    assert(fib(6) == 8);
    assert(fib(7) == 13);
    assert(fib(8) == 21);
    assert(fib(9) == 34);
    assert(fib(10) == 55);
    assert(fib(11) == 89);
    assert(fib(12) == 144);
    assert(fib(13) == 233);
    assert(fib(14) == 377);
    assert(fib(15) == 610);
    assert(fib(16) == 987);
    assert(fib(17) == 1597);
    assert(fib(18) == 2584);
    assert(fib(19) == 4181);
    assert(fib(20) == 6765);
}

/// Convergents `p/q` of the continued fraction `[1; 1, 1, ...]` (ratios of
/// consecutive Fibonacci numbers), at most `limit` of them, stopping after
/// the last whose terms stay within one million.
pub fn phi_convergents(limit: usize) -> (conv: Vec<(u64, u64)>)
    ensures
        conv.len() <= limit,
        forall|k: int| 0 <= k < conv.len() ==> #[trigger] conv[k] == (fib((k + 1) as nat) as u64, fib((k + 2) as nat) as u64),
        forall|k: int| 0 <= k < conv.len() ==> #[trigger] conv[k].1 <= 1_000_000,
        conv.len() == limit || fib((conv.len() + 2) as nat) > 1_000_000,
{
    proof {
        reveal_with_fuel(fib, 3);
    }
    let mut conv: Vec<(u64, u64)> = Vec::new();
    let mut p_prev: u64 = 0;
    let mut p_curr: u64 = 1;
    let mut q_prev: u64 = 1;
    let mut q_curr: u64 = 1;
    let mut k: usize = 0;
    while k < limit
        invariant
            k <= limit,
            conv.len() == k,
            p_prev == fib(k as nat),
            p_curr == fib((k + 1) as nat),
            q_prev == fib((k + 1) as nat),
            q_curr == fib((k + 2) as nat),
            p_curr <= 1_000_000,
            q_curr <= 1_000_000,
            forall|j: int| 0 <= j < k ==> #[trigger] conv[j] == (fib((j + 1) as nat) as u64, fib((j + 2) as nat) as u64),
            forall|j: int| 0 <= j < k ==> #[trigger] conv[j].1 <= 1_000_000,
        decreases limit - k,
    {
        proof {
            lemma_fib_monotone(k as nat, (k + 1) as nat);
            lemma_fib_monotone((k + 1) as nat, (k + 2) as nat);
        }
        conv.push((p_curr, q_curr));
        let p_new = p_curr + p_prev;
        let q_new = q_curr + q_prev;
        p_prev = p_curr;
        p_curr = p_new;
        q_prev = q_curr;
        q_curr = q_new;
        proof {
            assert(fib((k + 2) as nat) == fib(k as nat) + fib((k + 1) as nat));
            assert(fib((k + 3) as nat) == fib((k + 1) as nat) + fib((k + 2) as nat));
            lemma_fib_monotone((k + 2) as nat, (k + 3) as nat);
        }
        k = k + 1;
        if p_curr > 1_000_000 || q_curr > 1_000_000 {
            return conv;
        }
    }
    conv
}

/// Recamán's rule: from the last term `prev` at step `n`, go back to
/// `prev - n` when that is positive and new, else forward to `prev + n`.
pub open spec fn recaman_next(s: Seq<int>, n: int) -> int {
    let prev = s.last();
    let back = if prev >= n { prev - n } else { 0 };
    if back > 0 && !s.contains(back) {
        back
    } else {
        prev + n
    }
}

/// The first `n + 1` terms of Recamán's sequence.
pub open spec fn recaman_spec(n: nat) -> Seq<int>
    decreases n,
{
    if n == 0 {
        seq![0int]
    } else {
        let s = recaman_spec((n - 1) as nat);
        s.push(recaman_next(s, n as int))
    }
}

/// Each step of Recamán's sequence jumps by its index: back from the
/// previous term when that lands on a new positive number, else forward.
pub proof fn lemma_recaman_step(n: nat)
    requires
        n >= 1,
    ensures
        recaman_spec(n).len() == n + 1,
        recaman_spec(n)[n as int] == recaman_spec((n - 1) as nat)[n - 1] - n
            || recaman_spec(n)[n as int] == recaman_spec((n - 1) as nat)[n - 1] + n,
        recaman_spec(n)[n as int] >= 0,
    decreases n,
{
    lemma_recaman_len(n);
    lemma_recaman_len((n - 1) as nat);
    let s = recaman_spec((n - 1) as nat);
    assert(recaman_spec(n) == s.push(recaman_next(s, n as int)));
    if n >= 2 {
        lemma_recaman_step((n - 1) as nat);
    }
}

/// Recamán's sequence up to `n` has `n + 1` terms.
proof fn lemma_recaman_len(n: nat)
    ensures
        recaman_spec(n).len() == n + 1,
    decreases n,
{
    if n > 0 {
        lemma_recaman_len((n - 1) as nat);
    }
}

/// Recamán's sequence `a(0) = 0, a(1), ...`: `max(max_terms, 1)` terms.
pub fn recaman(max_terms: usize) -> (seq: Vec<usize>)
    requires
        max_terms * max_terms <= usize::MAX,
    ensures
        seq.len() == (if max_terms == 0 { 1 } else { max_terms }),
        seq@.map_values(|v: usize| v as int) == recaman_spec((seq.len() - 1) as nat),
{
    broadcast use vstd::std_specs::hash::group_hash_axioms;
    let mut seq: Vec<usize> = Vec::new();
    seq.push(0);
    let mut seen: HashSet<usize> = HashSet::new();
    seen.insert(0);
    proof {
        assert(seq@.map_values(|v: usize| v as int) =~= recaman_spec(0));
        assert forall|v: usize| #[trigger] seen@.contains(v) <==> seq@.contains(v) by {
            if v == 0 {
                assert(seq@[0] == 0);
            }
        }
    }
    let mut n: usize = 1;
    while n < max_terms
        invariant
            1 <= n,
            n <= max_terms || n == 1,
            max_terms * max_terms <= usize::MAX,
            seq.len() == n,
            seq@.map_values(|v: usize| v as int) == recaman_spec((n - 1) as nat),
            forall|v: usize| #[trigger] seen@.contains(v) <==> seq@.contains(v),
            forall|i: int| 0 <= i < n ==> #[trigger] seq[i] <= n * n,
        decreases max_terms - n,
    {
        let ghost s = seq@.map_values(|v: usize| v as int);
        let ghost old_seq = seq@;
        let prev = seq[n - 1];
        let candidate = prev.saturating_sub(n);
        proof {
            assert(s.last() == prev as int);
            assert(s.contains(candidate as int) <==> seq@.contains(candidate)) by {
                if s.contains(candidate as int) {
                    let i = choose|i: int| 0 <= i < s.len() && s[i] == candidate as int;
                    assert(seq@[i] == candidate);
                }
                if seq@.contains(candidate) {
                    let i = choose|i: int| 0 <= i < seq@.len() && seq@[i] == candidate;
                    assert(s[i] == candidate as int);
                }
            }
            assert((n + 1) * (n + 1) <= max_terms * max_terms) by (nonlinear_arith)
                requires
                    n + 1 <= max_terms,
            ;
            assert(n * n + n <= (n + 1) * (n + 1)) by (nonlinear_arith);
        }
        let next = if candidate > 0 && !seen.contains(&candidate) {
            candidate
        } else {
            prev + n
        };
        seq.push(next);
        seen.insert(next);
        proof {
            assert(seq@.map_values(|v: usize| v as int) =~= s.push(recaman_next(s, n as int)));
            assert(seq@ == old_seq.push(next));
            assert forall|v: usize| #[trigger] seen@.contains(v) implies seq@.contains(v) by {
                if v == next {
                    assert(seq@[n as int] == next);
                } else {
                    assert(old_seq.contains(v));
                    let i = choose|i: int| 0 <= i < old_seq.len() && old_seq[i] == v;
                    assert(seq@[i] == v);
                }
            }
            assert forall|v: usize| #[trigger] seq@.contains(v) implies seen@.contains(v) by {
                let i = choose|i: int| 0 <= i < seq@.len() && seq@[i] == v;
                if i < n {
                    assert(old_seq[i] == v);
                    assert(old_seq.contains(v));
                }
            }
            assert forall|i: int| 0 <= i < n + 1 implies #[trigger] seq[i] <= (n + 1) * (n + 1) by {
                if i < n {
                    assert(seq[i] <= n * n);
                }
            }
        }
        n = n + 1;
    }
    seq
}

/// `a` is smaller than `b` as a fraction `numerator / denominator`.
pub open spec fn frac_lt(a: (usize, usize), b: (usize, usize)) -> bool {
    (a.0 as int) * (b.1 as int) < (b.0 as int) * (a.1 as int)
}

/// `a` and `b` are the same fraction.
pub open spec fn frac_eq(a: (usize, usize), b: (usize, usize)) -> bool {
    (a.0 as int) * (b.1 as int) == (b.0 as int) * (a.1 as int)
}

/// `p / q` is a member of the Farey sequence of order `n`: a fraction in
/// `[0, 1]` in lowest terms with denominator at most `n` (0 written 0/1).
pub open spec fn farey_member(p: int, q: int, n: int) -> bool {
    &&& 1 <= q <= n
    &&& 0 <= p <= q
    &&& (gcd_spec(p as nat, q as nat) == 1 || (p == 0 && q == 1))
}

proof fn lemma_frac_trans(a: (usize, usize), b: (usize, usize), c: (usize, usize))
    requires
        a.1 > 0,
        b.1 > 0,
        c.1 > 0,
        frac_lt(a, b),
        frac_lt(b, c) || frac_eq(b, c),
    ensures
        frac_lt(a, c),
{
    let (a0, a1, b0, b1, c0, c1) = (a.0 as int, a.1 as int, b.0 as int, b.1 as int, c.0 as int, c.1 as int);
    assert(a0 * c1 < c0 * a1) by (nonlinear_arith)
        requires
            a1 > 0,
            b1 > 0,
            c1 > 0,
            a0 >= 0,
            b0 >= 0,
            c0 >= 0,
            a0 * b1 < b0 * a1,
            b0 * c1 <= c0 * b1,
    ;
}

/// The Farey sequence `F_n`: every fraction `p / q` in `[0, 1]` in lowest
/// terms with `q <= n`, in strictly increasing order.
pub fn farey_fractions(n: usize) -> (fracs: Vec<(usize, usize)>)
    requires
        n * n <= usize::MAX,
    ensures
        forall|i: int, j: int| 0 <= i < j < fracs.len() ==> frac_lt(#[trigger] fracs[i], #[trigger] fracs[j]),
        forall|i: int| 0 <= i < fracs.len() ==> farey_member(#[trigger] fracs[i].0 as int, fracs[i].1 as int, n as int),
        forall|p: int, q: int| #[trigger] farey_member(p, q, n as int) ==> exists|i: int| 0 <= i < fracs.len() && frac_eq(#[trigger] fracs[i], (p as usize, q as usize)),
{
    let mut fracs: Vec<(usize, usize)> = Vec::new();
    proof {
        assert(n < usize::MAX) by (nonlinear_arith)
            requires
                n * n <= usize::MAX,
        ;
    }
    let mut q: usize = 1;
    while q <= n
        invariant
            1 <= q <= n + 1,
            n < usize::MAX,
            n * n <= usize::MAX,
            forall|i: int, j: int| 0 <= i < j < fracs.len() ==> frac_lt(#[trigger] fracs[i], #[trigger] fracs[j]),
            forall|i: int| 0 <= i < fracs.len() ==> farey_member(#[trigger] fracs[i].0 as int, fracs[i].1 as int, n as int),
            forall|a: int, b: int| #[trigger] farey_member(a, b, n as int) && b < q ==> exists|i: int| 0 <= i < fracs.len() && frac_eq(#[trigger] fracs[i], (a as usize, b as usize)),
        decreases n + 1 - q,
    {
        let mut p: usize = 0;
        while p <= q
            invariant
                1 <= q <= n,
                n < usize::MAX,
                p <= q + 1,
                n * n <= usize::MAX,
                forall|i: int, j: int| 0 <= i < j < fracs.len() ==> frac_lt(#[trigger] fracs[i], #[trigger] fracs[j]),
                forall|i: int| 0 <= i < fracs.len() ==> farey_member(#[trigger] fracs[i].0 as int, fracs[i].1 as int, n as int),
                forall|a: int, b: int| #[trigger] farey_member(a, b, n as int) && (b < q || (b == q && a < p)) ==> exists|i: int| 0 <= i < fracs.len() && frac_eq(#[trigger] fracs[i], (a as usize, b as usize)),
            decreases q + 1 - p,
        {
            let ghost before = fracs@;
            if gcd(p, q) == 1 || (p == 0 && q == 1) {
                insert_fraction(&mut fracs, p, q, n);
                proof {
                    assert forall|a: int, b: int| #[trigger] farey_member(a, b, n as int) && (b < q || (b == q && a < p + 1)) implies exists|i: int| 0 <= i < fracs.len() && frac_eq(#[trigger] fracs[i], (a as usize, b as usize)) by {
                        if b < q || (b == q && a < p) {
                            let k = choose|k: int| 0 <= k < before.len() && frac_eq(#[trigger] before[k], (a as usize, b as usize));
                            assert(fracs@.contains(before[k]));
                            let j = choose|j: int| 0 <= j < fracs.len() && fracs@[j] == before[k];
                            assert(frac_eq(fracs[j], (a as usize, b as usize)));
                        }
                    }
                }
            }
            p = p + 1;
        }
        q = q + 1;
    }
    fracs
}

/// Inserts `p / q` into a strictly increasing list of fractions unless a
/// fraction of the same value is already there.
fn insert_fraction(fracs: &mut Vec<(usize, usize)>, p: usize, q: usize, n: usize)
    requires
        farey_member(p as int, q as int, n as int),
        n * n <= usize::MAX,
        forall|i: int, j: int| 0 <= i < j < old(fracs).len() ==> frac_lt(#[trigger] old(fracs)[i], #[trigger] old(fracs)[j]),
        forall|i: int| 0 <= i < old(fracs).len() ==> farey_member(#[trigger] old(fracs)[i].0 as int, old(fracs)[i].1 as int, n as int),
    ensures
        forall|i: int, j: int| 0 <= i < j < final(fracs).len() ==> frac_lt(#[trigger] final(fracs)[i], #[trigger] final(fracs)[j]),
        forall|i: int| 0 <= i < final(fracs).len() ==> farey_member(#[trigger] final(fracs)[i].0 as int, final(fracs)[i].1 as int, n as int),
        exists|i: int| 0 <= i < final(fracs).len() && frac_eq(#[trigger] final(fracs)[i], (p, q)),
        forall|k: int| 0 <= k < old(fracs).len() ==> final(fracs)@.contains(#[trigger] old(fracs)[k]),
{
    let len = fracs.len();
    let mut i: usize = 0;
    while i < len
        invariant
            i <= len,
            len == fracs.len(),
            n * n <= usize::MAX,
            farey_member(p as int, q as int, n as int),
            fracs@ == old(fracs)@,
            forall|x: int, y: int| 0 <= x < y < fracs.len() ==> frac_lt(#[trigger] fracs[x], #[trigger] fracs[y]),
            forall|k: int| 0 <= k < i ==> frac_lt(#[trigger] fracs[k], (p, q)),
            forall|k: int| 0 <= k < fracs.len() ==> farey_member(#[trigger] fracs[k].0 as int, fracs[k].1 as int, n as int),
        ensures
            i <= len,
            fracs@ == old(fracs)@,
            forall|k: int| 0 <= k < i ==> frac_lt(#[trigger] fracs[k], (p, q)),
            i < len ==> frac_lt((p, q), fracs[i as int]),
        decreases len - i,
    {
        let (a, b) = fracs[i];
        proof {
            assert(a * q <= n * n && p * b <= n * n) by (nonlinear_arith)
                requires
                    a <= b <= n,
                    p <= q <= n,
            ;
        }
        let lhs = a * q;
        let rhs = p * b;
        if lhs == rhs {
            proof {
                assert(frac_eq(fracs[i as int], (p, q)));
            }
            return;
        }
        if lhs > rhs {
            break;
        }
        i = i + 1;
    }
    let ghost before = fracs@;
    fracs.insert(i, (p, q));
    proof {
        assert(fracs[i as int] == (p, q));
        assert(frac_eq(fracs[i as int], (p, q)));
        assert forall|x: int, y: int| 0 <= x < y < fracs.len() implies frac_lt(#[trigger] fracs[x], #[trigger] fracs[y]) by {
            if y < i {
                assert(fracs[x] == before[x] && fracs[y] == before[y]);
            } else if y == i {
                assert(fracs[x] == before[x]);
            } else if x == i {
                assert(fracs[y] == before[y - 1]);
                if i < len {
                    assert(frac_lt((p, q), before[i as int]));
                    if y - 1 > i {
                        lemma_frac_trans((p, q), before[i as int], before[y - 1]);
                    }
                }
            } else if x < i {
                assert(fracs[x] == before[x] && fracs[y] == before[y - 1]);
            } else {
                assert(fracs[x] == before[x - 1] && fracs[y] == before[y - 1]);
            }
        }
        assert forall|k: int| 0 <= k < before.len() implies fracs@.contains(#[trigger] before[k]) by {
            if k < i {
                assert(fracs[k] == before[k]);
            } else {
                assert(fracs[k + 1] == before[k]);
            }
        }
    }
}

/// Number of integers a totient histogram spreads over a bar `w` dots
/// wide: one per dot column, at least 2 and at most 2000.
pub open spec fn totient_span(w: int) -> int {
    let n = if w < 2 { 2 } else { w };
    if n > 2000 { 2000 } else { n }
}

/// Top row of a bar `bar` dots tall standing on the bottom of a bar `h`
/// dots tall: every bar shows at least its bottom dot.
pub open spec fn bar_top(h: int, bar: int) -> int {
    if bar >= h {
        0
    } else if bar == 0 {
        h - 1
    } else {
        h - bar
    }
}

/// Dot `(x, y)` belongs to the bar of integer `k` in a totient histogram
/// `w x h` dots over `2..=n`: the column of `k`, `bar` dots tall from the
/// bottom.
pub open spec fn totient_bar(k: int, n: int, w: int, h: int, bar: int, x: int, y: int) -> bool {
    let col = (k - 2) * w / (n - 1);
    &&& x == (if col < w - 1 { col } else { w - 1 })
    &&& bar_top(h, bar) <= y <= h - 1
}

/// The bars of the first `count` integers `2, 3, ...` of a totient
/// histogram, integer `k` standing `bars[k - 2]` dots tall.
pub open spec fn totient_bars(w: int, h: int, bars: Seq<usize>, count: int) -> spec_fn(int, int) -> bool {
    |x: int, y: int|
        exists|i: int|
            0 <= i < count && #[trigger] totient_bar(i + 2, totient_span(w), w, h, bars[i] as int, x, y)
}

proof fn lemma_spread_column(i: int, w: int, d: int) by (nonlinear_arith)
    requires
        0 <= i < d,
        w >= 1,
    ensures
        0 <= i * w / d < w,
        i * w <= d * w,
{
    assert(i * w < d * w);
}

proof fn lemma_mul_mono(a: int, b: int, w: int) by (nonlinear_arith)
    requires
        0 <= a <= b,
        w >= 0,
    ensures
        a * w <= b * w,
{
}

impl TotientHistogram {
    /// One frame of the totient histogram: integer `k` (from 2) stands as a
    /// bar `bars[k - 2]` dots tall in its column, its share φ(k)/k of the
    /// height, so the bars reveal `2..` up to `bars.len() + 1`.
    pub fn draw(&self, grid: &mut BrailleGrid, bars: &Vec<usize>)
        requires
            old(grid)@.wf(),
            bars.len() + 1 <= totient_span(old(grid)@.dot_width() as int),
            bars.len() == 0 || (bars.len() - 1) * old(grid)@.dot_width() <= usize::MAX,
        ensures
            old(grid)@.gains_dots(
                final(grid)@,
                totient_bars(old(grid)@.dot_width() as int, old(grid)@.dot_height() as int, bars@, bars.len() as int),
            ),
    {
        let ghost g0 = grid@;
        let (w, h) = draw::dot_dims(grid);
        let n = if w < 2 { 2 } else if w > 2000 { 2000 } else { w };
        let ghost wi = w as int;
        let ghost hi = h as int;
        proof {
            lemma_gains_nothing(g0, totient_bars(wi, hi, bars@, 0));
        }
        let mut i: usize = 0;
        while i < bars.len()
            invariant
                g0.wf(),
                w == g0.dot_width(),
                h == g0.dot_height(),
                wi == w,
                hi == h,
                n as int == totient_span(wi),
                n <= 2000,
                bars.len() + 1 <= n,
                bars.len() == 0 || (bars.len() - 1) * w <= usize::MAX,
                i <= bars.len(),
                g0.gains_dots(grid@, totient_bars(wi, hi, bars@, i as int)),
            decreases bars.len() - i,
        {
            proof {
                lemma_spread_column(i as int, wi, (n - 1) as int);
                lemma_mul_mono(i as int, bars.len() - 1, wi);
            }
            let col = i * w / (n - 1);
            let x = if col < w - 1 { col } else { w - 1 };
            let b = bars[i];
            let y0 = if h > b { h - b } else { 0 };
            let y1 = h - 1;
            let ghost g1 = grid@;
            draw::vline(grid, x, y0, y1);
            proof {
                let before = totient_bars(wi, hi, bars@, i as int);
                let after = totient_bars(wi, hi, bars@, i + 1);
                let seg = |px: int, py: int| px == x && (if y0 <= y1 { y0 <= py <= y1 } else { y1 <= py <= y0 });
                assert forall|px: int, py: int| g0.in_dots(px, py) implies (after(px, py) <==> (before(px, py) || seg(px, py))) by {
                    if after(px, py) {
                        let j = choose|j: int|
                            0 <= j < i + 1 && #[trigger] totient_bar(j + 2, totient_span(wi), wi, hi, bars@[j] as int, px, py);
                        if j < i {
                            assert(before(px, py));
                        }
                    }
                    if seg(px, py) {
                        assert(bars@[i as int] == b);
                        assert((i + 2 - 2) * wi == i * wi);
                        assert(totient_bar(i + 2, totient_span(wi), wi, hi, bars@[i as int] as int, px, py));
                    }
                    if before(px, py) {
                        let j = choose|j: int|
                            0 <= j < i && #[trigger] totient_bar(j + 2, totient_span(wi), wi, hi, bars@[j] as int, px, py);
                        assert(totient_bar(j + 2, totient_span(wi), wi, hi, bars@[j] as int, px, py));
                    }
                }
                lemma_gains_trans(g0, g1, grid@, before, seg, after);
            }
            i = i + 1;
        }
    }
}

/// Number of seeds a Collatz histogram spreads over a bar `w` dots wide:
/// one per dot column, at most 500.
pub open spec fn collatz_span(w: int) -> int {
    if w < 500 { w } else { 500 }
}

/// Dot `(x, y)` belongs to the bar of seed `i + 1` in a Collatz histogram
/// `w x h` dots over `n` seeds: the column of the seed, `bar` dots tall
/// from the bottom, with one more dot on top when `i` is the highlighted
/// seed and the bar leaves room.
pub open spec fn collatz_bar(i: int, n: int, w: int, h: int, bar: int, highlight: int, x: int, y: int) -> bool {
    let col = i * w / n;
    &&& x == (if col < w - 1 { col } else { w - 1 })
    &&& ((bar_top(h, bar) <= y <= h - 1) || (i == highlight && h > bar && y == h - bar - 1))
}

/// The bars of the first `count` seeds of a Collatz histogram, seed
/// `i + 1` standing `bars[i]` dots tall.
pub open spec fn collatz_bars(w: int, h: int, bars: Seq<usize>, highlight: int, count: int) -> spec_fn(int, int) -> bool {
    |x: int, y: int|
        exists|i: int| 0 <= i < count && #[trigger] collatz_bar(i, collatz_span(w), w, h, bars[i] as int, highlight, x, y)
}

impl Collatz {
    /// One frame of the Collatz histogram: seed `i + 1` stands as a bar
    /// `bars[i]` dots tall (its stopping time against the longest), and
    /// the seed at `highlight` gets one dot more on top.
    pub fn draw(&self, grid: &mut BrailleGrid, bars: &Vec<usize>, highlight: usize)
        requires
            old(grid)@.wf(),
            bars.len() <= collatz_span(old(grid)@.dot_width() as int),
            bars.len() == 0 || (bars.len() - 1) * old(grid)@.dot_width() <= usize::MAX,
        ensures
            old(grid)@.gains_dots(
                final(grid)@,
                collatz_bars(
                    old(grid)@.dot_width() as int,
                    old(grid)@.dot_height() as int,
                    bars@,
                    highlight as int,
                    bars.len() as int,
                ),
            ),
    {
        let ghost g0 = grid@;
        let (w, h) = draw::dot_dims(grid);
        let n = if w < 500 { w } else { 500 };
        let ghost wi = w as int;
        let ghost hi = h as int;
        let ghost hl = highlight as int;
        proof {
            lemma_gains_nothing(g0, collatz_bars(wi, hi, bars@, hl, 0));
        }
        let mut i: usize = 0;
        while i < bars.len()
            invariant
                g0.wf(),
                w == g0.dot_width(),
                h == g0.dot_height(),
                wi == w,
                hi == h,
                hl == highlight,
                n as int == collatz_span(wi),
                1 <= n <= 500,
                bars.len() <= n,
                bars.len() == 0 || (bars.len() - 1) * w <= usize::MAX,
                i <= bars.len(),
                g0.gains_dots(grid@, collatz_bars(wi, hi, bars@, hl, i as int)),
            decreases bars.len() - i,
        {
            proof {
                lemma_spread_column(i as int, wi, n as int);
                lemma_mul_mono(i as int, bars.len() - 1, wi);
            }
            let col = i * w / n;
            let x = if col < w - 1 { col } else { w - 1 };
            let b = bars[i];
            let y0 = if h > b { h - b } else { 0 };
            let y1 = h - 1;
            let before = Ghost(collatz_bars(wi, hi, bars@, hl, i as int));
            let ghost g1 = grid@;
            draw::vline(grid, x, y0, y1);
            let ghost g2 = grid@;
            let ghost seg = |px: int, py: int| px == x && (if y0 <= y1 { y0 <= py <= y1 } else { y1 <= py <= y0 });
            let ghost barred = |px: int, py: int| before@(px, py) || seg(px, py);
            proof {
                lemma_gains_trans(g0, g1, g2, before@, seg, barred);
            }
            let ghost after = collatz_bars(wi, hi, bars@, hl, i + 1);
            let ghost tip = i == highlight && y0 > 0;
            proof {
                assert(bars@[i as int] == b);
                assert forall|px: int, py: int| g0.in_dots(px, py) implies (after(px, py) <==> (barred(px, py) || (tip
                    && px == x && py == y0 - 1))) by {
                    if after(px, py) {
                        let j = choose|j: int|
                            0 <= j < i + 1 && #[trigger] collatz_bar(j, collatz_span(wi), wi, hi, bars@[j] as int, hl, px, py);
                        if j < i {
                            assert(before@(px, py));
                        }
                    }
                    if seg(px, py) || (tip && px == x && py == y0 - 1) {
                        assert(collatz_bar(i as int, collatz_span(wi), wi, hi, bars@[i as int] as int, hl, px, py));
                    }
                    if before@(px, py) {
                        let j = choose|j: int|
                            0 <= j < i && #[trigger] collatz_bar(j, collatz_span(wi), wi, hi, bars@[j] as int, hl, px, py);
                        assert(collatz_bar(j, collatz_span(wi), wi, hi, bars@[j] as int, hl, px, py));
                    }
                }
            }
            if i == highlight && y0 > 0 {
                draw::dot(grid, x, y0 - 1);
                proof {
                    crate::grid::lemma_gains_dot(g0, g2, x as int, (y0 - 1) as int, barred, after);
                }
            } else {
                proof {
                    lemma_gains_nothing(g2, |px: int, py: int| false);
                    lemma_gains_trans(g0, g2, g2, barred, |px: int, py: int| false, after);
                }
            }
            i = i + 1;
        }
    }
}

} // verus!
