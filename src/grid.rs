//! Mathematical model of a square torus of spins stored row by row, and the
//! lemmas that relate local changes of the grid to its global sums.
use vstd::arithmetic::div_mod::{lemma_fundamental_div_mod, lemma_fundamental_div_mod_converse};
use vstd::arithmetic::mul::lemma_mul_inequality;
use vstd::prelude::*;

verus! {

/// Index after `i` on a ring of `n` positions.
pub open spec fn next(i: int, n: int) -> int {
    if i + 1 >= n {
        0
    } else {
        i + 1
    }
}

/// Index before `i` on a ring of `n` positions.
pub open spec fn prev(i: int, n: int) -> int {
    if i <= 0 {
        n - 1
    } else {
        i - 1
    }
}

/// Position of cell `(r, c)` in the row-major storage of an `n` by `n` grid.
pub open spec fn cell(r: int, c: int, n: int) -> int {
    r * n + c
}

pub open spec fn spin_at(s: Seq<i8>, n: int, r: int, c: int) -> int {
    s[cell(r, c, n)] as int
}

/// Every stored value is a spin, `+1` or `-1`.
pub open spec fn all_spins(s: Seq<i8>) -> bool {
    forall|k: int| 0 <= k < s.len() ==> (#[trigger] s[k] == 1 || s[k] == -1)
}

/// Sum of the four periodic neighbours of `(r, c)`.
pub open spec fn neighbour_sum(s: Seq<i8>, n: int, r: int, c: int) -> int {
    spin_at(s, n, r, next(c, n)) + spin_at(s, n, r, prev(c, n)) + spin_at(s, n, next(r, n), c)
        + spin_at(s, n, prev(r, n), c)
}

/// The two bonds owned by cell `(r, c)`: to its right and to its lower neighbour.
pub open spec fn cell_bonds(s: Seq<i8>, n: int, r: int, c: int) -> int {
    spin_at(s, n, r, c) * (spin_at(s, n, r, next(c, n)) + spin_at(s, n, next(r, n), c))
}

pub open spec fn sum_below(f: spec_fn(int) -> int, k: int) -> int
    decreases k,
{
    if k <= 0 {
        0
    } else {
        sum_below(f, k - 1) + f(k - 1)
    }
}

/// Sum of `s_i * s_j` over all bonds of the torus, each bond counted once.
pub open spec fn bond_sum(s: Seq<i8>, n: int) -> int {
    sum_below(|k: int| cell_bonds(s, n, k / n, k % n), n * n)
}

/// Energy in units of the coupling constant: minus the bond sum.
pub open spec fn energy_of(s: Seq<i8>, n: int) -> int {
    -bond_sum(s, n)
}

/// Sum of all spins.
pub open spec fn spin_total(s: Seq<i8>) -> int {
    sum_below(|k: int| s[k] as int, s.len() as int)
}

/// The grid with the spin at `(r, c)` reversed.
pub open spec fn flipped(s: Seq<i8>, n: int, r: int, c: int) -> Seq<i8> {
    s.update(cell(r, c, n), (-s[cell(r, c, n)]) as i8)
}

pub open spec fn diff_at(f: spec_fn(int) -> int, g: spec_fn(int) -> int, x: int, k: int) -> int {
    if 0 <= x < k {
        g(x) - f(x)
    } else {
        0
    }
}

/// Two sums that agree but at three distinct points differ by the differences there.
pub proof fn lemma_sum_differs_at(
    f: spec_fn(int) -> int,
    g: spec_fn(int) -> int,
    a: int,
    b: int,
    c: int,
    k: int,
)
    requires
        a != b,
        a != c,
        b != c,
        forall|j: int| 0 <= j < k && j != a && j != b && j != c ==> #[trigger] f(j) == g(j),
    ensures
        sum_below(g, k) - sum_below(f, k) == diff_at(f, g, a, k) + diff_at(f, g, b, k) + diff_at(
            f,
            g,
            c,
            k,
        ),
    decreases k,
{
    if k > 0 {
        lemma_sum_differs_at(f, g, a, b, c, k - 1);
    }
}

/// A sum of terms bounded by `m` in absolute value is bounded by `m * k`.
pub proof fn lemma_sum_bounded(f: spec_fn(int) -> int, m: int, k: int)
    requires
        0 <= k,
        forall|j: int| 0 <= j < k ==> -m <= #[trigger] f(j) <= m,
    ensures
        -(m * k) <= sum_below(f, k) <= m * k,
    decreases k,
{
    if k > 0 {
        lemma_sum_bounded(f, m, k - 1);
        assert(m * k == m * (k - 1) + m) by (nonlinear_arith);
    }
}

/// Row-major positions of the cells of an `n` by `n` grid are in range and
/// recover their row and column.
pub proof fn lemma_cell(r: int, c: int, n: int)
    requires
        0 <= r < n,
        0 <= c < n,
    ensures
        0 <= cell(r, c, n) < n * n,
        cell(r, c, n) / n == r,
        cell(r, c, n) % n == c,
{
    lemma_mul_inequality(r, n - 1, n);
    assert((n - 1) * n == n * n - n) by (nonlinear_arith);
    assert(0 <= r * n) by (nonlinear_arith)
        requires
            0 <= r,
            0 <= n,
    ;
    lemma_fundamental_div_mod_converse(r * n + c, n, r, c);
}

/// Each position of an `n` by `n` grid is the cell of its quotient and remainder.
pub proof fn lemma_position(k: int, n: int)
    requires
        0 < n,
        0 <= k < n * n,
    ensures
        0 <= k / n < n,
        0 <= k % n < n,
        cell(k / n, k % n, n) == k,
{
    lemma_fundamental_div_mod(k, n);
    assert(0 <= k % n < n);
    assert(k / n * n == n * (k / n)) by (nonlinear_arith);
    assert(0 <= k / n) by {
        if k / n < 0 {
            lemma_mul_inequality(k / n, -1, n);
        }
    }
    assert(k / n < n) by {
        if k / n >= n {
            lemma_mul_inequality(n, k / n, n);
        }
    }
}

/// Distinct cells have distinct positions.
pub proof fn lemma_cell_injective(r1: int, c1: int, r2: int, c2: int, n: int)
    requires
        0 <= r1 < n,
        0 <= c1 < n,
        0 <= r2 < n,
        0 <= c2 < n,
        r1 != r2 || c1 != c2,
    ensures
        cell(r1, c1, n) != cell(r2, c2, n),
{
    lemma_cell(r1, c1, n);
    lemma_cell(r2, c2, n);
}

/// Reversing one spin changes the spin total by twice the new spin.
pub proof fn lemma_flip_total(s: Seq<i8>, k: int)
    requires
        0 <= k < s.len(),
        all_spins(s),
    ensures
        spin_total(s.update(k, (-s[k]) as i8)) - spin_total(s) == 2 * (-s[k]),
{
    let t = s.update(k, (-s[k]) as i8);
    let f = |j: int| s[j] as int;
    let g = |j: int| t[j] as int;
    assert(s[k] == 1 || s[k] == -1);
    lemma_sum_differs_at(f, g, k, -1, -2, s.len() as int);
    assert(spin_total(t) == sum_below(g, s.len() as int));
}

/// A spin total is bounded by the number of spins.
pub proof fn lemma_total_bounded(s: Seq<i8>)
    requires
        all_spins(s),
    ensures
        -(s.len() as int) <= spin_total(s) <= s.len(),
{
    let f = |j: int| s[j] as int;
    assert forall|j: int| 0 <= j < s.len() implies -1 <= #[trigger] f(j) <= 1 by {
        assert(s[j] == 1 || s[j] == -1);
    }
    lemma_sum_bounded(f, 1, s.len() as int);
}

/// The bond sum of an `n` by `n` grid of spins is at most `2 * n * n` in absolute value.
pub proof fn lemma_bonds_bounded(s: Seq<i8>, n: int)
    requires
        0 < n,
        s.len() == n * n,
        all_spins(s),
    ensures
        -(2 * (n * n)) <= bond_sum(s, n) <= 2 * (n * n),
{
    let f = |k: int| cell_bonds(s, n, k / n, k % n);
    assert forall|k: int| 0 <= k < n * n implies -2 <= #[trigger] f(k) <= 2 by {
        lemma_position(k, n);
        let r = k / n;
        let c = k % n;
        lemma_cell(r, next(c, n), n);
        lemma_cell(next(r, n), c, n);
        let x = s[cell(r, c, n)];
        let y = s[cell(r, next(c, n), n)];
        let z = s[cell(next(r, n), c, n)];
        assert(x == 1 || x == -1);
        assert(y == 1 || y == -1);
        assert(z == 1 || z == -1);
        assert(f(k) == x * (y + z));
        assert(-2 <= x * (y + z) <= 2) by (nonlinear_arith)
            requires
                x == 1 || x == -1,
                -2 <= y + z <= 2,
        ;
    }
    lemma_sum_bounded(f, 2, n * n);
}

/// On a one-cell torus every bond joins the cell to itself, so reversing its
/// spin leaves the bond sum unchanged.
pub proof fn lemma_flip_bonds_single(s: Seq<i8>)
    requires
        s.len() == 1,
        all_spins(s),
    ensures
        bond_sum(flipped(s, 1, 0, 0), 1) == bond_sum(s, 1),
{
    let t = flipped(s, 1, 0, 0);
    assert(s[0] == 1 || s[0] == -1);
    let f = |k: int| cell_bonds(s, 1, k / 1, k % 1);
    let g = |k: int| cell_bonds(t, 1, k / 1, k % 1);
    assert(sum_below(f, 1) == sum_below(f, 0) + f(0));
    assert(sum_below(g, 1) == sum_below(g, 0) + g(0));
    assert(bond_sum(s, 1) == sum_below(f, 1));
    assert(bond_sum(t, 1) == sum_below(g, 1));
    assert(0int / 1 == 0 && 0int % 1 == 0 && cell(0, 0, 1) == 0 && next(0, 1) == 0);
    assert(t[0] == -s[0]);
    assert(cell_bonds(s, 1, 0, 0) == s[0] * (s[0] + s[0]));
    assert(cell_bonds(t, 1, 0, 0) == t[0] * (t[0] + t[0]));
    let x = s[0] as int;
    let y = t[0] as int;
    assert(x * (x + x) == y * (y + y)) by (nonlinear_arith)
        requires
            y == -x,
    ;
    assert(f(0) == cell_bonds(s, 1, 0, 0));
    assert(g(0) == cell_bonds(t, 1, 0, 0));
}

/// Reversing the spin at `(a, b)` on a torus of side at least two changes the
/// bond sum by twice the new spin times the sum of its four neighbours.
pub proof fn lemma_flip_bonds(s: Seq<i8>, n: int, a: int, b: int)
    requires
        2 <= n,
        s.len() == n * n,
        0 <= a < n,
        0 <= b < n,
        all_spins(s),
    ensures
        bond_sum(flipped(s, n, a, b), n) - bond_sum(s, n) == 2 * (-s[cell(a, b, n)]) * neighbour_sum(
            s,
            n,
            a,
            b,
        ),
{
    let t = flipped(s, n, a, b);
    let f = |k: int| cell_bonds(s, n, k / n, k % n);
    let g = |k: int| cell_bonds(t, n, k / n, k % n);
    let p = cell(a, b, n);
    let pl = cell(a, prev(b, n), n);
    let pu = cell(prev(a, n), b, n);
    lemma_cell(a, b, n);
    lemma_cell(a, prev(b, n), n);
    lemma_cell(prev(a, n), b, n);
    lemma_cell_injective(a, b, a, prev(b, n), n);
    lemma_cell_injective(a, b, prev(a, n), b, n);
    lemma_cell_injective(a, prev(b, n), prev(a, n), b, n);
    // Cells other than (a, b) keep their spin.
    assert forall|r: int, c: int|
        0 <= r < n && 0 <= c < n && (r != a || c != b) implies #[trigger] spin_at(t, n, r, c)
        == spin_at(s, n, r, c) by {
        lemma_cell_injective(r, c, a, b, n);
        lemma_cell(r, c, n);
    }
    assert forall|k: int| 0 <= k < n * n && k != p && k != pl && k != pu implies #[trigger] f(k)
        == g(k) by {
        lemma_position(k, n);
        let r = k / n;
        let c = k % n;
        assert(r != a || c != b);
        assert(r != a || next(c, n) != b);
        assert(next(r, n) != a || c != b);
        assert(spin_at(t, n, r, c) == spin_at(s, n, r, c));
        assert(spin_at(t, n, r, next(c, n)) == spin_at(s, n, r, next(c, n)));
        assert(spin_at(t, n, next(r, n), c) == spin_at(s, n, next(r, n), c));
    }
    lemma_sum_differs_at(f, g, p, pl, pu, n * n);
    let x = s[p] as int;
    assert(x == 1 || x == -1);
    let right = spin_at(s, n, a, next(b, n));
    let down = spin_at(s, n, next(a, n), b);
    let left = spin_at(s, n, a, prev(b, n));
    let up = spin_at(s, n, prev(a, n), b);
    // The three changed terms.
    assert(spin_at(t, n, a, b) == -x);
    assert(spin_at(t, n, a, next(b, n)) == right);
    assert(spin_at(t, n, next(a, n), b) == down);
    assert(g(p) - f(p) == -2 * x * (right + down)) by (nonlinear_arith)
        requires
            f(p) == x * (right + down),
            g(p) == -x * (right + down),
    ;
    let yl = spin_at(s, n, a, prev(b, n));
    assert(next(prev(b, n), n) == b);
    assert(spin_at(t, n, a, prev(b, n)) == yl);
    assert(spin_at(t, n, next(a, n), prev(b, n)) == spin_at(s, n, next(a, n), prev(b, n)));
    assert(g(pl) - f(pl) == -2 * x * left) by (nonlinear_arith)
        requires
            f(pl) == left * (x + spin_at(s, n, next(a, n), prev(b, n))),
            g(pl) == left * (-x + spin_at(s, n, next(a, n), prev(b, n))),
    ;
    assert(next(prev(a, n), n) == a);
    assert(spin_at(t, n, prev(a, n), b) == up);
    assert(spin_at(t, n, prev(a, n), next(b, n)) == spin_at(s, n, prev(a, n), next(b, n)));
    assert(g(pu) - f(pu) == -2 * x * up) by (nonlinear_arith)
        requires
            f(pu) == up * (spin_at(s, n, prev(a, n), next(b, n)) + x),
            g(pu) == up * (spin_at(s, n, prev(a, n), next(b, n)) - x),
    ;
    assert(bond_sum(t, n) == sum_below(g, n * n));
    assert(bond_sum(s, n) == sum_below(f, n * n));
    assert(-2 * x * (right + down) + -2 * x * left + -2 * x * up == 2 * (-x) * (right + left + down
        + up)) by (nonlinear_arith);
}

/// A sum of `k` equal terms.
pub proof fn lemma_sum_constant(f: spec_fn(int) -> int, v: int, k: int)
    requires
        0 <= k,
        forall|j: int| 0 <= j < k ==> #[trigger] f(j) == v,
    ensures
        sum_below(f, k) == v * k,
    decreases k,
{
    if k > 0 {
        lemma_sum_constant(f, v, k - 1);
        assert(v * k == v * (k - 1) + v) by (nonlinear_arith);
    } else {
        assert(v * k == 0) by (nonlinear_arith)
            requires
                k == 0,
        ;
    }
}

/// A grid whose spins all equal `v` has spin total `v * n * n` and every bond
/// aligned.
pub proof fn lemma_uniform(s: Seq<i8>, n: int, v: i8)
    requires
        0 < n,
        s.len() == n * n,
        v == 1 || v == -1,
        forall|k: int| 0 <= k < s.len() ==> #[trigger] s[k] == v,
    ensures
        spin_total(s) == v * (n * n),
        bond_sum(s, n) == 2 * (n * n),
{
    lemma_sum_constant(|k: int| s[k] as int, v as int, n * n);
    let f = |k: int| cell_bonds(s, n, k / n, k % n);
    assert forall|k: int| 0 <= k < n * n implies #[trigger] f(k) == 2 by {
        lemma_position(k, n);
        lemma_cell(k / n, next(k % n, n), n);
        lemma_cell(next(k / n, n), k % n, n);
        assert(s[cell(k / n, k % n, n)] == v);
        assert(s[cell(k / n, next(k % n, n), n)] == v);
        assert(s[cell(next(k / n, n), k % n, n)] == v);
        assert((v as int) * ((v as int) + (v as int)) == 2) by (nonlinear_arith)
            requires
                v == 1 || v == -1,
        ;
    }
    lemma_sum_constant(f, 2, n * n);
}

/// `p` holds of the right and lower neighbours of every cell it holds of.
pub open spec fn closed_forward(p: spec_fn(int, int) -> bool, n: int) -> bool {
    forall|r: int, c: int|
        0 <= r < n && 0 <= c < n && #[trigger] p(r, c) ==> p(r, next(c, n)) && p(next(r, n), c)
}

proof fn lemma_walk_row(p: spec_fn(int, int) -> bool, n: int, r: int, c0: int, c: int)
    requires
        closed_forward(p, n),
        0 <= r < n,
        0 <= c0 <= c < n,
        p(r, c0),
    ensures
        p(r, c),
    decreases c - c0,
{
    if c > c0 {
        lemma_walk_row(p, n, r, c0, c - 1);
        assert(p(r, next(c - 1, n)));
    }
}

proof fn lemma_walk_column(p: spec_fn(int, int) -> bool, n: int, c: int, r0: int, r: int)
    requires
        closed_forward(p, n),
        0 <= c < n,
        0 <= r0 <= r < n,
        p(r0, c),
    ensures
        p(r, c),
    decreases r - r0,
{
    if r > r0 {
        lemma_walk_column(p, n, c, r0, r - 1);
        assert(p(next(r - 1, n), c));
    }
}

/// On a torus, a property that holds of one cell and passes to right and
/// lower neighbours holds of every cell.
pub proof fn lemma_torus_connected(p: spec_fn(int, int) -> bool, n: int, a: int, b: int)
    requires
        closed_forward(p, n),
        0 <= a < n,
        0 <= b < n,
        p(a, b),
    ensures
        forall|r: int, c: int| 0 <= r < n && 0 <= c < n ==> #[trigger] p(r, c),
{
    // Every cell of row a.
    assert forall|c: int| 0 <= c < n implies #[trigger] p(a, c) by {
        lemma_walk_row(p, n, a, b, n - 1);
        assert(p(a, next(n - 1, n)));
        if c >= b {
            lemma_walk_row(p, n, a, b, c);
        } else {
            lemma_walk_row(p, n, a, 0, c);
        }
    }
    // From row a, every cell of each column.
    assert forall|r: int, c: int| 0 <= r < n && 0 <= c < n implies #[trigger] p(r, c) by {
        assert(p(a, c));
        lemma_walk_column(p, n, c, a, n - 1);
        assert(p(next(n - 1, n), c));
        if r >= a {
            lemma_walk_column(p, n, c, a, r);
        } else {
            lemma_walk_column(p, n, c, 0, r);
        }
    }
}

/// A spin total has the parity of the number of spins.
pub proof fn lemma_total_parity(s: Seq<i8>)
    requires
        all_spins(s),
    ensures
        (spin_total(s) + s.len()) % 2 == 0,
{
    let f = |j: int| s[j] as int;
    lemma_sum_parity(f, s.len() as int);
}

proof fn lemma_sum_parity(f: spec_fn(int) -> int, k: int)
    requires
        0 <= k,
        forall|j: int| 0 <= j < k ==> (#[trigger] f(j) == 1 || f(j) == -1),
    ensures
        (sum_below(f, k) + k) % 2 == 0,
    decreases k,
{
    if k > 0 {
        lemma_sum_parity(f, k - 1);
        assert(f(k - 1) == 1 || f(k - 1) == -1);
    }
}

} // verus!
