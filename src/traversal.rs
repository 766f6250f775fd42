//! Traversal orders for belief propagation, and the enumeration of parent
//! truth assignments that each factor table covers.
use crate::graph::{parents_of, PropositionGraph};
use vstd::prelude::*;

verus! {

/// Every boolean assignment of length `n`: those of length `n - 1` extended by
/// `false`, then the same extended by `true`. Row `i` gives parent `j` the value
/// of bit `j` of `i`.
pub open spec fn all_assignments(n: nat) -> Seq<Seq<bool>>
    decreases n,
{
    if n == 0 {
        seq![Seq::empty()]
    } else {
        all_assignments((n - 1) as nat).map_values(|a: Seq<bool>| a.push(false)) + all_assignments(
            (n - 1) as nat,
        ).map_values(|a: Seq<bool>| a.push(true))
    }
}

pub open spec fn pow2(n: nat) -> nat
    decreases n,
{
    if n == 0 {
        1
    } else {
        2 * pow2((n - 1) as nat)
    }
}

pub open spec fn bool_views(v: Seq<Vec<bool>>) -> Seq<Seq<bool>> {
    v.map_values(|a: Vec<bool>| a@)
}

fn extended(a: &Vec<bool>, b: bool) -> (r: Vec<bool>)
    ensures
        r@ == a@.push(b),
{
    let mut out: Vec<bool> = Vec::new();
    let mut i: usize = 0;
    while i < a.len()
        invariant
            i <= a@.len(),
            out@ == a@.take(i as int),
        decreases a@.len() - i,
    {
        out.push(a[i]);
        i = i + 1;
        assert(out@ =~= a@.take(i as int));
    }
    out.push(b);
    assert(out@ =~= a@.push(b));
    out
}

/// Every truth assignment of `n` parents, one row per assignment; entry `j` of
/// a row is the value of parent `j`.
pub fn compute_each_combination(n: usize) -> (r: Vec<Vec<bool>>)
    ensures
        bool_views(r@) == all_assignments(n as nat),
{
    let mut rows: Vec<Vec<bool>> = Vec::new();
    rows.push(Vec::new());
    assert(bool_views(rows@) =~= all_assignments(0));
    let mut m: usize = 0;
    while m < n
        invariant
            m <= n,
            bool_views(rows@) == all_assignments(m as nat),
        decreases n - m,
    {
        let ghost prev = all_assignments(m as nat);
        let mut next: Vec<Vec<bool>> = Vec::new();
        let mut i: usize = 0;
        while i < rows.len()
            invariant
                i <= rows@.len(),
                bool_views(rows@) == prev,
                next@.len() == i,
                forall|k: int| 0 <= k < i ==> #[trigger] next@[k]@ == prev[k].push(false),
            decreases rows@.len() - i,
        {
            next.push(extended(&rows[i], false));
            i = i + 1;
        }
        let mut j: usize = 0;
        while j < rows.len()
            invariant
                j <= rows@.len(),
                bool_views(rows@) == prev,
                next@.len() == rows@.len() + j,
                forall|k: int| 0 <= k < rows@.len() ==> #[trigger] next@[k]@ == prev[k].push(false),
                forall|k: int|
                    0 <= k < j ==> #[trigger] next@[rows@.len() + k]@ == prev[k].push(true),
            decreases rows@.len() - j,
        {
            next.push(extended(&rows[j], true));
            j = j + 1;
        }
        proof {
            let a = prev.map_values(|x: Seq<bool>| x.push(false));
            let b = prev.map_values(|x: Seq<bool>| x.push(true));
            assert forall|k: int| 0 <= k < next@.len() implies #[trigger] bool_views(next@)[k] == (a
                + b)[k] by {
                if k >= rows@.len() {
                    assert(next@[rows@.len() + (k - rows@.len())]@ == prev[k - rows@.len()].push(
                        true,
                    ));
                }
            }
            assert(bool_views(next@) =~= a + b);
        }
        rows = next;
        m = m + 1;
    }
    rows
}

/// There are `2^n` assignments, each of length `n`.
pub proof fn lemma_assignment_shape(n: nat)
    ensures
        all_assignments(n).len() == pow2(n),
        forall|i: int| 0 <= i < all_assignments(n).len() ==> (#[trigger] all_assignments(n)[i]).len()
            == n,
    decreases n,
{
    if n > 0 {
        lemma_assignment_shape((n - 1) as nat);
        let prev = all_assignments((n - 1) as nat);
        let a = prev.map_values(|x: Seq<bool>| x.push(false));
        let b = prev.map_values(|x: Seq<bool>| x.push(true));
        assert forall|i: int| 0 <= i < (a + b).len() implies (#[trigger] (a + b)[i]).len() == n by {
            if i < a.len() {
                assert((a + b)[i] == prev[i].push(false));
            } else {
                assert((a + b)[i] == prev[i - a.len()].push(true));
            }
        }
    }
}

/// The factor table of a node with `k` parents covers every boolean combination
/// of the parents exactly once: it has `2^k` rows, each of length `k`, every
/// assignment of length `k` is a row, no two rows are equal, and row `i` gives
/// parent `j` bit `j` of `i`.
pub proof fn lemma_assignments_cover_each_once(k: nat)
    ensures
        all_assignments(k).len() == pow2(k),
        forall|i: int| 0 <= i < all_assignments(k).len() ==> (#[trigger] all_assignments(k)[i]).len()
            == k,
        forall|a: Seq<bool>| a.len() == k ==> #[trigger] all_assignments(k).contains(a),
        forall|i: int, j: int|
            0 <= i < all_assignments(k).len() && 0 <= j < all_assignments(k).len() && i != j
                ==> all_assignments(k)[i] != all_assignments(k)[j],
        forall|i: int, j: int|
            0 <= i < pow2(k) && 0 <= j < k ==> #[trigger] all_assignments(k)[i][j] == bit_of(
                i,
                j as nat,
            ),
    decreases k,
{
    lemma_assignment_shape(k);
    lemma_assignment_bits(k);
    if k == 0 {
        assert forall|x: Seq<bool>| x.len() == k implies #[trigger] all_assignments(k).contains(x) by {
            assert(x =~= Seq::<bool>::empty());
            assert(all_assignments(k)[0] == x);
        }
    } else {
        lemma_assignments_cover_each_once((k - 1) as nat);
        let prev = all_assignments((k - 1) as nat);
        let a = prev.map_values(|x: Seq<bool>| x.push(false));
        let b = prev.map_values(|x: Seq<bool>| x.push(true));
        let all = all_assignments(k);
        assert(all == a + b);
        assert forall|x: Seq<bool>| x.len() == k implies #[trigger] all.contains(x) by {
            let y = x.drop_last();
            assert(prev.contains(y));
            let i = choose|i: int| 0 <= i < prev.len() && prev[i] == y;
            assert(x =~= y.push(x.last()));
            if x.last() {
                assert(all[a.len() + i] == x);
            } else {
                assert(all[i] == x);
            }
        }
        assert forall|i: int, j: int|
            0 <= i < all.len() && 0 <= j < all.len() && i != j implies all[i] != all[j] by {
            let pi = if i < a.len() {
                i
            } else {
                i - a.len()
            };
            let pj = if j < a.len() {
                j
            } else {
                j - a.len()
            };
            let ei = if i < a.len() {
                prev[pi].push(false)
            } else {
                prev[pi].push(true)
            };
            let ej = if j < a.len() {
                prev[pj].push(false)
            } else {
                prev[pj].push(true)
            };
            assert(all[i] == ei);
            assert(all[j] == ej);
            if all[i] == all[j] {
                assert(ei.last() == ej.last());
                assert(ei.drop_last() =~= prev[pi]);
                assert(ej.drop_last() =~= prev[pj]);
            }
        }
    }
}

/// Bit `j` of `i`.
pub open spec fn bit_of(i: int, j: nat) -> bool {
    (i / (pow2(j) as int)) % 2 == 1
}

proof fn lemma_pow2_positive(n: nat)
    ensures
        pow2(n) > 0,
    decreases n,
{
    if n > 0 {
        lemma_pow2_positive((n - 1) as nat);
    }
}

proof fn lemma_pow2_add(a: nat, b: nat)
    ensures
        pow2(a + b) == pow2(a) * pow2(b),
    decreases a,
{
    if a > 0 {
        lemma_pow2_add((a - 1) as nat, b);
        assert((a - 1) as nat + b == (a + b - 1) as nat);
        assert(pow2(a + b) == 2 * pow2((a + b - 1) as nat));
        assert(pow2(a) == 2 * pow2((a - 1) as nat));
        assert(2 * (pow2((a - 1) as nat) * pow2(b)) == (2 * pow2((a - 1) as nat)) * pow2(b))
            by (nonlinear_arith);
    } else {
        assert(a + b == b);
        assert(pow2(a) == 1);
        assert(1 * pow2(b) == pow2(b));
    }
}

/// Row `i` of the assignments of `n` parents gives parent `j` the value of
/// bit `j` of `i`.
pub proof fn lemma_assignment_bits(n: nat)
    ensures
        forall|i: int, j: int|
            0 <= i < pow2(n) && 0 <= j < n ==> #[trigger] all_assignments(n)[i][j] == bit_of(
                i,
                j as nat,
            ),
    decreases n,
{
    lemma_assignment_shape(n);
    if n > 0 {
        let m = (n - 1) as nat;
        lemma_assignment_bits(m);
        lemma_assignment_shape(m);
        let prev = all_assignments(m);
        let p = pow2(m) as int;
        lemma_pow2_positive(m);
        assert forall|i: int, j: int| 0 <= i < pow2(n) && 0 <= j < n implies #[trigger] all_assignments(
            n,
        )[i][j] == bit_of(i, j as nat) by {
            let all = all_assignments(n);
            if i < p {
                assert(all[i] == prev[i].push(false));
                if j < m {
                    assert(all[i][j] == prev[i][j]);
                } else {
                    vstd::arithmetic::div_mod::lemma_fundamental_div_mod_converse(i, p, 0, i);
                }
            } else {
                assert(all[i] == prev[i - p].push(true));
                if j < m {
                    assert(all[i][j] == prev[i - p][j]);
                    let d = pow2(j as nat) as int;
                    lemma_pow2_positive(j as nat);
                    let rest = (m - j - 1) as nat;
                    lemma_pow2_add(j as nat, (rest + 1) as nat);
                    assert(j as nat + (rest + 1) as nat == m);
                    let q = pow2(rest) as int;
                    assert(pow2((rest + 1) as nat) == 2 * pow2(rest));
                    assert(p == d * (2 * q));
                    let x = i - p;
                    vstd::arithmetic::div_mod::lemma_fundamental_div_mod(x, d);
                    vstd::arithmetic::div_mod::lemma_remainder(x, d);
                    assert(i == (x / d + 2 * q) * d + x % d) by (nonlinear_arith)
                        requires
                            x == d * (x / d) + x % d,
                            p == d * (2 * q),
                            i == x + p,
                    ;
                    vstd::arithmetic::div_mod::lemma_fundamental_div_mod_converse(
                        i,
                        d,
                        x / d + 2 * q,
                        x % d,
                    );
                    vstd::arithmetic::div_mod::lemma_mod_multiples_vanish(q, x / d, 2);
                } else {
                    vstd::arithmetic::div_mod::lemma_fundamental_div_mod_converse(i, p, 1, i - p);
                }
            }
        }
    }
}

/// `s` from the first occurrence of `x` on; empty when `x` does not occur.
pub open spec fn from_first(s: Seq<usize>, x: usize) -> Seq<usize>
    decreases s.len(),
{
    if s.len() == 0 {
        Seq::empty()
    } else if s[0] == x {
        s
    } else {
        from_first(s.drop_first(), x)
    }
}

pub open spec fn reversed(s: Seq<usize>) -> Seq<usize> {
    Seq::new(s.len(), |i: int| s[s.len() - 1 - i])
}

/// The vertices that a fan-out from `node` visits: the traversal order
/// reversed, from `node` on.
pub fn fan_out_order(order: &Vec<usize>, node: usize) -> (r: Vec<usize>)
    ensures
        r@ == from_first(reversed(order@), node),
{
    let ghost rev = reversed(order@);
    let mut out: Vec<usize> = Vec::new();
    let mut started = false;
    let mut i: usize = order.len();
    assert(rev.skip(0) =~= rev);
    while i > 0
        invariant
            i <= order@.len(),
            rev == reversed(order@),
            started ==> from_first(rev, node) == out@ + rev.skip(order@.len() - i),
            !started ==> out@.len() == 0 && from_first(rev, node) == from_first(
                rev.skip(order@.len() - i),
                node,
            ),
        decreases i,
    {
        i = i - 1;
        let ghost p = order@.len() - 1 - i;
        let v = order[i];
        assert(rev[p] == v);
        assert(rev.skip(p).drop_first() =~= rev.skip(p + 1));
        if v == node {
            started = true;
        }
        if started {
            let ghost before = out@;
            out.push(v);
            assert(before + rev.skip(p) =~= out@ + rev.skip(p + 1));
        }
    }
    assert(rev.skip(order@.len() as int) =~= Seq::<usize>::empty());
    assert(out@ + Seq::<usize>::empty() =~= out@);
    out
}

impl PropositionGraph {
    /// Whether vertex `i` is a root: a single vertex with no edge into it.
    pub open spec fn is_root_at(&self, i: int) -> bool {
        self.content(i) is Single && parents_of(self.edges@, i as usize).len() == 0
    }

    /// Whether some edge goes from `a` to `b`.
    pub open spec fn linked(&self, a: usize, b: usize) -> bool {
        exists|e: int| 0 <= e < self.edges@.len() && #[trigger] self.edges@[e] == (a, b)
    }

    /// Breadth-first order from the roots along forward edges: the roots first,
    /// in index order; each vertex once; every other vertex after a vertex that
    /// links to it; and every vertex that a listed vertex links to is listed.
    pub fn get_bfs_order(&self) -> (r: Vec<usize>)
        requires
            self.well_formed(),
        ensures
            forall|k: int| 0 <= k < r@.len() ==> #[trigger] r@[k] < self.nodes@.len(),
            forall|k: int, m: int| 0 <= k < m < r@.len() ==> r@[k] != r@[m],
            forall|i: int| 0 <= i < self.nodes@.len() && self.is_root_at(i) ==> r@.contains(i as usize),
            forall|k: int|
                0 <= k < r@.len() ==> self.is_root_at(#[trigger] r@[k] as int) || exists|j: int|
                    0 <= j < k && self.linked(r@[j], r@[k]),
            forall|k: int, e: int|
                0 <= k < r@.len() && 0 <= e < self.edges@.len() && self.edges@[e].0 == #[trigger] r@[k]
                    ==> r@.contains(#[trigger] self.edges@[e].1),
            forall|k: int, m: int|
                0 <= k < m < r@.len() && self.is_root_at(#[trigger] r@[m] as int) ==> self.is_root_at(
                    #[trigger] r@[k] as int,
                ) && r@[k] < r@[m],
    {
        let n = self.nodes.len();
        let mut visited: Vec<bool> = Vec::new();
        let mut order: Vec<usize> = Vec::new();
        let mut i: usize = 0;
        while i < n
            invariant
                n == self.nodes@.len(),
                i <= n,
                visited@.len() == i,
                forall|k: int| 0 <= k < order@.len() ==> #[trigger] order@[k] < i,
                forall|k: int, m: int| 0 <= k < m < order@.len() ==> order@[k] != order@[m],
                forall|k: int, m: int| 0 <= k < m < order@.len() ==> order@[k] < order@[m],
                forall|k: int| 0 <= k < order@.len() ==> self.is_root_at(#[trigger] order@[k] as int),
                forall|v: int| 0 <= v < i ==> (#[trigger] visited@[v] <==> order@.contains(v as usize)),
                forall|v: int| 0 <= v < i && self.is_root_at(v) ==> order@.contains(v as usize),
            decreases n - i,
        {
            let root = self.is_root(i);
            let ghost order0 = order@;
            let ghost visited0 = visited@;
            if root {
                order.push(i);
                assert(order@[order@.len() - 1] == i);
            }
            visited.push(root);
            proof {
                assert forall|v: int| 0 <= v < i + 1 implies (#[trigger] visited@[v]
                    <==> order@.contains(v as usize)) by {
                    if v < i {
                        assert(visited@[v] == visited0[v]);
                        if order@.contains(v as usize) {
                            let k = choose|k: int| 0 <= k < order@.len() && order@[k] == v as usize;
                            assert(k < order0.len());
                            assert(order0[k] == v);
                        }
                        if order0.contains(v as usize) {
                            let k = choose|k: int| 0 <= k < order0.len() && order0[k] == v as usize;
                            assert(order@[k] == v);
                        }
                    } else {
                        if root {
                            assert(order@[order@.len() - 1] == v as usize);
                        } else {
                            if order@.contains(v as usize) {
                                let k = choose|k: int|
                                    0 <= k < order@.len() && order@[k] == v as usize;
                                assert(order0[k] < i);
                            }
                        }
                    }
                }
                assert forall|v: int| 0 <= v < i + 1 && self.is_root_at(v) implies order@.contains(
                    v as usize,
                ) by {
                    if v == i {
                        assert(order@[order@.len() - 1] == v as usize);
                    } else {
                        assert(order0.contains(v as usize));
                        let k = choose|k: int| 0 <= k < order0.len() && order0[k] == v as usize;
                        assert(order@[k] == v);
                    }
                }
            }
            i = i + 1;
        }
        let ghost rc = order@.len();
        let mut head: usize = 0;
        while head < order.len()
            invariant
                rc <= order@.len(),
                forall|k: int| 0 <= k < rc ==> self.is_root_at(#[trigger] order@[k] as int),
                forall|k: int| rc <= k < order@.len() ==> !self.is_root_at(#[trigger] order@[k] as int),
                forall|k: int, m: int| 0 <= k < m < rc ==> order@[k] < order@[m],
                n == self.nodes@.len(),
                self.well_formed(),
                head <= order@.len(),
                visited@.len() == n,
                forall|k: int| 0 <= k < order@.len() ==> #[trigger] order@[k] < n,
                forall|k: int, m: int| 0 <= k < m < order@.len() ==> order@[k] != order@[m],
                forall|v: int| 0 <= v < n ==> (#[trigger] visited@[v] <==> order@.contains(v as usize)),
                forall|v: int| 0 <= v < n && self.is_root_at(v) ==> order@.contains(v as usize),
                forall|k: int|
                    0 <= k < order@.len() ==> self.is_root_at(#[trigger] order@[k] as int) || exists|
                        j: int,
                    | 0 <= j < k && self.linked(order@[j], order@[k]),
                forall|k: int, e: int|
                    0 <= k < head && 0 <= e < self.edges@.len() && self.edges@[e].0 == #[trigger] order@[k]
                        ==> order@.contains(#[trigger] self.edges@[e].1),
            decreases usize::MAX - order@.len(), order@.len() - head,
        {
            let x = order[head];
            let mut e: usize = 0;
            let ghost start = order@;
            while e < self.edges.len()
                invariant
                    rc <= start.len(),
                    forall|k: int| 0 <= k < rc ==> self.is_root_at(#[trigger] order@[k] as int),
                    forall|k: int|
                        rc <= k < order@.len() ==> !self.is_root_at(#[trigger] order@[k] as int),
                    forall|k: int, m: int| 0 <= k < m < rc ==> order@[k] < order@[m],
                    n == self.nodes@.len(),
                    self.well_formed(),
                    head < start.len(),
                    x == start[head as int],
                    start.len() <= order@.len(),
                    forall|k: int| 0 <= k < start.len() ==> #[trigger] order@[k] == start[k],
                    e <= self.edges@.len(),
                    visited@.len() == n,
                    forall|k: int| 0 <= k < order@.len() ==> #[trigger] order@[k] < n,
                    forall|k: int, m: int| 0 <= k < m < order@.len() ==> order@[k] != order@[m],
                    forall|v: int|
                        0 <= v < n ==> (#[trigger] visited@[v] <==> order@.contains(v as usize)),
                    forall|v: int| 0 <= v < n && self.is_root_at(v) ==> order@.contains(v as usize),
                    forall|k: int|
                        0 <= k < order@.len() ==> self.is_root_at(#[trigger] order@[k] as int) || exists|
                            j: int,
                        | 0 <= j < k && self.linked(order@[j], order@[k]),
                    forall|k: int, f: int|
                        0 <= k < head && 0 <= f < self.edges@.len() && self.edges@[f].0
                            == #[trigger] order@[k] ==> order@.contains(#[trigger] self.edges@[f].1),
                    forall|f: int|
                        0 <= f < e && self.edges@[f].0 == x ==> order@.contains(
                            #[trigger] self.edges@[f].1,
                        ),
                decreases self.edges@.len() - e,
            {
                let (a, b) = self.edges[e];
                assert(b < n);
                if a == x && !visited[b] {
                    let ghost before = order@;
                    order.push(b);
                    visited.set(b, true);
                    proof {
                        assert(order@[before.len() as int] == b);
                        assert(!self.is_root_at(b as int)) by {
                            if self.is_root_at(b as int) {
                                assert(before.contains(b));
                            }
                        }
                        assert forall|k: int| 0 <= k < rc implies self.is_root_at(#[trigger] order@[k] as int) by {
                            assert(order@[k] == before[k]);
                        }
                        assert forall|k: int| rc <= k < order@.len() implies !self.is_root_at(
                            #[trigger] order@[k] as int,
                        ) by {
                            if k < before.len() {
                                assert(order@[k] == before[k]);
                            }
                        }
                        assert forall|k: int, m: int| 0 <= k < m < rc implies order@[k] < order@[m] by {
                            assert(order@[k] == before[k]);
                            assert(order@[m] == before[m]);
                        }
                        assert(self.linked(order@[head as int], b)) by {
                            assert(self.edges@[e as int] == (x, b));
                        }
                        assert forall|k: int| 0 <= k < order@.len() implies self.is_root_at(
                            #[trigger] order@[k] as int,
                        ) || exists|j: int| 0 <= j < k && self.linked(order@[j], order@[k]) by {
                            if k < before.len() {
                                assert(order@[k] == before[k]);
                                if !self.is_root_at(before[k] as int) {
                                    let j = choose|j: int|
                                        0 <= j < k && self.linked(before[j], before[k]);
                                    assert(order@[j] == before[j]);
                                }
                            } else {
                                assert(0 <= head < k && self.linked(order@[head as int], order@[k]));
                            }
                        }
                        assert forall|k: int, m: int| 0 <= k < m < order@.len() implies order@[k]
                            != order@[m] by {
                            if m == before.len() {
                                assert(!before.contains(b));
                                assert(order@[k] == before[k]);
                            }
                        }
                        assert forall|v: int| 0 <= v < n implies (#[trigger] visited@[v]
                            <==> order@.contains(v as usize)) by {
                            if v != b {
                                if order@.contains(v as usize) {
                                    let k = choose|k: int|
                                        0 <= k < order@.len() && order@[k] == v as usize;
                                    assert(before[k] == v);
                                }
                                if before.contains(v as usize) {
                                    let k = choose|k: int|
                                        0 <= k < before.len() && before[k] == v as usize;
                                    assert(order@[k] == v);
                                }
                            }
                        }
                        assert forall|v: int| 0 <= v < n && self.is_root_at(v) implies order@.contains(
                            v as usize,
                        ) by {
                            let k = choose|k: int| 0 <= k < before.len() && before[k] == v as usize;
                            assert(order@[k] == v);
                        }
                        assert forall|k: int, f: int|
                            0 <= k < head && 0 <= f < self.edges@.len() && self.edges@[f].0
                                == #[trigger] order@[k] implies order@.contains(
                            #[trigger] self.edges@[f].1,
                        ) by {
                            assert(before.contains(self.edges@[f].1));
                            let m = choose|m: int|
                                0 <= m < before.len() && before[m] == self.edges@[f].1;
                            assert(order@[m] == before[m]);
                        }
                        assert forall|f: int|
                            0 <= f < e + 1 && self.edges@[f].0 == x implies order@.contains(
                            #[trigger] self.edges@[f].1,
                        ) by {
                            if f < e {
                                let m = choose|m: int|
                                    0 <= m < before.len() && before[m] == self.edges@[f].1;
                                assert(order@[m] == before[m]);
                            } else {
                                assert(order@[before.len() as int] == b);
                            }
                        }
                    }
                } else {
                    proof {
                        if a == x {
                            assert(visited@[b as int]);
                        }
                    }
                }
                e = e + 1;
            }
            proof {
                assert forall|k: int, f: int|
                    0 <= k < head + 1 && 0 <= f < self.edges@.len() && self.edges@[f].0
                        == #[trigger] order@[k] implies order@.contains(#[trigger] self.edges@[f].1) by {
                    if k == head {
                        assert(order@[k] == x);
                    }
                }
            }
            let len_now = order.len();
            head = head + 1;
        }
        assert forall|k: int, m: int|
            0 <= k < m < order@.len() && self.is_root_at(#[trigger] order@[m] as int) implies self.is_root_at(
            #[trigger] order@[k] as int,
        ) && order@[k] < order@[m] by {
            assert(m < rc);
        }
        order
    }
}

} // verus!
