//! Text helpers: a lexicographic order on character sequences, sorting and
//! joining of strings, all with exact specifications.
use vstd::prelude::*;
use vstd::relations::{sorted_by, total_ordering};

verus! {

/// Lexicographic order on character sequences, comparing characters by code point.
pub open spec fn text_leq(a: Seq<char>, b: Seq<char>) -> bool
    decreases a.len(),
{
    if a.len() == 0 {
        true
    } else if b.len() == 0 {
        false
    } else if a[0] != b[0] {
        (a[0] as int) < (b[0] as int)
    } else {
        text_leq(a.drop_first(), b.drop_first())
    }
}

/// `text_leq` as a closure, for the sorting lemmas of vstd.
pub open spec fn text_order() -> spec_fn(Seq<char>, Seq<char>) -> bool {
    |a: Seq<char>, b: Seq<char>| text_leq(a, b)
}

proof fn lemma_text_leq_reflexive(a: Seq<char>)
    ensures
        text_leq(a, a),
    decreases a.len(),
{
    if a.len() > 0 {
        lemma_text_leq_reflexive(a.drop_first());
    }
}

proof fn lemma_text_leq_antisymmetric(a: Seq<char>, b: Seq<char>)
    requires
        text_leq(a, b),
        text_leq(b, a),
    ensures
        a == b,
    decreases a.len(),
{
    if a.len() > 0 && b.len() > 0 {
        if a[0] == b[0] {
            lemma_text_leq_antisymmetric(a.drop_first(), b.drop_first());
            assert(a =~= seq![a[0]] + a.drop_first());
            assert(b =~= seq![b[0]] + b.drop_first());
        } else {
            assert((a[0] as int) != (b[0] as int));
        }
    } else {
        assert(a =~= b);
    }
}

proof fn lemma_text_leq_transitive(a: Seq<char>, b: Seq<char>, c: Seq<char>)
    requires
        text_leq(a, b),
        text_leq(b, c),
    ensures
        text_leq(a, c),
    decreases a.len(),
{
    if a.len() > 0 && b.len() > 0 && c.len() > 0 {
        if a[0] == b[0] && b[0] == c[0] {
            lemma_text_leq_transitive(a.drop_first(), b.drop_first(), c.drop_first());
        }
    }
}

proof fn lemma_text_leq_connected(a: Seq<char>, b: Seq<char>)
    ensures
        text_leq(a, b) || text_leq(b, a),
    decreases a.len(),
{
    if a.len() > 0 && b.len() > 0 {
        if a[0] == b[0] {
            lemma_text_leq_connected(a.drop_first(), b.drop_first());
        } else {
            assert((a[0] as int) != (b[0] as int));
        }
    }
}

/// The lexicographic order is a total order.
pub proof fn lemma_text_order_total()
    ensures
        total_ordering(text_order()),
{
    assert forall|a: Seq<char>| #[trigger] text_order()(a, a) by {
        lemma_text_leq_reflexive(a);
    }
    assert forall|a: Seq<char>, b: Seq<char>|
        #[trigger] text_order()(a, b) && #[trigger] text_order()(b, a) implies a == b by {
        lemma_text_leq_antisymmetric(a, b);
    }
    assert forall|a: Seq<char>, b: Seq<char>, c: Seq<char>|
        #[trigger] text_order()(a, b) && #[trigger] text_order()(b, c) implies text_order()(
        a,
        c,
    ) by {
        lemma_text_leq_transitive(a, b, c);
    }
    assert forall|a: Seq<char>, b: Seq<char>|
        #[trigger] text_order()(a, b) || #[trigger] text_order()(b, a) by {
        lemma_text_leq_connected(a, b);
    }
}

/// Compares two strings in lexicographic order.
pub fn text_le(a: &str, b: &str) -> (r: bool)
    ensures
        r == text_leq(a@, b@),
{
    let n = a.unicode_len();
    let m = b.unicode_len();
    let mut i: usize = 0;
    assert(a@.skip(0) =~= a@);
    assert(b@.skip(0) =~= b@);
    while i < n && i < m
        invariant
            n == a@.len(),
            m == b@.len(),
            i <= n,
            i <= m,
            text_leq(a@, b@) == text_leq(a@.skip(i as int), b@.skip(i as int)),
        decreases n - i,
    {
        let x = a.get_char(i);
        let y = b.get_char(i);
        if x != y {
            return x < y;
        }
        assert(a@.skip(i as int).drop_first() =~= a@.skip(i + 1));
        assert(b@.skip(i as int).drop_first() =~= b@.skip(i + 1));
        i = i + 1;
    }
    i == n
}

/// Lifts the views of a vector of strings.
pub open spec fn views(v: Seq<String>) -> Seq<Seq<char>> {
    v.map_values(|s: String| s@)
}

/// Sorts strings in lexicographic order (insertion sort).
pub fn sort_strings(v: Vec<String>) -> (r: Vec<String>)
    ensures
        sorted_by(views(r@), text_order()),
        views(r@).to_multiset() == views(v@).to_multiset(),
        views(r@) == views(v@).sort_by(text_order()),
{
    let mut out: Vec<String> = Vec::new();
    let mut i: usize = 0;
    proof {
        lemma_text_order_total();
        assert(views(v@.take(0)) =~= views(out@));
    }
    while i < v.len()
        invariant
            i <= v@.len(),
            total_ordering(text_order()),
            sorted_by(views(out@), text_order()),
            views(out@).to_multiset() == views(v@.take(i as int)).to_multiset(),
        decreases v@.len() - i,
    {
        let s = v[i].clone();
        let mut j: usize = 0;
        while j < out.len() && text_le(out[j].as_str(), s.as_str())
            invariant
                j <= out@.len(),
                forall|k: int| 0 <= k < j ==> text_leq(#[trigger] out@[k]@, s@),
            decreases out@.len() - j,
        {
            j = j + 1;
        }
        let ghost before = views(out@);
        out.insert(j, s.clone());
        proof {
            assert(views(out@) =~= before.insert(j as int, s@));
            vstd::seq_lib::to_multiset_insert(before, j as int, s@);
            assert(views(v@.take(i + 1)) =~= views(v@.take(i as int)).push(s@));
            vstd::seq_lib::to_multiset_build(views(v@.take(i as int)), s@);
            assert forall|p: int, q: int| 0 <= p < q < views(out@).len() implies
                #[trigger] text_order()(views(out@)[p], views(out@)[q]) by {
                if q < j {
                } else if p == j {
                    if q > j {
                        assert(text_order()(before[j as int], before[q - 1]));
                        lemma_text_leq_connected(before[j as int], s@);
                        lemma_text_leq_transitive(s@, before[j as int], before[q - 1]);
                    }
                } else if q == j {
                    assert(text_leq(before[p], s@));
                } else if p < j {
                    if q > j {
                        assert(text_order()(before[p], before[q - 1]));
                    }
                } else {
                    assert(text_order()(before[p - 1], before[q - 1]));
                }
            }
        }
        i = i + 1;
    }
    proof {
        assert(v@.take(v@.len() as int) =~= v@);
        views(v@).lemma_sort_by_ensures(text_order());
        vstd::seq_lib::lemma_sorted_unique(views(out@), views(v@).sort_by(text_order()), text_order());
    }
    out
}

/// The parts joined in order, with `sep` between neighbours.
pub open spec fn join_text(parts: Seq<Seq<char>>, sep: Seq<char>) -> Seq<char>
    decreases parts.len(),
{
    if parts.len() == 0 {
        Seq::empty()
    } else if parts.len() == 1 {
        parts[0]
    } else {
        join_text(parts.drop_last(), sep) + sep + parts.last()
    }
}

/// Joins strings with a separator.
pub fn join_strings(parts: &Vec<String>, sep: &str) -> (r: String)
    ensures
        r@ == join_text(views(parts@), sep@),
{
    let mut out = String::new();
    let mut i: usize = 0;
    assert(views(parts@).take(0) =~= Seq::<Seq<char>>::empty());
    while i < parts.len()
        invariant
            i <= parts@.len(),
            out@ == join_text(views(parts@).take(i as int), sep@),
        decreases parts@.len() - i,
    {
        if i > 0 {
            out.append(sep);
        }
        out.append(parts[i].as_str());
        assert(views(parts@).take(i + 1).drop_last() =~= views(parts@).take(i as int));
        if i == 0 {
            assert(out@ =~= join_text(views(parts@).take(1), sep@));
        }
        i = i + 1;
    }
    assert(views(parts@).take(parts@.len() as int) =~= views(parts@));
    out
}

/// Mapping a function over two sequences with the same elements gives
/// sequences with the same elements.
pub proof fn lemma_map_values_multiset<A, B>(x: Seq<A>, y: Seq<A>, f: spec_fn(A) -> B)
    requires
        x.to_multiset() == y.to_multiset(),
    ensures
        x.map_values(f).to_multiset() == y.map_values(f).to_multiset(),
    decreases x.len(),
{
    broadcast use vstd::multiset::group_multiset_axioms;
    broadcast use vstd::seq_lib::group_to_multiset_ensures;

    if x.len() == 0 {
        vstd::seq_lib::to_multiset_len(y);
        assert(x.map_values(f) =~= y.map_values(f));
    } else {
        let a = x.last();
        vstd::seq_lib::to_multiset_contains(x, a);
        assert(x.contains(a)) by {
            assert(x[x.len() - 1] == a);
        }
        vstd::seq_lib::to_multiset_contains(y, a);
        let i = choose|i: int| 0 <= i < y.len() && y[i] == a;
        vstd::seq_lib::to_multiset_remove(y, i);
        vstd::seq_lib::to_multiset_remove(x, x.len() - 1);
        assert(x.remove(x.len() - 1) =~= x.drop_last());
        lemma_map_values_multiset(x.drop_last(), y.remove(i), f);
        assert(x.map_values(f) =~= x.drop_last().map_values(f).push(f(a)));
        vstd::seq_lib::to_multiset_build(x.drop_last().map_values(f), f(a));
        assert(y.map_values(f) =~= y.remove(i).map_values(f).insert(i, f(a)));
        vstd::seq_lib::to_multiset_insert(y.remove(i).map_values(f), i, f(a));
    }
}

} // verus!
