use vstd::prelude::*;

verus! {

/// How many elements of `s` satisfy `p`.
pub open spec fn count_where(s: Seq<u64>, p: spec_fn(u64) -> bool) -> nat
    decreases s.len(),
{
    if s.len() == 0 {
        0
    } else {
        count_where(s.drop_last(), p) + if p(s.last()) {
            1nat
        } else {
            0nat
        }
    }
}

/// Below `r`.
pub open spec fn below(r: u64) -> spec_fn(u64) -> bool {
    |x: u64| x < r
}

/// At most `r`.
pub open spec fn at_most(r: u64) -> spec_fn(u64) -> bool {
    |x: u64| x <= r
}

/// The keys of `m` whose value satisfies `p`.
pub open spec fn value_satisfies(m: Map<u64, u64>, p: spec_fn(u64) -> bool) -> spec_fn(u64) -> bool {
    |k: u64| p(m[k])
}

/// How many keys of `m` map to a value that satisfies `p`.
pub open spec fn keys_where(m: Map<u64, u64>, p: spec_fn(u64) -> bool) -> nat {
    m.dom().filter(value_satisfies(m, p)).len()
}

/// `s` is in ascending order.
pub open spec fn ascending(s: Seq<u64>) -> bool {
    forall|i: int, j: int| 0 <= i <= j < s.len() ==> s[i] <= s[j]
}

/// Counting is additive over concatenation.
pub proof fn lemma_count_add(a: Seq<u64>, b: Seq<u64>, p: spec_fn(u64) -> bool)
    ensures
        count_where(a + b, p) == count_where(a, p) + count_where(b, p),
    decreases b.len(),
{
    if b.len() == 0 {
        assert(a + b =~= a);
    } else {
        assert((a + b).drop_last() =~= a + b.drop_last());
        assert((a + b).last() == b.last());
        lemma_count_add(a, b.drop_last(), p);
    }
}

/// Counting is bounded by the length, and equals it when every element
/// satisfies the predicate, and 0 when none does.
pub proof fn lemma_count_bounds(s: Seq<u64>, p: spec_fn(u64) -> bool)
    ensures
        count_where(s, p) <= s.len(),
        (forall|i: int| 0 <= i < s.len() ==> p(#[trigger] s[i])) ==> count_where(s, p) == s.len(),
        (forall|i: int| 0 <= i < s.len() ==> !p(#[trigger] s[i])) ==> count_where(s, p) == 0,
    decreases s.len(),
{
    if s.len() > 0 {
        let init = s.drop_last();
        assert forall|i: int| 0 <= i < init.len() implies init[i] == s[i] by {}
        lemma_count_bounds(init, p);
        assert(s.last() == s[s.len() - 1]);
    }
}

/// Removing one element takes its contribution out of the count.
pub proof fn lemma_count_remove(s: Seq<u64>, j: int, p: spec_fn(u64) -> bool)
    requires
        0 <= j < s.len(),
    ensures
        count_where(s, p) == count_where(s.remove(j), p) + if p(s[j]) {
            1nat
        } else {
            0nat
        },
{
    let left = s.take(j);
    let right = s.skip(j + 1);
    assert(s =~= left + seq![s[j]] + right);
    assert(s.remove(j) =~= left + right);
    lemma_count_add(left + seq![s[j]], right, p);
    lemma_count_add(left, seq![s[j]], p);
    lemma_count_add(left, right, p);
    assert(seq![s[j]].drop_last() =~= Seq::<u64>::empty());
    assert(count_where(Seq::<u64>::empty(), p) == 0);
    assert(seq![s[j]].last() == s[j]);
}

/// Two sequences with the same elements, counted with multiplicity, have the
/// same counts.
pub proof fn lemma_count_permutation(s: Seq<u64>, t: Seq<u64>, p: spec_fn(u64) -> bool)
    requires
        s.to_multiset() == t.to_multiset(),
    ensures
        count_where(s, p) == count_where(t, p),
    decreases s.len(),
{
    broadcast use vstd::seq_lib::group_to_multiset_ensures;
    broadcast use vstd::multiset::group_multiset_axioms;

    if s.len() == 0 {
        assert(t.to_multiset().len() == 0);
        assert(t.len() == 0);
    } else {
        let x = s.last();
        let init = s.drop_last();
        assert(init.push(x) =~= s);
        assert(s.to_multiset() == init.to_multiset().insert(x));
        assert(t.to_multiset().count(x) > 0);
        assert(t.contains(x));
        let j = choose|j: int| 0 <= j < t.len() && t[j] == x;
        assert(t.remove(j).to_multiset() == t.to_multiset().remove(x));
        assert(init.to_multiset() =~= t.remove(j).to_multiset());
        lemma_count_permutation(init, t.remove(j), p);
        lemma_count_remove(t, j, p);
    }
}

/// In an ascending sequence, fewer than `k + 1` elements lie below its `k`-th
/// element, and more than `k` are at most that element.
pub proof fn lemma_ascending_rank(t: Seq<u64>, k: int)
    requires
        ascending(t),
        0 <= k < t.len(),
    ensures
        count_where(t, below(t[k])) <= k,
        count_where(t, at_most(t[k])) >= k + 1,
{
    let r = t[k];
    let below = below(r);
    let at_most = at_most(r);
    let head = t.take(k);
    let tail = t.skip(k);
    assert(t =~= head + tail);
    lemma_count_add(head, tail, below);
    lemma_count_bounds(head, below);
    assert forall|i: int| 0 <= i < tail.len() implies !below(#[trigger] tail[i]) by {
        assert(tail[i] == t[k + i]);
    }
    lemma_count_bounds(tail, below);
    let head1 = t.take(k + 1);
    let tail1 = t.skip(k + 1);
    assert(t =~= head1 + tail1);
    lemma_count_add(head1, tail1, at_most);
    assert forall|i: int| 0 <= i < head1.len() implies at_most(#[trigger] head1[i]) by {
        assert(head1[i] == t[i]);
    }
    lemma_count_bounds(head1, at_most);
}

/// For distinct keys `ks` and the values `vs` they have in `m`, counting the
/// values that satisfy `p` counts the keys of `ks` whose value does.
pub proof fn lemma_count_distinct_keys(
    m: Map<u64, u64>,
    ks: Seq<u64>,
    vs: Seq<u64>,
    p: spec_fn(u64) -> bool,
)
    requires
        ks.no_duplicates(),
        ks.len() == vs.len(),
        forall|i: int| 0 <= i < ks.len() ==> #[trigger] vs[i] == m[ks[i]],
    ensures
        ks.to_set().filter(value_satisfies(m, p)).finite(),
        count_where(vs, p) == ks.to_set().filter(value_satisfies(m, p)).len(),
    decreases ks.len(),
{
    broadcast use vstd::set::group_set_axioms;
    broadcast use vstd::seq_lib::seq_to_set_is_finite;

    let q = value_satisfies(m, p);
    if ks.len() == 0 {
        assert(ks.to_set().filter(q) =~= Set::<u64>::empty());
    } else {
        let init = ks.drop_last();
        let x = ks.last();
        assert forall|i: int| 0 <= i < init.len() implies #[trigger] vs.drop_last()[i] == m[init[i]] by {
            assert(vs.drop_last()[i] == vs[i]);
            assert(init[i] == ks[i]);
        }
        assert(init.no_duplicates()) by {
            assert forall|i: int, j: int| 0 <= i < init.len() && 0 <= j < init.len() && i != j implies init[i]
                != init[j] by {
                assert(init[i] == ks[i] && init[j] == ks[j]);
            }
        }
        lemma_count_distinct_keys(m, init, vs.drop_last(), p);
        assert(ks.to_set() =~= init.to_set().insert(x)) by {
            assert(init.push(x) =~= ks);
            assert forall|k: u64| ks.to_set().contains(k) <==> init.to_set().insert(x).contains(k) by {
                if ks.to_set().contains(k) {
                    let i = choose|i: int| 0 <= i < ks.len() && ks[i] == k;
                    if i < init.len() {
                        assert(init[i] == k);
                    }
                }
                if init.to_set().contains(k) {
                    let i = choose|i: int| 0 <= i < init.len() && init[i] == k;
                    assert(ks[i] == k);
                }
                if k == x {
                    assert(ks[ks.len() - 1] == x);
                }
            }
        }
        assert(!init.to_set().contains(x)) by {
            if init.to_set().contains(x) {
                let i = choose|i: int| 0 <= i < init.len() && init[i] == x;
                assert(ks[i] == ks[ks.len() - 1]);
            }
        }
        assert(vs.last() == m[x]) by {
            assert(vs[vs.len() - 1] == m[ks[ks.len() - 1]]);
        }
        if q(x) {
            assert(ks.to_set().filter(q) =~= init.to_set().filter(q).insert(x));
        } else {
            assert(ks.to_set().filter(q) =~= init.to_set().filter(q));
        }
    }
}

} // verus!
