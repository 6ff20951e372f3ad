//! Ordered keys of integer-keyed maps.

use std::collections::BTreeMap;
use vstd::prelude::*;
use vstd::std_specs::iter::IteratorSpec;

verus! {

/// Every element of `s` is smaller than every later one.
pub open spec fn strictly_increasing(s: Seq<i64>) -> bool {
    forall|i: int, j: int| 0 <= i < j < s.len() ==> s[i] < s[j]
}

/// The elements of `keys` in increasing order.
pub open spec fn sorted_keys(keys: Set<i64>) -> Seq<i64> {
    choose|s: Seq<i64>| strictly_increasing(s) && s.to_set() == keys
}

/// Two strictly increasing sequences with the same elements are equal.
pub proof fn lemma_increasing_unique(a: Seq<i64>, b: Seq<i64>)
    requires
        strictly_increasing(a),
        strictly_increasing(b),
        a.to_set() == b.to_set(),
    ensures
        a == b,
    decreases a.len(),
{
    if a.len() == 0 {
        if b.len() > 0 {
            assert(b.to_set().contains(b[0]));
        }
        assert(a =~= b);
    } else {
        assert(a.to_set().contains(a[0]));
        assert(b.len() > 0);
        assert(b.to_set().contains(b[0]));
        let i = choose|i: int| 0 <= i < a.len() && a[i] == b[0];
        let j = choose|j: int| 0 <= j < b.len() && b[j] == a[0];
        assert(a[0] == b[0]) by {
            if i > 0 {
                assert(a[0] < a[i]);
            }
            if j > 0 {
                assert(b[0] < b[j]);
            }
        }
        let a1 = a.drop_first();
        let b1 = b.drop_first();
        assert(a1.to_set() =~= b1.to_set()) by {
            assert forall|x: i64| a1.to_set().contains(x) implies b1.to_set().contains(x) by {
                let k = choose|k: int| 0 <= k < a1.len() && a1[k] == x;
                assert(a.to_set().contains(x));
                let l = choose|l: int| 0 <= l < b.len() && b[l] == x;
                assert(a[0] < a[k + 1]);
                assert(l != 0);
                assert(b1[l - 1] == x);
            }
            assert forall|x: i64| b1.to_set().contains(x) implies a1.to_set().contains(x) by {
                let k = choose|k: int| 0 <= k < b1.len() && b1[k] == x;
                assert(b.to_set().contains(x));
                let l = choose|l: int| 0 <= l < a.len() && a[l] == x;
                assert(b[0] < b[k + 1]);
                assert(l != 0);
                assert(a1[l - 1] == x);
            }
        }
        lemma_increasing_unique(a1, b1);
        assert(a =~= b) by {
            assert forall|k: int| 0 <= k < a.len() implies a[k] == b[k] by {
                if k > 0 {
                    assert(a[k] == a1[k - 1]);
                    assert(b[k] == b1[k - 1]);
                }
            }
        }
    }
}

/// A strictly increasing enumeration of `keys` is `sorted_keys(keys)`.
pub proof fn lemma_sorted_keys_unique(keys: Set<i64>, s: Seq<i64>)
    requires
        strictly_increasing(s),
        s.to_set() == keys,
    ensures
        sorted_keys(keys) == s,
{
    let c = sorted_keys(keys);
    assert(strictly_increasing(c) && c.to_set() == keys);
    lemma_increasing_unique(c, s);
}

proof fn lemma_filter_increasing(q: Seq<i64>, pred: spec_fn(i64) -> bool)
    requires
        strictly_increasing(q),
    ensures
        strictly_increasing(q.filter(pred)),
        forall|i: int|
            0 <= i < q.filter(pred).len() ==> q.contains(#[trigger] q.filter(pred)[i]) && pred(
                q.filter(pred)[i],
            ),
        forall|i: int| 0 <= i < q.len() && pred(q[i]) ==> q.filter(pred).contains(#[trigger] q[i]),
    decreases q.len(),
{
    reveal_with_fuel(Seq::filter, 1);
    if q.len() > 0 {
        let d = q.drop_last();
        assert(strictly_increasing(d));
        lemma_filter_increasing(d, pred);
        let fd = d.filter(pred);
        assert forall|i: int| 0 <= i < fd.len() implies #[trigger] fd[i] < q.last() by {
            let j = choose|j: int| 0 <= j < d.len() && d[j] == fd[i];
            assert(q[j] < q[q.len() - 1]);
        }
        assert forall|i: int| 0 <= i < fd.len() implies q.contains(#[trigger] fd[i]) by {
            let j = choose|j: int| 0 <= j < d.len() && d[j] == fd[i];
            assert(q[j] == fd[i]);
        }
        if pred(q.last()) {
            assert(q.filter(pred) == fd.push(q.last()));
            assert(fd.push(q.last())[fd.len() as int] == q.last());
            assert forall|i: int| 0 <= i < q.len() && pred(q[i]) implies q.filter(pred).contains(
                #[trigger] q[i],
            ) by {
                if i < q.len() - 1 {
                    assert(d[i] == q[i]);
                    let j = choose|j: int| 0 <= j < fd.len() && fd[j] == d[i];
                    assert(q.filter(pred)[j] == q[i]);
                } else {
                    assert(q.filter(pred)[fd.len() as int] == q[i]);
                }
            }
        } else {
            assert forall|i: int| 0 <= i < q.len() && pred(q[i]) implies q.filter(pred).contains(
                #[trigger] q[i],
            ) by {
                assert(i < q.len() - 1);
                assert(d[i] == q[i]);
            }
        }
    }
}

/// Every finite set of integers has an increasing enumeration.
pub proof fn lemma_sorted_keys_exist(keys: Set<i64>)
    requires
        keys.finite(),
    ensures
        strictly_increasing(sorted_keys(keys)),
        sorted_keys(keys).to_set() == keys,
    decreases keys.len(),
{
    if keys.len() == 0 {
        let e = Seq::<i64>::empty();
        assert(e.to_set() =~= keys);
        assert(strictly_increasing(e) && e.to_set() == keys);
    } else {
        let x = keys.choose();
        let rest = keys.remove(x);
        lemma_sorted_keys_exist(rest);
        let q = sorted_keys(rest);
        let lo = q.filter(|y: i64| y < x);
        let hi = q.filter(|y: i64| y > x);
        lemma_filter_increasing(q, |y: i64| y < x);
        lemma_filter_increasing(q, |y: i64| y > x);
        let w = lo + seq![x] + hi;
        assert(strictly_increasing(w)) by {
            assert forall|i: int, j: int| 0 <= i < j < w.len() implies w[i] < w[j] by {
                if j < lo.len() {
                    assert(w[i] == lo[i] && w[j] == lo[j]);
                } else if i > lo.len() {
                    assert(w[i] == hi[i - lo.len() - 1] && w[j] == hi[j - lo.len() - 1]);
                } else if i == lo.len() {
                    assert(w[j] == hi[j - lo.len() - 1]);
                } else if j == lo.len() {
                    assert(w[i] == lo[i]);
                } else {
                    assert(w[i] == lo[i]);
                    assert(w[j] == hi[j - lo.len() - 1]);
                }
            }
        }
        assert(w.to_set() =~= keys) by {
            assert forall|y: i64| w.to_set().contains(y) implies keys.contains(y) by {
                let i = choose|i: int| 0 <= i < w.len() && w[i] == y;
                if i < lo.len() {
                    assert(w[i] == lo[i]);
                    assert(q.contains(lo[i]));
                    assert(q.to_set().contains(y));
                } else if i > lo.len() {
                    assert(w[i] == hi[i - lo.len() - 1]);
                    assert(q.contains(hi[i - lo.len() - 1]));
                    assert(q.to_set().contains(y));
                }
            }
            assert forall|y: i64| keys.contains(y) implies w.to_set().contains(y) by {
                if y == x {
                    assert(w[lo.len() as int] == x);
                } else {
                    assert(rest.contains(y));
                    assert(q.to_set().contains(y));
                    let i = choose|i: int| 0 <= i < q.len() && q[i] == y;
                    if y < x {
                        let j = choose|j: int| 0 <= j < lo.len() && lo[j] == q[i];
                        assert(w[j] == y);
                    } else {
                        let j = choose|j: int| 0 <= j < hi.len() && hi[j] == q[i];
                        assert(w[lo.len() + 1 + j] == y);
                    }
                }
            }
        }
    }
}

/// The keys of a map, smallest first.
pub fn key_vec<V>(m: &BTreeMap<i64, V>) -> (ks: Vec<i64>)
    ensures
        ks@ == sorted_keys(m@.dom()),
        ks@.len() == m@.dom().len(),
        ks@.to_set() == m@.dom(),
        strictly_increasing(ks@),
{
    let mut ks: Vec<i64> = Vec::new();
    for k in it: m.keys()
        invariant
            ks@.len() == it.index(),
            forall|i: int| 0 <= i < it.index() ==> ks@[i] == *it.seq()[i],
    {
        ks.push(*k);
    }
    proof {
        let r = vstd::std_specs::btree::spec_keys_iter(m).remaining();
        assert(ks@ =~= r.unref());
        broadcast use vstd::std_specs::btree::axiom_increasing_seq_meaning;
        assert(vstd::laws_cmp::obeys_cmp::<&i64>());
        assert(vstd::std_specs::btree::increasing_seq(r));
        assert forall|i: int, j: int| 0 <= i < j < ks@.len() implies ks@[i] < ks@[j] by {
            assert(vstd::std_specs::cmp::OrdSpec::cmp_spec(&r[i], &r[j]) is Less);
        }
        lemma_sorted_keys_unique(m@.dom(), ks@);
    }
    ks
}

} // verus!
