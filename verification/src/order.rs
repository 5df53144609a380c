//! A stable insertion sort by text key, for the orders the planners rely on.
use vstd::prelude::*;
use crate::text::{compare_text, text_lt, lemma_text_lt_transitive, lemma_text_lt_asymmetric};

verus! {

/// A value ordered by one text key.
pub trait TextKeyed {
    spec fn key_view(&self) -> Seq<char>;

    fn key(&self) -> (r: &String)
        ensures
            r@ == self.key_view(),
    ;
}

pub open spec fn keys<T: TextKeyed>(s: Seq<T>) -> Seq<Seq<char>> {
    s.map_values(|x: T| x.key_view())
}

/// Non-decreasing by code-point order of the keys.
pub open spec fn key_sorted<T: TextKeyed>(s: Seq<T>) -> bool {
    forall|i: int, j: int|
        0 <= i < j < s.len() ==> !text_lt(#[trigger] s[j].key_view(), #[trigger] s[i].key_view())
}

/// Sort by key, keeping equal keys in their input order; the result holds
/// exactly the input's elements.
pub fn sort_by_key<T: TextKeyed>(v: Vec<T>) -> (r: Vec<T>)
    ensures
        r@.len() == v@.len(),
        key_sorted(r@),
        r@.to_multiset() == v@.to_multiset(),
{
    broadcast use vstd::seq_lib::group_to_multiset_ensures;

    let mut v = v;
    let ghost original = v@;
    let mut r: Vec<T> = Vec::new();
    let n = v.len();
    let mut i: usize = 0;
    while i < n
        invariant
            n == original.len(),
            i <= n,
            v@ == original.skip(i as int),
            r@.len() == i,
            key_sorted(r@),
            r@.to_multiset() == original.take(i as int).to_multiset(),
        decreases n - i,
    {
        let x = v.remove(0);
        assert(x == original[i as int]);
        assert(v@ =~= original.skip(i + 1));
        let mut k: usize = 0;
        while k < r.len()
            invariant
                k <= r@.len(),
                forall|j: int| 0 <= j < k ==> !text_lt(x.key_view(), #[trigger] r@[j].key_view()),
            ensures
                k <= r@.len(),
                k < r@.len() ==> text_lt(x.key_view(), r@[k as int].key_view()),
                forall|j: int| 0 <= j < k ==> !text_lt(x.key_view(), #[trigger] r@[j].key_view()),
            decreases r@.len() - k,
        {
            if compare_text(x.key(), r[k].key()) < 0 {
                break;
            }
            k += 1;
        }
        let ghost old_r = r@;
        proof {
            assert forall|j: int| k <= j < old_r.len() implies !text_lt(
                #[trigger] old_r[j].key_view(),
                x.key_view(),
            ) by {
                lemma_text_lt_asymmetric(x.key_view(), old_r[k as int].key_view());
                if j > k && text_lt(old_r[j].key_view(), x.key_view()) {
                    lemma_text_lt_transitive(
                        old_r[j].key_view(),
                        x.key_view(),
                        old_r[k as int].key_view(),
                    );
                }
            }
        }
        r.insert(k, x);
        proof {
            let nr = r@;
            assert(nr == old_r.insert(k as int, x));
            assert forall|a: int, b: int| 0 <= a < b < nr.len() implies !text_lt(
                #[trigger] nr[b].key_view(),
                #[trigger] nr[a].key_view(),
            ) by {
                if a < k && b < k {
                    assert(nr[a] == old_r[a] && nr[b] == old_r[b]);
                } else if a < k && b == k {
                    assert(nr[a] == old_r[a]);
                } else if a < k {
                    assert(nr[a] == old_r[a] && nr[b] == old_r[b - 1]);
                } else if a == k {
                    assert(nr[b] == old_r[b - 1]);
                } else {
                    assert(nr[a] == old_r[a - 1] && nr[b] == old_r[b - 1]);
                }
            }
            assert(original.take(i + 1) =~= original.take(i as int).push(x));
            assert(original.take(i as int).push(x) =~= original.take(i as int).insert(
                i as int,
                x,
            ));
            vstd::seq_lib::to_multiset_insert(old_r, k as int, x);
            vstd::seq_lib::to_multiset_insert(original.take(i as int), i as int, x);
            assert(r@.to_multiset() == old_r.to_multiset().insert(x));
            assert(original.take(i + 1).to_multiset() == original.take(i as int).to_multiset().insert(x));
        }
        i += 1;
    }
    assert(original.take(n as int) =~= original);
    r
}


/// A value ordered by one number.
pub trait NumKeyed {
    spec fn num_view(&self) -> u128;

    fn num(&self) -> (r: u128)
        ensures
            r == self.num_view(),
    ;
}

pub open spec fn num_sorted<T: NumKeyed>(s: Seq<T>) -> bool {
    forall|i: int, j: int| 0 <= i < j < s.len() ==> (#[trigger] s[i]).num_view() <= (#[trigger] s[j]).num_view()
}

/// Sort by number, keeping equal numbers in their input order; the result holds
/// exactly the input's elements.
pub fn sort_by_num<T: NumKeyed>(v: Vec<T>) -> (r: Vec<T>)
    ensures
        r@.len() == v@.len(),
        num_sorted(r@),
        r@.to_multiset() == v@.to_multiset(),
{
    broadcast use vstd::seq_lib::group_to_multiset_ensures;

    let mut v = v;
    let ghost original = v@;
    let mut r: Vec<T> = Vec::new();
    let n = v.len();
    let mut i: usize = 0;
    while i < n
        invariant
            n == original.len(),
            i <= n,
            v@ == original.skip(i as int),
            r@.len() == i,
            num_sorted(r@),
            r@.to_multiset() == original.take(i as int).to_multiset(),
        decreases n - i,
    {
        let x = v.remove(0);
        assert(x == original[i as int]);
        assert(v@ =~= original.skip(i + 1));
        let key = x.num();
        let mut k: usize = 0;
        while k < r.len()
            invariant
                k <= r@.len(),
                key == x.num_view(),
                forall|j: int| 0 <= j < k ==> (#[trigger] r@[j]).num_view() <= x.num_view(),
            ensures
                k <= r@.len(),
                k < r@.len() ==> x.num_view() < r@[k as int].num_view(),
                forall|j: int| 0 <= j < k ==> (#[trigger] r@[j]).num_view() <= x.num_view(),
            decreases r@.len() - k,
        {
            if key < r[k].num() {
                break;
            }
            k += 1;
        }
        let ghost old_r = r@;
        r.insert(k, x);
        proof {
            let nr = r@;
            assert(nr == old_r.insert(k as int, x));
            assert forall|a: int, b: int| 0 <= a < b < nr.len() implies (#[trigger] nr[a]).num_view()
                <= (#[trigger] nr[b]).num_view() by {
                if a < k && b < k {
                    assert(nr[a] == old_r[a] && nr[b] == old_r[b]);
                } else if a < k && b == k {
                    assert(nr[a] == old_r[a]);
                } else if a < k {
                    assert(nr[a] == old_r[a] && nr[b] == old_r[b - 1]);
                } else if a == k {
                    assert(nr[b] == old_r[b - 1]);
                    assert(old_r[k as int].num_view() <= old_r[b - 1].num_view());
                } else {
                    assert(nr[a] == old_r[a - 1] && nr[b] == old_r[b - 1]);
                }
            }
            assert(original.take(i + 1) =~= original.take(i as int).push(x));
            assert(original.take(i as int).push(x) =~= original.take(i as int).insert(i as int, x));
            vstd::seq_lib::to_multiset_insert(old_r, k as int, x);
            vstd::seq_lib::to_multiset_insert(original.take(i as int), i as int, x);
        }
        i += 1;
    }
    assert(original.take(n as int) =~= original);
    r
}

impl TextKeyed for String {
    open spec fn key_view(&self) -> Seq<char> {
        self@
    }

    fn key(&self) -> (r: &String) {
        self
    }
}

impl NumKeyed for usize {
    open spec fn num_view(&self) -> u128 {
        *self as u128
    }

    fn num(&self) -> (r: u128) {
        *self as u128
    }
}

/// A value with a strict order of its own.
pub trait Ordered: Sized {
    spec fn precedes(&self, other: &Self) -> bool;

    fn before(&self, other: &Self) -> (r: bool)
        ensures
            r == self.precedes(other),
    ;

    proof fn precedes_irreflexive(a: Self)
        ensures
            !a.precedes(&a),
    ;

    proof fn precedes_transitive(a: Self, b: Self, c: Self)
        requires
            a.precedes(&b),
            b.precedes(&c),
        ensures
            a.precedes(&c),
    ;
}

pub open spec fn ordered<T: Ordered>(s: Seq<T>) -> bool {
    forall|i: int, j: int| #![trigger s[i], s[j]] 0 <= i < j < s.len() ==> !s[j].precedes(&s[i])
}

/// Sort by the type's own order, keeping unordered values in input order; the
/// result holds exactly the input's elements.
pub fn sort_ordered<T: Ordered>(v: Vec<T>) -> (r: Vec<T>)
    ensures
        r@.len() == v@.len(),
        ordered(r@),
        r@.to_multiset() == v@.to_multiset(),
{
    broadcast use vstd::seq_lib::group_to_multiset_ensures;

    let mut v = v;
    let ghost original = v@;
    let mut r: Vec<T> = Vec::new();
    let n = v.len();
    let mut i: usize = 0;
    while i < n
        invariant
            n == original.len(),
            i <= n,
            v@ == original.skip(i as int),
            r@.len() == i,
            ordered(r@),
            r@.to_multiset() == original.take(i as int).to_multiset(),
        decreases n - i,
    {
        let x = v.remove(0);
        assert(x == original[i as int]);
        assert(v@ =~= original.skip(i + 1));
        let mut k: usize = 0;
        while k < r.len()
            invariant
                k <= r@.len(),
                forall|j: int| #![trigger r@[j]] 0 <= j < k ==> !x.precedes(&r@[j]),
            ensures
                k <= r@.len(),
                k < r@.len() ==> x.precedes(&r@[k as int]),
                forall|j: int| #![trigger r@[j]] 0 <= j < k ==> !x.precedes(&r@[j]),
            decreases r@.len() - k,
        {
            if x.before(&r[k]) {
                break;
            }
            k += 1;
        }
        let ghost old_r = r@;
        proof {
            assert forall|j: int| #![trigger old_r[j]] k <= j < old_r.len() implies !old_r[j].precedes(&x) by {
                if old_r[j].precedes(&x) {
                    if j == k {
                        T::precedes_transitive(x, old_r[k as int], x);
                        T::precedes_irreflexive(x);
                    } else {
                        T::precedes_transitive(old_r[j], x, old_r[k as int]);
                    }
                }
            }
        }
        r.insert(k, x);
        proof {
            let nr = r@;
            assert(nr == old_r.insert(k as int, x));
            assert forall|a: int, b: int| #![trigger nr[a], nr[b]] 0 <= a < b < nr.len() implies !nr[b].precedes(&nr[a]) by {
                if a < k && b < k {
                    assert(nr[a] == old_r[a] && nr[b] == old_r[b]);
                } else if a < k && b == k {
                    assert(nr[a] == old_r[a]);
                } else if a < k {
                    assert(nr[a] == old_r[a] && nr[b] == old_r[b - 1]);
                } else if a == k {
                    assert(nr[b] == old_r[b - 1]);
                } else {
                    assert(nr[a] == old_r[a - 1] && nr[b] == old_r[b - 1]);
                }
            }
            assert(original.take(i + 1) =~= original.take(i as int).push(x));
            assert(original.take(i as int).push(x) =~= original.take(i as int).insert(i as int, x));
            vstd::seq_lib::to_multiset_insert(old_r, k as int, x);
            vstd::seq_lib::to_multiset_insert(original.take(i as int), i as int, x);
        }
        i += 1;
    }
    assert(original.take(n as int) =~= original);
    r
}

impl Ordered for u128 {
    open spec fn precedes(&self, other: &Self) -> bool {
        *self < *other
    }

    fn before(&self, other: &Self) -> (r: bool) {
        *self < *other
    }

    proof fn precedes_irreflexive(a: Self) {
    }

    proof fn precedes_transitive(a: Self, b: Self, c: Self) {
    }
}

/// A `BTreeMap` with `u128` keys orders them as numbers are ordered.
pub open spec fn u128_keys_ordered() -> bool {
    vstd::std_specs::btree::key_obeys_cmp_spec::<u128>()
}

/// `u128` keys order a `BTreeMap` as numbers do.
pub proof fn lemma_u128_keys_ordered()
    ensures
        vstd::std_specs::btree::key_obeys_cmp_spec::<u128>(),
{
    broadcast use vstd::std_specs::btree::group_btree_axioms, vstd::laws_cmp::group_laws_cmp;

}

/// Keys that a `BTreeMap` yields in increasing order are increasing numbers.
pub proof fn lemma_u128_increasing(ks: Seq<u128>)
    requires
        vstd::std_specs::btree::increasing_seq(ks),
    ensures
        forall|a: int, b: int| 0 <= a < b < ks.len() ==> ks[a] < ks[b],
{
    broadcast use vstd::std_specs::btree::group_btree_axioms, vstd::laws_cmp::group_laws_cmp;

    assert forall|a: int, b: int| 0 <= a < b < ks.len() implies ks[a] < ks[b] by {
        assert(vstd::std_specs::cmp::OrdSpec::cmp_spec(&ks[a], &ks[b]) is Less);
    }
}

/// The same for the references to keys that a key walk yields.
pub proof fn lemma_u128_refs_increasing(ks: Seq<&u128>)
    requires
        vstd::std_specs::btree::increasing_seq(ks),
    ensures
        forall|a: int, b: int| 0 <= a < b < ks.len() ==> *ks[a] < *ks[b],
{
    broadcast use vstd::std_specs::btree::group_btree_axioms, vstd::laws_cmp::group_laws_cmp;

    assert forall|a: int, b: int| 0 <= a < b < ks.len() implies *ks[a] < *ks[b] by {
        assert(vstd::std_specs::cmp::OrdSpec::cmp_spec(&ks[a], &ks[b]) is Less);
    }
}

/// A reordering of `0..n`.
pub open spec fn is_perm(order: Seq<usize>, n: int) -> bool {
    &&& order.len() == n
    &&& forall|k: int| 0 <= k < n ==> (#[trigger] order[k]) < n
    &&& forall|a: int, b: int| 0 <= a < b < n ==> (#[trigger] order[a]) != (#[trigger] order[b])
}

/// The positions of `ids` in identifier order, earlier positions first among equals.
pub fn id_order(ids: &Vec<String>) -> (order: Vec<usize>)
    ensures
        is_perm(order@, ids@.len() as int),
        forall|a: int, b: int|
            0 <= a < b < order@.len() ==> !text_lt(
                ids@[(#[trigger] order@[b]) as int]@,
                ids@[(#[trigger] order@[a]) as int]@,
            ),
{
    let n = ids.len();
    let mut taken: Vec<bool> = Vec::new();
    let mut t: usize = 0;
    while t < n
        invariant
            t <= n,
            taken@.len() == t,
            forall|q: int| 0 <= q < t ==> !taken@[q],
        decreases n - t,
    {
        taken.push(false);
        t += 1;
    }
    let mut order: Vec<usize> = Vec::new();
    while order.len() < n
        invariant
            n == ids@.len(),
            taken@.len() == n,
            order@.len() <= n,
            forall|k: int| 0 <= k < order@.len() ==> (#[trigger] order@[k]) < n,
            forall|a: int, b: int| 0 <= a < b < order@.len() ==> (#[trigger] order@[a]) != (#[trigger] order@[b]),
            forall|q: int| 0 <= q < n ==> (taken@[q] <==> order@.contains(q as usize)),
            forall|a: int, b: int|
                0 <= a < b < order@.len() ==> !text_lt(
                    ids@[(#[trigger] order@[b]) as int]@,
                    ids@[(#[trigger] order@[a]) as int]@,
                ),
            forall|a: int, q: int|
                #![trigger order@[a], taken@[q]]
                0 <= a < order@.len() && 0 <= q < n && !taken@[q] ==> !text_lt(
                    ids@[q]@,
                    ids@[order@[a] as int]@,
                ),
        decreases n - order@.len(),
    {
        // Some position is still free: the taken ones are exactly the ordered ones.
        proof {
            if forall|q: int| 0 <= q < n ==> taken@[q] {
                let s = order@.to_set();
                assert forall|q: usize| (q as int) < n implies s.contains(q) by {
                    assert(taken@[q as int]);
                }
                lemma_order_covers(order@, n as int);
            }
        }
        let mut pick: usize = n;
        let mut q: usize = 0;
        while q < n
            invariant
                n == ids@.len(),
                taken@.len() == n,
                q <= n,
                pick == n || (pick < q && !taken@[pick as int]),
                pick == n ==> forall|z: int| 0 <= z < q ==> taken@[z],
                pick < n ==> forall|z: int| 0 <= z < q && !taken@[z] ==> !text_lt(ids@[z]@, ids@[pick as int]@),
            decreases n - q,
        {
            if !taken[q] {
                if pick == n || compare_text(&ids[q], &ids[pick]) < 0 {
                    proof {
                        if pick < n {
                            assert forall|z: int| 0 <= z < q + 1 && !taken@[z] implies !text_lt(ids@[z]@, ids@[q as int]@) by {
                                if z < q && text_lt(ids@[z]@, ids@[q as int]@) {
                                    lemma_text_lt_transitive(ids@[z]@, ids@[q as int]@, ids@[pick as int]@);
                                }
                                if z == q {
                                    crate::text::lemma_text_lt_irreflexive(ids@[q as int]@);
                                }
                            }
                        } else {
                            crate::text::lemma_text_lt_irreflexive(ids@[q as int]@);
                        }
                    }
                    pick = q;
                } else {
                    proof {
                        crate::text::lemma_text_lt_total(ids@[q as int]@, ids@[pick as int]@);
                    }
                }
            }
            q += 1;
        }
        if pick == n {
            proof {
                assert(false);
            }
            return order;
        }
        let ghost old_order = order@;
        order.push(pick);
        taken.set(pick, true);
        proof {
            assert forall|z: int| 0 <= z < n implies (taken@[z] <==> order@.contains(z as usize)) by {
                if z == pick {
                    assert(order@[old_order.len() as int] == pick);
                } else {
                    if old_order.contains(z as usize) {
                        let w = choose|w: int| 0 <= w < old_order.len() && old_order[w] == z as usize;
                        assert(order@[w] == z as usize);
                    }
                    if order@.contains(z as usize) {
                        let w = choose|w: int| 0 <= w < order@.len() && order@[w] == z as usize;
                        assert(w < old_order.len());
                        assert(old_order[w] == z as usize);
                    }
                }
            }
            assert forall|a: int, b: int| 0 <= a < b < order@.len() implies (#[trigger] order@[a]) != (#[trigger] order@[b]) by {
                if b == old_order.len() {
                    assert(old_order.contains(order@[a]));
                }
            }
        }
    }
    order
}

/// The positions of `items` in the items' own order; among items neither of which
/// precedes the other, earlier positions come first.
pub fn position_order<T: Ordered>(items: &Vec<T>) -> (order: Vec<usize>)
    ensures
        is_perm(order@, items@.len() as int),
        forall|a: int, b: int|
            0 <= a < b < order@.len() ==> !items@[(#[trigger] order@[b]) as int].precedes(
                &items@[(#[trigger] order@[a]) as int],
            ),
{
    let n = items.len();
    let mut taken: Vec<bool> = Vec::new();
    let mut t: usize = 0;
    while t < n
        invariant
            t <= n,
            taken@.len() == t,
            forall|q: int| 0 <= q < t ==> !taken@[q],
        decreases n - t,
    {
        taken.push(false);
        t += 1;
    }
    let mut order: Vec<usize> = Vec::new();
    while order.len() < n
        invariant
            n == items@.len(),
            taken@.len() == n,
            order@.len() <= n,
            forall|k: int| 0 <= k < order@.len() ==> (#[trigger] order@[k]) < n,
            forall|a: int, b: int| 0 <= a < b < order@.len() ==> (#[trigger] order@[a]) != (#[trigger] order@[b]),
            forall|q: int| 0 <= q < n ==> (taken@[q] <==> order@.contains(q as usize)),
            forall|a: int, b: int|
                0 <= a < b < order@.len() ==> !items@[(#[trigger] order@[b]) as int].precedes(
                    &items@[(#[trigger] order@[a]) as int],
                ),
            forall|a: int, q: int|
                #![trigger order@[a], taken@[q]]
                0 <= a < order@.len() && 0 <= q < n && !taken@[q] ==> !items@[q].precedes(&items@[order@[a] as int]),
        decreases n - order@.len(),
    {
        proof {
            if forall|q: int| 0 <= q < n ==> taken@[q] {
                let s = order@.to_set();
                assert forall|q: usize| (q as int) < n implies s.contains(q) by {
                    assert(taken@[q as int]);
                }
                lemma_order_covers(order@, n as int);
            }
        }
        let mut pick: usize = n;
        let mut q: usize = 0;
        while q < n
            invariant
                n == items@.len(),
                taken@.len() == n,
                q <= n,
                pick == n || (pick < q && !taken@[pick as int]),
                pick == n ==> forall|z: int| 0 <= z < q ==> taken@[z],
                pick < n ==> forall|z: int| 0 <= z < q && !taken@[z] ==> !items@[z].precedes(&items@[pick as int]),
            decreases n - q,
        {
            if !taken[q] {
                if pick == n || items[q].before(&items[pick]) {
                    proof {
                        if pick < n {
                            assert forall|z: int| 0 <= z < q + 1 && !taken@[z] implies !items@[z].precedes(&items@[q as int]) by {
                                if z < q && items@[z].precedes(&items@[q as int]) {
                                    T::precedes_transitive(items@[z], items@[q as int], items@[pick as int]);
                                }
                                if z == q {
                                    T::precedes_irreflexive(items@[q as int]);
                                }
                            }
                        } else {
                            T::precedes_irreflexive(items@[q as int]);
                        }
                    }
                    pick = q;
                }
            }
            q += 1;
        }
        if pick == n {
            proof {
                assert(false);
            }
            return order;
        }
        let ghost old_order = order@;
        order.push(pick);
        taken.set(pick, true);
        proof {
            assert forall|z: int| 0 <= z < n implies (taken@[z] <==> order@.contains(z as usize)) by {
                if z == pick {
                    assert(order@[old_order.len() as int] == pick);
                } else {
                    if old_order.contains(z as usize) {
                        let w = choose|w: int| 0 <= w < old_order.len() && old_order[w] == z as usize;
                        assert(order@[w] == z as usize);
                    }
                    if order@.contains(z as usize) {
                        let w = choose|w: int| 0 <= w < order@.len() && order@[w] == z as usize;
                        assert(w < old_order.len());
                        assert(old_order[w] == z as usize);
                    }
                }
            }
            assert forall|a: int, b: int| 0 <= a < b < order@.len() implies (#[trigger] order@[a]) != (#[trigger] order@[b]) by {
                if b == old_order.len() {
                    assert(old_order.contains(order@[a]));
                }
            }
        }
    }
    order
}

proof fn lemma_order_covers(order: Seq<usize>, n: int)
    requires
        forall|a: int, b: int| 0 <= a < b < order.len() ==> (#[trigger] order[a]) != (#[trigger] order[b]),
        forall|q: usize| (q as int) < n ==> order.to_set().contains(q),
        n >= 0,
        n <= usize::MAX,
    ensures
        order.len() >= n,
{
    order.unique_seq_to_set();
    let b = Seq::new(n as nat, |i: int| i as usize);
    b.lemma_cardinality_of_set();
    assert forall|a: int, c: int| 0 <= a < c < b.len() implies b[a] != b[c] by {}
    b.unique_seq_to_set();
    assert forall|x: usize| b.to_set().contains(x) implies order.to_set().contains(x) by {
        let k = choose|k: int| 0 <= k < b.len() && b[k] == x;
        assert(b[k] == k as usize);
    }
    vstd::set_lib::lemma_len_subset(b.to_set(), order.to_set());
}


} // verus!
