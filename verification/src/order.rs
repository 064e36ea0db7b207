//! The order of strings: character by character, by code point. For UTF-8
//! this is also the order of the bytes.
use vstd::prelude::*;

use crate::text::chars_of;

verus! {

/// Whether `a` comes before `b`.
pub open spec fn precedes(a: Seq<char>, b: Seq<char>) -> bool
    decreases a.len(),
{
    if b.len() == 0 {
        false
    } else if a.len() == 0 {
        true
    } else if a[0] != b[0] {
        a[0] < b[0]
    } else {
        precedes(a.drop_first(), b.drop_first())
    }
}

/// No text comes before itself.
pub proof fn precedes_irreflexive(a: Seq<char>)
    ensures
        !precedes(a, a),
    decreases a.len(),
{
    if a.len() > 0 {
        precedes_irreflexive(a.drop_first());
    }
}

/// The order is transitive.
pub proof fn precedes_transitive(a: Seq<char>, b: Seq<char>, c: Seq<char>)
    requires
        precedes(a, b),
        precedes(b, c),
    ensures
        precedes(a, c),
    decreases a.len(),
{
    if a.len() > 0 && a[0] == b[0] && b[0] == c[0] {
        precedes_transitive(a.drop_first(), b.drop_first(), c.drop_first());
    }
}

/// Of two different texts one comes before the other.
pub proof fn precedes_total(a: Seq<char>, b: Seq<char>)
    ensures
        a == b || precedes(a, b) || precedes(b, a),
    decreases a.len(),
{
    if a.len() == 0 || b.len() == 0 {
        if a.len() == 0 && b.len() == 0 {
            assert(a =~= b);
        }
    } else if a[0] == b[0] {
        precedes_total(a.drop_first(), b.drop_first());
        if a.drop_first() == b.drop_first() {
            assert(a =~= seq![a[0]] + a.drop_first());
            assert(b =~= seq![b[0]] + b.drop_first());
        }
    }
}

/// Whether the items come one after another in the order `before`.
pub open spec fn ascending<T>(items: Seq<T>, before: spec_fn(T, T) -> bool) -> bool {
    forall|i: int, j: int|
        0 <= i < j < items.len() ==> before(#[trigger] items[i], #[trigger] items[j])
}

/// Two ascending lists of the same items are the same list.
pub proof fn ascending_list_is_unique<T>(a: Seq<T>, b: Seq<T>, before: spec_fn(T, T) -> bool)
    requires
        forall|x: T, y: T| #[trigger] before(x, y) ==> !before(y, x),
        ascending(a, before),
        ascending(b, before),
        forall|x: T| #[trigger] a.contains(x) <==> b.contains(x),
    ensures
        a == b,
    decreases a.len(),
{
    if a.len() == 0 {
        if b.len() > 0 {
            assert(b.contains(b[0]));
            assert(a.contains(b[0]));
        }
        assert(a =~= b);
    } else {
        let x = a.last();
        assert(a.contains(a[a.len() - 1]));
        assert(b.contains(x));
        let y = b.last();
        assert(b.contains(b[b.len() - 1]));
        assert(a.contains(y));
        let j = b.index_of(x);
        let i = a.index_of(y);
        assert(b[j] == x && a[i] == y);
        if j < b.len() - 1 {
            assert(before(b[j], b[b.len() - 1]));
            if i < a.len() - 1 {
                assert(before(a[i], a[a.len() - 1]));
            }
            assert(false);
        }
        assert(x == y);
        let p = a.drop_last();
        let q = b.drop_last();
        assert forall|z: T| #[trigger] p.contains(z) <==> q.contains(z) by {
            if p.contains(z) {
                let k = p.index_of(z);
                assert(a[k] == z);
                assert(before(a[k], a[a.len() - 1]));
                assert(a.contains(z));
                let l = b.index_of(z);
                assert(b[l] == z);
                assert(l != b.len() - 1);
                assert(q[l] == z);
            }
            if q.contains(z) {
                let k = q.index_of(z);
                assert(b[k] == z);
                assert(before(b[k], b[b.len() - 1]));
                assert(b.contains(z));
                assert(a.contains(z));
                let l = a.index_of(z);
                assert(a[l] == z);
                assert(l != a.len() - 1);
                assert(p[l] == z);
            }
        }
        ascending_list_is_unique(p, q, before);
        assert(a =~= p.push(x));
        assert(b =~= q.push(y));
    }
}

/// Of two texts, not both can come before the other.
pub proof fn precedes_asymmetric(a: Seq<char>, b: Seq<char>)
    ensures
        precedes(a, b) ==> !precedes(b, a),
{
    if precedes(a, b) && precedes(b, a) {
        precedes_transitive(a, b, a);
        precedes_irreflexive(a);
    }
}

/// Tells whether `a` comes before `b`.
pub fn comes_before(a: &str, b: &str) -> (yes: bool)
    ensures
        yes == precedes(a@, b@),
{
    let x = chars_of(a);
    let y = chars_of(b);
    let mut i: usize = 0;
    assert(x@.skip(0) =~= x@);
    assert(y@.skip(0) =~= y@);
    while i < x.len() && i < y.len() && x[i] == y[i]
        invariant
            i <= x@.len(),
            i <= y@.len(),
            x@ == a@,
            y@ == b@,
            precedes(x@.skip(i as int), y@.skip(i as int)) == precedes(a@, b@),
        decreases x@.len() - i,
    {
        assert(x@.skip(i as int).drop_first() =~= x@.skip(i + 1));
        assert(y@.skip(i as int).drop_first() =~= y@.skip(i + 1));
        i += 1;
    }
    if i == y.len() {
        false
    } else if i == x.len() {
        true
    } else {
        x[i] < y[i]
    }
}

/// The order goes by the first place at which two texts differ: the smaller code
/// point comes first, and so does a text that ends there.
pub proof fn order_goes_by_the_first_difference(a: Seq<char>, b: Seq<char>, k: int)
    requires
        0 <= k <= a.len(),
        k < b.len(),
        forall|i: int| 0 <= i < k ==> a[i] == b[i],
    ensures
        k == a.len() ==> precedes(a, b) && !precedes(b, a),
        k < a.len() && a[k] < b[k] ==> precedes(a, b) && !precedes(b, a),
    decreases k,
{
    if k > 0 {
        let x = a.drop_first();
        let y = b.drop_first();
        assert forall|i: int| 0 <= i < k - 1 implies x[i] == y[i] by {
            assert(x[i] == a[i + 1]);
            assert(y[i] == b[i + 1]);
        }
        assert(k < a.len() ==> x[k - 1] == a[k]);
        assert(y[k - 1] == b[k]);
        order_goes_by_the_first_difference(x, y, k - 1);
        assert(a[0] == b[0]);
    }
}

proof fn lemma_least<T>(items: Set<T>, before: spec_fn(T, T) -> bool) -> (least: T)
    requires
        items.finite(),
        items.len() > 0,
        forall|x: T, y: T|
            x == y || #[trigger] before(x, y) || before(y, x),
        forall|x: T, y: T, z: T| #[trigger] before(x, y) && #[trigger] before(y, z) ==> before(x, z),
    ensures
        items.contains(least),
        forall|x: T| #[trigger] items.contains(x) && x != least ==> before(least, x),
    decreases items.len(),
{
    let first = items.choose();
    let rest = items.remove(first);
    if rest.len() == 0 {
        assert(rest =~= Set::empty());
        assert forall|x: T| #[trigger] items.contains(x) implies x == first by {
            assert(x != first ==> rest.contains(x));
        }
        first
    } else {
        let least = lemma_least(rest, before);
        let of_all = if before(first, least) {
            first
        } else {
            least
        };
        assert forall|x: T| #[trigger] items.contains(x) && x != of_all implies before(of_all, x) by {
            if x != first {
                assert(rest.contains(x));
                if x != least {
                    assert(before(least, x));
                }
            } else {
                assert(first == least || before(first, least) || before(least, first));
            }
        }
        of_all
    }
}

/// The items of a finite set can be listed in any order that is total.
pub proof fn finite_sets_are_listed<T>(items: Set<T>, before: spec_fn(T, T) -> bool) -> (list: Seq<
    T,
>)
    requires
        items.finite(),
        forall|x: T, y: T|
            x == y || #[trigger] before(x, y) || before(y, x),
        forall|x: T, y: T, z: T| #[trigger] before(x, y) && #[trigger] before(y, z) ==> before(x, z),
    ensures
        ascending(list, before),
        forall|x: T| #[trigger] list.contains(x) <==> items.contains(x),
    decreases items.len(),
{
    if items.len() == 0 {
        assert(items =~= Set::empty());
        Seq::empty()
    } else {
        let least = lemma_least(items, before);
        let rest = finite_sets_are_listed(items.remove(least), before);
        let list = seq![least] + rest;
        assert forall|i: int, j: int| 0 <= i < j < list.len() implies before(
            #[trigger] list[i],
            #[trigger] list[j],
        ) by {
            assert(list[j] == rest[j - 1]);
            if i == 0 {
                assert(rest.contains(rest[j - 1]));
                assert(items.contains(list[j]));
            } else {
                assert(list[i] == rest[i - 1]);
            }
        }
        assert forall|x: T| #[trigger] list.contains(x) <==> items.contains(x) by {
            assert(list[0] == least);
            if rest.contains(x) {
                assert(list[1 + rest.index_of(x)] == x);
            }
            if list.contains(x) {
                let k = list.index_of(x);
                if k > 0 {
                    assert(rest[k - 1] == x);
                }
            }
        }
        list
    }
}

} // verus!
