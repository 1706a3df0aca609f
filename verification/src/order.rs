//! Sorting by an integer rank.

use vstd::prelude::*;
use vstd::slice::slice_subrange;

verus! {

/// Values that are ordered by an integer.
pub trait Ranked: Copy {
    /// The integer that orders the value.
    spec fn rank(self) -> int;

    /// Whether `self` may stand before `other` in ascending order.
    fn precedes(&self, other: &Self) -> (b: bool)
        ensures
            b == (self.rank() <= other.rank()),
    ;
}

impl Ranked for usize {
    open spec fn rank(self) -> int {
        self as int
    }

    fn precedes(&self, other: &Self) -> (b: bool) {
        *self <= *other
    }
}

impl Ranked for u128 {
    open spec fn rank(self) -> int {
        self as int
    }

    fn precedes(&self, other: &Self) -> (b: bool) {
        *self <= *other
    }
}

/// No value stands before one of lower rank.
pub open spec fn ascending<T: Ranked>(s: Seq<T>) -> bool {
    forall|i: int, j: int|
        0 <= i <= j < s.len() ==> (#[trigger] s[i]).rank() <= (#[trigger] s[j]).rank()
}

/// `r` holds the values of `s`, each as often, in ascending order.
pub open spec fn is_sorted_from<T: Ranked>(r: Seq<T>, s: Seq<T>) -> bool {
    &&& ascending(r)
    &&& r.to_multiset() == s.to_multiset()
}

proof fn lemma_split_multiset<T>(s: Seq<T>, mid: int)
    requires
        0 <= mid <= s.len(),
    ensures
        s.to_multiset() == s.subrange(0, mid).to_multiset().add(
            s.subrange(mid, s.len() as int).to_multiset(),
        ),
{
    vstd::seq_lib::lemma_multiset_commutative(s.subrange(0, mid), s.subrange(mid, s.len() as int));
    assert(s.subrange(0, mid) + s.subrange(mid, s.len() as int) =~= s);
}

proof fn lemma_push_multiset<T>(r: Seq<T>, a: Seq<T>, b: Seq<T>, v: T)
    requires
        r.to_multiset() == a.to_multiset().add(b.to_multiset()),
    ensures
        r.push(v).to_multiset() == a.push(v).to_multiset().add(b.to_multiset()),
        r.push(v).to_multiset() == a.to_multiset().add(b.push(v).to_multiset()),
{
    broadcast use vstd::seq_lib::group_to_multiset_ensures;

    assert(r.push(v).to_multiset() =~= a.push(v).to_multiset().add(b.to_multiset()));
    assert(r.push(v).to_multiset() =~= a.to_multiset().add(b.push(v).to_multiset()));
}

/// Merges two ascending runs into one.
fn merge<T: Ranked>(a: &Vec<T>, b: &Vec<T>) -> (r: Vec<T>)
    requires
        ascending(a@),
        ascending(b@),
    ensures
        ascending(r@),
        r@.to_multiset() == a@.to_multiset().add(b@.to_multiset()),
{
    let mut r: Vec<T> = Vec::new();
    let mut i: usize = 0;
    let mut j: usize = 0;
    proof {
        assert(a@.take(0) =~= Seq::<T>::empty());
        assert(b@.take(0) =~= Seq::<T>::empty());
        r@.to_multiset_ensures();
        assert(r@.to_multiset() =~= a@.take(0).to_multiset().add(b@.take(0).to_multiset()));
    }
    while i < a.len() || j < b.len()
        invariant
            i <= a@.len(),
            j <= b@.len(),
            ascending(a@),
            ascending(b@),
            ascending(r@),
            forall|k: int, m: int|
                0 <= k < r@.len() && i <= m < a@.len() ==> (#[trigger] r@[k]).rank() <= (
                #[trigger] a@[m]).rank(),
            forall|k: int, m: int|
                0 <= k < r@.len() && j <= m < b@.len() ==> (#[trigger] r@[k]).rank() <= (
                #[trigger] b@[m]).rank(),
            r@.to_multiset() == a@.take(i as int).to_multiset().add(
                b@.take(j as int).to_multiset(),
            ),
        decreases a@.len() - i + b@.len() - j,
    {
        let from_a: bool = if i == a.len() {
            false
        } else if j == b.len() {
            true
        } else {
            a[i].precedes(&b[j])
        };
        if from_a {
            proof {
                lemma_push_multiset(r@, a@.take(i as int), b@.take(j as int), a@[i as int]);
                assert(a@.take(i + 1) =~= a@.take(i as int).push(a@[i as int]));
            }
            r.push(a[i]);
            i += 1;
        } else {
            proof {
                lemma_push_multiset(r@, a@.take(i as int), b@.take(j as int), b@[j as int]);
                assert(b@.take(j + 1) =~= b@.take(j as int).push(b@[j as int]));
            }
            r.push(b[j]);
            j += 1;
        }
    }
    assert(a@.take(i as int) =~= a@);
    assert(b@.take(j as int) =~= b@);
    r
}

/// The values of `s` in ascending order.
pub fn sorted<T: Ranked>(s: &[T]) -> (r: Vec<T>)
    ensures
        is_sorted_from(r@, s@),
    decreases s@.len(),
{
    if s.len() < 2 {
        let mut r: Vec<T> = Vec::new();
        if s.len() == 1 {
            r.push(s[0]);
        }
        assert(r@ =~= s@);
        r
    } else {
        let mid: usize = s.len() / 2;
        let low = sorted(slice_subrange(s, 0, mid));
        let high = sorted(slice_subrange(s, mid, s.len()));
        proof {
            lemma_split_multiset(s@, mid as int);
        }
        merge(&low, &high)
    }
}

proof fn lemma_sorted_unique<T: Ranked>(a: Seq<T>, b: Seq<T>)
    requires
        ascending(a),
        ascending(b),
        a.to_multiset() == b.to_multiset(),
        forall|x: T, y: T| #[trigger] x.rank() == #[trigger] y.rank() ==> x == y,
    ensures
        a == b,
{
    let before = |x: T, y: T| x.rank() <= y.rank();
    assert(vstd::relations::total_ordering(before));
    assert(vstd::relations::sorted_by(a, before));
    assert(vstd::relations::sorted_by(b, before));
    vstd::seq_lib::lemma_sorted_unique(a, b, before);
}

/// Sorting times gives one result, whatever order they came in.
pub proof fn sorted_times_are_determined(
    a: Seq<u128>,
    from_a: Seq<u128>,
    b: Seq<u128>,
    from_b: Seq<u128>,
)
    requires
        is_sorted_from(a, from_a),
        is_sorted_from(b, from_b),
        from_a.to_multiset() == from_b.to_multiset(),
    ensures
        a == b,
{
    lemma_sorted_unique(a, b);
}

} // verus!
