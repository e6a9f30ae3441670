//! Ordering entities along an axis.
//!
//! A hierarchy node orders its entities by where their bounding boxes start on
//! one axis, and entities that start at the same place keep the order they
//! came in. This module states what such an ordering is and computes it by a
//! merge sort.

use vstd::prelude::*;

verus! {

/// What the hierarchy reads of an entity: which one it is, and the order key of
/// the start of its bounding box on each of the three axes.
#[derive(Clone, Copy, Debug, PartialEq, Eq)]
pub struct Extent {
    pub entity: usize,
    pub x: i64,
    pub y: i64,
    pub z: i64,
}

impl Extent {
    /// The start of the box on `axis`: 0 is x, 1 is y, 2 is z.
    pub open spec fn key(self, axis: u8) -> i64 {
        if axis == 0 {
            self.x
        } else if axis == 1 {
            self.y
        } else {
            self.z
        }
    }

    pub fn new(entity: usize, x: i64, y: i64, z: i64) -> (extent: Extent)
        ensures
            extent == (Extent { entity, x, y, z }),
    {
        Extent { entity, x, y, z }
    }

    /// Reads the start of the box on `axis`. There are three axes.
    pub fn start(&self, axis: u8) -> (k: i64)
        requires
            axis <= 2,
        ensures
            k == self.key(axis),
    {
        if axis == 0 {
            self.x
        } else if axis == 1 {
            self.y
        } else {
            self.z
        }
    }
}

/// The entities of `s` that start at `k` on `axis`.
pub open spec fn starting_at(axis: u8, k: i64) -> spec_fn(Extent) -> bool {
    |e: Extent| e.key(axis) == k
}

/// No entity of `s` starts before one that precedes it.
pub open spec fn ordered_along(s: Seq<Extent>, axis: u8) -> bool {
    forall|i: int, j: int|
        0 <= i < j < s.len() ==> (#[trigger] s[i]).key(axis) <= (#[trigger] s[j]).key(axis)
}

/// Entities that start at the same place stand in `after` as they stood in
/// `before`, and nothing else starts there.
pub open spec fn keeps_ties(before: Seq<Extent>, after: Seq<Extent>, axis: u8) -> bool {
    forall|k: i64|
        #[trigger] after.filter(starting_at(axis, k)) == before.filter(starting_at(axis, k))
}

/// `after` is `before` put in order along `axis` without disturbing ties.
///
/// Between them the clauses leave no freedom: the first fixes the order of
/// entities that start at different places, the second that of entities that
/// start at the same place, see [`lemma_stable_sort_unique`].
pub open spec fn is_stable_sort(before: Seq<Extent>, after: Seq<Extent>, axis: u8) -> bool {
    &&& ordered_along(after, axis)
    &&& keeps_ties(before, after, axis)
    &&& after.to_multiset() == before.to_multiset()
}

proof fn lemma_none_starting_at(s: Seq<Extent>, axis: u8, k: i64)
    requires
        forall|n: int| 0 <= n < s.len() ==> (#[trigger] s[n]).key(axis) != k,
    ensures
        s.filter(starting_at(axis, k)) == Seq::<Extent>::empty(),
    decreases s.len(),
{
    reveal(Seq::filter);
    if s.len() > 0 {
        let rest = s.drop_last();
        assert forall|n: int| 0 <= n < rest.len() implies (#[trigger] rest[n]).key(axis) != k by {
            assert(rest[n] == s[n]);
        }
        lemma_none_starting_at(rest, axis, k);
        assert(!starting_at(axis, k)(s.last()));
    } else {
        assert(s.filter(starting_at(axis, k)) =~= Seq::<Extent>::empty());
    }
}

proof fn lemma_take_left(out: Seq<Extent>, a: Seq<Extent>, b: Seq<Extent>, i: int, j: int, axis: u8)
    requires
        0 <= i < a.len(),
        0 <= j <= b.len(),
        forall|n: int| 0 <= n < j ==> (#[trigger] b[n]).key(axis) < a[i].key(axis),
        forall|k: i64|
            #[trigger] out.filter(starting_at(axis, k)) == a.take(i).filter(starting_at(axis, k))
                + b.take(j).filter(starting_at(axis, k)),
        out.to_multiset() == a.take(i).to_multiset().add(b.take(j).to_multiset()),
    ensures
        forall|k: i64|
            #[trigger] out.push(a[i]).filter(starting_at(axis, k)) == a.take(i + 1).filter(
                starting_at(axis, k),
            ) + b.take(j).filter(starting_at(axis, k)),
        out.push(a[i]).to_multiset() == a.take(i + 1).to_multiset().add(b.take(j).to_multiset()),
{
    let e = a[i];
    assert(a.take(i + 1) =~= a.take(i).push(e));
    assert forall|k: i64|
        #[trigger] out.push(e).filter(starting_at(axis, k)) == a.take(i + 1).filter(
            starting_at(axis, k),
        ) + b.take(j).filter(starting_at(axis, k)) by {
        let p = starting_at(axis, k);
        out.lemma_filter_push(e, p);
        a.take(i).lemma_filter_push(e, p);
        assert(out.filter(p) == a.take(i).filter(p) + b.take(j).filter(p));
        if p(e) {
            assert forall|n: int| 0 <= n < b.take(j).len() implies (#[trigger] b.take(j)[n]).key(
                axis,
            ) != k by {
                assert(b.take(j)[n] == b[n]);
            }
            lemma_none_starting_at(b.take(j), axis, k);
            assert(a.take(i).filter(p).push(e) + b.take(j).filter(p) =~= (a.take(i).filter(p)
                + b.take(j).filter(p)).push(e));
        }
    }
    vstd::seq_lib::to_multiset_build(out, e);
    vstd::seq_lib::to_multiset_build(a.take(i), e);
    assert(out.push(e).to_multiset() =~= a.take(i + 1).to_multiset().add(
        b.take(j).to_multiset(),
    ));
}

proof fn lemma_take_right(out: Seq<Extent>, a: Seq<Extent>, b: Seq<Extent>, i: int, j: int, axis: u8)
    requires
        0 <= i <= a.len(),
        0 <= j < b.len(),
        forall|k: i64|
            #[trigger] out.filter(starting_at(axis, k)) == a.take(i).filter(starting_at(axis, k))
                + b.take(j).filter(starting_at(axis, k)),
        out.to_multiset() == a.take(i).to_multiset().add(b.take(j).to_multiset()),
    ensures
        forall|k: i64|
            #[trigger] out.push(b[j]).filter(starting_at(axis, k)) == a.take(i).filter(
                starting_at(axis, k),
            ) + b.take(j + 1).filter(starting_at(axis, k)),
        out.push(b[j]).to_multiset() == a.take(i).to_multiset().add(b.take(j + 1).to_multiset()),
{
    let e = b[j];
    assert(b.take(j + 1) =~= b.take(j).push(e));
    assert forall|k: i64|
        #[trigger] out.push(e).filter(starting_at(axis, k)) == a.take(i).filter(
            starting_at(axis, k),
        ) + b.take(j + 1).filter(starting_at(axis, k)) by {
        let p = starting_at(axis, k);
        out.lemma_filter_push(e, p);
        b.take(j).lemma_filter_push(e, p);
        assert(out.filter(p) == a.take(i).filter(p) + b.take(j).filter(p));
        if p(e) {
            assert(a.take(i).filter(p) + b.take(j).filter(p).push(e) =~= (a.take(i).filter(p)
                + b.take(j).filter(p)).push(e));
        }
    }
    vstd::seq_lib::to_multiset_build(out, e);
    vstd::seq_lib::to_multiset_build(b.take(j), e);
    assert(out.push(e).to_multiset() =~= a.take(i).to_multiset().add(
        b.take(j + 1).to_multiset(),
    ));
}

/// The last entity of an ordered sequence is the last of those that start
/// where it starts.
proof fn lemma_last_of_its_key(s: Seq<Extent>, axis: u8)
    requires
        s.len() > 0,
    ensures
        s.filter(starting_at(axis, s.last().key(axis))).len() > 0,
        s.filter(starting_at(axis, s.last().key(axis))).last() == s.last(),
        s.filter(starting_at(axis, s.last().key(axis))).drop_last() == s.drop_last().filter(
            starting_at(axis, s.last().key(axis)),
        ),
{
    let p = starting_at(axis, s.last().key(axis));
    assert(s =~= s.drop_last().push(s.last()));
    s.drop_last().lemma_filter_push(s.last(), p);
    assert(s.drop_last().filter(p).push(s.last()).drop_last() =~= s.drop_last().filter(p));
}

/// An ordered sequence ends on the latest start that occurs in it.
proof fn lemma_last_is_latest(s: Seq<Extent>, axis: u8, k: i64)
    requires
        ordered_along(s, axis),
        s.filter(starting_at(axis, k)).len() > 0,
    ensures
        s.len() > 0,
        k <= s.last().key(axis),
{
    let p = starting_at(axis, k);
    let e = s.filter(p)[0];
    s.lemma_filter_pred(p, 0);
    assert(s.filter(p).contains(e));
    s.lemma_filter_contains_rev(p, e);
    let i = choose|i: int| 0 <= i < s.len() && s[i] == e;
    if i < s.len() - 1 {
        assert(s[i].key(axis) <= s[s.len() - 1].key(axis));
    }
}

/// Two ordered sequences of one length in which the same entities start at
/// every place, in the same order, are one sequence.
proof fn lemma_ordered_unique(one: Seq<Extent>, other: Seq<Extent>, axis: u8)
    requires
        ordered_along(one, axis),
        ordered_along(other, axis),
        one.len() == other.len(),
        forall|k: i64|
            #[trigger] one.filter(starting_at(axis, k)) == other.filter(starting_at(axis, k)),
    ensures
        one == other,
    decreases one.len(),
{
    if one.len() == 0 {
        assert(one =~= other);
    } else {
        let a = one.last().key(axis);
        let b = other.last().key(axis);
        lemma_last_of_its_key(one, axis);
        lemma_last_of_its_key(other, axis);
        assert(other.filter(starting_at(axis, a)) == one.filter(starting_at(axis, a)));
        assert(one.filter(starting_at(axis, b)) == other.filter(starting_at(axis, b)));
        lemma_last_is_latest(other, axis, a);
        lemma_last_is_latest(one, axis, b);
        assert(a == b);
        assert(one.last() == other.last());
        let short_one = one.drop_last();
        let short_other = other.drop_last();
        assert forall|k: i64|
            #[trigger] short_one.filter(starting_at(axis, k)) == short_other.filter(
                starting_at(axis, k),
            ) by {
            let p = starting_at(axis, k);
            if k != a {
                assert(one =~= short_one.push(one.last()));
                assert(other =~= short_other.push(other.last()));
                short_one.lemma_filter_push(one.last(), p);
                short_other.lemma_filter_push(other.last(), p);
                assert(one.filter(p) == other.filter(p));
            }
        }
        assert(ordered_along(short_one, axis)) by {
            assert forall|i: int, j: int| 0 <= i < j < short_one.len() implies (
            #[trigger] short_one[i]).key(axis) <= (#[trigger] short_one[j]).key(axis) by {
                assert(short_one[i] == one[i] && short_one[j] == one[j]);
            }
        }
        assert(ordered_along(short_other, axis)) by {
            assert forall|i: int, j: int| 0 <= i < j < short_other.len() implies (
            #[trigger] short_other[i]).key(axis) <= (#[trigger] short_other[j]).key(axis) by {
                assert(short_other[i] == other[i] && short_other[j] == other[j]);
            }
        }
        lemma_ordered_unique(short_one, short_other, axis);
        assert(one =~= short_one.push(one.last()));
        assert(other =~= short_other.push(other.last()));
    }
}

/// There is one way to put a sequence in order without disturbing ties: two
/// sequences that both are `before` in order along `axis` are equal.
pub proof fn lemma_stable_sort_unique(
    before: Seq<Extent>,
    one: Seq<Extent>,
    other: Seq<Extent>,
    axis: u8,
)
    requires
        is_stable_sort(before, one, axis),
        is_stable_sort(before, other, axis),
    ensures
        one == other,
{
    vstd::seq_lib::to_multiset_len(before);
    vstd::seq_lib::to_multiset_len(one);
    vstd::seq_lib::to_multiset_len(other);
    lemma_ordered_unique(one, other, axis);
}

/// Merges two ordered runs. Where both runs offer the same start, the entity
/// of `a` goes first.
fn merge(a: &Vec<Extent>, b: &Vec<Extent>, axis: u8) -> (out: Vec<Extent>)
    requires
        axis <= 2,
        ordered_along(a@, axis),
        ordered_along(b@, axis),
    ensures
        ordered_along(out@, axis),
        forall|k: i64|
            #[trigger] out@.filter(starting_at(axis, k)) == a@.filter(starting_at(axis, k))
                + b@.filter(starting_at(axis, k)),
        out@.to_multiset() == a@.to_multiset().add(b@.to_multiset()),
{
    let mut out: Vec<Extent> = Vec::new();
    let mut i: usize = 0;
    let mut j: usize = 0;
    proof {
        assert(a@.take(0) =~= Seq::<Extent>::empty());
        assert(b@.take(0) =~= Seq::<Extent>::empty());
        assert forall|k: i64|
            #[trigger] out@.filter(starting_at(axis, k)) == a@.take(0).filter(
                starting_at(axis, k),
            ) + b@.take(0).filter(starting_at(axis, k)) by {
            lemma_none_starting_at(Seq::<Extent>::empty(), axis, k);
            assert(out@ =~= Seq::<Extent>::empty());
        }
        assert(out@.to_multiset() =~= a@.take(0).to_multiset().add(b@.take(0).to_multiset())) by {
            broadcast use vstd::seq_lib::group_to_multiset_ensures;
            assert(out@ =~= Seq::<Extent>::empty());
        }
    }
    while i < a.len() || j < b.len()
        invariant
            axis <= 2,
            i <= a.len(),
            j <= b.len(),
            ordered_along(a@, axis),
            ordered_along(b@, axis),
            ordered_along(out@, axis),
            forall|n: int|
                0 <= n < out@.len() && i < a.len() ==> (#[trigger] out@[n]).key(axis) <= a@[i as int].key(
                    axis,
                ),
            forall|n: int|
                0 <= n < out@.len() && j < b.len() ==> (#[trigger] out@[n]).key(axis) <= b@[j as int].key(
                    axis,
                ),
            forall|n: int|
                0 <= n < j && i < a.len() ==> (#[trigger] b@[n]).key(axis) < a@[i as int].key(axis),
            forall|k: i64|
                #[trigger] out@.filter(starting_at(axis, k)) == a@.take(i as int).filter(
                    starting_at(axis, k),
                ) + b@.take(j as int).filter(starting_at(axis, k)),
            out@.to_multiset() == a@.take(i as int).to_multiset().add(
                b@.take(j as int).to_multiset(),
            ),
        decreases a.len() - i + (b.len() - j),
    {
        let from_left = if i == a.len() {
            false
        } else if j == b.len() {
            true
        } else {
            a[i].start(axis) <= b[j].start(axis)
        };
        if from_left {
            let e = a[i];
            proof {
                lemma_take_left(out@, a@, b@, i as int, j as int, axis);
            }
            out.push(e);
            i = i + 1;
        } else {
            let e = b[j];
            proof {
                lemma_take_right(out@, a@, b@, i as int, j as int, axis);
            }
            out.push(e);
            j = j + 1;
        }
    }
    proof {
        assert(a@.take(i as int) =~= a@);
        assert(b@.take(j as int) =~= b@);
    }
    out
}

/// Splitting a sequence in two and putting each part in order, then merging,
/// puts the whole in order.
proof fn lemma_halves(
    whole: Seq<Extent>,
    mid: int,
    left: Seq<Extent>,
    right: Seq<Extent>,
    out: Seq<Extent>,
    axis: u8,
)
    requires
        0 <= mid <= whole.len(),
        is_stable_sort(whole.subrange(0, mid), left, axis),
        is_stable_sort(whole.subrange(mid, whole.len() as int), right, axis),
        ordered_along(out, axis),
        forall|k: i64|
            #[trigger] out.filter(starting_at(axis, k)) == left.filter(starting_at(axis, k))
                + right.filter(starting_at(axis, k)),
        out.to_multiset() == left.to_multiset().add(right.to_multiset()),
    ensures
        is_stable_sort(whole, out, axis),
{
    let front = whole.subrange(0, mid);
    let back = whole.subrange(mid, whole.len() as int);
    assert(whole =~= front + back);
    assert forall|k: i64|
        #[trigger] out.filter(starting_at(axis, k)) == whole.filter(starting_at(axis, k)) by {
        let p = starting_at(axis, k);
        Seq::filter_distributes_over_add(front, back, p);
        assert(left.filter(p) == front.filter(p));
        assert(right.filter(p) == back.filter(p));
    }
    vstd::seq_lib::lemma_multiset_commutative(front, back);
}

/// Puts `items` in order along `axis`; entities that start at the same place
/// keep their order.
pub fn sort_along(items: Vec<Extent>, axis: u8) -> (sorted: Vec<Extent>)
    requires
        axis <= 2,
    ensures
        is_stable_sort(items@, sorted@, axis),
    decreases items.len(),
{
    let len: usize = items.len();
    if len <= 1 {
        return items;
    }
    let mid: usize = len / 2;
    let mut front = items;
    let back = front.split_off(mid);
    let left = sort_along(front, axis);
    let right = sort_along(back, axis);
    let out = merge(&left, &right, axis);
    proof {
        lemma_halves(items@, mid as int, left@, right@, out@, axis);
    }
    out
}

} // verus!
