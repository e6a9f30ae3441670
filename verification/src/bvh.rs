//! The bounding volume hierarchy: a binary tree over the entities of a scene.
//!
//! Building the tree is a matter of order alone: at each node the entities are
//! put in order along an axis drawn at random, the first half goes left and
//! the rest goes right. Walking it for a ray asks two things of the caller,
//! whether the ray crosses a node's box and where it meets an entity, and
//! keeps the earlier of what the two sides answer.

use crate::entity::{
    closer, earliest_among, honours_bound, lemma_earliest_time_unique, lemma_scan_keeps_earliest,
    nearer, scanned, time_of, HitRecord,
};
use crate::order::{is_stable_sort, sort_along, Extent};
use crate::random::random_axis;
use vstd::prelude::*;

verus! {

/// One side of a node: an entity of the scene, by its number, or a further node.
#[derive(Debug, PartialEq, Eq)]
pub enum Child {
    Entity(usize),
    Node(Box<BVHNode>),
}

/// A node of the hierarchy. `index` numbers the nodes of a tree from its root
/// on, a node before what is on its left and that before what is on its right,
/// so that the caller can keep each node's bounding box beside the tree.
#[derive(Debug, PartialEq, Eq)]
pub struct BVHNode {
    pub index: usize,
    pub left: Child,
    pub right: Child,
}

/// The numbers of the entities, in the order in which `items` holds them.
pub open spec fn entities_of(items: Seq<Extent>) -> Seq<usize> {
    items.map_values(|e: Extent| e.entity)
}

/// How many nodes a tree over `n` entities has.
pub open spec fn node_count(n: nat) -> nat
    decreases n,
{
    if n <= 2 {
        1
    } else {
        1 + node_count(n / 2) + node_count((n - n / 2) as nat)
    }
}

/// What building a tree may leave of `before`: up to two entities stay as they
/// are; more are put in order along one of the three axes, and then the first
/// half and the rest are each arranged in turn.
pub open spec fn arranged(before: Seq<Extent>, after: Seq<Extent>) -> bool
    decreases before.len(),
{
    if before.len() <= 2 {
        after == before
    } else {
        exists|axis: u8, sorted: Seq<Extent>|
            #![trigger is_stable_sort(before, sorted, axis)]
            {
                let mid = (before.len() / 2) as int;
                let len = before.len() as int;
                &&& axis <= 2
                &&& is_stable_sort(before, sorted, axis)
                &&& sorted.len() == len
                &&& after.len() == len
                &&& arranged(sorted.subrange(0, mid), after.subrange(0, mid))
                &&& arranged(sorted.subrange(mid, len), after.subrange(mid, len))
            }
    }
}

impl Child {
    /// Entity `e` is this side, or somewhere below it.
    pub open spec fn holds(self, e: usize) -> bool
        decreases self,
    {
        match self {
            Child::Entity(x) => x == e,
            Child::Node(node) => node.holds(e),
        }
    }

    /// A node numbered `index` is on this side.
    pub open spec fn visits(self, index: usize) -> bool
        decreases self,
    {
        match self {
            Child::Entity(_) => false,
            Child::Node(node) => node.visits(index),
        }
    }

    /// A node numbered `index` is on this side and has entity `e` below it.
    pub open spec fn encloses(self, index: usize, e: usize) -> bool
        decreases self,
    {
        match self {
            Child::Entity(_) => false,
            Child::Node(node) => node.encloses(index, e),
        }
    }

    /// What a walk of this side may answer: for an entity what its
    /// intersection test allows, for a node what [`BVHNode::may_report`] says.
    pub open spec fn may_report<S, B: Fn(usize) -> bool, P: Fn(usize) -> Option<HitRecord<S>>>(
        self,
        crosses: B,
        probe: P,
        found: Option<HitRecord<S>>,
    ) -> bool
        decreases self,
    {
        match self {
            Child::Entity(e) => probe.ensures((e,), found),
            Child::Node(node) => node.may_report(crosses, probe, found),
        }
    }

    /// Asks the entity on this side, or walks the node on it.
    pub fn hit<S, B: Fn(usize) -> bool, P: Fn(usize) -> Option<HitRecord<S>>>(
        &self,
        crosses: &B,
        probe: &P,
    ) -> (found: Option<HitRecord<S>>)
        requires
            forall|n: usize| self.visits(n) ==> #[trigger] crosses.requires((n,)),
            forall|e: usize| self.holds(e) ==> #[trigger] probe.requires((e,)),
        ensures
            self.may_report(*crosses, *probe, found),
        decreases self,
    {
        match self {
            Child::Entity(e) => probe(*e),
            Child::Node(node) => node.hit(crosses, probe),
        }
    }
}

impl BVHNode {
    /// Entity `e` is somewhere below this node.
    pub open spec fn holds(self, e: usize) -> bool
        decreases self,
    {
        self.left.holds(e) || self.right.holds(e)
    }

    /// This node or one below it is numbered `index`.
    pub open spec fn visits(self, index: usize) -> bool
        decreases self,
    {
        self.index == index || self.left.visits(index) || self.right.visits(index)
    }

    /// This node or one below it is numbered `index` and has entity `e` below it.
    pub open spec fn encloses(self, index: usize, e: usize) -> bool
        decreases self,
    {
        ||| self.index == index && self.holds(e)
        ||| self.left.encloses(index, e)
        ||| self.right.encloses(index, e)
    }

    /// The tree over the entities `ids`, taken in this order, with its nodes
    /// numbered from `first`. One entity stands on both sides of a single
    /// node, two stand one on each side, and more are divided in the middle.
    pub open spec fn over(ids: Seq<usize>, first: usize) -> BVHNode
        decreases ids.len(),
    {
        if ids.len() <= 1 {
            BVHNode { index: first, left: Child::Entity(ids[0]), right: Child::Entity(ids[0]) }
        } else if ids.len() == 2 {
            BVHNode { index: first, left: Child::Entity(ids[0]), right: Child::Entity(ids[1]) }
        } else {
            let mid = (ids.len() / 2) as int;
            let len = ids.len() as int;
            BVHNode {
                index: first,
                left: Child::Node(
                    Box::new(BVHNode::over(ids.subrange(0, mid), (first + 1) as usize)),
                ),
                right: Child::Node(
                    Box::new(
                        BVHNode::over(
                            ids.subrange(mid, len),
                            (first + 1 + node_count(mid as nat)) as usize,
                        ),
                    ),
                ),
            }
        }
    }
}

/// A tree has at least one node, and fewer than twice as many as entities.
pub proof fn lemma_node_count_bound(n: nat)
    ensures
        1 <= node_count(n),
        n >= 1 ==> node_count(n) < 2 * n,
    decreases n,
{
    if n > 2 {
        lemma_node_count_bound(n / 2);
        lemma_node_count_bound((n - n / 2) as nat);
    }
}

struct Built {
    node: BVHNode,
    items: Vec<Extent>,
    next: usize,
}

/// Builds the tree over `items` with its nodes numbered from `first`.
fn build(items: Vec<Extent>, first: usize) -> (built: Built)
    requires
        1 <= items.len(),
        first + 2 * items.len() <= usize::MAX,
    ensures
        arranged(items@, built.items@),
        built.items@.len() == items@.len(),
        built.items@.to_multiset() == items@.to_multiset(),
        built.node == BVHNode::over(entities_of(built.items@), first),
        built.next == first + node_count(items@.len()),
    decreases items.len(),
{
    let axis = random_axis();
    let len: usize = items.len();
    proof {
        lemma_node_count_bound(len as nat);
    }
    if len == 1 {
        let e = items[0].entity;
        Built {
            node: BVHNode { index: first, left: Child::Entity(e), right: Child::Entity(e) },
            items,
            next: first + 1,
        }
    } else if len == 2 {
        let a = items[0].entity;
        let b = items[1].entity;
        Built {
            node: BVHNode { index: first, left: Child::Entity(a), right: Child::Entity(b) },
            items,
            next: first + 1,
        }
    } else {
        let ghost before = items@;
        let mut front = sort_along(items, axis);
        let ghost sorted = front@;
        proof {
            vstd::seq_lib::to_multiset_len(before);
            vstd::seq_lib::to_multiset_len(sorted);
        }
        let mid: usize = len / 2;
        let back = front.split_off(mid);
        proof {
            lemma_node_count_bound(mid as nat);
            lemma_node_count_bound((len - mid) as nat);
        }
        let left = build(front, first + 1);
        let right = build(back, left.next);
        let mut items = left.items;
        let mut rest = right.items;
        let ghost front_after = items@;
        let ghost back_after = rest@;
        items.append(&mut rest);
        proof {
            let after = items@;
            assert(after.subrange(0, mid as int) =~= front_after);
            assert(after.subrange(mid as int, len as int) =~= back_after);
            assert(sorted =~= sorted.subrange(0, mid as int) + sorted.subrange(
                mid as int,
                len as int,
            ));
            vstd::seq_lib::lemma_multiset_commutative(
                sorted.subrange(0, mid as int),
                sorted.subrange(mid as int, len as int),
            );
            vstd::seq_lib::lemma_multiset_commutative(front_after, back_after);
            assert(is_stable_sort(before, sorted, axis));
            assert(arranged(before, after));
            assert(entities_of(after).subrange(0, mid as int) =~= entities_of(front_after));
            assert(entities_of(after).subrange(mid as int, len as int) =~= entities_of(
                back_after,
            ));
        }
        Built {
            node: BVHNode {
                index: first,
                left: Child::Node(Box::new(left.node)),
                right: Child::Node(Box::new(right.node)),
            },
            items,
            next: right.next,
        }
    }
}

impl BVHNode {
    /// What a walk of the tree may answer, given what the box test of each
    /// node and the intersection test of each entity may answer: nothing
    /// where the ray may pass the node's box by, and where it may cross it the
    /// nearer of what the two sides may answer.
    pub open spec fn may_report<S, B: Fn(usize) -> bool, P: Fn(usize) -> Option<HitRecord<S>>>(
        self,
        crosses: B,
        probe: P,
        found: Option<HitRecord<S>>,
    ) -> bool
        decreases self,
    {
        ||| crosses.ensures((self.index,), false) && found is None
        ||| crosses.ensures((self.index,), true) && exists|
            hl: Option<HitRecord<S>>,
            hr: Option<HitRecord<S>>,
        |
            #![trigger nearer(hl, hr)]
            {
                &&& self.left.may_report(crosses, probe, hl)
                &&& self.right.may_report(crosses, probe, hr)
                &&& found == nearer(hl, hr)
            }
    }

    /// Walks the tree for the intersection to keep.
    ///
    /// `crosses` says of a node, by its number, whether the ray crosses its
    /// box; `probe` says where the ray meets an entity. A node whose box the
    /// ray passes by answers nothing and asks nothing below it. Any other node
    /// asks both of its sides, each over the whole of the search, and keeps
    /// the earlier answer; of two at the same ray parameter, the right one.
    pub fn hit<S, B: Fn(usize) -> bool, P: Fn(usize) -> Option<HitRecord<S>>>(
        &self,
        crosses: &B,
        probe: &P,
    ) -> (found: Option<HitRecord<S>>)
        requires
            forall|n: usize| self.visits(n) ==> #[trigger] crosses.requires((n,)),
            forall|e: usize| self.holds(e) ==> #[trigger] probe.requires((e,)),
        ensures
            self.may_report(*crosses, *probe, found),
        decreases self,
    {
        if !crosses(self.index) {
            return None;
        }
        let hl = self.left.hit(crosses, probe);
        let hr = self.right.hit(crosses, probe);
        closer(hl, hr)
    }

    /// Builds the hierarchy over `entities`, of which there is at least one,
    /// and few enough for the nodes to be numbered.
    ///
    /// The entities are left in the order in which the tree holds them from
    /// left to right. That order depends on the axes drawn on the way; whatever
    /// they were, it is one that [`arranged`] allows, and the tree is the one
    /// that [`BVHNode::over`] lays over it, numbered from 0.
    pub fn new(entities: &mut Vec<Extent>) -> (node: BVHNode)
        requires
            old(entities).len() >= 1,
            2 * old(entities).len() <= usize::MAX,
        ensures
            arranged(old(entities)@, final(entities)@),
            final(entities)@.to_multiset() == old(entities)@.to_multiset(),
            node == BVHNode::over(entities_of(final(entities)@), 0),
            held_by(node) == entities_of(old(entities)@).to_set(),
    {
        let mut items: Vec<Extent> = Vec::new();
        items.append(entities);
        assert(items@ =~= old(entities)@);
        let built = build(items, 0);
        proof {
            lemma_same_entities(old(entities)@, built.items@);
            lemma_tree_holds_its_entities(entities_of(built.items@), 0);
        }
        *entities = built.items;
        built.node
    }
}

/// The entities below a node.
pub open spec fn held_by(node: BVHNode) -> Set<usize> {
    Set::new(|e: usize| node.holds(e))
}

/// What a walk needs of the caller to find the earliest intersection.
///
/// `meets` says where the ray meets each entity. The intersection test of an
/// entity below `node` answers just that, and the box test of a node never
/// turns the ray away from a node that has an entity below it which the ray
/// meets.
pub open spec fn admits_hits<S, B: Fn(usize) -> bool, P: Fn(usize) -> Option<HitRecord<S>>>(
    node: BVHNode,
    crosses: B,
    probe: P,
    meets: spec_fn(usize) -> Option<HitRecord<S>>,
) -> bool {
    &&& forall|e: usize, found: Option<HitRecord<S>>|
        node.holds(e) && #[trigger] probe.ensures((e,), found) ==> found == meets(e)
    &&& forall|index: usize, e: usize|
        #[trigger] node.encloses(index, e) && meets(e) is Some ==> !crosses.ensures(
            (index,),
            false,
        )
}

/// A walk keeps the earliest intersection: where the box tests turn no ray
/// away from what it meets, whatever a walk of the tree answers is the
/// earliest of the intersections with the entities below it.
pub proof fn lemma_walk_keeps_earliest<
    S,
    B: Fn(usize) -> bool,
    P: Fn(usize) -> Option<HitRecord<S>>,
>(
    node: BVHNode,
    crosses: B,
    probe: P,
    meets: spec_fn(usize) -> Option<HitRecord<S>>,
    found: Option<HitRecord<S>>,
)
    requires
        admits_hits(node, crosses, probe, meets),
        node.may_report(crosses, probe, found),
    ensures
        earliest_among(held_by(node), meets, found),
    decreases node,
{
    let among = held_by(node);
    if crosses.ensures((node.index,), false) && found is None {
        assert forall|e: usize| #[trigger] among.contains(e) implies meets(e) is None by {
            assert(node.encloses(node.index, e));
        }
    } else {
        let (hl, hr) = choose|hl: Option<HitRecord<S>>, hr: Option<HitRecord<S>>|
            #![trigger nearer(hl, hr)]
            {
                &&& node.left.may_report(crosses, probe, hl)
                &&& node.right.may_report(crosses, probe, hr)
                &&& found == nearer(hl, hr)
            };
        lemma_side_keeps_earliest(node, node.left, crosses, probe, meets, hl);
        lemma_side_keeps_earliest(node, node.right, crosses, probe, meets, hr);
        let on_left = Set::new(|e: usize| node.left.holds(e));
        let on_right = Set::new(|e: usize| node.right.holds(e));
        assert forall|e: usize| among.contains(e) implies on_left.contains(e) || on_right.contains(
            e,
        ) by {}
        match found {
            Some(h) => {
                if hl == Some(h) {
                    let w = choose|e: usize| #[trigger] on_left.contains(e) && meets(e) == Some(h);
                    assert(among.contains(w));
                } else {
                    let w = choose|e: usize| #[trigger]
                        on_right.contains(e) && meets(e) == Some(h);
                    assert(among.contains(w));
                }
                assert forall|e: usize| #[trigger] among.contains(e) implies match meets(e) {
                    Some(other) => h.time <= other.time,
                    None => true,
                } by {
                    if on_left.contains(e) {
                    } else {
                        assert(on_right.contains(e));
                    }
                }
            },
            None => {
                assert forall|e: usize| #[trigger] among.contains(e) implies meets(e) is None by {
                    if on_left.contains(e) {
                    } else {
                        assert(on_right.contains(e));
                    }
                }
            },
        }
    }
}

proof fn lemma_side_keeps_earliest<S, B: Fn(usize) -> bool, P: Fn(usize) -> Option<HitRecord<S>>>(
    node: BVHNode,
    side: Child,
    crosses: B,
    probe: P,
    meets: spec_fn(usize) -> Option<HitRecord<S>>,
    found: Option<HitRecord<S>>,
)
    requires
        side == node.left || side == node.right,
        admits_hits(node, crosses, probe, meets),
        side.may_report(crosses, probe, found),
    ensures
        earliest_among(Set::new(|e: usize| side.holds(e)), meets, found),
    decreases node, 0nat,
{
    let among = Set::new(|e: usize| side.holds(e));
    match side {
        Child::Entity(x) => {
            assert(node.holds(x));
            assert(found == meets(x));
            assert(among.contains(x));
        },
        Child::Node(below) => {
            assert forall|e: usize, r: Option<HitRecord<S>>|
                below.holds(e) && #[trigger] probe.ensures((e,), r) implies r == meets(e) by {
                assert(node.holds(e));
            }
            assert forall|index: usize, e: usize| #[trigger]
                below.encloses(index, e) && meets(e) is Some implies !crosses.ensures(
                (index,),
                false,
            ) by {
                assert(node.encloses(index, e));
            }
            lemma_walk_keeps_earliest(*below, crosses, probe, meets, found);
            assert(among =~= held_by(*below));
        },
    }
}

/// Arranging loses and adds nothing: the entities are the same afterwards,
/// each as often as before.
pub proof fn lemma_arranged_permutes(before: Seq<Extent>, after: Seq<Extent>)
    requires
        arranged(before, after),
    ensures
        after.len() == before.len(),
        after.to_multiset() == before.to_multiset(),
    decreases before.len(),
{
    if before.len() > 2 {
        let (axis, sorted) = choose|axis: u8, sorted: Seq<Extent>|
            #![trigger is_stable_sort(before, sorted, axis)]
            {
                let mid = (before.len() / 2) as int;
                let len = before.len() as int;
                &&& axis <= 2
                &&& is_stable_sort(before, sorted, axis)
                &&& sorted.len() == len
                &&& after.len() == len
                &&& arranged(sorted.subrange(0, mid), after.subrange(0, mid))
                &&& arranged(sorted.subrange(mid, len), after.subrange(mid, len))
            };
        let mid = (before.len() / 2) as int;
        let len = before.len() as int;
        lemma_arranged_permutes(sorted.subrange(0, mid), after.subrange(0, mid));
        lemma_arranged_permutes(sorted.subrange(mid, len), after.subrange(mid, len));
        assert(sorted =~= sorted.subrange(0, mid) + sorted.subrange(mid, len));
        assert(after =~= after.subrange(0, mid) + after.subrange(mid, len));
        vstd::seq_lib::lemma_multiset_commutative(
            sorted.subrange(0, mid),
            sorted.subrange(mid, len),
        );
        vstd::seq_lib::lemma_multiset_commutative(after.subrange(0, mid), after.subrange(mid, len));
    }
}

/// No entity of the first half of `s` starts after one of the rest, along `axis`.
pub open spec fn divided_along(s: Seq<Extent>, axis: u8) -> bool {
    forall|i: int, j: int|
        0 <= i < s.len() / 2 <= j < s.len() ==> (#[trigger] s[i]).key(axis) <= (#[trigger] s[j]).key(
            axis,
        )
}

/// What goes left starts no later than what goes right: once three or more
/// entities are arranged, there is an axis along which no entity of the first
/// half starts after one of the rest.
pub proof fn lemma_arranged_divides(before: Seq<Extent>, after: Seq<Extent>)
    requires
        arranged(before, after),
        before.len() >= 3,
    ensures
        exists|axis: u8| axis <= 2 && #[trigger] divided_along(after, axis),
{
    let (axis, sorted) = choose|axis: u8, sorted: Seq<Extent>|
        #![trigger is_stable_sort(before, sorted, axis)]
        {
            let mid = (before.len() / 2) as int;
            let len = before.len() as int;
            &&& axis <= 2
            &&& is_stable_sort(before, sorted, axis)
            &&& sorted.len() == len
            &&& after.len() == len
            &&& arranged(sorted.subrange(0, mid), after.subrange(0, mid))
            &&& arranged(sorted.subrange(mid, len), after.subrange(mid, len))
        };
    let mid = (before.len() / 2) as int;
    let len = before.len() as int;
    let front = sorted.subrange(0, mid);
    let back = sorted.subrange(mid, len);
    let front_after = after.subrange(0, mid);
    let back_after = after.subrange(mid, len);
    lemma_arranged_permutes(front, front_after);
    lemma_arranged_permutes(back, back_after);
    assert forall|i: int, j: int| 0 <= i < after.len() / 2 <= j < after.len() implies (
    #[trigger] after[i]).key(axis) <= (#[trigger] after[j]).key(axis) by {
        assert(front_after[i] == after[i]);
        assert(front_after.contains(after[i]));
        vstd::seq_lib::to_multiset_contains(front_after, after[i]);
        vstd::seq_lib::to_multiset_contains(front, after[i]);
        let a = choose|a: int| 0 <= a < front.len() && front[a] == after[i];
        assert(back_after[j - mid] == after[j]);
        assert(back_after.contains(after[j]));
        vstd::seq_lib::to_multiset_contains(back_after, after[j]);
        vstd::seq_lib::to_multiset_contains(back, after[j]);
        let b = choose|b: int| 0 <= b < back.len() && back[b] == after[j];
        assert(sorted[a] == after[i]);
        assert(sorted[b + mid] == after[j]);
    }
    assert(divided_along(after, axis));
}

/// An entity named in one list is named in any list of the same items.
proof fn lemma_entity_stays(a: Seq<Extent>, b: Seq<Extent>, e: usize)
    requires
        a.to_multiset() == b.to_multiset(),
        entities_of(a).to_set().contains(e),
    ensures
        entities_of(b).to_set().contains(e),
{
    let i = choose|i: int| 0 <= i < entities_of(a).len() && entities_of(a)[i] == e;
    assert(a.contains(a[i]));
    vstd::seq_lib::to_multiset_contains(a, a[i]);
    vstd::seq_lib::to_multiset_contains(b, a[i]);
    let j = choose|j: int| 0 <= j < b.len() && b[j] == a[i];
    assert(entities_of(b)[j] == e);
}

/// Two lists of the same items, each as often, name the same entities.
proof fn lemma_same_entities(before: Seq<Extent>, after: Seq<Extent>)
    requires
        after.to_multiset() == before.to_multiset(),
    ensures
        entities_of(after).to_set() == entities_of(before).to_set(),
{
    assert forall|e: usize|
        entities_of(after).to_set().contains(e) == entities_of(before).to_set().contains(e) by {
        if entities_of(after).to_set().contains(e) {
            lemma_entity_stays(after, before, e);
        }
        if entities_of(before).to_set().contains(e) {
            lemma_entity_stays(before, after, e);
        }
    }
    assert(entities_of(after).to_set() =~= entities_of(before).to_set());
}

/// The tree laid over a list of entities holds just those entities.
pub proof fn lemma_tree_holds_its_entities(ids: Seq<usize>, first: usize)
    requires
        ids.len() >= 1,
    ensures
        held_by(BVHNode::over(ids, first)) == ids.to_set(),
    decreases ids.len(),
{
    let tree = BVHNode::over(ids, first);
    if ids.len() <= 2 {
        assert forall|e: usize| ids.to_set().contains(e) implies tree.holds(e) by {
            let i = choose|i: int| 0 <= i < ids.len() && ids[i] == e;
        }
        assert(ids.to_set().contains(ids[0]));
        assert(ids.to_set().contains(ids[ids.len() - 1]));
        assert(held_by(tree) =~= ids.to_set());
    } else {
        let mid = (ids.len() / 2) as int;
        let len = ids.len() as int;
        let front = ids.subrange(0, mid);
        let back = ids.subrange(mid, len);
        lemma_tree_holds_its_entities(front, (first + 1) as usize);
        lemma_tree_holds_its_entities(back, (first + 1 + node_count(mid as nat)) as usize);
        let left = BVHNode::over(front, (first + 1) as usize);
        let right = BVHNode::over(back, (first + 1 + node_count(mid as nat)) as usize);
        assert forall|e: usize| ids.to_set().contains(e) implies tree.holds(e) by {
            let i = choose|i: int| 0 <= i < ids.len() && ids[i] == e;
            if i < mid {
                assert(front[i] == e);
                assert(front.to_set().contains(e));
                assert(held_by(left).contains(e));
            } else {
                assert(back[i - mid] == e);
                assert(back.to_set().contains(e));
                assert(held_by(right).contains(e));
            }
        }
        assert forall|e: usize| tree.holds(e) implies ids.to_set().contains(e) by {
            if left.holds(e) {
                assert(held_by(left).contains(e));
                let i = choose|i: int| 0 <= i < front.len() && front[i] == e;
                assert(ids[i] == e);
            } else {
                assert(held_by(right).contains(e));
                let i = choose|i: int| 0 <= i < back.len() && back[i] == e;
                assert(ids[i + mid] == e);
            }
        }
        assert(held_by(tree) =~= ids.to_set());
    }
}

/// The hierarchy and the linear scan agree.
///
/// Take a tree and a list of entities that holds just the entities of the
/// tree, and a ray that meets each entity where `meets` says. Let the box
/// tests turn the ray away from no node below which it meets an entity, and
/// let each entity honour the bound it is asked with. Then whatever a walk of
/// the tree answers and whatever a scan of the list answers are intersections
/// at the same ray parameter, the earliest there is, or both are none.
pub proof fn lemma_walk_agrees_with_scan<
    S,
    B: Fn(usize) -> bool,
    P: Fn(usize) -> Option<HitRecord<S>>,
    Q: Fn(usize, i64) -> Option<HitRecord<S>>,
>(
    tree: BVHNode,
    ids: Seq<usize>,
    crosses: B,
    probe: P,
    bounded: Q,
    end: i64,
    meets: spec_fn(usize) -> Option<HitRecord<S>>,
    by_walk: Option<HitRecord<S>>,
    by_scan: Option<HitRecord<S>>,
    bound: i64,
)
    requires
        held_by(tree) == ids.to_set(),
        admits_hits(tree, crosses, probe, meets),
        honours_bound(bounded, end, meets, ids.to_set()),
        tree.may_report(crosses, probe, by_walk),
        scanned(ids, bounded, end, bound, by_scan),
    ensures
        time_of(by_walk) == time_of(by_scan),
        earliest_among(ids.to_set(), meets, by_walk),
        earliest_among(ids.to_set(), meets, by_scan),
{
    lemma_walk_keeps_earliest(tree, crosses, probe, meets, by_walk);
    lemma_scan_keeps_earliest(ids, bounded, end, meets, bound, by_scan);
    lemma_earliest_time_unique(ids.to_set(), meets, by_walk, by_scan);
}

} // verus!
