//! Intersections, and the unordered cluster of entities.

use vstd::prelude::*;

verus! {

/// An intersection of a ray with a surface.
///
/// `time` is the order key of the ray parameter at which the surface is met:
/// the one thing by which two intersections are compared. `surface` is what
/// the entity recorded of the place (point, normal, texture coordinates,
/// material); the rules of this crate carry it along and never look inside.
#[derive(Debug, PartialEq, Eq)]
pub struct HitRecord<S> {
    pub time: i64,
    pub surface: S,
}

/// Of two possible intersections, the one a traversal keeps: the earlier one,
/// and where neither is earlier, the second.
pub open spec fn nearer<S>(first: Option<HitRecord<S>>, second: Option<HitRecord<S>>) -> Option<
    HitRecord<S>,
> {
    match (first, second) {
        (Some(a), Some(b)) => if a.time < b.time {
            Some(a)
        } else {
            Some(b)
        },
        (Some(a), None) => Some(a),
        (None, Some(b)) => Some(b),
        (None, None) => None,
    }
}

/// Keeps the earlier of two possible intersections, see [`nearer`].
pub fn closer<S>(first: Option<HitRecord<S>>, second: Option<HitRecord<S>>) -> (kept: Option<
    HitRecord<S>,
>)
    ensures
        kept == nearer(first, second),
{
    match (first, second) {
        (Some(a), Some(b)) => if a.time < b.time {
            Some(a)
        } else {
            Some(b)
        },
        (Some(a), None) => Some(a),
        (None, Some(b)) => Some(b),
        (None, None) => None,
    }
}

/// The ray parameter of an intersection, if there is one.
pub open spec fn time_of<S>(found: Option<HitRecord<S>>) -> Option<i64> {
    match found {
        Some(h) => Some(h.time),
        None => None,
    }
}

/// `kept` is the earliest of the intersections that `meets` assigns to the
/// entities `among`: none where none of them is met, else the record of one of
/// them that no other precedes.
pub open spec fn earliest_among<S>(
    among: Set<usize>,
    meets: spec_fn(usize) -> Option<HitRecord<S>>,
    kept: Option<HitRecord<S>>,
) -> bool {
    match kept {
        None => forall|e: usize| #[trigger] among.contains(e) ==> meets(e) is None,
        Some(h) => {
            &&& exists|e: usize| #[trigger] among.contains(e) && meets(e) == Some(h)
            &&& forall|e: usize| #[trigger]
                among.contains(e) ==> match meets(e) {
                    Some(other) => h.time <= other.time,
                    None => true,
                }
        },
    }
}

/// Two answers that are each the earliest among the same entities agree on
/// the ray parameter.
pub proof fn lemma_earliest_time_unique<S>(
    among: Set<usize>,
    meets: spec_fn(usize) -> Option<HitRecord<S>>,
    one: Option<HitRecord<S>>,
    other: Option<HitRecord<S>>,
)
    requires
        earliest_among(among, meets, one),
        earliest_among(among, meets, other),
    ensures
        time_of(one) == time_of(other),
{
    match (one, other) {
        (Some(a), Some(b)) => {
            let ea = choose|e: usize| #[trigger] among.contains(e) && meets(e) == Some(a);
            let eb = choose|e: usize| #[trigger] among.contains(e) && meets(e) == Some(b);
            assert(among.contains(ea) && among.contains(eb));
        },
        (Some(a), None) => {
            let ea = choose|e: usize| #[trigger] among.contains(e) && meets(e) == Some(a);
            assert(among.contains(ea));
        },
        (None, Some(b)) => {
            let eb = choose|e: usize| #[trigger] among.contains(e) && meets(e) == Some(b);
            assert(among.contains(eb));
        },
        (None, None) => {},
    }
}

/// The state of a scan after an entity has answered: an intersection replaces
/// what was kept and its ray parameter becomes the bound of the search; no
/// intersection changes nothing.
pub open spec fn narrow<S>(bound: i64, kept: Option<HitRecord<S>>, found: Option<HitRecord<S>>) -> (
    i64,
    Option<HitRecord<S>>,
) {
    match found {
        Some(h) => (h.time, Some(h)),
        None => (bound, kept),
    }
}

/// A scan of the entities `ids`, in this order, that began with the bound `end`
/// may stand at `bound` with `kept` in hand: each entity was asked with the
/// bound that the scan had reached, and answered what `probe` allows.
pub open spec fn scanned<S, P: Fn(usize, i64) -> Option<HitRecord<S>>>(
    ids: Seq<usize>,
    probe: P,
    end: i64,
    bound: i64,
    kept: Option<HitRecord<S>>,
) -> bool
    decreases ids.len(),
{
    if ids.len() == 0 {
        bound == end && kept is None
    } else {
        exists|b: i64, k: Option<HitRecord<S>>, found: Option<HitRecord<S>>|
            #![trigger narrow(b, k, found)]
            {
                &&& scanned(ids.drop_last(), probe, end, b, k)
                &&& probe.ensures((ids.last(), b), found)
                &&& (bound, kept) == narrow(b, k, found)
            }
    }
}

/// An unordered cluster of entities, by their numbers.
#[derive(Debug, PartialEq, Eq)]
pub struct EntityCluster {
    pub entities: Vec<usize>,
}

impl EntityCluster {
    /// What a scan of the cluster may answer, given what each entity may answer.
    pub open spec fn may_report<S, P: Fn(usize, i64) -> Option<HitRecord<S>>>(
        self,
        probe: P,
        end: i64,
        kept: Option<HitRecord<S>>,
    ) -> bool {
        exists|bound: i64| scanned(self.entities@, probe, end, bound, kept)
    }

    /// The empty cluster.
    pub fn new() -> (cluster: EntityCluster)
        ensures
            cluster.entities@ == Seq::<usize>::empty(),
    {
        EntityCluster { entities: Vec::new() }
    }

    /// Adds an entity behind those that are there.
    pub fn push(&mut self, entity: usize)
        ensures
            final(self).entities@ == old(self).entities@.push(entity),
    {
        self.entities.push(entity);
    }

    /// Scans the cluster for the intersection to keep.
    ///
    /// The entities are asked in the order in which they were added. `probe`
    /// takes an entity and the upper bound of the search: `end` at first, and
    /// from the first intersection on the ray parameter of the last one
    /// found. The last intersection found is kept.
    pub fn hit<S, P: Fn(usize, i64) -> Option<HitRecord<S>>>(&self, end: i64, probe: &P) -> (kept:
        Option<HitRecord<S>>)
        requires
            forall|e: usize, bound: i64|
                self.entities@.contains(e) ==> #[trigger] probe.requires((e, bound)),
        ensures
            self.may_report(*probe, end, kept),
    {
        let mut bound: i64 = end;
        let mut kept: Option<HitRecord<S>> = None;
        let mut n: usize = 0;
        assert(self.entities@.take(0) =~= Seq::<usize>::empty());
        while n < self.entities.len()
            invariant
                n <= self.entities.len(),
                forall|e: usize, bound: i64|
                    self.entities@.contains(e) ==> #[trigger] probe.requires((e, bound)),
                scanned(self.entities@.take(n as int), *probe, end, bound, kept),
            decreases self.entities.len() - n,
        {
            let ghost before = (bound, kept);
            assert(self.entities@.contains(self.entities@[n as int]));
            let found = probe(self.entities[n], bound);
            proof {
                let ids = self.entities@.take(n as int + 1);
                assert(ids.drop_last() =~= self.entities@.take(n as int));
                assert(ids.last() == self.entities@[n as int]);
                let after = narrow(before.0, before.1, found);
                assert(scanned(ids, *probe, end, after.0, after.1));
            }
            match found {
                Some(h) => {
                    bound = h.time;
                    kept = Some(h);
                },
                None => {},
            }
            n = n + 1;
        }
        assert(self.entities@.take(n as int) =~= self.entities@);
        kept
    }
}

/// What a scan needs of the entities to find the earliest intersection.
///
/// `meets` says where the ray meets each entity within the whole search, up to
/// `end`. Asked with the bound `end`, an entity answers just that. Asked with
/// a lower bound, it answers with its intersection if that lies before the
/// bound, may answer either way if it lies on the bound, and finds nothing
/// beyond it.
pub open spec fn honours_bound<S, P: Fn(usize, i64) -> Option<HitRecord<S>>>(
    probe: P,
    end: i64,
    meets: spec_fn(usize) -> Option<HitRecord<S>>,
    among: Set<usize>,
) -> bool {
    forall|e: usize, bound: i64, found: Option<HitRecord<S>>|
        among.contains(e) && #[trigger] probe.ensures((e, bound), found) ==> {
            &&& found is Some ==> found == meets(e) && found->0.time <= bound
            &&& (meets(e) matches Some(h) && (bound == end || h.time < bound)) ==> found == meets(
                e,
            )
        }
}

/// A scan keeps the earliest intersection: if every entity honours the bound
/// it is asked with, what the scan has in hand is the earliest among the
/// entities asked so far, and the bound stands at it.
pub proof fn lemma_scan_keeps_earliest<S, P: Fn(usize, i64) -> Option<HitRecord<S>>>(
    ids: Seq<usize>,
    probe: P,
    end: i64,
    meets: spec_fn(usize) -> Option<HitRecord<S>>,
    bound: i64,
    kept: Option<HitRecord<S>>,
)
    requires
        honours_bound(probe, end, meets, ids.to_set()),
        scanned(ids, probe, end, bound, kept),
    ensures
        earliest_among(ids.to_set(), meets, kept),
        bound == match kept {
            Some(h) => h.time,
            None => end,
        },
    decreases ids.len(),
{
    let among = ids.to_set();
    if ids.len() == 0 {
        assert(earliest_among(among, meets, kept));
    } else {
        let (b, k, found) = choose|b: i64, k: Option<HitRecord<S>>, found: Option<HitRecord<S>>|
            #![trigger narrow(b, k, found)]
            {
                &&& scanned(ids.drop_last(), probe, end, b, k)
                &&& probe.ensures((ids.last(), b), found)
                &&& (bound, kept) == narrow(b, k, found)
            };
        let rest = ids.drop_last();
        let last = ids.last();
        let among_rest = rest.to_set();
        assert forall|e: usize| among_rest.contains(e) implies among.contains(e) by {
            let i = choose|i: int| 0 <= i < rest.len() && rest[i] == e;
            assert(ids[i] == e);
        }
        assert(honours_bound(probe, end, meets, among_rest));
        lemma_scan_keeps_earliest(rest, probe, end, meets, b, k);
        assert(ids[ids.len() - 1] == last);
        assert(among.contains(last));
        assert forall|e: usize| among.contains(e) implies among_rest.contains(e) || e == last by {
            let i = choose|i: int| 0 <= i < ids.len() && ids[i] == e;
            if i < ids.len() - 1 {
                assert(rest[i] == e);
            }
        }
        match found {
            Some(h) => {
                assert(meets(last) == Some(h));
                assert(h.time <= b);
                assert forall|e: usize| #[trigger] among.contains(e) implies match meets(e) {
                    Some(other) => h.time <= other.time,
                    None => true,
                } by {
                    if e != last {
                        assert(among_rest.contains(e));
                    }
                }
                assert(earliest_among(among, meets, kept));
            },
            None => {
                match k {
                    Some(h) => {
                        let w = choose|e: usize| #[trigger]
                            among_rest.contains(e) && meets(e) == Some(h);
                        assert(among.contains(w));
                        assert forall|e: usize| #[trigger] among.contains(e) implies match meets(
                            e,
                        ) {
                            Some(other) => h.time <= other.time,
                            None => true,
                        } by {
                            if e != last {
                                assert(among_rest.contains(e));
                            }
                        }
                    },
                    None => {
                        assert forall|e: usize| #[trigger] among.contains(e) implies meets(
                            e,
                        ) is None by {
                            if e != last {
                                assert(among_rest.contains(e));
                            }
                        }
                    },
                }
                assert(earliest_among(among, meets, kept));
            },
        }
    }
}

} // verus!
