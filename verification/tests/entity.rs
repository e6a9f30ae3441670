use pathtracer::entity::{closer, EntityCluster, HitRecord};

fn hit(time: i64, surface: &'static str) -> Option<HitRecord<&'static str>> {
    Some(HitRecord { time, surface })
}

#[test]
fn closer_keeps_the_earlier() {
    assert_eq!(closer(hit(3, "a"), hit(5, "b")), hit(3, "a"));
    assert_eq!(closer(hit(5, "a"), hit(3, "b")), hit(3, "b"));
}

#[test]
fn closer_keeps_the_second_of_a_tie() {
    assert_eq!(closer(hit(4, "a"), hit(4, "b")), hit(4, "b"));
}

#[test]
fn closer_with_one_side_empty() {
    assert_eq!(closer(hit(9, "a"), None), hit(9, "a"));
    assert_eq!(closer(None, hit(-9, "b")), hit(-9, "b"));
    assert_eq!(closer::<&'static str>(None, None), None);
}

#[test]
fn cluster_starts_empty_and_keeps_the_order_of_arrival() {
    let mut cluster = EntityCluster::new();
    assert!(cluster.entities.is_empty());
    cluster.push(4);
    cluster.push(2);
    cluster.push(4);
    assert_eq!(cluster.entities, vec![4, 2, 4]);
}

#[test]
fn empty_cluster_reports_nothing() {
    let cluster = EntityCluster::new();
    let found: Option<HitRecord<()>> = cluster.hit(100, &|_e: usize, _b: i64| -> Option<HitRecord<()>> {
        panic!("nothing to ask")
    });
    assert_eq!(found, None);
}

#[test]
fn scan_narrows_the_bound_to_the_last_hit() {
    let mut cluster = EntityCluster::new();
    for e in 0..5 {
        cluster.push(e);
    }
    // where the ray meets each entity, if it does
    let meets = [Some(50), None, Some(20), Some(30), Some(10)];
    let asked = std::cell::RefCell::new(Vec::new());
    let probe = |e: usize, bound: i64| {
        asked.borrow_mut().push((e, bound));
        match meets[e] {
            Some(t) if t < bound => Some(HitRecord { time: t, surface: e }),
            _ => None,
        }
    };
    let found = cluster.hit(100, &probe);
    assert_eq!(found, Some(HitRecord { time: 10, surface: 4 }));
    assert_eq!(
        asked.into_inner(),
        vec![(0, 100), (1, 50), (2, 50), (3, 20), (4, 20)]
    );
}

#[test]
fn scan_keeps_the_last_answer_whatever_it_is() {
    // an entity that ignores the bound is believed all the same
    let mut cluster = EntityCluster::new();
    cluster.push(0);
    cluster.push(1);
    let probe = |e: usize, _bound: i64| Some(HitRecord { time: 10 + e as i64, surface: e });
    assert_eq!(cluster.hit(100, &probe), Some(HitRecord { time: 11, surface: 1 }));
}

#[test]
fn scan_with_nothing_met_reports_nothing() {
    let mut cluster = EntityCluster::new();
    cluster.push(3);
    cluster.push(8);
    let probe = |_e: usize, bound: i64| -> Option<HitRecord<u8>> {
        assert_eq!(bound, -5);
        None
    };
    assert_eq!(cluster.hit(-5, &probe), None);
}
