//! The intersection resolver: the nearest hit of a ray among the objects of
//! a scene.

use vstd::prelude::*;
use vstd::pervasive::unreached;

verus! {

/// Whether object `k` is the nearest hit. `distances` holds, for every
/// object in registration order, the key of its valid hit distance along
/// the ray, or `None` where the ray has no valid hit with it. Keys order as
/// the distances do. The nearest hit has the smallest key; among objects
/// with the same smallest key the one registered first is the nearest.
pub open spec fn is_nearest(distances: Seq<Option<u64>>, k: int) -> bool {
    &&& 0 <= k < distances.len()
    &&& distances[k] is Some
    &&& forall|i: int|
        0 <= i < distances.len() && distances[i] is Some ==> distances[k]->0 <= (
        #[trigger] distances[i])->0
    &&& forall|i: int|
        0 <= i < k && distances[i] is Some ==> distances[k]->0 < (#[trigger] distances[i])->0
}

/// Whether the ray hits no object at all.
pub open spec fn escapes(distances: Seq<Option<u64>>) -> bool {
    forall|i: int| 0 <= i < distances.len() ==> (#[trigger] distances[i]) is None
}

/// The index of the nearest hit, or `None` where the ray escapes.
pub fn nearest_hit(distances: &[Option<u64>]) -> (r: Option<usize>)
    ensures
        match r {
            Some(k) => is_nearest(distances@, k as int),
            None => escapes(distances@),
        },
{
    let mut best: Option<usize> = None;
    let mut i: usize = 0;
    while i < distances.len()
        invariant
            i <= distances.len(),
            match best {
                Some(k) => k < i && is_nearest(distances@.take(i as int), k as int),
                None => escapes(distances@.take(i as int)),
            },
        decreases distances.len() - i,
    {
        let ghost seen = distances@.take(i as int);
        let ghost next = distances@.take(i + 1);
        assert(forall|j: int| 0 <= j < i ==> next[j] == seen[j]);
        match distances[i] {
            Some(d) => {
                match best {
                    Some(k) => {
                        match distances[k] {
                            Some(least) => {
                                if d < least {
                                    best = Some(i);
                                }
                            },
                            None => {},
                        }
                    },
                    None => {
                        best = Some(i);
                    },
                }
            },
            None => {},
        }
        i += 1;
    }
    assert(distances@.take(i as int) == distances@);
    best
}

/// Whether `distances` is what `meet` finds for `ray` and the objects, one
/// entry for every object, in registration order.
pub open spec fn are_distances<O, R, F>(
    objects: Seq<O>,
    ray: &R,
    meet: &F,
    distances: Seq<Option<u64>>,
) -> bool where F: Fn(&O, &R) -> Option<u64> {
    &&& distances.len() == objects.len()
    &&& forall|i: int|
        0 <= i < objects.len() ==> meet.ensures((&objects[i], ray), #[trigger] distances[i])
}

/// Resolves a ray against the objects of a scene: asks `meet` once for
/// every object, in registration order, for the key of the ray's valid hit
/// distance with it, and returns the index and the key of the nearest hit,
/// or `None` where the ray escapes.
pub fn resolve<O, R, F>(objects: &Vec<O>, ray: &R, meet: &F) -> (r: Option<(usize, u64)>) where
    F: Fn(&O, &R) -> Option<u64>,

    requires
        forall|i: int| 0 <= i < objects.len() ==> meet.requires((&#[trigger] objects@[i], ray)),
    ensures
        exists|distances: Seq<Option<u64>>|
            #![trigger are_distances(objects@, ray, meet, distances)]
            are_distances(objects@, ray, meet, distances) && match r {
                Some((k, key)) => is_nearest(distances, k as int) && distances[k as int] == Some(
                    key,
                ),
                None => escapes(distances),
            },
{
    let mut distances: Vec<Option<u64>> = Vec::new();
    let mut i: usize = 0;
    while i < objects.len()
        invariant
            i <= objects.len(),
            forall|j: int| 0 <= j < objects.len() ==> meet.requires((&#[trigger] objects@[j], ray)),
            are_distances(objects@.take(i as int), ray, meet, distances@),
        decreases objects.len() - i,
    {
        let distance = meet(&objects[i], ray);
        distances.push(distance);
        i += 1;
    }
    assert(objects@.take(i as int) == objects@);
    match nearest_hit(distances.as_slice()) {
        Some(k) => match distances[k] {
            Some(key) => Some((k, key)),
            None => unreached(),
        },
        None => None,
    }
}

/// At most one object is the nearest hit.
pub proof fn lemma_nearest_unique(distances: Seq<Option<u64>>, k: int, l: int)
    requires
        is_nearest(distances, k),
        is_nearest(distances, l),
    ensures
        k == l,
{
}

/// A ray has a nearest hit exactly when it does not escape.
pub proof fn lemma_nearest_or_escapes(distances: Seq<Option<u64>>)
    ensures
        escapes(distances) <==> !exists|k: int| is_nearest(distances, k),
    decreases distances.len(),
{
    if distances.len() > 0 {
        let head = distances.drop_last();
        let last = distances.len() - 1;
        lemma_nearest_or_escapes(head);
        assert(forall|i: int| 0 <= i < head.len() ==> head[i] == distances[i]);
        if escapes(distances) {
            assert forall|k: int| !is_nearest(distances, k) by {
                if 0 <= k < distances.len() {
                    assert(distances[k] is None);
                }
            }
        } else if escapes(head) {
            assert(distances[last] is Some);
            assert(is_nearest(distances, last));
        } else {
            let k = choose|k: int| is_nearest(head, k);
            if distances[last] is Some && distances[last]->0 < head[k]->0 {
                assert(is_nearest(distances, last));
            } else {
                assert(is_nearest(distances, k));
            }
        }
    } else {
        assert forall|k: int| !is_nearest(distances, k) by {}
    }
}

} // verus!
