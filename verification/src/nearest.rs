//! Which cluster a marker joins, given how far it is from each.

use vstd::prelude::*;
use crate::cluster::{Cluster, ClusterView};
use crate::double::Double;
use crate::marker::{Marker, UniqueMarker};

verus! {

/// The bits of 40000: more kilometers than lie between any two points of the
/// globe. A cluster is a candidate only from below this distance.
pub const DISTANCE_LIMIT: u64 = 0x40E3_8800_0000_0000;

/// Whether a cluster at this distance can be the nearest one.
pub open spec fn in_reach(km: Double) -> bool {
    km.lt_spec(&Double { bits: DISTANCE_LIMIT })
}

/// Whether `i` is the first place in `distances` that holds the least
/// distance in reach: every candidate before it is farther, no candidate
/// after it is nearer.
pub open spec fn is_nearest(distances: Seq<Double>, i: int) -> bool {
    &&& 0 <= i < distances.len()
    &&& in_reach(distances[i])
    &&& forall|j: int|
        0 <= j < distances.len() && in_reach(#[trigger] distances[j]) ==> if j < i {
            distances[i].lt_spec(&distances[j])
        } else {
            !distances[j].lt_spec(&distances[i])
        }
}

/// The place of the nearest distance in reach, if any distance is in reach.
pub open spec fn nearest(distances: Seq<Double>) -> Option<int> {
    if exists|i: int| is_nearest(distances, i) {
        Some(choose|i: int| is_nearest(distances, i))
    } else {
        None
    }
}

/// The cluster that takes the point in: the nearest one, provided that the
/// point lies inside its footprint. A nearest cluster whose footprint leaves
/// the point out keeps every other cluster from taking it.
pub open spec fn choice(clusters: Seq<ClusterView>, point: Marker, distances: Seq<Double>) -> Option<
    int,
> {
    match nearest(distances) {
        Some(i) => if 0 <= i < clusters.len() && clusters[i].bounds.holds(point) {
            Some(i)
        } else {
            None
        },
        None => None,
    }
}

/// At most one place is the nearest.
pub proof fn lemma_nearest_unique(distances: Seq<Double>, i: int, j: int)
    requires
        is_nearest(distances, i),
        is_nearest(distances, j),
    ensures
        i == j,
{
}

/// Where a place is the nearest, `nearest` names it.
pub proof fn lemma_nearest_is(distances: Seq<Double>, i: int)
    requires
        is_nearest(distances, i),
    ensures
        nearest(distances) == Some(i),
{
    let k: int = choose|k: int| is_nearest(distances, k);
    lemma_nearest_unique(distances, i, k);
}

/// Where nothing is in reach, `nearest` names nothing.
pub proof fn lemma_nearest_none(distances: Seq<Double>)
    requires
        forall|j: int| 0 <= j < distances.len() ==> !in_reach(#[trigger] distances[j]),
    ensures
        nearest(distances) is None,
{
}

/// Finds the first least distance in reach.
pub fn nearest_cluster(distances: &Vec<Double>) -> (found: Option<usize>)
    ensures
        match found {
            Some(i) => nearest(distances@) == Some(i as int),
            None => nearest(distances@) is None,
        },
{
    let mut least: Double = Double::from_bits(DISTANCE_LIMIT);
    let mut found: Option<usize> = None;
    let mut k: usize = 0;
    while k < distances.len()
        invariant
            k <= distances@.len(),
            match found {
                Some(i) => i < k && least == distances@[i as int] && is_nearest(
                    distances@.take(k as int),
                    i as int,
                ),
                None => least.bits == DISTANCE_LIMIT && forall|j: int|
                    0 <= j < k ==> !in_reach(#[trigger] distances@[j]),
            },
        decreases distances@.len() - k,
    {
        let current: Double = distances[k];
        let ghost before: Seq<Double> = distances@.take(k as int);
        let ghost after: Seq<Double> = distances@.take(k + 1);
        proof {
            assert(forall|j: int| 0 <= j < k ==> after[j] == before[j]);
            assert(after[k as int] == current);
        }
        if current.lt(&least) {
            proof {
                assert forall|j: int|
                    0 <= j < after.len() && in_reach(#[trigger] after[j]) implies if j < k {
                    current.lt_spec(&after[j])
                } else {
                    !after[j].lt_spec(&current)
                } by {
                    if j < k {
                        assert(in_reach(before[j]));
                    }
                }
                assert(is_nearest(after, k as int));
            }
            least = current;
            found = Some(k);
        } else {
            proof {
                match found {
                    Some(i) => {
                        assert forall|j: int|
                            0 <= j < after.len() && in_reach(#[trigger] after[j]) implies if j
                            < i {
                            after[i as int].lt_spec(&after[j])
                        } else {
                            !after[j].lt_spec(&after[i as int])
                        } by {
                            if j < k {
                                assert(in_reach(before[j]));
                            }
                        }
                        assert(is_nearest(after, i as int));
                    },
                    None => {},
                }
            }
        }
        k += 1;
    }
    proof {
        assert(distances@.take(k as int) =~= distances@);
        match found {
            Some(i) => {
                lemma_nearest_is(distances@, i as int);
            },
            None => {
                lemma_nearest_none(distances@);
            },
        }
    }
    found
}

/// Picks the cluster that takes a marker in, from the distances between the
/// marker and the center of each cluster, in the order of the clusters.
pub fn closest_cluster(clusters: &Vec<Cluster>, new_point: &UniqueMarker, distances: &Vec<Double>) -> (picked:
    Option<usize>)
    requires
        distances@.len() == clusters@.len(),
    ensures
        match picked {
            Some(i) => choice(clusters.deep_view(), new_point.position(), distances@) == Some(
                i as int,
            ),
            None => choice(clusters.deep_view(), new_point.position(), distances@) is None,
        },
{
    match nearest_cluster(distances) {
        Some(i) => {
            proof {
                lemma_nearest_unique(
                    distances@,
                    i as int,
                    choose|k: int| is_nearest(distances@, k),
                );
                assert(clusters.deep_view()[i as int] == clusters@[i as int]@);
            }
            if clusters[i].bounds.contains(new_point) {
                Some(i)
            } else {
                None
            }
        },
        None => None,
    }
}

} // verus!
