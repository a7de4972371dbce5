//! A cluster of near anchors that are about equally fast, and how far a place is
//! from it.

use crate::calc::{Arith, Calc, Rules};
use crate::double::{nothing, zero, Double};
use crate::fit::{by_time, rank_constraints, time_weight, weight_by_time};
use crate::geometry::{
    anchor_distance_km, anchor_place, center_of, distance, distance_km, distance_to, place_of,
    weighted_center, Place,
};
use crate::priors::{dominance, dominance_ratio, first, keep_within, within};
use crate::solver::Constraint;
use vstd::prelude::*;

verus! {

/// A cluster of anchors.
#[derive(Debug, Clone)]
pub struct RegionalCluster {
    pub fastest: Constraint,
    pub members: Vec<Constraint>,
    pub center: Place,
    pub span_km: Double,
    pub strength: Double,
}

/// What a `RegionalCluster` stands for.
#[verifier::ext_equal]
pub struct ClusterView {
    pub fastest: Constraint,
    pub members: Seq<Constraint>,
    pub center: Place,
    pub span_km: Double,
    pub strength: Double,
}

impl View for RegionalCluster {
    type V = ClusterView;

    open spec fn view(&self) -> ClusterView {
        ClusterView {
            fastest: self.fastest,
            members: self.members@,
            center: self.center,
            span_km: self.span_km,
            strength: self.strength,
        }
    }
}

/// The greatest distance so far, with those between one anchor and others.
pub open spec fn span_of_row(
    rules: Rules,
    span_km: Double,
    left: Constraint,
    others: Seq<Constraint>,
) -> Double
    decreases others.len(),
{
    if others.len() == 0 {
        span_km
    } else {
        span_of_row(rules, span_km, left, others.drop_last()).greater(
            distance_to(rules, place_of(rules, left.anchor@), others.last().anchor@),
        )
    }
}

/// The greatest distance of all pairs whose first anchor is among the first.
pub open spec fn span_of_rows(rules: Rules, members: Seq<Constraint>, rows: nat) -> Double
    decreases rows,
{
    if rows == 0 {
        zero()
    } else {
        span_of_row(
            rules,
            span_of_rows(rules, members, (rows - 1) as nat),
            members[rows - 1],
            members.skip(rows as int),
        )
    }
}

fn row_span<A: Fn(Calc) -> Double>(
    start: Double,
    members: &Vec<Constraint>,
    at: usize,
    arith: &Arith<A>,
) -> (span_km: Double)
    requires
        arith.complete(),
        at < members@.len(),
    ensures
        forall|rules: Rules| #[trigger]
            arith.follows(rules) ==> span_km == span_of_row(
                rules,
                start,
                members@[at as int],
                members@.skip(at + 1),
            ),
{
    let ghost others = members@.skip(at + 1);
    let n: usize = members.len();
    let here = anchor_place(&members[at].anchor, arith);
    let mut span_km = start;
    let mut i: usize = at + 1;
    assert(others.take(0) =~= Seq::<Constraint>::empty());
    while i < n
        invariant
            arith.complete(),
            n == members@.len(),
            at < i <= n,
            others == members@.skip(at + 1),
            forall|rules: Rules| #[trigger]
                arith.follows(rules) ==> {
                    &&& here == place_of(rules, members@[at as int].anchor@)
                    &&& span_km == span_of_row(
                        rules,
                        start,
                        members@[at as int],
                        others.take(i - at - 1),
                    )
                },
        decreases n - i,
    {
        assert(others.take(i - at).drop_last() =~= others.take(i - at - 1));
        assert(others.take(i - at).last() == members@[i as int]);
        span_km = span_km.max(anchor_distance_km(here, &members[i].anchor, arith));
        i = i + 1;
    }
    assert(others.take(n - at - 1) =~= others);
    span_km
}

/// The greatest distance between two of the anchors.
pub fn cluster_span_km<A: Fn(Calc) -> Double>(
    members: &Vec<Constraint>,
    arith: &Arith<A>,
) -> (span_km: Double)
    requires
        arith.complete(),
    ensures
        forall|rules: Rules| #[trigger]
            arith.follows(rules) ==> span_km == span_of_rows(rules, members@, members@.len()),
{
    let mut span_km = nothing();
    let mut i: usize = 0;
    while i < members.len()
        invariant
            arith.complete(),
            i <= members@.len(),
            forall|rules: Rules| #[trigger]
                arith.follows(rules) ==> span_km == span_of_rows(rules, members@, i as nat),
        decreases members@.len() - i,
    {
        span_km = row_span(span_km, members, i, arith);
        i = i + 1;
    }
    span_km
}

/// The sum of the qualities.
pub open spec fn quality_sum(rules: Rules, members: Seq<Constraint>) -> Double
    decreases members.len(),
{
    if members.len() == 0 {
        zero()
    } else {
        rules.add(quality_sum(rules, members.drop_last()), members.last().quality_weight)
    }
}

fn sum_quality<A: Fn(Calc) -> Double>(members: &Vec<Constraint>, arith: &Arith<A>) -> (sum: Double)
    requires
        arith.complete(),
    ensures
        forall|rules: Rules| #[trigger]
            arith.follows(rules) ==> sum == quality_sum(rules, members@),
{
    let mut sum = nothing();
    let mut i: usize = 0;
    assert(members@.take(0) =~= Seq::<Constraint>::empty());
    while i < members.len()
        invariant
            arith.complete(),
            i <= members@.len(),
            forall|rules: Rules| #[trigger]
                arith.follows(rules) ==> sum == quality_sum(rules, members@.take(i as int)),
        decreases members@.len() - i,
    {
        assert(members@.take(i + 1).drop_last() =~= members@.take(i as int));
        assert(members@.take(i + 1).last() == members@[i as int]);
        sum = arith.add(sum, members[i].quality_weight);
        i = i + 1;
    }
    assert(members@.take(members@.len() as int) =~= members@);
    sum
}

/// The places of constraints, weighted by quality and time.
pub open spec fn weighted_places(rules: Rules, members: Seq<Constraint>) -> Seq<(Place, Double)> {
    Seq::new(
        members.len(),
        |i: int| (place_of(rules, members[i].anchor@), time_weight(rules, members[i])),
    )
}

/// The centre of the anchors of constraints, weighted by quality and time.
pub fn weighted_anchor_centroid<A: Fn(Calc) -> Double>(
    members: &Vec<Constraint>,
    arith: &Arith<A>,
) -> (center: Place)
    requires
        arith.complete(),
    ensures
        forall|rules: Rules| #[trigger]
            arith.follows(rules) ==> center == center_of(rules, weighted_places(rules, members@)),
{
    let mut items: Vec<(Place, Double)> = Vec::new();
    let mut i: usize = 0;
    while i < members.len()
        invariant
            arith.complete(),
            i <= members@.len(),
            items@.len() == i,
            forall|rules: Rules, j: int|
                #![trigger arith.follows(rules), items@[j]]
                arith.follows(rules) && 0 <= j < i ==> items@[j] == weighted_places(
                    rules,
                    members@,
                )[j],
        decreases members@.len() - i,
    {
        let place = anchor_place(&members[i].anchor, arith);
        let weight = weight_by_time(&members[i], arith);
        items.push((place, weight));
        i = i + 1;
    }
    assert forall|rules: Rules| #[trigger] arith.follows(rules) implies items@ == weighted_places(
        rules,
        members@,
    ) by {
        assert(items@ =~= weighted_places(rules, members@));
    }
    weighted_center(&items, arith)
}

/// How strongly a cluster pulls: the more, the more members it has, the less its
/// fastest one stands out, and the better they were measured.
pub open spec fn cluster_strength(
    rules: Rules,
    ratio: Double,
    members: Seq<Constraint>,
) -> Double {
    let size = rules.count(members.len() as int);
    let mean_quality = rules.div(quality_sum(rules, members), size);
    rules.mul(
        rules.mul(
            rules.sub(size, rules.count(2)),
            rules.sub(rules.ratio(145, 100), ratio).greater(rules.ratio(2, 10)),
        ),
        mean_quality,
    ).lesser(rules.ratio(25, 10))
}

/// The anchors that may form a cluster: the five fastest, without those that are
/// much slower than the first.
pub open spec fn cluster_members(rules: Rules, ranked: Seq<Constraint>) -> Seq<Constraint> {
    within(first(ranked, 5), rules.add(ranked[0].min_rtt_ms, rules.count(25)))
}

/// Tells whether the fastest anchor is local and much faster than the next one.
pub open spec fn stands_out(rules: Rules, ranked: Seq<Constraint>) -> bool {
    ranked[0].min_rtt_ms.at_most(rules.count(12)) && rules.ratio(16, 10).at_most(
        dominance(rules, ranked),
    )
}

/// The cluster of the fastest anchors, if they form one.
pub open spec fn cluster_of(rules: Rules, ranked: Seq<Constraint>) -> Option<ClusterView> {
    let members = cluster_members(rules, ranked);
    let span_km = span_of_rows(rules, members, members.len());
    let strength = cluster_strength(rules, dominance(rules, ranked), members);
    if ranked.len() < 3 || stands_out(rules, ranked) || members.len() < 3 || rules.count(
        2200,
    ).below(span_km) || strength.at_most(zero()) {
        None
    } else {
        Some(
            ClusterView {
                fastest: ranked[0],
                members,
                center: center_of(rules, weighted_places(rules, members)),
                span_km,
                strength,
            },
        )
    }
}

/// What a cluster stands for, if there is one.
pub open spec fn maybe_cluster(cluster: Option<RegionalCluster>) -> Option<ClusterView> {
    match cluster {
        Some(found) => Some(found@),
        None => None,
    }
}

/// The cluster of the fastest anchors, if they form one, in whatever order the
/// constraints are given.
pub fn regional_cluster<A: Fn(Calc) -> Double>(
    constraints: &Vec<Constraint>,
    arith: &Arith<A>,
) -> (cluster: Option<RegionalCluster>)
    requires
        arith.complete(),
    ensures
        cluster is Some ==> cluster->0.members@.len() >= 3,
        forall|rules: Rules| #[trigger]
            arith.follows(rules) ==> maybe_cluster(cluster) == cluster_of(
                rules,
                by_time(constraints@),
            ),
{
    let ranked = rank_constraints(constraints);
    if ranked.len() < 3 {
        return None;
    }
    let fastest = ranked[0];
    let ratio = dominance_ratio(&ranked, arith);
    if fastest.min_rtt_ms.is_at_most(&arith.count(12)) && arith.ratio(16, 10).is_at_most(&ratio) {
        return None;
    }
    let cutoff_ms = arith.add(fastest.min_rtt_ms, arith.count(25));
    let end: usize = if ranked.len() > 5 {
        5
    } else {
        ranked.len()
    };
    assert(ranked@.take(end as int) =~= first(ranked@, 5));
    let members = keep_within(&ranked, end, cutoff_ms);
    if members.len() < 3 {
        return None;
    }
    let span_km = cluster_span_km(&members, arith);
    if arith.count(2200).is_below(&span_km) {
        return None;
    }
    let size = arith.count(members.len() as u64);
    let mean_quality = arith.div(sum_quality(&members, arith), size);
    let strength = arith.mul(
        arith.mul(
            arith.sub(size, arith.count(2)),
            arith.sub(arith.ratio(145, 100), ratio).max(arith.ratio(2, 10)),
        ),
        mean_quality,
    ).min(arith.ratio(25, 10));
    if strength.is_at_most(&nothing()) {
        return None;
    }
    let center = weighted_anchor_centroid(&members, arith);
    Some(RegionalCluster { fastest, members, center, span_km, strength })
}

/// How much farther from a place a member of the cluster is than its time allows.
pub open spec fn member_term(
    rules: Rules,
    place: Place,
    fastest: Constraint,
    strength: Double,
    constraint: Constraint,
) -> Double {
    let observed_ms = rules.sub(constraint.min_rtt_ms, fastest.min_rtt_ms);
    if observed_ms.at_most(rules.ratio(5, 10)) {
        zero()
    } else {
        let distance_km = distance_to(rules, place, constraint.anchor@);
        let predicted_km = rules.sub(
            distance_km,
            distance_to(rules, place, fastest.anchor@),
        ).greater(zero());
        let allowed_km = rules.add(
            rules.add(rules.mul(observed_ms, rules.count(70)), rules.count(140)),
            rules.mul(
                rules.count(80),
                rules.add(fastest.jitter_ms, constraint.jitter_ms).lesser(rules.count(12)),
            ),
        );
        let overflow_km = rules.sub(predicted_km, allowed_km).greater(zero());
        let weight = rules.mul(
            rules.div(observed_ms, rules.count(6)).clamped(
                rules.ratio(5, 10),
                rules.ratio(15, 10),
            ),
            fastest.quality_weight.lesser(constraint.quality_weight),
        );
        rules.mul(
            rules.mul(rules.mul(rules.count(14), strength), weight),
            rules.square(rules.div(overflow_km, allowed_km.greater(rules.count(150)))),
        )
    }
}

fn member_cost<A: Fn(Calc) -> Double>(
    place: Place,
    fastest: &Constraint,
    fastest_km: Double,
    strength: Double,
    constraint: &Constraint,
    arith: &Arith<A>,
) -> (term: Double)
    requires
        arith.complete(),
        forall|rules: Rules| #[trigger]
            arith.follows(rules) ==> fastest_km == distance_to(rules, place, fastest.anchor@),
    ensures
        forall|rules: Rules| #[trigger]
            arith.follows(rules) ==> term == member_term(
                rules,
                place,
                *fastest,
                strength,
                *constraint,
            ),
{
    let observed_ms = arith.sub(constraint.min_rtt_ms, fastest.min_rtt_ms);
    if observed_ms.is_at_most(&arith.ratio(5, 10)) {
        return nothing();
    }
    let distance_km = anchor_distance_km(place, &constraint.anchor, arith);
    let predicted_km = arith.sub(distance_km, fastest_km).max(nothing());
    let allowed_km = arith.add(
        arith.add(arith.mul(observed_ms, arith.count(70)), arith.count(140)),
        arith.mul(
            arith.count(80),
            arith.add(fastest.jitter_ms, constraint.jitter_ms).min(arith.count(12)),
        ),
    );
    let overflow_km = arith.sub(predicted_km, allowed_km).max(nothing());
    let weight = arith.mul(
        arith.div(observed_ms, arith.count(6)).clamp(arith.ratio(5, 10), arith.ratio(15, 10)),
        fastest.quality_weight.min(constraint.quality_weight),
    );
    arith.mul(
        arith.mul(arith.mul(arith.count(14), strength), weight),
        arith.square(arith.div(overflow_km, allowed_km.max(arith.count(150)))),
    )
}

/// How much farther from a place the members of the cluster are than their times
/// allow.
pub open spec fn member_sum(
    rules: Rules,
    place: Place,
    fastest: Constraint,
    strength: Double,
    members: Seq<Constraint>,
) -> Double
    decreases members.len(),
{
    if members.len() == 0 {
        zero()
    } else {
        rules.add(
            member_sum(rules, place, fastest, strength, members.drop_last()),
            member_term(rules, place, fastest, strength, members.last()),
        )
    }
}

/// How far a place is from the cluster.
pub open spec fn cluster_score(rules: Rules, place: Place, ranked: Seq<Constraint>) -> Double {
    match cluster_of(rules, ranked) {
        None => zero(),
        Some(cluster) => {
            let soft_radius_km = rules.mul(cluster.span_km, rules.ratio(40, 100)).clamped(
                rules.count(140),
                rules.count(650),
            );
            rules.add(
                rules.mul(
                    rules.mul(rules.count(28), cluster.strength),
                    rules.square(
                        rules.div(
                            distance(rules, place, cluster.center),
                            soft_radius_km.greater(rules.count(120)),
                        ),
                    ),
                ),
                member_sum(
                    rules,
                    place,
                    cluster.fastest,
                    cluster.strength,
                    cluster.members.skip(1),
                ),
            )
        },
    }
}

fn sum_members<A: Fn(Calc) -> Double>(
    place: Place,
    fastest: &Constraint,
    strength: Double,
    members: &Vec<Constraint>,
    arith: &Arith<A>,
) -> (sum: Double)
    requires
        arith.complete(),
        members@.len() > 0,
    ensures
        forall|rules: Rules| #[trigger]
            arith.follows(rules) ==> sum == member_sum(
                rules,
                place,
                *fastest,
                strength,
                members@.skip(1),
            ),
{
    let ghost others = members@.skip(1);
    let fastest_km = anchor_distance_km(place, &fastest.anchor, arith);
    let mut sum = nothing();
    let mut i: usize = 1;
    assert(others.take(0) =~= Seq::<Constraint>::empty());
    while i < members.len()
        invariant
            arith.complete(),
            others == members@.skip(1),
            1 <= i <= members@.len(),
            forall|rules: Rules| #[trigger]
                arith.follows(rules) ==> {
                    &&& fastest_km == distance_to(rules, place, fastest.anchor@)
                    &&& sum == member_sum(rules, place, *fastest, strength, others.take(i - 1))
                },
        decreases members@.len() - i,
    {
        assert(others.take(i as int).drop_last() =~= others.take(i - 1));
        assert(others.take(i as int).last() == members@[i as int]);
        let term = member_cost(place, fastest, fastest_km, strength, &members[i], arith);
        sum = arith.add(sum, term);
        i = i + 1;
    }
    assert(others.take(members@.len() - 1) =~= others);
    sum
}

/// How far a place is from the cluster, in whatever order the constraints are given.
pub fn regional_cluster_score<A: Fn(Calc) -> Double>(
    place: Place,
    constraints: &Vec<Constraint>,
    arith: &Arith<A>,
) -> (score: Double)
    requires
        arith.complete(),
    ensures
        forall|rules: Rules| #[trigger]
            arith.follows(rules) ==> score == cluster_score(
                rules,
                place,
                by_time(constraints@),
            ),
{
    match regional_cluster(constraints, arith) {
        None => nothing(),
        Some(cluster) => {
            let distance_to_center_km = distance_km(place, cluster.center, arith);
            let soft_radius_km = arith.mul(cluster.span_km, arith.ratio(40, 100)).clamp(
                arith.count(140),
                arith.count(650),
            );
            let center_penalty = arith.mul(
                arith.mul(arith.count(28), cluster.strength),
                arith.square(
                    arith.div(distance_to_center_km, soft_radius_km.max(arith.count(120))),
                ),
            );
            let ordering_penalty = sum_members(
                place,
                &cluster.fastest,
                cluster.strength,
                &cluster.members,
                arith,
            );
            arith.add(center_penalty, ordering_penalty)
        },
    }
}

} // verus!
