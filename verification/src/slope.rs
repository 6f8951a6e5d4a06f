//! How the scores follow the axes.

use crate::double::{
    lemma_difference_itself, lemma_docked_square_climbs, lemma_offset_climbs, lemma_product_climbs,
    lemma_product_of_nothing,
    lemma_quotient_climbs, lemma_quotient_itself, lemma_share_climbs, lemma_sum_commutes,
    lemma_sum_zero, lemma_thousandth, lemma_weighted_sum_climbs, lemma_zero_product, Double,
    HUNDRED_BITS, ONE_BITS, ZERO_BITS,
};
use crate::fx::Scored;
use crate::graph::{record_start, Graph};
use vstd::prelude::*;

verus! {

/// Whether the weights and references of a tree are sound: no weight is negative,
/// and the references are positive.
pub open spec fn sound_weights(g: Graph) -> bool {
    &&& g.w_dps.finite() && g.w_dps.rank() >= 0
    &&& g.w_ehp.finite() && g.w_ehp.rank() >= 0
    &&& g.ref_dps.finite() && g.ref_dps.rank() > 0
    &&& g.ref_ehp.finite() && g.ref_ehp.rank() > 0
}

/// A tree that was read from an export has sound weights, where the export gives no
/// negative ones.
pub proof fn lemma_export_weights(g: Graph, flat: Seq<i32>)
    requires
        g.read_from(flat),
        ({
            let p = record_start(flat, flat[2] as nat);
            flat.len() >= p + 5 ==> flat[p + 2] >= 0 && flat[p + 3] >= 0
        }),
    ensures
        sound_weights(g),
        g.penalty_k.finite(),
{
    let p = record_start(flat, flat[2] as nat);
    if flat.len() >= p + 5 {
        lemma_thousandth(flat[p]);
        lemma_thousandth(flat[p + 1]);
        lemma_thousandth(flat[p + 2]);
        lemma_thousandth(flat[p + 3]);
        lemma_thousandth(flat[p + 4]);
    }
}

/// The growth score does not fall where an axis rises, so that the beam always has
/// a slope to climb.
pub proof fn lemma_growth_climbs(g: Graph, dps: Double, ehp: Double, dps2: Double, ehp2: Double)
    requires
        sound_weights(g),
        dps.at_most(dps2),
        ehp.at_most(ehp2),
        !g.growth(dps, ehp).nan(),
        !g.growth(dps2, ehp2).nan(),
    ensures
        g.growth(dps, ehp).at_most(g.growth(dps2, ehp2)),
{
    let a = g.w_dps.product(dps).quotient(g.ref_dps);
    let b = g.w_dps.product(dps2).quotient(g.ref_dps);
    let c = g.w_ehp.product(ehp).quotient(g.ref_ehp);
    let d = g.w_ehp.product(ehp2).quotient(g.ref_ehp);
    if !a.nan() && !b.nan() {
        lemma_share_climbs(g.w_dps, g.ref_dps, dps, dps2);
    }
    if !c.nan() && !d.nan() {
        lemma_share_climbs(g.w_ehp, g.ref_ehp, ehp, ehp2);
    }
    lemma_weighted_sum_climbs(Double { bits: HUNDRED_BITS }, a, b, c, d);
}

proof fn lemma_change_climbs(reference: Double, now: Double, then: Double)
    requires
        reference.finite() && reference.rank() > 0,
        now.at_most(then),
    ensures
        Graph::axis_change(now, reference).at_most(Graph::axis_change(then, reference)),
{
    let minus_one = (Double { bits: ONE_BITS }).negated();
    assert(minus_one.finite());
    lemma_quotient_climbs(now, then, reference);
    lemma_offset_climbs(now.quotient(reference), then.quotient(reference), minus_one);
}

proof fn lemma_term_climbs(g: Graph, weight: Double, a: Double, b: Double)
    requires
        g.trailer(),
        g.penalty_k.finite(),
        weight.finite() && weight.rank() >= 0,
        a.at_most(b),
        !g.axis_term(a, weight).nan(),
        !g.axis_term(b, weight).nan(),
    ensures
        g.axis_term(a, weight).at_most(g.axis_term(b, weight)),
{
    let zero = Double { bits: ZERO_BITS };
    let k = g.penalty_k.negated();
    assert(k.finite() && k.rank() < 0);
    if zero.at_most(a) {
        lemma_product_climbs(weight, a, b);
    } else {
        lemma_docked_square_climbs(k, a, b);
        if zero.at_most(b) {
            lemma_zero_product(weight);
            lemma_product_climbs(weight, zero, b);
        }
    }
}

/// With a penalty, the penalized score does not fall where an axis rises.
pub proof fn lemma_penalized_climbs(
    g: Graph,
    growth: Double,
    dps: Double,
    ehp: Double,
    growth2: Double,
    dps2: Double,
    ehp2: Double,
)
    requires
        sound_weights(g),
        g.trailer(),
        g.penalty_k.finite(),
        dps.at_most(dps2),
        ehp.at_most(ehp2),
        !g.penalized(growth, dps, ehp).nan(),
        !g.penalized(growth2, dps2, ehp2).nan(),
    ensures
        g.penalized(growth, dps, ehp).at_most(g.penalized(growth2, dps2, ehp2)),
{
    let a = g.axis_term(Graph::axis_change(dps, g.ref_dps), g.w_dps);
    let b = g.axis_term(Graph::axis_change(dps2, g.ref_dps), g.w_dps);
    let c = g.axis_term(Graph::axis_change(ehp, g.ref_ehp), g.w_ehp);
    let d = g.axis_term(Graph::axis_change(ehp2, g.ref_ehp), g.w_ehp);
    if !a.nan() && !b.nan() {
        lemma_change_climbs(g.ref_dps, dps, dps2);
        lemma_term_climbs(
            g,
            g.w_dps,
            Graph::axis_change(dps, g.ref_dps),
            Graph::axis_change(dps2, g.ref_dps),
        );
    }
    if !c.nan() && !d.nan() {
        lemma_change_climbs(g.ref_ehp, ehp, ehp2);
        lemma_term_climbs(
            g,
            g.w_ehp,
            Graph::axis_change(ehp, g.ref_ehp),
            Graph::axis_change(ehp2, g.ref_ehp),
        );
    }
    lemma_weighted_sum_climbs(Double { bits: HUNDRED_BITS }, a, b, c, d);
}

/// Without a penalty the penalized score is the growth score.
pub proof fn lemma_no_penalty(g: Graph, growth: Double, dps: Double, ehp: Double)
    requires
        g.penalty_k.at_most(Double { bits: ZERO_BITS }),
    ensures
        g.penalized(growth, dps, ehp) == growth,
{
}

/// An axis that is what it was in the original build has gained nothing.
proof fn lemma_no_gain(was: Double)
    requires
        was.finite(),
        !was.zero(),
    ensures
        was.quotient(was).difference(Double { bits: ONE_BITS }) == (Double { bits: ZERO_BITS }),
{
    lemma_quotient_itself(was);
    lemma_difference_itself(Double { bits: ONE_BITS });
}

/// With a penalty, and the hit points at their reference, a gain of damage is worth a
/// hundred times the damage weight times the gain, and a loss of damage costs a
/// hundred times the penalty times the square of the loss. A zero may lose its sign.
pub proof fn lemma_damage_counts_by_its_weight(g: Graph, growth: Double, dps: Double)
    requires
        sound_weights(g),
        g.trailer(),
    ensures
        ({
            let x = dps.quotient(g.ref_dps).difference(Double { bits: ONE_BITS });
            let worth = g.w_dps.product(x);
            let cost = g.penalty_k.negated().product(x).product(x);
            let score = g.penalized(growth, dps, g.ref_ehp);
            let zero = Double { bits: ZERO_BITS };
            let hundred = Double { bits: HUNDRED_BITS };
            &&& zero.at_most(x) && !worth.nan() && !worth.zero() ==> score == hundred.product(worth)
            &&& x.below(zero) && !cost.nan() && !cost.zero() ==> score == hundred.product(cost)
        }),
{
    let zero = Double { bits: ZERO_BITS };
    let x = dps.quotient(g.ref_dps).difference(Double { bits: ONE_BITS });
    lemma_no_gain(g.ref_ehp);
    lemma_zero_product(g.w_ehp);
    let idle = g.w_ehp.product(zero);
    if !g.w_dps.product(x).nan() {
        lemma_sum_zero(g.w_dps.product(x), idle);
    }
    if !g.penalty_k.negated().product(x).product(x).nan() {
        lemma_sum_zero(g.penalty_k.negated().product(x).product(x), idle);
    }
}

/// A tree and its mirror image, in which damage and hit points have changed places.
pub open spec fn mirrored(g: Graph, h: Graph) -> bool {
    &&& h.ref_dps == g.ref_ehp
    &&& h.ref_ehp == g.ref_dps
    &&& h.w_dps == g.w_ehp
    &&& h.w_ehp == g.w_dps
    &&& h.penalty_k == g.penalty_k
}

/// The two axes count alike, each by its own weight and its own reference: where they
/// change places all over, every score stays.
pub proof fn lemma_axes_count_alike(
    g: Graph,
    h: Graph,
    growth: Double,
    dps: Double,
    ehp: Double,
)
    requires
        mirrored(g, h),
    ensures
        g.penalized(growth, dps, ehp) == h.penalized(growth, ehp, dps),
        g.growth(dps, ehp) == h.growth(ehp, dps),
{
    lemma_sum_commutes(
        g.axis_term(Graph::axis_change(dps, g.ref_dps), g.w_dps),
        g.axis_term(Graph::axis_change(ehp, g.ref_ehp), g.w_ehp),
    );
    lemma_sum_commutes(
        g.w_dps.product(dps).quotient(g.ref_dps),
        g.w_ehp.product(ehp).quotient(g.ref_ehp),
    );
}

/// With a penalty, the score is a hundred times the sum of what the two axes are worth:
/// a gain its weight times itself, a loss the penalty times its square, taken off. The
/// growth score does not count.
pub proof fn lemma_score_adds_up(g: Graph, growth: Double, dps: Double, ehp: Double)
    requires
        g.trailer(),
    ensures
        ({
            let zero = Double { bits: ZERO_BITS };
            let hundred = Double { bits: HUNDRED_BITS };
            let minus_k = g.penalty_k.negated();
            let x = dps.quotient(g.ref_dps).difference(Double { bits: ONE_BITS });
            let y = ehp.quotient(g.ref_ehp).difference(Double { bits: ONE_BITS });
            let score = g.penalized(growth, dps, ehp);
            &&& zero.at_most(x) && zero.at_most(y) ==> score == hundred.product(
                g.w_dps.product(x).sum(g.w_ehp.product(y)),
            )
            &&& zero.at_most(x) && y.below(zero) ==> score == hundred.product(
                g.w_dps.product(x).sum(minus_k.product(y).product(y)),
            )
            &&& x.below(zero) && zero.at_most(y) ==> score == hundred.product(
                minus_k.product(x).product(x).sum(g.w_ehp.product(y)),
            )
            &&& x.below(zero) && y.below(zero) ==> score == hundred.product(
                minus_k.product(x).product(x).sum(minus_k.product(y).product(y)),
            )
        }),
{
}

/// Whether two trees agree on the original build.
pub open spec fn same_references(g: Graph, h: Graph) -> bool {
    g.ref_dps == h.ref_dps && g.ref_ehp == h.ref_ehp
}

/// What an axis is worth does not depend on the weight of the other: where the hit
/// points are at their reference, their weight has no say in the score, and where
/// damage is lost, neither has the weight of damage.
pub proof fn lemma_idle_weights(g: Graph, h: Graph, growth: Double, dps: Double, ehp: Double)
    requires
        sound_weights(g),
        sound_weights(h),
        g.trailer(),
        same_references(g, h),
        h.penalty_k == g.penalty_k,
    ensures
        h.w_dps == g.w_dps ==> h.penalized(growth, dps, g.ref_ehp).rank() == g.penalized(
            growth,
            dps,
            g.ref_ehp,
        ).rank(),
        ({
            let zero = Double { bits: ZERO_BITS };
            let x = dps.quotient(g.ref_dps).difference(Double { bits: ONE_BITS });
            let y = ehp.quotient(g.ref_ehp).difference(Double { bits: ONE_BITS });
            let same = h.penalized(growth, dps, ehp) == g.penalized(growth, dps, ehp);
            &&& h.w_ehp == g.w_ehp && x.below(zero) ==> same
            &&& h.w_dps == g.w_dps && y.below(zero) ==> same
        }),
{
    let zero = Double { bits: ZERO_BITS };
    lemma_no_gain(g.ref_ehp);
    lemma_zero_product(g.w_ehp);
    lemma_zero_product(h.w_ehp);
    let hundred = Double { bits: HUNDRED_BITS };
    let a = g.axis_term(dps.quotient(g.ref_dps).difference(Double { bits: ONE_BITS }), g.w_dps);
    let i = g.w_ehp.product(zero);
    let j = h.w_ehp.product(zero);
    if !a.nan() {
        lemma_sum_zero(a, i);
        lemma_sum_zero(a, j);
        if a.zero() {
            lemma_product_of_nothing(hundred, a.sum(i));
            lemma_product_of_nothing(hundred, a.sum(j));
        }
    }
}

/// The penalty spares what is not lost: where no axis falls short, its strength has no
/// say in the score.
pub proof fn lemma_penalty_spares_gains(
    g: Graph,
    h: Graph,
    growth: Double,
    dps: Double,
    ehp: Double,
)
    requires
        g.trailer(),
        h.trailer(),
        same_references(g, h),
        h.w_dps == g.w_dps,
        h.w_ehp == g.w_ehp,
        ({
            let zero = Double { bits: ZERO_BITS };
            let x = dps.quotient(g.ref_dps).difference(Double { bits: ONE_BITS });
            let y = ehp.quotient(g.ref_ehp).difference(Double { bits: ONE_BITS });
            zero.at_most(x) && zero.at_most(y)
        }),
    ensures
        h.penalized(growth, dps, ehp) == g.penalized(growth, dps, ehp),
{
}

/// The original build itself scores nothing, neither gain nor loss.
pub proof fn lemma_original_scores_nothing(g: Graph, growth: Double)
    requires
        sound_weights(g),
        g.trailer(),
    ensures
        g.penalized(growth, g.ref_dps, g.ref_ehp).zero(),
{
    let zero = Double { bits: ZERO_BITS };
    lemma_no_gain(g.ref_dps);
    lemma_no_gain(g.ref_ehp);
    lemma_zero_product(g.w_dps);
    lemma_zero_product(g.w_ehp);
    lemma_sum_zero(g.w_dps.product(zero), g.w_ehp.product(zero));
    lemma_product_of_nothing(
        Double { bits: HUNDRED_BITS },
        g.w_dps.product(zero).sum(g.w_ehp.product(zero)),
    );
}

/// The growth score is a hundred times the sum of the weighted axes, each as a share of
/// its reference.
pub proof fn lemma_growth_adds_up(g: Graph, dps: Double, ehp: Double)
    ensures
        g.growth(dps, ehp) == (Double { bits: HUNDRED_BITS }).product(
            g.w_dps.product(dps).quotient(g.ref_dps).sum(
                g.w_ehp.product(ehp).quotient(g.ref_ehp),
            ),
        ),
{
}

/// A scored set keeps its axes. Its growth score is the one of the tree where the tree
/// has a penalty and the axes are numbers, and the scorer's own otherwise.
pub proof fn lemma_axes_are_kept(g: Graph, s: Scored)
    ensures
        g.settled(s).dps == s.dps,
        g.settled(s).ehp == s.ehp,
        (Double { bits: ZERO_BITS }).below(g.penalty_k) && s.dps.finite() && s.ehp.finite()
            ==> g.settled(s).score == g.growth(s.dps, s.ehp),
        !((Double { bits: ZERO_BITS }).below(g.penalty_k) && s.dps.finite() && s.ehp.finite())
            ==> g.settled(s) == s,
{
}

} // verus!
