//! The passive tree as a worker exports it, and the scores that depend on the
//! constants of that export.

use crate::double::{Double, HUNDRED_BITS, ONE_BITS, THOUSAND_BITS, ZERO_BITS};
use crate::fx::Scored;
use std::collections::HashMap;
use vstd::prelude::*;

verus! {

broadcast use vstd::std_specs::hash::group_hash_axioms;

pub const T_NORMAL: i32 = 1;

pub const T_NOTABLE: i32 = 2;

pub const T_KEYSTONE: i32 = 3;

/// The tree: adjacency, node types, the class start and the build's point budget.
///
/// The constants behind the node data are the original build's damage and
/// effective hit points (the floor to protect), the score weights and the
/// strength of the regression penalty.
pub struct Graph {
    pub start: i32,
    pub budget: usize,
    pub links: HashMap<i32, Vec<i32>>,
    pub ty: HashMap<i32, i32>,
    pub ref_dps: Double,
    pub ref_ehp: Double,
    pub w_dps: Double,
    pub w_ehp: Double,
    pub penalty_k: Double,
}

/// Where the record of node number `i` starts in an export. A record is an id, a
/// type code, a link count and that many links.
pub open spec fn record_start(flat: Seq<i32>, i: nat) -> int
    decreases i,
{
    if i == 0 {
        3
    } else {
        let p = record_start(flat, (i - 1) as nat);
        p + 3 + flat[p + 2]
    }
}

/// Whether record number `i` lies within the export.
pub open spec fn record_fits(flat: Seq<i32>, i: nat) -> bool {
    let p = record_start(flat, i);
    p + 3 <= flat.len() && flat[p + 2] >= 0 && p + 3 + flat[p + 2] <= flat.len()
}

/// Whether an export holds all that its counts announce.
pub open spec fn complete_export(flat: Seq<i32>) -> bool {
    &&& flat.len() >= 3
    &&& flat[2] >= 0
    &&& forall|i: nat| i < flat[2] ==> #[trigger] record_fits(flat, i)
}

/// The links of record number `i`.
pub open spec fn record_links(flat: Seq<i32>, i: nat) -> Seq<i32> {
    let p = record_start(flat, i);
    flat.subrange(p + 3, p + 3 + flat[p + 2])
}

/// The adjacency that the first `n` records give; a later record of an id
/// replaces an earlier one.
pub open spec fn links_of(flat: Seq<i32>, n: nat) -> Map<i32, Seq<i32>>
    decreases n,
{
    if n == 0 {
        Map::empty()
    } else {
        let i = (n - 1) as nat;
        links_of(flat, i).insert(flat[record_start(flat, i)], record_links(flat, i))
    }
}

/// The node types that the first `n` records give.
pub open spec fn types_of(flat: Seq<i32>, n: nat) -> Map<i32, i32>
    decreases n,
{
    if n == 0 {
        Map::empty()
    } else {
        let i = (n - 1) as nat;
        types_of(flat, i).insert(
            flat[record_start(flat, i)],
            flat[record_start(flat, i) + 1],
        )
    }
}

/// A count of thousandths as a number.
pub open spec fn thousandths(n: i32) -> Double {
    Double::of_int(n as int).quotient(Double { bits: THOUSAND_BITS })
}

/// A count of thousandths as a number that is at least 1.
pub open spec fn thousandths_from_one(n: i32) -> Double {
    if thousandths(n).below(Double { bits: ONE_BITS }) {
        Double { bits: ONE_BITS }
    } else {
        thousandths(n)
    }
}

impl Graph {
    /// The links of each node.
    pub open spec fn adjacency(&self) -> Map<i32, Seq<i32>> {
        self.links@.map_values(|v: Vec<i32>| v@)
    }

    /// Whether this is the tree that an export describes: the last record of an id
    /// counts, a negative budget is none, and without a trailer the references and
    /// the weights are 1 and the penalty is 0.
    pub open spec fn read_from(&self, flat: Seq<i32>) -> bool {
        let p = record_start(flat, flat[2] as nat);
        &&& self.start == flat[0]
        &&& self.budget == (if flat[1] > 0 {
            flat[1] as int
        } else {
            0
        })
        &&& self.adjacency() == links_of(flat, flat[2] as nat)
        &&& self.ty@ == types_of(flat, flat[2] as nat)
        &&& if flat.len() >= p + 5 {
            &&& self.ref_dps == thousandths_from_one(flat[p])
            &&& self.ref_ehp == thousandths_from_one(flat[p + 1])
            &&& self.w_dps == thousandths(flat[p + 2])
            &&& self.w_ehp == thousandths(flat[p + 3])
            &&& self.penalty_k == thousandths(flat[p + 4])
        } else {
            &&& self.ref_dps == (Double { bits: ONE_BITS })
            &&& self.ref_ehp == (Double { bits: ONE_BITS })
            &&& self.w_dps == (Double { bits: ONE_BITS })
            &&& self.w_ehp == (Double { bits: ONE_BITS })
            &&& self.penalty_k == (Double { bits: ZERO_BITS })
        }
    }

    /// Whether `u` lists `v` as a neighbour, and `v` is a node of the tree.
    pub open spec fn edge(&self, u: i32, v: i32) -> bool {
        self.links@.contains_key(u) && self.links@[u]@.contains(v) && self.ty@.contains_key(v)
    }

    /// The links of one node, none where it has no record.
    pub open spec fn links_from(&self, id: i32) -> Seq<i32> {
        if self.links@.contains_key(id) {
            self.links@[id]@
        } else {
            Seq::empty()
        }
    }

    /// Whether a node can be walked to for its own sake.
    pub open spec fn target(&self, id: i32) -> bool {
        self.ty@.contains_key(id) && (self.ty@[id] == T_NORMAL || self.ty@[id] == T_NOTABLE
            || self.ty@[id] == T_KEYSTONE)
    }

    /// Whether a node is a notable or a keystone.
    pub open spec fn notable(&self, id: i32) -> bool {
        self.ty@.contains_key(id) && (self.ty@[id] == T_NOTABLE || self.ty@[id] == T_KEYSTONE)
    }

    pub open spec fn keystone(&self, id: i32) -> bool {
        self.ty@.contains_key(id) && self.ty@[id] == T_KEYSTONE
    }

    /// The search numbers the nodes with 32 bits and starts from the class start.
    pub open spec fn searchable(&self) -> bool {
        self.ty@.contains_key(self.start) && self.ty@.dom().len() <= u32::MAX
    }

    /// What a change of one axis, relative to the original build, is worth: a
    /// gain counts by its weight, a loss by the penalty times its square.
    pub open spec fn axis_term(&self, change: Double, weight: Double) -> Double {
        if (Double { bits: ZERO_BITS }).at_most(change) {
            weight.product(change)
        } else {
            self.penalty_k.negated().product(change).product(change)
        }
    }

    /// The change of one axis relative to the original build.
    pub open spec fn axis_change(now: Double, reference: Double) -> Double {
        now.quotient(reference).difference(Double { bits: ONE_BITS })
    }

    pub open spec fn penalized(&self, growth: Double, dps: Double, ehp: Double) -> Double {
        if self.penalty_k.at_most(Double { bits: ZERO_BITS }) {
            growth
        } else {
            (Double { bits: HUNDRED_BITS }).product(
                self.axis_term(Graph::axis_change(dps, self.ref_dps), self.w_dps).sum(
                    self.axis_term(Graph::axis_change(ehp, self.ref_ehp), self.w_ehp),
                ),
            )
        }
    }

    pub open spec fn growth(&self, dps: Double, ehp: Double) -> Double {
        (Double { bits: HUNDRED_BITS }).product(
            self.w_dps.product(dps).quotient(self.ref_dps).sum(
                self.w_ehp.product(ehp).quotient(self.ref_ehp),
            ),
        )
    }

    pub open spec fn trailer(&self) -> bool {
        (Double { bits: ZERO_BITS }).below(self.penalty_k)
    }

    /// The penalized score of a scored set.
    pub open spec fn judged(&self, s: Scored) -> Double {
        self.penalized(s.score, s.dps, s.ehp)
    }

    /// What is known of a node set, with the growth score that follows from its
    /// axes under the weights of this tree. Without a trailer, or where an axis is
    /// not finite, it stands as it was scored.
    pub open spec fn settled(&self, s: Scored) -> Scored {
        if self.trailer() && s.dps.finite() && s.ehp.finite() {
            Scored { score: self.growth(s.dps, s.ehp), dps: s.dps, ehp: s.ehp }
        } else {
            s
        }
    }
}

/// The number that a count of thousandths stands for.
fn from_thousandths(n: i32) -> (d: Double)
    ensures
        d == thousandths(n),
{
    Double::from_int(n as i64).over(Double::from_bits(THOUSAND_BITS))
}

/// The number that a count of thousandths stands for, raised to 1 where it is less.
fn from_thousandths_floored(n: i32) -> (d: Double)
    ensures
        d == thousandths_from_one(n),
{
    let d = from_thousandths(n);
    let one = Double::from_bits(ONE_BITS);
    if d.lt(one) {
        one
    } else {
        d
    }
}

impl Graph {
    /// Whether `flat` holds all that its counts announce, so that `parse` can
    /// read it.
    pub fn is_export(flat: &[i32]) -> (b: bool)
        ensures
            b == complete_export(flat@),
    {
        if flat.len() < 3 {
            return false;
        }
        if flat[2] < 0 {
            return false;
        }
        let n: i32 = flat[2];
        let mut p: usize = 3;
        let mut i: i32 = 0;
        while i < n
            invariant
                0 <= i <= n,
                n == flat@[2],
                flat@.len() >= 3,
                p == record_start(flat@, i as nat),
                3 <= p <= flat@.len(),
                forall|j: nat| j < i ==> #[trigger] record_fits(flat@, j),
            decreases n - i,
        {
            if flat.len() - p < 3 {
                assert(!record_fits(flat@, i as nat));
                return false;
            }
            let k: i32 = flat[p + 2];
            if k < 0 {
                assert(!record_fits(flat@, i as nat));
                return false;
            }
            if flat.len() - p - 3 < k as usize {
                assert(!record_fits(flat@, i as nat));
                return false;
            }
            assert(record_fits(flat@, i as nat));
            p = p + 3 + k as usize;
            i = i + 1;
        }
        true
    }

    /// Reads the flat export
    /// `[ start, budget, n, (id, type, k, link * k) * n, trailer ]`. The trailer is
    /// five counts of thousandths: the two references, the two weights and the
    /// penalty. Without it the references and weights are 1 and the penalty is 0.
    pub fn parse(flat: &[i32]) -> (g: Graph)
        requires
            complete_export(flat@),
        ensures
            g.read_from(flat@),
    {
        let start: i32 = flat[0];
        let budget: usize = if flat[1] > 0 { flat[1] as usize } else { 0 };
        let n: i32 = flat[2];
        let mut links: HashMap<i32, Vec<i32>> = HashMap::new();
        let mut ty: HashMap<i32, i32> = HashMap::new();
        let mut p: usize = 3;
        let mut i: i32 = 0;
        assert(links@.map_values(|v: Vec<i32>| v@) =~= links_of(flat@, 0));
        assert(ty@ =~= types_of(flat@, 0));
        while i < n
            invariant
                0 <= i <= n,
                n == flat@[2],
                complete_export(flat@),
                p == record_start(flat@, i as nat),
                3 <= p <= flat@.len(),
                links@.map_values(|v: Vec<i32>| v@) =~= links_of(flat@, i as nat),
                ty@ =~= types_of(flat@, i as nat),
            decreases n - i,
        {
            assert(record_fits(flat@, i as nat));
            let id: i32 = flat[p];
            let tc: i32 = flat[p + 1];
            let k: usize = flat[p + 2] as usize;
            let first: usize = p + 3;
            let mut adj: Vec<i32> = Vec::with_capacity(k);
            let mut j: usize = 0;
            while j < k
                invariant
                    j <= k,
                    first + k <= flat.len(),
                    flat.len() == flat@.len(),
                    adj@ =~= flat@.subrange(first as int, first + j),
                decreases k - j,
            {
                adj.push(flat[first + j]);
                j = j + 1;
            }
            let ghost before = links@;
            let ghost row = adj@;
            links.insert(id, adj);
            ty.insert(id, tc);
            proof {
                assert(row =~= record_links(flat@, i as nat));
                assert(links@.map_values(|v: Vec<i32>| v@) =~= before.map_values(
                    |v: Vec<i32>| v@,
                ).insert(id, row));
            }
            p = first + k;
            i = i + 1;
        }
        let one = Double::from_bits(ONE_BITS);
        if flat.len() - p >= 5 {
            Graph {
                start,
                budget,
                links,
                ty,
                ref_dps: from_thousandths_floored(flat[p]),
                ref_ehp: from_thousandths_floored(flat[p + 1]),
                w_dps: from_thousandths(flat[p + 2]),
                w_ehp: from_thousandths(flat[p + 3]),
                penalty_k: from_thousandths(flat[p + 4]),
            }
        } else {
            Graph {
                start,
                budget,
                links,
                ty,
                ref_dps: one,
                ref_ehp: one,
                w_dps: one,
                w_ehp: one,
                penalty_k: Double::from_bits(ZERO_BITS),
            }
        }
    }

    fn axis_value(&self, change: Double, weight: Double) -> (d: Double)
        ensures
            d == self.axis_term(change, weight),
    {
        if Double::from_bits(ZERO_BITS).le(change) {
            weight.times(change)
        } else {
            self.penalty_k.negate().times(change).times(change)
        }
    }

    /// The score of a tree that spends the whole budget: each axis counts by its
    /// gain over the original build, and a shortfall is docked quadratically.
    /// Without a penalty it is the growth score.
    pub fn penalized_score(&self, growth: Double, dps: Double, ehp: Double) -> (d: Double)
        ensures
            d == self.penalized(growth, dps, ehp),
    {
        if self.penalty_k.le(Double::from_bits(ZERO_BITS)) {
            return growth;
        }
        let one = Double::from_bits(ONE_BITS);
        let d_dps = dps.over(self.ref_dps).minus(one);
        let d_ehp = ehp.over(self.ref_ehp).minus(one);
        Double::from_bits(HUNDRED_BITS).times(
            self.axis_value(d_dps, self.w_dps).plus(self.axis_value(d_ehp, self.w_ehp)),
        )
    }

    /// The score the beam grows on, from the two axes and the weights.
    pub fn growth_score(&self, dps: Double, ehp: Double) -> (d: Double)
        ensures
            d == self.growth(dps, ehp),
    {
        Double::from_bits(HUNDRED_BITS).times(
            self.w_dps.times(dps).over(self.ref_dps).plus(
                self.w_ehp.times(ehp).over(self.ref_ehp),
            ),
        )
    }

    /// Whether the export carried a penalty, so that `growth_score` is
    /// authoritative and scores can be kept between runs.
    pub fn has_trailer(&self) -> (b: bool)
        ensures
            b == self.trailer(),
    {
        Double::from_bits(ZERO_BITS).lt(self.penalty_k)
    }

    /// A scored set with its growth score derived from its axes.
    pub fn settle(&self, s: Scored) -> (t: Scored)
        ensures
            t == self.settled(s),
    {
        if self.has_trailer() && s.dps.is_finite() && s.ehp.is_finite() {
            Scored { score: self.growth_score(s.dps, s.ehp), dps: s.dps, ehp: s.ehp }
        } else {
            s
        }
    }

    /// Whether the tree holds its class start.
    pub fn has_start(&self) -> (b: bool)
        ensures
            b == self.ty@.contains_key(self.start),
    {
        match self.ty.get(&self.start) {
            Some(_) => true,
            None => false,
        }
    }

    /// Whether a node is a normal node, a notable or a keystone.
    pub fn is_target(&self, id: i32) -> (b: bool)
        ensures
            b == self.target(id),
    {
        match self.ty.get(&id) {
            Some(t) => *t == T_NORMAL || *t == T_NOTABLE || *t == T_KEYSTONE,
            None => false,
        }
    }

    /// Whether a node is a notable or a keystone.
    pub fn is_notable(&self, id: i32) -> (b: bool)
        ensures
            b == self.notable(id),
    {
        match self.ty.get(&id) {
            Some(t) => *t == T_NOTABLE || *t == T_KEYSTONE,
            None => false,
        }
    }

    /// Whether a node is a keystone.
    pub fn is_keystone(&self, id: i32) -> (b: bool)
        ensures
            b == self.keystone(id),
    {
        match self.ty.get(&id) {
            Some(t) => *t == T_KEYSTONE,
            None => false,
        }
    }
}

} // verus!
