//! The tunables of a whole search.

use crate::count::{capped, times_capped};
use crate::course::Pass;
use crate::diet::Regime;
use crate::graph::Graph;
use crate::text::{
    around, around_two, blank, chars_of, find, first_at, lemma_pieces_join, lemma_trimmed,
    parse_signed, part, pieces, signed_number, spells, split, trim, trimmed,
};
use vstd::prelude::*;

verus! {

/// The tunables of a whole search. A `cap_points` of 0 stands for the build's own
/// budget, a `pareto_extra` of 0 for half the beam, four at least.
#[derive(Clone, Copy, Debug, PartialEq, Eq)]
pub struct BeamParams {
    pub cap_points: usize,
    pub beam_width: usize,
    pub max_jump: usize,
    pub pareto_extra: usize,
    /// What stepping on a banned node weighs, 1 at least.
    pub detour: i64,
    pub patience_max: usize,
    pub max_rounds: usize,
    /// How many jumps to notables an allocation may make, 0 for any number.
    pub max_jump_cand: usize,
    /// How many of the most powerful far targets anchor the first beam.
    pub seed_anchors: usize,
    /// How many more times the search is run, each time from the next band of
    /// anchors.
    pub restarts: usize,
    /// Whether a host that has an output shows the progress.
    pub verbose: bool,
}

impl BeamParams {
    /// Stepping on a banned node must weigh something.
    pub open spec fn wf(self) -> bool {
        self.detour >= 1
    }

    /// The points that may be spent.
    pub open spec fn points(self, g: Graph) -> usize {
        if self.cap_points > 0 {
            self.cap_points
        } else {
            g.budget
        }
    }

    /// How many allocations are kept because nothing kept beats them.
    pub open spec fn extra(self) -> usize {
        if self.pareto_extra > 0 {
            self.pareto_extra
        } else if self.beam_width / 2 > 4 {
            self.beam_width / 2
        } else {
            4
        }
    }

    /// How many anchors restart number `k` passes over.
    pub open spec fn offset(self, k: nat) -> usize {
        capped(k * self.seed_anchors as nat) as usize
    }

    /// The pass and the diet of restart number `k`.
    pub open spec fn regime(self, g: Graph, k: nat) -> Regime {
        Regime {
            pass: Pass {
                cap_points: self.points(g),
                beam_width: self.beam_width,
                max_jump: self.max_jump,
                pareto_extra: self.extra(),
                max_jump_cand: self.max_jump_cand,
                seed_anchors: self.seed_anchors,
                anchor_offset: self.offset(k),
                detour: self.detour,
            },
            patience_max: self.patience_max,
            max_rounds: self.max_rounds,
        }
    }
}

/// The parameters of a search that nothing was said about.
pub open spec fn default_params() -> BeamParams {
    BeamParams {
        cap_points: 0,
        beam_width: 8,
        max_jump: 12,
        pareto_extra: 0,
        detour: 50,
        patience_max: 8,
        max_rounds: 40,
        max_jump_cand: 0,
        seed_anchors: 6,
        restarts: 2,
        verbose: false,
    }
}

impl Default for BeamParams {
    fn default() -> (p: BeamParams)
        ensures
            p == default_params(),
    {
        BeamParams {
            cap_points: 0,
            beam_width: 8,
            max_jump: 12,
            pareto_extra: 0,
            detour: 50,
            patience_max: 8,
            max_rounds: 40,
            max_jump_cand: 0,
            seed_anchors: 6,
            restarts: 2,
            verbose: false,
        }
    }
}

impl BeamParams {
    /// The points that may be spent, and the number of allocations kept besides
    /// those kept by score.
    pub fn resolved(&self, graph: &Graph) -> (r: (usize, usize))
        ensures
            r.0 == self.points(*graph),
            r.1 == self.extra(),
    {
        let cap: usize = if self.cap_points > 0 {
            self.cap_points
        } else {
            graph.budget
        };
        let pareto: usize = if self.pareto_extra > 0 {
            self.pareto_extra
        } else if self.beam_width / 2 > 4 {
            self.beam_width / 2
        } else {
            4
        };
        (cap, pareto)
    }

    /// The pass and the diet of restart number `k`.
    pub fn regime_of(&self, graph: &Graph, k: usize) -> (r: Regime)
        ensures
            r == self.regime(*graph, k as nat),
    {
        let (cap_points, pareto_extra) = self.resolved(graph);
        let anchor_offset: usize = times_capped(k, self.seed_anchors);
        Regime {
            pass: Pass {
                cap_points,
                beam_width: self.beam_width,
                max_jump: self.max_jump,
                pareto_extra,
                max_jump_cand: self.max_jump_cand,
                seed_anchors: self.seed_anchors,
                anchor_offset,
                detour: self.detour,
            },
            patience_max: self.patience_max,
            max_rounds: self.max_rounds,
        }
    }
}

/// A number that is at least `least`, as a count.
pub open spec fn no_less(n: i64, least: i64) -> usize {
    (if n > least {
        n
    } else {
        least
    }) as usize
}

/// The parameters with one of them set. An unknown name sets nothing.
pub open spec fn set_param(p: BeamParams, key: Seq<char>, n: i64) -> Option<BeamParams> {
    if key == "cap_points"@ {
        Some(BeamParams { cap_points: no_less(n, 0), ..p })
    } else if key == "beam_width"@ {
        Some(BeamParams { beam_width: no_less(n, 1), ..p })
    } else if key == "max_jump"@ {
        Some(BeamParams { max_jump: no_less(n, 0), ..p })
    } else if key == "pareto_extra"@ {
        Some(BeamParams { pareto_extra: no_less(n, 0), ..p })
    } else if key == "detour"@ {
        Some(
            BeamParams {
                detour: (if n > 1 {
                    n
                } else {
                    1
                }),
                ..p
            },
        )
    } else if key == "patience_max"@ {
        Some(BeamParams { patience_max: no_less(n, 0), ..p })
    } else if key == "max_rounds"@ {
        Some(BeamParams { max_rounds: no_less(n, 0), ..p })
    } else if key == "max_jump_cand"@ {
        Some(BeamParams { max_jump_cand: no_less(n, 0), ..p })
    } else if key == "seed_anchors"@ {
        Some(BeamParams { seed_anchors: no_less(n, 0), ..p })
    } else if key == "restarts"@ {
        Some(BeamParams { restarts: no_less(n, 0), ..p })
    } else if key == "verbose"@ {
        Some(BeamParams { verbose: n != 0, ..p })
    } else {
        None
    }
}

/// Whether a parameter has this name.
pub open spec fn param_name(key: Seq<char>) -> bool {
    set_param(default_params(), key, 0) is Some
}

/// The position of the first equals sign.
pub open spec fn equals_sign(line: Seq<char>) -> int {
    choose|i: int| first_at(line, '=', i)
}

/// The parameters after one piece of an override text, or what is wrong with it.
pub open spec fn override_one(p: BeamParams, piece: Seq<char>) -> Result<BeamParams, Seq<char>> {
    let line = trimmed(piece);
    if line.len() == 0 {
        Ok(p)
    } else if !line.contains('=') {
        Err("beam params: '"@ + line + "' is not key=value"@)
    } else {
        let at = equals_sign(line);
        let key = trimmed(line.take(at));
        let val = trimmed(line.skip(at + 1));
        if !param_name(key) {
            Err("beam params: unknown key '"@ + key + "'"@)
        } else {
            match signed_number(val) {
                Some(n) => Ok(set_param(p, key, n)->0),
                None => Err("beam params: "@ + key + "='"@ + val + "' is not a number"@),
            }
        }
    }
}

/// The parameters after some pieces of an override text; the first fault counts.
pub open spec fn override_all(all: Seq<Seq<char>>) -> Result<BeamParams, Seq<char>>
    decreases all.len(),
{
    if all.len() == 0 {
        Ok(default_params())
    } else {
        match override_all(all.drop_last()) {
            Ok(p) => override_one(p, all.last()),
            Err(e) => Err(e),
        }
    }
}

/// The pieces of an override text, between line ends and commas.
pub open spec fn override_pieces(s: Seq<char>) -> Seq<Seq<char>> {
    pieces(s, |c: char| c == '\n' || c == ',')
}

/// What an override text says: each piece is a name, an equals sign and a number.
pub open spec fn overridden(s: Seq<char>) -> Result<BeamParams, Seq<char>> {
    override_all(override_pieces(s))
}

/// Whether a piece of an override text speaks of the parameter of this name.
pub open spec fn speaks_of(piece: Seq<char>, key: Seq<char>) -> bool {
    let line = trimmed(piece);
    line.contains('=') && trimmed(line.take(equals_sign(line))) == key
}

/// Whether one of some pieces speaks of the parameter of this name.
pub open spec fn names(all: Seq<Seq<char>>, key: Seq<char>) -> bool {
    exists|i: int| 0 <= i < all.len() && speaks_of(#[trigger] all[i], key)
}

/// The parameters of `p`, and in place of those that the pieces name the ones of
/// `q`.
pub open spec fn overlaid(p: BeamParams, q: BeamParams, all: Seq<Seq<char>>) -> BeamParams {
    BeamParams {
        cap_points: if names(all, "cap_points"@) { q.cap_points } else { p.cap_points },
        beam_width: if names(all, "beam_width"@) { q.beam_width } else { p.beam_width },
        max_jump: if names(all, "max_jump"@) { q.max_jump } else { p.max_jump },
        pareto_extra: if names(all, "pareto_extra"@) { q.pareto_extra } else { p.pareto_extra },
        detour: if names(all, "detour"@) { q.detour } else { p.detour },
        patience_max: if names(all, "patience_max"@) { q.patience_max } else { p.patience_max },
        max_rounds: if names(all, "max_rounds"@) { q.max_rounds } else { p.max_rounds },
        max_jump_cand: if names(all, "max_jump_cand"@) {
            q.max_jump_cand
        } else {
            p.max_jump_cand
        },
        seed_anchors: if names(all, "seed_anchors"@) { q.seed_anchors } else { p.seed_anchors },
        restarts: if names(all, "restarts"@) { q.restarts } else { p.restarts },
        verbose: if names(all, "verbose"@) { q.verbose } else { p.verbose },
    }
}

/// What two override texts say together, `a` before `b`: of each parameter the last
/// word counts, and of the faults the first.
pub open spec fn both_said(a: Seq<char>, b: Seq<char>) -> Result<BeamParams, Seq<char>> {
    match (overridden(a), overridden(b)) {
        (Err(e), _) => Err(e),
        (Ok(_), Err(e)) => Err(e),
        (Ok(p), Ok(q)) => Ok(overlaid(p, q, override_pieces(b))),
    }
}

/// Whether a result is the one that is due, and a fault is told as it is due.
pub open spec fn told<T>(r: Result<T, String>, due: Result<T, Seq<char>>) -> bool {
    match r {
        Ok(v) => due == Ok::<T, Seq<char>>(v),
        Err(e) => due == Err::<T, Seq<char>>(e@),
    }
}

/// A number that is at least `least`, as a count.
fn raise(n: i64, least: i64) -> (r: usize)
    ensures
        r == no_less(n, least),
{
    if n > least {
        n as usize
    } else {
        least as usize
    }
}

/// There is one first equals sign.
pub proof fn lemma_equals_sign(line: Seq<char>, i: int)
    requires
        first_at(line, '=', i),
    ensures
        equals_sign(line) == i,
{
    let j = equals_sign(line);
    if j < i {
        assert(line.take(i)[j] == '=');
    } else if i < j {
        assert(line.take(j)[i] == '=');
    }
}

impl BeamParams {
    /// Sets the parameter of a given name.
    fn set(&mut self, key: &Vec<char>, n: i64) -> (known: bool)
        ensures
            match set_param(*old(self), key@, n) {
                Some(p) => known && *final(self) == p,
                None => !known && *final(self) == *old(self),
            },
    {
        if spells(key, "cap_points") {
            self.cap_points = raise(n, 0);
        } else if spells(key, "beam_width") {
            self.beam_width = raise(n, 1);
        } else if spells(key, "max_jump") {
            self.max_jump = raise(n, 0);
        } else if spells(key, "pareto_extra") {
            self.pareto_extra = raise(n, 0);
        } else if spells(key, "detour") {
            self.detour = if n > 1 {
                n
            } else {
                1
            };
        } else if spells(key, "patience_max") {
            self.patience_max = raise(n, 0);
        } else if spells(key, "max_rounds") {
            self.max_rounds = raise(n, 0);
        } else if spells(key, "max_jump_cand") {
            self.max_jump_cand = raise(n, 0);
        } else if spells(key, "seed_anchors") {
            self.seed_anchors = raise(n, 0);
        } else if spells(key, "restarts") {
            self.restarts = raise(n, 0);
        } else if spells(key, "verbose") {
            self.verbose = n != 0;
        } else {
            return false;
        }
        true
    }

    /// Takes in one piece of an override text.
    fn take_in(&mut self, piece: &Vec<char>) -> (r: Result<(), String>)
        ensures
            match r {
                Ok(()) => override_one(*old(self), piece@) == Ok::<BeamParams, Seq<char>>(
                    *final(self),
                ),
                Err(e) => override_one(*old(self), piece@) == Err::<BeamParams, Seq<char>>(e@),
            },
    {
        let line = trim(piece);
        if line.len() == 0 {
            return Ok(());
        }
        let at: usize = match find(&line, '=') {
            Some(at) => at,
            None => {
                return Err(around("beam params: '", &line, "' is not key=value"));
            },
        };
        proof {
            lemma_equals_sign(line@, at as int);
            assert(line@.subrange(0, at as int) =~= line@.take(at as int));
            assert(line@.subrange(at + 1, line@.len() as int) =~= line@.skip(at + 1));
            assert(line@[at as int] == '=');
        }
        let key = trim(&part(&line, 0, at));
        let val = trim(&part(&line, at + 1, line.len()));
        let mut scratch = *self;
        if !scratch.set(&key, 0) {
            return Err(around("beam params: unknown key '", &key, "'"));
        }
        match parse_signed(&val) {
            Some(n) => {
                self.set(&key, n);
                Ok(())
            },
            None => Err(around_two("beam params: ", &key, "='", &val, "' is not a number")),
        }
    }

    /// Reads overrides of the defaults, `key=value` pieces between line ends and
    /// commas. A name that is not known is a fault, so that a slip of the pen does
    /// not pass unseen. An empty text leaves all defaults.
    pub fn parse(s: &str) -> (r: Result<BeamParams, String>)
        ensures
            told(r, overridden(s@)),
            r is Ok ==> r->Ok_0.wf(),
    {
        let text = chars_of(s);
        let all = split(&text, '\n', ',');
        let ghost parts = all@.map_values(|p: Vec<char>| p@);
        let mut p: BeamParams = BeamParams::default();
        let mut i: usize = 0;
        assert(parts.take(0) =~= Seq::empty());
        while i < all.len()
            invariant
                i <= all@.len(),
                parts == all@.map_values(|p: Vec<char>| p@),
                parts == override_pieces(s@),
                override_all(parts.take(i as int)) == Ok::<BeamParams, Seq<char>>(p),
                p.wf(),
            decreases all@.len() - i,
        {
            proof {
                assert(parts.take(i + 1).drop_last() =~= parts.take(i as int));
                assert(parts.take(i + 1).last() == all@[i as int]@);
            }
            match p.take_in(&all[i]) {
                Ok(()) => {},
                Err(e) => {
                    proof {
                        lemma_first_fault(parts, i + 1, e@);
                    }
                    return Err(e);
                },
            }
            i = i + 1;
        }
        assert(parts.take(i as int) =~= parts);
        Ok(p)
    }
}

/// A fault stays, whatever follows.
proof fn lemma_first_fault(all: Seq<Seq<char>>, n: int, e: Seq<char>)
    requires
        0 <= n <= all.len(),
        override_all(all.take(n)) == Err::<BeamParams, Seq<char>>(e),
    ensures
        override_all(all) == Err::<BeamParams, Seq<char>>(e),
    decreases all.len() - n,
{
    if n == all.len() {
        assert(all.take(n) =~= all);
    } else {
        assert(all.take(n + 1).drop_last() =~= all.take(n));
        lemma_first_fault(all, n + 1, e);
    }
}

/// No two parameters have the same name.
proof fn lemma_names_differ()
    ensures
        "cap_points"@.len() == 10 && "cap_points"@[0] == 'c',
        "beam_width"@.len() == 10 && "beam_width"@[0] == 'b',
        "max_jump"@.len() == 8 && "max_jump"@[0] == 'm',
        "pareto_extra"@.len() == 12 && "pareto_extra"@[0] == 'p' && "pareto_extra"@[2] == 'r',
        "detour"@.len() == 6 && "detour"@[0] == 'd',
        "patience_max"@.len() == 12 && "patience_max"@[0] == 'p' && "patience_max"@[2] == 't',
        "max_rounds"@.len() == 10 && "max_rounds"@[0] == 'm',
        "max_jump_cand"@.len() == 13 && "max_jump_cand"@[0] == 'm',
        "seed_anchors"@.len() == 12 && "seed_anchors"@[0] == 's',
        "restarts"@.len() == 8 && "restarts"@[0] == 'r',
        "verbose"@.len() == 7 && "verbose"@[0] == 'v',
{
    reveal_strlit("cap_points");
    reveal_strlit("beam_width");
    reveal_strlit("max_jump");
    reveal_strlit("pareto_extra");
    reveal_strlit("detour");
    reveal_strlit("patience_max");
    reveal_strlit("max_rounds");
    reveal_strlit("max_jump_cand");
    reveal_strlit("seed_anchors");
    reveal_strlit("restarts");
    reveal_strlit("verbose");
}

/// What one more piece names.
proof fn lemma_names_push(all: Seq<Seq<char>>, piece: Seq<char>, key: Seq<char>)
    ensures
        names(all.push(piece), key) == (names(all, key) || speaks_of(piece, key)),
{
    let more = all.push(piece);
    if names(all, key) {
        let i = choose|i: int| 0 <= i < all.len() && speaks_of(#[trigger] all[i], key);
        assert(speaks_of(more[i], key));
    }
    if speaks_of(piece, key) {
        assert(speaks_of(more[all.len() as int], key));
    }
    if names(more, key) {
        let i = choose|i: int| 0 <= i < more.len() && speaks_of(#[trigger] more[i], key);
        if i < all.len() {
            assert(speaks_of(all[i], key));
        }
    }
}

/// Taking in a piece before laying over and after it is the same.
#[verifier::spinoff_prover]
proof fn lemma_overlay_step(
    p: BeamParams,
    q: BeamParams,
    all: Seq<Seq<char>>,
    piece: Seq<char>,
)
    ensures
        match override_one(q, piece) {
            Ok(after) => override_one(overlaid(p, q, all), piece) == Ok::<
                BeamParams,
                Seq<char>,
            >(overlaid(p, after, all.push(piece))),
            Err(e) => override_one(overlaid(p, q, all), piece) == Err::<BeamParams, Seq<char>>(e),
        },
{
    lemma_names_differ();
    lemma_names_push(all, piece, "cap_points"@);
    lemma_names_push(all, piece, "beam_width"@);
    lemma_names_push(all, piece, "max_jump"@);
    lemma_names_push(all, piece, "pareto_extra"@);
    lemma_names_push(all, piece, "detour"@);
    lemma_names_push(all, piece, "patience_max"@);
    lemma_names_push(all, piece, "max_rounds"@);
    lemma_names_push(all, piece, "max_jump_cand"@);
    lemma_names_push(all, piece, "seed_anchors"@);
    lemma_names_push(all, piece, "restarts"@);
    lemma_names_push(all, piece, "verbose"@);
}

/// Pieces that follow others lay their word over what the others said.
proof fn lemma_pieces_overlay(first: Seq<Seq<char>>, second: Seq<Seq<char>>, p: BeamParams)
    requires
        override_all(first) == Ok::<BeamParams, Seq<char>>(p),
    ensures
        match override_all(second) {
            Ok(q) => override_all(first + second) == Ok::<BeamParams, Seq<char>>(
                overlaid(p, q, second),
            ),
            Err(e) => override_all(first + second) == Err::<BeamParams, Seq<char>>(e),
        },
    decreases second.len(),
{
    if second.len() == 0 {
        assert(first + second =~= first);
    } else {
        let fewer = second.drop_last();
        lemma_pieces_overlay(first, fewer, p);
        assert((first + second).drop_last() =~= first + fewer);
        assert((first + second).last() == second.last());
        assert(fewer.push(second.last()) =~= second);
        match override_all(fewer) {
            Ok(q) => {
                lemma_overlay_step(p, q, fewer, second.last());
            },
            Err(_) => {},
        }
    }
}

/// Two override texts, joined by a comma or a line end, say what they say one after
/// the other: of each parameter that the second names its word counts, of every
/// other the first's, and the first fault of all is told.
pub proof fn lemma_overrides_join(a: Seq<char>, b: Seq<char>)
    ensures
        overridden(a + seq![','] + b) == both_said(a, b),
        overridden(a + seq!['\n'] + b) == both_said(a, b),
{
    let separates = |c: char| c == '\n' || c == ',';
    lemma_pieces_join(a, ',', b, separates);
    lemma_pieces_join(a, '\n', b, separates);
    let first = override_pieces(a);
    let second = override_pieces(b);
    assert(override_pieces(a + seq![','] + b) == first + second);
    assert(override_pieces(a + seq!['\n'] + b) == first + second);
    match overridden(a) {
        Ok(p) => {
            lemma_pieces_overlay(first, second, p);
        },
        Err(e) => {
            assert((first + second).take(first.len() as int) =~= first);
            lemma_first_fault(first + second, first.len() as int, e);
        },
    }
}

/// What each name sets, and nothing else: counts are raised to 0, the width of the beam
/// and the detour to 1, and any number but 0 asks for progress.
pub proof fn lemma_names_of_parameters(p: BeamParams, n: i64)
    ensures
        ({
            let count = (if n > 0 { n as usize } else { 0 });
            let one = (if n > 1 { n as usize } else { 1 });
            &&& set_param(p, "cap_points"@, n) == Some(BeamParams { cap_points: count, ..p })
            &&& set_param(p, "beam_width"@, n) == Some(BeamParams { beam_width: one, ..p })
            &&& set_param(p, "max_jump"@, n) == Some(BeamParams { max_jump: count, ..p })
            &&& set_param(p, "pareto_extra"@, n) == Some(BeamParams { pareto_extra: count, ..p })
            &&& set_param(p, "detour"@, n) == Some(
                BeamParams { detour: (if n > 1 { n } else { 1 }), ..p },
            )
            &&& set_param(p, "patience_max"@, n) == Some(BeamParams { patience_max: count, ..p })
            &&& set_param(p, "max_rounds"@, n) == Some(BeamParams { max_rounds: count, ..p })
            &&& set_param(p, "max_jump_cand"@, n) == Some(
                BeamParams { max_jump_cand: count, ..p },
            )
            &&& set_param(p, "seed_anchors"@, n) == Some(BeamParams { seed_anchors: count, ..p })
            &&& set_param(p, "restarts"@, n) == Some(BeamParams { restarts: count, ..p })
            &&& set_param(p, "verbose"@, n) == Some(BeamParams { verbose: n != 0, ..p })
        }),
{
    lemma_names_differ();
}

/// An override is a name, an equals sign and a number, and it sets the parameter of that
/// name to that number; blanks around either do not count.
pub proof fn lemma_override_sets(
    before: Seq<char>,
    key: Seq<char>,
    after: Seq<char>,
    val: Seq<char>,
    n: i64,
    p: BeamParams,
)
    requires
        key.len() > 0 && !blank(key[0]) && !blank(key.last()),
        val.len() > 0 && !blank(val[0]) && !blank(val.last()),
        forall|i: int| 0 <= i < key.len() ==> #[trigger] key[i] != '=',
        forall|i: int| 0 <= i < before.len() ==> #[trigger] before[i] == ' ',
        forall|i: int| 0 <= i < after.len() ==> #[trigger] after[i] == ' ',
        set_param(default_params(), key, 0) is Some,
        signed_number(val) == Some(n),
    ensures
        override_one(p, before + key + after + seq!['='] + before + val + after) == Ok::<
            BeamParams,
            Seq<char>,
        >(set_param(p, key, n)->0),
{
    let piece = before + key + after + seq!['='] + before + val + after;
    let line = key + after + seq!['='] + before + val;
    let b = before.len() as int;
    assert(trimmed(piece) == line) by {
        let cut = lemma_trimmed(piece);
        let end = b + line.len();
        assert(piece[b] == key[0]);
        assert(piece[end - 1] == val.last());
        assert forall|k: int| 0 <= k < b || end <= k < piece.len() implies blank(
            #[trigger] piece[k],
        ) by {
            if k < b {
                assert(piece[k] == before[k]);
            } else {
                assert(piece[k] == after[k - end]);
            }
        }
        if cut.0 >= cut.1 {
            assert(blank(piece[b]));
        }
        if cut.0 < b {
            assert(blank(piece[cut.0]));
        } else if cut.0 > b {
            assert(blank(piece[b]));
        }
        if cut.1 > end {
            assert(blank(piece[cut.1 - 1]));
        } else if cut.1 < end {
            assert(blank(piece[end - 1]));
        }
        assert(piece.subrange(b, end) =~= line);
    }
    let at = (key + after).len() as int;
    assert(line[at] == '=');
    assert(first_at(line, '=', at)) by {
        if line.take(at).contains('=') {
            let i = choose|i: int| 0 <= i < line.take(at).len() && line.take(at)[i] == '=';
            if i < key.len() {
                assert(key[i] == '=');
            } else {
                assert(after[i - key.len()] == '=');
            }
        }
    }
    lemma_equals_sign(line, at);
    assert(line.take(at) =~= key + after);
    assert(line.skip(at + 1) =~= before + val);
    lemma_framed(Seq::empty(), key, after);
    lemma_framed(before, val, Seq::empty());
    assert(Seq::<char>::empty() + key + after =~= key + after);
    assert(before + val + Seq::<char>::empty() =~= before + val);
}

/// Trimming takes the blanks around a text away.
proof fn lemma_framed(before: Seq<char>, s: Seq<char>, after: Seq<char>)
    requires
        s.len() > 0 && !blank(s[0]) && !blank(s.last()),
        forall|i: int| 0 <= i < before.len() ==> #[trigger] before[i] == ' ',
        forall|i: int| 0 <= i < after.len() ==> #[trigger] after[i] == ' ',
    ensures
        trimmed(before + s + after) == s,
{
    let all = before + s + after;
    let b = before.len() as int;
    let end = b + s.len();
    let cut = lemma_trimmed(all);
    assert(all[b] == s[0]);
    assert(all[end - 1] == s.last());
    if cut.0 >= cut.1 {
        assert(blank(all[b]));
    }
    if cut.0 < b {
        assert(all[cut.0] == before[cut.0]);
        assert(blank(all[cut.0]));
    } else if cut.0 > b {
        assert(blank(all[b]));
    }
    if cut.1 > end {
        assert(all[cut.1 - 1] == after[cut.1 - 1 - end]);
        assert(blank(all[cut.1 - 1]));
    } else if cut.1 < end {
        assert(blank(all[end - 1]));
    }
    assert(all.subrange(b, end) =~= s);
}

/// The parameters of a search that nothing was said about.
pub proof fn lemma_defaults()
    ensures
        overridden(Seq::empty()) == Ok::<BeamParams, Seq<char>>(
            BeamParams {
                cap_points: 0,
                beam_width: 8,
                max_jump: 12,
                pareto_extra: 0,
                detour: 50,
                patience_max: 8,
                max_rounds: 40,
                max_jump_cand: 0,
                seed_anchors: 6,
                restarts: 2,
                verbose: false,
            },
        ),
{
    let none = Seq::<char>::empty();
    let all = override_pieces(none);
    assert(all =~= seq![none]);
    assert(all.drop_last() =~= Seq::empty());
    assert(trimmed(none) =~= none) by {
        let cut = lemma_trimmed(none);
    }
    assert(override_all(all.drop_last()) == Ok::<BeamParams, Seq<char>>(default_params()));
}

/// Which overrides are faults: those that are not blank and have no equals sign, whose
/// name is not one of the eleven, or whose number is none.
pub proof fn lemma_override_faults(p: BeamParams, piece: Seq<char>, at: int)
    requires
        trimmed(piece).len() > 0,
        trimmed(piece).contains('=') ==> first_at(trimmed(piece), '=', at),
    ensures
        ({
            let line = trimmed(piece);
            let key = trimmed(line.take(at));
            override_one(p, piece) is Ok <==> {
                &&& line.contains('=')
                &&& {
                    ||| key == "cap_points"@
                    ||| key == "beam_width"@
                    ||| key == "max_jump"@
                    ||| key == "pareto_extra"@
                    ||| key == "detour"@
                    ||| key == "patience_max"@
                    ||| key == "max_rounds"@
                    ||| key == "max_jump_cand"@
                    ||| key == "seed_anchors"@
                    ||| key == "restarts"@
                    ||| key == "verbose"@
                }
                &&& signed_number(trimmed(line.skip(at + 1))) is Some
            }
        }),
{
    if trimmed(piece).contains('=') {
        lemma_equals_sign(trimmed(piece), at);
    }
}

} // verus!
