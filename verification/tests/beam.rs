use pob_optimizer::beam::{optimize, optimize_with_memo};
use pob_optimizer::cache::{load_with_sig, save};
use pob_optimizer::double::Double;
use pob_optimizer::fx::{Memo, Scored};
use pob_optimizer::graph::{Graph, T_KEYSTONE, T_NORMAL, T_NOTABLE};
use pob_optimizer::margin::{analyze_marginals, is_alloc_leaf};
use pob_optimizer::params::BeamParams;
use pob_optimizer::pathfinder::Pathfinder;
use pob_optimizer::plan::{select_beam, State};
use pob_optimizer::seed::compute_seed;
use rustc_hash::FxHashSet;
use std::collections::HashMap;

fn d(x: f64) -> Double {
    Double::from_bits(x.to_bits())
}

fn f(x: Double) -> f64 {
    f64::from_bits(x.to_bits())
}

fn triple(score: f64, dps: f64, ehp: f64) -> Scored {
    Scored { score: d(score), dps: d(dps), ehp: d(ehp) }
}

fn graph(start: i32, budget: usize, nodes: &[(i32, i32, &[i32])]) -> Graph {
    let mut links = HashMap::new();
    let mut ty = HashMap::new();
    for &(id, t, adj) in nodes {
        links.insert(id, adj.to_vec());
        ty.insert(id, t);
    }
    Graph {
        start,
        budget,
        links,
        ty,
        ref_dps: d(1.0),
        ref_ehp: d(1.0),
        w_dps: d(1.0),
        w_ehp: d(1.0),
        penalty_k: d(0.0),
    }
}

fn line_graph() -> Graph {
    graph(
        0,
        3,
        &[
            (0, T_NOTABLE, &[1]),
            (1, T_NOTABLE, &[0, 2]),
            (2, T_NOTABLE, &[1, 3]),
            (3, T_NOTABLE, &[2]),
        ],
    )
}

fn y_graph() -> Graph {
    graph(
        0,
        3,
        &[
            (0, T_NOTABLE, &[1, 2]),
            (1, T_NOTABLE, &[0]),
            (2, T_NOTABLE, &[0, 3]),
            (3, T_NOTABLE, &[2, 4]),
            (4, T_NOTABLE, &[3]),
        ],
    )
}

fn set_of(ids: &[i32]) -> FxHashSet<i32> {
    ids.iter().copied().collect()
}

fn by_length(cands: &[Vec<i32>]) -> Vec<Scored> {
    cands
        .iter()
        .map(|c| {
            let n = c.len() as f64;
            triple(n, n, n)
        })
        .collect()
}

fn by_prize(cands: &[Vec<i32>]) -> Vec<Scored> {
    cands
        .iter()
        .map(|c| {
            let v = if c.contains(&4) { 100.0 } else { c.len() as f64 };
            triple(v, v, v)
        })
        .collect()
}

#[test]
fn alloc_leaf_protects_the_main_path() {
    let g = line_graph();
    let set = set_of(&[0, 1, 2, 3]);
    assert!(!is_alloc_leaf(&g, &set, 0), "start is never a leaf");
    assert!(!is_alloc_leaf(&g, &set, 1), "interior node is load-bearing");
    assert!(!is_alloc_leaf(&g, &set, 2), "interior node is load-bearing");
    assert!(is_alloc_leaf(&g, &set, 3), "the far end IS a droppable leaf");
    let set2 = set_of(&[0, 1, 2]);
    assert!(is_alloc_leaf(&g, &set2, 2));
    assert!(!is_alloc_leaf(&g, &set2, 1));
}

#[test]
fn a_node_without_an_allocated_neighbour_is_no_leaf() {
    let mut g = line_graph();
    assert!(!is_alloc_leaf(&g, &set_of(&[0, 3]), 3));
    assert!(is_alloc_leaf(&g, &set_of(&[0, 2, 3]), 3));
    g.links.remove(&3);
    assert!(!is_alloc_leaf(&g, &set_of(&[0, 1, 2, 3]), 3));
}

#[test]
fn pathfinder_pdist_paths_and_detour() {
    let g = graph(
        0,
        3,
        &[
            (0, T_NOTABLE, &[1, 2]),
            (1, T_NOTABLE, &[0, 3]),
            (2, T_NOTABLE, &[0, 3]),
            (3, T_NOTABLE, &[1, 2]),
        ],
    );
    let mut pf = Pathfinder::new(&g);
    let (i0, i1, i3) = (
        *pf.idx.index_of.get(&0).unwrap(),
        *pf.idx.index_of.get(&1).unwrap(),
        *pf.idx.index_of.get(&3).unwrap(),
    );
    let i2 = *pf.idx.index_of.get(&2).unwrap();
    let frontier = set_of(&[0]);

    let r = pf.paths_from_set(&frontier, &FxHashSet::default(), 50);
    assert_eq!(r.pdist[i0 as usize], 0, "frontier node is distance 0");
    assert_eq!(r.pdist[i1 as usize], 1);
    assert_eq!(r.pdist[i2 as usize], 1);
    assert_eq!(r.pdist[i3 as usize], 2, "far node is 2 points away");
    assert_eq!(
        r.path_to(&pf.idx, i3),
        vec![3, 1],
        "path to 3 is [3, 1] (target-first, stops at frontier)"
    );

    let r2 = pf.paths_from_set(&frontier, &FxHashSet::default(), 50);
    assert!(std::rc::Rc::ptr_eq(&r, &r2), "repeat frontier must hit the path memo");
    drop((r, r2));

    let banned = set_of(&[1]);
    let r3 = pf.paths_from_set(&frontier, &banned, 50);
    assert_eq!(
        r3.path_to(&pf.idx, i3),
        vec![3, 2],
        "banning node 1 reroutes the path to 3 via node 2"
    );
    assert_eq!(r3.pdist[i3 as usize], 2, "point-distance unchanged (still 2 real nodes)");
}

#[test]
fn a_detour_is_taken_where_it_is_the_only_way() {
    let g = line_graph();
    let mut pf = Pathfinder::new(&g);
    let i3 = *pf.idx.index_of.get(&3).unwrap();
    let r = pf.paths_from_set(&set_of(&[0]), &set_of(&[1, 2]), 50);
    assert_eq!(r.path_to(&pf.idx, i3), vec![3, 2, 1]);
    assert_eq!(r.pdist[i3 as usize], 3);
}

#[test]
fn a_long_way_round_beats_a_heavy_detour() {
    let g = graph(
        0,
        9,
        &[
            (0, T_NORMAL, &[1, 2]),
            (1, T_NORMAL, &[0, 5]),
            (2, T_NORMAL, &[0, 3]),
            (3, T_NORMAL, &[2, 5]),
            (5, T_NORMAL, &[1, 3]),
        ],
    );
    let mut pf = Pathfinder::new(&g);
    let i5 = *pf.idx.index_of.get(&5).unwrap();
    let far = pf.paths_from_set(&set_of(&[0]), &set_of(&[1]), 50);
    assert_eq!(far.path_to(&pf.idx, i5), vec![5, 3, 2]);
    assert_eq!(far.pdist[i5 as usize], 3);
    let near = pf.paths_from_set(&set_of(&[0]), &set_of(&[1]), 1);
    assert_eq!(near.path_to(&pf.idx, i5), vec![5, 1], "another detour is another question");
}

#[test]
fn an_unreached_node_has_no_distance() {
    let g = graph(0, 3, &[(0, T_NORMAL, &[1]), (1, 9, &[0, 2]), (2, T_NORMAL, &[1])]);
    let mut pf = Pathfinder::new(&g);
    let i1 = *pf.idx.index_of.get(&1).unwrap();
    let i2 = *pf.idx.index_of.get(&2).unwrap();
    let r = pf.paths_from_set(&set_of(&[0, 77]), &FxHashSet::default(), 50);
    assert_eq!(r.pdist[i1 as usize], usize::MAX);
    assert_eq!(r.pdist[i2 as usize], usize::MAX);
    assert_eq!(r.prev[i2 as usize], u32::MAX);
    assert_eq!(r.reached, vec![*pf.idx.index_of.get(&0).unwrap()]);
    assert_eq!(r.path_to(&pf.idx, i2), vec![2]);
}

#[test]
fn an_unknown_link_is_left_out() {
    let g = graph(5, 3, &[(5, T_NORMAL, &[99, 7]), (7, T_NORMAL, &[5])]);
    let pf = Pathfinder::new(&g);
    assert_eq!(pf.idx.id_of, vec![5, 7]);
    assert_eq!(pf.idx.adj, vec![1, 0]);
    assert_eq!(pf.idx.adj_off, vec![0, 1, 2]);
    assert_eq!(pf.idx.start, 0);
    assert_eq!(pf.idx.len(), 2);
}

#[test]
fn a_signature_does_not_depend_on_order() {
    let a = Pathfinder::signature(&vec![1, 2, 3]);
    assert_eq!(a, Pathfinder::signature(&vec![3, 1, 2]));
    assert_ne!(a, Pathfinder::signature(&vec![1, 2]));
    assert_eq!(Pathfinder::signature(&vec![]), 0);
}

#[test]
fn params_parse_defaults_and_overrides() {
    let d = BeamParams::parse("").unwrap();
    assert_eq!(d.beam_width, 8);
    assert_eq!(d.max_jump, 12);
    assert_eq!(d.restarts, 2);
    let o = BeamParams::parse("beam_width=4,max_jump=6\nverbose=1\nrestarts=0").unwrap();
    assert_eq!(o.beam_width, 4);
    assert_eq!(o.max_jump, 6);
    assert!(o.verbose);
    assert_eq!(o.restarts, 0);
    assert!(BeamParams::parse("nope=1").is_err());
}

#[test]
fn params_take_every_key() {
    let p = BeamParams::parse(
        "cap_points=1,beam_width=2,max_jump=3,pareto_extra=4,detour=5,patience_max=6,max_rounds=7,\
         max_jump_cand=8,seed_anchors=9,restarts=10,verbose=0",
    )
    .unwrap();
    assert_eq!(
        p,
        BeamParams {
            cap_points: 1,
            beam_width: 2,
            max_jump: 3,
            pareto_extra: 4,
            detour: 5,
            patience_max: 6,
            max_rounds: 7,
            max_jump_cand: 8,
            seed_anchors: 9,
            restarts: 10,
            verbose: false,
        }
    );
}

#[test]
fn params_are_raised_to_their_least() {
    let p = BeamParams::parse(" beam_width = -4 , detour=-9\n\n cap_points=-1 ").unwrap();
    assert_eq!(p.beam_width, 1);
    assert_eq!(p.detour, 1);
    assert_eq!(p.cap_points, 0);
}

#[test]
fn params_tell_what_is_wrong() {
    assert_eq!(
        BeamParams::parse("beam_width").unwrap_err(),
        "beam params: 'beam_width' is not key=value"
    );
    assert_eq!(
        BeamParams::parse("beam_width=x").unwrap_err(),
        "beam params: beam_width='x' is not a number"
    );
    assert_eq!(
        BeamParams::parse("max_jump=1,detour=9223372036854775808,nope=1").unwrap_err(),
        "beam params: detour='9223372036854775808' is not a number"
    );
    assert_eq!(BeamParams::parse("nope=x").unwrap_err(), "beam params: unknown key 'nope'");
    assert_eq!(BeamParams::parse("restarts==2").unwrap_err(), "beam params: restarts='=2' is not a number");
}

#[test]
fn params_resolve_against_the_tree() {
    let g = line_graph();
    let p = BeamParams::default();
    assert_eq!(p.resolved(&g), (3, 4));
    let wide = BeamParams { cap_points: 7, beam_width: 20, ..p };
    assert_eq!(wide.resolved(&g), (7, 10));
    let told = BeamParams { pareto_extra: 1, ..p };
    assert_eq!(told.resolved(&g), (3, 1));
    assert_eq!(p.regime_of(&g, 3).pass.anchor_offset, 18);
    let many = BeamParams { seed_anchors: usize::MAX, ..p };
    assert_eq!(many.regime_of(&g, 2).pass.anchor_offset, usize::MAX);
}

#[test]
fn beam_grows_a_connected_tree_within_budget() {
    let g = line_graph();
    let params = BeamParams { cap_points: 3, beam_width: 4, max_jump: 4, ..Default::default() };
    let res = optimize(&g, &params, by_length);
    assert_eq!(res.ids, vec![0, 1, 2, 3]);
    assert_eq!(f(res.score), 4.0);
    assert!(res.evals > 0);
}

#[test]
fn penalized_score_blocks_axis_collapse() {
    let g = Graph {
        start: 0,
        budget: 0,
        links: HashMap::new(),
        ty: HashMap::new(),
        ref_dps: d(100.0),
        ref_ehp: d(1000.0),
        w_dps: d(1.0),
        w_ehp: d(1.0),
        penalty_k: d(10.0),
    };
    assert!(f(g.penalized_score(d(0.0), d(110.0), d(1080.0))) > 0.0);
    assert!(f(g.penalized_score(d(0.0), d(87.0), d(1035.0))) < 0.0);
    assert!(f(g.penalized_score(d(0.0), d(50.0), d(3500.0))) <= 0.0);
    let g0 = Graph { penalty_k: d(0.0), ..g };
    assert_eq!(f(g0.penalized_score(d(42.0), d(1.0), d(1.0))), 42.0);
}

#[test]
fn seed_cap_keeps_far_high_power_target() {
    let g = y_graph();
    let params = BeamParams {
        cap_points: 3,
        beam_width: 1,
        max_jump: 4,
        pareto_extra: 0,
        max_jump_cand: 1,
        seed_anchors: 2,
        ..Default::default()
    };
    let res = optimize(&g, &params, by_prize);
    assert!(res.ids.contains(&4), "seed-capped beam failed to reach the far prize: {:?}", res.ids);
    assert_eq!(f(res.score), 100.0);
}

#[test]
fn restarts_never_worsen_the_result() {
    let g = y_graph();
    let base = BeamParams {
        cap_points: 3,
        beam_width: 1,
        max_jump: 4,
        pareto_extra: 0,
        max_jump_cand: 1,
        seed_anchors: 1,
        ..Default::default()
    };
    let no_restart = optimize(&g, &BeamParams { restarts: 0, ..base }, by_prize);
    let with_restart = optimize(&g, &BeamParams { restarts: 3, ..base }, by_prize);
    assert!(
        f(with_restart.score) >= f(no_restart.score) - 1e-9,
        "restarts regressed the result: {} < {}",
        f(with_restart.score),
        f(no_restart.score)
    );
}

#[test]
fn a_jump_needs_no_good_step() {
    // Every step on the way to 3 is rejected; only the jump gets there.
    let g = graph(
        0,
        3,
        &[
            (0, T_NORMAL, &[1]),
            (1, T_NORMAL, &[0, 2]),
            (2, T_NORMAL, &[1, 3]),
            (3, T_KEYSTONE, &[2]),
        ],
    );
    let params = BeamParams { seed_anchors: 0, ..Default::default() };
    let res = optimize(&g, &params, |cands: &[Vec<i32>]| {
        cands
            .iter()
            .map(|c| {
                if c.len() == 1 || c.contains(&3) {
                    triple(c.len() as f64, 1.0, 1.0)
                } else {
                    triple(f64::NAN, f64::NAN, f64::NAN)
                }
            })
            .collect()
    });
    assert_eq!(res.ids, vec![0, 1, 2, 3]);
}

#[test]
fn a_search_without_moves_keeps_the_start() {
    let g = graph(0, 3, &[(0, T_NORMAL, &[])]);
    let res = optimize(&g, &BeamParams::default(), by_length);
    assert_eq!(res.ids, vec![0]);
    assert_eq!(res.evals, 1);
    assert_eq!(res.memo_entries, 1);
    assert_eq!(res.memo_bytes_est, 4 + 56);
}

#[test]
fn the_points_are_never_overspent() {
    let g = y_graph();
    for cap in 0..5usize {
        let params = BeamParams { cap_points: cap, ..Default::default() };
        let res = optimize(&g, &params, by_length);
        let points = if cap == 0 { 3 } else { cap };
        assert!(res.ids.len() <= points + 1);
        assert!(res.ids.contains(&0));
        let mut sorted = res.ids.clone();
        sorted.sort();
        sorted.dedup();
        assert_eq!(sorted, res.ids);
    }
}

#[test]
fn no_set_is_scored_twice() {
    let g = y_graph();
    let mut asked: Vec<Vec<i32>> = Vec::new();
    let params = BeamParams::default();
    let mut memo = Memo::default();
    let res = optimize_with_memo(&g, &params, &mut memo, |cands: &[Vec<i32>]| {
        for c in cands {
            assert!(!asked.contains(c));
            asked.push(c.clone());
        }
        by_length(cands)
    });
    assert_eq!(res.evals, asked.len());
    assert_eq!(res.memo_entries, asked.len());
    for c in &asked {
        assert_eq!(memo.get(c).copied(), Some(by_length(&[c.clone()])[0]));
    }
    let bytes: usize = asked.iter().map(|c| c.len() * 4 + 56).sum();
    assert_eq!(res.memo_bytes_est, bytes);

    let again = optimize_with_memo(&g, &params, &mut memo, |cands: &[Vec<i32>]| {
        assert!(cands.is_empty());
        Vec::new()
    });
    assert_eq!(again.evals, 0);
    assert_eq!(again.ids, res.ids);
    assert_eq!(again.score, res.score);
}

#[test]
fn the_growth_column_of_a_warm_table_does_not_count() {
    let mut g = y_graph();
    g.penalty_k = d(5.0);
    g.ref_dps = d(4.0);
    g.ref_ehp = d(2.0);
    let params = BeamParams::default();
    let mut memo = Memo::default();
    let cold = optimize_with_memo(&g, &params, &mut memo, by_prize);
    let mut spoiled = Memo::default();
    for (ids, s) in &memo {
        spoiled.insert(ids.clone(), Scored { score: d(-7.0), ..*s });
    }
    let warm = optimize_with_memo(&g, &params, &mut spoiled, |cands: &[Vec<i32>]| {
        assert!(cands.is_empty());
        Vec::new()
    });
    assert_eq!(warm.ids, cold.ids);
    assert_eq!(warm.score, cold.score);
    assert_eq!(warm.evals, 0);
}

#[test]
fn fresh_scores_are_settled_in_the_table() {
    let mut g = line_graph();
    g.penalty_k = d(5.0);
    g.ref_dps = d(2.0);
    g.ref_ehp = d(4.0);
    let mut memo = Memo::default();
    optimize_with_memo(&g, &BeamParams::default(), &mut memo, |cands: &[Vec<i32>]| {
        cands.iter().map(|c| triple(-1.0, c.len() as f64, 8.0)).collect()
    });
    let start = memo.get(&vec![0]).copied().unwrap();
    assert_eq!(f(start.score), 100.0 * (1.0 / 2.0 + 8.0 / 4.0));
    assert_eq!(f(start.dps), 1.0);
    assert_eq!(f(start.ehp), 8.0);
}

#[test]
fn the_diet_drops_a_dead_leaf() {
    // 1 is a near junk notable that scores as the way to 3 does until 3 is there.
    let g = graph(
        0,
        2,
        &[
            (0, T_NORMAL, &[1, 2]),
            (1, T_NOTABLE, &[0]),
            (2, T_NORMAL, &[0, 3]),
            (3, T_NOTABLE, &[2]),
        ],
    );
    let worth = |c: &Vec<i32>| -> f64 {
        let mut v = 1.0;
        if c.contains(&3) && !c.contains(&1) {
            v += 9.0;
        }
        if c.contains(&1) && c.len() == 2 {
            v += 5.0;
        }
        v
    };
    let params = BeamParams {
        beam_width: 1,
        pareto_extra: 1,
        max_jump: 0,
        seed_anchors: 0,
        ..Default::default()
    };
    let res = optimize(&g, &params, |cands: &[Vec<i32>]| {
        cands.iter().map(|c| triple(worth(c), 1.0, 1.0)).collect()
    });
    assert_eq!(res.ids, vec![0, 2, 3]);
    assert_eq!(f(res.score), 10.0);
}

#[test]
fn an_enabler_is_not_dropped() {
    // Without 1 there is no damage at all, so it stays though 2 alone scores more.
    let g = graph(
        0,
        1,
        &[(0, T_NORMAL, &[1, 2]), (1, T_NOTABLE, &[0]), (2, T_NOTABLE, &[0])],
    );
    let params = BeamParams {
        beam_width: 1,
        pareto_extra: 1,
        max_jump: 0,
        seed_anchors: 0,
        max_rounds: 3,
        ..Default::default()
    };
    let res = optimize(&g, &params, |cands: &[Vec<i32>]| {
        cands
            .iter()
            .map(|c| {
                if c.contains(&1) {
                    triple(5.0, 100.0, 1.0)
                } else if c.contains(&2) {
                    triple(4.0, 1.0, 1.0)
                } else {
                    triple(6.0, 0.5, 1.0)
                }
            })
            .collect()
    });
    assert_eq!(res.ids, vec![0, 1]);
}

#[test]
fn bans_wall_nothing_off() {
    let g = y_graph();
    let mut pf = Pathfinder::new(&g);
    let free = pf.paths_from_set(&set_of(&[0]), &FxHashSet::default(), 50);
    let banned = pf.paths_from_set(&set_of(&[0]), &set_of(&[1, 2, 3]), 50);
    let mut a = free.reached.clone();
    let mut b = banned.reached.clone();
    a.sort();
    b.sort();
    assert_eq!(a, b);
    assert_eq!(a.len(), 5);
}

#[test]
fn scores_do_not_fall_where_an_axis_rises() {
    let mut g = line_graph();
    g.w_dps = d(1.7);
    g.w_ehp = d(0.3);
    g.ref_dps = d(123.456);
    g.ref_ehp = d(7890.1);
    g.penalty_k = d(5.0);
    let axes = [0.0, 1e-300, 0.1, 61.728, 123.456, 123.4561, 200.0, 7890.1, 1e9, 1e300];
    for (i, &a) in axes.iter().enumerate() {
        for &b in &axes[i..] {
            for &e in &axes {
                assert!(g.growth_score(d(a), d(e)).le(g.growth_score(d(b), d(e))));
                assert!(g.growth_score(d(e), d(a)).le(g.growth_score(d(e), d(b))));
                let (x, y) = (
                    g.penalized_score(d(9.0), d(a), d(e)),
                    g.penalized_score(d(1.0), d(b), d(e)),
                );
                assert!(x.le(y));
            }
        }
    }
}

#[test]
fn the_result_carries_the_penalized_score_of_its_entry() {
    let mut g = y_graph();
    g.penalty_k = d(5.0);
    g.ref_dps = d(4.0);
    g.ref_ehp = d(2.0);
    let mut memo = Memo::default();
    let res = optimize_with_memo(&g, &BeamParams::default(), &mut memo, by_prize);
    let s = memo.get(&res.ids).copied().unwrap();
    assert_eq!(res.score, g.penalized_score(s.score, s.dps, s.ehp));
    assert_eq!((res.dps, res.ehp), (s.dps, s.ehp));
}

#[test]
fn a_cache_outlives_a_change_of_weights() {
    let mut g = y_graph();
    g.penalty_k = d(5.0);
    g.ref_dps = d(4.0);
    g.ref_ehp = d(2.0);
    let params = BeamParams::default();
    let mut memo = Memo::default();
    optimize_with_memo(&g, &params, &mut memo, by_prize);
    let (bytes, _) = save(11, &memo);

    g.w_dps = d(3.0);
    let cold = optimize(&g, &params, by_prize);
    let mut warm = load_with_sig(&bytes, 11, &g);
    let known = warm.len();
    let res = optimize_with_memo(&g, &params, &mut warm, by_prize);
    assert_eq!(res.ids, cold.ids);
    assert_eq!(res.score, cold.score);
    assert_eq!(res.evals, warm.len() - known);
    assert!(res.evals < cold.evals);
}

fn connected_from(start: i32, g: &Graph, ids: &[i32]) -> bool {
    let mut found = vec![start];
    let mut k = 0;
    while k < found.len() {
        for &v in &g.links[&found[k]] {
            if ids.contains(&v) && !found.contains(&v) {
                found.push(v);
            }
        }
        k += 1;
    }
    ids.iter().all(|v| found.contains(v))
}

#[test]
fn dropping_a_leaf_strands_nothing() {
    let g = y_graph();
    let ids = [0, 1, 2, 3, 4];
    for id in ids {
        let rest: Vec<i32> = ids.iter().copied().filter(|&x| x != id).collect();
        if is_alloc_leaf(&g, &set_of(&ids), id) {
            assert!(connected_from(0, &g, &rest));
        }
    }
    assert!(is_alloc_leaf(&g, &set_of(&ids), 4));
    assert!(!is_alloc_leaf(&g, &set_of(&ids), 2));
}

fn state(ids: &[i32], score: f64, dps: f64, ehp: f64) -> State {
    State::new(ids.to_vec(), set_of(ids), triple(score, dps, ehp))
}

#[test]
fn the_selection_keeps_what_nothing_beats() {
    let all = vec![
        state(&[0, 1], 9.0, 5.0, 5.0),
        state(&[0, 1], 9.0, 5.0, 5.0),
        state(&[0, 2], 8.0, 4.0, 5.0),
        state(&[0, 3], 7.0, 6.0, 1.0),
        state(&[0, 4], 6.0, 1.0, 6.0),
        state(&[0, 5], 5.0, 7.0, 0.0),
    ];
    let out = select_beam(all, 1, 2);
    let ids: Vec<Vec<i32>> = out.iter().map(|s| s.ids.clone()).collect();
    assert_eq!(ids, vec![vec![0, 1], vec![0, 3], vec![0, 4]]);
}

#[test]
fn a_capped_jump_keeps_the_keystones() {
    // 2 is a notable of some power, 4 a keystone that looks worthless on its own.
    let g = graph(
        0,
        4,
        &[
            (0, T_NORMAL, &[1, 3]),
            (1, T_NORMAL, &[0, 2]),
            (2, T_NOTABLE, &[1]),
            (3, T_NORMAL, &[0, 4]),
            (4, T_KEYSTONE, &[3]),
        ],
    );
    let params = BeamParams {
        beam_width: 1,
        pareto_extra: 1,
        max_jump_cand: 1,
        seed_anchors: 0,
        ..Default::default()
    };
    let mut asked: Vec<Vec<i32>> = Vec::new();
    optimize(&g, &params, |cands: &[Vec<i32>]| {
        asked.extend_from_slice(cands);
        cands
            .iter()
            .map(|c| {
                let v = if c.contains(&2) { 5.0 } else { 1.0 };
                triple(v, v, v)
            })
            .collect()
    });
    assert!(asked.contains(&vec![0, 3, 4]));
    assert!(asked.contains(&vec![0, 1, 2, 3, 4]));
}

#[test]
fn the_seed_measures_its_targets_in_one_batch() {
    let g = y_graph();
    let mut batches: Vec<Vec<Vec<i32>>> = Vec::new();
    let mut score = |c: &[Vec<i32>]| {
        batches.push(c.to_vec());
        by_prize(c)
    };
    let base = triple(1.0, 1.0, 1.0);
    let mut pf = Pathfinder::new(&g);
    let mut memo: Memo = Memo::default();
    memo.insert(vec![0, 2], triple(2.0, 2.0, 2.0));
    let mut evals = 7;
    let seed = compute_seed(&g, base, 50, &mut pf, &mut memo, &mut evals, &mut score);
    let mut got: Vec<(i32, f64)> = seed.ppp.iter().map(|(id, p)| (*id, f(*p))).collect();
    got.sort_by_key(|x| x.0);
    assert_eq!(got, vec![(1, 1.0), (2, 1.0), (3, 1.0), (4, 33.0)]);
    assert_eq!(evals, 10);
    // The same targets again ask for nothing, and another base shifts every power.
    let low = triple(-2.0, 1.0, 1.0);
    let again = compute_seed(&g, low, 50, &mut pf, &mut memo, &mut evals, &mut score);
    assert_eq!(f(again.ppp[&3]), 2.5);
    assert_eq!(f(again.ppp[&4]), 34.0);
    assert_eq!(evals, 10);
    assert_eq!(batches, vec![vec![vec![0, 1], vec![0, 2, 3], vec![0, 2, 3, 4]]]);
}

#[test]
fn marginals_are_measured_in_one_batch() {
    let g = line_graph();
    let mut batches: Vec<Vec<Vec<i32>>> = Vec::new();
    let mut score = |c: &[Vec<i32>]| {
        batches.push(c.to_vec());
        by_length(c)
    };
    let best = state(&[0, 1, 2, 3], 4.0, 4.0, 4.0);
    let mut memo: Memo = Memo::default();
    memo.insert(vec![0, 1, 2], triple(3.5, 3.5, 0.01));
    let mut evals = 0;
    let marg = analyze_marginals(&g, &best, &mut memo, &mut evals, &mut score);
    let got: Vec<(i32, f64, bool)> =
        marg.iter().map(|m| (m.id, f(m.marginal), m.is_enabler)).collect();
    assert_eq!(got, vec![(0, 1.0, false), (1, 1.0, false), (2, 1.0, false), (3, 0.5, true)]);
    assert_eq!(evals, 3);
    analyze_marginals(&g, &best, &mut memo, &mut evals, &mut score);
    assert_eq!(evals, 3);
    assert_eq!(batches, vec![vec![vec![1, 2, 3], vec![0, 2, 3], vec![0, 1, 3]]]);
}

#[test]
fn a_full_counter_stays_full() {
    let g = line_graph();
    let best = state(&[0, 1, 2, 3], 4.0, 4.0, 4.0);
    let mut memo: Memo = Memo::default();
    let mut score = by_length;
    let mut evals = usize::MAX - 1;
    analyze_marginals(&g, &best, &mut memo, &mut evals, &mut score);
    assert_eq!(evals, usize::MAX);
    assert_eq!(memo.len(), 4);
}

#[test]
fn what_was_asked_before_changes_no_answer() {
    let g = y_graph();
    let mut used = Pathfinder::new(&g);
    for from in [&[0][..], &[0, 2], &[1, 4]] {
        for bans in [&[][..], &[3], &[2, 9]] {
            used.paths_from_set(&set_of(from), &set_of(bans), 50);
            used.paths_from_set(&set_of(from), &set_of(bans), 2);
        }
    }
    for from in [&[0][..], &[0, 2], &[3]] {
        for bans in [&[][..], &[3], &[1, 2]] {
            let a = used.paths_from_set(&set_of(from), &set_of(bans), 50);
            let b = Pathfinder::new(&g).paths_from_set(&set_of(from), &set_of(bans), 50);
            assert_eq!(a.pdist, b.pdist);
            assert_eq!(a.prev, b.prev);
            assert_eq!(a.in_frontier, b.in_frontier);
            assert_eq!(a.reached, b.reached);
        }
    }
}

#[test]
fn of_two_overrides_the_last_word_counts() {
    let read = |s: &str| BeamParams::parse(s);
    let a = "beam_width=3,detour=9\nverbose=1";
    let b = " detour = 4 ,max_jump=2";
    for sep in [",", "\n"] {
        let both = read(&format!("{a}{sep}{b}")).unwrap();
        assert_eq!(both.beam_width, 3);
        assert_eq!(both.detour, 4);
        assert_eq!(both.max_jump, 2);
        assert!(both.verbose);
        assert_eq!(both.restarts, BeamParams::default().restarts);
        let first = read(&format!("x=1{sep}beam_width=y")).unwrap_err();
        assert_eq!(first, "beam params: unknown key 'x'");
        let second = read(&format!("{a}{sep}beam_width=y")).unwrap_err();
        assert_eq!(second, "beam params: beam_width='y' is not a number");
    }
}

#[test]
fn the_search_asks_in_batches() {
    let g = y_graph();
    let params = BeamParams::parse("seed_anchors=0,patience_max=0").unwrap();
    let mut batches: Vec<Vec<Vec<i32>>> = Vec::new();
    let result = optimize(&g, &params, |c: &[Vec<i32>]| {
        batches.push(c.to_vec());
        by_length(c)
    });
    assert_eq!(batches[0], vec![vec![0]]);
    let seed = vec![vec![0, 1], vec![0, 2], vec![0, 2, 3], vec![0, 2, 3, 4]];
    assert_eq!(batches[1], seed, "all targets in one batch");
    assert!(batches.iter().all(|b| !b.is_empty()), "nothing unknown, nothing asked");
    assert_eq!(batches.iter().map(|b| b.len()).sum::<usize>(), result.evals);
    // The first step finds nothing new, the second asks for two sets at once: the
    // better one of the beam is grown first.
    assert_eq!(batches[2..], [vec![vec![0, 1, 2, 3], vec![0, 1, 2]]]);
}

#[test]
fn a_warm_run_needs_no_scorer() {
    let g = y_graph();
    let params = BeamParams::default();
    let mut memo = Memo::default();
    let first = optimize_with_memo(&g, &params, &mut memo, by_prize);
    let left = memo.clone();
    let never = |_: &[Vec<i32>]| -> Vec<Scored> { unreachable!("nothing is left to ask for") };
    let second = optimize_with_memo(&g, &params, &mut memo, never);
    assert_eq!(second.ids, first.ids);
    assert_eq!(second.score, first.score);
    assert_eq!(second.dps, first.dps);
    assert_eq!(second.ehp, first.ehp);
    assert_eq!(second.evals, 0);
    assert_eq!(memo, left);
}

#[test]
fn only_targets_are_allocated() {
    // Node 1 is of no type that can be chosen, and the prize lies behind it.
    let g = graph(
        0,
        4,
        &[
            (0, T_NORMAL, &[1, 2]),
            (1, 0, &[0, 4]),
            (2, T_NORMAL, &[0, 3]),
            (3, T_KEYSTONE, &[2]),
            (4, T_NOTABLE, &[1]),
        ],
    );
    let found = optimize(&g, &BeamParams::default(), by_prize);
    assert_eq!(found.ids, vec![0, 2, 3]);
}
