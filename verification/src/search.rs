//! Root-parallel search: several independent trees, merged by summing the
//! visits of each root move, with the tactical scan in front.
use std::sync::atomic::AtomicBool;
use hexo_engine::GameState;
use vstd::prelude::*;
use crate::board::Coord;
use crate::engine::{current_player, game_legal, game_stones, game_to_move, game_win_length, is_terminal};
use crate::lines::completes_line;
use crate::parallel::{par_map_indices, thread_count};
use crate::player::{Player, other};
use crate::tactics::find_immediate_tactical;
use crate::tree::{grown_tree, listed_visit_sum, root_visits_ok, run_one_tree, tree_result};

verus! {

/// Visits given to move `m` by the entries of one tree's list.
pub open spec fn tree_total(t: Seq<(Coord, u32)>, m: Coord) -> int
    decreases t.len(),
{
    if t.len() == 0 {
        0
    } else {
        tree_total(t.drop_last(), m) + if t.last().0 == m { t.last().1 as int } else { 0int }
    }
}

/// Visits given to move `m` over all trees.
pub open spec fn forest_total(ts: Seq<Seq<(Coord, u32)>>, m: Coord) -> int
    decreases ts.len(),
{
    if ts.len() == 0 {
        0
    } else {
        forest_total(ts.drop_last(), m) + tree_total(ts.last(), m)
    }
}

/// The lists of the trees, as sequences.
pub open spec fn forest_view(per_tree: Seq<Vec<(Coord, u32)>>) -> Seq<Seq<(Coord, u32)>> {
    per_tree.map_values(|t: Vec<(Coord, u32)>| t@)
}

/// Move `m` appears in some tree's list.
pub open spec fn forest_has(ts: Seq<Seq<(Coord, u32)>>, m: Coord) -> bool {
    exists|i: int, j: int| 0 <= i < ts.len() && 0 <= j < ts[i].len() && (#[trigger] ts[i][j]).0 == m
}

/// Totals only grow along a list.
proof fn lemma_tree_total_prefix(t: Seq<(Coord, u32)>, j: int, m: Coord)
    requires
        0 <= j <= t.len(),
    ensures
        0 <= tree_total(t.take(j), m) <= tree_total(t, m),
    decreases t.len(),
{
    if j < t.len() {
        assert(t.drop_last().take(j) == t.take(j));
        lemma_tree_total_prefix(t.drop_last(), j, m);
    } else {
        assert(t.take(j) == t);
        lemma_tree_total_nonneg(t, m);
    }
}

proof fn lemma_tree_total_nonneg(t: Seq<(Coord, u32)>, m: Coord)
    ensures
        tree_total(t, m) >= 0,
    decreases t.len(),
{
    if t.len() > 0 {
        lemma_tree_total_nonneg(t.drop_last(), m);
    }
}

/// Totals only grow along the list of trees.
proof fn lemma_forest_total_prefix(ts: Seq<Seq<(Coord, u32)>>, k: int, m: Coord)
    requires
        0 <= k <= ts.len(),
    ensures
        0 <= forest_total(ts.take(k), m) <= forest_total(ts, m),
    decreases ts.len(),
{
    if k < ts.len() {
        assert(ts.drop_last().take(k) == ts.take(k));
        lemma_forest_total_prefix(ts.drop_last(), k, m);
        lemma_tree_total_nonneg(ts.last(), m);
    } else {
        assert(ts.take(k) == ts);
        lemma_forest_total_nonneg(ts, m);
    }
}

proof fn lemma_forest_total_nonneg(ts: Seq<Seq<(Coord, u32)>>, m: Coord)
    ensures
        forest_total(ts, m) >= 0,
    decreases ts.len(),
{
    if ts.len() > 0 {
        lemma_forest_total_nonneg(ts.drop_last(), m);
        lemma_tree_total_nonneg(ts.last(), m);
    }
}

/// A move's visits in a list are at most the visits of the whole list.
proof fn lemma_tree_total_le_sum(t: Seq<(Coord, u32)>, m: Coord)
    ensures
        tree_total(t, m) <= listed_visit_sum(t),
    decreases t.len(),
{
    if t.len() > 0 {
        lemma_tree_total_le_sum(t.drop_last(), m);
    }
}

/// Over trees whose lists hold at most `b` visits each, a move gets at most
/// `b` visits per tree.
proof fn lemma_forest_total_le(ts: Seq<Seq<(Coord, u32)>>, m: Coord, b: int)
    requires
        b >= 0,
        forall|i: int| 0 <= i < ts.len() ==> listed_visit_sum(#[trigger] ts[i]) <= b,
    ensures
        forest_total(ts, m) <= ts.len() * b,
    decreases ts.len(),
{
    if ts.len() > 0 {
        let s = ts.drop_last();
        assert forall|i: int| 0 <= i < s.len() implies listed_visit_sum(#[trigger] s[i]) <= b by {
            assert(s[i] == ts[i]);
        }
        lemma_forest_total_le(s, m, b);
        lemma_tree_total_le_sum(ts.last(), m);
        assert(ts.len() * b == s.len() * b + b) by (nonlinear_arith)
            requires ts.len() == s.len() + 1;
    }
}

/// Visits given to `x` by the trees before `ti` and the first `j` entries of tree `ti`.
pub open spec fn partial_total(ts: Seq<Seq<(Coord, u32)>>, ti: int, j: int, x: Coord) -> int {
    forest_total(ts.take(ti), x) + if ti < ts.len() { tree_total(ts[ti].take(j), x) } else { 0int }
}

/// `x` is listed in the trees before `ti` or in the first `j` entries of tree `ti`.
pub open spec fn partial_has(ts: Seq<Seq<(Coord, u32)>>, ti: int, j: int, x: Coord) -> bool {
    exists|a: int, b: int|
        0 <= a < ts.len() && 0 <= b < ts[a].len() && (#[trigger] ts[a][b]).0 == x
            && (a < ti || (a == ti && b < j))
}

/// Sums the visits of each root move over all trees and returns a move with
/// the largest total (the last such one in first-seen order), or `None`
/// when no tree lists any move. Each total must fit in a `u32`.
pub fn merge_root_visits(per_tree: &Vec<Vec<(Coord, u32)>>) -> (r: Option<Coord>)
    requires
        forall|x: Coord| #[trigger] forest_total(forest_view(per_tree@), x) <= u32::MAX,
    ensures
        r is None <==> forall|i: int| 0 <= i < per_tree@.len() ==> (#[trigger] per_tree@[i])@.len() == 0,
        r matches Some(m) ==> forest_has(forest_view(per_tree@), m)
            && forall|x: Coord| forest_total(forest_view(per_tree@), x) <= #[trigger] forest_total(forest_view(per_tree@), m),
{
    let ghost ts = forest_view(per_tree@);
    let mut totals: Vec<(Coord, u32)> = Vec::new();
    let mut ti: usize = 0;
    while ti < per_tree.len()
        invariant
            ts == forest_view(per_tree@),
            ts.len() == per_tree@.len(),
            forall|x: Coord| #[trigger] forest_total(ts, x) <= u32::MAX,
            ti <= per_tree@.len(),
            forall|a: int, b: int| 0 <= a < b < totals@.len() ==> (#[trigger] totals@[a]).0 != (#[trigger] totals@[b]).0,
            forall|k: int| 0 <= k < totals@.len() ==> (#[trigger] totals@[k]).1 == partial_total(ts, ti as int, 0, totals@[k].0)
                && partial_has(ts, ti as int, 0, totals@[k].0),
            forall|x: Coord| (forall|k: int| 0 <= k < totals@.len() ==> (#[trigger] totals@[k]).0 != x)
                ==> partial_total(ts, ti as int, 0, x) == 0,
            totals@.len() == 0 <==> forall|i: int| 0 <= i < ti ==> (#[trigger] ts[i]).len() == 0,
        decreases per_tree@.len() - ti,
    {
        let tree = &per_tree[ti];
        assert(tree@ == ts[ti as int]);
        let mut j: usize = 0;
        while j < tree.len()
            invariant
                ts == forest_view(per_tree@),
                ts.len() == per_tree@.len(),
                forall|x: Coord| #[trigger] forest_total(ts, x) <= u32::MAX,
                ti < per_tree@.len(),
                tree@ == ts[ti as int],
                j <= tree@.len(),
                forall|a: int, b: int| 0 <= a < b < totals@.len() ==> (#[trigger] totals@[a]).0 != (#[trigger] totals@[b]).0,
                forall|k: int| 0 <= k < totals@.len() ==> (#[trigger] totals@[k]).1 == partial_total(ts, ti as int, j as int, totals@[k].0)
                    && partial_has(ts, ti as int, j as int, totals@[k].0),
                forall|x: Coord| (forall|k: int| 0 <= k < totals@.len() ==> (#[trigger] totals@[k]).0 != x)
                    ==> partial_total(ts, ti as int, j as int, x) == 0,
                totals@.len() == 0 <==> (forall|i: int| 0 <= i < ti ==> (#[trigger] ts[i]).len() == 0) && j == 0,
            decreases tree@.len() - j,
        {
            let (mv, v) = tree[j];
            let ghost t = ts[ti as int];
            proof {
                assert(t.take(j as int + 1).drop_last() == t.take(j as int));
                assert(t.take(j as int + 1).last() == (mv, v));
                assert forall|x: Coord| #[trigger] partial_total(ts, ti as int, j as int + 1, x)
                    == partial_total(ts, ti as int, j as int, x) + if x == mv { v as int } else { 0int } by {}
                assert forall|x: Coord| #[trigger] partial_has(ts, ti as int, j as int, x) implies partial_has(ts, ti as int, j as int + 1, x) by {
                    let (a, b) = choose|a: int, b: int|
                        0 <= a < ts.len() && 0 <= b < ts[a].len() && (#[trigger] ts[a][b]).0 == x
                            && (a < ti || (a == ti && b < j));
                    assert(ts[a][b].0 == x);
                }
                assert(ts[ti as int][j as int].0 == mv);
                assert(partial_has(ts, ti as int, j as int + 1, mv));
                // The new total of `mv` is part of its total over all trees.
                lemma_tree_total_prefix(t, j as int + 1, mv);
                lemma_forest_total_prefix(ts, ti as int + 1, mv);
                assert(ts.take(ti as int + 1).drop_last() == ts.take(ti as int));
                assert(ts.take(ti as int + 1).last() == t);
                assert(partial_total(ts, ti as int, j as int + 1, mv) <= forest_total(ts, mv));
                lemma_forest_total_nonneg(ts.take(ti as int), mv);
            }
            let mut k: usize = 0;
            let mut at: usize = 0;
            let mut found = false;
            let ghost tot0 = totals@;
            while k < totals.len()
                invariant
                    totals@ == tot0,
                    k <= totals@.len(),
                    !found ==> forall|q: int| 0 <= q < k ==> (#[trigger] totals@[q]).0 != mv,
                    found ==> at < totals@.len() && totals@[at as int].0 == mv,
                decreases totals@.len() - k,
            {
                let c = totals[k].0;
                if !found && c.0 == mv.0 && c.1 == mv.1 {
                    found = true;
                    at = k;
                }
                k = k + 1;
            }
            let k = at;
            let ghost before = totals@;
            if found {
                let cur = totals[k].1;
                totals[k] = (mv, cur + v);
                proof {
                    assert forall|q: int| 0 <= q < totals@.len() && q != k implies totals@[q] == before[q] by {}
                }
            } else {
                assert(partial_total(ts, ti as int, j as int, mv) == 0);
                totals.push((mv, v));
            }
            proof {
                assert forall|x: Coord| (forall|q: int| 0 <= q < totals@.len() ==> (#[trigger] totals@[q]).0 != x)
                    implies #[trigger] partial_total(ts, ti as int, j as int + 1, x) == 0 by {
                    assert forall|q: int| 0 <= q < before.len() implies (#[trigger] before[q]).0 != x by {
                        assert(totals@[q].0 == before[q].0);
                    }
                    if x == mv {
                        if found {
                            assert(totals@[k as int].0 == mv);
                        } else {
                            assert(totals@[before.len() as int].0 == mv);
                        }
                    }
                }
                assert forall|a: int, b: int| 0 <= a < b < totals@.len() implies (#[trigger] totals@[a]).0 != (#[trigger] totals@[b]).0 by {
                    assert(totals@[a].0 == if a < before.len() { before[a].0 } else { mv });
                    assert(totals@[b].0 == if b < before.len() { before[b].0 } else { mv });
                }
                assert forall|q: int| 0 <= q < totals@.len() implies (#[trigger] totals@[q]).1 == partial_total(ts, ti as int, j as int + 1, totals@[q].0)
                    && partial_has(ts, ti as int, j as int + 1, totals@[q].0) by {
                    if q < before.len() && !(found && q == k) {
                        assert(totals@[q] == before[q]);
                        assert(before[q].0 != mv);
                    }
                }
            }
            j = j + 1;
        }
        proof {
            assert(ts.take(ti as int + 1).drop_last() == ts.take(ti as int));
            assert(ts.take(ti as int + 1).last() == ts[ti as int]);
            assert(ts[ti as int].take(j as int) == ts[ti as int]);
            assert forall|x: Coord| #[trigger] partial_total(ts, ti as int + 1, 0, x) == partial_total(ts, ti as int, j as int, x) by {
                assert(ti + 1 < ts.len() ==> ts[ti + 1].take(0) =~= Seq::<(Coord, u32)>::empty());
            }
            assert forall|x: Coord| #[trigger] partial_has(ts, ti as int, j as int, x) implies partial_has(ts, ti as int + 1, 0, x) by {
                let (a, b) = choose|a: int, b: int|
                    0 <= a < ts.len() && 0 <= b < ts[a].len() && (#[trigger] ts[a][b]).0 == x
                        && (a < ti || (a == ti && b < j));
                assert(ts[a][b].0 == x);
            }
            if totals@.len() == 0 {
                assert(ts[ti as int].len() == 0);
            } else {
                if forall|i: int| 0 <= i < ti + 1 ==> (#[trigger] ts[i]).len() == 0 {
                    assert(ts[ti as int].len() == 0);
                }
            }
        }
        ti = ti + 1;
    }
    proof {
        assert(ts.take(ti as int) == ts);
        assert forall|i: int| 0 <= i < per_tree@.len() implies (#[trigger] per_tree@[i])@.len() == ts[i].len() by {}
    }
    if totals.len() == 0 {
        return None;
    }
    let mut best: usize = 0;
    let mut k: usize = 1;
    while k < totals.len()
        invariant
            1 <= k <= totals@.len(),
            best < k,
            forall|q: int| 0 <= q < k ==> (#[trigger] totals@[q]).1 <= totals@[best as int].1,
        decreases totals@.len() - k,
    {
        if totals[k].1 >= totals[best].1 {
            best = k;
        }
        k = k + 1;
    }
    let m = totals[best].0;
    proof {
        assert(partial_has(ts, ti as int, 0, m));
        let (a, b) = choose|a: int, b: int|
            0 <= a < ts.len() && 0 <= b < ts[a].len() && (#[trigger] ts[a][b]).0 == m
                && (a < ti || (a == ti && b < 0));
        assert(ts[a][b].0 == m);
        assert forall|x: Coord| forest_total(ts, x) <= #[trigger] forest_total(ts, m) by {
            assert(partial_total(ts, ti as int, 0, x) == forest_total(ts, x));
            assert(partial_total(ts, ti as int, 0, m) == forest_total(ts, m));
            if exists|q: int| 0 <= q < totals@.len() && (#[trigger] totals@[q]).0 == x {
                let q = choose|q: int| 0 <= q < totals@.len() && (#[trigger] totals@[q]).0 == x;
                assert(totals@[q].1 <= totals@[best as int].1);
            } else {
                assert(partial_total(ts, ti as int, 0, x) == 0);
            }
        }
    }
    Some(m)
}


/// The seed of tree `i`: the configured seed advanced by `i`, wrapping
/// around; no seed stays no seed.
pub fn tree_seed(seed: Option<u64>, i: usize) -> (r: Option<u64>)
    ensures
        r == match seed {
            Some(s) => Some(((s + i) % 0x1_0000_0000_0000_0000int) as u64),
            None => None::<u64>,
        },
{
    match seed {
        Some(s) => Some(s.wrapping_add(i as u64)),
        None => None,
    }
}

/// The iteration budget of each of `trees` trees: an equal share of
/// `iterations`, rounded down.
pub fn iterations_per_tree(iterations: u32, trees: usize) -> (r: u32)
    requires
        1 <= trees <= u32::MAX,
    ensures
        r == (iterations as int) / (trees as int),
{
    iterations / (trees as u32)
}

/// The number of trees to grow: one per thread of the pool (at least one),
/// but no more than there are iterations to share out (at least one).
pub fn tree_count(threads: usize, iterations: u32) -> (r: usize)
    ensures
        r == if (if threads == 0 { 1 } else { threads as int }) <= (if iterations == 0 { 1 } else { iterations as int }) {
            if threads == 0 { 1 } else { threads as int }
        } else {
            if iterations == 0 { 1 } else { iterations as int }
        },
        1 <= r <= u32::MAX,
{
    let t: usize = if threads == 0 { 1 } else { threads };
    let i: u32 = if iterations == 0 { 1 } else { iterations };
    if t <= i as usize { t } else { i as usize }
}

/// The simulations run by the trees, summed.
pub open spec fn total_runs(ns: Seq<u32>) -> int
    decreases ns.len(),
{
    if ns.len() == 0 {
        0
    } else {
        total_runs(ns.drop_last()) + ns.last()
    }
}

/// Trees that each ran at most `b` simulations ran at most `b` per tree in all.
proof fn lemma_total_runs_le(ns: Seq<u32>, b: int)
    requires
        forall|i: int| 0 <= i < ns.len() ==> #[trigger] ns[i] <= b,
    ensures
        total_runs(ns) <= ns.len() * b,
    decreases ns.len(),
{
    if ns.len() > 0 {
        let d = ns.drop_last();
        assert forall|i: int| 0 <= i < d.len() implies #[trigger] d[i] <= b by {
            assert(d[i] == ns[i]);
        }
        lemma_total_runs_le(d, b);
        assert(ns.len() * b == d.len() * b + b) by (nonlinear_arith)
            requires ns.len() == d.len() + 1;
    }
}

/// `r` is what merging the tree lists `ts` may give: nothing when no tree
/// lists a move, otherwise a listed move with the largest total visits.
pub open spec fn merged_choice(ts: Seq<Seq<(Coord, u32)>>, r: Option<Coord>) -> bool {
    match r {
        None => forall|i: int| 0 <= i < ts.len() ==> (#[trigger] ts[i]).len() == 0,
        Some(m) => forest_has(ts, m) && forall|x: Coord| forest_total(ts, x) <= #[trigger] forest_total(ts, m),
    }
}

/// Chooses a move for the player to move in `state`:
///
/// - `None` when the game is already over;
/// - a move that wins at once, if there is one;
/// - otherwise a move that blocks an opponent's win on the next move, if
///   the opponent has one;
/// - otherwise the root move with the most visits summed over independent
///   search trees, one per pool thread but no more than `iterations`, each
///   run for an equal share of `iterations` with seeds `seed`, `seed + 1`,
///   ..., so that no more than `iterations` simulations run in all; `None`
///   when the search was cancelled before any tree completed a simulation
///   (or `iterations` is 0).
///
/// Whatever it returns is a legal move of `state`.
pub fn choose_move_with<F: Fn(u32, u32, i64) -> u32 + Sync>(
    state: &GameState,
    iterations: u32,
    seed: Option<u64>,
    cancel: &AtomicBool,
    score: &F,
) -> (r: Option<Coord>)
    requires
        forall|a: u32, b: u32, c: i64| score.requires((a, b, c)),
    ensures
        game_to_move(*state) is None ==> r is None,
        r matches Some(m) ==> game_legal(*state).contains(m),
        game_to_move(*state) matches Some(me) ==> {
            let stones = game_stones(*state);
            let w = game_win_length(*state) as int;
            let legal = game_legal(*state);
            let can_win = exists|c: Coord| #[trigger] legal.contains(c) && completes_line(stones, c, me, w);
            let must_block = exists|c: Coord| #[trigger] legal.contains(c) && completes_line(stones, c, other(me), w);
            &&& can_win ==> (r matches Some(m) && completes_line(stones, m, me, w))
            &&& !can_win && must_block ==> (r matches Some(m) && completes_line(stones, m, other(me), w))
            &&& !can_win && !must_block ==> exists|ts: Seq<Seq<(Coord, u32)>>, ns: Seq<u32>| {
                &&& 1 <= ts.len() <= if iterations == 0 { 1 } else { iterations as int }
                &&& ns.len() == ts.len()
                &&& forall|i: int| 0 <= i < ns.len() ==> #[trigger] ns[i] <= (iterations as int) / (ts.len() as int)
                &&& forall|i: int| 0 <= i < ts.len() ==> #[trigger] tree_result(*state, ns[i], ts[i])
                    && grown_tree(*state, *score, me, ((iterations as int) / (ts.len() as int)) as u32, ns[i], ts[i])
                &&& #[trigger] total_runs(ns) <= iterations
                &&& #[trigger] merged_choice(ts, r)
            }
        },
{
    if is_terminal(state) {
        return None;
    }
    let root_player = match current_player(state) {
        Some(p) => p,
        None => return None,
    };
    if let Some(mv) = find_immediate_tactical(state, root_player) {
        return Some(mv);
    }
    let trees = tree_count(thread_count(), iterations);
    let per_tree_budget = iterations_per_tree(iterations, trees);
    let grow = |i: usize| -> (v: Vec<(Coord, u32)>)
        requires
            forall|a: u32, b: u32, c: i64| score.requires((a, b, c)),
        ensures
            exists|n: u32| n <= per_tree_budget && #[trigger] tree_result(*state, n, v@)
                && grown_tree(*state, *score, root_player, per_tree_budget, n, v@),
        {
            let (visits, _runs) = run_one_tree(state, root_player, per_tree_budget, tree_seed(seed, i), cancel, score);
            visits
        };
    let per_tree = par_map_indices(trees, grow);
    let ghost ts = forest_view(per_tree@);
    let ghost ns = Seq::new(trees as nat, |i: int|
        choose|n: u32| n <= per_tree_budget && #[trigger] tree_result(*state, n, ts[i])
            && grown_tree(*state, *score, root_player, per_tree_budget, n, ts[i]));
    proof {
        let b = per_tree_budget as int;
        assert forall|i: int| 0 <= i < ts.len() implies #[trigger] ns[i] <= b
            && tree_result(*state, ns[i], ts[i]) && grown_tree(*state, *score, root_player, per_tree_budget, ns[i], ts[i])
            && listed_visit_sum(ts[i]) <= b by {
            assert(ts[i] == per_tree@[i]@);
            assert(exists|n: u32| n <= per_tree_budget && #[trigger] tree_result(*state, n, per_tree@[i]@)
                && grown_tree(*state, *score, root_player, per_tree_budget, n, per_tree@[i]@));
        }
        assert((trees as int) * b <= iterations) by (nonlinear_arith)
            requires
                b == (iterations as int) / (trees as int),
                1 <= trees,
                0 <= iterations;
        assert forall|x: Coord| #[trigger] forest_total(ts, x) <= u32::MAX by {
            lemma_forest_total_le(ts, x, b);
        }
        lemma_total_runs_le(ns, b);
    }
    let r = merge_root_visits(&per_tree);
    proof {
        if let Some(m) = r {
            let (a, b) = choose|a: int, b: int| 0 <= a < ts.len() && 0 <= b < ts[a].len() && (#[trigger] ts[a][b]).0 == m;
            assert(tree_result(*state, ns[a], ts[a]));
            assert(ts[a].contains(ts[a][b]));
        } else {
            assert forall|i: int| 0 <= i < ts.len() implies (#[trigger] ts[i]).len() == 0 by {
                assert(ts[i] == per_tree@[i]@);
            }
        }
        assert(merged_choice(ts, r));
        assert(ns.len() == ts.len() && total_runs(ns) <= iterations);
    }
    r
}

} // verus!
