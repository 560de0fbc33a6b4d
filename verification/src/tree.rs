//! One Monte Carlo search tree: select by a scoring rule, expand one
//! untried move, roll out, back the result up the path.
use std::sync::atomic::AtomicBool;
use hexo_engine::GameState;
use vstd::prelude::*;
use crate::board::Coord;
use crate::engine::{
    GameView, apply_move, clone_state, coord_lt, current_player, game_legal, game_max_moves, game_move_count,
    game_stones, game_to_move, game_winner, is_terminal, legal_moves, playable, view_after_move, view_of,
};
use crate::player::{Player, other};
use crate::rng::{os_seeded_rng, random_below, seeded_rng};
use crate::rollout::{keeps_stones, outcome_for, simulate};

verus! {

/// A node of the search tree, stored in an arena (`Vec<Node>`) and linked
/// to its children by index.
pub struct Node {
    /// Who is to move in the node's position (`None` once the game is over).
    pub player_to_move: Option<Player>,
    /// Who made the move into this node (`None` for the root).
    pub chosen_by: Option<Player>,
    /// Simulations that passed through this node.
    pub visits: u32,
    /// Sum of the rollout scores seen from `chosen_by`'s side (+1 win, -1 loss).
    pub total_score: i64,
    /// Legal moves of the position not expanded yet.
    pub untried: Vec<Coord>,
    /// Expanded moves and the arena index of the node each leads to.
    pub children: Vec<(Coord, usize)>,
    /// The position is over, or nothing can be expanded from it.
    pub terminal: bool,
}

/// Whether the cancel flag has been raised.
fn cancel_requested(cancel: &AtomicBool) -> bool {
    cancel.load(std::sync::atomic::Ordering::Relaxed)
}

/// A fresh node for `state`, reached by a move of `chosen_by`.
fn new_node(state: &GameState, chosen_by: Option<Player>) -> (n: Node)
    ensures
        n.player_to_move == game_to_move(*state),
        n.chosen_by == chosen_by,
        n.visits == 0,
        n.total_score == 0,
        n.children@.len() == 0,
        n.terminal == (game_to_move(*state) is None),
        n.terminal ==> n.untried@.len() == 0,
        !n.terminal ==> n.untried@.to_set() == game_legal(*state),
        n.untried@.no_duplicates(),
        forall|x: Coord| #[trigger] n.untried@.contains(x) ==> playable(view_of(*state), x),
        forall|i: int, j: int| 0 <= i < j < n.untried@.len() ==> coord_lt(#[trigger] n.untried@[i], #[trigger] n.untried@[j]),
        !n.terminal ==> n.untried@.len() == game_legal(*state).len(),
{
    let terminal = is_terminal(state);
    let untried = if terminal {
        Vec::new()
    } else {
        legal_moves(state)
    };
    proof {
        assert forall|x: Coord| #[trigger] untried@.contains(x) implies playable(view_of(*state), x) by {
            let i = untried@.index_of(x);
            assert(untried@.to_set().contains(x));
        }
        assert forall|i: int, j: int| 0 <= i < untried@.len() && 0 <= j < untried@.len() && i != j
            implies untried@[i] != untried@[j] by {
            if i < j {
                assert(coord_lt(untried@[i], untried@[j]));
            } else {
                assert(coord_lt(untried@[j], untried@[i]));
            }
        }
        if !terminal {
            untried@.unique_seq_to_set();
        }
    }
    Node {
        player_to_move: current_player(state),
        chosen_by,
        visits: 0,
        total_score: 0,
        untried,
        children: Vec::new(),
        terminal,
    }
}


/// The arena is a tree grown from node 0: children come after their parent,
/// no node has been visited more often than `done` simulations, the score
/// of a node is bounded by its visits, every node but the root has been
/// visited (those from `settled` on were added by the simulation under
/// way), and the root has been visited by every simulation.
pub open spec fn tree_wf(nodes: Seq<Node>, done: int, settled: int) -> bool {
    &&& 1 <= settled <= nodes.len()
    &&& forall|i: int, j: int|
        0 <= i < nodes.len() && 0 <= j < nodes[i].children@.len()
            ==> i < (#[trigger] nodes[i].children@[j]).1 < nodes.len()
    &&& forall|i: int|
        0 <= i < nodes.len() ==> (#[trigger] nodes[i]).visits <= done
            && -(nodes[i].visits as int) <= nodes[i].total_score <= nodes[i].visits
    &&& forall|i: int| 1 <= i < settled ==> (#[trigger] nodes[i]).visits >= 1
    &&& nodes[0].visits == done
}

/// The root's untried and expanded moves are distinct legal moves of the
/// root position, and there are none when the root position is over.
pub open spec fn root_wf(root: Node, legal: Set<Coord>, to_move: Option<Player>) -> bool {
    &&& root.untried@.no_duplicates()
    &&& forall|a: int, b: int|
        0 <= a < b < root.children@.len() ==> (#[trigger] root.children@[a]).0 != (#[trigger] root.children@[b]).0
    &&& forall|j: int|
        0 <= j < root.children@.len() ==> !root.untried@.contains((#[trigger] root.children@[j]).0)
            && legal.contains(root.children@[j].0)
    &&& forall|x: Coord| #[trigger] root.untried@.contains(x) ==> legal.contains(x)
    &&& (root.untried@.len() > 0 || root.children@.len() > 0) ==> to_move is Some
}

/// `keys` are scores that `score` may return for the children of node
/// `cur`, and child `r` has the highest one, being the first on a tie.
pub open spec fn first_best<F: Fn(u32, u32, i64) -> u32>(
    nodes: Seq<Node>,
    cur: int,
    score: F,
    keys: Seq<u32>,
    r: int,
) -> bool {
    &&& keys.len() == nodes[cur].children@.len()
    &&& 0 <= r < keys.len()
    &&& forall|j: int| 0 <= j < keys.len() ==> score.ensures((
        if nodes[cur].visits == 0 { 1u32 } else { nodes[cur].visits },
        nodes[nodes[cur].children@[j].1 as int].visits,
        nodes[nodes[cur].children@[j].1 as int].total_score,
    ), #[trigger] keys[j])
    &&& forall|j: int| 0 <= j < keys.len() ==> keys[j] <= keys[r]
    &&& forall|j: int| 0 <= j < r ==> keys[j] < keys[r]
}

/// Picks the child of `nodes[cur]` with the highest score, the first one
/// on a tie; `score` maps (parent visits, at least 1; child visits; child
/// score total) to a key ordered as the selection rule orders children.
fn select_child<F: Fn(u32, u32, i64) -> u32>(nodes: &Vec<Node>, cur: usize, score: &F) -> (r: usize)
    requires
        cur < nodes@.len(),
        nodes@[cur as int].children@.len() > 0,
        forall|j: int| 0 <= j < nodes@[cur as int].children@.len()
            ==> (#[trigger] nodes@[cur as int].children@[j]).1 < nodes@.len(),
        forall|a: u32, b: u32, c: i64| score.requires((a, b, c)),
    ensures
        r < nodes@[cur as int].children@.len(),
        exists|keys: Seq<u32>| #[trigger] first_best(nodes@, cur as int, *score, keys, r as int),
        single_valued(*score) ==> forall|j: int, kj: u32, kr: u32|
            0 <= j < nodes@[cur as int].children@.len()
                && #[trigger] score.ensures(child_key_args(nodes@, cur as int, j), kj)
                && #[trigger] score.ensures(child_key_args(nodes@, cur as int, r as int), kr)
                ==> kj <= kr && (j < r ==> kj < kr),
{
    let node = &nodes[cur];
    let parent_visits: u32 = if node.visits == 0 { 1 } else { node.visits };
    let ghost mut keys: Seq<u32> = Seq::empty();
    let (_, first) = node.children[0];
    let mut best: usize = 0;
    let mut best_key: u32 = score(parent_visits, nodes[first].visits, nodes[first].total_score);
    proof {
        keys = keys.push(best_key);
    }
    let mut j: usize = 1;
    while j < node.children.len()
        invariant
            node == &nodes@[cur as int],
            1 <= j <= node.children@.len(),
            keys.len() == j,
            best < j,
            best_key == keys[best as int],
            parent_visits == if node.visits == 0 { 1u32 } else { node.visits },
            forall|k: int| 0 <= k < node.children@.len() ==> (#[trigger] node.children@[k]).1 < nodes@.len(),
            forall|a: u32, b: u32, c: i64| score.requires((a, b, c)),
            forall|k: int| 0 <= k < keys.len() ==> score.ensures((
                parent_visits,
                nodes@[node.children@[k].1 as int].visits,
                nodes@[node.children@[k].1 as int].total_score,
            ), #[trigger] keys[k]),
            forall|k: int| 0 <= k < keys.len() ==> keys[k] <= best_key,
            forall|k: int| 0 <= k < best ==> keys[k] < best_key,
        decreases node.children@.len() - j,
    {
        let (_, child) = node.children[j];
        let key = score(parent_visits, nodes[child].visits, nodes[child].total_score);
        proof {
            keys = keys.push(key);
        }
        if key > best_key {
            best = j;
            best_key = key;
        }
        j = j + 1;
    }
    assert(first_best(nodes@, cur as int, *score, keys, best as int));
    assert forall|j: int, kj: u32, kr: u32|
        single_valued(*score) && 0 <= j < nodes@[cur as int].children@.len()
            && #[trigger] score.ensures(child_key_args(nodes@, cur as int, j), kj)
            && #[trigger] score.ensures(child_key_args(nodes@, cur as int, best as int), kr)
            implies kj <= kr && (j < best ==> kj < kr) by {
        assert(score.ensures(child_key_args(nodes@, cur as int, j), keys[j]));
        assert(score.ensures(child_key_args(nodes@, cur as int, best as int), keys[best as int]));
    }
    best
}


/// The arguments the selection rule is given for child `j` of node `cur`:
/// the parent's visits (at least 1), the child's visits, and the child's
/// score total.
pub open spec fn child_key_args(nodes: Seq<Node>, cur: int, j: int) -> (u32, u32, i64) {
    (
        if nodes[cur].visits == 0 { 1u32 } else { nodes[cur].visits },
        nodes[nodes[cur].children@[j].1 as int].visits,
        nodes[nodes[cur].children@[j].1 as int].total_score,
    )
}

/// `score` gives one key for each argument.
pub open spec fn single_valued<F: Fn(u32, u32, i64) -> u32>(score: F) -> bool {
    forall|x: (u32, u32, i64), k1: u32, k2: u32| score.ensures(x, k1) && score.ensures(x, k2) ==> k1 == k2
}

/// Selection takes the highest-scoring child: when selection goes from node
/// `a` to node `b` under a rule that gives one key per argument, `b` is a
/// child `r` of `a` whose key is at least every child's key, and above the
/// key of every child listed before it.
pub proof fn lemma_selection_takes_highest<F: Fn(u32, u32, i64) -> u32>(nodes: Seq<Node>, score: F, a: int, b: int)
    requires
        selects(nodes, score, a, b),
        single_valued(score),
    ensures
        exists|r: int| #![trigger nodes[a].children@[r]]
            0 <= r < nodes[a].children@.len() && nodes[a].children@[r].1 == b
            && forall|j: int, kj: u32, kr: u32|
                0 <= j < nodes[a].children@.len() && #[trigger] score.ensures(child_key_args(nodes, a, j), kj)
                    && #[trigger] score.ensures(child_key_args(nodes, a, r), kr)
                    ==> kj <= kr && (j < r ==> kj < kr),
{
    reveal(selects);
    let (keys, r) = choose|keys: Seq<u32>, r: int| #[trigger] first_best(nodes, a, score, keys, r)
        && nodes[a].children@[r].1 == b;
    assert forall|j: int, kj: u32, kr: u32|
        0 <= j < nodes[a].children@.len() && #[trigger] score.ensures(child_key_args(nodes, a, j), kj)
            && #[trigger] score.ensures(child_key_args(nodes, a, r), kr)
            implies kj <= kr && (j < r ==> kj < kr) by {
        assert(score.ensures(child_key_args(nodes, a, j), keys[j]));
        assert(score.ensures(child_key_args(nodes, a, r), keys[r]));
    }
    assert(nodes[a].children@[r].1 == b);
}

/// `views[i]` is the engine's view of the position of node `i`: untried
/// moves and expanded moves are playable there, each child's view is the
/// view after its move, and a node not marked terminal has a player to move.
pub open spec fn views_wf(nodes: Seq<Node>, views: Seq<GameView>) -> bool {
    &&& views.len() == nodes.len()
    &&& forall|i: int| 0 <= i < nodes.len() ==> (#[trigger] nodes[i]).player_to_move == views[i].to_move
        && (!nodes[i].terminal ==> views[i].to_move is Some)
    &&& forall|i: int, x: Coord|
        0 <= i < nodes.len() && #[trigger] nodes[i].untried@.contains(x) ==> playable(views[i], x)
    &&& forall|i: int, j: int|
        0 <= i < nodes.len() && 0 <= j < nodes[i].children@.len() ==> {
            let (mv, ch) = #[trigger] nodes[i].children@[j];
            playable(views[i], mv) && views[ch as int] == view_after_move(views[i], mv)
        }
}

/// `parent[c]` is the node whose children list holds `c`, and no children
/// list holds the same node twice.
pub open spec fn parents_wf(nodes: Seq<Node>, parent: Seq<int>) -> bool {
    &&& parent.len() == nodes.len()
    &&& forall|i: int, j: int|
        0 <= i < nodes.len() && 0 <= j < nodes[i].children@.len()
            ==> parent[(#[trigger] nodes[i].children@[j]).1 as int] == i
    &&& forall|i: int, a: int, b: int|
        0 <= i < nodes.len() && 0 <= a < b < nodes[i].children@.len()
            ==> (#[trigger] nodes[i].children@[a]).1 != (#[trigger] nodes[i].children@[b]).1
}

/// The visits of the nodes listed in `ch`, summed.
pub open spec fn child_visit_sum(nodes: Seq<Node>, ch: Seq<(Coord, usize)>) -> int
    decreases ch.len(),
{
    if ch.len() == 0 {
        0
    } else {
        child_visit_sum(nodes, ch.drop_last()) + nodes[ch.last().1 as int].visits
    }
}

/// When one listed node `t` (or none, for a `t` not listed) gains a visit
/// and the other listed nodes keep theirs, the sum gains one visit exactly
/// when `t` is listed.
proof fn lemma_child_visit_sum_shift(n1: Seq<Node>, n2: Seq<Node>, ch: Seq<(Coord, usize)>, t: int)
    requires
        forall|a: int, b: int| 0 <= a < b < ch.len() ==> (#[trigger] ch[a]).1 != (#[trigger] ch[b]).1,
        forall|j: int| 0 <= j < ch.len() ==> n2[(#[trigger] ch[j]).1 as int].visits
            == n1[ch[j].1 as int].visits + if ch[j].1 as int == t { 1int } else { 0int },
    ensures
        child_visit_sum(n2, ch) == child_visit_sum(n1, ch)
            + if exists|j: int| 0 <= j < ch.len() && (#[trigger] ch[j]).1 as int == t { 1int } else { 0int },
    decreases ch.len(),
{
    if ch.len() > 0 {
        let d = ch.drop_last();
        assert forall|a: int, b: int| 0 <= a < b < d.len() implies (#[trigger] d[a]).1 != (#[trigger] d[b]).1 by {
            assert(d[a] == ch[a] && d[b] == ch[b]);
        }
        assert forall|j: int| 0 <= j < d.len() implies n2[(#[trigger] d[j]).1 as int].visits
            == n1[d[j].1 as int].visits + if d[j].1 as int == t { 1int } else { 0int } by {
            assert(d[j] == ch[j]);
        }
        lemma_child_visit_sum_shift(n1, n2, d, t);
        let last = ch.len() - 1;
        assert(ch[last] == ch.last());
        if exists|j: int| 0 <= j < d.len() && (#[trigger] d[j]).1 as int == t {
            let j = choose|j: int| 0 <= j < d.len() && (#[trigger] d[j]).1 as int == t;
            assert(ch[j] == d[j]);
            assert(ch[j].1 != ch[last].1);
        }
        if exists|j: int| 0 <= j < ch.len() && (#[trigger] ch[j]).1 as int == t {
            let j = choose|j: int| 0 <= j < ch.len() && (#[trigger] ch[j]).1 as int == t;
            if j < last {
                assert(d[j] == ch[j]);
            }
        }
    }
}

/// The indices of `path` rise strictly and lie in the arena.
pub open spec fn rising_path(path: Seq<usize>, len: int) -> bool {
    &&& path.len() >= 1
    &&& path[0] == 0
    &&& forall|a: int, b: int| 0 <= a < b < path.len() ==> path[a] < path[b]
    &&& forall|a: int| 0 <= a < path.len() ==> path[a] < len
}

/// Node `i` is among the first `k` nodes of `path`.
pub open spec fn on_path(path: Seq<usize>, k: int, i: int) -> bool {
    exists|m: int| 0 <= m < k && path[m] as int == i
}

/// `new` is `old` with only `terminal` flags possibly raised.
pub open spec fn same_but_flags(old: Seq<Node>, new: Seq<Node>) -> bool {
    &&& new.len() == old.len()
    &&& forall|i: int| 0 <= i < old.len() ==> {
        &&& (#[trigger] new[i]).player_to_move == old[i].player_to_move
        &&& new[i].chosen_by == old[i].chosen_by
        &&& new[i].visits == old[i].visits
        &&& new[i].total_score == old[i].total_score
        &&& new[i].untried@ == old[i].untried@
        &&& new[i].children@ == old[i].children@
    }
}

/// Selection goes from node `a` of `nodes` to node `b`: `b` is the child of
/// `a` that `score` ranks highest, the first one on a tie.
#[verifier::opaque]
pub open spec fn selects<F: Fn(u32, u32, i64) -> u32>(nodes: Seq<Node>, score: F, a: int, b: int) -> bool {
    exists|keys: Seq<u32>, j: int| #[trigger] first_best(nodes, a, score, keys, j) && nodes[a].children@[j].1 == b
}

/// `path` is the walk of the selection from the root of `nodes`: from a
/// node that is not over, has no untried move and has children it goes on
/// to the child that `score` ranks first, and it stops at the first node
/// that is over, has an untried move, or has no children.
#[verifier::opaque]
pub open spec fn selected_path<F: Fn(u32, u32, i64) -> u32>(nodes: Seq<Node>, score: F, path: Seq<usize>) -> bool {
    &&& path.len() >= 1
    &&& path[0] == 0
    &&& forall|k: int| #![trigger path[k]] 0 <= k < path.len() - 1 ==> {
        &&& !nodes[path[k] as int].terminal
        &&& nodes[path[k] as int].untried@.len() == 0
        &&& selects(nodes, score, path[k] as int, path[k + 1] as int)
    }
    &&& nodes[path[path.len() - 1] as int].terminal || nodes[path[path.len() - 1] as int].untried@.len() > 0
        || nodes[path[path.len() - 1] as int].children@.len() == 0
}

/// Walks down from the root, replaying the moves on `sim_state`, as long as
/// the node reached is not over, has no untried move and has children; a
/// node with neither untried moves nor children is marked terminal. The
/// child taken at each step is the one `select_child` picks.
#[verifier::spinoff_prover]
fn select_path<F: Fn(u32, u32, i64) -> u32>(
    nodes: &mut Vec<Node>,
    sim_state: &mut GameState,
    score: &F,
    Ghost(done): Ghost<int>,
    Ghost(views): Ghost<Seq<GameView>>,
    Ghost(parent): Ghost<Seq<int>>,
) -> (path: Vec<usize>)
    requires
        tree_wf(old(nodes)@, done, old(nodes)@.len() as int),
        views_wf(old(nodes)@, views),
        parents_wf(old(nodes)@, parent),
        view_of(*old(sim_state)) == views[0],
        forall|a: u32, b: u32, c: i64| score.requires((a, b, c)),
    ensures
        same_but_flags(old(nodes)@, final(nodes)@),
        tree_wf(final(nodes)@, done, final(nodes)@.len() as int),
        views_wf(final(nodes)@, views),
        parents_wf(final(nodes)@, parent),
        final(nodes)@[0] == (Node { terminal: final(nodes)@[0].terminal, ..old(nodes)@[0] }),
        rising_path(path@, final(nodes)@.len() as int),
        view_of(*final(sim_state)) == views[path@[path@.len() - 1] as int],
        forall|k: int| 0 <= k < path@.len() - 1 ==> parent[(#[trigger] path@[k + 1]) as int] == path@[k] as int,
        forall|i: int| 0 <= i < old(nodes)@.len() && (#[trigger] final(nodes)@[i]).terminal != old(nodes)@[i].terminal
            ==> old(nodes)@[i].untried@.len() == 0 && old(nodes)@[i].children@.len() == 0,
        path@.len() == 1 ==> old(nodes)@[0].terminal || old(nodes)@[0].untried@.len() > 0
            || old(nodes)@[0].children@.len() == 0,
        path@.len() >= 2 ==> !old(nodes)@[0].terminal && old(nodes)@[0].untried@.len() == 0
            && exists|j: int| 0 <= j < old(nodes)@[0].children@.len() && (#[trigger] old(nodes)@[0].children@[j]).1 == path@[1],
        selected_path(old(nodes)@, *score, path@),
{
    let mut path: Vec<usize> = Vec::new();
    path.push(0);
    let ghost start = nodes@;
    loop
        invariant_except_break
            nodes@ == start,
        invariant
            path@.len() >= 1,
            path@[0] == 0,
            forall|k: int| #![trigger path@[k]] 0 <= k < path@.len() - 1 ==> {
                &&& !start[path@[k] as int].terminal
                &&& start[path@[k] as int].untried@.len() == 0
                &&& selects(start, *score, path@[k] as int, path@[k + 1] as int)
            },
            same_but_flags(start, nodes@),
            tree_wf(nodes@, done, nodes@.len() as int),
            nodes@[0] == (Node { terminal: nodes@[0].terminal, ..start[0] }),
            rising_path(path@, nodes@.len() as int),
            forall|a: u32, b: u32, c: i64| score.requires((a, b, c)),
            views_wf(nodes@, views),
            view_of(*sim_state) == views[path@[path@.len() - 1] as int],
            parents_wf(nodes@, parent),
            forall|k: int| 0 <= k < path@.len() - 1 ==> parent[(#[trigger] path@[k + 1]) as int] == path@[k] as int,
            forall|i: int| 0 <= i < start.len() && (#[trigger] nodes@[i]).terminal != start[i].terminal
                ==> start[i].untried@.len() == 0 && start[i].children@.len() == 0,
            path@.len() >= 2 ==> !start[0].terminal && start[0].untried@.len() == 0
                && exists|j: int| 0 <= j < start[0].children@.len() && (#[trigger] start[0].children@[j]).1 == path@[1],
        ensures
            selected_path(start, *score, path@),
            forall|i: int| 0 <= i < start.len() && (#[trigger] nodes@[i]).terminal != start[i].terminal
                ==> start[i].untried@.len() == 0 && start[i].children@.len() == 0,
            path@.len() == 1 ==> start[0].terminal || start[0].untried@.len() > 0 || start[0].children@.len() == 0,
            path@.len() >= 2 ==> !start[0].terminal && start[0].untried@.len() == 0
                && exists|j: int| 0 <= j < start[0].children@.len() && (#[trigger] start[0].children@[j]).1 == path@[1],
            same_but_flags(start, nodes@),
            tree_wf(nodes@, done, nodes@.len() as int),
            nodes@[0] == (Node { terminal: nodes@[0].terminal, ..start[0] }),
            rising_path(path@, nodes@.len() as int),
            views_wf(nodes@, views),
            view_of(*sim_state) == views[path@[path@.len() - 1] as int],
            parents_wf(nodes@, parent),
            forall|k: int| 0 <= k < path@.len() - 1 ==> parent[(#[trigger] path@[k + 1]) as int] == path@[k] as int,
        decreases nodes@.len() - path@[path@.len() - 1],
    {
        let cur = path[path.len() - 1];
        assert(nodes@[cur as int] == start[cur as int]);
        if nodes[cur].terminal {
            assert(selected_path(start, *score, path@)) by {
                reveal(selected_path);
            }
            break;
        }
        if nodes[cur].untried.len() != 0 {
            assert(selected_path(start, *score, path@)) by {
                reveal(selected_path);
            }
            break;
        }
        assert(nodes[cur as int].children@.len() == 0 ==> selected_path(start, *score, path@)) by {
            reveal(selected_path);
        }
        if nodes[cur].children.len() == 0 {
            let ghost pre = nodes@;
            nodes[cur].terminal = true;
            proof {
                assert forall|i: int| 0 <= i < start.len() && (#[trigger] nodes@[i]).terminal != start[i].terminal
                    implies start[i].untried@.len() == 0 && start[i].children@.len() == 0 by {
                    if i != cur {
                        assert(nodes@[i] == pre[i]);
                    }
                }
            }
            break;
        }
        let j = select_child(nodes, cur, score);
        let (mv, child) = nodes[cur].children[j];
        assert(cur < child < nodes@.len() && playable(views[cur as int], mv)
            && views[child as int] == view_after_move(views[cur as int], mv)
            && parent[child as int] == cur as int) by {
            assert(nodes@[cur as int].children@[j as int] == (mv, child));
        }
        apply_move(sim_state, mv).expect("UCB1-selected child move was illegal");
        let ghost prev = path@;
        path.push(child);
        assert(path@[path@.len() - 1] == child);
        proof {
            let keys = choose|keys: Seq<u32>| #[trigger] first_best(nodes@, cur as int, *score, keys, j as int);
            assert(first_best(start, cur as int, *score, keys, j as int));
            assert(start[cur as int].children@[j as int].1 == child);
            assert(selects(start, *score, cur as int, child as int)) by {
                reveal(selects);
            }
            assert forall|k: int| #![trigger path@[k]] 0 <= k < path@.len() - 1 implies {
                &&& !start[path@[k] as int].terminal
                &&& start[path@[k] as int].untried@.len() == 0
                &&& selects(start, *score, path@[k] as int, path@[k + 1] as int)
            } by {
                if k < prev.len() - 1 {
                    assert(path@[k] == prev[k] && path@[k + 1] == prev[k + 1]);
                } else {
                    assert(path@[k] == cur && path@[k + 1] == child);
                }
            }
            if prev.len() == 1 {
                assert(cur == 0);
                assert(start[0].children@[j as int].1 == path@[1]);
            } else {
                assert(path@[1] == prev[1]);
            }
        }
        assert forall|k: int| 0 <= k < path@.len() - 1 implies parent[(#[trigger] path@[k + 1]) as int] == path@[k] as int by {
            if k < path@.len() - 2 {
                assert(path@[k + 1] == prev[k + 1] && path@[k] == prev[k]);
            } else {
                assert(path@[k] == prev[prev.len() - 1]);
            }
        }
    }
    path
}


/// Every node of `n0` but `skip` has the same children in `n1`.
#[verifier::opaque]
pub open spec fn others_keep_children(n0: Seq<Node>, n1: Seq<Node>, skip: int) -> bool {
    forall|i: int| 0 <= i < n0.len() && i != skip ==> (#[trigger] n1[i]).children@ == n0[i].children@
}

/// Expands one untried move of `nodes[leaf]`, drawn at random: the move
/// leaves the untried list, is played on `sim_state`, and a new node for
/// the resulting position becomes the leaf's child. Returns the new node's
/// index (always the old arena length).
fn expand(
    nodes: &mut Vec<Node>,
    leaf: usize,
    sim_state: &mut GameState,
    rng: &mut rand_chacha::ChaCha8Rng,
    Ghost(done): Ghost<int>,
    Ghost(legal): Ghost<Set<Coord>>,
    Ghost(to_move): Ghost<Option<Player>>,
    Ghost(views): Ghost<Seq<GameView>>,
    Ghost(parent): Ghost<Seq<int>>,
) -> (added: usize)
    requires
        parents_wf(old(nodes)@, parent),
        tree_wf(old(nodes)@, done, old(nodes)@.len() as int),
        done >= 0,
        root_wf(old(nodes)@[0], legal, to_move),
        views_wf(old(nodes)@, views),
        leaf < old(nodes)@.len(),
        view_of(*old(sim_state)) == views[leaf as int],
        old(nodes)@[leaf as int].untried@.len() > 0,
    ensures
        tree_wf(final(nodes)@, done, old(nodes)@.len() as int),
        root_wf(final(nodes)@[0], legal, to_move),
        views_wf(final(nodes)@, views.push(view_of(*final(sim_state)))),
        parents_wf(final(nodes)@, parent.push(leaf as int)),
        added == old(nodes)@.len(),
        final(nodes)@.len() == old(nodes)@.len() + 1,
        forall|i: int| 0 <= i < old(nodes)@.len() ==> (#[trigger] final(nodes)@[i]).visits == old(nodes)@[i].visits
            && final(nodes)@[i].total_score == old(nodes)@[i].total_score
            && final(nodes)@[i].chosen_by == old(nodes)@[i].chosen_by
            && final(nodes)@[i].terminal == old(nodes)@[i].terminal,
        final(nodes)@[added as int].visits == 0,
        final(nodes)@[added as int].total_score == 0,
        final(nodes)@[added as int].chosen_by == old(nodes)@[leaf as int].player_to_move,
        final(nodes)@[leaf as int].untried@.len() == old(nodes)@[leaf as int].untried@.len() - 1,
        leaf != 0 ==> final(nodes)@[0].untried@ == old(nodes)@[0].untried@,
        final(nodes)@[leaf as int].children@.len() == old(nodes)@[leaf as int].children@.len() + 1,
        final(nodes)@[leaf as int].children@.drop_last() == old(nodes)@[leaf as int].children@,
        final(nodes)@[leaf as int].children@.last().1 == added,
        old(nodes)@[leaf as int].untried@.contains(final(nodes)@[leaf as int].children@.last().0),
        others_keep_children(old(nodes)@, final(nodes)@, leaf as int),
        final(nodes)@[0].children@ == if leaf == 0 {
            old(nodes)@[0].children@.push((final(nodes)@[0].children@.last().0, added))
        } else {
            old(nodes)@[0].children@
        },
{
    let ghost before = nodes@;
    let n = nodes[leaf].untried.len();
    let idx = random_below(rng, n);
    let mv = nodes[leaf].untried.swap_remove(idx);
    let ghost old_untried = before[leaf as int].untried@;
    assert(old_untried[idx as int] == mv);
    let ghost new_untried = nodes@[leaf as int].untried@;
    assert(new_untried == old_untried.update(idx as int, old_untried.last()).drop_last());
    proof {
        if leaf == 0 {
            assert forall|x: Coord| new_untried.contains(x) implies old_untried.contains(x) && x != mv by {
                let k = new_untried.index_of(x);
                if k == idx {
                    assert(x == old_untried[old_untried.len() - 1]);
                    assert(old_untried.len() - 1 != idx);
                } else {
                    assert(x == old_untried[k]);
                }
            }
            assert(new_untried.no_duplicates()) by {
                assert forall|a: int, b: int| 0 <= a < new_untried.len() && 0 <= b < new_untried.len() && a != b
                    implies new_untried[a] != new_untried[b] by {
                    let oa = if a == idx { old_untried.len() - 1 } else { a };
                    let ob = if b == idx { old_untried.len() - 1 } else { b };
                    assert(new_untried[a] == old_untried[oa]);
                    assert(new_untried[b] == old_untried[ob]);
                }
            }
        }
    }
    let mover = nodes[leaf].player_to_move;
    assert(before[leaf as int].untried@.contains(mv));
    assert(playable(views[leaf as int], mv));
    apply_move(sim_state, mv).expect("untried move was illegal");
    let fresh = new_node(sim_state, mover);
    let child_idx = nodes.len();
    nodes.push(fresh);
    nodes[leaf].children.push((mv, child_idx));
    proof {
        let after = nodes@;
        assert forall|i: int, j: int|
            0 <= i < after.len() && 0 <= j < after[i].children@.len()
                implies i < (#[trigger] after[i].children@[j]).1 < after.len() by {
            if i == leaf && j == after[i].children@.len() - 1 {
            } else if i < before.len() {
                assert(after[i].children@[j] == before[i].children@[j]);
            }
        }
        assert forall|i: int| 0 <= i < after.len() implies (#[trigger] after[i]).visits <= done
            && -(after[i].visits as int) <= after[i].total_score <= after[i].visits by {
            if i < before.len() {
                assert(after[i].visits == before[i].visits);
            }
        }
        assert forall|i: int| 1 <= i < before.len() implies (#[trigger] after[i]).visits >= 1 by {
            assert(after[i].visits == before[i].visits);
        }
        if leaf == 0 {
            let root = after[0];
            assert(root.children@ == before[0].children@.push((mv, child_idx)));
            assert forall|a: int, b: int|
                0 <= a < b < root.children@.len() implies (#[trigger] root.children@[a]).0 != (#[trigger] root.children@[b]).0 by {
                if b == root.children@.len() - 1 {
                    assert(root.children@[a] == before[0].children@[a]);
                    assert(old_untried.contains(mv));
                } else {
                    assert(root.children@[a] == before[0].children@[a]);
                    assert(root.children@[b] == before[0].children@[b]);
                }
            }
            assert forall|j: int| 0 <= j < root.children@.len()
                implies !root.untried@.contains((#[trigger] root.children@[j]).0) && legal.contains(root.children@[j].0) by {
                if j < root.children@.len() - 1 {
                    assert(root.children@[j] == before[0].children@[j]);
                    if root.untried@.contains(root.children@[j].0) {
                        assert(old_untried.contains(root.children@[j].0));
                    }
                } else {
                    assert(old_untried.contains(mv));
                }
            }
        }
    }
    proof {
        let after = nodes@;
        let vs = views.push(view_of(*sim_state));
        assert forall|i: int| 0 <= i < after.len() implies (#[trigger] after[i]).player_to_move == vs[i].to_move
            && (!after[i].terminal ==> vs[i].to_move is Some) by {
            if i < before.len() {
                assert(after[i].player_to_move == before[i].player_to_move);
                assert(after[i].terminal == before[i].terminal);
            }
        }
        assert forall|i: int, x: Coord| 0 <= i < after.len() && #[trigger] after[i].untried@.contains(x)
            implies playable(vs[i], x) by {
            if i == leaf {
                assert(old_untried.contains(x)) by {
                    let k = new_untried.index_of(x);
                    if k == idx {
                        assert(x == old_untried[old_untried.len() - 1]);
                    } else {
                        assert(x == old_untried[k]);
                    }
                }
            } else if i < before.len() {
                assert(after[i].untried@ == before[i].untried@);
            }
        }
        assert forall|i: int, j: int| 0 <= i < after.len() && 0 <= j < after[i].children@.len() implies {
            let (m, ch) = #[trigger] after[i].children@[j];
            playable(vs[i], m) && vs[ch as int] == view_after_move(vs[i], m)
        } by {
            if i == leaf && j == after[i].children@.len() - 1 {
                assert(after[i].children@[j] == (mv, child_idx));
            } else if i < before.len() {
                assert(after[i].children@[j] == before[i].children@[j]);
                assert(before[i].children@[j].1 < before.len());
            }
        }
        let ps = parent.push(leaf as int);
        assert forall|i: int, j: int| 0 <= i < after.len() && 0 <= j < after[i].children@.len()
            implies ps[(#[trigger] after[i].children@[j]).1 as int] == i by {
            if i == leaf && j == after[i].children@.len() - 1 {
                assert(after[i].children@[j] == (mv, child_idx));
            } else if i < before.len() {
                assert(after[i].children@[j] == before[i].children@[j]);
                assert(before[i].children@[j].1 < before.len());
            }
        }
        assert forall|i: int, a: int, b: int| 0 <= i < after.len() && 0 <= a < b < after[i].children@.len()
            implies (#[trigger] after[i].children@[a]).1 != (#[trigger] after[i].children@[b]).1 by {
            if i == leaf && b == after[i].children@.len() - 1 {
                assert(after[i].children@[a] == before[i].children@[a]);
                assert(before[i].children@[a].1 < before.len());
                assert(after[i].children@[b] == (mv, child_idx));
            } else if i < before.len() {
                assert(after[i].children@[a] == before[i].children@[a]);
                assert(after[i].children@[b] == before[i].children@[b]);
            }
        }
        if leaf == 0 {
            assert(after[0].children@.last() == (mv, child_idx));
        }
        reveal(others_keep_children);
        assert forall|i: int| 0 <= i < before.len() && i != leaf implies (#[trigger] after[i]).children@ == before[i].children@ by {
            assert(after[i] == before[i]);
        }
    }
    child_idx
}

/// A rollout score for `root` as seen by the player who moved into a node:
/// flipped when that player is not `root` (the root, entered by nobody,
/// keeps it).
pub open spec fn signed_outcome(chosen_by: Option<Player>, root: Player, outcome: int) -> int {
    match chosen_by {
        Some(p) => if p == root { outcome } else { -outcome },
        None => outcome,
    }
}

/// Adds one visit and the signed rollout score to every node of `path`:
/// `outcome` is scored for `root_player`, so it counts against a node
/// entered by a move of the other player.
fn backprop(
    nodes: &mut Vec<Node>,
    path: &Vec<usize>,
    outcome: i64,
    root_player: Player,
    Ghost(views): Ghost<Seq<GameView>>,
    Ghost(parent): Ghost<Seq<int>>,
)
    requires
        views_wf(old(nodes)@, views),
        parents_wf(old(nodes)@, parent),
        rising_path(path@, old(nodes)@.len() as int),
        -1 <= outcome <= 1,
        forall|i: int| 0 <= i < old(nodes)@.len() ==> (#[trigger] old(nodes)@[i]).visits < u32::MAX
            && -(old(nodes)@[i].visits as int) <= old(nodes)@[i].total_score <= old(nodes)@[i].visits,
    ensures
        views_wf(final(nodes)@, views),
        parents_wf(final(nodes)@, parent),
        final(nodes)@.len() == old(nodes)@.len(),
        forall|i: int| 0 <= i < old(nodes)@.len() ==> {
            &&& (#[trigger] final(nodes)@[i]).player_to_move == old(nodes)@[i].player_to_move
            &&& final(nodes)@[i].chosen_by == old(nodes)@[i].chosen_by
            &&& final(nodes)@[i].untried@ == old(nodes)@[i].untried@
            &&& final(nodes)@[i].children@ == old(nodes)@[i].children@
            &&& final(nodes)@[i].terminal == old(nodes)@[i].terminal
            &&& final(nodes)@[i].visits == old(nodes)@[i].visits + (if on_path(path@, path@.len() as int, i) { 1int } else { 0int })
            &&& final(nodes)@[i].total_score == old(nodes)@[i].total_score + (if on_path(path@, path@.len() as int, i) {
                signed_outcome(old(nodes)@[i].chosen_by, root_player, outcome as int)
            } else { 0int })
            &&& -(final(nodes)@[i].visits as int) <= final(nodes)@[i].total_score <= final(nodes)@[i].visits
        },
{
    let ghost before = nodes@;
    let mut k: usize = 0;
    while k < path.len()
        invariant
            rising_path(path@, before.len() as int),
            k <= path@.len(),
            -1 <= outcome <= 1,
            nodes@.len() == before.len(),
            forall|i: int| 0 <= i < before.len() ==> {
                &&& (#[trigger] nodes@[i]).player_to_move == before[i].player_to_move
                &&& nodes@[i].chosen_by == before[i].chosen_by
                &&& nodes@[i].untried@ == before[i].untried@
                &&& nodes@[i].children@ == before[i].children@
                &&& nodes@[i].terminal == before[i].terminal
                &&& nodes@[i].visits == before[i].visits + (if on_path(path@, k as int, i) { 1int } else { 0int })
                &&& nodes@[i].total_score == before[i].total_score + (if on_path(path@, k as int, i) {
                    signed_outcome(before[i].chosen_by, root_player, outcome as int)
                } else { 0int })
                &&& -(nodes@[i].visits as int) <= nodes@[i].total_score <= nodes@[i].visits
            },
            forall|i: int| 0 <= i < before.len() ==> (#[trigger] before[i]).visits < u32::MAX,
        decreases path@.len() - k,
    {
        let idx = path[k];
        let signed: i64 = match nodes[idx].chosen_by {
            Some(p) => if p == root_player { outcome } else { -outcome },
            None => outcome,
        };
        proof {
            assert(!on_path(path@, k as int, idx as int)) by {
                if on_path(path@, k as int, idx as int) {
                    let m = choose|m: int| 0 <= m < k && path@[m] as int == idx as int;
                    assert(path@[m] < path@[k as int]);
                }
            }
        }
        nodes[idx].visits = nodes[idx].visits + 1;
        nodes[idx].total_score = nodes[idx].total_score + signed;
        proof {
            assert forall|i: int| 0 <= i < before.len() implies
                (#[trigger] on_path(path@, k as int + 1, i) <==> (on_path(path@, k as int, i) || i == idx)) by {
                if on_path(path@, k as int, i) {
                    let m = choose|m: int| 0 <= m < k && path@[m] as int == i;
                    assert(0 <= m < k + 1 && path@[m] as int == i);
                }
                if i == idx {
                    assert(path@[k as int] as int == i);
                }
            }
        }
        k = k + 1;
    }
    proof {
        let after = nodes@;
        assert forall|i: int, x: Coord| 0 <= i < after.len() && #[trigger] after[i].untried@.contains(x)
            implies playable(views[i], x) by {
            assert(after[i].untried@ == before[i].untried@);
        }
        assert forall|i: int, j: int| 0 <= i < after.len() && 0 <= j < after[i].children@.len() implies {
            let (m, ch) = #[trigger] after[i].children@[j];
            playable(views[i], m) && views[ch as int] == view_after_move(views[i], m)
        } by {
            assert(after[i].children@[j] == before[i].children@[j]);
        }
        assert forall|i: int, j: int| 0 <= i < after.len() && 0 <= j < after[i].children@.len()
            implies parent[(#[trigger] after[i].children@[j]).1 as int] == i by {
            assert(after[i].children@[j] == before[i].children@[j]);
        }
        assert forall|i: int, a: int, b: int| 0 <= i < after.len() && 0 <= a < b < after[i].children@.len()
            implies (#[trigger] after[i].children@[a]).1 != (#[trigger] after[i].children@[b]).1 by {
            assert(after[i].children@[a] == before[i].children@[a]);
            assert(after[i].children@[b] == before[i].children@[b]);
        }
    }
}


/// The visit counts `r` hand back are those of the root's children: each
/// move at most once, each a legal move of the root position (and only if
/// the root position is not over), each visited at least once and at most
/// `iterations` times, and all of them together at most `iterations` times
/// (a simulation passes through at most one child of the root).
pub open spec fn root_visits_ok(state: GameState, iterations: u32, r: Seq<(Coord, u32)>) -> bool {
    &&& forall|i: int, j: int| 0 <= i < j < r.len() ==> (#[trigger] r[i]).0 != (#[trigger] r[j]).0
    &&& forall|i: int| 0 <= i < r.len() ==> game_legal(state).contains((#[trigger] r[i]).0)
    &&& forall|i: int| 0 <= i < r.len() ==> 1 <= (#[trigger] r[i]).1 <= iterations
    &&& r.len() > 0 ==> game_to_move(state) is Some
    &&& listed_visit_sum(r) <= iterations
}

/// The visit counts of a list, summed.
pub open spec fn listed_visit_sum(r: Seq<(Coord, u32)>) -> int
    decreases r.len(),
{
    if r.len() == 0 {
        0
    } else {
        listed_visit_sum(r.drop_last()) + r.last().1
    }
}

/// The nodes listed in `ch` keep their visits, so their sum is unchanged.
proof fn lemma_child_visit_sum_same(n1: Seq<Node>, n2: Seq<Node>, ch: Seq<(Coord, usize)>)
    requires
        forall|a: int, b: int| 0 <= a < b < ch.len() ==> (#[trigger] ch[a]).1 != (#[trigger] ch[b]).1,
        forall|j: int| 0 <= j < ch.len() ==> n2[(#[trigger] ch[j]).1 as int].visits == n1[ch[j].1 as int].visits,
    ensures
        child_visit_sum(n2, ch) == child_visit_sum(n1, ch),
{
    assert forall|j: int| 0 <= j < ch.len() implies n2[(#[trigger] ch[j]).1 as int].visits
        == n1[ch[j].1 as int].visits + if ch[j].1 as int == -1 { 1int } else { 0int } by {}
    lemma_child_visit_sum_shift(n1, n2, ch, -1);
}

/// A child `c` of the root lies on a root path only as its second node.
proof fn lemma_root_child_on_path(parent: Seq<int>, path: Seq<usize>, len: int, c: int)
    requires
        rising_path(path, len),
        forall|k: int| 0 <= k < path.len() - 1 ==> parent[(#[trigger] path[k + 1]) as int] == path[k] as int,
        0 < c < len,
        parent[c] == 0,
    ensures
        on_path(path, path.len() as int, c) <==> (path.len() >= 2 && path[1] as int == c),
{
    if on_path(path, path.len() as int, c) {
        let m = choose|m: int| 0 <= m < path.len() && path[m] as int == c;
        if m == 0 {
            assert(path[0] == 0);
        } else if m >= 2 {
            assert(parent[path[(m - 1) + 1] as int] == path[m - 1] as int);
            assert(path[0] < path[m - 1]);
        }
    }
    if path.len() >= 2 && path[1] as int == c {
        assert(0 <= 1 < path.len() && path[1] as int == c);
    }
}

/// The root of a tree grown by `done` simulations from `state`, while a
/// player is to move there: its untried and expanded moves together are the
/// legal moves, one move is expanded per simulation until none is left
/// untried, and when there is a legal move the root is not marked over and
/// each simulation has passed through exactly one of its children.
pub open spec fn root_progress(nodes: Seq<Node>, done: int, state: GameState) -> bool {
    game_to_move(state) is Some ==> {
        let n = game_legal(state).len() as int;
        &&& nodes[0].untried@.len() + nodes[0].children@.len() == n
        &&& nodes[0].children@.len() == if done <= n { done } else { n }
        &&& n > 0 ==> !nodes[0].terminal && child_visit_sum(nodes, nodes[0].children@) == nodes[0].visits
    }
}

/// The invariant of a tree between simulations.
pub open spec fn tree_inv(
    nodes: Seq<Node>,
    done: int,
    views: Seq<GameView>,
    parent: Seq<int>,
    state: GameState,
) -> bool {
    &&& tree_wf(nodes, done, nodes.len() as int)
    &&& root_wf(nodes[0], game_legal(state), game_to_move(state))
    &&& views_wf(nodes, views)
    &&& views[0] == view_of(state)
    &&& parents_wf(nodes, parent)
    &&& child_visit_sum(nodes, nodes[0].children@) <= nodes[0].visits
    &&& root_progress(nodes, done, state)
}

/// How one simulation changed the arena `n0` into `n1`: at most one node
/// was added, at the end of `path`; every node on `path` gained one visit
/// and the rollout score `outcome` (for `root`), flipped for a node entered
/// by the other player; every other node kept its visits and score.
#[verifier::opaque]
pub open spec fn backed_up(n0: Seq<Node>, n1: Seq<Node>, root: Player, path: Seq<usize>, outcome: int) -> bool {
    &&& rising_path(path, n1.len() as int)
    &&& n1.len() == n0.len() || (n1.len() == n0.len() + 1 && path[path.len() - 1] as int == n0.len())
    &&& forall|i: int| 0 <= i < n0.len() ==> {
        &&& (#[trigger] n1[i]).chosen_by == n0[i].chosen_by
        &&& n1[i].visits == n0[i].visits + if on_path(path, path.len() as int, i) { 1int } else { 0int }
        &&& n1[i].total_score == n0[i].total_score + if on_path(path, path.len() as int, i) {
            signed_outcome(n0[i].chosen_by, root, outcome)
        } else {
            0int
        }
    }
    &&& n1.len() > n0.len() ==> n1[n0.len() as int].visits == 1
        && n1[n0.len() as int].total_score == signed_outcome(n1[n0.len() as int].chosen_by, root, outcome)
}

/// Negamax back-up: after a simulation whose rollout scored `outcome` for
/// `root`, every node on the path gains one visit; one entered by a move of
/// `root` gains `outcome` in score, one entered by a move of the other
/// player gains `-outcome`, and the root (entered by no move) gains
/// `outcome`. A node off the path keeps its visits and score.
pub proof fn lemma_backup_sides(n0: Seq<Node>, n1: Seq<Node>, root: Player, path: Seq<usize>, outcome: int, i: int)
    requires
        backed_up(n0, n1, root, path, outcome),
        0 <= i < n1.len(),
    ensures
        ({
            let before_visits: int = if i < n0.len() { n0[i].visits as int } else { 0 };
            let before_score: int = if i < n0.len() { n0[i].total_score as int } else { 0 };
            let on = i >= n0.len() || on_path(path, path.len() as int, i);
            &&& on ==> n1[i].visits == before_visits + 1
            &&& !on ==> n1[i].visits == before_visits && n1[i].total_score == before_score
            &&& on && n1[i].chosen_by == Some(root) ==> n1[i].total_score == before_score + outcome
            &&& on && n1[i].chosen_by == Some(other(root)) ==> n1[i].total_score == before_score - outcome
            &&& on && n1[i].chosen_by is None ==> n1[i].total_score == before_score + outcome
        }),
{
    reveal(backed_up);
    if i < n0.len() {
        assert(n1[i].chosen_by == n0[i].chosen_by);
    } else {
        assert(i == n0.len());
    }
    match n1[i].chosen_by {
        Some(p) => {
            if p != root {
                assert(p == other(root)) by {
                    match root {
                        Player::P1 => {},
                        Player::P2 => {},
                    }
                    match p {
                        Player::P1 => {},
                        Player::P2 => {},
                    }
                }
            }
        },
        None => {},
    }
}

/// `outcome` scores for `root` a rollout that went from a position with
/// view `start` to the finished position `end`: the game is over there or
/// has no legal cell, every stone of `start` is still there, no more than
/// the draw cap of placements were made, and `outcome` is +1, 0 or -1 as
/// `root` won, drew or lost.
pub open spec fn rolled_out(start: GameView, end: GameState, root: Player, outcome: int) -> bool {
    &&& outcome == outcome_for(game_winner(end), root)
    &&& game_to_move(end) is None || game_legal(end) == Set::<Coord>::empty()
    &&& keeps_stones(start.stones, game_stones(end))
    &&& start.move_count <= game_move_count(end) <= game_max_moves(end)
}

/// A rollout is scored +1 when `root` won it, -1 when the other player
/// did, and 0 for a draw; so the scores of one rollout for the two players
/// add up to zero.
pub proof fn lemma_rollout_scores(start: GameView, end: GameState, root: Player, outcome: int, other_outcome: int)
    requires
        rolled_out(start, end, root, outcome),
        rolled_out(start, end, other(root), other_outcome),
    ensures
        game_winner(end) is None ==> outcome == 0,
        game_winner(end) == Some(root) ==> outcome == 1,
        game_winner(end) == Some(other(root)) ==> outcome == -1,
        outcome + other_outcome == 0,
{
    match root {
        Player::P1 => {},
        Player::P2 => {},
    }
    match game_winner(end) {
        Some(Player::P1) => {},
        Some(Player::P2) => {},
        None => {},
    }
}

/// One simulation took arena `n0` to `n1`: the selection walked from the
/// root as `selected_path` says; if the node it stopped at was not over and
/// had an untried move, a child for one of its untried moves was added at
/// the end of the arena and of `path`; and the rollout score `outcome` was
/// backed up along `path`.
#[verifier::opaque]
pub open spec fn simulated<F: Fn(u32, u32, i64) -> u32>(
    n0: Seq<Node>,
    n1: Seq<Node>,
    score: F,
    root: Player,
    path: Seq<usize>,
    outcome: int,
) -> bool {
    let grew = n1.len() > n0.len();
    let sel = if grew { path.drop_last() } else { path };
    let leaf = sel[sel.len() - 1] as int;
    &&& selected_path(n0, score, sel)
    &&& grew <==> (!n0[leaf].terminal && n0[leaf].untried@.len() > 0)
    &&& grew ==> n1[leaf].children@.drop_last() == n0[leaf].children@
        && n1[leaf].children@.last().1 == n0.len()
        && n0[leaf].untried@.contains(n1[leaf].children@.last().0)
    &&& backed_up(n0, n1, root, path, outcome)
}

/// The move in node `a`'s children list that leads to node `b`.
pub open spec fn move_to(nodes: Seq<Node>, a: int, b: int) -> Coord {
    nodes[a].children@[choose|j: int| 0 <= j < nodes[a].children@.len() && (#[trigger] nodes[a].children@[j]).1 == b].0
}

/// The view of the position reached from the view `v0` of the root by
/// playing the moves that lead along `path` from its first node to its
/// node `i`.
pub open spec fn view_along(nodes: Seq<Node>, path: Seq<usize>, v0: GameView, i: int) -> GameView
    decreases i,
{
    if i <= 0 {
        v0
    } else {
        view_after_move(view_along(nodes, path, v0, i - 1), move_to(nodes, path[i - 1] as int, path[i] as int))
    }
}

/// Each node of `path` after the first is a child of the node before it.
#[verifier::opaque]
pub open spec fn linked(nodes: Seq<Node>, path: Seq<usize>) -> bool {
    forall|m: int| #![trigger path[m]] 0 <= m < path.len() - 1 ==> exists|j: int|
        0 <= j < nodes[path[m] as int].children@.len() && (#[trigger] nodes[path[m] as int].children@[j]).1 == path[m + 1]
}

/// Every node of `n0` keeps its children, in order, at the front of its
/// children list in `n1`.
#[verifier::opaque]
pub open spec fn children_grow(n0: Seq<Node>, n1: Seq<Node>) -> bool {
    &&& n1.len() >= n0.len()
    &&& forall|i: int| 0 <= i < n0.len() ==> (#[trigger] n1[i]).children@.len() >= n0[i].children@.len()
        && forall|j: int| 0 <= j < n0[i].children@.len() ==> #[trigger] n1[i].children@[j] == n0[i].children@[j]
}

/// A simulation's arenas: the selection only raised flags, the expansion
/// appended one child to `leaf` (or nothing happened), and the backing up
/// kept every children list; so every children list only grew.
proof fn lemma_children_grow(n0: Seq<Node>, n1: Seq<Node>, n2: Seq<Node>, fin: Seq<Node>, leaf: int, grew: bool)
    requires
        same_but_flags(n0, n1),
        0 <= leaf < n1.len(),
        grew ==> others_keep_children(n1, n2, leaf) && n2.len() == n1.len() + 1
            && n2[leaf].children@.len() == n1[leaf].children@.len() + 1
            && n2[leaf].children@.drop_last() == n1[leaf].children@,
        !grew ==> n2 == n1,
        fin.len() == n2.len(),
        forall|i: int| 0 <= i < n2.len() ==> (#[trigger] fin[i]).children@ == n2[i].children@,
    ensures
        children_grow(n0, fin),
{
    reveal(children_grow);
    reveal(others_keep_children);
    assert forall|i: int| 0 <= i < n0.len() implies (#[trigger] fin[i]).children@.len() >= n0[i].children@.len()
        && forall|j: int| 0 <= j < n0[i].children@.len() ==> #[trigger] fin[i].children@[j] == n0[i].children@[j] by {
        assert(n1[i].children@ == n0[i].children@);
        assert(fin[i].children@ == n2[i].children@);
        if grew && i == leaf {
            assert forall|j: int| 0 <= j < n0[i].children@.len() implies #[trigger] fin[i].children@[j] == n0[i].children@[j] by {
                assert(n2[leaf].children@.drop_last()[j] == n2[leaf].children@[j]);
            }
        } else if grew {
            assert(n2[i].children@ == n1[i].children@);
        }
    }
}

/// The walk of a simulation is linked in the final arena: its selected
/// part already was, children lists only grew, and an added node is the
/// last child of the node the selection stopped at.
proof fn lemma_path_linked<F: Fn(u32, u32, i64) -> u32>(
    n0: Seq<Node>,
    fin: Seq<Node>,
    score: F,
    sel: Seq<usize>,
    path: Seq<usize>,
)
    requires
        selected_path(n0, score, sel),
        children_grow(n0, fin),
        forall|k: int| 0 <= k < sel.len() ==> #[trigger] sel[k] < n0.len(),
        path == sel || (path.drop_last() == sel && path.len() == sel.len() + 1
            && fin[sel[sel.len() - 1] as int].children@.len() > 0
            && fin[sel[sel.len() - 1] as int].children@.last().1 == path[path.len() - 1]),
    ensures
        linked(fin, path),
{
    reveal(linked);
    reveal(selected_path);
    reveal(children_grow);
    assert forall|m: int| #![trigger path[m]] 0 <= m < path.len() - 1 implies exists|j: int|
        0 <= j < fin[path[m] as int].children@.len() && (#[trigger] fin[path[m] as int].children@[j]).1 == path[m + 1] by {
        if m < sel.len() - 1 {
            assert(path[m] == sel[m] && path[m + 1] == sel[m + 1]);
            assert(sel[m] == sel[m]);
            assert(selects(n0, score, sel[m] as int, sel[m + 1] as int));
            reveal(selects);
            let (keys, j) = choose|keys: Seq<u32>, j: int| #[trigger] first_best(n0, sel[m] as int, score, keys, j)
                && n0[sel[m] as int].children@[j].1 == sel[m + 1];
            assert(fin[sel[m] as int].children@[j] == n0[sel[m] as int].children@[j]);
        } else {
            let a = sel[sel.len() - 1] as int;
            assert(path[m] as int == a);
            let j = fin[a].children@.len() - 1;
            assert(fin[a].children@[j] == fin[a].children@.last());
        }
    }
}

/// Along a linked path from the root, each node's view is the root's view
/// with the moves along the path played.
proof fn lemma_view_along(nodes: Seq<Node>, views: Seq<GameView>, parent: Seq<int>, path: Seq<usize>, i: int)
    requires
        views_wf(nodes, views),
        parents_wf(nodes, parent),
        linked(nodes, path),
        rising_path(path, nodes.len() as int),
        0 <= i < path.len(),
    ensures
        views[path[i] as int] == view_along(nodes, path, views[0], i),
    decreases i,
{
    if i > 0 {
        lemma_view_along(nodes, views, parent, path, i - 1);
        reveal(linked);
        let a = path[i - 1] as int;
        let b = path[i] as int;
        assert(path[(i - 1) + 1] == path[i]);
        let j = choose|j: int| 0 <= j < nodes[a].children@.len() && (#[trigger] nodes[a].children@[j]).1 == path[(i - 1) + 1];
        let k = choose|k: int| 0 <= k < nodes[a].children@.len() && (#[trigger] nodes[a].children@[k]).1 == b;
        if j != k {
            if j < k {
                assert(nodes[a].children@[j].1 != nodes[a].children@[k].1);
            } else {
                assert(nodes[a].children@[k].1 != nodes[a].children@[j].1);
            }
        }
        assert(move_to(nodes, a, b) == nodes[a].children@[j].0);
    } else {
        assert(path[0] == 0);
    }
}

/// One simulation: select a path, expand its end, roll out, back up.
/// Returns the views and parents of the grown arena, the path that was
/// backed up, the rollout's score and the position the rollout ended in.
#[verifier::spinoff_prover]
#[verifier::rlimit(100)]
fn one_simulation<F: Fn(u32, u32, i64) -> u32>(
    nodes: &mut Vec<Node>,
    state: &GameState,
    root_player: Player,
    rng: &mut rand_chacha::ChaCha8Rng,
    score: &F,
    Ghost(done): Ghost<int>,
    Ghost(views): Ghost<Seq<GameView>>,
    Ghost(parent): Ghost<Seq<int>>,
) -> (grown: Ghost<(Seq<GameView>, Seq<int>, Seq<usize>, int, GameState)>)
    requires
        0 <= done < u32::MAX,
        tree_inv(old(nodes)@, done, views, parent, *state),
        forall|a: u32, b: u32, c: i64| score.requires((a, b, c)),
    ensures
        tree_inv(final(nodes)@, done + 1, grown@.0, grown@.1, *state),
        backed_up(old(nodes)@, final(nodes)@, root_player, grown@.2, grown@.3),
        simulated(old(nodes)@, final(nodes)@, *score, root_player, grown@.2, grown@.3),
        rolled_out(grown@.0[grown@.2[grown@.2.len() - 1] as int], grown@.4, root_player, grown@.3),
        rolled_out(view_along(final(nodes)@, grown@.2, view_of(*state), grown@.2.len() - 1), grown@.4, root_player, grown@.3),
{
    let ghost legal = game_legal(*state);
    let ghost to_move = game_to_move(*state);
    let ghost mut views = views;
    let ghost mut parent = parent;
    // Select.
    let mut sim_state = clone_state(state);
    let ghost n0 = nodes@;
    let mut path = select_path(nodes, &mut sim_state, score, Ghost(done), Ghost(views), Ghost(parent));
    let ghost sel_path = path@;
    proof {
        let ch = nodes@[0].children@;
        assert(ch == n0[0].children@);
        assert forall|j: int| 0 <= j < ch.len() implies nodes@[(#[trigger] ch[j]).1 as int].visits
            == n0[ch[j].1 as int].visits by {
            assert(ch[j] == n0[0].children@[j]);
        }
        assert forall|a: int, b: int| 0 <= a < b < ch.len() implies (#[trigger] ch[a]).1 != (#[trigger] ch[b]).1 by {
            assert(ch[a] == nodes@[0].children@[a] && ch[b] == nodes@[0].children@[b]);
        }
        lemma_child_visit_sum_same(n0, nodes@, ch);
    }
    // Expand.
    let leaf = path[path.len() - 1];
    let settled = nodes.len();
    let ghost n1 = nodes@;
    let ghost mut root_expanded = false;
    if !nodes[leaf].terminal && nodes[leaf].untried.len() != 0 {
        let ghost prev_path = path@;
        let child = expand(nodes, leaf, &mut sim_state, rng, Ghost(done), Ghost(legal), Ghost(to_move), Ghost(views), Ghost(parent));
        proof {
            views = views.push(view_of(sim_state));
            parent = parent.push(leaf as int);
            root_expanded = leaf == 0;
        }
        path.push(child);
        proof {
            assert forall|k: int| 0 <= k < path@.len() - 1 implies parent[(#[trigger] path@[k + 1]) as int] == path@[k] as int by {
                if k < path@.len() - 2 {
                    assert(path@[k + 1] == prev_path[k + 1] && path@[k] == prev_path[k]);
                } else {
                    assert(path@[k] == prev_path[prev_path.len() - 1]);
                }
            }
            let ch = n1[0].children@;
            assert forall|j: int| 0 <= j < ch.len() implies nodes@[(#[trigger] ch[j]).1 as int].visits
                == n1[ch[j].1 as int].visits by {
                assert(ch[j].1 < n1.len());
            }
            assert forall|a: int, b: int| 0 <= a < b < ch.len() implies (#[trigger] ch[a]).1 != (#[trigger] ch[b]).1 by {
                assert(ch[a] == n1[0].children@[a] && ch[b] == n1[0].children@[b]);
            }
            lemma_child_visit_sum_same(n1, nodes@, ch);
            if leaf == 0 {
                let nch = nodes@[0].children@;
                assert(nch.drop_last() == ch);
                assert(nch.last().1 == child);
                assert(path@[1] == child);
                assert(nch[nch.len() - 1].1 == child);
            }
            assert(child_visit_sum(nodes@, nodes@[0].children@) == child_visit_sum(n1, n1[0].children@));
            if sel_path.len() >= 2 {
                assert(path@[1] == sel_path[1]);
            }
        }
    }
    let ghost n2 = nodes@;
    // Simulate.
    let ghost pre_sim = sim_state;
    let outcome = simulate(&mut sim_state, rng, root_player);
    // Back up.
    let ghost before = nodes@;
    backprop(nodes, &path, outcome, root_player, Ghost(views), Ghost(parent));
    proof {
        let ch = before[0].children@;
        let t: int = if path@.len() >= 2 { path@[1] as int } else { -1int };
        assert forall|j: int| 0 <= j < ch.len() implies nodes@[(#[trigger] ch[j]).1 as int].visits
            == before[ch[j].1 as int].visits + if ch[j].1 as int == t { 1int } else { 0int } by {
            let c = ch[j].1 as int;
            assert(ch[j] == before[0].children@[j]);
            lemma_root_child_on_path(parent, path@, before.len() as int, c);
        }
        assert forall|a: int, b: int| 0 <= a < b < ch.len() implies (#[trigger] ch[a]).1 != (#[trigger] ch[b]).1 by {
            assert(ch[a] == before[0].children@[a] && ch[b] == before[0].children@[b]);
        }
        lemma_child_visit_sum_shift(before, nodes@, ch, t);
        assert(on_path(path@, path@.len() as int, 0)) by {
            assert(path@[0] as int == 0);
        }
        if nodes@.len() > settled {
            assert(path@[path@.len() - 1] as int == settled as int);
            assert(on_path(path@, path@.len() as int, settled as int));
        }
        assert forall|i: int, j: int|
            0 <= i < nodes@.len() && 0 <= j < nodes@[i].children@.len()
                implies i < (#[trigger] nodes@[i].children@[j]).1 < nodes@.len() by {
            assert(nodes@[i].children@ == before[i].children@);
        }
        assert(nodes@[0].untried@ == before[0].untried@);
        assert(nodes@[0].children@ == before[0].children@);
        // The root's progress.
        if to_move is Some {
            let n = legal.len() as int;
            let u0 = n0[0].untried@.len() as int;
            let c0 = n0[0].children@.len() as int;
            assert(u0 + c0 == n);
            if root_expanded {
                assert(u0 > 0);
                assert(nodes@[0].untried@.len() == u0 - 1);
                assert(nodes@[0].children@.len() == c0 + 1);
            } else {
                assert(nodes@[0].untried@ == n0[0].untried@);
                assert(nodes@[0].children@ == n0[0].children@);
            }
            if n > 0 {
                assert(!n0[0].terminal);
                assert(u0 > 0 || c0 > 0);
                assert(nodes@[0].terminal == n0[0].terminal);
                if !root_expanded {
                    if u0 > 0 {
                        assert(sel_path.len() == 1);
                        assert(false);
                    }
                    assert(sel_path.len() >= 2);
                    let j = choose|j: int| 0 <= j < n0[0].children@.len() && (#[trigger] n0[0].children@[j]).1 == sel_path[1];
                    assert(path@[1] == sel_path[1]);
                    assert(ch[j].1 as int == t);
                } else {
                    assert(ch[ch.len() - 1].1 as int == t);
                }
                assert(child_visit_sum(nodes@, nodes@[0].children@) == nodes@[0].visits);
            }
            assert(root_progress(nodes@, done + 1, *state));
        }
        // What was backed up.
        assert(backed_up(n0, nodes@, root_player, path@, outcome as int)) by {
            reveal(backed_up);
            assert forall|i: int| 0 <= i < n0.len() implies {
                &&& (#[trigger] nodes@[i]).chosen_by == n0[i].chosen_by
                &&& nodes@[i].visits == n0[i].visits + if on_path(path@, path@.len() as int, i) { 1int } else { 0int }
                &&& nodes@[i].total_score == n0[i].total_score + if on_path(path@, path@.len() as int, i) {
                    signed_outcome(n0[i].chosen_by, root_player, outcome as int)
                } else {
                    0int
                }
            } by {
                assert(n1[i].chosen_by == n0[i].chosen_by && n1[i].visits == n0[i].visits
                    && n1[i].total_score == n0[i].total_score);
                assert(before[i].chosen_by == n1[i].chosen_by && before[i].visits == n1[i].visits
                    && before[i].total_score == n1[i].total_score);
            }
            if nodes@.len() > n0.len() {
                assert(before[n0.len() as int].visits == 0 && before[n0.len() as int].total_score == 0);
            }
        }
        assert(view_of(pre_sim) == views[path@[path@.len() - 1] as int]);
    }
    proof {
        let fin = nodes@;
        assert(simulated(n0, fin, *score, root_player, path@, outcome as int)) by {
            reveal(simulated);
            let grew = fin.len() > n0.len();
            assert(grew == (n2.len() > n1.len()));
            if grew {
                assert(path@.drop_last() == sel_path);
                assert(fin[leaf as int].children@ == n2[leaf as int].children@);
                assert(n1[leaf as int].children@ == n0[leaf as int].children@);
                assert(n1[leaf as int].untried@ == n0[leaf as int].untried@);
            } else {
                assert(path@ == sel_path);
            }
            assert(n1[leaf as int].untried@ == n0[leaf as int].untried@);
            assert(n1[leaf as int].terminal != n0[leaf as int].terminal ==> n0[leaf as int].untried@.len() == 0);
        }
    }
    proof {
        let fin = nodes@;
        let grew = n2.len() > n1.len();
        lemma_children_grow(n0, n1, n2, fin, leaf as int, grew);
        if grew {
            assert(fin[leaf as int].children@ == n2[leaf as int].children@);
            assert(path@.drop_last() == sel_path);
            assert(path@[path@.len() - 1] as int == n1.len());
            assert(sel_path[sel_path.len() - 1] == leaf);
        } else {
            assert(path@ == sel_path);
        }
        lemma_path_linked(n0, fin, *score, sel_path, path@);
        lemma_view_along(fin, views, parent, path@, path@.len() - 1);
    }
    Ghost((views, parent, path@, outcome as int, sim_state))
}

/// The arena of a fresh tree for `state`: the root alone, not visited yet,
/// with the engine's legal moves, in their sorted order, as untried moves
/// (none when the game is over).
pub open spec fn fresh_tree(nodes: Seq<Node>, state: GameState) -> bool {
    &&& nodes.len() == 1
    &&& nodes[0].player_to_move == game_to_move(state)
    &&& nodes[0].chosen_by is None
    &&& nodes[0].visits == 0
    &&& nodes[0].total_score == 0
    &&& nodes[0].children@.len() == 0
    &&& nodes[0].terminal == (game_to_move(state) is None)
    &&& nodes[0].terminal ==> nodes[0].untried@.len() == 0
    &&& !nodes[0].terminal ==> nodes[0].untried@.to_set() == game_legal(state)
    &&& forall|i: int, j: int| 0 <= i < j < nodes[0].untried@.len()
        ==> coord_lt(#[trigger] nodes[0].untried@[i], #[trigger] nodes[0].untried@[j])
}

/// The arenas `hist[0]`, ..., `hist[n]` of a tree grown from `state` by `n`
/// simulations: a fresh tree, then for each simulation `k` the step
/// `simulated` along `paths[k]`, backing up `outcomes[k]`, the score for
/// `root` of the rollout that went from the position at the end of
/// `paths[k]` (the root's position with the moves along the path played)
/// to the finished position `ends[k]`.
pub open spec fn tree_history<F: Fn(u32, u32, i64) -> u32>(
    state: GameState,
    score: F,
    root: Player,
    hist: Seq<Seq<Node>>,
    paths: Seq<Seq<usize>>,
    outcomes: Seq<int>,
    ends: Seq<GameState>,
    n: int,
) -> bool {
    &&& hist.len() == n + 1
    &&& paths.len() == n
    &&& outcomes.len() == n
    &&& ends.len() == n
    &&& fresh_tree(hist[0], state)
    &&& forall|k: int| 0 <= k < n ==> {
        &&& #[trigger] simulated(hist[k], hist[k + 1], score, root, paths[k], outcomes[k])
        &&& rolled_out(view_along(hist[k + 1], paths[k], view_of(state), paths[k].len() - 1), ends[k], root, outcomes[k])
    }
}

/// `reads` are the values the cancel flag was read as by a tree given a
/// budget of `budget` simulations that ran `n` of them: it was read before
/// each simulation and found down each time, and if fewer than `budget` ran
/// it was read once more and found raised.
pub open spec fn cancel_reads(reads: Seq<bool>, budget: u32, n: u32) -> bool {
    &&& reads.len() == if n < budget { n + 1 } else { n as int }
    &&& forall|k: int| 0 <= k < n ==> !#[trigger] reads[k]
    &&& n < budget ==> reads[n as int]
}

/// `r` (with `n` simulations run) is what a tree given a budget of `budget`
/// simulations and grown from `state` under the selection rule `score`,
/// scoring rollouts for `root`, reports of its root: the root's children of
/// the last arena of some `tree_history`; it ran its whole budget unless the
/// cancel flag was found raised.
pub open spec fn grown_tree<F: Fn(u32, u32, i64) -> u32>(
    state: GameState,
    score: F,
    root: Player,
    budget: u32,
    n: u32,
    r: Seq<(Coord, u32)>,
) -> bool {
    &&& n <= budget
    &&& exists|hist: Seq<Seq<Node>>, paths: Seq<Seq<usize>>, outcomes: Seq<int>, ends: Seq<GameState>|
        #[trigger] tree_history(state, score, root, hist, paths, outcomes, ends, n as int)
            && listed_root(hist[n as int], r)
    &&& exists|reads: Seq<bool>| #[trigger] cancel_reads(reads, budget, n)
}

/// A tree that ran fewer simulations than its budget found the cancel flag
/// raised, after finding it down before each simulation it ran; a tree that
/// never found it raised ran its whole budget.
pub proof fn lemma_short_tree_was_cancelled<F: Fn(u32, u32, i64) -> u32>(
    state: GameState,
    score: F,
    root: Player,
    budget: u32,
    n: u32,
    r: Seq<(Coord, u32)>,
)
    requires
        grown_tree(state, score, root, budget, n, r),
    ensures
        n < budget ==> exists|reads: Seq<bool>| reads.len() == n + 1 && #[trigger] reads[n as int]
            && forall|k: int| 0 <= k < n ==> !#[trigger] reads[k],
        (forall|reads: Seq<bool>| #[trigger] cancel_reads(reads, budget, n) ==> forall|k: int| 0 <= k < reads.len() ==> !reads[k])
            ==> n == budget,
{
    let reads = choose|reads: Seq<bool>| #[trigger] cancel_reads(reads, budget, n);
    if n < budget {
        assert(reads.len() == n + 1 && reads[n as int]);
    }
}

/// `r` lists the root's children of `nodes`, in order, each move with the
/// visits of the node it leads to.
pub open spec fn listed_root(nodes: Seq<Node>, r: Seq<(Coord, u32)>) -> bool {
    &&& r.len() == nodes[0].children@.len()
    &&& forall|i: int| 0 <= i < r.len() ==> #[trigger] r[i] == (
        nodes[0].children@[i].0,
        nodes[nodes[0].children@[i].1 as int].visits,
    )
}

/// What a tree grown by `n` simulations from `state` reports of its root:
/// each root move with its visits, as `root_visits_ok` says for a budget
/// of `n`. While a player is to move, one root move is expanded per
/// simulation until all legal moves are (so the list is as long as the
/// smaller of `n` and the number of legal moves, and each listed move has
/// exactly one visit while `n` is not above that number); when there is a
/// legal move, each simulation passes through exactly one root move, so the
/// visits sum to `n`.
pub open spec fn tree_result(state: GameState, n: u32, r: Seq<(Coord, u32)>) -> bool {
    let legal_count = game_legal(state).len() as int;
    &&& root_visits_ok(state, n, r)
    &&& game_to_move(state) is Some ==> r.len() == if n <= legal_count { n as int } else { legal_count }
    &&& game_to_move(state) is Some && legal_count > 0 ==> listed_visit_sum(r) == n
    &&& game_to_move(state) is Some && n <= legal_count ==> forall|i: int| 0 <= i < r.len() ==> (#[trigger] r[i]).1 == 1
}

/// In a list whose visits are each at least one, the visits sum to at least
/// the list's length plus the excess of any one entry.
proof fn lemma_visit_sum_at_least(r: Seq<(Coord, u32)>, k: int)
    requires
        0 <= k < r.len(),
        forall|i: int| 0 <= i < r.len() ==> (#[trigger] r[i]).1 >= 1,
    ensures
        listed_visit_sum(r) >= r.len() + r[k].1 - 1,
    decreases r.len(),
{
    let d = r.drop_last();
    assert forall|i: int| 0 <= i < d.len() implies (#[trigger] d[i]).1 >= 1 by {
        assert(d[i] == r[i]);
    }
    assert(r.last() == r[r.len() - 1] && r[r.len() - 1].1 >= 1);
    assert(listed_visit_sum(r) == listed_visit_sum(d) + r.last().1);
    if k < r.len() - 1 {
        assert(d[k] == r[k]);
        lemma_visit_sum_at_least(d, k);
    } else if d.len() > 0 {
        assert(d[0] == r[0]);
        lemma_visit_sum_at_least(d, 0);
    }
}

/// Runs a single search tree for up to `iterations` simulations (fewer if
/// `cancel` is raised) and returns the visit count of each root child move,
/// so that several trees can be merged, together with the number of
/// simulations run.
///
/// Children are selected by the highest `score(parent visits, child visits,
/// child score total)`, the first one on a tie. The generator is seeded
/// with `seed`, or from the operating system when there is none.
pub fn run_one_tree<F: Fn(u32, u32, i64) -> u32>(
    state: &GameState,
    root_player: Player,
    iterations: u32,
    seed: Option<u64>,
    cancel: &AtomicBool,
    score: &F,
) -> (r: (Vec<(Coord, u32)>, u32))
    requires
        forall|a: u32, b: u32, c: i64| score.requires((a, b, c)),
    ensures
        r.1 <= iterations,
        tree_result(*state, r.1, r.0@),
        grown_tree(*state, *score, root_player, iterations, r.1, r.0@),
        root_visits_ok(*state, iterations, r.0@),
{
    let mut rng = match seed {
        Some(s) => seeded_rng(s),
        None => os_seeded_rng(),
    };
    let cap: usize = if iterations >= 0x4_0000u32 { 0x4_0000usize } else { iterations as usize };
    let mut nodes: Vec<Node> = Vec::with_capacity(cap);
    nodes.push(new_node(state, None));
    let ghost legal = game_legal(*state);
    let ghost to_move = game_to_move(*state);
    let ghost mut views: Seq<GameView> = seq![view_of(*state)];
    let ghost mut parent: Seq<int> = seq![-1int];
    let ghost mut hist: Seq<Seq<Node>> = seq![nodes@];
    let ghost mut paths: Seq<Seq<usize>> = Seq::empty();
    let ghost mut outcomes: Seq<int> = Seq::empty();
    let ghost mut ends: Seq<GameState> = Seq::empty();
    let ghost mut reads: Seq<bool> = Seq::empty();
    proof {
        assert(fresh_tree(hist[0], *state));
        let root = nodes@[0];
        if root.untried@.len() > 0 {
            assert(root.untried@.contains(root.untried@[0]));
        }
        assert forall|x: Coord| #[trigger] root.untried@.contains(x) implies legal.contains(x) by {
            assert(root.untried@.to_set().contains(x));
        }
    }
    let mut done: u32 = 0;
    while done < iterations
        invariant_except_break
            reads.len() == done,
        invariant
            tree_inv(nodes@, done as int, views, parent, *state),
            legal == game_legal(*state),
            to_move == game_to_move(*state),
            done <= iterations,
            forall|a: u32, b: u32, c: i64| score.requires((a, b, c)),
            tree_history(*state, *score, root_player, hist, paths, outcomes, ends, done as int),
            hist[done as int] == nodes@,
            forall|k: int| 0 <= k < done ==> !#[trigger] reads[k],
            reads.len() >= done,
        ensures
            done < iterations ==> reads.len() == done + 1 && reads[done as int],
            done == iterations ==> reads.len() == done,
        decreases iterations - done,
    {
        let stop = cancel_requested(cancel);
        proof {
            reads = reads.push(stop);
        }
        if stop {
            break;
        }
        let ghost prev = nodes@;
        let grown = one_simulation(&mut nodes, state, root_player, &mut rng, score, Ghost(done as int), Ghost(views), Ghost(parent));
        proof {
            views = grown@.0;
            parent = grown@.1;
            let old_hist = hist;
            let old_paths = paths;
            let old_outcomes = outcomes;
            let old_ends = ends;
            hist = hist.push(nodes@);
            paths = paths.push(grown@.2);
            outcomes = outcomes.push(grown@.3);
            ends = ends.push(grown@.4);
            assert(hist[0] == old_hist[0]);
            assert forall|k: int| 0 <= k < done + 1 implies {
                &&& #[trigger] simulated(hist[k], hist[k + 1], *score, root_player, paths[k], outcomes[k])
                &&& rolled_out(view_along(hist[k + 1], paths[k], view_of(*state), paths[k].len() - 1), ends[k], root_player, outcomes[k])
            } by {
                if k < done {
                    assert(hist[k] == old_hist[k] && hist[k + 1] == old_hist[k + 1]);
                    assert(paths[k] == old_paths[k] && outcomes[k] == old_outcomes[k] && ends[k] == old_ends[k]);
                    assert(simulated(old_hist[k], old_hist[k + 1], *score, root_player, old_paths[k], old_outcomes[k]));
                } else {
                    assert(hist[k] == prev && hist[k + 1] == nodes@);
                }
            }
        }
        done = done + 1;
    }
    let root_children = &nodes[0].children;
    let mut r: Vec<(Coord, u32)> = Vec::new();
    let mut j: usize = 0;
    while j < root_children.len()
        invariant
            root_children == &nodes@[0].children,
            tree_inv(nodes@, done as int, views, parent, *state),
            legal == game_legal(*state),
            to_move == game_to_move(*state),
            done <= iterations,
            j <= root_children@.len(),
            r@.len() == j,
            listed_visit_sum(r@) == child_visit_sum(nodes@, root_children@.take(j as int)),
            forall|k: int| 0 <= k < j ==> (#[trigger] r@[k]).0 == root_children@[k].0
                && r@[k].1 == nodes@[root_children@[k].1 as int].visits,
        decreases root_children@.len() - j,
    {
        let (mv, idx) = root_children[j];
        assert(0 < idx < nodes@.len()) by {
            assert(root_children@[j as int].1 == idx);
        }
        let ghost prev = r@;
        r.push((mv, nodes[idx].visits));
        assert(r@.drop_last() == prev);
        assert(root_children@.take(j as int + 1).drop_last() == root_children@.take(j as int));
        j = j + 1;
    }
    assert(root_children@.take(j as int) == root_children@);
    proof {
        assert(listed_root(hist[done as int], r@));
        assert(cancel_reads(reads, iterations, done));
        assert(tree_history(*state, *score, root_player, hist, paths, outcomes, ends, done as int));
        assert forall|a: int, b: int| 0 <= a < b < r@.len() implies (#[trigger] r@[a]).0 != (#[trigger] r@[b]).0 by {
            assert(root_children@[a].0 != root_children@[b].0);
        }
        assert forall|k: int| 0 <= k < r@.len() implies 1 <= (#[trigger] r@[k]).1 <= iterations by {
            assert(0 < root_children@[k].1 < nodes@.len());
        }
        assert forall|k: int| 0 <= k < r@.len() implies legal.contains((#[trigger] r@[k]).0) by {
            assert(legal.contains(root_children@[k].0));
        }
        if to_move is Some && done <= legal.len() {
            assert forall|i: int| 0 <= i < r@.len() implies (#[trigger] r@[i]).1 == 1 by {
                lemma_visit_sum_at_least(r@, i);
            }
        }
    }
    (r, done)
}

} // verus!
