//! The biased random rollout that finishes a game from a search leaf.
use hexo_engine::GameState;
use rand_chacha::ChaCha8Rng;
use vstd::prelude::*;
use crate::board::{Coord, lemma_stones_map_distinct};
use crate::engine::{
    GameView, playable, view_after_move, view_of, apply_move, current_player, game_legal, game_max_moves, game_move_count, game_stones, game_to_move,
    game_radius, game_win_length, game_winner, is_terminal, legal_cells, legal_contains, legal_is_empty, placed_stones, winner,
};
use crate::player::Player;
use crate::rng::{choose_coord, random_u32};

verus! {

/// The neighbour of `c` in direction `d` of the six hex directions
/// `(1,0)`, `(-1,0)`, `(0,1)`, `(0,-1)`, `(1,-1)`, `(-1,1)`.
pub open spec fn hex_neighbor(c: Coord, d: int) -> (int, int) {
    if d == 0 {
        (c.0 + 1, c.1 as int)
    } else if d == 1 {
        (c.0 - 1, c.1 as int)
    } else if d == 2 {
        (c.0 as int, c.1 + 1)
    } else if d == 3 {
        (c.0 as int, c.1 - 1)
    } else if d == 4 {
        (c.0 + 1, c.1 - 1)
    } else {
        (c.0 - 1, c.1 + 1)
    }
}

/// The neighbour of `c` in direction `d` as a coordinate, if it lies in the
/// range of `i32`.
pub open spec fn neighbor_cell(c: Coord, d: int) -> Option<Coord> {
    let h = hex_neighbor(c, d);
    if i32::MIN <= h.0 <= i32::MAX && i32::MIN <= h.1 <= i32::MAX {
        Some((h.0 as i32, h.1 as i32))
    } else {
        None
    }
}

/// The legal neighbours of `c` among the first `k` of the six directions, in
/// direction order.
pub open spec fn dir_candidates(c: Coord, legal: Set<Coord>, k: int) -> Seq<Coord>
    decreases k,
{
    if k <= 0 {
        Seq::empty()
    } else {
        dir_candidates(c, legal, k - 1) + if neighbor_cell(c, k - 1) is Some && legal.contains(neighbor_cell(c, k - 1)->0) {
            seq![neighbor_cell(c, k - 1)->0]
        } else {
            Seq::<Coord>::empty()
        }
    }
}

/// The line-extending candidates of `active` read off a list of stones: for
/// each of `active`'s stones in list order, its legal neighbours in
/// direction order.
pub open spec fn candidates_of(stones: Seq<(Coord, Player)>, legal: Set<Coord>, active: Player) -> Seq<Coord>
    decreases stones.len(),
{
    if stones.len() == 0 {
        Seq::empty()
    } else {
        candidates_of(stones.drop_last(), legal, active) + if stones.last().1 == active {
            dir_candidates(stones.last().0, legal, 6)
        } else {
            Seq::<Coord>::empty()
        }
    }
}

/// `n` is a legal cell next to one of `active`'s stones: a move that
/// extends one of `active`'s lines.
pub open spec fn line_candidate(stones: Map<Coord, Player>, legal: Set<Coord>, active: Player, n: Coord) -> bool {
    &&& legal.contains(n)
    &&& exists|s: Coord, d: int|
        0 <= d < 6 && #[trigger] stones.contains_key(s) && stones[s] == active
            && #[trigger] hex_neighbor(s, d) == (n.0 as int, n.1 as int)
}

/// Every stone of board `a` stands on board `b` with the same owner.
pub open spec fn keeps_stones(a: Map<Coord, Player>, b: Map<Coord, Player>) -> bool {
    forall|k: Coord| #[trigger] a.contains_key(k) ==> b.contains_key(k) && b[k] == a[k]
}

/// The score of a finished rollout for `root`: +1 for a win, -1 for a
/// loss, 0 for a draw.
pub open spec fn outcome_for(winner: Option<Player>, root: Player) -> i64 {
    match winner {
        Some(p) => if p == root { 1i64 } else { -1i64 },
        None => 0i64,
    }
}

/// The line bias of the rollout: a uniform draw in `[0, 1)` taken from the
/// top 24 bits of a 32-bit draw is below 0.8 (as the nearest `f32`, which is
/// 13421773 / 2^24).
pub open spec fn extends_line(draw: u32) -> bool {
    (draw >> 8u32) < 13421773
}

/// Decides from a 32-bit draw whether this rollout move extends a line.
pub fn line_bias_hit(draw: u32) -> (b: bool)
    ensures
        b == extends_line(draw),
{
    (draw >> 8u32) < 13421773
}

/// The neighbour of `c` in direction `d`, or `None` outside the `i32` range.
fn neighbor(c: Coord, d: usize) -> (r: Option<Coord>)
    requires
        d < 6,
    ensures
        r == neighbor_cell(c, d as int),
{
    let (dq, dr): (i32, i32) = if d == 0 {
        (1, 0)
    } else if d == 1 {
        (-1, 0)
    } else if d == 2 {
        (0, 1)
    } else if d == 3 {
        (0, -1)
    } else if d == 4 {
        (1, -1)
    } else {
        (-1, 1)
    };
    match (c.0.checked_add(dq), c.1.checked_add(dr)) {
        (Some(q), Some(r)) => Some((q, r)),
        _ => None,
    }
}

/// The legal cells axis-adjacent to `active`'s stones, once per adjacent
/// stone (a cell next to two of them is listed twice).
pub fn line_candidates(state: &GameState, active: Player) -> (v: Vec<Coord>)
    ensures
        forall|i: int| 0 <= i < v@.len()
            ==> line_candidate(game_stones(*state), game_legal(*state), active, #[trigger] v@[i])
                && !game_stones(*state).contains_key(v@[i]),
        forall|n: Coord| line_candidate(game_stones(*state), game_legal(*state), active, n)
            ==> #[trigger] v@.contains(n),
        exists|stones: Seq<(Coord, Player)>|
            crate::board::stones_map(stones) == game_stones(*state)
                && v@ == #[trigger] candidates_of(stones, game_legal(*state), active),
{
    let placed = placed_stones(state);
    proof {
        lemma_stones_map_distinct(placed@);
    }
    let ghost stones = game_stones(*state);
    let ghost legal = game_legal(*state);
    let mut v: Vec<Coord> = Vec::new();
    let mut i: usize = 0;
    while i < placed.len()
        invariant
            i <= placed.len(),
            stones == game_stones(*state),
            legal == game_legal(*state),
            forall|j: int| 0 <= j < v@.len() ==> line_candidate(stones, legal, active, #[trigger] v@[j]) && !stones.contains_key(v@[j]),
            forall|k: int| 0 <= k < placed@.len() ==> stones.contains_key((#[trigger] placed@[k]).0) && stones[placed@[k].0] == placed@[k].1,
            v@ == candidates_of(placed@.take(i as int), legal, active),
            forall|k: int, d: int|
                0 <= k < i && 0 <= d < 6 && placed@[k].1 == active
                    && (#[trigger] neighbor_cell(placed@[k].0, d)) is Some && legal.contains(neighbor_cell(placed@[k].0, d)->0)
                    ==> v@.contains(neighbor_cell(placed@[k].0, d)->0),
        decreases placed.len() - i,
    {
        let (c, p) = placed[i];
        if p == active {
            let mut d: usize = 0;
            while d < 6
                invariant
                    i < placed.len(),
                    placed@[i as int] == (c, p),
                    p == active,
                    d <= 6,
                    stones == game_stones(*state),
                    legal == game_legal(*state),
                    forall|j: int| 0 <= j < v@.len() ==> line_candidate(stones, legal, active, #[trigger] v@[j]) && !stones.contains_key(v@[j]),
                    forall|k: int| 0 <= k < placed@.len() ==> stones.contains_key((#[trigger] placed@[k]).0) && stones[placed@[k].0] == placed@[k].1,
                    v@ == candidates_of(placed@.take(i as int), legal, active) + dir_candidates(c, legal, d as int),
                    forall|k: int, e: int|
                        0 <= k < i && 0 <= e < 6 && placed@[k].1 == active
                            && (#[trigger] neighbor_cell(placed@[k].0, e)) is Some && legal.contains(neighbor_cell(placed@[k].0, e)->0)
                            ==> v@.contains(neighbor_cell(placed@[k].0, e)->0),
                    forall|e: int|
                        0 <= e < d && (#[trigger] neighbor_cell(c, e)) is Some && legal.contains(neighbor_cell(c, e)->0)
                            ==> v@.contains(neighbor_cell(c, e)->0),
                decreases 6 - d,
            {
                match neighbor(c, d) {
                    Some(n) => {
                        if legal_contains(state, n) {
                            assert(stones.contains_key(placed@[i as int].0));
                            assert(hex_neighbor(placed@[i as int].0, d as int) == (n.0 as int, n.1 as int));
                            assert(line_candidate(stones, legal, active, n));
                            let ghost before = v@;
                            v.push(n);
                            assert(v@ == before.push(n));
                            assert(v@[v@.len() - 1] == n);
                            assert forall|x: Coord| before.contains(x) implies #[trigger] v@.contains(x) by {
                                let j = before.index_of(x);
                                assert(v@[j] == x);
                            }
                        }
                    },
                    None => {},
                }
                proof {
                    assert(neighbor_cell(c, d as int) == neighbor_cell(c, (d as int + 1) - 1));
                    assert(dir_candidates(c, legal, d as int + 1) == dir_candidates(c, legal, d as int)
                        + if neighbor_cell(c, d as int) is Some && legal.contains(neighbor_cell(c, d as int)->0) {
                            seq![neighbor_cell(c, d as int)->0]
                        } else {
                            Seq::<Coord>::empty()
                        });
                    if !(neighbor_cell(c, d as int) is Some && legal.contains(neighbor_cell(c, d as int)->0)) {
                        assert(dir_candidates(c, legal, d as int) + Seq::<Coord>::empty() == dir_candidates(c, legal, d as int));
                    }
                }
                d = d + 1;
            }
        }
        proof {
            assert(placed@.take(i as int + 1).drop_last() == placed@.take(i as int));
            assert(placed@.take(i as int + 1).last() == (c, p));
            assert(candidates_of(placed@.take(i as int + 1), legal, active) == candidates_of(placed@.take(i as int), legal, active)
                + if p == active { dir_candidates(c, legal, 6) } else { Seq::<Coord>::empty() });
            if p != active {
                assert(candidates_of(placed@.take(i as int), legal, active) + Seq::<Coord>::empty()
                    == candidates_of(placed@.take(i as int), legal, active));
            } else {
                assert(v@ == candidates_of(placed@.take(i as int), legal, active) + dir_candidates(c, legal, 6));
            }
            assert(v@ == candidates_of(placed@.take(i as int + 1), legal, active));
        }
        i = i + 1;
    }
    assert(placed@.take(i as int) == placed@);
    proof {
        assert forall|n: Coord| line_candidate(stones, legal, active, n) implies #[trigger] v@.contains(n) by {
            let (s, d) = choose|s: Coord, d: int|
                0 <= d < 6 && #[trigger] stones.contains_key(s) && stones[s] == active
                    && #[trigger] hex_neighbor(s, d) == (n.0 as int, n.1 as int);
            let k = choose|k: int| 0 <= k < placed@.len() && (#[trigger] placed@[k]).0 == s;
            assert(placed@[k].1 == active);
            assert(neighbor_cell(placed@[k].0, d) == Some(n));
        }
    }
    v
}

/// The cells a rollout move for `active` is drawn from, given the bias
/// draw `draw`: the legal cells next to `active`'s stones when the draw
/// falls below 0.8 and there are some, otherwise every legal cell.
pub open spec fn pool_cells(stones: Map<Coord, Player>, legal: Set<Coord>, active: Player, draw: u32) -> Set<Coord> {
    if extends_line(draw) && exists|n: Coord| line_candidate(stones, legal, active, n) {
        Set::new(|n: Coord| line_candidate(stones, legal, active, n))
    } else {
        legal
    }
}

/// The rollout's bias: a draw that does not fall below 0.8 draws the move
/// from every legal cell; one that does draws it from exactly the cells
/// that extend the mover's lines, when there are any, and from every legal
/// cell otherwise. Either way the cells are legal, and there is one to draw
/// whenever a cell is legal.
pub proof fn lemma_rollout_bias(stones: Map<Coord, Player>, legal: Set<Coord>, active: Player, draw: u32)
    ensures
        !extends_line(draw) ==> pool_cells(stones, legal, active, draw) == legal,
        extends_line(draw) && (exists|n: Coord| line_candidate(stones, legal, active, n))
            ==> forall|c: Coord| #[trigger] pool_cells(stones, legal, active, draw).contains(c)
                <==> line_candidate(stones, legal, active, c),
        extends_line(draw) && !(exists|n: Coord| line_candidate(stones, legal, active, n))
            ==> pool_cells(stones, legal, active, draw) == legal,
        forall|c: Coord| #[trigger] pool_cells(stones, legal, active, draw).contains(c) ==> legal.contains(c),
        (exists|c: Coord| legal.contains(c)) ==> exists|c: Coord| #[trigger] pool_cells(stones, legal, active, draw).contains(c),
{
    if extends_line(draw) && exists|n: Coord| line_candidate(stones, legal, active, n) {
        let n = choose|n: Coord| line_candidate(stones, legal, active, n);
        assert(pool_cells(stones, legal, active, draw).contains(n));
    } else if exists|c: Coord| legal.contains(c) {
        let c = choose|c: Coord| legal.contains(c);
        assert(pool_cells(stones, legal, active, draw).contains(c));
    }
}

/// The list a rollout move for `active` is drawn from, given the bias draw
/// `draw`: when the draw falls below 0.8 and some legal cell lies next to
/// `active`'s stones, the `line_candidates` list (a cell once per adjacent
/// stone); otherwise every legal cell once, in the engine's set order.
pub fn rollout_pool(state: &GameState, active: Player, draw: u32) -> (pool: Vec<Coord>)
    ensures
        pool@.to_set() == pool_cells(game_stones(*state), game_legal(*state), active, draw),
        forall|i: int| 0 <= i < pool@.len() ==> !game_stones(*state).contains_key(#[trigger] pool@[i]),
        extends_line(draw) && (exists|n: Coord| line_candidate(game_stones(*state), game_legal(*state), active, n))
            ==> exists|stones: Seq<(Coord, Player)>|
                crate::board::stones_map(stones) == game_stones(*state)
                    && pool@ == #[trigger] candidates_of(stones, game_legal(*state), active),
        !(extends_line(draw) && (exists|n: Coord| line_candidate(game_stones(*state), game_legal(*state), active, n)))
            ==> pool@.no_duplicates(),
{
    let ghost stones = game_stones(*state);
    let ghost legal = game_legal(*state);
    if line_bias_hit(draw) {
        let candidates = line_candidates(state, active);
        if candidates.len() != 0 {
            proof {
                assert(line_candidate(stones, legal, active, candidates@[0]));
                assert forall|c: Coord| candidates@.to_set().contains(c)
                    <==> pool_cells(stones, legal, active, draw).contains(c) by {
                    if candidates@.to_set().contains(c) {
                        let i = candidates@.index_of(c);
                        assert(line_candidate(stones, legal, active, candidates@[i]));
                    }
                    if line_candidate(stones, legal, active, c) {
                        assert(candidates@.contains(c));
                    }
                }
                assert(candidates@.to_set() =~= pool_cells(stones, legal, active, draw));
            }
            return candidates;
        }
        proof {
            if exists|n: Coord| line_candidate(stones, legal, active, n) {
                let n = choose|n: Coord| line_candidate(stones, legal, active, n);
                assert(candidates@.contains(n));
            }
        }
    }
    legal_cells(state)
}

/// Picks the next rollout move for `active` from the 32-bit `draw` that
/// decides the line bias: a cell drawn from `rollout_pool` (see
/// `pool_cells`): when the draw falls below 0.8, one of the listed legal
/// cells next to `active`'s stones (falling back to any legal cell when
/// there is none), otherwise any legal cell; `None` only when no cell is
/// legal.
pub fn pick_rollout_move(state: &GameState, active: Player, draw: u32, rng: &mut ChaCha8Rng) -> (pick: Option<Coord>)
    ensures
        pick is None <==> game_legal(*state) == Set::<Coord>::empty(),
        pick matches Some(c) ==> game_legal(*state).contains(c) && !game_stones(*state).contains_key(c),
        extends_line(draw) && (exists|n: Coord| line_candidate(game_stones(*state), game_legal(*state), active, n))
            ==> (pick matches Some(c) && line_candidate(game_stones(*state), game_legal(*state), active, c)),
        pick matches Some(c) ==> pool_cells(game_stones(*state), game_legal(*state), active, draw).contains(c),
{
    let pool = rollout_pool(state, active, draw);
    let pick = choose_coord(rng, pool);
    proof {
        let stones = game_stones(*state);
        let legal = game_legal(*state);
        lemma_rollout_bias(stones, legal, active, draw);
        if pick is Some {
            let i = pool@.index_of(pick->0);
            assert(pool@.to_set().contains(pool@[i]));
        }
        if pick is None {
            assert(pool@.len() == 0);
            if exists|c: Coord| legal.contains(c) {
                let c = choose|c: Coord| #[trigger] pool_cells(stones, legal, active, draw).contains(c);
                assert(pool@.to_set().contains(c));
            }
            assert(legal =~= Set::<Coord>::empty());
        }
        if pick is Some && legal == Set::<Coord>::empty() {
            assert(legal.contains(pick->0));
        }
    }
    pick
}

/// `c` is a move that `pick_rollout_move` may return for the player to
/// move in a position with view `v` and the bias draw `draw`: an empty
/// legal cell, and one next to the mover's own stones when the draw falls
/// below 0.8 and such a cell exists.
pub open spec fn admitted_move(v: GameView, draw: u32, c: Coord) -> bool {
    &&& v.legal.contains(c)
    &&& !v.stones.contains_key(c)
    &&& extends_line(draw) && (exists|n: Coord| line_candidate(v.stones, v.legal, v.to_move->0, n))
        ==> line_candidate(v.stones, v.legal, v.to_move->0, c)
}

/// The course of a rollout from a position with view `start` to one with
/// view `end`: the views of the positions passed through, and for each
/// move the bias draw taken and the move played, which `pick_rollout_move`
/// admits for that draw, which the engine accepts, and which leads to the
/// next view.
pub open spec fn rollout_trace(
    start: GameView,
    end: GameView,
    views: Seq<GameView>,
    draws: Seq<u32>,
    moves: Seq<Coord>,
) -> bool {
    &&& views.len() == moves.len() + 1
    &&& draws.len() == moves.len()
    &&& views[0] == start
    &&& views[views.len() - 1] == end
    &&& forall|k: int| 0 <= k < moves.len() ==> {
        &&& #[trigger] admitted_move(views[k], draws[k], moves[k])
        &&& playable(views[k], moves[k])
        &&& views[k + 1] == view_after_move(views[k], moves[k])
    }
}

/// Plays the game out from `state` to its end and scores it for
/// `root_player`: +1 if `root_player` wins, 0 for a draw, -1 for a loss.
///
/// At each move a draw decides whether the mover extends a line (about four
/// times in five): then the move is one of the legal cells next to the
/// mover's own stones (uniformly over the list of `line_candidates`),
/// falling back to any legal cell when there is none; otherwise it is any
/// legal cell. A game that is already over is left as it is, and nothing is
/// drawn from the generator; the rollout keeps the configuration, only adds
/// stones, and never goes past the draw cap.
pub fn simulate(state: &mut GameState, rng: &mut ChaCha8Rng, root_player: Player) -> (outcome: i64)
    ensures
        outcome == outcome_for(game_winner(*final(state)), root_player),
        game_winner(*final(state)) is None ==> outcome == 0,
        game_winner(*final(state)) == Some(root_player) ==> outcome == 1,
        game_winner(*final(state)) matches Some(p) && p != root_player ==> outcome == -1,
        game_to_move(*final(state)) is None || game_legal(*final(state)) == Set::<Coord>::empty(),
        keeps_stones(game_stones(*old(state)), game_stones(*final(state))),
        game_move_count(*old(state)) <= game_move_count(*final(state)),
        game_move_count(*final(state)) <= game_max_moves(*final(state)),
        game_win_length(*final(state)) == game_win_length(*old(state)),
        game_max_moves(*final(state)) == game_max_moves(*old(state)),
        game_radius(*final(state)) == game_radius(*old(state)),
        game_to_move(*old(state)) is None ==> *final(state) == *old(state) && *final(rng) == *old(rng),
        exists|views: Seq<GameView>, draws: Seq<u32>, moves: Seq<Coord>|
            #[trigger] rollout_trace(view_of(*old(state)), view_of(*final(state)), views, draws, moves),
{
    let ghost mut views: Seq<GameView> = seq![view_of(*state)];
    let ghost mut draws: Seq<u32> = Seq::empty();
    let ghost mut moves: Seq<Coord> = Seq::empty();
    if is_terminal(state) {
        assert(rollout_trace(view_of(*old(state)), view_of(*state), views, draws, moves));
        return score_of(winner(state), root_player);
    }
    loop
        invariant
            rollout_trace(view_of(*old(state)), view_of(*state), views, draws, moves),
            keeps_stones(game_stones(*old(state)), game_stones(*state)),
            game_move_count(*old(state)) <= game_move_count(*state),
            game_move_count(*state) <= game_max_moves(*state),
            game_win_length(*state) == game_win_length(*old(state)),
            game_max_moves(*state) == game_max_moves(*old(state)),
            game_radius(*state) == game_radius(*old(state)),
        ensures
            keeps_stones(game_stones(*old(state)), game_stones(*state)),
            game_move_count(*old(state)) <= game_move_count(*state),
            game_move_count(*state) <= game_max_moves(*state),
            game_win_length(*state) == game_win_length(*old(state)),
            game_max_moves(*state) == game_max_moves(*old(state)),
            game_radius(*state) == game_radius(*old(state)),
            game_to_move(*state) is None || game_legal(*state) == Set::<Coord>::empty(),
            rollout_trace(view_of(*old(state)), view_of(*state), views, draws, moves),
        decreases game_max_moves(*state) - game_move_count(*state),
    {
        if is_terminal(state) {
            break;
        }
        let active = match current_player(state) {
            Some(p) => p,
            None => break,
        };
        if legal_is_empty(state) {
            break;
        }
        let draw = random_u32(rng);
        let pick = pick_rollout_move(state, active, draw, rng);
        assert(pick matches Some(c) ==> game_legal(*state).contains(c) && !game_stones(*state).contains_key(c));
        match pick {
            Some(c) => {
                let ghost before = game_stones(*state);
                let ghost first = game_stones(*old(state));
                let ghost mover = game_to_move(*state);
                let ghost v = view_of(*state);
                assert(admitted_move(v, draw, c));
                if apply_move(state, c).is_err() {
                    break;
                }
                proof {
                    let pv = views;
                    let pd = draws;
                    let pm = moves;
                    views = views.push(view_of(*state));
                    draws = draws.push(draw);
                    moves = moves.push(c);
                    assert forall|k: int| 0 <= k < moves.len() implies {
                        &&& #[trigger] admitted_move(views[k], draws[k], moves[k])
                        &&& playable(views[k], moves[k])
                        &&& views[k + 1] == view_after_move(views[k], moves[k])
                    } by {
                        if k < pm.len() {
                            assert(views[k] == pv[k] && views[k + 1] == pv[k + 1] && draws[k] == pd[k] && moves[k] == pm[k]);
                        } else {
                            assert(views[k] == v && moves[k] == c && draws[k] == draw);
                        }
                    }
                    assert(!before.contains_key(c));
                    assert(game_stones(*state) == before.insert(c, mover->0));
                    assert forall|k: Coord| #[trigger] first.contains_key(k) implies game_stones(*state).contains_key(k)
                        && game_stones(*state)[k] == first[k] by {
                        assert(before.contains_key(k) && before[k] == first[k]);
                    }
                }
            },
            None => {
                break;
            },
        }
    }
    score_of(winner(state), root_player)
}

/// The score of a finished rollout for `root`: +1 if `winner` is `root`,
/// -1 if it is the other player, 0 for a draw.
fn score_of(winner: Option<Player>, root: Player) -> (s: i64)
    ensures
        s == outcome_for(winner, root),
{
    match winner {
        Some(p) => if p == root { 1 } else { -1 },
        None => 0,
    }
}

} // verus!
