//! Finding the winning line to highlight at the end of a game.
use hexo_engine::GameState;
use vstd::prelude::*;
use crate::board::{Coord, StoneMap, lemma_stones_map_distinct, owner_at, stones_map};
use crate::engine::{game_stones, game_win_length, game_winner, placed_stones, win_length, winner};
use crate::lines::{axis_cell, axis_step};
use crate::player::Player;

verus! {

/// Some entry of `stones` puts a stone of `p` on the cell `c`.
pub open spec fn owns(stones: Seq<(Coord, Player)>, p: Player, c: (int, int)) -> bool {
    exists|i: int| 0 <= i < stones.len() && (#[trigger] stones[i]).1 == p && stones[i].0.0 == c.0 && stones[i].0.1 == c.1
}

/// The `w` cells from `start` along `axis` all hold stones of `p`.
pub open spec fn line_from(stones: Seq<(Coord, Player)>, p: Player, start: Coord, axis: int, w: int) -> bool {
    forall|i: int| 0 <= i < w ==> owns(stones, p, #[trigger] axis_cell(start, axis, i))
}

/// `line` lists, in order, `w` cells of `p` in a row along one axis,
/// starting at one of `p`'s stones.
pub open spec fn is_line(stones: Seq<(Coord, Player)>, p: Player, w: int, line: Seq<Coord>) -> bool {
    &&& line.len() == w
    &&& exists|start: Coord, axis: int|
        0 <= axis < 3 && #[trigger] owns(stones, p, (start.0 as int, start.1 as int))
            && #[trigger] line_from(stones, p, start, axis, w)
            && forall|i: int| 0 <= i < w ==> (line[i].0 as int, line[i].1 as int) == #[trigger] axis_cell(start, axis, i)
}

/// Entry `s` of `stones` is a stone of `p` from which `w` of `p`'s stones
/// run along `axis`, and no earlier entry of `p` (nor an earlier axis from
/// the same entry) starts such a run.
pub open spec fn first_line_at(stones: Seq<(Coord, Player)>, p: Player, w: int, s: int, axis: int) -> bool {
    &&& 0 <= s < stones.len()
    &&& 0 <= axis < 3
    &&& stones[s].1 == p
    &&& line_from(stones, p, stones[s].0, axis, w)
    &&& forall|q: int, a: int|
        0 <= q < stones.len() && 0 <= a < 3 && stones[q].1 == p && (q < s || (q == s && a < axis))
            ==> !#[trigger] line_from(stones, p, stones[q].0, a, w)
}

/// Searches `stones` for `win_length` stones of `winner` in a row along one
/// of the three axes, starting at one of `winner`'s stones (which stone is
/// tried first follows the order of `stones`).
pub fn winning_line_in(stones: &Vec<(Coord, Player)>, winner: Player, win_length: usize) -> (r: Option<Vec<Coord>>)
    ensures
        match r {
            Some(line) => is_line(stones@, winner, win_length as int, line@)
                && exists|s: int, axis: int| #[trigger] first_line_at(stones@, winner, win_length as int, s, axis)
                    && line@.len() == win_length
                    && forall|i: int| 0 <= i < win_length ==> (line@[i].0 as int, line@[i].1 as int)
                        == #[trigger] axis_cell(stones@[s].0, axis, i),
            None => forall|start: Coord, axis: int|
                0 <= axis < 3 && #[trigger] owns(stones@, winner, (start.0 as int, start.1 as int))
                    ==> !#[trigger] line_from(stones@, winner, start, axis, win_length as int),
        },
{
    // The winner's cells.
    let mut mine = StoneMap::new();
    let mut k: usize = 0;
    while k < stones.len()
        invariant
            k <= stones@.len(),
            forall|c: Coord| #[trigger] mine@.contains_key(c) <==> owns(stones@.take(k as int), winner, (c.0 as int, c.1 as int)),
        decreases stones@.len() - k,
    {
        let (c, p) = stones[k];
        if p == winner {
            mine.place(c, p);
        }
        proof {
            let pre = stones@.take(k as int);
            let post = stones@.take(k as int + 1);
            assert forall|d: Coord| #[trigger] mine@.contains_key(d) <==> owns(post, winner, (d.0 as int, d.1 as int)) by {
                if owns(pre, winner, (d.0 as int, d.1 as int)) {
                    let i = choose|i: int| 0 <= i < pre.len() && (#[trigger] pre[i]).1 == winner && pre[i].0.0 == d.0 && pre[i].0.1 == d.1;
                    assert(post[i] == pre[i]);
                }
                if owns(post, winner, (d.0 as int, d.1 as int)) {
                    let i = choose|i: int| 0 <= i < post.len() && (#[trigger] post[i]).1 == winner && post[i].0.0 == d.0 && post[i].0.1 == d.1;
                    if i < k {
                        assert(pre[i] == post[i]);
                    } else {
                        assert(post[i] == (c, p));
                    }
                }
                if p == winner && d == c {
                    assert(post[k as int] == (c, p));
                }
            }
        }
        k = k + 1;
    }
    assert(stones@.take(k as int) == stones@);
    let ghost all = stones@;
    // Try each of the winner's stones as a start, along each axis.
    let mut s: usize = 0;
    while s < stones.len()
        invariant
            all == stones@,
            s <= stones@.len(),
            forall|c: Coord| #[trigger] mine@.contains_key(c) <==> owns(all, winner, (c.0 as int, c.1 as int)),
            forall|q: int, axis: int|
                0 <= q < s && 0 <= axis < 3 && all[q].1 == winner
                    ==> !#[trigger] line_from(all, winner, all[q].0, axis, win_length as int),
        decreases stones@.len() - s,
    {
        let (start, p) = stones[s];
        if p == winner {
            let mut axis: usize = 0;
            while axis < 3
                invariant
                    all == stones@,
                    s < stones@.len(),
                    all[s as int] == (start, p),
                    p == winner,
                    axis <= 3,
                    forall|c: Coord| #[trigger] mine@.contains_key(c) <==> owns(all, winner, (c.0 as int, c.1 as int)),
                    forall|a: int| 0 <= a < axis ==> !line_from(all, winner, start, a, win_length as int),
                    forall|q: int, a: int|
                        0 <= q < s && 0 <= a < 3 && all[q].1 == winner
                            ==> !#[trigger] line_from(all, winner, all[q].0, a, win_length as int),
                decreases 3 - axis,
            {
                let mut line: Vec<Coord> = Vec::new();
                let mut cur: Option<Coord> = Some(start);
                loop
                    invariant
                        axis < 3,
                        line@.len() <= win_length,
                        forall|c: Coord| #[trigger] mine@.contains_key(c) <==> owns(all, winner, (c.0 as int, c.1 as int)),
                        forall|q: int| 0 <= q < line@.len()
                            ==> (line@[q].0 as int, line@[q].1 as int) == #[trigger] axis_cell(start, axis as int, q)
                                && owns(all, winner, axis_cell(start, axis as int, q)),
                        match cur {
                            Some(c) => (c.0 as int, c.1 as int) == axis_cell(start, axis as int, line@.len() as int),
                            None => !owns(all, winner, axis_cell(start, axis as int, line@.len() as int)),
                        },
                    ensures
                        forall|q: int| 0 <= q < line@.len()
                            ==> (line@[q].0 as int, line@[q].1 as int) == #[trigger] axis_cell(start, axis as int, q)
                                && owns(all, winner, axis_cell(start, axis as int, q)),
                        line@.len() == win_length
                            || !owns(all, winner, axis_cell(start, axis as int, line@.len() as int)),
                    decreases win_length - line@.len(),
                {
                    if line.len() >= win_length {
                        break;
                    }
                    match cur {
                        None => {
                            break;
                        },
                        Some(c) => {
                            if mine.get(c).is_some() {
                                line.push(c);
                                let nxt = axis_step(c, axis, true);
                                proof {
                                    assert(line@[line@.len() - 1] == c);
                                    if nxt is None {
                                        let q = axis_cell(start, axis as int, line@.len() as int);
                                        if owns(all, winner, q) {
                                            let i = choose|i: int| 0 <= i < all.len() && (#[trigger] all[i]).1 == winner
                                                && all[i].0.0 == q.0 && all[i].0.1 == q.1;
                                        }
                                    }
                                }
                                cur = nxt;
                            } else {
                                proof {
                                    if owns(all, winner, axis_cell(start, axis as int, line@.len() as int)) {
                                        assert(mine@.contains_key(c));
                                    }
                                }
                                break;
                            }
                        },
                    }
                }
                if line.len() == win_length {
                    proof {
                        assert(owns(all, winner, (start.0 as int, start.1 as int))) by {
                            assert(all[s as int].1 == winner);
                        }
                        assert(line_from(all, winner, start, axis as int, win_length as int));
                        assert forall|q: int, a: int|
                            0 <= q < all.len() && 0 <= a < 3 && all[q].1 == winner && (q < s || (q == s && a < axis))
                                implies !#[trigger] line_from(all, winner, all[q].0, a, win_length as int) by {
                            if q == s {
                                assert(all[q].0 == start);
                            }
                        }
                        assert(first_line_at(all, winner, win_length as int, s as int, axis as int));
                    }
                    return Some(line);
                }
                proof {
                    let n = line@.len() as int;
                    assert(!owns(all, winner, axis_cell(start, axis as int, n)));
                    assert(!line_from(all, winner, start, axis as int, win_length as int)) by {
                        assert(0 <= n < win_length);
                    }
                }
                axis = axis + 1;
            }
        }
        s = s + 1;
    }
    proof {
        assert forall|start: Coord, axis: int|
            0 <= axis < 3 && #[trigger] owns(all, winner, (start.0 as int, start.1 as int))
                implies !#[trigger] line_from(all, winner, start, axis, win_length as int) by {
            let i = choose|i: int| 0 <= i < all.len() && (#[trigger] all[i]).1 == winner
                && all[i].0.0 == start.0 && all[i].0.1 == start.1;
            assert(all[i].0 == start);
        }
    }
    None
}

/// On board `m`, the `w` cells from `start` along `axis` all hold stones of `p`.
pub open spec fn map_line(m: Map<Coord, Player>, p: Player, start: Coord, axis: int, w: int) -> bool {
    forall|i: int| 0 <= i < w
        ==> owner_at(m, #[trigger] axis_cell(start, axis, i).0, axis_cell(start, axis, i).1) == Some(p)
}

/// Board `m` holds `w` stones of `p` in a row along one of the three axes.
pub open spec fn has_line(m: Map<Coord, Player>, p: Player, w: int) -> bool {
    exists|start: Coord, axis: int| 0 <= axis < 3 && #[trigger] map_line(m, p, start, axis, w)
}

/// In a list of stones with distinct cells, an entry puts `p` on a cell
/// exactly when the board of the list has `p`'s stone there.
proof fn lemma_owns_on_board(s: Seq<(Coord, Player)>, p: Player, c: (int, int))
    requires
        forall|i: int, j: int| 0 <= i < j < s.len() ==> (#[trigger] s[i]).0 != (#[trigger] s[j]).0,
    ensures
        owns(s, p, c) <==> owner_at(stones_map(s), c.0, c.1) == Some(p),
{
    lemma_stones_map_distinct(s);
    let m = stones_map(s);
    if owns(s, p, c) {
        let i = choose|i: int| 0 <= i < s.len() && (#[trigger] s[i]).1 == p && s[i].0.0 == c.0 && s[i].0.1 == c.1;
        assert(s[i].0 == (c.0 as i32, c.1 as i32));
        assert(m.contains_key(s[i].0));
    }
    if owner_at(m, c.0, c.1) == Some(p) {
        let k: Coord = (c.0 as i32, c.1 as i32);
        assert(m.contains_key(k));
        let i = choose|i: int| 0 <= i < s.len() && (#[trigger] s[i]).0 == k;
        assert(m[s[i].0] == s[i].1);
        assert(s[i].1 == p && s[i].0.0 == c.0 && s[i].0.1 == c.1);
    }
}

/// In a list of stones with distinct cells, a run of `p`'s listed stones is
/// a run of `p`'s stones on the board of the list, and back.
proof fn lemma_line_on_board(s: Seq<(Coord, Player)>, p: Player, start: Coord, axis: int, w: int)
    requires
        forall|i: int, j: int| 0 <= i < j < s.len() ==> (#[trigger] s[i]).0 != (#[trigger] s[j]).0,
    ensures
        line_from(s, p, start, axis, w) <==> map_line(stones_map(s), p, start, axis, w),
{
    assert forall|i: int| 0 <= i < w implies
        (owns(s, p, #[trigger] axis_cell(start, axis, i))
            <==> owner_at(stones_map(s), axis_cell(start, axis, i).0, axis_cell(start, axis, i).1) == Some(p)) by {
        lemma_owns_on_board(s, p, axis_cell(start, axis, i));
    }
}

/// The winning line of a finished game, to be highlighted: `None` when
/// nobody has won or the winner's stones hold no `win_length` in a row
/// along an axis; otherwise `win_length` of the winner's stones in a row,
/// listed from one end along the axis.
pub fn winning_line(state: &GameState) -> (r: Option<Vec<Coord>>)
    ensures
        game_winner(*state) is None ==> r is None,
        r matches Some(line) ==> exists|stones: Seq<(Coord, Player)>|
            crate::board::stones_map(stones) == game_stones(*state)
                && is_line(stones, game_winner(*state)->0, game_win_length(*state) as int, #[trigger] line@),
        r is None <==> (game_winner(*state) is None
            || !has_line(game_stones(*state), game_winner(*state)->0, game_win_length(*state) as int)),
        r matches Some(line) ==> line@.len() == game_win_length(*state)
            && exists|start: Coord, axis: int|
                0 <= axis < 3 && #[trigger] map_line(game_stones(*state), game_winner(*state)->0, start, axis,
                    game_win_length(*state) as int)
                && forall|i: int| 0 <= i < line@.len()
                    ==> (line@[i].0 as int, line@[i].1 as int) == #[trigger] axis_cell(start, axis, i),
{
    let w = match winner(state) {
        Some(p) => p,
        None => return None,
    };
    let stones = placed_stones(state);
    let win_len = win_length(state) as usize;
    let r = winning_line_in(&stones, w, win_len);
    assert(crate::board::stones_map(stones@) == game_stones(*state));
    proof {
        let s = stones@;
        let m = game_stones(*state);
        let wl = win_len as int;
        if r is Some {
            let line = r->0;
            let (start, axis) = choose|start: Coord, axis: int|
                0 <= axis < 3 && #[trigger] owns(s, w, (start.0 as int, start.1 as int))
                    && #[trigger] line_from(s, w, start, axis, wl)
                    && forall|i: int| 0 <= i < wl ==> (line@[i].0 as int, line@[i].1 as int) == #[trigger] axis_cell(start, axis, i);
            lemma_line_on_board(s, w, start, axis, wl);
            assert(map_line(m, w, start, axis, wl));
            assert(has_line(m, w, wl));
        } else {
            if has_line(m, w, wl) {
                let (start, axis) = choose|start: Coord, axis: int| 0 <= axis < 3 && #[trigger] map_line(m, w, start, axis, wl);
                lemma_line_on_board(s, w, start, axis, wl);
                assert(owner_at(m, axis_cell(start, axis, 0).0, axis_cell(start, axis, 0).1) == Some(w));
                lemma_owns_on_board(s, w, (start.0 as int, start.1 as int));
                assert(axis_cell(start, axis, 0) == (start.0 as int, start.1 as int));
                assert(owns(s, w, (start.0 as int, start.1 as int)));
                assert(!line_from(s, w, start, axis, wl));
            }
        }
    }
    r
}

} // verus!
