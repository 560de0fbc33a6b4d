//! Lines of stones along the three hex axes.
use vstd::prelude::*;
use crate::board::{Coord, StoneMap, owner_at};
use crate::player::Player;

verus! {

/// The cell `t` steps from `c` along axis `axis` (0: `(1,0)`, 1: `(0,1)`,
/// 2: `(1,-1)`); a negative `t` walks the other way.
pub open spec fn axis_cell(c: Coord, axis: int, t: int) -> (int, int) {
    if axis == 0 {
        (c.0 + t, c.1 as int)
    } else if axis == 1 {
        (c.0 as int, c.1 + t)
    } else {
        (c.0 + t, c.1 - t)
    }
}

/// The owner of the `i`-th cell after `c` along `axis`, walking towards the
/// positive direction when `forward` and the negative one otherwise.
pub open spec fn owner_along(stones: Map<Coord, Player>, c: Coord, axis: int, forward: bool, i: int) -> Option<Player> {
    owner_at(
        stones,
        axis_cell(c, axis, if forward { i } else { -i }).0,
        axis_cell(c, axis, if forward { i } else { -i }).1,
    )
}

/// The `k` cells after `c` along `axis` (towards the positive direction
/// when `forward`, the negative one otherwise) all hold `p`'s stones.
pub open spec fn owned_run(
    stones: Map<Coord, Player>,
    c: Coord,
    axis: int,
    forward: bool,
    p: Player,
    k: int,
) -> bool {
    forall|i: int| 1 <= i <= k ==> #[trigger] owner_along(stones, c, axis, forward, i) == Some(p)
}

/// A stone of `p` at `c` would complete at least `win_len` in a row along
/// one of the three axes, counting `c` itself.
pub open spec fn completes_line(stones: Map<Coord, Player>, c: Coord, p: Player, win_len: int) -> bool {
    exists|axis: int, f: int, b: int|
        0 <= axis < 3 && 0 <= f && 0 <= b && 1 + f + b >= win_len
            && #[trigger] owned_run(stones, c, axis, true, p, f)
            && #[trigger] owned_run(stones, c, axis, false, p, b)
}

/// How far the walk from `p` along `axis` can still go before leaving
/// the range of `i32`.
pub(crate) open spec fn room(p: Coord, axis: int, forward: bool) -> int {
    if axis == 1 {
        if forward { i32::MAX - p.1 } else { p.1 - i32::MIN }
    } else {
        if forward { i32::MAX - p.0 } else { p.0 - i32::MIN }
    }
}

/// One step from `p` along `axis`, or `None` where the step leaves `i32`.
pub(crate) fn axis_step(p: Coord, axis: usize, forward: bool) -> (r: Option<Coord>)
    requires
        axis < 3,
    ensures
        match r {
            Some(n) => n.0 == axis_cell(p, axis as int, if forward { 1int } else { -1int }).0
                && n.1 == axis_cell(p, axis as int, if forward { 1int } else { -1int }).1
                && room(n, axis as int, forward) < room(p, axis as int, forward),
            None => {
                let q = axis_cell(p, axis as int, if forward { 1int } else { -1int });
                !(i32::MIN <= q.0 <= i32::MAX && i32::MIN <= q.1 <= i32::MAX)
            },
        },
{
    let d: i32 = if forward { 1 } else { -1 };
    if axis == 0 {
        match p.0.checked_add(d) {
            Some(q) => Some((q, p.1)),
            None => None,
        }
    } else if axis == 1 {
        match p.1.checked_add(d) {
            Some(r) => Some((p.0, r)),
            None => None,
        }
    } else {
        match (p.0.checked_add(d), p.1.checked_sub(d)) {
            (Some(q), Some(r)) => Some((q, r)),
            _ => None,
        }
    }
}

/// Counts `player`'s stones that follow `c` along `axis` without a gap.
fn count_run(stones: &StoneMap, c: Coord, axis: usize, forward: bool, player: Player) -> (n: u64)
    requires
        axis < 3,
    ensures
        owned_run(stones@, c, axis as int, forward, player, n as int),
        owner_along(stones@, c, axis as int, forward, n + 1) != Some(player),
        n <= 0x1_0000_0000u64,
{
    let mut n: u64 = 0;
    let mut p = c;
    loop
        invariant
            axis < 3,
            p.0 == axis_cell(c, axis as int, if forward { n as int } else { -(n as int) }).0,
            p.1 == axis_cell(c, axis as int, if forward { n as int } else { -(n as int) }).1,
            owned_run(stones@, c, axis as int, forward, player, n as int),
            n + room(p, axis as int, forward) == room(c, axis as int, forward),
        ensures
            owned_run(stones@, c, axis as int, forward, player, n as int),
            owner_along(stones@, c, axis as int, forward, n + 1) != Some(player),
            n <= 0x1_0000_0000u64,
        decreases room(p, axis as int, forward),
    {
        match axis_step(p, axis, forward) {
            None => {
                break;
            },
            Some(next) => {
                if stones.get(next) == Some(player) {
                    assert(owner_at(stones@, next.0 as int, next.1 as int) == Some(player));
                    n = n + 1;
                    p = next;
                    assert(owned_run(stones@, c, axis as int, forward, player, n as int)) by {
                        assert forall|i: int| 1 <= i <= n implies #[trigger] owner_along(
                            stones@, c, axis as int, forward, i) == Some(player) by {
                            if i < n {
                            }
                        }
                    }
                } else {
                    break;
                }
            },
        }
    }
    n
}

/// A run that stops at the first cell not held by `p` bounds every run.
proof fn lemma_run_maximal(
    stones: Map<Coord, Player>,
    c: Coord,
    axis: int,
    forward: bool,
    p: Player,
    n: int,
    k: int,
)
    requires
        0 <= n,
        owner_along(stones, c, axis, forward, n + 1) != Some(p),
        owned_run(stones, c, axis, forward, p, k),
    ensures
        k <= n,
{
    if k > n {
        assert(1 <= n + 1 <= k);
        assert(owner_along(stones, c, axis, forward, n + 1) == Some(p));
    }
}

/// Would placing `player`'s stone at `c` complete a `win_len`-in-a-row along
/// any of the 3 axes?
pub fn is_immediate_win_at(stones: &StoneMap, c: Coord, player: Player, win_len: usize) -> (r: bool)
    ensures
        r == completes_line(stones@, c, player, win_len as int),
{
    let mut axis: usize = 0;
    while axis < 3
        invariant
            axis <= 3,
            forall|a: int, f: int, b: int|
                0 <= a < axis && 0 <= f && 0 <= b && 1 + f + b >= win_len
                    ==> !(#[trigger] owned_run(stones@, c, a, true, player, f)
                    && #[trigger] owned_run(stones@, c, a, false, player, b)),
        decreases 3 - axis,
    {
        let fwd = count_run(stones, c, axis, true, player);
        let bwd = count_run(stones, c, axis, false, player);
        let count: u64 = 1 + fwd + bwd;
        if count >= win_len as u64 {
            assert(owned_run(stones@, c, axis as int, true, player, fwd as int));
            assert(owned_run(stones@, c, axis as int, false, player, bwd as int));
            return true;
        }
        assert forall|f: int, b: int|
            0 <= f && 0 <= b && 1 + f + b >= win_len
                implies !(#[trigger] owned_run(stones@, c, axis as int, true, player, f)
                && #[trigger] owned_run(stones@, c, axis as int, false, player, b)) by {
            if owned_run(stones@, c, axis as int, true, player, f)
                && owned_run(stones@, c, axis as int, false, player, b) {
                lemma_run_maximal(stones@, c, axis as int, true, player, fwd as int, f);
                lemma_run_maximal(stones@, c, axis as int, false, player, bwd as int, b);
            }
        }
        axis = axis + 1;
    }
    false
}

} // verus!
