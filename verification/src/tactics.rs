//! The one-ply tactical scan run before any tree search.
use hexo_engine::GameState;
use vstd::prelude::*;
use crate::board::{Coord, StoneMap};
use crate::engine::{game_legal, game_stones, game_win_length, legal_cells, placed_stones, win_length};
use crate::lines::{completes_line, is_immediate_win_at};
use crate::player::{Player, other};

verus! {

/// `c` is the first cell of `legal` at which a stone of `p` completes a line.
pub open spec fn first_completing(
    stones: Map<Coord, Player>,
    legal: Seq<Coord>,
    p: Player,
    win_len: int,
    c: Coord,
) -> bool {
    exists|i: int|
        0 <= i < legal.len() && legal[i] == c && completes_line(stones, c, p, win_len)
            && forall|j: int| 0 <= j < i ==> !completes_line(stones, #[trigger] legal[j], p, win_len)
}

/// The first completing cell is one of the listed cells, and completes a line.
proof fn lemma_first_is_listed(stones: Map<Coord, Player>, legal: Seq<Coord>, p: Player, win_len: int, c: Coord)
    ensures
        first_completing(stones, legal, p, win_len, c) ==> legal.contains(c) && completes_line(stones, c, p, win_len),
{
    if first_completing(stones, legal, p, win_len, c) {
        let i = choose|i: int|
            0 <= i < legal.len() && legal[i] == c && completes_line(stones, c, p, win_len)
                && forall|j: int| 0 <= j < i ==> !completes_line(stones, #[trigger] legal[j], p, win_len);
        assert(legal[i] == c);
    }
}

/// What the tactical scan over a list of candidate cells answers: the first
/// cell that wins for `me`; failing that, the first cell at which the
/// opponent would win (the block); failing both, nothing.
pub open spec fn tactical_answer(
    stones: Map<Coord, Player>,
    legal: Seq<Coord>,
    me: Player,
    win_len: int,
    r: Option<Coord>,
) -> bool {
    let me_wins_somewhere = exists|i: int|
        0 <= i < legal.len() && completes_line(stones, #[trigger] legal[i], me, win_len);
    let opp_wins_somewhere = exists|i: int|
        0 <= i < legal.len() && completes_line(stones, #[trigger] legal[i], other(me), win_len);
    match r {
        Some(c) => if me_wins_somewhere {
            first_completing(stones, legal, me, win_len, c)
        } else {
            first_completing(stones, legal, other(me), win_len, c)
        },
        None => !me_wins_somewhere && !opp_wins_somewhere,
    }
}

/// The first cell of `legal` at which a stone of `p` completes a line.
fn first_win_in(stones: &StoneMap, legal: &Vec<Coord>, p: Player, win_len: usize) -> (r: Option<Coord>)
    ensures
        match r {
            Some(c) => first_completing(stones@, legal@, p, win_len as int, c),
            None => forall|i: int| 0 <= i < legal@.len() ==> !completes_line(stones@, #[trigger] legal@[i], p, win_len as int),
        },
{
    let mut i: usize = 0;
    while i < legal.len()
        invariant
            i <= legal.len(),
            forall|j: int| 0 <= j < i ==> !completes_line(stones@, #[trigger] legal@[j], p, win_len as int),
        decreases legal.len() - i,
    {
        let c = legal[i];
        if is_immediate_win_at(stones, c, p, win_len) {
            assert(legal@[i as int] == c);
            return Some(c);
        }
        i = i + 1;
    }
    None
}

/// Scans `legal` for a cell that wins at once for `me`, and failing that,
/// for one at which the opponent would win at once (a block).
pub fn find_tactical(stones: &StoneMap, legal: &Vec<Coord>, me: Player, win_len: usize) -> (r: Option<Coord>)
    ensures
        tactical_answer(stones@, legal@, me, win_len as int, r),
{
    let opp = me.opponent();
    match first_win_in(stones, legal, me, win_len) {
        Some(c) => Some(c),
        None => first_win_in(stones, legal, opp, win_len),
    }
}

/// Returns a tactically forced move of the state, if one exists:
///
/// 1. a legal move that wins immediately for `me`;
/// 2. otherwise, a legal move that blocks an opponent's one-move win.
///
/// The legal cells are scanned in the engine's set order, so which of
/// several such moves comes back is not fixed.
pub fn find_immediate_tactical(state: &GameState, me: Player) -> (r: Option<Coord>)
    ensures
        exists|legal: Seq<Coord>|
            legal.to_set() == game_legal(*state) && legal.no_duplicates()
                && tactical_answer(game_stones(*state), legal, me, game_win_length(*state) as int, r),
        r matches Some(c) ==> game_legal(*state).contains(c),
        (exists|c: Coord| #[trigger] game_legal(*state).contains(c)
            && completes_line(game_stones(*state), c, me, game_win_length(*state) as int))
            ==> (r matches Some(c) && completes_line(game_stones(*state), c, me, game_win_length(*state) as int)),
        (forall|c: Coord| #[trigger] game_legal(*state).contains(c)
            ==> !completes_line(game_stones(*state), c, me, game_win_length(*state) as int))
            ==> match r {
                Some(c) => completes_line(game_stones(*state), c, other(me), game_win_length(*state) as int),
                None => forall|c: Coord| #[trigger] game_legal(*state).contains(c)
                    ==> !completes_line(game_stones(*state), c, other(me), game_win_length(*state) as int),
            },
{
    let placed = placed_stones(state);
    let stones = StoneMap::from_stones(&placed);
    let win_len = win_length(state) as usize;
    let legal = legal_cells(state);
    let r = find_tactical(&stones, &legal, me, win_len);
    assert(legal@.to_set() == game_legal(*state) && legal@.no_duplicates());
    proof {
        let st = game_stones(*state);
        let w = game_win_length(*state) as int;
        assert forall|c: Coord| game_legal(*state).contains(c) <==> legal@.contains(c) by {
            assert(legal@.to_set().contains(c) <==> legal@.contains(c));
        }
        if exists|c: Coord| #[trigger] game_legal(*state).contains(c) && completes_line(st, c, me, w) {
            let c = choose|c: Coord| #[trigger] game_legal(*state).contains(c) && completes_line(st, c, me, w);
            let i = legal@.index_of(c);
            assert(0 <= i < legal@.len() && completes_line(st, legal@[i], me, w));
        }
        if forall|c: Coord| #[trigger] game_legal(*state).contains(c) ==> !completes_line(st, c, me, w) {
            assert forall|i: int| 0 <= i < legal@.len() implies !completes_line(st, #[trigger] legal@[i], me, w) by {
                assert(legal@.contains(legal@[i]));
            }
            if r is None {
                assert forall|c: Coord| #[trigger] game_legal(*state).contains(c) implies !completes_line(st, c, other(me), w) by {
                    let i = legal@.index_of(c);
                    assert(legal@[i] == c);
                }
            }
        }
        if r is Some {
            let c = r->0;
            lemma_first_is_listed(st, legal@, me, w, c);
            lemma_first_is_listed(st, legal@, other(me), w, c);
            assert(legal@.to_set().contains(c));
        }
    }
    r
}

} // verus!
