//! Axial coordinates and a stone lookup table keyed by them.
use std::collections::HashMap;
use vstd::prelude::*;
use crate::player::Player;

verus! {

broadcast use vstd::std_specs::hash::group_hash_axioms;

/// An axial hex coordinate `(q, r)`.
pub type Coord = (i32, i32);

/// The hash key of a coordinate: both components shifted into `0..2^32`
/// and packed into one `u64`.
pub open spec fn coord_key(c: Coord) -> u64 {
    ((c.0 + 0x8000_0000int) * 0x1_0000_0000int + (c.1 + 0x8000_0000int)) as u64
}

/// Two coordinates have the same key only if they are equal.
pub proof fn lemma_coord_key_injective(a: Coord, b: Coord)
    ensures
        coord_key(a) == coord_key(b) ==> a == b,
{
    let x1: int = a.0 + 0x8000_0000int;
    let y1: int = a.1 + 0x8000_0000int;
    let x2: int = b.0 + 0x8000_0000int;
    let y2: int = b.1 + 0x8000_0000int;
    assert(0 <= x1 * 0x1_0000_0000int + y1 <= 0xffff_ffff_ffff_ffffint) by (nonlinear_arith)
        requires 0 <= x1 < 0x1_0000_0000int, 0 <= y1 < 0x1_0000_0000int;
    assert(0 <= x2 * 0x1_0000_0000int + y2 <= 0xffff_ffff_ffff_ffffint) by (nonlinear_arith)
        requires 0 <= x2 < 0x1_0000_0000int, 0 <= y2 < 0x1_0000_0000int;
    if coord_key(a) == coord_key(b) {
        assert(x1 * 0x1_0000_0000int + y1 == x2 * 0x1_0000_0000int + y2);
        assert(x1 == x2 && y1 == y2) by (nonlinear_arith)
            requires
                x1 * 0x1_0000_0000int + y1 == x2 * 0x1_0000_0000int + y2,
                0 <= y1 < 0x1_0000_0000int,
                0 <= y2 < 0x1_0000_0000int;
    }
}

/// Computes the key of `c`.
pub fn key_of(c: Coord) -> (k: u64)
    ensures
        k == coord_key(c),
{
    let x: u64 = (c.0 as i64 + 0x8000_0000i64) as u64;
    let y: u64 = (c.1 as i64 + 0x8000_0000i64) as u64;
    assert(x * 0x1_0000_0000u64 + y <= 0xffff_ffff_ffff_ffffu64) by (nonlinear_arith)
        requires x < 0x1_0000_0000u64, y < 0x1_0000_0000u64;
    x * 0x1_0000_0000u64 + y
}

/// The owner of the cell `(q, r)` of a board, where `q` and `r` may lie
/// outside the range of `i32` (no stone is ever there).
pub open spec fn owner_at(stones: Map<Coord, Player>, q: int, r: int) -> Option<Player> {
    if i32::MIN <= q <= i32::MAX && i32::MIN <= r <= i32::MAX
        && stones.contains_key((q as i32, r as i32)) {
        Some(stones[(q as i32, r as i32)])
    } else {
        None
    }
}

/// The board described by a list of placed stones; a later entry for the
/// same cell replaces an earlier one.
pub open spec fn stones_map(s: Seq<(Coord, Player)>) -> Map<Coord, Player>
    decreases s.len(),
{
    if s.len() == 0 {
        Map::empty()
    } else {
        stones_map(s.drop_last()).insert(s.last().0, s.last().1)
    }
}

/// Which player, if any, holds each cell: a hash table from cell to owner.
pub struct StoneMap {
    cells: HashMap<u64, Player>,
}

impl View for StoneMap {
    type V = Map<Coord, Player>;

    closed spec fn view(&self) -> Map<Coord, Player> {
        Map::new(
            |c: Coord| self.cells@.contains_key(coord_key(c)),
            |c: Coord| self.cells@[coord_key(c)],
        )
    }
}

impl StoneMap {
    /// An empty board.
    pub fn new() -> (m: StoneMap)
        ensures
            m@ == Map::<Coord, Player>::empty(),
    {
        let m = StoneMap { cells: HashMap::new() };
        assert(m@ =~= Map::<Coord, Player>::empty());
        m
    }

    /// Records `p`'s stone at `c`.
    pub fn place(&mut self, c: Coord, p: Player)
        ensures
            final(self)@ == old(self)@.insert(c, p),
    {
        let k = key_of(c);
        self.cells.insert(k, p);
        proof {
            assert forall|d: Coord| #![auto] coord_key(d) == k implies d == c by {
                lemma_coord_key_injective(d, c);
            }
        }
        assert(self@ =~= old(self)@.insert(c, p));
    }

    /// The owner of `c`, if any.
    pub fn get(&self, c: Coord) -> (r: Option<Player>)
        ensures
            r == (if self@.contains_key(c) { Some(self@[c]) } else { None::<Player> }),
    {
        let k = key_of(c);
        match self.cells.get(&k) {
            Some(p) => Some(*p),
            None => None,
        }
    }

    /// Builds the board from a list of placed stones.
    pub fn from_stones(stones: &Vec<(Coord, Player)>) -> (m: StoneMap)
        ensures
            m@ == stones_map(stones@),
    {
        let mut m = StoneMap::new();
        let mut i: usize = 0;
        while i < stones.len()
            invariant
                i <= stones.len(),
                m@ == stones_map(stones@.take(i as int)),
            decreases stones.len() - i,
        {
            let (c, p) = stones[i];
            m.place(c, p);
            assert(stones@.take(i as int + 1).drop_last() =~= stones@.take(i as int));
            i = i + 1;
        }
        assert(stones@.take(i as int) =~= stones@);
        m
    }
}

} // verus!

verus! {

/// In a list of stones with distinct cells, the board holds exactly the
/// listed cells, each with its listed owner.
pub proof fn lemma_stones_map_distinct(s: Seq<(Coord, Player)>)
    requires
        forall|i: int, j: int| 0 <= i < j < s.len() ==> (#[trigger] s[i]).0 != (#[trigger] s[j]).0,
    ensures
        forall|k: Coord| #[trigger] stones_map(s).contains_key(k) <==> exists|i: int| 0 <= i < s.len() && (#[trigger] s[i]).0 == k,
        forall|i: int| 0 <= i < s.len() ==> stones_map(s)[(#[trigger] s[i]).0] == s[i].1,
    decreases s.len(),
{
    if s.len() > 0 {
        let t = s.drop_last();
        assert forall|i: int, j: int| 0 <= i < j < t.len() implies (#[trigger] t[i]).0 != (#[trigger] t[j]).0 by {
            assert(t[i] == s[i] && t[j] == s[j]);
        }
        lemma_stones_map_distinct(t);
        assert(stones_map(s) == stones_map(t).insert(s.last().0, s.last().1));
        assert forall|k: Coord| #[trigger] stones_map(s).contains_key(k) <==> exists|i: int| 0 <= i < s.len() && (#[trigger] s[i]).0 == k by {
            if stones_map(s).contains_key(k) && k != s.last().0 {
                let i = choose|i: int| 0 <= i < t.len() && (#[trigger] t[i]).0 == k;
                assert(s[i] == t[i]);
            }
            if exists|i: int| 0 <= i < s.len() && (#[trigger] s[i]).0 == k {
                let i = choose|i: int| 0 <= i < s.len() && (#[trigger] s[i]).0 == k;
                if i < s.len() - 1 {
                    assert(t[i] == s[i]);
                }
            }
        }
        assert forall|i: int| 0 <= i < s.len() implies stones_map(s)[(#[trigger] s[i]).0] == s[i].1 by {
            if i < s.len() - 1 {
                assert(t[i] == s[i]);
                assert(s[i].0 != s[s.len() - 1].0);
            }
        }
    }
}

} // verus!
