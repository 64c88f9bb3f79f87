//! The occupied cells of the tape: a map from positions to cells that keeps
//! its entries in the order in which their positions were first filled.

use crate::geometry::Vector2D;
use crate::three_d::cell::Cell;
use crate::three_d::cell::Tile;
use vstd::prelude::*;

verus! {

/// What a [`CellMap`] stands for: the occupied positions with their tiles, in
/// order.
pub type Layout = Seq<(Vector2D, Tile)>;

/// No position occurs twice.
pub open spec fn distinct(layout: Layout) -> bool {
    forall|i: int, j: int|
        0 <= i < j < layout.len() ==> (#[trigger] layout[i]).0 != (#[trigger] layout[j]).0
}

/// The index of the first entry at a position, or the layout's length where
/// there is none.
pub open spec fn find(layout: Layout, pos: Vector2D) -> int
    decreases layout.len(),
{
    if layout.len() == 0 {
        0
    } else if layout[0].0 == pos {
        0
    } else {
        1 + find(layout.subrange(1, layout.len() as int), pos)
    }
}

/// The tile at a position.
pub open spec fn lookup(layout: Layout, pos: Vector2D) -> Option<Tile> {
    let i = find(layout, pos);
    if i < layout.len() {
        Some(layout[i].1)
    } else {
        None
    }
}

/// The layout with the tile at the position: in the place of the tile that
/// was there, or at the end.
pub open spec fn put(layout: Layout, pos: Vector2D, tile: Tile) -> Layout {
    let i = find(layout, pos);
    if i < layout.len() {
        layout.update(i, (pos, tile))
    } else {
        layout.push((pos, tile))
    }
}

/// The layout without the tile at the position.
pub open spec fn take_away(layout: Layout, pos: Vector2D) -> Layout {
    let i = find(layout, pos);
    if i < layout.len() {
        layout.remove(i)
    } else {
        layout
    }
}

/// What `find` returns: an index within the layout's length; the entry there
/// is at the position, and no entry before it is.
pub proof fn lemma_find(layout: Layout, pos: Vector2D)
    ensures
        0 <= find(layout, pos) <= layout.len(),
        find(layout, pos) < layout.len() ==> layout[find(layout, pos)].0 == pos,
        forall|k: int| 0 <= k < find(layout, pos) ==> (#[trigger] layout[k]).0 != pos,
    decreases layout.len(),
{
    if layout.len() > 0 && layout[0].0 != pos {
        let rest = layout.subrange(1, layout.len() as int);
        lemma_find(rest, pos);
        assert forall|k: int| 0 <= k < find(layout, pos) implies (#[trigger] layout[k]).0
            != pos by {
            if k > 0 {
                assert(layout[k] == rest[k - 1]);
            }
        }
    }
}

/// An index whose entry is at the position, with no such entry before it, is
/// what `find` returns.
pub proof fn lemma_find_is(layout: Layout, pos: Vector2D, i: int)
    requires
        0 <= i <= layout.len(),
        i < layout.len() ==> layout[i].0 == pos,
        forall|k: int| 0 <= k < i ==> (#[trigger] layout[k]).0 != pos,
    ensures
        find(layout, pos) == i,
{
    lemma_find(layout, pos);
    let f = find(layout, pos);
    if f < i {
        assert(layout[f].0 != pos);
    }
}

/// `put` and `take_away` keep the positions distinct.
pub proof fn lemma_distinct_kept(layout: Layout, pos: Vector2D, tile: Tile)
    requires
        distinct(layout),
    ensures
        distinct(put(layout, pos, tile)),
        distinct(take_away(layout, pos)),
{
    lemma_find(layout, pos);
    let i = find(layout, pos);
    let p = put(layout, pos, tile);
    assert forall|a: int, b: int| 0 <= a < b < p.len() implies (#[trigger] p[a]).0 != (
    #[trigger] p[b]).0 by {
        if i < layout.len() {
            assert(p[a].0 == layout[a].0);
            assert(p[b].0 == layout[b].0);
        } else {
            if b == layout.len() {
                assert(p[a] == layout[a]);
            } else {
                assert(p[a] == layout[a]);
                assert(p[b] == layout[b]);
            }
        }
    }
    let t = take_away(layout, pos);
    assert forall|a: int, b: int| 0 <= a < b < t.len() implies (#[trigger] t[a]).0 != (
    #[trigger] t[b]).0 by {
        if i < layout.len() {
            let a0 = if a < i {
                a
            } else {
                a + 1
            };
            let b0 = if b < i {
                b
            } else {
                b + 1
            };
            assert(t[a] == layout[a0]);
            assert(t[b] == layout[b0]);
        }
    }
}

/// What placed cells stand for.
pub open spec fn layout_of(entries: Seq<(Vector2D, Cell)>) -> Layout {
    Seq::new(entries.len(), |i: int| (entries[i].0, entries[i].1@))
}

/// The occupied cells of the tape.
#[derive(Debug)]
pub struct CellMap {
    entries: Vec<(Vector2D, Cell)>,
}

impl View for CellMap {
    type V = Layout;

    closed spec fn view(&self) -> Layout {
        layout_of(self.entries@)
    }
}

impl Clone for CellMap {
    fn clone(&self) -> (r: Self)
        ensures
            r@ == self@,
    {
        proof {
            use_type_invariant(self);
        }
        let mut entries: Vec<(Vector2D, Cell)> = Vec::new();
        let mut i: usize = 0;
        while i < self.entries.len()
            invariant
                i <= self.entries@.len(),
                layout_of(entries@) == self@.subrange(0, i as int),
            decreases self.entries@.len() - i,
        {
            let pos = self.entries[i].0;
            let cell = self.entries[i].1.clone();
            let ghost before = entries@;
            let ghost tile = cell@;
            entries.push((pos, cell));
            proof {
                let now = layout_of(entries@);
                let want = self@.subrange(0, i + 1);
                assert(self@.len() == self.entries@.len());
                assert(self@.subrange(0, i as int).len() == i);
                assert(before.len() == i);
                assert(now.len() == want.len());
                assert forall|j: int| 0 <= j < now.len() implies now[j] == want[j] by {
                    if j < i {
                        assert(entries@[j] == before[j]);
                        assert(layout_of(before)[j] == self@.subrange(0, i as int)[j]);
                    } else {
                        assert(now[j] == (pos, tile));
                        assert(self@[j] == (self.entries@[j].0, self.entries@[j].1@));
                    }
                }
                assert(now =~= want);
            }
            i += 1;
        }
        assert(self@.subrange(0, self.entries@.len() as int) =~= self@);
        CellMap { entries }
    }
}

impl CellMap {
    #[verifier::type_invariant]
    pub closed spec fn well_formed(&self) -> bool {
        distinct(self@)
    }

    /// The map without any cell.
    pub fn new() -> (r: Self)
        ensures
            r@ == Seq::<(Vector2D, Tile)>::empty(),
    {
        let r = CellMap { entries: Vec::new() };
        assert(layout_of(r.entries@) =~= Seq::<(Vector2D, Tile)>::empty());
        r
    }

    /// The number of occupied positions, each of them held once.
    pub fn len(&self) -> (r: usize)
        ensures
            r == self@.len(),
            distinct(self@),
    {
        proof {
            use_type_invariant(self);
        }
        self.entries.len()
    }

    /// The position of the entry at an index.
    pub fn position(&self, i: usize) -> (r: Vector2D)
        requires
            i < self@.len(),
        ensures
            r == self@[i as int].0,
    {
        self.entries[i].0
    }

    /// The cell of the entry at an index.
    pub fn cell(&self, i: usize) -> (r: &Cell)
        requires
            i < self@.len(),
        ensures
            r@ == self@[i as int].1,
    {
        &self.entries[i].1
    }

    /// The index of the entry at a position, or the number of entries where
    /// there is none.
    fn index_of(&self, pos: Vector2D) -> (r: usize)
        ensures
            r == find(self@, pos),
    {
        let mut i: usize = 0;
        while i < self.entries.len()
            invariant
                i <= self.entries@.len(),
                forall|k: int| 0 <= k < i ==> (#[trigger] self@[k]).0 != pos,
            decreases self.entries@.len() - i,
        {
            let p = self.entries[i].0;
            if p.x == pos.x && p.y == pos.y {
                proof {
                    lemma_find_is(self@, pos, i as int);
                }
                return i;
            }
            i += 1;
        }
        proof {
            lemma_find_is(self@, pos, i as int);
        }
        i
    }

    /// The cell at a position.
    pub fn get(&self, pos: Vector2D) -> (r: Option<&Cell>)
        ensures
            match lookup(self@, pos) {
                Some(tile) => r.is_some() && r.unwrap()@ == tile,
                None => r.is_none(),
            },
    {
        let i = self.index_of(pos);
        if i < self.entries.len() {
            Some(&self.entries[i].1)
        } else {
            None
        }
    }

    /// Puts a cell at a position: in the place of the cell that was there, or
    /// at the end.
    pub fn insert(&mut self, pos: Vector2D, cell: Cell)
        ensures
            final(self)@ == put(old(self)@, pos, cell@),
    {
        proof {
            use_type_invariant(&*self);
            lemma_distinct_kept(self@, pos, cell@);
        }
        let i = self.index_of(pos);
        let ghost tile = cell@;
        let mut entries: Vec<(Vector2D, Cell)> = Vec::new();
        std::mem::swap(&mut entries, &mut self.entries);
        if i < entries.len() {
            entries.set(i, (pos, cell));
        } else {
            entries.push((pos, cell));
        }
        assert(layout_of(entries@) =~= put(old(self)@, pos, tile));
        self.entries = entries;
    }

    /// Puts a cell in the place of the cell of the entry at an index.
    pub fn replace(&mut self, i: usize, cell: Cell)
        requires
            i < old(self)@.len(),
        ensures
            final(self)@ == old(self)@.update(i as int, (old(self)@[i as int].0, cell@)),
    {
        proof {
            use_type_invariant(&*self);
        }
        let ghost tile = cell@;
        let ghost want = old(self)@.update(i as int, (old(self)@[i as int].0, tile));
        let mut entries: Vec<(Vector2D, Cell)> = Vec::new();
        std::mem::swap(&mut entries, &mut self.entries);
        let pos = entries[i].0;
        entries.set(i, (pos, cell));
        proof {
            assert(layout_of(entries@) =~= want);
            assert forall|a: int, b: int| 0 <= a < b < want.len() implies (#[trigger] want[a]).0 != (
            #[trigger] want[b]).0 by {
                assert(want[a].0 == old(self)@[a].0);
                assert(want[b].0 == old(self)@[b].0);
            }
        }
        self.entries = entries;
    }

    /// Takes the cell at a position away, and returns it.
    pub fn remove(&mut self, pos: Vector2D) -> (r: Option<Cell>)
        ensures
            final(self)@ == take_away(old(self)@, pos),
            match lookup(old(self)@, pos) {
                Some(tile) => r.is_some() && r.unwrap()@ == tile,
                None => r.is_none(),
            },
    {
        proof {
            use_type_invariant(&*self);
            lemma_distinct_kept(self@, pos, Tile::Submit);
        }
        let i = self.index_of(pos);
        let mut entries: Vec<(Vector2D, Cell)> = Vec::new();
        std::mem::swap(&mut entries, &mut self.entries);
        let r = if i < entries.len() {
            let (_, cell) = entries.remove(i);
            Some(cell)
        } else {
            None
        };
        assert(layout_of(entries@) =~= take_away(old(self)@, pos));
        self.entries = entries;
        r
    }
}

} // verus!
