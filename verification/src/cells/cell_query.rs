//! Looking up the cells of a map, one coordinate at a time or over a box.
use super::coords::{
    box_high, box_len, box_low, box_point, calculate_cell_coordinate, calculate_cell_index,
    calculate_chunk_coordinate, chunk_high, chunk_low, chunk_of, coord_ints, lemma_chunk_corners,
    local_of, max_cell_index, CoordIterator,
};
use super::world::Entity;
use super::{
    valid_layer, CellCoord, CellIndex, CellMapLabel, CellStorage, InChunk,
};
use bevy::ecs::world::World;
use std::marker::PhantomData;
use vstd::prelude::*;

verus! {

/// What a query hands out for an occupied coordinate: the entity that sits
/// there, with its slot, its coordinate and the edge to its chunk.
pub struct CellItem<L, const N: usize> {
    pub entity: Entity,
    pub index: CellIndex,
    pub coord: CellCoord<N>,
    pub in_chunk: InChunk<L>,
}

impl<L: CellMapLabel, const N: usize> CellStorage<L, N> {
    /// `item` is what a lookup hands out for the coordinate `cell`: the
    /// entity that occupies it, with its slot, the coordinate and its chunk.
    pub open spec fn is_item_at(&self, item: CellItem<L, N>, cell: Seq<int>) -> bool {
        &&& self.occupant(cell) == Some(item.entity)
        &&& coord_ints(item.coord.0) == cell
        &&& item.index.0 == local_of(cell, L::CHUNK_SIZE as int)
        &&& self.chunk_at(chunk_of(cell, L::CHUNK_SIZE as int)) == Some(item.in_chunk.chunk)
    }

    /// What a lookup hands out for the coordinate `cell` is `item`.
    pub open spec fn answers(&self, cell: Seq<int>, item: Option<CellItem<L, N>>) -> bool {
        match item {
            Some(item) => self.is_item_at(item, cell),
            None => self.occupant(cell) is None,
        }
    }

    /// The item for the given cell: the entity that occupies the coordinate,
    /// with its slot, the coordinate and its chunk, if the coordinate is occupied.
    pub fn cell_at(&self, cell_c: [isize; N]) -> (item: Option<CellItem<L, N>>)
        requires
            valid_layer::<L, N>(),
            self.sound(),
        ensures
            self.answers(coord_ints(cell_c), item),
    {
        let map = match &self.map {
            Some((_, map)) => map,
            None => {
                return None;
            },
        };
        let chunk_c = calculate_chunk_coordinate(cell_c, L::CHUNK_SIZE);
        let cell_index = calculate_cell_index(cell_c, L::CHUNK_SIZE);
        match map.lookup(&chunk_c, cell_index) {
            Some((chunk_e, cell_e)) => Some(
                CellItem {
                    entity: cell_e,
                    index: CellIndex(cell_index),
                    coord: CellCoord(cell_c),
                    in_chunk: InChunk { chunk: chunk_e, label: PhantomData },
                },
            ),
            None => None,
        }
    }
}

/// Used to query individual cells from a cell map.
/// This query also implicitly queries chunks and maps
/// in order to properly resolve cells.
pub struct CellQuery<'a, L: CellMapLabel, F: Fn(Entity) -> bool, const N: usize> {
    world: &'a World,
    storage: &'a CellStorage<L, N>,
    filter: &'a F,
}

impl<'a, L: CellMapLabel, F: Fn(Entity) -> bool, const N: usize> CellQuery<'a, L, F, N> {
    #[verifier::type_invariant]
    spec fn inv(self) -> bool {
        &&& valid_layer::<L, N>()
        &&& self.storage.wf(*self.world)
        &&& forall|entity: Entity| call_requires(*self.filter, (entity,))
    }

    /// The index that the query reads.
    pub closed spec fn storage(self) -> CellStorage<L, N> {
        *self.storage
    }

    /// The filter that an entity has to pass to be handed out.
    pub closed spec fn filter(self) -> F {
        *self.filter
    }

    /// `item` is what the query hands out for the coordinate `cell`: the
    /// entity that occupies it, with its slot, the coordinate and its chunk.
    pub open spec fn is_item_at(self, item: CellItem<L, N>, cell: Seq<int>) -> bool {
        &&& self.storage().is_item_at(item, cell)
        &&& call_ensures(self.filter(), (item.entity,), true)
    }

    /// What the query hands out for the coordinate `cell` is `item`: the
    /// entity that occupies it, if it passes the filter, and nothing if the
    /// coordinate is empty or the filter turns its entity down.
    pub open spec fn answers(self, cell: Seq<int>, item: Option<CellItem<L, N>>) -> bool {
        match item {
            Some(item) => self.is_item_at(item, cell),
            None => self.storage().occupant(cell) matches Some(entity) ==> call_ensures(
                self.filter(),
                (entity,),
                false,
            ),
        }
    }

    /// A query on the index of a layer, for the cells whose entities pass `filter`.
    pub fn new(world: &'a World, storage: &'a CellStorage<L, N>, filter: &'a F) -> (query: Self)
        requires
            valid_layer::<L, N>(),
            storage.wf(*world),
            forall|entity: Entity| call_requires(*filter, (entity,)),
        ensures
            query.storage() == *storage,
            query.filter() == *filter,
    {
        CellQuery { world, storage, filter }
    }

    /// Gets the readonly query item for the given cell.
    pub fn get_at(&self, cell_c: [isize; N]) -> (item: Option<CellItem<L, N>>)
        ensures
            self.answers(coord_ints(cell_c), item),
    {
        proof {
            use_type_invariant(self);
        }
        match self.storage.cell_at(cell_c) {
            Some(item) => {
                if (self.filter)(item.entity) {
                    Some(item)
                } else {
                    None
                }
            },
            None => None,
        }
    }
}

impl<'a, L: CellMapLabel, F: Fn(Entity) -> bool, const N: usize> CellQuery<'a, L, F, N> {
    /// Gets the query item for the given cell, through an exclusive borrow of the query.
    pub fn get_at_mut(&mut self, cell_c: [isize; N]) -> (item: Option<CellItem<L, N>>)
        ensures
            *final(self) == *old(self),
            old(self).answers(coord_ints(cell_c), item),
    {
        self.get_at(cell_c)
    }

    /// A readonly query on the same index.
    pub fn to_readonly(&self) -> (query: CellQuery<'_, L, F, N>)
        ensures
            query.storage() == self.storage(),
            query.filter() == self.filter(),
    {
        proof {
            use_type_invariant(self);
        }
        CellQuery { world: self.world, storage: self.storage, filter: self.filter }
    }

    /// Iterate over all the cells in a given space, starting at `corner_1`
    /// inclusive over `corner_2`
    pub fn iter_in(&self, corner_1: [isize; N], corner_2: [isize; N])
        -> (iter: CellQueryIter<'_, L, F, N>)
        ensures
            iter.query() == *self,
            iter.low() == box_low(coord_ints(corner_1), coord_ints(corner_2)),
            iter.high() == box_high(coord_ints(corner_1), coord_ints(corner_2)),
            iter.position() == 0,
    {
        CellQueryIter::new(self, corner_1, corner_2)
    }

    /// Iterate over all the cells in a given space, starting at `corner_1`
    /// inclusive over `corner_2`, through an exclusive borrow of the query.
    pub fn iter_in_mut(&mut self, corner_1: [isize; N], corner_2: [isize; N]) -> (iter:
        CellQueryIterMut<'_, L, F, N>)
        ensures
            iter.query() == *old(self),
            iter.low() == box_low(coord_ints(corner_1), coord_ints(corner_2)),
            iter.high() == box_high(coord_ints(corner_1), coord_ints(corner_2)),
            iter.position() == 0,
    {
        CellQueryIterMut::new(&*self, corner_1, corner_2)
    }
}

/// The cells of the chunk at `chunk`, from the lowest to the highest, have
/// coordinates that a machine integer can hold.
pub open spec fn chunk_fits(chunk: Seq<int>, side: int) -> bool {
    forall|i: int|
        0 <= i < chunk.len() ==> isize::MIN <= #[trigger] chunk[i] * side && chunk[i] * side + side
            - 1 <= isize::MAX
}

impl<'a, L: CellMapLabel, F: Fn(Entity) -> bool, const N: usize> CellQuery<'a, L, F, N> {
    /// The lowest and the highest cell of the chunk at `chunk_c`.
    fn chunk_corners(chunk_c: [isize; N]) -> (corners: ([isize; N], [isize; N]))
        requires
            valid_layer::<L, N>(),
            chunk_fits(coord_ints(chunk_c), L::CHUNK_SIZE as int),
        ensures
            coord_ints(corners.0) == chunk_low(coord_ints(chunk_c), L::CHUNK_SIZE as int),
            coord_ints(corners.1) == chunk_high(coord_ints(chunk_c), L::CHUNK_SIZE as int),
    {
        let ghost chunk = coord_ints(chunk_c);
        let ghost side = L::CHUNK_SIZE as int;
        proof {
            lemma_chunk_corners(chunk, side);
            assert forall|i: int| 0 <= i < N implies isize::MIN <= #[trigger] chunk_low(
                chunk,
                side,
            )[i] <= isize::MAX && isize::MIN <= chunk_high(chunk, side)[i] <= isize::MAX by {
                assert(isize::MIN <= chunk[i] * side);
            }
        }
        let corner_1 = calculate_cell_coordinate(chunk_c, 0, L::CHUNK_SIZE);
        let corner_2 = calculate_cell_coordinate(
            chunk_c,
            max_cell_index::<N>(L::CHUNK_SIZE),
            L::CHUNK_SIZE,
        );
        (corner_1, corner_2)
    }

    /// Iter all cells in a given chunk.
    /// # Note
    /// The coordinates for this function are given in chunk coordinates.
    pub fn iter_in_chunk(&self, chunk_c: [isize; N]) -> (iter: CellQueryIter<'_, L, F, N>)
        requires
            chunk_fits(coord_ints(chunk_c), L::CHUNK_SIZE as int),
        ensures
            iter.query() == *self,
            iter.low() == chunk_low(coord_ints(chunk_c), L::CHUNK_SIZE as int),
            iter.high() == chunk_high(coord_ints(chunk_c), L::CHUNK_SIZE as int),
            iter.position() == 0,
    {
        proof {
            use_type_invariant(self);
        }
        // Get corners of chunk
        let (corner_1, corner_2) = Self::chunk_corners(chunk_c);
        proof {
            let lo = coord_ints(corner_1);
            let hi = coord_ints(corner_2);
            assert(box_low(lo, hi) =~= lo);
            assert(box_high(lo, hi) =~= hi);
        }
        // Create cell iter
        CellQueryIter::new(self, corner_1, corner_2)
    }

    /// Iter all cells in a given chunk, through an exclusive borrow of the query.
    /// # Note
    /// The coordinates for this function are given in chunk coordinates.
    pub fn iter_in_chunk_mut(&mut self, chunk_c: [isize; N])
        -> (iter: CellQueryIterMut<'_, L, F, N>)
        requires
            chunk_fits(coord_ints(chunk_c), L::CHUNK_SIZE as int),
        ensures
            iter.query() == *old(self),
            iter.low() == chunk_low(coord_ints(chunk_c), L::CHUNK_SIZE as int),
            iter.high() == chunk_high(coord_ints(chunk_c), L::CHUNK_SIZE as int),
            iter.position() == 0,
    {
        proof {
            use_type_invariant(&*self);
        }
        // Get corners of chunk
        let (corner_1, corner_2) = Self::chunk_corners(chunk_c);
        proof {
            let lo = coord_ints(corner_1);
            let hi = coord_ints(corner_2);
            assert(box_low(lo, hi) =~= lo);
            assert(box_high(lo, hi) =~= hi);
        }
        // Create cell iter
        CellQueryIterMut::new(&*self, corner_1, corner_2)
    }

    /// Iter all cells in the chunks in the given range.
    /// # Note
    /// The coordinates for this function are given in chunk coordinates.
    pub fn iter_in_chunks(&self, chunk_c_1: [isize; N], chunk_c_2: [isize; N]) -> (iter:
        CellQueryIter<'_, L, F, N>)
        requires
            chunk_fits(coord_ints(chunk_c_1), L::CHUNK_SIZE as int),
            chunk_fits(coord_ints(chunk_c_2), L::CHUNK_SIZE as int),
        ensures
            iter.query() == *self,
            iter.low() == box_low(
                chunk_low(coord_ints(chunk_c_1), L::CHUNK_SIZE as int),
                chunk_high(coord_ints(chunk_c_2), L::CHUNK_SIZE as int),
            ),
            iter.high() == box_high(
                chunk_low(coord_ints(chunk_c_1), L::CHUNK_SIZE as int),
                chunk_high(coord_ints(chunk_c_2), L::CHUNK_SIZE as int),
            ),
            iter.position() == 0,
    {
        proof {
            use_type_invariant(self);
        }
        // Get corners of chunk
        let corner_1 = Self::chunk_corners(chunk_c_1).0;
        let corner_2 = Self::chunk_corners(chunk_c_2).1;
        // Create cell iter
        CellQueryIter::new(self, corner_1, corner_2)
    }

    /// Iter all cells in the chunks in the given range, through an exclusive borrow of the query.
    /// # Note
    /// The coordinates for this function are given in chunk coordinates.
    pub fn iter_in_chunks_mut(&mut self, chunk_c_1: [isize; N], chunk_c_2: [isize; N]) -> (iter:
        CellQueryIterMut<'_, L, F, N>)
        requires
            chunk_fits(coord_ints(chunk_c_1), L::CHUNK_SIZE as int),
            chunk_fits(coord_ints(chunk_c_2), L::CHUNK_SIZE as int),
        ensures
            iter.query() == *old(self),
            iter.low() == box_low(
                chunk_low(coord_ints(chunk_c_1), L::CHUNK_SIZE as int),
                chunk_high(coord_ints(chunk_c_2), L::CHUNK_SIZE as int),
            ),
            iter.high() == box_high(
                chunk_low(coord_ints(chunk_c_1), L::CHUNK_SIZE as int),
                chunk_high(coord_ints(chunk_c_2), L::CHUNK_SIZE as int),
            ),
            iter.position() == 0,
    {
        proof {
            use_type_invariant(&*self);
        }
        // Get corners of chunk
        let corner_1 = Self::chunk_corners(chunk_c_1).0;
        let corner_2 = Self::chunk_corners(chunk_c_2).1;
        // Create cell iter
        CellQueryIterMut::new(&*self, corner_1, corner_2)
    }
}

/// The first place at or after `start` whose point is occupied is the one
/// before `stop`, or there is none and `stop` is the number of points.
pub open spec fn scanned<L: CellMapLabel, F: Fn(Entity) -> bool, const N: usize>(
    query: CellQuery<'_, L, F, N>,
    lo: Seq<int>,
    hi: Seq<int>,
    start: int,
    stop: int,
    item: Option<CellItem<L, N>>,
) -> bool {
    match item {
        Some(item) => {
            &&& start < stop <= box_len(lo, hi)
            &&& query.is_item_at(item, box_point(lo, hi, stop - 1))
            &&& forall|place: int|
                start <= place < stop - 1
                    ==> query.answers(#[trigger] box_point(lo, hi, place), None)
        },
        None => {
            &&& stop == box_len(lo, hi)
            &&& forall|place: int|
                start <= place < stop ==> query.answers(#[trigger] box_point(lo, hi, place), None)
        },
    }
}

/// Walks the occupied cells of a box in row-major order.
pub struct CellQueryIter<'a, L: CellMapLabel, F: Fn(Entity) -> bool, const N: usize> {
    coord_iter: CoordIterator<N>,
    cell_q: &'a CellQuery<'a, L, F, N>,
}

impl<'a, L: CellMapLabel, F: Fn(Entity) -> bool, const N: usize> CellQueryIter<'a, L, F, N> {
    /// The query that the iterator reads.
    pub closed spec fn query(self) -> CellQuery<'a, L, F, N> {
        *self.cell_q
    }

    /// The lower corner of the box.
    pub closed spec fn low(self) -> Seq<int> {
        self.coord_iter.low()
    }

    /// The upper corner of the box.
    pub closed spec fn high(self) -> Seq<int> {
        self.coord_iter.high()
    }

    /// The number of points of the box that the iterator has passed.
    pub closed spec fn position(self) -> int {
        self.coord_iter.position()
    }

    fn new(cell_q: &'a CellQuery<'a, L, F, N>, corner_1: [isize; N], corner_2: [isize; N]) -> (iter:
        Self)
        ensures
            iter.query() == *cell_q,
            iter.low() == box_low(coord_ints(corner_1), coord_ints(corner_2)),
            iter.high() == box_high(coord_ints(corner_1), coord_ints(corner_2)),
            iter.position() == 0,
    {
        Self { cell_q, coord_iter: CoordIterator::new(corner_1, corner_2) }
    }

    /// Hands out the next occupied cell of the box, or nothing once the box is exhausted.
    pub fn next(&mut self) -> (item: Option<CellItem<L, N>>)
        ensures
            final(self).query() == old(self).query(),
            final(self).low() == old(self).low(),
            final(self).high() == old(self).high(),
            0 <= old(self).position() <= box_len(old(self).low(), old(self).high()),
            scanned(
                old(self).query(),
                old(self).low(),
                old(self).high(),
                old(self).position(),
                final(self).position(),
                item,
            ),
    {
        let ghost lo = self.low();
        let ghost hi = self.high();
        let ghost start = self.position();
        if self.coord_iter.is_done() {
            return None;
        }
        loop
            invariant
                self.cell_q == old(self).cell_q,
                lo == old(self).low(),
                hi == old(self).high(),
                start == old(self).position(),
                0 <= start <= box_len(lo, hi),
                self.low() == lo,
                self.high() == hi,
                start <= self.position(),
                forall|place: int|
                    start <= place < self.position()
                        ==> self.query().answers(#[trigger] box_point(lo, hi, place), None),
            decreases box_len(lo, hi) - self.position(),
        {
            let ghost place = self.position();
            match self.coord_iter.next() {
                Some(target) => {
                    let cell = self.cell_q.get_at(target);
                    if cell.is_some() {
                        return cell;
                    }
                },
                None => {
                    return None;
                },
            }
        }
    }
}

/// Walks the occupied cells of a box in row-major order, holding the query exclusively.
pub struct CellQueryIterMut<'a, L: CellMapLabel, F: Fn(Entity) -> bool, const N: usize> {
    coord_iter: CoordIterator<N>,
    cell_q: &'a CellQuery<'a, L, F, N>,
}

impl<'a, L: CellMapLabel, F: Fn(Entity) -> bool, const N: usize> CellQueryIterMut<'a, L, F, N> {
    /// The query that the iterator reads.
    pub closed spec fn query(self) -> CellQuery<'a, L, F, N> {
        *self.cell_q
    }

    /// The lower corner of the box.
    pub closed spec fn low(self) -> Seq<int> {
        self.coord_iter.low()
    }

    /// The upper corner of the box.
    pub closed spec fn high(self) -> Seq<int> {
        self.coord_iter.high()
    }

    /// The number of points of the box that the iterator has passed.
    pub closed spec fn position(self) -> int {
        self.coord_iter.position()
    }

    fn new(cell_q: &'a CellQuery<'a, L, F, N>, corner_1: [isize; N], corner_2: [isize; N]) -> (iter:
        Self)
        ensures
            iter.query() == *cell_q,
            iter.low() == box_low(coord_ints(corner_1), coord_ints(corner_2)),
            iter.high() == box_high(coord_ints(corner_1), coord_ints(corner_2)),
            iter.position() == 0,
    {
        Self { cell_q, coord_iter: CoordIterator::new(corner_1, corner_2) }
    }

    /// Hands out the next occupied cell of the box, or nothing once the box is exhausted.
    pub fn next(&mut self) -> (item: Option<CellItem<L, N>>)
        ensures
            final(self).query() == old(self).query(),
            final(self).low() == old(self).low(),
            final(self).high() == old(self).high(),
            0 <= old(self).position() <= box_len(old(self).low(), old(self).high()),
            scanned(
                old(self).query(),
                old(self).low(),
                old(self).high(),
                old(self).position(),
                final(self).position(),
                item,
            ),
    {
        let ghost lo = self.low();
        let ghost hi = self.high();
        let ghost start = self.position();
        if self.coord_iter.is_done() {
            return None;
        }
        loop
            invariant
                self.cell_q == old(self).cell_q,
                lo == old(self).low(),
                hi == old(self).high(),
                start == old(self).position(),
                0 <= start <= box_len(lo, hi),
                self.low() == lo,
                self.high() == hi,
                start <= self.position(),
                forall|place: int|
                    start <= place < self.position()
                        ==> self.query().answers(#[trigger] box_point(lo, hi, place), None),
            decreases box_len(lo, hi) - self.position(),
        {
            match self.coord_iter.next() {
                Some(target) => {
                    let cell = self.cell_q.get_at(target);
                    if cell.is_some() {
                        return cell;
                    }
                },
                None => {
                    return None;
                },
            }
        }
    }
}

} // verus!
