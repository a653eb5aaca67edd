//! Looking up the chunks of a map, one coordinate at a time or over a box.
use super::coords::{
    box_high, box_len, box_low, box_point, calculate_chunk_coordinate, chunk_of, coord_ints,
    CoordIterator,
};
use super::world::Entity;
use super::{valid_layer, CellMapLabel, CellStorage, ChunkCoord, InMap};
use bevy::ecs::world::World;
use std::marker::PhantomData;
use vstd::prelude::*;

verus! {

/// What a query hands out for a chunk: the entity of the chunk, with its
/// chunk coordinate and the edge to its map.
pub struct ChunkItem<L, const N: usize> {
    pub entity: Entity,
    pub coord: ChunkCoord<N>,
    pub in_map: InMap<L>,
}

impl<L: CellMapLabel, const N: usize> CellStorage<L, N> {
    /// `item` is what a lookup hands out for the cell coordinate `cell`: the
    /// chunk that holds the cell, with its chunk coordinate and its map.
    pub open spec fn is_chunk_item_at(&self, item: ChunkItem<L, N>, cell: Seq<int>) -> bool {
        &&& self.chunk_at(chunk_of(cell, L::CHUNK_SIZE as int)) == Some(item.entity)
        &&& coord_ints(item.coord.0) == chunk_of(cell, L::CHUNK_SIZE as int)
        &&& self.map_id() == Some(item.in_map.map)
    }

    /// What a lookup hands out for the chunk of the cell coordinate `cell` is `item`.
    pub open spec fn answers_chunk(&self, cell: Seq<int>, item: Option<ChunkItem<L, N>>) -> bool {
        match item {
            Some(item) => self.is_chunk_item_at(item, cell),
            None => self.chunk_at(chunk_of(cell, L::CHUNK_SIZE as int)) is None,
        }
    }

    /// The item for the chunk that holds the given cell, if the map has that chunk.
    pub fn chunk_of_cell(&self, cell_c: [isize; N]) -> (item: Option<ChunkItem<L, N>>)
        requires
            valid_layer::<L, N>(),
            self.sound(),
        ensures
            self.answers_chunk(coord_ints(cell_c), item),
    {
        let (map_id, map) = match &self.map {
            Some((map_id, map)) => (*map_id, map),
            None => {
                return None;
            },
        };
        let chunk_c = calculate_chunk_coordinate(cell_c, L::CHUNK_SIZE);
        match map.chunk_id(&chunk_c) {
            Some(chunk_e) => Some(
                ChunkItem {
                    entity: chunk_e,
                    coord: ChunkCoord(chunk_c),
                    in_map: InMap { map: map_id, label: PhantomData },
                },
            ),
            None => None,
        }
    }
}

/// Used to query chunks from a cell map.
/// This query also implicitly queries maps
/// in order to properly resolve chunks.
pub struct ChunkQuery<'a, L: CellMapLabel, F: Fn(Entity) -> bool, const N: usize> {
    world: &'a World,
    storage: &'a CellStorage<L, N>,
    filter: &'a F,
}

impl<'a, L: CellMapLabel, F: Fn(Entity) -> bool, const N: usize> ChunkQuery<'a, L, F, N> {
    #[verifier::type_invariant]
    spec fn inv(self) -> bool {
        &&& valid_layer::<L, N>()
        &&& self.storage.wf(*self.world)
        &&& forall|entity: Entity| call_requires(*self.filter, (entity,))
    }

    /// The index that the query reads.
    pub closed spec fn storage(self) -> CellStorage<L, N> {
        *self.storage
    }

    /// The filter that an entity has to pass to be handed out.
    pub closed spec fn filter(self) -> F {
        *self.filter
    }

    /// `item` is what the query hands out for the cell coordinate `cell`:
    /// the chunk that holds the cell, with its chunk coordinate and its map.
    pub open spec fn is_item_at(self, item: ChunkItem<L, N>, cell: Seq<int>) -> bool {
        &&& self.storage().is_chunk_item_at(item, cell)
        &&& call_ensures(self.filter(), (item.entity,), true)
    }

    /// What the query hands out for the cell coordinate `cell` is `item`:
    /// the chunk that holds the cell, if its entity passes the filter, and
    /// nothing if the map has no such chunk or the filter turns its entity down.
    pub open spec fn answers(self, cell: Seq<int>, item: Option<ChunkItem<L, N>>) -> bool {
        match item {
            Some(item) => self.is_item_at(item, cell),
            None => self.storage().chunk_at(chunk_of(cell, L::CHUNK_SIZE as int)) matches Some(
                entity,
            ) ==> call_ensures(self.filter(), (entity,), false),
        }
    }

    /// A query on the index of a layer, for the chunks whose entities pass `filter`.
    pub fn new(world: &'a World, storage: &'a CellStorage<L, N>, filter: &'a F) -> (query: Self)
        requires
            valid_layer::<L, N>(),
            storage.wf(*world),
            forall|entity: Entity| call_requires(*filter, (entity,)),
        ensures
            query.storage() == *storage,
            query.filter() == *filter,
    {
        ChunkQuery { world, storage, filter }
    }

    /// Gets the readonly query item for the chunk of the given cell.
    pub fn get_at(&self, cell_c: [isize; N]) -> (item: Option<ChunkItem<L, N>>)
        ensures
            self.answers(coord_ints(cell_c), item),
    {
        proof {
            use_type_invariant(self);
        }
        match self.storage.chunk_of_cell(cell_c) {
            Some(item) => {
                if (self.filter)(item.entity) {
                    Some(item)
                } else {
                    None
                }
            },
            None => None,
        }
    }

    /// Gets the query item for the chunk of the given cell, through an
    /// exclusive borrow of the query.
    pub fn get_at_mut(&mut self, cell_c: [isize; N]) -> (item: Option<ChunkItem<L, N>>)
        ensures
            *final(self) == *old(self),
            old(self).answers(coord_ints(cell_c), item),
    {
        self.get_at(cell_c)
    }

    /// Iterate over the chunks of all the cells in a given space, starting
    /// at `corner_1` inclusive over `corner_2`.
    pub fn iter_in(&self, corner_1: [isize; N], corner_2: [isize; N])
        -> (iter: ChunkQueryIter<'_, L, F, N>)
        ensures
            iter.query() == *self,
            iter.low() == box_low(coord_ints(corner_1), coord_ints(corner_2)),
            iter.high() == box_high(coord_ints(corner_1), coord_ints(corner_2)),
            iter.position() == 0,
    {
        ChunkQueryIter::new(self, corner_1, corner_2)
    }

    /// Iterate over the chunks of all the cells in a given space, starting
    /// at `corner_1` inclusive over `corner_2`, through an exclusive borrow
    /// of the query.
    pub fn iter_in_mut(&mut self, corner_1: [isize; N], corner_2: [isize; N]) -> (iter:
        ChunkQueryIterMut<'_, L, F, N>)
        ensures
            iter.query() == *old(self),
            iter.low() == box_low(coord_ints(corner_1), coord_ints(corner_2)),
            iter.high() == box_high(coord_ints(corner_1), coord_ints(corner_2)),
            iter.position() == 0,
    {
        ChunkQueryIterMut::new(&*self, corner_1, corner_2)
    }

    /// A readonly query on the same index.
    pub fn to_readonly(&self) -> (query: ChunkQuery<'_, L, F, N>)
        ensures
            query.storage() == self.storage(),
            query.filter() == self.filter(),
    {
        proof {
            use_type_invariant(self);
        }
        ChunkQuery { world: self.world, storage: self.storage, filter: self.filter }
    }
}

/// The first place at or after `start` whose point lies in a chunk of the
/// map is the one before `stop`, or there is none and `stop` is the number
/// of points.
pub open spec fn scanned<L: CellMapLabel, F: Fn(Entity) -> bool, const N: usize>(
    query: ChunkQuery<'_, L, F, N>,
    lo: Seq<int>,
    hi: Seq<int>,
    start: int,
    stop: int,
    item: Option<ChunkItem<L, N>>,
) -> bool {
    match item {
        Some(item) => {
            &&& start < stop <= box_len(lo, hi)
            &&& query.is_item_at(item, box_point(lo, hi, stop - 1))
            &&& forall|place: int|
                start <= place < stop - 1 ==> query.answers(
                    #[trigger] box_point(lo, hi, place),
                    None,
                )
        },
        None => {
            &&& stop == box_len(lo, hi)
            &&& forall|place: int|
                start <= place < stop ==> query.answers(#[trigger] box_point(lo, hi, place), None)
        },
    }
}

/// Walks the points of a box in row-major order and hands out the chunk of
/// each point that lies in one.
pub struct ChunkQueryIter<'a, L: CellMapLabel, F: Fn(Entity) -> bool, const N: usize> {
    coord_iter: CoordIterator<N>,
    cell_q: &'a ChunkQuery<'a, L, F, N>,
}

impl<'a, L: CellMapLabel, F: Fn(Entity) -> bool, const N: usize> ChunkQueryIter<'a, L, F, N> {
    /// The query that the iterator reads.
    pub closed spec fn query(self) -> ChunkQuery<'a, L, F, N> {
        *self.cell_q
    }

    /// The lower corner of the box.
    pub closed spec fn low(self) -> Seq<int> {
        self.coord_iter.low()
    }

    /// The upper corner of the box.
    pub closed spec fn high(self) -> Seq<int> {
        self.coord_iter.high()
    }

    /// The number of points of the box that the iterator has passed.
    pub closed spec fn position(self) -> int {
        self.coord_iter.position()
    }

    fn new(cell_q: &'a ChunkQuery<'a, L, F, N>, corner_1: [isize; N], corner_2: [isize; N])
        -> (iter:
        Self)
        ensures
            iter.query() == *cell_q,
            iter.low() == box_low(coord_ints(corner_1), coord_ints(corner_2)),
            iter.high() == box_high(coord_ints(corner_1), coord_ints(corner_2)),
            iter.position() == 0,
    {
        Self { cell_q, coord_iter: CoordIterator::new(corner_1, corner_2) }
    }

    /// Hands out the chunk of the next point of the box that lies in one,
    /// or nothing once the box is exhausted.
    pub fn next(&mut self) -> (item: Option<ChunkItem<L, N>>)
        ensures
            final(self).query() == old(self).query(),
            final(self).low() == old(self).low(),
            final(self).high() == old(self).high(),
            0 <= old(self).position() <= box_len(old(self).low(), old(self).high()),
            scanned(
                old(self).query(),
                old(self).low(),
                old(self).high(),
                old(self).position(),
                final(self).position(),
                item,
            ),
    {
        let ghost lo = self.low();
        let ghost hi = self.high();
        let ghost start = self.position();
        if self.coord_iter.is_done() {
            return None;
        }
        loop
            invariant
                self.cell_q == old(self).cell_q,
                lo == old(self).low(),
                hi == old(self).high(),
                start == old(self).position(),
                0 <= start <= box_len(lo, hi),
                self.low() == lo,
                self.high() == hi,
                start <= self.position(),
                forall|place: int|
                    start <= place < self.position() ==> self.query().answers(
                        #[trigger] box_point(lo, hi, place),
                        None,
                    ),
            decreases box_len(lo, hi) - self.position(),
        {
            match self.coord_iter.next() {
                Some(target) => {
                    let cell = self.cell_q.get_at(target);
                    if cell.is_some() {
                        return cell;
                    }
                },
                None => {
                    return None;
                },
            }
        }
    }
}

/// Walks the points of a box in row-major order and hands out the chunk of
/// each point that lies in one, holding the query exclusively.
pub struct ChunkQueryIterMut<'a, L: CellMapLabel, F: Fn(Entity) -> bool, const N: usize> {
    coord_iter: CoordIterator<N>,
    cell_q: &'a ChunkQuery<'a, L, F, N>,
}

impl<'a, L: CellMapLabel, F: Fn(Entity) -> bool, const N: usize> ChunkQueryIterMut<'a, L, F, N> {
    /// The query that the iterator reads.
    pub closed spec fn query(self) -> ChunkQuery<'a, L, F, N> {
        *self.cell_q
    }

    /// The lower corner of the box.
    pub closed spec fn low(self) -> Seq<int> {
        self.coord_iter.low()
    }

    /// The upper corner of the box.
    pub closed spec fn high(self) -> Seq<int> {
        self.coord_iter.high()
    }

    /// The number of points of the box that the iterator has passed.
    pub closed spec fn position(self) -> int {
        self.coord_iter.position()
    }

    fn new(cell_q: &'a ChunkQuery<'a, L, F, N>, corner_1: [isize; N], corner_2: [isize; N])
        -> (iter:
        Self)
        ensures
            iter.query() == *cell_q,
            iter.low() == box_low(coord_ints(corner_1), coord_ints(corner_2)),
            iter.high() == box_high(coord_ints(corner_1), coord_ints(corner_2)),
            iter.position() == 0,
    {
        Self { cell_q, coord_iter: CoordIterator::new(corner_1, corner_2) }
    }

    /// Hands out the chunk of the next point of the box that lies in one,
    /// or nothing once the box is exhausted.
    pub fn next(&mut self) -> (item: Option<ChunkItem<L, N>>)
        ensures
            final(self).query() == old(self).query(),
            final(self).low() == old(self).low(),
            final(self).high() == old(self).high(),
            0 <= old(self).position() <= box_len(old(self).low(), old(self).high()),
            scanned(
                old(self).query(),
                old(self).low(),
                old(self).high(),
                old(self).position(),
                final(self).position(),
                item,
            ),
    {
        let ghost lo = self.low();
        let ghost hi = self.high();
        let ghost start = self.position();
        if self.coord_iter.is_done() {
            return None;
        }
        loop
            invariant
                self.cell_q == old(self).cell_q,
                lo == old(self).low(),
                hi == old(self).high(),
                start == old(self).position(),
                0 <= start <= box_len(lo, hi),
                self.low() == lo,
                self.high() == hi,
                start <= self.position(),
                forall|place: int|
                    start <= place < self.position() ==> self.query().answers(
                        #[trigger] box_point(lo, hi, place),
                        None,
                    ),
            decreases box_len(lo, hi) - self.position(),
        {
            match self.coord_iter.next() {
                Some(target) => {
                    let cell = self.cell_q.get_at(target);
                    if cell.is_some() {
                        return cell;
                    }
                },
                None => {
                    return None;
                },
            }
        }
    }
}

} // verus!
