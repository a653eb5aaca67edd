//! The chunked index of a cell map: which entity sits at which coordinate.
//!
//! A map holds chunks by chunk coordinate. A chunk holds one slot per cell
//! of the hypercube it covers, and a slot is empty or names the entity that
//! sits there. Map, chunks and cells are all entities of one world; the index
//! records their handles and nothing else of them.
pub mod cell_query;
pub mod chunk_query;
pub mod commands;
pub mod coords;
pub mod laws;
pub mod world;

use bevy::ecs::world::World;
use coords::{chunk_of, coord_ints, local_of, slot_count, valid_chunk_size};
use std::marker::PhantomData;
use std::ops::Deref;
use vstd::arithmetic::power::{lemma_pow0, lemma_pow_increases, lemma_pow_positive, pow};
use vstd::prelude::*;
use world::{contains, exists_in, Entity};

verus! {

// ===============
// Cell Components
// ===============
/// The slot of a cell inside its chunk.
#[derive(Clone, Copy, Debug, PartialEq, Eq, Structural)]
pub struct CellIndex(pub usize);

impl From<usize> for CellIndex {
    fn from(value: usize) -> (index: Self) {
        Self(value)
    }
}

impl vstd::std_specs::convert::FromSpecImpl<usize> for CellIndex {
    open spec fn obeys_from_spec() -> bool {
        true
    }

    open spec fn from_spec(value: usize) -> Self {
        CellIndex(value)
    }
}

impl Deref for CellIndex {
    type Target = usize;

    fn deref(&self) -> (value: &usize)
        ensures
            *value == self.0,
    {
        &self.0
    }
}

/// The coordinate of a cell in the map.
#[derive(Clone, Copy, Debug)]
pub struct CellCoord<const N: usize>(pub [isize; N]);

impl<const N: usize> CellCoord<N> {
    /// The component for the cell at `value`.
    pub fn new(value: [isize; N]) -> (coord: Self)
        ensures
            coord.0 == value,
    {
        Self(value)
    }
}

impl<const N: usize> Deref for CellCoord<N> {
    type Target = [isize; N];

    fn deref(&self) -> (value: &[isize; N])
        ensures
            *value == self.0,
    {
        &self.0
    }
}

/// The edge from a cell to the chunk that owns it.
#[derive(Debug)]
pub struct InChunk<L> {
    pub chunk: Entity,
    pub label: PhantomData<L>,
}

// ================
// Chunk Components
// ================
/// The coordinate of a chunk, in chunks.
#[derive(Clone, Copy, Debug, PartialEq, Eq, Hash)]
pub struct ChunkCoord<const N: usize>(pub [isize; N]);

impl<const N: usize> From<[isize; N]> for ChunkCoord<N> {
    fn from(value: [isize; N]) -> (coord: Self) {
        Self(value)
    }
}

impl<const N: usize> vstd::std_specs::convert::FromSpecImpl<[isize; N]> for ChunkCoord<N> {
    open spec fn obeys_from_spec() -> bool {
        true
    }

    open spec fn from_spec(value: [isize; N]) -> Self {
        ChunkCoord(value)
    }
}

impl<const N: usize> Deref for ChunkCoord<N> {
    type Target = [isize; N];

    fn deref(&self) -> (value: &[isize; N])
        ensures
            *value == self.0,
    {
        &self.0
    }
}

/// The slots of one chunk.
pub struct Chunk {
    pub(crate) cells: Vec<Option<Entity>>,
}

impl View for Chunk {
    type V = Seq<Option<Entity>>;

    closed spec fn view(&self) -> Seq<Option<Entity>> {
        self.cells@
    }
}

impl Chunk {
    /// A chunk of `chunk_size` empty slots.
    pub(crate) fn new(chunk_size: usize) -> (chunk: Self)
        ensures
            chunk@ == Seq::new(chunk_size as nat, |i: int| None::<Entity>),
    {
        let mut cells: Vec<Option<Entity>> = Vec::new();
        let mut i: usize = 0;
        while i < chunk_size
            invariant
                i <= chunk_size,
                cells@ == Seq::new(i as nat, |j: int| None::<Entity>),
            decreases chunk_size - i,
        {
            cells.push(None);
            i += 1;
            assert(cells@ =~= Seq::new(i as nat, |j: int| None::<Entity>));
        }
        Chunk { cells }
    }

    /// The number of slots.
    pub(crate) fn len(&self) -> (len: usize)
        ensures
            len == self@.len(),
    {
        self.cells.len()
    }

    /// The content of slot `index`.
    pub(crate) fn get(&self, index: usize) -> (cell: Option<Entity>)
        requires
            index < self@.len(),
        ensures
            cell == self@[index as int],
    {
        self.cells[index]
    }

    /// Writes `cell` into slot `index` and returns what the slot held.
    pub(crate) fn replace(&mut self, index: usize, cell: Option<Entity>) -> (before: Option<Entity>)
        requires
            index < old(self)@.len(),
        ensures
            before == old(self)@[index as int],
            final(self)@ == old(self)@.update(index as int, cell),
    {
        let before = self.cells[index];
        self.cells[index] = cell;
        before
    }

    /// Empties the slots whose entities do not exist in `world`.
    pub(crate) fn prune(&mut self, world: &World)
        ensures
            final(self)@ == living(old(self)@, *world),
    {
        let mut i: usize = 0;
        while i < self.cells.len()
            invariant
                i <= self.cells.len(),
                self.cells@.len() == old(self).cells@.len(),
                forall|j: int| 0 <= j < i ==> self.cells@[j] == living(old(self).cells@, *world)[j],
                forall|j: int| i <= j < self.cells@.len() ==> self.cells@[j] == old(self).cells@[j],
            decreases self.cells.len() - i,
        {
            if let Some(cell) = self.cells[i] {
                if !contains(world, cell) {
                    self.cells[i] = None;
                }
            }
            i += 1;
        }
        assert(self.cells@ =~= living(old(self).cells@, *world));
    }

    /// Empties the slots that hold `entity`.
    pub(crate) fn release(&mut self, entity: Entity)
        ensures
            final(self)@ == emptied(old(self)@, entity),
    {
        let mut i: usize = 0;
        while i < self.cells.len()
            invariant
                i <= self.cells.len(),
                self.cells@.len() == old(self).cells@.len(),
                forall|j: int| 0 <= j < i ==> self.cells@[j]
                    == emptied(old(self).cells@, entity)[j],
                forall|j: int| i <= j < self.cells@.len() ==> self.cells@[j] == old(self).cells@[j],
            decreases self.cells.len() - i,
        {
            if let Some(cell) = self.cells[i] {
                if cell == entity {
                    self.cells[i] = None;
                }
            }
            i += 1;
        }
        assert(self.cells@ =~= emptied(old(self).cells@, entity));
    }

    /// Whether some slot holds `entity`.
    pub(crate) fn holds(&self, entity: Entity) -> (held: bool)
        ensures
            held == exists|slot: int| 0 <= slot < self@.len() && self@[slot] == Some(entity),
    {
        let mut i: usize = 0;
        while i < self.cells.len()
            invariant
                i <= self.cells.len(),
                forall|slot: int| 0 <= slot < i ==> self.cells@[slot] != Some(entity),
            decreases self.cells.len() - i,
        {
            if let Some(cell) = self.cells[i] {
                if cell == entity {
                    return true;
                }
            }
            i += 1;
        }
        false
    }
}

/// The slots with `entity` taken out of every slot that holds it.
pub open spec fn emptied(cells: Seq<Option<Entity>>, entity: Entity) -> Seq<Option<Entity>> {
    Seq::new(
        cells.len(),
        |i: int|
            if cells[i] == Some(entity) {
                None
            } else {
                cells[i]
            },
    )
}

/// An index that is consistent with a world stays so when an entity is
/// taken out of its slots, and it holds that entity no more unless the
/// entity is its map or one of its chunks, in which case nothing changes.
pub proof fn lemma_without_cell(index: IndexView, entity: Entity, world: World, side: usize, n: nat)
    requires
        index.wf(world, side, n),
    ensures
        index.without_cell(entity).wf(world, side, n),
        forall|role: Role|
            #![trigger index.without_cell(entity).holder(role)]
            #![trigger index.holder(role)]
            index.without_cell(entity).holder(role) == (if index.holder(role) == Some(entity)
                && role is CellAt {
                None
            } else {
                index.holder(role)
            }),
        !index.is_map_or_chunk(entity) ==> !index.without_cell(entity).tracks(entity),
        !index.is_cell(entity) ==> index.without_cell(entity) == index,
        index.is_map_or_chunk(entity) ==> !index.is_cell(entity),
{
    let after = index.without_cell(entity);
    assert forall|role: Role|
        #![trigger after.holder(role)]
        #![trigger index.holder(role)]
        after.holder(role) == (if index.holder(role) == Some(entity) && role is CellAt {
            None
        } else {
            index.holder(role)
        }) by {}
    assert forall|a: Role, b: Role|
        (#[trigger] after.holder(a)) is Some && after.holder(a) == #[trigger] after.holder(
            b,
        ) implies a == b by {
        assert(index.holder(a) == index.holder(b));
    }
    assert(after.chunks.dom() =~= index.chunks.dom());
    if index.map is None {
        assert(after.chunks =~= Map::<Seq<int>, ChunkView>::empty());
    }
    if !index.is_map_or_chunk(entity) {
        assert forall|role: Role| after.holder(role) != Some(entity) by {
            match role {
                Role::MapEntity => {},
                Role::ChunkAt(place) => {
                    assert(index.chunk_at(place) != Some(entity));
                },
                Role::CellAt(place, slot) => {},
            }
        }
    }
    if !index.is_cell(entity) {
        assert forall|place: Seq<int>| index.chunks.dom().contains(place)
            implies after.chunks[place]
            == index.chunks[place] by {
            let cells = index.chunks[place].cells;
            assert forall|i: int| 0 <= i < cells.len() implies emptied(cells, entity)[i]
                == cells[i] by {
                assert(index.holder(Role::CellAt(place, i)) == cells[i]);
            }
            assert(emptied(cells, entity) =~= cells);
        }
        assert(after.chunks =~= index.chunks);
    }
    if index.is_map_or_chunk(entity) && index.is_cell(entity) {
        let (place, slot) = choose|place: Seq<int>, slot: int|
            #[trigger] index.holder(Role::CellAt(place, slot)) == Some(entity);
        if index.map == Some(entity) {
            assert(index.holder(Role::MapEntity) == index.holder(Role::CellAt(place, slot)));
        } else {
            let other = choose|other: Seq<int>| #[trigger] index.chunk_at(other) == Some(entity);
            assert(index.holder(Role::ChunkAt(other)) == index.holder(Role::CellAt(place, slot)));
        }
    }
}

/// The slots with every entity dropped that does not exist in `world`.
pub open spec fn living(cells: Seq<Option<Entity>>, world: World) -> Seq<Option<Entity>> {
    Seq::new(
        cells.len(),
        |i: int|
            if cells[i] is Some && exists_in(world, cells[i].unwrap()) {
                cells[i]
            } else {
                None
            },
    )
}

/// What a map records of one chunk: the chunk's entity and its slots.
pub struct ChunkView {
    pub id: Entity,
    pub cells: Seq<Option<Entity>>,
}

impl ChunkView {
    /// The chunk is `entity` or holds it in a slot.
    pub open spec fn holds(self, entity: Entity) -> bool {
        self.id == entity || exists|slot: int|
            0 <= slot < self.cells.len() && self.cells[slot] == Some(entity)
    }
}

/// A chunk as it is held by its map.
pub struct ChunkEntry<const N: usize> {
    pub(crate) coord: ChunkCoord<N>,
    pub(crate) id: Entity,
    pub(crate) chunk: Chunk,
}

impl<const N: usize> View for ChunkEntry<N> {
    type V = ChunkView;

    closed spec fn view(&self) -> ChunkView {
        ChunkView { id: self.id, cells: self.chunk@ }
    }
}

impl<const N: usize> ChunkEntry<N> {
    /// The chunk coordinate of the entry.
    pub closed spec fn place(&self) -> Seq<int> {
        coord_ints(self.coord.0)
    }

    /// Appends the entities in the slots of the chunk, and then the chunk's own, to `out`.
    pub(crate) fn collect(&self, out: &mut Vec<Entity>)
        ensures
            forall|entity: Entity|
                final(out)@.contains(entity) <==> old(out)@.contains(entity) || self@.holds(entity),
    {
        let ghost start = out@;
        let ghost cells = self.chunk.cells@;
        let mut i: usize = 0;
        while i < self.chunk.cells.len()
            invariant
                i <= self.chunk.cells.len(),
                cells == self.chunk.cells@,
                forall|entity: Entity|
                    #[trigger] out@.contains(entity) <==> start.contains(entity) || held_below(
                        cells,
                        i as int,
                        entity,
                    ),
            decreases self.chunk.cells.len() - i,
        {
            let ghost before = out@;
            if let Some(cell) = self.chunk.cells[i] {
                out.push(cell);
                proof {
                    assert forall|entity: Entity|
                        #[trigger] out@.contains(entity) <==> start.contains(entity) || held_below(
                            cells,
                            i + 1,
                            entity,
                        ) by {
                        assert(before.contains(entity) <==> start.contains(entity) || held_below(
                            cells,
                            i as int,
                            entity,
                        ));
                        lemma_push_contains(before, cell, entity);
                        lemma_held_below_step(cells, i as int, entity);
                    }
                }
            } else {
                proof {
                    assert forall|entity: Entity|
                        #[trigger] out@.contains(entity) <==> start.contains(entity) || held_below(
                            cells,
                            i + 1,
                            entity,
                        ) by {
                        assert(before.contains(entity) <==> start.contains(entity) || held_below(
                            cells,
                            i as int,
                            entity,
                        ));
                        lemma_held_below_step(cells, i as int, entity);
                    }
                }
            }
            i += 1;
        }
        let ghost before = out@;
        out.push(self.id);
        proof {
            assert forall|entity: Entity|
                out@.contains(entity) <==> start.contains(entity) || self@.holds(entity) by {
                lemma_push_contains(before, self.id, entity);
                assert(held_below(cells, cells.len() as int, entity) <==> exists|slot: int|
                    0 <= slot < self@.cells.len() && self@.cells[slot] == Some(entity));
            }
        }
    }
}

/// One of the first `upto` slots holds `entity`.
spec fn held_below(cells: Seq<Option<Entity>>, upto: int, entity: Entity) -> bool {
    exists|slot: int| 0 <= slot < upto && cells[slot] == Some(entity)
}

proof fn lemma_held_below_step(cells: Seq<Option<Entity>>, upto: int, entity: Entity)
    requires
        0 <= upto < cells.len(),
    ensures
        held_below(cells, upto + 1, entity) <==> held_below(cells, upto, entity) || cells[upto]
            == Some(entity),
{
    if held_below(cells, upto + 1, entity) {
        let slot = choose|slot: int| 0 <= slot < upto + 1 && cells[slot] == Some(entity);
        if slot < upto {
            assert(held_below(cells, upto, entity));
        }
    }
    if held_below(cells, upto, entity) {
        let slot = choose|slot: int| 0 <= slot < upto && cells[slot] == Some(entity);
        assert(0 <= slot < upto + 1 && cells[slot] == Some(entity));
    }
    if cells[upto] == Some(entity) {
        assert(0 <= upto < upto + 1 && cells[upto] == Some(entity));
    }
}

/// What a sequence contains after one more element was pushed.
pub proof fn lemma_push_contains<T>(s: Seq<T>, last: T, value: T)
    ensures
        s.push(last).contains(value) <==> s.contains(value) || value == last,
{
    let after = s.push(last);
    if s.contains(value) {
        let j = choose|j: int| 0 <= j < s.len() && s[j] == value;
        assert(after[j] == value);
    }
    if value == last {
        assert(after[s.len() as int] == value);
    }
}

// ==============
// Map Components
// ==============
/// The edge from a chunk to the map that owns it.
#[derive(Debug)]
pub struct InMap<L> {
    pub map: Entity,
    pub label: PhantomData<L>,
}

/// Adds type level info on how a cell map should be treated.
pub trait CellMapLabel: Send + Sync {
    /// How many cells per dimension a chunk in this map extends.
    const CHUNK_SIZE: usize;
}

/// The chunk size of layer `L` fits chunks of `N` dimensions into memory.
pub open spec fn valid_layer<L: CellMapLabel, const N: usize>() -> bool {
    &&& valid_chunk_size(L::CHUNK_SIZE)
    &&& slot_count(L::CHUNK_SIZE, N as nat) <= usize::MAX
}

/// Whether the chunk size of layer `L` fits chunks of `N` dimensions into memory.
pub fn layer_fits<L: CellMapLabel, const N: usize>() -> (fits: bool)
    ensures
        fits == valid_layer::<L, N>(),
{
    let side = L::CHUNK_SIZE;
    if side < 1 || side > isize::MAX as usize {
        return false;
    }
    let mut slots: usize = 1;
    let mut i: usize = 0;
    proof {
        lemma_pow0(side as int);
    }
    while i < N
        invariant
            i <= N,
            side == L::CHUNK_SIZE,
            side >= 1,
            slots == pow(side as int, i as nat),
            slots >= 1,
        decreases N - i,
    {
        proof {
            reveal(pow);
            assert(pow(side as int, (i + 1) as nat) == side * pow(side as int, i as nat));
            lemma_pow_positive(side as int, (i + 1) as nat);
        }
        if slots > usize::MAX / side {
            proof {
                lemma_pow_increases(side as nat, (i + 1) as nat, N as nat);
                vstd::arithmetic::div_mod::lemma_fundamental_div_mod(usize::MAX as int, side as int);
                vstd::arithmetic::div_mod::lemma_mod_bound(usize::MAX as int, side as int);
                let q = usize::MAX as int / side as int;
                assert(side * slots >= side * (q + 1)) by (nonlinear_arith)
                    requires
                        slots >= q + 1,
                        side >= 1,
                ;
                assert(side * (q + 1) == side * q + side) by (nonlinear_arith);
            }
            return false;
        }
        proof {
            vstd::arithmetic::div_mod::lemma_fundamental_div_mod(usize::MAX as int, side as int);
            vstd::arithmetic::div_mod::lemma_mod_bound(usize::MAX as int, side as int);
            let q = usize::MAX as int / side as int;
            assert(side * slots <= side * q) by (nonlinear_arith)
                requires
                    slots <= q,
                    side >= 1,
            ;
        }
        slots = side * slots;
        i += 1;
    }
    true
}

/// The chunks of a map, by chunk coordinate.
///
/// The chunks stand in a list that is searched by coordinate, and no
/// coordinate stands in it twice. A hash map keyed by the coordinate would
/// find them faster, but what it finds rests on how arrays are hashed and
/// compared, of which nothing can be proved here.
pub struct CellMap<L: CellMapLabel, const N: usize> {
    pub(crate) chunks: Vec<ChunkEntry<N>>,
    label: PhantomData<L>,
}

/// `entries` holds an entry for the chunk coordinate `place` at position `k`.
spec fn entry_at<const N: usize>(entries: Seq<ChunkEntry<N>>, place: Seq<int>, k: int) -> bool {
    0 <= k < entries.len() && entries[k].place() == place
}

/// No two entries have the same chunk coordinate.
spec fn places_distinct<const N: usize>(entries: Seq<ChunkEntry<N>>) -> bool {
    forall|j: int, k: int|
        0 <= j < entries.len() && 0 <= k < entries.len() && #[trigger] entries[j].place()
            == #[trigger] entries[k].place() ==> j == k
}

/// The entries as a map from chunk coordinate to chunk.
spec fn entries_view<const N: usize>(entries: Seq<ChunkEntry<N>>) -> Map<Seq<int>, ChunkView> {
    Map::new(
        |place: Seq<int>| exists|k: int| entry_at(entries, place, k),
        |place: Seq<int>| entries[choose|k: int| entry_at(entries, place, k)]@,
    )
}

proof fn lemma_entries_view_at<const N: usize>(entries: Seq<ChunkEntry<N>>, k: int)
    requires
        places_distinct(entries),
        0 <= k < entries.len(),
    ensures
        entries_view(entries).dom().contains(entries[k].place()),
        entries_view(entries)[entries[k].place()] == entries[k]@,
{
    let place = entries[k].place();
    assert(entry_at(entries, place, k));
    let c = choose|c: int| entry_at(entries, place, c);
    assert(entry_at(entries, place, c));
}

proof fn lemma_entries_view_push<const N: usize>(entries: Seq<ChunkEntry<N>>, entry: ChunkEntry<N>)
    requires
        places_distinct(entries),
        !entries_view(entries).dom().contains(entry.place()),
    ensures
        places_distinct(entries.push(entry)),
        entries_view(entries.push(entry)) == entries_view(entries).insert(entry.place(), entry@),
{
    let after = entries.push(entry);
    assert forall|j: int, k: int|
        0 <= j < after.len() && 0 <= k < after.len() && #[trigger] after[j].place()
            == #[trigger] after[k].place() implies j == k by {
        if j < entries.len() {
            assert(entry_at(entries, entries[j].place(), j));
        }
        if k < entries.len() {
            assert(entry_at(entries, entries[k].place(), k));
        }
    }
    let left = entries_view(after);
    let right = entries_view(entries).insert(entry.place(), entry@);
    assert forall|place: Seq<int>| left.dom().contains(place) <==> right.dom().contains(
        place,
    ) by {
        if left.dom().contains(place) {
            let k = choose|k: int| entry_at(after, place, k);
            if k < entries.len() {
                assert(entry_at(entries, place, k));
            }
        }
        if right.dom().contains(place) {
            if place == entry.place() {
                assert(entry_at(after, place, entries.len() as int));
            } else {
                let k = choose|k: int| entry_at(entries, place, k);
                assert(entry_at(after, place, k));
            }
        }
    }
    assert forall|place: Seq<int>| left.dom().contains(place) implies left[place]
        == right[place] by {
        let k = choose|k: int| entry_at(after, place, k);
        lemma_entries_view_at(after, k);
        if k < entries.len() {
            lemma_entries_view_at(entries, k);
        }
    }
    assert(left =~= right);
}

proof fn lemma_entries_view_remove<const N: usize>(entries: Seq<ChunkEntry<N>>, at: int)
    requires
        places_distinct(entries),
        0 <= at < entries.len(),
    ensures
        places_distinct(entries.remove(at)),
        entries_view(entries.remove(at)) == entries_view(entries).remove(entries[at].place()),
{
    let after = entries.remove(at);
    let gone = entries[at].place();
    assert forall|k: int| 0 <= k < after.len() implies #[trigger] after[k] == entries[if k < at {
        k
    } else {
        k + 1
    }] by {}
    assert forall|j: int, k: int|
        0 <= j < after.len() && 0 <= k < after.len() && #[trigger] after[j].place()
            == #[trigger] after[k].place() implies j == k by {
        let j0 = if j < at { j } else { j + 1 };
        let k0 = if k < at { k } else { k + 1 };
        assert(entries[j0].place() == entries[k0].place());
    }
    let left = entries_view(after);
    let right = entries_view(entries).remove(gone);
    assert forall|place: Seq<int>| left.dom().contains(place) <==> right.dom().contains(
        place,
    ) by {
        if left.dom().contains(place) {
            let k = choose|k: int| entry_at(after, place, k);
            let k0 = if k < at { k } else { k + 1 };
            assert(entry_at(entries, place, k0));
            assert(entries[k0].place() == place);
            if place == gone {
                assert(entries[k0].place() == entries[at].place());
            }
        }
        if right.dom().contains(place) {
            let k = choose|k: int| entry_at(entries, place, k);
            assert(k != at);
            let k1 = if k < at { k } else { k - 1 };
            assert(entry_at(after, place, k1));
        }
    }
    assert forall|place: Seq<int>| left.dom().contains(place) implies left[place]
        == right[place] by {
        let k = choose|k: int| entry_at(after, place, k);
        let k0 = if k < at { k } else { k + 1 };
        lemma_entries_view_at(after, k);
        lemma_entries_view_at(entries, k0);
    }
    assert(left =~= right);
}

/// Whether two coordinates are the same.
pub(crate) fn same_coord<const N: usize>(a: &[isize; N], b: &[isize; N]) -> (same: bool)
    ensures
        same == (coord_ints(*a) == coord_ints(*b)),
{
    let mut i: usize = 0;
    while i < N
        invariant
            i <= N,
            forall|j: int| 0 <= j < i ==> a[j] == b[j],
        decreases N - i,
    {
        if a[i] != b[i] {
            assert(coord_ints(*a)[i as int] != coord_ints(*b)[i as int]);
            return false;
        }
        i += 1;
    }
    assert(coord_ints(*a) =~= coord_ints(*b));
    true
}

impl<L: CellMapLabel, const N: usize> Default for CellMap<L, N> {
    fn default() -> (map: Self)
        ensures
            map.wf(),
            map@ == Map::<Seq<int>, ChunkView>::empty(),
    {
        CellMap::new()
    }
}

impl<L: CellMapLabel, const N: usize> View for CellMap<L, N> {
    type V = Map<Seq<int>, ChunkView>;

    closed spec fn view(&self) -> Map<Seq<int>, ChunkView> {
        entries_view(self.chunks@)
    }
}

impl<L: CellMapLabel, const N: usize> CellMap<L, N> {
    /// No chunk coordinate is recorded twice.
    pub closed spec fn wf(&self) -> bool {
        places_distinct(self.chunks@)
    }

    /// The number of chunks.
    pub closed spec fn count(&self) -> nat {
        self.chunks@.len()
    }

    /// A map without chunks.
    pub(crate) fn new() -> (map: Self)
        ensures
            map.wf(),
            map@ == Map::<Seq<int>, ChunkView>::empty(),
    {
        let map = CellMap { chunks: Vec::new(), label: PhantomData };
        assert(map@ =~= Map::<Seq<int>, ChunkView>::empty());
        map
    }

    /// The position of the entry for the chunk at `chunk_c`, if the map has one.
    fn find(&self, chunk_c: &[isize; N]) -> (found: Option<usize>)
        ensures
            match found {
                Some(k) => entry_at(self.chunks@, coord_ints(*chunk_c), k as int),
                None => !self@.dom().contains(coord_ints(*chunk_c)),
            },
    {
        let mut k: usize = 0;
        while k < self.chunks.len()
            invariant
                k <= self.chunks.len(),
                forall|j: int| 0 <= j < k ==> !entry_at(self.chunks@, coord_ints(*chunk_c), j),
            decreases self.chunks.len() - k,
        {
            if same_coord(&self.chunks[k].coord.0, chunk_c) {
                return Some(k);
            }
            k += 1;
        }
        None
    }

    /// The entry for the chunk at `chunk_c`, if the map has one.
    pub(crate) fn get(&self, chunk_c: &[isize; N]) -> (found: Option<&ChunkEntry<N>>)
        requires
            self.wf(),
        ensures
            match found {
                Some(entry) => self@.dom().contains(coord_ints(*chunk_c)) && entry@
                    == self@[coord_ints(*chunk_c)] && entry.place() == coord_ints(*chunk_c),
                None => !self@.dom().contains(coord_ints(*chunk_c)),
            },
    {
        match self.find(chunk_c) {
            Some(k) => {
                proof {
                    lemma_entries_view_at(self.chunks@, k as int);
                }
                Some(&self.chunks[k])
            },
            None => None,
        }
    }

    /// The entity in slot `cell_i` of the chunk at `chunk_c`, with the entity of the chunk.
    pub(crate) fn lookup(&self, chunk_c: &[isize; N], cell_i: usize) -> (found: Option<
        (Entity, Entity),
    >)
        requires
            self.wf(),
        ensures
            found == (if self@.dom().contains(coord_ints(*chunk_c)) && cell_i
                < self@[coord_ints(*chunk_c)].cells.len() {
                match self@[coord_ints(*chunk_c)].cells[cell_i as int] {
                    Some(cell) => Some((self@[coord_ints(*chunk_c)].id, cell)),
                    None => None,
                }
            } else {
                None
            }),
    {
        match self.get(chunk_c) {
            Some(entry) => {
                if cell_i < entry.chunk.len() {
                    match entry.chunk.get(cell_i) {
                        Some(cell) => Some((entry.id, cell)),
                        None => None,
                    }
                } else {
                    None
                }
            },
            None => None,
        }
    }

    /// The entity of the chunk at `chunk_c`.
    pub(crate) fn chunk_id(&self, chunk_c: &[isize; N]) -> (found: Option<Entity>)
        requires
            self.wf(),
        ensures
            found == (IndexView { map: None, chunks: self@ }).chunk_at(coord_ints(*chunk_c)),
    {
        match self.get(chunk_c) {
            Some(entry) => Some(entry.id),
            None => None,
        }
    }

    /// Takes the entry for the chunk at `chunk_c` out of the map, if the map has one.
    pub(crate) fn take(&mut self, chunk_c: &[isize; N]) -> (taken: Option<ChunkEntry<N>>)
        requires
            old(self).wf(),
        ensures
            final(self).wf(),
            match taken {
                Some(entry) => old(self)@.dom().contains(coord_ints(*chunk_c)) && entry@
                    == old(self)@[coord_ints(*chunk_c)] && entry.place()
                    == coord_ints(*chunk_c) && final(self)@
                    == old(self)@.remove(coord_ints(*chunk_c)),
                None => !old(self)@.dom().contains(coord_ints(*chunk_c)) && final(self)@
                    == old(self)@,
            },
    {
        match self.find(chunk_c) {
            Some(k) => {
                proof {
                    lemma_entries_view_at(self.chunks@, k as int);
                    lemma_entries_view_remove(self.chunks@, k as int);
                }
                let entry = self.chunks.remove(k);
                Some(entry)
            },
            None => None,
        }
    }

    /// A map that counts no chunks holds none.
    pub proof fn lemma_count_zero(&self)
        requires
            self.count() == 0,
        ensures
            self@ == Map::<Seq<int>, ChunkView>::empty(),
    {
        assert(self@ =~= Map::<Seq<int>, ChunkView>::empty());
    }

    /// The number of chunks.
    pub(crate) fn len(&self) -> (len: usize)
        ensures
            len == self.count(),
    {
        self.chunks.len()
    }

    /// Takes some entry out of the map, if the map has one.
    pub(crate) fn take_any(&mut self) -> (taken: Option<ChunkEntry<N>>)
        requires
            old(self).wf(),
        ensures
            final(self).wf(),
            match taken {
                Some(entry) => old(self)@.dom().contains(entry.place()) && entry@
                    == old(self)@[entry.place()] && final(self)@
                    == old(self)@.remove(entry.place()) && final(self).count() + 1
                    == old(self).count(),
                None => old(self)@ == Map::<Seq<int>, ChunkView>::empty() && final(self)@
                    == old(self)@ && old(self).count() == 0,
            },
    {
        if self.chunks.len() == 0 {
            assert(self@ =~= Map::<Seq<int>, ChunkView>::empty());
            None
        } else {
            let k = self.chunks.len() - 1;
            proof {
                lemma_entries_view_at(self.chunks@, k as int);
                lemma_entries_view_remove(self.chunks@, k as int);
            }
            let entry = self.chunks.remove(k);
            Some(entry)
        }
    }

    /// Puts an entry into the map, which has none for that chunk coordinate.
    pub(crate) fn put(&mut self, entry: ChunkEntry<N>)
        requires
            old(self).wf(),
            !old(self)@.dom().contains(entry.place()),
        ensures
            final(self).wf(),
            final(self)@ == old(self)@.insert(entry.place(), entry@),
    {
        proof {
            lemma_entries_view_push(self.chunks@, entry);
        }
        self.chunks.push(entry);
    }

    /// Whether the map holds `entity` as a chunk or as a cell of a chunk.
    pub(crate) fn holds(&self, entity: Entity) -> (held: bool)
        requires
            self.wf(),
        ensures
            held == exists|role: Role|
                (IndexView { map: None, chunks: self@ }).holder(role) == Some(entity),
    {
        let ghost index = IndexView { map: None, chunks: self@ };
        let mut k: usize = 0;
        while k < self.chunks.len()
            invariant
                k <= self.chunks.len(),
                self.wf(),
                index == (IndexView { map: None, chunks: self@ }),
                forall|j: int|
                    0 <= j < k ==> (#[trigger] self.chunks@[j])@.id != entity && forall|slot: int|
                        0 <= slot < self.chunks@[j]@.cells.len() ==> self.chunks@[j]@.cells[slot]
                            != Some(entity),
            decreases self.chunks.len() - k,
        {
            let found = self.chunks[k].id == entity || self.chunks[k].chunk.holds(entity);
            if found {
                proof {
                    lemma_entries_view_at(self.chunks@, k as int);
                    let place = self.chunks@[k as int].place();
                    if self.chunks@[k as int]@.id == entity {
                        assert(index.holder(Role::ChunkAt(place)) == Some(entity));
                    } else {
                        let slot = choose|slot: int|
                            0 <= slot < self.chunks@[k as int]@.cells.len()
                                && self.chunks@[k as int]@.cells[slot] == Some(entity);
                        assert(index.holder(Role::CellAt(place, slot)) == Some(entity));
                    }
                }
                return true;
            }
            k += 1;
        }
        proof {
            assert forall|role: Role| index.holder(role) != Some(entity) by {
                match role {
                    Role::MapEntity => {},
                    Role::ChunkAt(place) => {
                        if self@.dom().contains(place) {
                            let j = choose|j: int| entry_at(self.chunks@, place, j);
                            lemma_entries_view_at(self.chunks@, j);
                        }
                    },
                    Role::CellAt(place, slot) => {
                        if self@.dom().contains(place) {
                            let j = choose|j: int| entry_at(self.chunks@, place, j);
                            lemma_entries_view_at(self.chunks@, j);
                        }
                    },
                }
            }
        }
        false
    }
}

// ====================
// The Index of a Layer
// ====================
/// A place in which an index holds an entity handle.
pub enum Role {
    /// The map itself.
    MapEntity,
    /// The chunk at a chunk coordinate.
    ChunkAt(Seq<int>),
    /// The cell in a slot of the chunk at a chunk coordinate.
    CellAt(Seq<int>, int),
}

/// What the index of one layer holds: the map entity, if there is a map, and
/// the chunks of that map.
pub struct IndexView {
    pub map: Option<Entity>,
    pub chunks: Map<Seq<int>, ChunkView>,
}

impl IndexView {
    /// The index of a layer without a map.
    pub open spec fn empty() -> IndexView {
        IndexView { map: None, chunks: Map::empty() }
    }

    /// The handle held in `role`, if one is held there.
    pub open spec fn holder(self, role: Role) -> Option<Entity> {
        match role {
            Role::MapEntity => self.map,
            Role::ChunkAt(place) => if self.chunks.dom().contains(place) {
                Some(self.chunks[place].id)
            } else {
                None
            },
            Role::CellAt(place, slot) => if self.chunks.dom().contains(place) && 0 <= slot
                < self.chunks[place].cells.len() {
                self.chunks[place].cells[slot]
            } else {
                None
            },
        }
    }

    /// The index holds `entity` as its map, as a chunk or as a cell.
    pub open spec fn tracks(self, entity: Entity) -> bool {
        exists|role: Role| self.holder(role) == Some(entity)
    }

    /// The chunk entity at the chunk coordinate `place`.
    pub open spec fn chunk_at(self, place: Seq<int>) -> Option<Entity> {
        self.holder(Role::ChunkAt(place))
    }

    /// The entity that occupies the cell coordinate `cell`, for chunks of edge length `side`.
    pub open spec fn occupant(self, cell: Seq<int>, side: int) -> Option<Entity> {
        self.holder(Role::CellAt(chunk_of(cell, side), local_of(cell, side)))
    }

    /// The occupied cell coordinates, each with the entity that occupies it.
    pub open spec fn occupancy(self, side: int) -> Map<Seq<int>, Entity> {
        Map::new(
            |cell: Seq<int>| self.occupant(cell, side) is Some,
            |cell: Seq<int>| self.occupant(cell, side).unwrap(),
        )
    }

    /// The index holds `entity` as its map or as a chunk.
    pub open spec fn is_map_or_chunk(self, entity: Entity) -> bool {
        self.map == Some(entity) || exists|place: Seq<int>|
            #[trigger] self.chunk_at(place) == Some(entity)
    }

    /// The index holds `entity` in a slot of a chunk.
    pub open spec fn is_cell(self, entity: Entity) -> bool {
        exists|place: Seq<int>, slot: int|
            #[trigger] self.holder(Role::CellAt(place, slot)) == Some(entity)
    }

    /// The index with every slot emptied that holds `entity`.
    pub open spec fn without_cell(self, entity: Entity) -> IndexView {
        IndexView {
            map: self.map,
            chunks: Map::new(
                |place: Seq<int>| self.chunks.dom().contains(place),
                |place: Seq<int>|
                    ChunkView {
                        id: self.chunks[place].id,
                        cells: emptied(self.chunks[place].cells, entity),
                    },
            ),
        }
    }

    /// The index is consistent with itself: chunks exist only under a map,
    /// every chunk has one slot per cell of a hypercube of `n` dimensions
    /// and edge length `side`, and no handle is held in two places.
    pub open spec fn sound(self, side: usize, n: nat) -> bool {
        &&& self.map is None ==> self.chunks == Map::<Seq<int>, ChunkView>::empty()
        &&& forall|place: Seq<int>| #[trigger]
            self.chunks.dom().contains(place) ==> place.len() == n && self.chunks[place].cells.len()
                == slot_count(side, n)
        &&& forall|a: Role, b: Role|
            (#[trigger] self.holder(a)) is Some && self.holder(a) == #[trigger] self.holder(b) ==> a
                == b
    }

    /// Every handle that the index holds exists in `world`.
    pub open spec fn alive_in(self, world: World) -> bool {
        forall|role: Role|
            (#[trigger] self.holder(role)) matches Some(entity) ==> exists_in(world, entity)
    }

    /// The index is consistent with itself and with `world`.
    pub open spec fn wf(self, world: World, side: usize, n: nat) -> bool {
        &&& self.sound(side, n)
        &&& self.alive_in(world)
    }

    /// What is left of the index when every handle that does not exist in
    /// `world` is dropped: nothing where the map does not exist, else the
    /// chunks that exist, with the cells that exist.
    pub open spec fn pruned(self, world: World) -> IndexView {
        if self.map is Some && exists_in(world, self.map.unwrap()) {
            IndexView {
                map: self.map,
                chunks: Map::new(
                    |place: Seq<int>|
                        self.chunks.dom().contains(place) && exists_in(
                            world,
                            self.chunks[place].id,
                        ),
                    |place: Seq<int>|
                        ChunkView {
                            id: self.chunks[place].id,
                            cells: living(self.chunks[place].cells, world),
                        },
                ),
            }
        } else {
            IndexView::empty()
        }
    }

    /// The index without the chunk at `place`.
    pub open spec fn without_chunk(self, place: Seq<int>) -> IndexView {
        IndexView { map: self.map, chunks: self.chunks.remove(place) }
    }

    /// The index with the chunk at `place` replaced by `chunk`.
    pub open spec fn with_chunk(self, place: Seq<int>, chunk: ChunkView) -> IndexView {
        IndexView { map: self.map, chunks: self.chunks.insert(place, chunk) }
    }

    /// The chunk at `place` is `entity` or holds it in a slot.
    pub open spec fn chunk_holds(self, place: Seq<int>, entity: Entity) -> bool {
        self.chunks.dom().contains(place) && self.chunks[place].holds(entity)
    }
}

/// The index of the cell map of layer `L`: the map, if one was created, its
/// chunks and their cells.
pub struct CellStorage<L: CellMapLabel, const N: usize> {
    pub(crate) map: Option<(Entity, CellMap<L, N>)>,
}

impl<L: CellMapLabel, const N: usize> Default for CellStorage<L, N> {
    fn default() -> (storage: Self)
        ensures
            storage@ == IndexView::empty(),
            forall|world: World| storage.wf(world),
    {
        CellStorage::new()
    }
}

impl<L: CellMapLabel, const N: usize> View for CellStorage<L, N> {
    type V = IndexView;

    closed spec fn view(&self) -> IndexView {
        match self.map {
            Some((id, map)) => IndexView { map: Some(id), chunks: map@ },
            None => IndexView::empty(),
        }
    }
}

impl<L: CellMapLabel, const N: usize> CellStorage<L, N> {
    /// The representation records no chunk coordinate twice.
    pub closed spec fn rep_wf(&self) -> bool {
        match self.map {
            Some((_, map)) => map.wf(),
            None => true,
        }
    }

    /// The index is consistent with itself and with `world`.
    pub open spec fn wf(&self, world: World) -> bool {
        &&& self.rep_wf()
        &&& self@.wf(world, L::CHUNK_SIZE, N as nat)
    }

    /// The map entity, if the layer has a map.
    #[verifier::inline]
    pub open spec fn map_id(&self) -> Option<Entity> {
        self@.map
    }

    /// The chunk entity at a chunk coordinate.
    #[verifier::inline]
    pub open spec fn chunk_at(&self, place: Seq<int>) -> Option<Entity> {
        self@.chunk_at(place)
    }

    /// The entity that occupies a cell coordinate.
    #[verifier::inline]
    pub open spec fn occupant(&self, cell: Seq<int>) -> Option<Entity> {
        self@.occupant(cell, L::CHUNK_SIZE as int)
    }

    /// The occupied cell coordinates, each with the entity that occupies it.
    #[verifier::inline]
    pub open spec fn occupancy(&self) -> Map<Seq<int>, Entity> {
        self@.occupancy(L::CHUNK_SIZE as int)
    }

    /// The index holds `entity` as its map, as a chunk or as a cell.
    #[verifier::inline]
    pub open spec fn tracks(&self, entity: Entity) -> bool {
        self@.tracks(entity)
    }

    /// The index of a layer for which nothing was spawned yet.
    pub fn new() -> (storage: Self)
        ensures
            storage@ == IndexView::empty(),
            forall|world: World| storage.wf(world),
    {
        CellStorage { map: None }
    }

    /// Whether the index holds `entity` as its map, as a chunk or as a cell.
    pub fn holds(&self, entity: Entity) -> (held: bool)
        requires
            self.rep_wf(),
        ensures
            held == self.tracks(entity),
    {
        match &self.map {
            Some((map_id, map)) => {
                let ghost inner = IndexView { map: None, chunks: map@ };
                if *map_id == entity {
                    assert(self@.holder(Role::MapEntity) == Some(entity));
                    return true;
                }
                let held = map.holds(entity);
                proof {
                    if held {
                        let role = choose|role: Role| inner.holder(role) == Some(entity);
                        assert(self@.holder(role) == Some(entity));
                    } else {
                        assert forall|role: Role| self@.holder(role) != Some(entity) by {
                            if role != Role::MapEntity {
                                assert(self@.holder(role) == inner.holder(role));
                            }
                        }
                    }
                }
                held
            },
            None => {
                assert forall|role: Role| self@.holder(role) != Some(entity) by {}
                false
            },
        }
    }

    /// The index is consistent with itself, whatever exists in the world.
    pub open spec fn sound(&self) -> bool {
        &&& self.rep_wf()
        &&& self@.sound(L::CHUNK_SIZE, N as nat)
    }

    /// Drops every handle that does not exist in `world`: the whole map
    /// where its entity is gone, else the chunks whose entities are gone and
    /// the cells whose entities are gone.
    ///
    /// The index is consistent with `world` afterwards, also where entities
    /// that it held were despawned behind its back.
    pub fn prune(&mut self, world: &World)
        requires
            old(self).sound(),
        ensures
            final(self).wf(*world),
            final(self)@ == old(self)@.pruned(*world),
    {
        let ghost before = old(self)@;
        let (map_id, mut map) = match self.map.take() {
            Some(map_info) => map_info,
            None => {
                return ;
            },
        };
        if !contains(world, map_id) {
            return ;
        }
        let ghost wanted = before.pruned(*world);
        let mut kept = CellMap::<L, N>::new();
        while map.len() > 0
            invariant
                map.wf(),
                kept.wf(),
                wanted == before.pruned(*world),
                before.map == Some(map_id),
                exists_in(*world, map_id),
                forall|place: Seq<int>| #[trigger]
                    map@.dom().contains(place) ==> before.chunks.dom().contains(place)
                        && before.chunks[place] == map@[place],
                forall|place: Seq<int>| #[trigger]
                    kept@.dom().contains(place) <==> wanted.chunks.dom().contains(place)
                        && !map@.dom().contains(place),
                forall|place: Seq<int>| #[trigger]
                    kept@.dom().contains(place) ==> kept@[place] == wanted.chunks[place],
            decreases map.count(),
        {
            let mut chunk_info = map.take_any().unwrap();
            if contains(world, chunk_info.id) {
                chunk_info.chunk.prune(world);
                kept.put(chunk_info);
            }
        }
        proof {
            map.lemma_count_zero();
            assert(kept@ =~= wanted.chunks);
        }
        self.map = Some((map_id, kept));
        proof {
            let after = self@;
            assert(after == wanted);
            assert forall|role: Role| (#[trigger] after.holder(role)) is Some implies after.holder(
                role,
            ) == before.holder(role) && exists_in(*world, after.holder(role).unwrap()) by {}
            assert forall|a: Role, b: Role|
                (#[trigger] after.holder(a)) is Some && after.holder(a) == #[trigger] after.holder(
                    b,
                ) implies a == b by {
                assert(before.holder(a) == before.holder(b));
            }
        }
    }
}

impl<L: CellMapLabel, const N: usize> CellStorage<L, N> {
    /// Takes `entity` out of every slot that holds it, without despawning it.
    pub fn release_cell(&mut self, entity: Entity)
        requires
            old(self).rep_wf(),
        ensures
            final(self).rep_wf(),
            final(self)@ == old(self)@.without_cell(entity),
    {
        let ghost before = old(self)@;
        let ghost wanted = before.without_cell(entity);
        let (map_id, mut map) = match self.map.take() {
            Some(map_info) => map_info,
            None => {
                assert(wanted.chunks =~= before.chunks);
                return ;
            },
        };
        let mut kept = CellMap::<L, N>::new();
        while map.len() > 0
            invariant
                map.wf(),
                kept.wf(),
                wanted == before.without_cell(entity),
                forall|place: Seq<int>| #[trigger]
                    map@.dom().contains(place) ==> before.chunks.dom().contains(place)
                        && before.chunks[place] == map@[place],
                forall|place: Seq<int>| #[trigger]
                    kept@.dom().contains(place) <==> wanted.chunks.dom().contains(place)
                        && !map@.dom().contains(place),
                forall|place: Seq<int>| #[trigger]
                    kept@.dom().contains(place) ==> kept@[place] == wanted.chunks[place],
            decreases map.count(),
        {
            let mut chunk_info = map.take_any().unwrap();
            chunk_info.chunk.release(entity);
            kept.put(chunk_info);
        }
        proof {
            map.lemma_count_zero();
            assert(kept@ =~= wanted.chunks);
        }
        self.map = Some((map_id, kept));
    }
}

} // verus!
