//! Grouping the positions of a batch by the chunk that each of them falls into.
use crate::cells::commands::helpers::{is_grouped, is_stable_order, lists};
use crate::cells::coords::{calculate_chunk_coordinate, chunk_of, coord_ints, valid_chunk_size};
use vstd::prelude::*;

verus! {

/// Lists of positions by key, kept in a `bevy::utils::HashMap`.
///
/// The map is hidden from the verifier as a whole: its type has a parameter
/// for an allocator whose trait cannot be named from outside its crate, so
/// the type cannot be declared by itself.
#[verifier::external_body]
pub struct ChunkGroups {
    inner: bevy::utils::HashMap<Vec<isize>, Vec<usize>>,
}

/// The lists that `groups` holds, by key.
pub uninterp spec fn groups_of(groups: ChunkGroups) -> Map<Seq<isize>, Seq<usize>>;

/// Calls `HashMap::default`. Claims that the new map holds no list.
#[verifier::external_body]
pub(crate) fn groups_new() -> (groups: ChunkGroups)
    ensures
        groups_of(groups) == (Map::<Seq<isize>, Seq<usize>>::empty()),
{
    ChunkGroups { inner: bevy::utils::HashMap::default() }
}

/// The lists of `before` with `item` added at the end of the list of `key`.
pub open spec fn with_item(before: Map<Seq<isize>, Seq<usize>>, key: Seq<isize>, item: usize)
    -> Map<
    Seq<isize>,
    Seq<usize>,
> {
    if before.dom().contains(key) {
        before.insert(key, before[key].push(item))
    } else {
        before.insert(key, seq![item])
    }
}

/// Calls `HashMap::entry`, takes the list of `key`, or an empty one that it
/// puts there where the map has none, and puts `item` at its end.
///
/// Claims that afterwards the map holds what it held, but for the list of
/// `key`, which is the one it held, or else the empty one, with `item` added.
#[verifier::external_body]
pub(crate) fn groups_push(groups: &mut ChunkGroups, key: Vec<isize>, item: usize)
    ensures
        groups_of(*final(groups)) == with_item(groups_of(*old(groups)), key@, item),
{
    groups.inner.entry(key).or_default().push(item);
}

/// Calls `HashMap::get` and copies the list that it finds.
///
/// Claims that the result is the list of `key`, or nothing where the map has none.
#[verifier::external_body]
pub(crate) fn groups_get(groups: &ChunkGroups, key: &Vec<isize>) -> (list: Option<Vec<usize>>)
    ensures
        match list {
            Some(list) => groups_of(*groups).dom().contains(key@) && list@ == groups_of(
                *groups,
            )[key@],
            None => !groups_of(*groups).dom().contains(key@),
        },
{
    groups.inner.get(key).cloned()
}

/// `listing` names every list of `lists` once, with its key.
pub open spec fn is_listing(
    listing: Seq<(Vec<isize>, Vec<usize>)>,
    lists: Map<Seq<isize>, Seq<usize>>,
) -> bool {
    &&& forall|g: int|
        0 <= g < listing.len() ==> lists.dom().contains((#[trigger] listing[g]).0@) && listing[g].1@
            == lists[listing[g].0@]
    &&& forall|g: int, h: int|
        0 <= g < listing.len() && 0 <= h < listing.len() && g != h ==> (#[trigger] listing[g]).0@
            != (#[trigger] listing[h]).0@
    &&& forall|key: Seq<isize>| #[trigger]
        lists.dom().contains(key) ==> exists|g: int| 0 <= g < listing.len() && listing[g].0@ == key
}

/// Calls `HashMap::into_iter` and collects what it walks.
///
/// Claims that the result names every list of the map once, with its key.
/// The order in which it does is not determined.
#[verifier::external_body]
fn groups_into_vec(groups: ChunkGroups) -> (listing: Vec<(Vec<isize>, Vec<usize>)>)
    ensures
        is_listing(listing@, groups_of(groups)),
{
    groups.inner.into_iter().collect()
}

/// The lists by key after the positions of `keys` were added one after the other.
pub open spec fn grouped(keys: Seq<Seq<isize>>) -> Map<Seq<isize>, Seq<usize>>
    decreases keys.len(),
{
    if keys.len() == 0 {
        Map::empty()
    } else {
        with_item(grouped(keys.drop_last()), keys.last(), (keys.len() - 1) as usize)
    }
}

/// The list of a key holds the positions of that key, all of them, in rising order.
pub proof fn lemma_grouped(keys: Seq<Seq<isize>>, key: Seq<isize>)
    requires
        keys.len() <= usize::MAX,
    ensures
        grouped(keys).dom().contains(key) <==> exists|i: int|
            0 <= i < keys.len() && keys[i] == key,
        grouped(keys).dom().contains(key) ==> {
            let list = grouped(keys)[key];
            &&& forall|t: int|
                0 <= t < list.len() ==> (#[trigger] list[t]) < keys.len() && keys[list[t] as int]
                    == key
            &&& forall|s: int, t: int|
                0 <= s < t < list.len() ==> (#[trigger] list[s]) < (#[trigger] list[t])
            &&& forall|i: int|
                0 <= i < keys.len() && #[trigger] keys[i] == key ==> exists|t: int|
                    0 <= t < list.len() && list[t] == i
        },
    decreases keys.len(),
{
    if keys.len() > 0 {
        let rest = keys.drop_last();
        let n = rest.len();
        lemma_grouped(rest, key);
        if grouped(keys).dom().contains(key) {
            let list = grouped(keys)[key];
            if keys.last() == key {
                assert(keys[n as int] == key);
                if grouped(rest).dom().contains(key) {
                    let before = grouped(rest)[key];
                    assert(list == before.push(n as usize));
                    assert forall|i: int|
                        0 <= i < keys.len() && #[trigger] keys[i] == key implies exists|t: int|
                        0 <= t < list.len() && list[t] == i by {
                        if i < n {
                            assert(rest[i] == key);
                            let t = choose|t: int| 0 <= t < before.len() && before[t] == i;
                            assert(list[t] == i);
                        } else {
                            assert(list[before.len() as int] == i);
                        }
                    }
                } else {
                    assert(list == seq![n as usize]);
                    assert forall|i: int|
                        0 <= i < keys.len() && #[trigger] keys[i] == key implies exists|t: int|
                        0 <= t < list.len() && list[t] == i by {
                        if i < n {
                            assert(rest[i] == key);
                        } else {
                            assert(list[0] == i);
                        }
                    }
                }
            } else {
                let i = choose|i: int| 0 <= i < rest.len() && rest[i] == key;
                assert(keys[i] == key);
                assert forall|i: int|
                    0 <= i < keys.len() && #[trigger] keys[i] == key implies exists|t: int|
                    0 <= t < list.len() && list[t] == i by {
                    assert(rest[i] == key);
                }
            }
        }
        if exists|i: int| 0 <= i < keys.len() && keys[i] == key {
            let i = choose|i: int| 0 <= i < keys.len() && keys[i] == key;
            if i < n {
                assert(rest[i] == key);
            }
        }
    }
}

/// The chunk coordinate of a cell as the key of its group.
pub open spec fn chunk_key<const N: usize>(cell: [isize; N], chunk_size: usize) -> Seq<isize> {
    Seq::new(N as nat, |i: int| (cell[i] as int / chunk_size as int) as isize)
}

/// The chunk coordinates of the cells of a batch.
pub open spec fn chunk_keys<const N: usize>(cells: Seq<[isize; N]>, chunk_size: usize) -> Seq<
    Seq<int>,
> {
    Seq::new(cells.len(), |i: int| chunk_of(coord_ints(cells[i]), chunk_size as int))
}

/// A coordinate as a key of a hash map.
pub(crate) fn coord_key<const N: usize>(coord: &[isize; N]) -> (key: Vec<isize>)
    ensures
        key@ == coord@,
{
    let mut key: Vec<isize> = Vec::new();
    let mut i: usize = 0;
    while i < N
        invariant
            i <= N,
            key@.len() == i,
            forall|j: int| 0 <= j < i ==> key@[j] == coord[j],
        decreases N - i,
    {
        key.push(coord[i]);
        i += 1;
    }
    assert(key@ =~= coord@);
    key
}

/// Two coordinates have the same key where they are the same coordinate.
pub proof fn lemma_coord_key<const N: usize>(a: [isize; N], b: [isize; N])
    ensures
        a@ == b@ <==> coord_ints(a) == coord_ints(b),
{
    if a@ == b@ {
        assert forall|i: int| 0 <= i < N implies coord_ints(a)[i] == coord_ints(b)[i] by {
            assert(a@[i] == b@[i]);
        }
        assert(coord_ints(a) =~= coord_ints(b));
    }
    if coord_ints(a) == coord_ints(b) {
        assert forall|i: int| 0 <= i < N implies a@[i] == b@[i] by {
            assert(coord_ints(a)[i] == coord_ints(b)[i]);
        }
        assert(a@ =~= b@);
    }
}

/// The key of the group of the cell at `cell_c`.
fn group_key<const N: usize>(cell_c: [isize; N], chunk_size: usize) -> (key: Vec<isize>)
    requires
        valid_chunk_size(chunk_size),
    ensures
        key@ == chunk_key(cell_c, chunk_size),
{
    let chunk_c = calculate_chunk_coordinate(cell_c, chunk_size);
    let key = coord_key(&chunk_c);
    proof {
        let want = chunk_of(coord_ints(cell_c), chunk_size as int);
        assert forall|j: int| 0 <= j < N implies key@[j] == chunk_key(cell_c, chunk_size)[j] by {
            assert(coord_ints(chunk_c)[j] == want[j]);
        }
        assert(key@ =~= chunk_key(cell_c, chunk_size));
    }
    key
}

/// Two cells have the same group key where they have the same chunk coordinate.
proof fn lemma_chunk_key<const N: usize>(a: [isize; N], b: [isize; N], chunk_size: usize)
    requires
        valid_chunk_size(chunk_size),
    ensures
        chunk_key(a, chunk_size) == chunk_key(b, chunk_size) <==> chunk_of(
            coord_ints(a),
            chunk_size as int,
        ) == chunk_of(coord_ints(b), chunk_size as int),
{
    let side = chunk_size as int;
    let ka = chunk_key(a, chunk_size);
    let kb = chunk_key(b, chunk_size);
    let ca = chunk_of(coord_ints(a), side);
    let cb = chunk_of(coord_ints(b), side);
    assert forall|i: int| 0 <= i < N implies ka[i] == ca[i] && kb[i] == cb[i] by {
        vstd::arithmetic::div_mod::lemma_fundamental_div_mod(a[i] as int, side);
        vstd::arithmetic::div_mod::lemma_fundamental_div_mod(b[i] as int, side);
        vstd::arithmetic::div_mod::lemma_mod_bound(a[i] as int, side);
        vstd::arithmetic::div_mod::lemma_mod_bound(b[i] as int, side);
        lemma_quotient_fits(a[i] as int, side);
        lemma_quotient_fits(b[i] as int, side);
    }
    if ka == kb {
        assert forall|i: int| 0 <= i < N implies ca[i] == cb[i] by {
            assert(ka[i] == kb[i]);
        }
        assert(ca =~= cb);
    }
    if ca == cb {
        assert forall|i: int| 0 <= i < N implies ka[i] == kb[i] by {
            assert(ca[i] == cb[i]);
        }
        assert(ka =~= kb);
    }
}

/// The quotient of a machine integer by a positive number is a machine integer.
proof fn lemma_quotient_fits(c: int, side: int)
    requires
        isize::MIN <= c <= isize::MAX,
        side >= 1,
    ensures
        isize::MIN <= c / side <= isize::MAX,
{
    vstd::arithmetic::div_mod::lemma_fundamental_div_mod(c, side);
    vstd::arithmetic::div_mod::lemma_mod_bound(c, side);
    let q = c / side;
    let r = c % side;
    if q > isize::MAX {
        assert(side * q >= q) by (nonlinear_arith)
            requires
                side >= 1,
                q >= 0,
        ;
    }
    if q < isize::MIN {
        assert(side * q <= q) by (nonlinear_arith)
            requires
                side >= 1,
                q <= 0,
        ;
        assert(side * (q + 1) <= q + 1) by (nonlinear_arith)
            requires
                side >= 1,
                q + 1 <= 0,
        ;
        assert(side * (q + 1) == side * q + side) by (nonlinear_arith);
    }
}

/// The positions in `order` as mathematical integers.
pub open spec fn positions(order: Seq<usize>) -> Seq<int> {
    Seq::new(order.len(), |p: int| order[p] as int)
}

/// The keys of the groups of the cells of a batch.
spec fn group_keys<const N: usize>(cells: Seq<[isize; N]>, chunk_size: usize) -> Seq<Seq<isize>> {
    Seq::new(cells.len(), |i: int| chunk_key(cells[i], chunk_size))
}

/// Lists the positions of `cells` group by group: the positions whose cells
/// fall into one chunk stand together and in rising order.
pub fn group_by<const N: usize>(cells: &Vec<[isize; N]>, chunk_size: usize) -> (order: Vec<usize>)
    requires
        valid_chunk_size(chunk_size),
    ensures
        is_stable_order(positions(order@), chunk_keys(cells@, chunk_size)),
        is_grouped(positions(order@), chunk_keys(cells@, chunk_size)),
{
    let ghost keys = group_keys(cells@, chunk_size);
    let n = cells.len();
    let mut groups = groups_new();
    let mut i: usize = 0;
    while i < n
        invariant
            i <= n,
            n == cells.len(),
            valid_chunk_size(chunk_size),
            keys == group_keys(cells@, chunk_size),
            groups_of(groups) == grouped(keys.take(i as int)),
        decreases n - i,
    {
        let key = group_key(cells[i], chunk_size);
        groups_push(&mut groups, key, i);
        proof {
            let next = keys.take(i + 1);
            assert(next.drop_last() =~= keys.take(i as int));
            assert(next.last() == keys[i as int]);
        }
        i += 1;
    }
    assert(keys.take(n as int) =~= keys);
    let ghost lists_by_key = grouped(keys);
    let listing = groups_into_vec(groups);

    let mut order: Vec<usize> = Vec::new();
    let ghost mut owner: Seq<int> = Seq::empty();
    let mut g: usize = 0;
    while g < listing.len()
        invariant
            g <= listing.len(),
            n == cells.len(),
            keys == group_keys(cells@, chunk_size),
            keys.len() == n,
            lists_by_key == grouped(keys),
            is_listing(listing@, lists_by_key),
            owner.len() == order@.len(),
            forall|p: int|
                0 <= p < order@.len() ==> 0 <= #[trigger] owner[p] < g && order@[p] < n
                    && keys[order@[p] as int] == listing@[owner[p]].0@,
            forall|p: int, q: int|
                0 <= p < q < order@.len() ==> (#[trigger] owner[p]) <= (#[trigger] owner[q]),
            forall|p: int, q: int|
                0 <= p < q < order@.len() && owner[p] == owner[q] ==> (#[trigger] order@[p]) < (
                #[trigger] order@[q]),
            forall|h: int, t: int|
                0 <= h < g && 0 <= t < listing@[h].1@.len() ==> lists(
                    positions(order@),
                    #[trigger] listing@[h].1@[t] as int,
                ),
        decreases listing.len() - g,
    {
        let ghost key = listing@[g as int].0@;
        let ghost list = listing@[g as int].1@;
        let ghost base = order@;
        proof {
            lemma_grouped(keys, key);
        }
        let mut t: usize = 0;
        while t < listing[g].1.len()
            invariant
                g < listing.len(),
                t <= list.len(),
                n == cells.len(),
                keys.len() == n,
                key == listing@[g as int].0@,
                list == listing@[g as int].1@,
                forall|u: int|
                    0 <= u < list.len() ==> (#[trigger] list[u]) < n && keys[list[u] as int] == key,
                forall|u: int, v: int|
                    0 <= u < v < list.len() ==> (#[trigger] list[u]) < (#[trigger] list[v]),
                owner.len() == order@.len(),
                order@.len() == base.len() + t,
                forall|p: int|
                    0 <= p < order@.len() ==> 0 <= #[trigger] owner[p] <= g && order@[p] < n
                        && keys[order@[p] as int] == listing@[owner[p]].0@,
                forall|p: int, q: int|
                    0 <= p < q < order@.len() ==> (#[trigger] owner[p]) <= (#[trigger] owner[q]),
                forall|p: int, q: int|
                    0 <= p < q < order@.len() && owner[p] == owner[q] ==> (#[trigger] order@[p]) < (
                    #[trigger] order@[q]),
                forall|p: int| 0 <= p < base.len() ==> #[trigger] owner[p] < g,
                forall|p: int| base.len() <= p < order@.len() ==> #[trigger] owner[p] == g,
                forall|u: int| 0 <= u < t ==> order@[base.len() + u] == #[trigger] list[u],
                forall|h: int, u: int|
                    0 <= h < g && 0 <= u < listing@[h].1@.len() ==> lists(
                        positions(order@),
                        #[trigger] listing@[h].1@[u] as int,
                    ),
            decreases list.len() - t,
        {
            let ghost before = order@;
            let item = listing[g].1[t];
            order.push(item);
            proof {
                owner = owner.push(g as int);
                assert forall|h: int, u: int|
                    0 <= h < g && 0 <= u < listing@[h].1@.len() implies lists(
                    positions(order@),
                    #[trigger] listing@[h].1@[u] as int,
                ) by {
                    let wanted = listing@[h].1@[u] as int;
                    assert(lists(positions(before), wanted));
                    let p = choose|p: int| 0 <= p < before.len() && positions(before)[p] == wanted;
                    assert(positions(order@)[p] == wanted);
                }
                assert forall|p: int, q: int|
                    0 <= p < q < order@.len() && owner[p] == owner[q] implies (
                #[trigger] order@[p]) < (#[trigger] order@[q]) by {
                    if q == before.len() {
                        assert(p >= base.len());
                        let u = p - base.len();
                        assert(order@[base.len() + u] == list[u]);
                        assert(list[u] < list[t as int]);
                    } else {
                        assert(before[p] < before[q]);
                    }
                }
            }
            t += 1;
        }
        proof {
            assert forall|h: int, u: int|
                0 <= h < g + 1 && 0 <= u < listing@[h].1@.len() implies lists(
                positions(order@),
                #[trigger] listing@[h].1@[u] as int,
            ) by {
                if h == g {
                    let p = base.len() + u;
                    assert(list == listing@[h].1@);
                    assert(t == list.len());
                    assert(order@[base.len() + u] == list[u]);
                    assert(positions(order@)[p] == listing@[h].1@[u] as int);
                }
            }
        }
        g += 1;
    }
    proof {
        let listed = positions(order@);
        let wanted = chunk_keys(cells@, chunk_size);
        assert forall|i: int| 0 <= i < n implies #[trigger] lists(listed, i) by {
            let key = keys[i];
            lemma_grouped(keys, key);
            assert(lists_by_key.dom().contains(key));
            let h = choose|h: int| 0 <= h < listing@.len() && listing@[h].0@ == key;
            let list = lists_by_key[key];
            let t = choose|t: int| 0 <= t < list.len() && list[t] == i;
            assert(listing@[h].1@[t] == i);
        }
        assert forall|p: int| 0 <= p < listed.len() implies 0 <= #[trigger] listed[p] < n by {
            assert(owner[p] >= 0);
        }
        assert forall|p: int, q: int|
            0 <= p < listed.len() && 0 <= q < listed.len() && p != q implies #[trigger] listed[p]
            != #[trigger] listed[q] by {
            assert(owner[p] >= 0 && owner[q] >= 0);
            if listed[p] == listed[q] {
                assert(listing@[owner[p]].0@ == listing@[owner[q]].0@);
                assert(owner[p] == owner[q]);
                if p < q {
                    assert(order@[p] < order@[q]);
                } else {
                    assert(order@[q] < order@[p]);
                }
            }
        }
        assert forall|p: int, q: int|
            0 <= p < listed.len() && 0 <= q < listed.len() && (#[trigger] listed[p]) < (
            #[trigger] listed[q]) && wanted[listed[p]] == wanted[listed[q]] implies p < q by {
            assert(owner[p] >= 0 && owner[q] >= 0);
            lemma_chunk_key(cells@[listed[p]], cells@[listed[q]], chunk_size);
            assert(keys[listed[p]] == keys[listed[q]]);
            assert(listing@[owner[p]].0@ == listing@[owner[q]].0@);
            assert(owner[p] == owner[q]);
            if q < p {
                assert(order@[q] < order@[p]);
            }
        }
        assert(listed.len() == n) by {
            lemma_listed_len(listed, n as int);
        }
        assert forall|p: int, q: int, r: int|
            0 <= p < q < r < listed.len() && wanted[#[trigger] listed[p]]
                == wanted[#[trigger] listed[r]] implies wanted[#[trigger] listed[q]]
            == wanted[listed[p]] by {
            assert(owner[p] >= 0 && owner[q] >= 0 && owner[r] >= 0);
            lemma_chunk_key(cells@[listed[p]], cells@[listed[r]], chunk_size);
            assert(keys[listed[p]] == keys[listed[r]]);
            assert(listing@[owner[p]].0@ == listing@[owner[r]].0@);
            assert(owner[p] == owner[r]);
            assert(owner[p] <= owner[q] && owner[q] <= owner[r]);
            assert(keys[listed[q]] == keys[listed[p]]);
            lemma_chunk_key(cells@[listed[q]], cells@[listed[p]], chunk_size);
        }
    }
    order
}

/// A list without repeats of numbers below `n` that lists every number
/// below `n` has `n` entries.
proof fn lemma_listed_len(listed: Seq<int>, n: int)
    requires
        n >= 0,
        forall|p: int| 0 <= p < listed.len() ==> 0 <= #[trigger] listed[p] < n,
        forall|p: int, q: int|
            0 <= p < listed.len() && 0 <= q < listed.len() && p != q ==> #[trigger] listed[p]
                != #[trigger] listed[q],
        forall|i: int| 0 <= i < n ==> #[trigger] lists(listed, i),
    ensures
        listed.len() == n,
{
    let all = Set::new(|i: int| 0 <= i < n);
    assert(listed.no_duplicates());
    assert(listed.to_set() =~= all) by {
        assert forall|i: int| all.contains(i) implies listed.to_set().contains(i) by {
            assert(lists(listed, i));
            let p = choose|p: int| 0 <= p < listed.len() && listed[p] == i;
            assert(listed.contains(i));
        }
    }
    listed.unique_seq_to_set();
    vstd::set_lib::lemma_int_range(0, n);
    assert(all =~= vstd::set_lib::set_int_range(0, n));
}

} // verus!
