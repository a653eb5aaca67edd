//! Pairing up coordinates one to one, as a bidirectional map does.
use vstd::prelude::*;

verus! {

/// The bidirectional hash map of `bimap`, opaque to the verifier.
#[verifier::external_type_specification]
#[verifier::external_body]
#[verifier::reject_recursive_types(L)]
#[verifier::reject_recursive_types(R)]
#[verifier::reject_recursive_types(LS)]
#[verifier::reject_recursive_types(RS)]
pub struct ExBiHashMap<L, R, LS, RS>(bimap::BiHashMap<L, R, LS, RS>);

/// The pairs that `pairs` holds: for each left value the right value that it is paired with.
pub uninterp spec fn bimap_pairs(pairs: bimap::BiHashMap<Vec<isize>, Vec<isize>>) -> Map<
    Seq<isize>,
    Seq<isize>,
>;

/// What a bidirectional map holds after `left` was paired with `right`:
/// the new pair and every pair that has neither the same left nor the same
/// right value.
pub open spec fn bi_insert<K>(pairs: Map<K, K>, left: K, right: K) -> Map<K, K> {
    Map::new(
        |l: K| l == left || (pairs.dom().contains(l) && pairs[l] != right),
        |l: K|
            if l == left {
                right
            } else {
                pairs[l]
            },
    )
}

/// What a bidirectional map holds after the pairs of `pairs` were put into it one after the other.
pub open spec fn pairing<K>(pairs: Seq<(K, K)>) -> Map<K, K>
    decreases pairs.len(),
{
    if pairs.len() == 0 {
        Map::empty()
    } else {
        bi_insert(pairing(pairs.drop_last()), pairs.last().0, pairs.last().1)
    }
}

/// Calls `BiHashMap::new`. Claims that the new map holds no pair.
#[verifier::external_body]
pub(crate) fn bimap_new() -> (pairs: bimap::BiHashMap<Vec<isize>, Vec<isize>>)
    ensures
        bimap_pairs(pairs) == (Map::<Seq<isize>, Seq<isize>>::empty()),
{
    bimap::BiHashMap::new()
}

/// Calls `BiHashMap::insert`.
///
/// Claims that afterwards the map holds the new pair and, of the pairs that
/// it held, those that have neither the same left nor the same right value.
#[verifier::external_body]
pub(crate) fn bimap_insert(
    pairs: &mut bimap::BiHashMap<Vec<isize>, Vec<isize>>,
    left: Vec<isize>,
    right: Vec<isize>,
)
    ensures
        bimap_pairs(*final(pairs)) == bi_insert(bimap_pairs(*old(pairs)), left@, right@),
{
    pairs.insert(left, right);
}

/// Calls `BiHashMap::get_by_left` and copies what it finds.
///
/// Claims that the result is the right value that `left` is paired with,
/// or nothing where the map holds no pair with `left`.
#[verifier::external_body]
pub(crate) fn bimap_get_by_left(
    pairs: &bimap::BiHashMap<Vec<isize>, Vec<isize>>,
    left: &Vec<isize>,
) -> (right: Option<Vec<isize>>)
    ensures
        match right {
            Some(right) => bimap_pairs(*pairs).dom().contains(left@) && right@ == bimap_pairs(
                *pairs,
            )[left@],
            None => !bimap_pairs(*pairs).dom().contains(left@),
        },
{
    pairs.get_by_left(left).cloned()
}

/// Whether two keys are the same.
pub(crate) fn same_key(a: &Vec<isize>, b: &Vec<isize>) -> (same: bool)
    ensures
        same == (a@ == b@),
{
    if a.len() != b.len() {
        return false;
    }
    let mut i: usize = 0;
    while i < a.len()
        invariant
            i <= a.len(),
            a.len() == b.len(),
            forall|j: int| 0 <= j < i ==> a@[j] == b@[j],
        decreases a.len() - i,
    {
        if a[i] != b[i] {
            return false;
        }
        i += 1;
    }
    assert(a@ =~= b@);
    true
}

/// The pair at position `i` of `pairs` is held after all of them were paired up.
pub open spec fn is_paired<K>(pairs: Seq<(K, K)>, i: int) -> bool {
    pairing(pairs).dom().contains(pairs[i].0) && pairing(pairs)[pairs[i].0] == pairs[i].1
}

/// The positions below `upto` whose pairs are held after all of `pairs` were paired up.
pub open spec fn paired_positions<K>(pairs: Seq<(K, K)>, upto: int) -> Seq<int>
    decreases upto,
{
    if upto <= 0 {
        Seq::empty()
    } else if is_paired(pairs, upto - 1) {
        paired_positions(pairs, upto - 1).push(upto - 1)
    } else {
        paired_positions(pairs, upto - 1)
    }
}

/// Every listed position is a position below `upto`.
pub proof fn lemma_paired_positions<K>(pairs: Seq<(K, K)>, upto: int, t: int)
    requires
        0 <= t < paired_positions(pairs, upto).len(),
    ensures
        0 <= paired_positions(pairs, upto)[t] < upto,
    decreases upto,
{
    if upto > 0 {
        if t < paired_positions(pairs, upto - 1).len() {
            lemma_paired_positions(pairs, upto - 1, t);
        }
    }
}

} // verus!
