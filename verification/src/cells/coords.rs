//! Coordinate arithmetic for chunked cell maps.
//!
//! A cell coordinate is a vector of signed integers. A chunk covers
//! `chunk_size` cells along every axis, so a cell coordinate splits into the
//! coordinate of the chunk that holds it and an index local to that chunk.
//! The local index writes the position inside the chunk as a number in base
//! `chunk_size`, with axis 0 as the least significant digit.
use vstd::arithmetic::div_mod::*;
use vstd::arithmetic::mul::*;
use vstd::arithmetic::power::*;
use vstd::prelude::*;

verus! {

/// A coordinate as a sequence of mathematical integers.
pub open spec fn coord_ints<const N: usize>(c: [isize; N]) -> Seq<int> {
    Seq::new(N as nat, |i: int| c[i] as int)
}

/// A chunk edge length that coordinates can be divided by.
pub open spec fn valid_chunk_size(chunk_size: usize) -> bool {
    1 <= chunk_size <= isize::MAX
}

/// The number of cells in a chunk of `n` dimensions.
pub open spec fn slot_count(chunk_size: usize, n: nat) -> int {
    pow(chunk_size as int, n)
}

/// The chunk that holds `cell`: the floor of `cell / side` on every axis.
pub open spec fn chunk_of(cell: Seq<int>, side: int) -> Seq<int> {
    Seq::new(cell.len(), |i: int| cell[i] / side)
}

/// The position of `cell` inside its chunk: on every axis a value in `[0, side)`.
pub open spec fn relative_of(cell: Seq<int>, side: int) -> Seq<int> {
    Seq::new(cell.len(), |i: int| cell[i] % side)
}

/// The number whose base-`side` digits, least significant first, are `digits`.
pub open spec fn index_of_digits(digits: Seq<int>, side: int) -> int
    decreases digits.len(),
{
    if digits.len() == 0 {
        0
    } else {
        digits[0] + side * index_of_digits(digits.skip(1), side)
    }
}

/// The local index of `cell` inside its chunk.
pub open spec fn local_of(cell: Seq<int>, side: int) -> int {
    index_of_digits(relative_of(cell, side), side)
}

/// Digit `axis` of `index` in base `side`.
pub open spec fn digit(index: int, side: int, axis: nat) -> int {
    (index / pow(side, axis)) % side
}

/// The cell at local index `index` of chunk `chunk`.
pub open spec fn coord_of(chunk: Seq<int>, index: int, side: int) -> Seq<int> {
    Seq::new(chunk.len(), |i: int| chunk[i] * side + digit(index, side, i as nat))
}

/// Every entry of `digits` is a base-`side` digit.
pub open spec fn digits_in_range(digits: Seq<int>, side: int) -> bool {
    forall|i: int| 0 <= i < digits.len() ==> 0 <= #[trigger] digits[i] < side
}

/// Quotient and remainder of a negative `c` from those of `-(c + 1)`.
proof fn lemma_negative_div_mod(c: int, side: int)
    requires
        c < 0,
        side >= 1,
    ensures
        c / side == -((-(c + 1)) / side) - 1,
        c % side == side - 1 - (-(c + 1)) % side,
{
    let m = -(c + 1);
    let q = m / side;
    let d = m % side;
    lemma_fundamental_div_mod(m, side);
    lemma_mod_bound(m, side);
    assert(c == (-q - 1) * side + (side - 1 - d)) by (nonlinear_arith)
        requires
            m == side * q + d,
            m == -(c + 1),
    ;
    lemma_fundamental_div_mod_converse(c, side, -q - 1, side - 1 - d);
}

/// The floor of `c / side` for a signed `c`.
fn floor_div(c: isize, side: usize) -> (q: isize)
    requires
        valid_chunk_size(side),
    ensures
        q == c as int / side as int,
{
    let s: isize = side as isize;
    if c >= 0 {
        c / s
    } else {
        let m: isize = -(c + 1);
        let d: isize = m / s;
        proof {
            lemma_negative_div_mod(c as int, side as int);
        }
        -d - 1
    }
}

/// The remainder of `c` modulo `side`, in `[0, side)`, for a signed `c`.
fn floor_mod(c: isize, side: usize) -> (r: isize)
    requires
        valid_chunk_size(side),
    ensures
        r == c as int % side as int,
        0 <= r < side,
{
    let s: isize = side as isize;
    if c >= 0 {
        c % s
    } else {
        let m: isize = -(c + 1);
        let d: isize = m % s;
        proof {
            lemma_negative_div_mod(c as int, side as int);
        }
        s - 1 - d
    }
}

/// The coordinate of the chunk that holds the cell at `cell_c`.
pub fn calculate_chunk_coordinate<const N: usize>(cell_c: [isize; N], chunk_size: usize)
    -> (chunk_c:
    [isize; N])
    requires
        valid_chunk_size(chunk_size),
    ensures
        coord_ints(chunk_c) == chunk_of(coord_ints(cell_c), chunk_size as int),
{
    let mut out = cell_c;
    let mut i: usize = 0;
    while i < N
        invariant
            i <= N,
            valid_chunk_size(chunk_size),
            forall|j: int| 0 <= j < i ==> out[j] == cell_c[j] as int / chunk_size as int,
            forall|j: int| i <= j < N ==> out[j] == cell_c[j],
        decreases N - i,
    {
        out[i] = floor_div(out[i], chunk_size);
        i += 1;
    }
    assert(coord_ints(out) =~= chunk_of(coord_ints(cell_c), chunk_size as int));
    out
}

/// The position of the cell at `cell_c` relative to the origin of its chunk.
pub fn calculate_chunk_relative_cell_coordinate<const N: usize>(
    cell_c: [isize; N],
    chunk_size: usize,
) -> (relative_c: [isize; N])
    requires
        valid_chunk_size(chunk_size),
    ensures
        coord_ints(relative_c) == relative_of(coord_ints(cell_c), chunk_size as int),
        digits_in_range(coord_ints(relative_c), chunk_size as int),
{
    let mut out = cell_c;
    let mut i: usize = 0;
    while i < N
        invariant
            i <= N,
            valid_chunk_size(chunk_size),
            forall|j: int| 0 <= j < i ==> out[j] == cell_c[j] as int % chunk_size as int,
            forall|j: int| 0 <= j < i ==> 0 <= #[trigger] out[j] < chunk_size,
            forall|j: int| i <= j < N ==> out[j] == cell_c[j],
        decreases N - i,
    {
        out[i] = floor_mod(out[i], chunk_size);
        i += 1;
    }
    assert(coord_ints(out) =~= relative_of(coord_ints(cell_c), chunk_size as int));
    out
}

/// A number written with `digits.len()` digits is smaller than `side` to that power.
pub proof fn lemma_index_of_digits_bound(digits: Seq<int>, side: int)
    requires
        side >= 1,
        digits_in_range(digits, side),
    ensures
        0 <= index_of_digits(digits, side) < pow(side, digits.len()),
    decreases digits.len(),
{
    reveal(pow);
    if digits.len() > 0 {
        let rest = digits.skip(1);
        assert forall|i: int| 0 <= i < rest.len() implies 0 <= #[trigger] rest[i] < side by {
            assert(rest[i] == digits[i + 1]);
        }
        lemma_index_of_digits_bound(rest, side);
        let r = index_of_digits(rest, side);
        let p = pow(side, rest.len());
        assert(pow(side, digits.len()) == side * p);
        assert(0 <= digits[0] + side * r < side * p) by (nonlinear_arith)
            requires
                0 <= digits[0] < side,
                0 <= r < p,
        ;
    }
}

/// The first `k` digits of a number are its value modulo `side` to the power `k`.
proof fn lemma_index_prefix(digits: Seq<int>, side: int, k: nat)
    requires
        side >= 1,
        digits_in_range(digits, side),
        k <= digits.len(),
    ensures
        index_of_digits(digits, side) == index_of_digits(digits.take(k as int), side) + pow(
            side,
            k,
        ) * index_of_digits(digits.skip(k as int), side),
    decreases k,
{
    reveal(pow);
    if k == 0 {
        assert(digits.skip(0) =~= digits);
        assert(digits.take(0).len() == 0);
    } else {
        let rest = digits.skip(1);
        assert forall|i: int| 0 <= i < rest.len() implies 0 <= #[trigger] rest[i] < side by {
            assert(rest[i] == digits[i + 1]);
        }
        lemma_index_prefix(rest, side, (k - 1) as nat);
        assert(rest.take(k - 1) =~= digits.take(k as int).skip(1));
        assert(rest.skip(k - 1) =~= digits.skip(k as int));
        assert(digits.take(k as int)[0] == digits[0]);
        let a = index_of_digits(rest.take(k - 1), side);
        let b = index_of_digits(rest.skip(k - 1), side);
        let p = pow(side, (k - 1) as nat);
        assert(pow(side, k) == side * p);
        assert(digits[0] + side * (a + p * b) == (digits[0] + side * a) + (side * p) * b)
            by (nonlinear_arith);
    }
}

/// Reading digit `axis` back out of a number gives the digit it was written with.
pub proof fn lemma_digit_of_index(digits: Seq<int>, side: int, axis: nat)
    requires
        side >= 1,
        digits_in_range(digits, side),
        axis < digits.len(),
    ensures
        digit(index_of_digits(digits, side), side, axis) == digits[axis as int],
{
    let k = axis;
    lemma_index_prefix(digits, side, k);
    let low = digits.take(k as int);
    let high = digits.skip(k as int);
    assert forall|i: int| 0 <= i < low.len() implies 0 <= #[trigger] low[i] < side by {
        assert(low[i] == digits[i]);
    }
    assert forall|i: int| 0 <= i < high.len() implies 0 <= #[trigger] high[i] < side by {
        assert(high[i] == digits[i + k]);
    }
    lemma_index_of_digits_bound(low, side);
    let a = index_of_digits(low, side);
    let b = index_of_digits(high, side);
    let p = pow(side, k);
    lemma_pow_positive(side, k);
    assert(a + p * b == b * p + a) by (nonlinear_arith);
    lemma_fundamental_div_mod_converse(a + p * b, p, b, a);
    let tail = high.skip(1);
    let t = index_of_digits(tail, side);
    assert(b == high[0] + side * t);
    assert(high[0] == digits[k as int]);
    assert(b == t * side + high[0]) by (nonlinear_arith)
        requires
            b == high[0] + side * t,
    ;
    lemma_fundamental_div_mod_converse(b, side, t, high[0]);
}

/// Splitting a cell coordinate into chunk and local index loses nothing:
/// the cell of its chunk at its local index is the cell itself.
pub proof fn lemma_coordinate_round_trip(cell: Seq<int>, side: int)
    requires
        side >= 1,
    ensures
        coord_of(chunk_of(cell, side), local_of(cell, side), side) == cell,
{
    let rel = relative_of(cell, side);
    assert forall|i: int| 0 <= i < rel.len() implies 0 <= #[trigger] rel[i] < side by {
        lemma_mod_bound(cell[i], side);
    }
    let back = coord_of(chunk_of(cell, side), local_of(cell, side), side);
    assert forall|i: int| 0 <= i < cell.len() implies back[i] == cell[i] by {
        lemma_digit_of_index(rel, side, i as nat);
        lemma_fundamental_div_mod(cell[i], side);
        assert((cell[i] / side) * side == side * (cell[i] / side)) by (nonlinear_arith);
    }
    assert(back =~= cell);
}

/// Two cells with the same chunk and the same local index are the same cell.
pub proof fn lemma_chunk_and_index_determine_cell(a: Seq<int>, b: Seq<int>, side: int)
    requires
        side >= 1,
        chunk_of(a, side) == chunk_of(b, side),
        local_of(a, side) == local_of(b, side),
    ensures
        a == b,
{
    lemma_coordinate_round_trip(a, side);
    lemma_coordinate_round_trip(b, side);
}

/// The local index of the cell at `cell_c` inside its chunk.
pub fn calculate_cell_index<const N: usize>(cell_c: [isize; N], chunk_size: usize) -> (index:
    usize)
    requires
        valid_chunk_size(chunk_size),
        slot_count(chunk_size, N as nat) <= usize::MAX,
    ensures
        index == local_of(coord_ints(cell_c), chunk_size as int),
        index < slot_count(chunk_size, N as nat),
{
    let relative_c = calculate_chunk_relative_cell_coordinate(cell_c, chunk_size);
    let ghost digits = coord_ints(relative_c);
    let ghost side = chunk_size as int;
    let mut index: usize = 0;
    let mut i: usize = N;
    proof {
        assert(digits.skip(N as int).len() == 0);
        lemma_index_of_digits_bound(digits, side);
    }
    while i > 0
        invariant
            i <= N,
            side == chunk_size,
            side >= 1,
            digits == coord_ints(relative_c),
            digits_in_range(digits, side),
            index == index_of_digits(digits.skip(i as int), side),
            pow(side, N as nat) <= usize::MAX,
        decreases i,
    {
        i -= 1;
        proof {
            let tail = digits.skip(i as int);
            assert(tail.skip(1) =~= digits.skip(i + 1));
            assert(tail[0] == digits[i as int]);
            assert forall|j: int| 0 <= j < tail.len() implies 0 <= #[trigger] tail[j] < side by {
                assert(tail[j] == digits[j + i]);
            }
            lemma_index_of_digits_bound(tail, side);
            lemma_pow_increases(side as nat, tail.len(), N as nat);
        }
        index = relative_c[i] as usize + chunk_size * index;
    }
    proof {
        assert(digits.skip(0) =~= digits);
        lemma_index_of_digits_bound(digits, side);
    }
    index
}

/// The coordinate of the cell at local index `cell_i` of the chunk at `chunk_c`.
pub fn calculate_cell_coordinate<const N: usize>(
    chunk_c: [isize; N],
    cell_i: usize,
    chunk_size: usize,
) -> (cell_c: [isize; N])
    requires
        valid_chunk_size(chunk_size),
        forall|i: int|
            0 <= i < N ==> isize::MIN <= #[trigger] coord_of(
                coord_ints(chunk_c),
                cell_i as int,
                chunk_size as int,
            )[i] <= isize::MAX,
    ensures
        coord_ints(cell_c) == coord_of(coord_ints(chunk_c), cell_i as int, chunk_size as int),
{
    let ghost side = chunk_size as int;
    let ghost target = coord_of(coord_ints(chunk_c), cell_i as int, side);
    let mut out = chunk_c;
    let mut rest: usize = cell_i;
    let mut i: usize = 0;
    proof {
        lemma_pow0(side);
    }
    while i < N
        invariant
            i <= N,
            side == chunk_size,
            valid_chunk_size(chunk_size),
            target == coord_of(coord_ints(chunk_c), cell_i as int, side),
            forall|j: int| 0 <= j < N ==> isize::MIN <= #[trigger] target[j] <= isize::MAX,
            rest == cell_i as int / pow(side, i as nat),
            forall|j: int| 0 <= j < i ==> out[j] == target[j],
            forall|j: int| i <= j < N ==> out[j] == chunk_c[j],
        decreases N - i,
    {
        let d: usize = rest % chunk_size;
        let base: i128 = chunk_c[i] as i128;
        let step: i128 = chunk_size as i128;
        assert(-0x4000_0000_0000_0000_0000_0000_0000_0000 <= base * step
            <= 0x4000_0000_0000_0000_0000_0000_0000_0000) by (nonlinear_arith)
            requires
                -0x8000_0000_0000_0000 <= base <= 0x8000_0000_0000_0000,
                0 <= step <= 0x8000_0000_0000_0000,
        ;
        let wide: i128 = base * step + (d as i128);
        proof {
            assert(d == digit(cell_i as int, side, i as nat));
            assert(wide == target[i as int]);
            lemma_pow_positive(side, i as nat);
            lemma_div_denominator(cell_i as int, pow(side, i as nat), side);
            reveal(pow);
            assert(pow(side, (i + 1) as nat) == side * pow(side, i as nat));
            assert(pow(side, i as nat) * side == side * pow(side, i as nat)) by (nonlinear_arith);
        }
        out[i] = wide as isize;
        rest = rest / chunk_size;
        i += 1;
    }
    assert(coord_ints(out) =~= target);
    out
}

/// The number of cells in a chunk of `N` dimensions.
pub fn chunk_slots<const N: usize>(chunk_size: usize) -> (slots: usize)
    requires
        1 <= chunk_size,
        slot_count(chunk_size, N as nat) <= usize::MAX,
    ensures
        slots == slot_count(chunk_size, N as nat),
        slots >= 1,
{
    let ghost side = chunk_size as int;
    let mut slots: usize = 1;
    let mut i: usize = 0;
    proof {
        lemma_pow0(side);
    }
    while i < N
        invariant
            i <= N,
            side == chunk_size,
            side >= 1,
            slots == pow(side, i as nat),
            slots >= 1,
            pow(side, N as nat) <= usize::MAX,
        decreases N - i,
    {
        proof {
            reveal(pow);
            assert(pow(side, (i + 1) as nat) == side * pow(side, i as nat));
            lemma_pow_increases(side as nat, (i + 1) as nat, N as nat);
            lemma_pow_positive(side, (i + 1) as nat);
        }
        slots = chunk_size * slots;
        i += 1;
    }
    slots
}

/// The largest local index of a chunk of `N` dimensions.
pub fn max_cell_index<const N: usize>(chunk_size: usize) -> (index: usize)
    requires
        1 <= chunk_size,
        slot_count(chunk_size, N as nat) <= usize::MAX,
    ensures
        index == slot_count(chunk_size, N as nat) - 1,
{
    chunk_slots::<N>(chunk_size) - 1
}

/// The lowest cell of the chunk at `chunk`.
pub open spec fn chunk_low(chunk: Seq<int>, side: int) -> Seq<int> {
    Seq::new(chunk.len(), |i: int| chunk[i] * side)
}

/// The highest cell of the chunk at `chunk`.
pub open spec fn chunk_high(chunk: Seq<int>, side: int) -> Seq<int> {
    Seq::new(chunk.len(), |i: int| chunk[i] * side + side - 1)
}

/// Every digit of the largest local index is the largest digit.
pub proof fn lemma_digits_of_max_index(side: int, n: nat, axis: nat)
    requires
        side >= 1,
        axis < n,
    ensures
        digit(pow(side, n) - 1, side, axis) == side - 1,
{
    let low = pow(side, axis);
    let rest = (n - axis) as nat;
    let high = pow(side, rest);
    let above = pow(side, (rest - 1) as nat);
    lemma_pow_positive(side, axis);
    lemma_pow_positive(side, (rest - 1) as nat);
    lemma_pow_adds(side, rest, axis);
    assert(rest + axis == n);
    assert(high == side * above) by {
        reveal(pow);
    }
    assert(pow(side, n) - 1 == (high - 1) * low + (low - 1)) by (nonlinear_arith)
        requires
            pow(side, n) == high * low,
    ;
    lemma_fundamental_div_mod_converse(pow(side, n) - 1, low, high - 1, low - 1);
    assert(high - 1 == (above - 1) * side + (side - 1)) by (nonlinear_arith)
        requires
            high == side * above,
    ;
    lemma_fundamental_div_mod_converse(high - 1, side, above - 1, side - 1);
}

/// The cells at the first and at the last local index of a chunk are its
/// lowest and its highest cell.
pub proof fn lemma_chunk_corners(chunk: Seq<int>, side: int)
    requires
        side >= 1,
    ensures
        coord_of(chunk, 0, side) == chunk_low(chunk, side),
        coord_of(chunk, pow(side, chunk.len()) - 1, side) == chunk_high(chunk, side),
{
    let n = chunk.len();
    let first = coord_of(chunk, 0, side);
    let last = coord_of(chunk, pow(side, n) - 1, side);
    assert forall|i: int| 0 <= i < n implies first[i] == chunk_low(chunk, side)[i] && last[i]
        == chunk_high(chunk, side)[i] by {
        lemma_pow_positive(side, i as nat);
        lemma_div_basics_1(pow(side, i as nat));
        lemma_small_mod(0, side as nat);
        lemma_digits_of_max_index(side, n, i as nat);
    }
    assert(first =~= chunk_low(chunk, side));
    assert(last =~= chunk_high(chunk, side));
}

/// The cells between the lowest and the highest cell of a chunk are the cells of that chunk.
pub proof fn lemma_chunk_box(chunk: Seq<int>, cell: Seq<int>, side: int)
    requires
        side >= 1,
        cell.len() == chunk.len(),
    ensures
        in_box(chunk_low(chunk, side), chunk_high(chunk, side), cell) <==> chunk_of(cell, side)
            == chunk,
{
    let lo = chunk_low(chunk, side);
    let hi = chunk_high(chunk, side);
    if in_box(lo, hi, cell) {
        assert forall|i: int| 0 <= i < chunk.len() implies chunk_of(cell, side)[i] == chunk[i] by {
            assert(lo[i] <= cell[i] <= hi[i]);
            let r = cell[i] - chunk[i] * side;
            lemma_fundamental_div_mod_converse(cell[i], side, chunk[i], r);
        }
        assert(chunk_of(cell, side) =~= chunk);
    }
    if chunk_of(cell, side) == chunk {
        assert forall|i: int| 0 <= i < lo.len() implies lo[i] <= #[trigger] cell[i] <= hi[i] by {
            assert(chunk_of(cell, side)[i] == cell[i] / side);
            lemma_fundamental_div_mod(cell[i], side);
            lemma_mod_bound(cell[i], side);
            assert(side * (cell[i] / side) == (cell[i] / side) * side) by (nonlinear_arith);
        }
    }
}

/// The lower corner of the box spanned by two corners given in any order.
pub open spec fn box_low(a: Seq<int>, b: Seq<int>) -> Seq<int> {
    Seq::new(a.len(), |i: int| if a[i] <= b[i] { a[i] } else { b[i] })
}

/// The upper corner of the box spanned by two corners given in any order.
pub open spec fn box_high(a: Seq<int>, b: Seq<int>) -> Seq<int> {
    Seq::new(a.len(), |i: int| if a[i] <= b[i] { b[i] } else { a[i] })
}

/// `lo` and `hi` are the lower and upper corner of a box.
pub open spec fn is_box(lo: Seq<int>, hi: Seq<int>) -> bool {
    &&& lo.len() == hi.len()
    &&& forall|i: int| 0 <= i < lo.len() ==> #[trigger] lo[i] <= hi[i]
}

/// `p` lies in the closed box from `lo` to `hi`.
pub open spec fn in_box(lo: Seq<int>, hi: Seq<int>, p: Seq<int>) -> bool {
    &&& p.len() == lo.len()
    &&& forall|i: int| 0 <= i < lo.len() ==> lo[i] <= #[trigger] p[i] <= hi[i]
}

/// The number of lattice points in the box: the product of its extents.
pub open spec fn box_len(lo: Seq<int>, hi: Seq<int>) -> int
    decreases lo.len(),
{
    if lo.len() == 0 {
        1
    } else {
        (hi[0] - lo[0] + 1) * box_len(lo.skip(1), hi.skip(1))
    }
}

/// The place of `p` in the row-major order of the box, axis 0 running fastest.
pub open spec fn box_rank(lo: Seq<int>, hi: Seq<int>, p: Seq<int>) -> int
    decreases lo.len(),
{
    if lo.len() == 0 {
        0
    } else {
        (p[0] - lo[0]) + (hi[0] - lo[0] + 1) * box_rank(lo.skip(1), hi.skip(1), p.skip(1))
    }
}

/// The point at place `k` in the row-major order of the box.
pub open spec fn box_point(lo: Seq<int>, hi: Seq<int>, k: int) -> Seq<int>
    decreases lo.len(),
{
    if lo.len() == 0 {
        Seq::empty()
    } else {
        seq![lo[0] + k % (hi[0] - lo[0] + 1)] + box_point(
            lo.skip(1),
            hi.skip(1),
            k / (hi[0] - lo[0] + 1),
        )
    }
}

proof fn lemma_box_tail(lo: Seq<int>, hi: Seq<int>)
    requires
        is_box(lo, hi),
        lo.len() > 0,
    ensures
        is_box(lo.skip(1), hi.skip(1)),
{
    let l = lo.skip(1);
    let h = hi.skip(1);
    assert forall|i: int| 0 <= i < l.len() implies #[trigger] l[i] <= h[i] by {
        assert(lo[i + 1] <= hi[i + 1]);
    }
}

proof fn lemma_in_box_tail(lo: Seq<int>, hi: Seq<int>, p: Seq<int>)
    requires
        in_box(lo, hi, p),
        lo.len() == hi.len(),
        lo.len() > 0,
    ensures
        in_box(lo.skip(1), hi.skip(1), p.skip(1)),
{
    let l = lo.skip(1);
    let h = hi.skip(1);
    let q = p.skip(1);
    assert forall|i: int| 0 <= i < l.len() implies l[i] <= #[trigger] q[i] <= h[i] by {
        assert(lo[i + 1] <= p[i + 1] <= hi[i + 1]);
    }
}

/// A box holds at least one point.
pub proof fn lemma_box_len_positive(lo: Seq<int>, hi: Seq<int>)
    requires
        is_box(lo, hi),
    ensures
        box_len(lo, hi) >= 1,
    decreases lo.len(),
{
    if lo.len() > 0 {
        lemma_box_tail(lo, hi);
        lemma_box_len_positive(lo.skip(1), hi.skip(1));
        let e = hi[0] - lo[0] + 1;
        let t = box_len(lo.skip(1), hi.skip(1));
        assert(e * t >= 1) by (nonlinear_arith)
            requires
                e >= 1,
                t >= 1,
        ;
    }
}

/// The place of a point of the box is smaller than the number of its points.
pub proof fn lemma_box_rank_bound(lo: Seq<int>, hi: Seq<int>, p: Seq<int>)
    requires
        is_box(lo, hi),
        in_box(lo, hi, p),
    ensures
        0 <= box_rank(lo, hi, p) < box_len(lo, hi),
    decreases lo.len(),
{
    if lo.len() > 0 {
        lemma_box_tail(lo, hi);
        lemma_in_box_tail(lo, hi, p);
        lemma_box_rank_bound(lo.skip(1), hi.skip(1), p.skip(1));
        let e = hi[0] - lo[0] + 1;
        let d = p[0] - lo[0];
        let r = box_rank(lo.skip(1), hi.skip(1), p.skip(1));
        let t = box_len(lo.skip(1), hi.skip(1));
        assert(0 <= d + e * r < e * t) by (nonlinear_arith)
            requires
                0 <= d < e,
                0 <= r < t,
        ;
    }
}

/// Every place holds a point of the box.
pub proof fn lemma_box_point_in_box(lo: Seq<int>, hi: Seq<int>, k: int)
    requires
        is_box(lo, hi),
    ensures
        in_box(lo, hi, box_point(lo, hi, k)),
    decreases lo.len(),
{
    if lo.len() > 0 {
        lemma_box_tail(lo, hi);
        let e = hi[0] - lo[0] + 1;
        lemma_box_point_in_box(lo.skip(1), hi.skip(1), k / e);
        lemma_mod_bound(k, e);
        let p = box_point(lo, hi, k);
        let q = box_point(lo.skip(1), hi.skip(1), k / e);
        assert forall|i: int| 0 <= i < lo.len() implies lo[i] <= #[trigger] p[i] <= hi[i] by {
            if i > 0 {
                assert(p[i] == q[i - 1]);
                assert(lo.skip(1)[i - 1] <= q[i - 1] <= hi.skip(1)[i - 1]);
            }
        }
    }
}

/// The point at place `k` has place `k`.
pub proof fn lemma_box_rank_of_point(lo: Seq<int>, hi: Seq<int>, k: int)
    requires
        is_box(lo, hi),
        0 <= k < box_len(lo, hi),
    ensures
        box_rank(lo, hi, box_point(lo, hi, k)) == k,
    decreases lo.len(),
{
    if lo.len() > 0 {
        lemma_box_tail(lo, hi);
        let e = hi[0] - lo[0] + 1;
        let t = box_len(lo.skip(1), hi.skip(1));
        lemma_fundamental_div_mod(k, e);
        lemma_mod_bound(k, e);
        assert(0 <= k / e < t) by (nonlinear_arith)
            requires
                0 <= k < e * t,
                e >= 1,
                k == e * (k / e) + k % e,
                0 <= k % e < e,
        ;
        lemma_box_rank_of_point(lo.skip(1), hi.skip(1), k / e);
        let p = box_point(lo, hi, k);
        assert(p.skip(1) =~= box_point(lo.skip(1), hi.skip(1), k / e));
    } else {
        assert(box_len(lo, hi) == 1);
    }
}

/// The point at the place of `p` is `p`.
pub proof fn lemma_box_point_of_rank(lo: Seq<int>, hi: Seq<int>, p: Seq<int>)
    requires
        is_box(lo, hi),
        in_box(lo, hi, p),
    ensures
        box_point(lo, hi, box_rank(lo, hi, p)) == p,
    decreases lo.len(),
{
    if lo.len() > 0 {
        lemma_box_tail(lo, hi);
        lemma_in_box_tail(lo, hi, p);
        lemma_box_point_of_rank(lo.skip(1), hi.skip(1), p.skip(1));
        let e = hi[0] - lo[0] + 1;
        let d = p[0] - lo[0];
        let r = box_rank(lo.skip(1), hi.skip(1), p.skip(1));
        assert(d + e * r == r * e + d) by (nonlinear_arith);
        lemma_fundamental_div_mod_converse(d + e * r, e, r, d);
        assert(box_point(lo, hi, d + e * r) =~= p);
    } else {
        assert(box_point(lo, hi, 0) =~= p);
    }
}

/// The lower corner comes first.
proof fn lemma_box_rank_low(lo: Seq<int>, hi: Seq<int>)
    requires
        lo.len() == hi.len(),
    ensures
        box_rank(lo, hi, lo) == 0,
    decreases lo.len(),
{
    if lo.len() > 0 {
        lemma_box_rank_low(lo.skip(1), hi.skip(1));
    }
}

/// The upper corner comes last.
proof fn lemma_box_rank_high(lo: Seq<int>, hi: Seq<int>)
    requires
        lo.len() == hi.len(),
    ensures
        box_rank(lo, hi, hi) == box_len(lo, hi) - 1,
    decreases lo.len(),
{
    if lo.len() > 0 {
        lemma_box_rank_high(lo.skip(1), hi.skip(1));
        let e = hi[0] - lo[0] + 1;
        let t = box_len(lo.skip(1), hi.skip(1));
        assert((e - 1) + e * (t - 1) == e * t - 1) by (nonlinear_arith);
    }
}

/// Stepping a point like an odometer moves it to the next place: the axes
/// below `pivot` wrap from the upper to the lower bound and axis `pivot`
/// advances by one.
proof fn lemma_box_rank_step(lo: Seq<int>, hi: Seq<int>, p: Seq<int>, q: Seq<int>, pivot: int)
    requires
        lo.len() == hi.len(),
        p.len() == lo.len(),
        q.len() == lo.len(),
        0 <= pivot < lo.len(),
        forall|j: int| 0 <= j < pivot ==> p[j] == hi[j] && q[j] == lo[j],
        q[pivot] == p[pivot] + 1,
        forall|j: int| pivot < j < lo.len() ==> q[j] == p[j],
    ensures
        box_rank(lo, hi, q) == box_rank(lo, hi, p) + 1,
    decreases lo.len(),
{
    let e = hi[0] - lo[0] + 1;
    if pivot == 0 {
        assert(q.skip(1) =~= p.skip(1));
    } else {
        let l = lo.skip(1);
        let h = hi.skip(1);
        let ps = p.skip(1);
        let qs = q.skip(1);
        assert forall|j: int| 0 <= j < pivot - 1 implies ps[j] == h[j] && qs[j] == l[j] by {
            assert(p[j + 1] == hi[j + 1] && q[j + 1] == lo[j + 1]);
        }
        assert forall|j: int| pivot - 1 < j < l.len() implies qs[j] == ps[j] by {
            assert(q[j + 1] == p[j + 1]);
        }
        lemma_box_rank_step(l, h, ps, qs, pivot - 1);
        let r = box_rank(l, h, ps);
        assert(p[0] == hi[0] && q[0] == lo[0]);
        assert(0 + e * (r + 1) == (hi[0] - lo[0]) + e * r + 1) by (nonlinear_arith)
            requires
                e == hi[0] - lo[0] + 1,
        ;
    }
}

/// Two different places of a box hold two different points.
pub proof fn lemma_box_points_distinct(lo: Seq<int>, hi: Seq<int>, j: int, k: int)
    requires
        is_box(lo, hi),
        0 <= j < box_len(lo, hi),
        0 <= k < box_len(lo, hi),
        j != k,
    ensures
        box_point(lo, hi, j) != box_point(lo, hi, k),
{
    lemma_box_rank_of_point(lo, hi, j);
    lemma_box_rank_of_point(lo, hi, k);
}

/// Every point of a box stands at exactly one place below the number of its points.
pub proof fn lemma_box_points_complete(lo: Seq<int>, hi: Seq<int>, p: Seq<int>)
    requires
        is_box(lo, hi),
        in_box(lo, hi, p),
    ensures
        0 <= box_rank(lo, hi, p) < box_len(lo, hi),
        box_point(lo, hi, box_rank(lo, hi, p)) == p,
        forall|k: int| 0 <= k < box_len(lo, hi) && box_point(lo, hi, k) == p ==> k
            == box_rank(lo, hi, p),
{
    lemma_box_rank_bound(lo, hi, p);
    lemma_box_point_of_rank(lo, hi, p);
    assert forall|k: int| 0 <= k < box_len(lo, hi) && box_point(lo, hi, k) == p implies k
        == box_rank(lo, hi, p) by {
        lemma_box_rank_of_point(lo, hi, k);
    }
}

/// Walks the lattice points of a closed box in row-major order, axis 0
/// running fastest, from the lower corner to the upper corner.
pub struct CoordIterator<const N: usize> {
    corner_1: [isize; N],
    corner_2: [isize; N],
    current: [isize; N],
    complete: bool,
}

impl<const N: usize> CoordIterator<N> {
    #[verifier::type_invariant]
    spec fn inv(self) -> bool {
        forall|i: int|
            0 <= i < N ==> self.corner_1[i] <= #[trigger] self.current[i] <= self.corner_2[i]
    }

    /// The lower corner of the box.
    pub closed spec fn low(self) -> Seq<int> {
        coord_ints(self.corner_1)
    }

    /// The upper corner of the box.
    pub closed spec fn high(self) -> Seq<int> {
        coord_ints(self.corner_2)
    }

    /// The number of points handed out so far.
    pub closed spec fn position(self) -> int {
        if self.complete {
            box_len(self.low(), self.high())
        } else {
            box_rank(self.low(), self.high(), coord_ints(self.current))
        }
    }

    /// An iterator over the box spanned by the two corners, which may be given in any order.
    pub fn new(corner_1: [isize; N], corner_2: [isize; N]) -> (iter: Self)
        ensures
            iter.low() == box_low(coord_ints(corner_1), coord_ints(corner_2)),
            iter.high() == box_high(coord_ints(corner_1), coord_ints(corner_2)),
            is_box(iter.low(), iter.high()),
            iter.position() == 0,
    {
        let mut low = corner_1;
        let mut high = corner_2;
        let mut i: usize = 0;
        while i < N
            invariant
                i <= N,
                forall|j: int|
                    0 <= j < i ==> low[j] == (if corner_1[j] <= corner_2[j] {
                        corner_1[j]
                    } else {
                        corner_2[j]
                    }),
                forall|j: int|
                    0 <= j < i ==> high[j] == (if corner_1[j] <= corner_2[j] {
                        corner_2[j]
                    } else {
                        corner_1[j]
                    }),
                forall|j: int| i <= j < N ==> low[j] == corner_1[j] && high[j] == corner_2[j],
            decreases N - i,
        {
            if low[i] > high[i] {
                let swapped: isize = low[i];
                low[i] = high[i];
                high[i] = swapped;
            }
            i += 1;
        }
        proof {
            assert(coord_ints(low) =~= box_low(coord_ints(corner_1), coord_ints(corner_2)));
            assert(coord_ints(high) =~= box_high(coord_ints(corner_1), coord_ints(corner_2)));
            lemma_box_rank_low(coord_ints(low), coord_ints(high));
        }
        CoordIterator { corner_1: low, corner_2: high, current: low, complete: false }
    }

    /// Whether every point of the box was handed out.
    pub fn is_done(&self) -> (done: bool)
        ensures
            done == (self.position() == box_len(self.low(), self.high())),
            0 <= self.position() <= box_len(self.low(), self.high()),
            is_box(self.low(), self.high()),
    {
        proof {
            use_type_invariant(self);
            let lo = self.low();
            let hi = self.high();
            let at = coord_ints(self.current);
            assert(is_box(lo, hi)) by {
                assert forall|i: int| 0 <= i < lo.len() implies #[trigger] lo[i] <= hi[i] by {
                    assert(self.corner_1[i] <= self.current[i] <= self.corner_2[i]);
                }
            }
            assert(in_box(lo, hi, at)) by {
                assert forall|i: int| 0 <= i < lo.len() implies lo[i] <= #[trigger] at[i]
                    <= hi[i] by {
                    assert(self.corner_1[i] <= self.current[i] <= self.corner_2[i]);
                }
            }
            lemma_box_rank_bound(lo, hi, at);
        }
        self.complete
    }

    /// Hands out the next point of the box, or nothing once every point was handed out.
    pub fn next(&mut self) -> (point: Option<[isize; N]>)
        ensures
            final(self).low() == old(self).low(),
            final(self).high() == old(self).high(),
            0 <= old(self).position() <= box_len(old(self).low(), old(self).high()),
            old(self).position() < box_len(old(self).low(), old(self).high()) ==> {
                &&& point is Some
                &&& coord_ints(point.unwrap()) == box_point(
                    old(self).low(),
                    old(self).high(),
                    old(self).position(),
                )
                &&& final(self).position() == old(self).position() + 1
            },
            old(self).position() == box_len(old(self).low(), old(self).high()) ==> {
                &&& point is None
                &&& final(self).position() == old(self).position()
            },
    {
        proof {
            use_type_invariant(&*self);
        }
        let ghost lo = self.low();
        let ghost hi = self.high();
        let ghost start = coord_ints(self.current);
        proof {
            assert(is_box(lo, hi)) by {
                assert forall|i: int| 0 <= i < lo.len() implies #[trigger] lo[i] <= hi[i] by {
                    assert(self.corner_1[i] <= self.current[i] <= self.corner_2[i]);
                }
            }
            assert(in_box(lo, hi, start)) by {
                assert forall|i: int| 0 <= i < lo.len() implies lo[i] <= #[trigger] start[i]
                    <= hi[i] by {
                    assert(self.corner_1[i] <= self.current[i] <= self.corner_2[i]);
                }
            }
            lemma_box_rank_bound(lo, hi, start);
            lemma_box_point_of_rank(lo, hi, start);
        }
        if self.complete {
            return None;
        }
        let ret = self.current;
        let mut cur = self.current;
        let mut i: usize = 0;
        let mut stepped = false;
        while i < N && !stepped
            invariant
                i <= N,
                lo == coord_ints(self.corner_1),
                hi == coord_ints(self.corner_2),
                forall|j: int| 0 <= j < N
                    ==> self.corner_1[j] <= #[trigger] ret[j] <= self.corner_2[j],
                forall|j: int| 0 <= j < N
                    ==> self.corner_1[j] <= #[trigger] cur[j] <= self.corner_2[j],
                !stepped ==> forall|j: int|
                    0 <= j < i ==> ret[j] == self.corner_2[j] && cur[j] == self.corner_1[j],
                stepped ==> i >= 1 && cur[i - 1] == ret[i - 1] + 1 && forall|j: int|
                    0 <= j < i - 1 ==> ret[j] == self.corner_2[j] && cur[j] == self.corner_1[j],
                forall|j: int| i <= j < N ==> cur[j] == ret[j],
            decreases N - i,
        {
            if cur[i] == self.corner_2[i] {
                cur[i] = self.corner_1[i];
            } else {
                cur[i] = cur[i] + 1;
                stepped = true;
            }
            i += 1;
        }
        if stepped {
            proof {
                lemma_box_rank_step(lo, hi, coord_ints(ret), coord_ints(cur), i - 1);
            }
            self.current = cur;
        } else {
            proof {
                assert(coord_ints(ret) =~= hi);
                lemma_box_rank_high(lo, hi);
            }
            self.complete = true;
        }
        Some(ret)
    }
}

} // verus!
