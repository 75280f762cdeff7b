//! Lane arithmetic of the segmented byte arena.
//!
//! The arena splits an unbounded run of bytes over files ("lanes") that double
//! in size: lane `i` holds `init * 2^i` bytes and starts at logical offset
//! `(2^i - 1) * init`. This module holds the mathematics of that layout and
//! the executable functions that compute it.

use vstd::prelude::*;
use vstd::arithmetic::power2::pow2;
use vstd::arithmetic::power2::lemma_pow2_unfold;
use vstd::arithmetic::power2::lemma_pow2_pos;
use vstd::arithmetic::power2::lemma_pow2_strictly_increases;
use vstd::arithmetic::power2::lemma2_to64;
use vstd::std_specs::bits::u64_leading_zeros;

verus! {

/// Number of lanes an arena can hold.
pub const N_LANES: usize = 32;

/// Largest base lane size for which every lane offset fits in 64 bits.
pub const MAX_INIT_SIZE: u64 = 0x1_0000_0000;

/// A base lane size is usable when it is positive and small enough for the
/// whole arena to be addressed by a `u64`.
pub open spec fn valid_init(init: nat) -> bool {
    0 < init <= MAX_INIT_SIZE
}

/// Size in bytes of lane `lane`.
pub open spec fn lane_size(init: nat, lane: nat) -> nat {
    init * pow2(lane)
}

/// Logical offset of the first byte of lane `lane`.
pub open spec fn lane_start(init: nat, lane: nat) -> nat {
    ((pow2(lane) - 1) * init) as nat
}

/// Number of bytes an arena with `N_LANES` lanes can address.
pub open spec fn capacity(init: nat) -> nat {
    lane_start(init, N_LANES as nat)
}

/// Integer logarithm to base two, rounded down; zero for zero.
pub open spec fn floor_log2(i: nat) -> nat
    decreases i,
{
    if i < 2 {
        0
    } else {
        1 + floor_log2(i / 2)
    }
}

/// The lane that holds logical offset `offset`, in closed form.
pub open spec fn lane_nr(init: nat, offset: nat) -> nat {
    floor_log2(offset / init + 1)
}

/// Position of logical offset `offset` inside its lane, in closed form.
pub open spec fn lane_ofs(init: nat, offset: nat) -> nat {
    (offset - lane_start(init, lane_nr(init, offset))) as nat
}

/// The lane and inner offset found by walking the lanes in order, starting
/// at `lane` with `rest` bytes still to skip.
pub open spec fn lane_walk(init: nat, lane: nat, rest: nat) -> (nat, nat)
    decreases rest,
{
    if 0 < lane_size(init, lane) <= rest {
        lane_walk(init, lane + 1, (rest - lane_size(init, lane)) as nat)
    } else {
        (lane, rest)
    }
}

/// `offset` is a multiple of `alignment`.
pub open spec fn aligned(offset: nat, alignment: nat) -> bool {
    alignment > 0 && offset % alignment == 0
}

/// What `offset` lacks to the next multiple of `alignment`.
pub open spec fn padding(offset: nat, alignment: nat) -> nat {
    if alignment == 0 {
        0
    } else {
        ((alignment - offset % alignment) % (alignment as int)) as nat
    }
}

/// `len` bytes starting at `offset` lie inside a single existing lane.
pub open spec fn fits_in_lane(init: nat, offset: nat, len: nat) -> bool {
    &&& lane_nr(init, offset) < N_LANES
    &&& lane_ofs(init, offset) + len <= lane_size(init, lane_nr(init, offset))
}

/// `candidate` is a place where a record of `len` bytes, aligned to
/// `alignment`, may be stored at or after `offset`.
pub open spec fn is_space(
    init: nat,
    offset: nat,
    len: nat,
    alignment: nat,
    candidate: nat,
) -> bool {
    &&& offset <= candidate
    &&& aligned(candidate, alignment)
    &&& fits_in_lane(init, candidate, len)
}

/// `found` is the first place at or after `offset` where the record fits.
pub open spec fn is_first_space(
    init: nat,
    offset: nat,
    len: nat,
    alignment: nat,
    found: nat,
) -> bool {
    &&& is_space(init, offset, len, alignment, found)
    &&& forall|o: nat| offset <= o < found ==> !is_space(init, offset, len, alignment, o)
}

/// Some place at or after `offset` can hold the record.
pub open spec fn has_space(init: nat, offset: nat, len: nat, alignment: nat) -> bool {
    exists|o: nat| is_space(init, offset, len, alignment, o)
}

/// A lane starts where the lane before it ends, and the first at zero.
pub proof fn lemma_lane_start_step(init: nat, lane: nat)
    ensures
        lane_start(init, lane + 1) == lane_start(init, lane) + lane_size(init, lane),
        lane_start(init, 0) == 0,
{
    lemma_pow2_unfold(lane + 1);
    lemma_pow2_pos(lane);
    lemma2_to64();
    let p = pow2(lane) as int;
    assert((2 * p - 1) * init == (p - 1) * init + init * p) by (nonlinear_arith);
}

/// Later lanes start later.
pub proof fn lemma_lane_start_monotonic(init: nat, a: nat, b: nat)
    requires
        a <= b,
    ensures
        lane_start(init, a) <= lane_start(init, b),
    decreases b - a,
{
    if a < b {
        lemma_lane_start_monotonic(init, a, (b - 1) as nat);
        lemma_lane_start_step(init, (b - 1) as nat);
    }
}

/// A power of two bracketing `i` determines its logarithm.
pub proof fn lemma_floor_log2_bracket(i: nat, l: nat)
    requires
        pow2(l) <= i < pow2(l + 1),
    ensures
        floor_log2(i) == l,
    decreases l,
{
    lemma2_to64();
    lemma_pow2_unfold(l + 1);
    if l == 0 {
        assert(i == 1);
    } else {
        lemma_pow2_unfold(l);
        lemma_pow2_pos((l - 1) as nat);
        assert(i >= 2);
        lemma_floor_log2_bracket(i / 2, (l - 1) as nat);
    }
}

/// The logarithm of a positive number is what its leading zeroes leave of
/// 63 binary digits.
pub proof fn lemma_leading_zeros_log2(i: u64)
    requires
        i > 0,
    ensures
        floor_log2(i as nat) == 63 - u64_leading_zeros(i),
        0 <= u64_leading_zeros(i) <= 63,
    decreases i,
{
    reveal_with_fuel(u64_leading_zeros, 2);
    if i >= 2 {
        lemma_leading_zeros_log2(i / 2);
    }
}

/// Every positive number lies between two neighbouring powers of two, the
/// lower of which is given by its logarithm.
pub proof fn lemma_floor_log2_bounds(i: nat)
    requires
        i > 0,
    ensures
        pow2(floor_log2(i)) <= i < pow2(floor_log2(i) + 1),
    decreases i,
{
    lemma2_to64();
    if i < 2 {
    } else {
        lemma_floor_log2_bounds(i / 2);
        let l = floor_log2(i / 2);
        lemma_pow2_unfold(l + 1);
        lemma_pow2_unfold(l + 2);
    }
}

/// An offset lies in lane `lane` exactly when it is between that lane's
/// start and the next one's.
pub proof fn lemma_lane_of_range(init: nat, offset: nat, lane: nat)
    requires
        init > 0,
        lane_start(init, lane) <= offset < lane_start(init, lane + 1),
    ensures
        lane_nr(init, offset) == lane,
        lane_ofs(init, offset) == offset - lane_start(init, lane),
        lane_ofs(init, offset) < lane_size(init, lane),
{
    let p = pow2(lane) as int;
    let q = (offset / init) as int;
    lemma_pow2_pos(lane);
    lemma_pow2_unfold(lane + 1);
    lemma_lane_start_step(init, lane);
    vstd::arithmetic::div_mod::lemma_fundamental_div_mod(offset as int, init as int);
    vstd::arithmetic::div_mod::lemma_mod_bound(offset as int, init as int);
    assert(p - 1 <= q) by (nonlinear_arith)
        requires
            (p - 1) * init <= offset,
            offset == init * q + offset % init,
            0 <= offset % init < init,
            init > 0,
    ;
    assert(q < 2 * p - 1) by (nonlinear_arith)
        requires
            offset < (2 * p - 1) * init,
            offset == init * q + offset % init,
            0 <= offset % init < init,
            init > 0,
    ;
    lemma_floor_log2_bracket((q + 1) as nat, lane);
}

/// The closed form puts every offset between the start of its lane and the
/// start of the next.
pub proof fn lemma_lane_bounds(init: nat, offset: nat)
    requires
        init > 0,
    ensures
        lane_start(init, lane_nr(init, offset)) <= offset,
        offset < lane_start(init, lane_nr(init, offset) + 1),
        lane_ofs(init, offset) < lane_size(init, lane_nr(init, offset)),
        lane_start(init, lane_nr(init, offset)) + lane_ofs(init, offset) == offset,
{
    let q = (offset / init) as int;
    let l = lane_nr(init, offset);
    let p = pow2(l) as int;
    lemma_floor_log2_bounds((q + 1) as nat);
    lemma_pow2_unfold(l + 1);
    lemma_lane_start_step(init, l);
    vstd::arithmetic::div_mod::lemma_fundamental_div_mod(offset as int, init as int);
    vstd::arithmetic::div_mod::lemma_mod_bound(offset as int, init as int);
    assert((p - 1) * init <= offset) by (nonlinear_arith)
        requires
            p - 1 <= q,
            offset == init * q + offset % init,
            0 <= offset % init,
            init > 0,
    ;
    assert(offset < (2 * p - 1) * init) by (nonlinear_arith)
        requires
            q + 1 < 2 * p,
            offset == init * q + offset % init,
            offset % init < init,
            init > 0,
    ;
}

/// The lanes of an arena with a valid base size can be addressed by a `u64`.
pub proof fn lemma_lane_limits(init: nat, lane: nat)
    requires
        valid_init(init),
        lane <= N_LANES,
    ensures
        lane_start(init, lane) <= capacity(init),
        capacity(init) < 0xffff_ffff_0000_0001,
        lane < N_LANES ==> lane_size(init, lane) <= 0x8000_0000_0000_0000,
        lane < N_LANES ==> lane_size(init, lane) > 0,
        lane < N_LANES ==> lane_start(init, lane) + lane_size(init, lane) <= capacity(init),
{
    lemma2_to64();
    lemma_lane_start_monotonic(init, lane, N_LANES as nat);
    assert((0x1_0000_0000 - 1) * init <= (0x1_0000_0000 - 1) * 0x1_0000_0000) by (nonlinear_arith)
        requires
            init <= 0x1_0000_0000,
    ;
    if lane < N_LANES {
        lemma_pow2_pos(lane);
        if lane < 31 {
            lemma_pow2_strictly_increases(lane, 31);
        }
        let p = pow2(lane);
        assert(init * p <= 0x1_0000_0000 * 0x8000_0000) by (nonlinear_arith)
            requires
                init <= 0x1_0000_0000,
                p <= 0x8000_0000,
        ;
        assert(init * p > 0) by (nonlinear_arith)
            requires
                init > 0,
                p > 0,
        ;
        lemma_lane_start_step(init, lane);
        lemma_lane_start_monotonic(init, lane + 1, N_LANES as nat);
    }
}

/// An offset at or after the start of a lane lies in that lane or a later
/// one.
pub proof fn lemma_lane_nr_at_least(init: nat, offset: nat, lane: nat)
    requires
        init > 0,
        lane_start(init, lane) <= offset,
    ensures
        lane <= lane_nr(init, offset),
{
    lemma_lane_bounds(init, offset);
    if lane_nr(init, offset) < lane {
        lemma_lane_start_monotonic(init, lane_nr(init, offset) + 1, lane);
    }
}

/// The first multiple of `alignment` at or after `offset` is `padding` bytes
/// away, where `padding` is what `offset` lacks to the next multiple.
pub proof fn lemma_padding(offset: nat, alignment: nat)
    requires
        alignment > 0,
    ensures
        aligned(offset + padding(offset, alignment), alignment),
        padding(offset, alignment) < alignment,
        forall|o: nat|
            offset <= o < offset + padding(offset, alignment) ==> !#[trigger] aligned(o, alignment),
{
    let a = alignment as int;
    let r = (offset % alignment) as int;
    let q = (offset / alignment) as int;
    vstd::arithmetic::div_mod::lemma_fundamental_div_mod(offset as int, a);
    vstd::arithmetic::div_mod::lemma_mod_bound(offset as int, a);
    if r == 0 {
        vstd::arithmetic::div_mod::lemma_mod_self_0(a);
    } else {
        vstd::arithmetic::div_mod::lemma_small_mod((a - r) as nat, alignment);
        assert(a * q + a == a * (q + 1)) by (nonlinear_arith);
        vstd::arithmetic::div_mod::lemma_fundamental_div_mod_converse(
            offset + a - r,
            a,
            q + 1,
            0,
        );
        assert forall|o: nat| offset <= o < offset + padding(offset, alignment)
            implies !#[trigger] aligned(
            o,
            alignment,
        ) by {
            vstd::arithmetic::div_mod::lemma_fundamental_div_mod_converse(
                o as int,
                a,
                q,
                o - a * q,
            );
        }
    }
}

/// No cross-lane writes: a record that is stored where the search for space
/// puts it begins and ends in the same lane, at or after the offset the
/// search started from, on a multiple of the alignment.
pub proof fn lemma_space_is_in_one_lane(
    init: nat,
    offset: nat,
    len: nat,
    alignment: nat,
    found: nat,
)
    requires
        init > 0,
        len > 0,
        is_space(init, offset, len, alignment, found),
    ensures
        lane_nr(init, found) == lane_nr(init, (found + len - 1) as nat),
        found >= offset,
        found % alignment == 0,
{
    let lane = lane_nr(init, found);
    lemma_lane_bounds(init, found);
    lemma_lane_start_step(init, lane);
    lemma_lane_of_range(init, (found + len - 1) as nat, lane);
}

/// Walking the lanes from lane `lane` on reaches the lane and inner offset
/// that the closed form gives for the offset the walk started from.
proof fn lemma_walk_from(init: nat, lane: nat, rest: nat)
    requires
        init > 0,
    ensures
        lane_walk(init, lane, rest) == (
            lane_nr(init, lane_start(init, lane) + rest),
            lane_ofs(init, lane_start(init, lane) + rest),
        ),
    decreases rest,
{
    lemma_lane_start_step(init, lane);
    lemma_pow2_pos(lane);
    assert(lane_size(init, lane) > 0) by (nonlinear_arith)
        requires
            init > 0,
            pow2(lane) > 0,
            lane_size(init, lane) == init * pow2(lane),
    ;
    if lane_size(init, lane) <= rest {
        lemma_walk_from(init, lane + 1, (rest - lane_size(init, lane)) as nat);
    } else {
        lemma_lane_of_range(init, lane_start(init, lane) + rest, lane);
    }
}

/// The closed form agrees with the decomposition that subtracts lane sizes
/// one after the other until the remainder fits.
pub proof fn lemma_closed_form_is_iterative(init: nat, offset: nat)
    requires
        init > 0,
    ensures
        lane_walk(init, 0, offset) == (lane_nr(init, offset), lane_ofs(init, offset)),
{
    lemma_lane_start_step(init, 0);
    lemma_walk_from(init, 0, offset);
}

} // verus!
