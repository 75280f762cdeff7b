//! The segmented byte arena.

use vstd::prelude::*;
use vstd::arithmetic::power2::pow2;
use vstd::arithmetic::power2::lemma_pow2_unfold;
use vstd::arithmetic::power2::lemma_pow2_strictly_increases;
use vstd::arithmetic::power2::lemma2_to64;
use vstd::arithmetic::power2::lemma2_to64_rest;
use crate::errors::FillError;
use crate::helpers::{hex_digit, hex_digit_text};
use crate::landfill::{
    asks_resize, join_names, joined, lemma_joined_differ, GuardedLandfill, Landfill,
    Substructure,
};
use crate::lanes::{
    aligned, fits_in_lane, has_space, is_first_space, is_space, lane_nr, lane_ofs,
    lane_size, lane_start, lane_walk, lemma_floor_log2_bounds, lemma_floor_log2_bracket,
    lemma_lane_bounds, lemma_leading_zeros_log2,
    lemma_lane_limits, lemma_lane_nr_at_least, lemma_lane_of_range, lemma_lane_start_monotonic,
    lemma_lane_start_step, lemma_padding, padding, valid_init, MAX_INIT_SIZE, N_LANES,
};
use crate::mapped::{overwrite, zeroes, MappedFile};

verus! {

/// Name of the file of lane `lane`: its number in two hexadecimal digits.
pub open spec fn lane_name(lane: nat) -> Seq<char> {
    seq![hex_digit(lane / 16), hex_digit(lane % 16)]
}

/// Different lanes have different file names.
pub proof fn lemma_lane_names_differ(a: nat, b: nat)
    requires
        a < 256,
        b < 256,
        a != b,
    ensures
        lane_name(a) != lane_name(b),
{
    if lane_name(a) == lane_name(b) {
        assert(lane_name(a)[0] == lane_name(b)[0]);
        assert(lane_name(a)[1] == lane_name(b)[1]);
        assert(a / 16 == b / 16);
        assert(a % 16 == b % 16);
    }
}

/// The file name of lane `lane`.
pub fn lane_file_name(lane: usize) -> (r: String)
    requires
        lane < 256,
    ensures
        r@ == lane_name(lane as nat),
{
    let mut name = String::from_str(hex_digit_text((lane / 16) as u8));
    name.append(hex_digit_text((lane % 16) as u8));
    proof {
        assert(name@ =~= lane_name(lane as nat));
    }
    name
}

/// The file called `name` waits unclaimed in `landfill` and has another
/// length than lane `lane` calls for.
pub open spec fn misfit(init: nat, landfill: Landfill, name: Seq<char>, lane: nat) -> bool {
    &&& lane < N_LANES
    &&& landfill.present(name)
    &&& !landfill.reserved(name)
    &&& landfill.contents(name).len() != lane_size(init, lane)
}

/// An unbounded run of bytes, split over lanes that double in size.
///
/// Lane `i` is a mapped file of `INIT_SIZE * 2^i` bytes that is created when
/// the first write reaches it. Lanes never shrink, move or get replaced.
pub struct DiskBytes<const INIT_SIZE: u64> {
    scope: GuardedLandfill,
    lanes: Vec<Option<MappedFile>>,
}

impl<const INIT_SIZE: u64> DiskBytes<INIT_SIZE> {
    /// Size in bytes of lane `lane`.
    pub fn lane_size(lane: usize) -> (r: u64)
        requires
            INIT_SIZE > 0,
            lane_size(INIT_SIZE as nat, lane as nat) <= u64::MAX,
        ensures
            r == lane_size(INIT_SIZE as nat, lane as nat),
    {
        proof {
            lemma2_to64();
            lemma2_to64_rest();
            if lane >= 64 {
                if lane > 64 {
                    lemma_pow2_strictly_increases(64, lane as nat);
                }
                assert(1 * pow2(lane as nat) <= INIT_SIZE * pow2(lane as nat)) by (nonlinear_arith)
                    requires
                        INIT_SIZE >= 1,
                ;
            }
            vstd::bits::lemma_u64_shl_is_mul(INIT_SIZE, lane as u64);
        }
        INIT_SIZE << (lane as u64)
    }

    /// The lane that holds `offset`, and the position of `offset` in it.
    pub fn lane_nr_and_ofs(offset: u64) -> (r: (usize, u64))
        requires
            INIT_SIZE > 0,
        ensures
            r.0 == lane_nr(INIT_SIZE as nat, offset as nat),
            r.1 == lane_ofs(INIT_SIZE as nat, offset as nat),
            r.0 <= 64,
    {
        let blocks: u64 = offset / INIT_SIZE;
        proof {
            lemma2_to64();
            lemma2_to64_rest();
            vstd::arithmetic::div_mod::lemma_fundamental_div_mod(offset as int, INIT_SIZE as int);
            vstd::arithmetic::div_mod::lemma_mod_bound(offset as int, INIT_SIZE as int);
        }
        if blocks == u64::MAX {
            // Lanes of one byte, and the last offset that there is: it is the
            // first of lane 64.
            proof {
                assert(INIT_SIZE == 1) by (nonlinear_arith)
                    requires
                        offset == INIT_SIZE * blocks + offset % INIT_SIZE,
                        blocks == u64::MAX,
                        offset <= u64::MAX,
                        0 <= offset % INIT_SIZE,
                        INIT_SIZE >= 1,
                ;
                lemma_pow2_unfold(65);
                lemma_floor_log2_bracket((blocks + 1) as nat, 64);
            }
            return (64, 0);
        }
        let i: u64 = blocks + 1;
        let shift: u64 = 63 - i.leading_zeros() as u64;
        proof {
            lemma_leading_zeros_log2(i);
            lemma_floor_log2_bounds(i as nat);
            vstd::bits::lemma_u64_shl_is_mul(1, shift);
        }
        // The blocks that lie before the lane.
        let below: u64 = (1u64 << shift) - 1;
        proof {
            assert(below * INIT_SIZE <= offset) by (nonlinear_arith)
                requires
                    below <= blocks,
                    offset == INIT_SIZE * blocks + offset % INIT_SIZE,
                    0 <= offset % INIT_SIZE,
                    INIT_SIZE > 0,
            ;
        }
        (shift as usize, offset - below * INIT_SIZE)
    }

    /// The same as [`Self::lane_nr_and_ofs`], found by walking the lanes.
    pub fn lane_nr_and_ofs_slow_but_obviously_correct(offset: u64) -> (r: (usize, u64))
        requires
            INIT_SIZE > 0,
        ensures
            (r.0 as nat, r.1 as nat) == lane_walk(INIT_SIZE as nat, 0, offset as nat),
    {
        let mut lane: usize = 0;
        let mut rest: u64 = offset;
        let mut size: u64 = INIT_SIZE;
        proof {
            lemma2_to64();
        }
        while size <= rest
            invariant
                INIT_SIZE > 0,
                lane < 64,
                size == lane_size(INIT_SIZE as nat, lane as nat),
                size > 0,
                lane_walk(INIT_SIZE as nat, lane as nat, rest as nat) == lane_walk(
                    INIT_SIZE as nat,
                    0,
                    offset as nat,
                ),
            decreases rest,
        {
            proof {
                lemma_pow2_unfold((lane + 1) as nat);
                assert(INIT_SIZE * (2 * pow2(lane as nat)) == 2 * (INIT_SIZE * pow2(lane as nat)))
                    by (nonlinear_arith);
                assert(lane_walk(INIT_SIZE as nat, lane as nat, rest as nat) == lane_walk(
                    INIT_SIZE as nat,
                    (lane + 1) as nat,
                    (rest - size) as nat,
                ));
            }
            rest = rest - size;
            lane = lane + 1;
            if size > rest / 2 {
                // The lane reached is twice as large, so the walk ends in it.
                return (lane, rest);
            }
            proof {
                lemma2_to64();
                if lane >= 64 {
                    lemma_pow2_strictly_increases(63, lane as nat);
                    assert(1 * pow2(lane as nat) <= INIT_SIZE * pow2(lane as nat))
                        by (nonlinear_arith)
                        requires
                            INIT_SIZE >= 1,
                    ;
                }
            }
            size = size * 2;
        }
        (lane, rest)
    }

    /// The prefix of the names of the lane files.
    pub closed spec fn scope(&self) -> Seq<char> {
        self.scope@
    }

    /// What lane `lane` holds, if it is mapped.
    pub closed spec fn lane(&self, lane: int) -> Option<Seq<u8>> {
        if 0 <= lane < self.lanes@.len() {
            match self.lanes@[lane] {
                Some(file) => Some(file@),
                None => None,
            }
        } else {
            None
        }
    }

    /// The invariant of the arena: the base size is valid, and every mapped
    /// lane has the size that its number calls for.
    pub closed spec fn well_formed(&self) -> bool {
        &&& valid_init(INIT_SIZE as nat)
        &&& self.lanes@.len() == N_LANES
        &&& forall|i: int|
            0 <= i < N_LANES ==> (#[trigger] self.lanes@[i] matches Some(file) ==> file@.len()
                == lane_size(INIT_SIZE as nat, i as nat))
    }

    /// The bytes that a read of `len` bytes at `offset` gives: those of the
    /// lane that holds `offset`, if that lane is mapped and holds the whole
    /// range.
    pub open spec fn bytes_at(&self, offset: nat, len: nat) -> Option<Seq<u8>> {
        let lane = lane_nr(INIT_SIZE as nat, offset);
        let inner = lane_ofs(INIT_SIZE as nat, offset);
        if lane < N_LANES && inner + len <= lane_size(INIT_SIZE as nat, lane) {
            match self.lane(lane as int) {
                Some(bytes) => Some(bytes.subrange(inner as int, (inner + len) as int)),
                None => None,
            }
        } else {
            None
        }
    }

    /// Every lane but `lane` holds what it holds in `other`.
    pub open spec fn same_lanes_but(&self, other: Self, lane: int) -> bool {
        forall|i: int| i != lane ==> #[trigger] self.lane(i) == other.lane(i)
    }

    /// Every lane holds what it holds in `other`, under the same names.
    pub open spec fn same_as(&self, other: Self) -> bool {
        &&& self.scope() == other.scope()
        &&& forall|i: int| #[trigger] self.lane(i) == other.lane(i)
    }

    /// Nothing can be read at or beyond the end of the last lane.
    pub proof fn lemma_nothing_beyond(&self, offset: nat, len: nat)
        requires
            valid_init(INIT_SIZE as nat),
            offset >= 0xffff_ffff_0000_0001,
        ensures
            self.bytes_at(offset, len) is None,
    {
        lemma_lane_limits(INIT_SIZE as nat, N_LANES as nat);
        lemma_lane_nr_at_least(INIT_SIZE as nat, offset, N_LANES as nat);
    }

    /// A mapped lane is as long as its number calls for.
    pub proof fn lemma_lane_len(&self, lane: int)
        requires
            self.well_formed(),
        ensures
            valid_init(INIT_SIZE as nat),
            self.lane(lane) matches Some(bytes) ==> 0 <= lane < N_LANES && bytes.len()
                == lane_size(INIT_SIZE as nat, lane as nat),
    {
        if 0 <= lane < N_LANES {
            assert(self.lanes@[lane] matches Some(file) ==> file@.len() == lane_size(
                INIT_SIZE as nat,
                lane as nat,
            ));
        }
    }

    /// Closes the arena: the file of every mapped lane goes back to the
    /// landfill with the bytes that the lane holds.
    pub fn close(self, landfill: &mut Landfill)
        requires
            self.well_formed(),
            old(landfill).wf(),
        ensures
            final(landfill).wf(),
            final(landfill).same_flags(*old(landfill)),
            final(landfill).same_claims(*old(landfill)),
            forall|i: int|
                0 <= i < N_LANES ==> (#[trigger] self.lane(i) matches Some(bytes) ==> {
                    &&& final(landfill).present(self.lane_file(i as nat))
                    &&& final(landfill).contents(self.lane_file(i as nat)) == bytes
                    &&& !final(landfill).fresh(self.lane_file(i as nat))
                }),
            forall|n: Seq<char>|
                !self.is_lane_file(n) ==> {
                    &&& #[trigger] final(landfill).present(n) == old(landfill).present(n)
                    &&& final(landfill).present(n) ==> final(landfill).contents(n)
                        == old(landfill).contents(n) && final(landfill).fresh(n)
                        == old(landfill).fresh(n)
                },
    {
        let ghost prefix = self.scope@;
        let ghost all = self.lanes@;
        let scope = self.scope;
        let mut lanes = self.lanes;
        while lanes.len() > 0
            invariant
                prefix == scope@,
                prefix == self.scope(),
                all == self.lanes@,
                all.len() == N_LANES,
                lanes@ == all.subrange(0, lanes@.len() as int),
                lanes@.len() <= N_LANES,
                landfill.wf(),
                landfill.same_flags(*old(landfill)),
                landfill.same_claims(*old(landfill)),
                forall|i: int|
                    lanes@.len() <= i < N_LANES ==> (#[trigger] all[i] matches Some(file) ==> {
                        &&& landfill.present(joined(prefix, lane_name(i as nat)))
                        &&& landfill.contents(joined(prefix, lane_name(i as nat))) == file@
                        &&& !landfill.fresh(joined(prefix, lane_name(i as nat)))
                    }),
                forall|n: Seq<char>|
                    !self.is_lane_file(n) ==> {
                        &&& #[trigger] landfill.present(n) == old(landfill).present(n)
                        &&& landfill.present(n) ==> landfill.contents(n) == old(landfill).contents(
                            n,
                        ) && landfill.fresh(n) == old(landfill).fresh(n)
                    },
            decreases lanes@.len(),
        {
            let lane: usize = lanes.len() - 1;
            proof {
                assert(lanes@[lane as int] == all[lane as int]);
            }
            let held = lanes.pop().unwrap();
            proof {
                assert(lanes@ =~= all.subrange(0, lane as int));
            }
            let ghost before = *landfill;
            match held {
                Some(file) => {
                    let name = join_names(scope.full_name().as_str(),
                        lane_file_name(lane).as_str());
                    landfill.put_back(name, file);
                    proof {
                        let full = joined(prefix, lane_name(lane as nat));
                        assert forall|i: int| lanes@.len() <= i < N_LANES implies (
                        #[trigger] all[i] matches Some(file) ==> {
                            &&& landfill.present(joined(prefix, lane_name(i as nat)))
                            &&& landfill.contents(joined(prefix, lane_name(i as nat))) == file@
                            &&& !landfill.fresh(joined(prefix, lane_name(i as nat)))
                        }) by {
                            if i != lane {
                                lemma_lane_names_differ(i as nat, lane as nat);
                                lemma_joined_differ(
                                    prefix,
                                    lane_name(i as nat),
                                    lane_name(lane as nat),
                                );
                                let other = joined(prefix, lane_name(i as nat));
                                assert(landfill.present(other) == before.present(other));
                            }
                        }
                        assert forall|n: Seq<char>| !self.is_lane_file(n) implies {
                            &&& #[trigger] landfill.present(n) == old(landfill).present(n)
                            &&& landfill.present(n) ==> landfill.contents(n)
                                == old(landfill).contents(n) && landfill.fresh(n)
                                == old(landfill).fresh(n)
                        } by {
                            assert(self.lane_file(lane as nat) == full);
                            assert(n != full);
                            assert(landfill.present(n) == before.present(n));
                        }
                    }
                },
                None => {},
            }
        }
        proof {
            assert forall|i: int| 0 <= i < N_LANES implies (#[trigger] self.lane(i) matches Some(
                bytes,
            ) ==> {
                &&& landfill.present(self.lane_file(i as nat))
                &&& landfill.contents(self.lane_file(i as nat)) == bytes
                &&& !landfill.fresh(self.lane_file(i as nat))
            }) by {
                let held = all[i];
            }
        }
    }

    /// Looks at the lane files that wait below `scope` before an arena is
    /// opened over them: each has to have the length of its lane. One
    /// that has not is to be set to that length, which the error asks
    /// for.
    pub fn vet(landfill: &Landfill, scope: &GuardedLandfill) -> (r: Result<(), FillError>)
        requires
            landfill.wf(),
        ensures
            match r {
                Ok(()) => valid_init(INIT_SIZE as nat) && forall|lane: nat|
                    !#[trigger] misfit(
                        INIT_SIZE as nat,
                        *landfill,
                        joined(scope@, lane_name(lane)),
                        lane,
                    ),
                Err(e) => Self::refused(e, *landfill, scope@),
            },
    {
        if INIT_SIZE == 0 || INIT_SIZE > MAX_INIT_SIZE {
            return Err(FillError::BadLaneSize);
        }
        let ghost init = INIT_SIZE as nat;
        let mut lane: usize = 0;
        while lane < N_LANES
            invariant
                valid_init(init),
                init == INIT_SIZE,
                landfill.wf(),
                lane <= N_LANES,
                forall|i: nat|
                    i < lane ==> !#[trigger] misfit(
                        init,
                        *landfill,
                        joined(scope@, lane_name(i)),
                        i,
                    ),
            decreases N_LANES - lane,
        {
            proof {
                lemma_lane_limits(init, lane as nat);
            }
            let name = lane_file_name(lane);
            match landfill.vet(scope, name.as_str(), Self::lane_size(lane)) {
                Ok(()) => {},
                Err(e) => {
                    proof {
                        assert(misfit(
                            init,
                            *landfill,
                            joined(scope@, lane_name(lane as nat)),
                            lane as nat,
                        ));
                    }
                    return Err(e);
                },
            }
            lane = lane + 1;
        }
        Ok(())
    }

    /// Lane `lane` is mapped and has a file behind it, not anonymous
    /// memory.
    pub closed spec fn lane_on_disk(&self, lane: int) -> bool {
        0 <= lane < self.lanes@.len() && (self.lanes@[lane] matches Some(file)
            && !file.anonymous())
    }

    /// Some lane of the arena has a file behind it.
    pub open spec fn on_disk(&self) -> bool {
        exists|lane: int| #[trigger] self.lane_on_disk(lane)
    }

    /// An arena without a mapped lane has no lane on disk.
    pub proof fn lemma_unmapped_not_on_disk(&self)
        requires
            forall|i: int| 0 <= i < N_LANES ==> (#[trigger] self.lane(i)) is None,
            self.well_formed(),
        ensures
            !self.on_disk(),
    {
        assert forall|i: int| !#[trigger] self.lane_on_disk(i) by {
            if 0 <= i < N_LANES {
                assert(self.lane(i) is None);
            }
        }
    }

    /// Flush every mapped lane to disk; lanes in anonymous memory are
    /// skipped.
    ///
    /// An arena without a lane on disk has nothing to flush and succeeds.
    /// Else the flush fails with what the operating system says of the
    /// first lane that it cannot flush.
    pub fn flush(&self) -> (r: Result<(), FillError>)
        requires
            self.well_formed(),
        ensures
            r matches Err(e) ==> e is Io && self.on_disk(),
    {
        let mut i: usize = 0;
        while i < self.lanes.len()
            invariant
                i <= self.lanes@.len(),
            decreases self.lanes@.len() - i,
        {
            match &self.lanes[i] {
                Some(lane) => {
                    match lane.flush() {
                        Ok(()) => {},
                        Err(e) => {
                            proof {
                                assert(self.lane_on_disk(i as int));
                            }
                            return Err(e);
                        },
                    }
                },
                None => {},
            }
            i = i + 1;
        }
        Ok(())
    }

    /// The first offset at or after `offset` where `len` bytes, aligned to
    /// `alignment`, fit into one lane; `None` if the lanes have no such
    /// place.
    pub fn checked_find_space_for(offset: u64, len: usize, alignment: usize) -> (r: Option<u64>)
        requires
            valid_init(INIT_SIZE as nat),
        ensures
            match r {
                Some(found) => is_first_space(
                    INIT_SIZE as nat,
                    offset as nat,
                    len as nat,
                    alignment as nat,
                    found as nat,
                ),
                None => !has_space(INIT_SIZE as nat, offset as nat, len as nat, alignment as nat),
            },
    {
        let ghost init = INIT_SIZE as nat;
        if alignment == 0 {
            return None;
        }
        let (start_lane, start_inner) = Self::lane_nr_and_ofs(offset);
        let mut lane: usize = start_lane;
        let mut inner: u64 = start_inner;
        let mut cur: u64 = offset;
        proof {
            lemma_lane_bounds(init, offset as nat);
        }
        while lane < N_LANES
            invariant
                valid_init(init),
                init == INIT_SIZE,
                alignment > 0,
                offset <= cur,
                lane_start(init, lane as nat) + inner == cur,
                lane < N_LANES ==> inner < lane_size(init, lane as nat),
                lane >= N_LANES ==> inner == 0 || lane == start_lane,
                forall|o: nat|
                    offset <= o < cur ==> !#[trigger] is_space(
                        init,
                        offset as nat,
                        len as nat,
                        alignment as nat,
                        o,
                    ),
            decreases N_LANES - lane,
        {
            proof {
                lemma_lane_limits(init, lane as nat);
                lemma_padding(cur as nat, alignment as nat);
                lemma_lane_start_step(init, lane as nat);
            }
            let size: u64 = Self::lane_size(lane);
            let room: u64 = size - inner;
            let misfit: u64 = cur % (alignment as u64);
            let pad: u64 = if misfit == 0 {
                0
            } else {
                alignment as u64 - misfit
            };
            proof {
                if misfit == 0 {
                    vstd::arithmetic::div_mod::lemma_mod_self_0(alignment as int);
                } else {
                    vstd::arithmetic::div_mod::lemma_small_mod(
                        (alignment - misfit) as nat,
                        alignment as nat,
                    );
                }
                assert(pad == padding(cur as nat, alignment as nat));
            }
            if pad < room && len as u64 <= room - pad {
                proof {
                    let found = (cur + pad) as nat;
                    lemma_lane_of_range(init, found, lane as nat);
                    assert(is_space(init, offset as nat, len as nat, alignment as nat, found));
                    assert forall|o: nat| offset <= o < found implies !is_space(
                        init,
                        offset as nat,
                        len as nat,
                        alignment as nat,
                        o,
                    ) by {
                        if o >= cur {
                            assert(!aligned(o, alignment as nat));
                        }
                    }
                }
                return Some(cur + pad);
            }
            proof {
                // Nothing fits between `cur` and the end of the lane.
                let end = (cur + room) as nat;
                assert forall|o: nat| offset <= o < end implies !is_space(
                    init,
                    offset as nat,
                    len as nat,
                    alignment as nat,
                    o,
                ) by {
                    if o >= cur {
                        lemma_lane_of_range(init, o, lane as nat);
                        if aligned(o, alignment as nat) {
                            assert(o >= cur + pad);
                        }
                    }
                }
            }
            cur = cur + room;
            lane = lane + 1;
            inner = 0;
            proof {
                if lane < N_LANES {
                    lemma_lane_limits(init, lane as nat);
                }
            }
        }
        proof {
            assert forall|o: nat| !is_space(init, offset as nat, len as nat, alignment as nat,
                o) by {
                if o >= cur {
                    lemma_lane_start_monotonic(init, N_LANES as nat, lane as nat);
                    lemma_lane_nr_at_least(init, o, N_LANES as nat);
                }
            }
        }
        None
    }

    /// The first offset at or after `offset` where `len` bytes, aligned to
    /// `alignment`, fit into one lane.
    pub fn find_space_for(offset: u64, len: usize, alignment: usize) -> (r: u64)
        requires
            valid_init(INIT_SIZE as nat),
            has_space(INIT_SIZE as nat, offset as nat, len as nat, alignment as nat),
        ensures
            is_first_space(
                INIT_SIZE as nat,
                offset as nat,
                len as nat,
                alignment as nat,
                r as nat,
            ),
    {
        match Self::checked_find_space_for(offset, len, alignment) {
            Some(found) => found,
            None => unreached(),
        }
    }

    /// The bytes at `offset`, `len` of them, if the lane that holds them is
    /// mapped and holds them all.
    pub fn read(&self, offset: u64, len: u32) -> (r: Option<&[u8]>)
        requires
            self.well_formed(),
        ensures
            match r {
                Some(bytes) => self.bytes_at(offset as nat, len as nat) == Some(bytes@),
                None => self.bytes_at(offset as nat, len as nat) is None,
            },
    {
        let (lane, inner) = Self::lane_nr_and_ofs(offset);
        if lane >= N_LANES {
            return None;
        }
        proof {
            lemma_lane_limits(INIT_SIZE as nat, lane as nat);
            lemma_lane_bounds(INIT_SIZE as nat, offset as nat);
        }
        let size: u64 = Self::lane_size(lane);
        if len as u64 > size - inner {
            // We cannot read in lane boundaries
            return None;
        }
        match &self.lanes[lane] {
            Some(file) => {
                // A position in a mapping fits a `usize`, as its length does.
                let _mapped: usize = file.len();
                Some(file.read(inner as usize, len as usize))
            },
            None => None,
        }
    }

    /// Name of the file of lane `lane` of this arena.
    pub open spec fn lane_file(&self, lane: nat) -> Seq<char> {
        joined(self.scope(), lane_name(lane))
    }

    /// `name` is the name of the file of one of the lanes of this arena.
    pub open spec fn is_lane_file(&self, name: Seq<char>) -> bool {
        exists|lane: nat| lane < N_LANES && name == #[trigger] self.lane_file(lane)
    }

    /// What lane `lane` holds once it has been asked for: what it held, if
    /// it was mapped; else what the file that waits for it holds; else
    /// zeroes.
    pub open spec fn lane_once_mapped(&self, landfill: Landfill, lane: nat) -> Seq<u8> {
        match self.lane(lane as int) {
            Some(bytes) => bytes,
            None => if landfill.present(self.lane_file(lane)) {
                landfill.contents(self.lane_file(lane))
            } else {
                zeroes(lane_size(INIT_SIZE as nat, lane))
            },
        }
    }

    /// What asking for lane `lane` does to the landfill: nothing if the
    /// lane was mapped; else the lane's name is claimed, and its file is
    /// taken where one was waiting.
    pub open spec fn lane_granted(&self, was: Landfill, now: Landfill, lane: nat) -> bool {
        match self.lane(lane as int) {
            Some(_) => now.unchanged_from(was),
            None => {
                &&& !was.reserved(self.lane_file(lane))
                &&& now.same_flags(was)
                &&& now.claims_with(was, self.lane_file(lane))
                &&& if was.present(self.lane_file(lane)) {
                    now.files_without(was, self.lane_file(lane))
                } else {
                    was.ephemeral_spec() && now.same_files(was)
                }
            },
        }
    }

    /// Every lane but `lane` holds, once it is asked for from the landfill
    /// `after`, what it holds in `other` once it is asked for from the
    /// landfill `was`: mapped or not, no byte of it differs.
    pub open spec fn others_wait_as(&self, after: Landfill, other: Self, was: Landfill, lane: nat)
        -> bool {
        forall|l: nat|
            l < N_LANES && l != lane ==> #[trigger] self.lane_once_mapped(after, l)
                == other.lane_once_mapped(was, l)
    }

    /// Every lane holds, once it is asked for from the landfill `after`,
    /// what it holds in `other` once it is asked for from the landfill
    /// `was`.
    pub open spec fn waits_as(&self, after: Landfill, other: Self, was: Landfill) -> bool {
        forall|l: nat|
            l < N_LANES ==> #[trigger] self.lane_once_mapped(after, l) == other.lane_once_mapped(
                was,
                l,
            )
    }

    /// Asking for a lane leaves every other lane as it waits: the arena
    /// `now` and the landfill `after` are what asking for lane `lane` has
    /// made of this arena and the landfill `was`.
    pub proof fn lemma_granted_keeps_others(&self, now: Self, was: Landfill, after: Landfill, lane: nat)
        requires
            lane < N_LANES,
            now.scope() == self.scope(),
            now.same_lanes_but(*self, lane as int),
            self.lane_granted(was, after, lane),
        ensures
            now.others_wait_as(after, *self, was, lane),
    {
        assert forall|l: nat| l < N_LANES && l != lane implies #[trigger] now.lane_once_mapped(
            after,
            l,
        ) == self.lane_once_mapped(was, l) by {
            assert(now.lane(l as int) == self.lane(l as int));
            lemma_lane_names_differ(l, lane);
            lemma_joined_differ(self.scope(), lane_name(l), lane_name(lane));
        }
    }

    /// Why lane `lane`, which is not mapped, cannot be had from the
    /// landfill, for each error that says so.
    pub open spec fn lane_refused(&self, was: Landfill, lane: nat, e: FillError) -> bool {
        let name = self.lane_file(lane);
        let size = lane_size(INIT_SIZE as nat, lane);
        match e {
            FillError::Duplicate => was.reserved(name),
            FillError::Unmapped { name: wanted, size: length } => {
                &&& wanted@ == name
                &&& length == size
                &&& !was.ephemeral_spec()
                &&& !was.present(name)
                &&& !was.reserved(name)
            },
            FillError::SizeMismatch { name: wanted, size: length } => {
                &&& wanted@ == name
                &&& length == size
                &&& !was.reserved(name)
                &&& was.present(name)
                &&& was.contents(name).len() != size
            },
            FillError::OutOfSpace => !was.reserved(name) && !was.present(name)
                && was.ephemeral_spec() && size > usize::MAX,
            FillError::Io(_) => !was.reserved(name) && !was.present(name) && was.ephemeral_spec(),
            _ => false,
        }
    }

    /// Why a write of `len` bytes at `offset` fails, for each error that
    /// says so.
    pub open spec fn write_refused(&self, was: Landfill, offset: nat, len: nat, e: FillError)
        -> bool {
        let init = INIT_SIZE as nat;
        let lane = lane_nr(init, offset);
        if lane >= N_LANES {
            e is OutOfSpace
        } else if lane_ofs(init, offset) + len > lane_size(init, lane) {
            e is CrossLane
        } else {
            self.lane(lane as int) is None && self.lane_refused(was, lane, e)
        }
    }

    /// Makes sure that the lane which holds `len` bytes at `offset` is
    /// mapped, and returns its number and the position of `offset` in it.
    ///
    /// A lane that is missing is created through the landfill. Whatever the
    /// outcome, no byte of a lane that was mapped before changes.
    pub fn request_lane(&mut self, landfill: &mut Landfill, offset: u64, len: usize) -> (r: Result<
        (usize, u64),
        FillError,
    >)
        requires
            old(self).well_formed(),
            old(landfill).wf(),
        ensures
            final(self).well_formed(),
            final(landfill).wf(),
            final(landfill).grown_from(*old(landfill)),
            final(self).scope() == old(self).scope(),
            old(landfill).holds_no_file() && !old(self).on_disk() ==> !final(self).on_disk(),
            ({
                let init = INIT_SIZE as nat;
                let lane = lane_nr(init, offset as nat);
                match r {
                    Ok(at) => {
                        &&& fits_in_lane(init, offset as nat, len as nat)
                        &&& at.0 == lane
                        &&& at.1 == lane_ofs(init, offset as nat)
                        &&& final(self).same_lanes_but(*old(self), lane as int)
                        &&& final(self).lane(lane as int) == Some(
                            old(self).lane_once_mapped(*old(landfill), lane),
                        )
                        &&& old(self).lane_granted(*old(landfill), *final(landfill), lane)
                        &&& final(self).others_wait_as(
                            *final(landfill),
                            *old(self),
                            *old(landfill),
                            lane,
                        )
                    },
                    Err(e) => {
                        &&& final(self).same_as(*old(self))
                        &&& final(landfill).unchanged_from(*old(landfill))
                        &&& old(self).write_refused(*old(landfill), offset as nat, len as nat, e)
                    },
                }
            }),
    {
        let (lane, inner) = Self::lane_nr_and_ofs(offset);
        proof {
            old(landfill).lemma_grows(*landfill);
        }
        if lane >= N_LANES {
            return Err(FillError::OutOfSpace);
        }
        proof {
            lemma_lane_limits(INIT_SIZE as nat, lane as nat);
            lemma_lane_bounds(INIT_SIZE as nat, offset as nat);
        }
        let size: u64 = Self::lane_size(lane);
        if len as u64 > size - inner {
            return Err(FillError::CrossLane);
        }
        if self.lanes[lane].is_none() {
            let name = lane_file_name(lane);
            let mapped = landfill.map_file_create(&self.scope, name.as_str(), size);
            proof {
                old(landfill).lemma_grows(*landfill);
                if mapped matches Ok(Some(_)) {
                    landfill.lemma_claims_with(*old(landfill), self.lane_file(lane as nat));
                    assert forall|n: Seq<char>| #[trigger] landfill.present(n)
                        implies old(landfill).present(n) by {
                        if n != self.lane_file(lane as nat) {
                            assert(landfill.present(n) == old(landfill).present(n));
                        }
                    }
                }
            }
            match mapped {
                Ok(Some(file)) => {
                    self.lanes.set(lane, Some(file));
                    proof {
                        if old(landfill).holds_no_file() && !old(self).on_disk() {
                            assert forall|i: int| !#[trigger] self.lane_on_disk(i) by {
                                if i != lane {
                                    assert(!old(self).lane_on_disk(i));
                                }
                            }
                        }
                    }
                },
                Ok(None) => {
                    return Err(FillError::Duplicate);
                },
                Err(e) => {
                    return Err(e);
                },
            }
        }
        proof {
            old(landfill).lemma_grows(*landfill);
            old(self).lemma_granted_keeps_others(*self, *old(landfill), *landfill, lane as nat);
        }
        Ok((lane, inner))
    }

    /// Writes `data` at `offset`, mapping the lane that holds the range if
    /// need be.
    ///
    /// Fails if the range would cross a lane boundary: a place for the
    /// data has to be found with [`Self::find_space_for`].
    pub fn request_write(&mut self, landfill: &mut Landfill, offset: u64, data: &[u8]) -> (r:
        Result<(), FillError>)
        requires
            old(self).well_formed(),
            old(landfill).wf(),
        ensures
            final(self).well_formed(),
            final(landfill).wf(),
            final(landfill).grown_from(*old(landfill)),
            final(self).scope() == old(self).scope(),
            old(landfill).holds_no_file() && !old(self).on_disk() ==> !final(self).on_disk(),
            ({
                let init = INIT_SIZE as nat;
                let lane = lane_nr(init, offset as nat);
                let inner = lane_ofs(init, offset as nat);
                match r {
                    Ok(()) => {
                        &&& fits_in_lane(init, offset as nat, data@.len())
                        &&& final(self).same_lanes_but(*old(self), lane as int)
                        &&& final(self).lane(lane as int) == Some(
                            overwrite(
                                old(self).lane_once_mapped(*old(landfill), lane),
                                inner as int,
                                data@,
                            ),
                        )
                        &&& final(self).bytes_at(offset as nat, data@.len()) == Some(data@)
                        &&& old(self).lane_granted(*old(landfill), *final(landfill), lane)
                        &&& final(self).others_wait_as(
                            *final(landfill),
                            *old(self),
                            *old(landfill),
                            lane,
                        )
                    },
                    Err(e) => {
                        &&& final(self).same_as(*old(self))
                        &&& final(landfill).unchanged_from(*old(landfill))
                        &&& old(self).write_refused(*old(landfill), offset as nat, data@.len(), e)
                    },
                }
            }),
    {
        match self.request_lane(landfill, offset, data.len()) {
            Ok((lane, inner)) => {
                let ghost mapped = *self;
                proof {
                    mapped.lemma_lane_len(lane as int);
                }
                match &mut self.lanes[lane] {
                    Some(file) => {
                        // A position in a mapping fits a `usize`, as its
                        // length does.
                        let _mapped: usize = file.len();
                        file.store(inner as usize, data);
                    },
                    None => {},
                }
                proof {
                    let init = INIT_SIZE as nat;
                    assert forall|i: int| 0 <= i < N_LANES implies (
                    #[trigger] self.lanes@[i] matches Some(file) ==> file@.len() == lane_size(
                        init,
                        i as nat,
                    )) by {
                        if i != lane {
                            assert(self.lanes@[i] == mapped.lanes@[i]);
                        }
                    }
                    assert forall|i: int| i != lane implies #[trigger] self.lane(i)
                        == old(self).lane(i) by {
                        assert(mapped.lane(i) == old(self).lane(i));
                    }
                    if !mapped.on_disk() {
                        assert forall|i: int| !#[trigger] self.lane_on_disk(i) by {
                            assert(!mapped.lane_on_disk(i));
                            if 0 <= i < N_LANES && i != lane {
                                assert(self.lanes@[i] == mapped.lanes@[i]);
                            }
                        }
                    }
                    old(self).lemma_granted_keeps_others(
                        *self,
                        *old(landfill),
                        *landfill,
                        lane as nat,
                    );
                    let now = self.lane(lane as int).unwrap();
                    assert(now.subrange(inner as int, inner + data@.len()) =~= data@);
                    assert(self.bytes_at(offset as nat, data@.len()) == Some(data@));
                }
                Ok(())
            },
            Err(e) => Err(e),
        }
    }

    /// A write leaves every byte outside the written range as it was: what
    /// could be read before and does not touch the range reads the same
    /// afterwards.
    pub proof fn lemma_write_keeps_others(
        &self,
        after: Self,
        landfill: Landfill,
        offset: nat,
        data: Seq<u8>,
        other: nat,
        len: nat,
    )
        requires
            self.well_formed(),
            fits_in_lane(INIT_SIZE as nat, offset, data.len()),
            after.same_lanes_but(*self, lane_nr(INIT_SIZE as nat, offset) as int),
            after.lane(lane_nr(INIT_SIZE as nat, offset) as int) == Some(
                overwrite(
                    self.lane_once_mapped(landfill, lane_nr(INIT_SIZE as nat, offset)),
                    lane_ofs(INIT_SIZE as nat, offset) as int,
                    data,
                ),
            ),
            other + len <= offset || offset + data.len() <= other,
            self.bytes_at(other, len) is Some,
        ensures
            after.bytes_at(other, len) == self.bytes_at(other, len),
    {
        let init = INIT_SIZE as nat;
        let lane = lane_nr(init, offset);
        let there = lane_nr(init, other);
        lemma_lane_bounds(init, offset);
        lemma_lane_bounds(init, other);
        if there == lane {
            let before = self.lane(lane as int).unwrap();
            let now = after.lane(lane as int).unwrap();
            let from = lane_ofs(init, other) as int;
            assert(now.subrange(from, from + len) =~= before.subrange(from, from + len));
        } else {
            assert(after.lane(there as int) == self.lane(there as int));
        }
    }

    /// Lanes that hold the same bytes read the same: an arena that is
    /// opened over the files of another gives back every byte that the
    /// other could read.
    pub proof fn lemma_same_lanes_read_the_same(&self, reopened: Self, offset: nat, len: nat)
        requires
            forall|i: int| self.lane(i) is Some ==> reopened.lane(i) == #[trigger] self.lane(i),
            self.bytes_at(offset, len) is Some,
        ensures
            reopened.bytes_at(offset, len) == self.bytes_at(offset, len),
    {
        let lane = lane_nr(INIT_SIZE as nat, offset) as int;
        assert(reopened.lane(lane) == self.lane(lane));
    }
}

impl<const INIT_SIZE: u64> Substructure for DiskBytes<INIT_SIZE> {
    open spec fn wf(&self) -> bool {
        self.well_formed()
    }

    /// Some lane of the arena has a file behind it.
    open spec fn file_backed(&self) -> bool {
        self.on_disk()
    }

    /// Each lane is mapped if its file was waiting unclaimed, and holds what
    /// the file held.
    open spec fn opened(&self, was: Landfill, now: Landfill, scope: Seq<char>) -> bool {
        &&& self.scope() == scope
        &&& forall|i: int|
            0 <= i < N_LANES ==> #[trigger] self.lane(i) == (if was.present(
                joined(scope, lane_name(i as nat)),
            ) && !was.reserved(joined(scope, lane_name(i as nat))) {
                Some(was.contents(joined(scope, lane_name(i as nat))))
            } else {
                None
            })
    }

    /// An arena cannot be opened with a base lane size that is not valid,
    /// nor over a lane file of the wrong length, which the error asks to
    /// be set right.
    open spec fn refused(e: FillError, was: Landfill, scope: Seq<char>) -> bool {
        if valid_init(INIT_SIZE as nat) {
            e is SizeMismatch && exists|lane: nat| #[trigger]
                misfit(INIT_SIZE as nat, was, joined(scope, lane_name(lane)), lane) && asks_resize(
                    e,
                    joined(scope, lane_name(lane)),
                    lane_size(INIT_SIZE as nat, lane),
                )
        } else {
            e is BadLaneSize
        }
    }

    /// Maps the lane files that wait in the landfill under the names of
    /// `scope`, lane by lane; every other lane stays unmapped until it is
    /// written to. The lengths of the files are looked at before any of
    /// them is taken, so that an attempt that fails has taken none.
    fn init(landfill: &mut Landfill, scope: GuardedLandfill) -> (r: Result<Self, FillError>)
        ensures
            r is Err ==> final(landfill).unchanged_from(*old(landfill)),
    {
        proof {
            landfill.lemma_same_files_untouched(*landfill, scope@);
            landfill.lemma_grows(*landfill);
        }
        match Self::vet(landfill, &scope) {
            Ok(()) => {},
            Err(e) => {
                return Err(e);
            },
        }
        let ghost init = INIT_SIZE as nat;
        let ghost prefix = scope@;
        let mut lanes: Vec<Option<MappedFile>> = Vec::new();
        while lanes.len() < N_LANES
            invariant
                valid_init(init),
                init == INIT_SIZE,
                prefix == scope@,
                forall|lane: nat|
                    !#[trigger] misfit(init, *old(landfill), joined(prefix, lane_name(lane)), lane),
                lanes@.len() <= N_LANES,
                landfill.wf(),
                landfill.grown_from(*old(landfill)),
                landfill.untouched_outside(*old(landfill), prefix),
                forall|i: int|
                    0 <= i < lanes@.len() ==> (#[trigger] lanes@[i] matches Some(file)
                        ==> file@.len() == lane_size(init, i as nat)),
                forall|i: int|
                    0 <= i < lanes@.len() ==> (match #[trigger] lanes@[i] {
                        Some(file) => old(landfill).present(joined(prefix, lane_name(i as nat)))
                            && !old(landfill).reserved(joined(prefix, lane_name(i as nat)))
                            && file@ == old(landfill).contents(
                            joined(prefix, lane_name(i as nat)),
                        ),
                        None => !old(landfill).present(joined(prefix, lane_name(i as nat)))
                            || old(landfill).reserved(joined(prefix, lane_name(i as nat))),
                    }),
                forall|i: int|
                    lanes@.len() <= i < N_LANES ==> {
                        &&& landfill.present(#[trigger] joined(prefix, lane_name(i as nat)))
                            == old(landfill).present(joined(prefix, lane_name(i as nat)))
                        &&& landfill.reserved(joined(prefix, lane_name(i as nat)))
                            == old(landfill).reserved(joined(prefix, lane_name(i as nat)))
                        &&& landfill.present(joined(prefix, lane_name(i as nat)))
                            ==> landfill.contents(joined(prefix, lane_name(i as nat)))
                            == old(landfill).contents(joined(prefix, lane_name(i as nat)))
                    },
            decreases N_LANES - lanes@.len(),
        {
            let lane: usize = lanes.len();
            proof {
                lemma_lane_limits(init, lane as nat);
            }
            let name = lane_file_name(lane);
            let ghost before = *landfill;
            let ghost full = joined(prefix, name@);
            let mapped = landfill.map_file_existing(&scope, name.as_str(), Self::lane_size(lane));
            proof {
                crate::landfill::lemma_below_joined(prefix, name@);
                if landfill.same_files(before) {
                    before.lemma_same_files_untouched(*landfill, prefix);
                } else {
                    before.lemma_files_but_untouched(*landfill, full, prefix);
                }
                old(landfill).lemma_untouched_twice(before, *landfill, prefix);
            }
            match mapped {
                Ok(found) => {
                    lanes.push(found);
                },
                // The length of the file was looked at before.
                Err(_) => {
                    proof {
                        let i = lane as int;
                        assert(full == joined(prefix, lane_name(i as nat)));
                        assert(misfit(init, *old(landfill), full, lane as nat));
                    }
                    unreached()
                },
            }
            proof {
                assert forall|i: int| lanes@.len() <= i < N_LANES implies {
                    &&& landfill.present(#[trigger] joined(prefix, lane_name(i as nat)))
                        == old(landfill).present(joined(prefix, lane_name(i as nat)))
                    &&& landfill.reserved(joined(prefix, lane_name(i as nat)))
                        == old(landfill).reserved(joined(prefix, lane_name(i as nat)))
                        &&& landfill.present(joined(prefix, lane_name(i as nat)))
                            ==> landfill.contents(joined(prefix, lane_name(i as nat)))
                            == old(landfill).contents(joined(prefix, lane_name(i as nat)))
                } by {
                    let other = joined(prefix, lane_name(i as nat));
                    lemma_lane_names_differ(i as nat, lane as nat);
                    lemma_joined_differ(prefix, lane_name(i as nat), lane_name(lane as nat));
                    if landfill.claims_with(before, full) {
                        landfill.lemma_claims_with(before, full);
                    }
                    assert(before.present(other) == landfill.present(other));
                    assert(before.reserved(other) == landfill.reserved(other));
                }
                assert(landfill.grown_from(*old(landfill))) by {
                    assert forall|n: Seq<char>| #[trigger] landfill.present(n)
                        implies old(landfill).present(n) by {
                        assert(before.present(n));
                    }
                    if landfill.claims_with(before, full) {
                        landfill.lemma_claims_with(before, full);
                    }
                }
            }
        }
        let bytes = DiskBytes { scope, lanes };
        proof {
            assert forall|i: int| 0 <= i < N_LANES implies #[trigger] bytes.lane(i)
                == (if old(landfill).present(joined(prefix, lane_name(i as nat)))
                && !old(landfill).reserved(
                joined(prefix, lane_name(i as nat)),
            ) {
                Some(old(landfill).contents(joined(prefix, lane_name(i as nat))))
            } else {
                None
            }) by {
                let l = bytes.lanes@[i];
            }
        }
        Ok(bytes)
    }

    /// Flush every mapped lane to disk; an arena without a lane on disk
    /// has nothing to flush and succeeds.
    fn flush(&self) -> (r: Result<(), FillError>) {
        DiskBytes::flush(self)
    }
}

} // verus!
