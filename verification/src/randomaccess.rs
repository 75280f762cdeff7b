//! The random-access array.

use vstd::prelude::*;
use crate::bytes::{lane_name, misfit, DiskBytes};
use crate::errors::FillError;
use crate::helpers::{all_zero, is_all_zeroes};
use crate::landfill::{
    asks_resize, joined, lemma_joined_assoc, lemma_joined_differ, GuardedLandfill, Landfill,
    Substructure,
};
use crate::mapped::overwrite;
use crate::lanes::{
    fits_in_lane, lane_nr, lane_ofs, lane_size, lemma_lane_bounds, lemma_lane_limits,
    lemma_lane_nr_at_least, valid_init, N_LANES,
};

verus! {

/// The closure `closure`, given the bytes `held`, may return the bytes
/// `record` together with `result`.
pub open spec fn made_of<R, F: FnOnce(Vec<u8>) -> (Vec<u8>, R)>(
    closure: F,
    held: Seq<u8>,
    record: Seq<u8>,
    result: R,
) -> bool {
    exists|before: Vec<u8>, after: Vec<u8>|
        before@ == held && after@ == record && #[trigger] closure.ensures(
            (before,),
            (after, result),
        )
}

/// An unbounded array of records of `SIZE` bytes on disk
///
/// Slot `i` of the array is the run of `SIZE` bytes that starts at byte
/// `i * SIZE` of an arena with the base lane size `INIT_SIZE`. A slot whose
/// bytes are all zero is empty: the bit pattern of all zeroes stands for a
/// record that was never written, so no record may be made of zeroes only.
pub struct RandomAccess<const SIZE: usize, const INIT_SIZE: u64> {
    bytes: DiskBytes<INIT_SIZE>,
}

impl<const SIZE: usize, const INIT_SIZE: u64> RandomAccess<SIZE, INIT_SIZE> {
    /// The arena that holds the slots.
    pub closed spec fn arena(&self) -> DiskBytes<INIT_SIZE> {
        self.bytes
    }

    /// The invariant of the array: the arena is well formed, and a record
    /// has at least one byte and at most as many as a read can ask for.
    pub open spec fn well_formed(&self) -> bool {
        &&& self.arena().well_formed()
        &&& 0 < SIZE <= u32::MAX
    }

    /// The byte offset of slot `index`.
    pub open spec fn slot_start(index: nat) -> nat {
        index * (SIZE as nat)
    }

    /// The bytes of slot `index`, if they can be read: that is where the
    /// lane that holds the slot is mapped and holds all of it.
    pub open spec fn slot(&self, index: nat) -> Option<Seq<u8>> {
        self.arena().bytes_at(Self::slot_start(index), SIZE as nat)
    }

    /// The record in slot `index`: what the slot holds, unless that is
    /// nothing but zeroes.
    pub open spec fn record(&self, index: nat) -> Option<Seq<u8>> {
        match self.slot(index) {
            Some(bytes) => if all_zero(bytes) {
                None
            } else {
                Some(bytes)
            },
            None => None,
        }
    }

    /// What slot `index` holds once the lane that holds it has been asked
    /// for.
    pub open spec fn slot_once_mapped(&self, landfill: Landfill, index: nat) -> Seq<u8> {
        let init = INIT_SIZE as nat;
        let lane = lane_nr(init, Self::slot_start(index));
        let inner = lane_ofs(init, Self::slot_start(index));
        self.arena().lane_once_mapped(landfill, lane).subrange(inner as int, inner + SIZE)
    }

    /// Looks at the lane files that wait for an array below `scope` before
    /// the array is opened over them: each has to have the length of its
    /// lane. One that has not is to be set to that length, which the
    /// error asks for.
    pub fn vet(landfill: &Landfill, scope: &GuardedLandfill) -> (r: Result<(), FillError>)
        requires
            landfill.wf(),
        ensures
            match r {
                Ok(()) => valid_init(INIT_SIZE as nat) && forall|lane: nat|
                    !#[trigger] misfit(
                        INIT_SIZE as nat,
                        *landfill,
                        array_lane_file(scope@, lane),
                        lane,
                    ),
                Err(e) => (e is SizeMismatch || e is BadLaneSize) && Self::refused(
                    e,
                    *landfill,
                    scope@,
                ),
            },
    {
        let lanes = scope.branch("array");
        let r = DiskBytes::<INIT_SIZE>::vet(landfill, &lanes);
        proof {
            if r is Ok {
                assert forall|lane: nat|
                    !#[trigger] misfit(
                        INIT_SIZE as nat,
                        *landfill,
                        array_lane_file(scope@, lane),
                        lane,
                    ) by {
                    assert(!misfit(
                        INIT_SIZE as nat,
                        *landfill,
                        joined(lanes@, lane_name(lane)),
                        lane,
                    ));
                }
            } else if r->Err_0 is SizeMismatch {
                let e = r->Err_0;
                let lane = choose|lane: nat| #[trigger]
                    misfit(INIT_SIZE as nat, *landfill, joined(lanes@, lane_name(lane)), lane)
                        && asks_resize(
                        e,
                        joined(lanes@, lane_name(lane)),
                        lane_size(INIT_SIZE as nat, lane),
                    );
                assert(misfit(INIT_SIZE as nat, *landfill, array_lane_file(scope@, lane), lane));
            }
        }
        r
    }

    /// The record that slot `index` holds once the lane that holds it has
    /// been asked for: none where the slot does not lie in one lane, or
    /// holds nothing but zeroes.
    pub open spec fn record_once_mapped(&self, landfill: Landfill, index: nat) -> Option<Seq<u8>> {
        let held = self.slot_once_mapped(landfill, index);
        if fits_in_lane(INIT_SIZE as nat, Self::slot_start(index), SIZE as nat) && !all_zero(
            held,
        ) {
            Some(held)
        } else {
            None
        }
    }

    /// The array `now` over the landfill `after` holds in every lane what
    /// this array holds over the landfill `was`, whichever lanes have been
    /// mapped in between.
    pub open spec fn kept_as(&self, was: Landfill, now: Self, after: Landfill) -> bool {
        now.arena().waits_as(after, self.arena(), was)
    }

    /// The array `now` over the landfill `after` holds what this array
    /// holds over the landfill `was`, with `record` in slot `index` and no
    /// other byte changed, whichever lanes have been mapped in between.
    pub open spec fn kept_with(
        &self,
        was: Landfill,
        now: Self,
        after: Landfill,
        index: nat,
        record: Seq<u8>,
    ) -> bool {
        let init = INIT_SIZE as nat;
        let lane = lane_nr(init, Self::slot_start(index));
        &&& now.arena().others_wait_as(after, self.arena(), was, lane)
        &&& now.arena().lane_once_mapped(after, lane) == overwrite(
            self.arena().lane_once_mapped(was, lane),
            lane_ofs(init, Self::slot_start(index)) as int,
            record,
        )
    }

    /// The array `now` and the landfill `after` are what a write to slot
    /// `index` leaves of this array and the landfill `was`: the slot lies in
    /// one lane, which is mapped now. That lane holds what it held, or what
    /// its file held, or zeroes where it had no file, with the bytes of the
    /// slot as they are now; no other lane has been mapped or has changed,
    /// neither in the array nor where it waits in the landfill.
    pub open spec fn written_by(&self, was: Landfill, now: Self, after: Landfill, index: nat)
        -> bool {
        let init = INIT_SIZE as nat;
        let offset = Self::slot_start(index);
        let lane = lane_nr(init, offset);
        &&& fits_in_lane(init, offset, SIZE as nat)
        &&& self.arena().lane_granted(was, after, lane)
        &&& now.slot(index) is Some
        &&& now.arena().same_lanes_but(self.arena(), lane as int)
        &&& now.arena().others_wait_as(after, self.arena(), was, lane)
        &&& now.arena().lane(lane as int) == Some(
            overwrite(
                self.arena().lane_once_mapped(was, lane),
                lane_ofs(init, offset) as int,
                now.slot(index).unwrap(),
            ),
        )
    }

    /// A slot that can be read holds what it held before its lane was
    /// mapped, where no byte has changed.
    pub proof fn lemma_kept_slot(&self, was: Landfill, now: Self, after: Landfill, index: nat)
        requires
            self.kept_as(was, now, after),
            now.slot(index) is Some,
        ensures
            fits_in_lane(INIT_SIZE as nat, Self::slot_start(index), SIZE as nat),
            now.slot(index) == Some(self.slot_once_mapped(was, index)),
            now.record(index) == self.record_once_mapped(was, index),
    {
        let lane = lane_nr(INIT_SIZE as nat, Self::slot_start(index));
        assert(now.arena().lane_once_mapped(after, lane) == self.arena().lane_once_mapped(
            was,
            lane,
        ));
    }

    /// What is kept twice is kept.
    pub proof fn lemma_kept_on(
        &self,
        was: Landfill,
        between: Self,
        then: Landfill,
        now: Self,
        after: Landfill,
    )
        requires
            self.kept_as(was, between, then),
            between.kept_as(then, now, after),
        ensures
            self.kept_as(was, now, after),
    {
        assert forall|l: nat| l < N_LANES implies #[trigger] now.arena().lane_once_mapped(
            after,
            l,
        ) == self.arena().lane_once_mapped(was, l) by {
            assert(between.arena().lane_once_mapped(then, l) == self.arena().lane_once_mapped(
                was,
                l,
            ));
        }
    }

    /// A write to a slot changes the bytes of that slot and no others.
    pub proof fn lemma_write_keeps(&self, was: Landfill, now: Self, after: Landfill, index: nat)
        requires
            self.written_by(was, now, after, index),
        ensures
            self.kept_with(was, now, after, index, now.slot(index).unwrap()),
    {
    }

    /// A write to one slot leaves every other slot as it was: a slot that
    /// could be read reads the same, and a slot whose lane was not mapped
    /// reads as the file of its lane, or as zeroes where the lane has no
    /// file, whether or not the write has mapped the lane.
    pub proof fn lemma_write_leaves_others(
        &self,
        was: Landfill,
        now: Self,
        after: Landfill,
        index: nat,
        other: nat,
    )
        requires
            now.well_formed(),
            self.written_by(was, now, after, index),
            other != index,
            fits_in_lane(INIT_SIZE as nat, Self::slot_start(other), SIZE as nat),
        ensures
            now.slot_once_mapped(after, other) == self.slot_once_mapped(was, other),
    {
        let init = INIT_SIZE as nat;
        let here = Self::slot_start(index);
        let there = Self::slot_start(other);
        let lane = lane_nr(init, here);
        now.arena().lemma_lane_len(lane as int);
        if lane_nr(init, there) == lane {
            let held = self.arena().lane_once_mapped(was, lane);
            let record = now.slot(index).unwrap();
            let inner = lane_ofs(init, here) as int;
            let at = lane_ofs(init, there) as int;
            lemma_lane_bounds(init, here);
            lemma_lane_bounds(init, there);
            assert(there + SIZE <= here || here + SIZE <= there) by (nonlinear_arith)
                requires
                    other != index,
                    SIZE > 0,
                    here == index * SIZE,
                    there == other * SIZE,
            ;
            assert(overwrite(held, inner, record).len() == held.len());
            assert(overwrite(held, inner, record).subrange(at, at + SIZE) =~= held.subrange(
                at,
                at + SIZE,
            ));
        } else {
            assert(now.arena().lane_once_mapped(after, lane_nr(init, there))
                == self.arena().lane_once_mapped(was, lane_nr(init, there)));
        }
    }

    /// Mapping the lane of a slot changes no byte.
    pub proof fn lemma_reserve_keeps(&self, was: Landfill, now: Self, after: Landfill, index: nat)
        requires
            now.well_formed(),
            self.written_by(was, now, after, index),
            now.slot(index) == Some(self.slot_once_mapped(was, index)),
        ensures
            self.kept_as(was, now, after),
    {
        let init = INIT_SIZE as nat;
        let lane = lane_nr(init, Self::slot_start(index));
        let inner = lane_ofs(init, Self::slot_start(index)) as int;
        let held = self.arena().lane_once_mapped(was, lane);
        now.arena().lemma_lane_len(lane as int);
        assert(overwrite(held, inner, now.slot(index).unwrap()).len() == held.len());
        assert(overwrite(held, inner, held.subrange(inner, inner + SIZE)) =~= held);
        assert forall|l: nat| l < N_LANES implies #[trigger] now.arena().lane_once_mapped(
            after,
            l,
        ) == self.arena().lane_once_mapped(was, l) by {
            if l != lane {
                assert(now.arena().others_wait_as(after, self.arena(), was, lane));
            }
        }
    }

    /// An array and a landfill that have not changed hold what they held.
    pub proof fn lemma_same_keeps(&self, was: Landfill, now: Self, after: Landfill)
        requires
            now.arena().same_as(self.arena()),
            after.unchanged_from(was),
        ensures
            self.kept_as(was, now, after),
    {
        assert forall|l: nat| l < N_LANES implies #[trigger] now.arena().lane_once_mapped(
            after,
            l,
        ) == self.arena().lane_once_mapped(was, l) by {
            assert(now.arena().lane(l as int) == self.arena().lane(l as int));
        }
    }

    /// A write after lanes were mapped changes the bytes of its slot and no
    /// others.
    pub proof fn lemma_kept_then_written(
        &self,
        was: Landfill,
        between: Self,
        then: Landfill,
        now: Self,
        after: Landfill,
        index: nat,
        record: Seq<u8>,
    )
        requires
            self.kept_as(was, between, then),
            between.kept_with(then, now, after, index, record),
            lane_nr(INIT_SIZE as nat, Self::slot_start(index)) < N_LANES,
        ensures
            self.kept_with(was, now, after, index, record),
    {
        let lane = lane_nr(INIT_SIZE as nat, Self::slot_start(index));
        assert(between.arena().lane_once_mapped(then, lane) == self.arena().lane_once_mapped(
            was,
            lane,
        ));
        assert forall|l: nat| l < N_LANES && l != lane implies #[trigger]
            now.arena().lane_once_mapped(after, l) == self.arena().lane_once_mapped(was, l) by {
            assert(between.arena().lane_once_mapped(then, l) == self.arena().lane_once_mapped(
                was,
                l,
            ));
        }
    }

    /// Every slot that `other` could read, but for slot `index`, holds
    /// what it held in `other`.
    pub open spec fn same_slots_but(&self, other: Self, index: nat) -> bool {
        forall|i: nat|
            i != index && (#[trigger] other.slot(i)) is Some ==> self.slot(i) == other.slot(i)
    }

    /// The byte offset of slot `index`, if it can be addressed at all.
    fn offset_of(index: u64) -> (r: Option<u64>)
        requires
            valid_init(INIT_SIZE as nat),
        ensures
            match r {
                Some(offset) => offset == Self::slot_start(index as nat),
                None => lane_nr(INIT_SIZE as nat, Self::slot_start(index as nat)) >= N_LANES,
            },
    {
        let r = index.checked_mul(SIZE as u64);
        proof {
            if r is None {
                let init = INIT_SIZE as nat;
                lemma_lane_limits(init, N_LANES as nat);
                lemma_lane_nr_at_least(init, Self::slot_start(index as nat), N_LANES as nat);
            }
        }
        r
    }

    /// Get a reference to an element in the array
    ///
    /// Returns None if the element is uninitialized
    /// or equal to all zeroes.
    pub fn get(&self, index: usize) -> (r: Option<&[u8]>)
        requires
            self.well_formed(),
        ensures
            match r {
                Some(bytes) => self.record(index as nat) == Some(bytes@) && bytes@.len() == SIZE,
                None => self.record(index as nat) is None,
            },
    {
        self.get_at(index as u64)
    }

    /// The same as [`Self::get`], for an index of 64 bits on any machine.
    pub fn get_at(&self, index: u64) -> (r: Option<&[u8]>)
        requires
            self.well_formed(),
        ensures
            match r {
                Some(bytes) => self.record(index as nat) == Some(bytes@) && bytes@.len() == SIZE,
                None => self.record(index as nat) is None,
            },
    {
        proof {
            self.bytes.lemma_lane_len(0);
        }
        let byte_offset: u64 = match Self::offset_of(index) {
            Some(offset) => offset,
            None => {
                return None;
            },
        };
        proof {
            let init = INIT_SIZE as nat;
            lemma_lane_bounds(init, byte_offset as nat);
            self.bytes.lemma_lane_len(lane_nr(init, byte_offset as nat) as int);
        }
        match self.bytes.read(byte_offset, SIZE as u32) {
            Some(slice) => {
                if !is_all_zeroes(slice) {
                    Some(slice)
                } else {
                    None
                }
            },
            None => None,
        }
    }

    /// What running `closure` on slot `index` makes of this array and the
    /// landfill `was`, for each outcome `r`.
    ///
    /// On success the slot holds what the closure made of what it held,
    /// the lane of the slot being mapped if it was not. A record of the
    /// wrong length leaves the slot as it was, though its lane may have
    /// been mapped. Any other error leaves everything as it was and says
    /// why the lane of the slot cannot be written to.
    pub open spec fn mutated<R, F: FnOnce(Vec<u8>) -> (Vec<u8>, R)>(
        &self,
        was: Landfill,
        now: Self,
        after: Landfill,
        index: nat,
        closure: F,
        r: Result<R, FillError>,
    ) -> bool {
        let held = self.slot_once_mapped(was, index);
        match r {
            Ok(result) => {
                &&& self.written_by(was, now, after, index)
                &&& made_of(closure, held, now.slot(index).unwrap(), result)
            },
            Err(e) => if e is BadRecord {
                &&& self.written_by(was, now, after, index)
                &&& now.slot(index) == Some(held)
                &&& exists|record: Seq<u8>, result: R|
                    record.len() != SIZE && #[trigger] made_of(closure, held, record, result)
            } else {
                &&& now.arena().same_as(self.arena())
                &&& after.unchanged_from(was)
                &&& self.arena().write_refused(was, Self::slot_start(index), SIZE as nat, e)
            },
        }
    }

    /// Run a closure on an element of the array and store what it makes of
    /// it
    ///
    /// The closure is given the bytes of the slot and returns the bytes
    /// that the slot is to hold, together with a result of its own, which
    /// is handed on. Will grow the array as necessary to be able to index
    /// the position. A record of another length than `SIZE` is refused as
    /// [`FillError::BadRecord`] and the slot stays as it was.
    pub fn with_mut<R, F: FnOnce(Vec<u8>) -> (Vec<u8>, R)>(
        &mut self,
        landfill: &mut Landfill,
        index: usize,
        closure: F,
    ) -> (r: Result<R, FillError>)
        requires
            old(self).well_formed(),
            old(landfill).wf(),
            forall|held: Vec<u8>| held@.len() == SIZE ==> closure.requires((held,)),
        ensures
            final(self).well_formed(),
            final(landfill).wf(),
            final(landfill).grown_from(*old(landfill)),
            final(self).arena().scope() == old(self).arena().scope(),
            old(landfill).holds_no_file() && !old(self).arena().on_disk()
                ==> !final(self).arena().on_disk(),
            final(self).same_slots_but(*old(self), index as nat),
            old(self).mutated(
                *old(landfill),
                *final(self),
                *final(landfill),
                index as nat,
                closure,
                r,
            ),
    {
        self.with_mut_at(landfill, index as u64, closure)
    }

    /// Makes sure that the lane which holds slot `index` is mapped, so
    /// that a write to the slot cannot fail. No slot changes.
    pub fn reserve(&mut self, landfill: &mut Landfill, index: u64) -> (r: Result<(), FillError>)
        requires
            old(self).well_formed(),
            old(landfill).wf(),
        ensures
            final(self).well_formed(),
            final(landfill).wf(),
            final(landfill).grown_from(*old(landfill)),
            final(self).arena().scope() == old(self).arena().scope(),
            old(landfill).holds_no_file() && !old(self).arena().on_disk()
                ==> !final(self).arena().on_disk(),
            forall|i: nat| (#[trigger] old(self).slot(i)) is Some ==> final(self).slot(i)
                == old(self).slot(i),
            match r {
                Ok(()) => {
                    &&& old(self).written_by(
                        *old(landfill),
                        *final(self),
                        *final(landfill),
                        index as nat,
                    )
                    &&& final(self).slot(index as nat) == Some(
                        old(self).slot_once_mapped(*old(landfill), index as nat),
                    )
                },
                Err(e) => {
                    &&& final(self).arena().same_as(old(self).arena())
                    &&& final(landfill).unchanged_from(*old(landfill))
                    &&& old(self).arena().write_refused(
                        *old(landfill),
                        Self::slot_start(index as nat),
                        SIZE as nat,
                        e,
                    )
                },
            },
    {
        let ghost init = INIT_SIZE as nat;
        let ghost before = *self;
        proof {
            before.bytes.lemma_lane_len(0);
        }
        let byte_offset: u64 = match Self::offset_of(index) {
            Some(offset) => offset,
            None => {
                return Err(FillError::OutOfSpace);
            },
        };
        match self.bytes.request_lane(landfill, byte_offset, SIZE) {
            Ok(_) => {
                proof {
                    lemma_lane_bounds(init, byte_offset as nat);
                    self.bytes.lemma_lane_len(lane_nr(init, byte_offset as nat) as int);
                    assert forall|i: nat| (#[trigger] before.slot(i)) is Some implies self.slot(i)
                        == before.slot(i) by {
                        let there = lane_nr(init, Self::slot_start(i)) as int;
                        if there != lane_nr(init, byte_offset as nat) {
                            assert(self.bytes.lane(there) == before.bytes.lane(there));
                        }
                    }
                    let held = before.bytes.lane_once_mapped(
                        *old(landfill),
                        lane_nr(init, byte_offset as nat),
                    );
                    let inner = lane_ofs(init, byte_offset as nat) as int;
                    assert(overwrite(held, inner, held.subrange(inner, inner + SIZE)) =~= held);
                }
                Ok(())
            },
            Err(e) => {
                proof {
                    assert forall|i: nat| (#[trigger] before.slot(i)) is Some implies self.slot(i)
                        == before.slot(i) by {
                        let there = lane_nr(init, Self::slot_start(i)) as int;
                        assert(self.bytes.lane(there) == before.bytes.lane(there));
                    }
                }
                Err(e)
            },
        }
    }

    /// The same as [`Self::with_mut`], for an index of 64 bits on any
    /// machine.
    pub fn with_mut_at<R, F: FnOnce(Vec<u8>) -> (Vec<u8>, R)>(
        &mut self,
        landfill: &mut Landfill,
        index: u64,
        closure: F,
    ) -> (r: Result<R, FillError>)
        requires
            old(self).well_formed(),
            old(landfill).wf(),
            forall|held: Vec<u8>| held@.len() == SIZE ==> closure.requires((held,)),
        ensures
            final(self).well_formed(),
            final(landfill).wf(),
            final(landfill).grown_from(*old(landfill)),
            final(self).arena().scope() == old(self).arena().scope(),
            old(landfill).holds_no_file() && !old(self).arena().on_disk()
                ==> !final(self).arena().on_disk(),
            final(self).same_slots_but(*old(self), index as nat),
            old(self).mutated(
                *old(landfill),
                *final(self),
                *final(landfill),
                index as nat,
                closure,
                r,
            ),
    {
        let ghost init = INIT_SIZE as nat;
        let ghost before = *self;
        let ghost was = *landfill;
        proof {
            before.bytes.lemma_lane_len(0);
        }
        let byte_offset: u64 = match Self::offset_of(index) {
            Some(offset) => offset,
            None => {
                return Err(FillError::OutOfSpace);
            },
        };
        match self.bytes.request_lane(landfill, byte_offset, SIZE) {
            Ok(_) => {},
            Err(e) => {
                proof {
                    assert forall|i: nat|
                        i != index && (#[trigger] before.slot(i)) is Some implies self.slot(i)
                        == before.slot(i) by {
                        let there = lane_nr(init, Self::slot_start(i)) as int;
                        assert(self.bytes.lane(there) == before.bytes.lane(there));
                    }
                }
                return Err(e);
            },
        }
        let ghost granted = *self;
        let ghost asked = *landfill;
        proof {
            lemma_lane_bounds(init, byte_offset as nat);
            granted.bytes.lemma_lane_len(lane_nr(init, byte_offset as nat) as int);
            assert forall|i: nat| (#[trigger] before.slot(i)) is Some implies granted.slot(i)
                == before.slot(i) by {
                let there = lane_nr(init, Self::slot_start(i)) as int;
                if there != lane_nr(init, byte_offset as nat) {
                    assert(granted.bytes.lane(there) == before.bytes.lane(there));
                }
            }
        }
        let held: Vec<u8> = match self.bytes.read(byte_offset, SIZE as u32) {
            Some(slice) => vstd::slice::slice_to_vec(slice),
            // The lane of the slot has just been asked for.
            None => unreached(),
        };
        let ghost seen = held;
        let out = closure(held);
        let ghost made = out;
        let (record, result) = out;
        if record.len() != SIZE {
            proof {
                assert(seen@ == before.slot_once_mapped(was, index as nat));
                assert(closure.ensures((seen,), (made.0, made.1)) && made.0@.len() != SIZE);
                assert(made_of(closure, seen@, made.0@, made.1));
                let kept = before.bytes.lane_once_mapped(was, lane_nr(init, byte_offset as nat));
                let inner = lane_ofs(init, byte_offset as nat) as int;
                assert(overwrite(kept, inner, kept.subrange(inner, inner + SIZE)) =~= kept);
                assert(before.written_by(was, *self, *landfill, index as nat));
            }
            return Err(FillError::BadRecord);
        }
        let stored = self.bytes.request_write(landfill, byte_offset, record.as_slice());
        proof {
            assert(stored is Ok);
            assert forall|i: nat|
                i != index && (#[trigger] before.slot(i)) is Some implies self.slot(i)
                == before.slot(i) by {
                assert(granted.slot(i) == before.slot(i));
                let here = Self::slot_start(index as nat);
                let other = Self::slot_start(i);
                assert(other + SIZE <= here || here + SIZE <= other) by (nonlinear_arith)
                    requires
                        i != index,
                        SIZE > 0,
                        here == index * SIZE,
                        other == i * SIZE,
                ;
                granted.bytes.lemma_write_keeps_others(
                    self.bytes,
                    asked,
                    byte_offset as nat,
                    record@,
                    Self::slot_start(i),
                    SIZE as nat,
                );
            }
            assert(seen@ == before.slot_once_mapped(was, index as nat));
            assert(closure.ensures((seen,), (record, result)));
            assert(self.slot(index as nat) == Some(record@));
            assert(made_of(closure, seen@, record@, result));
            assert(before.written_by(was, *self, *landfill, index as nat));
        }
        match stored {
            Ok(()) => Ok(result),
            Err(e) => Err(e),
        }
    }

    /// Closes the array: the file of every mapped lane goes back to the
    /// landfill with the bytes that the lane holds.
    pub fn close(self, landfill: &mut Landfill)
        requires
            self.well_formed(),
            old(landfill).wf(),
        ensures
            final(landfill).wf(),
            final(landfill).same_flags(*old(landfill)),
            final(landfill).same_claims(*old(landfill)),
            forall|i: int|
                0 <= i < N_LANES ==> (#[trigger] self.arena().lane(i) matches Some(bytes) ==> {
                    &&& final(landfill).present(self.arena().lane_file(i as nat))
                    &&& final(landfill).contents(self.arena().lane_file(i as nat)) == bytes
                    &&& !final(landfill).fresh(self.arena().lane_file(i as nat))
                }),
            forall|n: Seq<char>|
                !self.arena().is_lane_file(n) ==> {
                    &&& #[trigger] final(landfill).present(n) == old(landfill).present(n)
                    &&& final(landfill).present(n) ==> final(landfill).contents(n)
                        == old(landfill).contents(n) && final(landfill).fresh(n)
                        == old(landfill).fresh(n)
                },
    {
        self.bytes.close(landfill)
    }

    /// Arrays across restarts: an array that is opened over the files that
    /// an array left behind holds in every slot what the other held.
    ///
    /// `self` is the array before the restart, which stood under the name
    /// `scope`. `was` is the landfill that `reopened` was opened from, under
    /// the same name: its directory holds the lanes of `self` as they stood.
    pub proof fn lemma_restart_keeps_slots(
        &self,
        reopened: Self,
        was: Landfill,
        now: Landfill,
        scope: Seq<char>,
    )
        requires
            self.well_formed(),
            reopened.opened(was, now, scope),
            forall|i: int|
                0 <= i < N_LANES ==> (#[trigger] self.arena().lane(i) matches Some(bytes) ==> {
                    &&& was.present(array_lane_file(scope, i as nat))
                    &&& !was.reserved(array_lane_file(scope, i as nat))
                    &&& was.contents(array_lane_file(scope, i as nat)) == bytes
                }),
        ensures
            forall|index: nat|
                (#[trigger] self.slot(index)) is Some ==> reopened.slot(index) == self.slot(index),
            forall|index: nat|
                (#[trigger] self.record(index)) is Some ==> reopened.record(index) == self.record(
                    index,
                ),
    {
        assert forall|index: nat| (#[trigger] self.slot(index)) is Some implies reopened.slot(
            index,
        ) == self.slot(index) by {
            assert forall|i: int| self.arena().lane(i) is Some implies reopened.arena().lane(i)
                == #[trigger] self.arena().lane(i) by {
                self.arena().lemma_lane_len(i);
            }
            self.arena().lemma_same_lanes_read_the_same(
                reopened.arena(),
                Self::slot_start(index),
                SIZE as nat,
            );
        }
        assert forall|index: nat| (#[trigger] self.record(index)) is Some implies reopened.record(
            index,
        ) == self.record(index) by {
            assert(self.slot(index) is Some);
        }
    }

    /// Flush the array to disk.
    ///
    /// An array without a lane on disk has nothing to flush and succeeds.
    /// Else the flush fails with what the operating system says of the
    /// first lane that it cannot flush.
    pub fn flush(&self) -> (r: Result<(), FillError>)
        requires
            self.well_formed(),
        ensures
            r matches Err(e) ==> e is Io && self.arena().on_disk(),
    {
        self.bytes.flush()
    }
}

/// Name of the file of lane `lane` of an array that stands below `scope`.
pub open spec fn array_lane_file(scope: Seq<char>, lane: nat) -> Seq<char> {
    joined(joined(scope, "array"@), lane_name(lane))
}

/// The name that an array claims for its arena is not that of a lane file.
pub proof fn lemma_array_names(scope: Seq<char>, lane: nat)
    ensures
        array_lane_file(scope, lane) != joined(scope, "array"@),
{
    reveal_strlit("array");
    let a = "array"@;
    lemma_joined_assoc(scope, a, lane_name(lane));
    let lane_part = joined(a, lane_name(lane));
    assert(lane_part.len() == 8);
    assert(a.len() == 5);
    lemma_joined_differ(scope, lane_part, a);
}

impl<const SIZE: usize, const INIT_SIZE: u64> Substructure for RandomAccess<SIZE, INIT_SIZE> {
    open spec fn wf(&self) -> bool {
        self.well_formed()
    }

    /// Some lane of the array has a file behind it.
    open spec fn file_backed(&self) -> bool {
        self.arena().on_disk()
    }

    /// Each lane is mapped if its file was waiting unclaimed, and holds what
    /// the file held.
    open spec fn opened(&self, was: Landfill, now: Landfill, scope: Seq<char>) -> bool {
        &&& self.arena().scope() == joined(scope, "array"@)
        &&& forall|i: int|
            0 <= i < N_LANES ==> #[trigger] self.arena().lane(i) == (if was.present(
                array_lane_file(scope, i as nat),
            ) && !was.reserved(array_lane_file(scope, i as nat)) {
                Some(was.contents(array_lane_file(scope, i as nat)))
            } else {
                None
            })
    }

    /// An array cannot be opened with records of no bytes or of too many,
    /// nor where its name is claimed, nor over an arena that cannot be
    /// opened.
    open spec fn refused(e: FillError, was: Landfill, scope: Seq<char>) -> bool {
        match e {
            FillError::BadRecord => SIZE == 0 || SIZE > u32::MAX,
            FillError::Duplicate => was.reserved(joined(scope, "array"@)),
            FillError::SizeMismatch { .. } => valid_init(INIT_SIZE as nat) && exists|lane: nat|
                #[trigger] misfit(INIT_SIZE as nat, was, array_lane_file(scope, lane), lane)
                    && asks_resize(
                    e,
                    array_lane_file(scope, lane),
                    lane_size(INIT_SIZE as nat, lane),
                ),
            FillError::BadLaneSize => !valid_init(INIT_SIZE as nat),
            _ => false,
        }
    }

    /// Opens the array below `scope`, over the lanes that exist.
    fn init(landfill: &mut Landfill, scope: GuardedLandfill) -> (r: Result<Self, FillError>)
    {
        if SIZE == 0 || SIZE > u32::MAX as usize {
            proof {
                assert(landfill.claims().is_prefix_of(landfill.claims()));
                landfill.lemma_same_files_untouched(*landfill, scope@);
            }
            return Err(FillError::BadRecord);
        }
        let ghost was = *landfill;
        let ghost prefix = scope@;
        let ghost name = joined(prefix, "array"@);
        let arena = landfill.substructure_in::<DiskBytes<INIT_SIZE>>(&scope, "array");
        proof {
            crate::landfill::lemma_below_joined(prefix, "array"@);
            was.lemma_untouched_widens(*landfill, name, prefix);
        }
        match arena {
            Ok(bytes) => {
                proof {
                    let claimed = choose|claimed: Landfill|
                        was.claimed_for(claimed, name) && #[trigger] bytes.opened(
                            claimed,
                            *landfill,
                            name,
                        );
                    claimed.lemma_claims_with(was, name);
                    assert forall|i: int| 0 <= i < N_LANES implies #[trigger] bytes.lane(i) == (
                    if was.present(array_lane_file(prefix, i as nat)) && !was.reserved(
                        array_lane_file(prefix, i as nat),
                    ) {
                        Some(was.contents(array_lane_file(prefix, i as nat)))
                    } else {
                        None
                    }) by {
                        let file = array_lane_file(prefix, i as nat);
                        lemma_array_names(prefix, i as nat);
                        assert(claimed.present(file) == was.present(file));
                    }
                }
                Ok(RandomAccess { bytes })
            },
            Err(e) => {
                proof {
                    if !was.reserved(name) {
                        let claimed = choose|claimed: Landfill|
                            was.claimed_for(claimed, name) && #[trigger] DiskBytes::<
                                INIT_SIZE,
                            >::refused(e, claimed, name);
                        claimed.lemma_claims_with(was, name);
                        if e is SizeMismatch {
                            let lane = choose|lane: nat| #[trigger]
                                misfit(
                                    INIT_SIZE as nat,
                                    claimed,
                                    joined(name, lane_name(lane)),
                                    lane,
                                ) && asks_resize(
                                    e,
                                    joined(name, lane_name(lane)),
                                    lane_size(INIT_SIZE as nat, lane),
                                );
                            let file = array_lane_file(prefix, lane);
                            assert(claimed.present(file) == was.present(file));
                            assert(misfit(INIT_SIZE as nat, was, file, lane));
                        }
                    }
                }
                Err(e)
            },
        }
    }

    /// Flush the array to disk; an array without a lane on disk has
    /// nothing to flush and succeeds.
    fn flush(&self) -> (r: Result<(), FillError>) {
        RandomAccess::flush(self)
    }
}

} // verus!
