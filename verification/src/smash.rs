//! SmashMap: a probe-based hash index over a random-access array.
//!
//! A key is hashed with the seeds of the map. The hash picks one slot in a
//! first band of slots; the bands that follow are twice as large each, are
//! tried twice as often, and each has the hash hashed once more. A search
//! walks this pattern until the caller is content with a record, or until
//! it meets an empty slot, where a new record may be written. Since records
//! never go away, a later search from the same hash walks over the same
//! records and meets everything that was written from that hash.

use vstd::prelude::*;
use vstd::arithmetic::power2::{
    lemma2_to64, lemma_pow2_pos, lemma_pow2_strictly_increases, lemma_pow2_unfold, pow2,
};
use std::hash::Hash;
use crate::entropy::{keyed_hash, Entropy, StaticHeader};
use crate::errors::FillError;
use crate::helpers::{all_zero, is_all_zeroes};
use crate::bytes::{lane_name, misfit};
use crate::landfill::{
    joined, lemma_apart, lemma_joined_assoc, GuardedLandfill, Landfill, Substructure,
};
use crate::lanes::valid_init;
use crate::randomaccess::{array_lane_file, RandomAccess};

verus! {

/// Number of slots in the first band.
pub const INITIAL_FANOUT: u64 = 1024;

/// Number of bands that a search walks before it gives up.
pub const MAX_BANDS: u32 = 32;

/// Enum for signaling if a search should end or continue
#[derive(Clone, Copy, Debug, PartialEq, Eq, Structural)]
pub enum SearchNext {
    /// Proceed with searching
    Proceed,
    /// Stop searching
    Halt,
}

/// Enum for signaling if a search should end or continue, as a visitor of
/// candidates answers
#[derive(Clone, Copy, Debug, PartialEq, Eq, Structural)]
pub enum Search {
    /// Continue searching
    Continue,
    /// Stop searching
    Halt,
}

impl Search {
    /// The answer as a search of a map takes it.
    pub fn next(self) -> (r: SearchNext)
        ensures
            r == (match self {
                Search::Continue => SearchNext::Proceed,
                Search::Halt => SearchNext::Halt,
            }),
    {
        match self {
            Search::Continue => SearchNext::Proceed,
            Search::Halt => SearchNext::Halt,
        }
    }
}

/// One step of a search: the hash as it stands, the band that is searched,
/// and the number of slots of the band that were tried before.
pub struct Probe {
    pub state: u64,
    pub band: nat,
    pub retry: nat,
}

/// Number of slots in band `band`.
pub open spec fn band_size(band: nat) -> nat {
    INITIAL_FANOUT as nat * pow2(band)
}

/// Index of the first slot of band `band`.
pub open spec fn band_offset(band: nat) -> nat {
    ((pow2(band) - 1) * INITIAL_FANOUT) as nat
}

/// The slot that a step of a search looks at.
pub open spec fn probe_slot(probe: Probe) -> nat {
    band_offset(probe.band) + ((probe.state + probe.retry) % (band_size(probe.band) as int)) as nat
}

/// The first step of the search for a key with the hash `state`.
pub open spec fn first_probe(state: u64) -> Probe {
    Probe { state, band: 0, retry: 0 }
}

/// The step that follows `probe`: the next try in the same band, or the
/// first try in the next band with the hash hashed once more, when the band
/// has been tried as often as its number allows.
pub open spec fn next_probe(seeds: StaticHeader, probe: Probe) -> Probe {
    if probe.retry + 1 == pow2(probe.band) {
        Probe { state: keyed_hash(seeds, probe.state), band: probe.band + 1, retry: 0 }
    } else {
        Probe { state: probe.state, band: probe.band, retry: probe.retry + 1 }
    }
}

/// Step `k` of the search for a key with the hash `state`.
pub open spec fn probe_at(seeds: StaticHeader, state: u64, k: nat) -> Probe
    decreases k,
{
    if k == 0 {
        first_probe(state)
    } else {
        next_probe(seeds, probe_at(seeds, state, (k - 1) as nat))
    }
}

/// Number of steps of a search that gives up after `MAX_BANDS` bands.
pub open spec fn n_probes() -> nat {
    (pow2(MAX_BANDS as nat) - 1) as nat
}

/// Step `k` of a search is try number `k - (2^band - 1)` of its band.
pub proof fn lemma_probe_position(seeds: StaticHeader, state: u64, k: nat)
    ensures
        probe_at(seeds, state, k).retry < pow2(probe_at(seeds, state, k).band),
        k == pow2(probe_at(seeds, state, k).band) - 1 + probe_at(seeds, state, k).retry,
    decreases k,
{
    lemma2_to64();
    if k > 0 {
        lemma_probe_position(seeds, state, (k - 1) as nat);
        let before = probe_at(seeds, state, (k - 1) as nat);
        lemma_pow2_unfold(before.band + 1);
        lemma_pow2_pos(before.band);
    }
}

/// The state of a search, as it is shown to the callers of a map.
pub struct SearchPattern {
    entropy_source: Entropy,
    entropy_state: u64,
    fanout: u64,
    offset: u64,
    retries: u64,
    tries_limit: u64,
    band: u32,
}

impl View for SearchPattern {
    type V = Probe;

    closed spec fn view(&self) -> Probe {
        Probe { state: self.entropy_state, band: self.band as nat, retry: self.retries as nat }
    }
}

impl SearchPattern {
    /// The entropy with which the search hashes.
    pub closed spec fn source(&self) -> Entropy {
        self.entropy_source
    }

    /// The seeds with which the search hashes.
    pub open spec fn seeds(&self) -> StaticHeader {
        self.source().seeds()
    }

    /// The invariant of a search: the band is one that a search may reach,
    /// and what is kept of the band is its size, its first slot and the
    /// number of tries that it allows.
    pub closed spec fn well_formed(&self) -> bool {
        &&& self.band <= MAX_BANDS
        &&& self.fanout == band_size(self.band as nat)
        &&& self.offset == band_offset(self.band as nat)
        &&& self.tries_limit == pow2(self.band as nat)
        &&& self.retries < self.tries_limit
    }

    /// The search pattern that stands for step `probe` of a search with the
    /// seeds of `entropy`.
    pub closed spec fn standing_for(entropy: Entropy, probe: Probe) -> SearchPattern {
        SearchPattern {
            entropy_source: entropy,
            entropy_state: probe.state,
            fanout: band_size(probe.band) as u64,
            offset: band_offset(probe.band) as u64,
            retries: probe.retry as u64,
            tries_limit: pow2(probe.band) as u64,
            band: probe.band as u32,
        }
    }

    /// The answer that lets a search go on.
    pub fn proceed(&self) -> (r: SearchNext)
        ensures
            r == SearchNext::Proceed,
    {
        SearchNext::Proceed
    }

    /// The answer that ends a search.
    pub fn halt(&self) -> (r: SearchNext)
        ensures
            r == SearchNext::Halt,
    {
        SearchNext::Halt
    }

    /// The lowest byte of the hash as it stands.
    pub fn tag_u8(&self) -> (r: u8)
        ensures
            r == self@.state % 0x100,
    {
        let state: u64 = self.entropy_state;
        assert(state & 0xff == state % 0x100) by (bit_vector);
        (state & 0xff) as u8
    }

    /// The lowest two bytes of the hash as it stands.
    pub fn tag_u16(&self) -> (r: u16)
        ensures
            r == self@.state % 0x1_0000,
    {
        let state: u64 = self.entropy_state;
        assert(state & 0xffff == state % 0x1_0000) by (bit_vector);
        (state & 0xffff) as u16
    }

    /// The lower half of the hash as it stands.
    pub fn tag_u32(&self) -> (r: u32)
        ensures
            r == self@.state % 0x1_0000_0000,
    {
        let state: u64 = self.entropy_state;
        assert(state & 0xffff_ffff == state % 0x1_0000_0000) by (bit_vector);
        (state & 0xffff_ffff) as u32
    }

    /// The hash as it stands.
    pub fn tag_u64(&self) -> (r: u64)
        ensures
            r == self@.state,
    {
        self.entropy_state
    }

    /// The first step of the search for a key whose hash is `state`.
    pub fn new(state: u64, entropy_source: &Entropy) -> (r: Self)
        ensures
            r.well_formed(),
            r@ == first_probe(state),
            r.source() == *entropy_source,
            r == Self::standing_for(*entropy_source, first_probe(state)),
    {
        proof {
            lemma2_to64();
        }
        SearchPattern {
            entropy_source: *entropy_source,
            entropy_state: state,
            fanout: INITIAL_FANOUT,
            offset: 0,
            retries: 0,
            tries_limit: 1,
            band: 0,
        }
    }

    /// The number of the band that is searched.
    pub fn band(&self) -> (r: u32)
        ensures
            r == self@.band,
    {
        self.band
    }

    /// The slot that this step of the search looks at.
    pub fn get_slot(&self) -> (r: u64)
        requires
            self.well_formed(),
        ensures
            r == probe_slot(self@),
            r < 0x800_0000_0000,
    {
        proof {
            lemma_band_limits(self.band as nat);
            vstd::arithmetic::div_mod::lemma_add_mod_noop(
                self.entropy_state as int,
                self.retries as int,
                self.fanout as int,
            );
            vstd::arithmetic::div_mod::lemma_mod_bound(
                self.entropy_state as int,
                self.fanout as int,
            );
            vstd::arithmetic::div_mod::lemma_small_mod(self.retries as nat, self.fanout as nat);
            vstd::arithmetic::div_mod::lemma_mod_bound(
                (self.entropy_state % self.fanout) + self.retries,
                self.fanout as int,
            );
        }
        let slot: u64 = (self.entropy_state % self.fanout + self.retries) % self.fanout;
        // the global offset
        self.offset + slot
    }

    /// Moves the search on by one step.
    pub fn calculate_next(&mut self)
        requires
            old(self).well_formed(),
            old(self)@.band < MAX_BANDS,
        ensures
            final(self).well_formed(),
            final(self).source() == old(self).source(),
            final(self)@ == next_probe(old(self).seeds(), old(self)@),
            *final(self) == Self::standing_for(final(self).source(), final(self)@),
    {
        proof {
            lemma_band_limits(self.band as nat);
            lemma_band_limits((self.band + 1) as nat);
        }
        self.retries = self.retries + 1;
        if self.retries == self.tries_limit {
            self.offset = self.offset + self.fanout;
            self.fanout = self.fanout * 2;
            self.tries_limit = self.tries_limit * 2;
            self.entropy_state = self.entropy_source.checksum_u64(self.entropy_state);
            self.retries = 0;
            self.band = self.band + 1;
        }
    }
}

/// The bands that a search may reach are small enough to be counted in 64
/// bits.
pub proof fn lemma_band_limits(band: nat)
    requires
        band <= MAX_BANDS,
    ensures
        0 < pow2(band) <= 0x1_0000_0000,
        0 < band_size(band) <= 0x400_0000_0000,
        band_offset(band) + band_size(band) == band_offset(band + 1),
        band_offset(band) < 0x400_0000_0000,
        band_size(band + 1) == 2 * band_size(band),
        pow2(band + 1) == 2 * pow2(band),
{
    lemma2_to64();
    lemma_pow2_pos(band);
    lemma_pow2_unfold(band + 1);
    if band < MAX_BANDS {
        lemma_pow2_strictly_increases(band, MAX_BANDS as nat);
    }
    let p = pow2(band) as int;
    assert(1024 * p <= 1024 * 0x1_0000_0000) by (nonlinear_arith)
        requires
            p <= 0x1_0000_0000,
    ;
    assert((2 * p - 1) * 1024 == (p - 1) * 1024 + 1024 * p) by (nonlinear_arith);
    assert(1024 * (2 * p) == 2 * (1024 * p)) by (nonlinear_arith);
}

/// The closure `on_occupied`, shown the record `record` at the step
/// `pattern` of a search, may answer with `verdict`.
pub open spec fn answers<Occupied: Fn(&SearchPattern, &[u8]) -> SearchNext>(
    on_occupied: Occupied,
    pattern: SearchPattern,
    record: Seq<u8>,
    verdict: SearchNext,
) -> bool {
    exists|shown: &[u8]|
        shown@ == record && #[trigger] on_occupied.ensures((&pattern, shown), verdict)
}

/// The closure `on_empty`, asked at the step `pattern` of a search, may
/// give the record `record`.
pub open spec fn gives<Empty: FnOnce(&SearchPattern) -> Result<Vec<u8>, FillError>>(
    on_empty: Empty,
    pattern: SearchPattern,
    record: Seq<u8>,
) -> bool {
    exists|made: Vec<u8>| made@ == record && #[trigger] on_empty.ensures((&pattern,), Ok(made))
}

/// The bytes of a record that a search came back with.
pub open spec fn bytes_of(record: Option<&[u8]>) -> Option<Seq<u8>> {
    match record {
        Some(bytes) => Some(bytes@),
        None => None,
    }
}

/// Low-level on-disk hashmap
///
/// This is an implementation of hashmap with multi-values and false positives
///
/// This type should generally not be used directly, but rather be used as a base
/// to implement other map-like data structures
pub struct SmashMap<const SIZE: usize, const INIT_SIZE: u64> {
    slots: RandomAccess<SIZE, INIT_SIZE>,
    entropy: Entropy,
}

impl<const SIZE: usize, const INIT_SIZE: u64> SmashMap<SIZE, INIT_SIZE> {
    /// The array that holds the records.
    pub closed spec fn array(&self) -> RandomAccess<SIZE, INIT_SIZE> {
        self.slots
    }

    /// The entropy with which keys are hashed.
    pub closed spec fn source(&self) -> Entropy {
        self.entropy
    }

    /// The invariant of the map.
    pub open spec fn well_formed(&self) -> bool {
        self.array().well_formed()
    }

    /// The pattern of step `k` of the search for a key with the hash
    /// `state`.
    pub open spec fn pattern_at(&self, state: u64, k: nat) -> SearchPattern {
        SearchPattern::standing_for(self.source(), probe_at(self.source().seeds(), state, k))
    }

    /// The slot that step `k` of the search for a key with the hash `state`
    /// looks at.
    pub open spec fn slot_at(&self, state: u64, k: nat) -> nat {
        probe_slot(probe_at(self.source().seeds(), state, k))
    }

    /// The record that step `k` of the search for a key with the hash
    /// `state` finds.
    pub open spec fn record_at(&self, state: u64, k: nat) -> Option<Seq<u8>> {
        self.array().record(self.slot_at(state, k))
    }

    /// The first `k` steps of the search from `state` found records, and
    /// the closure was free to proceed on each of them.
    pub open spec fn passed<Occupied: Fn(&SearchPattern, &[u8]) -> SearchNext>(
        &self,
        on_occupied: Occupied,
        state: u64,
        k: nat,
    ) -> bool {
        forall|j: nat|
            j < k ==> (#[trigger] self.record_at(state, j)) is Some && answers(
                on_occupied,
                self.pattern_at(state, j),
                self.record_at(state, j).unwrap(),
                SearchNext::Proceed,
            )
    }

    /// The first `k` steps of the search from `state` find records.
    pub open spec fn occupied_until(&self, state: u64, k: nat) -> bool {
        forall|j: nat| j < k ==> (#[trigger] self.record_at(state, j)) is Some
    }

    /// Every record of `other` is a record of this map, in the same slot.
    pub open spec fn keeps(&self, other: Self) -> bool {
        &&& self.source() == other.source()
        &&& forall|i: nat|
            (#[trigger] other.array().record(i)) is Some ==> self.array().record(i)
                == other.array().record(i)
    }

    /// What a search from `state` comes back with: the record of the first
    /// step at which the closure called a halt, all steps before having
    /// found records on which it proceeded; or nothing, where the first
    /// step that did not proceed found an empty slot, or where the search
    /// ran out of bands.
    pub open spec fn found<Occupied: Fn(&SearchPattern, &[u8]) -> SearchNext>(
        &self,
        on_occupied: Occupied,
        state: u64,
        outcome: Option<Seq<u8>>,
    ) -> bool {
        exists|k: nat|
            {
                &&& k <= n_probes()
                &&& #[trigger] self.passed(on_occupied, state, k)
                &&& match outcome {
                    Some(record) => k < n_probes() && self.record_at(state, k) == Some(record)
                        && answers(on_occupied, self.pattern_at(state, k), record,
                            SearchNext::Halt),
                    None => k == n_probes() || self.record_at(state, k) is None,
                }
            }
    }

    /// Search the map from the hash `state` and show the provided closure
    /// what is found, until it calls a halt. Returns the record on which it
    /// did, or nothing if the search met an empty slot first.
    pub fn get_hashed<Occupied: Fn(&SearchPattern, &[u8]) -> SearchNext>(
        &self,
        state: u64,
        on_occupied: Occupied,
    ) -> (r: Option<&[u8]>)
        requires
            self.well_formed(),
            forall|pattern: &SearchPattern, record: &[u8]|
                record@.len() == SIZE ==> on_occupied.requires((pattern, record)),
        ensures
            self.found(on_occupied, state, bytes_of(r)),
            r matches Some(record) ==> record@.len() == SIZE,
    {
        let ghost seeds = self.entropy.seeds();
        let mut search = SearchPattern::new(state, &self.entropy);
        let ghost mut k: nat = 0;
        while search.band() < MAX_BANDS
            invariant
                self.well_formed(),
                seeds == self.entropy.seeds(),
                forall|pattern: &SearchPattern, record: &[u8]|
                    record@.len() == SIZE ==> on_occupied.requires((pattern, record)),
                search.well_formed(),
                search.source() == self.entropy,
                search == self.pattern_at(state, k),
                search@ == probe_at(seeds, state, k),
                search@.band <= MAX_BANDS,
                k <= n_probes(),
                self.passed(on_occupied, state, k),
            decreases n_probes() - k,
        {
            proof {
                lemma_probe_position(seeds, state, k);
                lemma_probe_position(seeds, state, k + 1);
                lemma_probes_left(seeds, state, k);
            }
            let slot: u64 = search.get_slot();
            match self.slots.get_at(slot) {
                Some(value) => {
                    match on_occupied(&search, value) {
                        SearchNext::Halt => {
                            proof {
                                assert(answers(
                                    on_occupied,
                                    self.pattern_at(state, k),
                                    value@,
                                    SearchNext::Halt,
                                ));
                                assert(self.passed(on_occupied, state, k));
                                assert(self.found(on_occupied, state, Some(value@)));
                            }
                            return Some(value);
                        },
                        SearchNext::Proceed => {
                            proof {
                                assert(answers(
                                    on_occupied,
                                    self.pattern_at(state, k),
                                    value@,
                                    SearchNext::Proceed,
                                ));
                            }
                        },
                    }
                },
                None => {
                    proof {
                        assert(self.passed(on_occupied, state, k));
                        assert(self.found(on_occupied, state, None));
                    }
                    return None;
                },
            }
            search.calculate_next();
            proof {
                k = k + 1;
            }
        }
        proof {
            lemma_probe_position(seeds, state, k);
            lemma_probes_left(seeds, state, k);
            assert(k == n_probes());
            assert(self.passed(on_occupied, state, k));
            assert(self.found(on_occupied, state, None));
        }
        None
    }

    /// Every slot that `other` could read holds what it held in `other`.
    pub open spec fn untouched_since(&self, other: Self) -> bool {
        &&& self.source() == other.source()
        &&& forall|i: nat|
            (#[trigger] other.array().slot(i)) is Some ==> self.array().slot(i)
                == other.array().slot(i)
    }

    /// The records that the first `k` steps of the search from `state`
    /// find in the map `now` are those that their slots held in this map
    /// over the landfill `was`, mapped or not, before the search began.
    pub open spec fn walked_from(&self, was: Landfill, now: Self, state: u64, k: nat) -> bool {
        forall|j: nat|
            j < k ==> (#[trigger] now.record_at(state, j)) == self.array().record_once_mapped(
                was,
                self.slot_at(state, j),
            )
    }

    /// A walk goes on over what it has passed: the records that the first
    /// `k` steps found in `between` are found in every map that keeps the
    /// records of `between`.
    pub proof fn lemma_walk_goes_on(
        &self,
        was: Landfill,
        between: Self,
        now: Self,
        state: u64,
        k: nat,
    )
        requires
            self.walked_from(was, between, state, k),
            between.occupied_until(state, k),
            now.keeps(between),
            between.source() == self.source(),
        ensures
            self.walked_from(was, now, state, k),
    {
        assert forall|j: nat| j < k implies (#[trigger] now.record_at(state, j))
            == self.array().record_once_mapped(was, self.slot_at(state, j)) by {
            assert(between.record_at(state, j) is Some);
            assert(between.array().record(between.slot_at(state, j)) is Some);
        }
    }

    /// What an insertion from `state` that ends at step `k` makes of the
    /// map: `self` is the map and `was` the landfill before, `now` the map
    /// and `after` the landfill afterwards, `r` what the insertion returns.
    pub open spec fn placed_at<
        Occupied: Fn(&SearchPattern, &[u8]) -> SearchNext,
        Empty: FnOnce(&SearchPattern) -> Result<Vec<u8>, FillError>,
    >(
        &self,
        now: Self,
        was: Landfill,
        after: Landfill,
        on_occupied: Occupied,
        on_empty: Empty,
        state: u64,
        r: Result<(), FillError>,
        k: nat,
    ) -> bool {
        let pattern = now.pattern_at(state, k);
        &&& k <= n_probes()
        &&& now.passed(on_occupied, state, k)
        &&& self.walked_from(was, now, state, k)
        &&& match r {
            Ok(()) => {
                &&& k < n_probes()
                &&& now.record_at(state, k) is Some
                &&& {
                    ||| (now.untouched_since(*self) && self.array().kept_as(
                        was,
                        now.array(),
                        after,
                    ) && answers(
                        on_occupied,
                        pattern,
                        now.record_at(state, k).unwrap(),
                        SearchNext::Halt,
                    ))
                    ||| (now.array().same_slots_but(self.array(), now.slot_at(state, k))
                        && self.record_at(state, k) is None && self.array().record_once_mapped(
                        was,
                        self.slot_at(state, k),
                    ) is None && self.array().kept_with(
                        was,
                        now.array(),
                        after,
                        self.slot_at(state, k),
                        now.record_at(state, k).unwrap(),
                    ) && gives(on_empty, pattern, now.record_at(state, k).unwrap()))
                }
            },
            Err(e) => {
                &&& now.untouched_since(*self)
                &&& self.array().kept_as(was, now.array(), after)
                &&& {
                    ||| (k == n_probes() && e is Exhausted)
                    ||| (k < n_probes() && now.record_at(state, k) is None && {
                        ||| now.array().arena().write_refused(
                            after,
                            RandomAccess::<SIZE, INIT_SIZE>::slot_start(now.slot_at(state, k)),
                            SIZE as nat,
                            e,
                        )
                        ||| on_empty.ensures((&pattern,), Err(e))
                        ||| (e is BadRecord && exists|record: Seq<u8>|
                            (record.len() != SIZE || all_zero(record)) && #[trigger] gives(
                                on_empty,
                                pattern,
                                record,
                            ))
                    })
                }
            },
        }
    }

    /// An insertion that writes fills the first empty slot of the walk.
    ///
    /// Let an insertion from `state` have ended well at step `k`, whose
    /// slot was empty before. Then the slot of every step before held a
    /// record before the call, the record that `on_empty` gave is in the
    /// slot of step `k` now, and no other byte of the map has changed.
    pub proof fn lemma_fills_first_gap<
        Occupied: Fn(&SearchPattern, &[u8]) -> SearchNext,
        Empty: FnOnce(&SearchPattern) -> Result<Vec<u8>, FillError>,
    >(
        &self,
        now: Self,
        was: Landfill,
        after: Landfill,
        on_occupied: Occupied,
        on_empty: Empty,
        state: u64,
        k: nat,
    )
        requires
            self.placed_at(now, was, after, on_occupied, on_empty, state, Ok(()), k),
            self.array().record_once_mapped(was, self.slot_at(state, k)) is None,
        ensures
            forall|j: nat|
                j < k ==> (#[trigger] self.array().record_once_mapped(
                    was,
                    self.slot_at(state, j),
                )) is Some,
            self.array().kept_with(
                was,
                now.array(),
                after,
                self.slot_at(state, k),
                now.record_at(state, k).unwrap(),
            ),
            gives(on_empty, now.pattern_at(state, k), now.record_at(state, k).unwrap()),
    {
        if now.untouched_since(*self) && self.array().kept_as(was, now.array(), after) {
            assert(now.array().slot(now.slot_at(state, k)) is Some);
            self.array().lemma_kept_slot(was, now.array(), after, self.slot_at(state, k));
        }
        assert forall|j: nat| j < k implies (#[trigger] self.array().record_once_mapped(
            was,
            self.slot_at(state, j),
        )) is Some by {
            assert(now.record_at(state, j) is Some);
        }
    }

    /// What an insertion from `state` makes of the map: `self` is the map
    /// and `was` the landfill before, `now` the map and `after` the
    /// landfill afterwards, `r` what the insertion returns.
    ///
    /// The search walks over records on which `on_occupied` proceeds: they
    /// are the records that the slots of its steps held before the call.
    /// It ends at the first step where that is not so. If the step finds a
    /// record, `on_occupied` called a halt there and no byte of the map
    /// has changed. If it finds an empty slot, the first of the walk, the
    /// record that `on_empty` gave is in that slot now, and no other byte
    /// of the map has changed. An error leaves every byte as it was: the
    /// search ran out of bands, or the lane of the empty slot cannot be
    /// written to, or `on_empty` failed or gave a record that cannot be
    /// stored.
    pub open spec fn placed<
        Occupied: Fn(&SearchPattern, &[u8]) -> SearchNext,
        Empty: FnOnce(&SearchPattern) -> Result<Vec<u8>, FillError>,
    >(
        &self,
        now: Self,
        was: Landfill,
        after: Landfill,
        on_occupied: Occupied,
        on_empty: Empty,
        state: u64,
        r: Result<(), FillError>,
    ) -> bool {
        exists|k: nat| #[trigger]
            self.placed_at(now, was, after, on_occupied, on_empty, state, r, k)
    }

    /// The pattern of a step that a search gets to shows the step as it
    /// is.
    pub proof fn lemma_pattern_view(&self, state: u64, k: nat)
        requires
            k < n_probes(),
        ensures
            self.pattern_at(state, k)@ == probe_at(self.source().seeds(), state, k),
            self.pattern_at(state, k).source() == self.source(),
    {
        let seeds = self.source().seeds();
        lemma_probe_position(seeds, state, k);
        lemma_probes_left(seeds, state, k);
        lemma_band_limits(probe_at(seeds, state, k).band);
    }

    /// Records that are kept are found again: a search that passed `k`
    /// steps in `self` passes them in every map that keeps the records of
    /// `self`.
    pub proof fn lemma_kept_records_pass<Occupied: Fn(&SearchPattern, &[u8]) -> SearchNext>(
        &self,
        later: Self,
        on_occupied: Occupied,
        state: u64,
        k: nat,
    )
        requires
            self.passed(on_occupied, state, k),
            later.keeps(*self),
        ensures
            later.passed(on_occupied, state, k),
    {
        assert forall|j: nat| j < k implies (#[trigger] later.record_at(state, j)) is Some
            && answers(
            on_occupied,
            later.pattern_at(state, j),
            later.record_at(state, j).unwrap(),
            SearchNext::Proceed,
        ) by {
            assert(self.record_at(state, j) is Some);
            assert(self.array().record(self.slot_at(state, j)) is Some);
        }
    }

    /// A map whose readable slots are those of `self` keeps the records of
    /// `self`.
    pub proof fn lemma_untouched_keeps(&self, later: Self)
        requires
            later.untouched_since(*self),
        ensures
            later.keeps(*self),
    {
        assert forall|i: nat| (#[trigger] self.array().record(i)) is Some
            implies later.array().record(
            i,
        ) == self.array().record(i) by {
            assert(self.array().slot(i) is Some);
        }
    }

    /// Searches the map from the hash `state` for entries and presents them
    /// to the consumer, that may chose to break the process here (for
    /// example, if the key was already present in a cache)
    ///
    /// If no candidate was acceptable to the consumer, it is asked for a
    /// record to write into the empty slot that ends the search. The record
    /// has `SIZE` bytes, not all of them zero.
    pub fn insert_hashed<
        Occupied: Fn(&SearchPattern, &[u8]) -> SearchNext,
        Empty: FnOnce(&SearchPattern) -> Result<Vec<u8>, FillError>,
    >(
        &mut self,
        landfill: &mut Landfill,
        state: u64,
        on_occupied: Occupied,
        on_empty: Empty,
    ) -> (r: Result<(), FillError>)
        requires
            old(self).well_formed(),
            old(landfill).wf(),
            forall|pattern: &SearchPattern, record: &[u8]|
                record@.len() == SIZE ==> on_occupied.requires((pattern, record)),
            forall|pattern: &SearchPattern| on_empty.requires((pattern,)),
        ensures
            final(self).well_formed(),
            final(landfill).wf(),
            final(landfill).same_flags(*old(landfill)),
            final(landfill).grown_from(*old(landfill)),
            final(self).keeps(*old(self)),
            old(landfill).holds_no_file() && !old(self).array().arena().on_disk()
                ==> !final(self).array().arena().on_disk(),
            old(self).placed(
                *final(self),
                *old(landfill),
                *final(landfill),
                on_occupied,
                on_empty,
                state,
                r,
            ),
    {
        let ghost seeds = self.entropy.seeds();
        let ghost before = *self;
        let mut search = SearchPattern::new(state, &self.entropy);
        let ghost mut k: nat = 0;
        while search.band() < MAX_BANDS
            invariant
                self.well_formed(),
                landfill.wf(),
                landfill.same_flags(*old(landfill)),
                landfill.grown_from(*old(landfill)),
                seeds == self.entropy.seeds(),
                before == *old(self),
                old(landfill).holds_no_file() && !before.array().arena().on_disk()
                    ==> !self.array().arena().on_disk(),
                self.entropy == before.entropy,
                forall|pattern: &SearchPattern, record: &[u8]|
                    record@.len() == SIZE ==> on_occupied.requires((pattern, record)),
                forall|pattern: &SearchPattern| on_empty.requires((pattern,)),
                search.well_formed(),
                search.source() == self.entropy,
                search == self.pattern_at(state, k),
                search@ == probe_at(seeds, state, k),
                search@.band <= MAX_BANDS,
                k <= n_probes(),
                self.passed(on_occupied, state, k),
                self.untouched_since(before),
                before.walked_from(*old(landfill), *self, state, k),
                before.array().kept_as(*old(landfill), self.array(), *landfill),
            decreases n_probes() - k,
        {
            proof {
                lemma_probe_position(seeds, state, k);
                lemma_probe_position(seeds, state, k + 1);
                lemma_probes_left(seeds, state, k);
            }
            let slot: u64 = search.get_slot();
            let ghost walked = *self;
            let ghost filled = *landfill;
            let mut seen: Option<SearchNext> = match self.slots.get_at(slot) {
                Some(value) => {
                    let verdict = on_occupied(&search, value);
                    proof {
                        assert(answers(on_occupied, self.pattern_at(state, k), value@, verdict));
                    }
                    Some(verdict)
                },
                None => None,
            };
            if seen.is_none() {
                // Encountered an empty slot: map its lane and look again, in
                // case the lane comes with records of its own.
                let reserved = self.slots.reserve(landfill, slot);
                proof {
                    assert(landfill.grown_from(*old(landfill))) by {
                        assert forall|n: Seq<char>| #[trigger] landfill.present(n)
                            implies old(landfill).present(n) by {
                            assert(filled.present(n));
                        }
                        assert(old(landfill).claims().is_prefix_of(landfill.claims())) by {
                            assert forall|i: int|
                                0 <= i < old(landfill).claims().len()
                                    implies old(landfill).claims()[i] == landfill.claims()[i] by {
                                assert(filled.claims()[i] == old(landfill).claims()[i]);
                            }
                        }
                    }
                    assert(self.untouched_since(walked));
                    walked.lemma_untouched_keeps(*self);
                    walked.lemma_kept_records_pass(*self, on_occupied, state, k);
                    if reserved is Ok {
                        walked.slots.lemma_reserve_keeps(filled, self.slots, *landfill, slot as nat);
                    } else {
                        walked.slots.lemma_same_keeps(filled, self.slots, *landfill);
                    }
                    before.slots.lemma_kept_on(
                        *old(landfill),
                        walked.slots,
                        filled,
                        self.slots,
                        *landfill,
                    );
                    before.lemma_walk_goes_on(*old(landfill), walked, *self, state, k);
                    assert(self.untouched_since(before)) by {
                        assert forall|i: nat| (#[trigger] before.slots.slot(i))
                            is Some implies self.slots.slot(i) == before.slots.slot(i) by {
                            assert(walked.slots.slot(i) == before.slots.slot(i));
                        }
                    }
                }
                match reserved {
                    Ok(()) => {},
                    Err(e) => {
                        proof {
                            assert(self.record_at(state, k) is None) by {
                                if self.slots.slot(slot as nat) is Some {
                                    assert(walked.slots.arena().lane(
                                        crate::lanes::lane_nr(
                                            INIT_SIZE as nat,
                                            RandomAccess::<SIZE,
                                                INIT_SIZE>::slot_start(slot as nat),
                                        ) as int,
                                    ) is Some);
                                }
                            }
                            assert(self.passed(on_occupied, state, k));
                            assert(before.walked_from(*old(landfill), *self, state, k));
                            assert(before.array().kept_as(
                                *old(landfill),
                                self.array(),
                                *landfill,
                            ));
                            assert(self.slot_at(state, k) == slot);
                            assert(self.slots.arena().write_refused(
                                *landfill,
                                RandomAccess::<SIZE, INIT_SIZE>::slot_start(slot as nat),
                                SIZE as nat,
                                e,
                            ));
                            assert(before.placed_at(
                                *self,
                                *old(landfill),
                                *landfill,
                                on_occupied,
                                on_empty,
                                state,
                                Err(e),
                                k,
                            ));
                        }
                        return Err(e);
                    },
                }
                seen = match self.slots.get_at(slot) {
                    Some(value) => {
                        let verdict = on_occupied(&search, value);
                        proof {
                            assert(answers(
                                on_occupied,
                                self.pattern_at(state, k),
                                value@,
                                verdict,
                            ));
                        }
                        Some(verdict)
                    },
                    None => None,
                };
            }
            match seen {
                Some(SearchNext::Halt) => {
                    proof {
                        before.lemma_untouched_keeps(*self);
                        assert(self.passed(on_occupied, state, k));
                        assert(before.placed_at(
                            *self,
                            *old(landfill),
                            *landfill,
                            on_occupied,
                            on_empty,
                            state,
                            Ok(()),
                            k,
                        ));
                    }
                    return Ok(());
                },
                Some(SearchNext::Proceed) => {
                    proof {
                        before.slots.lemma_kept_slot(
                            *old(landfill),
                            self.slots,
                            *landfill,
                            slot as nat,
                        );
                    }
                },
                None => {
                    let ghost ready = *self;
                    let ghost asked = *landfill;
                    proof {
                        before.slots.lemma_kept_slot(
                            *old(landfill),
                            self.slots,
                            *landfill,
                            slot as nat,
                        );
                    }
                    let made = on_empty(&search);
                    let record: Vec<u8> = match made {
                        Ok(record) => record,
                        Err(e) => {
                            proof {
                                before.lemma_untouched_keeps(*self);
                                assert(self.passed(on_occupied, state, k));
                                assert(before.placed_at(
                            *self,
                            *old(landfill),
                            *landfill,
                            on_occupied,
                            on_empty,
                            state,
                            Err(e),
                            k,
                        ));
                            }
                            return Err(e);
                        },
                    };
                    proof {
                        assert(gives(on_empty, self.pattern_at(state, k), record@));
                    }
                    if record.len() != SIZE || is_all_zeroes(record.as_slice()) {
                        proof {
                            before.lemma_untouched_keeps(*self);
                            assert(self.passed(on_occupied, state, k));
                            assert(before.placed_at(
                            *self,
                            *old(landfill),
                            *landfill,
                            on_occupied,
                            on_empty,
                            state,
                            Err(FillError::BadRecord),
                            k,
                        ));
                        }
                        return Err(FillError::BadRecord);
                    }
                    let ghost stored = record@;
                    let store = |held: Vec<u8>| -> (out: (Vec<u8>, ()))
                        ensures
                            out.0@ == stored,
                        { (record, ()) };
                    let written = self.slots.with_mut_at(landfill, slot, store);
                    proof {
                        assert(written is Ok);
                        assert(self.slots.slot(slot as nat) == Some(stored));
                        assert(self.slots.record(slot as nat) == Some(stored));
                        assert(self.keeps(ready)) by {
                            assert forall|i: nat| (#[trigger] ready.slots.record(i))
                                is Some implies self.slots.record(i) == ready.slots.record(i) by {
                                assert(ready.slots.slot(i) is Some);
                            }
                        }
                        ready.lemma_kept_records_pass(*self, on_occupied, state, k);
                        assert(self.keeps(before)) by {
                            assert forall|i: nat| (#[trigger] before.slots.record(i))
                                is Some implies self.slots.record(i) == before.slots.record(
                                i,
                            ) by {
                                assert(ready.slots.slot(i) == before.slots.slot(i));
                                if i == slot {
                                    assert(ready.slots.record(i) is None);
                                }
                            }
                        }
                        assert(self.slots.same_slots_but(before.slots, slot as nat)) by {
                            assert forall|i: nat|
                                i != slot && (#[trigger] before.slots.slot(i))
                                    is Some implies self.slots.slot(i) == before.slots.slot(i) by {
                                assert(ready.slots.slot(i) == before.slots.slot(i));
                            }
                        }
                        assert(before.record_at(state, k) is None) by {
                            if before.slots.slot(slot as nat) is Some {
                                assert(ready.slots.slot(slot as nat) == before.slots.slot(
                                    slot as nat,
                                ));
                            }
                        }
                        assert(self.passed(on_occupied, state, k));
                        ready.slots.lemma_write_keeps(asked, self.slots, *landfill, slot as nat);
                        before.slots.lemma_kept_then_written(
                            *old(landfill),
                            ready.slots,
                            asked,
                            self.slots,
                            *landfill,
                            slot as nat,
                            stored,
                        );
                        before.lemma_walk_goes_on(*old(landfill), ready, *self, state, k);
                        assert(before.placed_at(
                            *self,
                            *old(landfill),
                            *landfill,
                            on_occupied,
                            on_empty,
                            state,
                            Ok(()),
                            k,
                        ));
                    }
                    return written;
                },
            }
            search.calculate_next();
            proof {
                k = k + 1;
            }
        }
        proof {
            lemma_probe_position(seeds, state, k);
            lemma_probes_left(seeds, state, k);
            before.lemma_untouched_keeps(*self);
            assert(k == n_probes());
            assert(self.passed(on_occupied, state, k));
            assert(before.placed_at(
                            *self,
                            *old(landfill),
                            *landfill,
                            on_occupied,
                            on_empty,
                            state,
                            Err(FillError::Exhausted),
                            k,
                        ));
        }
        Err(FillError::Exhausted)
    }

    /// Searches the map for entries and presents them to the consumer,
    /// that may chose to break the process here (for example,
    /// if the key was already present in a cache)
    ///
    /// If no candidate was acceptable to the consumer, it is presented with
    /// an empty slot to write
    pub fn insert<
        K: Hash,
        Occupied: Fn(&SearchPattern, &[u8]) -> SearchNext,
        Empty: FnOnce(&SearchPattern) -> Result<Vec<u8>, FillError>,
    >(
        &mut self,
        landfill: &mut Landfill,
        key: &K,
        on_occupied: Occupied,
        on_empty: Empty,
    ) -> (r: Result<(), FillError>)
        requires
            old(self).well_formed(),
            old(landfill).wf(),
            forall|pattern: &SearchPattern, record: &[u8]|
                record@.len() == SIZE ==> on_occupied.requires((pattern, record)),
            forall|pattern: &SearchPattern| on_empty.requires((pattern,)),
        ensures
            final(self).well_formed(),
            final(landfill).wf(),
            final(landfill).same_flags(*old(landfill)),
            final(landfill).grown_from(*old(landfill)),
            final(self).keeps(*old(self)),
            old(landfill).holds_no_file() && !old(self).array().arena().on_disk()
                ==> !final(self).array().arena().on_disk(),
            exists|state: u64|
                #[trigger] old(self).placed(
                    *final(self),
                    *old(landfill),
                    *final(landfill),
                    on_occupied,
                    on_empty,
                    state,
                    r,
                ),
    {
        let state: u64 = self.entropy.checksum(key);
        self.insert_hashed(landfill, state, on_occupied, on_empty)
    }

    /// Round trip: what an insertion has written is met by every later
    /// search from the same hash.
    ///
    /// Let an insertion from `state` have ended at step `k` with a record in
    /// the slot of that step, and let `later` be the map at any later time,
    /// so that it keeps the records of `self`. Then a search of `later`
    /// from `state` is shown that record, unless it is content with an
    /// earlier one: if `on_occupied` never proceeds on the record, the search
    /// comes back with a record.
    pub proof fn lemma_inserted_is_found<Occupied: Fn(&SearchPattern, &[u8]) -> SearchNext>(
        &self,
        later: Self,
        on_occupied: Occupied,
        state: u64,
        k: nat,
        outcome: Option<Seq<u8>>,
    )
        requires
            k < n_probes(),
            self.occupied_until(state, k + 1),
            later.keeps(*self),
            later.found(on_occupied, state, outcome),
            !answers(
                on_occupied,
                later.pattern_at(state, k),
                self.record_at(state, k).unwrap(),
                SearchNext::Proceed,
            ),
        ensures
            later.occupied_until(state, k + 1),
            later.record_at(state, k) == self.record_at(state, k),
            outcome is Some,
    {
        assert forall|j: nat| j < k + 1 implies (#[trigger] later.record_at(state, j))
            is Some && later.record_at(state, j) == self.record_at(state, j) by {
            assert(self.record_at(state, j) is Some);
            assert(self.array().record(self.slot_at(state, j)) is Some);
        }
        let ended = choose|ended: nat|
            {
                &&& ended <= n_probes()
                &&& #[trigger] later.passed(on_occupied, state, ended)
                &&& match outcome {
                    Some(record) => ended < n_probes() && later.record_at(state, ended) == Some(
                        record,
                    ) && answers(
                        on_occupied,
                        later.pattern_at(state, ended),
                        record,
                        SearchNext::Halt,
                    ),
                    None => ended == n_probes() || later.record_at(state, ended) is None,
                }
            };
        if outcome is None {
            if ended <= k {
                assert(later.record_at(state, ended) is Some);
            } else {
                assert(later.record_at(state, k) is Some);
            }
        }
    }

    /// Negative lookups: a search does not look beyond the first empty
    /// slot of its walk.
    ///
    /// Where step `k` of the walk from `state` is the first to find an empty
    /// slot, a search from `state` ends at a step no later than `k`: with
    /// the record of an earlier step on which `on_occupied` called a halt,
    /// or with nothing at step `k` itself.
    pub proof fn lemma_search_ends_at_gap<Occupied: Fn(&SearchPattern, &[u8]) -> SearchNext>(
        &self,
        on_occupied: Occupied,
        state: u64,
        k: nat,
        outcome: Option<Seq<u8>>,
    )
        requires
            k < n_probes(),
            self.record_at(state, k) is None,
            self.found(on_occupied, state, outcome),
        ensures
            exists|ended: nat|
                {
                    &&& ended <= k
                    &&& #[trigger] self.passed(on_occupied, state, ended)
                    &&& match outcome {
                        Some(record) => ended < k && self.record_at(state, ended) == Some(record)
                            && answers(
                            on_occupied,
                            self.pattern_at(state, ended),
                            record,
                            SearchNext::Halt,
                        ),
                        None => self.record_at(state, ended) is None,
                    }
                },
    {
        let ended = choose|ended: nat|
            {
                &&& ended <= n_probes()
                &&& #[trigger] self.passed(on_occupied, state, ended)
                &&& match outcome {
                    Some(record) => ended < n_probes() && self.record_at(state, ended) == Some(
                        record,
                    ) && answers(
                        on_occupied,
                        self.pattern_at(state, ended),
                        record,
                        SearchNext::Halt,
                    ),
                    None => ended == n_probes() || self.record_at(state, ended) is None,
                }
            };
        if ended > k {
            assert(self.record_at(state, k) is Some);
        }
        assert(self.passed(on_occupied, state, ended));
    }

    /// Search the map and call the provided closure with the results
    pub fn get<K: Hash, Occupied: Fn(&SearchPattern, &[u8]) -> SearchNext>(
        &self,
        key: &K,
        on_occupied: Occupied,
    ) -> (r: Option<&[u8]>)
        requires
            self.well_formed(),
            forall|pattern: &SearchPattern, record: &[u8]|
                record@.len() == SIZE ==> on_occupied.requires((pattern, record)),
        ensures
            exists|state: u64| #[trigger] self.found(on_occupied, state, bytes_of(r)),
            r matches Some(record) ==> record@.len() == SIZE,
    {
        let state: u64 = self.entropy.checksum(key);
        self.get_hashed(state, on_occupied)
    }

    /// The seeds of the map.
    pub fn entropy(&self) -> (r: &Entropy)
        ensures
            *r == self.source(),
    {
        &self.entropy
    }

    /// Closes the map: the file of every mapped lane of its slots goes back
    /// to the landfill with the bytes that the lane holds. The file of its
    /// seeds has been with the landfill all along.
    pub fn close(self, landfill: &mut Landfill)
        requires
            self.well_formed(),
            old(landfill).wf(),
        ensures
            final(landfill).wf(),
            final(landfill).same_flags(*old(landfill)),
            final(landfill).same_claims(*old(landfill)),
            forall|i: int|
                0 <= i < crate::lanes::N_LANES ==> (
                #[trigger] self.array().arena().lane(i) matches Some(bytes) ==> {
                    &&& final(landfill).present(self.array().arena().lane_file(i as nat))
                    &&& final(landfill).contents(self.array().arena().lane_file(i as nat))
                        == bytes
                }),
            forall|n: Seq<char>|
                !self.array().arena().is_lane_file(n) ==> {
                    &&& #[trigger] final(landfill).present(n) == old(landfill).present(n)
                    &&& final(landfill).present(n) ==> final(landfill).contents(n)
                        == old(landfill).contents(n) && final(landfill).fresh(n)
                        == old(landfill).fresh(n)
                },
    {
        self.slots.close(landfill)
    }

    /// Looks at the lane files that wait for a map below `scope` before
    /// the map is opened over them: each has to have the length of its
    /// lane. One that has not is to be set to that length, which the
    /// error asks for.
    pub fn vet(landfill: &Landfill, scope: &GuardedLandfill) -> (r: Result<(), FillError>)
        requires
            landfill.wf(),
        ensures
            match r {
                Ok(()) => valid_init(INIT_SIZE as nat) && forall|lane: nat|
                    !#[trigger] misfit(
                        INIT_SIZE as nat,
                        *landfill,
                        slot_lane_file(scope@, lane),
                        lane,
                    ),
                Err(e) => (e is SizeMismatch || e is BadLaneSize) && Self::refused(
                    e,
                    *landfill,
                    scope@,
                ),
            },
    {
        let slots = scope.branch("slots");
        let r = RandomAccess::<SIZE, INIT_SIZE>::vet(landfill, &slots);
        proof {
            if r is Ok {
                assert forall|lane: nat|
                    !#[trigger] misfit(
                        INIT_SIZE as nat,
                        *landfill,
                        slot_lane_file(scope@, lane),
                        lane,
                    ) by {
                    assert(!misfit(
                        INIT_SIZE as nat,
                        *landfill,
                        array_lane_file(slots@, lane),
                        lane,
                    ));
                }
            }
        }
        r
    }

    /// A map is refused for the length of a file only where a lane file
    /// that waits for it unclaimed has another length than its lane.
    pub proof fn lemma_size_refusal(e: FillError, was: Landfill, scope: Seq<char>)
        requires
            Self::refused(e, was, scope),
            e is SizeMismatch,
        ensures
            exists|lane: nat| #[trigger]
                misfit(INIT_SIZE as nat, was, slot_lane_file(scope, lane), lane),
    {
        let seeds = joined(scope, "entropy"@);
        let slots = joined(scope, "slots"@);
        if RandomAccess::<SIZE, INIT_SIZE>::refused(e, was, slots) {
            let lane = choose|lane: nat| #[trigger]
                misfit(INIT_SIZE as nat, was, array_lane_file(slots, lane), lane);
            assert(misfit(INIT_SIZE as nat, was, slot_lane_file(scope, lane), lane));
        } else {
            let (claimed, entropy, seeded) = choose|
                claimed: Landfill,
                entropy: Entropy,
                seeded: Landfill,
            |
                {
                    &&& was.claimed_for(claimed, seeds)
                    &&& #[trigger] entropy.opened(claimed, seeded, seeds)
                    &&& !(e is Unmapped)
                    &&& {
                        ||| e is Duplicate && seeded.reserved(slots)
                        ||| exists|reclaimed: Landfill|
                            seeded.claimed_for(reclaimed, slots) && #[trigger] RandomAccess::<
                                SIZE,
                                INIT_SIZE,
                            >::refused(e, reclaimed, slots)
                    }
                };
            let reclaimed = choose|reclaimed: Landfill|
                seeded.claimed_for(reclaimed, slots) && #[trigger] RandomAccess::<
                    SIZE,
                    INIT_SIZE,
                >::refused(e, reclaimed, slots);
            let lane = choose|lane: nat| #[trigger]
                misfit(INIT_SIZE as nat, reclaimed, array_lane_file(slots, lane), lane);
            let file = slot_lane_file(scope, lane);
            reveal_strlit("entropy");
            reveal_strlit("slots");
            reveal_strlit("array");
            lemma_joined_assoc(slots, "array"@, lane_name(lane));
            lemma_apart(scope, "entropy"@, "slots"@, joined("array"@, lane_name(lane)));
            assert(file != seeds);
            reclaimed.lemma_claims_with(seeded, slots);
            claimed.lemma_claims_with(was, seeds);
            assert(reclaimed.present(file) == seeded.present(file));
            assert(seeded.present(file) == claimed.present(file));
            assert(claimed.present(file) == was.present(file));
            assert(misfit(INIT_SIZE as nat, was, file, lane));
        }
    }

    /// Flush the map to disk.
    ///
    /// A map whose slots have no lane on disk has nothing to flush and
    /// succeeds. Else the flush fails with what the operating system says
    /// of the first lane that it cannot flush.
    pub fn flush(&self) -> (r: Result<(), FillError>)
        requires
            self.well_formed(),
        ensures
            r matches Err(e) ==> e is Io && self.array().arena().on_disk(),
    {
        self.slots.flush()
    }
}

impl<const SIZE: usize, const INIT_SIZE: u64> Substructure for SmashMap<SIZE, INIT_SIZE> {
    open spec fn wf(&self) -> bool {
        self.well_formed()
    }

    /// Some lane of the slots has a file behind it.
    open spec fn file_backed(&self) -> bool {
        self.array().arena().on_disk()
    }

    /// The seeds are those of the entropy that is opened under the name
    /// `entropy` below `scope`, the records those of the array that is
    /// opened under the name `slots` after it.
    open spec fn opened(&self, was: Landfill, now: Landfill, scope: Seq<char>) -> bool {
        exists|claimed: Landfill, seeded: Landfill, reclaimed: Landfill|
            {
                &&& was.claimed_for(claimed, joined(scope, "entropy"@))
                &&& #[trigger] self.source().opened(claimed, seeded, joined(scope, "entropy"@))
                &&& seeded.claimed_for(reclaimed, joined(scope, "slots"@))
                &&& #[trigger] self.array().opened(reclaimed, now, joined(scope, "slots"@))
            }
    }

    /// A map cannot be opened over lane files of the wrong length, nor
    /// where the name of its entropy or of its slots is claimed, nor where
    /// its entropy cannot be opened, nor where, with the entropy opened, its
    /// slots cannot be.
    open spec fn refused(e: FillError, was: Landfill, scope: Seq<char>) -> bool {
        let seeds = joined(scope, "entropy"@);
        let slots = joined(scope, "slots"@);
        ||| ((e is SizeMismatch || e is BadLaneSize) && RandomAccess::<SIZE, INIT_SIZE>::refused(
            e,
            was,
            slots,
        ))
        ||| e is Duplicate && was.reserved(seeds)
        ||| exists|claimed: Landfill|
            was.claimed_for(claimed, seeds) && #[trigger] Entropy::refused(e, claimed, seeds)
        ||| exists|claimed: Landfill, entropy: Entropy, seeded: Landfill|
            {
                &&& was.claimed_for(claimed, seeds)
                &&& #[trigger] entropy.opened(claimed, seeded, seeds)
                &&& !(e is Unmapped)
                &&& {
                    ||| e is Duplicate && seeded.reserved(slots)
                    ||| exists|reclaimed: Landfill|
                        seeded.claimed_for(reclaimed, slots) && #[trigger] RandomAccess::<
                            SIZE,
                            INIT_SIZE,
                        >::refused(e, reclaimed, slots)
                }
            }
    }

    /// Opens the map below `scope`: its entropy first, then its slots. The
    /// lengths of the lane files are looked at before anything is opened.
    fn init(landfill: &mut Landfill, scope: GuardedLandfill) -> (r: Result<Self, FillError>)
    {
        let ghost was = *landfill;
        let ghost prefix = scope@;
        proof {
            was.lemma_grows(*landfill);
            was.lemma_same_files_untouched(*landfill, prefix);
        }
        match Self::vet(landfill, &scope) {
            Ok(()) => {},
            Err(e) => {
                return Err(e);
            },
        }
        let seeding = landfill.substructure_in::<Entropy>(&scope, "entropy");
        proof {
            crate::landfill::lemma_below_joined(prefix, "entropy"@);
            was.lemma_untouched_widens(*landfill, joined(prefix, "entropy"@), prefix);
        }
        let entropy: Entropy = match seeding {
            Ok(entropy) => entropy,
            Err(e) => {
                return Err(e);
            },
        };
        let ghost seeded = *landfill;
        let ghost claimed = choose|claimed: Landfill|
            was.claimed_for(claimed, joined(prefix, "entropy"@)) && #[trigger] entropy.opened(
                claimed,
                seeded,
                joined(prefix, "entropy"@),
            );
        let array = landfill.substructure_in::<RandomAccess<SIZE, INIT_SIZE>>(&scope, "slots");
        proof {
            crate::landfill::lemma_below_joined(prefix, "slots"@);
            seeded.lemma_untouched_widens(*landfill, joined(prefix, "slots"@), prefix);
            was.lemma_untouched_twice(seeded, *landfill, prefix);
        }
        match array {
            Ok(slots) => {
                let map = SmashMap { slots, entropy };
                proof {
                    let reclaimed = choose|reclaimed: Landfill|
                        seeded.claimed_for(reclaimed, joined(prefix, "slots"@))
                            && #[trigger] slots.opened(
                            reclaimed,
                            *landfill,
                            joined(prefix, "slots"@),
                        );
                    assert(was.claims().is_prefix_of(landfill.claims())) by {
                        assert forall|i: int| 0 <= i < was.claims().len() implies was.claims()[i]
                            == landfill.claims()[i] by {
                            assert(seeded.claims()[i] == was.claims()[i]);
                        }
                    }
                    assert forall|n: Seq<char>| #[trigger] landfill.present(n) implies was.present(
                        n,
                    ) by {
                        assert(seeded.present(n));
                    }
                    assert(map.source().opened(claimed, seeded, joined(prefix, "entropy"@))
                        && map.array().opened(reclaimed, *landfill, joined(prefix, "slots"@)));
                }
                Ok(map)
            },
            Err(e) => {
                proof {
                    let name = joined(prefix, "slots"@);
                    if !seeded.reserved(name) {
                        let reclaimed = choose|reclaimed: Landfill|
                            seeded.claimed_for(reclaimed, name) && #[trigger] RandomAccess::<
                                SIZE,
                                INIT_SIZE,
                            >::refused(e, reclaimed, name);
                        assert(!(e is Unmapped));
                    }
                    assert(entropy.opened(claimed, seeded, joined(prefix, "entropy"@)));
                    assert(Self::refused(e, was, prefix));
                    if e is SizeMismatch {
                        Self::lemma_size_refusal(e, was, prefix);
                    }
                    assert(was.claims().is_prefix_of(landfill.claims())) by {
                        assert forall|i: int| 0 <= i < was.claims().len() implies was.claims()[i]
                            == landfill.claims()[i] by {
                            assert(seeded.claims()[i] == was.claims()[i]);
                        }
                    }
                    assert forall|n: Seq<char>| #[trigger] landfill.present(n) implies was.present(
                        n,
                    ) by {
                        assert(seeded.present(n));
                    }
                }
                Err(e)
            },
        }
    }

    /// Flush the map to disk; a map whose slots have no lane on disk has
    /// nothing to flush and succeeds.
    fn flush(&self) -> (r: Result<(), FillError>) {
        SmashMap::flush(self)
    }
}

/// Name of the file of lane `lane` of the slots of a map that stands below
/// `scope`.
pub open spec fn slot_lane_file(scope: Seq<char>, lane: nat) -> Seq<char> {
    array_lane_file(joined(scope, "slots"@), lane)
}

/// A step in a band that a search may reach is not the last.
pub proof fn lemma_probes_left(seeds: StaticHeader, state: u64, k: nat)
    ensures
        probe_at(seeds, state, k).band < MAX_BANDS <==> k < n_probes(),
{
    lemma_probe_position(seeds, state, k);
    let band = probe_at(seeds, state, k).band;
    lemma2_to64();
    if band < MAX_BANDS {
        lemma_pow2_unfold(band + 1);
        if band + 1 < MAX_BANDS {
            lemma_pow2_strictly_increases(band + 1, MAX_BANDS as nat);
        }
    } else if band > MAX_BANDS {
        lemma_pow2_strictly_increases(MAX_BANDS as nat, band);
    }
}

} // verus!
