//! A map structure where each key can be set only once.

use vstd::prelude::*;
use crate::appendonly::{journal_file, log_lane_file, AppendOnly};
use crate::lanes::{is_first_space, N_LANES};
use crate::entropy::keyed_bytes_hash;
use crate::errors::FillError;
use crate::helpers::{all_zero, same_bytes, ByteOrder};
use crate::randomaccess::RandomAccess;
use crate::index::{lemma_slot_round_trip, slot_bytes, slot_from, TreeSlot, SLOT_SIZE};
use crate::landfill::{GuardedLandfill, Landfill, Substructure};
use crate::store::{open_parts, parts_opened, parts_refused};
use crate::smash::{
    answers, bytes_of, gives, n_probes, probe_at, SearchNext, SearchPattern, SmashMap,
};

verus! {

/// A map structure where each key can be set only once
///
/// Keys of `KEY` bytes and values of `VALUE` bytes lie in an append-only
/// log. An index holds for each key where it lies, how far behind it its
/// value begins, and the lower half of the hash under which it was found.
pub struct OnceMap<const KEY: usize, const VALUE: usize> {
    data: AppendOnly<4096>,
    index: SmashMap<16, 4096>,
    order: ByteOrder,
}

impl<const KEY: usize, const VALUE: usize> OnceMap<KEY, VALUE> {
    /// The log that holds keys and values.
    pub closed spec fn log(&self) -> AppendOnly<4096> {
        self.data
    }

    /// The index.
    pub closed spec fn map(&self) -> SmashMap<16, 4096> {
        self.index
    }

    /// The byte order of the entries of the index.
    pub closed spec fn byte_order(&self) -> ByteOrder {
        self.order
    }

    /// The invariant of the map.
    pub open spec fn well_formed(&self) -> bool {
        &&& self.log().well_formed()
        &&& self.map().well_formed()
        &&& 0 < KEY <= u32::MAX
        &&& 0 < VALUE <= u32::MAX
    }

    /// The entry `record` of the index, found under the hash `state`, is
    /// one of the key `key`: it bears the lower half of the hash, and the
    /// log holds the key where the entry says.
    pub open spec fn is_entry_of(&self, state: u64, record: Seq<u8>, key: Seq<u8>) -> bool {
        let entry = slot_from(self.byte_order(), record);
        &&& entry.discriminant == state % 0x1_0000_0000
        &&& self.log().record(entry.ofs as nat, KEY as nat) == Some(key)
    }

    /// The value that the entry `record` of the index points to.
    pub open spec fn entry_value(&self, record: Seq<u8>) -> Option<Seq<u8>> {
        let entry = slot_from(self.byte_order(), record);
        self.log().record((entry.ofs + entry.len) as nat, VALUE as nat)
    }

    /// Step `k` of the search from `state` finds an entry of `key`.
    pub open spec fn hit(&self, state: u64, key: Seq<u8>, k: nat) -> bool {
        self.map().record_at(state, k) matches Some(record) && self.is_entry_of(
            probe_at(self.map().source().seeds(), state, k).state,
            record,
            key,
        )
    }

    /// The first `k` steps of the search from `state` find entries, none
    /// of them one of `key`.
    pub open spec fn missed(&self, state: u64, key: Seq<u8>, k: nat) -> bool {
        forall|j: nat|
            j < k ==> (#[trigger] self.map().record_at(state, j)) is Some && !self.hit(
                state,
                key,
                j,
            )
    }

    /// Step `k` is the first of the search from `state` that finds an entry
    /// of `key`, and no step before it finds an empty slot.
    pub open spec fn located(&self, state: u64, key: Seq<u8>, k: nat) -> bool {
        k < n_probes() && self.missed(state, key, k) && self.hit(state, key, k)
    }

    /// The search from `state` ends at step `k` without an entry of `key`:
    /// at an empty slot, or out of bands.
    pub open spec fn absent(&self, state: u64, key: Seq<u8>, k: nat) -> bool {
        &&& k <= n_probes()
        &&& self.missed(state, key, k)
        &&& k == n_probes() || self.map().record_at(state, k) is None
    }

    /// The map `later` is a later state of this map: it keeps the entries
    /// of the index and reads the log as this map does up to the writehead
    /// of this map.
    pub open spec fn extended_by(&self, later: Self) -> bool {
        &&& later.byte_order() == self.byte_order()
        &&& later.map().keeps(self.map())
        &&& later.log().writehead() >= self.log().writehead()
        &&& forall|at: nat, len: nat|
            at + len <= self.log().writehead() && (#[trigger] self.log().record(at, len))
                is Some ==> later.log().record(at, len) == self.log().record(at, len)
    }

    /// The entry `record` points to a key that the log holds below its
    /// writehead.
    pub open spec fn grounded(&self, record: Seq<u8>) -> bool {
        let entry = slot_from(self.byte_order(), record);
        &&& entry.ofs + KEY <= self.log().writehead()
        &&& self.log().record(entry.ofs as nat, KEY as nat) is Some
    }

    /// Round trip: where a key is located, a lookup gives the value that
    /// its entry points to, whatever step the lookup is said to end at.
    pub proof fn lemma_located_is_got(
        &self,
        state: u64,
        key: Seq<u8>,
        k: nat,
        ended: nat,
        outcome: Option<Seq<u8>>,
    )
        requires
            self.located(state, key, k),
            self.looked_up(state, key, ended, outcome),
        ensures
            ended == k,
            outcome == self.entry_value(self.map().record_at(state, k).unwrap()),
    {
        if ended < k {
            assert(self.map().record_at(state, ended) is Some);
        } else if ended > k {
            assert(self.map().record_at(state, k) is Some);
        }
    }

    /// Round trip: once a key has been set, a lookup gives the value that
    /// its entry points to.
    pub proof fn lemma_set_is_got(
        &self,
        now: Self,
        state: u64,
        key: Seq<u8>,
        value: Seq<u8>,
        k: nat,
        ended: nat,
        outcome: Option<Seq<u8>>,
    )
        requires
            self.set_at(now, state, key, value, k),
            now.looked_up(state, key, ended, outcome),
        ensures
            outcome == now.entry_value(now.map().record_at(state, k).unwrap()),
    {
        now.lemma_located_is_got(state, key, k, ended, outcome);
    }

    /// Set once, set for good: where a key is located, it stays located in
    /// every later state of the map, provided that the entries which the
    /// search walks over point to keys that the log holds.
    pub proof fn lemma_set_once(&self, later: Self, state: u64, key: Seq<u8>, k: nat)
        requires
            self.located(state, key, k),
            self.extended_by(later),
            forall|j: nat|
                j <= k ==> self.grounded((#[trigger] self.map().record_at(state, j)).unwrap()),
        ensures
            later.located(state, key, k),
            later.map().record_at(state, k) == self.map().record_at(state, k),
    {
        assert forall|j: nat| j <= k implies (#[trigger] later.map().record_at(state, j))
            == self.map().record_at(state, j) && later.hit(state, key, j) == self.hit(
            state,
            key,
            j,
        ) by {
            assert(self.map().record_at(state, j) is Some);
            assert(self.map().array().record(self.map().slot_at(state, j)) is Some);
            let record = self.map().record_at(state, j).unwrap();
            assert(self.grounded(record));
            let entry = slot_from(self.byte_order(), record);
            assert(self.log().record(entry.ofs as nat, KEY as nat) is Some);
        }
    }

    /// A lookup of `key` from `state` that ends at step `k` gives `value`:
    /// what the entry of the key points to, where the key is located at
    /// that step and the log holds its value; nothing, where the log does
    /// not, or where the key is absent.
    pub open spec fn looked_up(
        &self,
        state: u64,
        key: Seq<u8>,
        k: nat,
        value: Option<Seq<u8>>,
    ) -> bool {
        if self.located(state, key, k) {
            value == self.entry_value(self.map().record_at(state, k).unwrap())
        } else {
            self.absent(state, key, k) && value is None
        }
    }

    /// Gets the value corresponding to the key, found under the hash
    /// `state`
    pub fn get_hashed(&self, state: u64, key: &[u8]) -> (r: Option<&[u8]>)
        requires
            self.well_formed(),
        ensures
            exists|k: nat| #[trigger] self.looked_up(state, key@, k, bytes_of(r)),
    {
        match self.find(state, key) {
            Some(entry) => {
                let ghost k = choose|k: nat|
                    #[trigger] self.located(state, key@, k) && entry == slot_from(
                        self.byte_order(),
                        self.map().record_at(state, k).unwrap(),
                    );
                match entry.ofs.checked_add(entry.len as u64) {
                    Some(v_ofs) => {
                        let value = self.data.read(v_ofs, VALUE as u32);
                        proof {
                            assert(self.looked_up(state, key@, k, bytes_of(value)));
                        }
                        value
                    },
                    None => {
                        proof {
                            self.data.lemma_nothing_beyond(
                                (entry.ofs + entry.len) as nat,
                                VALUE as nat,
                            );
                            assert(self.looked_up(state, key@, k, None));
                        }
                        None
                    },
                }
            },
            None => {
                proof {
                    let k = choose|k: nat| #[trigger] self.absent(state, key@, k);
                    assert(self.looked_up(state, key@, k, None));
                }
                None
            },
        }
    }

    /// What setting `key` to `value` from the hash `state` makes of the map,
    /// where it succeeds with the key located at step `k`: the key was
    /// located there before, and nothing has changed; or the slot of the
    /// step was empty and holds a new entry now, which points to the value;
    /// or an entry that the search met on its way has come to match.
    pub open spec fn set_at(
        &self,
        now: Self,
        state: u64,
        key: Seq<u8>,
        value: Seq<u8>,
        k: nat,
    ) -> bool {
        &&& now.located(state, key, k)
        &&& {
            ||| (self.located(state, key, k) && now.map().untouched_since(self.map())
                && now.log().writehead() == self.log().writehead())
            ||| (self.map().record_at(state, k) is None && now.map().array().same_slots_but(
                self.map().array(),
                now.map().slot_at(state, k),
            ) && now.entry_value(now.map().record_at(state, k).unwrap()) == Some(value))
            ||| (!self.located(state, key, k) && now.map().untouched_since(self.map()))
        }
    }

    /// A search for `key` from `state` may end without an entry of the
    /// key.
    pub open spec fn unset(&self, state: u64, key: Seq<u8>) -> bool {
        exists|k: nat| #[trigger] self.absent(state, key, k)
    }

    /// The entry that step `k` of the search from `state` writes for a key
    /// at `k_ofs` whose value begins `gap` bytes behind it.
    pub open spec fn entry_for(&self, state: u64, k: nat, k_ofs: u64, gap: u32) -> Seq<u8> {
        slot_bytes(
            self.byte_order(),
            TreeSlot {
                ofs: k_ofs,
                len: gap,
                discriminant: (probe_at(self.map().source().seeds(), state, k).state
                    % 0x1_0000_0000) as u32,
            },
        )
    }

    /// Why the index of this map takes no entry for `key`, with the error
    /// `e`, at step `k` of the search from `state`: the steps before found
    /// entries of other keys, and the search is out of bands; or the step
    /// finds an empty slot, and the lane of the slot cannot be written to,
    /// or the entry would be all zero, which is how an empty slot reads.
    pub open spec fn index_refused(
        &self,
        after: Landfill,
        state: u64,
        key: Seq<u8>,
        k_ofs: u64,
        gap: u32,
        e: FillError,
        k: nat,
    ) -> bool {
        &&& k <= n_probes()
        &&& self.missed(state, key, k)
        &&& {
            ||| (k == n_probes() && e is Exhausted)
            ||| (k < n_probes() && self.map().record_at(state, k) is None && {
                ||| self.map().array().arena().write_refused(
                    after,
                    RandomAccess::<16, 4096>::slot_start(self.map().slot_at(state, k)),
                    SLOT_SIZE as nat,
                    e,
                )
                ||| (e is BadRecord && all_zero(self.entry_for(state, k, k_ofs, gap)))
            })
        }
    }

    /// The log held the key, as `keyed` over the landfill `mid`, and then
    /// refused the value with the error `e`: `self` is the map and `was`
    /// the landfill before, `now` the map and `after` the landfill
    /// afterwards.
    pub open spec fn value_refused(
        &self,
        now: Self,
        was: Landfill,
        after: Landfill,
        key: Seq<u8>,
        e: FillError,
        keyed: AppendOnly<4096>,
        mid: Landfill,
    ) -> bool {
        let k_ofs = keyed.writehead() - KEY;
        &&& k_ofs >= 0
        &&& is_first_space(4096, self.log().writehead() as nat, KEY as nat, 1, k_ofs as nat)
        &&& keyed.record(k_ofs as nat, KEY as nat) == Some(key)
        &&& mid.grown_from(was)
        &&& now.log().writehead() == keyed.writehead()
        &&& keyed.write_refused(mid, after, VALUE as nat, 1, e)
    }

    /// The log holds the key at `k_ofs` and the value at `v_ofs`, each at
    /// the first place where it fits, and the entry that points to them is
    /// refused with the error `e`: the value lies further behind the key
    /// than an entry can say, or the index refuses the entry.
    pub open spec fn entry_refused(
        &self,
        now: Self,
        after: Landfill,
        state: u64,
        key: Seq<u8>,
        value: Seq<u8>,
        e: FillError,
        k_ofs: nat,
        v_ofs: nat,
    ) -> bool {
        &&& is_first_space(4096, self.log().writehead() as nat, KEY as nat, 1, k_ofs)
        &&& is_first_space(4096, (k_ofs + KEY) as nat, VALUE as nat, 1, v_ofs)
        &&& now.log().writehead() == v_ofs + VALUE
        &&& now.log().record(k_ofs, KEY as nat) == Some(key)
        &&& now.log().record(v_ofs, VALUE as nat) == Some(value)
        &&& if v_ofs - k_ofs > u32::MAX {
            e is OutOfSpace
        } else {
            exists|k: nat| #[trigger]
                now.index_refused(
                    after,
                    state,
                    key,
                    k_ofs as u64,
                    (v_ofs - k_ofs) as u32,
                    e,
                    k,
                )
        }
    }

    /// Why setting `key` to `value` from the hash `state` fails with the
    /// error `e`: `self` is the map and `was` the landfill before, `now`
    /// the map and `after` the landfill afterwards.
    ///
    /// A key or a value of the wrong length is a bad record, and nothing
    /// has changed. Else a search for the key may end without its entry,
    /// and the log refuses the key; or it holds the key and refuses the
    /// value; or it holds both and the entry that points to them is
    /// refused.
    pub open spec fn set_refused(
        &self,
        now: Self,
        was: Landfill,
        after: Landfill,
        state: u64,
        key: Seq<u8>,
        value: Seq<u8>,
        e: FillError,
    ) -> bool {
        if key.len() != KEY || value.len() != VALUE {
            e is BadRecord && now.log().writehead() == self.log().writehead()
                && after.unchanged_from(was)
        } else {
            &&& self.unset(state, key)
            &&& {
                ||| (now.log().writehead() == self.log().writehead() && self.log().write_refused(
                    was,
                    after,
                    KEY as nat,
                    1,
                    e,
                ))
                ||| (exists|keyed: AppendOnly<4096>, mid: Landfill| #[trigger]
                    self.value_refused(now, was, after, key, e, keyed, mid))
                ||| (exists|k_ofs: nat, v_ofs: nat| #[trigger]
                    self.entry_refused(now, after, state, key, value, e, k_ofs, v_ofs))
            }
        }
    }

    /// Insert a key-value pair into the map, found under the hash `state`
    ///
    /// A key that is set stays as it is. A key that is not has its bytes
    /// and those of the value appended to the log, and an entry that points
    /// to them written to the first empty slot of the search. An error
    /// says why that was not so, and leaves every entry of the index as it
    /// was.
    pub fn insert_hashed(
        &mut self,
        landfill: &mut Landfill,
        state: u64,
        key: &[u8],
        value: &[u8],
    ) -> (r:
        Result<(), FillError>)
        requires
            old(self).well_formed(),
            old(landfill).wf(),
        ensures
            final(self).well_formed(),
            final(landfill).wf(),
            final(landfill).grown_from(*old(landfill)),
            old(self).extended_by(*final(self)),
            old(landfill).holds_no_file() && !old(self).on_disk() ==> !final(self).on_disk(),
            key@.len() != KEY || value@.len() != VALUE ==> r matches Err(FillError::BadRecord),
            match r {
                Ok(()) => exists|k: nat| #[trigger]
                    old(self).set_at(*final(self), state, key@, value@, k),
                Err(e) => final(self).map().untouched_since(old(self).map())
                    && old(self).set_refused(
                    *final(self),
                    *old(landfill),
                    *final(landfill),
                    state,
                    key@,
                    value@,
                    e,
                ),
            },
    {
        let ghost before = *self;
        proof {
            before.index.lemma_untouched_keeps(before.index);
            landfill.lemma_grows(*landfill);
        }
        if key.len() != KEY || value.len() != VALUE {
            return Err(FillError::BadRecord);
        }
        if self.find(state, key).is_some() {
            // we already have this key set
            proof {
                let k = choose|k: nat| #[trigger] self.located(state, key@, k);
                assert(before.set_at(*self, state, key@, value@, k));
            }
            return Ok(());
        }
        assert(before.unset(state, key@));
        let ghost was = *landfill;
        let order = self.order;
        let k_ofs: u64 = match self.data.write_aligned(landfill, key, 1) {
            Ok(offset) => offset,
            Err(e) => {
                return Err(e);
            },
        };
        let ghost keyed = *self;
        let ghost mid = *landfill;
        let v_ofs: u64 = match self.data.write_aligned(landfill, value, 1) {
            Ok(offset) => offset,
            Err(e) => {
                proof {
                    assert(before.value_refused(*self, was, *landfill, key@, e, keyed.data, mid));
                }
                return Err(e);
            },
        };
        if v_ofs - k_ofs > u32::MAX as u64 {
            proof {
                assert(self.data.record(k_ofs as nat, KEY as nat) == Some(key@));
                assert(before.entry_refused(
                    *self,
                    *landfill,
                    state,
                    key@,
                    value@,
                    FillError::OutOfSpace,
                    k_ofs as nat,
                    v_ofs as nat,
                ));
            }
            return Err(FillError::OutOfSpace);
        }
        let v_ofs_relative: u32 = (v_ofs - k_ofs) as u32;
        let ghost written = *self;
        proof {
            assert(written.data.record(k_ofs as nat, KEY as nat) == Some(key@));
            assert(written.data.record(v_ofs as nat, VALUE as nat) == Some(value@));
        }
        let data = &self.data;
        let matching = |search: &SearchPattern, record: &[u8]| -> (verdict: SearchNext)
            requires
                record@.len() == SLOT_SIZE,
            ensures
                verdict == (if written.is_entry_of(search@.state, record@, key@) {
                    SearchNext::Halt
                } else {
                    SearchNext::Proceed
                }),
            {
                let entry = TreeSlot::from_bytes(order, record);
                if search.tag_u32() == entry.discriminant {
                    match data.read(entry.ofs, KEY as u32) {
                        Some(stored) => {
                            if same_bytes(stored, key) {
                                SearchNext::Halt
                            } else {
                                SearchNext::Proceed
                            }
                        },
                        None => SearchNext::Proceed,
                    }
                } else {
                    SearchNext::Proceed
                }
            };
        let pointing = |search: &SearchPattern| -> (made: Result<Vec<u8>, FillError>)
            ensures
                made matches Ok(bytes) && bytes@ == slot_bytes(
                    order,
                    TreeSlot {
                        ofs: k_ofs,
                        len: v_ofs_relative,
                        discriminant: (search@.state % 0x1_0000_0000) as u32,
                    },
                ),
            { Ok(TreeSlot::new(k_ofs, v_ofs_relative, search.tag_u32()).to_bytes(order)) };
        let ghost logged = *landfill;
        let placed = self.index.insert_hashed(landfill, state, matching, pointing);
        proof {
            let now = *self;
            assert(before.extended_by(now)) by {
                assert forall|at: nat, len: nat|
                    at + len <= before.log().writehead() && (#[trigger] before.log().record(
                        at,
                        len,
                    )) is Some implies now.log().record(at, len) == before.log().record(
                    at,
                    len,
                ) by {
                    assert(keyed.log().record(at, len) == before.log().record(at, len));
                }
            }
            let k = choose|k: nat| #[trigger]
                written.index.placed_at(
                    now.index,
                    logged,
                    *landfill,
                    matching,
                    pointing,
                    state,
                    placed,
                    k,
                );
            assert forall|j: nat| j < k implies (#[trigger] now.index.record_at(state, j))
                is Some && !now.hit(state, key@, j) by {
                now.index.lemma_pattern_view(state, j);
            }
            if placed is Ok {
                now.index.lemma_pattern_view(state, k);
                let record = now.index.record_at(state, k).unwrap();
                if written.index.record_at(state, k) is None && gives(
                    pointing,
                    now.index.pattern_at(state, k),
                    record,
                ) {
                    let made = TreeSlot {
                        ofs: k_ofs,
                        len: v_ofs_relative,
                        discriminant: (now.index.pattern_at(state, k)@.state
                            % 0x1_0000_0000) as u32,
                    };
                    lemma_slot_round_trip(order, made);
                    assert(slot_from(order, record) == made);
                    assert(now.hit(state, key@, k));
                    assert(before.index.record_at(state, k) is None);
                }
                assert(now.located(state, key@, k));
                assert(before.set_at(now, state, key@, value@, k));
            }
            if placed is Err {
                let e = placed->Err_0;
                if k < n_probes() {
                    now.index.lemma_pattern_view(state, k);
                    let pattern = now.index.pattern_at(state, k);
                    let entry = now.entry_for(state, k, k_ofs, v_ofs_relative);
                    lemma_slot_round_trip(
                        order,
                        TreeSlot {
                            ofs: k_ofs,
                            len: v_ofs_relative,
                            discriminant: (pattern@.state % 0x1_0000_0000) as u32,
                        },
                    );
                    assert forall|record: Seq<u8>| #[trigger]
                        gives(pointing, pattern, record) implies record == entry by {}
                }
                assert(now.missed(state, key@, k));
                assert(now.index_refused(
                    *landfill,
                    state,
                    key@,
                    k_ofs,
                    v_ofs_relative,
                    e,
                    k,
                ));
                assert((v_ofs - k_ofs) as u32 == v_ofs_relative && (k_ofs as nat) as u64 == k_ofs);
                assert(before.entry_refused(
                    now,
                    *landfill,
                    state,
                    key@,
                    value@,
                    e,
                    k_ofs as nat,
                    v_ofs as nat,
                ));
            }
        }
        match placed {
            Ok(()) => Ok(()),
            Err(e) => Err(e),
        }
    }

    /// Makes a map of a log and an index. Entries are read and written in
    /// the byte order `order`.
    ///
    /// Keys and values have at least one byte and at most as many as a
    /// read can ask for: other sizes are refused as
    /// [`FillError::BadRecord`].
    pub fn from_parts(data: AppendOnly<4096>, index: SmashMap<16, 4096>, order: ByteOrder) -> (r:
        Result<Self, FillError>)
        requires
            data.well_formed(),
            index.well_formed(),
        ensures
            match r {
                Ok(map) => map.well_formed() && map.log() == data && map.map() == index
                    && map.byte_order() == order,
                Err(e) => e is BadRecord && (KEY == 0 || KEY > u32::MAX || VALUE == 0 || VALUE
                    > u32::MAX),
            },
    {
        if KEY == 0 || KEY > u32::MAX as usize || VALUE == 0 || VALUE > u32::MAX as usize {
            return Err(FillError::BadRecord);
        }
        Ok(OnceMap { data, index, order })
    }

    /// The hash under which the key `key` is looked for in this map.
    pub open spec fn hash(&self, key: Seq<u8>) -> u64 {
        keyed_bytes_hash(self.map().source().seeds(), key)
    }

    /// The hash under which a key is looked for in this map.
    pub fn hash_of(&self, key: &[u8]) -> (r: u64)
        ensures
            r == self.hash(key@),
    {
        self.index.entropy().checksum_bytes(key)
    }

    /// Insert a key-value pair into the map
    ///
    /// A key that is set stays as it is. A key that is not has its bytes
    /// and those of the value appended to the log, and an entry that points
    /// to them written to the first empty slot of the search for its hash.
    pub fn insert(&mut self, landfill: &mut Landfill, key: &[u8], value: &[u8]) -> (r: Result<
        (),
        FillError,
    >)
        requires
            old(self).well_formed(),
            old(landfill).wf(),
        ensures
            final(self).well_formed(),
            final(landfill).wf(),
            final(landfill).grown_from(*old(landfill)),
            old(self).extended_by(*final(self)),
            old(landfill).holds_no_file() && !old(self).on_disk() ==> !final(self).on_disk(),
            key@.len() != KEY || value@.len() != VALUE ==> r matches Err(FillError::BadRecord),
            match r {
                Ok(()) => exists|k: nat| #[trigger]
                    old(self).set_at(*final(self), old(self).hash(key@), key@, value@, k),
                Err(e) => final(self).map().untouched_since(old(self).map())
                    && old(self).set_refused(
                    *final(self),
                    *old(landfill),
                    *final(landfill),
                    old(self).hash(key@),
                    key@,
                    value@,
                    e,
                ),
            },
    {
        let state = self.hash_of(key);
        self.insert_hashed(landfill, state, key, value)
    }

    /// Gets the value corresponding to the key, if any: the value that the
    /// first entry of the key along the search for its hash points to.
    pub fn get(&self, key: &[u8]) -> (r: Option<&[u8]>)
        requires
            self.well_formed(),
        ensures
            exists|k: nat| #[trigger] self.looked_up(self.hash(key@), key@, k, bytes_of(r)),
    {
        let state = self.hash_of(key);
        self.get_hashed(state, key)
    }

    /// The log or the index has a file behind it.
    pub open spec fn on_disk(&self) -> bool {
        self.log().on_disk() || self.map().array().arena().on_disk()
    }

    /// Flush the map to disk: first the log, then the index that points
    /// into it.
    ///
    /// A map that lies in anonymous memory altogether has nothing to flush
    /// and succeeds. Else the flush fails with what the operating system
    /// says of the first file that it cannot flush.
    pub fn flush(&self) -> (r: Result<(), FillError>)
        requires
            self.well_formed(),
        ensures
            r matches Err(e) ==> e is Io && self.on_disk(),
    {
        match self.data.flush() {
            Ok(()) => self.index.flush(),
            Err(e) => Err(e),
        }
    }

    /// Closes the map: the files of its log and of its index go back to the
    /// landfill as they stand.
    pub fn close(self, landfill: &mut Landfill)
        requires
            self.well_formed(),
            old(landfill).wf(),
        ensures
            final(landfill).wf(),
            final(landfill).same_flags(*old(landfill)),
            final(landfill).same_claims(*old(landfill)),
            forall|i: int|
                0 <= i < N_LANES ==> (
                #[trigger] self.map().array().arena().lane(i) matches Some(bytes) ==> {
                    &&& final(landfill).present(self.map().array().arena().lane_file(i as nat))
                    &&& final(landfill).contents(self.map().array().arena().lane_file(i as nat))
                        == bytes
                }),
            !self.map().array().arena().is_lane_file(journal_file(self.log().scope())) ==> {
                &&& final(landfill).present(journal_file(self.log().scope()))
                &&& final(landfill).contents(journal_file(self.log().scope()))
                    == self.log().register().ring()
            },
            forall|i: int|
                0 <= i < N_LANES && !self.map().array().arena().is_lane_file(
                    log_lane_file(self.log().scope(), i as nat),
                ) ==> (#[trigger] self.log().arena().lane(i) matches Some(bytes) ==> {
                    &&& final(landfill).present(log_lane_file(self.log().scope(), i as nat))
                    &&& final(landfill).contents(log_lane_file(self.log().scope(), i as nat))
                        == bytes
                }),
    {
        self.data.close(landfill);
        let ghost logged = *landfill;
        self.index.close(landfill);
        proof {
            let journal = journal_file(self.log().scope());
            if !self.map().array().arena().is_lane_file(journal) {
                assert(landfill.present(journal) == logged.present(journal));
            }
            assert forall|i: int|
                0 <= i < N_LANES && !self.map().array().arena().is_lane_file(
                    log_lane_file(self.log().scope(), i as nat),
                ) implies (#[trigger] self.log().arena().lane(i) matches Some(bytes) ==> {
                &&& landfill.present(log_lane_file(self.log().scope(), i as nat))
                &&& landfill.contents(log_lane_file(self.log().scope(), i as nat)) == bytes
            }) by {
                let file = log_lane_file(self.log().scope(), i as nat);
                assert(landfill.present(file) == logged.present(file));
            }
        }
    }

    /// Looks for the entry of `key` along the search from `state`.
    pub fn find(&self, state: u64, key: &[u8]) -> (r: Option<TreeSlot>)
        requires
            self.well_formed(),
        ensures
            match r {
                Some(entry) => exists|k: nat|
                    #[trigger] self.located(state, key@, k) && entry == slot_from(
                        self.byte_order(),
                        self.map().record_at(state, k).unwrap(),
                    ),
                None => exists|k: nat| #[trigger] self.absent(state, key@, k),
            },
    {
        let order = self.order;
        let data = &self.data;
        let ghost this = *self;
        let matching = |search: &SearchPattern, record: &[u8]| -> (verdict: SearchNext)
            requires
                record@.len() == SLOT_SIZE,
            ensures
                verdict == (if this.is_entry_of(search@.state, record@, key@) {
                    SearchNext::Halt
                } else {
                    SearchNext::Proceed
                }),
            {
                let entry = TreeSlot::from_bytes(order, record);
                if search.tag_u32() == entry.discriminant {
                    match data.read(entry.ofs, KEY as u32) {
                        Some(stored) => {
                            if same_bytes(stored, key) {
                                SearchNext::Halt
                            } else {
                                SearchNext::Proceed
                            }
                        },
                        None => SearchNext::Proceed,
                    }
                } else {
                    SearchNext::Proceed
                }
            };
        let found = self.index.get_hashed(state, matching);
        proof {
            let ended = choose|ended: nat|
                {
                    &&& ended <= n_probes()
                    &&& #[trigger] self.index.passed(matching, state, ended)
                    &&& match bytes_of(found) {
                        Some(record) => ended < n_probes() && self.index.record_at(state, ended)
                            == Some(record) && answers(
                            matching,
                            self.index.pattern_at(state, ended),
                            record,
                            SearchNext::Halt,
                        ),
                        None => ended == n_probes() || self.index.record_at(state, ended)
                            is None,
                    }
                };
            assert forall|j: nat| j < ended implies (#[trigger] self.index.record_at(state, j))
                is Some && !self.hit(state, key@, j) by {
                self.index.lemma_pattern_view(state, j);
            }
            if found is Some {
                self.index.lemma_pattern_view(state, ended);
                assert(self.located(state, key@, ended));
            } else {
                assert(self.absent(state, key@, ended));
            }
        }
        match found {
            Some(record) => {
                Some(TreeSlot::from_bytes(order, record))
            },
            None => None,
        }
    }
}

impl<const KEY: usize, const VALUE: usize> Substructure for OnceMap<KEY, VALUE> {
    open spec fn wf(&self) -> bool {
        self.well_formed()
    }

    /// The log or the index has a file behind it.
    open spec fn file_backed(&self) -> bool {
        self.on_disk()
    }

    /// The log is opened under the name `data` below `scope`, the index
    /// under the name `index` after it, and entries are read in the byte
    /// order of the landfill.
    open spec fn opened(&self, was: Landfill, now: Landfill, scope: Seq<char>) -> bool {
        &&& self.byte_order() == was.byte_order()
        &&& parts_opened(self.log(), self.map(), was, now, scope)
    }

    /// A map cannot be opened for keys or values of no bytes or of too
    /// many, nor where its log and its index cannot be.
    open spec fn refused(e: FillError, was: Landfill, scope: Seq<char>) -> bool {
        if KEY == 0 || KEY > u32::MAX || VALUE == 0 || VALUE > u32::MAX {
            e is BadRecord
        } else {
            parts_refused(e, was, scope)
        }
    }

    /// Opens the map below `scope`: its log first, then its index.
    fn init(landfill: &mut Landfill, scope: GuardedLandfill) -> (r: Result<Self, FillError>)
    {
        if KEY == 0 || KEY > u32::MAX as usize || VALUE == 0 || VALUE > u32::MAX as usize {
            proof {
                landfill.lemma_grows(*landfill);
                landfill.lemma_same_files_untouched(*landfill, scope@);
            }
            return Err(FillError::BadRecord);
        }
        let order = landfill.order();
        match open_parts(landfill, &scope) {
            Ok((data, index)) => Ok(OnceMap { data, index, order }),
            Err(e) => Err(e),
        }
    }

    /// Flush the map to disk; one that lies in anonymous memory altogether
    /// has nothing to flush and succeeds.
    fn flush(&self) -> (r: Result<(), FillError>) {
        OnceMap::flush(self)
    }
}

} // verus!
