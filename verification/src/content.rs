//! A storage for content-addressable byte-slices.
//!
//! Bytes lie in an append-only log. An index holds for each run of bytes
//! where it lies and how long it is, under the hash of its id. What the id
//! of a run of bytes is, is for a digest to say, which the callers bring.

use vstd::prelude::*;
use crate::appendonly::{journal_file, log_lane_file, AppendOnly};
use crate::lanes::{is_first_space, N_LANES};
use crate::contentid::ContentId;
use crate::entropy::keyed_bytes_hash;
use crate::errors::FillError;
use crate::helpers::{all_zero, same_bytes, ByteOrder};
use crate::randomaccess::RandomAccess;
use crate::index::{lemma_slot_round_trip, slot_bytes, slot_from, TreeSlot, SLOT_SIZE};
use crate::landfill::{GuardedLandfill, Landfill, Substructure};
use crate::store::{open_parts, parts_opened, parts_refused};
use crate::smash::{
    answers, bytes_of, gives, n_probes, probe_at, SearchNext, SearchPattern, SmashMap,
};

verus! {

/// The digest `digest`, given `bytes`, may return `id`.
pub open spec fn digests<D: Fn(&[u8]) -> Vec<u8>>(digest: &D, bytes: Seq<u8>, id: Seq<u8>) -> bool {
    exists|shown: &[u8], made: Vec<u8>|
        shown@ == bytes && made@ == id && #[trigger] call_ensures(digest, (shown,), made)
}

/// A storage for content-addressable byte-slices
pub struct Content {
    data: AppendOnly<4096>,
    index: SmashMap<16, 4096>,
    order: ByteOrder,
}

impl Content {
    /// The log that holds the bytes.
    pub closed spec fn log(&self) -> AppendOnly<4096> {
        self.data
    }

    /// The index.
    pub closed spec fn map(&self) -> SmashMap<16, 4096> {
        self.index
    }

    /// The byte order of the entries of the index.
    pub closed spec fn byte_order(&self) -> ByteOrder {
        self.order
    }

    /// The invariant of the store.
    pub open spec fn well_formed(&self) -> bool {
        self.log().well_formed() && self.map().well_formed()
    }

    /// The bytes that the entry `record` of the index points to.
    pub open spec fn entry_bytes(&self, record: Seq<u8>) -> Option<Seq<u8>> {
        let entry = slot_from(self.byte_order(), record);
        self.log().record(entry.ofs as nat, entry.len as nat)
    }

    /// The entry `record`, found under the hash `state`, bears the lower
    /// half of the hash.
    pub open spec fn tagged(&self, state: u64, record: Seq<u8>) -> bool {
        slot_from(self.byte_order(), record).discriminant == state % 0x1_0000_0000
    }

    /// The entry `record`, found under the hash `state`, is taken for one
    /// of the content with the id `id`: it bears the lower half of the
    /// hash, and the bytes that it points to may digest to the id.
    pub open spec fn accepted<D: Fn(&[u8]) -> Vec<u8>>(
        &self,
        digest: &D,
        state: u64,
        record: Seq<u8>,
        id: Seq<u8>,
    ) -> bool {
        &&& self.tagged(state, record)
        &&& self.entry_bytes(record) matches Some(bytes) && digests(digest, bytes, id)
    }

    /// The entry `record`, found under the hash `state`, is not taken for
    /// one of the content with the id `id`: it bears another tag, or
    /// points to nothing that the log holds, or to bytes that may digest to
    /// another id.
    pub open spec fn rejected<D: Fn(&[u8]) -> Vec<u8>>(
        &self,
        digest: &D,
        state: u64,
        record: Seq<u8>,
        id: Seq<u8>,
    ) -> bool {
        ||| !self.tagged(state, record)
        ||| self.entry_bytes(record) is None
        ||| exists|other: Seq<u8>|
            other != id && #[trigger] digests(digest, self.entry_bytes(record).unwrap(), other)
    }

    /// The hash as it stands at step `k` of the search from `state`.
    pub open spec fn state_at(&self, state: u64, k: nat) -> u64 {
        probe_at(self.map().source().seeds(), state, k).state
    }

    /// The first `k` steps of the search from `state` find entries, each
    /// of which is rejected.
    pub open spec fn passed_over<D: Fn(&[u8]) -> Vec<u8>>(
        &self,
        digest: &D,
        state: u64,
        id: Seq<u8>,
        k: nat,
    ) -> bool {
        forall|j: nat|
            j < k ==> (#[trigger] self.map().record_at(state, j)) is Some && self.rejected(
                digest,
                self.state_at(state, j),
                self.map().record_at(state, j).unwrap(),
                id,
            )
    }

    /// A search for the content with the id `id` from `state` that ends at
    /// step `k` comes back with `outcome`: the bytes that the entry of the
    /// step points to, where the entry is accepted; nothing, where the step
    /// finds an empty slot or the search is out of bands. The steps before
    /// found entries that were rejected.
    pub open spec fn sought<D: Fn(&[u8]) -> Vec<u8>>(
        &self,
        digest: &D,
        state: u64,
        id: Seq<u8>,
        k: nat,
        outcome: Option<Seq<u8>>,
    ) -> bool {
        &&& k <= n_probes()
        &&& self.passed_over(digest, state, id, k)
        &&& match outcome {
            Some(bytes) => {
                &&& k < n_probes()
                &&& self.map().record_at(state, k) matches Some(record) && self.accepted(
                    digest,
                    self.state_at(state, k),
                    record,
                    id,
                ) && self.entry_bytes(record) == Some(bytes)
            },
            None => k == n_probes() || self.map().record_at(state, k) is None,
        }
    }

    /// The store `later` is a later state of this store: it keeps the
    /// entries of the index and reads the log as this store does up to the
    /// writehead of this store.
    pub open spec fn extended_by(&self, later: Self) -> bool {
        &&& later.byte_order() == self.byte_order()
        &&& later.map().keeps(self.map())
        &&& later.log().writehead() >= self.log().writehead()
        &&& forall|at: nat, len: nat|
            at + len <= self.log().writehead() && (#[trigger] self.log().record(at, len))
                is Some ==> later.log().record(at, len) == self.log().record(at, len)
    }

    /// What storing `bytes` under the id `id` from the hash `state` makes
    /// of the store, where it succeeds at step `k`: the steps before found
    /// entries that were rejected, and the entry of the step bears the tag
    /// of the step; it was accepted and nothing was written to the index,
    /// or it is new and points to the bytes.
    pub open spec fn stored_at<D: Fn(&[u8]) -> Vec<u8>>(
        &self,
        now: Self,
        digest: &D,
        state: u64,
        id: Seq<u8>,
        bytes: Seq<u8>,
        k: nat,
    ) -> bool {
        &&& k < n_probes()
        &&& now.passed_over(digest, state, id, k)
        &&& now.map().record_at(state, k) matches Some(record) && now.tagged(
            now.state_at(state, k),
            record,
        ) && {
            ||| (now.accepted(digest, now.state_at(state, k), record, id)
                && now.map().untouched_since(self.map()))
            ||| (self.map().record_at(state, k) is None && now.map().array().same_slots_but(
                self.map().array(),
                now.map().slot_at(state, k),
            ) && now.entry_bytes(record) == Some(bytes))
        }
    }

    /// A search for the content with the id `id` from `state` may come back
    /// with nothing.
    pub open spec fn missing<D: Fn(&[u8]) -> Vec<u8>>(
        &self,
        digest: &D,
        state: u64,
        id: Seq<u8>,
    ) -> bool {
        exists|k: nat| #[trigger] self.sought(digest, state, id, k, None)
    }

    /// The entry that step `k` of the search from `state` writes for `len`
    /// bytes at `offset`.
    pub open spec fn entry_for(&self, state: u64, k: nat, offset: u64, len: u32) -> Seq<u8> {
        slot_bytes(
            self.byte_order(),
            TreeSlot {
                ofs: offset,
                len,
                discriminant: (self.state_at(state, k) % 0x1_0000_0000) as u32,
            },
        )
    }

    /// Why the index of this store takes no entry for `len` bytes at
    /// `offset` under the id `id`, with the error `e`, at step `k` of the
    /// search from `state`: the steps before found entries that were
    /// rejected, and the search is out of bands; or the step finds an
    /// empty slot, and the lane of the slot cannot be written to, or the
    /// entry would be all zero, which is how an empty slot reads.
    pub open spec fn index_refused<D: Fn(&[u8]) -> Vec<u8>>(
        &self,
        after: Landfill,
        digest: &D,
        state: u64,
        id: Seq<u8>,
        offset: u64,
        len: u32,
        e: FillError,
        k: nat,
    ) -> bool {
        &&& k <= n_probes()
        &&& self.passed_over(digest, state, id, k)
        &&& {
            ||| (k == n_probes() && e is Exhausted)
            ||| (k < n_probes() && self.map().record_at(state, k) is None && {
                ||| self.map().array().arena().write_refused(
                    after,
                    RandomAccess::<16, 4096>::slot_start(self.map().slot_at(state, k)),
                    SLOT_SIZE as nat,
                    e,
                )
                ||| (e is BadRecord && all_zero(self.entry_for(state, k, offset, len)))
            })
        }
    }

    /// Why storing `bytes` under the id `id` from the hash `state` fails
    /// with the error `e`: `self` is the store before, `now` the store
    /// afterwards, `was` and `after` the landfill before and afterwards.
    ///
    /// More bytes than an entry can count are out of space, and nothing
    /// has changed. Else a search for the id may come back with nothing,
    /// and either the log refuses the bytes, or the log has them now, at
    /// the first place from its writehead where they fit, and the index
    /// refuses an entry for them.
    pub open spec fn store_refused<D: Fn(&[u8]) -> Vec<u8>>(
        &self,
        now: Self,
        was: Landfill,
        after: Landfill,
        digest: &D,
        state: u64,
        id: Seq<u8>,
        bytes: Seq<u8>,
        alignment: nat,
        e: FillError,
    ) -> bool {
        if bytes.len() > u32::MAX {
            e is OutOfSpace && now.log().writehead() == self.log().writehead()
                && after.unchanged_from(was)
        } else {
            &&& self.missing(digest, state, id)
            &&& {
                ||| (now.log().writehead() == self.log().writehead() && self.log().write_refused(
                    was,
                    after,
                    bytes.len(),
                    alignment,
                    e,
                ))
                ||| {
                    let offset = now.log().writehead() - bytes.len();
                    &&& offset >= 0
                    &&& is_first_space(
                        4096,
                        self.log().writehead() as nat,
                        bytes.len(),
                        alignment,
                        offset as nat,
                    )
                    &&& now.log().record(offset as nat, bytes.len()) == Some(bytes)
                    &&& exists|k: nat| #[trigger]
                        now.index_refused(
                            after,
                            digest,
                            state,
                            id,
                            offset as u64,
                            bytes.len() as u32,
                            e,
                            k,
                        )
                }
            }
        }
    }

    /// Insert bytes aligned to `alignment` into the Content store, under
    /// the id `id`, found under the hash `state`
    ///
    /// Bytes that are found under the id stay as they are. Else the bytes
    /// are appended to the log, and an entry that points to them is written
    /// to the first empty slot of the search. An error says why neither
    /// was so, and leaves every entry of the index as it was.
    pub fn insert_hashed<D: Fn(&[u8]) -> Vec<u8>>(
        &mut self,
        landfill: &mut Landfill,
        state: u64,
        id: &ContentId,
        bytes: &[u8],
        alignment: usize,
        digest: &D,
    ) -> (r: Result<(), FillError>)
        requires
            old(self).well_formed(),
            old(landfill).wf(),
            forall|bytes: &[u8]| digest.requires((bytes,)),
        ensures
            final(self).well_formed(),
            final(landfill).wf(),
            final(landfill).grown_from(*old(landfill)),
            old(self).extended_by(*final(self)),
            old(landfill).holds_no_file() && !old(self).on_disk() ==> !final(self).on_disk(),
            match r {
                Ok(()) => exists|k: nat| #[trigger]
                    old(self).stored_at(*final(self), digest, state, id@, bytes@, k),
                Err(e) => final(self).map().untouched_since(old(self).map())
                    && old(self).store_refused(
                    *final(self),
                    *old(landfill),
                    *final(landfill),
                    digest,
                    state,
                    id@,
                    bytes@,
                    alignment as nat,
                    e,
                ),
            },
    {
        let ghost before = *self;
        let ghost was = *landfill;
        proof {
            before.index.lemma_untouched_keeps(before.index);
            landfill.lemma_grows(*landfill);
        }
        if bytes.len() > u32::MAX as usize {
            return Err(FillError::OutOfSpace);
        }
        let len: u32 = bytes.len() as u32;
        let held = self.get_hashed(state, id, digest);
        let ghost outcome = bytes_of(held);
        let id: &[u8] = id.bytes();
        if held.is_some() {
            proof {
                let k = choose|k: nat| #[trigger] self.sought(digest, state, id@, k, outcome);
                assert(before.stored_at(*self, digest, state, id@, bytes@, k));
            }
            return Ok(());
        }
        assert(before.missing(digest, state, id@));
        let order = self.order;
        let ofs: u64 = match self.data.write_aligned(landfill, bytes, alignment) {
            Ok(offset) => offset,
            Err(e) => {
                proof {
                    assert(before.store_refused(
                        *self,
                        was,
                        *landfill,
                        digest,
                        state,
                        id@,
                        bytes@,
                        alignment as nat,
                        e,
                    ));
                }
                return Err(e);
            },
        };
        let ghost written = *self;
        let data = &self.data;
        let matching = |search: &SearchPattern, record: &[u8]| -> (verdict: SearchNext)
            requires
                record@.len() == SLOT_SIZE,
            ensures
                verdict == SearchNext::Halt ==> written.accepted(
                    digest,
                    search@.state,
                    record@,
                    id@,
                ),
                verdict == SearchNext::Proceed ==> written.rejected(
                    digest,
                    search@.state,
                    record@,
                    id@,
                ),
            {
                let entry = TreeSlot::from_bytes(order, record);
                if search.tag_u32() == entry.discriminant {
                    match data.read(entry.ofs, entry.len) {
                        Some(stored) => {
                            let stored_id = digest(stored);
                            proof {
                                assert(digests(digest, stored@, stored_id@));
                            }
                            if same_bytes(stored_id.as_slice(), id) {
                                SearchNext::Halt
                            } else {
                                proof {
                                    assert(written.entry_bytes(record@) == Some(stored@));
                                    assert(stored_id@ != id@ && digests(
                                        digest,
                                        written.entry_bytes(record@).unwrap(),
                                        stored_id@,
                                    ));
                                }
                                SearchNext::Proceed
                            }
                        },
                        None => SearchNext::Proceed,
                    }
                } else {
                    SearchNext::Proceed
                }
            };
        let pointing = |search: &SearchPattern| -> (made: Result<Vec<u8>, FillError>)
            ensures
                made matches Ok(entry) && entry@ == slot_bytes(
                    order,
                    TreeSlot { ofs, len, discriminant: (search@.state % 0x1_0000_0000) as u32 },
                ),
            { Ok(TreeSlot::new(ofs, len, search.tag_u32()).to_bytes(order)) };
        let ghost logged = *landfill;
        let placed = self.index.insert_hashed(landfill, state, matching, pointing);
        proof {
            let now = *self;
            let k = choose|k: nat| #[trigger]
                written.index.placed_at(
                    now.index,
                    logged,
                    *landfill,
                    matching,
                    pointing,
                    state,
                    placed,
                    k,
                );
            assert forall|j: nat| j < k implies (#[trigger] now.index.record_at(state, j))
                is Some && now.rejected(
                digest,
                now.state_at(state, j),
                now.index.record_at(state, j).unwrap(),
                id@,
            ) by {
                now.index.lemma_pattern_view(state, j);
            }
            if placed is Ok {
                now.index.lemma_pattern_view(state, k);
                let record = now.index.record_at(state, k).unwrap();
                if written.index.record_at(state, k) is None && gives(
                    pointing,
                    now.index.pattern_at(state, k),
                    record,
                ) {
                    let made = TreeSlot {
                        ofs,
                        len,
                        discriminant: (now.index.pattern_at(state, k)@.state
                            % 0x1_0000_0000) as u32,
                    };
                    lemma_slot_round_trip(order, made);
                    assert(slot_from(order, record) == made);
                }
                assert(before.stored_at(now, digest, state, id@, bytes@, k));
            }
            if placed is Err {
                let e = placed->Err_0;
                if k < n_probes() {
                    now.index.lemma_pattern_view(state, k);
                    let pattern = now.index.pattern_at(state, k);
                    let entry = now.entry_for(state, k, ofs, len);
                    lemma_slot_round_trip(
                        order,
                        TreeSlot {
                            ofs,
                            len,
                            discriminant: (pattern@.state % 0x1_0000_0000) as u32,
                        },
                    );
                    assert forall|record: Seq<u8>| #[trigger]
                        gives(pointing, pattern, record) implies record == entry by {}
                }
                assert(now.index_refused(*landfill, digest, state, id@, ofs, len, e, k));
                let offset = now.log().writehead() - bytes@.len();
                assert(offset as u64 == ofs && bytes@.len() as u32 == len);
                assert(now.log().record(offset as nat, bytes@.len()) == Some(bytes@));
                assert(before.store_refused(
                    now,
                    was,
                    *landfill,
                    digest,
                    state,
                    id@,
                    bytes@,
                    alignment as nat,
                    e,
                ));
            }
        }
        placed
    }

    /// Insert bytes into the Content store, under the id `id`
    pub fn insert<D: Fn(&[u8]) -> Vec<u8>>(
        &mut self,
        landfill: &mut Landfill,
        id: &ContentId,
        bytes: &[u8],
        digest: &D,
    ) -> (r: Result<(), FillError>)
        requires
            old(self).well_formed(),
            old(landfill).wf(),
            forall|bytes: &[u8]| digest.requires((bytes,)),
        ensures
            final(self).well_formed(),
            final(landfill).wf(),
            final(landfill).grown_from(*old(landfill)),
            old(self).extended_by(*final(self)),
            old(landfill).holds_no_file() && !old(self).on_disk() ==> !final(self).on_disk(),
            match r {
                Ok(()) => exists|k: nat| #[trigger]
                    old(self).stored_at(
                        *final(self),
                        digest,
                        old(self).hash(id@),
                        id@,
                        bytes@,
                        k,
                    ),
                Err(e) => final(self).map().untouched_since(old(self).map())
                    && old(self).store_refused(
                    *final(self),
                    *old(landfill),
                    *final(landfill),
                    digest,
                    old(self).hash(id@),
                    id@,
                    bytes@,
                    1,
                    e,
                ),
            },
    {
        self.insert_aligned(landfill, id, bytes, 1, digest)
    }

    /// Insert bytes aligned to `alignment` into the Content store, under
    /// the id `id`
    pub fn insert_aligned<D: Fn(&[u8]) -> Vec<u8>>(
        &mut self,
        landfill: &mut Landfill,
        id: &ContentId,
        bytes: &[u8],
        alignment: usize,
        digest: &D,
    ) -> (r: Result<(), FillError>)
        requires
            old(self).well_formed(),
            old(landfill).wf(),
            forall|bytes: &[u8]| digest.requires((bytes,)),
        ensures
            final(self).well_formed(),
            final(landfill).wf(),
            final(landfill).grown_from(*old(landfill)),
            old(self).extended_by(*final(self)),
            old(landfill).holds_no_file() && !old(self).on_disk() ==> !final(self).on_disk(),
            match r {
                Ok(()) => exists|k: nat| #[trigger]
                    old(self).stored_at(
                        *final(self),
                        digest,
                        old(self).hash(id@),
                        id@,
                        bytes@,
                        k,
                    ),
                Err(e) => final(self).map().untouched_since(old(self).map())
                    && old(self).store_refused(
                    *final(self),
                    *old(landfill),
                    *final(landfill),
                    digest,
                    old(self).hash(id@),
                    id@,
                    bytes@,
                    alignment as nat,
                    e,
                ),
            },
    {
        let state = self.hash_of(id);
        self.insert_hashed(landfill, state, id, bytes, alignment, digest)
    }

    /// Gets the value corresponding to the id, if any: the bytes of the
    /// first entry along the search for the hash of the id that bears the
    /// tag of its step and points to bytes which `digest` gives the id for.
    pub fn get<D: Fn(&[u8]) -> Vec<u8>>(&self, id: &ContentId, digest: &D) -> (r: Option<&[u8]>)
        requires
            self.well_formed(),
            forall|bytes: &[u8]| digest.requires((bytes,)),
        ensures
            exists|k: nat| #[trigger] self.sought(digest, self.hash(id@), id@, k, bytes_of(r)),
    {
        let state = self.hash_of(id);
        self.get_hashed(state, id, digest)
    }

    /// The log or the index has a file behind it.
    pub open spec fn on_disk(&self) -> bool {
        self.log().on_disk() || self.map().array().arena().on_disk()
    }

    /// Flush the store to disk: first the log, then the index that points
    /// into it.
    ///
    /// A store that lies in anonymous memory altogether has nothing to flush
    /// and succeeds. Else the flush fails with what the operating system
    /// says of the first file that it cannot flush.
    pub fn flush(&self) -> (r: Result<(), FillError>)
        requires
            self.well_formed(),
        ensures
            r matches Err(e) ==> e is Io && self.on_disk(),
    {
        match self.data.flush() {
            Ok(()) => self.index.flush(),
            Err(e) => Err(e),
        }
    }

    /// Closes the store: the files of its log and of its index go back to
    /// the landfill as they stand.
    pub fn close(self, landfill: &mut Landfill)
        requires
            self.well_formed(),
            old(landfill).wf(),
        ensures
            final(landfill).wf(),
            final(landfill).same_flags(*old(landfill)),
            final(landfill).same_claims(*old(landfill)),
            forall|i: int|
                0 <= i < N_LANES ==> (
                #[trigger] self.map().array().arena().lane(i) matches Some(bytes) ==> {
                    &&& final(landfill).present(self.map().array().arena().lane_file(i as nat))
                    &&& final(landfill).contents(self.map().array().arena().lane_file(i as nat))
                        == bytes
                }),
            !self.map().array().arena().is_lane_file(journal_file(self.log().scope())) ==> {
                &&& final(landfill).present(journal_file(self.log().scope()))
                &&& final(landfill).contents(journal_file(self.log().scope()))
                    == self.log().register().ring()
            },
            forall|i: int|
                0 <= i < N_LANES && !self.map().array().arena().is_lane_file(
                    log_lane_file(self.log().scope(), i as nat),
                ) ==> (#[trigger] self.log().arena().lane(i) matches Some(bytes) ==> {
                    &&& final(landfill).present(log_lane_file(self.log().scope(), i as nat))
                    &&& final(landfill).contents(log_lane_file(self.log().scope(), i as nat))
                        == bytes
                }),
    {
        self.data.close(landfill);
        let ghost logged = *landfill;
        self.index.close(landfill);
        proof {
            let journal = journal_file(self.log().scope());
            if !self.map().array().arena().is_lane_file(journal) {
                assert(landfill.present(journal) == logged.present(journal));
            }
            assert forall|i: int|
                0 <= i < N_LANES && !self.map().array().arena().is_lane_file(
                    log_lane_file(self.log().scope(), i as nat),
                ) implies (#[trigger] self.log().arena().lane(i) matches Some(bytes) ==> {
                &&& landfill.present(log_lane_file(self.log().scope(), i as nat))
                &&& landfill.contents(log_lane_file(self.log().scope(), i as nat)) == bytes
            }) by {
                let file = log_lane_file(self.log().scope(), i as nat);
                assert(landfill.present(file) == logged.present(file));
            }
        }
    }

    /// Makes a store of a log and an index. Entries are read and written in
    /// the byte order `order`.
    pub fn from_parts(data: AppendOnly<4096>, index: SmashMap<16, 4096>, order: ByteOrder) -> (r:
        Self)
        requires
            data.well_formed(),
            index.well_formed(),
        ensures
            r.well_formed(),
            r.log() == data,
            r.map() == index,
            r.byte_order() == order,
    {
        Content { data, index, order }
    }

    /// The hash under which the id `id` is looked for in this store.
    pub open spec fn hash(&self, id: Seq<u8>) -> u64 {
        keyed_bytes_hash(self.map().source().seeds(), id)
    }

    /// The hash under which an id is looked for in this store.
    pub fn hash_of(&self, id: &ContentId) -> (r: u64)
        ensures
            r == self.hash(id@),
    {
        self.index.entropy().checksum_bytes(id.bytes())
    }

    /// Gets the value corresponding to the id, found under the hash `state`
    pub fn get_hashed<D: Fn(&[u8]) -> Vec<u8>>(
        &self,
        state: u64,
        id: &ContentId,
        digest: &D,
    ) -> (r:
        Option<&[u8]>)
        requires
            self.well_formed(),
            forall|bytes: &[u8]| digest.requires((bytes,)),
        ensures
            exists|k: nat| #[trigger] self.sought(digest, state, id@, k, bytes_of(r)),
    {
        let id: &[u8] = id.bytes();
        let order = self.order;
        let data = &self.data;
        let ghost this = *self;
        let matching = |search: &SearchPattern, record: &[u8]| -> (verdict: SearchNext)
            requires
                record@.len() == SLOT_SIZE,
            ensures
                verdict == SearchNext::Halt ==> this.accepted(
                    digest,
                    search@.state,
                    record@,
                    id@,
                ),
                verdict == SearchNext::Proceed ==> this.rejected(
                    digest,
                    search@.state,
                    record@,
                    id@,
                ),
            {
                let entry = TreeSlot::from_bytes(order, record);
                if search.tag_u32() == entry.discriminant {
                    match data.read(entry.ofs, entry.len) {
                        Some(stored) => {
                            let stored_id = digest(stored);
                            proof {
                                assert(digests(digest, stored@, stored_id@));
                            }
                            if same_bytes(stored_id.as_slice(), id) {
                                // found it!
                                SearchNext::Halt
                            } else {
                                proof {
                                    assert(this.entry_bytes(record@) == Some(stored@));
                                    assert(stored_id@ != id@ && digests(
                                        digest,
                                        this.entry_bytes(record@).unwrap(),
                                        stored_id@,
                                    ));
                                }
                                SearchNext::Proceed
                            }
                        },
                        None => SearchNext::Proceed,
                    }
                } else {
                    SearchNext::Proceed
                }
            };
        let found = self.index.get_hashed(state, matching);
        proof {
            let ended = choose|ended: nat|
                {
                    &&& ended <= n_probes()
                    &&& #[trigger] self.index.passed(matching, state, ended)
                    &&& match bytes_of(found) {
                        Some(record) => ended < n_probes() && self.index.record_at(state, ended)
                            == Some(record) && answers(
                            matching,
                            self.index.pattern_at(state, ended),
                            record,
                            SearchNext::Halt,
                        ),
                        None => ended == n_probes() || self.index.record_at(state, ended)
                            is None,
                    }
                };
            assert forall|j: nat| j < ended implies (#[trigger] self.index.record_at(state, j))
                is Some && self.rejected(
                digest,
                self.state_at(state, j),
                self.index.record_at(state, j).unwrap(),
                id@,
            ) by {
                self.index.lemma_pattern_view(state, j);
            }
            if found is Some {
                self.index.lemma_pattern_view(state, ended);
            }
            assert(self.sought(
                digest,
                state,
                id@,
                ended,
                match found {
                    Some(record) => self.entry_bytes(record@),
                    None => None,
                },
            ));
        }
        match found {
            Some(record) => {
                let entry = TreeSlot::from_bytes(order, record);
                self.data.read(entry.ofs, entry.len)
            },
            None => None,
        }
    }
}

impl Substructure for Content {
    open spec fn wf(&self) -> bool {
        self.well_formed()
    }

    /// The log or the index has a file behind it.
    open spec fn file_backed(&self) -> bool {
        self.on_disk()
    }

    /// The log is opened under the name `data` below `scope`, the index
    /// under the name `index` after it, and entries are read in the byte
    /// order of the landfill.
    open spec fn opened(&self, was: Landfill, now: Landfill, scope: Seq<char>) -> bool {
        &&& self.byte_order() == was.byte_order()
        &&& parts_opened(self.log(), self.map(), was, now, scope)
    }

    /// A store cannot be opened where its log and its index cannot be.
    open spec fn refused(e: FillError, was: Landfill, scope: Seq<char>) -> bool {
        parts_refused(e, was, scope)
    }

    /// Opens the store below `scope`: its log first, then its index.
    fn init(landfill: &mut Landfill, scope: GuardedLandfill) -> (r: Result<Self, FillError>)
    {
        let order = landfill.order();
        match open_parts(landfill, &scope) {
            Ok((data, index)) => Ok(Content { data, index, order }),
            Err(e) => Err(e),
        }
    }

    /// Flush the store to disk; one that lies in anonymous memory altogether
    /// has nothing to flush and succeeds.
    fn flush(&self) -> (r: Result<(), FillError>) {
        Content::flush(self)
    }
}

} // verus!
