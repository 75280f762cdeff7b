//! The journal: a crash-resistant register of a number that only grows.
//!
//! The journal is one page of memory, read as a ring of entries. An entry
//! holds a value and the checksum of the value. An update writes the new
//! value into the slot after the latest entry, so that the entry before it
//! is still there should the write be torn. Opening a journal looks at
//! every entry and takes the largest value whose checksum is right.

use vstd::prelude::*;
use crate::entropy::default_hash_u64;
use crate::entropy::sea_hash_u64;
use crate::errors::FillError;
use crate::helpers::{decode_u64, encode_u64, lemma_u64_round_trip, u64_bytes, u64_from, ByteOrder};
use crate::landfill::{
    asks_resize, join_names, joined, GuardedLandfill, Landfill, Substructure,
};
use crate::mapped::{overwrite, zeroes, MappedFile};

verus! {

/// journal is one page maximum
pub const JOURNAL_SIZE: usize = 4096;

/// Bytes of one entry: a checksum and a value of eight bytes each.
pub const ENTRY_SIZE: usize = 16;

/// Number of entries in the ring.
pub const N_ENTRIES: usize = 256;

/// The checksum that makes an entry with the value `value` valid.
pub open spec fn entry_checksum(value: u64) -> u64 {
    sea_hash_u64(
        0x16f11fe89b0d677c,
        0xb480a793d8e6c86c,
        0x6fe2e5aaf078ebc9,
        0x14f994a4c5259381,
        value,
    )
}

/// The bytes of a valid entry with the value `value`.
pub open spec fn entry_bytes(order: ByteOrder, value: u64) -> Seq<u8> {
    u64_bytes(order, entry_checksum(value)) + u64_bytes(order, value)
}

/// The checksum stored in slot `slot` of the ring.
pub open spec fn stored_checksum(order: ByteOrder, ring: Seq<u8>, slot: int) -> u64 {
    u64_from(order, ring.subrange(ENTRY_SIZE * slot, ENTRY_SIZE * slot + 8))
}

/// The value stored in slot `slot` of the ring.
pub open spec fn stored_value(order: ByteOrder, ring: Seq<u8>, slot: int) -> u64 {
    u64_from(order, ring.subrange(ENTRY_SIZE * slot + 8, ENTRY_SIZE * slot + 16))
}

/// The entry in slot `slot` validates: its checksum is that of its value.
pub open spec fn validates(order: ByteOrder, ring: Seq<u8>, slot: int) -> bool {
    stored_checksum(order, ring, slot) == entry_checksum(stored_value(order, ring, slot))
}

/// What a look at the first `n` slots finds: the first slot that holds the
/// largest validating value, and that value; slot zero and the value zero
/// where no entry validates with a value above zero.
pub open spec fn scan(order: ByteOrder, ring: Seq<u8>, n: nat) -> (int, u64)
    decreases n,
{
    if n == 0 {
        (0, 0)
    } else {
        let before = scan(order, ring, (n - 1) as nat);
        if validates(order, ring, n - 1) && stored_value(order, ring, n - 1) > before.1 {
            (n - 1, stored_value(order, ring, n - 1))
        } else {
            before
        }
    }
}

/// The value that opening a journal over `ring` yields.
pub open spec fn recovered_value(order: ByteOrder, ring: Seq<u8>) -> u64 {
    scan(order, ring, N_ENTRIES as nat).1
}

/// The slot that opening a journal over `ring` takes for the latest entry.
pub open spec fn recovered_slot(order: ByteOrder, ring: Seq<u8>) -> int {
    scan(order, ring, N_ENTRIES as nat).0
}

/// The slot that follows `slot` in the ring.
pub open spec fn next_slot(slot: int) -> int {
    (slot + 1) % (N_ENTRIES as int)
}

/// The ring after a valid entry with the value `value` was written to
/// slot `slot`.
pub open spec fn written(order: ByteOrder, ring: Seq<u8>, slot: int, value: u64) -> Seq<u8> {
    overwrite(ring, ENTRY_SIZE * slot, entry_bytes(order, value))
}

/// No entry of the ring validates with a value above `value`.
pub open spec fn settled(order: ByteOrder, ring: Seq<u8>, value: u64) -> bool {
    forall|k: int|
        0 <= k < N_ENTRIES && #[trigger] validates(order, ring, k) ==> stored_value(order, ring, k)
            <= value
}

/// The ring, the slot of the latest entry and the value belong together:
/// the latest entry holds the value, unless the value is zero, and no entry
/// holds more, except perhaps the one in the slot that the next update
/// writes to.
pub open spec fn consistent(order: ByteOrder, ring: Seq<u8>, cursor: int, value: u64) -> bool {
    &&& ring.len() == JOURNAL_SIZE
    &&& 0 <= cursor < N_ENTRIES
    &&& value == 0 || (validates(order, ring, cursor) && stored_value(order, ring, cursor) == value)
    &&& forall|k: int|
        0 <= k < N_ENTRIES && k != next_slot(cursor) && #[trigger] validates(order, ring, k)
            ==> stored_value(order, ring, k) <= value
}

/// What a scan finds is held by a validating entry, and no validating
/// entry among those looked at holds more.
pub proof fn lemma_scan(order: ByteOrder, ring: Seq<u8>, n: nat)
    ensures
        ({
            let found = scan(order, ring, n);
            &&& (found.1 == 0 && found.0 == 0) || (0 <= found.0 < n && validates(
                order,
                ring,
                found.0,
            ) && stored_value(order, ring, found.0) == found.1)
            &&& forall|k: int|
                0 <= k < n && #[trigger] validates(order, ring, k) ==> stored_value(order, ring, k)
                    <= found.1
        }),
    decreases n,
{
    if n > 0 {
        lemma_scan(order, ring, (n - 1) as nat);
    }
}

/// Opening a journal over any ring gives a consistent and settled state.
pub proof fn lemma_recovery_is_consistent(order: ByteOrder, ring: Seq<u8>)
    requires
        ring.len() == JOURNAL_SIZE,
    ensures
        consistent(order, ring, recovered_slot(order, ring), recovered_value(order, ring)),
        settled(order, ring, recovered_value(order, ring)),
{
    lemma_scan(order, ring, N_ENTRIES as nat);
}

/// Opening a journal over a settled ring gives the value that the journal
/// had.
pub proof fn lemma_recovery_of_settled(order: ByteOrder, ring: Seq<u8>, cursor: int, value: u64)
    requires
        consistent(order, ring, cursor, value),
        settled(order, ring, value),
    ensures
        recovered_value(order, ring) == value,
{
    lemma_scan(order, ring, N_ENTRIES as nat);
}

/// Writing an entry makes its slot hold the value with the right checksum
/// and leaves every other slot alone.
pub proof fn lemma_written(order: ByteOrder, ring: Seq<u8>, slot: int, value: u64)
    requires
        ring.len() == JOURNAL_SIZE,
        0 <= slot < N_ENTRIES,
    ensures
        written(order, ring, slot, value).len() == JOURNAL_SIZE,
        stored_value(order, written(order, ring, slot, value), slot) == value,
        validates(order, written(order, ring, slot, value), slot),
        forall|k: int|
            0 <= k < N_ENTRIES && k != slot ==> #[trigger] stored_value(
                order,
                written(order, ring, slot, value),
                k,
            ) == stored_value(order, ring, k),
        forall|k: int|
            0 <= k < N_ENTRIES && k != slot ==> #[trigger] stored_checksum(
                order,
                written(order, ring, slot, value),
                k,
            ) == stored_checksum(order, ring, k),
{
    let after = written(order, ring, slot, value);
    let entry = entry_bytes(order, value);
    lemma_u64_round_trip(order, value);
    lemma_u64_round_trip(order, entry_checksum(value));
    assert(entry.len() == ENTRY_SIZE);
    assert(after.subrange(ENTRY_SIZE * slot, ENTRY_SIZE * slot + 8) =~= u64_bytes(
        order,
        entry_checksum(value),
    ));
    assert(after.subrange(ENTRY_SIZE * slot + 8, ENTRY_SIZE * slot + 16) =~= u64_bytes(
        order,
        value,
    ));
    assert forall|k: int| 0 <= k < N_ENTRIES && k != slot implies #[trigger] stored_value(
        order,
        after,
        k,
    ) == stored_value(order, ring, k) by {
        assert(after.subrange(ENTRY_SIZE * k + 8, ENTRY_SIZE * k + 16) =~= ring.subrange(
            ENTRY_SIZE * k + 8,
            ENTRY_SIZE * k + 16,
        ));
    }
    assert forall|k: int| 0 <= k < N_ENTRIES && k != slot implies #[trigger] stored_checksum(
        order,
        after,
        k,
    ) == stored_checksum(order, ring, k) by {
        assert(after.subrange(ENTRY_SIZE * k, ENTRY_SIZE * k + 8) =~= ring.subrange(
            ENTRY_SIZE * k,
            ENTRY_SIZE * k + 8,
        ));
    }
}

/// The update protocol keeps the journal consistent at every step: once the
/// entry is written the old state still stands, and so does the new one,
/// which is settled.
pub proof fn lemma_update_keeps_consistent(
    order: ByteOrder,
    ring: Seq<u8>,
    cursor: int,
    value: u64,
    new_value: u64,
)
    requires
        consistent(order, ring, cursor, value),
        value <= new_value,
    ensures
        consistent(order, written(order, ring, next_slot(cursor), new_value), cursor, value),
        consistent(
            order,
            written(order, ring, next_slot(cursor), new_value),
            next_slot(cursor),
            new_value,
        ),
        settled(order, written(order, ring, next_slot(cursor), new_value), new_value),
{
    let slot = next_slot(cursor);
    let after = written(order, ring, slot, new_value);
    lemma_written(order, ring, slot, new_value);
    assert forall|k: int| 0 <= k < N_ENTRIES && k != slot implies validates(order, after, k)
        == validates(order, ring, k) by {
        assert(stored_value(order, after, k) == stored_value(order, ring, k));
        assert(stored_checksum(order, after, k) == stored_checksum(order, ring, k));
    }
    assert forall|k: int| 0 <= k < N_ENTRIES && #[trigger] validates(order, after, k) implies
        stored_value(order, after, k) <= new_value by {
        if k != slot {
            assert(validates(order, ring, k));
            assert(stored_value(order, after, k) == stored_value(order, ring, k));
        }
    }
    assert(validates(order, after, cursor) == validates(order, ring, cursor));
    assert(stored_value(order, after, cursor) == stored_value(order, ring, cursor));
}

/// Journal durability: whichever step of an update was the last to happen,
/// opening the journal again yields the value of before the update or the
/// value of after it. As long as the entry has not been written, the ring
/// is the old one and yields the old value; from then on, it yields the
/// new one.
pub proof fn lemma_update_is_durable(
    order: ByteOrder,
    ring: Seq<u8>,
    cursor: int,
    value: u64,
    new_value: u64,
)
    requires
        consistent(order, ring, cursor, value),
        settled(order, ring, value),
        value <= new_value,
    ensures
        recovered_value(order, ring) == value,
        recovered_value(order, written(order, ring, next_slot(cursor), new_value)) == new_value,
{
    lemma_recovery_of_settled(order, ring, cursor, value);
    lemma_update_keeps_consistent(order, ring, cursor, value, new_value);
    lemma_recovery_of_settled(
        order,
        written(order, ring, next_slot(cursor), new_value),
        next_slot(cursor),
        new_value,
    );
}

/// Torn writes: if an update leaves anything in its slot that does not
/// validate, opening the journal again yields the value of before the
/// update.
pub proof fn lemma_torn_write_is_ignored(
    order: ByteOrder,
    ring: Seq<u8>,
    cursor: int,
    value: u64,
    torn: Seq<u8>,
)
    requires
        consistent(order, ring, cursor, value),
        settled(order, ring, value),
        torn.len() == ENTRY_SIZE,
        !validates(order, overwrite(ring, ENTRY_SIZE * next_slot(cursor), torn), next_slot(cursor)),
    ensures
        recovered_value(order, overwrite(ring, ENTRY_SIZE * next_slot(cursor), torn)) == value,
{
    let slot = next_slot(cursor);
    let after = overwrite(ring, ENTRY_SIZE * slot, torn);
    assert forall|k: int| 0 <= k < N_ENTRIES && k != slot implies validates(order, after, k)
        == validates(order, ring, k) && stored_value(order, after, k) == stored_value(
        order,
        ring,
        k,
    ) by {
        assert(after.subrange(ENTRY_SIZE * k, ENTRY_SIZE * k + 8) =~= ring.subrange(
            ENTRY_SIZE * k,
            ENTRY_SIZE * k + 8,
        ));
        assert(after.subrange(ENTRY_SIZE * k + 8, ENTRY_SIZE * k + 16) =~= ring.subrange(
            ENTRY_SIZE * k + 8,
            ENTRY_SIZE * k + 16,
        ));
    }
    assert forall|k: int| 0 <= k < N_ENTRIES && #[trigger] validates(order, after, k) implies
        stored_value(order, after, k) <= value by {
        assert(validates(order, ring, k));
    }
    assert(validates(order, after, cursor) == validates(order, ring, cursor));
    lemma_recovery_of_settled(order, after, cursor, value);
}

/// A crash-resistant register of incrementing values
///
/// Useful for keeping track of writeheads into other collections, specifically
/// `AppendOnly`
pub struct Journal {
    file_name: String,
    mapping: MappedFile,
    latest_entry_index: usize,
    value: u64,
    order: ByteOrder,
}

impl Journal {
    /// The name of the file that holds the ring.
    pub closed spec fn file(&self) -> Seq<char> {
        self.file_name@
    }

    /// Whether the ring lies in anonymous memory, with no file behind it.
    pub closed spec fn in_memory(&self) -> bool {
        self.mapping.anonymous()
    }

    /// The bytes of the ring.
    pub closed spec fn ring(&self) -> Seq<u8> {
        self.mapping@
    }

    /// The value that the journal holds.
    pub closed spec fn current(&self) -> u64 {
        self.value
    }

    /// The slot of the latest entry.
    pub closed spec fn cursor(&self) -> int {
        self.latest_entry_index as int
    }

    /// The byte order of the entries.
    pub closed spec fn byte_order(&self) -> ByteOrder {
        self.order
    }

    /// The invariant of the journal.
    pub open spec fn well_formed(&self) -> bool {
        consistent(self.byte_order(), self.ring(), self.cursor(), self.current())
    }

    /// No update of this journal was left unfinished: opening the journal
    /// again yields its value.
    pub open spec fn is_settled(&self) -> bool {
        settled(self.byte_order(), self.ring(), self.current())
    }

    /// Reads the entry in slot `slot`: its checksum and its value.
    fn entry(order: ByteOrder, mapping: &MappedFile, slot: usize) -> (r: (u64, u64))
        requires
            mapping@.len() == JOURNAL_SIZE,
            slot < N_ENTRIES,
        ensures
            r.0 == stored_checksum(order, mapping@, slot as int),
            r.1 == stored_value(order, mapping@, slot as int),
    {
        let at: usize = slot * ENTRY_SIZE;
        let checksum = decode_u64(order, mapping.read(at, 8));
        let value = decode_u64(order, mapping.read(at + 8, 8));
        (checksum, value)
    }

    /// Looks at every entry of a ring and returns the slot and the value of
    /// the latest entry: the first that validates with the largest value.
    pub fn recover(order: ByteOrder, mapping: &MappedFile) -> (r: (usize, u64))
        requires
            mapping@.len() == JOURNAL_SIZE,
        ensures
            r.0 == recovered_slot(order, mapping@),
            r.1 == recovered_value(order, mapping@),
            r.0 < N_ENTRIES,
    {
        let mut latest_entry_index: usize = 0;
        let mut candidate: u64 = 0;
        let mut i: usize = 0;
        while i < N_ENTRIES
            invariant
                i <= N_ENTRIES,
                mapping@.len() == JOURNAL_SIZE,
                (latest_entry_index as int, candidate) == scan(order, mapping@, i as nat),
                latest_entry_index < N_ENTRIES,
            decreases N_ENTRIES - i,
        {
            let (checksum, value) = Self::entry(order, mapping, i);
            if default_hash_u64(value) == checksum {
                if value > candidate {
                    latest_entry_index = i;
                    candidate = value;
                }
            }
            i = i + 1;
        }
        (latest_entry_index, candidate)
    }

    /// The value that the journal holds.
    pub fn value(&self) -> (r: u64)
        ensures
            r == self.current(),
    {
        self.value
    }

    /// Takes a closure that is given the guarded value and returns the new
    /// value together with a result of its own, which is handed on.
    ///
    /// The new value is written to the slot after the latest entry and
    /// flushed; only then does the journal take it for its own. The value
    /// of a journal never falls: the closure has to return at least what it
    /// was given.
    pub fn update<R, F: FnOnce(u64) -> (u64, R)>(&mut self, f: F) -> (r: Result<R, FillError>)
        requires
            old(self).well_formed(),
            f.requires((old(self).current(),)),
            forall|out: (u64, R)| f.ensures((old(self).current(),), out)
                ==> out.0 >= old(self).current(),
        ensures
            final(self).well_formed(),
            final(self).byte_order() == old(self).byte_order(),
            final(self).file() == old(self).file(),
            final(self).in_memory() == old(self).in_memory(),
            final(self).current() >= old(self).current(),
            old(self).in_memory() ==> r is Ok,
            match r {
                Ok(result) => {
                    &&& f.ensures((old(self).current(),), (final(self).current(), result))
                    &&& final(self).cursor() == next_slot(old(self).cursor())
                    &&& final(self).ring() == written(
                        old(self).byte_order(),
                        old(self).ring(),
                        next_slot(old(self).cursor()),
                        final(self).current(),
                    )
                    &&& final(self).is_settled()
                },
                Err(e) => {
                    &&& e is Io
                    &&& final(self).current() == old(self).current()
                    &&& final(self).cursor() == old(self).cursor()
                    &&& exists|out: (u64, R)|
                        f.ensures((old(self).current(),), out) && final(self).ring() == written(
                            old(self).byte_order(),
                            old(self).ring(),
                            next_slot(old(self).cursor()),
                            out.0,
                        )
                },
            },
    {
        let old_value: u64 = self.value;
        let out = f(old_value);
        let ghost seen = out;
        let (value, result) = out;
        let next_entry: usize = (self.latest_entry_index + 1) % N_ENTRIES;
        let mut entry = encode_u64(self.order, default_hash_u64(value));
        let mut tail = encode_u64(self.order, value);
        entry.append(&mut tail);
        proof {
            assert(entry@ =~= entry_bytes(self.order, value));
            lemma_update_keeps_consistent(
                self.order,
                self.mapping@,
                self.latest_entry_index as int,
                old_value,
                value,
            );
        }
        self.mapping.store(next_entry * ENTRY_SIZE, entry.as_slice());
        match self.mapping.flush() {
            Ok(()) => {
                self.latest_entry_index = next_entry;
                self.value = value;
                Ok(result)
            },
            Err(e) => {
                proof {
                    assert(f.ensures((old(self).current(),), seen) && self.ring() == written(
                        old(self).byte_order(),
                        old(self).ring(),
                        next_slot(old(self).cursor()),
                        seen.0,
                    ));
                }
                Err(e)
            },
        }
    }

    /// Closes the journal: its file goes back to the landfill with the ring
    /// as it stands.
    pub fn close(self, landfill: &mut Landfill)
        requires
            old(landfill).wf(),
        ensures
            final(landfill).wf(),
            final(landfill).same_flags(*old(landfill)),
            final(landfill).same_claims(*old(landfill)),
            final(landfill).present(self.file()),
            final(landfill).contents(self.file()) == self.ring(),
            !final(landfill).fresh(self.file()),
            final(landfill).files_but(*old(landfill), self.file()),
    {
        landfill.put_back(self.file_name, self.mapping)
    }

    /// Flushes the ring to disk.
    pub fn flush(&self) -> (r: Result<(), FillError>)
        ensures
            r matches Err(e) ==> e is Io && !self.in_memory(),
    {
        self.mapping.flush()
    }
}

impl Substructure for Journal {
    open spec fn wf(&self) -> bool {
        self.well_formed()
    }

    /// The ring has a file behind it.
    open spec fn file_backed(&self) -> bool {
        !self.in_memory()
    }

    /// The journal stands over the file with the empty name below `scope`,
    /// or over zeroes where an ephemeral landfill has no such file, and
    /// holds what is recovered from it.
    open spec fn opened(&self, was: Landfill, now: Landfill, scope: Seq<char>) -> bool {
        let name = joined(scope, Seq::<char>::empty());
        &&& !was.reserved(name)
        &&& now.claims_with(was, name)
        &&& self.file() == name
        &&& self.byte_order() == was.byte_order()
        &&& self.is_settled()
        &&& self.current() == recovered_value(self.byte_order(), self.ring())
        &&& self.cursor() == recovered_slot(self.byte_order(), self.ring())
        &&& if was.present(name) {
            self.ring() == was.contents(name) && now.files_without(was, name)
        } else {
            was.ephemeral_spec() && self.in_memory() && self.ring() == zeroes(
                JOURNAL_SIZE as nat,
            ) && now.same_files(was)
        }
    }

    /// The file of a journal cannot be claimed twice, is asked for where a
    /// landfill on disk has none, and has to be one page long.
    open spec fn refused(e: FillError, was: Landfill, scope: Seq<char>) -> bool {
        let name = joined(scope, Seq::<char>::empty());
        match e {
            FillError::Duplicate => was.reserved(name),
            FillError::Unmapped { name: wanted, size } => {
                &&& wanted@ == name
                &&& size == JOURNAL_SIZE
                &&& !was.reserved(name)
                &&& !was.present(name)
                &&& !was.ephemeral_spec()
            },
            FillError::SizeMismatch { name: wanted, size } => {
                &&& wanted@ == name
                &&& size == JOURNAL_SIZE
                &&& !was.reserved(name)
                &&& was.present(name)
                &&& was.contents(name).len() != JOURNAL_SIZE
            },
            FillError::Io(_) => !was.reserved(name) && !was.present(name) && was.ephemeral_spec(),
            _ => false,
        }
    }

    /// Opens the journal whose file bears the empty name below `scope`,
    /// creating the file if there is none, and recovers the latest value
    /// from it. A failed attempt leaves the landfill as it was.
    fn init(landfill: &mut Landfill, scope: GuardedLandfill) -> (r: Result<Self, FillError>)
        ensures
            r is Err ==> final(landfill).unchanged_from(*old(landfill)),
    {
        let order = landfill.order();
        proof {
            reveal_strlit("");
            assert(""@ =~= Seq::<char>::empty());
        }
        let file_name = join_names(scope.full_name().as_str(), "");
        let mapped = landfill.map_file_create(&scope, "", JOURNAL_SIZE as u64);
        proof {
            let name = joined(scope@, ""@);
            crate::landfill::lemma_below_joined(scope@, ""@);
            if landfill.same_files(*old(landfill)) {
                old(landfill).lemma_same_files_untouched(*landfill, scope@);
            } else {
                old(landfill).lemma_files_but_untouched(*landfill, name, scope@);
            }
        }
        match mapped {
            Ok(Some(mapping)) => {
                let (latest_entry_index, value) = Self::recover(order, &mapping);
                proof {
                    lemma_recovery_is_consistent(order, mapping@);
                    landfill.lemma_claims_with(*old(landfill), joined(scope@, ""@));
                    assert forall|n: Seq<char>| #[trigger] landfill.present(n)
                        implies old(landfill).present(n) by {
                        if n != joined(scope@, ""@) {
                            assert(landfill.present(n) == old(landfill).present(n));
                        }
                    }
                }
                Ok(Journal { file_name, mapping, latest_entry_index, value, order })
            },
            Ok(None) => {
                proof {
                    assert(old(landfill).claims().is_prefix_of(landfill.claims()));
                }
                Err(FillError::Duplicate)
            },
            Err(e) => {
                proof {
                    assert(old(landfill).claims().is_prefix_of(landfill.claims()));
                }
                Err(e)
            },
        }
    }

    /// Flushes the ring to disk; a ring in anonymous memory has nothing to
    /// flush and succeeds.
    fn flush(&self) -> (r: Result<(), FillError>) {
        Journal::flush(self)
    }
}

} // verus!
