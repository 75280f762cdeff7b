//! The append-only log.

use vstd::prelude::*;
use crate::bytes::{lane_name, misfit, DiskBytes};
use crate::errors::FillError;
use crate::journal::{recovered_value, Journal, JOURNAL_SIZE};
use crate::landfill::{
    asks_resize, joined, lemma_joined_assoc, lemma_joined_differ, GuardedLandfill, Landfill,
    Substructure,
};
use crate::mapped::zeroes;
use crate::lanes::{
    has_space, is_first_space, lane_nr, lane_size, lemma_lane_bounds,
    lemma_lane_limits, lemma_lane_start_step, valid_init, N_LANES,
};

verus! {

/// AppendOnly
/// Since the collection can only grow, and written bytes never move in memory,
/// it is possible to keep shared references into the stored bytes, while still
/// appending new data.
pub struct AppendOnly<const INIT_SIZE: u64> {
    name: String,
    bytes: DiskBytes<INIT_SIZE>,
    journal: Journal,
}

impl<const INIT_SIZE: u64> AppendOnly<INIT_SIZE> {
    /// The arena that holds the records.
    pub closed spec fn arena(&self) -> DiskBytes<INIT_SIZE> {
        self.bytes
    }

    /// The journal that holds the writehead.
    pub closed spec fn register(&self) -> Journal {
        self.journal
    }

    /// The name under which the log stands in its landfill.
    pub closed spec fn scope(&self) -> Seq<char> {
        self.name@
    }

    /// The next free offset.
    pub open spec fn writehead(&self) -> u64 {
        self.register().current()
    }

    /// The bytes of the record of `len` bytes at `offset`, if the log can
    /// read them.
    pub open spec fn record(&self, offset: nat, len: nat) -> Option<Seq<u8>> {
        self.arena().bytes_at(offset, len)
    }

    /// The invariant of the log: arena and journal are well formed and
    /// stand below the name of the log.
    pub open spec fn well_formed(&self) -> bool {
        &&& self.arena().well_formed()
        &&& self.register().well_formed()
        &&& self.arena().scope() == joined(self.scope(), "bytes"@)
        &&& self.register().file() == journal_file(self.scope())
    }

    /// Why a write of `len` bytes fails with the error `e`: there is no
    /// space for them; or the lane of the space that there is is not mapped
    /// and cannot be had from the landfill, which is left as it was; or the
    /// lane is mapped now and the journal, which has a file behind it, could
    /// not be flushed.
    pub open spec fn write_refused(
        &self,
        was: Landfill,
        now: Landfill,
        len: nat,
        alignment: nat,
        e: FillError,
    ) -> bool {
        let init = INIT_SIZE as nat;
        let head = self.writehead() as nat;
        if !has_space(init, head, len, alignment) {
            e is OutOfSpace && now.unchanged_from(was)
        } else {
            exists|offset: nat| #[trigger]
                is_first_space(init, head, len, alignment, offset) && {
                    let lane = lane_nr(init, offset);
                    ||| (self.arena().lane(lane as int) is None && self.arena().lane_refused(
                        was,
                        lane,
                        e,
                    ) && now.unchanged_from(was))
                    ||| (e is Io && !self.register().in_memory() && self.arena().lane_granted(
                        was,
                        now,
                        lane,
                    ))
                }
        }
    }

    /// Write a slice of bytes into the store returning their offset
    ///
    /// The record goes to the first place at or after the writehead where
    /// it fits into one lane on a multiple of `alignment`, and the
    /// writehead moves to the end of the record. No record that was written
    /// before changes.
    pub fn write_aligned(&mut self, landfill: &mut Landfill, bytes: &[u8], alignment: usize) -> (r:
        Result<u64, FillError>)
        requires
            old(self).well_formed(),
            old(landfill).wf(),
        ensures
            final(self).well_formed(),
            final(landfill).wf(),
            final(landfill).grown_from(*old(landfill)),
            final(self).writehead() >= old(self).writehead(),
            final(self).scope() == old(self).scope(),
            old(landfill).holds_no_file() && !old(self).on_disk() ==> !final(self).on_disk(),
            forall|at: nat, len: nat|
                at + len <= old(self).writehead() && (#[trigger] old(self).record(at, len))
                    is Some ==> final(self).record(at, len) == old(self).record(at, len),
            ({
                let init = INIT_SIZE as nat;
                let head = old(self).writehead() as nat;
                match r {
                    Ok(offset) => {
                        &&& is_first_space(
                            init,
                            head,
                            bytes@.len(),
                            alignment as nat,
                            offset as nat,
                        )
                        &&& final(self).writehead() == offset + bytes@.len()
                        &&& final(self).record(offset as nat, bytes@.len()) == Some(bytes@)
                        &&& final(self).register().is_settled()
                        &&& old(self).arena().lane_granted(
                            *old(landfill),
                            *final(landfill),
                            lane_nr(init, offset as nat),
                        )
                    },
                    Err(e) => {
                        &&& final(self).writehead() == old(self).writehead()
                        &&& old(self).write_refused(
                            *old(landfill),
                            *final(landfill),
                            bytes@.len(),
                            alignment as nat,
                            e,
                        )
                    },
                }
            }),
    {
        let ghost init = INIT_SIZE as nat;
        let ghost before = *self;
        proof {
            before.bytes.lemma_lane_len(0);
        }
        let len: usize = bytes.len();
        let head: u64 = self.journal.value();
        let write_offset: u64 = match DiskBytes::<INIT_SIZE>::checked_find_space_for(
            head,
            len,
            alignment,
        ) {
            Some(found) => found,
            None => {
                return Err(FillError::OutOfSpace);
            },
        };
        proof {
            lemma_first_space_is_one(
                init,
                head as nat,
                len as nat,
                alignment as nat,
                write_offset as nat,
            );
            lemma_lane_bounds(init, write_offset as nat);
            lemma_lane_limits(init, lane_nr(init, write_offset as nat));
            lemma_lane_start_step(init, lane_nr(init, write_offset as nat));
        }
        match self.bytes.request_lane(landfill, write_offset, len) {
            Ok(_) => {},
            Err(e) => {
                proof {
                    assert forall|at: nat, len: nat|
                        at + len <= before.writehead() && (#[trigger] before.record(at, len))
                            is Some implies self.record(at, len) == before.record(at, len) by {
                        assert(self.bytes.lane(lane_nr(init, at) as int) == before.bytes.lane(
                            lane_nr(init, at) as int,
                        ));
                    }
                }
                return Err(e);
            },
        }
        let ghost granted = *self;
        let ghost asked = *landfill;
        proof {
            assert forall|at: nat, len: nat|
                at + len <= before.writehead() && (#[trigger] before.record(at, len))
                    is Some implies granted.record(at, len) == before.record(at, len) by {
                let there = lane_nr(init, at) as int;
                if there != lane_nr(init, write_offset as nat) {
                    assert(granted.bytes.lane(there) == before.bytes.lane(there));
                }
            }
        }
        let end: u64 = write_offset + len as u64;
        let advance = |writehead: u64| -> (out: (u64, u64))
            ensures
                out.0 == end,
                out.1 == write_offset,
            { (end, write_offset) };
        match self.journal.update(advance) {
            Ok(_) => {},
            Err(e) => {
                return Err(e);
            },
        }
        match self.bytes.request_write(landfill, write_offset, bytes) {
            Ok(()) => {
                proof {
                    assert forall|at: nat, len: nat|
                        at + len <= before.writehead() && (#[trigger] before.record(at, len))
                            is Some implies self.record(at, len) == before.record(at, len) by {
                        assert(granted.record(at, len) == before.record(at, len));
                        granted.bytes.lemma_write_keeps_others(
                            self.bytes,
                            asked,
                            write_offset as nat,
                            bytes@,
                            at,
                            len,
                        );
                    }
                }
                Ok(write_offset)
            },
            // The lane is mapped and holds the record: the write cannot fail.
            Err(_) => unreached(),
        }
    }

    /// Write a slice of bytes into the store returning their offset
    pub fn write(&mut self, landfill: &mut Landfill, bytes: &[u8]) -> (r: Result<u64, FillError>)
        requires
            old(self).well_formed(),
            old(landfill).wf(),
        ensures
            final(self).well_formed(),
            final(landfill).wf(),
            final(landfill).grown_from(*old(landfill)),
            final(self).writehead() >= old(self).writehead(),
            final(self).scope() == old(self).scope(),
            old(landfill).holds_no_file() && !old(self).on_disk() ==> !final(self).on_disk(),
            forall|at: nat, len: nat|
                at + len <= old(self).writehead() && (#[trigger] old(self).record(at, len))
                    is Some ==> final(self).record(at, len) == old(self).record(at, len),
            match r {
                Ok(offset) => {
                    &&& is_first_space(
                        INIT_SIZE as nat,
                        old(self).writehead() as nat,
                        bytes@.len(),
                        1,
                        offset as nat,
                    )
                    &&& final(self).writehead() == offset + bytes@.len()
                    &&& final(self).record(offset as nat, bytes@.len()) == Some(bytes@)
                },
                Err(e) => final(self).writehead() == old(self).writehead()
                    && old(self).write_refused(*old(landfill), *final(landfill), bytes@.len(), 1,
                    e),
            },
    {
        self.write_aligned(landfill, bytes, 1)
    }

    /// The data at offset and length, if the log holds it.
    pub fn read(&self, offset: u64, len: u32) -> (r: Option<&[u8]>)
        requires
            self.well_formed(),
        ensures
            match r {
                Some(bytes) => self.record(offset as nat, len as nat) == Some(bytes@),
                None => self.record(offset as nat, len as nat) is None,
            },
    {
        self.bytes.read(offset, len)
    }

    /// Get a reference to the data at offset and length
    pub fn get(&self, offset: u64, len: u32) -> (r: &[u8])
        requires
            self.well_formed(),
            self.record(offset as nat, len as nat) is Some,
        ensures
            Some(r@) == self.record(offset as nat, len as nat),
    {
        match self.bytes.read(offset, len) {
            Some(bytes) => bytes,
            None => unreached(),
        }
    }

    /// The next free offset: where the search for the place of the next
    /// record begins.
    pub fn head(&self) -> (r: u64)
        ensures
            r == self.writehead(),
    {
        self.journal.value()
    }

    /// Closes the log: the files of the journal and of every mapped lane
    /// go back to the landfill as they stand.
    pub fn close(self, landfill: &mut Landfill)
        requires
            self.well_formed(),
            old(landfill).wf(),
        ensures
            final(landfill).wf(),
            final(landfill).same_flags(*old(landfill)),
            final(landfill).same_claims(*old(landfill)),
            final(landfill).present(journal_file(self.scope())),
            final(landfill).contents(journal_file(self.scope())) == self.register().ring(),
            forall|i: int|
                0 <= i < N_LANES ==> (#[trigger] self.arena().lane(i) matches Some(bytes) ==> {
                    &&& final(landfill).present(log_lane_file(self.scope(), i as nat))
                    &&& final(landfill).contents(log_lane_file(self.scope(), i as nat)) == bytes
                }),
    {
        let ghost prefix = self.name@;
        self.journal.close(landfill);
        let ghost journaled = *landfill;
        proof {
            assert forall|n: Seq<char>| self.bytes.is_lane_file(n) implies n != journal_file(
                prefix,
            ) by {
                let lane = choose|lane: nat| lane < N_LANES && n == #[trigger] self.bytes.lane_file(
                    lane,
                );
                lemma_log_names(prefix, lane);
            }
        }
        self.bytes.close(landfill);
        proof {
            assert(landfill.present(journal_file(prefix)) == journaled.present(
                journal_file(prefix),
            ));
            assert forall|i: int| 0 <= i < N_LANES implies (
            #[trigger] self.arena().lane(i) matches Some(bytes) ==> {
                &&& landfill.present(log_lane_file(prefix, i as nat))
                &&& landfill.contents(log_lane_file(prefix, i as nat)) == bytes
            }) by {
                assert(self.bytes.lane_file(i as nat) == log_lane_file(prefix, i as nat));
            }
        }
    }

    /// Append-only across restarts: a log that is opened over the files
    /// that a log left behind reads every record as the other did, and
    /// starts where the other stopped.
    ///
    /// `self` is the log before the restart, with no update of its journal
    /// left unfinished. `was` is the landfill that `reopened` was opened
    /// from, under the same name: its directory holds the journal and the
    /// lanes of `self` as they stood.
    pub proof fn lemma_restart_keeps_records(&self, reopened: Self, was: Landfill, now: Landfill)
        requires
            self.well_formed(),
            self.register().is_settled(),
            reopened.opened(was, now, self.scope()),
            was.byte_order() == self.register().byte_order(),
            was.present(journal_file(self.scope())),
            was.contents(journal_file(self.scope())) == self.register().ring(),
            forall|i: int|
                0 <= i < N_LANES ==> (#[trigger] self.arena().lane(i) matches Some(bytes) ==> {
                    &&& was.present(log_lane_file(self.scope(), i as nat))
                    &&& !was.reserved(log_lane_file(self.scope(), i as nat))
                    &&& was.contents(log_lane_file(self.scope(), i as nat)) == bytes
                }),
        ensures
            reopened.writehead() == self.writehead(),
            forall|at: nat, len: nat|
                (#[trigger] self.record(at, len)) is Some ==> reopened.record(at, len)
                    == self.record(at, len),
    {
        crate::journal::lemma_recovery_of_settled(
            self.register().byte_order(),
            self.register().ring(),
            self.register().cursor(),
            self.register().current(),
        );
        assert forall|at: nat, len: nat| (#[trigger] self.record(at, len))
            is Some implies reopened.record(at, len) == self.record(at, len) by {
            assert forall|i: int| self.arena().lane(i) is Some implies reopened.arena().lane(i)
                == #[trigger] self.arena().lane(i) by {
                self.arena().lemma_lane_len(i);
            }
            self.arena().lemma_same_lanes_read_the_same(reopened.arena(), at, len);
        }
    }

    /// Nothing can be read at or beyond the end of the last lane.
    pub proof fn lemma_nothing_beyond(&self, offset: nat, len: nat)
        requires
            self.well_formed(),
            offset >= 0xffff_ffff_0000_0001,
        ensures
            self.record(offset, len) is None,
    {
        self.arena().lemma_lane_len(0);
        self.arena().lemma_nothing_beyond(offset, len);
    }

    /// Looks at the files that wait for a log below `scope` before the log
    /// is opened over them: the file of the journal has to be one page
    /// long, and each lane file as long as its lane. One that is not
    /// is to be set to that length, which the error asks for.
    pub fn vet(landfill: &Landfill, scope: &GuardedLandfill) -> (r: Result<(), FillError>)
        requires
            landfill.wf(),
        ensures
            match r {
                Ok(()) => {
                    &&& valid_init(INIT_SIZE as nat)
                    &&& !(!landfill.reserved(journal_file(scope@)) && landfill.present(
                        journal_file(scope@),
                    ) && landfill.contents(journal_file(scope@)).len() != JOURNAL_SIZE)
                    &&& forall|lane: nat|
                        !#[trigger] misfit(
                            INIT_SIZE as nat,
                            *landfill,
                            log_lane_file(scope@, lane),
                            lane,
                        )
                },
                Err(e) => (e is SizeMismatch || e is BadLaneSize) && Self::refused(
                    e,
                    *landfill,
                    scope@,
                ),
            },
    {
        let ring = scope.branch("journal");
        proof {
            reveal_strlit("");
            assert(""@ =~= Seq::<char>::empty());
            assert(joined(ring@, ""@) == journal_file(scope@));
        }
        match landfill.vet(&ring, "", JOURNAL_SIZE as u64) {
            Ok(()) => {},
            Err(e) => {
                return Err(e);
            },
        }
        let lanes = scope.branch("bytes");
        let r = DiskBytes::<INIT_SIZE>::vet(landfill, &lanes);
        proof {
            if r is Ok {
                assert forall|lane: nat|
                    !#[trigger] misfit(
                        INIT_SIZE as nat,
                        *landfill,
                        log_lane_file(scope@, lane),
                        lane,
                    ) by {
                    assert(!misfit(
                        INIT_SIZE as nat,
                        *landfill,
                        joined(lanes@, lane_name(lane)),
                        lane,
                    ));
                }
            } else if r->Err_0 is SizeMismatch {
                let e = r->Err_0;
                let lane = choose|lane: nat| #[trigger]
                    misfit(INIT_SIZE as nat, *landfill, joined(lanes@, lane_name(lane)), lane)
                        && asks_resize(
                        e,
                        joined(lanes@, lane_name(lane)),
                        lane_size(INIT_SIZE as nat, lane),
                    );
                assert(misfit(INIT_SIZE as nat, *landfill, log_lane_file(scope@, lane), lane));
            }
        }
        r
    }

    /// A lane of the log or its journal has a file behind it.
    pub open spec fn on_disk(&self) -> bool {
        self.arena().on_disk() || !self.register().in_memory()
    }

    /// Flushes the records and the journal to disk.
    ///
    /// A log that lies in anonymous memory altogether has nothing to flush
    /// and succeeds. Else the flush fails with what the operating system
    /// says of the first lane that it cannot flush, or of the journal.
    pub fn flush(&self) -> (r: Result<(), FillError>)
        requires
            self.well_formed(),
        ensures
            r matches Err(e) ==> e is Io && self.on_disk(),
    {
        match self.bytes.flush() {
            Ok(()) => self.journal.flush(),
            Err(e) => Err(e),
        }
    }
}

/// The first place where a record fits is the only first place.
pub proof fn lemma_first_space_is_one(
    init: nat,
    offset: nat,
    len: nat,
    alignment: nat,
    found: nat,
)
    requires
        is_first_space(init, offset, len, alignment, found),
    ensures
        has_space(init, offset, len, alignment),
        forall|other: nat| #[trigger]
            is_first_space(init, offset, len, alignment, other) ==> other == found,
{
    assert(crate::lanes::is_space(init, offset, len, alignment, found));
    assert forall|other: nat| #[trigger]
        is_first_space(init, offset, len, alignment, other) implies other == found by {
        if other < found {
            assert(!crate::lanes::is_space(init, offset, len, alignment, other));
        }
        if found < other {
            assert(!crate::lanes::is_space(init, offset, len, alignment, found));
        }
    }
}

/// Name of the file of the journal of a log that stands below `scope`.
pub open spec fn journal_file(scope: Seq<char>) -> Seq<char> {
    joined(joined(scope, "journal"@), Seq::<char>::empty())
}

/// Name of the file of lane `lane` of a log that stands below `scope`.
pub open spec fn log_lane_file(scope: Seq<char>, lane: nat) -> Seq<char> {
    joined(joined(scope, "bytes"@), lane_name(lane))
}

/// The files of a log and the names that it claims on the way differ from
/// one another.
pub proof fn lemma_log_names(scope: Seq<char>, lane: nat)
    ensures
        log_lane_file(scope, lane) != joined(scope, "journal"@),
        log_lane_file(scope, lane) != journal_file(scope),
        log_lane_file(scope, lane) != joined(scope, "bytes"@),
        journal_file(scope) != joined(scope, "bytes"@),
        joined(scope, "journal"@) != joined(scope, "bytes"@),
{
    reveal_strlit("journal");
    reveal_strlit("bytes");
    let j = "journal"@;
    let b = "bytes"@;
    let empty = Seq::<char>::empty();
    lemma_joined_assoc(scope, b, lane_name(lane));
    lemma_joined_assoc(scope, j, empty);
    let lane_part = joined(b, lane_name(lane));
    let journal_part = joined(j, empty);
    assert(lane_part[0] == 'b');
    assert(journal_part[0] == 'j');
    assert(j[0] == 'j');
    assert(b[0] == 'b');
    assert(lane_part.len() == 8);
    assert(b.len() == 5);
    lemma_joined_differ(scope, lane_part, j);
    lemma_joined_differ(scope, lane_part, journal_part);
    lemma_joined_differ(scope, lane_part, b);
    lemma_joined_differ(scope, journal_part, b);
    lemma_joined_differ(scope, j, b);
}

impl<const INIT_SIZE: u64> Substructure for AppendOnly<INIT_SIZE> {
    open spec fn wf(&self) -> bool {
        self.well_formed()
    }

    /// A lane of the log or its journal has a file behind it.
    open spec fn file_backed(&self) -> bool {
        self.on_disk()
    }

    /// The writehead is what the journal recovers from its file, and each
    /// lane is mapped if its file was waiting unclaimed, and holds what the
    /// file held.
    open spec fn opened(&self, was: Landfill, now: Landfill, scope: Seq<char>) -> bool {
        &&& self.register().is_settled()
        &&& self.writehead() == recovered_value(
            self.register().byte_order(),
            self.register().ring(),
        )
        &&& self.register().byte_order() == was.byte_order()
        &&& self.register().ring() == (if was.present(journal_file(scope)) {
            was.contents(journal_file(scope))
        } else {
            zeroes(JOURNAL_SIZE as nat)
        })
        &&& self.scope() == scope
        &&& self.arena().scope() == joined(scope, "bytes"@)
        &&& self.register().file() == journal_file(scope)
        &&& forall|i: int|
            0 <= i < N_LANES ==> #[trigger] self.arena().lane(i) == (if was.present(
                log_lane_file(scope, i as nat),
            ) && !was.reserved(log_lane_file(scope, i as nat)) {
                Some(was.contents(log_lane_file(scope, i as nat)))
            } else {
                None
            })
    }

    /// A log cannot be opened where one of its names is claimed, nor over
    /// files of the wrong length; the file of its journal is asked for
    /// where a landfill on disk has none.
    open spec fn refused(e: FillError, was: Landfill, scope: Seq<char>) -> bool {
        match e {
            FillError::Duplicate => was.reserved(joined(scope, "journal"@)) || was.reserved(
                journal_file(scope),
            ) || was.reserved(joined(scope, "bytes"@)),
            FillError::Unmapped { name, size } => {
                &&& name@ == journal_file(scope)
                &&& size == JOURNAL_SIZE
                &&& !was.present(journal_file(scope))
                &&& !was.ephemeral_spec()
            },
            FillError::SizeMismatch { .. } => (was.present(journal_file(scope)) && was.contents(
                journal_file(scope),
            ).len() != JOURNAL_SIZE && asks_resize(e, journal_file(scope), JOURNAL_SIZE as nat))
                || (valid_init(INIT_SIZE as nat) && exists|lane: nat|
                #[trigger] misfit(INIT_SIZE as nat, was, log_lane_file(scope, lane), lane)
                    && asks_resize(
                    e,
                    log_lane_file(scope, lane),
                    lane_size(INIT_SIZE as nat, lane),
                )),
            FillError::Io(_) => was.ephemeral_spec() && !was.present(journal_file(scope)),
            FillError::BadLaneSize => !valid_init(INIT_SIZE as nat),
            _ => false,
        }
    }

    /// Opens the log below `scope`: the journal first, then the lanes that
    /// exist. The lengths of the files are looked at before any of them is
    /// taken.
    fn init(landfill: &mut Landfill, scope: GuardedLandfill) -> (r: Result<Self, FillError>)
    {
        let ghost was = *landfill;
        let ghost prefix = scope@;
        proof {
            was.lemma_grows(*landfill);
            was.lemma_same_files_untouched(*landfill, prefix);
        }
        match Self::vet(landfill, &scope) {
            Ok(()) => {},
            Err(e) => {
                return Err(e);
            },
        }
        let name = scope.full_name();
        let opening = landfill.substructure_in::<Journal>(&scope, "journal");
        proof {
            crate::landfill::lemma_below_joined(prefix, "journal"@);
            was.lemma_untouched_widens(*landfill, joined(prefix, "journal"@), prefix);
        }
        let journal: Journal = match opening {
            Ok(journal) => journal,
            Err(e) => {
                proof {
                    let name = joined(prefix, "journal"@);
                    if !was.reserved(name) {
                        let claimed = choose|claimed: Landfill|
                            was.claimed_for(claimed, name) && #[trigger] Journal::refused(
                                e,
                                claimed,
                                name,
                            );
                        claimed.lemma_claims_with(was, name);
                        reveal_strlit("journal");
                        assert(name.len() > 0);
                        assert(journal_file(prefix).len() == name.len() + 1);
                        assert(claimed.reserved(journal_file(prefix)) == was.reserved(
                            journal_file(prefix),
                        ));
                        assert(claimed.present(journal_file(prefix)) == was.present(
                            journal_file(prefix),
                        ));
                        assert(claimed.ephemeral_spec() == was.ephemeral_spec());
                    }
                }
                return Err(e);
            },
        };
        let ghost opened = *landfill;
        let ghost first = choose|claimed: Landfill|
            was.claimed_for(claimed, joined(prefix, "journal"@)) && #[trigger] journal.opened(
                claimed,
                opened,
                joined(prefix, "journal"@),
            );
        proof {
            first.lemma_claims_with(was, joined(prefix, "journal"@));
            opened.lemma_claims_with(first, journal_file(prefix));
        }
        let arena = landfill.substructure_in::<DiskBytes<INIT_SIZE>>(&scope, "bytes");
        proof {
            crate::landfill::lemma_below_joined(prefix, "bytes"@);
            opened.lemma_untouched_widens(*landfill, joined(prefix, "bytes"@), prefix);
            was.lemma_untouched_twice(opened, *landfill, prefix);
        }
        match arena {
            Ok(bytes) => {
                let ghost second = choose|claimed: Landfill|
                    opened.claimed_for(claimed, joined(prefix, "bytes"@))
                        && #[trigger] bytes.opened(
                        claimed,
                        *landfill,
                        joined(prefix, "bytes"@),
                    );
                proof {
                    second.lemma_claims_with(opened, joined(prefix, "bytes"@));
                    assert(was.claims().is_prefix_of(landfill.claims())) by {
                        assert forall|i: int| 0 <= i < was.claims().len() implies was.claims()[i]
                            == landfill.claims()[i] by {
                            assert(opened.claims()[i] == was.claims()[i]);
                        }
                    }
                    assert forall|n: Seq<char>| #[trigger] landfill.present(n) implies was.present(
                        n,
                    ) by {
                        assert(opened.present(n));
                    }
                    assert forall|i: int| 0 <= i < N_LANES implies #[trigger] bytes.lane(i) == (
                    if was.present(log_lane_file(prefix, i as nat)) && !was.reserved(
                        log_lane_file(prefix, i as nat),
                    ) {
                        Some(was.contents(log_lane_file(prefix, i as nat)))
                    } else {
                        None
                    }) by {
                        let name = log_lane_file(prefix, i as nat);
                        lemma_log_names(prefix, i as nat);
                        assert(second.present(name) == opened.present(name));
                        assert(opened.present(name) == first.present(name));
                        assert(first.present(name) == was.present(name));
                    }
                }
                Ok(AppendOnly { name, bytes, journal })
            },
            Err(e) => {
                proof {
                    let name = joined(prefix, "bytes"@);
                    if !opened.reserved(name) {
                        let second = choose|claimed: Landfill|
                            opened.claimed_for(claimed, name) && #[trigger] DiskBytes::<
                                INIT_SIZE,
                            >::refused(e, claimed, name);
                        second.lemma_claims_with(opened, name);
                        if e is SizeMismatch {
                            let lane = choose|lane: nat| #[trigger]
                                misfit(
                                    INIT_SIZE as nat,
                                    second,
                                    joined(name, lane_name(lane)),
                                    lane,
                                ) && asks_resize(
                                    e,
                                    joined(name, lane_name(lane)),
                                    lane_size(INIT_SIZE as nat, lane),
                                );
                            let file = log_lane_file(prefix, lane);
                            lemma_log_names(prefix, lane);
                            assert(second.present(file) == opened.present(file));
                            assert(opened.present(file) == first.present(file));
                            assert(first.present(file) == was.present(file));
                            assert(misfit(INIT_SIZE as nat, was, file, lane));
                        }
                    }
                    lemma_log_names(prefix, 0);
                    assert(was.claims().is_prefix_of(landfill.claims())) by {
                        assert forall|i: int| 0 <= i < was.claims().len() implies was.claims()[i]
                            == landfill.claims()[i] by {
                            assert(opened.claims()[i] == was.claims()[i]);
                        }
                    }
                    assert forall|n: Seq<char>| #[trigger] landfill.present(n) implies was.present(
                        n,
                    ) by {
                        assert(opened.present(n));
                    }
                }
                Err(e)
            },
        }
    }

    /// Flushes the records and the journal to disk; a log that lies in
    /// anonymous memory altogether has nothing to flush and succeeds.
    fn flush(&self) -> (r: Result<(), FillError>) {
        AppendOnly::flush(self)
    }
}

} // verus!
