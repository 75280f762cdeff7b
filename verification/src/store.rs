//! A log with an index over it: what a map of keys to values and a store of
//! content are made of.

use vstd::prelude::*;
use crate::appendonly::{journal_file, AppendOnly};
use crate::entropy::ENTROPY_SIZE;
use crate::errors::FillError;
use crate::journal::JOURNAL_SIZE;
use crate::bytes::{lane_name, misfit};
use crate::landfill::{
    below, joined, lemma_apart, lemma_below_joined, lemma_joined_assoc, GuardedLandfill,
    Landfill, Substructure,
};
use crate::smash::{slot_lane_file, SmashMap};

verus! {

/// Name of the file of the journal of the log of a store that stands below
/// `scope`.
pub open spec fn store_journal_file(scope: Seq<char>) -> Seq<char> {
    journal_file(joined(scope, "data"@))
}

/// Name of the file of the seeds of the index of a store that stands below
/// `scope`.
pub open spec fn store_seeds_file(scope: Seq<char>) -> Seq<char> {
    joined(joined(scope, "index"@), "entropy"@)
}

/// The file of the seeds of the index does not lie below the name of the
/// log.
pub proof fn lemma_seeds_outside_log(scope: Seq<char>)
    ensures
        !below(joined(scope, "data"@), store_seeds_file(scope)),
{
    reveal_strlit("data");
    reveal_strlit("index");
    reveal_strlit("entropy");
    let data = joined(scope, "data"@);
    let seeds = store_seeds_file(scope);
    lemma_joined_assoc(scope, "index"@, "entropy"@);
    let rest = joined("index"@, "entropy"@);
    assert(seeds == joined(scope, rest));
    assert(rest[0] == 'i');
    assert("data"@[0] == 'd');
    if scope.len() == 0 {
        assert(seeds[0] == 'i');
        assert(data[0] == 'd');
        if seeds.len() > data.len() {
            assert(seeds.subrange(0, data.len() as int)[0] == seeds[0]);
        }
    } else {
        let at = scope.len() + 1;
        assert(seeds[at as int] == 'i');
        assert(data[at as int] == 'd');
        if seeds.len() > data.len() {
            assert(seeds.subrange(0, data.len() as int)[at as int] == seeds[at as int]);
        }
    }
}

/// A log and an index are what opening a store below `scope` gives, where
/// the landfill was `was` before and is `now` afterwards: the log is opened
/// under the name `data`, the index under the name `index` after it.
pub open spec fn parts_opened(
    log: AppendOnly<4096>,
    index: SmashMap<16, 4096>,
    was: Landfill,
    now: Landfill,
    scope: Seq<char>,
) -> bool {
    exists|claimed: Landfill, logged: Landfill, reclaimed: Landfill|
        {
            &&& was.claimed_for(claimed, joined(scope, "data"@))
            &&& #[trigger] log.opened(claimed, logged, joined(scope, "data"@))
            &&& logged.claimed_for(reclaimed, joined(scope, "index"@))
            &&& #[trigger] index.opened(reclaimed, now, joined(scope, "index"@))
        }
}

/// Why a store cannot be opened below `scope`: a landfill on disk lacks
/// the file of the journal or, with that in place, the file of the seeds,
/// and asks for it; or a file that waits for the store has the wrong
/// length; or a name of the store is claimed; or its log cannot be opened;
/// or, with the log opened, its index cannot be.
pub open spec fn parts_refused(e: FillError, was: Landfill, scope: Seq<char>) -> bool {
    let data = joined(scope, "data"@);
    let index = joined(scope, "index"@);
    match e {
        FillError::Unmapped { name, size } => {
            &&& !was.ephemeral_spec()
            &&& {
                ||| (name@ == store_journal_file(scope) && size == JOURNAL_SIZE && !was.present(
                    store_journal_file(scope),
                ))
                ||| (name@ == store_seeds_file(scope) && size == ENTROPY_SIZE && was.present(
                    store_journal_file(scope),
                ) && !was.present(store_seeds_file(scope)))
            }
        },
        _ => {
            ||| ((e is SizeMismatch || e is BadLaneSize) && (AppendOnly::<4096>::refused(
                e,
                was,
                data,
            ) || SmashMap::<16, 4096>::refused(e, was, index)))
            ||| e is Duplicate && was.reserved(data)
            ||| exists|claimed: Landfill|
                was.claimed_for(claimed, data) && #[trigger] AppendOnly::<4096>::refused(
                    e,
                    claimed,
                    data,
                )
            ||| exists|claimed: Landfill, log: AppendOnly<4096>, logged: Landfill|
                {
                    &&& was.claimed_for(claimed, data)
                    &&& #[trigger] log.opened(claimed, logged, data)
                    &&& {
                        ||| e is Duplicate && logged.reserved(index)
                        ||| exists|reclaimed: Landfill|
                            logged.claimed_for(reclaimed, index) && #[trigger] SmashMap::<
                                16,
                                4096,
                            >::refused(e, reclaimed, index)
                    }
                }
        },
    }
}

/// Opens the log and the index of a store below `scope`.
///
/// The files that have to be made for a landfill on disk are asked for
/// before anything is opened, and so are the lengths of the files that
/// wait, so that an attempt that asks for a file has taken none. Where no file waits in the landfill, neither the log nor
/// the index has a file behind it.
pub fn open_parts(landfill: &mut Landfill, scope: &GuardedLandfill) -> (r: Result<
    (AppendOnly<4096>, SmashMap<16, 4096>),
    FillError,
>)
    requires
        old(landfill).wf(),
    ensures
        final(landfill).wf(),
        final(landfill).grown_from(*old(landfill)),
        final(landfill).untouched_outside(*old(landfill), scope@),
        match r {
            Ok(parts) => parts.0.well_formed() && parts.1.well_formed() && parts_opened(
                parts.0,
                parts.1,
                *old(landfill),
                *final(landfill),
                scope@,
            ) && (old(landfill).holds_no_file() ==> !parts.0.on_disk()
                && !parts.1.array().arena().on_disk()),
            Err(e) => parts_refused(e, *old(landfill), scope@) && (e is Unmapped || e
                is SizeMismatch ==> final(landfill).same_files(*old(landfill))),
        },
{
    let ghost was = *landfill;
    let ghost prefix = scope@;
    proof {
        was.lemma_grows(*landfill);
        was.lemma_same_files_untouched(*landfill, prefix);
        reveal_strlit("");
        assert(""@ =~= Seq::<char>::empty());
    }
    if !landfill.is_ephemeral() {
        let data_name = scope.branch("data").branch("journal").branch("").inner();
        if !landfill.is_present(&data_name) {
            return Err(FillError::Unmapped { name: data_name, size: JOURNAL_SIZE as u64 });
        }
        let seeds_name = scope.branch("index").branch("entropy").inner();
        if !landfill.is_present(&seeds_name) {
            return Err(FillError::Unmapped { name: seeds_name, size: ENTROPY_SIZE as u64 });
        }
    }
    match AppendOnly::<4096>::vet(landfill, &scope.branch("data")) {
        Ok(()) => {},
        Err(e) => {
            return Err(e);
        },
    }
    match SmashMap::<16, 4096>::vet(landfill, &scope.branch("index")) {
        Ok(()) => {},
        Err(e) => {
            return Err(e);
        },
    }
    let logging = landfill.substructure_in::<AppendOnly<4096>>(scope, "data");
    proof {
        lemma_below_joined(prefix, "data"@);
        was.lemma_untouched_widens(*landfill, joined(prefix, "data"@), prefix);
    }
    let log: AppendOnly<4096> = match logging {
        Ok(log) => log,
        Err(e) => {
            proof {
                let data = joined(prefix, "data"@);
                if e is Unmapped && !was.reserved(data) {
                    let claimed = choose|claimed: Landfill|
                        was.claimed_for(claimed, data) && #[trigger] AppendOnly::<4096>::refused(
                            e,
                            claimed,
                            data,
                        );
                    assert(claimed.present(store_journal_file(prefix)) == was.present(
                        store_journal_file(prefix),
                    ));
                }
            }
            return Err(e);
        },
    };
    let ghost logged = *landfill;
    let ghost claimed = choose|claimed: Landfill|
        was.claimed_for(claimed, joined(prefix, "data"@)) && #[trigger] log.opened(
            claimed,
            logged,
            joined(prefix, "data"@),
        );
    let indexing = landfill.substructure_in::<SmashMap<16, 4096>>(scope, "index");
    proof {
        lemma_below_joined(prefix, "index"@);
        logged.lemma_untouched_widens(*landfill, joined(prefix, "index"@), prefix);
        was.lemma_untouched_twice(logged, *landfill, prefix);
        was.lemma_grows_on(logged, *landfill);
    }
    match indexing {
        Ok(index) => {
            proof {
                let reclaimed = choose|reclaimed: Landfill|
                    logged.claimed_for(reclaimed, joined(prefix, "index"@))
                        && #[trigger] index.opened(
                        reclaimed,
                        *landfill,
                        joined(prefix, "index"@),
                    );
                assert(log.opened(claimed, logged, joined(prefix, "data"@)) && index.opened(
                    reclaimed,
                    *landfill,
                    joined(prefix, "index"@),
                ));
            }
            Ok((log, index))
        },
        Err(e) => {
            proof {
                let name = joined(prefix, "index"@);
                let seeds = store_seeds_file(prefix);
                assert(log.opened(claimed, logged, joined(prefix, "data"@)));
                if e is SizeMismatch {
                    // The lengths of the lane files of the index were
                    // looked at when the attempt began, and the log has
                    // left the files alone.
                    let reclaimed = choose|reclaimed: Landfill|
                        logged.claimed_for(reclaimed, name) && #[trigger] SmashMap::<
                            16,
                            4096,
                        >::refused(e, reclaimed, name);
                    SmashMap::<16, 4096>::lemma_size_refusal(e, reclaimed, name);
                    let lane = choose|lane: nat| #[trigger]
                        misfit(4096, reclaimed, slot_lane_file(name, lane), lane);
                    let file = slot_lane_file(name, lane);
                    let tail = joined("array"@, lane_name(lane));
                    reveal_strlit("data");
                    reveal_strlit("index");
                    reveal_strlit("slots");
                    reveal_strlit("array");
                    lemma_joined_assoc(joined(name, "slots"@), "array"@, lane_name(lane));
                    lemma_joined_assoc(name, "slots"@, tail);
                    lemma_apart(prefix, "data"@, "index"@, joined("slots"@, tail));
                    reclaimed.lemma_claims_with(logged, name);
                    assert(reclaimed.present(file) == logged.present(file));
                    assert(logged.present(file) == was.present(file));
                    assert(misfit(4096, was, file, lane));
                    assert(false);
                }
                if e is Unmapped {
                    // The seeds were there when the attempt began, and the
                    // log has left them alone.
                    lemma_seeds_outside_log(prefix);
                    assert(logged.present(seeds) == was.present(seeds));
                    if !logged.reserved(name) {
                        let reclaimed = choose|reclaimed: Landfill|
                            logged.claimed_for(reclaimed, name) && #[trigger] SmashMap::<
                                16,
                                4096,
                            >::refused(e, reclaimed, name);
                        let seeded = choose|seeded: Landfill|
                            reclaimed.claimed_for(seeded, seeds)
                                && #[trigger] crate::entropy::Entropy::refused(e, seeded, seeds);
                        assert(seeded.present(seeds) == reclaimed.present(seeds));
                        assert(reclaimed.present(seeds) == logged.present(seeds));
                    }
                    assert(false);
                }
            }
            Err(e)
        },
    }
}

} // verus!
