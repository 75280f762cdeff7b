//! The landfill: a directory of named, memory-mapped files.
//!
//! A `Landfill` keeps the book of one directory: which names have been
//! claimed by a structure, which files of the directory are mapped and wait
//! to be claimed, and whether the directory is to be removed when the
//! landfill goes away. It never touches the file system itself. Whoever owns
//! the directory maps its files and hands them over with [`Landfill::open`]
//! and [`Landfill::supply`]; an ephemeral landfill has no directory and maps
//! anonymous memory instead.

use vstd::prelude::*;
use crate::errors::FillError;
use crate::helpers::native_byte_order;
use crate::helpers::ByteOrder;
use crate::mapped::MappedFile;
use crate::mapped::overwrite;
use crate::mapped::zeroes;

verus! {

/// The name that results from putting `second` below `first`.
pub open spec fn joined(first: Seq<char>, second: Seq<char>) -> Seq<char> {
    if first.len() == 0 {
        second
    } else {
        first + seq!['_'] + second
    }
}

/// Joins two names with an underscore; an empty first name is left out.
pub fn join_names(name1: &str, name2: &str) -> (r: String)
    ensures
        r@ == joined(name1@, name2@),
{
    if name1.is_empty() {
        String::from_str(name2)
    } else {
        proof {
            reveal_strlit("_");
            assert("_"@ =~= seq!['_']);
        }
        let mut name = String::from_str(name1);
        name.append("_");
        name.append(name2);
        name
    }
}

/// Putting names below one another can be done in any grouping.
pub proof fn lemma_joined_assoc(a: Seq<char>, b: Seq<char>, c: Seq<char>)
    requires
        b.len() > 0,
    ensures
        joined(joined(a, b), c) == joined(a, joined(b, c)),
{
    assert(joined(joined(a, b), c) =~= joined(a, joined(b, c)));
}

/// Names below one prefix differ when they differ themselves.
pub proof fn lemma_joined_differ(prefix: Seq<char>, a: Seq<char>, b: Seq<char>)
    requires
        a != b,
    ensures
        joined(prefix, a) != joined(prefix, b),
{
    if prefix.len() > 0 && joined(prefix, a) == joined(prefix, b) {
        let ja = joined(prefix, a);
        let jb = joined(prefix, b);
        let skip = prefix.len() + 1;
        assert(ja.subrange(skip as int, ja.len() as int) =~= a);
        assert(jb.subrange(skip as int, jb.len() as int) =~= b);
    }
}

/// The name `name` lies below the name `scope`: it is the name itself, or
/// begins with it and an underscore. Every name lies below the empty name.
pub open spec fn below(scope: Seq<char>, name: Seq<char>) -> bool {
    ||| scope.len() == 0
    ||| name == scope
    ||| (name.len() > scope.len() && name.subrange(0, scope.len() as int) == scope
        && name[scope.len() as int] == '_')
}

/// Names that part at their first letter below one scope lie apart:
/// nothing below the one is the other or lies below the other.
pub proof fn lemma_apart(scope: Seq<char>, a: Seq<char>, b: Seq<char>, rest: Seq<char>)
    requires
        a.len() > 0,
        b.len() > 0,
        a[0] != b[0],
    ensures
        !below(joined(scope, a), joined(joined(scope, b), rest)),
        !below(joined(scope, a), joined(scope, b)),
        joined(joined(scope, b), rest) != joined(scope, a),
{
    let x = joined(scope, a);
    let y = joined(scope, b);
    let z = joined(y, rest);
    let at: int = if scope.len() == 0 {
        0
    } else {
        (scope.len() + 1) as int
    };
    assert(x[at] == a[0]);
    assert(y[at] == b[0]);
    assert(z[at] == b[0]);
    if z.len() > x.len() {
        assert(z.subrange(0, x.len() as int)[at] == z[at]);
    }
    if y.len() > x.len() {
        assert(y.subrange(0, x.len() as int)[at] == y[at]);
    }
}

/// What is put below a name lies below it.
pub proof fn lemma_below_joined(scope: Seq<char>, rest: Seq<char>)
    ensures
        below(scope, joined(scope, rest)),
{
    if scope.len() > 0 {
        let name = joined(scope, rest);
        assert(name.subrange(0, scope.len() as int) =~= scope);
    }
}

/// What lies below a name that lies below another lies below the other.
pub proof fn lemma_below_below(outer: Seq<char>, inner: Seq<char>, name: Seq<char>)
    requires
        below(outer, inner),
        below(inner, name),
    ensures
        below(outer, name),
{
    if outer.len() > 0 && name != outer && inner != outer && name != inner {
        if inner.len() == 0 {
        } else {
            assert(name.subrange(0, outer.len() as int) =~= inner.subrange(0, outer.len() as int))
                by {
                assert(name.subrange(0, inner.len() as int) == inner);
                assert forall|i: int| 0 <= i < outer.len() implies name[i] == inner[i] by {
                    assert(name.subrange(0, inner.len() as int)[i] == name[i]);
                }
            }
            let at = outer.len() as int;
            assert(name.subrange(0, inner.len() as int)[at] == name[at]);
        }
    }
}

/// A mapped file of the directory that no structure has claimed yet.
pub struct Supplied {
    /// Name of the file inside the directory.
    pub name: String,
    /// The mapping of the whole file.
    pub file: MappedFile,
    /// Whether the file was created for this landfill, as opposed to found
    /// in the directory when it was opened.
    pub fresh: bool,
}

/// A name scope inside a landfill.
///
/// Files that a structure maps are named by the scope's prefix and their own
/// name. A scope for a structure is handed out by
/// [`Landfill::substructure`] once the structure's name has been claimed.
pub struct GuardedLandfill {
    name_prefix: String,
}

impl View for GuardedLandfill {
    type V = Seq<char>;

    closed spec fn view(&self) -> Seq<char> {
        self.name_prefix@
    }
}

impl GuardedLandfill {
    /// The scope of the landfill itself, with an empty prefix.
    pub fn root() -> (r: GuardedLandfill)
        ensures
            r@ == Seq::<char>::empty(),
    {
        GuardedLandfill { name_prefix: String::new() }
    }

    /// Create a sub-namespace of this scope
    ///
    /// This works by setting a filename prefix, and does not create any
    /// filesystem directories
    pub fn branch(&self, name: &str) -> (r: GuardedLandfill)
        ensures
            r@ == joined(self@, name@),
    {
        GuardedLandfill { name_prefix: join_names(self.name_prefix.as_str(), name) }
    }

    /// The full name of this scope.
    pub fn full_name(&self) -> (r: String)
        ensures
            r@ == self@,
    {
        self.name_prefix.clone()
    }

    /// Returns the wrapped name, consuming the guard
    pub fn inner(self) -> (r: String)
        ensures
            r@ == self@,
    {
        self.name_prefix
    }
}

/// The error `e` asks for the file called `name` to be set to `size` bytes.
pub open spec fn asks_resize(e: FillError, name: Seq<char>, size: nat) -> bool {
    e matches FillError::SizeMismatch { name: wanted, size: length } && wanted@ == name && length
        == size
}

/// A datastructure that can be constructed from a landfill
pub trait Substructure: Sized {
    /// The structure's own invariant.
    spec fn wf(&self) -> bool;

    /// The structure is what initializing it below the name `scope` gives,
    /// where the landfill was `was` before and is `now` afterwards.
    spec fn opened(&self, was: Landfill, now: Landfill, scope: Seq<char>) -> bool;

    /// The error `e` is one that initializing a structure of this type
    /// below the name `scope` can end with, where the landfill was `was`.
    spec fn refused(e: FillError, was: Landfill, scope: Seq<char>) -> bool;

    /// Some part of the structure has a file behind it, not anonymous
    /// memory, so that there is something to flush.
    spec fn file_backed(&self) -> bool;

    /// Initialize a datastructure of this type, backed by `landfill`, with
    /// `scope` as the prefix of the names it claims.
    ///
    /// An attempt that ends with [`FillError::Unmapped`] or with
    /// [`FillError::SizeMismatch`] has taken no file out of the landfill, so
    /// that it can be repeated once the file is as it is asked for, and no
    /// attempt touches a file that does not lie below the name of the
    /// scope. A structure that is made where no file
    /// waits in the landfill has no file behind it.
    fn init(landfill: &mut Landfill, scope: GuardedLandfill) -> (r: Result<Self, FillError>)
        requires
            old(landfill).wf(),
        ensures
            final(landfill).wf(),
            final(landfill).grown_from(*old(landfill)),
            final(landfill).untouched_outside(*old(landfill), scope@),
            match r {
                Ok(s) => s.wf() && s.opened(*old(landfill), *final(landfill), scope@) && (old(
                    landfill,
                ).holds_no_file() ==> !s.file_backed()),
                Err(e) => Self::refused(e, *old(landfill), scope@) && (e is Unmapped || e
                    is SizeMismatch ==> final(landfill).same_files(*old(landfill))),
            },
    ;

    /// Flush all data to disk
    ///
    /// A structure without a file behind it has nothing to flush and
    /// succeeds. Else the flush fails with what the operating system says
    /// of the first file that it cannot flush.
    fn flush(&self) -> (r: Result<(), FillError>)
        requires
            self.wf(),
        ensures
            r matches Err(e) ==> e is Io && self.file_backed(),
    ;
}

/// The datastructure representing an on-disk data dump
///
/// This abstraction corresponds to a directory in the filesystem
/// which can host files for multiple datastructures
///
/// The data in a `Landfill` should be considered siloed, it contains both
/// secret nonces that could be used to DOS hash-maps if known, and machine-specific
/// endian data. Not for sharing.
///
/// It is also strictly growing, and only supports one delete operation, the self
/// destruct sequence, that removes all data associated with itself when triggered.
pub struct Landfill {
    ephemeral: bool,
    order: ByteOrder,
    reserved_names: Vec<String>,
    supplied: Vec<Supplied>,
    self_destruct_sequence_initiated: bool,
}

/// Position of the first of `names` that equals `name`, or the length of
/// `names` if none does.
pub open spec fn first_index_of(names: Seq<Seq<char>>, name: Seq<char>) -> int
    decreases names.len(),
{
    if names.len() == 0 {
        0
    } else if names[0] == name {
        0
    } else {
        1 + first_index_of(names.drop_first(), name)
    }
}

/// The first position of a name among others is where the name stands,
/// with no such name before it, and is beyond them all where none of them
/// is the name.
proof fn lemma_first_index_of(names: Seq<Seq<char>>, name: Seq<char>)
    ensures
        0 <= first_index_of(names, name) <= names.len(),
        first_index_of(names, name) < names.len() ==> names[first_index_of(names, name)] == name,
        forall|i: int| 0 <= i < first_index_of(names, name) ==> names[i] != name,
        names.contains(name) <==> first_index_of(names, name) < names.len(),
    decreases names.len(),
{
    if names.len() == 0 {
    } else if names[0] == name {
    } else {
        let rest = names.drop_first();
        lemma_first_index_of(rest, name);
        let k = first_index_of(rest, name);
        assert forall|i: int| 0 <= i < 1 + k implies names[i] != name by {
            if i > 0 {
                assert(rest[i - 1] == names[i]);
            }
        }
        if names.contains(name) {
            let j = choose|j: int| 0 <= j < names.len() && names[j] == name;
            assert(rest[j - 1] == name);
            assert(rest.contains(name));
        }
        if k < rest.len() {
            assert(names[1 + k] == rest[k]);
        }
    }
}

/// Name of the file that marks a directory as held by an open landfill.
pub open spec fn lock_name() -> Seq<char> {
    "_lock"@
}

/// The names of the files in `found`, in order.
pub open spec fn names_of(found: Seq<(String, MappedFile)>) -> Seq<Seq<char>> {
    found.map(|i: int, f: (String, MappedFile)| f.0@)
}

impl Landfill {
    /// Names of the files that wait to be claimed, in the order in which
    /// they were handed over.
    pub closed spec fn supplied_names(&self) -> Seq<Seq<char>> {
        self.supplied@.map(|i: int, s: Supplied| s.name@)
    }

    /// The invariant of the book: no two waiting files share a name, and
    /// no name is claimed twice.
    pub closed spec fn wf(&self) -> bool {
        self.supplied_names().no_duplicates() && self.claims().no_duplicates()
    }

    /// Whether the landfill has no directory behind it.
    pub closed spec fn ephemeral_spec(&self) -> bool {
        self.ephemeral
    }

    /// The names that have been claimed, in the order of the claims.
    pub closed spec fn claims(&self) -> Seq<Seq<char>> {
        self.reserved_names@.map(|i: int, s: String| s@)
    }

    /// The byte order in which the structures of this landfill lay out
    /// integers: that of the machine.
    pub closed spec fn byte_order(&self) -> ByteOrder {
        self.order
    }

    /// Whether `name` has been claimed.
    pub open spec fn reserved(&self, name: Seq<char>) -> bool {
        self.claims().contains(name)
    }

    /// Whether a file called `name` waits to be claimed.
    pub closed spec fn present(&self, name: Seq<char>) -> bool {
        self.supplied_names().contains(name)
    }

    /// What the waiting file called `name` holds.
    pub closed spec fn contents(&self, name: Seq<char>) -> Seq<u8>
        recommends
            self.present(name),
    {
        self.supplied@[first_index_of(self.supplied_names(), name)].file@
    }

    /// Whether the waiting file called `name` was created for this landfill.
    pub closed spec fn fresh(&self, name: Seq<char>) -> bool
        recommends
            self.present(name),
    {
        self.supplied@[first_index_of(self.supplied_names(), name)].fresh
    }

    /// Whether the directory is to be removed with the landfill.
    pub closed spec fn destructing(&self) -> bool {
        self.self_destruct_sequence_initiated
    }

    /// The waiting files are those of `other`.
    pub open spec fn same_files(&self, other: Landfill) -> bool {
        forall|n: Seq<char>|
            {
                &&& #[trigger] self.present(n) == other.present(n)
                &&& self.present(n) ==> self.contents(n) == other.contents(n) && self.fresh(n)
                    == other.fresh(n)
            }
    }

    /// But for the one called `name`, the waiting files are those of
    /// `other`.
    pub open spec fn files_but(&self, other: Landfill, name: Seq<char>) -> bool {
        forall|n: Seq<char>|
            n != name ==> {
                &&& #[trigger] self.present(n) == other.present(n)
                &&& self.present(n) ==> self.contents(n) == other.contents(n) && self.fresh(n)
                    == other.fresh(n)
            }
    }

    /// The files that do not lie below the name `scope` wait as they did
    /// in `other`.
    pub open spec fn untouched_outside(&self, other: Landfill, scope: Seq<char>) -> bool {
        forall|n: Seq<char>|
            !below(scope, n) ==> {
                &&& #[trigger] self.present(n) == other.present(n)
                &&& self.present(n) ==> self.contents(n) == other.contents(n) && self.fresh(n)
                    == other.fresh(n)
            }
    }

    /// The waiting files are those of `other` without the one called `name`.
    pub open spec fn files_without(&self, other: Landfill, name: Seq<char>) -> bool {
        &&& !self.present(name)
        &&& self.files_but(other, name)
    }

    /// The claims are those of `other`.
    pub open spec fn same_claims(&self, other: Landfill) -> bool {
        self.claims() == other.claims()
    }

    /// The claims are those of `other`, followed by `name`.
    pub open spec fn claims_with(&self, other: Landfill, name: Seq<char>) -> bool {
        self.claims() == other.claims().push(name)
    }

    /// Mode and self-destruct flag are those of `other`.
    pub open spec fn same_flags(&self, other: Landfill) -> bool {
        &&& self.ephemeral_spec() == other.ephemeral_spec()
        &&& self.destructing() == other.destructing()
        &&& self.byte_order() == other.byte_order()
    }

    /// No file waits in the landfill. A landfill that no file is supplied
    /// to stays so.
    pub open spec fn holds_no_file(&self) -> bool {
        forall|n: Seq<char>| !#[trigger] self.present(n)
    }

    /// Nothing differs from `other`.
    pub open spec fn unchanged_from(&self, other: Landfill) -> bool {
        &&& self.same_flags(other)
        &&& self.same_claims(other)
        &&& self.same_files(other)
    }

    /// This landfill is a later state of `other`: every claim of `other`
    /// still stands, and no file has appeared.
    pub open spec fn grown_from(&self, other: Landfill) -> bool {
        &&& self.same_flags(other)
        &&& other.claims().is_prefix_of(self.claims())
        &&& forall|n: Seq<char>| #[trigger] self.present(n) ==> other.present(n)
    }

    /// A landfill whose claims begin with those of `self` and which has no
    /// file that `self` has not is a later state of `self`; so is one that
    /// has not changed.
    pub proof fn lemma_grows(&self, later: Landfill)
        requires
            later.same_flags(*self),
            later.unchanged_from(*self) || (self.claims().is_prefix_of(later.claims()) && forall|
                n: Seq<char>,
            | #[trigger] later.present(n) ==> self.present(n)),
        ensures
            later.grown_from(*self),
    {
        if later.unchanged_from(*self) {
            assert(self.claims().is_prefix_of(later.claims()));
        }
    }

    /// A later state of a later state is a later state.
    pub proof fn lemma_grows_on(&self, between: Landfill, later: Landfill)
        requires
            between.grown_from(*self),
            later.grown_from(between),
        ensures
            later.grown_from(*self),
    {
        assert(self.claims().is_prefix_of(later.claims())) by {
            assert forall|i: int| 0 <= i < self.claims().len() implies self.claims()[i]
                == later.claims()[i] by {
                assert(between.claims()[i] == self.claims()[i]);
            }
        }
        assert forall|n: Seq<char>| #[trigger] later.present(n) implies self.present(n) by {
            assert(between.present(n));
        }
    }

    /// What has left the files outside a name alone has left those outside
    /// every name above it alone.
    pub proof fn lemma_untouched_widens(
        &self,
        later: Landfill,
        inner: Seq<char>,
        outer: Seq<char>,
    )
        requires
            later.untouched_outside(*self, inner),
            below(outer, inner),
        ensures
            later.untouched_outside(*self, outer),
    {
        assert forall|n: Seq<char>| !below(outer, n) implies {
            &&& #[trigger] later.present(n) == self.present(n)
            &&& later.present(n) ==> later.contents(n) == self.contents(n) && later.fresh(n)
                == self.fresh(n)
        } by {
            if below(inner, n) {
                lemma_below_below(outer, inner, n);
            }
        }
    }

    /// Two steps that leave the files outside a name alone leave them alone
    /// together.
    pub proof fn lemma_untouched_twice(&self, between: Landfill, later: Landfill, scope: Seq<char>)
        requires
            between.untouched_outside(*self, scope),
            later.untouched_outside(between, scope),
        ensures
            later.untouched_outside(*self, scope),
    {
        assert forall|n: Seq<char>| !below(scope, n) implies {
            &&& #[trigger] later.present(n) == self.present(n)
            &&& later.present(n) ==> later.contents(n) == self.contents(n) && later.fresh(n)
                == self.fresh(n)
        } by {
            assert(between.present(n) == self.present(n));
        }
    }

    /// A landfill whose files wait as they did has left every file alone.
    pub proof fn lemma_same_files_untouched(&self, later: Landfill, scope: Seq<char>)
        requires
            later.same_files(*self),
        ensures
            later.untouched_outside(*self, scope),
    {
    }

    /// A landfill whose files wait as they did, but for one that lies below
    /// a name, has left the files outside the name alone.
    pub proof fn lemma_files_but_untouched(
        &self,
        later: Landfill,
        name: Seq<char>,
        scope: Seq<char>,
    )
        requires
            later.files_but(*self, name),
            below(scope, name),
        ensures
            later.untouched_outside(*self, scope),
    {
    }

    /// After one more claim, the claimed names are those of before and the
    /// new one.
    pub proof fn lemma_claims_with(&self, other: Landfill, name: Seq<char>)
        requires
            self.claims_with(other, name),
        ensures
            forall|n: Seq<char>| #[trigger] self.reserved(n) == (other.reserved(n) || n == name),
            other.claims().is_prefix_of(self.claims()),
    {
        let before = other.claims();
        let after = self.claims();
        assert forall|n: Seq<char>| #[trigger] self.reserved(n) == (other.reserved(n) || n
            == name) by {
            if other.reserved(n) {
                let i = choose|i: int| 0 <= i < before.len() && before[i] == n;
                assert(after[i] == n);
            }
            if n == name {
                assert(after[before.len() as int] == n);
            }
            if self.reserved(n) && n != name {
                let i = choose|i: int| 0 <= i < after.len() && after[i] == n;
                assert(before[i] == n);
            }
        }
    }

    /// Create a landfill backed by anonymous memory only
    pub fn ephemeral() -> (r: Result<Landfill, FillError>)
        ensures
            r matches Ok(lf) && lf.wf() && lf.ephemeral_spec() && !lf.destructing()
                && lf.claims().len() == 0 && (forall|n: Seq<char>| !lf.present(n)),
    {
        let lf = Landfill {
            ephemeral: true,
            order: native_byte_order(),
            reserved_names: Vec::new(),
            supplied: Vec::new(),
            self_destruct_sequence_initiated: false,
        };
        proof {
            assert(lf.supplied_names() =~= Seq::<Seq<char>>::empty());
        }
        Ok(lf)
    }

    /// Opens a Landfill for further data dumping
    ///
    /// `found` holds the files of the directory, each mapped at its full
    /// length; all prior data is ready to be re-requested. A directory that
    /// holds a file called `_lock` is held by a landfill that is open, and
    /// is refused as [`FillError::Locked`]. Two files of one name cannot
    /// come from a directory: they are refused as [`FillError::Duplicate`].
    pub fn open(found: Vec<(String, MappedFile)>) -> (r: Result<Landfill, FillError>)
        ensures
            names_of(found@).contains(lock_name()) <==> r matches Err(FillError::Locked),
            match r {
                Ok(lf) => {
                    &&& lf.wf()
                    &&& !lf.ephemeral_spec()
                    &&& !lf.destructing()
                    &&& lf.claims().len() == 0
                    &&& names_of(found@).no_duplicates()
                    &&& forall|n: Seq<char>|
                        #[trigger] lf.present(n) == (exists|i: int|
                            0 <= i < found@.len() && found@[i].0@ == n)
                    &&& forall|i: int|
                        0 <= i < found@.len() ==> lf.contents(#[trigger] found@[i].0@)
                            == found@[i].1@ && !lf.fresh(found@[i].0@)
                },
                Err(e) => e is Locked || (e is Duplicate && !names_of(found@).no_duplicates()),
            },
    {
        let lock = String::from_str("_lock");
        let mut seen: usize = 0;
        while seen < found.len()
            invariant
                seen <= found@.len(),
                lock@ == lock_name(),
                forall|i: int| 0 <= i < seen ==> names_of(found@)[i] != lock_name(),
            decreases found@.len() - seen,
        {
            if found[seen].0 == lock {
                proof {
                    assert(names_of(found@)[seen as int] == lock_name());
                }
                return Err(FillError::Locked);
            }
            seen = seen + 1;
        }
        proof {
            assert(!names_of(found@).contains(lock_name()));
        }
        let mut lf = Landfill {
            ephemeral: false,
            order: native_byte_order(),
            reserved_names: Vec::new(),
            supplied: Vec::new(),
            self_destruct_sequence_initiated: false,
        };
        let ghost names = names_of(found@);
        let ghost all = found@;
        let mut rest = found;
        proof {
            assert(lf.supplied_names() =~= Seq::<Seq<char>>::empty());
        }
        // Files are taken from the back, so that none has to be moved.
        while rest.len() > 0
            invariant
                !lf.ephemeral,
                !lf.self_destruct_sequence_initiated,
                lf.reserved_names@.len() == 0,
                lf.wf(),
                names == names_of(all),
                all == found@,
                !names_of(found@).contains(lock_name()),
                rest@ == all.subrange(0, rest@.len() as int),
                rest@.len() <= all.len(),
                lf.supplied@.len() == all.len() - rest@.len(),
                forall|k: int|
                    0 <= k < lf.supplied@.len() ==> {
                        &&& (#[trigger] lf.supplied@[k]).name@ == names[all.len() - 1 - k]
                        &&& lf.supplied@[k].file@ == all[all.len() - 1 - k].1@
                        &&& !lf.supplied@[k].fresh
                    },
            decreases rest@.len(),
        {
            let ghost before = lf.supplied_names();
            let ghost at = rest@.len() - 1;
            proof {
                assert(rest@[at] == all[at]);
            }
            let (name, file) = rest.pop().unwrap();
            proof {
                lemma_first_index_of(before, name@);
                assert(names[at] == name@);
                assert(rest@ =~= all.subrange(0, at));
            }
            if lf.position(&name) < lf.supplied.len() {
                proof {
                    let k = first_index_of(before, name@);
                    assert(before[k] == lf.supplied@[k].name@);
                    let other = all.len() - 1 - k;
                    assert(names[other] == name@);
                    assert(0 <= other < names.len() && 0 <= at < names.len() && other != at);
                    assert(names[other] == names[at]);
                    assert(!names.no_duplicates());
                }
                return Err(FillError::Duplicate);
            }
            lf.supplied.push(Supplied { name, file, fresh: false });
            proof {
                assert(lf.supplied_names() =~= before.push(name@));
                assert(!before.contains(name@));
                assert forall|i: int, j: int|
                    0 <= i < j < lf.supplied_names().len() implies lf.supplied_names()[i]
                    != lf.supplied_names()[j] by {
                    if j < before.len() {
                        assert(before[i] != before[j]);
                    } else {
                        assert(before[i] != name@);
                    }
                }
            }
        }
        proof {
            let got = lf.supplied_names();
            assert(got.len() == names.len());
            assert forall|i: int, j: int| 0 <= i < j < names.len() implies names[i] != names[j] by {
                let a = all.len() - 1 - j;
                let b = all.len() - 1 - i;
                assert(got[a] == lf.supplied@[a].name@);
                assert(got[b] == lf.supplied@[b].name@);
                assert(got[a] != got[b]);
            }
            assert forall|n: Seq<char>| #[trigger]
                lf.present(n) == (exists|i: int| 0 <= i < all.len() && all[i].0@ == n) by {
                if lf.present(n) {
                    let k = choose|k: int| 0 <= k < got.len() && got[k] == n;
                    assert(got[k] == lf.supplied@[k].name@);
                    assert(all[all.len() - 1 - k].0@ == names[all.len() - 1 - k]);
                }
                if exists|i: int| 0 <= i < all.len() && all[i].0@ == n {
                    let i = choose|i: int| 0 <= i < all.len() && all[i].0@ == n;
                    let k = all.len() - 1 - i;
                    assert(got[k] == lf.supplied@[k].name@);
                    assert(names[i] == all[i].0@);
                    assert(got[k] == n);
                }
            }
            assert forall|i: int| 0 <= i < all.len() implies lf.contents(#[trigger] all[i].0@)
                == all[i].1@ && !lf.fresh(all[i].0@) by {
                let n = all[i].0@;
                let k = all.len() - 1 - i;
                lemma_first_index_of(got, n);
                assert(got[k] == lf.supplied@[k].name@);
                assert(names[i] == n);
                let f = first_index_of(got, n);
                assert(got[k] == n);
                assert(f <= k);
                if f < k {
                    assert(got[f] != got[k]);
                }
            }
        }
        Ok(lf)
    }

    /// Position of the waiting file called `name`, or the number of waiting
    /// files if there is none.
    fn position(&self, name: &String) -> (r: usize)
        ensures
            r == first_index_of(self.supplied_names(), name@),
            r <= self.supplied@.len(),
    {
        let ghost names = self.supplied_names();
        let mut i: usize = 0;
        proof {
            assert(names.subrange(0, names.len() as int) =~= names);
        }
        while i < self.supplied.len()
            invariant
                i <= self.supplied@.len(),
                names == self.supplied_names(),
                first_index_of(names, name@) == i + first_index_of(
                    names.subrange(i as int, names.len() as int),
                    name@,
                ),
            decreases self.supplied@.len() - i,
        {
            let ghost rest = names.subrange(i as int, names.len() as int);
            proof {
                assert(rest[0] == self.supplied@[i as int].name@);
                assert(rest.drop_first() =~= names.subrange(i + 1, names.len() as int));
            }
            if self.supplied[i].name == *name {
                return i;
            }
            i = i + 1;
        }
        i
    }

    /// Whether the landfill keeps its data in anonymous memory only.
    pub fn is_ephemeral(&self) -> (r: bool)
        ensures
            r == self.ephemeral_spec(),
    {
        self.ephemeral
    }

    /// Create a sub-namespace in the landfill
    ///
    /// This works by setting a filename prefix, and does not create any
    /// filesystem directories
    pub fn branch(&self, name: &str) -> (r: GuardedLandfill)
        ensures
            r@ == name@,
    {
        GuardedLandfill::root().branch(name)
    }

    /// The byte order in which integers are laid out.
    pub fn order(&self) -> (r: ByteOrder)
        ensures
            r == self.byte_order(),
    {
        self.order
    }

    /// Whether a file called `name` waits to be claimed.
    pub fn is_present(&self, name: &String) -> (r: bool)
        ensures
            r == self.present(name@),
    {
        proof {
            lemma_first_index_of(self.supplied_names(), name@);
        }
        self.position(name) < self.supplied.len()
    }

    /// Whether `name` has been claimed.
    pub fn is_reserved(&self, name: &String) -> (r: bool)
        ensures
            r == self.reserved(name@),
    {
        let mut i: usize = 0;
        while i < self.reserved_names.len()
            invariant
                i <= self.reserved_names@.len(),
                forall|j: int| 0 <= j < i ==> self.claims()[j] != name@,
            decreases self.reserved_names@.len() - i,
        {
            if self.reserved_names[i] == *name {
                proof {
                    assert(self.claims()[i as int] == name@);
                }
                return true;
            }
            i = i + 1;
        }
        false
    }

    /// Claims `name`. Returns whether the claim is new; a name that was
    /// claimed before stays claimed and nothing changes.
    pub fn register_name(&mut self, name: String) -> (r: bool)
        requires
            old(self).wf(),
        ensures
            final(self).wf(),
            r == !old(self).reserved(name@),
            final(self).reserved(name@),
            final(self).same_flags(*old(self)),
            final(self).same_files(*old(self)),
            r ==> final(self).claims_with(*old(self), name@),
            !r ==> final(self).same_claims(*old(self)),
    {
        if self.is_reserved(&name) {
            false
        } else {
            self.reserved_names.push(name);
            proof {
                assert(self.claims() =~= old(self).claims().push(name@));
                self.lemma_claims_with(*old(self), name@);
            }
            true
        }
    }

    /// Hands a file over that was created in the directory on behalf of this
    /// landfill, after a call ended with [`FillError::Unmapped`].
    ///
    /// A file whose name is claimed or already waiting is refused as
    /// [`FillError::Duplicate`].
    pub fn supply(&mut self, name: String, file: MappedFile) -> (r: Result<(), FillError>)
        requires
            old(self).wf(),
        ensures
            final(self).wf(),
            final(self).same_flags(*old(self)),
            final(self).same_claims(*old(self)),
            match r {
                Ok(()) => {
                    &&& !old(self).reserved(name@)
                    &&& !old(self).present(name@)
                    &&& final(self).present(name@)
                    &&& final(self).contents(name@) == file@
                    &&& final(self).fresh(name@)
                    &&& old(self).files_without(*final(self), name@)
                },
                Err(e) => {
                    &&& e is Duplicate
                    &&& old(self).reserved(name@) || old(self).present(name@)
                    &&& final(self).same_files(*old(self))
                },
            },
    {
        let ghost before = self.supplied_names();
        proof {
            lemma_first_index_of(before, name@);
        }
        if self.is_reserved(&name) || self.position(&name) < self.supplied.len() {
            return Err(FillError::Duplicate);
        }
        let ghost entry = Supplied { name, file, fresh: true };
        self.supplied.push(Supplied { name, file, fresh: true });
        proof {
            let after = self.supplied_names();
            assert(after =~= before.push(name@));
            assert forall|i: int, j: int| 0 <= i < j < after.len() implies after[i] != after[j] by {
                if j < before.len() {
                    assert(before[i] != before[j]);
                } else {
                    assert(before[i] != name@);
                }
            }
            assert(after[before.len() as int] == name@);
            lemma_first_index_of(after, name@);
            assert forall|n: Seq<char>| n != name@ implies {
                &&& #[trigger] old(self).present(n) == self.present(n)
                &&& old(self).present(n) ==> old(self).contents(n) == self.contents(n)
                    && old(self).fresh(n) == self.fresh(n)
            } by {
                lemma_first_index_of(before, n);
                lemma_first_index_of(after, n);
                if before.contains(n) {
                    let k = first_index_of(before, n);
                    assert(after[k] == n);
                    let k2 = first_index_of(after, n);
                    if k2 < k {
                        assert(before[k2] == after[k2]);
                    }
                }
                if after.contains(n) {
                    let k2 = first_index_of(after, n);
                    assert(k2 < before.len());
                    assert(before[k2] == n);
                }
            }
        }
        Ok(())
    }

    /// Hands a file back that a structure of this landfill had mapped: the
    /// file waits under `name` again, as one that exists. A file that was
    /// waiting under the same name gives way to it.
    pub fn put_back(&mut self, name: String, file: MappedFile)
        requires
            old(self).wf(),
        ensures
            final(self).wf(),
            final(self).same_flags(*old(self)),
            final(self).same_claims(*old(self)),
            final(self).present(name@),
            final(self).contents(name@) == file@,
            !final(self).fresh(name@),
            final(self).files_but(*old(self), name@),
    {
        let ghost before = self.supplied_names();
        proof {
            lemma_first_index_of(before, name@);
        }
        let at = self.position(&name);
        if at < self.supplied.len() {
            let ghost wanted = name@;
            self.supplied.set(at, Supplied { name, file, fresh: false });
            proof {
                let after = self.supplied_names();
                assert(after =~= before);
                assert forall|n: Seq<char>| n != wanted implies {
                    &&& #[trigger] self.present(n) == old(self).present(n)
                    &&& self.present(n) ==> self.contents(n) == old(self).contents(n)
                        && self.fresh(n) == old(self).fresh(n)
                } by {
                    lemma_first_index_of(before, n);
                }
            }
        } else {
            let ghost wanted = name@;
            self.supplied.push(Supplied { name, file, fresh: false });
            proof {
                let after = self.supplied_names();
                assert(after =~= before.push(wanted));
                assert forall|i: int, j: int| 0 <= i < j < after.len() implies after[i]
                    != after[j] by {
                    if j < before.len() {
                        assert(before[i] != before[j]);
                    } else {
                        assert(before[i] != wanted);
                    }
                }
                assert(after[before.len() as int] == wanted);
                lemma_first_index_of(after, wanted);
                assert forall|n: Seq<char>| n != wanted implies {
                    &&& #[trigger] self.present(n) == old(self).present(n)
                    &&& self.present(n) ==> self.contents(n) == old(self).contents(n)
                        && self.fresh(n) == old(self).fresh(n)
                } by {
                    lemma_first_index_of(before, n);
                    lemma_first_index_of(after, n);
                    if before.contains(n) {
                        let k = first_index_of(before, n);
                        assert(after[k] == n);
                        let k2 = first_index_of(after, n);
                        if k2 < k {
                            assert(before[k2] == after[k2]);
                        }
                    }
                    if after.contains(n) {
                        let k2 = first_index_of(after, n);
                        assert(k2 < before.len());
                        assert(before[k2] == n);
                    }
                }
            }
        }
    }

    /// Closes the landfill and returns the files that its directory holds
    /// from then on: those that wait in it, each under its name. Where the
    /// self destruct sequence was initiated, and where the landfill is
    /// ephemeral, nothing is left.
    pub fn close(self) -> (r: Vec<(String, MappedFile)>)
        requires
            self.wf(),
        ensures
            names_of(r@).no_duplicates(),
            forall|i: int|
                0 <= i < r@.len() ==> self.present(#[trigger] r@[i].0@) && self.contents(r@[i].0@)
                    == r@[i].1@,
            if self.destructing() || self.ephemeral_spec() {
                r@.len() == 0
            } else {
                forall|n: Seq<char>|
                    self.present(n) ==> exists|i: int|
                        0 <= i < r@.len() && #[trigger] r@[i].0@ == n
            },
    {
        let mut left: Vec<(String, MappedFile)> = Vec::new();
        if self.self_destruct_sequence_initiated || self.ephemeral {
            proof {
                assert(names_of(left@) =~= Seq::<Seq<char>>::empty());
            }
            return left;
        }
        let ghost names = self.supplied_names();
        let ghost all = self.supplied@;
        let mut waiting = self.supplied;
        proof {
            assert(names_of(left@) =~= Seq::<Seq<char>>::empty());
        }
        while waiting.len() > 0
            invariant
                all == self.supplied@,
                names == self.supplied_names(),
                names.no_duplicates(),
                waiting@ == all.subrange(0, waiting@.len() as int),
                waiting@.len() <= all.len(),
                left@.len() == all.len() - waiting@.len(),
                forall|k: int|
                    0 <= k < left@.len() ==> {
                        &&& (#[trigger] left@[k]).0@ == names[all.len() - 1 - k]
                        &&& left@[k].1@ == all[all.len() - 1 - k].file@
                    },
            decreases waiting@.len(),
        {
            let ghost at = waiting@.len() - 1;
            proof {
                assert(waiting@[at] == all[at]);
            }
            let entry = waiting.pop().unwrap();
            proof {
                assert(waiting@ =~= all.subrange(0, at));
                assert(names[at] == entry.name@);
            }
            left.push((entry.name, entry.file));
        }
        proof {
            let got = names_of(left@);
            assert(got.len() == names.len());
            assert forall|i: int, j: int| 0 <= i < j < got.len() implies got[i] != got[j] by {
                assert(got[i] == left@[i].0@);
                assert(got[j] == left@[j].0@);
                assert(names[all.len() - 1 - i] != names[all.len() - 1 - j]);
            }
            assert forall|i: int| 0 <= i < left@.len() implies self.present(
                #[trigger] left@[i].0@,
            ) && self.contents(left@[i].0@) == left@[i].1@ by {
                let n = left@[i].0@;
                let k = all.len() - 1 - i;
                assert(names[k] == n);
                lemma_first_index_of(names, n);
                let f = first_index_of(names, n);
                if f < k {
                    assert(names[f] != names[k]);
                }
            }
            assert forall|n: Seq<char>| self.present(n) implies exists|i: int|
                0 <= i < left@.len() && #[trigger] left@[i].0@ == n by {
                let k = choose|k: int| 0 <= k < names.len() && names[k] == n;
                let i = all.len() - 1 - k;
                assert(left@[i].0@ == n);
            }
        }
        left
    }

    /// Takes the waiting file at `at` out of the book.
    fn take(&mut self, at: usize, Ghost(name): Ghost<Seq<char>>) -> (r: Supplied)
        requires
            old(self).wf(),
            at < old(self).supplied@.len(),
            at == first_index_of(old(self).supplied_names(), name),
        ensures
            final(self).wf(),
            final(self).same_flags(*old(self)),
            final(self).same_claims(*old(self)),
            final(self).files_without(*old(self), name),
            r.name@ == name,
            r.file@ == old(self).contents(name),
            r.fresh == old(self).fresh(name),
    {
        let ghost before = self.supplied_names();
        proof {
            lemma_first_index_of(before, name);
        }
        let entry = self.supplied.remove(at);
        proof {
            let after = self.supplied_names();
            assert(after =~= before.remove(at as int));
            assert forall|i: int, j: int| 0 <= i < j < after.len() implies after[i] != after[j] by {
                let a = if i < at { i } else { i + 1 };
                let b = if j < at { j } else { j + 1 };
                assert(before[a] != before[b]);
            }
            assert(!after.contains(name)) by {
                if after.contains(name) {
                    let k = choose|k: int| 0 <= k < after.len() && after[k] == name;
                    let a = if k < at { k } else { k + 1 };
                    assert(before[a] == name);
                    assert(before[at as int] == name);
                }
            }
            assert forall|n: Seq<char>| n != name implies {
                &&& #[trigger] self.present(n) == old(self).present(n)
                &&& self.present(n) ==> self.contents(n) == old(self).contents(n) && self.fresh(n)
                    == old(self).fresh(n)
            } by {
                lemma_first_index_of(before, n);
                lemma_first_index_of(after, n);
                if before.contains(n) {
                    let k = first_index_of(before, n);
                    let a = if k < at { k } else { k - 1 };
                    assert(after[a] == n);
                    let k2 = first_index_of(after, n);
                    let b = if k2 < at { k2 } else { k2 + 1 };
                    assert(before[b] == n);
                    if k2 != a {
                        assert(before[b] != before[k]);
                    }
                }
                if after.contains(n) {
                    let k2 = first_index_of(after, n);
                    let b = if k2 < at { k2 } else { k2 + 1 };
                    assert(before[b] == n);
                }
            }
        }
        entry
    }

    /// Whether the file called `name` below `scope` can be mapped at `size`
    /// bytes: a file that waits unclaimed under that name and has another
    /// length is to be set to `size` bytes first, which the error asks for.
    pub fn vet(&self, scope: &GuardedLandfill, name: &str, size: u64) -> (r: Result<(), FillError>)
        requires
            self.wf(),
        ensures
            ({
                let full = joined(scope@, name@);
                let odd = !self.reserved(full) && self.present(full) && self.contents(full).len()
                    != size;
                match r {
                    Ok(()) => !odd,
                    Err(e) => odd && asks_resize(e, full, size as nat),
                }
            }),
    {
        let full_name = join_names(scope.name_prefix.as_str(), name);
        if self.is_reserved(&full_name) {
            return Ok(());
        }
        let at = self.position(&full_name);
        proof {
            lemma_first_index_of(self.supplied_names(), full_name@);
        }
        if at < self.supplied.len() && self.supplied[at].file.len() as u64 != size {
            return Err(FillError::SizeMismatch { name: full_name, size });
        }
        Ok(())
    }

    /// Open a file mapping, creating a file if none previously existed
    ///
    /// Returns `None` if the file has already been mapped. The name of the
    /// file is `name` below the prefix of `scope`. A file that waits under
    /// that name is handed out; without one, an ephemeral landfill maps
    /// anonymous memory, all zero, and a landfill on disk asks for the file
    /// with [`FillError::Unmapped`]. The file is mapped at `size` bytes: one
    /// that waits with another length is to be set to that length first,
    /// which the call asks for with [`FillError::SizeMismatch`].
    pub fn map_file_create(&mut self, scope: &GuardedLandfill, name: &str, size: u64) -> (r:
        Result<Option<MappedFile>, FillError>)
        requires
            old(self).wf(),
        ensures
            final(self).wf(),
            final(self).same_flags(*old(self)),
            ({
                let full = joined(scope@, name@);
                match r {
                    Ok(None) => old(self).reserved(full) && final(self).unchanged_from(*old(self)),
                    Ok(Some(file)) => {
                        &&& !old(self).reserved(full)
                        &&& final(self).claims_with(*old(self), full)
                        &&& file@.len() == size
                        &&& if old(self).present(full) {
                            file@ == old(self).contents(full) && final(self).files_without(
                                *old(self),
                                full,
                            )
                        } else {
                            old(self).ephemeral_spec() && file@ == zeroes(size as nat)
                                && file.anonymous() && final(self).same_files(*old(self))
                        }
                    },
                    Err(e) => {
                        &&& !old(self).reserved(full)
                        &&& final(self).unchanged_from(*old(self))
                        &&& match e {
                            FillError::Unmapped { name: wanted, size: length } => {
                                &&& wanted@ == full
                                &&& length == size
                                &&& !old(self).present(full)
                                &&& !old(self).ephemeral_spec()
                            },
                            FillError::SizeMismatch { name: wanted, size: length } => {
                                &&& wanted@ == full
                                &&& length == size
                                &&& old(self).present(full)
                                &&& old(self).contents(full).len() != size
                            },
                            FillError::OutOfSpace => !old(self).present(full)
                                && old(self).ephemeral_spec() && size > usize::MAX,
                            FillError::Io(_) => !old(self).present(full)
                                && old(self).ephemeral_spec(),
                            _ => false,
                        }
                    },
                }
            }),
    {
        let full_name = join_names(scope.name_prefix.as_str(), name);
        if self.is_reserved(&full_name) {
            return Ok(None);
        }
        let at = self.position(&full_name);
        proof {
            lemma_first_index_of(self.supplied_names(), full_name@);
        }
        if at < self.supplied.len() {
            if self.supplied[at].file.len() as u64 != size {
                return Err(FillError::SizeMismatch { name: full_name, size });
            }
            let entry = self.take(at, Ghost(full_name@));
            self.register_name(full_name);
            Ok(Some(entry.file))
        } else if self.ephemeral {
            if size > usize::MAX as u64 {
                return Err(FillError::OutOfSpace);
            }
            match MappedFile::anon(size as usize) {
                Ok(file) => {
                    self.register_name(full_name);
                    Ok(Some(file))
                },
                Err(e) => Err(e),
            }
        } else {
            Err(FillError::Unmapped { name: full_name, size })
        }
    }

    /// Open a file map, if it already exists
    ///
    /// Returns `None` if the name has been claimed or no file waits under
    /// it; an ephemeral landfill has no files to begin with.
    pub fn map_file_existing(&mut self, scope: &GuardedLandfill, name: &str, size: u64) -> (r:
        Result<Option<MappedFile>, FillError>)
        requires
            old(self).wf(),
        ensures
            final(self).wf(),
            final(self).same_flags(*old(self)),
            ({
                let full = joined(scope@, name@);
                match r {
                    Ok(None) => (old(self).reserved(full) || !old(self).present(full))
                        && final(self).unchanged_from(*old(self)),
                    Ok(Some(file)) => {
                        &&& !old(self).reserved(full)
                        &&& old(self).present(full)
                        &&& file@ == old(self).contents(full)
                        &&& file@.len() == size
                        &&& final(self).claims_with(*old(self), full)
                        &&& final(self).files_without(*old(self), full)
                    },
                    Err(e) => {
                        &&& asks_resize(e, full, size as nat)
                        &&& !old(self).reserved(full)
                        &&& old(self).present(full)
                        &&& old(self).contents(full).len() != size
                        &&& final(self).unchanged_from(*old(self))
                    },
                }
            }),
    {
        let full_name = join_names(scope.name_prefix.as_str(), name);
        if self.is_reserved(&full_name) {
            return Ok(None);
        }
        let at = self.position(&full_name);
        proof {
            lemma_first_index_of(self.supplied_names(), full_name@);
        }
        if at < self.supplied.len() {
            if self.supplied[at].file.len() as u64 != size {
                return Err(FillError::SizeMismatch { name: full_name, size });
            }
            let entry = self.take(at, Ghost(full_name@));
            self.register_name(full_name);
            Ok(Some(entry.file))
        } else {
            Ok(None)
        }
    }

    /// What a call for the static blob of `size` bytes under the name
    /// `full` makes of the landfill `self`, which is `now` afterwards, and
    /// what it returns as `r`.
    ///
    /// A file that waits under the name and has been read or written
    /// before is read: its first `size` bytes are returned, `init` is not
    /// asked, and nothing changes. A file that was just supplied takes
    /// what `init` gives and is flushed. Without a file an ephemeral
    /// landfill returns what `init` gives and keeps nothing, and a landfill
    /// on disk asks for the file. A file shorter than `size` is refused,
    /// and so is what `init` gives where it is asked and gives another
    /// number of bytes than `size`.
    pub open spec fn static_given<Init: FnOnce() -> Vec<u8>>(
        &self,
        now: Landfill,
        full: Seq<char>,
        size: nat,
        init: Init,
        r: Result<Vec<u8>, FillError>,
    ) -> bool {
        let was = *self;
        match r {
            Ok(bytes) => {
                &&& bytes@.len() == size
                &&& if !was.present(full) {
                    was.ephemeral_spec() && init.ensures((), bytes) && now.same_files(was)
                } else {
                    &&& was.contents(full).len() >= size
                    &&& now.present(full)
                    &&& !now.fresh(full)
                    &&& now.contents(full).len() == was.contents(full).len()
                    &&& now.contents(full).subrange(0, size as int) == bytes@
                    &&& if was.fresh(full) {
                        &&& init.ensures((), bytes)
                        &&& now.contents(full) == overwrite(was.contents(full), 0, bytes@)
                        &&& now.files_but(was, full)
                    } else {
                        bytes@ == was.contents(full).subrange(0, size as int) && now.same_files(
                            was,
                        )
                    }
                }
            },
            Err(e) => match e {
                FillError::Unmapped { name: wanted, size: length } => {
                    &&& wanted@ == full
                    &&& length == size
                    &&& !was.present(full)
                    &&& !was.ephemeral_spec()
                    &&& now.same_files(was)
                },
                FillError::Truncated => was.present(full) && was.contents(full).len() < size
                    && now.same_files(was),
                FillError::BadRecord => {
                    &&& if was.present(full) {
                        was.fresh(full) && was.contents(full).len() >= size
                    } else {
                        was.ephemeral_spec()
                    }
                    &&& now.same_files(was)
                    &&& exists|bytes: Vec<u8>| init.ensures((), bytes) && bytes@.len() != size
                },
                FillError::Io(_) => {
                    &&& was.present(full)
                    &&& was.fresh(full)
                    &&& was.contents(full).len() >= size
                    &&& now.present(full)
                    &&& !now.fresh(full)
                    &&& now.files_but(was, full)
                    &&& exists|bytes: Vec<u8>|
                        init.ensures((), bytes) && bytes@.len() == size && now.contents(full)
                            == overwrite(was.contents(full), 0, bytes@)
                },
                _ => false,
            },
        }
    }

    /// A static blob is written once: a call that finds the file of an
    /// earlier call returns the bytes that the earlier call returned,
    /// whatever its own `init` would give, and leaves the file as it is.
    ///
    /// The earlier call found a file under the name `full`, in `first_was`,
    /// and returned `first`. The later call is made on `again_was`, where
    /// the file waits as the earlier call left it: in the same landfill or
    /// in one that was opened over the same files later.
    pub proof fn lemma_static_blob_is_kept<A: FnOnce() -> Vec<u8>, B: FnOnce() -> Vec<u8>>(
        first_was: Landfill,
        first_now: Landfill,
        again_was: Landfill,
        again_now: Landfill,
        full: Seq<char>,
        size: nat,
        first_init: A,
        again_init: B,
        first: Result<Vec<u8>, FillError>,
        again: Result<Vec<u8>, FillError>,
    )
        requires
            first_was.present(full),
            first_was.static_given(first_now, full, size, first_init, first),
            first is Ok,
            again_was.present(full),
            !again_was.fresh(full),
            again_was.contents(full) == first_now.contents(full),
            again_was.static_given(again_now, full, size, again_init, again),
        ensures
            first_was.fresh(full) ==> first_init.ensures((), first->Ok_0),
            again matches Ok(bytes) && bytes@ == first->Ok_0@,
            again_now.same_files(again_was),
            again_now.contents(full) == first_now.contents(full),
            again_now.contents(full).subrange(0, size as int) == first->Ok_0@,
    {
    }

    /// Reads the first `size` bytes of a static file if it exists
    ///
    /// Otherwise it calls the `init` closure and writes a new file
    /// containing the result. The file stays with the landfill, so that
    /// every later call finds it and returns the same bytes. An ephemeral
    /// landfill keeps no file: there each call returns what `init` gives.
    pub fn get_static_or_init<Init: FnOnce() -> Vec<u8>>(
        &mut self,
        scope: &GuardedLandfill,
        name: &str,
        size: usize,
        init: Init,
    ) -> (r: Result<Vec<u8>, FillError>)
        requires
            old(self).wf(),
            init.requires(()),
        ensures
            final(self).wf(),
            final(self).same_flags(*old(self)),
            final(self).same_claims(*old(self)),
            old(self).static_given(*final(self), joined(scope@, name@), size as nat, init, r),
    {
        let full_name = join_names(scope.name_prefix.as_str(), name);
        let at = self.position(&full_name);
        let ghost names = self.supplied_names();
        proof {
            lemma_first_index_of(names, full_name@);
        }
        if at < self.supplied.len() {
            if self.supplied[at].file.len() < size {
                return Err(FillError::Truncated);
            }
            if !self.supplied[at].fresh {
                let bytes = vstd::slice::slice_to_vec(self.supplied[at].file.read(0, size));
                return Ok(bytes);
            }
            let bytes = init();
            if bytes.len() != size {
                return Err(FillError::BadRecord);
            }
            let entry = &mut self.supplied[at];
            entry.file.store(0, bytes.as_slice());
            entry.fresh = false;
            proof {
                let after = self.supplied_names();
                assert(after =~= names);
                assert(self.contents(full_name@).subrange(0, size as int) =~= bytes@);
                assert forall|n: Seq<char>| n != full_name@ implies {
                    &&& #[trigger] self.present(n) == old(self).present(n)
                    &&& self.present(n) ==> self.contents(n) == old(self).contents(n)
                        && self.fresh(n) == old(self).fresh(n)
                } by {
                    lemma_first_index_of(names, n);
                }
            }
            match self.supplied[at].file.flush() {
                Ok(()) => Ok(bytes),
                Err(e) => Err(e),
            }
        } else if self.ephemeral {
            let bytes = init();
            if bytes.len() != size {
                return Err(FillError::BadRecord);
            }
            Ok(bytes)
        } else {
            Err(FillError::Unmapped { name: full_name, size: size as u64 })
        }
    }

    /// The landfill as it is handed to a structure that is initialized
    /// under the name `name`: `self` with that name claimed.
    pub open spec fn claimed_for(&self, claimed: Landfill, name: Seq<char>) -> bool {
        &&& !self.reserved(name)
        &&& claimed.wf()
        &&& claimed.same_flags(*self)
        &&& claimed.claims_with(*self, name)
        &&& claimed.same_files(*self)
    }

    /// Create a substructure of type `S` with name `name` in the landfill
    ///
    /// The name is claimed for good once the structure stands. A second
    /// structure of the same name is refused as [`FillError::Duplicate`].
    /// When the structure cannot be made, the name is free again.
    pub fn substructure<S: Substructure>(&mut self, name: &str) -> (r: Result<S, FillError>)
        requires
            old(self).wf(),
        ensures
            final(self).wf(),
            final(self).grown_from(*old(self)),
            final(self).untouched_outside(*old(self), name@),
            match r {
                Ok(s) => {
                    &&& s.wf()
                    &&& old(self).holds_no_file() ==> !s.file_backed()
                    &&& final(self).reserved(name@)
                    &&& exists|claimed: Landfill|
                        old(self).claimed_for(claimed, name@) && #[trigger] s.opened(
                            claimed,
                            *final(self),
                            name@,
                        )
                },
                Err(e) => {
                    &&& final(self).same_claims(*old(self))
                    &&& e is Unmapped || e is SizeMismatch ==> final(self).same_files(*old(self))
                    &&& if old(self).reserved(name@) {
                        e is Duplicate && final(self).unchanged_from(*old(self))
                    } else {
                        exists|claimed: Landfill|
                            old(self).claimed_for(claimed, name@) && #[trigger] S::refused(
                                e,
                                claimed,
                                name@,
                            )
                    }
                },
            },
    {
        let root = GuardedLandfill::root();
        self.substructure_in(&root, name)
    }

    /// Create a substructure of type `S` with name `name` below `scope`
    pub fn substructure_in<S: Substructure>(&mut self, scope: &GuardedLandfill, name: &str) -> (r:
        Result<S, FillError>)
        requires
            old(self).wf(),
        ensures
            final(self).wf(),
            final(self).grown_from(*old(self)),
            final(self).untouched_outside(*old(self), joined(scope@, name@)),
            ({
                let full = joined(scope@, name@);
                match r {
                    Ok(s) => {
                        &&& s.wf()
                        &&& old(self).holds_no_file() ==> !s.file_backed()
                        &&& final(self).reserved(full)
                        &&& exists|claimed: Landfill|
                            old(self).claimed_for(claimed, full) && #[trigger] s.opened(
                                claimed,
                                *final(self),
                                full,
                            )
                    },
                    Err(e) => {
                        &&& final(self).same_claims(*old(self))
                        &&& e is Unmapped || e is SizeMismatch ==> final(self).same_files(*old(self))
                        &&& if old(self).reserved(full) {
                            e is Duplicate && final(self).unchanged_from(*old(self))
                        } else {
                            exists|claimed: Landfill|
                                old(self).claimed_for(claimed, full) && #[trigger] S::refused(
                                    e,
                                    claimed,
                                    full,
                                )
                        }
                    },
                }
            }),
    {
        let branch = scope.branch(name);
        let mark: usize = self.reserved_names.len();
        if !self.register_name(branch.full_name()) {
            proof {
                assert(old(self).claims().is_prefix_of(self.claims()));
            }
            return Err(FillError::Duplicate);
        }
        let ghost claimed = *self;
        let ghost full = joined(scope@, name@);
        let r = S::init(self, branch);
        proof {
            assert(old(self).claimed_for(claimed, full));
            assert forall|n: Seq<char>| #[trigger] self.present(n) implies old(self).present(
                n,
            ) by {
                assert(claimed.present(n));
            }
        }
        match r {
            Ok(s) => {
                proof {
                    assert(claimed.claims()[mark as int] == full);
                    assert(self.claims()[mark as int] == claimed.claims()[mark as int]);
                    assert(self.claims().contains(full));
                    assert(old(self).claims().is_prefix_of(self.claims())) by {
                        assert forall|i: int| 0 <= i < old(self).claims().len()
                            implies old(self).claims()[i] == self.claims()[i] by {
                            assert(claimed.claims()[i] == old(self).claims()[i]);
                            assert(claimed.claims()[i] == self.claims()[i]);
                        }
                    }
                    assert(s.opened(claimed, *self, full));
                    claimed.lemma_same_files_untouched(*old(self), full);
                    old(self).lemma_untouched_twice(claimed, *self, full);
                }
                Ok(s)
            },
            Err(e) => {
                let ghost grown = self.claims();
                let ghost failed = *self;
                self.reserved_names.truncate(mark);
                proof {
                    assert(self.claims() =~= old(self).claims()) by {
                        assert forall|i: int| 0 <= i < mark implies self.claims()[i]
                            == old(self).claims()[i] by {
                            assert(grown[i] == claimed.claims()[i]);
                        }
                    }
                    if e is Unmapped || e is SizeMismatch {
                        assert forall|n: Seq<char>|
                            {
                                &&& #[trigger] self.present(n) == old(self).present(n)
                                &&& self.present(n) ==> self.contents(n) == old(self).contents(n)
                                    && self.fresh(n) == old(self).fresh(n)
                            } by {
                            assert(failed.present(n) == claimed.present(n));
                            assert(claimed.present(n) == old(self).present(n));
                        }
                    }
                    assert(S::refused(e, claimed, full));
                    assert(old(self).claims().is_prefix_of(self.claims()));
                    assert(self.untouched_outside(failed, full)) by {
                        assert forall|n: Seq<char>| !below(full, n) implies {
                            &&& #[trigger] self.present(n) == failed.present(n)
                            &&& self.present(n) ==> self.contents(n) == failed.contents(n)
                                && self.fresh(n) == failed.fresh(n)
                        } by {
                        }
                    }
                    claimed.lemma_same_files_untouched(*old(self), full);
                    old(self).lemma_untouched_twice(claimed, failed, full);
                    old(self).lemma_untouched_twice(failed, *self, full);
                    assert forall|n: Seq<char>| #[trigger] self.present(n)
                        implies old(self).present(n) by {
                        assert(failed.present(n));
                        assert(claimed.present(n));
                    }
                }
                Err(e)
            },
        }
    }

    /// Mark this landfill for destruction
    ///
    /// Data will be deleted as soon as the landfill goes away
    pub fn initiate_self_destruct_sequence(&mut self)
        ensures
            final(self).destructing(),
            final(self).ephemeral_spec() == old(self).ephemeral_spec(),
            final(self).byte_order() == old(self).byte_order(),
            final(self).same_claims(*old(self)),
            final(self).same_files(*old(self)),
            old(self).wf() ==> final(self).wf(),
    {
        self.self_destruct_sequence_initiated = true;
    }

    /// This function will remove all data written into this landfill as the
    /// landfill goes away
    pub fn self_destruct(&mut self)
        ensures
            final(self).destructing(),
            final(self).ephemeral_spec() == old(self).ephemeral_spec(),
            final(self).byte_order() == old(self).byte_order(),
            final(self).same_claims(*old(self)),
            final(self).same_files(*old(self)),
            old(self).wf() ==> final(self).wf(),
    {
        self.initiate_self_destruct_sequence()
    }

    /// Whether the directory is to be removed when the landfill goes away.
    pub fn self_destruct_sequence_initiated(&self) -> (r: bool)
        ensures
            r == self.destructing(),
    {
        self.self_destruct_sequence_initiated
    }
}

} // verus!
