//! The deferred-refresh bookkeeping.
//!
//! A failed background metadata refresh is persisted as one marker file per
//! failure, named `brew_output_<unix-seconds>`, in a fixed directory. The
//! next run's startup check looks at that directory: no matching file (or no
//! directory at all) means CLEAN, otherwise the file with the greatest
//! embedded timestamp names the failure to report. A later successful
//! refresh renames every unresolved record by appending `_resolved`, which
//! takes it out of the pattern for good while preserving the audit history.
//! The directory I/O itself stays with the caller; this module decides, from
//! directory listings and timestamps, what to report and what to write or
//! rename.

use crate::bytes::{
    all_digits, bytes_eq, copy_bytes, dec_digits, dec_value, is_digit, lemma_dec_digits_are_digits,
    lemma_dec_round_trip, lit_bytes, push_bytes, u64_to_decimal, views,
};
use vstd::prelude::*;
use vstd::slice::slice_subrange;

verus! {

// ---------------------------------------------------------------------------
// Error-record filenames.
// ---------------------------------------------------------------------------

/// `brew_output_`: the prefix of every error-record filename.
pub open spec fn error_name_prefix() -> Seq<u8> {
    seq![
        'b' as u8,
        'r' as u8,
        'e' as u8,
        'w' as u8,
        '_' as u8,
        'o' as u8,
        'u' as u8,
        't' as u8,
        'p' as u8,
        'u' as u8,
        't' as u8,
        '_' as u8,
    ]
}

/// `_resolved`: the suffix a successful refresh appends to a record.
pub open spec fn resolved_suffix() -> Seq<u8> {
    seq![
        '_' as u8,
        'r' as u8,
        'e' as u8,
        's' as u8,
        'o' as u8,
        'l' as u8,
        'v' as u8,
        'e' as u8,
        'd' as u8,
    ]
}

/// `/tmp/rs_outdated`: the fixed directory holding the error records.
pub open spec fn error_directory_path() -> Seq<u8> {
    seq![
        '/' as u8,
        't' as u8,
        'm' as u8,
        'p' as u8,
        '/' as u8,
        'r' as u8,
        's' as u8,
        '_' as u8,
        'o' as u8,
        'u' as u8,
        't' as u8,
        'd' as u8,
        'a' as u8,
        't' as u8,
        'e' as u8,
        'd' as u8,
    ]
}

/// Builds the fixed error-record directory path.
pub fn error_directory() -> (r: Vec<u8>)
    ensures
        r@ == error_directory_path(),
{
    let s = "/tmp/rs_outdated";
    proof {
        reveal_strlit("/tmp/rs_outdated");
        assert(s.is_ascii());
    }
    let r = lit_bytes(s);
    proof {
        assert(r@ =~= error_directory_path());
    }
    r
}

/// A filename that marks a not-yet-resolved failure: the prefix followed by
/// one or more digits and nothing else.
pub open spec fn spec_is_error_filename(name: Seq<u8>) -> bool {
    &&& name.len() > error_name_prefix().len()
    &&& name.take(error_name_prefix().len() as int) == error_name_prefix()
    &&& all_digits(name.skip(error_name_prefix().len() as int))
}

/// The timestamp a record filename embeds.
pub open spec fn spec_error_timestamp(name: Seq<u8>) -> nat {
    dec_value(name.skip(error_name_prefix().len() as int))
}

/// The filename recording a failure at time `t`.
pub open spec fn spec_make_error_filename(t: u64) -> Seq<u8> {
    error_name_prefix() + dec_digits(t as nat)
}

fn error_name_prefix_bytes() -> (r: Vec<u8>)
    ensures
        r@ == error_name_prefix(),
{
    let s = "brew_output_";
    proof {
        reveal_strlit("brew_output_");
        assert(s.is_ascii());
    }
    let r = lit_bytes(s);
    proof {
        assert(r@ =~= error_name_prefix());
    }
    r
}

/// Builds the filename recording a failure at time `t`.
pub fn make_error_filename(t: u64) -> (r: Vec<u8>)
    ensures
        r@ == spec_make_error_filename(t),
{
    let mut r = error_name_prefix_bytes();
    let digits = u64_to_decimal(t);
    push_bytes(&mut r, digits.as_slice());
    r
}

fn check_all_digits(s: &[u8]) -> (r: bool)
    ensures
        r == all_digits(s@),
{
    let mut i: usize = 0;
    while i < s.len()
        invariant
            0 <= i <= s@.len(),
            forall|j: int| 0 <= j < i ==> is_digit(s@[j]),
        decreases s@.len() - i,
    {
        let b = s[i];
        if b < ('0' as u8) || b > ('9' as u8) {
            return false;
        }
        i += 1;
    }
    true
}

/// Recognizes the filenames of not-yet-resolved error records.
pub fn is_error_filename(name: &[u8]) -> (r: bool)
    ensures
        r == spec_is_error_filename(name@),
{
    let prefix = error_name_prefix_bytes();
    if name.len() <= prefix.len() {
        return false;
    }
    let head = slice_subrange(name, 0, 12);
    proof {
        assert(name@.take(12) =~= name@.subrange(0, 12));
    }
    if !bytes_eq(head, prefix.as_slice()) {
        return false;
    }
    let digits = slice_subrange(name, 12, name.len());
    proof {
        assert(name@.skip(12) =~= name@.subrange(12, name@.len() as int));
    }
    check_all_digits(digits)
}

/// A freshly made error filename is itself an unresolved record, and embeds
/// exactly the timestamp it was made with.
pub proof fn lemma_make_error_filename_valid(t: u64)
    ensures
        spec_is_error_filename(spec_make_error_filename(t)),
        spec_error_timestamp(spec_make_error_filename(t)) == t,
{
    lemma_dec_digits_are_digits(t as nat);
    lemma_dec_round_trip(t as nat);
    let full = spec_make_error_filename(t);
    assert(full.take(error_name_prefix().len() as int) =~= error_name_prefix());
    assert(full.skip(error_name_prefix().len() as int) =~= dec_digits(t as nat));
}

/// Record filenames are ordered by their embedded timestamp exactly as the
/// failures they record are ordered in time, so "latest failure" is
/// well-defined from the filenames alone.
pub proof fn lemma_error_filename_ordered(t1: u64, t2: u64)
    requires
        t1 < t2,
    ensures
        spec_error_timestamp(spec_make_error_filename(t1)) < spec_error_timestamp(
            spec_make_error_filename(t2),
        ),
{
    lemma_make_error_filename_valid(t1);
    lemma_make_error_filename_valid(t2);
}

/// Failures at distinct times leave distinct record files.
pub proof fn lemma_error_filename_injective(t1: u64, t2: u64)
    requires
        t1 != t2,
    ensures
        spec_make_error_filename(t1) != spec_make_error_filename(t2),
{
    lemma_make_error_filename_valid(t1);
    lemma_make_error_filename_valid(t2);
    if spec_make_error_filename(t1) == spec_make_error_filename(t2) {
        assert(spec_error_timestamp(spec_make_error_filename(t1)) == spec_error_timestamp(
            spec_make_error_filename(t2),
        ));
    }
}

/// A renamed (resolved) record never matches the unresolved pattern again,
/// whatever name it started from.
pub proof fn lemma_resolved_never_unresolved(name: Seq<u8>)
    ensures
        !spec_is_error_filename(name + resolved_suffix()),
{
    let full = name + resolved_suffix();
    assert(full[full.len() - 1] == 'd' as u8);
    if spec_is_error_filename(full) {
        assert(is_digit(full.skip(error_name_prefix().len() as int)[full.len() - 1
            - error_name_prefix().len()]));
        assert(false);
    }
}

// ---------------------------------------------------------------------------
// The startup check.
// ---------------------------------------------------------------------------

/// The names among `names` that mark unresolved failures, in order.
pub open spec fn unresolved_of(names: Seq<Seq<u8>>) -> Seq<Seq<u8>>
    decreases names.len(),
{
    if names.len() == 0 {
        Seq::empty()
    } else {
        let rest = unresolved_of(names.skip(1));
        if spec_is_error_filename(names[0]) {
            seq![names[0]] + rest
        } else {
            rest
        }
    }
}

/// Filters a directory listing down to the unresolved error records.
pub fn error_file_paths(names: &Vec<Vec<u8>>) -> (r: Vec<Vec<u8>>)
    ensures
        views(r@) == unresolved_of(views(names@)),
{
    let ghost ns = views(names@);
    let mut r: Vec<Vec<u8>> = Vec::new();
    let mut k: usize = 0;
    proof {
        assert(ns.skip(0) =~= ns);
        assert(views(r@) + unresolved_of(ns) =~= unresolved_of(ns));
    }
    while k < names.len()
        invariant
            0 <= k <= names@.len(),
            views(names@) == ns,
            views(r@) + unresolved_of(ns.skip(k as int)) =~= unresolved_of(ns),
        decreases names@.len() - k,
    {
        let ghost rest = ns.skip(k as int);
        proof {
            assert(rest[0] == ns[k as int]);
            assert(ns[k as int] == names@[k as int]@);
            assert(rest.skip(1) =~= ns.skip(k as int + 1));
        }
        let name: &Vec<u8> = &names[k];
        if is_error_filename(name.as_slice()) {
            let c = copy_bytes(name.as_slice());
            proof {
                crate::bytes::lemma_views_push(r@, c);
            }
            r.push(c);
        }
        k += 1;
    }
    proof {
        assert(ns.skip(names@.len() as int) =~= Seq::<Seq<u8>>::empty());
        assert(views(r@) =~= unresolved_of(ns));
    }
    r
}

/// What the startup check finds in the error directory.
pub enum StartupState {
    /// No unresolved failure: nothing to report.
    Clean,
    /// An unresolved failure; the field names the record file with the
    /// greatest embedded timestamp, the one to show the user.
    Failed(Vec<u8>),
}

/// Decides the persisted-failure state from the error directory's listing;
/// `None` stands for a directory that does not exist, which means CLEAN.
/// Of the unresolved records, the one with the greatest embedded timestamp
/// is reported.
pub fn startup_check(listing: &Option<Vec<Vec<u8>>>) -> (r: StartupState)
    ensures
        listing is None ==> r is Clean,
        match r {
            StartupState::Clean => match listing {
                None => true,
                Some(l) => forall|n: Seq<u8>|
                    views(l@).contains(n) ==> !spec_is_error_filename(n),
            },
            StartupState::Failed(f) => match listing {
                None => false,
                Some(l) => {
                    &&& views(l@).contains(f@)
                    &&& spec_is_error_filename(f@)
                    &&& forall|n: Seq<u8>|
                        views(l@).contains(n) && spec_is_error_filename(n)
                            ==> spec_error_timestamp(n) <= spec_error_timestamp(f@)
                },
            },
        },
{
    match listing {
        None => StartupState::Clean,
        Some(l) => {
            let mut best: Option<usize> = None;
            let mut i: usize = 0;
            while i < l.len()
                invariant
                    0 <= i <= l@.len(),
                    best is None ==> forall|j: int|
                        0 <= j < i ==> !spec_is_error_filename(l@[j]@),
                    best matches Some(bi) ==> bi < i && spec_is_error_filename(l@[bi as int]@)
                        && forall|j: int|
                        0 <= j < i && spec_is_error_filename(#[trigger] l@[j]@)
                            ==> spec_error_timestamp(l@[j]@) <= spec_error_timestamp(
                            l@[bi as int]@,
                        ),
                decreases l@.len() - i,
            {
                let name: &Vec<u8> = &l[i];
                if is_error_filename(name.as_slice()) {
                    proof {
                        assert(name@.skip(12) =~= name@.subrange(12, name@.len() as int));
                    }
                    match best {
                        None => {
                            best = Some(i);
                        },
                        Some(bi) => {
                            let old_name: &Vec<u8> = &l[bi];
                            proof {
                                assert(old_name@.skip(12) =~= old_name@.subrange(
                                    12,
                                    old_name@.len() as int,
                                ));
                            }
                            let od = slice_subrange(old_name.as_slice(), 12, old_name.len());
                            let nd = slice_subrange(name.as_slice(), 12, name.len());
                            if crate::bytes::dec_le(od, nd) {
                                best = Some(i);
                            }
                        },
                    }
                }
                i += 1;
            }
            match best {
                None => {
                    proof {
                        assert forall|n: Seq<u8>| views(l@).contains(n) implies !spec_is_error_filename(
                            n,
                        ) by {
                            let j = choose|j: int|
                                0 <= j < views(l@).len() && views(l@)[j] == n;
                            assert(views(l@)[j] == l@[j]@);
                        }
                    }
                    StartupState::Clean
                },
                Some(bi) => {
                    let f = copy_bytes(l[bi].as_slice());
                    proof {
                        assert(views(l@)[bi as int] == f@);
                        assert forall|n: Seq<u8>|
                            views(l@).contains(n) && spec_is_error_filename(n) implies
                        spec_error_timestamp(n) <= spec_error_timestamp(f@) by {
                            let j = choose|j: int|
                                0 <= j < views(l@).len() && views(l@)[j] == n;
                            assert(views(l@)[j] == l@[j]@);
                        }
                    }
                    StartupState::Failed(f)
                },
            }
        },
    }
}

// ---------------------------------------------------------------------------
// The refresh outcome transition.
// ---------------------------------------------------------------------------

/// How one background refresh attempt ended: cleanly, or with the failure
/// text to persist (the operation's error output, or the message of the
/// failure to start it at all).
pub enum RefreshOutcome {
    Success,
    Failure(Vec<u8>),
}

/// The durable effect one refresh attempt asks for: either a new error
/// record to write, or the renames that mark every unresolved record
/// resolved. Never both — the two are mutually exclusive outcomes of one
/// attempt.
pub enum RefreshAction {
    WriteError { filename: Vec<u8>, contents: Vec<u8> },
    Resolve { renames: Vec<(Vec<u8>, Vec<u8>)> },
}

/// The (from, to) views of a rename list.
pub open spec fn rename_views(v: Seq<(Vec<u8>, Vec<u8>)>) -> Seq<(Seq<u8>, Seq<u8>)> {
    v.map_values(|p: (Vec<u8>, Vec<u8>)| (p.0@, p.1@))
}

/// The renames a successful refresh performs: every unresolved record, in
/// listing order, gains the resolved suffix.
pub open spec fn spec_renames(names: Seq<Seq<u8>>) -> Seq<(Seq<u8>, Seq<u8>)>
    decreases names.len(),
{
    if names.len() == 0 {
        Seq::empty()
    } else {
        let rest = spec_renames(names.skip(1));
        if spec_is_error_filename(names[0]) {
            seq![(names[0], names[0] + resolved_suffix())] + rest
        } else {
            rest
        }
    }
}

proof fn lemma_rename_views_push(v: Seq<(Vec<u8>, Vec<u8>)>, p: (Vec<u8>, Vec<u8>))
    ensures
        rename_views(v.push(p)) =~= rename_views(v).push((p.0@, p.1@)),
{
}

/// Decides the durable effect of one refresh attempt: a failure at time
/// `now` writes a new record carrying the failure text; a success renames
/// every unresolved record in the given directory listing to its resolved
/// form.
pub fn refresh_transition(outcome: RefreshOutcome, now: u64, listing: &Vec<Vec<u8>>) -> (r:
    RefreshAction)
    ensures
        match outcome {
            RefreshOutcome::Failure(text) => match r {
                RefreshAction::WriteError { filename, contents } => filename@
                    == spec_make_error_filename(now) && contents@ == text@,
                _ => false,
            },
            RefreshOutcome::Success => match r {
                RefreshAction::Resolve { renames } => rename_views(renames@) == spec_renames(
                    views(listing@),
                ),
                _ => false,
            },
        },
{
    match outcome {
        RefreshOutcome::Failure(text) => RefreshAction::WriteError {
            filename: make_error_filename(now),
            contents: text,
        },
        RefreshOutcome::Success => {
            let suffix = {
                let s = "_resolved";
                proof {
                    reveal_strlit("_resolved");
                    assert(s.is_ascii());
                }
                lit_bytes(s)
            };
            proof {
                assert(suffix@ =~= resolved_suffix());
            }
            let ghost ns = views(listing@);
            let mut renames: Vec<(Vec<u8>, Vec<u8>)> = Vec::new();
            let mut k: usize = 0;
            proof {
                assert(ns.skip(0) =~= ns);
                assert(rename_views(renames@) + spec_renames(ns) =~= spec_renames(ns));
            }
            while k < listing.len()
                invariant
                    0 <= k <= listing@.len(),
                    views(listing@) == ns,
                    suffix@ == resolved_suffix(),
                    rename_views(renames@) + spec_renames(ns.skip(k as int)) =~= spec_renames(ns),
                decreases listing@.len() - k,
            {
                let ghost rest = ns.skip(k as int);
                proof {
                    assert(rest[0] == ns[k as int]);
                    assert(ns[k as int] == listing@[k as int]@);
                    assert(rest.skip(1) =~= ns.skip(k as int + 1));
                }
                let name: &Vec<u8> = &listing[k];
                if is_error_filename(name.as_slice()) {
                    let from = copy_bytes(name.as_slice());
                    let mut to = copy_bytes(name.as_slice());
                    push_bytes(&mut to, suffix.as_slice());
                    proof {
                        lemma_rename_views_push(renames@, (from, to));
                    }
                    renames.push((from, to));
                }
                k += 1;
            }
            proof {
                assert(ns.skip(listing@.len() as int) =~= Seq::<Seq<u8>>::empty());
                assert(rename_views(renames@) =~= spec_renames(ns));
            }
            RefreshAction::Resolve { renames }
        },
    }
}

/// A listing in which nothing matches the unresolved pattern filters to
/// nothing: the startup check of such a directory reports CLEAN.
pub proof fn lemma_clean_after_resolve(names: Seq<Seq<u8>>)
    requires
        forall|i: int| 0 <= i < names.len() ==> !spec_is_error_filename(#[trigger] names[i]),
    ensures
        unresolved_of(names) == Seq::<Seq<u8>>::empty(),
    decreases names.len(),
{
    if names.len() > 0 {
        assert forall|i: int|
            0 <= i < names.skip(1).len() implies !spec_is_error_filename(
            #[trigger] names.skip(1)[i],
        ) by {
            assert(names.skip(1)[i] == names[i + 1]);
        }
        lemma_clean_after_resolve(names.skip(1));
    }
}

/// A directory listing after a successful refresh: every unresolved record
/// renamed to its resolved form, everything else kept.
pub open spec fn apply_resolution(names: Seq<Seq<u8>>) -> Seq<Seq<u8>> {
    names.map_values(
        |n: Seq<u8>|
            if spec_is_error_filename(n) {
                n + resolved_suffix()
            } else {
                n
            },
    )
}

/// After a successful refresh has renamed every unresolved record — however
/// many failures had accumulated — no record matches any more, so the next
/// startup check reports CLEAN.
pub proof fn lemma_resolution_clears_all(names: Seq<Seq<u8>>)
    ensures
        unresolved_of(apply_resolution(names)) == Seq::<Seq<u8>>::empty(),
        forall|n: Seq<u8>| apply_resolution(names).contains(n) ==> !spec_is_error_filename(n),
{
    assert forall|n: Seq<u8>| apply_resolution(names).contains(n) implies !spec_is_error_filename(
        n,
    ) by {
        let i = choose|i: int|
            0 <= i < apply_resolution(names).len() && apply_resolution(names)[i] == n;
        lemma_resolved_never_unresolved(names[i]);
    }
    let after = apply_resolution(names);
    assert forall|i: int| 0 <= i < after.len() implies !spec_is_error_filename(
        #[trigger] after[i],
    ) by {
        lemma_resolved_never_unresolved(names[i]);
    }
    lemma_clean_after_resolve(after);
}

} // verus!
