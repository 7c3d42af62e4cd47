//! The package-freshness side: outdated-package records, the reverse index
//! from executable name to owning package, and the correlation of that index
//! with the recently used commands.
//!
//! Querying the package manager and listing installation directories is I/O
//! and stays with the caller; everything here is pure bookkeeping over the
//! values those calls produce.

use crate::bytes::{bytes_eq, concat_bytes, copy_bytes, lit_bytes, push_bytes, views};
use vstd::prelude::*;

verus! {

/// One outdated package as the package manager reports it: its name, its
/// installed versions in ascending order (the last is the one currently
/// active), the newest available version, and whether it is pinned.
pub struct BrewOutdatedFormulaEntry {
    pub package_name: Vec<u8>,
    pub installed_versions: Vec<Vec<u8>>,
    pub current_version: Vec<u8>,
    pub pinned: bool,
}

impl BrewOutdatedFormulaEntry {
    /// The version of this package that is currently installed: the last of
    /// `installed_versions`, which must not be empty.
    pub fn latest_installed_version(&self) -> (r: &Vec<u8>)
        requires
            self.installed_versions@.len() > 0,
        ensures
            r@ == self.installed_versions@.last()@,
    {
        &self.installed_versions[self.installed_versions.len() - 1]
    }
}

/// The full answer of the outdated-packages query: the list of outdated
/// formulae.
pub struct BrewOutdatedOutput {
    pub formulae: Vec<BrewOutdatedFormulaEntry>,
}

// ---------------------------------------------------------------------------
// The reverse index from executable name to owning package.
// ---------------------------------------------------------------------------

/// The mapping the recorded (name, package) pairs denote: pairs are applied
/// in order, so of two packages exporting the same executable name the later
/// recorded one wins.
pub open spec fn pairs_map(pairs: Seq<(Vec<u8>, usize)>) -> Map<Seq<u8>, int>
    decreases pairs.len(),
{
    if pairs.len() == 0 {
        Map::empty()
    } else {
        pairs_map(pairs.drop_last()).insert(pairs.last().0@, pairs.last().1 as int)
    }
}

proof fn lemma_pairs_map_last(pairs: Seq<(Vec<u8>, usize)>, i: int)
    requires
        0 <= i < pairs.len(),
        forall|m: int| i < m < pairs.len() ==> pairs[m].0@ != pairs[i].0@,
    ensures
        pairs_map(pairs).contains_key(pairs[i].0@),
        pairs_map(pairs)[pairs[i].0@] == pairs[i].1 as int,
    decreases pairs.len(),
{
    if i < pairs.len() - 1 {
        assert(pairs.drop_last()[i] == pairs[i]);
        lemma_pairs_map_last(pairs.drop_last(), i);
    }
}

proof fn lemma_pairs_map_absent(pairs: Seq<(Vec<u8>, usize)>, name: Seq<u8>)
    requires
        forall|m: int| 0 <= m < pairs.len() ==> pairs[m].0@ != name,
    ensures
        !pairs_map(pairs).contains_key(name),
    decreases pairs.len(),
{
    if pairs.len() > 0 {
        lemma_pairs_map_absent(pairs.drop_last(), name);
    }
}

proof fn lemma_pairs_map_key_has_pair(pairs: Seq<(Vec<u8>, usize)>, name: Seq<u8>)
    requires
        pairs_map(pairs).contains_key(name),
    ensures
        exists|i: int| 0 <= i < pairs.len() && pairs[i].0@ == name,
    decreases pairs.len(),
{
    if pairs.len() > 0 {
        if pairs.last().0@ != name {
            lemma_pairs_map_key_has_pair(pairs.drop_last(), name);
            let i = choose|i: int| 0 <= i < pairs.drop_last().len() && pairs.drop_last()[i].0@
                == name;
            assert(pairs[i].0@ == name);
        } else {
            assert(pairs[pairs.len() - 1].0@ == name);
        }
    }
}

/// The reverse index built from per-package executable resolutions: the
/// packages folded in so far, and for each executable name the package that
/// provides it (the one folded last, where two packages export the same
/// name).
pub struct ExecutableIndex {
    pub packages: Vec<BrewOutdatedFormulaEntry>,
    pub pairs: Vec<(Vec<u8>, usize)>,
}

/// The result of inserting every one of `names` with value `idx` into `m`.
pub open spec fn insert_all(m: Map<Seq<u8>, int>, names: Seq<Seq<u8>>, idx: int) -> Map<
    Seq<u8>,
    int,
>
    decreases names.len(),
{
    if names.len() == 0 {
        m
    } else {
        insert_all(m.insert(names[0], idx), names.skip(1), idx)
    }
}

/// A name among those inserted ends up mapped to `idx`.
pub proof fn lemma_insert_all_in(m: Map<Seq<u8>, int>, names: Seq<Seq<u8>>, idx: int, n: Seq<u8>)
    requires
        names.contains(n),
    ensures
        insert_all(m, names, idx).contains_key(n),
        insert_all(m, names, idx)[n] == idx,
    decreases names.len(),
{
    let m1 = m.insert(names[0], idx);
    let rest = names.skip(1);
    assert(insert_all(m, names, idx) == insert_all(m1, rest, idx));
    if rest.contains(n) {
        lemma_insert_all_in(m1, rest, idx, n);
    } else {
        let i = choose|i: int| 0 <= i < names.len() && names[i] == n;
        if i > 0 {
            assert(rest[i - 1] == n);
            assert(rest.contains(n));
        }
        assert(n == names[0]);
        lemma_insert_all_out(m1, rest, idx, n);
    }
}

/// A name not among those inserted keeps its old mapping.
pub proof fn lemma_insert_all_out(m: Map<Seq<u8>, int>, names: Seq<Seq<u8>>, idx: int, n: Seq<u8>)
    requires
        !names.contains(n),
    ensures
        insert_all(m, names, idx).contains_key(n) <==> m.contains_key(n),
        m.contains_key(n) ==> insert_all(m, names, idx)[n] == m[n],
    decreases names.len(),
{
    if names.len() > 0 {
        let m1 = m.insert(names[0], idx);
        let rest = names.skip(1);
        assert(insert_all(m, names, idx) == insert_all(m1, rest, idx));
        if names[0] == n {
            assert(names.contains(n));
        }
        if rest.contains(n) {
            let i = choose|i: int| 0 <= i < rest.len() && rest[i] == n;
            assert(names[i + 1] == n);
            assert(names.contains(n));
        }
        lemma_insert_all_out(m1, rest, idx, n);
    }
}

impl ExecutableIndex {
    /// The executable-to-package mapping this index denotes; values are
    /// positions in `packages`.
    pub open spec fn map(self) -> Map<Seq<u8>, int> {
        pairs_map(self.pairs@)
    }

    /// The set of executable names provided by any outdated package.
    pub open spec fn executables(self) -> Set<Seq<u8>> {
        self.map().dom()
    }

    /// Every recorded pair points at a folded package.
    pub open spec fn wf(self) -> bool {
        forall|i: int|
            0 <= i < self.pairs@.len() ==> (#[trigger] self.pairs@[i].1) < self.packages@.len()
    }

    /// A fresh, empty index.
    pub fn new() -> (r: ExecutableIndex)
        ensures
            r.packages@.len() == 0,
            r.map() == Map::<Seq<u8>, int>::empty(),
            r.wf(),
    {
        ExecutableIndex { packages: Vec::new(), pairs: Vec::new() }
    }

    /// The package a recorded position refers to.
    pub fn package(&self, i: usize) -> (r: &BrewOutdatedFormulaEntry)
        requires
            i < self.packages@.len(),
        ensures
            *r == self.packages@[i as int],
    {
        &self.packages[i]
    }

    /// The position recorded for an executable name, if any.
    pub fn lookup(&self, name: &[u8]) -> (r: Option<usize>)
        requires
            self.wf(),
        ensures
            match r {
                Some(i) => self.map().contains_key(name@) && self.map()[name@] == i as int && i
                    < self.packages@.len(),
                None => !self.map().contains_key(name@),
            },
    {
        let mut i: usize = self.pairs.len();
        while i > 0
            invariant
                0 <= i <= self.pairs@.len(),
                self.wf(),
                forall|m: int| i <= m < self.pairs@.len() ==> self.pairs@[m].0@ != name@,
            decreases i,
        {
            i -= 1;
            let p: &(Vec<u8>, usize) = &self.pairs[i];
            if bytes_eq(p.0.as_slice(), name) {
                proof {
                    lemma_pairs_map_last(self.pairs@, i as int);
                }
                return Some(p.1);
            }
        }
        proof {
            lemma_pairs_map_absent(self.pairs@, name@);
        }
        None
    }

    /// Folds one package's resolution result into the index: the package is
    /// recorded, and every one of its executables now maps to it — also
    /// where an earlier package had exported the same name. Executables of
    /// earlier packages not named here keep their mapping.
    pub fn fold_package(
        &mut self,
        entry: BrewOutdatedFormulaEntry,
        executables: Vec<Vec<u8>>,
    )
        requires
            old(self).wf(),
        ensures
            final(self).wf(),
            final(self).packages@ == old(self).packages@.push(entry),
            final(self).map() == insert_all(
                old(self).map(),
                views(executables@),
                old(self).packages@.len() as int,
            ),
            forall|n: Seq<u8>|
                views(executables@).contains(n) ==> #[trigger] final(self).map().contains_key(n)
                    && final(self).map()[n] == old(self).packages@.len() as int,
            forall|n: Seq<u8>|
                !views(executables@).contains(n) ==> (#[trigger] final(self).map().contains_key(n)
                    <==> old(self).map().contains_key(n)) && (old(self).map().contains_key(n)
                    ==> final(self).map()[n] == old(self).map()[n]),
    {
        let idx = self.packages.len();
        let ghost m0 = self.map();
        let ghost vs = views(executables@);
        self.packages.push(entry);
        let mut k: usize = 0;
        proof {
            assert(vs.skip(0) =~= vs);
        }
        while k < executables.len()
            invariant
                0 <= k <= executables@.len(),
                vs == views(executables@),
                idx < self.packages@.len(),
                idx == old(self).packages@.len(),
                self.packages@ == old(self).packages@.push(entry),
                forall|i: int|
                    0 <= i < self.pairs@.len() ==> (#[trigger] self.pairs@[i].1)
                        < self.packages@.len(),
                insert_all(pairs_map(self.pairs@), vs.skip(k as int), idx as int) == insert_all(
                    m0,
                    vs,
                    idx as int,
                ),
            decreases executables@.len() - k,
        {
            let ghost rest = vs.skip(k as int);
            proof {
                assert(rest[0] == vs[k as int]);
                assert(vs[k as int] == executables@[k as int]@);
                assert(rest.skip(1) =~= vs.skip(k as int + 1));
            }
            let name = copy_bytes(executables[k].as_slice());
            let ghost pairs0 = self.pairs@;
            self.pairs.push((name, idx));
            proof {
                assert(self.pairs@.drop_last() =~= pairs0);
                assert(pairs_map(self.pairs@) == pairs_map(pairs0).insert(vs[k as int], idx as int));
            }
            k += 1;
        }
        proof {
            assert(vs.skip(executables@.len() as int) =~= Seq::<Seq<u8>>::empty());
            assert(insert_all(pairs_map(self.pairs@), Seq::<Seq<u8>>::empty(), idx as int)
                == pairs_map(self.pairs@));
            assert(pairs_map(self.pairs@) == insert_all(m0, vs, idx as int));
            assert forall|n: Seq<u8>| vs.contains(n) implies #[trigger] pairs_map(
                self.pairs@,
            ).contains_key(n) && pairs_map(self.pairs@)[n] == idx as int by {
                lemma_insert_all_in(m0, vs, idx as int, n);
            }
            assert forall|n: Seq<u8>| !vs.contains(n) implies (#[trigger] pairs_map(
                self.pairs@,
            ).contains_key(n) <==> m0.contains_key(n)) && (m0.contains_key(n) ==> pairs_map(
                self.pairs@,
            )[n] == m0[n]) by {
                lemma_insert_all_out(m0, vs, idx as int, n);
            }
        }
    }
}

/// True when one of the byte strings in `v` equals `name`.
pub fn contains_name(v: &Vec<Vec<u8>>, name: &[u8]) -> (r: bool)
    ensures
        r == views(v@).contains(name@),
{
    let mut i: usize = 0;
    while i < v.len()
        invariant
            0 <= i <= v@.len(),
            forall|j: int| 0 <= j < i ==> v@[j]@ != name@,
        decreases v@.len() - i,
    {
        if bytes_eq(v[i].as_slice(), name) {
            proof {
                assert(views(v@)[i as int] == name@);
            }
            return true;
        }
        i += 1;
    }
    proof {
        assert forall|j: int| 0 <= j < views(v@).len() implies views(v@)[j] != name@ by {
            assert(views(v@)[j] == v@[j]@);
        }
    }
    false
}

fn result_contains(r: &Vec<(Vec<u8>, usize)>, name: &[u8]) -> (b: bool)
    ensures
        b == exists|j: int| 0 <= j < r@.len() && r@[j].0@ == name@,
{
    let mut i: usize = 0;
    while i < r.len()
        invariant
            0 <= i <= r@.len(),
            forall|j: int| 0 <= j < i ==> r@[j].0@ != name@,
        decreases r@.len() - i,
    {
        if bytes_eq(r[i].0.as_slice(), name) {
            return true;
        }
        i += 1;
    }
    false
}

/// Correlates the recently used command names with the executables of
/// outdated packages: the reported names are exactly those that occur in
/// both, each reported once, and each paired with the position of the
/// package recorded for it in the index (the one folded last).
pub fn correlate(used: &Vec<Vec<u8>>, index: &ExecutableIndex) -> (r: Vec<(Vec<u8>, usize)>)
    requires
        index.wf(),
    ensures
        forall|j: int|
            #![trigger r@[j]]
            0 <= j < r@.len() ==> views(used@).contains(r@[j].0@)
                && index.map().contains_key(r@[j].0@) && index.map()[r@[j].0@] == r@[j].1 as int
                && r@[j].1 < index.packages@.len(),
        forall|n: Seq<u8>|
            views(used@).contains(n) && #[trigger] index.map().contains_key(n) ==> exists|j: int|
                0 <= j < r@.len() && r@[j].0@ == n,
        forall|j1: int, j2: int| 0 <= j1 < j2 < r@.len() ==> r@[j1].0@ != r@[j2].0@,
{
    let mut r: Vec<(Vec<u8>, usize)> = Vec::new();
    let mut i: usize = 0;
    while i < index.pairs.len()
        invariant
            0 <= i <= index.pairs@.len(),
            index.wf(),
            forall|j: int|
                #![trigger r@[j]]
                0 <= j < r@.len() ==> views(used@).contains(r@[j].0@)
                    && index.map().contains_key(r@[j].0@) && index.map()[r@[j].0@] == r@[j].1 as int
                    && r@[j].1 < index.packages@.len(),
            forall|n: Seq<u8>|
                (exists|m: int| 0 <= m < i && index.pairs@[m].0@ == n) && views(used@).contains(n)
                    ==> exists|j: int| 0 <= j < r@.len() && #[trigger] r@[j].0@ == n,
            forall|j1: int, j2: int| 0 <= j1 < j2 < r@.len() ==> r@[j1].0@ != r@[j2].0@,
        decreases index.pairs@.len() - i,
    {
        let pair: &(Vec<u8>, usize) = &index.pairs[i];
        let name: &Vec<u8> = &pair.0;
        let ghost r0 = r@;
        let used_has = contains_name(used, name.as_slice());
        let mut already = false;
        if used_has {
            already = result_contains(&r, name.as_slice());
        }
        if used_has && !already {
            let pos = index.lookup(name.as_slice());
            proof {
                lemma_pairs_map_last_any(index.pairs@, i as int);
            }
            match pos {
                Some(ix) => {
                    r.push((copy_bytes(name.as_slice()), ix));
                    proof {
                        assert(r@ == r0.push((r@[r0.len() as int].0, ix)));
                        assert(r@[r0.len() as int].0@ == name@);
                    }
                },
                None => {
                    proof {
                        assert(false);
                    }
                },
            }
        }
        proof {
            assert forall|n: Seq<u8>|
                (exists|m: int| 0 <= m < i + 1 && index.pairs@[m].0@ == n) && views(
                    used@,
                ).contains(n) implies exists|j: int| 0 <= j < r@.len() && #[trigger] r@[j].0@
                == n by {
                let m = choose|m: int| 0 <= m < i + 1 && index.pairs@[m].0@ == n;
                if m < i {
                    let j = choose|j: int| 0 <= j < r0.len() && #[trigger] r0[j].0@ == n;
                    assert(r@[j].0@ == n);
                } else {
                    assert(n == name@);
                    if already {
                        let j = choose|j: int| 0 <= j < r0.len() && r0[j].0@ == n;
                        assert(r@[j].0@ == n);
                    } else {
                        assert(r@[r0.len() as int].0@ == n);
                    }
                }
            }
        }
        i += 1;
    }
    proof {
        assert forall|n: Seq<u8>|
            views(used@).contains(n) && #[trigger] index.map().contains_key(n) implies exists|
            j: int,
        | 0 <= j < r@.len() && r@[j].0@ == n by {
            lemma_pairs_map_key_has_pair(index.pairs@, n);
        }
    }
    r
}

// ---------------------------------------------------------------------------
// Installation paths and the suggested upgrade command.
// ---------------------------------------------------------------------------

/// `/Cellar/`: where the package manager keeps per-version installations
/// under its prefix.
pub open spec fn cellar_infix() -> Seq<u8> {
    seq!['/' as u8, 'C' as u8, 'e' as u8, 'l' as u8, 'l' as u8, 'a' as u8, 'r' as u8, '/' as u8]
}

/// `/bin`: the executable-bearing subdirectory of an installation.
pub open spec fn bin_suffix() -> Seq<u8> {
    seq!['/' as u8, 'b' as u8, 'i' as u8, 'n' as u8]
}

/// The installation directory of one version of a package:
/// `<prefix>/Cellar/<name>/<version>`.
pub open spec fn spec_cellar_package_path(
    prefix: Seq<u8>,
    name: Seq<u8>,
    version: Seq<u8>,
) -> Seq<u8> {
    prefix + cellar_infix() + name + seq!['/' as u8] + version
}

/// Builds the installation directory of one version of a package.
pub fn cellar_package_path(prefix: &[u8], name: &[u8], version: &[u8]) -> (r: Vec<u8>)
    ensures
        r@ == spec_cellar_package_path(prefix@, name@, version@),
{
    let cellar = {
        let s = "/Cellar/";
        proof {
            reveal_strlit("/Cellar/");
            assert(s.is_ascii());
        }
        lit_bytes(s)
    };
    proof {
        assert(cellar@ =~= cellar_infix());
    }
    let slash = {
        let s = "/";
        proof {
            reveal_strlit("/");
            assert(s.is_ascii());
        }
        lit_bytes(s)
    };
    proof {
        assert(slash@ =~= seq!['/' as u8]);
    }
    let mut r = copy_bytes(prefix);
    push_bytes(&mut r, cellar.as_slice());
    push_bytes(&mut r, name);
    push_bytes(&mut r, slash.as_slice());
    push_bytes(&mut r, version);
    r
}

/// The executable-bearing subdirectory of one version of a package:
/// `<prefix>/Cellar/<name>/<version>/bin`.
pub open spec fn spec_cellar_bin_path(prefix: Seq<u8>, name: Seq<u8>, version: Seq<u8>) -> Seq<
    u8,
> {
    spec_cellar_package_path(prefix, name, version) + bin_suffix()
}

/// Builds the executable-bearing subdirectory of one version of a package.
pub fn cellar_bin_path(prefix: &[u8], name: &[u8], version: &[u8]) -> (r: Vec<u8>)
    ensures
        r@ == spec_cellar_bin_path(prefix@, name@, version@),
{
    let bin = {
        let s = "/bin";
        proof {
            reveal_strlit("/bin");
            assert(s.is_ascii());
        }
        lit_bytes(s)
    };
    proof {
        assert(bin@ =~= bin_suffix());
    }
    let mut r = cellar_package_path(prefix, name, version);
    push_bytes(&mut r, bin.as_slice());
    r
}

/// `brew upgrade`: the command the suggestion starts with.
pub open spec fn brew_upgrade_prefix() -> Seq<u8> {
    seq![
        'b' as u8,
        'r' as u8,
        'e' as u8,
        'w' as u8,
        ' ' as u8,
        'u' as u8,
        'p' as u8,
        'g' as u8,
        'r' as u8,
        'a' as u8,
        'd' as u8,
        'e' as u8,
    ]
}

/// Each name, preceded by a space, in order.
pub open spec fn joined_names(names: Seq<Seq<u8>>) -> Seq<u8>
    decreases names.len(),
{
    if names.len() == 0 {
        Seq::empty()
    } else {
        seq![' ' as u8] + names[0] + joined_names(names.skip(1))
    }
}

/// The single combined upgrade command for the given package names:
/// `brew upgrade <name> <name> ...`.
pub open spec fn spec_upgrade_command(names: Seq<Seq<u8>>) -> Seq<u8> {
    brew_upgrade_prefix() + joined_names(names)
}

/// Builds the suggested combined upgrade command line.
pub fn upgrade_command(packages: &Vec<Vec<u8>>) -> (r: Vec<u8>)
    ensures
        r@ == spec_upgrade_command(views(packages@)),
{
    let ghost vs = views(packages@);
    let mut r = {
        let s = "brew upgrade";
        proof {
            reveal_strlit("brew upgrade");
            assert(s.is_ascii());
        }
        lit_bytes(s)
    };
    proof {
        assert(r@ =~= brew_upgrade_prefix());
    }
    let space = {
        let s = " ";
        proof {
            reveal_strlit(" ");
            assert(s.is_ascii());
        }
        lit_bytes(s)
    };
    proof {
        assert(space@ =~= seq![' ' as u8]);
    }
    let mut k: usize = 0;
    proof {
        assert(vs.skip(0) =~= vs);
    }
    while k < packages.len()
        invariant
            0 <= k <= packages@.len(),
            vs == views(packages@),
            space@ == seq![' ' as u8],
            r@ + joined_names(vs.skip(k as int)) =~= spec_upgrade_command(vs),
        decreases packages@.len() - k,
    {
        let ghost rest = vs.skip(k as int);
        proof {
            assert(rest[0] == vs[k as int]);
            assert(vs[k as int] == packages@[k as int]@);
            assert(rest.skip(1) =~= vs.skip(k as int + 1));
        }
        push_bytes(&mut r, space.as_slice());
        push_bytes(&mut r, packages[k].as_slice());
        proof {
            assert(r@ + joined_names(vs.skip(k as int + 1)) =~= spec_upgrade_command(vs));
        }
        k += 1;
    }
    proof {
        assert(vs.skip(packages@.len() as int) =~= Seq::<Seq<u8>>::empty());
        assert(r@ + Seq::<u8>::empty() =~= r@);
    }
    r
}

proof fn lemma_pairs_map_last_any(pairs: Seq<(Vec<u8>, usize)>, i: int)
    requires
        0 <= i < pairs.len(),
    ensures
        pairs_map(pairs).contains_key(pairs[i].0@),
    decreases pairs.len(),
{
    if i == pairs.len() - 1 {
    } else {
        lemma_pairs_map_last_any(pairs.drop_last(), i);
        assert(pairs.drop_last()[i] == pairs[i]);
    }
}

} // verus!
