//! The alias store and the decisions made against it: resolving an alias to
//! a present device, adding, deleting, and classifying devices and aliases.

use vstd::prelude::*;
use crate::decode::chars_of;
use crate::tty::{PresentTty, Tty, TtyView};

verus! {

/// One alias: a user-chosen name bound to a device identity.
#[derive(Debug)]
pub struct AliasEntry {
    pub name: String,
    pub tty: Tty,
}

/// Why an operation on the alias store failed.
#[derive(Debug, Clone, Copy, PartialEq, Eq, Structural)]
pub enum ReconcileError {
    /// The name is not an alias of the store.
    UnknownAlias,
    /// No present device fits.
    NotPresent,
    /// More than one present device fits, and none is picked.
    Ambiguous,
    /// The name has a character other than a letter, digit, `_` or `-`, is
    /// empty, or is a command word.
    InvalidName,
}

/// Whether an addition bound a device that had no alias, or replaced the
/// alias or aliases it had.
#[derive(Debug, Clone, Copy, PartialEq, Eq, Structural)]
pub enum AddOutcome {
    Added,
    Modified,
}

/// Whether no two entries share a name.
pub open spec fn names_unique(s: Seq<AliasEntry>) -> bool {
    forall|i: int, j: int| 0 <= i < j < s.len() ==> s[i].name@ != s[j].name@
}

/// The mapping from name to identity that a sequence of entries holds, a
/// later entry taking the place of an earlier one of the same name.
pub open spec fn alias_map(s: Seq<AliasEntry>) -> Map<Seq<char>, TtyView>
    decreases s.len(),
{
    if s.len() == 0 {
        Map::empty()
    } else {
        alias_map(s.drop_last()).insert(s.last().name@, s.last().tty@)
    }
}

/// The device nodes of the present devices whose identity is `t`, in order.
pub open spec fn matching_paths(devs: Seq<PresentTty>, t: TtyView) -> Seq<Seq<char>>
    decreases devs.len(),
{
    if devs.len() == 0 {
        Seq::empty()
    } else if devs.last().tty@ == t {
        matching_paths(devs.drop_last(), t).push(devs.last().device@)
    } else {
        matching_paths(devs.drop_last(), t)
    }
}

/// The identities of the present devices at device node `path`, in order.
pub open spec fn identities_at(devs: Seq<PresentTty>, path: Seq<char>) -> Seq<TtyView>
    decreases devs.len(),
{
    if devs.len() == 0 {
        Seq::empty()
    } else if devs.last().device@ == path {
        identities_at(devs.drop_last(), path).push(devs.last().tty@)
    } else {
        identities_at(devs.drop_last(), path)
    }
}

/// What resolving `name` against the present devices gives: the one device
/// node whose device has the alias's identity.
pub open spec fn resolve_outcome(
    aliases: Map<Seq<char>, TtyView>,
    name: Seq<char>,
    devs: Seq<PresentTty>,
) -> Result<Seq<char>, ReconcileError> {
    if !aliases.contains_key(name) {
        Err(ReconcileError::UnknownAlias)
    } else {
        let found = matching_paths(devs, aliases[name]);
        if found.len() == 0 {
            Err(ReconcileError::NotPresent)
        } else if found.len() == 1 {
            Ok(found[0])
        } else {
            Err(ReconcileError::Ambiguous)
        }
    }
}

/// Whether `c` may stand in an alias name.
pub open spec fn is_name_char(c: char) -> bool {
    ('a' <= c && c <= 'z') || ('A' <= c && c <= 'Z') || ('0' <= c && c <= '9') || c == '_' || c
        == '-'
}

/// The command words, which no alias may take.
pub open spec fn is_reserved(name: Seq<char>) -> bool {
    name == "list"@ || name == "add"@ || name == "delete"@
}

/// A non-empty name of letters, digits, `_` and `-` that is no command word.
pub open spec fn valid_name(name: Seq<char>) -> bool {
    name.len() > 0 && (forall|i: int| 0 <= i < name.len() ==> is_name_char(#[trigger] name[i]))
        && !is_reserved(name)
}

/// `aliases` without every alias whose identity is `t`.
pub open spec fn without_identity(aliases: Map<Seq<char>, TtyView>, t: TtyView) -> Map<
    Seq<char>,
    TtyView,
> {
    Map::new(|n: Seq<char>| aliases.contains_key(n) && aliases[n] != t, |n: Seq<char>| aliases[n])
}

/// Whether some alias has identity `t`.
pub open spec fn has_identity(aliases: Map<Seq<char>, TtyView>, t: TtyView) -> bool {
    exists|n: Seq<char>| aliases.contains_key(n) && #[trigger] aliases[n] == t
}

/// Why adding alias `name` for the device at node `path` fails, if it does.
pub open spec fn add_error(name: Seq<char>, path: Seq<char>, devs: Seq<PresentTty>) -> Option<
    ReconcileError,
> {
    if !valid_name(name) {
        Some(ReconcileError::InvalidName)
    } else if identities_at(devs, path).len() == 0 {
        Some(ReconcileError::NotPresent)
    } else if identities_at(devs, path).len() > 1 {
        Some(ReconcileError::Ambiguous)
    } else {
        None
    }
}

/// How the present devices and the aliases relate, by their positions in the
/// device list and in the store.
#[derive(Debug)]
pub struct Listing {
    /// Each present device with each alias of its identity, as (device,
    /// alias), ordered by device and then by alias.
    pub known_present: Vec<(usize, usize)>,
    /// The present devices that no alias has the identity of, in order.
    pub unknown_present: Vec<usize>,
    /// The aliases whose identity no present device has, in order.
    pub known_missing: Vec<usize>,
}

/// Whether pair `a` comes before pair `b`, by device and then by alias.
pub open spec fn pair_before(a: (usize, usize), b: (usize, usize)) -> bool {
    a.0 < b.0 || (a.0 == b.0 && a.1 < b.1)
}

/// Whether no alias has the identity of present device `i`.
pub open spec fn unmatched_device(devs: Seq<PresentTty>, ents: Seq<AliasEntry>, i: int) -> bool {
    forall|j: int| 0 <= j < ents.len() ==> devs[i].tty@ != #[trigger] ents[j].tty@
}

/// Whether no present device has the identity of alias `j`.
pub open spec fn unmatched_alias(devs: Seq<PresentTty>, ents: Seq<AliasEntry>, j: int) -> bool {
    forall|i: int| 0 <= i < devs.len() ==> #[trigger] devs[i].tty@ != ents[j].tty@
}

/// Whether `kp`, `up` and `km` classify the present devices `devs` and the
/// aliases `ents`: `kp` holds exactly the (device, alias) pairs of equal
/// identity, `up` exactly the devices of no alias, `km` exactly the aliases
/// of no present device, each strictly ordered.
pub open spec fn is_listing(
    devs: Seq<PresentTty>,
    ents: Seq<AliasEntry>,
    kp: Seq<(usize, usize)>,
    up: Seq<usize>,
    km: Seq<usize>,
) -> bool {
    &&& devs.len() <= usize::MAX && ents.len() <= usize::MAX
    &&& forall|k: int|
        0 <= k < kp.len() ==> (#[trigger] kp[k]).0 < devs.len() && kp[k].1 < ents.len()
            && devs[kp[k].0 as int].tty@ == ents[kp[k].1 as int].tty@
    &&& forall|i: int, j: int|
        0 <= i < devs.len() && 0 <= j < ents.len() && #[trigger] devs[i].tty@ == #[trigger] ents[j].tty@
            ==> kp.contains((i as usize, j as usize))
    &&& forall|k1: int, k2: int| 0 <= k1 < k2 < kp.len() ==> pair_before(#[trigger] kp[k1], #[trigger] kp[k2])
    &&& forall|k: int| 0 <= k < up.len() ==> #[trigger] up[k] < devs.len() && unmatched_device(devs, ents, up[k] as int)
    &&& forall|i: int| 0 <= i < devs.len() && #[trigger] unmatched_device(devs, ents, i) ==> up.contains(i as usize)
    &&& forall|k1: int, k2: int| 0 <= k1 < k2 < up.len() ==> #[trigger] up[k1] < #[trigger] up[k2]
    &&& forall|k: int| 0 <= k < km.len() ==> #[trigger] km[k] < ents.len() && unmatched_alias(devs, ents, km[k] as int)
    &&& forall|j: int| 0 <= j < ents.len() && #[trigger] unmatched_alias(devs, ents, j) ==> km.contains(j as usize)
    &&& forall|k1: int, k2: int| 0 <= k1 < k2 < km.len() ==> #[trigger] km[k1] < #[trigger] km[k2]
}

proof fn lemma_alias_map(s: Seq<AliasEntry>)
    ensures
        forall|n: Seq<char>|
            #[trigger] alias_map(s).contains_key(n) <==> exists|j: int|
                0 <= j < s.len() && #[trigger] s[j].name@ == n,
        names_unique(s) ==> forall|j: int|
            0 <= j < s.len() ==> alias_map(s)[#[trigger] s[j].name@] == s[j].tty@,
    decreases s.len(),
{
    if s.len() > 0 {
        let t = s.drop_last();
        lemma_alias_map(t);
        assert forall|n: Seq<char>|
            #[trigger] alias_map(s).contains_key(n) <==> exists|j: int|
                0 <= j < s.len() && #[trigger] s[j].name@ == n by {
            if alias_map(s).contains_key(n) && n != s.last().name@ {
                assert(alias_map(t).contains_key(n));
                let j = choose|j: int| 0 <= j < t.len() && #[trigger] t[j].name@ == n;
                assert(s[j].name@ == n);
            }
            if exists|j: int| 0 <= j < s.len() && #[trigger] s[j].name@ == n {
                let j = choose|j: int| 0 <= j < s.len() && #[trigger] s[j].name@ == n;
                if j < t.len() {
                    assert(t[j].name@ == n);
                    assert(alias_map(t).contains_key(n));
                }
            }
        }
        if names_unique(s) {
            assert forall|j: int| 0 <= j < s.len() implies alias_map(s)[#[trigger] s[j].name@]
                == s[j].tty@ by {
                if j < t.len() {
                    assert(t[j] == s[j]);
                }
            }
        }
    }
}

proof fn lemma_matching_append(a: Seq<PresentTty>, b: Seq<PresentTty>, t: TtyView)
    ensures
        matching_paths(a + b, t) == matching_paths(a, t) + matching_paths(b, t),
    decreases b.len(),
{
    if b.len() == 0 {
        assert(a + b =~= a);
        assert(matching_paths(a, t) + matching_paths(b, t) =~= matching_paths(a, t));
    } else {
        assert((a + b).drop_last() =~= a + b.drop_last());
        lemma_matching_append(a, b.drop_last(), t);
        if b.last().tty@ == t {
            assert(matching_paths(a, t) + matching_paths(b, t) =~= (matching_paths(a, t)
                + matching_paths(b.drop_last(), t)).push(b.last().device@));
        }
    }
}

proof fn lemma_identities_append(a: Seq<PresentTty>, b: Seq<PresentTty>, path: Seq<char>)
    ensures
        identities_at(a + b, path) == identities_at(a, path) + identities_at(b, path),
    decreases b.len(),
{
    if b.len() == 0 {
        assert(a + b =~= a);
        assert(identities_at(a, path) + identities_at(b, path) =~= identities_at(a, path));
    } else {
        assert((a + b).drop_last() =~= a + b.drop_last());
        lemma_identities_append(a, b.drop_last(), path);
        if b.last().device@ == path {
            assert(identities_at(a, path) + identities_at(b, path) =~= (identities_at(a, path)
                + identities_at(b.drop_last(), path)).push(b.last().tty@));
        }
    }
}

/// The alias store: each name bound to the identity of one device.
#[derive(Debug)]
pub struct Configuration {
    ttys: Vec<AliasEntry>,
}

impl View for Configuration {
    type V = Map<Seq<char>, TtyView>;

    open spec fn view(&self) -> Map<Seq<char>, TtyView> {
        alias_map(self.entries())
    }
}

fn clone_entry(e: &AliasEntry) -> (r: AliasEntry)
    ensures
        r.name@ == e.name@,
        r.tty@ == e.tty@,
{
    AliasEntry { name: e.name.clone(), tty: e.tty.duplicate() }
}

impl Configuration {
    /// The entries of the store, in the order they are kept.
    pub closed spec fn entries(&self) -> Seq<AliasEntry> {
        self.ttys@
    }

    /// No two entries share a name.
    pub open spec fn wf(&self) -> bool {
        names_unique(self.entries())
    }

    /// An empty store.
    pub fn new() -> (r: Configuration)
        ensures
            r.wf(),
            r@ == Map::<Seq<char>, TtyView>::empty(),
            r.entries().len() == 0,
    {
        Configuration { ttys: Vec::new() }
    }

    /// The entries of the store, in the order they are kept.
    pub fn aliases(&self) -> (r: &Vec<AliasEntry>)
        ensures
            r@ == self.entries(),
    {
        &self.ttys
    }

    /// The number of aliases.
    pub fn len(&self) -> (r: usize)
        requires
            self.wf(),
        ensures
            r == self@.len(),
            r == self.entries().len(),
    {
        proof {
            self.lemma_len();
        }
        self.ttys.len()
    }

    proof fn lemma_len(&self)
        requires
            self.wf(),
        ensures
            self@.len() == self.entries().len(),
    {
        lemma_unique_len(self.entries());
    }

    fn find(&self, name: &String) -> (r: Option<usize>)
        requires
            self.wf(),
        ensures
            match r {
                Some(j) => j < self.entries().len() && self.entries()[j as int].name@ == name@
                    && self@.contains_key(name@) && self@[name@] == self.entries()[j as int].tty@,
                None => !self@.contains_key(name@),
            },
    {
        proof {
            lemma_alias_map(self.entries());
        }
        let mut j: usize = 0;
        while j < self.ttys.len()
            invariant
                self.wf(),
                j <= self.entries().len(),
                forall|k: int| 0 <= k < j ==> self.entries()[k].name@ != name@,
            decreases self.entries().len() - j,
        {
            if self.ttys[j].name == *name {
                proof {
                    lemma_alias_map(self.entries());
                }
                return Some(j);
            }
            j = j + 1;
        }
        proof {
            lemma_alias_map(self.entries());
        }
        None
    }

    /// Binds `name` to `tty`, in place of any identity it had.
    pub fn insert(&mut self, name: String, tty: Tty)
        requires
            old(self).wf(),
        ensures
            final(self).wf(),
            final(self)@ == old(self)@.insert(name@, tty@),
    {
        let ghost before = self.entries();
        proof {
            lemma_alias_map(before);
        }
        match self.find(&name) {
            Some(j) => {
                self.ttys.set(j, AliasEntry { name, tty });
                let ghost after = self.entries();
                assert(names_unique(after));
                proof {
                    lemma_alias_map(after);
                }
                assert(self@ =~= old(self)@.insert(after[j as int].name@, after[j as int].tty@)) by {
                    assert forall|n: Seq<char>| #[trigger] self@.contains_key(n) implies old(
                        self,
                    )@.insert(after[j as int].name@, after[j as int].tty@).contains_key(n) && self@[n]
                        == old(self)@.insert(after[j as int].name@, after[j as int].tty@)[n] by {
                        let k = choose|k: int| 0 <= k < after.len() && #[trigger] after[k].name@ == n;
                        if k != j {
                            assert(before[k] == after[k]);
                        }
                    }
                    assert forall|n: Seq<char>| #[trigger] old(self)@.contains_key(n) implies self@.contains_key(n) by {
                        let k = choose|k: int| 0 <= k < before.len() && #[trigger] before[k].name@ == n;
                        if k != j {
                            assert(before[k] == after[k]);
                        }
                    }
                }
            },
            None => {
                self.ttys.push(AliasEntry { name, tty });
                assert(self.entries().drop_last() =~= before);
                assert forall|i: int, k: int|
                    0 <= i < k < self.entries().len() implies self.entries()[i].name@
                    != self.entries()[k].name@ by {
                    if k == before.len() {
                        assert(before[i].name@ == self.entries()[i].name@);
                    }
                }
            },
        }
    }

    /// The device node that alias `name` is at now: that of the one present
    /// device with the alias's identity. Fails where the name is no alias,
    /// where no present device has that identity, and where more than one has.
    pub fn resolve(&self, name: &str, present: &Vec<PresentTty>) -> (r: Result<String, ReconcileError>)
        requires
            self.wf(),
        ensures
            match r {
                Ok(path) => resolve_outcome(self@, name@, present@) == Ok::<Seq<char>, ReconcileError>(path@),
                Err(e) => resolve_outcome(self@, name@, present@) == Err::<Seq<char>, ReconcileError>(e),
            },
    {
        let wanted = String::from_str(name);
        let j = match self.find(&wanted) {
            Some(j) => j,
            None => {
                return Err(ReconcileError::UnknownAlias);
            },
        };
        let tty = &self.ttys[j].tty;
        let ghost t = tty@;
        assert(self@.contains_key(name@) && self@[name@] == t);
        let mut pick: Option<usize> = None;
        let mut i: usize = 0;
        while i < present.len()
            invariant
                i <= present@.len(),
                t == tty@,
                self@.contains_key(name@) && self@[name@] == t,
                match pick {
                    Some(p) => p < i && matching_paths(present@.take(i as int), t) == seq![present@[p as int].device@],
                    None => matching_paths(present@.take(i as int), t).len() == 0,
                },
            decreases present@.len() - i,
        {
            assert(present@.take(i + 1).drop_last() =~= present@.take(i as int));
            if present[i].tty.same_identity(tty) {
                if pick.is_some() {
                    proof {
                        assert(matching_paths(present@.take(i + 1), t).len() == 2);
                        lemma_matching_append(present@.take(i + 1), present@.skip(i + 1), t);
                        assert(present@.take(i + 1) + present@.skip(i + 1) =~= present@);
                        assert(matching_paths(present@, t).len() >= 2);
                    }
                    return Err(ReconcileError::Ambiguous);
                }
                pick = Some(i);
            }
            i = i + 1;
        }
        assert(present@.take(i as int) =~= present@);
        match pick {
            Some(p) => Ok(present[p].device.clone()),
            None => Err(ReconcileError::NotPresent),
        }
    }
    /// Binds `name` to the identity of the one present device at node
    /// `device`, after removing every alias that already had that identity,
    /// so that no device ends up with two aliases. Fails, changing nothing,
    /// where the name is not a valid alias name, where no present device is
    /// at that node, and where more than one is. The outcome says whether
    /// some alias had the identity before.
    pub fn add(&mut self, name: &str, device: &str, present: &Vec<PresentTty>) -> (r: Result<
        AddOutcome,
        ReconcileError,
    >)
        requires
            old(self).wf(),
        ensures
            final(self).wf(),
            match r {
                Err(e) => add_error(name@, device@, present@) == Some(e) && final(self).entries()
                    == old(self).entries(),
                Ok(o) => {
                    let t = identities_at(present@, device@)[0];
                    &&& add_error(name@, device@, present@) is None
                    &&& final(self)@ == without_identity(old(self)@, t).insert(name@, t)
                    &&& (o == AddOutcome::Modified) == has_identity(old(self)@, t)
                },
            },
    {
        if !valid_alias_name(name) {
            return Err(ReconcileError::InvalidName);
        }
        let path = String::from_str(device);
        let mut found: Option<usize> = None;
        let mut i: usize = 0;
        while i < present.len()
            invariant
                i <= present@.len(),
                path@ == device@,
                valid_name(name@),
                old(self).wf(),
                self.entries() == old(self).entries(),
                match found {
                    Some(p) => p < i && identities_at(present@.take(i as int), device@) == seq![
                        present@[p as int].tty@,
                    ],
                    None => identities_at(present@.take(i as int), device@).len() == 0,
                },
            decreases present@.len() - i,
        {
            assert(present@.take(i + 1).drop_last() =~= present@.take(i as int));
            if present[i].device == path {
                if found.is_some() {
                    proof {
                        assert(identities_at(present@.take(i + 1), device@).len() == 2);
                        lemma_identities_append(present@.take(i + 1), present@.skip(i + 1), device@);
                        assert(present@.take(i + 1) + present@.skip(i + 1) =~= present@);
                    }
                    return Err(ReconcileError::Ambiguous);
                }
                found = Some(i);
            }
            i = i + 1;
        }
        assert(present@.take(i as int) =~= present@);
        let p = match found {
            Some(p) => p,
            None => {
                return Err(ReconcileError::NotPresent);
            },
        };
        let tty = present[p].tty.duplicate();
        let ghost t = tty@;
        let ghost before = self.entries();
        let wanted = String::from_str(name);
        let mut kept: Vec<AliasEntry> = Vec::new();
        let mut modified = false;
        let mut j: usize = 0;
        assert(before.take(0) =~= Seq::<AliasEntry>::empty());
        assert(alias_map(kept@) =~= without_identity(alias_map(before.take(0)), t).remove(name@));
        while j < self.ttys.len()
            invariant
                before == self.entries(),
                before == old(self).entries(),
                names_unique(before),
                j <= before.len(),
                wanted@ == name@,
                tty@ == t,
                names_unique(kept@),
                forall|k: int, m: int|
                    0 <= k < kept@.len() && j <= m < before.len() ==> #[trigger] kept@[k].name@
                        != #[trigger] before[m].name@,
                forall|k: int| 0 <= k < kept@.len() ==> #[trigger] kept@[k].name@ != name@,
                alias_map(kept@) == without_identity(alias_map(before.take(j as int)), t).remove(
                    name@,
                ),
                modified == has_identity(alias_map(before.take(j as int)), t),
            decreases before.len() - j,
        {
            let ghost prefix = before.take(j as int);
            proof {
                assert(before.take(j + 1).drop_last() =~= prefix);
                lemma_alias_map(prefix);
                if alias_map(prefix).contains_key(before[j as int].name@) {
                    let k = choose|k: int|
                        0 <= k < prefix.len() && #[trigger] prefix[k].name@ == before[j as int].name@;
                    assert(before[k].name@ == before[j as int].name@);
                }
                lemma_insert_new(
                    alias_map(prefix),
                    before[j as int].name@,
                    before[j as int].tty@,
                    t,
                    name@,
                );
            }
            let e = &self.ttys[j];
            let same = e.tty.same_identity(&tty);
            if same {
                modified = true;
            }
            if !same && !(e.name == wanted) {
                let ghost old_kept = kept@;
                kept.push(clone_entry(e));
                assert(kept@.drop_last() =~= old_kept);
            }
            j = j + 1;
        }
        assert(before.take(j as int) =~= before);
        proof {
            lemma_alias_map(before);
        }
        let ghost old_kept = kept@;
        kept.push(AliasEntry { name: wanted, tty });
        assert(kept@.drop_last() =~= old_kept);
        self.ttys = kept;
        assert(self@ =~= without_identity(old(self)@, t).insert(name@, t));
        if modified {
            Ok(AddOutcome::Modified)
        } else {
            Ok(AddOutcome::Added)
        }
    }

    /// Removes alias `name`. Fails, changing nothing, where the name is no
    /// alias.
    pub fn delete(&mut self, name: &str) -> (r: Result<(), ReconcileError>)
        requires
            old(self).wf(),
        ensures
            final(self).wf(),
            old(self)@.contains_key(name@) ==> r is Ok && final(self)@ == old(self)@.remove(name@),
            !old(self)@.contains_key(name@) ==> r == Err::<(), ReconcileError>(
                ReconcileError::UnknownAlias,
            ) && final(self).entries() == old(self).entries(),
    {
        let wanted = String::from_str(name);
        match self.find(&wanted) {
            None => Err(ReconcileError::UnknownAlias),
            Some(j) => {
                let ghost before = self.entries();
                let _gone = self.ttys.remove(j);
                let ghost after = self.entries();
                assert forall|i: int, k: int| 0 <= i < k < after.len() implies after[i].name@
                    != after[k].name@ by {
                    let bi = if i < j { i } else { i + 1 };
                    let bk = if k < j { k } else { k + 1 };
                    assert(after[i] == before[bi] && after[k] == before[bk]);
                }
                proof {
                    lemma_alias_map(before);
                    lemma_alias_map(after);
                }
                assert forall|n: Seq<char>| #[trigger] self@.contains_key(n) implies old(
                    self,
                )@.remove(name@).contains_key(n) && self@[n] == old(self)@[n] by {
                    let k = choose|k: int| 0 <= k < after.len() && #[trigger] after[k].name@ == n;
                    let bk = if k < j { k } else { k + 1 };
                    assert(after[k] == before[bk]);
                }
                assert forall|n: Seq<char>| #[trigger] old(self)@.remove(name@).contains_key(n) implies self@.contains_key(n) by {
                    let k = choose|k: int| 0 <= k < before.len() && #[trigger] before[k].name@ == n;
                    if k < j {
                        assert(after[k] == before[k]);
                    } else {
                        assert(after[k - 1] == before[k]);
                    }
                }
                assert(self@ =~= old(self)@.remove(name@));
                Ok(())
            },
        }
    }

    /// Classifies every present device and every alias: devices together
    /// with the aliases of their identity, devices of no alias, and aliases
    /// of no present device.
    pub fn list(&self, present: &Vec<PresentTty>) -> (r: Listing)
        ensures
            is_listing(present@, self.entries(), r.known_present@, r.unknown_present@, r.known_missing@),
    {
        let ghost devs = present@;
        let ghost ents = self.entries();
        let n = self.ttys.len();
        let mut seen: Vec<bool> = Vec::new();
        while seen.len() < n
            invariant
                seen@.len() <= n == ents.len(),
                forall|j: int| 0 <= j < seen@.len() ==> !#[trigger] seen@[j],
            decreases n - seen@.len(),
        {
            seen.push(false);
        }
        let mut kp: Vec<(usize, usize)> = Vec::new();
        let mut up: Vec<usize> = Vec::new();
        let mut i: usize = 0;
        while i < present.len()
            invariant
                devs == present@,
                ents == self.entries(),
                n == ents.len(),
                i <= devs.len(),
                seen@.len() == n,
                forall|j: int| 0 <= j < n ==> #[trigger] seen@[j] == exists|d: int| 0 <= d < i && #[trigger] devs[d].tty@ == ents[j].tty@,
                forall|k: int|
                    0 <= k < kp@.len() ==> (#[trigger] kp@[k]).0 < i && kp@[k].1 < ents.len()
                        && devs[kp@[k].0 as int].tty@ == ents[kp@[k].1 as int].tty@,
                forall|d: int, j: int|
                    0 <= d < i && 0 <= j < ents.len() && #[trigger] devs[d].tty@ == #[trigger] ents[j].tty@
                        ==> kp@.contains((d as usize, j as usize)),
                forall|k1: int, k2: int| 0 <= k1 < k2 < kp@.len() ==> pair_before(#[trigger] kp@[k1], #[trigger] kp@[k2]),
                forall|k: int| 0 <= k < up@.len() ==> #[trigger] up@[k] < i && unmatched_device(devs, ents, up@[k] as int),
                forall|d: int| 0 <= d < i && #[trigger] unmatched_device(devs, ents, d) ==> up@.contains(d as usize),
                forall|k1: int, k2: int| 0 <= k1 < k2 < up@.len() ==> #[trigger] up@[k1] < #[trigger] up@[k2],
            decreases devs.len() - i,
        {
            let mut matched = false;
            let mut j: usize = 0;
            while j < n
                invariant
                    devs == present@,
                    ents == self.entries(),
                    n == ents.len(),
                    i < devs.len(),
                    j <= n,
                    seen@.len() == n,
                    forall|m: int| 0 <= m < j ==> #[trigger] seen@[m] == exists|d: int| 0 <= d <= i && #[trigger] devs[d].tty@ == ents[m].tty@,
                    forall|m: int| j <= m < n ==> #[trigger] seen@[m] == exists|d: int| 0 <= d < i && #[trigger] devs[d].tty@ == ents[m].tty@,
                    matched == exists|m: int| 0 <= m < j && devs[i as int].tty@ == #[trigger] ents[m].tty@,
                    forall|k: int|
                        0 <= k < kp@.len() ==> ((#[trigger] kp@[k]).0 < i || (kp@[k].0 == i && kp@[k].1 < j)) && kp@[k].1 < ents.len()
                            && devs[kp@[k].0 as int].tty@ == ents[kp@[k].1 as int].tty@,
                    forall|d: int, m: int|
                        ((0 <= d < i && 0 <= m < ents.len()) || (d == i && 0 <= m < j)) && #[trigger] devs[d].tty@ == #[trigger] ents[m].tty@
                            ==> kp@.contains((d as usize, m as usize)),
                    forall|k1: int, k2: int| 0 <= k1 < k2 < kp@.len() ==> pair_before(#[trigger] kp@[k1], #[trigger] kp@[k2]),
                decreases n - j,
            {
                if present[i].tty.same_identity(&self.ttys[j].tty) {
                    let ghost before = kp@;
                    kp.push((i, j));
                    proof {
                        assert forall|d: int, m: int|
                            ((0 <= d < i && 0 <= m < ents.len()) || (d == i && 0 <= m < j + 1)) && #[trigger] devs[d].tty@ == #[trigger] ents[m].tty@
                                implies kp@.contains((d as usize, m as usize)) by {
                            if d == i && m == j {
                                assert(kp@[kp@.len() - 1] == (d as usize, m as usize));
                            } else {
                                let k = choose|k: int| 0 <= k < before.len() && before[k] == (d as usize, m as usize);
                                assert(kp@[k] == before[k]);
                            }
                        }
                    }
                    matched = true;
                    seen.set(j, true);
                }
                j = j + 1;
            }
            let ghost up_before = up@;
            if !matched {
                up.push(i);
            }
            proof {
                assert forall|d: int| 0 <= d < i + 1 && #[trigger] unmatched_device(devs, ents, d) implies up@.contains(d as usize) by {
                    if d == i {
                        if matched {
                            let m = choose|m: int| 0 <= m < n && devs[i as int].tty@ == #[trigger] ents[m].tty@;
                            assert(devs[d].tty@ != ents[m].tty@);
                        }
                        assert(up@[up@.len() - 1] == i);
                    } else {
                        let k = choose|k: int| 0 <= k < up_before.len() && up_before[k] == d as usize;
                        assert(up@[k] == up_before[k]);
                    }
                }
            }
            i = i + 1;
        }
        let mut km: Vec<usize> = Vec::new();
        let mut j: usize = 0;
        while j < n
            invariant
                devs == present@,
                ents == self.entries(),
                n == ents.len(),
                j <= n,
                seen@.len() == n,
                forall|m: int| 0 <= m < n ==> #[trigger] seen@[m] == exists|d: int| 0 <= d < devs.len() && #[trigger] devs[d].tty@ == ents[m].tty@,
                forall|k: int| 0 <= k < km@.len() ==> #[trigger] km@[k] < j && unmatched_alias(devs, ents, km@[k] as int),
                forall|m: int| 0 <= m < j && #[trigger] unmatched_alias(devs, ents, m) ==> km@.contains(m as usize),
                forall|k1: int, k2: int| 0 <= k1 < k2 < km@.len() ==> #[trigger] km@[k1] < #[trigger] km@[k2],
            decreases n - j,
        {
            let ghost km_before = km@;
            if !seen[j] {
                km.push(j);
            }
            proof {
                assert forall|m: int| 0 <= m < j + 1 && #[trigger] unmatched_alias(devs, ents, m) implies km@.contains(m as usize) by {
                    if m == j {
                        if seen@[m] {
                            let d = choose|d: int| 0 <= d < devs.len() && #[trigger] devs[d].tty@ == ents[m].tty@;
                            assert(devs[d].tty@ != ents[m].tty@);
                        }
                        assert(km@[km@.len() - 1] == j);
                    } else {
                        let k = choose|k: int| 0 <= k < km_before.len() && km_before[k] == m as usize;
                        assert(km@[k] == km_before[k]);
                    }
                }
            }
            j = j + 1;
        }
        Listing { known_present: kp, unknown_present: up, known_missing: km }
    }

}

proof fn lemma_insert_new(
    m: Map<Seq<char>, TtyView>,
    n: Seq<char>,
    v: TtyView,
    t: TtyView,
    name: Seq<char>,
)
    requires
        !m.contains_key(n),
    ensures
        has_identity(m.insert(n, v), t) == (has_identity(m, t) || v == t),
        without_identity(m.insert(n, v), t).remove(name) == if v != t && n != name {
            without_identity(m, t).remove(name).insert(n, v)
        } else {
            without_identity(m, t).remove(name)
        },
{
    let bigger = m.insert(n, v);
    if has_identity(bigger, t) {
        let w = choose|w: Seq<char>| bigger.contains_key(w) && #[trigger] bigger[w] == t;
        if w != n {
            assert(m.contains_key(w) && m[w] == t);
        }
    }
    if has_identity(m, t) {
        let w = choose|w: Seq<char>| m.contains_key(w) && #[trigger] m[w] == t;
        assert(bigger.contains_key(w) && bigger[w] == t);
    }
    if v == t {
        assert(bigger.contains_key(n) && bigger[n] == t);
    }
    if v != t && n != name {
        assert(without_identity(bigger, t).remove(name) =~= without_identity(m, t).remove(name).insert(n, v));
    } else {
        assert(without_identity(bigger, t).remove(name) =~= without_identity(m, t).remove(name));
    }
}

/// Whether `name` is a non-empty run of letters, digits, `_` and `-` that is
/// not one of the command words `list`, `add` and `delete`.
pub fn valid_alias_name(name: &str) -> (r: bool)
    ensures
        r == valid_name(name@),
{
    let s = chars_of(name);
    if s.len() == 0 {
        return false;
    }
    let mut i: usize = 0;
    while i < s.len()
        invariant
            i <= s@.len(),
            s@ == name@,
            forall|j: int| 0 <= j < i ==> is_name_char(#[trigger] s@[j]),
        decreases s@.len() - i,
    {
        let c = s[i];
        if !(('a' <= c && c <= 'z') || ('A' <= c && c <= 'Z') || ('0' <= c && c <= '9') || c == '_'
            || c == '-') {
            assert(!is_name_char(name@[i as int]));
            return false;
        }
        i = i + 1;
    }
    let owned = String::from_str(name);
    if owned == String::from_str("list") || owned == String::from_str("add") || owned
        == String::from_str("delete") {
        return false;
    }
    true
}

proof fn lemma_unique_len(s: Seq<AliasEntry>)
    requires
        names_unique(s),
    ensures
        alias_map(s).len() == s.len(),
    decreases s.len(),
{
    if s.len() > 0 {
        let t = s.drop_last();
        lemma_unique_len(t);
        lemma_alias_map(t);
        assert(!alias_map(t).contains_key(s.last().name@)) by {
            if alias_map(t).contains_key(s.last().name@) {
                let k = choose|k: int| 0 <= k < t.len() && #[trigger] t[k].name@ == s.last().name@;
                assert(s[k].name@ == s[s.len() - 1].name@);
            }
        }
        lemma_map_finite(t);
    }
}

proof fn lemma_map_finite(s: Seq<AliasEntry>)
    ensures
        alias_map(s).dom().finite(),
    decreases s.len(),
{
    if s.len() > 0 {
        lemma_map_finite(s.drop_last());
    }
}

proof fn lemma_matching_member(devs: Seq<PresentTty>, t: TtyView, path: Seq<char>)
    ensures
        matching_paths(devs, t).contains(path) <==> exists|i: int|
            0 <= i < devs.len() && #[trigger] devs[i].device@ == path && devs[i].tty@ == t,
    decreases devs.len(),
{
    if devs.len() > 0 {
        let rest = devs.drop_last();
        lemma_matching_member(rest, t, path);
        let found = matching_paths(devs, t);
        if found.contains(path) {
            if !matching_paths(rest, t).contains(path) {
                assert(devs[devs.len() - 1].device@ == path);
            } else {
                let i = choose|i: int|
                    0 <= i < rest.len() && #[trigger] rest[i].device@ == path && rest[i].tty@ == t;
                assert(devs[i] == rest[i]);
            }
        }
        if exists|i: int| 0 <= i < devs.len() && #[trigger] devs[i].device@ == path && devs[i].tty@ == t {
            let i = choose|i: int| 0 <= i < devs.len() && #[trigger] devs[i].device@ == path && devs[i].tty@ == t;
            if i < rest.len() {
                assert(rest[i] == devs[i]);
                let k = choose|k: int| 0 <= k < matching_paths(rest, t).len() && matching_paths(rest, t)[k] == path;
                if devs.last().tty@ == t {
                    assert(found[k] == path);
                }
            } else {
                assert(found[found.len() - 1] == path);
            }
        }
    }
}

/// After alias `name` is added for the device at node `path`, resolving
/// `name` gives `path` exactly when a device at `path` with the identity it
/// had then is present, wherever no two present devices share that identity.
pub proof fn lemma_resolve_after_add(
    aliases: Map<Seq<char>, TtyView>,
    name: Seq<char>,
    path: Seq<char>,
    at_add: Seq<PresentTty>,
    at_resolve: Seq<PresentTty>,
)
    requires
        add_error(name, path, at_add) is None,
        matching_paths(at_resolve, identities_at(at_add, path)[0]).len() <= 1,
    ensures
        ({
            let t = identities_at(at_add, path)[0];
            resolve_outcome(without_identity(aliases, t).insert(name, t), name, at_resolve) == Ok::<
                Seq<char>,
                ReconcileError,
            >(path) <==> exists|i: int|
                0 <= i < at_resolve.len() && #[trigger] at_resolve[i].device@ == path
                    && at_resolve[i].tty@ == t
        }),
{
    let t = identities_at(at_add, path)[0];
    let found = matching_paths(at_resolve, t);
    lemma_matching_member(at_resolve, t, path);
    if found.len() == 1 && found.contains(path) {
        let k = choose|k: int| 0 <= k < found.len() && found[k] == path;
        assert(found[0] == path);
    }
    if found.len() == 1 && found[0] == path {
        assert(found.contains(path));
    }
}

/// Adding alias `name` for a device whose identity alias `old_name` has
/// removes `old_name`, and leaves `name` the only alias of that identity.
pub proof fn lemma_add_replaces_alias(
    aliases: Map<Seq<char>, TtyView>,
    name: Seq<char>,
    old_name: Seq<char>,
    t: TtyView,
)
    requires
        aliases.contains_key(old_name),
        aliases[old_name] == t,
        old_name != name,
    ensures
        !without_identity(aliases, t).insert(name, t).contains_key(old_name),
        without_identity(aliases, t).insert(name, t)[name] == t,
        forall|n: Seq<char>|
            #[trigger] without_identity(aliases, t).insert(name, t).contains_key(n)
                && without_identity(aliases, t).insert(name, t)[n] == t ==> n == name,
{
}

/// Resolving an alias whose identity two present devices share fails as
/// ambiguous, and gives neither device's node.
pub proof fn lemma_two_matches_ambiguous(
    aliases: Map<Seq<char>, TtyView>,
    name: Seq<char>,
    devs: Seq<PresentTty>,
    i: int,
    j: int,
)
    requires
        aliases.contains_key(name),
        0 <= i < j < devs.len(),
        devs[i].tty@ == aliases[name],
        devs[j].tty@ == aliases[name],
    ensures
        resolve_outcome(aliases, name, devs) == Err::<Seq<char>, ReconcileError>(
            ReconcileError::Ambiguous,
        ),
{
    let t = aliases[name];
    let front = devs.take(i + 1);
    let back = devs.skip(i + 1);
    lemma_matching_append(front, back, t);
    assert(front + back =~= devs);
    lemma_matching_member(front, t, devs[i].device@);
    assert(front[i] == devs[i]);
    lemma_matching_member(back, t, devs[j].device@);
    assert(back[j - i - 1] == devs[j]);
}

/// A listing places every present device either among the devices with an
/// alias or among those without one, never both, and every alias either
/// among those with a present device or among the missing ones, never
/// both; no device or alias appears twice within one class.
pub proof fn lemma_listing_partition(
    devs: Seq<PresentTty>,
    ents: Seq<AliasEntry>,
    kp: Seq<(usize, usize)>,
    up: Seq<usize>,
    km: Seq<usize>,
)
    requires
        is_listing(devs, ents, kp, up, km),
    ensures
        forall|i: int|
            0 <= i < devs.len() ==> ((exists|k: int| 0 <= k < kp.len() && #[trigger] kp[k].0 == i)
                <==> !#[trigger] up.contains(i as usize)),
        forall|j: int|
            0 <= j < ents.len() ==> ((exists|k: int| 0 <= k < kp.len() && #[trigger] kp[k].1 == j)
                <==> !#[trigger] km.contains(j as usize)),
        forall|k: int| 0 <= k < up.len() ==> #[trigger] up[k] < devs.len(),
        forall|k: int| 0 <= k < km.len() ==> #[trigger] km[k] < ents.len(),
        forall|k1: int, k2: int| 0 <= k1 < k2 < kp.len() ==> #[trigger] kp[k1] != #[trigger] kp[k2],
        forall|k1: int, k2: int| 0 <= k1 < k2 < up.len() ==> #[trigger] up[k1] != #[trigger] up[k2],
        forall|k1: int, k2: int| 0 <= k1 < k2 < km.len() ==> #[trigger] km[k1] != #[trigger] km[k2],
{
    assert forall|i: int| 0 <= i < devs.len() implies ((exists|k: int| 0 <= k < kp.len() && #[trigger] kp[k].0 == i)
        <==> !#[trigger] up.contains(i as usize)) by {
        if exists|k: int| 0 <= k < kp.len() && #[trigger] kp[k].0 == i {
            let k = choose|k: int| 0 <= k < kp.len() && #[trigger] kp[k].0 == i;
            if up.contains(i as usize) {
                let u = choose|u: int| 0 <= u < up.len() && up[u] == i as usize;
                assert(unmatched_device(devs, ents, up[u] as int));
                assert(devs[i].tty@ != ents[kp[k].1 as int].tty@);
            }
        } else {
            if !unmatched_device(devs, ents, i) {
                let j = choose|j: int| 0 <= j < ents.len() && !(devs[i].tty@ != #[trigger] ents[j].tty@);
                assert(kp.contains((i as usize, j as usize)));
                let k = choose|k: int| 0 <= k < kp.len() && kp[k] == (i as usize, j as usize);
                assert(kp[k].0 == i);
            }
        }
    }
    assert forall|j: int| 0 <= j < ents.len() implies ((exists|k: int| 0 <= k < kp.len() && #[trigger] kp[k].1 == j)
        <==> !#[trigger] km.contains(j as usize)) by {
        if exists|k: int| 0 <= k < kp.len() && #[trigger] kp[k].1 == j {
            let k = choose|k: int| 0 <= k < kp.len() && #[trigger] kp[k].1 == j;
            if km.contains(j as usize) {
                let u = choose|u: int| 0 <= u < km.len() && km[u] == j as usize;
                assert(unmatched_alias(devs, ents, km[u] as int));
                assert(devs[kp[k].0 as int].tty@ != ents[j].tty@);
            }
        } else {
            if !unmatched_alias(devs, ents, j) {
                let i = choose|i: int| 0 <= i < devs.len() && !(#[trigger] devs[i].tty@ != ents[j].tty@);
                assert(kp.contains((i as usize, j as usize)));
                let k = choose|k: int| 0 <= k < kp.len() && kp[k] == (i as usize, j as usize);
                assert(kp[k].1 == j);
            }
        }
    }
}

} // verus!
