//! Grouping of produced files by their logical identity.
//!
//! Files that differ only in a trailing `-<digits>` part of their stem are
//! shards of one artifact and fall into one group. Groups are kept in
//! ascending key order, so anything rendered from them comes out the same
//! on every run.

use vstd::prelude::*;
use vstd::string::*;
use crate::text::{
    last_index_of, all_ascii_digits, lemma_last_index_of_bounds, find_last,
    is_all_ascii_digits, lemma_last_index_of_split,
};

verus! {

/// The part of a file name before its extension, as `Path::file_stem` takes it.
pub open spec fn file_stem_of(name: Seq<char>) -> Seq<char> {
    if last_index_of(name, '.') <= 0 {
        name
    } else {
        name.take(last_index_of(name, '.'))
    }
}

/// The extension of a file name, as `Path::extension` takes it.
pub open spec fn extension_of(name: Seq<char>) -> Option<Seq<char>> {
    if last_index_of(name, '.') <= 0 {
        None
    } else {
        Some(name.skip(last_index_of(name, '.') + 1))
    }
}

/// `e` is `uqff` up to ASCII case.
pub open spec fn is_artifact_extension(e: Seq<char>) -> bool {
    e.len() == 4 && (e[0] == 'u' || e[0] == 'U') && (e[1] == 'q' || e[1] == 'Q') && (e[2] == 'f'
        || e[2] == 'F') && (e[3] == 'f' || e[3] == 'F')
}

/// A file name that counts as an artifact.
pub open spec fn is_artifact_name(name: Seq<char>) -> bool {
    match extension_of(name) {
        Some(e) => is_artifact_extension(e),
        None => false,
    }
}

/// The stem without a trailing `-<digits>` part.
pub open spec fn grouping_key_of(stem: Seq<char>) -> Seq<char> {
    let k = last_index_of(stem, '-');
    if k >= 0 && all_ascii_digits(stem.skip(k + 1)) {
        stem.take(k)
    } else {
        stem
    }
}

/// The grouping key of a file name.
pub open spec fn key_of_name(name: Seq<char>) -> Seq<char> {
    grouping_key_of(file_stem_of(name))
}

/// The artifact names among `names` whose key is `k`, in their order.
pub open spec fn artifacts_with_key(names: Seq<Seq<char>>, k: Seq<char>) -> Seq<Seq<char>> {
    names.filter(|n: Seq<char>| is_artifact_name(n) && key_of_name(n) == k)
}

/// Lexicographic comparison by code point: -1, 0 or 1.
pub open spec fn seq_cmp(a: Seq<char>, b: Seq<char>) -> int
    decreases a.len(),
{
    if a.len() == 0 {
        if b.len() == 0 {
            0
        } else {
            -1
        }
    } else if b.len() == 0 {
        1
    } else if a[0] < b[0] {
        -1
    } else if a[0] > b[0] {
        1
    } else {
        seq_cmp(a.drop_first(), b.drop_first())
    }
}

pub proof fn lemma_seq_cmp_zero(a: Seq<char>, b: Seq<char>)
    ensures
        (seq_cmp(a, b) == 0) == (a == b),
        seq_cmp(a, b) == -seq_cmp(b, a),
    decreases a.len(),
{
    if a.len() == 0 && b.len() == 0 {
        assert(a =~= b);
    } else if a.len() > 0 && b.len() > 0 {
        lemma_seq_cmp_zero(a.drop_first(), b.drop_first());
        if a[0] == b[0] {
            if a.drop_first() == b.drop_first() {
                assert(a =~= seq![a[0]] + a.drop_first());
                assert(b =~= seq![b[0]] + b.drop_first());
            }
        }
        if a == b {
            assert(a.drop_first() =~= b.drop_first());
        }
    }
}

pub proof fn lemma_seq_cmp_transitive(a: Seq<char>, b: Seq<char>, c: Seq<char>)
    requires
        seq_cmp(a, b) < 0,
        seq_cmp(b, c) < 0,
    ensures
        seq_cmp(a, c) < 0,
    decreases a.len(),
{
    if a.len() > 0 && b.len() > 0 && c.len() > 0 && a[0] == b[0] && b[0] == c[0] {
        lemma_seq_cmp_transitive(a.drop_first(), b.drop_first(), c.drop_first());
    }
}

proof fn lemma_seq_cmp_skip(a: Seq<char>, b: Seq<char>, i: int)
    requires
        0 <= i < a.len(),
        i < b.len(),
    ensures
        seq_cmp(a.skip(i), b.skip(i)) == if a[i] < b[i] {
            -1
        } else if a[i] > b[i] {
            1
        } else {
            seq_cmp(a.skip(i + 1), b.skip(i + 1))
        },
{
    assert(a.skip(i).drop_first() =~= a.skip(i + 1));
    assert(b.skip(i).drop_first() =~= b.skip(i + 1));
}

/// Compares two keys lexicographically by code point: -1, 0 or 1.
pub fn compare_keys(a: &str, b: &str) -> (r: i8)
    ensures
        r as int == seq_cmp(a@, b@),
{
    let an = a.unicode_len();
    let bn = b.unicode_len();
    let mut i: usize = 0;
    assert(a@.skip(0) =~= a@);
    assert(b@.skip(0) =~= b@);
    while i < an && i < bn
        invariant
            an == a@.len(),
            bn == b@.len(),
            i <= an,
            i <= bn,
            seq_cmp(a@.skip(i as int), b@.skip(i as int)) == seq_cmp(a@, b@),
        decreases an - i,
    {
        let ca = a.get_char(i);
        let cb = b.get_char(i);
        proof {
            lemma_seq_cmp_skip(a@, b@, i as int);
        }
        if ca < cb {
            return -1;
        }
        if ca > cb {
            return 1;
        }
        i = i + 1;
    }
    if i < bn {
        -1
    } else if i < an {
        1
    } else {
        0
    }
}

/// The stem of a file name.
pub fn file_stem(name: &str) -> (r: String)
    ensures
        r@ == file_stem_of(name@),
{
    proof {
        lemma_last_index_of_bounds(name@, '.');
    }
    match find_last(name, '.') {
        Some(k) if k > 0 => name.substring_char(0, k).to_string(),
        _ => name.to_string(),
    }
}

/// Whether a file name has the artifact extension, in any ASCII case.
pub fn is_artifact_file(name: &str) -> (r: bool)
    ensures
        r == is_artifact_name(name@),
{
    proof {
        lemma_last_index_of_bounds(name@, '.');
    }
    let n = name.unicode_len();
    match find_last(name, '.') {
        Some(k) if k > 0 => {
            if n - (k + 1) != 4 {
                return false;
            }
            let e0 = name.get_char(k + 1);
            let e1 = name.get_char(k + 2);
            let e2 = name.get_char(k + 3);
            let e3 = name.get_char(k + 4);
            (e0 == 'u' || e0 == 'U') && (e1 == 'q' || e1 == 'Q') && (e2 == 'f' || e2 == 'F') && (
            e3 == 'f' || e3 == 'F')
        },
        _ => false,
    }
}

/// The grouping key of a stem: the stem without a trailing `-<digits>` part.
pub fn grouping_key(stem: &str) -> (r: String)
    ensures
        r@ == grouping_key_of(stem@),
{
    proof {
        lemma_last_index_of_bounds(stem@, '-');
    }
    let n = stem.unicode_len();
    match find_last(stem, '-') {
        Some(k) => {
            let suffix = stem.substring_char(k + 1, n);
            if is_all_ascii_digits(suffix) {
                stem.substring_char(0, k).to_string()
            } else {
                stem.to_string()
            }
        },
        None => stem.to_string(),
    }
}

/// The files of one logical artifact, in the order they were found.
pub struct ArtifactGroup {
    pub key: String,
    pub members: Vec<String>,
}

impl ArtifactGroup {
    pub open spec fn members_view(&self) -> Seq<Seq<char>> {
        self.members@.map_values(|m: String| m@)
    }

    /// The grouping key shared by the members.
    pub fn key(&self) -> (r: &String)
        ensures
            r@ == self.key@,
    {
        &self.key
    }

    /// The files of the group.
    pub fn members(&self) -> (r: &Vec<String>)
        ensures
            r@ == self.members@,
    {
        &self.members
    }

    /// The first file found: the one shown in examples.
    pub fn representative(&self) -> (r: &String)
        requires
            self.members@.len() > 0,
        ensures
            r@ == self.members_view()[0],
    {
        &self.members[0]
    }
}

/// All groups, in ascending key order.
pub struct ArtifactGroups {
    pub groups: Vec<ArtifactGroup>,
}

impl ArtifactGroups {
    /// Keys strictly ascending, and no group without a member.
    pub open spec fn wf(&self) -> bool {
        &&& forall|i: int, j: int|
            0 <= i < j < self.groups@.len() ==> seq_cmp(
                #[trigger] self.groups@[i].key@,
                #[trigger] self.groups@[j].key@,
            ) < 0
        &&& forall|i: int| 0 <= i < self.groups@.len() ==> #[trigger] self.groups@[i].members@.len() > 0
    }

    pub open spec fn has_key(&self, k: Seq<char>) -> bool {
        exists|i: int| 0 <= i < self.groups@.len() && #[trigger] self.groups@[i].key@ == k
    }

    /// The members of the group with key `k`, or nothing when there is no such group.
    pub open spec fn members_of(&self, k: Seq<char>) -> Seq<Seq<char>> {
        if self.has_key(k) {
            let i = choose|i: int| 0 <= i < self.groups@.len() && #[trigger] self.groups@[i].key@ == k;
            self.groups@[i].members_view()
        } else {
            Seq::empty()
        }
    }

    proof fn lemma_members_of_at(&self, i: int)
        requires
            self.wf(),
            0 <= i < self.groups@.len(),
        ensures
            self.members_of(self.groups@[i].key@) == self.groups@[i].members_view(),
    {
        let k = self.groups@[i].key@;
        assert(self.has_key(k));
        let j = choose|j: int| 0 <= j < self.groups@.len() && #[trigger] self.groups@[j].key@ == k;
        lemma_seq_cmp_zero(k, k);
        if j < i {
            assert(seq_cmp(self.groups@[j].key@, self.groups@[i].key@) < 0);
        } else if j > i {
            assert(seq_cmp(self.groups@[i].key@, self.groups@[j].key@) < 0);
        }
    }

    /// No groups.
    pub fn new() -> (r: ArtifactGroups)
        ensures
            r.wf(),
            r.groups@.len() == 0,
            forall|k: Seq<char>| r.members_of(k) == Seq::<Seq<char>>::empty(),
    {
        ArtifactGroups { groups: Vec::new() }
    }

    /// The number of groups.
    pub fn len(&self) -> (r: usize)
        ensures
            r == self.groups@.len(),
    {
        self.groups.len()
    }

    /// The group at position `i` in key order.
    pub fn group(&self, i: usize) -> (r: &ArtifactGroup)
        requires
            i < self.groups@.len(),
        ensures
            *r == self.groups@[i as int],
    {
        &self.groups[i]
    }

    /// Files a name into its group when it is an artifact; anything else is ignored.
    pub fn add(&mut self, name: &str)
        requires
            old(self).wf(),
        ensures
            final(self).wf(),
            forall|k: Seq<char>|
                #[trigger] final(self).members_of(k) == if is_artifact_name(name@) && k
                    == key_of_name(name@) {
                    old(self).members_of(k).push(name@)
                } else {
                    old(self).members_of(k)
                },
    {
        if !is_artifact_file(name) {
            return;
        }
        let stem = file_stem(name);
        let key = grouping_key(stem.as_str());
        let n = self.groups.len();
        let mut i: usize = 0;
        let mut c: i8 = 1;
        let mut done = false;
        while i < n && !done
            invariant
                n == self.groups@.len(),
                i <= n,
                forall|j: int| 0 <= j < i ==> seq_cmp(#[trigger] self.groups@[j].key@, key@) < 0,
                done ==> i < n && c as int == seq_cmp(self.groups@[i as int].key@, key@) && c >= 0,
            decreases n - i + if done {
                0int
            } else {
                1int
            },
        {
            c = compare_keys(self.groups[i].key.as_str(), key.as_str());
            if c >= 0 {
                done = true;
            } else {
                i = i + 1;
            }
        }
        if done && c == 0 {
            proof {
                lemma_seq_cmp_zero(self.groups@[i as int].key@, key@);
            }
            self.push_member(i, name);
        } else {
            proof {
                assert forall|j: int| i <= j < n implies seq_cmp(key@, #[trigger] self.groups@[j].key@)
                    < 0 by {
                    lemma_seq_cmp_zero(self.groups@[i as int].key@, key@);
                    if j > i {
                        assert(seq_cmp(self.groups@[i as int].key@, self.groups@[j].key@) < 0);
                        lemma_seq_cmp_transitive(key@, self.groups@[i as int].key@, self.groups@[j].key@);
                    }
                }
            }
            self.insert_group(i, key, name);
        }
    }

    fn push_member(&mut self, i: usize, name: &str)
        requires
            old(self).wf(),
            i < old(self).groups@.len(),
        ensures
            final(self).wf(),
            forall|k: Seq<char>|
                #[trigger] final(self).members_of(k) == if k == old(self).groups@[i as int].key@ {
                    old(self).members_of(k).push(name@)
                } else {
                    old(self).members_of(k)
                },
    {
        let ghost old_groups = self.groups@;
        let ghost old_self = *self;
        let ghost key = old_groups[i as int].key@;
        let n = self.groups.len();
        proof {
            old_self.lemma_members_of_at(i as int);
        }
        let mut g = self.groups.remove(i);
        g.members.push(name.to_string());
        self.groups.insert(i, g);
        assert(self.groups@ =~= old_groups.update(i as int, g));
        assert(g.members_view() =~= old_groups[i as int].members_view().push(name@));
        assert forall|j: int| 0 <= j < n implies #[trigger] self.groups@[j].key@ == old_groups[j].key@
            by {
            if j == i {
                assert(self.groups@[j] == g);
            }
        }
        assert forall|j: int| 0 <= j < n implies #[trigger] self.groups@[j].members@.len() > 0 by {
            if j == i {
                assert(self.groups@[j] == g);
            } else {
                assert(self.groups@[j] == old_groups[j]);
                assert(old_groups[j].members@.len() > 0);
            }
        }
        assert forall|a: int, b: int| 0 <= a < b < n implies seq_cmp(
            #[trigger] self.groups@[a].key@,
            #[trigger] self.groups@[b].key@,
        ) < 0 by {
            assert(self.groups@[a].key@ == old_groups[a].key@);
            assert(self.groups@[b].key@ == old_groups[b].key@);
            assert(seq_cmp(old_groups[a].key@, old_groups[b].key@) < 0);
        }
        assert(self.wf());
        assert forall|k: Seq<char>|
            #[trigger] self.members_of(k) == if k == key {
                old_self.members_of(k).push(name@)
            } else {
                old_self.members_of(k)
            } by {
            self.lemma_members_of_at(i as int);
            if k != key {
                if old_self.has_key(k) {
                    let j = choose|j: int| 0 <= j < old_groups.len() && #[trigger] old_groups[j].key@ == k;
                    old_self.lemma_members_of_at(j);
                    self.lemma_members_of_at(j);
                } else {
                    assert forall|j: int| 0 <= j < n implies #[trigger] self.groups@[j].key@ != k by {
                        assert(old_groups[j].key@ != k);
                    }
                }
            }
        }
    }

    fn insert_group(&mut self, i: usize, key: String, name: &str)
        requires
            old(self).wf(),
            i <= old(self).groups@.len(),
            forall|j: int| 0 <= j < i ==> seq_cmp(#[trigger] old(self).groups@[j].key@, key@) < 0,
            forall|j: int|
                i <= j < old(self).groups@.len() ==> seq_cmp(key@, #[trigger] old(self).groups@[j].key@)
                    < 0,
        ensures
            final(self).wf(),
            forall|k: Seq<char>|
                #[trigger] final(self).members_of(k) == if k == key@ {
                    old(self).members_of(k).push(name@)
                } else {
                    old(self).members_of(k)
                },
    {
        let ghost old_groups = self.groups@;
        let ghost old_self = *self;
        let g = ArtifactGroup { key, members: vec![name.to_string()] };
        self.groups.insert(i, g);
        assert(self.groups@ =~= old_groups.insert(i as int, g));
        assert forall|a: int, b: int|
            0 <= a < b < self.groups@.len() implies seq_cmp(
            #[trigger] self.groups@[a].key@,
            #[trigger] self.groups@[b].key@,
        ) < 0 by {
            if b == i {
                assert(seq_cmp(old_groups[a].key@, g.key@) < 0);
            } else if a == i {
                assert(seq_cmp(g.key@, old_groups[b - 1].key@) < 0);
            } else if a < i && b > i {
                assert(seq_cmp(g.key@, old_groups[b - 1].key@) < 0);
                lemma_seq_cmp_transitive(old_groups[a].key@, g.key@, old_groups[b - 1].key@);
            } else if a > i {
                assert(seq_cmp(old_groups[a - 1].key@, old_groups[b - 1].key@) < 0);
            } else {
                assert(seq_cmp(old_groups[a].key@, old_groups[b].key@) < 0);
            }
        }
        assert forall|j: int| 0 <= j < self.groups@.len() implies #[trigger] self.groups@[j].members@.len()
            > 0 by {
            if j < i {
                assert(self.groups@[j] == old_groups[j]);
                assert(old_groups[j].members@.len() > 0);
            } else if j > i {
                assert(self.groups@[j] == old_groups[j - 1]);
                assert(old_groups[j - 1].members@.len() > 0);
            } else {
                assert(self.groups@[j] == g);
                assert(g.members@.len() == 1);
            }
        }
        assert(self.wf());
        assert(g.members_view() =~= seq![name@]);
        assert(!old_self.has_key(g.key@)) by {
            if old_self.has_key(g.key@) {
                let j = choose|j: int| 0 <= j < old_groups.len() && #[trigger] old_groups[j].key@ == g.key@;
                lemma_seq_cmp_zero(g.key@, g.key@);
                if j < i {
                    assert(seq_cmp(old_groups[j].key@, g.key@) < 0);
                } else {
                    assert(seq_cmp(g.key@, old_groups[j].key@) < 0);
                }
            }
        }
        assert forall|k: Seq<char>|
            #[trigger] self.members_of(k) == if k == g.key@ {
                old_self.members_of(k).push(name@)
            } else {
                old_self.members_of(k)
            } by {
            self.lemma_members_of_at(i as int);
            if k == g.key@ {
                assert(Seq::<Seq<char>>::empty().push(name@) =~= seq![name@]);
            } else if old_self.has_key(k) {
                let j = choose|j: int| 0 <= j < old_groups.len() && #[trigger] old_groups[j].key@ == k;
                old_self.lemma_members_of_at(j);
                if j < i {
                    self.lemma_members_of_at(j);
                } else {
                    self.lemma_members_of_at(j + 1);
                }
            } else {
                assert forall|j: int| 0 <= j < self.groups@.len() implies #[trigger] self.groups@[j].key@
                    != k by {
                    if j < i {
                        assert(old_groups[j].key@ != k);
                    } else if j > i {
                        assert(old_groups[j - 1].key@ != k);
                    }
                }
            }
        }
    }

    /// Groups the artifact names among `names`; other names are ignored.
    pub fn from_names(names: &Vec<String>) -> (r: ArtifactGroups)
        ensures
            r.wf(),
            forall|k: Seq<char>|
                #[trigger] r.members_of(k) == artifacts_with_key(
                    names@.map_values(|n: String| n@),
                    k,
                ),
    {
        let ghost all = names@.map_values(|n: String| n@);
        let mut r = ArtifactGroups::new();
        let mut i: usize = 0;
        proof {
            assert forall|k: Seq<char>| #[trigger]
                r.members_of(k) == artifacts_with_key(all.take(0), k) by {
                reveal(Seq::filter);
                assert(all.take(0) =~= Seq::<Seq<char>>::empty());
                assert(all.take(0).filter(|n: Seq<char>| is_artifact_name(n) && key_of_name(n) == k)
                    =~= Seq::<Seq<char>>::empty());
            }
        }
        while i < names.len()
            invariant
                all == names@.map_values(|n: String| n@),
                i <= names@.len(),
                r.wf(),
                forall|k: Seq<char>|
                    #[trigger] r.members_of(k) == artifacts_with_key(all.take(i as int), k),
            decreases names@.len() - i,
        {
            r.add(names[i].as_str());
            proof {
                assert forall|k: Seq<char>| #[trigger]
                    r.members_of(k) == artifacts_with_key(all.take(i + 1), k) by {
                    reveal(Seq::filter);
                    assert(all.take(i + 1).drop_last() =~= all.take(i as int));
                    assert(all.take(i + 1).last() == names@[i as int]@);
                }
            }
            i = i + 1;
        }
        assert(all.take(names@.len() as int) =~= all);
        r
    }
}

/// A stem followed by `-` and digits (shard numbers) has the stem as its key,
/// so the shards of one artifact share a group.
pub proof fn lemma_shard_key(base: Seq<char>, digits: Seq<char>)
    requires
        all_ascii_digits(digits),
    ensures
        grouping_key_of(base + seq!['-'] + digits) == base,
{
    let s = base + seq!['-'] + digits;
    assert(!digits.contains('-')) by {
        if digits.contains('-') {
            let j = choose|j: int| 0 <= j < digits.len() && digits[j] == '-';
            assert('0' <= digits[j]);
        }
    }
    lemma_last_index_of_split(base, '-', digits);
    assert(s.skip(base.len() as int + 1) =~= digits);
    assert(s.take(base.len() as int) =~= base);
}

/// A listing without artifact names gives no group at all.
pub proof fn lemma_no_artifacts_no_groups(names: Seq<Seq<char>>, k: Seq<char>)
    requires
        forall|i: int| 0 <= i < names.len() ==> !is_artifact_name(#[trigger] names[i]),
    ensures
        artifacts_with_key(names, k).len() == 0,
    decreases names.len(),
{
    reveal(Seq::filter);
    if names.len() > 0 {
        let rest = names.drop_last();
        assert forall|i: int| 0 <= i < rest.len() implies !is_artifact_name(#[trigger] rest[i]) by {
            assert(rest[i] == names[i]);
        }
        lemma_no_artifacts_no_groups(rest, k);
        assert(!is_artifact_name(names[names.len() - 1]));
    }
}

} // verus!
