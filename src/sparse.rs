use vstd::prelude::*;

use crate::error::SparseError;
use crate::index::{entries_view, shallow_of, sorted_by_package, EntryModel, IndexEntry, IndexModel, ShallowIndex};
use crate::filename::package_of;
use crate::json::strings_view;
use crate::resolve::lemma_records_named;
use crate::materialize::{parse_records, records_view, section_records};
use crate::order::{lemma_lt_transitive, seq_le, seq_lt, str_eq};
use crate::record::{Channel, PackageName, RecordPatch, RepoDataRecord, RepoRecordModel};

verus! {

/// The records of a shallow index for the package `name`: those of the legacy
/// `.tar.bz2` sequence first, then those of the `.conda` sequence.
pub open spec fn index_records<Q: RecordPatch>(idx: IndexModel, ch: Channel, subdir: Seq<char>, name: Seq<char>, patch: Option<Q>) -> Result<Seq<RepoRecordModel>, SparseError> {
    match section_records(idx.packages, idx.base_url, ch, subdir, name, patch) {
        Err(e) => Err(e),
        Ok(a) => match section_records(idx.conda_packages, idx.base_url, ch, subdir, name, patch) {
            Err(e) => Err(e),
            Ok(b) => Ok(a + b),
        },
    }
}

/// The package names of a sequence of entries.
pub open spec fn package_seq(s: Seq<EntryModel>) -> Seq<Seq<char>> {
    s.map_values(|e: EntryModel| e.package)
}

/// `s` with every element that equals the one before it left out.
pub open spec fn dedup_adjacent(s: Seq<Seq<char>>) -> Seq<Seq<char>>
    decreases s.len(),
{
    if s.len() == 0 {
        s
    } else if s.len() >= 2 && s[s.len() - 2] == s.last() {
        dedup_adjacent(s.drop_last())
    } else {
        dedup_adjacent(s.drop_last()).push(s.last())
    }
}

/// Every name sorts strictly before every later one.
pub open spec fn strictly_sorted(s: Seq<Seq<char>>) -> bool {
    forall|i: int, j: int| 0 <= i < j < s.len() ==> seq_lt(#[trigger] s[i], #[trigger] s[j])
}

/// No name equals the one right after it.
pub open spec fn no_adjacent_repeats(s: Seq<Seq<char>>) -> bool {
    forall|i: int| 0 <= i < s.len() - 1 ==> #[trigger] s[i] != s[i + 1]
}

proof fn lemma_dedup_last(s: Seq<Seq<char>>)
    requires
        s.len() > 0,
    ensures
        dedup_adjacent(s).len() > 0,
        dedup_adjacent(s).last() == s.last(),
    decreases s.len(),
{
    if s.len() >= 2 && s[s.len() - 2] == s.last() {
        lemma_dedup_last(s.drop_last());
    }
}

proof fn lemma_dedup_no_repeats(s: Seq<Seq<char>>)
    ensures
        no_adjacent_repeats(dedup_adjacent(s)),
    decreases s.len(),
{
    if s.len() > 0 {
        let t = s.drop_last();
        lemma_dedup_no_repeats(t);
        if !(s.len() >= 2 && s[s.len() - 2] == s.last()) {
            let d = dedup_adjacent(t);
            if t.len() > 0 {
                lemma_dedup_last(t);
                assert(t.last() == s[s.len() - 2]);
            }
            assert forall|i: int| 0 <= i < d.push(s.last()).len() - 1 implies #[trigger] d.push(s.last())[i] != d.push(s.last())[i + 1] by {
                if i + 1 < d.len() {
                    assert(d.push(s.last())[i] == d[i]);
                    assert(d.push(s.last())[i + 1] == d[i + 1]);
                }
            }
        }
    }
}

proof fn lemma_dedup_split(a: Seq<Seq<char>>, b: Seq<Seq<char>>)
    requires
        forall|i: int, j: int| 0 <= i < j < b.len() ==> seq_le(#[trigger] b[i], #[trigger] b[j]),
    ensures
        dedup_adjacent(a + b).len() >= dedup_adjacent(a).len(),
        dedup_adjacent(a + b).subrange(0, dedup_adjacent(a).len() as int) == dedup_adjacent(a),
        strictly_sorted(dedup_adjacent(a + b).subrange(dedup_adjacent(a).len() as int, dedup_adjacent(a + b).len() as int)),
        b.len() > 0 && dedup_adjacent(a + b).len() > dedup_adjacent(a).len() ==> dedup_adjacent(a + b).last() == b.last(),
    decreases b.len(),
{
    let da = dedup_adjacent(a);
    if b.len() == 0 {
        assert(a + b =~= a);
        assert(da.subrange(0, da.len() as int) =~= da);
        assert(da.subrange(da.len() as int, da.len() as int) =~= Seq::<Seq<char>>::empty());
    } else {
        let c = b.drop_last();
        let y = b.last();
        lemma_dedup_split(a, c);
        assert((a + b).drop_last() =~= a + c);
        assert((a + b).last() == y);
        let d0 = dedup_adjacent(a + c);
        let d1 = dedup_adjacent(a + b);
        let s0 = d0.subrange(da.len() as int, d0.len() as int);
        if (a + b).len() >= 2 && (a + b)[(a + b).len() - 2] == y {
            assert(d1 == d0);
            if d0.len() > da.len() {
                assert(c.len() > 0);
                assert((a + b)[(a + b).len() - 2] == c.last());
            }
        } else {
            assert(d1 == d0.push(y));
            assert(d1.subrange(0, da.len() as int) =~= d0.subrange(0, da.len() as int));
            let s1 = d1.subrange(da.len() as int, d1.len() as int);
            assert(s1 =~= s0.push(y));
            if s0.len() > 0 {
                assert(c.len() > 0);
                assert(s0.last() == d0.last());
                assert(d0.last() == c.last());
                assert((a + b)[(a + b).len() - 2] == c.last());
                assert(c.last() == b[b.len() - 2]);
                assert(seq_le(b[b.len() - 2], b[b.len() - 1]));
                assert(seq_lt(s0.last(), y));
                assert forall|i: int, j: int| 0 <= i < j < s1.len() implies seq_lt(#[trigger] s1[i], #[trigger] s1[j]) by {
                    if j == s1.len() - 1 {
                        if i < s0.len() - 1 {
                            assert(seq_lt(s0[i], s0[s0.len() - 1]));
                            lemma_lt_transitive(s0[i], s0.last(), y);
                        }
                    } else {
                        assert(s1[i] == s0[i] && s1[j] == s0[j]);
                    }
                }
            }
        }
    }
}

/// The package names of a document, in the order `package_names` gives them,
/// hold no name twice in a row, and split into two runs, the names of each
/// sequence of the index, each in strictly ascending order.
pub proof fn lemma_package_names_order(packages: Seq<EntryModel>, conda_packages: Seq<EntryModel>)
    requires
        sorted_by_package(packages),
        sorted_by_package(conda_packages),
    ensures
        no_adjacent_repeats(dedup_adjacent(package_seq(packages) + package_seq(conda_packages))),
        exists|m: int|
            0 <= m <= dedup_adjacent(package_seq(packages) + package_seq(conda_packages)).len() && strictly_sorted(
                #[trigger] dedup_adjacent(package_seq(packages) + package_seq(conda_packages)).subrange(0, m),
            ) && strictly_sorted(
                dedup_adjacent(package_seq(packages) + package_seq(conda_packages)).subrange(
                    m,
                    dedup_adjacent(package_seq(packages) + package_seq(conda_packages)).len() as int,
                ),
            ),
{
    let a = package_seq(packages);
    let b = package_seq(conda_packages);
    assert forall|i: int, j: int| 0 <= i < j < a.len() implies seq_le(#[trigger] a[i], #[trigger] a[j]) by {
        assert(a[i] == packages[i].package && a[j] == packages[j].package);
    }
    assert forall|i: int, j: int| 0 <= i < j < b.len() implies seq_le(#[trigger] b[i], #[trigger] b[j]) by {
        assert(b[i] == conda_packages[i].package && b[j] == conda_packages[j].package);
    }
    lemma_dedup_no_repeats(a + b);
    lemma_dedup_split(Seq::empty(), a);
    assert(Seq::<Seq<char>>::empty() + a =~= a);
    lemma_dedup_split(a, b);
    let m = dedup_adjacent(a).len() as int;
    assert(dedup_adjacent(Seq::<Seq<char>>::empty()) =~= Seq::<Seq<char>>::empty());
    assert(dedup_adjacent(a).subrange(0, dedup_adjacent(a).len() as int) =~= dedup_adjacent(a));
    assert(dedup_adjacent(a + b).subrange(0, m) == dedup_adjacent(a));
}

/// The records of one repodata document, loaded on demand: a shallow index of
/// the document together with the channel and subdirectory it belongs to and
/// an optional patch for every record it materializes.
pub struct SparseRepoData<P> {
    index: ShallowIndex,
    channel: Channel,
    subdir: String,
    patch_record_fn: Option<P>,
}

impl<P> SparseRepoData<P> {
    #[verifier::type_invariant]
    spec fn inv(&self) -> bool {
        self.index.wf()
    }

    /// The shallow index of the document.
    pub closed spec fn index(&self) -> IndexModel {
        self.index@
    }

    pub closed spec fn channel(&self) -> Channel {
        self.channel
    }

    pub closed spec fn subdir_view(&self) -> Seq<char> {
        self.subdir@
    }

    pub closed spec fn patch_fn(&self) -> Option<P> {
        self.patch_record_fn
    }
}

impl<P: RecordPatch> SparseRepoData<P> {
    /// Indexes the repodata document `text` of the subdirectory `subdir` of
    /// `channel`. `patch_function`, if given, is applied to every record that
    /// `load_records` materializes.
    pub fn new(channel: Channel, subdir: String, text: &str, patch_function: Option<P>) -> (r: Result<Self, SparseError>)
        ensures
            match r {
                Ok(h) => {
                    &&& shallow_of(text@) == Ok::<IndexModel, SparseError>(h.index())
                    &&& h.channel() == channel
                    &&& h.subdir_view() == subdir@
                    &&& h.patch_fn() == patch_function
                },
                Err(e) => shallow_of(text@) == Err::<IndexModel, SparseError>(e),
            },
    {
        let index = ShallowIndex::parse(text)?;
        Ok(SparseRepoData { index, channel, subdir, patch_record_fn: patch_function })
    }

    /// The subdirectory this document was loaded for.
    pub fn subdir(&self) -> (r: &str)
        ensures
            r@ == self.subdir_view(),
    {
        self.subdir.as_str()
    }

    /// The package names of the legacy sequence followed by those of the
    /// `.conda` sequence, with adjacent repetitions collapsed.
    pub fn package_names(&self) -> (r: Vec<String>)
        ensures
            strings_view(r@) == dedup_adjacent(
                package_seq(self.index().packages) + package_seq(self.index().conda_packages),
            ),
            no_adjacent_repeats(strings_view(r@)),
            exists|m: int|
                0 <= m <= r@.len() && strictly_sorted(#[trigger] strings_view(r@).subrange(0, m))
                    && strictly_sorted(strings_view(r@).subrange(m, r@.len() as int)),
    {
        proof {
            use_type_invariant(self);
            lemma_package_names_order(self.index().packages, self.index().conda_packages);
        }
        let mut names: Vec<String> = Vec::new();
        collect_names(&mut names, &self.index.packages);
        collect_names(&mut names, &self.index.conda_packages);
        assert(package_seq(self.index().packages) =~= package_seq(entries_view(self.index.packages@)));
        dedup_names(&names)
    }

    /// The records for the package `name`, with this document's patch applied.
    pub fn load_records(&self, package_name: &PackageName) -> (r: Result<Vec<RepoDataRecord>, SparseError>)
        ensures
            match r {
                Ok(v) => index_records(self.index(), self.channel(), self.subdir_view(), package_name@, self.patch_fn()) == Ok::<Seq<RepoRecordModel>, SparseError>(records_view(v@)),
                Err(e) => index_records(self.index(), self.channel(), self.subdir_view(), package_name@, self.patch_fn()) == Err::<Seq<RepoRecordModel>, SparseError>(e),
            },
            r matches Ok(v) ==> forall|m: int| 0 <= m < v@.len() ==> package_of((#[trigger] v@[m]).file_name@) == Some(package_name@),
    {
        proof {
            use_type_invariant(self);
            lemma_records_named(self.index(), self.channel(), self.subdir_view(), package_name@, self.patch_fn());
        }
        let r = self.records_for(package_name.as_normalized(), &self.patch_record_fn);
        proof {
            if r is Ok {
                let v = r->Ok_0;
                assert forall|m: int| 0 <= m < v@.len() implies package_of((#[trigger] v@[m]).file_name@) == Some(package_name@) by {
                    assert(records_view(v@)[m] == v@[m]@);
                }
            }
        }
        r
    }

    pub(crate) fn records_for<Q: RecordPatch>(&self, name: &str, patch: &Option<Q>) -> (r: Result<Vec<RepoDataRecord>, SparseError>)
        ensures
            match r {
                Ok(v) => index_records(self.index(), self.channel(), self.subdir_view(), name@, *patch) == Ok::<Seq<RepoRecordModel>, SparseError>(records_view(v@)),
                Err(e) => index_records(self.index(), self.channel(), self.subdir_view(), name@, *patch) == Err::<Seq<RepoRecordModel>, SparseError>(e),
            },
    {
        proof {
            use_type_invariant(self);
        }
        let base = match &self.index.base_url {
            Some(b) => Some(b.as_str()),
            None => None,
        };
        let mut records = parse_records(name, &self.index.packages, base, &self.channel, self.subdir.as_str(), patch)?;
        let mut conda_records = parse_records(name, &self.index.conda_packages, base, &self.channel, self.subdir.as_str(), patch)?;
        let ghost a = records@;
        let ghost b = conda_records@;
        records.append(&mut conda_records);
        assert(records_view(records@) =~= records_view(a) + records_view(b));
        Ok(records)
    }
}

fn collect_names(names: &mut Vec<String>, es: &Vec<IndexEntry>)
    ensures
        strings_view(final(names)@) == strings_view(old(names)@) + package_seq(entries_view(es@)),
{
    let ghost start = strings_view(names@);
    let mut i: usize = 0;
    while i < es.len()
        invariant
            i <= es@.len(),
            strings_view(names@) == start + package_seq(entries_view(es@)).subrange(0, i as int),
        decreases es@.len() - i,
    {
        let ghost before = names@;
        names.push(es[i].package.clone());
        assert(strings_view(names@) =~= strings_view(before).push(es@[i as int].package@));
        assert(package_seq(entries_view(es@)).subrange(0, i + 1) =~= package_seq(entries_view(es@)).subrange(0, i as int).push(es@[i as int].package@));
        i = i + 1;
    }
    assert(package_seq(entries_view(es@)).subrange(0, es@.len() as int) =~= package_seq(entries_view(es@)));
}

fn dedup_names(names: &Vec<String>) -> (r: Vec<String>)
    ensures
        strings_view(r@) == dedup_adjacent(strings_view(names@)),
{
    let ghost s = strings_view(names@);
    let mut out: Vec<String> = Vec::new();
    let mut i: usize = 0;
    assert(strings_view(out@) =~= dedup_adjacent(s.subrange(0, 0)));
    while i < names.len()
        invariant
            i <= names@.len(),
            s == strings_view(names@),
            strings_view(out@) == dedup_adjacent(s.subrange(0, i as int)),
        decreases names@.len() - i,
    {
        let ghost pre = s.subrange(0, i as int);
        let ghost next = s.subrange(0, i + 1);
        assert(next.drop_last() =~= pre);
        if i > 0 && str_eq(names[i - 1].as_str(), names[i].as_str()) {
            assert(next[next.len() - 2] == s[i - 1]);
        } else {
            let ghost before = out@;
            out.push(names[i].clone());
            assert(strings_view(out@) =~= strings_view(before).push(s[i as int]));
        }
        i = i + 1;
    }
    assert(s.subrange(0, s.len() as int) =~= s);
    out
}

} // verus!
