use vstd::prelude::*;

use crate::error::SparseError;
use crate::filename::{package_of, PackageFilename};
use crate::json::{field_of, find_field, json_object, json_object_of, json_string, json_string_of, members_view};
use crate::order::{lemma_lt_chain, lemma_lt_irreflexive, lemma_lt_total, seq_le, seq_lt, str_eq, str_lt};

verus! {

/// One entry of a shallow index: the package part of an archive filename, the
/// filename, and the record's JSON text, not yet decoded.
#[derive(Debug, Clone)]
pub struct IndexEntry {
    pub package: String,
    pub filename: String,
    pub raw: String,
}

pub struct EntryModel {
    pub package: Seq<char>,
    pub filename: Seq<char>,
    pub raw: Seq<char>,
}

impl View for IndexEntry {
    type V = EntryModel;

    open spec fn view(&self) -> EntryModel {
        EntryModel { package: self.package@, filename: self.filename@, raw: self.raw@ }
    }
}

pub open spec fn entries_view(v: Seq<IndexEntry>) -> Seq<EntryModel> {
    v.map_values(|e: IndexEntry| e@)
}

/// Entries are in ascending order of package name.
pub open spec fn sorted_by_package(s: Seq<EntryModel>) -> bool {
    forall|i: int, j: int| 0 <= i < j < s.len() ==> seq_le(#[trigger] s[i].package, #[trigger] s[j].package)
}

/// `x` placed after every entry whose package does not sort after its own.
pub open spec fn insert_sorted(s: Seq<EntryModel>, x: EntryModel) -> Seq<EntryModel>
    decreases s.len(),
{
    if s.len() == 0 {
        seq![x]
    } else if seq_le(s.last().package, x.package) {
        s.push(x)
    } else {
        insert_sorted(s.drop_last(), x).push(s.last())
    }
}

/// The stable sort of entries by package name: entries with equal package
/// names keep the order in which they came.
pub open spec fn sort_by_package(s: Seq<EntryModel>) -> Seq<EntryModel>
    decreases s.len(),
{
    if s.len() == 0 {
        s
    } else {
        insert_sorted(sort_by_package(s.drop_last()), s.last())
    }
}

/// The entries that the members of a `packages` map denote, in document
/// order; `None` when a key is not an archive filename.
pub open spec fn entries_of(ms: Seq<(Seq<char>, Seq<char>)>) -> Option<Seq<EntryModel>>
    decreases ms.len(),
{
    if ms.len() == 0 {
        Some(Seq::empty())
    } else {
        match entries_of(ms.drop_last()) {
            None => None,
            Some(es) => match package_of(ms.last().0) {
                None => None,
                Some(p) => Some(es.push(EntryModel { package: p, filename: ms.last().0, raw: ms.last().1 })),
            },
        }
    }
}

/// The sorted entries of one map of the document.
pub open spec fn section_of(raw: Seq<char>) -> Result<Seq<EntryModel>, SparseError> {
    match json_object_of(raw) {
        None => Err(SparseError::InvalidPackages),
        Some(ms) => match entries_of(ms) {
            None => Err(SparseError::InvalidFilename),
            Some(es) => Ok(sort_by_package(es)),
        },
    }
}

/// The `base_url` of the `info` block, if the document gives one.
pub open spec fn info_of(top: Seq<(Seq<char>, Seq<char>)>) -> Result<Option<Seq<char>>, SparseError> {
    match field_of(top, "info"@) {
        None => Ok(None),
        Some(raw) => if raw == "null"@ {
            Ok(None)
        } else {
            match json_object_of(raw) {
                None => Err(SparseError::InvalidInfo),
                Some(ims) => match field_of(ims, "base_url"@) {
                    None => Ok(None),
                    Some(b) => match json_string_of(b) {
                        None => Err(SparseError::InvalidInfo),
                        Some(u) => Ok(Some(u)),
                    },
                },
            }
        },
    }
}

pub struct IndexModel {
    pub base_url: Option<Seq<char>>,
    pub packages: Seq<EntryModel>,
    pub conda_packages: Seq<EntryModel>,
}

/// The shallow index of a repodata document: the channel's `base_url`, and
/// the entries of `packages` and of `packages.conda` (empty when absent),
/// each sorted by package name.
pub open spec fn shallow_of(text: Seq<char>) -> Result<IndexModel, SparseError> {
    match json_object_of(text) {
        None => Err(SparseError::NotAnObject),
        Some(top) => match info_of(top) {
            Err(e) => Err(e),
            Ok(base_url) => match field_of(top, "packages"@) {
                None => Err(SparseError::InvalidPackages),
                Some(p) => match section_of(p) {
                    Err(e) => Err(e),
                    Ok(packages) => {
                        let conda = match field_of(top, "packages.conda"@) {
                            None => Ok(Seq::empty()),
                            Some(c) => section_of(c),
                        };
                        match conda {
                            Err(e) => Err(e),
                            Ok(conda_packages) => Ok(IndexModel { base_url, packages, conda_packages }),
                        }
                    },
                },
            },
        },
    }
}

/// A shallow index: raw records keyed by package name, not yet decoded.
#[derive(Debug, Clone)]
pub struct ShallowIndex {
    pub base_url: Option<String>,
    pub packages: Vec<IndexEntry>,
    pub conda_packages: Vec<IndexEntry>,
}

impl View for ShallowIndex {
    type V = IndexModel;

    open spec fn view(&self) -> IndexModel {
        IndexModel {
            base_url: match self.base_url {
                Some(u) => Some(u@),
                None => None,
            },
            packages: entries_view(self.packages@),
            conda_packages: entries_view(self.conda_packages@),
        }
    }
}

proof fn lemma_not_le(a: Seq<char>, b: Seq<char>)
    ensures
        seq_lt(a, b) ==> !seq_le(b, a),
        !seq_lt(a, b) ==> seq_le(b, a),
{
    lemma_lt_total(a, b);
    lemma_lt_irreflexive(a);
}

proof fn lemma_insert_at(s: Seq<EntryModel>, x: EntryModel, j: int)
    requires
        0 <= j <= s.len(),
        j > 0 ==> seq_le(s[j - 1].package, x.package),
        forall|k: int| j <= k < s.len() ==> seq_lt(x.package, #[trigger] s[k].package),
    ensures
        insert_sorted(s, x) == s.insert(j, x),
    decreases s.len(),
{
    if s.len() == 0 {
        assert(s.insert(j, x) =~= seq![x]);
    } else if j == s.len() {
        assert(s.insert(j, x) =~= s.push(x));
    } else {
        lemma_not_le(x.package, s.last().package);
        lemma_insert_at(s.drop_last(), x, j);
        assert(s.insert(j, x) =~= s.drop_last().insert(j, x).push(s.last()));
    }
}

proof fn lemma_insert_sorted(s: Seq<EntryModel>, x: EntryModel)
    requires
        sorted_by_package(s),
    ensures
        sorted_by_package(insert_sorted(s, x)),
        insert_sorted(s, x).len() == s.len() + 1,
    decreases s.len(),
{
    if s.len() > 0 && !seq_le(s.last().package, x.package) {
        lemma_not_le(s.last().package, x.package);
        let t = s.drop_last();
        lemma_insert_sorted(t, x);
        let u = insert_sorted(t, x);
        // Every entry of `u` is `x` or an entry of `t`, all no later than `s.last()`.
        lemma_insert_members(t, x);
        assert forall|i: int, j: int| 0 <= i < j < u.push(s.last()).len() implies seq_le(
            #[trigger] u.push(s.last())[i].package,
            #[trigger] u.push(s.last())[j].package,
        ) by {
            if j == u.len() {
                if u[i] == x {
                } else {
                    let k = choose|k: int| 0 <= k < t.len() && t[k] == u[i];
                    assert(s[k] == t[k]);
                    assert(s[s.len() - 1] == s.last());
                }
            }
        }
    } else if s.len() > 0 {
        assert forall|i: int, j: int| 0 <= i < j < s.push(x).len() implies seq_le(
            #[trigger] s.push(x)[i].package,
            #[trigger] s.push(x)[j].package,
        ) by {
            if j == s.len() {
                assert(s[s.len() - 1] == s.last());
                lemma_lt_chain(s[i].package, s.last().package, x.package);
            }
        }
    }
}

proof fn lemma_insert_members(s: Seq<EntryModel>, x: EntryModel)
    ensures
        forall|i: int|
            0 <= i < insert_sorted(s, x).len() ==> #[trigger] insert_sorted(s, x)[i] == x || exists|k: int|
                0 <= k < s.len() && s[k] == insert_sorted(s, x)[i],
        insert_sorted(s, x).len() == s.len() + 1,
    decreases s.len(),
{
    if s.len() > 0 {
        if seq_le(s.last().package, x.package) {
            assert forall|i: int| 0 <= i < s.push(x).len() implies #[trigger] s.push(x)[i] == x || exists|k: int|
                0 <= k < s.len() && s[k] == s.push(x)[i] by {
                if i < s.len() {
                    assert(s[i] == s.push(x)[i]);
                }
            }
        } else {
            let t = s.drop_last();
            lemma_insert_members(t, x);
            let u = insert_sorted(t, x);
            assert forall|i: int| 0 <= i < u.push(s.last()).len() implies #[trigger] u.push(s.last())[i] == x || exists|k: int|
                0 <= k < s.len() && s[k] == u.push(s.last())[i] by {
                if i == u.len() {
                    assert(s[s.len() - 1] == u.push(s.last())[i]);
                } else if u[i] != x {
                    let k = choose|k: int| 0 <= k < t.len() && t[k] == u[i];
                    assert(s[k] == u.push(s.last())[i]);
                }
            }
        }
    }
}

/// A stably sorted sequence is sorted.
pub proof fn lemma_sort_sorted(s: Seq<EntryModel>)
    ensures
        sorted_by_package(sort_by_package(s)),
        sort_by_package(s).len() == s.len(),
    decreases s.len(),
{
    if s.len() > 0 {
        lemma_sort_sorted(s.drop_last());
        lemma_insert_sorted(sort_by_package(s.drop_last()), s.last());
    }
}

/// Inserts `e` after every entry of `v` whose package does not sort after its own.
fn insert_entry(v: &mut Vec<IndexEntry>, e: IndexEntry)
    requires
        sorted_by_package(entries_view(old(v)@)),
    ensures
        entries_view(final(v)@) == insert_sorted(entries_view(old(v)@), e@),
        sorted_by_package(entries_view(final(v)@)),
{
    let ghost s = entries_view(v@);
    let mut j: usize = v.len();
    while j > 0 && str_lt(e.package.as_str(), v[j - 1].package.as_str())
        invariant
            j <= v@.len(),
            s == entries_view(v@),
            forall|k: int| j <= k < s.len() ==> seq_lt(e.package@, #[trigger] s[k].package),
        decreases j,
    {
        j = j - 1;
    }
    proof {
        if j > 0 {
            lemma_not_le(e.package@, s[j - 1].package);
        }
        lemma_insert_at(s, e@, j as int);
        lemma_insert_sorted(s, e@);
    }
    v.insert(j, e);
    proof {
        assert(entries_view(v@) =~= s.insert(j as int, e@));
    }
}

/// Builds the sorted entries of the members of one map of the document.
fn section_entries(ms: &Vec<(String, String)>) -> (r: Result<Vec<IndexEntry>, SparseError>)
    ensures
        match r {
            Ok(v) => entries_of(members_view(ms@)) matches Some(es) && entries_view(v@) == sort_by_package(es),
            Err(e) => entries_of(members_view(ms@)) is None && e == SparseError::InvalidFilename,
        },
{
    let ghost all = members_view(ms@);
    let mut out: Vec<IndexEntry> = Vec::new();
    let mut i: usize = 0;
    assert(entries_of(all.subrange(0, 0)) == Some(Seq::<EntryModel>::empty()));
    assert(entries_view(out@) =~= sort_by_package(Seq::<EntryModel>::empty()));
    while i < ms.len()
        invariant
            i <= ms@.len(),
            all == members_view(ms@),
            entries_of(all.subrange(0, i as int)) matches Some(es) && entries_view(out@)
                == sort_by_package(es),
            sorted_by_package(entries_view(out@)),
        decreases ms@.len() - i,
    {
        let ghost pre = all.subrange(0, i as int);
        let ghost next = all.subrange(0, i + 1);
        assert(next.drop_last() =~= pre);
        let ghost es = entries_of(pre)->0;
        let key = ms[i].0.as_str();
        match PackageFilename::parse(key) {
            Err(e) => {
                proof {
                    lemma_entries_none(all, i as int + 1);
                }
                return Err(e);
            },
            Ok(f) => {
                let e = IndexEntry { package: f.package, filename: f.filename, raw: ms[i].1.clone() };
                assert(e.raw@ == ms@[i as int].1@);
                insert_entry(&mut out, e);
                assert(es.push(e@).drop_last() =~= es);
            },
        }
        i = i + 1;
    }
    assert(all.subrange(0, all.len() as int) =~= all);
    Ok(out)
}

proof fn lemma_entries_none(ms: Seq<(Seq<char>, Seq<char>)>, n: int)
    requires
        0 <= n <= ms.len(),
        entries_of(ms.subrange(0, n)) is None,
    ensures
        entries_of(ms) is None,
    decreases ms.len() - n,
{
    if n < ms.len() {
        assert(ms.subrange(0, n + 1).drop_last() =~= ms.subrange(0, n));
        lemma_entries_none(ms, n + 1);
    } else {
        assert(ms.subrange(0, n) =~= ms);
    }
}

fn parse_section(raw: &str) -> (r: Result<Vec<IndexEntry>, SparseError>)
    ensures
        match r {
            Ok(v) => section_of(raw@) == Ok::<Seq<EntryModel>, SparseError>(entries_view(v@)),
            Err(e) => section_of(raw@) == Err::<Seq<EntryModel>, SparseError>(e),
        },
{
    match json_object(raw) {
        None => Err(SparseError::InvalidPackages),
        Some(ms) => section_entries(&ms),
    }
}

fn parse_info(top: &Vec<(String, String)>) -> (r: Result<Option<String>, SparseError>)
    ensures
        match r {
            Ok(Some(u)) => info_of(members_view(top@)) == Ok::<Option<Seq<char>>, SparseError>(Some(u@)),
            Ok(None) => info_of(members_view(top@)) == Ok::<Option<Seq<char>>, SparseError>(None),
            Err(e) => info_of(members_view(top@)) == Err::<Option<Seq<char>>, SparseError>(e),
        },
{
    match find_field(top, "info") {
        None => Ok(None),
        Some(i) => {
            let raw = top[i].1.as_str();
            if str_eq(raw, "null") {
                return Ok(None);
            }
            match json_object(raw) {
                None => Err(SparseError::InvalidInfo),
                Some(ims) => match find_field(&ims, "base_url") {
                    None => Ok(None),
                    Some(k) => match json_string(ims[k].1.as_str()) {
                        None => Err(SparseError::InvalidInfo),
                        Some(u) => Ok(Some(u)),
                    },
                },
            }
        },
    }
}

impl ShallowIndex {
    /// Indexes a repodata document without decoding its records.
    pub fn parse(text: &str) -> (r: Result<ShallowIndex, SparseError>)
        ensures
            match r {
                Ok(idx) => shallow_of(text@) == Ok::<IndexModel, SparseError>(idx@),
                Err(e) => shallow_of(text@) == Err::<IndexModel, SparseError>(e),
            },
            r matches Ok(idx) ==> idx.wf(),
    {
        let top = match json_object(text) {
            None => return Err(SparseError::NotAnObject),
            Some(top) => top,
        };
        let base_url = parse_info(&top)?;
        let packages = match find_field(&top, "packages") {
            None => return Err(SparseError::InvalidPackages),
            Some(i) => parse_section(top[i].1.as_str())?,
        };
        let conda_packages = match find_field(&top, "packages.conda") {
            None => {
                let v: Vec<IndexEntry> = Vec::new();
                assert(entries_view(v@) =~= Seq::<EntryModel>::empty());
                v
            },
            Some(i) => parse_section(top[i].1.as_str())?,
        };
        let idx = ShallowIndex { base_url, packages, conda_packages };
        proof {
            let m = shallow_of(text@)->Ok_0;
            assert(idx@.packages == m.packages);
            assert(idx@.conda_packages == m.conda_packages);
            lemma_shallow_sorted(text@);
        }
        Ok(idx)
    }

    /// Both sequences are sorted by package name, and each entry's package is
    /// the package part of its filename.
    pub open spec fn wf(&self) -> bool {
        &&& sorted_by_package(self@.packages)
        &&& sorted_by_package(self@.conda_packages)
        &&& consistent(self@.packages)
        &&& consistent(self@.conda_packages)
    }
}

/// Each entry's package is the package part of its filename.
pub open spec fn consistent(s: Seq<EntryModel>) -> bool {
    forall|k: int| 0 <= k < s.len() ==> package_of((#[trigger] s[k]).filename) == Some(s[k].package)
}

proof fn lemma_entries_consistent(ms: Seq<(Seq<char>, Seq<char>)>)
    ensures
        entries_of(ms) matches Some(es) ==> consistent(es),
    decreases ms.len(),
{
    if ms.len() > 0 {
        lemma_entries_consistent(ms.drop_last());
        if let Some(es) = entries_of(ms) {
            let es0 = entries_of(ms.drop_last())->0;
            assert forall|k: int| 0 <= k < es.len() implies package_of((#[trigger] es[k]).filename) == Some(es[k].package) by {
                if k < es0.len() {
                    assert(es[k] == es0[k]);
                }
            }
        }
    }
}

proof fn lemma_sort_consistent(s: Seq<EntryModel>)
    requires
        consistent(s),
    ensures
        consistent(sort_by_package(s)),
    decreases s.len(),
{
    if s.len() > 0 {
        let t = s.drop_last();
        assert forall|k: int| 0 <= k < t.len() implies package_of((#[trigger] t[k]).filename) == Some(t[k].package) by {
            assert(t[k] == s[k]);
        }
        lemma_sort_consistent(t);
        let u = sort_by_package(t);
        lemma_insert_members(u, s.last());
        assert(s[s.len() - 1] == s.last());
        let v = insert_sorted(u, s.last());
        assert forall|k: int| 0 <= k < v.len() implies package_of((#[trigger] v[k]).filename) == Some(v[k].package) by {
            if v[k] != s.last() {
                let i = choose|i: int| 0 <= i < u.len() && u[i] == v[k];
            }
        }
    }
}

/// Each sequence of a shallow index is sorted by package name, and each
/// entry's package is the package part of its filename.
pub proof fn lemma_shallow_sorted(text: Seq<char>)
    ensures
        shallow_of(text) matches Ok(m) ==> sorted_by_package(m.packages) && sorted_by_package(
            m.conda_packages,
        ) && consistent(m.packages) && consistent(m.conda_packages),
{
    if let Ok(m) = shallow_of(text) {
        let top = json_object_of(text)->0;
        let p = field_of(top, "packages"@)->0;
        lemma_sort_sorted(entries_of(json_object_of(p)->0)->0);
        lemma_entries_consistent(json_object_of(p)->0);
        lemma_sort_consistent(entries_of(json_object_of(p)->0)->0);
        if let Some(c) = field_of(top, "packages.conda"@) {
            lemma_sort_sorted(entries_of(json_object_of(c)->0)->0);
            lemma_entries_consistent(json_object_of(c)->0);
            lemma_sort_consistent(entries_of(json_object_of(c)->0)->0);
        } else {
            assert(m.conda_packages.len() == 0);
        }
    }
}

} // verus!
