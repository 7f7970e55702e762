use vstd::prelude::*;
use vstd::string::StrSliceExecFns;

use crate::error::SparseError;
use crate::filename::package_of;
use crate::index::{consistent, EntryModel, IndexModel};
use crate::json::strings_view;
use crate::materialize::{materialize_all, named_entries, patch_all, records_view};
use crate::order::str_eq;
use crate::record::{Channel, PackageName, RecordPatch, RepoDataRecord, RepoRecordModel};
use crate::sparse::{index_records, SparseRepoData};

verus! {

/// The index of the first space in `s` at or after `i`, or the length of `s`.
pub open spec fn space_from(s: Seq<char>, i: int) -> int
    decreases s.len() - i,
{
    if i >= s.len() {
        s.len() as int
    } else if s[i] == ' ' {
        i
    } else {
        space_from(s, i + 1)
    }
}

/// The bare package name of a match specification: the text before its first
/// space, or all of it.
pub open spec fn dependency_name(spec: Seq<char>) -> Seq<char> {
    spec.subrange(0, space_from(spec, 0))
}

proof fn lemma_space_from_bounds(s: Seq<char>, i: int)
    requires
        0 <= i <= s.len(),
    ensures
        i <= space_from(s, i) <= s.len(),
    decreases s.len() - i,
{
    if i < s.len() && s[i] != ' ' {
        lemma_space_from_bounds(s, i + 1);
    }
}

/// The bare package name of a match specification.
pub fn dependency_name_of(spec: &str) -> (r: String)
    ensures
        r@ == dependency_name(spec@),
{
    let n = spec.unicode_len();
    let mut i: usize = 0;
    while i < n
        invariant
            i <= n == spec@.len(),
            space_from(spec@, 0) == space_from(spec@, i as int),
        ensures
            i <= n,
            space_from(spec@, 0) == i,
        decreases n - i,
    {
        if spec.get_char(i) == ' ' {
            break;
        }
        i = i + 1;
    }
    spec.substring_char(0, i).to_owned()
}

/// `rs` holds a record of the archive `f`.
pub open spec fn has_file(rs: Seq<RepoRecordModel>, f: Seq<char>) -> bool {
    exists|m: int| 0 <= m < rs.len() && #[trigger] rs[m].file_name == f
}

/// Every entry of `idx` whose package is `name` has its record in `rs`.
pub open spec fn covers(idx: IndexModel, rs: Seq<RepoRecordModel>, name: Seq<char>) -> bool {
    &&& forall|k: int|
        0 <= k < idx.packages.len() && (#[trigger] idx.packages[k]).package == name ==> has_file(
            rs,
            idx.packages[k].filename,
        )
    &&& forall|k: int|
        0 <= k < idx.conda_packages.len() && (#[trigger] idx.conda_packages[k]).package == name
            ==> has_file(rs, idx.conda_packages[k].filename)
}

/// Every document's entries named `name` have their records in that
/// document's list of `res`.
pub open spec fn loaded<P>(hs: Seq<SparseRepoData<P>>, res: Seq<Seq<RepoRecordModel>>, name: Seq<char>) -> bool {
    forall|j: int| 0 <= j < hs.len() ==> #[trigger] covers(hs[j].index(), res[j], name)
}

/// `r` is one of the records that the document `h` gives for some package.
pub open spec fn record_of_handle<P, Q: RecordPatch>(h: SparseRepoData<P>, patch: Option<Q>, name: Seq<char>, r: RepoRecordModel) -> bool {
    index_records(h.index(), h.channel(), h.subdir_view(), name, patch) matches Ok(rs) && rs.contains(r)
}

/// Every record of the `j`-th list of `res` is one that the `j`-th document
/// gives for some package.
pub open spec fn all_from_handles<P, Q: RecordPatch>(hs: Seq<SparseRepoData<P>>, patch: Option<Q>, res: Seq<Seq<RepoRecordModel>>) -> bool {
    forall|j: int, k: int|
        0 <= j < hs.len() && 0 <= k < res[j].len() ==> #[trigger] from_handle(hs[j], patch, res[j][k])
}

/// `r` is one of the records that the document `h` gives for some package.
pub open spec fn from_handle<P, Q: RecordPatch>(h: SparseRepoData<P>, patch: Option<Q>, r: RepoRecordModel) -> bool {
    exists|pkg: Seq<char>| #[trigger] record_of_handle(h, patch, pkg, r)
}

pub open spec fn results_view(r: Seq<Vec<RepoDataRecord>>) -> Seq<Seq<RepoRecordModel>> {
    r.map_values(|v: Vec<RepoDataRecord>| records_view(v@))
}

proof fn lemma_materialize_files(ch: Channel, subdir: Seq<char>, base: Option<Seq<char>>, es: Seq<EntryModel>)
    ensures
        materialize_all(ch, subdir, base, es) matches Ok(rs) ==> rs.len() == es.len() && forall|k: int|
            0 <= k < es.len() ==> (#[trigger] rs[k]).file_name == es[k].filename,
    decreases es.len(),
{
    if es.len() > 0 {
        lemma_materialize_files(ch, subdir, base, es.drop_last());
        if let Ok(rs) = materialize_all(ch, subdir, base, es) {
            let rs0 = materialize_all(ch, subdir, base, es.drop_last())->Ok_0;
            assert forall|k: int| 0 <= k < es.len() implies (#[trigger] rs[k]).file_name == es[k].filename by {
                if k < es.len() - 1 {
                    assert(rs[k] == rs0[k]);
                    assert(es.drop_last()[k] == es[k]);
                }
            }
        }
    }
}

proof fn lemma_named_member(s: Seq<EntryModel>, name: Seq<char>, k: int)
    requires
        0 <= k < s.len(),
        s[k].package == name,
    ensures
        exists|m: int| 0 <= m < named_entries(s, name).len() && named_entries(s, name)[m] == s[k],
    decreases s.len(),
{
    let t = s.drop_last();
    if k == s.len() - 1 {
        assert(s.last() == s[k]);
        assert(named_entries(s, name) == named_entries(t, name).push(s.last()));
        assert(named_entries(s, name)[named_entries(t, name).len() as int] == s[k]);
    } else {
        assert(t[k] == s[k]);
        lemma_named_member(t, name, k);
        let m = choose|m: int| 0 <= m < named_entries(t, name).len() && named_entries(t, name)[m] == t[k];
        if s.last().package == name {
            assert(named_entries(s, name) == named_entries(t, name).push(s.last()));
            assert(named_entries(s, name)[m] == named_entries(t, name)[m]);
        } else {
            assert(named_entries(s, name) == named_entries(t, name));
        }
    }
}

/// The records that a document gives for `name` include one for every entry
/// of its index whose package is `name`.
pub proof fn lemma_index_records_cover<Q: RecordPatch>(idx: IndexModel, ch: Channel, subdir: Seq<char>, name: Seq<char>, patch: Option<Q>)
    ensures
        index_records(idx, ch, subdir, name, patch) matches Ok(rs) ==> covers(idx, rs, name),
{
    if let Ok(rs) = index_records(idx, ch, subdir, name, patch) {
        let na = named_entries(idx.packages, name);
        let nb = named_entries(idx.conda_packages, name);
        let ra = materialize_all(ch, subdir, idx.base_url, na)->Ok_0;
        let rb = materialize_all(ch, subdir, idx.base_url, nb)->Ok_0;
        lemma_materialize_files(ch, subdir, idx.base_url, na);
        lemma_materialize_files(ch, subdir, idx.base_url, nb);
        let a = patch_all(patch, ra);
        let b = patch_all(patch, rb);
        assert(rs == a + b);
        assert forall|k: int| 0 <= k < idx.packages.len() && (#[trigger] idx.packages[k]).package == name implies has_file(rs, idx.packages[k].filename) by {
            lemma_named_member(idx.packages, name, k);
            let m = choose|m: int| 0 <= m < na.len() && na[m] == idx.packages[k];
            assert(rs[m] == a[m]);
            assert(ra[m].file_name == na[m].filename);
            assert(rs[m].file_name == idx.packages[k].filename);
        }
        assert forall|k: int| 0 <= k < idx.conda_packages.len() && (#[trigger] idx.conda_packages[k]).package == name implies has_file(rs, idx.conda_packages[k].filename) by {
            lemma_named_member(idx.conda_packages, name, k);
            let m = choose|m: int| 0 <= m < nb.len() && nb[m] == idx.conda_packages[k];
            assert(rs[a.len() + m] == b[m]);
            assert(rb[m].file_name == nb[m].filename);
            assert(rs[a.len() + m].file_name == idx.conda_packages[k].filename);
        }
    }
}

proof fn lemma_named_consistent(s: Seq<EntryModel>, name: Seq<char>)
    requires
        consistent(s),
    ensures
        consistent(named_entries(s, name)),
        forall|m: int| 0 <= m < named_entries(s, name).len() ==> (#[trigger] named_entries(s, name)[m]).package == name,
    decreases s.len(),
{
    if s.len() > 0 {
        let t = s.drop_last();
        assert forall|k: int| 0 <= k < t.len() implies package_of((#[trigger] t[k]).filename) == Some(t[k].package) by {
            assert(t[k] == s[k]);
        }
        assert(s[s.len() - 1] == s.last());
        lemma_named_consistent(t, name);
        let nt = named_entries(t, name);
        if s.last().package == name {
            let ns = nt.push(s.last());
            assert(named_entries(s, name) == ns);
            assert forall|m: int| 0 <= m < ns.len() implies package_of((#[trigger] ns[m]).filename) == Some(ns[m].package) && ns[m].package == name by {
                if m < nt.len() {
                    assert(ns[m] == nt[m]);
                }
            }
        } else {
            assert(named_entries(s, name) == nt);
        }
    }
}

/// Every record that a document gives for `name` is of an archive whose
/// filename has the package part `name`.
pub proof fn lemma_records_named<Q: RecordPatch>(idx: IndexModel, ch: Channel, subdir: Seq<char>, name: Seq<char>, patch: Option<Q>)
    requires
        consistent(idx.packages),
        consistent(idx.conda_packages),
    ensures
        index_records(idx, ch, subdir, name, patch) matches Ok(rs) ==> forall|m: int|
            0 <= m < rs.len() ==> package_of((#[trigger] rs[m]).file_name) == Some(name),
{
    if let Ok(rs) = index_records(idx, ch, subdir, name, patch) {
        let na = named_entries(idx.packages, name);
        let nb = named_entries(idx.conda_packages, name);
        let ra = materialize_all(ch, subdir, idx.base_url, na)->Ok_0;
        let rb = materialize_all(ch, subdir, idx.base_url, nb)->Ok_0;
        lemma_materialize_files(ch, subdir, idx.base_url, na);
        lemma_materialize_files(ch, subdir, idx.base_url, nb);
        lemma_named_consistent(idx.packages, name);
        lemma_named_consistent(idx.conda_packages, name);
        let a = patch_all(patch, ra);
        let b = patch_all(patch, rb);
        assert(rs == a + b);
        assert forall|m: int| 0 <= m < rs.len() implies package_of((#[trigger] rs[m]).file_name) == Some(name) by {
            if m < a.len() {
                assert(rs[m] == a[m]);
                assert(ra[m].file_name == na[m].filename);
                assert(package_of(na[m].filename) == Some(na[m].package));
            } else {
                let q = m - a.len();
                assert(rs[m] == b[q]);
                assert(rb[q].file_name == nb[q].filename);
                assert(package_of(nb[q].filename) == Some(nb[q].package));
            }
        }
    }
}

proof fn lemma_covers_grow(idx: IndexModel, rs: Seq<RepoRecordModel>, more: Seq<RepoRecordModel>, name: Seq<char>)
    requires
        covers(idx, rs, name),
    ensures
        covers(idx, rs + more, name),
{
    assert forall|k: int| 0 <= k < idx.packages.len() && (#[trigger] idx.packages[k]).package == name implies has_file(rs + more, idx.packages[k].filename) by {
        let m = choose|m: int| 0 <= m < rs.len() && #[trigger] rs[m].file_name == idx.packages[k].filename;
        assert((rs + more)[m] == rs[m]);
    }
    assert forall|k: int| 0 <= k < idx.conda_packages.len() && (#[trigger] idx.conda_packages[k]).package == name implies has_file(rs + more, idx.conda_packages[k].filename) by {
        let m = choose|m: int| 0 <= m < rs.len() && #[trigger] rs[m].file_name == idx.conda_packages[k].filename;
        assert((rs + more)[m] == rs[m]);
    }
}

/// How many entries have a package that `done` does not hold.
pub open spec fn pending_entries(es: Seq<EntryModel>, done: Seq<Seq<char>>) -> nat
    decreases es.len(),
{
    if es.len() == 0 {
        0
    } else {
        pending_entries(es.drop_last(), done) + if done.contains(es.last().package) {
            0nat
        } else {
            1nat
        }
    }
}

/// How many entries of all documents have a package that `done` does not hold.
pub open spec fn pending_all<P>(hs: Seq<SparseRepoData<P>>, done: Seq<Seq<char>>) -> nat
    decreases hs.len(),
{
    if hs.len() == 0 {
        0
    } else {
        pending_all(hs.drop_last(), done) + pending_entries(hs.last().index().packages, done)
            + pending_entries(hs.last().index().conda_packages, done)
    }
}

/// Some entry of `es` has the package `x`.
pub open spec fn has_package(es: Seq<EntryModel>, x: Seq<char>) -> bool {
    exists|k: int| 0 <= k < es.len() && (#[trigger] es[k]).package == x
}

/// Some entry of some document has the package `x`.
pub open spec fn any_has_package<P>(hs: Seq<SparseRepoData<P>>, x: Seq<char>) -> bool {
    exists|j: int| 0 <= j < hs.len() && (has_package((#[trigger] hs[j]).index().packages, x) || has_package(hs[j].index().conda_packages, x))
}

proof fn lemma_pending_entries(es: Seq<EntryModel>, done: Seq<Seq<char>>, x: Seq<char>)
    ensures
        pending_entries(es, done.push(x)) <= pending_entries(es, done),
        has_package(es, x) && !done.contains(x) ==> pending_entries(es, done.push(x)) < pending_entries(es, done),
    decreases es.len(),
{
    if es.len() > 0 {
        let t = es.drop_last();
        lemma_pending_entries(t, done, x);
        if done.contains(es.last().package) {
            let i = choose|i: int| 0 <= i < done.len() && done[i] == es.last().package;
            assert(done.push(x)[i] == done[i]);
        }
        if es.last().package == x {
            assert(done.push(x)[done.len() as int] == x);
        }
        if has_package(es, x) && !done.contains(x) && es.last().package != x {
            let k = choose|k: int| 0 <= k < es.len() && (#[trigger] es[k]).package == x;
            assert(k < es.len() - 1);
            assert(t[k] == es[k]);
        }
        if done.push(x).contains(es.last().package) && !done.contains(es.last().package) {
            let i = choose|i: int| 0 <= i < done.push(x).len() && done.push(x)[i] == es.last().package;
            if i < done.len() {
                assert(done[i] == es.last().package);
            }
        }
    }
}

proof fn lemma_pending_all<P>(hs: Seq<SparseRepoData<P>>, done: Seq<Seq<char>>, x: Seq<char>)
    ensures
        pending_all(hs, done.push(x)) <= pending_all(hs, done),
        any_has_package(hs, x) && !done.contains(x) ==> pending_all(hs, done.push(x)) < pending_all(hs, done),
    decreases hs.len(),
{
    if hs.len() > 0 {
        let t = hs.drop_last();
        lemma_pending_all(t, done, x);
        lemma_pending_entries(hs.last().index().packages, done, x);
        lemma_pending_entries(hs.last().index().conda_packages, done, x);
        if any_has_package(hs, x) && !done.contains(x) {
            let j = choose|j: int| 0 <= j < hs.len() && (has_package((#[trigger] hs[j]).index().packages, x) || has_package(hs[j].index().conda_packages, x));
            if j < hs.len() - 1 {
                assert(t[j] == hs[j]);
                assert(any_has_package(t, x));
            }
        }
    }
}

proof fn lemma_no_named(es: Seq<EntryModel>, x: Seq<char>)
    requires
        !has_package(es, x),
    ensures
        named_entries(es, x).len() == 0,
    decreases es.len(),
{
    if es.len() > 0 {
        let t = es.drop_last();
        assert(es[es.len() - 1] == es.last());
        assert(!has_package(t, x)) by {
            if has_package(t, x) {
                let k = choose|k: int| 0 <= k < t.len() && (#[trigger] t[k]).package == x;
                assert(es[k] == t[k]);
            }
        }
        lemma_no_named(t, x);
    }
}

/// A document with no entry for `x` gives no records for it.
proof fn lemma_no_records<Q: RecordPatch>(idx: IndexModel, ch: Channel, subdir: Seq<char>, x: Seq<char>, patch: Option<Q>)
    requires
        !has_package(idx.packages, x),
        !has_package(idx.conda_packages, x),
    ensures
        index_records(idx, ch, subdir, x, patch) matches Ok(rs) && rs.len() == 0,
{
    lemma_no_named(idx.packages, x);
    lemma_no_named(idx.conda_packages, x);
    assert(named_entries(idx.packages, x) =~= Seq::<EntryModel>::empty());
    assert(named_entries(idx.conda_packages, x) =~= Seq::<EntryModel>::empty());
}

proof fn lemma_push_contains(s: Seq<Seq<char>>, y: Seq<char>)
    ensures
        forall|x: Seq<char>| s.contains(x) ==> #[trigger] s.push(y).contains(x),
        s.push(y).contains(y),
{
    assert forall|x: Seq<char>| s.contains(x) implies #[trigger] s.push(y).contains(x) by {
        let i = choose|i: int| 0 <= i < s.len() && s[i] == x;
        assert(s.push(y)[i] == x);
    }
    assert(s.push(y)[s.len() as int] == y);
}

proof fn lemma_push_no_dup(s: Seq<Seq<char>>, y: Seq<char>)
    requires
        s.no_duplicates(),
        !s.contains(y),
    ensures
        s.push(y).no_duplicates(),
{
    assert forall|i: int, j: int| 0 <= i < s.push(y).len() && 0 <= j < s.push(y).len() && i != j implies s.push(y)[i] != s.push(y)[j] by {
        if i == s.len() {
            assert(s[j] == s.push(y)[j]);
        } else if j == s.len() {
            assert(s[i] == s.push(y)[i]);
        }
    }
}

proof fn lemma_covers_concat(idx: IndexModel, a: Seq<RepoRecordModel>, b: Seq<RepoRecordModel>, name: Seq<char>)
    requires
        covers(idx, a, name) || covers(idx, b, name),
    ensures
        covers(idx, a + b, name),
{
    if covers(idx, a, name) {
        lemma_covers_grow(idx, a, b, name);
    } else {
        assert forall|k: int| 0 <= k < idx.packages.len() && (#[trigger] idx.packages[k]).package == name implies has_file(a + b, idx.packages[k].filename) by {
            let m = choose|m: int| 0 <= m < b.len() && #[trigger] b[m].file_name == idx.packages[k].filename;
            assert((a + b)[a.len() + m] == b[m]);
        }
        assert forall|k: int| 0 <= k < idx.conda_packages.len() && (#[trigger] idx.conda_packages[k]).package == name implies has_file(a + b, idx.conda_packages[k].filename) by {
            let m = choose|m: int| 0 <= m < b.len() && #[trigger] b[m].file_name == idx.conda_packages[k].filename;
            assert((a + b)[a.len() + m] == b[m]);
        }
    }
}

proof fn lemma_prefix_contains(a: Seq<Seq<char>>, b: Seq<Seq<char>>)
    requires
        a.len() <= b.len(),
        b.subrange(0, a.len() as int) == a,
    ensures
        forall|x: Seq<char>| a.contains(x) ==> #[trigger] b.contains(x),
{
    assert forall|x: Seq<char>| a.contains(x) implies #[trigger] b.contains(x) by {
        let i = choose|i: int| 0 <= i < a.len() && a[i] == x;
        assert(b.subrange(0, a.len() as int)[i] == b[i]);
    }
}

/// Whether `x` is one of `names`.
fn contains_name(names: &Vec<String>, x: &str) -> (r: bool)
    ensures
        r == strings_view(names@).contains(x@),
{
    let mut i: usize = 0;
    while i < names.len()
        invariant
            i <= names@.len(),
            forall|k: int| 0 <= k < i ==> strings_view(names@)[k] != x@,
        decreases names@.len() - i,
    {
        if str_eq(names[i].as_str(), x) {
            assert(strings_view(names@)[i as int] == x@);
            return true;
        }
        i = i + 1;
    }
    false
}

/// The normalized forms of a list of package names.
pub open spec fn names_view(v: Seq<PackageName>) -> Seq<Seq<char>> {
    v.map_values(|n: PackageName| n@)
}

/// `names` without repetitions, each kept where it first occurs.
pub open spec fn unique_names(names: Seq<Seq<char>>) -> Seq<Seq<char>>
    decreases names.len(),
{
    if names.len() == 0 {
        names
    } else {
        let s = unique_names(names.drop_last());
        if s.contains(names.last()) {
            s
        } else {
            s.push(names.last())
        }
    }
}

/// `seen` followed by the bare name of each dependency in `deps`, in order,
/// leaving out names already present.
pub open spec fn add_deps(seen: Seq<Seq<char>>, deps: Seq<Seq<char>>) -> Seq<Seq<char>>
    decreases deps.len(),
{
    if deps.len() == 0 {
        seen
    } else {
        let s = add_deps(seen, deps.drop_last());
        let n = dependency_name(deps.last());
        if s.contains(n) {
            s
        } else {
            s.push(n)
        }
    }
}

/// `seen` followed by the dependency names of each record, in order.
pub open spec fn add_record_deps(seen: Seq<Seq<char>>, recs: Seq<RepoRecordModel>) -> Seq<Seq<char>>
    decreases recs.len(),
{
    if recs.len() == 0 {
        seen
    } else {
        add_deps(add_record_deps(seen, recs.drop_last()), recs.last().record.depends)
    }
}

/// The state of the breadth-first traversal: the names met so far, in the
/// order met, and the records loaded so far from each document.
pub struct Traversal {
    pub seen: Seq<Seq<char>>,
    pub res: Seq<Seq<RepoRecordModel>>,
}

/// Visits the package `x` in the first `i` documents: their records for `x`
/// are appended to their lists, and the records' dependency names to `seen`.
pub open spec fn visit<P, Q: RecordPatch>(hs: Seq<SparseRepoData<P>>, patch: Option<Q>, x: Seq<char>, st: Traversal, i: int) -> Result<Traversal, SparseError>
    decreases i,
{
    if i <= 0 {
        Ok(st)
    } else {
        match visit(hs, patch, x, st, i - 1) {
            Err(e) => Err(e),
            Ok(t) => match index_records(hs[i - 1].index(), hs[i - 1].channel(), hs[i - 1].subdir_view(), x, patch) {
                Err(e) => Err(e),
                Ok(recs) => Ok(Traversal {
                    seen: add_record_deps(t.seen, recs),
                    res: t.res.update(i - 1, t.res[i - 1] + recs),
                }),
            },
        }
    }
}

/// `b` is `a` followed by more names.
pub open spec fn extends(a: Seq<Seq<char>>, b: Seq<Seq<char>>) -> bool {
    a.len() <= b.len() && b.subrange(0, a.len() as int) == a
}

proof fn lemma_extends_trans(a: Seq<Seq<char>>, b: Seq<Seq<char>>, c: Seq<Seq<char>>)
    requires
        extends(a, b),
        extends(b, c),
    ensures
        extends(a, c),
{
    assert(c.subrange(0, a.len() as int) =~= c.subrange(0, b.len() as int).subrange(0, a.len() as int));
}

proof fn lemma_add_deps(seen: Seq<Seq<char>>, deps: Seq<Seq<char>>)
    requires
        seen.no_duplicates(),
    ensures
        extends(seen, add_deps(seen, deps)),
        add_deps(seen, deps).no_duplicates(),
    decreases deps.len(),
{
    if deps.len() == 0 {
        assert(seen.subrange(0, seen.len() as int) =~= seen);
    } else {
        lemma_add_deps(seen, deps.drop_last());
        let s = add_deps(seen, deps.drop_last());
        let n = dependency_name(deps.last());
        if !s.contains(n) {
            lemma_push_no_dup(s, n);
            assert(s.push(n).subrange(0, s.len() as int) =~= s);
            lemma_extends_trans(seen, s, s.push(n));
        }
    }
}

proof fn lemma_add_record_deps(seen: Seq<Seq<char>>, recs: Seq<RepoRecordModel>)
    requires
        seen.no_duplicates(),
    ensures
        extends(seen, add_record_deps(seen, recs)),
        add_record_deps(seen, recs).no_duplicates(),
    decreases recs.len(),
{
    if recs.len() == 0 {
        assert(seen.subrange(0, seen.len() as int) =~= seen);
    } else {
        lemma_add_record_deps(seen, recs.drop_last());
        let s = add_record_deps(seen, recs.drop_last());
        lemma_add_deps(s, recs.last().record.depends);
        lemma_extends_trans(seen, s, add_record_deps(seen, recs));
    }
}

proof fn lemma_visit<P, Q: RecordPatch>(hs: Seq<SparseRepoData<P>>, patch: Option<Q>, x: Seq<char>, st: Traversal, i: int)
    requires
        st.seen.no_duplicates(),
        i <= hs.len(),
        st.res.len() == hs.len(),
    ensures
        visit(hs, patch, x, st, i) matches Ok(t) ==> {
            &&& extends(st.seen, t.seen)
            &&& t.seen.no_duplicates()
            &&& t.res.len() == hs.len()
            &&& !any_has_package(hs, x) ==> t.seen == st.seen
        },
    decreases i,
{
    if i <= 0 {
        assert(st.seen.subrange(0, st.seen.len() as int) =~= st.seen);
    } else {
        lemma_visit(hs, patch, x, st, i - 1);
        if let Ok(t) = visit(hs, patch, x, st, i - 1) {
            let h = hs[i - 1];
            if let Ok(recs) = index_records(h.index(), h.channel(), h.subdir_view(), x, patch) {
                lemma_add_record_deps(t.seen, recs);
                lemma_extends_trans(st.seen, t.seen, add_record_deps(t.seen, recs));
                if !any_has_package(hs, x) {
                    assert(!(has_package(hs[i - 1].index().packages, x) || has_package(hs[i - 1].index().conda_packages, x)));
                    lemma_no_records(h.index(), h.channel(), h.subdir_view(), x, patch);
                }
            }
        }
    }
}

proof fn lemma_visit_err<P, Q: RecordPatch>(hs: Seq<SparseRepoData<P>>, patch: Option<Q>, x: Seq<char>, st: Traversal, i: int, n: int)
    requires
        i <= n,
        visit(hs, patch, x, st, i) is Err,
    ensures
        visit(hs, patch, x, st, n) == visit(hs, patch, x, st, i),
    decreases n - i,
{
    if i < n {
        lemma_visit_err(hs, patch, x, st, i, n - 1);
    }
}

/// The result of the traversal from state `st`, whose first `head` names have
/// been visited.
pub open spec fn traverse<P, Q: RecordPatch>(hs: Seq<SparseRepoData<P>>, patch: Option<Q>, st: Traversal, head: int) -> Result<Seq<Seq<RepoRecordModel>>, SparseError>
    decreases pending_all(hs, st.seen.subrange(0, head)), st.seen.len() - head
        when 0 <= head <= st.seen.len() && st.seen.no_duplicates() && st.res.len() == hs.len()
{
    if head >= st.seen.len() {
        Ok(st.res)
    } else {
        let x = st.seen[head];
        match visit(hs, patch, x, st, hs.len() as int) {
            Err(e) => Err(e),
            Ok(next) => {
                proof {
                    lemma_traverse_step(hs, patch, st, head);
                }
                traverse(hs, patch, next, head + 1)
            },
        }
    }
}

/// One step of the traversal keeps its names free of repetitions and brings
/// it closer to its end: fewer entries are left whose package it has not
/// visited, or as many and fewer names are left to visit.
pub proof fn lemma_traverse_step<P, Q: RecordPatch>(hs: Seq<SparseRepoData<P>>, patch: Option<Q>, st: Traversal, head: int)
    requires
        0 <= head < st.seen.len(),
        st.seen.no_duplicates(),
        st.res.len() == hs.len(),
    ensures
        visit(hs, patch, st.seen[head], st, hs.len() as int) matches Ok(next) ==> {
            &&& next.seen.no_duplicates()
            &&& next.res.len() == hs.len()
            &&& head + 1 <= next.seen.len()
            &&& (pending_all(hs, next.seen.subrange(0, head + 1)) < pending_all(hs, st.seen.subrange(0, head))
                || (pending_all(hs, next.seen.subrange(0, head + 1)) == pending_all(hs, st.seen.subrange(0, head))
                    && next.seen.len() - (head + 1) < st.seen.len() - head))
        },
{
    let x = st.seen[head];
    lemma_visit(hs, patch, x, st, hs.len() as int);
    if let Ok(next) = visit(hs, patch, x, st, hs.len() as int) {
        let done = st.seen.subrange(0, head);
        assert(next.seen.subrange(0, head + 1) =~= done.push(x)) by {
            assert(next.seen.subrange(0, st.seen.len() as int) == st.seen);
            assert forall|k: int| 0 <= k < head + 1 implies next.seen.subrange(0, head + 1)[k] == done.push(x)[k] by {
                assert(next.seen[k] == next.seen.subrange(0, st.seen.len() as int)[k]);
            }
        }
        lemma_pending_all(hs, done, x);
        assert(!done.contains(x)) by {
            if done.contains(x) {
                let k = choose|k: int| 0 <= k < done.len() && done[k] == x;
                assert(st.seen[k] == st.seen[head]);
            }
        }
    }
}

/// The records that loading `roots` from the documents `hs` gives: a
/// breadth-first traversal over package names, from the roots without
/// repetitions, in order.
pub open spec fn resolve_spec<P, Q: RecordPatch>(hs: Seq<SparseRepoData<P>>, patch: Option<Q>, roots: Seq<Seq<char>>) -> Result<Seq<Seq<RepoRecordModel>>, SparseError> {
    traverse(
        hs,
        patch,
        Traversal { seen: unique_names(roots), res: Seq::new(hs.len(), |j: int| Seq::<RepoRecordModel>::empty()) },
        0,
    )
}

proof fn lemma_unique_contains(names: Seq<Seq<char>>, x: Seq<char>)
    requires
        names.contains(x),
    ensures
        unique_names(names).contains(x),
    decreases names.len(),
{
    let t = names.drop_last();
    if names.last() == x {
        let s = unique_names(t);
        if !s.contains(x) {
            assert(s.push(x)[s.len() as int] == x);
        }
    } else {
        let k = choose|k: int| 0 <= k < names.len() && names[k] == x;
        assert(t[k] == x);
        lemma_unique_contains(t, x);
        let s = unique_names(t);
        if !s.contains(names.last()) {
            lemma_push_contains(s, names.last());
        }
    }
}

proof fn lemma_unique_absorbs(a: Seq<Seq<char>>, b: Seq<Seq<char>>)
    requires
        forall|i: int| 0 <= i < b.len() ==> a.contains(#[trigger] b[i]),
    ensures
        unique_names(a + b) == unique_names(a),
    decreases b.len(),
{
    if b.len() == 0 {
        assert(a + b =~= a);
    } else {
        let c = b.drop_last();
        assert forall|i: int| 0 <= i < c.len() implies a.contains(#[trigger] c[i]) by {
            assert(c[i] == b[i]);
        }
        lemma_unique_absorbs(a, c);
        assert((a + b).drop_last() =~= a + c);
        assert((a + b).last() == b[b.len() - 1]);
        lemma_unique_contains(a, b.last());
    }
}

/// Loading a list of roots with some of them repeated, anywhere after their
/// first occurrence, gives what loading the list without the repeats gives.
pub proof fn lemma_duplicate_roots<P, Q: RecordPatch>(hs: Seq<SparseRepoData<P>>, patch: Option<Q>, roots: Seq<Seq<char>>, repeats: Seq<Seq<char>>)
    requires
        forall|i: int| 0 <= i < repeats.len() ==> roots.contains(#[trigger] repeats[i]),
    ensures
        resolve_spec(hs, patch, roots + repeats) == resolve_spec(hs, patch, roots),
{
    lemma_unique_absorbs(roots, repeats);
}

/// Appends to `seen` the bare name of every dependency of `records`, in
/// order, that it does not hold yet.
#[verifier::loop_isolation(false)]
fn add_dependencies(seen: &mut Vec<String>, records: &Vec<RepoDataRecord>)
    requires
        strings_view(old(seen)@).no_duplicates(),
    ensures
        strings_view(final(seen)@) == add_record_deps(strings_view(old(seen)@), records_view(records@)),
        strings_view(final(seen)@).no_duplicates(),
        extends(strings_view(old(seen)@), strings_view(final(seen)@)),
        forall|y: Seq<char>| strings_view(old(seen)@).contains(y) ==> #[trigger] strings_view(final(seen)@).contains(y),
        forall|k: int, d: int|
            0 <= k < records@.len() && 0 <= d < records_view(records@)[k].record.depends.len()
            ==> strings_view(final(seen)@).contains(dependency_name(#[trigger] records_view(records@)[k].record.depends[d])),
{
    let ghost recs = records_view(records@);
    let ghost seen_i = strings_view(seen@);
    let mut k: usize = 0;
    assert(recs.subrange(0, 0) =~= Seq::<RepoRecordModel>::empty());
    assert(seen_i.subrange(0, seen_i.len() as int) =~= seen_i);
    while k < records.len()
        invariant
            k <= records@.len(),
            recs == records_view(records@),
            strings_view(seen@) == add_record_deps(seen_i, recs.subrange(0, k as int)),
            extends(seen_i, strings_view(seen@)),
            forall|y: Seq<char>| seen_i.contains(y) ==> #[trigger] strings_view(seen@).contains(y),
            strings_view(seen@).no_duplicates(),
            forall|k2: int, d: int|
                0 <= k2 < k && 0 <= d < recs[k2].record.depends.len()
                ==> strings_view(seen@).contains(dependency_name(#[trigger] recs[k2].record.depends[d])),
        decreases records@.len() - k,
    {
        let ghost base_k = strings_view(seen@);
        let ghost deps_k = recs[k as int].record.depends;
        let mut d: usize = 0;
        assert(deps_k.subrange(0, 0) =~= Seq::<Seq<char>>::empty());
        assert(base_k.subrange(0, base_k.len() as int) =~= base_k);
        while d < records[k].package_record.depends.len()
            invariant
                k < records@.len(),
                recs == records_view(records@),
                deps_k == recs[k as int].record.depends,
                deps_k.len() == records@[k as int].package_record.depends@.len(),
                d <= deps_k.len(),
                strings_view(seen@) == add_deps(base_k, deps_k.subrange(0, d as int)),
                extends(base_k, strings_view(seen@)),
                forall|y: Seq<char>| seen_i.contains(y) ==> #[trigger] strings_view(seen@).contains(y),
                strings_view(seen@).no_duplicates(),
                forall|k2: int, d2: int|
                    0 <= k2 < k && 0 <= d2 < recs[k2].record.depends.len()
                    ==> strings_view(seen@).contains(dependency_name(#[trigger] recs[k2].record.depends[d2])),
                forall|d2: int|
                    0 <= d2 < d ==> strings_view(seen@).contains(dependency_name(#[trigger] recs[k as int].record.depends[d2])),
            decreases records@[k as int].package_record.depends@.len() - d,
        {
            let dn = dependency_name_of(records[k].package_record.depends[d].as_str());
            assert(recs[k as int].record.depends[d as int] == records@[k as int].package_record.depends@[d as int]@);
            assert(deps_k.subrange(0, d + 1).drop_last() =~= deps_k.subrange(0, d as int));
            assert(deps_k.subrange(0, d + 1).last() == deps_k[d as int]);
            if !contains_name(seen, dn.as_str()) {
                let ghost before = strings_view(seen@);
                seen.push(dn);
                proof {
                    assert(strings_view(seen@) =~= before.push(dn@));
                    lemma_push_contains(before, dn@);
                    lemma_push_no_dup(before, dn@);
                    assert(before.push(dn@).subrange(0, before.len() as int) =~= before);
                    lemma_extends_trans(base_k, before, strings_view(seen@));
                }
            }
            d = d + 1;
        }
        proof {
            assert(deps_k.subrange(0, deps_k.len() as int) =~= deps_k);
            assert(recs.subrange(0, k + 1).drop_last() =~= recs.subrange(0, k as int));
            assert(recs.subrange(0, k + 1).last() == recs[k as int]);
            assert(add_record_deps(seen_i, recs.subrange(0, k + 1)) == add_deps(add_record_deps(seen_i, recs.subrange(0, k as int)), recs[k as int].record.depends));
            lemma_extends_trans(seen_i, base_k, strings_view(seen@));
        }
        k = k + 1;
    }
    assert(recs.subrange(0, recs.len() as int) =~= recs);
}

impl<P: RecordPatch> SparseRepoData<P> {
    /// Loads, from every document of `repo_data`, the records of the packages
    /// `package_names` and of every package that they depend on, transitively;
    /// the `i`-th list holds the records of the `i`-th document. A dependency's
    /// package is the text of its match specification before the first space.
    /// `patch_function` is applied to every record in place of the documents'
    /// own patches, before its dependencies are read. The result is the one
    /// that `resolve_spec` describes; repeated roots change nothing.
    #[verifier::loop_isolation(false)]
    #[verifier::rlimit(80)]
    pub fn load_records_recursive<Q: RecordPatch>(repo_data: &[SparseRepoData<P>], package_names: &Vec<PackageName>, patch_function: Option<Q>) -> (r: Result<Vec<Vec<RepoDataRecord>>, SparseError>)
        ensures
            match r {
                Ok(res) => {
                    &&& res@.len() == repo_data@.len()
                    &&& forall|i: int| 0 <= i < package_names@.len() ==> loaded(repo_data@, results_view(res@), #[trigger] package_names@[i]@)
                    &&& forall|j: int, k: int, d: int|
                        0 <= j < res@.len() && 0 <= k < results_view(res@)[j].len() && 0 <= d < results_view(res@)[j][k].record.depends.len()
                        ==> loaded(repo_data@, results_view(res@), dependency_name(#[trigger] results_view(res@)[j][k].record.depends[d]))
                    &&& all_from_handles(repo_data@, patch_function, results_view(res@))
                },
                Err(e) => exists|j: int, name: Seq<char>|
                    0 <= j < repo_data@.len() && #[trigger] index_records(repo_data@[j].index(), repo_data@[j].channel(), repo_data@[j].subdir_view(), name, patch_function)
                        == Err::<Seq<RepoRecordModel>, SparseError>(e),
            },
            match r {
                Ok(res) => resolve_spec(repo_data@, patch_function, names_view(package_names@)) == Ok::<Seq<Seq<RepoRecordModel>>, SparseError>(results_view(res@)),
                Err(e) => resolve_spec(repo_data@, patch_function, names_view(package_names@)) == Err::<Seq<Seq<RepoRecordModel>>, SparseError>(e),
            },
    {
        let n = repo_data.len();
        let ghost hs = repo_data@;
        let mut result: Vec<Vec<RepoDataRecord>> = Vec::new();
        while result.len() < n
            invariant
                result@.len() <= n,
                forall|j: int| 0 <= j < result@.len() ==> (#[trigger] result@[j])@.len() == 0,
            decreases n - result@.len(),
        {
            result.push(Vec::new());
        }
        let ghost roots = names_view(package_names@);
        assert forall|j: int| 0 <= j < n implies #[trigger] results_view(result@)[j] == Seq::<RepoRecordModel>::empty() by {
            assert(records_view(result@[j]@) =~= Seq::<RepoRecordModel>::empty());
        }
        assert(results_view(result@) =~= Seq::new(hs.len(), |j: int| Seq::<RepoRecordModel>::empty()));
        let mut seen: Vec<String> = Vec::new();
        let mut r: usize = 0;
        assert(strings_view(seen@).no_duplicates());
        assert(strings_view(seen@) =~= unique_names(roots.subrange(0, 0)));
        while r < package_names.len()
            invariant
                r <= package_names@.len(),
                results_view(result@) == Seq::new(hs.len(), |j: int| Seq::<RepoRecordModel>::empty()),
                strings_view(seen@) == unique_names(roots.subrange(0, r as int)),
                forall|i: int| 0 <= i < r ==> strings_view(seen@).contains(#[trigger] package_names@[i]@),
                strings_view(seen@).no_duplicates(),
            decreases package_names@.len() - r,
        {
            let x = package_names[r].as_normalized();
            assert(roots.subrange(0, r + 1).drop_last() =~= roots.subrange(0, r as int));
            assert(roots.subrange(0, r + 1).last() == x@);
            if !contains_name(&seen, x) {
                let ghost before = strings_view(seen@);
                seen.push(x.to_owned());
                proof {
                    assert(strings_view(seen@) =~= before.push(x@));
                    lemma_push_contains(before, x@);
                    lemma_push_no_dup(before, x@);
                }
            }
            r = r + 1;
        }
        assert(roots.subrange(0, roots.len() as int) =~= roots);
        let mut head: usize = 0;
        while head < seen.len()
            invariant
                head <= seen@.len(),
                result@.len() == n,
                traverse(hs, patch_function, Traversal { seen: strings_view(seen@), res: results_view(result@) }, head as int)
                    == resolve_spec(hs, patch_function, roots),
                strings_view(seen@).no_duplicates(),
                forall|i: int| 0 <= i < package_names@.len() ==> strings_view(seen@).contains(#[trigger] package_names@[i]@),
                forall|k: int| 0 <= k < head ==> loaded(hs, results_view(result@), #[trigger] strings_view(seen@)[k]),
                forall|j: int, k: int, d: int|
                    0 <= j < n && 0 <= k < results_view(result@)[j].len() && 0 <= d < results_view(result@)[j][k].record.depends.len()
                    ==> strings_view(seen@).contains(dependency_name(#[trigger] results_view(result@)[j][k].record.depends[d])),
                all_from_handles(hs, patch_function, results_view(result@)),
            decreases pending_all(hs, strings_view(seen@).subrange(0, head as int)), seen@.len() - head,
        {
            let ghost sv0 = strings_view(seen@);
            let name = seen[head].clone();
            let ghost x = name@;
            assert(x == sv0[head as int]);
            let ghost any = any_has_package(hs, x);
            let ghost st0 = Traversal { seen: sv0, res: results_view(result@) };
            let mut i: usize = 0;
            assert(visit(hs, patch_function, x, st0, 0) == Ok::<Traversal, SparseError>(Traversal { seen: strings_view(seen@), res: results_view(result@) }));
            while i < n
                invariant
                    i <= n,
                    result@.len() == n,
                    visit(hs, patch_function, x, st0, i as int) == Ok::<Traversal, SparseError>(Traversal { seen: strings_view(seen@), res: results_view(result@) }),
                    sv0.len() <= strings_view(seen@).len(),
                    strings_view(seen@).subrange(0, sv0.len() as int) == sv0,
                    !any ==> strings_view(seen@) == sv0,
                    strings_view(seen@).no_duplicates(),
                    forall|j: int| 0 <= j < i ==> #[trigger] covers(hs[j].index(), results_view(result@)[j], x),
                    forall|k: int| 0 <= k < head ==> loaded(hs, results_view(result@), #[trigger] sv0[k]),
                    forall|j: int, k: int, d: int|
                        0 <= j < n && 0 <= k < results_view(result@)[j].len() && 0 <= d < results_view(result@)[j][k].record.depends.len()
                        ==> strings_view(seen@).contains(dependency_name(#[trigger] results_view(result@)[j][k].record.depends[d])),
                    all_from_handles(hs, patch_function, results_view(result@)),
                decreases n - i,
            {
                let mut records = match repo_data[i].records_for(name.as_str(), &patch_function) {
                    Err(e) => {
                        assert(index_records(hs[i as int].index(), hs[i as int].channel(), hs[i as int].subdir_view(), x, patch_function) == Err::<Seq<RepoRecordModel>, SparseError>(e));
                        proof {
                            assert(visit(hs, patch_function, x, st0, i + 1) == Err::<Traversal, SparseError>(e));
                            lemma_visit_err(hs, patch_function, x, st0, i + 1, n as int);
                        }
                        return Err(e);
                    },
                    Ok(v) => v,
                };
                let ghost recs = records_view(records@);
                proof {
                    lemma_index_records_cover(hs[i as int].index(), hs[i as int].channel(), hs[i as int].subdir_view(), x, patch_function);
                    if !any {
                        assert(!(has_package(hs[i as int].index().packages, x) || has_package(hs[i as int].index().conda_packages, x)));
                        lemma_no_records(hs[i as int].index(), hs[i as int].channel(), hs[i as int].subdir_view(), x, patch_function);
                    }
                }
                let ghost seen_i = strings_view(seen@);
                add_dependencies(&mut seen, &records);
                proof {
                    if !any {
                        assert(strings_view(seen@) == seen_i);
                    }
                    lemma_extends_trans(sv0, seen_i, strings_view(seen@));
                }
                let ghost old_res = results_view(result@);
                let ghost old_raw = result@;
                let ghost old_i = result@[i as int]@;
                let ghost moved = records@;
                result[i].append(&mut records);
                proof {
                    let res2 = results_view(result@);
                    assert(result@[i as int]@ == old_i + moved);
                    assert(records_view(old_i + moved) =~= records_view(old_i) + recs);
                    assert(res2[i as int] == old_res[i as int] + recs);
                    assert forall|j: int| 0 <= j < n && j != i implies #[trigger] res2[j] == old_res[j] by {
                        assert(result@[j] == old_raw[j]);
                    }
                    assert(res2 =~= old_res.update(i as int, old_res[i as int] + recs));
                    assert(visit(hs, patch_function, x, st0, i + 1) == Ok::<Traversal, SparseError>(Traversal { seen: strings_view(seen@), res: res2 }));
                    assert forall|j: int| 0 <= j <= i implies #[trigger] covers(hs[j].index(), res2[j], x) by {
                        if j == i {
                            lemma_covers_concat(hs[j].index(), old_res[j], recs, x);
                        }
                    }
                    assert forall|k: int| 0 <= k < head implies loaded(hs, res2, #[trigger] sv0[k]) by {
                        assert forall|j: int| 0 <= j < hs.len() implies #[trigger] covers(hs[j].index(), res2[j], sv0[k]) by {
                            assert(covers(hs[j].index(), old_res[j], sv0[k]));
                            if j == i {
                                lemma_covers_concat(hs[j].index(), old_res[j], recs, sv0[k]);
                            }
                        }
                    }
                    assert forall|j: int, k2: int, d: int|
                        0 <= j < n && 0 <= k2 < res2[j].len() && 0 <= d < res2[j][k2].record.depends.len()
                        implies strings_view(seen@).contains(dependency_name(#[trigger] res2[j][k2].record.depends[d])) by {
                        if j == i && k2 >= old_res[j].len() {
                            assert(res2[j][k2] == recs[k2 - old_res[j].len()]);
                        } else {
                            assert(res2[j][k2] == old_res[j][k2]);
                        }
                    }
                    assert forall|j: int, k2: int|
                        0 <= j < hs.len() && 0 <= k2 < res2[j].len() implies #[trigger] from_handle(hs[j], patch_function, res2[j][k2]) by {
                        if j == i && k2 >= old_res[j].len() {
                            assert(res2[j][k2] == recs[k2 - old_res[j].len()]);
                            assert(recs.contains(res2[j][k2]));
                            assert(record_of_handle(hs[j], patch_function, x, res2[j][k2]));
                        } else {
                            assert(res2[j][k2] == old_res[j][k2]);
                            assert(from_handle(hs[j], patch_function, old_res[j][k2]));
                        }
                    }
                }
                i = i + 1;
            }
            proof {
                let sv1 = strings_view(seen@);
                lemma_prefix_contains(sv0, sv1);
                assert forall|k: int| 0 <= k <= head implies loaded(hs, results_view(result@), #[trigger] sv1[k]) by {
                    assert(sv1.subrange(0, sv0.len() as int)[k] == sv1[k]);
                    if k == head {
                        assert forall|j: int| 0 <= j < hs.len() implies #[trigger] covers(hs[j].index(), results_view(result@)[j], sv1[k]) by {
                            assert(covers(hs[j].index(), results_view(result@)[j], x));
                        }
                    } else {
                        assert(loaded(hs, results_view(result@), sv0[k]));
                    }
                }
                let done = sv0.subrange(0, head as int);
                assert(sv1.subrange(0, head + 1) =~= done.push(x));
                lemma_pending_all(hs, done, x);
                assert(!done.contains(x)) by {
                    if done.contains(x) {
                        let k = choose|k: int| 0 <= k < done.len() && done[k] == x;
                        assert(sv0[k] == sv0[head as int]);
                    }
                }
            }
            head = head + 1;
        }
        proof {
            let sv = strings_view(seen@);
            assert forall|y: Seq<char>| sv.contains(y) implies #[trigger] loaded(hs, results_view(result@), y) by {
                let k = choose|k: int| 0 <= k < sv.len() && sv[k] == y;
                assert(loaded(hs, results_view(result@), sv[k]));
            }
        }
        Ok(result)
    }
}

} // verus!
