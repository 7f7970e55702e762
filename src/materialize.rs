use vstd::prelude::*;
use vstd::string::{StrSliceExecFns, StringExecFns};

use crate::error::SparseError;
use crate::index::{entries_view, sorted_by_package, EntryModel, IndexEntry};
use crate::order::{lemma_lt_chain, lemma_lt_irreflexive, lemma_lt_total, seq_lt, str_lt};
use crate::record::{parse_record, record_of, Channel, RecordModel, RecordPatch, RepoDataRecord, RepoRecordModel};

verus! {

/// The URL that `input` denotes when resolved against the absolute URL `base`.
pub uninterp spec fn url_join_of(base: Seq<char>, input: Seq<char>) -> Option<Seq<char>>;

/// Relies on `url::Url::parse` and `url::Url::join`: parses `base` and resolves
/// `input` against it, returning the serialization of the result.
#[verifier::external_body]
fn join_url(base: &str, input: &str) -> (r: Option<String>)
    ensures
        match r {
            Some(u) => url_join_of(base@, input@) == Some(u@),
            None => url_join_of(base@, input@) is None,
        },
{
    url::Url::parse(base).and_then(|b| b.join(input)).ok().map(String::from)
}

/// `u` with a trailing `/`.
pub open spec fn with_slash(u: Seq<char>) -> Seq<char> {
    if u.len() > 0 && u.last() == '/' {
        u
    } else {
        u.push('/')
    }
}

/// Where an archive is downloaded from: the `base_url` of the document's info
/// block, resolved against the subdirectory URL, or else the subdirectory URL
/// itself; then the filename, appended verbatim.
pub open spec fn package_url(repo_base: Seq<char>, info_base: Option<Seq<char>>, filename: Seq<char>) -> Option<Seq<char>> {
    let root = match info_base {
        None => Some(repo_base),
        Some(b) => url_join_of(repo_base, b),
    };
    match root {
        None => None,
        Some(r) => Some(with_slash(r) + filename),
    }
}

pub open spec fn opt_str_view(o: Option<&str>) -> Option<Seq<char>> {
    match o {
        Some(s) => Some(s@),
        None => None,
    }
}

/// Computes the download URL of an archive; see [`package_url`].
pub fn compute_package_url(repo_base: &str, info_base: Option<&str>, filename: &str) -> (r: Option<String>)
    ensures
        match r {
            Some(u) => package_url(repo_base@, opt_str_view(info_base), filename@) == Some(u@),
            None => package_url(repo_base@, opt_str_view(info_base), filename@) is None,
        },
{
    let mut root = match info_base {
        None => repo_base.to_owned(),
        Some(b) => match join_url(repo_base, b) {
            None => return None,
            Some(u) => u,
        },
    };
    let n = root.as_str().unicode_len();
    if n == 0 || root.as_str().get_char(n - 1) != '/' {
        proof {
            reveal_strlit("/");
        }
        root.append("/");
    }
    root.append(filename);
    Some(root)
}

/// The record with the handle's subdirectory filled in where its own is empty.
pub open spec fn fill_subdir(r: RecordModel, subdir: Seq<char>) -> RecordModel {
    if r.subdir.len() == 0 {
        RecordModel { subdir, ..r }
    } else {
        r
    }
}

/// The record that one entry materializes into, before any patch.
pub open spec fn materialize(ch: Channel, subdir: Seq<char>, base: Option<Seq<char>>, e: EntryModel) -> Result<RepoRecordModel, SparseError> {
    match record_of(e.raw) {
        None => Err(SparseError::InvalidRecord),
        Some(rec0) => {
            let rec = fill_subdir(rec0, subdir);
            match url_join_of(ch.base_url@, rec.subdir.push('/')) {
                None => Err(SparseError::InvalidUrl),
                Some(repo_base) => match package_url(repo_base, base, e.filename) {
                    None => Err(SparseError::InvalidUrl),
                    Some(url) => Ok(RepoRecordModel { record: rec, file_name: e.filename, url, channel: ch.name@ }),
                },
            }
        },
    }
}

/// Materializes entries in order, stopping at the first that fails.
pub open spec fn materialize_all(ch: Channel, subdir: Seq<char>, base: Option<Seq<char>>, es: Seq<EntryModel>) -> Result<Seq<RepoRecordModel>, SparseError>
    decreases es.len(),
{
    if es.len() == 0 {
        Ok(Seq::empty())
    } else {
        match materialize_all(ch, subdir, base, es.drop_last()) {
            Err(e) => Err(e),
            Ok(rs) => match materialize(ch, subdir, base, es.last()) {
                Err(e) => Err(e),
                Ok(r) => Ok(rs.push(r)),
            },
        }
    }
}

/// The record after the patch, if any.
pub open spec fn patch_one<Q: RecordPatch>(patch: Option<Q>, r: RepoRecordModel) -> RepoRecordModel {
    match patch {
        None => r,
        Some(p) => RepoRecordModel { record: p.patched(r.record), ..r },
    }
}

pub open spec fn patch_all<Q: RecordPatch>(patch: Option<Q>, rs: Seq<RepoRecordModel>) -> Seq<RepoRecordModel> {
    rs.map_values(|r: RepoRecordModel| patch_one(patch, r))
}

/// The entries whose package is `name`, in order.
pub open spec fn named_entries(s: Seq<EntryModel>, name: Seq<char>) -> Seq<EntryModel>
    decreases s.len(),
{
    if s.len() == 0 {
        s
    } else if s.last().package == name {
        named_entries(s.drop_last(), name).push(s.last())
    } else {
        named_entries(s.drop_last(), name)
    }
}

/// The records of one sequence of a shallow index for the package `name`.
pub open spec fn section_records<Q: RecordPatch>(entries: Seq<EntryModel>, base: Option<Seq<char>>, ch: Channel, subdir: Seq<char>, name: Seq<char>, patch: Option<Q>) -> Result<Seq<RepoRecordModel>, SparseError> {
    match materialize_all(ch, subdir, base, named_entries(entries, name)) {
        Err(e) => Err(e),
        Ok(rs) => Ok(patch_all(patch, rs)),
    }
}

pub open spec fn records_view(v: Seq<RepoDataRecord>) -> Seq<RepoRecordModel> {
    v.map_values(|r: RepoDataRecord| r@)
}

proof fn lemma_named_range(s: Seq<EntryModel>, name: Seq<char>, lo: int, hi: int)
    requires
        0 <= lo <= hi <= s.len(),
        forall|k: int| 0 <= k < lo ==> #[trigger] s[k].package != name,
        forall|k: int| lo <= k < hi ==> #[trigger] s[k].package == name,
        forall|k: int| hi <= k < s.len() ==> #[trigger] s[k].package != name,
    ensures
        named_entries(s, name) == s.subrange(lo, hi),
    decreases s.len(),
{
    if s.len() == 0 {
        assert(s.subrange(lo, hi) =~= s);
    } else if hi < s.len() {
        assert(s[s.len() - 1] == s.last());
        lemma_named_range(s.drop_last(), name, lo, hi);
        assert(s.drop_last().subrange(lo, hi) =~= s.subrange(lo, hi));
    } else if lo < hi {
        assert(s[s.len() - 1] == s.last());
        lemma_named_range(s.drop_last(), name, lo, hi - 1);
        assert(s.drop_last().subrange(lo, hi - 1).push(s.last()) =~= s.subrange(lo, hi));
    } else {
        assert(s[s.len() - 1] == s.last());
        lemma_named_range(s.drop_last(), name, lo - 1, hi - 1);
        assert(s.subrange(lo, hi) =~= Seq::<EntryModel>::empty());
        assert(s.drop_last().subrange(lo - 1, hi - 1) =~= Seq::<EntryModel>::empty());
    }
}

/// The run of entries whose package is `name`, found by binary search.
fn equal_range(es: &Vec<IndexEntry>, name: &str) -> (r: (usize, usize))
    requires
        sorted_by_package(entries_view(es@)),
    ensures
        r.0 <= r.1 <= es@.len(),
        named_entries(entries_view(es@), name@) == entries_view(es@).subrange(r.0 as int, r.1 as int),
{
    let ghost s = entries_view(es@);
    let mut lo: usize = 0;
    let mut hi: usize = es.len();
    while lo < hi
        invariant
            lo <= hi <= es@.len(),
            s == entries_view(es@),
            sorted_by_package(s),
            forall|k: int| 0 <= k < lo ==> seq_lt(#[trigger] s[k].package, name@),
            forall|k: int| hi <= k < s.len() ==> !seq_lt(#[trigger] s[k].package, name@),
        decreases hi - lo,
    {
        let mid = lo + (hi - lo) / 2;
        if str_lt(es[mid].package.as_str(), name) {
            assert forall|k: int| 0 <= k <= mid implies seq_lt(#[trigger] s[k].package, name@) by {
                if k < mid {
                    lemma_lt_chain(s[k].package, s[mid as int].package, name@);
                }
            }
            lo = mid + 1;
        } else {
            assert forall|k: int| mid <= k < s.len() implies !seq_lt(#[trigger] s[k].package, name@) by {
                if k > mid {
                    lemma_lt_chain(s[mid as int].package, s[k].package, name@);
                }
            }
            hi = mid;
        }
    }
    let first = lo;
    hi = es.len();
    while lo < hi
        invariant
            first <= lo <= hi <= es@.len(),
            s == entries_view(es@),
            sorted_by_package(s),
            forall|k: int| 0 <= k < first ==> seq_lt(#[trigger] s[k].package, name@),
            forall|k: int| first <= k < s.len() ==> !seq_lt(#[trigger] s[k].package, name@),
            forall|k: int| first <= k < lo ==> !seq_lt(name@, #[trigger] s[k].package),
            forall|k: int| hi <= k < s.len() ==> seq_lt(name@, #[trigger] s[k].package),
        decreases hi - lo,
    {
        let mid = lo + (hi - lo) / 2;
        if str_lt(name, es[mid].package.as_str()) {
            assert forall|k: int| mid <= k < s.len() implies seq_lt(name@, #[trigger] s[k].package) by {
                if k > mid {
                    lemma_lt_chain(name@, s[mid as int].package, s[k].package);
                }
            }
            hi = mid;
        } else {
            assert forall|k: int| first <= k <= mid implies !seq_lt(name@, #[trigger] s[k].package) by {
                if k < mid {
                    lemma_lt_chain(name@, s[k].package, s[mid as int].package);
                }
            }
            lo = mid + 1;
        }
    }
    proof {
        lemma_lt_irreflexive(name@);
        assert forall|k: int| first <= k < lo implies #[trigger] s[k].package == name@ by {
            lemma_lt_total(s[k].package, name@);
        }
        lemma_named_range(s, name@, first as int, lo as int);
    }
    (first, lo)
}

proof fn lemma_materialize_err(ch: Channel, subdir: Seq<char>, base: Option<Seq<char>>, es: Seq<EntryModel>, n: int)
    requires
        0 <= n <= es.len(),
        materialize_all(ch, subdir, base, es.subrange(0, n)) is Err,
    ensures
        materialize_all(ch, subdir, base, es) == materialize_all(ch, subdir, base, es.subrange(0, n)),
    decreases es.len() - n,
{
    if n < es.len() {
        assert(es.subrange(0, n + 1).drop_last() =~= es.subrange(0, n));
        lemma_materialize_err(ch, subdir, base, es, n + 1);
    } else {
        assert(es.subrange(0, n) =~= es);
    }
}

/// Materializes one entry, before any patch.
fn materialize_entry(e: &IndexEntry, base: Option<&str>, channel: &Channel, channel_name: &String, subdir: &str) -> (r: Result<RepoDataRecord, SparseError>)
    requires
        channel_name@ == channel.name@,
    ensures
        match r {
            Ok(rec) => materialize(*channel, subdir@, opt_str_view(base), e@) == Ok::<RepoRecordModel, SparseError>(rec@),
            Err(x) => materialize(*channel, subdir@, opt_str_view(base), e@) == Err::<RepoRecordModel, SparseError>(x),
        },
{
    let mut rec = match parse_record(e.raw.as_str()) {
        None => return Err(SparseError::InvalidRecord),
        Some(rec) => rec,
    };
    if rec.subdir.as_str().unicode_len() == 0 {
        rec.subdir = subdir.to_owned();
    }
    let mut input = rec.subdir.clone();
    proof {
        reveal_strlit("/");
    }
    input.append("/");
    assert(input@ == rec.subdir@.push('/'));
    let repo_base = match join_url(channel.base_url.as_str(), input.as_str()) {
        None => return Err(SparseError::InvalidUrl),
        Some(u) => u,
    };
    let url = match compute_package_url(repo_base.as_str(), base, e.filename.as_str()) {
        None => return Err(SparseError::InvalidUrl),
        Some(u) => u,
    };
    Ok(RepoDataRecord { package_record: rec, file_name: e.filename.clone(), url, channel: channel_name.clone() })
}

/// Materializes the records of one sequence of a shallow index for the
/// package `name`, applying the patch to each.
pub(crate) fn parse_records<Q: RecordPatch>(name: &str, entries: &Vec<IndexEntry>, base: Option<&str>, channel: &Channel, subdir: &str, patch: &Option<Q>) -> (r: Result<Vec<RepoDataRecord>, SparseError>)
    requires
        sorted_by_package(entries_view(entries@)),
    ensures
        match r {
            Ok(v) => section_records(entries_view(entries@), opt_str_view(base), *channel, subdir@, name@, *patch) == Ok::<Seq<RepoRecordModel>, SparseError>(records_view(v@)),
            Err(x) => section_records(entries_view(entries@), opt_str_view(base), *channel, subdir@, name@, *patch) == Err::<Seq<RepoRecordModel>, SparseError>(x),
        },
{
    let ghost s = entries_view(entries@);
    let channel_name = channel.canonical_name();
    let (lo, hi) = equal_range(entries, name);
    let ghost run = s.subrange(lo as int, hi as int);
    let mut result: Vec<RepoDataRecord> = Vec::new();
    let mut i: usize = lo;
    assert(run.subrange(0, 0) =~= Seq::<EntryModel>::empty());
    assert(records_view(result@) =~= patch_all(*patch, Seq::<RepoRecordModel>::empty()));
    while i < hi
        invariant
            lo <= i <= hi <= entries@.len(),
            s == entries_view(entries@),
            run == s.subrange(lo as int, hi as int),
            named_entries(s, name@) == run,
            channel_name@ == channel.name@,
            materialize_all(*channel, subdir@, opt_str_view(base), run.subrange(0, i - lo)) matches Ok(rs)
                && records_view(result@) == patch_all(*patch, rs),
        decreases hi - i,
    {
        let ghost pre = run.subrange(0, i - lo);
        let ghost rs = materialize_all(*channel, subdir@, opt_str_view(base), pre)->Ok_0;
        let ghost nxt = run.subrange(0, i - lo + 1);
        assert(nxt.drop_last() =~= pre);
        assert(nxt.last() == entries@[i as int]@);
        let ghost m = materialize(*channel, subdir@, opt_str_view(base), nxt.last());
        assert(materialize_all(*channel, subdir@, opt_str_view(base), nxt) == match m {
            Err(e) => Err(e),
            Ok(r) => Ok(rs.push(r)),
        });
        match materialize_entry(&entries[i], base, channel, &channel_name, subdir) {
            Err(x) => {
                proof {
                    lemma_materialize_err(*channel, subdir@, opt_str_view(base), run, i - lo + 1);
                }
                return Err(x);
            },
            Ok(mut rec) => {
                let ghost before = rec@;
                assert(m == Ok::<RepoRecordModel, SparseError>(before));
                assert(records_view(result@) == patch_all(*patch, rs));
                match patch {
                    Some(p) => p.patch(&mut rec.package_record),
                    None => {},
                }
                assert(rec@ == patch_one(*patch, before));
                let ghost old_result = result@;
                result.push(rec);
                assert(result@ == old_result.push(rec));
                let ghost want = patch_all(*patch, rs.push(before));
                assert(records_view(old_result) == patch_all(*patch, rs));
                assert(records_view(old_result).len() == old_result.len());
                assert(patch_all(*patch, rs).len() == rs.len());
                assert forall|k: int| 0 <= k < want.len() implies #[trigger] records_view(result@)[k] == want[k] by {
                    if k < old_result.len() {
                        assert(records_view(old_result)[k] == patch_all(*patch, rs)[k]);
                        assert(rs.push(before)[k] == rs[k]);
                    }
                }
                assert(records_view(result@) =~= want);
            },
        }
        i = i + 1;
    }
    assert(run.subrange(0, hi - lo) =~= run);
    Ok(result)
}

} // verus!
