use vstd::prelude::*;
use vstd::string::StrSliceExecFns;

use crate::error::SparseError;

verus! {

/// The index of the last `-` in `s[0..end]`, if any.
pub open spec fn last_dash_before(s: Seq<char>, end: int) -> Option<int>
    decreases end,
{
    if end <= 0 {
        None
    } else if s[end - 1] == '-' {
        Some(end - 1)
    } else {
        last_dash_before(s, end - 1)
    }
}

/// Where the package part of an archive filename ends: at the second `-`
/// counted from the right, which separates it from version and build string.
pub open spec fn package_end(s: Seq<char>) -> Option<int> {
    match last_dash_before(s, s.len() as int) {
        None => None,
        Some(d) => last_dash_before(s, d),
    }
}

/// The package part of an archive filename, if it has one.
pub open spec fn package_of(s: Seq<char>) -> Option<Seq<char>> {
    match package_end(s) {
        None => None,
        Some(p) => Some(s.subrange(0, p)),
    }
}

/// A dash found before `end` lies before `end`.
pub proof fn lemma_last_dash_bounds(s: Seq<char>, end: int)
    requires
        end <= s.len(),
    ensures
        last_dash_before(s, end) matches Some(p) ==> 0 <= p < end && s[p] == '-',
    decreases end,
{
    if end > 0 && s[end - 1] != '-' {
        lemma_last_dash_bounds(s, end - 1);
    }
}

/// An archive filename together with the package name it carries.
#[derive(Debug, Clone)]
pub struct PackageFilename {
    /// The package part, e.g. `clang-format`.
    pub package: String,
    /// The whole archive filename, e.g. `clang-format-13.0.1-h69bbbaa_1.conda`.
    pub filename: String,
}

fn find_dash_before(s: &str, end: usize) -> (r: Option<usize>)
    requires
        end <= s@.len(),
    ensures
        match r {
            Some(p) => last_dash_before(s@, end as int) == Some(p as int),
            None => last_dash_before(s@, end as int) is None,
        },
{
    let mut i: usize = end;
    while i > 0
        invariant
            i <= end <= s@.len(),
            last_dash_before(s@, end as int) == last_dash_before(s@, i as int),
        decreases i,
    {
        if s.get_char(i - 1) == '-' {
            return Some(i - 1);
        }
        i = i - 1;
    }
    None
}

impl PackageFilename {
    /// Splits an archive filename from the right into package, version and
    /// build string, keeping the package part. Fails when the filename has
    /// fewer than three `-`-separated fields.
    pub fn parse(s: &str) -> (r: Result<PackageFilename, SparseError>)
        ensures
            match r {
                Ok(f) => package_of(s@) == Some(f.package@) && f.filename@ == s@,
                Err(e) => package_of(s@) is None && e == SparseError::InvalidFilename,
            },
    {
        let len = s.unicode_len();
        match find_dash_before(s, len) {
            None => Err(SparseError::InvalidFilename),
            Some(d) => {
                proof {
                    lemma_last_dash_bounds(s@, len as int);
                }
                match find_dash_before(s, d) {
                    None => Err(SparseError::InvalidFilename),
                    Some(p) => {
                        proof {
                            lemma_last_dash_bounds(s@, d as int);
                        }
                        let package = s.substring_char(0, p).to_owned();
                        Ok(PackageFilename { package, filename: s.to_owned() })
                    },
                }
            },
        }
    }
}

} // verus!
