use vstd::prelude::*;

use crate::json::{
    field_of, find_field, json_object, json_object_of, json_string, json_string_list,
    json_string_list_of, json_string_of, json_u64, json_u64_of, members_view, strings_view,
};
use crate::order::str_eq;

verus! {

/// A package name in its normalized form.
#[derive(Debug, Clone, PartialEq, Eq, Hash)]
pub struct PackageName {
    normalized: String,
}

impl View for PackageName {
    type V = Seq<char>;

    closed spec fn view(&self) -> Seq<char> {
        self.normalized@
    }
}

impl PackageName {
    /// Takes `s` as the normalized name, without validating it.
    pub fn new_unchecked(s: &str) -> (r: PackageName)
        ensures
            r@ == s@,
    {
        PackageName { normalized: s.to_owned() }
    }

    /// The normalized name.
    pub fn as_normalized(&self) -> (r: &str)
        ensures
            r@ == self@,
    {
        self.normalized.as_str()
    }
}

/// The fields of a package record.
pub struct RecordModel {
    pub name: Seq<char>,
    pub version: Seq<char>,
    pub build: Seq<char>,
    pub build_number: u64,
    pub subdir: Seq<char>,
    pub depends: Seq<Seq<char>>,
}

/// Metadata of one build of one package.
#[derive(Debug, Clone, PartialEq, Eq)]
pub struct PackageRecord {
    pub name: String,
    pub version: String,
    pub build: String,
    pub build_number: u64,
    /// The platform subdirectory; empty when the document leaves it out.
    pub subdir: String,
    /// Match specifications of the packages this one depends on.
    pub depends: Vec<String>,
}

impl View for PackageRecord {
    type V = RecordModel;

    open spec fn view(&self) -> RecordModel {
        RecordModel {
            name: self.name@,
            version: self.version@,
            build: self.build@,
            build_number: self.build_number,
            subdir: self.subdir@,
            depends: strings_view(self.depends@),
        }
    }
}

/// A string member named `key`, which must be present.
pub open spec fn required_string(ms: Seq<(Seq<char>, Seq<char>)>, key: Seq<char>) -> Option<
    Seq<char>,
> {
    match field_of(ms, key) {
        None => None,
        Some(raw) => json_string_of(raw),
    }
}

/// A string member named `key`, empty when absent.
pub open spec fn optional_string(ms: Seq<(Seq<char>, Seq<char>)>, key: Seq<char>) -> Option<
    Seq<char>,
> {
    match field_of(ms, key) {
        None => Some(Seq::empty()),
        Some(raw) => json_string_of(raw),
    }
}

/// A string-array member named `key`, empty when absent.
pub open spec fn optional_list(ms: Seq<(Seq<char>, Seq<char>)>, key: Seq<char>) -> Option<
    Seq<Seq<char>>,
> {
    match field_of(ms, key) {
        None => Some(Seq::empty()),
        Some(raw) => json_string_list_of(raw),
    }
}

/// The package record that a raw JSON object denotes: `name`, `version`,
/// `build` and `build_number` are required; `subdir` and `depends` default to
/// empty; other members are not read.
pub open spec fn record_of(raw: Seq<char>) -> Option<RecordModel> {
    match json_object_of(raw) {
        None => None,
        Some(ms) => {
            let name = required_string(ms, "name"@);
            let version = required_string(ms, "version"@);
            let build = required_string(ms, "build"@);
            let number = match field_of(ms, "build_number"@) {
                None => None,
                Some(r) => json_u64_of(r),
            };
            let subdir = optional_string(ms, "subdir"@);
            let depends = optional_list(ms, "depends"@);
            if name is Some && version is Some && build is Some && number is Some && subdir is Some
                && depends is Some {
                Some(
                    RecordModel {
                        name: name->0,
                        version: version->0,
                        build: build->0,
                        build_number: number->0,
                        subdir: subdir->0,
                        depends: depends->0,
                    },
                )
            } else {
                None
            }
        },
    }
}

fn required_member(ms: &Vec<(String, String)>, key: &str) -> (r: Option<String>)
    ensures
        match r {
            Some(s) => required_string(members_view(ms@), key@) == Some(s@),
            None => required_string(members_view(ms@), key@) is None,
        },
{
    match find_field(ms, key) {
        None => None,
        Some(i) => json_string(ms[i].1.as_str()),
    }
}

fn optional_member(ms: &Vec<(String, String)>, key: &str) -> (r: Option<String>)
    ensures
        match r {
            Some(s) => optional_string(members_view(ms@), key@) == Some(s@),
            None => optional_string(members_view(ms@), key@) is None,
        },
{
    match find_field(ms, key) {
        None => Some(String::new()),
        Some(i) => json_string(ms[i].1.as_str()),
    }
}

fn optional_list_member(ms: &Vec<(String, String)>, key: &str) -> (r: Option<Vec<String>>)
    ensures
        match r {
            Some(v) => optional_list(members_view(ms@), key@) == Some(strings_view(v@)),
            None => optional_list(members_view(ms@), key@) is None,
        },
{
    match find_field(ms, key) {
        None => {
            let v: Vec<String> = Vec::new();
            assert(strings_view(v@) =~= Seq::empty());
            Some(v)
        },
        Some(i) => json_string_list(ms[i].1.as_str()),
    }
}

/// Decodes a raw JSON object into a package record.
pub fn parse_record(raw: &str) -> (r: Option<PackageRecord>)
    ensures
        match r {
            Some(rec) => record_of(raw@) == Some(rec@),
            None => record_of(raw@) is None,
        },
{
    let ms = match json_object(raw) {
        None => return None,
        Some(ms) => ms,
    };
    let name = required_member(&ms, "name");
    let version = required_member(&ms, "version");
    let build = required_member(&ms, "build");
    let number = match find_field(&ms, "build_number") {
        None => None,
        Some(i) => json_u64(ms[i].1.as_str()),
    };
    let subdir = optional_member(&ms, "subdir");
    let depends = optional_list_member(&ms, "depends");
    match (name, version, build, number, subdir, depends) {
        (Some(name), Some(version), Some(build), Some(build_number), Some(subdir), Some(depends)) => {
            let rec = PackageRecord { name, version, build, build_number, subdir, depends };
            Some(rec)
        },
        _ => None,
    }
}

/// A change applied to every record as it is materialized.
pub trait RecordPatch {
    /// The record that `patch` leaves behind.
    spec fn patched(&self, r: RecordModel) -> RecordModel;

    fn patch(&self, r: &mut PackageRecord)
        ensures
            final(r)@ == self.patched(old(r)@),
    ;
}

/// Adds a dependency on `pip` to every record of `python`.
#[derive(Debug, Clone, Copy)]
pub struct AddPipToPython;

impl RecordPatch for AddPipToPython {
    open spec fn patched(&self, r: RecordModel) -> RecordModel {
        if r.name == "python"@ {
            RecordModel { depends: r.depends.push("pip"@), ..r }
        } else {
            r
        }
    }

    fn patch(&self, r: &mut PackageRecord) {
        if str_eq(r.name.as_str(), "python") {
            r.depends.push("pip".to_owned());
            assert(strings_view(r.depends@) =~= strings_view(old(r).depends@).push("pip"@));
        }
    }
}

/// A materialized record: the package record with where it can be downloaded
/// from and which channel it belongs to.
#[derive(Debug, Clone, PartialEq, Eq)]
pub struct RepoDataRecord {
    pub package_record: PackageRecord,
    pub file_name: String,
    pub url: String,
    pub channel: String,
}

pub struct RepoRecordModel {
    pub record: RecordModel,
    pub file_name: Seq<char>,
    pub url: Seq<char>,
    pub channel: Seq<char>,
}

impl View for RepoDataRecord {
    type V = RepoRecordModel;

    open spec fn view(&self) -> RepoRecordModel {
        RepoRecordModel {
            record: self.package_record@,
            file_name: self.file_name@,
            url: self.url@,
            channel: self.channel@,
        }
    }
}

/// A named repository of packages and the URL its subdirectories live under.
#[derive(Debug, Clone, PartialEq, Eq)]
pub struct Channel {
    pub name: String,
    /// Absolute URL of the channel, with a trailing `/`.
    pub base_url: String,
}

impl Channel {
    /// The name that records of this channel carry.
    pub fn canonical_name(&self) -> (r: String)
        ensures
            r@ == self.name@,
    {
        self.name.clone()
    }
}

} // verus!
