use sparse_repodata::record::parse_record;
use sparse_repodata::resolve::dependency_name_of;
use sparse_repodata::{
    compute_package_url, AddPipToPython, Channel, PackageFilename, PackageName, PackageRecord,
    RecordPatch, RepoDataRecord, SparseError, SparseRepoData,
};

type Repo = SparseRepoData<AddPipToPython>;

fn channel() -> Channel {
    Channel {
        name: "conda-forge".to_owned(),
        base_url: "https://conda.anaconda.org/conda-forge/".to_owned(),
    }
}

fn record_json(name: &str, version: &str, build: &str, subdir: &str, depends: &[&str]) -> String {
    let deps: Vec<String> = depends.iter().map(|d| format!("\"{}\"", d)).collect();
    format!(
        "{{\"name\": \"{}\", \"version\": \"{}\", \"build\": \"{}\", \"build_number\": 0, \"subdir\": \"{}\", \"depends\": [{}]}}",
        name,
        version,
        build,
        subdir,
        deps.join(", ")
    )
}

fn entry(filename: &str, name: &str, version: &str, build: &str, subdir: &str, depends: &[&str]) -> String {
    format!("\"{}\": {}", filename, record_json(name, version, build, subdir, depends))
}

fn document(packages: &[String], conda: &[String]) -> String {
    format!(
        "{{\"info\": {{\"subdir\": \"x\"}}, \"packages\": {{{}}}, \"packages.conda\": {{{}}}, \"repodata_version\": 1}}",
        packages.join(", "),
        conda.join(", ")
    )
}

fn noarch() -> Repo {
    let text = document(
        &[
            entry("_libgcc_mutex-0.1-main.tar.bz2", "_libgcc_mutex", "0.1", "main", "noarch", &[]),
            entry("jupyterlab-3.0.0-pyhd8ed1ab_0.tar.bz2", "jupyterlab", "3.0.0", "pyhd8ed1ab_0", "noarch", &["python >=3.6", "tornado"]),
            entry("tornado-6.1-pyhd8ed1ab_0.tar.bz2", "tornado", "6.1", "pyhd8ed1ab_0", "noarch", &["python"]),
        ],
        &[entry("_libgcc_mutex-0.1-conda_forge.conda", "_libgcc_mutex", "0.1", "conda_forge", "noarch", &[])],
    );
    Repo::new(channel(), "noarch".to_owned(), &text, None).unwrap()
}

fn linux() -> Repo {
    let text = document(
        &[
            entry("_libgcc_mutex-0.1-conda_forge.tar.bz2", "_libgcc_mutex", "0.1", "conda_forge", "linux-64", &[]),
            entry("python-3.9.0-h2a148a8_0.tar.bz2", "python", "3.9.0", "h2a148a8_0", "linux-64", &["libgcc-ng >=7", "openssl"]),
            entry("openssl-1.1.1-h7f98852_0.tar.bz2", "openssl", "1.1.1", "h7f98852_0", "linux-64", &["libgcc-ng"]),
            entry("pip-21.0-pyhd8ed1ab_0.tar.bz2", "pip", "21.0", "pyhd8ed1ab_0", "", &["python"]),
        ],
        &[entry("detectron2-0.6-py39_0.conda", "detectron2", "0.6", "py39_0", "linux-64", &["python", "libgcc-ng"])],
    );
    Repo::new(channel(), "linux-64".to_owned(), &text, None).unwrap()
}

fn load(names: &[&str]) -> Vec<Vec<RepoDataRecord>> {
    let repos = vec![noarch(), linux()];
    let names: Vec<PackageName> = names.iter().map(|n| PackageName::new_unchecked(n)).collect();
    Repo::load_records_recursive(&repos, &names, None::<AddPipToPython>).unwrap()
}

fn total(records: &[Vec<RepoDataRecord>]) -> usize {
    records.iter().map(|r| r.len()).sum()
}

fn file_names(records: &[RepoDataRecord]) -> Vec<String> {
    records.iter().map(|r| r.file_name.clone()).collect()
}

#[test]
fn test_deserialize_package_name() {
    for (filename, result) in [
        ("clang-format-13.0.1-root_62800_h69bbbaa_1.conda", "clang-format"),
        ("clang-format-13-13.0.1-default_he082bbe_0.tar.bz2", "clang-format-13"),
    ] {
        let parsed = PackageFilename::parse(filename).unwrap();
        assert_eq!(parsed.package, result);
        assert_eq!(parsed.filename, filename);
    }
}

#[test]
fn filename_without_enough_dashes_is_rejected() {
    assert_eq!(PackageFilename::parse("no-dashes").err(), Some(SparseError::InvalidFilename));
    assert_eq!(PackageFilename::parse("nodashes").err(), Some(SparseError::InvalidFilename));
    assert_eq!(PackageFilename::parse("a-b-c").unwrap().package, "a");
    assert_eq!(PackageFilename::parse("--").unwrap().package, "");
}

#[test]
fn sort_discriminator() {
    let text = document(
        &[
            entry("clang-format-12.0.1-default_he082bbe_4.tar.bz2", "clang-format", "12.0.1", "default_he082bbe_4", "linux-64", &[]),
            entry("clang-format-13-13.0.0-default_he082bbe_0.tar.bz2", "clang-format-13", "13.0.0", "default_he082bbe_0", "linux-64", &[]),
            entry("clang-format-13.0.0-default_he082bbe_0.tar.bz2", "clang-format", "13.0.0", "default_he082bbe_0", "linux-64", &[]),
        ],
        &[],
    );
    let repo = Repo::new(channel(), "linux-64".to_owned(), &text, None).unwrap();
    assert_eq!(repo.package_names(), vec!["clang-format".to_owned(), "clang-format-13".to_owned()]);
    let records = repo.load_records(&PackageName::new_unchecked("clang-format")).unwrap();
    assert_eq!(
        file_names(&records),
        vec![
            "clang-format-12.0.1-default_he082bbe_4.tar.bz2".to_owned(),
            "clang-format-13.0.0-default_he082bbe_0.tar.bz2".to_owned(),
        ]
    );
    for r in &records {
        assert_eq!(r.package_record.name, "clang-format");
    }
    let records13 = repo.load_records(&PackageName::new_unchecked("clang-format-13")).unwrap();
    assert_eq!(file_names(&records13), vec!["clang-format-13-13.0.0-default_he082bbe_0.tar.bz2".to_owned()]);
}

#[test]
fn package_names_keep_duplicates_across_sequences() {
    let repo = noarch();
    assert_eq!(
        repo.package_names(),
        vec!["_libgcc_mutex".to_owned(), "jupyterlab".to_owned(), "tornado".to_owned(), "_libgcc_mutex".to_owned()]
    );
    let linux = linux();
    let names = linux.package_names();
    assert_eq!(names, vec!["_libgcc_mutex", "openssl", "pip", "python", "detectron2"]);
}

#[test]
fn test_empty_sparse_load() {
    let sparse_empty_data = load(&[]);
    assert_eq!(sparse_empty_data, vec![vec![], vec![]]);
}

#[test]
fn test_sparse_single() {
    let sparse_empty_data = load(&["_libgcc_mutex"]);
    assert_eq!(total(&sparse_empty_data), 3);
}

#[test]
fn test_parse_duplicate() {
    let single = load(&["_libgcc_mutex"]);
    let sparse_empty_data = load(&["_libgcc_mutex", "_libgcc_mutex"]);
    assert_eq!(total(&sparse_empty_data), 3);
    assert_eq!(sparse_empty_data, single);
}

#[test]
fn repeated_roots_change_nothing() {
    let once = load(&["tornado", "jupyterlab"]);
    let repeated = load(&["tornado", "jupyterlab", "tornado", "jupyterlab", "tornado"]);
    assert_eq!(repeated, once);
    assert_eq!(total(&once), 4);
}

#[test]
fn transitive_closure_follows_dependency_names() {
    let result = load(&["jupyterlab", "detectron2"]);
    assert_eq!(
        file_names(&result[0]),
        vec!["jupyterlab-3.0.0-pyhd8ed1ab_0.tar.bz2".to_owned(), "tornado-6.1-pyhd8ed1ab_0.tar.bz2".to_owned()]
    );
    let mut linux_files = file_names(&result[1]);
    linux_files.sort();
    assert_eq!(
        linux_files,
        vec![
            "detectron2-0.6-py39_0.conda".to_owned(),
            "openssl-1.1.1-h7f98852_0.tar.bz2".to_owned(),
            "python-3.9.0-h2a148a8_0.tar.bz2".to_owned(),
        ]
    );
    assert_eq!(total(&result), 5);
    for list in &result {
        for r in list {
            for d in &r.package_record.depends {
                let name = dependency_name_of(d);
                let present = result.iter().flatten().any(|o| o.package_record.name == name);
                assert!(present || name == "libgcc-ng", "{}", name);
            }
        }
    }
}

#[test]
fn mutation_hook_adds_pip_to_python() {
    let repos = vec![noarch(), linux()];
    let names = vec![PackageName::new_unchecked("python")];
    let patched = Repo::load_records_recursive(&repos, &names, Some(AddPipToPython)).unwrap();
    let python: Vec<&RepoDataRecord> = patched.iter().flatten().filter(|r| r.package_record.name == "python").collect();
    assert_eq!(python.len(), 1);
    assert!(python[0].package_record.depends.contains(&"pip".to_owned()));
    assert!(patched.iter().flatten().any(|r| r.package_record.name == "pip"));

    let plain = Repo::load_records_recursive(&repos, &names, None::<AddPipToPython>).unwrap();
    let python: Vec<&RepoDataRecord> = plain.iter().flatten().filter(|r| r.package_record.name == "python").collect();
    assert!(!python[0].package_record.depends.contains(&"pip".to_owned()));
    assert!(!plain.iter().flatten().any(|r| r.package_record.name == "pip"));
}

#[test]
fn handle_patch_applies_to_load_records() {
    let text = document(&[entry("python-3.9.0-h2a148a8_0.tar.bz2", "python", "3.9.0", "h2a148a8_0", "linux-64", &["openssl"])], &[]);
    let repo = Repo::new(channel(), "linux-64".to_owned(), &text, Some(AddPipToPython)).unwrap();
    let records = repo.load_records(&PackageName::new_unchecked("python")).unwrap();
    assert_eq!(records[0].package_record.depends, vec!["openssl".to_owned(), "pip".to_owned()]);
}

#[test]
fn subdir_is_inferred_when_empty() {
    let repo = linux();
    assert_eq!(repo.subdir(), "linux-64");
    let pip = repo.load_records(&PackageName::new_unchecked("pip")).unwrap();
    assert_eq!(pip[0].package_record.subdir, "linux-64");
    assert_eq!(pip[0].url, "https://conda.anaconda.org/conda-forge/linux-64/pip-21.0-pyhd8ed1ab_0.tar.bz2");
    let noarch = noarch();
    let tornado = noarch.load_records(&PackageName::new_unchecked("tornado")).unwrap();
    assert_eq!(tornado[0].package_record.subdir, "noarch");
}

#[test]
fn missing_subdir_is_inferred() {
    let text = "{\"packages\": {\"foo-1.0-0.tar.bz2\": {\"name\": \"foo\", \"version\": \"1.0\", \"build\": \"0\", \"build_number\": 3}}}";
    let repo = Repo::new(channel(), "osx-64".to_owned(), text, None).unwrap();
    let foo = repo.load_records(&PackageName::new_unchecked("foo")).unwrap();
    assert_eq!(foo.len(), 1);
    assert_eq!(foo[0].package_record.subdir, "osx-64");
    assert_eq!(foo[0].package_record.build_number, 3);
    assert!(foo[0].package_record.depends.is_empty());
    assert_eq!(foo[0].channel, "conda-forge");
    assert_eq!(foo[0].file_name, "foo-1.0-0.tar.bz2");
    assert_eq!(foo[0].url, "https://conda.anaconda.org/conda-forge/osx-64/foo-1.0-0.tar.bz2");
}

#[test]
fn records_come_legacy_first_then_conda() {
    let repo = noarch();
    let records = repo.load_records(&PackageName::new_unchecked("_libgcc_mutex")).unwrap();
    assert_eq!(
        file_names(&records),
        vec!["_libgcc_mutex-0.1-main.tar.bz2".to_owned(), "_libgcc_mutex-0.1-conda_forge.conda".to_owned()]
    );
    assert!(repo.load_records(&PackageName::new_unchecked("absent")).unwrap().is_empty());
}

#[test]
fn info_base_url_relocates_packages() {
    let text = "{\"info\": {\"base_url\": \"https://mirror.example.org/pkgs/\"}, \"packages\": {\"foo-1.0-0.tar.bz2\": {\"name\": \"foo\", \"version\": \"1.0\", \"build\": \"0\", \"build_number\": 0, \"subdir\": \"linux-64\"}}}";
    let repo = Repo::new(channel(), "linux-64".to_owned(), text, None).unwrap();
    let foo = repo.load_records(&PackageName::new_unchecked("foo")).unwrap();
    assert_eq!(foo[0].url, "https://mirror.example.org/pkgs/foo-1.0-0.tar.bz2");

    let relative = "{\"info\": {\"base_url\": \"../mirror\"}, \"packages\": {\"foo-1.0-0.tar.bz2\": {\"name\": \"foo\", \"version\": \"1.0\", \"build\": \"0\", \"build_number\": 0, \"subdir\": \"linux-64\"}}}";
    let repo = Repo::new(channel(), "linux-64".to_owned(), relative, None).unwrap();
    let foo = repo.load_records(&PackageName::new_unchecked("foo")).unwrap();
    assert_eq!(foo[0].url, "https://conda.anaconda.org/conda-forge/mirror/foo-1.0-0.tar.bz2");

    let null_info = "{\"info\": null, \"packages\": {}}";
    assert!(Repo::new(channel(), "linux-64".to_owned(), null_info, None).is_ok());
}

#[test]
fn package_url_computation() {
    assert_eq!(
        compute_package_url("https://a.example/c/linux-64/", None, "x-1-0.conda").unwrap(),
        "https://a.example/c/linux-64/x-1-0.conda"
    );
    assert_eq!(
        compute_package_url("https://a.example/c/linux-64/", Some("https://b.example/m"), "x-1-0.conda").unwrap(),
        "https://b.example/m/x-1-0.conda"
    );
    assert_eq!(
        compute_package_url("https://a.example/c/linux-64/", Some("sub/"), "x 1-0.conda").unwrap(),
        "https://a.example/c/linux-64/sub/x 1-0.conda"
    );
    assert_eq!(compute_package_url("not a url", Some("sub/"), "x-1-0.conda"), None);
}

#[test]
fn malformed_documents_are_rejected() {
    let err = |text: &str| Repo::new(channel(), "noarch".to_owned(), text, None).err();
    assert_eq!(err("[1, 2]"), Some(SparseError::NotAnObject));
    assert_eq!(err("not json"), Some(SparseError::NotAnObject));
    assert_eq!(err("{}"), Some(SparseError::InvalidPackages));
    assert_eq!(err("{\"packages\": []}"), Some(SparseError::InvalidPackages));
    assert_eq!(err("{\"packages\": {}, \"packages.conda\": 3}"), Some(SparseError::InvalidPackages));
    assert_eq!(err("{\"packages\": {\"nodash\": {}}}"), Some(SparseError::InvalidFilename));
    assert_eq!(err("{\"info\": 5, \"packages\": {}}"), Some(SparseError::InvalidInfo));
    assert_eq!(err("{\"info\": {\"base_url\": 5}, \"packages\": {}}"), Some(SparseError::InvalidInfo));
    assert!(err("{\"packages\": {}}").is_none());
}

#[test]
fn malformed_records_are_reported() {
    let text = "{\"packages\": {\"foo-1.0-0.tar.bz2\": {\"name\": \"foo\"}}}";
    let repo = Repo::new(channel(), "noarch".to_owned(), text, None).unwrap();
    assert_eq!(repo.load_records(&PackageName::new_unchecked("foo")).err(), Some(SparseError::InvalidRecord));
    assert!(repo.load_records(&PackageName::new_unchecked("bar")).unwrap().is_empty());
    let repos = vec![repo];
    let names = vec![PackageName::new_unchecked("foo")];
    assert_eq!(
        Repo::load_records_recursive(&repos, &names, None::<AddPipToPython>).err(),
        Some(SparseError::InvalidRecord)
    );
    let bad_channel = Channel { name: "c".to_owned(), base_url: "no scheme".to_owned() };
    let text = "{\"packages\": {\"foo-1.0-0.tar.bz2\": {\"name\": \"foo\", \"version\": \"1\", \"build\": \"0\", \"build_number\": 0}}}";
    let repo = Repo::new(bad_channel, "noarch".to_owned(), text, None).unwrap();
    assert_eq!(repo.load_records(&PackageName::new_unchecked("foo")).err(), Some(SparseError::InvalidUrl));
}

#[test]
fn record_decoding() {
    let rec = parse_record(&record_json("numpy", "1.0", "py_0", "", &["python >=3.8", "libblas"])).unwrap();
    assert_eq!(rec.name, "numpy");
    assert_eq!(rec.version, "1.0");
    assert_eq!(rec.build, "py_0");
    assert_eq!(rec.subdir, "");
    assert_eq!(rec.depends, vec!["python >=3.8".to_owned(), "libblas".to_owned()]);
    let escaped = parse_record("{\"name\": \"a\\u0062\", \"version\": \"1\", \"build\": \"0\", \"build_number\": 7, \"extra\": [1]}").unwrap();
    assert_eq!(escaped.name, "ab");
    assert_eq!(escaped.build_number, 7);
    assert!(parse_record("{\"name\": \"a\", \"version\": \"1\", \"build\": \"0\", \"build_number\": -1}").is_none());
    assert!(parse_record("{\"name\": \"a\", \"version\": \"1\", \"build\": \"0\", \"build_number\": 0, \"depends\": [1]}").is_none());
    assert!(parse_record("[]").is_none());
}

#[test]
fn dependency_names_stop_at_first_space() {
    assert_eq!(dependency_name_of("python >=3.8,<4"), "python");
    assert_eq!(dependency_name_of("openssl"), "openssl");
    assert_eq!(dependency_name_of(""), "");
    assert_eq!(dependency_name_of(" x"), "");
}

#[test]
fn pip_patch_leaves_other_records_alone() {
    let mut python = parse_record(&record_json("python", "3.9.0", "0", "linux-64", &["openssl"])).unwrap();
    AddPipToPython.patch(&mut python);
    assert_eq!(python.depends, vec!["openssl".to_owned(), "pip".to_owned()]);
    let mut numpy: PackageRecord = parse_record(&record_json("numpy", "1.0", "0", "linux-64", &["python"])).unwrap();
    AddPipToPython.patch(&mut numpy);
    assert_eq!(numpy.depends, vec!["python".to_owned()]);
}

#[test]
fn package_name_is_taken_verbatim() {
    let name = PackageName::new_unchecked("Foo_Bar");
    assert_eq!(name.as_normalized(), "Foo_Bar");
}
