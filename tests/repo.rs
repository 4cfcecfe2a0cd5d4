use mcvm::config::{add_repo, ConfigPreferences, PrefDeser};
use mcvm::repo::{index_step, next_to_load, CacheOutcome, IndexAction};
use mcvm::target::Language;
use mcvm::config::{read_repositories, RepoConfigError, RepoDeser, RepositoriesDeser};
use mcvm::pkg::PackageContentType;
use mcvm::repo::{
    get_all_packages, get_content_type, get_package_location, query_all, PackageFlag, PkgLocation,
    PkgRepo, PkgRepoLocation, RepoErrorKind, RepoIndex, RepoMetadata, RepoPkgEntry,
};

fn entry_at(url: &str) -> RepoPkgEntry {
    RepoPkgEntry { url: Some(url.to_string()), path: None, content_type: None, flags: vec![] }
}

fn repo_with(id: &str, packages: Vec<(&str, RepoPkgEntry)>) -> PkgRepo {
    let mut repo = PkgRepo::new(id, PkgRepoLocation::Remote(format!("https://{id}.example")));
    repo.set_index(RepoIndex {
        metadata: RepoMetadata::default(),
        packages: packages.into_iter().map(|(k, v)| (k.to_string(), v)).collect(),
    });
    repo
}

#[test]
fn preferred_repository_wins() {
    let repos = vec![
        repo_with("preferred", vec![("p", entry_at("https://preferred/p"))]),
        PkgRepo::core_repo(),
        repo_with("std", vec![("p", entry_at("https://std/p"))]),
        repo_with("backup", vec![("p", entry_at("https://backup/p")), ("q", entry_at("https://backup/q"))]),
    ];
    let found = query_all(&repos, "p").found.unwrap();
    assert_eq!(
        found.location,
        PkgLocation::Remote { url: Some("https://preferred/p".into()), repo_id: "preferred".into() }
    );
    let all = get_all_packages(&repos).unwrap();
    let p = all.iter().find(|(k, _)| k == "p").unwrap();
    assert_eq!(p.1.url.as_deref(), Some("https://preferred/p"));
    assert!(all.iter().any(|(k, _)| k == "q"));
    assert!(all.iter().any(|(k, _)| k == "kitchen-sink"));
    assert_eq!(all.iter().filter(|(k, _)| k == "p").count(), 1);
}

#[test]
fn unloaded_repository_is_skipped() {
    let repos = vec![PkgRepo::std_repo(), repo_with("backup", vec![("p", entry_at("u"))])];
    let result = query_all(&repos, "p");
    assert!(result.found.is_some());
    assert_eq!(result.skipped.len(), 1);
    assert_eq!(result.skipped[0].kind, RepoErrorKind::NotLoaded);
    assert_eq!(get_all_packages(&repos).unwrap_err().repo, "std");
    assert!(query_all(&repos, "zzz").found.is_none());
}

#[test]
fn core_repository_answers_from_its_table() {
    let core = PkgRepo::core_repo();
    let q = core.query("kitchen-sink").unwrap().unwrap();
    assert_eq!(q.location, PkgLocation::Core);
    assert_eq!(q.content_type, PackageContentType::Script);
    assert!(core.query("nothing").unwrap().is_none());
    assert_eq!(core.get_package_count().unwrap(), 3);
    assert!(core.is_loaded());
    assert!(!PkgRepo::std_repo().is_loaded());
}

#[test]
fn package_locations() {
    let remote = PkgRepoLocation::Remote("https://repo.example".into());
    let rel = RepoPkgEntry { url: None, path: Some("././pkgs/a.json".into()), content_type: None, flags: vec![] };
    assert_eq!(
        get_package_location(&rel, &remote, "r"),
        Ok(PkgLocation::Remote { url: Some("https://repo.example/api/mcvm/pkgs/a.json".into()), repo_id: "r".into() })
    );
    let abs = RepoPkgEntry { url: None, path: Some("/etc/a.json".into()), content_type: None, flags: vec![] };
    assert_eq!(get_package_location(&abs, &remote, "r"), Err(RepoErrorKind::NonRelativeRemotePath));
    let local = PkgRepoLocation::Local("/srv/repo".into());
    assert_eq!(get_package_location(&rel, &local, "r"), Ok(PkgLocation::Local("/srv/repo/././pkgs/a.json".into())));
    assert_eq!(get_package_location(&abs, &local, "r"), Ok(PkgLocation::Local("/etc/a.json".into())));
    let none = RepoPkgEntry { url: None, path: None, content_type: Some(PackageContentType::Declarative), flags: vec![PackageFlag::Deprecated] };
    assert_eq!(get_package_location(&none, &local, "r"), Err(RepoErrorKind::NoLocation));
    assert_eq!(get_content_type(&none), PackageContentType::Declarative);
    assert_eq!(get_content_type(&rel), PackageContentType::Script);
    assert_eq!(get_package_location(&rel, &PkgRepoLocation::Core, "core"), Ok(PkgLocation::Core));
}

#[test]
fn repository_version_warning() {
    let mut repo = PkgRepo::new("r", PkgRepoLocation::Remote("u".into()));
    repo.set_index(RepoIndex {
        metadata: RepoMetadata { name: None, description: None, mcvm_version: Some("0.9.0".into()) },
        packages: vec![],
    });
    assert!(repo.check_index("0.8.1"));
    assert!(!repo.check_index("0.9.0"));
    assert!(!repo.check_index("1.0"));
    assert_eq!(repo.get_index_file_name(), "r.json");
    assert_eq!(mcvm::repo::get_index_url("https://x"), "https://x/api/mcvm/index.json");
}

fn rd(id: &str, url: Option<&str>, disable: bool) -> RepoDeser {
    RepoDeser { id: id.into(), url: url.map(|s| s.to_string()), path: None, disable }
}

#[test]
fn configured_repository_order() {
    let prefs = RepositoriesDeser {
        preferred: vec![rd("mine", Some("https://mine"), false), rd("off", Some("x"), true)],
        backup: vec![rd("last", Some("https://last"), false)],
        enable_core: true,
        enable_std: true,
    };
    let repos = read_repositories(&prefs).unwrap();
    let ids: Vec<&str> = repos.iter().map(|r| r.id.as_str()).collect();
    assert_eq!(ids, vec!["mine", "core", "std", "last"]);
    let dup = RepositoriesDeser { preferred: vec![rd("std", Some("https://y"), false)], ..RepositoriesDeser::default() };
    assert_eq!(read_repositories(&dup).unwrap_err(), RepoConfigError::DuplicateId("std".into()));
    let bad = RepositoriesDeser { backup: vec![rd("b", None, false)], ..RepositoriesDeser::default() };
    assert_eq!(read_repositories(&bad).unwrap_err(), RepoConfigError::NoLocation("b".into()));
    assert_eq!(PkgRepo::default_repos(false, true).len(), 1);
}

#[test]
fn repository_location_text() {
    assert_eq!(PkgRepoLocation::Remote("https://a".into()).to_string(), "https://a");
    assert_eq!(PkgRepoLocation::Local("/r".into()).to_string(), "/r");
    assert_eq!(PkgRepoLocation::Core.to_string(), "internal");
}

#[test]
fn index_ids_unique_and_urls_validated() {
    let dup = RepoIndex {
        metadata: RepoMetadata::default(),
        packages: vec![("a".into(), entry_at("u")), ("a".into(), entry_at("v"))],
    };
    assert!(!dup.has_unique_ids());
    let ok = RepoIndex { metadata: RepoMetadata::default(), packages: vec![("a".into(), entry_at("u"))] };
    assert!(ok.has_unique_ids());
    assert!(mcvm::config::validate_url("https://example.com/repo").is_ok());
    assert!(mcvm::config::validate_url("not a url").is_err());
    let bad = RepositoriesDeser { preferred: vec![rd("x", Some("no url"), false)], ..RepositoriesDeser::default() };
    assert_eq!(read_repositories(&bad).unwrap_err(), RepoConfigError::InvalidUrl("x".into()));
}

#[test]
fn local_repository_with_empty_root() {
    let rel = RepoPkgEntry { url: None, path: Some("x".into()), content_type: None, flags: vec![] };
    assert_eq!(
        get_package_location(&rel, &PkgRepoLocation::Local(String::new()), "r"),
        Ok(PkgLocation::Local("x".into()))
    );
    assert_eq!(
        get_package_location(&rel, &PkgRepoLocation::Local("/srv/".into()), "r"),
        Ok(PkgLocation::Local("/srv/x".into()))
    );
}

#[test]
fn add_one_configured_repository() {
    let mut repos = vec![PkgRepo::core_repo()];
    assert!(add_repo(&mut repos, &rd("r", Some("https://r.example"), false)).is_ok());
    assert_eq!(repos.len(), 2);
    assert_eq!(repos[1].get_location(), &PkgRepoLocation::Remote("https://r.example".into()));
    assert!(!repos[1].is_loaded());
    let local = RepoDeser { id: "l".into(), url: None, path: Some("/srv".into()), disable: false };
    assert!(add_repo(&mut repos, &local).is_ok());
    assert_eq!(repos[2].get_location(), &PkgRepoLocation::Local("/srv".into()));
    assert_eq!(add_repo(&mut repos, &rd("bad", Some("::"), false)), Err(RepoConfigError::InvalidUrl("bad".into())));
    assert_eq!(add_repo(&mut repos, &rd("none", None, false)), Err(RepoConfigError::NoLocation("none".into())));
    assert_eq!(repos.len(), 3);
}

#[test]
fn preferences_keep_language() {
    let prefs = PrefDeser { repositories: RepositoriesDeser::default(), language: Language::German };
    let (config, repos) = ConfigPreferences::read(&prefs).unwrap();
    assert_eq!(config.language, Language::German);
    assert_eq!(repos.len(), 2);
}

#[test]
fn repositories_load_lazily() {
    let repos = vec![
        repo_with("first", vec![("p", entry_at("u"))]),
        PkgRepo::std_repo(),
    ];
    assert_eq!(next_to_load(&repos, &vec![false, false], "p"), None);
    assert_eq!(next_to_load(&repos, &vec![false, false], "q"), Some(1));
    assert_eq!(next_to_load(&repos, &vec![false, true], "q"), None);
}

#[test]
fn index_loading_steps() {
    let unloaded = PkgRepo::std_repo();
    assert_eq!(index_step(&unloaded, None), IndexAction::ReadCache);
    assert_eq!(index_step(&unloaded, Some(CacheOutcome::Parsed)), IndexAction::UseCache);
    assert_eq!(index_step(&unloaded, Some(CacheOutcome::Missing)), IndexAction::Sync);
    assert_eq!(index_step(&unloaded, Some(CacheOutcome::Unparsable)), IndexAction::Sync);
    assert_eq!(index_step(&unloaded, Some(CacheOutcome::Unreadable)), IndexAction::Fail);
    assert_eq!(index_step(&PkgRepo::core_repo(), None), IndexAction::Nothing);
    assert_eq!(index_step(&repo_with("r", vec![]), None), IndexAction::Nothing);
}
