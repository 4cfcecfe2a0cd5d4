use vstd::prelude::*;

use crate::repo::{all_unloaded, default_places, repos_view, PkgRepo, PkgRepoLocation, RepoPlace};
use crate::target::Language;
use crate::text::str_eq;

verus! {

/// A configured package repository
#[derive(Debug, Clone)]
pub struct RepoDeser {
    /// The id of the repository
    pub id: String,
    /// The url of the repository, if it is remote
    pub url: Option<String>,
    /// The path of the repository, if it is local
    pub path: Option<String>,
    /// Whether to leave the repository out
    pub disable: bool,
}

/// All configured package repositories
#[derive(Debug, Clone)]
pub struct RepositoriesDeser {
    /// The repositories that come before the default ones
    pub preferred: Vec<RepoDeser>,
    /// The repositories that come after the default ones
    pub backup: Vec<RepoDeser>,
    /// Whether to enable the core repository
    pub enable_core: bool,
    /// Whether to enable the std repository
    pub enable_std: bool,
}

impl Default for RepositoriesDeser {
    fn default() -> (r: Self)
        ensures
            r.preferred@.len() == 0,
            r.backup@.len() == 0,
            r.enable_core,
            r.enable_std,
    {
        Self { preferred: Vec::new(), backup: Vec::new(), enable_core: true, enable_std: true }
    }
}

/// An error in the configured repositories
#[derive(Debug, Clone, PartialEq, Eq)]
pub enum RepoConfigError {
    /// The repository has neither a url nor a path
    NoLocation(String),
    /// Two repositories share an id
    DuplicateId(String),
    /// The url of the repository is not a valid url
    InvalidUrl(String),
}

/// Whether a text parses as a url
pub uninterp spec fn valid_url(s: Seq<char>) -> bool;

/// Relies on `url::Url::parse` (the url type that the network client uses): whether the text
/// parses as an absolute url.
#[verifier::external_body]
fn url_parses(s: &str) -> (r: bool)
    ensures
        r == valid_url(s@),
{
    url::Url::parse(s).is_ok()
}

/// Checks the url of a configured repository
pub fn validate_url(url: &str) -> (r: Result<(), ()>)
    ensures
        r is Ok <==> valid_url(url@),
{
    if url_parses(url) {
        Ok(())
    } else {
        Err(())
    }
}

/// The ids of the configured repositories that are not disabled, in order
pub open spec fn enabled_ids(list: Seq<RepoDeser>) -> Seq<Seq<char>>
    decreases list.len(),
{
    if list.len() == 0 {
        Seq::empty()
    } else {
        let rest = enabled_ids(list.drop_last());
        if list.last().disable {
            rest
        } else {
            rest.push(list.last().id@)
        }
    }
}

/// The ids of the default repositories that are enabled
pub open spec fn default_ids(enable_core: bool, enable_std: bool) -> Seq<Seq<char>> {
    (if enable_core {
        seq!["core"@]
    } else {
        Seq::empty()
    }) + (if enable_std {
        seq!["std"@]
    } else {
        Seq::empty()
    })
}

/// The ids of the repository list, in priority order: preferred, then the defaults, then
/// backups
pub open spec fn configured_ids(prefs: RepositoriesDeser) -> Seq<Seq<char>> {
    enabled_ids(prefs.preferred@) + default_ids(prefs.enable_core, prefs.enable_std) + enabled_ids(
        prefs.backup@,
    )
}

/// Whether an enabled configured repository has neither a url nor a path
pub open spec fn lacks_location(list: Seq<RepoDeser>, id: Seq<char>) -> bool {
    exists|i: int|
        0 <= i < list.len() && !list[i].disable && list[i].url is None && list[i].path is None
            && #[trigger] list[i].id@ == id
}

/// Whether an enabled configured repository has a url that does not parse
pub open spec fn has_invalid_url(list: Seq<RepoDeser>, id: Seq<char>) -> bool {
    exists|i: int|
        0 <= i < list.len() && !list[i].disable && list[i].url is Some && !valid_url(
            list[i].url->Some_0@,
        ) && #[trigger] list[i].id@ == id
}

/// Whether every enabled configured repository has a valid url, or else a path
pub open spec fn all_located(list: Seq<RepoDeser>) -> bool {
    forall|i: int|
        0 <= i < list.len() && !#[trigger] list[i].disable ==> match list[i].url {
            Some(u) => valid_url(u@),
            None => list[i].path is Some,
        }
}

/// Whether the ids are all different
pub open spec fn distinct_ids(ids: Seq<Seq<char>>) -> bool {
    forall|a: int, b: int| 0 <= a < b < ids.len() ==> #[trigger] ids[a] != #[trigger] ids[b]
}

/// The ids of a list of repositories
pub open spec fn repo_ids(repos: Seq<PkgRepo>) -> Seq<Seq<char>> {
    repos.map_values(|r: PkgRepo| r.id@)
}

/// Where a configured repository points: its url when it has one, else its path
pub open spec fn configured_place(d: RepoDeser) -> RepoPlace {
    match d.url {
        Some(u) => RepoPlace::Remote(u@),
        None => RepoPlace::Local(d.path->Some_0@),
    }
}

/// The enabled repositories of a configured list, as ids with where they point
pub open spec fn enabled_repos(list: Seq<RepoDeser>) -> Seq<(Seq<char>, RepoPlace)>
    decreases list.len(),
{
    if list.len() == 0 {
        Seq::empty()
    } else {
        let rest = enabled_repos(list.drop_last());
        if list.last().disable {
            rest
        } else {
            rest.push((list.last().id@, configured_place(list.last())))
        }
    }
}

/// The repository list of a configuration, in priority order
pub open spec fn configured_repos(prefs: RepositoriesDeser) -> Seq<(Seq<char>, RepoPlace)> {
    enabled_repos(prefs.preferred@) + default_places(prefs.enable_core, prefs.enable_std)
        + enabled_repos(prefs.backup@)
}

/// Whether a configured repository has a valid url, or else a path
pub open spec fn located(d: RepoDeser) -> bool {
    match d.url {
        Some(u) => valid_url(u@),
        None => d.path is Some,
    }
}

/// Adds one configured repository to the list: a remote one for a valid url, else a local one
/// for a path. Fails, leaving the list as it was, for an invalid url or when neither is given.
pub fn add_repo(repos: &mut Vec<PkgRepo>, repo: &RepoDeser) -> (r: Result<(), RepoConfigError>)
    ensures
        r is Ok <==> located(*repo),
        match r {
            Ok(()) => final(repos)@.len() == old(repos)@.len() + 1 && final(repos)@.subrange(
                0,
                old(repos)@.len() as int,
            ) == old(repos)@ && repos_view(final(repos)@) == repos_view(old(repos)@).push(
                (repo.id@, configured_place(*repo)),
            ) && final(repos)@.last().index is None,
            Err(RepoConfigError::NoLocation(id)) => id@ == repo.id@ && repo.url is None
                && repo.path is None && final(repos)@ == old(repos)@,
            Err(RepoConfigError::InvalidUrl(id)) => id@ == repo.id@ && repo.url is Some
                && !valid_url(repo.url->Some_0@) && final(repos)@ == old(repos)@,
            Err(RepoConfigError::DuplicateId(_)) => false,
        },
{
    let location = if let Some(url) = &repo.url {
        if validate_url(url.as_str()).is_err() {
            return Err(RepoConfigError::InvalidUrl(repo.id.clone()));
        }
        PkgRepoLocation::Remote(url.clone())
    } else if let Some(path) = &repo.path {
        PkgRepoLocation::Local(path.clone())
    } else {
        return Err(RepoConfigError::NoLocation(repo.id.clone()));
    };
    let ghost prev = repos@;
    repos.push(PkgRepo::new(repo.id.as_str(), location));
    assert(repos@.subrange(0, prev.len() as int) =~= prev);
    assert(repos_view(repos@) =~= repos_view(prev).push((repo.id@, configured_place(*repo))));
    Ok(())
}

/// Appends the enabled repositories of a configured list
fn add_repos(repos: &mut Vec<PkgRepo>, list: &Vec<RepoDeser>) -> (r: Result<(), RepoConfigError>)
    requires
        all_unloaded(old(repos)@),
    ensures
        match r {
            Ok(()) => all_located(list@) && repo_ids(final(repos)@) == repo_ids(old(repos)@)
                + enabled_ids(list@) && repos_view(final(repos)@) == repos_view(old(repos)@)
                + enabled_repos(list@) && all_unloaded(final(repos)@),
            Err(RepoConfigError::NoLocation(id)) => lacks_location(list@, id@),
            Err(RepoConfigError::InvalidUrl(id)) => has_invalid_url(list@, id@),
            Err(RepoConfigError::DuplicateId(_)) => false,
        },
{
    let ghost start = repo_ids(repos@);
    let ghost start_view = repos_view(repos@);
    let mut i: usize = 0;
    while i < list.len()
        invariant
            i <= list@.len(),
            all_located(list@.subrange(0, i as int)),
            repo_ids(repos@) == start + enabled_ids(list@.subrange(0, i as int)),
            repos_view(repos@) == start_view + enabled_repos(list@.subrange(0, i as int)),
            all_unloaded(repos@),
        decreases list@.len() - i,
    {
        let repo = &list[i];
        let ghost pre = list@.subrange(0, i + 1);
        assert(pre.drop_last() =~= list@.subrange(0, i as int));
        assert(pre.last() == list@[i as int]);
        if !repo.disable {
            let ghost prev = repos@;
            match add_repo(repos, repo) {
                Ok(()) => {
                    assert(repo_ids(repos@) =~= repo_ids(prev).push(repo.id@)) by {
                        assert forall|k: int| 0 <= k < prev.len() implies repos@[k] == prev[k] by {
                            assert(repos@.subrange(0, prev.len() as int)[k] == repos@[k]);
                        }
                        assert(repos_view(repos@)[prev.len() as int] == (repo.id@, configured_place(*repo)));
                    }
                    assert forall|k: int| 0 <= k < repos@.len() implies (#[trigger] repos@[k]).index is None by {
                        if k < prev.len() {
                            assert(repos@.subrange(0, prev.len() as int)[k] == repos@[k]);
                        }
                    }
                },
                Err(e) => {
                    assert(list@[i as int].id@ == repo.id@);
                    return Err(e);
                },
            }
        }
        assert(repo_ids(repos@) =~= start + enabled_ids(pre));
        assert(repos_view(repos@) =~= start_view + enabled_repos(pre));
        assert forall|j: int| 0 <= j < pre.len() && !#[trigger] pre[j].disable implies match pre[j].url {
            Some(u) => valid_url(u@),
            None => pre[j].path is Some,
        } by {
            if j < i {
                assert(list@.subrange(0, i as int)[j] == pre[j]);
            }
        }
        i = i + 1;
    }
    assert(list@.subrange(0, i as int) =~= list@);
    Ok(())
}

/// Finds an id that occurs twice among the repositories
fn find_duplicate_id(repos: &Vec<PkgRepo>) -> (r: Option<usize>)
    ensures
        match r {
            Some(i) => i < repos@.len() && exists|j: int|
                0 <= j < repos@.len() && j != i && #[trigger] repos@[j].id@ == repos@[i as int].id@,
            None => distinct_ids(repo_ids(repos@)),
        },
{
    let ghost ids = repo_ids(repos@);
    let mut i: usize = 0;
    while i < repos.len()
        invariant
            i <= repos@.len(),
            ids == repo_ids(repos@),
            forall|a: int, b: int| 0 <= a < b < i ==> #[trigger] ids[a] != #[trigger] ids[b],
        decreases repos@.len() - i,
    {
        let mut j: usize = 0;
        while j < i
            invariant
                j <= i < repos@.len(),
                ids == repo_ids(repos@),
                forall|a: int| 0 <= a < j ==> ids[a] != ids[i as int],
            decreases i - j,
        {
            if str_eq(repos[j].id.as_str(), repos[i].id.as_str()) {
                assert(repos@[j as int].id@ == repos@[i as int].id@);
                return Some(i);
            }
            j = j + 1;
        }
        i = i + 1;
    }
    None
}

/// What building the repository list from a configuration gives: on success the configured
/// repositories in priority order, each where its configuration points and none loaded yet
pub open spec fn repos_outcome(prefs: RepositoriesDeser, r: Result<Vec<PkgRepo>, RepoConfigError>) -> bool {
    match r {
        Ok(repos) => all_located(prefs.preferred@) && all_located(prefs.backup@) && repo_ids(repos@)
            == configured_ids(prefs) && repos_view(repos@) == configured_repos(prefs) && distinct_ids(
            repo_ids(repos@),
        ) && all_unloaded(repos@),
        Err(RepoConfigError::NoLocation(id)) => lacks_location(prefs.preferred@, id@)
            || lacks_location(prefs.backup@, id@),
        Err(RepoConfigError::InvalidUrl(id)) => has_invalid_url(prefs.preferred@, id@)
            || has_invalid_url(prefs.backup@, id@),
        Err(RepoConfigError::DuplicateId(id)) => all_located(prefs.preferred@) && all_located(
            prefs.backup@,
        ) && !distinct_ids(configured_ids(prefs)) && exists|i: int|
            0 <= i < configured_ids(prefs).len() && #[trigger] configured_ids(prefs)[i] == id@,
    }
}

/// Builds the list of repositories from the configuration, in priority order: the enabled
/// preferred repositories, then the default ones, then the enabled backups
pub fn read_repositories(prefs: &RepositoriesDeser) -> (r: Result<Vec<PkgRepo>, RepoConfigError>)
    ensures
        repos_outcome(*prefs, r),
        all_located(prefs.preferred@) && all_located(prefs.backup@) && distinct_ids(
            configured_ids(*prefs),
        ) <==> r is Ok,
{
    let mut repos: Vec<PkgRepo> = Vec::new();
    if let Err(e) = add_repos(&mut repos, &prefs.preferred) {
        return Err(e);
    }
    let defaults = PkgRepo::default_repos(prefs.enable_core, prefs.enable_std);
    let ghost prev = repos@;
    let mut defaults = defaults;
    proof {
        assert(repo_ids(defaults@) =~= default_ids(prefs.enable_core, prefs.enable_std));
    }
    let ghost dv = defaults@;
    repos.append(&mut defaults);
    assert(repos@ =~= prev + dv);
    assert(repo_ids(repos@) =~= repo_ids(prev) + default_ids(prefs.enable_core, prefs.enable_std));
    assert(repos_view(repos@) =~= repos_view(prev) + default_places(
        prefs.enable_core,
        prefs.enable_std,
    ));
    assert forall|k: int| 0 <= k < repos@.len() implies (#[trigger] repos@[k]).index is None by {
        if k >= prev.len() {
            assert(repos@[k] == dv[k - prev.len()]);
        }
    }
    if let Err(e) = add_repos(&mut repos, &prefs.backup) {
        return Err(e);
    }
    assert(repo_ids(repos@) =~= configured_ids(*prefs));
    assert(repos_view(repos@) =~= configured_repos(*prefs));
    match find_duplicate_id(&repos) {
        Some(i) => {
            proof {
                let ids = configured_ids(*prefs);
                assert(ids[i as int] == repos@[i as int].id@);
                let j = choose|j: int|
                    0 <= j < repos@.len() && j != i && #[trigger] repos@[j].id@ == repos@[i as int].id@;
                assert(ids[j] == repos@[j].id@);
                if j < i {
                    assert(!(ids[j] != ids[i as int]));
                } else {
                    assert(!(ids[i as int] != ids[j]));
                }
            }
            Err(RepoConfigError::DuplicateId(repos[i].id.clone()))
        },
        None => {
            let r: Result<Vec<PkgRepo>, RepoConfigError> = Ok(repos);
            assert(r matches Ok(v) && v@ == repos@);
            r
        },
    }
}

/// Preferences that are not about repositories
#[derive(Debug, Clone, Copy)]
pub struct ConfigPreferences {
    /// The global language
    pub language: Language,
}

/// The configured preferences
#[derive(Debug, Clone)]
pub struct PrefDeser {
    /// The configured repositories
    pub repositories: RepositoriesDeser,
    /// The configured language
    pub language: Language,
}

impl ConfigPreferences {
    /// Reads the preferences, and builds the list of repositories to add
    pub fn read(prefs: &PrefDeser) -> (r: Result<(ConfigPreferences, Vec<PkgRepo>), RepoConfigError>)
        ensures
            match r {
                Ok((c, repos)) => c.language == prefs.language && repos_outcome(
                    prefs.repositories,
                    Ok(repos),
                ),
                Err(e) => repos_outcome(prefs.repositories, Err(e)),
            },
            all_located(prefs.repositories.preferred@) && all_located(prefs.repositories.backup@)
                && distinct_ids(configured_ids(prefs.repositories)) <==> r is Ok,
    {
        match read_repositories(&prefs.repositories) {
            Ok(repos) => Ok((ConfigPreferences { language: prefs.language }, repos)),
            Err(e) => Err(e),
        }
    }
}

} // verus!
