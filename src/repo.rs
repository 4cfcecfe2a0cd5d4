use vstd::prelude::*;
use vstd::string::*;

use crate::pkg::PackageContentType;
use crate::text::{owned, str_eq};

verus! {

/// Location of a package repository
#[derive(Debug, Clone, PartialEq, Eq)]
pub enum PkgRepoLocation {
    /// A repository on a remote server, by its base url
    Remote(String),
    /// A repository on the local filesystem, by its root directory
    Local(String),
    /// The built-in core repository
    Core,
}

impl PkgRepoLocation {
    /// The text that names the location: the url, the path, or `internal` for the core
    /// repository
    pub fn to_string(&self) -> (r: String)
        ensures
            r@ == match self {
                PkgRepoLocation::Remote(url) => url@,
                PkgRepoLocation::Local(path) => path@,
                PkgRepoLocation::Core => "internal"@,
            },
    {
        match self {
            PkgRepoLocation::Remote(url) => url.clone(),
            PkgRepoLocation::Local(path) => path.clone(),
            PkgRepoLocation::Core => owned("internal"),
        }
    }
}

/// A flag that a repository sets on a package
#[derive(Debug, Clone, Copy, PartialEq, Eq, Structural)]
pub enum PackageFlag {
    /// The package is no longer updated
    OutOfDate,
    /// The package should not be used any more
    Deprecated,
    /// The package has known security problems
    Insecure,
    /// The package is known to be harmful
    Malicious,
}

/// The entry of a package in a repository index
#[derive(Debug, Clone)]
pub struct RepoPkgEntry {
    /// The url of the package file
    pub url: Option<String>,
    /// The path of the package file, relative to the repository or absolute
    pub path: Option<String>,
    /// The content type of the package, a script when absent
    pub content_type: Option<PackageContentType>,
    /// The flags set on the package
    pub flags: Vec<PackageFlag>,
}

/// Descriptive facts about a repository
#[derive(Debug, Clone, Default)]
pub struct RepoMetadata {
    /// The display name of the repository
    pub name: Option<String>,
    /// A short description of the repository
    pub description: Option<String>,
    /// The version of the package manager that the repository was made for
    pub mcvm_version: Option<String>,
}

/// The index of a repository: its metadata and its packages by id
#[derive(Debug, Clone)]
pub struct RepoIndex {
    /// The metadata of the repository
    pub metadata: RepoMetadata,
    /// The packages of the repository, each id once
    pub packages: Vec<(String, RepoPkgEntry)>,
}

/// Where a package file can be fetched from
#[derive(Debug, Clone, PartialEq, Eq)]
pub enum PkgLocation {
    /// A file on the local filesystem
    Local(String),
    /// A file on a remote server, offered by a repository
    Remote { url: Option<String>, repo_id: String },
    /// A package of the built-in core repository
    Core,
}

/// The mathematical form of a package location
pub ghost enum LocationModel {
    Local(Seq<char>),
    Remote(Option<Seq<char>>, Seq<char>),
    Core,
}

impl View for PkgLocation {
    type V = LocationModel;

    open spec fn view(&self) -> LocationModel {
        match self {
            PkgLocation::Local(p) => LocationModel::Local(p@),
            PkgLocation::Remote { url, repo_id } => LocationModel::Remote(
                match url {
                    Some(u) => Some(u@),
                    None => None,
                },
                repo_id@,
            ),
            PkgLocation::Core => LocationModel::Core,
        }
    }
}

/// Why a repository could not answer
#[derive(Debug, Clone, Copy, PartialEq, Eq, Structural)]
pub enum RepoErrorKind {
    /// The index of the repository has not been loaded
    NotLoaded,
    /// A remote repository gives a package path that is not relative
    NonRelativeRemotePath,
    /// A package entry has neither a url nor a path
    NoLocation,
}

/// An error of one repository
#[derive(Debug, Clone, PartialEq, Eq)]
pub struct RepoError {
    /// The id of the repository
    pub repo: String,
    /// What went wrong
    pub kind: RepoErrorKind,
}

/// The answer of a repository for one package
#[derive(Debug, Clone)]
pub struct RepoQueryResult {
    /// The location to copy the package from
    pub location: PkgLocation,
    /// The content type of the package
    pub content_type: PackageContentType,
    /// The flags for the package
    pub flags: Vec<PackageFlag>,
}

/// The text with every leading `./` taken off
pub open spec fn trim_dot_slash(s: Seq<char>) -> Seq<char>
    decreases s.len(),
{
    if s.len() >= 2 && s[0] == '.' && s[1] == '/' {
        trim_dot_slash(s.subrange(2, s.len() as int))
    } else {
        s
    }
}

/// The text with a slash at its end
pub open spec fn with_slash(s: Seq<char>) -> Seq<char> {
    if s.len() > 0 && s.last() == '/' {
        s
    } else {
        s + "/"@
    }
}

/// Whether a path is relative: it does not start at the root
pub open spec fn is_relative(path: Seq<char>) -> bool {
    !(path.len() > 0 && path[0] == '/')
}

/// The url under which a repository serves its files
pub open spec fn api_url(base: Seq<char>) -> Seq<char> {
    base + "/api/mcvm"@
}

/// The url of the index of a remote repository
pub open spec fn index_url(base: Seq<char>) -> Seq<char> {
    api_url(base) + "/index.json"@
}

/// A relative path placed under a directory; under the empty directory it stays as it is
pub open spec fn join_path(dir: Seq<char>, path: Seq<char>) -> Seq<char> {
    if dir.len() == 0 {
        path
    } else {
        with_slash(dir) + path
    }
}

/// The mathematical form of a repository entry: url, path, content type and flags
pub type EntryModel = (Option<Seq<char>>, Option<Seq<char>>, Option<PackageContentType>, Seq<PackageFlag>);

impl View for RepoPkgEntry {
    type V = EntryModel;

    open spec fn view(&self) -> EntryModel {
        (
            match self.url {
                Some(u) => Some(u@),
                None => None,
            },
            match self.path {
                Some(p) => Some(p@),
                None => None,
            },
            self.content_type,
            self.flags@,
        )
    }
}

/// Where a package entry points, following the url and path rules of its repository
pub open spec fn location_of(
    entry: EntryModel,
    repo: PkgRepoLocation,
    repo_id: Seq<char>,
) -> Result<LocationModel, RepoErrorKind> {
    match entry.0 {
        Some(url) => Ok(LocationModel::Remote(Some(url), repo_id)),
        None => match entry.1 {
            Some(path) => match repo {
                PkgRepoLocation::Remote(base) => if is_relative(path) {
                    Ok(
                        LocationModel::Remote(
                            Some(with_slash(api_url(base@)) + trim_dot_slash(path)),
                            repo_id,
                        ),
                    )
                } else {
                    Err(RepoErrorKind::NonRelativeRemotePath)
                },
                PkgRepoLocation::Local(dir) => if is_relative(path) {
                    Ok(LocationModel::Local(join_path(dir@, path)))
                } else {
                    Ok(LocationModel::Local(path))
                },
                PkgRepoLocation::Core => Ok(LocationModel::Core),
            },
            None => Err(RepoErrorKind::NoLocation),
        },
    }
}

/// The url under which a repository serves its files
pub fn get_api_url(base: &str) -> (r: String)
    ensures
        r@ == api_url(base@),
{
    owned(base).concat("/api/mcvm")
}

/// The url of the index of a remote repository
pub fn get_index_url(base: &str) -> (r: String)
    ensures
        r@ == index_url(base@),
{
    get_api_url(base).concat("/index.json")
}

/// Takes every leading `./` off a path
fn trim_leading_dot_slash(path: &str) -> (r: String)
    ensures
        r@ == trim_dot_slash(path@),
{
    let n = path.unicode_len();
    let mut start: usize = 0;
    assert(path@.subrange(0, n as int) =~= path@);
    while start < n && start + 1 < n && path.get_char(start) == '.' && path.get_char(start + 1) == '/'
        invariant
            n == path@.len(),
            start <= n,
            trim_dot_slash(path@) == trim_dot_slash(path@.subrange(start as int, n as int)),
        decreases n - start,
    {
        let ghost rest = path@.subrange(start as int, n as int);
        assert(rest.subrange(2, rest.len() as int) =~= path@.subrange(start + 2, n as int));
        start = start + 2;
    }
    let r = owned(path.substring_char(start, n));
    proof {
        let rest = path@.subrange(start as int, n as int);
        assert(!(rest.len() >= 2 && rest[0] == '.' && rest[1] == '/'));
    }
    r
}

/// Puts a slash at the end of a text that has none
fn ensure_slash(s: String) -> (r: String)
    ensures
        r@ == with_slash(s@),
{
    let n = s.as_str().unicode_len();
    if n > 0 && s.as_str().get_char(n - 1) == '/' {
        s
    } else {
        s.concat("/")
    }
}

/// Whether a path is relative: it does not start at the root
pub fn path_is_relative(path: &str) -> (r: bool)
    ensures
        r == is_relative(path@),
{
    !(path.unicode_len() > 0 && path.get_char(0) == '/')
}

/// Gets the location of a package from its repository entry in line with url and path rules
pub fn get_package_location(entry: &RepoPkgEntry, repo_location: &PkgRepoLocation, repo_id: &str) -> (r:
    Result<PkgLocation, RepoErrorKind>)
    ensures
        match r {
            Ok(l) => location_of(entry@, *repo_location, repo_id@) == Ok::<
                LocationModel,
                RepoErrorKind,
            >(l@),
            Err(e) => location_of(entry@, *repo_location, repo_id@) == Err::<
                LocationModel,
                RepoErrorKind,
            >(e),
        },
{
    if let Some(url) = &entry.url {
        Ok(PkgLocation::Remote { url: Some(url.clone()), repo_id: owned(repo_id) })
    } else if let Some(path) = &entry.path {
        match repo_location {
            PkgRepoLocation::Remote(base) => {
                if path_is_relative(path.as_str()) {
                    let trimmed = trim_leading_dot_slash(path.as_str());
                    let url = ensure_slash(get_api_url(base.as_str()));
                    Ok(
                        PkgLocation::Remote {
                            url: Some(url.concat(trimmed.as_str())),
                            repo_id: owned(repo_id),
                        },
                    )
                } else {
                    Err(RepoErrorKind::NonRelativeRemotePath)
                }
            },
            PkgRepoLocation::Local(dir) => {
                if path_is_relative(path.as_str()) {
                    if dir.as_str().unicode_len() == 0 {
                        Ok(PkgLocation::Local(path.clone()))
                    } else {
                        Ok(PkgLocation::Local(ensure_slash(dir.clone()).concat(path.as_str())))
                    }
                } else {
                    Ok(PkgLocation::Local(path.clone()))
                }
            },
            PkgRepoLocation::Core => Ok(PkgLocation::Core),
        }
    } else {
        Err(RepoErrorKind::NoLocation)
    }
}

/// The content type that an entry gives, a script when it gives none
pub open spec fn entry_content_type(entry: EntryModel) -> PackageContentType {
    match entry.2 {
        Some(t) => t,
        None => PackageContentType::Script,
    }
}

/// Gets the content type of a package from the repository
pub fn get_content_type(entry: &RepoPkgEntry) -> (r: PackageContentType)
    ensures
        r == entry_content_type(entry@),
{
    if let Some(content_type) = &entry.content_type {
        *content_type
    } else {
        PackageContentType::Script
    }
}

/// The value of the first pair with the key, in a list of pairs
pub open spec fn first_value<V>(list: Seq<(Seq<char>, V)>, key: Seq<char>) -> Option<V>
    decreases list.len(),
{
    if list.len() == 0 {
        None
    } else {
        match first_value(list.drop_last(), key) {
            Some(v) => Some(v),
            None => if list.last().0 == key {
                Some(list.last().1)
            } else {
                None
            },
        }
    }
}

/// The packages of the built-in core repository, with their content types
pub open spec fn core_table() -> Seq<(Seq<char>, PackageContentType)> {
    seq![
        ("kitchen-sink"@, PackageContentType::Script),
        ("animated-textures"@, PackageContentType::Script),
        ("optifine-resource-packs"@, PackageContentType::Script),
    ]
}

/// The entry that the core repository gives each of its packages
pub open spec fn core_entry(content_type: PackageContentType) -> EntryModel {
    (None, None, Some(content_type), Seq::empty())
}

/// The packages of the core repository, with their content types
pub fn core_packages() -> (r: Vec<(String, PackageContentType)>)
    ensures
        r@.map_values(|p: (String, PackageContentType)| (p.0@, p.1)) == core_table(),
{
    let r = vec![
        (owned("kitchen-sink"), PackageContentType::Script),
        (owned("animated-textures"), PackageContentType::Script),
        (owned("optifine-resource-packs"), PackageContentType::Script),
    ];
    assert(r@.map_values(|p: (String, PackageContentType)| (p.0@, p.1)) =~= core_table());
    r
}

/// The pairs of an index as ids and entry models
pub open spec fn index_view(packages: Seq<(String, RepoPkgEntry)>) -> Seq<(Seq<char>, EntryModel)> {
    packages.map_values(|p: (String, RepoPkgEntry)| (p.0@, p.1@))
}

impl RepoIndex {
    /// The index's invariant: each package id is listed once
    pub open spec fn wf(&self) -> bool {
        distinct_keys(index_view(self.packages@))
    }

    /// Checks that each package id is listed once
    pub fn has_unique_ids(&self) -> (r: bool)
        ensures
            r == self.wf(),
    {
        let ghost lv = index_view(self.packages@);
        let mut b: usize = 0;
        while b < self.packages.len()
            invariant
                b <= self.packages@.len(),
                lv == index_view(self.packages@),
                forall|x: int, y: int| 0 <= x < y < b ==> #[trigger] lv[x].0 != #[trigger] lv[y].0,
            decreases self.packages@.len() - b,
        {
            let mut a: usize = 0;
            while a < b
                invariant
                    a <= b < self.packages@.len(),
                    lv == index_view(self.packages@),
                    forall|x: int| 0 <= x < a ==> lv[x].0 != lv[b as int].0,
                decreases b - a,
            {
                if str_eq(self.packages[a].0.as_str(), self.packages[b].0.as_str()) {
                    assert(lv[a as int].0 == lv[b as int].0);
                    return false;
                }
                a = a + 1;
            }
            b = b + 1;
        }
        true
    }
}

/// Where a repository is, as text
pub ghost enum RepoPlace {
    Remote(Seq<char>),
    Local(Seq<char>),
    Core,
}

/// Where a repository location points
pub open spec fn place_of(l: PkgRepoLocation) -> RepoPlace {
    match l {
        PkgRepoLocation::Remote(url) => RepoPlace::Remote(url@),
        PkgRepoLocation::Local(path) => RepoPlace::Local(path@),
        PkgRepoLocation::Core => RepoPlace::Core,
    }
}

/// The repositories of a list as their ids with where they are
pub open spec fn repos_view(repos: Seq<PkgRepo>) -> Seq<(Seq<char>, RepoPlace)> {
    repos.map_values(|r: PkgRepo| (r.id@, place_of(r.location)))
}

/// Whether no repository of the list has its index loaded yet
pub open spec fn all_unloaded(repos: Seq<PkgRepo>) -> bool {
    forall|k: int| 0 <= k < repos.len() ==> (#[trigger] repos[k]).index is None
}

/// The default repositories that are enabled: core, then std
pub open spec fn default_places(enable_core: bool, enable_std: bool) -> Seq<(Seq<char>, RepoPlace)> {
    (if enable_core {
        seq![("core"@, RepoPlace::Core)]
    } else {
        Seq::empty()
    }) + (if enable_std {
        seq![("std"@, RepoPlace::Remote("https://mcvm-launcher.github.io/packages/std"@))]
    } else {
        Seq::empty()
    })
}

/// A package repository
#[derive(Debug)]
pub struct PkgRepo {
    /// The identifier for the repository
    pub id: String,
    /// Where the repository is
    pub location: PkgRepoLocation,
    /// The loaded index, absent until it is loaded and for the core repository
    pub index: Option<RepoIndex>,
}

/// The mathematical form of a query result
pub ghost struct QueryModel {
    pub location: LocationModel,
    pub content_type: PackageContentType,
    pub flags: Seq<PackageFlag>,
}

impl View for RepoQueryResult {
    type V = QueryModel;

    open spec fn view(&self) -> QueryModel {
        QueryModel { location: self.location@, content_type: self.content_type, flags: self.flags@ }
    }
}

impl PkgRepo {
    /// The location of the repository
    pub open spec fn spec_location(&self) -> PkgRepoLocation {
        self.location
    }

    /// What the repository lists, once it can answer: its index, or the core table
    pub open spec fn listing(&self) -> Option<Seq<(Seq<char>, EntryModel)>> {
        match self.location {
            PkgRepoLocation::Core => Some(
                core_table().map_values(
                    |p: (Seq<char>, PackageContentType)| (p.0, core_entry(p.1)),
                ),
            ),
            _ => match self.index {
                Some(index) => Some(index_view(index.packages@)),
                None => None,
            },
        }
    }

    /// The version of the package manager that the loaded index was made for
    pub open spec fn index_version(&self) -> Option<Seq<char>> {
        match self.index {
            Some(index) => match index.metadata.mcvm_version {
                Some(v) => Some(v@),
                None => None,
            },
            None => None,
        }
    }

    /// The answer of the repository for a package id
    pub open spec fn answer(&self, id: Seq<char>) -> Result<Option<QueryModel>, RepoErrorKind> {
        match self.listing() {
            None => Err(RepoErrorKind::NotLoaded),
            Some(list) => match first_value(list, id) {
                None => Ok(None),
                Some(entry) => if self.location is Core {
                    Ok(
                        Some(
                            QueryModel {
                                location: LocationModel::Core,
                                content_type: entry_content_type(entry),
                                flags: entry.3,
                            },
                        ),
                    )
                } else {
                    match location_of(entry, self.location, self.id@) {
                        Ok(location) => Ok(
                            Some(
                                QueryModel {
                                    location,
                                    content_type: entry_content_type(entry),
                                    flags: entry.3,
                                },
                            ),
                        ),
                        Err(e) => Err(e),
                    }
                },
            },
        }
    }

    /// Creates a repository whose index is not loaded yet
    pub fn new(id: &str, location: PkgRepoLocation) -> (r: Self)
        ensures
            r.wf(),
            r.id@ == id@,
            r.spec_location() == location,
            r.index is None,
            location != PkgRepoLocation::Core ==> r.listing() is None,
    {
        Self { id: owned(id), location, index: None }
    }

    /// Creates the core repository
    pub fn core_repo() -> (r: Self)
        ensures
            r.id@ == "core"@,
            r.spec_location() == PkgRepoLocation::Core,
            r.index is None,
    {
        Self::new("core", PkgRepoLocation::Core)
    }

    /// Creates the standard remote repository
    pub fn std_repo() -> (r: Self)
        ensures
            r.id@ == "std"@,
            r.spec_location() matches PkgRepoLocation::Remote(url) && url@
                == "https://mcvm-launcher.github.io/packages/std"@,
            r.listing() is None,
            r.index is None,
    {
        Self::new(
            "std",
            PkgRepoLocation::Remote(owned("https://mcvm-launcher.github.io/packages/std")),
        )
    }

    /// The default repositories: core before std, so that std does not override core
    pub fn default_repos(enable_core: bool, enable_std: bool) -> (r: Vec<Self>)
        ensures
            r@.len() == (if enable_core {
                1int
            } else {
                0
            }) + (if enable_std {
                1int
            } else {
                0
            }),
            enable_core ==> r@[0].id@ == "core"@ && r@[0].spec_location() == PkgRepoLocation::Core,
            enable_std ==> r@.last().id@ == "std"@ && r@.last().spec_location() is Remote,
            repos_view(r@) == default_places(enable_core, enable_std),
            all_unloaded(r@),
    {
        let mut out: Vec<Self> = Vec::new();
        if enable_core {
            out.push(Self::core_repo());
        }
        if enable_std {
            out.push(Self::std_repo());
        }
        assert(repos_view(out@) =~= default_places(enable_core, enable_std));
        out
    }

    /// Gets the location of the repository
    pub fn get_location(&self) -> (r: &PkgRepoLocation)
        ensures
            *r == self.spec_location(),
    {
        &self.location
    }

    /// The name of the file that caches the index of the repository
    pub fn get_index_file_name(&self) -> (r: String)
        ensures
            r@ == self.id@ + ".json"@,
    {
        self.id.clone().concat(".json")
    }

    /// Whether the repository can answer queries: the core repository always can, others once
    /// their index is loaded
    pub fn is_loaded(&self) -> (r: bool)
        ensures
            r == self.listing() is Some,
    {
        match &self.location {
            PkgRepoLocation::Core => true,
            _ => self.index.is_some(),
        }
    }

    /// The repository's invariant: a loaded index lists each package id once
    pub open spec fn wf(&self) -> bool {
        self.index matches Some(index) ==> index.wf()
    }

    /// Stores a parsed index in the repository
    pub fn set_index(&mut self, index: RepoIndex)
        requires
            index.wf(),
        ensures
            final(self).wf(),
            final(self).id == old(self).id,
            final(self).spec_location() == old(self).spec_location(),
            old(self).spec_location() != PkgRepoLocation::Core ==> final(self).listing() == Some(
                index_view(index.packages@),
            ),
            final(self).index_version() == match index.metadata.mcvm_version {
                Some(v) => Some(v@),
                None => None,
            },
    {
        self.index = Some(index);
    }

    /// Asks the repository for a package
    pub fn query(&self, id: &str) -> (r: Result<Option<RepoQueryResult>, RepoError>)
        ensures
            match r {
                Ok(Some(q)) => self.answer(id@) == Ok::<Option<QueryModel>, RepoErrorKind>(
                    Some(q@),
                ),
                Ok(None) => self.answer(id@) == Ok::<Option<QueryModel>, RepoErrorKind>(None),
                Err(e) => self.answer(id@) == Err::<Option<QueryModel>, RepoErrorKind>(e.kind)
                    && e.repo@ == self.id@,
            },
    {
        match &self.location {
            PkgRepoLocation::Core => {
                let table = core_packages();
                let ghost tv = table@.map_values(|p: (String, PackageContentType)| (p.0@, p.1));
                let ghost lv = core_table().map_values(
                    |p: (Seq<char>, PackageContentType)| (p.0, core_entry(p.1)),
                );
                let mut i: usize = 0;
                while i < table.len()
                    invariant
                        self.location is Core,
                        i <= table@.len(),
                        tv == table@.map_values(|p: (String, PackageContentType)| (p.0@, p.1)),
                        tv == core_table(),
                        lv == core_table().map_values(
                            |p: (Seq<char>, PackageContentType)| (p.0, core_entry(p.1)),
                        ),
                        first_value(lv.subrange(0, i as int), id@) is None,
                    decreases table@.len() - i,
                {
                    assert(lv.subrange(0, i + 1).drop_last() =~= lv.subrange(0, i as int));
                    if str_eq(table[i].0.as_str(), id) {
                        assert(lv.subrange(0, i + 1).last() == lv[i as int]);
                        let q = RepoQueryResult {
                            location: PkgLocation::Core,
                            content_type: table[i].1,
                            flags: Vec::new(),
                        };
                        assert(q@.flags =~= Seq::<PackageFlag>::empty());
                        proof {
                            assert(tv[i as int] == (table@[i as int].0@, table@[i as int].1));
                            assert(lv[i as int] == (
                                core_table()[i as int].0,
                                core_entry(core_table()[i as int].1),
                            ));
                            assert(first_value(lv.subrange(0, i + 1), id@) == Some(lv[i as int].1));
                            lemma_first_value_prefix(lv, id@, i + 1);
                        }
                        return Ok(Some(q));
                    }
                    i = i + 1;
                }
                assert(lv.subrange(0, i as int) =~= lv);
                Ok(None)
            },
            _ => {
                match &self.index {
                    None => Err(RepoError { repo: self.id.clone(), kind: RepoErrorKind::NotLoaded }),
                    Some(index) => {
                        let ghost lv = index_view(index.packages@);
                        let mut i: usize = 0;
                        while i < index.packages.len()
                            invariant
                                !(self.location is Core),
                                self.index == Some(*index),
                                i <= index.packages@.len(),
                                lv == index_view(index.packages@),
                                first_value(lv.subrange(0, i as int), id@) is None,
                            decreases index.packages@.len() - i,
                        {
                            assert(lv.subrange(0, i + 1).drop_last() =~= lv.subrange(0, i as int));
                            let (key, entry) = &index.packages[i];
                            if str_eq(key.as_str(), id) {
                                assert(lv.subrange(0, i + 1).last() == lv[i as int]);
                                proof {
                                    assert(lv[i as int] == (key@, entry@));
                                    assert(first_value(lv.subrange(0, i + 1), id@) == Some(entry@));
                                    lemma_first_value_prefix(lv, id@, i + 1);
                                }
                                return match get_package_location(entry, &self.location, self.id.as_str()) {
                                    Ok(location) => Ok(
                                        Some(
                                            RepoQueryResult {
                                                location,
                                                content_type: get_content_type(entry),
                                                flags: copy_flags(&entry.flags),
                                            },
                                        ),
                                    ),
                                    Err(kind) => Err(RepoError { repo: self.id.clone(), kind }),
                                };
                            }
                            i = i + 1;
                        }
                        assert(lv.subrange(0, i as int) =~= lv);
                        Ok(None)
                    },
                }
            },
        }
    }
}

/// A copy of a list of flags
fn copy_flags(flags: &Vec<PackageFlag>) -> (r: Vec<PackageFlag>)
    ensures
        r@ == flags@,
{
    let mut out: Vec<PackageFlag> = Vec::new();
    let mut i: usize = 0;
    while i < flags.len()
        invariant
            i <= flags@.len(),
            out@ == flags@.subrange(0, i as int),
        decreases flags@.len() - i,
    {
        out.push(flags[i]);
        assert(out@ =~= flags@.subrange(0, i + 1));
        i = i + 1;
    }
    assert(flags@.subrange(0, flags@.len() as int) =~= flags@);
    out
}

/// When a key is found at position `n - 1` and not before, the first value of every longer
/// prefix is that one
proof fn lemma_first_value_prefix<V>(list: Seq<(Seq<char>, V)>, key: Seq<char>, n: int)
    requires
        0 < n <= list.len(),
        first_value(list.subrange(0, n), key) is Some,
    ensures
        first_value(list, key) == first_value(list.subrange(0, n), key),
    decreases list.len() - n,
{
    if n < list.len() {
        assert(list.subrange(0, n + 1).drop_last() =~= list.subrange(0, n));
        lemma_first_value_prefix(list, key, n + 1);
    } else {
        assert(list.subrange(0, n) =~= list);
    }
}

/// The first answer with a package among the repositories, in list order; a repository that
/// cannot answer is passed over
pub open spec fn first_answer(repos: Seq<PkgRepo>, id: Seq<char>) -> Option<QueryModel>
    decreases repos.len(),
{
    if repos.len() == 0 {
        None
    } else {
        match first_answer(repos.drop_last(), id) {
            Some(q) => Some(q),
            None => match repos.last().answer(id) {
                Ok(Some(q)) => Some(q),
                _ => None,
            },
        }
    }
}

/// The answer of a query over several repositories
pub struct QueryAllResult {
    /// The answer of the first repository that has the package
    pub found: Option<RepoQueryResult>,
    /// The errors of the repositories that were passed over
    pub skipped: Vec<RepoError>,
}

/// The errors of the repositories of a list that cannot answer for a package, in list order,
/// each as the repository id with what went wrong
pub open spec fn answer_errors(repos: Seq<PkgRepo>, id: Seq<char>) -> Seq<(Seq<char>, RepoErrorKind)>
    decreases repos.len(),
{
    if repos.len() == 0 {
        Seq::empty()
    } else {
        let rest = answer_errors(repos.drop_last(), id);
        match repos.last().answer(id) {
            Err(e) => rest.push((repos.last().id@, e)),
            _ => rest,
        }
    }
}

/// Repository errors as repository ids with what went wrong
pub open spec fn errors_view(errs: Seq<RepoError>) -> Seq<(Seq<char>, RepoErrorKind)> {
    errs.map_values(|e: RepoError| (e.repo@, e.kind))
}

/// Queries a list of repositories in order and returns the first answer with the package. A
/// repository that fails is passed over, and its error is kept; the repositories after the
/// first answer are not asked.
pub fn query_all(repos: &Vec<PkgRepo>, id: &str) -> (r: QueryAllResult)
    ensures
        match r.found {
            Some(q) => first_answer(repos@, id@) == Some(q@),
            None => first_answer(repos@, id@) is None,
        },
        exists|n: int|
            0 <= n <= repos@.len() && errors_view(r.skipped@) == answer_errors(
                repos@.subrange(0, n),
                id@,
            ) && (forall|j: int|
                0 <= j < n ==> !((#[trigger] repos@[j]).answer(id@) matches Ok(Some(_))))
                && (r.found is Some <==> n < repos@.len()) && (n < repos@.len() ==> repos@[n].answer(
                id@,
            ) matches Ok(Some(_))),
{
    let mut skipped: Vec<RepoError> = Vec::new();
    let mut i: usize = 0;
    assert(errors_view(skipped@) =~= answer_errors(repos@.subrange(0, 0), id@));
    while i < repos.len()
        invariant
            i <= repos@.len(),
            first_answer(repos@.subrange(0, i as int), id@) is None,
            errors_view(skipped@) == answer_errors(repos@.subrange(0, i as int), id@),
            forall|j: int| 0 <= j < i ==> !((#[trigger] repos@[j]).answer(id@) matches Ok(Some(_))),
        decreases repos@.len() - i,
    {
        let ghost pre = repos@.subrange(0, i + 1);
        assert(pre.drop_last() =~= repos@.subrange(0, i as int));
        assert(pre.last() == repos@[i as int]);
        match repos[i].query(id) {
            Ok(Some(q)) => {
                proof {
                    lemma_first_answer_prefix(repos@, id@, i + 1);
                }
                let r = QueryAllResult { found: Some(q), skipped };
                assert(errors_view(r.skipped@) == answer_errors(repos@.subrange(0, i as int), id@));
                return r;
            },
            Ok(None) => {},
            Err(e) => {
                let ghost prev = errors_view(skipped@);
                skipped.push(e);
                assert(errors_view(skipped@) =~= prev.push((e.repo@, e.kind)));
            },
        }
        i = i + 1;
    }
    assert(repos@.subrange(0, i as int) =~= repos@);
    let r = QueryAllResult { found: None, skipped };
    assert(errors_view(r.skipped@) == answer_errors(repos@.subrange(0, i as int), id@));
    r
}

/// What reading the cached index file of a repository gave
#[derive(Debug, Clone, Copy, PartialEq, Eq, Structural)]
pub enum CacheOutcome {
    /// There is no cached index file
    Missing,
    /// The cached index file exists but cannot be read
    Unreadable,
    /// The cached index file was read but does not parse
    Unparsable,
    /// The cached index file was read and parsed
    Parsed,
}

/// What to do next to make sure that the index of a repository is loaded
#[derive(Debug, Clone, Copy, PartialEq, Eq, Structural)]
pub enum IndexAction {
    /// Nothing: the index is loaded, or the repository has none
    Nothing,
    /// Read the cached index file
    ReadCache,
    /// Use the index parsed from the cache
    UseCache,
    /// Download or copy the index again
    Sync,
    /// Give up with an error
    Fail,
}

/// The next step of loading the index of a repository: a loaded repository and the core one
/// need nothing; otherwise the cache is read first, a parsed cache is used, a missing or
/// unparsable one leads to a new sync, and an unreadable one is an error. `cache` is the outcome
/// of reading the cache, absent before it was read.
pub fn index_step(repo: &PkgRepo, cache: Option<CacheOutcome>) -> (r: IndexAction)
    ensures
        r == (if repo.listing() is Some {
            IndexAction::Nothing
        } else {
            match cache {
                None => IndexAction::ReadCache,
                Some(CacheOutcome::Parsed) => IndexAction::UseCache,
                Some(CacheOutcome::Unreadable) => IndexAction::Fail,
                Some(_) => IndexAction::Sync,
            }
        }),
{
    if repo.is_loaded() {
        return IndexAction::Nothing;
    }
    match cache {
        None => IndexAction::ReadCache,
        Some(CacheOutcome::Parsed) => IndexAction::UseCache,
        Some(CacheOutcome::Unreadable) => IndexAction::Fail,
        Some(_) => IndexAction::Sync,
    }
}

/// Whether the repository answers with the package
pub open spec fn offers(repo: PkgRepo, id: Seq<char>) -> bool {
    repo.answer(id) matches Ok(Some(_))
}

/// Finds the repository that must be loaded next before a query for a package over the list
/// can be answered: the first one that is not loaded and not marked as failed, provided that no
/// repository before it already has the package. Repositories are thus loaded lazily, in
/// priority order, and loading stops at the first that has the package.
pub fn next_to_load(repos: &Vec<PkgRepo>, failed: &Vec<bool>, id: &str) -> (r: Option<usize>)
    requires
        failed@.len() == repos@.len(),
    ensures
        match r {
            Some(i) => i < repos@.len() && repos@[i as int].listing() is None && !failed@[i as int]
                && forall|j: int|
                0 <= j < i ==> !(offers(#[trigger] repos@[j], id@)) && (
                repos@[j].listing() is None ==> failed@[j]),
            None => forall|i: int|
                0 <= i < repos@.len() && (#[trigger] repos@[i]).listing() is None && !failed@[i]
                    ==> exists|j: int| 0 <= j < i && #[trigger] offers(repos@[j], id@),
        },
{
    let mut i: usize = 0;
    while i < repos.len()
        invariant
            i <= repos@.len(),
            failed@.len() == repos@.len(),
            forall|j: int|
                0 <= j < i ==> !(offers(#[trigger] repos@[j], id@)) && (
                repos@[j].listing() is None ==> failed@[j]),
        decreases repos@.len() - i,
    {
        if repos[i].is_loaded() {
            if let Ok(Some(_)) = repos[i].query(id) {
                assert forall|k: int|
                    0 <= k < repos@.len() && (#[trigger] repos@[k]).listing() is None && !failed@[k]
                        implies exists|j: int|
                    0 <= j < k && #[trigger] offers(repos@[j], id@) by {
                    assert(offers(repos@[i as int], id@));
                    if k <= i {
                        if k < i {
                        }
                    }
                }
                return None;
            }
        } else if !failed[i] {
            return Some(i);
        }
        i = i + 1;
    }
    None
}

/// Once a prefix of the repositories answers, every longer list gives that answer
proof fn lemma_first_answer_prefix(repos: Seq<PkgRepo>, id: Seq<char>, n: int)
    requires
        0 < n <= repos.len(),
        first_answer(repos.subrange(0, n), id) is Some,
    ensures
        first_answer(repos, id) == first_answer(repos.subrange(0, n), id),
    decreases repos.len() - n,
{
    if n < repos.len() {
        assert(repos.subrange(0, n + 1).drop_last() =~= repos.subrange(0, n));
        lemma_first_answer_prefix(repos, id, n + 1);
    } else {
        assert(repos.subrange(0, n) =~= repos);
    }
}

/// The entry for a package across repositories: that of the first repository, in list order,
/// which lists the package
pub open spec fn merged_entry(repos: Seq<PkgRepo>, id: Seq<char>) -> Option<EntryModel>
    decreases repos.len(),
{
    if repos.len() == 0 {
        None
    } else {
        match merged_entry(repos.drop_last(), id) {
            Some(e) => Some(e),
            None => match repos.last().listing() {
                Some(list) => first_value(list, id),
                None => None,
            },
        }
    }
}

/// Whether the ids of a listing are all different
pub open spec fn distinct_keys<V>(list: Seq<(Seq<char>, V)>) -> bool {
    forall|a: int, b: int| 0 <= a < b < list.len() ==> #[trigger] list[a].0 != #[trigger] list[b].0
}

/// Whether a key occurs in a listing
pub open spec fn has_key<V>(list: Seq<(Seq<char>, V)>, key: Seq<char>) -> bool {
    exists|a: int| 0 <= a < list.len() && #[trigger] list[a].0 == key
}

/// A key has a first value exactly when it occurs
proof fn lemma_first_value_has_key<V>(list: Seq<(Seq<char>, V)>, key: Seq<char>)
    ensures
        first_value(list, key) is Some <==> has_key(list, key),
    decreases list.len(),
{
    if list.len() > 0 {
        let rest = list.drop_last();
        lemma_first_value_has_key(rest, key);
        if has_key(list, key) {
            let a = choose|a: int| 0 <= a < list.len() && #[trigger] list[a].0 == key;
            if a < list.len() - 1 {
                assert(rest[a].0 == key);
            }
        }
        if has_key(rest, key) {
            let a = choose|a: int| 0 <= a < rest.len() && #[trigger] rest[a].0 == key;
            assert(list[a].0 == key);
        }
    }
}

/// A copy of an entry
fn copy_entry(e: &RepoPkgEntry) -> (r: RepoPkgEntry)
    ensures
        r@ == e@,
{
    RepoPkgEntry {
        url: match &e.url {
            Some(u) => Some(u.clone()),
            None => None,
        },
        path: match &e.path {
            Some(p) => Some(p.clone()),
            None => None,
        },
        content_type: e.content_type,
        flags: copy_flags(&e.flags),
    }
}

/// Whether an id is among the ids of a list of pairs
fn has_id(list: &Vec<(String, RepoPkgEntry)>, id: &str) -> (r: bool)
    ensures
        r == has_key(index_view(list@), id@),
{
    let ghost lv = index_view(list@);
    let mut i: usize = 0;
    while i < list.len()
        invariant
            i <= list@.len(),
            lv == index_view(list@),
            forall|a: int| 0 <= a < i ==> lv[a].0 != id@,
        decreases list@.len() - i,
    {
        if str_eq(list[i].0.as_str(), id) {
            assert(lv[i as int].0 == id@);
            return true;
        }
        i = i + 1;
    }
    false
}

/// Adds the pairs of a listing whose ids are not taken yet
fn merge_listing(
    out: &mut Vec<(String, RepoPkgEntry)>,
    listing: &Vec<(String, RepoPkgEntry)>,
    Ghost(prev): Ghost<Seq<PkgRepo>>,
    Ghost(next): Ghost<PkgRepo>,
)
    requires
        distinct_keys(index_view(old(out)@)),
        forall|id: Seq<char>| #[trigger]
            first_value(index_view(old(out)@), id) == merged_entry(prev, id),
        next.listing() == Some(index_view(listing@)),
    ensures
        distinct_keys(index_view(final(out)@)),
        forall|id: Seq<char>| #[trigger]
            first_value(index_view(final(out)@), id) == merged_entry(prev.push(next), id),
{
    let ghost lv = index_view(listing@);
    let ghost start = index_view(out@);
    let mut i: usize = 0;
    while i < listing.len()
        invariant
            i <= listing@.len(),
            lv == index_view(listing@),
            distinct_keys(index_view(out@)),
            forall|id: Seq<char>| #[trigger]
                first_value(index_view(out@), id) == match first_value(start, id) {
                    Some(e) => Some(e),
                    None => first_value(lv.subrange(0, i as int), id),
                },
            forall|id: Seq<char>| #[trigger] first_value(start, id) == merged_entry(prev, id),
        decreases listing@.len() - i,
    {
        let ghost before = index_view(out@);
        assert(lv.subrange(0, i + 1).drop_last() =~= lv.subrange(0, i as int));
        assert(lv[i as int] == (listing@[i as int].0@, listing@[i as int].1@));
        if !has_id(out, listing[i].0.as_str()) {
            out.push((listing[i].0.clone(), copy_entry(&listing[i].1)));
            proof {
                let key = listing@[i as int].0@;
                assert(index_view(out@).drop_last() =~= before);
                assert(index_view(out@).last() == lv[i as int]);
                assert forall|a: int, b: int|
                    0 <= a < b < index_view(out@).len() implies #[trigger] index_view(out@)[a].0
                    != #[trigger] index_view(out@)[b].0 by {
                    if b == before.len() {
                        assert(before[a].0 == index_view(out@)[a].0);
                    } else {
                        assert(before[a].0 == index_view(out@)[a].0);
                        assert(before[b].0 == index_view(out@)[b].0);
                    }
                }
                lemma_first_value_has_key(before, key);
                assert forall|id: Seq<char>| #[trigger]
                    first_value(index_view(out@), id) == match first_value(start, id) {
                        Some(e) => Some(e),
                        None => first_value(lv.subrange(0, i + 1), id),
                    } by {
                    assert(first_value(before, id) == match first_value(start, id) {
                        Some(e) => Some(e),
                        None => first_value(lv.subrange(0, i as int), id),
                    });
                }
            }
        } else {
            proof {
                let key = listing@[i as int].0@;
                lemma_first_value_has_key(before, key);
                assert forall|id: Seq<char>| #[trigger]
                    first_value(index_view(out@), id) == match first_value(start, id) {
                        Some(e) => Some(e),
                        None => first_value(lv.subrange(0, i + 1), id),
                    } by {
                    assert(first_value(before, id) == match first_value(start, id) {
                        Some(e) => Some(e),
                        None => first_value(lv.subrange(0, i as int), id),
                    });
                }
            }
        }
        i = i + 1;
    }
    proof {
        assert(lv.subrange(0, i as int) =~= lv);
        assert forall|id: Seq<char>| #[trigger]
            first_value(index_view(out@), id) == merged_entry(prev.push(next), id) by {
            assert(prev.push(next).drop_last() =~= prev);
        }
    }
}

/// Whether the error reports a repository of the list that cannot answer yet
pub open spec fn unloaded_repo(repos: Seq<PkgRepo>, e: RepoError) -> bool {
    e.kind == RepoErrorKind::NotLoaded && exists|i: int|
        0 <= i < repos.len() && repos[i].listing() is None && #[trigger] repos[i].id@ == e.repo@
}

/// Gets every package from a list of repositories. Where several repositories list a package,
/// the entry of the earliest one wins. Fails with the error of the first repository that
/// cannot answer.
pub fn get_all_packages(repos: &Vec<PkgRepo>) -> (r: Result<Vec<(String, RepoPkgEntry)>, RepoError>)
    ensures
        match r {
            Ok(out) => distinct_keys(index_view(out@)) && forall|id: Seq<char>| #[trigger]
                first_value(index_view(out@), id) == merged_entry(repos@, id),
            Err(e) => unloaded_repo(repos@, e),
        },
        (forall|i: int| 0 <= i < repos@.len() ==> (#[trigger] repos@[i]).listing() is Some) <==> r is Ok,
{
    let mut out: Vec<(String, RepoPkgEntry)> = Vec::new();
    let mut i: usize = 0;
    while i < repos.len()
        invariant
            i <= repos@.len(),
            distinct_keys(index_view(out@)),
            forall|id: Seq<char>| #[trigger]
                first_value(index_view(out@), id) == merged_entry(repos@.subrange(0, i as int), id),
            forall|j: int| 0 <= j < i ==> (#[trigger] repos@[j]).listing() is Some,
        decreases repos@.len() - i,
    {
        let repo = &repos[i];
        let listing = match &repo.location {
            PkgRepoLocation::Core => core_listing(),
            _ => match &repo.index {
                Some(index) => copy_listing(&index.packages),
                None => {
                    let e = RepoError { repo: repo.id.clone(), kind: RepoErrorKind::NotLoaded };
                    assert(repos@[i as int].listing() is None && repos@[i as int].id@ == e.repo@);
                    assert(unloaded_repo(repos@, e));
                    return Err(e);
                },
            },
        };
        assert(repos@.subrange(0, i + 1) =~= repos@.subrange(0, i as int).push(repos@[i as int]));
        merge_listing(&mut out, &listing, Ghost(repos@.subrange(0, i as int)), Ghost(repos@[i as int]));
        i = i + 1;
    }
    assert(repos@.subrange(0, i as int) =~= repos@);
    Ok(out)
}

/// The listing of the core repository as entries
fn core_listing() -> (r: Vec<(String, RepoPkgEntry)>)
    ensures
        index_view(r@) == core_table().map_values(
            |p: (Seq<char>, PackageContentType)| (p.0, core_entry(p.1)),
        ),
{
    let table = core_packages();
    let ghost tv = table@.map_values(|p: (String, PackageContentType)| (p.0@, p.1));
    let mut out: Vec<(String, RepoPkgEntry)> = Vec::new();
    let mut i: usize = 0;
    while i < table.len()
        invariant
            i <= table@.len(),
            tv == table@.map_values(|p: (String, PackageContentType)| (p.0@, p.1)),
            index_view(out@) == tv.subrange(0, i as int).map_values(
                |p: (Seq<char>, PackageContentType)| (p.0, core_entry(p.1)),
            ),
        decreases table@.len() - i,
    {
        let entry = RepoPkgEntry {
            url: None,
            path: None,
            content_type: Some(table[i].1),
            flags: Vec::new(),
        };
        assert(entry@.3 =~= Seq::<PackageFlag>::empty());
        let ghost prev = out@;
        let ghost item = (table@[i as int].0@, entry@);
        assert(item == (tv[i as int].0, core_entry(tv[i as int].1)));
        out.push((table[i].0.clone(), entry));
        assert(index_view(out@) =~= index_view(prev).push(item));
        assert(index_view(out@) =~= tv.subrange(0, i + 1).map_values(
            |p: (Seq<char>, PackageContentType)| (p.0, core_entry(p.1)),
        ));
        i = i + 1;
    }
    assert(tv.subrange(0, i as int) =~= tv);
    out
}

/// A copy of an index listing
fn copy_listing(list: &Vec<(String, RepoPkgEntry)>) -> (r: Vec<(String, RepoPkgEntry)>)
    ensures
        index_view(r@) == index_view(list@),
{
    let mut out: Vec<(String, RepoPkgEntry)> = Vec::new();
    let mut i: usize = 0;
    while i < list.len()
        invariant
            i <= list@.len(),
            index_view(out@) == index_view(list@).subrange(0, i as int),
        decreases list@.len() - i,
    {
        let ghost prev = out@;
        out.push((list[i].0.clone(), copy_entry(&list[i].1)));
        assert(index_view(out@) =~= index_view(prev).push((list@[i as int].0@, list@[i as int].1@)));
        assert(index_view(out@) =~= index_view(list@).subrange(0, i + 1));
        i = i + 1;
    }
    assert(index_view(list@).subrange(0, i as int) =~= index_view(list@));
    out
}

/// The first repository in the list wins: when it has a package, both a query over all the
/// repositories and the merged listing give its entry for the package.
pub proof fn lemma_first_repository_wins(repos: Seq<PkgRepo>, id: Seq<char>)
    requires
        repos.len() > 0,
    ensures
        repos[0].answer(id) is Ok && repos[0].answer(id)->Ok_0 is Some ==> first_answer(repos, id)
            == repos[0].answer(id)->Ok_0,
        repos[0].listing() is Some && first_value(repos[0].listing()->Some_0, id) is Some
            ==> merged_entry(repos, id) == first_value(repos[0].listing()->Some_0, id),
    decreases repos.len(),
{
    let rest = repos.drop_last();
    if repos.len() > 1 {
        lemma_first_repository_wins(rest, id);
        assert(rest[0] == repos[0]);
    } else {
        assert(rest.len() == 0);
        assert(first_answer(rest, id) is None);
        assert(merged_entry(rest, id) is None);
        assert(repos.last() == repos[0]);
    }
}

/// Whether the first version is newer than the second, or nothing when either text cannot be
/// read as a version
pub uninterp spec fn version_newer(a: Seq<char>, b: Seq<char>) -> Option<bool>;

/// Relies on `version_compare::compare_to` with `Cmp::Gt`: it compares the two texts as
/// versions, and fails when either cannot be read as one.
#[verifier::external_body]
fn compare_newer(a: &str, b: &str) -> (r: Option<bool>)
    ensures
        r == version_newer(a@, b@),
{
    version_compare::compare_to(a, b, version_compare::Cmp::Gt).ok()
}

/// Whether the outcome of comparing a repository's version with the program's asks for a
/// warning: only a repository that is certainly newer does
pub fn warns_for(comparison: Option<bool>) -> (r: bool)
    ensures
        r == (comparison == Some(true)),
{
    match comparison {
        Some(newer) => newer,
        None => false,
    }
}

impl PkgRepo {
    /// Checks the loaded index: whether it was made for a newer version of the package manager
    /// than `program_version`, which deserves a warning
    pub fn check_index(&self, program_version: &str) -> (r: bool)
        ensures
            r == (self.index_version() matches Some(v) && version_newer(v, program_version@)
                == Some(true)),
    {
        match &self.index {
            Some(index) => match &index.metadata.mcvm_version {
                Some(repo_version) => warns_for(compare_newer(repo_version.as_str(), program_version)),
                None => false,
            },
            None => false,
        }
    }

    /// Gets the number of packages in the repository
    pub fn get_package_count(&self) -> (r: Result<usize, RepoError>)
        ensures
            match r {
                Ok(n) => self.listing() matches Some(list) && n == list.len(),
                Err(e) => self.listing() is None && e.kind == RepoErrorKind::NotLoaded && e.repo@
                    == self.id@,
            },
    {
        match &self.location {
            PkgRepoLocation::Core => {
                let table = core_packages();
                assert(table@.len() == core_table().len());
                Ok(table.len())
            },
            _ => match &self.index {
                Some(index) => Ok(index.packages.len()),
                None => Err(RepoError { repo: self.id.clone(), kind: RepoErrorKind::NotLoaded }),
            },
        }
    }
}

} // verus!
