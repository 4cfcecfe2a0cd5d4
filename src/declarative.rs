use vstd::prelude::*;

use crate::conditions::EvalContext;
use crate::pkg::{PackageMetadata, PackageProperties, RecommendedPackage, RelationsResult, RequiredPackage};
use crate::target::{ModloaderMatch, OSCondition, PackageStability, PluginLoaderMatch, Side};
use crate::text::{str_eq, strings_view};
use crate::versions::{list_contains, position, VersionPattern};

verus! {

/// The kind of content that an addon is
#[derive(Debug, Clone, Copy, PartialEq, Eq, Structural)]
pub enum AddonKind {
    /// A mod
    Mod,
    /// A resource pack
    ResourcePack,
    /// A shader pack
    Shader,
    /// A server plugin
    Plugin,
    /// A datapack
    Datapack,
}

/// The conditions under which an addon version can be picked; an absent field accepts
/// everything
#[derive(Debug, Clone)]
pub struct DeclarativeConditionSet {
    /// Game versions that the version works with
    pub minecraft_versions: Option<Vec<VersionPattern>>,
    /// The side that the version is for
    pub side: Option<Side>,
    /// The modloaders that the version works with
    pub modloaders: Option<Vec<ModloaderMatch>>,
    /// The plugin loaders that the version works with
    pub plugin_loaders: Option<Vec<PluginLoaderMatch>>,
    /// The stability of the version
    pub stability: Option<PackageStability>,
    /// The operating systems that the version works on
    pub operating_systems: Option<Vec<OSCondition>>,
    /// The content versions of the package that the version belongs to
    pub content_versions: Option<Vec<String>>,
}

/// Relations declared directly, without evaluation
#[derive(Debug, Clone, Default)]
pub struct DeclarativeRelations {
    /// Required packages
    pub dependencies: Vec<String>,
    /// Required packages that are installed as if the user had asked for them
    pub explicit_dependencies: Vec<String>,
    /// Packages that cannot be installed together with this one
    pub conflicts: Vec<String>,
    /// Extension packages
    pub extensions: Vec<String>,
    /// Packages installed together with this one
    pub bundled: Vec<String>,
    /// Pairs of packages that unlock more behaviour when both are present
    pub compats: Vec<(String, String)>,
    /// Soft dependencies
    pub recommendations: Vec<RecommendedPackage>,
}

/// One selectable version of an addon
#[derive(Debug, Clone)]
pub struct DeclarativeAddonVersion {
    /// The version id, unique within its addon
    pub version: Option<String>,
    /// When the version can be picked
    pub conditional_properties: DeclarativeConditionSet,
    /// What the version brings along
    pub relations: DeclarativeRelations,
    /// Where to download the version from
    pub url: Option<String>,
}

/// One kind of content offered by a package
#[derive(Debug, Clone)]
pub struct DeclarativeAddon {
    /// The id of the addon within its package
    pub id: String,
    /// The kind of content
    pub kind: AddonKind,
    /// The versions of the addon
    pub versions: Vec<DeclarativeAddonVersion>,
    /// Whether the addon may be left out
    pub optional: bool,
}

/// A statically described package
#[derive(Debug, Clone)]
pub struct DeclarativePackage {
    /// Descriptive facts about the package
    pub meta: PackageMetadata,
    /// Machine-actionable facts about the package
    pub properties: PackageProperties,
    /// The addons of the package
    pub addons: Vec<DeclarativeAddon>,
    /// Relations of the package as a whole
    pub relations: DeclarativeRelations,
}

/// Whether a version's conditions accept the environment
pub open spec fn admissible(c: DeclarativeConditionSet, ctx: EvalContext) -> bool {
    &&& match c.minecraft_versions {
        Some(ps) => exists|i: int|
            0 <= i < ps@.len() && (#[trigger] ps@[i])@.matches_one(
                ctx.version@,
                strings_view(ctx.versions@),
            ),
        None => true,
    }
    &&& match c.side {
        Some(s) => s == ctx.side,
        None => true,
    }
    &&& match c.modloaders {
        Some(ms) => exists|i: int| 0 <= i < ms@.len() && (#[trigger] ms@[i]).accepts(ctx.modloader),
        None => true,
    }
    &&& match c.plugin_loaders {
        Some(ms) => exists|i: int|
            0 <= i < ms@.len() && (#[trigger] ms@[i]).accepts(ctx.plugin_loader),
        None => true,
    }
    &&& match c.stability {
        Some(s) => !(s == PackageStability::Latest && ctx.stability == PackageStability::Stable),
        None => true,
    }
    &&& match c.operating_systems {
        Some(os) => exists|i: int| 0 <= i < os@.len() && (#[trigger] os@[i]).accepts(ctx.os),
        None => true,
    }
    &&& match (c.content_versions, ctx.content_version) {
        (Some(cvs), Some(cv)) => list_contains(strings_view(cvs@), cv@),
        _ => true,
    }
}

/// Checks whether a version's conditions accept the environment
pub fn is_admissible(c: &DeclarativeConditionSet, ctx: &EvalContext) -> (r: bool)
    ensures
        r == admissible(*c, *ctx),
{
    if let Some(ps) = &c.minecraft_versions {
        let mut found = false;
        let mut i: usize = 0;
        while i < ps.len() && !found
            invariant
                i <= ps@.len(),
                found ==> exists|k: int|
                    0 <= k < ps@.len() && (#[trigger] ps@[k])@.matches_one(
                        ctx.version@,
                        strings_view(ctx.versions@),
                    ),
                !found ==> forall|k: int|
                    0 <= k < i ==> !(#[trigger] ps@[k])@.matches_one(
                        ctx.version@,
                        strings_view(ctx.versions@),
                    ),
            decreases ps@.len() - i,
        {
            if ps[i].matches_single(ctx.version.as_str(), ctx.versions.as_slice()) {
                found = true;
            }
            i = i + 1;
        }
        if !found {
            return false;
        }
    }
    if let Some(s) = &c.side {
        if *s != ctx.side {
            return false;
        }
    }
    if let Some(ms) = &c.modloaders {
        let mut found = false;
        let mut i: usize = 0;
        while i < ms.len() && !found
            invariant
                i <= ms@.len(),
                found ==> exists|k: int| 0 <= k < ms@.len() && (#[trigger] ms@[k]).accepts(ctx.modloader),
                !found ==> forall|k: int| 0 <= k < i ==> !(#[trigger] ms@[k]).accepts(ctx.modloader),
            decreases ms@.len() - i,
        {
            if ms[i].matches(ctx.modloader) {
                found = true;
            }
            i = i + 1;
        }
        if !found {
            return false;
        }
    }
    if let Some(ms) = &c.plugin_loaders {
        let mut found = false;
        let mut i: usize = 0;
        while i < ms.len() && !found
            invariant
                i <= ms@.len(),
                found ==> exists|k: int|
                    0 <= k < ms@.len() && (#[trigger] ms@[k]).accepts(ctx.plugin_loader),
                !found ==> forall|k: int|
                    0 <= k < i ==> !(#[trigger] ms@[k]).accepts(ctx.plugin_loader),
            decreases ms@.len() - i,
        {
            if ms[i].matches(ctx.plugin_loader) {
                found = true;
            }
            i = i + 1;
        }
        if !found {
            return false;
        }
    }
    if let Some(s) = &c.stability {
        if *s == PackageStability::Latest && ctx.stability == PackageStability::Stable {
            return false;
        }
    }
    if let Some(os) = &c.operating_systems {
        let mut found = false;
        let mut i: usize = 0;
        while i < os.len() && !found
            invariant
                i <= os@.len(),
                found ==> exists|k: int| 0 <= k < os@.len() && (#[trigger] os@[k]).accepts(ctx.os),
                !found ==> forall|k: int| 0 <= k < i ==> !(#[trigger] os@[k]).accepts(ctx.os),
            decreases os@.len() - i,
        {
            if os[i].matches(ctx.os) {
                found = true;
            }
            i = i + 1;
        }
        if !found {
            return false;
        }
    }
    if let (Some(cvs), Some(cv)) = (&c.content_versions, &ctx.content_version) {
        if position(cvs.as_slice(), cv.as_str()).is_none() {
            return false;
        }
    }
    true
}

/// The relations of the admissible versions of an addon, in version order
pub open spec fn addon_selected(versions: Seq<DeclarativeAddonVersion>, ctx: EvalContext) -> Seq<
    DeclarativeRelations,
>
    decreases versions.len(),
{
    if versions.len() == 0 {
        Seq::empty()
    } else {
        let rest = addon_selected(versions.drop_last(), ctx);
        if admissible(versions.last().conditional_properties, ctx) {
            rest.push(versions.last().relations)
        } else {
            rest
        }
    }
}

/// The relations of the admissible versions of all addons, addon by addon
pub open spec fn addons_selected(addons: Seq<DeclarativeAddon>, ctx: EvalContext) -> Seq<
    DeclarativeRelations,
>
    decreases addons.len(),
{
    if addons.len() == 0 {
        Seq::empty()
    } else {
        addons_selected(addons.drop_last(), ctx) + addon_selected(addons.last().versions@, ctx)
    }
}

/// The relations that a package contributes in an environment: its own, then those of every
/// admissible addon version
pub open spec fn selected_relations(pkg: DeclarativePackage, ctx: EvalContext) -> Seq<
    DeclarativeRelations,
> {
    seq![pkg.relations] + addons_selected(pkg.addons@, ctx)
}

/// The items that a field gives over a list of relations, in order
pub open spec fn gather<T>(rels: Seq<DeclarativeRelations>, f: spec_fn(DeclarativeRelations) -> Seq<T>) -> Seq<T>
    decreases rels.len(),
{
    if rels.len() == 0 {
        Seq::empty()
    } else {
        gather(rels.drop_last(), f) + f(rels.last())
    }
}

/// Each id as a dependency group of its own
pub open spec fn singleton_groups(ids: Seq<String>, explicit: bool) -> Seq<Seq<(Seq<char>, bool)>> {
    ids.map_values(|s: String| seq![(s@, explicit)])
}

/// The dependency groups that relations declare: plain dependencies, then explicit ones
pub open spec fn dep_groups(r: DeclarativeRelations) -> Seq<Seq<(Seq<char>, bool)>> {
    singleton_groups(r.dependencies@, false) + singleton_groups(r.explicit_dependencies@, true)
}

/// The conflicts that relations declare
pub open spec fn conflict_ids(r: DeclarativeRelations) -> Seq<Seq<char>> {
    strings_view(r.conflicts@)
}

/// The extensions that relations declare
pub open spec fn extension_ids(r: DeclarativeRelations) -> Seq<Seq<char>> {
    strings_view(r.extensions@)
}

/// The bundled packages that relations declare
pub open spec fn bundled_ids(r: DeclarativeRelations) -> Seq<Seq<char>> {
    strings_view(r.bundled@)
}

/// The recommendations as ids with their invert flags
pub open spec fn recs_view(recs: Seq<RecommendedPackage>) -> Seq<(Seq<char>, bool)> {
    recs.map_values(|r: RecommendedPackage| (r.value@, r.invert))
}

/// The recommendations that relations declare
pub open spec fn rec_items(r: DeclarativeRelations) -> Seq<(Seq<char>, bool)> {
    recs_view(r.recommendations@)
}

/// Pairs of strings as pairs of texts
pub open spec fn pairs_view(ps: Seq<(String, String)>) -> Seq<(Seq<char>, Seq<char>)> {
    ps.map_values(|p: (String, String)| (p.0@, p.1@))
}

/// The compatibility pairs that relations declare
pub open spec fn compat_pairs(r: DeclarativeRelations) -> Seq<(Seq<char>, Seq<char>)> {
    pairs_view(r.compats@)
}

/// Dependency groups as lists of ids with their explicit flags
pub open spec fn groups_view(deps: Seq<Vec<RequiredPackage>>) -> Seq<Seq<(Seq<char>, bool)>> {
    deps.map_values(|g: Vec<RequiredPackage>| g@.map_values(|q: RequiredPackage| (q.value@, q.explicit)))
}

/// Whether evaluated relations hold exactly what a list of declared relations gives
pub open spec fn relations_of_list(out: RelationsResult, rels: Seq<DeclarativeRelations>) -> bool {
    &&& groups_view(out.deps@) == gather(rels, |r: DeclarativeRelations| dep_groups(r))
    &&& strings_view(out.conflicts@) == gather(rels, |r: DeclarativeRelations| conflict_ids(r))
    &&& strings_view(out.extensions@) == gather(rels, |r: DeclarativeRelations| extension_ids(r))
    &&& strings_view(out.bundled@) == gather(rels, |r: DeclarativeRelations| bundled_ids(r))
    &&& recs_view(out.recommendations@) == gather(rels, |r: DeclarativeRelations| rec_items(r))
    &&& pairs_view(out.compats@) == gather(rels, |r: DeclarativeRelations| compat_pairs(r))
}

/// Appends a list of ids
fn append_ids(out: &mut Vec<String>, src: &Vec<String>)
    ensures
        strings_view(final(out)@) == strings_view(old(out)@) + strings_view(src@),
{
    let ghost start = strings_view(out@);
    let mut i: usize = 0;
    while i < src.len()
        invariant
            i <= src@.len(),
            strings_view(out@) == start + strings_view(src@).subrange(0, i as int),
        decreases src@.len() - i,
    {
        let ghost prev = out@;
        out.push(src[i].clone());
        assert(strings_view(out@) =~= strings_view(prev).push(src@[i as int]@));
        assert(strings_view(out@) =~= start + strings_view(src@).subrange(0, i + 1));
        i = i + 1;
    }
    assert(strings_view(src@).subrange(0, i as int) =~= strings_view(src@));
}

/// Appends each id as a dependency group of its own
fn append_groups(out: &mut Vec<Vec<RequiredPackage>>, src: &Vec<String>, explicit: bool)
    ensures
        groups_view(final(out)@) == groups_view(old(out)@) + singleton_groups(src@, explicit),
{
    let ghost start = groups_view(out@);
    let mut i: usize = 0;
    while i < src.len()
        invariant
            i <= src@.len(),
            groups_view(out@) == start + singleton_groups(src@, explicit).subrange(0, i as int),
        decreases src@.len() - i,
    {
        let ghost prev = out@;
        let group = vec![RequiredPackage { value: src[i].clone(), explicit }];
        assert(group@.map_values(|q: RequiredPackage| (q.value@, q.explicit)) =~= seq![
            (src@[i as int]@, explicit),
        ]);
        out.push(group);
        assert(groups_view(out@) =~= groups_view(prev).push(seq![(src@[i as int]@, explicit)]));
        assert(groups_view(out@) =~= start + singleton_groups(src@, explicit).subrange(0, i + 1));
        i = i + 1;
    }
    assert(singleton_groups(src@, explicit).subrange(0, i as int) =~= singleton_groups(
        src@,
        explicit,
    ));
}

/// Appends recommendations
fn append_recs(out: &mut Vec<RecommendedPackage>, src: &Vec<RecommendedPackage>)
    ensures
        recs_view(final(out)@) == recs_view(old(out)@) + recs_view(src@),
{
    let ghost start = recs_view(out@);
    let mut i: usize = 0;
    while i < src.len()
        invariant
            i <= src@.len(),
            recs_view(out@) == start + recs_view(src@).subrange(0, i as int),
        decreases src@.len() - i,
    {
        let ghost prev = out@;
        out.push(RecommendedPackage { value: src[i].value.clone(), invert: src[i].invert });
        assert(recs_view(out@) =~= recs_view(prev).push((src@[i as int].value@, src@[i as int].invert)));
        assert(recs_view(out@) =~= start + recs_view(src@).subrange(0, i + 1));
        i = i + 1;
    }
    assert(recs_view(src@).subrange(0, i as int) =~= recs_view(src@));
}

/// Appends compatibility pairs
fn append_pairs(out: &mut Vec<(String, String)>, src: &Vec<(String, String)>)
    ensures
        pairs_view(final(out)@) == pairs_view(old(out)@) + pairs_view(src@),
{
    let ghost start = pairs_view(out@);
    let mut i: usize = 0;
    while i < src.len()
        invariant
            i <= src@.len(),
            pairs_view(out@) == start + pairs_view(src@).subrange(0, i as int),
        decreases src@.len() - i,
    {
        let ghost prev = out@;
        out.push((src[i].0.clone(), src[i].1.clone()));
        assert(pairs_view(out@) =~= pairs_view(prev).push((src@[i as int].0@, src@[i as int].1@)));
        assert(pairs_view(out@) =~= start + pairs_view(src@).subrange(0, i + 1));
        i = i + 1;
    }
    assert(pairs_view(src@).subrange(0, i as int) =~= pairs_view(src@));
}

/// Adds declared relations to evaluated ones
fn add_relations(out: &mut RelationsResult, rel: &DeclarativeRelations, Ghost(rels): Ghost<
    Seq<DeclarativeRelations>,
>)
    requires
        relations_of_list(*old(out), rels),
    ensures
        relations_of_list(*final(out), rels.push(*rel)),
{
    append_groups(&mut out.deps, &rel.dependencies, false);
    append_groups(&mut out.deps, &rel.explicit_dependencies, true);
    append_ids(&mut out.conflicts, &rel.conflicts);
    append_ids(&mut out.extensions, &rel.extensions);
    append_ids(&mut out.bundled, &rel.bundled);
    append_recs(&mut out.recommendations, &rel.recommendations);
    append_pairs(&mut out.compats, &rel.compats);
    proof {
        let next = rels.push(*rel);
        assert(next.drop_last() =~= rels);
        assert(groups_view(out.deps@) =~= gather(rels, |r: DeclarativeRelations| dep_groups(r))
            + dep_groups(*rel));
    }
}

/// Evaluates the relations of a declarative package in an environment: the package's own
/// relations, then those of every addon version whose conditions accept the environment
pub fn eval_relations(pkg: &DeclarativePackage, ctx: &EvalContext) -> (r: RelationsResult)
    ensures
        relations_of_list(r, selected_relations(*pkg, *ctx)),
{
    let mut out = RelationsResult {
        deps: Vec::new(),
        conflicts: Vec::new(),
        recommendations: Vec::new(),
        bundled: Vec::new(),
        compats: Vec::new(),
        extensions: Vec::new(),
    };
    proof {
        assert(groups_view(out.deps@) =~= Seq::<Seq<(Seq<char>, bool)>>::empty());
        assert(strings_view(out.conflicts@) =~= Seq::<Seq<char>>::empty());
        assert(strings_view(out.extensions@) =~= Seq::<Seq<char>>::empty());
        assert(strings_view(out.bundled@) =~= Seq::<Seq<char>>::empty());
        assert(recs_view(out.recommendations@) =~= Seq::<(Seq<char>, bool)>::empty());
        assert(pairs_view(out.compats@) =~= Seq::<(Seq<char>, Seq<char>)>::empty());
    }
    add_relations(&mut out, &pkg.relations, Ghost(Seq::empty()));
    let ghost head = Seq::<DeclarativeRelations>::empty().push(pkg.relations);
    assert(head =~= seq![pkg.relations]);
    let mut a: usize = 0;
    while a < pkg.addons.len()
        invariant
            a <= pkg.addons@.len(),
            head == seq![pkg.relations],
            relations_of_list(out, head + addons_selected(pkg.addons@.subrange(0, a as int), *ctx)),
        decreases pkg.addons@.len() - a,
    {
        let addon = &pkg.addons[a];
        let ghost done = head + addons_selected(pkg.addons@.subrange(0, a as int), *ctx);
        let mut v: usize = 0;
        assert(addon.versions@.subrange(0, 0) =~= Seq::<DeclarativeAddonVersion>::empty());
        assert(done + addon_selected(addon.versions@.subrange(0, 0), *ctx) =~= done);
        while v < addon.versions.len()
            invariant
                v <= addon.versions@.len(),
                relations_of_list(out, done + addon_selected(addon.versions@.subrange(0, v as int), *ctx)),
            decreases addon.versions@.len() - v,
        {
            let version = &addon.versions[v];
            let ghost sel = done + addon_selected(addon.versions@.subrange(0, v as int), *ctx);
            assert(addon.versions@.subrange(0, v + 1).drop_last() =~= addon.versions@.subrange(
                0,
                v as int,
            ));
            if is_admissible(&version.conditional_properties, ctx) {
                add_relations(&mut out, &version.relations, Ghost(sel));
                assert(sel.push(version.relations) =~= done + addon_selected(
                    addon.versions@.subrange(0, v + 1),
                    *ctx,
                ));
            }
            v = v + 1;
        }
        assert(addon.versions@.subrange(0, v as int) =~= addon.versions@);
        assert(pkg.addons@.subrange(0, a + 1).drop_last() =~= pkg.addons@.subrange(0, a as int));
        assert(done + addon_selected(addon.versions@, *ctx) =~= head + addons_selected(
            pkg.addons@.subrange(0, a + 1),
            *ctx,
        ));
        a = a + 1;
    }
    assert(pkg.addons@.subrange(0, a as int) =~= pkg.addons@);
    out
}

/// A version that no addon version accepts contributes nothing: when no version of any
/// addon is admissible, the package gives only its own relations.
pub proof fn lemma_nothing_admissible(pkg: DeclarativePackage, ctx: EvalContext)
    requires
        forall|a: int, v: int|
            0 <= a < pkg.addons@.len() && 0 <= v < pkg.addons@[a].versions@.len() ==> !admissible(
                (#[trigger] pkg.addons@[a].versions@[v]).conditional_properties,
                ctx,
            ),
    ensures
        selected_relations(pkg, ctx) == seq![pkg.relations],
{
    lemma_addons_nothing_admissible(pkg.addons@, ctx);
    assert(selected_relations(pkg, ctx) =~= seq![pkg.relations]);
}

proof fn lemma_addons_nothing_admissible(addons: Seq<DeclarativeAddon>, ctx: EvalContext)
    requires
        forall|a: int, v: int|
            0 <= a < addons.len() && 0 <= v < addons[a].versions@.len() ==> !admissible(
                (#[trigger] addons[a].versions@[v]).conditional_properties,
                ctx,
            ),
    ensures
        addons_selected(addons, ctx).len() == 0,
    decreases addons.len(),
{
    if addons.len() > 0 {
        let rest = addons.drop_last();
        assert forall|a: int, v: int|
            0 <= a < rest.len() && 0 <= v < rest[a].versions@.len() implies !admissible(
            (#[trigger] rest[a].versions@[v]).conditional_properties,
            ctx,
        ) by {
            assert(rest[a] == addons[a]);
        }
        lemma_addons_nothing_admissible(rest, ctx);
        let vs = addons.last().versions@;
        assert(vs =~= addons[addons.len() - 1].versions@.subrange(0, vs.len() as int));
        lemma_versions_nothing_admissible(vs, ctx, addons.len() - 1, addons);
    }
}

proof fn lemma_versions_nothing_admissible(
    versions: Seq<DeclarativeAddonVersion>,
    ctx: EvalContext,
    a: int,
    addons: Seq<DeclarativeAddon>,
)
    requires
        0 <= a < addons.len(),
        versions.len() <= addons[a].versions@.len(),
        versions == addons[a].versions@.subrange(0, versions.len() as int),
        forall|a2: int, v: int|
            0 <= a2 < addons.len() && 0 <= v < addons[a2].versions@.len() ==> !admissible(
                (#[trigger] addons[a2].versions@[v]).conditional_properties,
                ctx,
            ),
    ensures
        addon_selected(versions, ctx).len() == 0,
    decreases versions.len(),
{
    if versions.len() > 0 {
        let n = versions.len() as int;
        assert(versions.last() == addons[a].versions@[n - 1]);
        assert(versions.drop_last() =~= addons[a].versions@.subrange(0, n - 1));
        lemma_versions_nothing_admissible(versions.drop_last(), ctx, a, addons);
    }
}

/// A semantic error in a declarative package
#[derive(Debug, Clone, PartialEq, Eq)]
pub enum ValidationError {
    /// The package has no addons
    NoAddons,
    /// An addon has two versions with the same id; holds the addon id and the version id
    DuplicateVersion(String, String),
}

/// Whether a version has the given version id
pub open spec fn version_id_is(ver: DeclarativeAddonVersion, v: Seq<char>) -> bool {
    ver.version is Some && ver.version->Some_0@ == v
}

/// Whether two versions of an addon share a version id
pub open spec fn has_duplicate_version(versions: Seq<DeclarativeAddonVersion>, v: Seq<char>) -> bool {
    exists|i: int, j: int|
        0 <= i < j < versions.len() && version_id_is(#[trigger] versions[i], v) && version_id_is(
            #[trigger] versions[j],
            v,
        )
}

/// Whether the version ids of an addon are all different
pub open spec fn unique_versions(versions: Seq<DeclarativeAddonVersion>) -> bool {
    forall|i: int, j: int|
        0 <= i < j < versions.len() && (#[trigger] versions[i]).version is Some && (
        #[trigger] versions[j]).version is Some ==> versions[i].version->Some_0@
            != versions[j].version->Some_0@
}

/// Whether a declarative package passes the semantic checks
pub open spec fn valid_package(pkg: DeclarativePackage) -> bool {
    pkg.addons@.len() > 0 && forall|a: int|
        0 <= a < pkg.addons@.len() ==> unique_versions(#[trigger] pkg.addons@[a].versions@)
}

/// Finds two versions of an addon that share an id, giving the later one
fn find_duplicate_version(versions: &Vec<DeclarativeAddonVersion>) -> (r: Option<usize>)
    ensures
        match r {
            Some(j) => j < versions@.len() && versions@[j as int].version is Some
                && has_duplicate_version(versions@, versions@[j as int].version->Some_0@),
            None => unique_versions(versions@),
        },
{
    let mut j: usize = 0;
    while j < versions.len()
        invariant
            j <= versions@.len(),
            unique_versions(versions@.subrange(0, j as int)),
        decreases versions@.len() - j,
    {
        if let Some(b) = &versions[j].version {
            let mut i: usize = 0;
            while i < j
                invariant
                    i <= j < versions@.len(),
                    versions@[j as int].version == Some(*b),
                    forall|k: int| 0 <= k < i ==> !version_id_is(#[trigger] versions@[k], b@),
                decreases j - i,
            {
                if let Some(a) = &versions[i].version {
                    if str_eq(a.as_str(), b.as_str()) {
                        assert(has_duplicate_version(versions@, b@)) by {
                            assert(version_id_is(versions@[i as int], b@));
                            assert(version_id_is(versions@[j as int], b@));
                        }
                        return Some(j);
                    }
                }
                i = i + 1;
            }
        }
        proof {
            let pre = versions@.subrange(0, j + 1);
            assert forall|i2: int, j2: int|
                0 <= i2 < j2 < pre.len() && (#[trigger] pre[i2]).version is Some && (
                #[trigger] pre[j2]).version is Some implies pre[i2].version->Some_0@
                != pre[j2].version->Some_0@ by {
                assert(pre[i2] == versions@[i2]);
                assert(pre[j2] == versions@[j2]);
                if j2 < j {
                    assert(versions@.subrange(0, j as int)[i2] == pre[i2]);
                    assert(versions@.subrange(0, j as int)[j2] == pre[j2]);
                }
            }
        }
        j = j + 1;
    }
    assert(versions@.subrange(0, j as int) =~= versions@);
    None
}

/// Checks a declarative package: it has at least one addon, and the version ids of each addon
/// are all different
pub fn validate_declarative_package(pkg: &DeclarativePackage) -> (r: Result<(), ValidationError>)
    ensures
        r is Ok <==> valid_package(*pkg),
        r matches Err(ValidationError::NoAddons) ==> pkg.addons@.len() == 0,
        r matches Err(ValidationError::DuplicateVersion(a, v)) ==> exists|k: int|
            0 <= k < pkg.addons@.len() && (#[trigger] pkg.addons@[k]).id@ == a@
                && has_duplicate_version(pkg.addons@[k].versions@, v@),
{
    if pkg.addons.len() == 0 {
        return Err(ValidationError::NoAddons);
    }
    let mut a: usize = 0;
    while a < pkg.addons.len()
        invariant
            a <= pkg.addons@.len(),
            forall|k: int| 0 <= k < a ==> unique_versions(#[trigger] pkg.addons@[k].versions@),
        decreases pkg.addons@.len() - a,
    {
        let addon = &pkg.addons[a];
        match find_duplicate_version(&addon.versions) {
            Some(j) => {
                let v = match &addon.versions[j].version {
                    Some(v) => v.clone(),
                    None => String::new(),
                };
                assert(pkg.addons@[a as int].id@ == addon.id@);
                assert(!unique_versions(pkg.addons@[a as int].versions@)) by {
                    let (i2, j2) = choose|i2: int, j2: int|
                        0 <= i2 < j2 < addon.versions@.len() && version_id_is(
                            #[trigger] addon.versions@[i2],
                            v@,
                        ) && version_id_is(#[trigger] addon.versions@[j2], v@);
                }
                return Err(ValidationError::DuplicateVersion(addon.id.clone(), v));
            },
            None => {},
        }
        a = a + 1;
    }
    Ok(())
}

} // verus!
