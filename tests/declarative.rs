use mcvm::conditions::EvalContext;
use mcvm::declarative::{
    eval_relations, is_admissible, validate_declarative_package, AddonKind, DeclarativeAddon,
    DeclarativeAddonVersion, DeclarativeConditionSet, DeclarativePackage, DeclarativeRelations,
    ValidationError,
};
use mcvm::pkg::{is_false, is_open_source, PackageContentType, PackageMetadata, PackageProperties};
use mcvm::target::{
    ArchCondition, Language, Modloader, ModloaderMatch, OSCondition, PackageStability,
    PluginLoader, Side,
};
use mcvm::versions::VersionPattern;

fn no_conditions() -> DeclarativeConditionSet {
    DeclarativeConditionSet {
        minecraft_versions: None,
        side: None,
        modloaders: None,
        plugin_loaders: None,
        stability: None,
        operating_systems: None,
        content_versions: None,
    }
}

fn env(version: &str) -> EvalContext {
    EvalContext {
        version: version.to_string(),
        versions: vec!["1.19".to_string(), "1.20".to_string()],
        side: Side::Client,
        modloader: Modloader::Quilt,
        plugin_loader: PluginLoader::Vanilla,
        os: OSCondition::Linux,
        arch: ArchCondition::X86_64,
        stability: PackageStability::Stable,
        language: Language::AmericanEnglish,
        features: vec![],
        vars: vec![],
        content_version: None,
    }
}

fn version(conditions: DeclarativeConditionSet, dep: &str) -> DeclarativeAddonVersion {
    let mut relations = DeclarativeRelations::default();
    relations.dependencies.push(dep.to_string());
    DeclarativeAddonVersion { version: None, conditional_properties: conditions, relations, url: None }
}

fn package(versions: Vec<DeclarativeAddonVersion>) -> DeclarativePackage {
    DeclarativePackage {
        meta: PackageMetadata::default(),
        properties: PackageProperties::default(),
        addons: vec![DeclarativeAddon { id: "main".into(), kind: AddonKind::Mod, versions, optional: false }],
        relations: DeclarativeRelations::default(),
    }
}

#[test]
fn version_gated_out_contributes_nothing() {
    let mut conditions = no_conditions();
    conditions.minecraft_versions = Some(vec![VersionPattern::Single("1.20".into())]);
    let pkg = package(vec![version(conditions, "fabric-api")]);
    let rel = eval_relations(&pkg, &env("1.19"));
    assert!(rel.deps.is_empty());
    assert!(rel.conflicts.is_empty());
    let rel = eval_relations(&pkg, &env("1.20"));
    assert_eq!(rel.deps.len(), 1);
    assert_eq!(rel.deps[0][0].value, "fabric-api");
    assert!(!rel.deps[0][0].explicit);
}

#[test]
fn admissibility_checks_each_field() {
    let ctx = env("1.20");
    let mut c = no_conditions();
    assert!(is_admissible(&c, &ctx));
    c.modloaders = Some(vec![ModloaderMatch::Forge, ModloaderMatch::FabricLike]);
    assert!(is_admissible(&c, &ctx));
    c.side = Some(Side::Server);
    assert!(!is_admissible(&c, &ctx));
    let mut c = no_conditions();
    c.stability = Some(PackageStability::Latest);
    assert!(!is_admissible(&c, &ctx));
    let mut c = no_conditions();
    c.operating_systems = Some(vec![OSCondition::Unix]);
    assert!(is_admissible(&c, &ctx));
    let mut c = no_conditions();
    c.content_versions = Some(vec!["2".into()]);
    let mut with_cv = env("1.20");
    with_cv.content_version = Some("1".into());
    assert!(!is_admissible(&c, &with_cv));
    assert!(is_admissible(&c, &ctx));
}

#[test]
fn relations_union_in_order() {
    let mut pkg = package(vec![version(no_conditions(), "a"), version(no_conditions(), "b")]);
    pkg.relations.explicit_dependencies.push("root".into());
    pkg.relations.conflicts.push("bad".into());
    pkg.relations.compats.push(("x".into(), "y".into()));
    let rel = eval_relations(&pkg, &env("1.20"));
    let deps: Vec<(String, bool)> = rel.deps.iter().map(|g| (g[0].value.clone(), g[0].explicit)).collect();
    assert_eq!(deps, vec![("root".to_string(), true), ("a".to_string(), false), ("b".to_string(), false)]);
    assert_eq!(rel.conflicts, vec!["bad".to_string()]);
    assert_eq!(rel.compats, vec![("x".to_string(), "y".to_string())]);
}

#[test]
fn declarative_validation() {
    let mut pkg = package(vec![version(no_conditions(), "a")]);
    assert_eq!(validate_declarative_package(&pkg), Ok(()));
    pkg.addons[0].versions[0].version = Some("1.0".into());
    let mut second = version(no_conditions(), "b");
    second.version = Some("1.0".into());
    pkg.addons[0].versions.push(second);
    assert_eq!(
        validate_declarative_package(&pkg),
        Err(ValidationError::DuplicateVersion("main".into(), "1.0".into()))
    );
    pkg.addons.clear();
    assert_eq!(validate_declarative_package(&pkg), Err(ValidationError::NoAddons));
}

#[test]
fn open_source_rules() {
    let mut meta = PackageMetadata::default();
    let mut props = PackageProperties::default();
    assert!(is_open_source(&meta, &props));
    meta.license = Some("ARR".into());
    assert!(!is_open_source(&meta, &props));
    meta.license = Some("All Rights Reserved".into());
    assert!(!is_open_source(&meta, &props));
    meta.license = Some("MIT".into());
    assert!(is_open_source(&meta, &props));
    meta.license = Some("ARR".into());
    props.open_source = Some(true);
    assert!(is_open_source(&meta, &props));
    meta.license = Some("MIT".into());
    props.open_source = Some(false);
    assert!(!is_open_source(&meta, &props));
    assert!(is_false(&false));
    assert!(!is_false(&true));
    assert_eq!(PackageContentType::default(), PackageContentType::Script);
}
