use vstd::prelude::*;

use crate::text::str_eq;

verus! {

/// Content type of a package
#[derive(Debug, Copy, Clone, PartialEq, Eq, Structural)]
pub enum PackageContentType {
    /// A package script
    Script,
    /// A declarative package
    Declarative,
}

impl Default for PackageContentType {
    fn default() -> (r: Self)
        ensures
            r == PackageContentType::Script,
    {
        PackageContentType::Script
    }
}

/// A required package
#[derive(Debug, Clone, PartialEq, Eq, PartialOrd, Ord)]
pub struct RequiredPackage {
    /// The package id that is required
    pub value: String,
    /// Whether this is an explicit dependency
    pub explicit: bool,
}

/// A recommended package
#[derive(Debug, Clone, PartialEq, Eq, PartialOrd, Ord)]
pub struct RecommendedPackage {
    /// The package id that is recommended
    pub value: String,
    /// Whether to invert this recommendation, recommending against the package
    pub invert: bool,
}

/// Whether a flag is off; such a flag is left out when a recommendation is written
pub fn is_false(x: &bool) -> (r: bool)
    ensures
        r == !*x,
{
    !*x
}

/// Descriptive facts about a package
#[derive(Debug, Clone, Default)]
pub struct PackageMetadata {
    /// The display name
    pub name: Option<String>,
    /// A short description
    pub description: Option<String>,
    /// The license identifier
    pub license: Option<String>,
}

/// Machine-actionable facts about a package
#[derive(Debug, Clone, Default)]
pub struct PackageProperties {
    /// Whether the package is open source, when the package says so
    pub open_source: Option<bool>,
    /// The content versions that the package offers
    pub content_versions: Option<Vec<String>>,
}

/// Whether a license identifier marks a package as proprietary
pub open spec fn is_proprietary_license(license: Seq<char>) -> bool {
    license == "ARR"@ || license == "All Rights Reserved"@
}

/// Whether a package counts as open source: the property wins when it is set, otherwise the
/// license decides
pub open spec fn spec_is_open_source(meta: PackageMetadata, properties: PackageProperties) -> bool {
    match properties.open_source {
        Some(open_source) => open_source,
        None => match meta.license {
            Some(license) => !is_proprietary_license(license@),
            None => true,
        },
    }
}

/// Checks if a package is open source
pub fn is_open_source(meta: &PackageMetadata, properties: &PackageProperties) -> (r: bool)
    ensures
        r == spec_is_open_source(*meta, *properties),
{
    // The property always takes precedence
    if let Some(open_source) = &properties.open_source {
        return *open_source;
    }
    // Infer from the license
    if let Some(license) = &meta.license {
        if str_eq(license.as_str(), "ARR") || str_eq(license.as_str(), "All Rights Reserved") {
            return false;
        }
    }
    true
}

/// The relations that evaluating a package produces
#[derive(Debug, Clone, Default)]
pub struct RelationsResult {
    /// Dependency groups: every group must be met, by any one of its members
    pub deps: Vec<Vec<RequiredPackage>>,
    /// Packages that cannot be installed together with this one
    pub conflicts: Vec<String>,
    /// Soft dependencies
    pub recommendations: Vec<RecommendedPackage>,
    /// Packages installed together with this one
    pub bundled: Vec<String>,
    /// Pairs of packages that unlock more behaviour when both are present
    pub compats: Vec<(String, String)>,
    /// Extension packages, installed only together with this one
    pub extensions: Vec<String>,
}

impl RelationsResult {
    /// Get the evaluated dependencies
    pub fn get_deps(&self) -> (r: &Vec<Vec<RequiredPackage>>)
        ensures
            r == &self.deps,
    {
        &self.deps
    }

    /// Get the evaluated conflicts
    pub fn get_conflicts(&self) -> (r: &Vec<String>)
        ensures
            r == &self.conflicts,
    {
        &self.conflicts
    }

    /// Get the evaluated recommendations
    pub fn get_recommendations(&self) -> (r: &Vec<RecommendedPackage>)
        ensures
            r == &self.recommendations,
    {
        &self.recommendations
    }

    /// Get the evaluated bundled packages
    pub fn get_bundled(&self) -> (r: &Vec<String>)
        ensures
            r == &self.bundled,
    {
        &self.bundled
    }

    /// Get the evaluated compats
    pub fn get_compats(&self) -> (r: &Vec<(String, String)>)
        ensures
            r == &self.compats,
    {
        &self.compats
    }

    /// Get the evaluated extensions
    pub fn get_extensions(&self) -> (r: &Vec<String>)
        ensures
            r == &self.extensions,
    {
        &self.extensions
    }
}

} // verus!
