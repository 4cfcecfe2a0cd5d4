use vstd::prelude::*;

use crate::text::str_eq;

verus! {

/// The side of the game, client or server
#[derive(Debug, Clone, Copy, PartialEq, Eq, Structural)]
pub enum Side {
    /// The client
    Client,
    /// The dedicated server
    Server,
}

/// The name of each side value in descriptor text
pub open spec fn side_name(v: Side) -> Seq<char> {
    match v {
        Side::Client => "client"@,
        Side::Server => "server"@,
    }
}

/// The side value that a name stands for
pub open spec fn side_from_name(s: Seq<char>) -> Option<Side> {
    if s == "client"@ {
        Some(Side::Client)
    } else if s == "server"@ {
        Some(Side::Server)
    } else {
        None
    }
}

impl Side {
    /// Parses a name into a value
    pub fn parse_from_str(string: &str) -> (r: Option<Self>)
        ensures
            r == side_from_name(string@),
    {
        if str_eq(string, "client") {
            Some(Side::Client)
        } else if str_eq(string, "server") {
            Some(Side::Server)
        } else {
            None
        }
    }

    /// The name of the value, which `parse_from_str` reads back
    pub fn to_str(&self) -> (r: &'static str)
        ensures
            r@ == side_name(*self),
    {
        match self {
            Side::Client => "client",
            Side::Server => "server",
        }
    }
}

/// Reading a side name back gives the value it was written from, and a text is read as a
/// value exactly when it is that value's name.
pub proof fn lemma_side_names_round_trip(v: Side, s: Seq<char>)
    ensures
        side_from_name(side_name(v)) == Some(v),
        side_from_name(s) matches Some(w) ==> side_name(w) == s,
        side_from_name(s) is None <==> forall|w: Side| side_name(w) != s,
{
    reveal_strlit("client");
    reveal_strlit("server");
    assert("client"@ != "server"@) by { assert("client"@[0] != "server"@[0]); }
    match v {
        Side::Client => {},
        Side::Server => {},
    }
    match side_from_name(s) {
        Some(w) => {
            assert(side_name(w) == s);
        },
        None => {
            assert forall|w: Side| side_name(w) != s by {
                match w {
                    Side::Client => {},
                    Side::Server => {},
                }
            }
        },
    }
}

/// Which modloaders a condition accepts
#[derive(Debug, Clone, Copy, PartialEq, Eq, Structural)]
pub enum ModloaderMatch {
    /// No modloader
    Vanilla,
    /// MinecraftForge
    Forge,
    /// NeoForged
    NeoForged,
    /// Fabric
    Fabric,
    /// Quilt
    Quilt,
    /// Any loader that runs Fabric mods
    FabricLike,
    /// Any loader that runs Forge mods
    ForgeLike,
}

/// The name of each modloader value in descriptor text
pub open spec fn modloader_name(v: ModloaderMatch) -> Seq<char> {
    match v {
        ModloaderMatch::Vanilla => "vanilla"@,
        ModloaderMatch::Forge => "forge"@,
        ModloaderMatch::NeoForged => "neoforged"@,
        ModloaderMatch::Fabric => "fabric"@,
        ModloaderMatch::Quilt => "quilt"@,
        ModloaderMatch::FabricLike => "fabriclike"@,
        ModloaderMatch::ForgeLike => "forgelike"@,
    }
}

/// The modloader value that a name stands for
pub open spec fn modloader_from_name(s: Seq<char>) -> Option<ModloaderMatch> {
    if s == "vanilla"@ {
        Some(ModloaderMatch::Vanilla)
    } else if s == "forge"@ {
        Some(ModloaderMatch::Forge)
    } else if s == "neoforged"@ {
        Some(ModloaderMatch::NeoForged)
    } else if s == "fabric"@ {
        Some(ModloaderMatch::Fabric)
    } else if s == "quilt"@ {
        Some(ModloaderMatch::Quilt)
    } else if s == "fabriclike"@ {
        Some(ModloaderMatch::FabricLike)
    } else if s == "forgelike"@ {
        Some(ModloaderMatch::ForgeLike)
    } else {
        None
    }
}

impl ModloaderMatch {
    /// Parses a name into a value
    pub fn parse_from_str(string: &str) -> (r: Option<Self>)
        ensures
            r == modloader_from_name(string@),
    {
        if str_eq(string, "vanilla") {
            Some(ModloaderMatch::Vanilla)
        } else if str_eq(string, "forge") {
            Some(ModloaderMatch::Forge)
        } else if str_eq(string, "neoforged") {
            Some(ModloaderMatch::NeoForged)
        } else if str_eq(string, "fabric") {
            Some(ModloaderMatch::Fabric)
        } else if str_eq(string, "quilt") {
            Some(ModloaderMatch::Quilt)
        } else if str_eq(string, "fabriclike") {
            Some(ModloaderMatch::FabricLike)
        } else if str_eq(string, "forgelike") {
            Some(ModloaderMatch::ForgeLike)
        } else {
            None
        }
    }

    /// The name of the value, which `parse_from_str` reads back
    pub fn to_str(&self) -> (r: &'static str)
        ensures
            r@ == modloader_name(*self),
    {
        match self {
            ModloaderMatch::Vanilla => "vanilla",
            ModloaderMatch::Forge => "forge",
            ModloaderMatch::NeoForged => "neoforged",
            ModloaderMatch::Fabric => "fabric",
            ModloaderMatch::Quilt => "quilt",
            ModloaderMatch::FabricLike => "fabriclike",
            ModloaderMatch::ForgeLike => "forgelike",
        }
    }
}

/// Reading a modloader name back gives the value it was written from, and a text is read as a
/// value exactly when it is that value's name.
pub proof fn lemma_modloader_names_round_trip(v: ModloaderMatch, s: Seq<char>)
    ensures
        modloader_from_name(modloader_name(v)) == Some(v),
        modloader_from_name(s) matches Some(w) ==> modloader_name(w) == s,
        modloader_from_name(s) is None <==> forall|w: ModloaderMatch| modloader_name(w) != s,
{
    reveal_strlit("vanilla");
    reveal_strlit("forge");
    reveal_strlit("neoforged");
    reveal_strlit("fabric");
    reveal_strlit("quilt");
    reveal_strlit("fabriclike");
    reveal_strlit("forgelike");
    assert("vanilla"@ != "forge"@) by { assert("vanilla"@.len() != "forge"@.len()); }
    assert("vanilla"@ != "neoforged"@) by { assert("vanilla"@.len() != "neoforged"@.len()); }
    assert("vanilla"@ != "fabric"@) by { assert("vanilla"@.len() != "fabric"@.len()); }
    assert("vanilla"@ != "quilt"@) by { assert("vanilla"@.len() != "quilt"@.len()); }
    assert("vanilla"@ != "fabriclike"@) by { assert("vanilla"@.len() != "fabriclike"@.len()); }
    assert("vanilla"@ != "forgelike"@) by { assert("vanilla"@.len() != "forgelike"@.len()); }
    assert("forge"@ != "neoforged"@) by { assert("forge"@.len() != "neoforged"@.len()); }
    assert("forge"@ != "fabric"@) by { assert("forge"@.len() != "fabric"@.len()); }
    assert("forge"@ != "quilt"@) by { assert("forge"@[0] != "quilt"@[0]); }
    assert("forge"@ != "fabriclike"@) by { assert("forge"@.len() != "fabriclike"@.len()); }
    assert("forge"@ != "forgelike"@) by { assert("forge"@.len() != "forgelike"@.len()); }
    assert("neoforged"@ != "fabric"@) by { assert("neoforged"@.len() != "fabric"@.len()); }
    assert("neoforged"@ != "quilt"@) by { assert("neoforged"@.len() != "quilt"@.len()); }
    assert("neoforged"@ != "fabriclike"@) by { assert("neoforged"@.len() != "fabriclike"@.len()); }
    assert("neoforged"@ != "forgelike"@) by { assert("neoforged"@[0] != "forgelike"@[0]); }
    assert("fabric"@ != "quilt"@) by { assert("fabric"@.len() != "quilt"@.len()); }
    assert("fabric"@ != "fabriclike"@) by { assert("fabric"@.len() != "fabriclike"@.len()); }
    assert("fabric"@ != "forgelike"@) by { assert("fabric"@.len() != "forgelike"@.len()); }
    assert("quilt"@ != "fabriclike"@) by { assert("quilt"@.len() != "fabriclike"@.len()); }
    assert("quilt"@ != "forgelike"@) by { assert("quilt"@.len() != "forgelike"@.len()); }
    assert("fabriclike"@ != "forgelike"@) by { assert("fabriclike"@.len() != "forgelike"@.len()); }
    match v {
        ModloaderMatch::Vanilla => {},
        ModloaderMatch::Forge => {},
        ModloaderMatch::NeoForged => {},
        ModloaderMatch::Fabric => {},
        ModloaderMatch::Quilt => {},
        ModloaderMatch::FabricLike => {},
        ModloaderMatch::ForgeLike => {},
    }
    match modloader_from_name(s) {
        Some(w) => {
            assert(modloader_name(w) == s);
        },
        None => {
            assert forall|w: ModloaderMatch| modloader_name(w) != s by {
                match w {
                    ModloaderMatch::Vanilla => {},
                    ModloaderMatch::Forge => {},
                    ModloaderMatch::NeoForged => {},
                    ModloaderMatch::Fabric => {},
                    ModloaderMatch::Quilt => {},
                    ModloaderMatch::FabricLike => {},
                    ModloaderMatch::ForgeLike => {},
                }
            }
        },
    }
}

/// Which server plugin loaders a condition accepts
#[derive(Debug, Clone, Copy, PartialEq, Eq, Structural)]
pub enum PluginLoaderMatch {
    /// No plugin loader
    Vanilla,
    /// Any loader that runs Bukkit plugins
    Bukkit,
    /// Paper
    Paper,
    /// Sponge
    Sponge,
}

/// The name of each plugin_loader value in descriptor text
pub open spec fn plugin_loader_name(v: PluginLoaderMatch) -> Seq<char> {
    match v {
        PluginLoaderMatch::Vanilla => "vanilla"@,
        PluginLoaderMatch::Bukkit => "bukkit"@,
        PluginLoaderMatch::Paper => "paper"@,
        PluginLoaderMatch::Sponge => "sponge"@,
    }
}

/// The plugin_loader value that a name stands for
pub open spec fn plugin_loader_from_name(s: Seq<char>) -> Option<PluginLoaderMatch> {
    if s == "vanilla"@ {
        Some(PluginLoaderMatch::Vanilla)
    } else if s == "bukkit"@ {
        Some(PluginLoaderMatch::Bukkit)
    } else if s == "paper"@ {
        Some(PluginLoaderMatch::Paper)
    } else if s == "sponge"@ {
        Some(PluginLoaderMatch::Sponge)
    } else {
        None
    }
}

impl PluginLoaderMatch {
    /// Parses a name into a value
    pub fn parse_from_str(string: &str) -> (r: Option<Self>)
        ensures
            r == plugin_loader_from_name(string@),
    {
        if str_eq(string, "vanilla") {
            Some(PluginLoaderMatch::Vanilla)
        } else if str_eq(string, "bukkit") {
            Some(PluginLoaderMatch::Bukkit)
        } else if str_eq(string, "paper") {
            Some(PluginLoaderMatch::Paper)
        } else if str_eq(string, "sponge") {
            Some(PluginLoaderMatch::Sponge)
        } else {
            None
        }
    }

    /// The name of the value, which `parse_from_str` reads back
    pub fn to_str(&self) -> (r: &'static str)
        ensures
            r@ == plugin_loader_name(*self),
    {
        match self {
            PluginLoaderMatch::Vanilla => "vanilla",
            PluginLoaderMatch::Bukkit => "bukkit",
            PluginLoaderMatch::Paper => "paper",
            PluginLoaderMatch::Sponge => "sponge",
        }
    }
}

/// Reading a plugin_loader name back gives the value it was written from, and a text is read as a
/// value exactly when it is that value's name.
pub proof fn lemma_plugin_loader_names_round_trip(v: PluginLoaderMatch, s: Seq<char>)
    ensures
        plugin_loader_from_name(plugin_loader_name(v)) == Some(v),
        plugin_loader_from_name(s) matches Some(w) ==> plugin_loader_name(w) == s,
        plugin_loader_from_name(s) is None <==> forall|w: PluginLoaderMatch| plugin_loader_name(w) != s,
{
    reveal_strlit("vanilla");
    reveal_strlit("bukkit");
    reveal_strlit("paper");
    reveal_strlit("sponge");
    assert("vanilla"@ != "bukkit"@) by { assert("vanilla"@.len() != "bukkit"@.len()); }
    assert("vanilla"@ != "paper"@) by { assert("vanilla"@.len() != "paper"@.len()); }
    assert("vanilla"@ != "sponge"@) by { assert("vanilla"@.len() != "sponge"@.len()); }
    assert("bukkit"@ != "paper"@) by { assert("bukkit"@.len() != "paper"@.len()); }
    assert("bukkit"@ != "sponge"@) by { assert("bukkit"@[0] != "sponge"@[0]); }
    assert("paper"@ != "sponge"@) by { assert("paper"@.len() != "sponge"@.len()); }
    match v {
        PluginLoaderMatch::Vanilla => {},
        PluginLoaderMatch::Bukkit => {},
        PluginLoaderMatch::Paper => {},
        PluginLoaderMatch::Sponge => {},
    }
    match plugin_loader_from_name(s) {
        Some(w) => {
            assert(plugin_loader_name(w) == s);
        },
        None => {
            assert forall|w: PluginLoaderMatch| plugin_loader_name(w) != s by {
                match w {
                    PluginLoaderMatch::Vanilla => {},
                    PluginLoaderMatch::Bukkit => {},
                    PluginLoaderMatch::Paper => {},
                    PluginLoaderMatch::Sponge => {},
                }
            }
        },
    }
}

/// Value for the operating system condition
#[derive(Debug, Clone, Copy, PartialEq, Eq, Structural)]
pub enum OSCondition {
    /// Windows
    Windows,
    /// Linux
    Linux,
    /// MacOS
    MacOS,
    /// Unix-like operating system
    Unix,
    /// Any other operating system
    Other,
}

/// The name of each os value in descriptor text
pub open spec fn os_name(v: OSCondition) -> Seq<char> {
    match v {
        OSCondition::Windows => "windows"@,
        OSCondition::Linux => "linux"@,
        OSCondition::MacOS => "macos"@,
        OSCondition::Unix => "unix"@,
        OSCondition::Other => "other"@,
    }
}

/// The os value that a name stands for
pub open spec fn os_from_name(s: Seq<char>) -> Option<OSCondition> {
    if s == "windows"@ {
        Some(OSCondition::Windows)
    } else if s == "linux"@ {
        Some(OSCondition::Linux)
    } else if s == "macos"@ {
        Some(OSCondition::MacOS)
    } else if s == "unix"@ {
        Some(OSCondition::Unix)
    } else if s == "other"@ {
        Some(OSCondition::Other)
    } else {
        None
    }
}

impl OSCondition {
    /// Parses a name into a value
    pub fn parse_from_str(string: &str) -> (r: Option<Self>)
        ensures
            r == os_from_name(string@),
    {
        if str_eq(string, "windows") {
            Some(OSCondition::Windows)
        } else if str_eq(string, "linux") {
            Some(OSCondition::Linux)
        } else if str_eq(string, "macos") {
            Some(OSCondition::MacOS)
        } else if str_eq(string, "unix") {
            Some(OSCondition::Unix)
        } else if str_eq(string, "other") {
            Some(OSCondition::Other)
        } else {
            None
        }
    }

    /// The name of the value, which `parse_from_str` reads back
    pub fn to_str(&self) -> (r: &'static str)
        ensures
            r@ == os_name(*self),
    {
        match self {
            OSCondition::Windows => "windows",
            OSCondition::Linux => "linux",
            OSCondition::MacOS => "macos",
            OSCondition::Unix => "unix",
            OSCondition::Other => "other",
        }
    }
}

/// Reading a os name back gives the value it was written from, and a text is read as a
/// value exactly when it is that value's name.
pub proof fn lemma_os_names_round_trip(v: OSCondition, s: Seq<char>)
    ensures
        os_from_name(os_name(v)) == Some(v),
        os_from_name(s) matches Some(w) ==> os_name(w) == s,
        os_from_name(s) is None <==> forall|w: OSCondition| os_name(w) != s,
{
    reveal_strlit("windows");
    reveal_strlit("linux");
    reveal_strlit("macos");
    reveal_strlit("unix");
    reveal_strlit("other");
    assert("windows"@ != "linux"@) by { assert("windows"@.len() != "linux"@.len()); }
    assert("windows"@ != "macos"@) by { assert("windows"@.len() != "macos"@.len()); }
    assert("windows"@ != "unix"@) by { assert("windows"@.len() != "unix"@.len()); }
    assert("windows"@ != "other"@) by { assert("windows"@.len() != "other"@.len()); }
    assert("linux"@ != "macos"@) by { assert("linux"@[0] != "macos"@[0]); }
    assert("linux"@ != "unix"@) by { assert("linux"@.len() != "unix"@.len()); }
    assert("linux"@ != "other"@) by { assert("linux"@[0] != "other"@[0]); }
    assert("macos"@ != "unix"@) by { assert("macos"@.len() != "unix"@.len()); }
    assert("macos"@ != "other"@) by { assert("macos"@[0] != "other"@[0]); }
    assert("unix"@ != "other"@) by { assert("unix"@.len() != "other"@.len()); }
    match v {
        OSCondition::Windows => {},
        OSCondition::Linux => {},
        OSCondition::MacOS => {},
        OSCondition::Unix => {},
        OSCondition::Other => {},
    }
    match os_from_name(s) {
        Some(w) => {
            assert(os_name(w) == s);
        },
        None => {
            assert forall|w: OSCondition| os_name(w) != s by {
                match w {
                    OSCondition::Windows => {},
                    OSCondition::Linux => {},
                    OSCondition::MacOS => {},
                    OSCondition::Unix => {},
                    OSCondition::Other => {},
                }
            }
        },
    }
}

/// Value for the architecture condition
#[derive(Debug, Clone, Copy, PartialEq, Eq, Structural)]
pub enum ArchCondition {
    /// x86
    X86,
    /// x86_64
    X86_64,
    /// ARM
    Arm,
    /// Any other architecture
    Other,
}

/// The name of each arch value in descriptor text
pub open spec fn arch_name(v: ArchCondition) -> Seq<char> {
    match v {
        ArchCondition::X86 => "x86"@,
        ArchCondition::X86_64 => "x86_64"@,
        ArchCondition::Arm => "arm"@,
        ArchCondition::Other => "other"@,
    }
}

/// The arch value that a name stands for
pub open spec fn arch_from_name(s: Seq<char>) -> Option<ArchCondition> {
    if s == "x86"@ {
        Some(ArchCondition::X86)
    } else if s == "x86_64"@ {
        Some(ArchCondition::X86_64)
    } else if s == "arm"@ {
        Some(ArchCondition::Arm)
    } else if s == "other"@ {
        Some(ArchCondition::Other)
    } else {
        None
    }
}

impl ArchCondition {
    /// Parses a name into a value
    pub fn parse_from_str(string: &str) -> (r: Option<Self>)
        ensures
            r == arch_from_name(string@),
    {
        if str_eq(string, "x86") {
            Some(ArchCondition::X86)
        } else if str_eq(string, "x86_64") {
            Some(ArchCondition::X86_64)
        } else if str_eq(string, "arm") {
            Some(ArchCondition::Arm)
        } else if str_eq(string, "other") {
            Some(ArchCondition::Other)
        } else {
            None
        }
    }

    /// The name of the value, which `parse_from_str` reads back
    pub fn to_str(&self) -> (r: &'static str)
        ensures
            r@ == arch_name(*self),
    {
        match self {
            ArchCondition::X86 => "x86",
            ArchCondition::X86_64 => "x86_64",
            ArchCondition::Arm => "arm",
            ArchCondition::Other => "other",
        }
    }
}

/// Reading a arch name back gives the value it was written from, and a text is read as a
/// value exactly when it is that value's name.
pub proof fn lemma_arch_names_round_trip(v: ArchCondition, s: Seq<char>)
    ensures
        arch_from_name(arch_name(v)) == Some(v),
        arch_from_name(s) matches Some(w) ==> arch_name(w) == s,
        arch_from_name(s) is None <==> forall|w: ArchCondition| arch_name(w) != s,
{
    reveal_strlit("x86");
    reveal_strlit("x86_64");
    reveal_strlit("arm");
    reveal_strlit("other");
    assert("x86"@ != "x86_64"@) by { assert("x86"@.len() != "x86_64"@.len()); }
    assert("x86"@ != "arm"@) by { assert("x86"@[0] != "arm"@[0]); }
    assert("x86"@ != "other"@) by { assert("x86"@.len() != "other"@.len()); }
    assert("x86_64"@ != "arm"@) by { assert("x86_64"@.len() != "arm"@.len()); }
    assert("x86_64"@ != "other"@) by { assert("x86_64"@.len() != "other"@.len()); }
    assert("arm"@ != "other"@) by { assert("arm"@.len() != "other"@.len()); }
    match v {
        ArchCondition::X86 => {},
        ArchCondition::X86_64 => {},
        ArchCondition::Arm => {},
        ArchCondition::Other => {},
    }
    match arch_from_name(s) {
        Some(w) => {
            assert(arch_name(w) == s);
        },
        None => {
            assert forall|w: ArchCondition| arch_name(w) != s by {
                match w {
                    ArchCondition::X86 => {},
                    ArchCondition::X86_64 => {},
                    ArchCondition::Arm => {},
                    ArchCondition::Other => {},
                }
            }
        },
    }
}

/// The stability channel of package content
#[derive(Debug, Clone, Copy, PartialEq, Eq, Structural)]
pub enum PackageStability {
    /// Only stable content
    Stable,
    /// The newest content, stable or not
    Latest,
}

/// The name of each stability value in descriptor text
pub open spec fn stability_name(v: PackageStability) -> Seq<char> {
    match v {
        PackageStability::Stable => "stable"@,
        PackageStability::Latest => "latest"@,
    }
}

/// The stability value that a name stands for
pub open spec fn stability_from_name(s: Seq<char>) -> Option<PackageStability> {
    if s == "stable"@ {
        Some(PackageStability::Stable)
    } else if s == "latest"@ {
        Some(PackageStability::Latest)
    } else {
        None
    }
}

impl PackageStability {
    /// Parses a name into a value
    pub fn parse_from_str(string: &str) -> (r: Option<Self>)
        ensures
            r == stability_from_name(string@),
    {
        if str_eq(string, "stable") {
            Some(PackageStability::Stable)
        } else if str_eq(string, "latest") {
            Some(PackageStability::Latest)
        } else {
            None
        }
    }

    /// The name of the value, which `parse_from_str` reads back
    pub fn to_str(&self) -> (r: &'static str)
        ensures
            r@ == stability_name(*self),
    {
        match self {
            PackageStability::Stable => "stable",
            PackageStability::Latest => "latest",
        }
    }
}

/// Reading a stability name back gives the value it was written from, and a text is read as a
/// value exactly when it is that value's name.
pub proof fn lemma_stability_names_round_trip(v: PackageStability, s: Seq<char>)
    ensures
        stability_from_name(stability_name(v)) == Some(v),
        stability_from_name(s) matches Some(w) ==> stability_name(w) == s,
        stability_from_name(s) is None <==> forall|w: PackageStability| stability_name(w) != s,
{
    reveal_strlit("stable");
    reveal_strlit("latest");
    assert("stable"@ != "latest"@) by { assert("stable"@[0] != "latest"@[0]); }
    match v {
        PackageStability::Stable => {},
        PackageStability::Latest => {},
    }
    match stability_from_name(s) {
        Some(w) => {
            assert(stability_name(w) == s);
        },
        None => {
            assert forall|w: PackageStability| stability_name(w) != s by {
                match w {
                    PackageStability::Stable => {},
                    PackageStability::Latest => {},
                }
            }
        },
    }
}

/// A language of the user interface
#[derive(Debug, Clone, Copy, PartialEq, Eq, Structural)]
pub enum Language {
    /// English (United States)
    AmericanEnglish,
    /// English (United Kingdom)
    BritishEnglish,
    /// Spanish
    Spanish,
    /// French
    French,
    /// German
    German,
    /// Italian
    Italian,
    /// Portuguese (Brazil)
    Portuguese,
    /// Japanese
    Japanese,
    /// Chinese (Simplified)
    Chinese,
}

/// The name of each language value in descriptor text
pub open spec fn language_name(v: Language) -> Seq<char> {
    match v {
        Language::AmericanEnglish => "en_us"@,
        Language::BritishEnglish => "en_gb"@,
        Language::Spanish => "es_es"@,
        Language::French => "fr_fr"@,
        Language::German => "de_de"@,
        Language::Italian => "it_it"@,
        Language::Portuguese => "pt_br"@,
        Language::Japanese => "ja_jp"@,
        Language::Chinese => "zh_cn"@,
    }
}

/// The language value that a name stands for
pub open spec fn language_from_name(s: Seq<char>) -> Option<Language> {
    if s == "en_us"@ {
        Some(Language::AmericanEnglish)
    } else if s == "en_gb"@ {
        Some(Language::BritishEnglish)
    } else if s == "es_es"@ {
        Some(Language::Spanish)
    } else if s == "fr_fr"@ {
        Some(Language::French)
    } else if s == "de_de"@ {
        Some(Language::German)
    } else if s == "it_it"@ {
        Some(Language::Italian)
    } else if s == "pt_br"@ {
        Some(Language::Portuguese)
    } else if s == "ja_jp"@ {
        Some(Language::Japanese)
    } else if s == "zh_cn"@ {
        Some(Language::Chinese)
    } else {
        None
    }
}

impl Language {
    /// Parses a name into a value
    pub fn parse_from_str(string: &str) -> (r: Option<Self>)
        ensures
            r == language_from_name(string@),
    {
        if str_eq(string, "en_us") {
            Some(Language::AmericanEnglish)
        } else if str_eq(string, "en_gb") {
            Some(Language::BritishEnglish)
        } else if str_eq(string, "es_es") {
            Some(Language::Spanish)
        } else if str_eq(string, "fr_fr") {
            Some(Language::French)
        } else if str_eq(string, "de_de") {
            Some(Language::German)
        } else if str_eq(string, "it_it") {
            Some(Language::Italian)
        } else if str_eq(string, "pt_br") {
            Some(Language::Portuguese)
        } else if str_eq(string, "ja_jp") {
            Some(Language::Japanese)
        } else if str_eq(string, "zh_cn") {
            Some(Language::Chinese)
        } else {
            None
        }
    }

    /// The name of the value, which `parse_from_str` reads back
    pub fn to_str(&self) -> (r: &'static str)
        ensures
            r@ == language_name(*self),
    {
        match self {
            Language::AmericanEnglish => "en_us",
            Language::BritishEnglish => "en_gb",
            Language::Spanish => "es_es",
            Language::French => "fr_fr",
            Language::German => "de_de",
            Language::Italian => "it_it",
            Language::Portuguese => "pt_br",
            Language::Japanese => "ja_jp",
            Language::Chinese => "zh_cn",
        }
    }
}

/// Reading a language name back gives the value it was written from, and a text is read as a
/// value exactly when it is that value's name.
pub proof fn lemma_language_names_round_trip(v: Language, s: Seq<char>)
    ensures
        language_from_name(language_name(v)) == Some(v),
        language_from_name(s) matches Some(w) ==> language_name(w) == s,
        language_from_name(s) is None <==> forall|w: Language| language_name(w) != s,
{
    reveal_strlit("en_us");
    reveal_strlit("en_gb");
    reveal_strlit("es_es");
    reveal_strlit("fr_fr");
    reveal_strlit("de_de");
    reveal_strlit("it_it");
    reveal_strlit("pt_br");
    reveal_strlit("ja_jp");
    reveal_strlit("zh_cn");
    assert("en_us"@ != "en_gb"@) by { assert("en_us"@[3] != "en_gb"@[3]); }
    assert("en_us"@ != "es_es"@) by { assert("en_us"@[1] != "es_es"@[1]); }
    assert("en_us"@ != "fr_fr"@) by { assert("en_us"@[0] != "fr_fr"@[0]); }
    assert("en_us"@ != "de_de"@) by { assert("en_us"@[0] != "de_de"@[0]); }
    assert("en_us"@ != "it_it"@) by { assert("en_us"@[0] != "it_it"@[0]); }
    assert("en_us"@ != "pt_br"@) by { assert("en_us"@[0] != "pt_br"@[0]); }
    assert("en_us"@ != "ja_jp"@) by { assert("en_us"@[0] != "ja_jp"@[0]); }
    assert("en_us"@ != "zh_cn"@) by { assert("en_us"@[0] != "zh_cn"@[0]); }
    assert("en_gb"@ != "es_es"@) by { assert("en_gb"@[1] != "es_es"@[1]); }
    assert("en_gb"@ != "fr_fr"@) by { assert("en_gb"@[0] != "fr_fr"@[0]); }
    assert("en_gb"@ != "de_de"@) by { assert("en_gb"@[0] != "de_de"@[0]); }
    assert("en_gb"@ != "it_it"@) by { assert("en_gb"@[0] != "it_it"@[0]); }
    assert("en_gb"@ != "pt_br"@) by { assert("en_gb"@[0] != "pt_br"@[0]); }
    assert("en_gb"@ != "ja_jp"@) by { assert("en_gb"@[0] != "ja_jp"@[0]); }
    assert("en_gb"@ != "zh_cn"@) by { assert("en_gb"@[0] != "zh_cn"@[0]); }
    assert("es_es"@ != "fr_fr"@) by { assert("es_es"@[0] != "fr_fr"@[0]); }
    assert("es_es"@ != "de_de"@) by { assert("es_es"@[0] != "de_de"@[0]); }
    assert("es_es"@ != "it_it"@) by { assert("es_es"@[0] != "it_it"@[0]); }
    assert("es_es"@ != "pt_br"@) by { assert("es_es"@[0] != "pt_br"@[0]); }
    assert("es_es"@ != "ja_jp"@) by { assert("es_es"@[0] != "ja_jp"@[0]); }
    assert("es_es"@ != "zh_cn"@) by { assert("es_es"@[0] != "zh_cn"@[0]); }
    assert("fr_fr"@ != "de_de"@) by { assert("fr_fr"@[0] != "de_de"@[0]); }
    assert("fr_fr"@ != "it_it"@) by { assert("fr_fr"@[0] != "it_it"@[0]); }
    assert("fr_fr"@ != "pt_br"@) by { assert("fr_fr"@[0] != "pt_br"@[0]); }
    assert("fr_fr"@ != "ja_jp"@) by { assert("fr_fr"@[0] != "ja_jp"@[0]); }
    assert("fr_fr"@ != "zh_cn"@) by { assert("fr_fr"@[0] != "zh_cn"@[0]); }
    assert("de_de"@ != "it_it"@) by { assert("de_de"@[0] != "it_it"@[0]); }
    assert("de_de"@ != "pt_br"@) by { assert("de_de"@[0] != "pt_br"@[0]); }
    assert("de_de"@ != "ja_jp"@) by { assert("de_de"@[0] != "ja_jp"@[0]); }
    assert("de_de"@ != "zh_cn"@) by { assert("de_de"@[0] != "zh_cn"@[0]); }
    assert("it_it"@ != "pt_br"@) by { assert("it_it"@[0] != "pt_br"@[0]); }
    assert("it_it"@ != "ja_jp"@) by { assert("it_it"@[0] != "ja_jp"@[0]); }
    assert("it_it"@ != "zh_cn"@) by { assert("it_it"@[0] != "zh_cn"@[0]); }
    assert("pt_br"@ != "ja_jp"@) by { assert("pt_br"@[0] != "ja_jp"@[0]); }
    assert("pt_br"@ != "zh_cn"@) by { assert("pt_br"@[0] != "zh_cn"@[0]); }
    assert("ja_jp"@ != "zh_cn"@) by { assert("ja_jp"@[0] != "zh_cn"@[0]); }
    match v {
        Language::AmericanEnglish => {},
        Language::BritishEnglish => {},
        Language::Spanish => {},
        Language::French => {},
        Language::German => {},
        Language::Italian => {},
        Language::Portuguese => {},
        Language::Japanese => {},
        Language::Chinese => {},
    }
    match language_from_name(s) {
        Some(w) => {
            assert(language_name(w) == s);
        },
        None => {
            assert forall|w: Language| language_name(w) != s by {
                match w {
                    Language::AmericanEnglish => {},
                    Language::BritishEnglish => {},
                    Language::Spanish => {},
                    Language::French => {},
                    Language::German => {},
                    Language::Italian => {},
                    Language::Portuguese => {},
                    Language::Japanese => {},
                    Language::Chinese => {},
                }
            }
        },
    }
}

/// The modloader that a game instance runs
#[derive(Debug, Clone, Copy, PartialEq, Eq, Structural)]
pub enum Modloader {
    /// No modloader
    Vanilla,
    /// MinecraftForge
    Forge,
    /// NeoForged
    NeoForged,
    /// Fabric
    Fabric,
    /// Quilt
    Quilt,
}

/// The plugin loader that a server instance runs
#[derive(Debug, Clone, Copy, PartialEq, Eq, Structural)]
pub enum PluginLoader {
    /// No plugin loader
    Vanilla,
    /// Paper
    Paper,
    /// Sponge
    Sponge,
}

impl ModloaderMatch {
    /// Whether a modloader is accepted
    pub open spec fn accepts(self, loader: Modloader) -> bool {
        match self {
            ModloaderMatch::Vanilla => loader == Modloader::Vanilla,
            ModloaderMatch::Forge => loader == Modloader::Forge,
            ModloaderMatch::NeoForged => loader == Modloader::NeoForged,
            ModloaderMatch::Fabric => loader == Modloader::Fabric,
            ModloaderMatch::Quilt => loader == Modloader::Quilt,
            ModloaderMatch::FabricLike => loader == Modloader::Fabric || loader == Modloader::Quilt,
            ModloaderMatch::ForgeLike => loader == Modloader::Forge || loader
                == Modloader::NeoForged,
        }
    }

    /// Checks whether a modloader is accepted
    pub fn matches(&self, loader: Modloader) -> (r: bool)
        ensures
            r == self.accepts(loader),
    {
        match self {
            ModloaderMatch::Vanilla => loader == Modloader::Vanilla,
            ModloaderMatch::Forge => loader == Modloader::Forge,
            ModloaderMatch::NeoForged => loader == Modloader::NeoForged,
            ModloaderMatch::Fabric => loader == Modloader::Fabric,
            ModloaderMatch::Quilt => loader == Modloader::Quilt,
            ModloaderMatch::FabricLike => loader == Modloader::Fabric || loader == Modloader::Quilt,
            ModloaderMatch::ForgeLike => loader == Modloader::Forge || loader
                == Modloader::NeoForged,
        }
    }
}

impl PluginLoaderMatch {
    /// Whether a plugin loader is accepted
    pub open spec fn accepts(self, loader: PluginLoader) -> bool {
        match self {
            PluginLoaderMatch::Vanilla => loader == PluginLoader::Vanilla,
            PluginLoaderMatch::Bukkit => loader == PluginLoader::Paper,
            PluginLoaderMatch::Paper => loader == PluginLoader::Paper,
            PluginLoaderMatch::Sponge => loader == PluginLoader::Sponge,
        }
    }

    /// Checks whether a plugin loader is accepted
    pub fn matches(&self, loader: PluginLoader) -> (r: bool)
        ensures
            r == self.accepts(loader),
    {
        match self {
            PluginLoaderMatch::Vanilla => loader == PluginLoader::Vanilla,
            PluginLoaderMatch::Bukkit => loader == PluginLoader::Paper,
            PluginLoaderMatch::Paper => loader == PluginLoader::Paper,
            PluginLoaderMatch::Sponge => loader == PluginLoader::Sponge,
        }
    }
}

impl OSCondition {
    /// Whether the condition holds on a system
    pub open spec fn accepts(self, system: OSCondition) -> bool {
        match self {
            OSCondition::Unix => system == OSCondition::Unix || system == OSCondition::Linux
                || system == OSCondition::MacOS,
            _ => system == self,
        }
    }

    /// Checks whether the condition holds on a system
    pub fn matches(&self, system: OSCondition) -> (r: bool)
        ensures
            r == self.accepts(system),
    {
        match self {
            OSCondition::Unix => system == OSCondition::Unix || system == OSCondition::Linux
                || system == OSCondition::MacOS,
            _ => system == *self,
        }
    }
}

} // verus!
