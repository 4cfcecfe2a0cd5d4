use vstd::prelude::*;

use crate::lex::{TextPos, Token};
use crate::target::{
    arch_from_name, language_from_name, modloader_from_name, os_from_name,
    plugin_loader_from_name, side_from_name, stability_from_name, ArchCondition, Language,
    Modloader, ModloaderMatch, OSCondition, PackageStability, PluginLoader, PluginLoaderMatch,
    Side,
};
use crate::text::{str_eq, strings_view};
use crate::versions::{list_contains, parse_pattern, VersionPattern};

verus! {

/// A literal or a variable reference used inside a condition
#[derive(Debug, Clone, PartialEq, Eq)]
pub enum Value {
    /// Not filled in yet
    Unset,
    /// A literal text
    Literal(String),
    /// A reference to a variable by name
    Var(String),
}

impl Value {
    /// Whether the value has been filled in
    pub open spec fn is_filled(self) -> bool {
        !(self is Unset)
    }

    /// Checks whether the value has been filled in
    pub fn is_some(&self) -> (r: bool)
        ensures
            r == self.is_filled(),
    {
        match self {
            Value::Unset => false,
            _ => true,
        }
    }
}

/// An error in the structure of a condition
#[derive(Debug, Clone, PartialEq, Eq)]
pub enum ParseError {
    /// A token that cannot stand at this place
    UnexpectedToken(Token, TextPos),
    /// A word after a finished condition that is neither `and` nor `or`
    UnknownCombinator(String, TextPos),
    /// A word that names no kind of condition
    UnknownCondition(String, TextPos),
    /// A word that is not one of the values a condition accepts
    UnknownArgument(String, TextPos),
}

/// The value that an argument token stands for
pub open spec fn arg_of(tok: Token, pos: TextPos) -> Result<Value, ParseError> {
    match tok {
        Token::Str(text) => Ok(Value::Literal(text)),
        Token::Variable(name) => Ok(Value::Var(name)),
        _ => Err(ParseError::UnexpectedToken(tok, pos)),
    }
}

/// Reads a literal or a variable reference from a token
pub fn parse_arg(tok: &Token, pos: &TextPos) -> (r: Result<Value, ParseError>)
    ensures
        r == arg_of(*tok, *pos),
{
    match tok {
        Token::Str(text) => Ok(Value::Literal(text.clone())),
        Token::Variable(name) => Ok(Value::Var(name.clone())),
        _ => Err(ParseError::UnexpectedToken(tok.duplicate(), *pos)),
    }
}

/// A node of a condition tree. A slot that holds `None` is still to be filled by parsing.
#[derive(Debug, PartialEq, Eq)]
pub enum ConditionKind {
    /// An inverting not
    Not(Option<Box<ConditionKind>>),
    /// Both conditions hold
    And(Box<ConditionKind>, Option<Box<ConditionKind>>),
    /// Either condition holds
    Or(Box<ConditionKind>, Option<Box<ConditionKind>>),
    /// Check the game version
    Version(Value),
    /// Check the side
    Side(Option<Side>),
    /// Check the modloader
    Modloader(Option<ModloaderMatch>),
    /// Check the plugin loader
    PluginLoader(Option<PluginLoaderMatch>),
    /// Check a configured feature
    Feature(Value),
    /// Check that two values are equal
    Value(Value, Value),
    /// Check if a variable is defined
    Defined(Option<String>),
    /// A constant answer
    Const(Option<bool>),
    /// Check the operating system
    OS(Option<OSCondition>),
    /// Check the system architecture
    Arch(Option<ArchCondition>),
    /// Check the requested package stability
    Stability(Option<PackageStability>),
    /// Check the user's language
    Language(Option<Language>),
    /// Check the requested content version of the package
    ContentVersion(Value),
}

/// The empty condition node that a keyword starts
pub open spec fn kind_from_name(s: Seq<char>) -> Option<ConditionKind> {
    if s == "not"@ {
        Some(ConditionKind::Not(None))
    } else if s == "version"@ {
        Some(ConditionKind::Version(Value::Unset))
    } else if s == "side"@ {
        Some(ConditionKind::Side(None))
    } else if s == "modloader"@ {
        Some(ConditionKind::Modloader(None))
    } else if s == "plugin_loader"@ {
        Some(ConditionKind::PluginLoader(None))
    } else if s == "feature"@ {
        Some(ConditionKind::Feature(Value::Unset))
    } else if s == "value"@ {
        Some(ConditionKind::Value(Value::Unset, Value::Unset))
    } else if s == "defined"@ {
        Some(ConditionKind::Defined(None))
    } else if s == "os"@ {
        Some(ConditionKind::OS(None))
    } else if s == "arch"@ {
        Some(ConditionKind::Arch(None))
    } else if s == "stability"@ {
        Some(ConditionKind::Stability(None))
    } else if s == "language"@ {
        Some(ConditionKind::Language(None))
    } else if s == "content_version"@ {
        Some(ConditionKind::ContentVersion(Value::Unset))
    } else {
        None
    }
}

/// The result of reading an enumerated argument
pub open spec fn enum_arg<T>(arg: Option<T>, ident: String, pos: TextPos) -> Result<T, ParseError> {
    match arg {
        Some(v) => Ok(v),
        None => Err(ParseError::UnknownArgument(ident, pos)),
    }
}

/// Checks the result of reading an enumerated argument
fn check_enum_condition_argument<T>(arg: Option<T>, ident: &String, pos: &TextPos) -> (r: Result<
    T,
    ParseError,
>)
    ensures
        r == enum_arg(arg, *ident, *pos),
{
    match arg {
        Some(val) => Ok(val),
        None => Err(ParseError::UnknownArgument(ident.clone(), *pos)),
    }
}

/// The answer for a boolean word
pub open spec fn bool_from_name(s: Seq<char>) -> Option<bool> {
    if s == "true"@ {
        Some(true)
    } else if s == "false"@ {
        Some(false)
    } else {
        None
    }
}

/// The value that a variable has in a list of bindings: the first binding of the name
pub open spec fn lookup(vars: Seq<(Seq<char>, Seq<char>)>, name: Seq<char>) -> Option<Seq<char>>
    decreases vars.len(),
{
    if vars.len() == 0 {
        None
    } else if vars[0].0 == name {
        Some(vars[0].1)
    } else {
        lookup(vars.drop_first(), name)
    }
}

/// The variable bindings of a list of string pairs
pub open spec fn bindings_view(vars: Seq<(String, String)>) -> Seq<(Seq<char>, Seq<char>)> {
    vars.map_values(|p: (String, String)| (p.0@, p.1@))
}

/// Finds the value of a variable
pub fn lookup_var(vars: &Vec<(String, String)>, name: &str) -> (r: Option<String>)
    ensures
        match r {
            Some(s) => lookup(bindings_view(vars@), name@) == Some(s@),
            None => lookup(bindings_view(vars@), name@) is None,
        },
{
    let ghost vv = bindings_view(vars@);
    let mut i: usize = 0;
    assert(vv.subrange(0, vv.len() as int) =~= vv);
    while i < vars.len()
        invariant
            vv == bindings_view(vars@),
            vv.len() == vars@.len(),
            i <= vars@.len(),
            lookup(vv, name@) == lookup(vv.subrange(i as int, vv.len() as int), name@),
        decreases vars@.len() - i,
    {
        let ghost rest = vv.subrange(i as int, vv.len() as int);
        assert(rest[0] == vv[i as int]);
        if str_eq(vars[i].0.as_str(), name) {
            return Some(vars[i].1.clone());
        }
        assert(rest.drop_first() =~= vv.subrange(i + 1, vv.len() as int));
        i = i + 1;
    }
    assert(vv.subrange(i as int, vv.len() as int).len() == 0);
    None
}

/// The environment that a condition is evaluated against
pub struct EvalContext {
    /// The game version in use
    pub version: String,
    /// All versions of the game, oldest first
    pub versions: Vec<String>,
    /// The side of the instance
    pub side: Side,
    /// The modloader of the instance
    pub modloader: Modloader,
    /// The plugin loader of the instance
    pub plugin_loader: PluginLoader,
    /// The operating system
    pub os: OSCondition,
    /// The system architecture
    pub arch: ArchCondition,
    /// The requested package stability
    pub stability: PackageStability,
    /// The user's language
    pub language: Language,
    /// The enabled features
    pub features: Vec<String>,
    /// The variables that are defined, with their values
    pub vars: Vec<(String, String)>,
    /// The requested content version of the package, if any
    pub content_version: Option<String>,
}

impl EvalContext {
    /// The text that a value stands for in this context
    pub open spec fn resolve(self, v: Value) -> Option<Seq<char>> {
        match v {
            Value::Unset => None,
            Value::Literal(text) => Some(text@),
            Value::Var(name) => lookup(bindings_view(self.vars@), name@),
        }
    }

    /// Finds the text that a value stands for in this context
    pub fn resolve_value(&self, v: &Value) -> (r: Option<String>)
        ensures
            match r {
                Some(s) => self.resolve(*v) == Some(s@),
                None => self.resolve(*v) is None,
            },
    {
        match v {
            Value::Unset => None,
            Value::Literal(text) => Some(text.clone()),
            Value::Var(name) => lookup_var(&self.vars, name.as_str()),
        }
    }
}

impl ConditionKind {
    /// Whether every slot of the node and of its children is filled
    pub open spec fn finished(self) -> bool
        decreases self,
    {
        match self {
            ConditionKind::Not(c) => match c {
                Some(c) => c.finished(),
                None => false,
            },
            ConditionKind::And(l, r) | ConditionKind::Or(l, r) => l.finished() && match r {
                Some(r) => r.finished(),
                None => false,
            },
            ConditionKind::Version(v) | ConditionKind::Feature(v) | ConditionKind::ContentVersion(
                v,
            ) => v.is_filled(),
            ConditionKind::Side(v) => v is Some,
            ConditionKind::Modloader(v) => v is Some,
            ConditionKind::PluginLoader(v) => v is Some,
            ConditionKind::Defined(v) => v is Some,
            ConditionKind::Const(v) => v is Some,
            ConditionKind::OS(v) => v is Some,
            ConditionKind::Arch(v) => v is Some,
            ConditionKind::Stability(v) => v is Some,
            ConditionKind::Language(v) => v is Some,
            ConditionKind::Value(l, r) => l.is_filled() && r.is_filled(),
        }
    }

    /// The node after one more token, or the error that the token causes
    pub open spec fn step(self, tok: Token, pos: TextPos) -> Result<ConditionKind, ParseError>
        decreases self,
    {
        if self.finished() {
            match tok {
                Token::Ident(name) => if name@ == "and"@ {
                    Ok(ConditionKind::And(Box::new(self), None))
                } else if name@ == "or"@ {
                    Ok(ConditionKind::Or(Box::new(self), None))
                } else {
                    Err(ParseError::UnknownCombinator(name, pos))
                },
                _ => Err(ParseError::UnexpectedToken(tok, pos)),
            }
        } else {
            match self {
                ConditionKind::Not(slot) => match step_slot(slot, tok, pos) {
                    Ok(c) => Ok(ConditionKind::Not(Some(c))),
                    Err(e) => Err(e),
                },
                ConditionKind::And(l, slot) => match step_slot(slot, tok, pos) {
                    Ok(c) => Ok(ConditionKind::And(l, Some(c))),
                    Err(e) => Err(e),
                },
                ConditionKind::Or(l, slot) => match step_slot(slot, tok, pos) {
                    Ok(c) => Ok(ConditionKind::Or(l, Some(c))),
                    Err(e) => Err(e),
                },
                ConditionKind::Version(..) => match arg_of(tok, pos) {
                    Ok(v) => Ok(ConditionKind::Version(v)),
                    Err(e) => Err(e),
                },
                ConditionKind::Feature(..) => match arg_of(tok, pos) {
                    Ok(v) => Ok(ConditionKind::Feature(v)),
                    Err(e) => Err(e),
                },
                ConditionKind::ContentVersion(..) => match arg_of(tok, pos) {
                    Ok(v) => Ok(ConditionKind::ContentVersion(v)),
                    Err(e) => Err(e),
                },
                ConditionKind::Value(l, r) => match arg_of(tok, pos) {
                    Ok(v) => if l is Unset {
                        Ok(ConditionKind::Value(v, r))
                    } else {
                        Ok(ConditionKind::Value(l, v))
                    },
                    Err(e) => Err(e),
                },
                _ => match tok {
                    Token::Ident(name) => match self {
                        ConditionKind::Defined(..) => Ok(ConditionKind::Defined(Some(name))),
                        ConditionKind::Side(..) => match enum_arg(
                            side_from_name(name@),
                            name,
                            pos,
                        ) {
                            Ok(v) => Ok(ConditionKind::Side(Some(v))),
                            Err(e) => Err(e),
                        },
                        ConditionKind::Modloader(..) => match enum_arg(
                            modloader_from_name(name@),
                            name,
                            pos,
                        ) {
                            Ok(v) => Ok(ConditionKind::Modloader(Some(v))),
                            Err(e) => Err(e),
                        },
                        ConditionKind::PluginLoader(..) => match enum_arg(
                            plugin_loader_from_name(name@),
                            name,
                            pos,
                        ) {
                            Ok(v) => Ok(ConditionKind::PluginLoader(Some(v))),
                            Err(e) => Err(e),
                        },
                        ConditionKind::OS(..) => match enum_arg(os_from_name(name@), name, pos) {
                            Ok(v) => Ok(ConditionKind::OS(Some(v))),
                            Err(e) => Err(e),
                        },
                        ConditionKind::Arch(..) => match enum_arg(
                            arch_from_name(name@),
                            name,
                            pos,
                        ) {
                            Ok(v) => Ok(ConditionKind::Arch(Some(v))),
                            Err(e) => Err(e),
                        },
                        ConditionKind::Stability(..) => match enum_arg(
                            stability_from_name(name@),
                            name,
                            pos,
                        ) {
                            Ok(v) => Ok(ConditionKind::Stability(Some(v))),
                            Err(e) => Err(e),
                        },
                        ConditionKind::Language(..) => match enum_arg(
                            language_from_name(name@),
                            name,
                            pos,
                        ) {
                            Ok(v) => Ok(ConditionKind::Language(Some(v))),
                            Err(e) => Err(e),
                        },
                        _ => match enum_arg(bool_from_name(name@), name, pos) {
                            Ok(v) => Ok(ConditionKind::Const(Some(v))),
                            Err(e) => Err(e),
                        },
                    },
                    _ => Err(ParseError::UnexpectedToken(tok, pos)),
                },
            }
        }
    }

    /// Whether the condition holds in a context. A slot that is still empty never holds.
    pub open spec fn holds(self, ctx: EvalContext) -> bool
        decreases self,
    {
        match self {
            ConditionKind::Not(c) => match c {
                Some(c) => !c.holds(ctx),
                None => false,
            },
            ConditionKind::And(l, r) => match r {
                Some(r) => l.holds(ctx) && r.holds(ctx),
                None => false,
            },
            ConditionKind::Or(l, r) => match r {
                Some(r) => l.holds(ctx) || r.holds(ctx),
                None => false,
            },
            ConditionKind::Version(v) => match ctx.resolve(v) {
                Some(t) => parse_pattern(t).matches_one(ctx.version@, strings_view(ctx.versions@)),
                None => false,
            },
            ConditionKind::Side(s) => s == Some(ctx.side),
            ConditionKind::Modloader(m) => match m {
                Some(m) => m.accepts(ctx.modloader),
                None => false,
            },
            ConditionKind::PluginLoader(m) => match m {
                Some(m) => m.accepts(ctx.plugin_loader),
                None => false,
            },
            ConditionKind::Feature(v) => match ctx.resolve(v) {
                Some(t) => list_contains(strings_view(ctx.features@), t),
                None => false,
            },
            ConditionKind::Value(l, r) => match (ctx.resolve(l), ctx.resolve(r)) {
                (Some(a), Some(b)) => a == b,
                _ => false,
            },
            ConditionKind::Defined(name) => match name {
                Some(name) => lookup(bindings_view(ctx.vars@), name@) is Some,
                None => false,
            },
            ConditionKind::Const(b) => b == Some(true),
            ConditionKind::OS(o) => match o {
                Some(o) => o.accepts(ctx.os),
                None => false,
            },
            ConditionKind::Arch(a) => a == Some(ctx.arch),
            ConditionKind::Stability(s) => s == Some(ctx.stability),
            ConditionKind::Language(l) => l == Some(ctx.language),
            ConditionKind::ContentVersion(v) => match (ctx.resolve(v), ctx.content_version) {
                (Some(t), Some(cv)) => cv@ == t,
                _ => false,
            },
        }
    }
}

/// An empty child slot after one more token
pub open spec fn step_slot(slot: Option<Box<ConditionKind>>, tok: Token, pos: TextPos) -> Result<
    Box<ConditionKind>,
    ParseError,
>
    decreases slot,
{
    match slot {
        Some(c) => match c.step(tok, pos) {
            Ok(n) => Ok(Box::new(n)),
            Err(e) => Err(e),
        },
        None => match tok {
            Token::Ident(name) => match kind_from_name(name@) {
                Some(k) => Ok(Box::new(k)),
                None => Err(ParseError::UnknownCondition(name, pos)),
            },
            _ => Err(ParseError::UnexpectedToken(tok, pos)),
        },
    }
}

impl ConditionKind {
    /// Starts the empty condition node that a keyword names
    pub fn parse_from_str(string: &str) -> (r: Option<Self>)
        ensures
            r == kind_from_name(string@),
    {
        if str_eq(string, "not") {
            Some(ConditionKind::Not(None))
        } else if str_eq(string, "version") {
            Some(ConditionKind::Version(Value::Unset))
        } else if str_eq(string, "side") {
            Some(ConditionKind::Side(None))
        } else if str_eq(string, "modloader") {
            Some(ConditionKind::Modloader(None))
        } else if str_eq(string, "plugin_loader") {
            Some(ConditionKind::PluginLoader(None))
        } else if str_eq(string, "feature") {
            Some(ConditionKind::Feature(Value::Unset))
        } else if str_eq(string, "value") {
            Some(ConditionKind::Value(Value::Unset, Value::Unset))
        } else if str_eq(string, "defined") {
            Some(ConditionKind::Defined(None))
        } else if str_eq(string, "os") {
            Some(ConditionKind::OS(None))
        } else if str_eq(string, "arch") {
            Some(ConditionKind::Arch(None))
        } else if str_eq(string, "stability") {
            Some(ConditionKind::Stability(None))
        } else if str_eq(string, "language") {
            Some(ConditionKind::Language(None))
        } else if str_eq(string, "content_version") {
            Some(ConditionKind::ContentVersion(Value::Unset))
        } else {
            None
        }
    }

    /// Checks whether this condition is finished parsing
    pub fn is_finished_parsing(&self) -> (r: bool)
        ensures
            r == self.finished(),
        decreases self,
    {
        match self {
            ConditionKind::Not(condition) => match condition {
                Some(c) => c.is_finished_parsing(),
                None => false,
            },
            ConditionKind::And(left, right) | ConditionKind::Or(left, right) => {
                left.is_finished_parsing() && match right {
                    Some(c) => c.is_finished_parsing(),
                    None => false,
                }
            },
            ConditionKind::Version(val) | ConditionKind::Feature(val)
            | ConditionKind::ContentVersion(val) => val.is_some(),
            ConditionKind::Side(val) => val.is_some(),
            ConditionKind::Modloader(val) => val.is_some(),
            ConditionKind::PluginLoader(val) => val.is_some(),
            ConditionKind::Defined(val) => val.is_some(),
            ConditionKind::Const(val) => val.is_some(),
            ConditionKind::OS(val) => val.is_some(),
            ConditionKind::Arch(val) => val.is_some(),
            ConditionKind::Stability(val) => val.is_some(),
            ConditionKind::Language(val) => val.is_some(),
            ConditionKind::Value(left, right) => left.is_some() && right.is_some(),
        }
    }

    /// Feeds one token to the condition. On an error the condition is left as it was.
    pub fn parse(&mut self, tok: &Token, pos: &TextPos) -> (r: Result<(), ParseError>)
        ensures
            match r {
                Ok(()) => old(self).step(*tok, *pos) == Ok::<ConditionKind, ParseError>(
                    *final(self),
                ),
                Err(e) => old(self).step(*tok, *pos) == Err::<ConditionKind, ParseError>(e)
                    && *final(self) == *old(self),
            },
    {
        let mut current = ConditionKind::Const(None);
        std::mem::swap(self, &mut current);
        match advance(current, tok, pos) {
            Ok(next) => {
                *self = next;
                Ok(())
            },
            Err((previous, e)) => {
                *self = previous;
                Err(e)
            },
        }
    }

    /// Evaluates the condition in a context, left to right with short circuits
    pub fn evaluate(&self, ctx: &EvalContext) -> (r: bool)
        ensures
            r == self.holds(*ctx),
        decreases self,
    {
        match self {
            ConditionKind::Not(c) => match c {
                Some(c) => !c.evaluate(ctx),
                None => false,
            },
            ConditionKind::And(l, r) => match r {
                Some(r) => l.evaluate(ctx) && r.evaluate(ctx),
                None => false,
            },
            ConditionKind::Or(l, r) => match r {
                Some(r) => l.evaluate(ctx) || r.evaluate(ctx),
                None => false,
            },
            ConditionKind::Version(v) => match ctx.resolve_value(v) {
                Some(t) => VersionPattern::from(t.as_str()).matches_single(
                    ctx.version.as_str(),
                    ctx.versions.as_slice(),
                ),
                None => false,
            },
            ConditionKind::Side(s) => match s {
                Some(s) => *s == ctx.side,
                None => false,
            },
            ConditionKind::Modloader(m) => match m {
                Some(m) => m.matches(ctx.modloader),
                None => false,
            },
            ConditionKind::PluginLoader(m) => match m {
                Some(m) => m.matches(ctx.plugin_loader),
                None => false,
            },
            ConditionKind::Feature(v) => match ctx.resolve_value(v) {
                Some(t) => crate::versions::position(ctx.features.as_slice(), t.as_str()).is_some(),
                None => false,
            },
            ConditionKind::Value(l, r) => match (ctx.resolve_value(l), ctx.resolve_value(r)) {
                (Some(a), Some(b)) => str_eq(a.as_str(), b.as_str()),
                _ => false,
            },
            ConditionKind::Defined(name) => match name {
                Some(name) => lookup_var(&ctx.vars, name.as_str()).is_some(),
                None => false,
            },
            ConditionKind::Const(b) => match b {
                Some(b) => *b,
                None => false,
            },
            ConditionKind::OS(o) => match o {
                Some(o) => o.matches(ctx.os),
                None => false,
            },
            ConditionKind::Arch(a) => match a {
                Some(a) => *a == ctx.arch,
                None => false,
            },
            ConditionKind::Stability(s) => match s {
                Some(s) => *s == ctx.stability,
                None => false,
            },
            ConditionKind::Language(l) => match l {
                Some(l) => *l == ctx.language,
                None => false,
            },
            ConditionKind::ContentVersion(v) => match (ctx.resolve_value(v), &ctx.content_version) {
                (Some(t), Some(cv)) => str_eq(cv.as_str(), t.as_str()),
                _ => false,
            },
        }
    }
}

/// Feeds one token to an empty or unfinished child slot
fn advance_slot(slot: Option<Box<ConditionKind>>, tok: &Token, pos: &TextPos) -> (r: Result<
    Box<ConditionKind>,
    (Option<Box<ConditionKind>>, ParseError),
>)
    ensures
        match r {
            Ok(c) => step_slot(slot, *tok, *pos) == Ok::<Box<ConditionKind>, ParseError>(c),
            Err((s, e)) => s == slot && step_slot(slot, *tok, *pos) == Err::<
                Box<ConditionKind>,
                ParseError,
            >(e),
        },
    decreases slot,
{
    match slot {
        Some(c) => match advance(*c, tok, pos) {
            Ok(n) => Ok(Box::new(n)),
            Err((c, e)) => Err((Some(Box::new(c)), e)),
        },
        None => match tok {
            Token::Ident(name) => match ConditionKind::parse_from_str(name.as_str()) {
                Some(k) => Ok(Box::new(k)),
                None => Err((None, ParseError::UnknownCondition(name.clone(), *pos))),
            },
            _ => Err((None, ParseError::UnexpectedToken(tok.duplicate(), *pos))),
        },
    }
}

/// Feeds one token to a condition node, handing the node back on an error
fn advance(current: ConditionKind, tok: &Token, pos: &TextPos) -> (r: Result<
    ConditionKind,
    (ConditionKind, ParseError),
>)
    ensures
        match r {
            Ok(k) => current.step(*tok, *pos) == Ok::<ConditionKind, ParseError>(k),
            Err((k, e)) => k == current && current.step(*tok, *pos) == Err::<
                ConditionKind,
                ParseError,
            >(e),
        },
    decreases current,
{
    if current.is_finished_parsing() {
        return match tok {
            Token::Ident(name) => {
                if str_eq(name.as_str(), "and") {
                    Ok(ConditionKind::And(Box::new(current), None))
                } else if str_eq(name.as_str(), "or") {
                    Ok(ConditionKind::Or(Box::new(current), None))
                } else {
                    Err((current, ParseError::UnknownCombinator(name.clone(), *pos)))
                }
            },
            _ => Err((current, ParseError::UnexpectedToken(tok.duplicate(), *pos))),
        };
    }
    match current {
        ConditionKind::Not(slot) => match advance_slot(slot, tok, pos) {
            Ok(c) => Ok(ConditionKind::Not(Some(c))),
            Err((slot, e)) => Err((ConditionKind::Not(slot), e)),
        },
        ConditionKind::And(l, slot) => match advance_slot(slot, tok, pos) {
            Ok(c) => Ok(ConditionKind::And(l, Some(c))),
            Err((slot, e)) => Err((ConditionKind::And(l, slot), e)),
        },
        ConditionKind::Or(l, slot) => match advance_slot(slot, tok, pos) {
            Ok(c) => Ok(ConditionKind::Or(l, Some(c))),
            Err((slot, e)) => Err((ConditionKind::Or(l, slot), e)),
        },
        ConditionKind::Version(old_val) => match parse_arg(tok, pos) {
            Ok(v) => Ok(ConditionKind::Version(v)),
            Err(e) => Err((ConditionKind::Version(old_val), e)),
        },
        ConditionKind::Feature(old_val) => match parse_arg(tok, pos) {
            Ok(v) => Ok(ConditionKind::Feature(v)),
            Err(e) => Err((ConditionKind::Feature(old_val), e)),
        },
        ConditionKind::ContentVersion(old_val) => match parse_arg(tok, pos) {
            Ok(v) => Ok(ConditionKind::ContentVersion(v)),
            Err(e) => Err((ConditionKind::ContentVersion(old_val), e)),
        },
        ConditionKind::Value(l, r) => match parse_arg(tok, pos) {
            Ok(v) => {
                if !l.is_some() {
                    Ok(ConditionKind::Value(v, r))
                } else {
                    Ok(ConditionKind::Value(l, v))
                }
            },
            Err(e) => Err((ConditionKind::Value(l, r), e)),
        },
        current => {
            let name = match tok {
                Token::Ident(name) => name,
                _ => {
                    return Err((current, ParseError::UnexpectedToken(tok.duplicate(), *pos)));
                },
            };
            match current {
                ConditionKind::Defined(..) => Ok(ConditionKind::Defined(Some(name.clone()))),
                ConditionKind::Side(v) => match check_enum_condition_argument(
                    Side::parse_from_str(name.as_str()),
                    name,
                    pos,
                ) {
                    Ok(x) => Ok(ConditionKind::Side(Some(x))),
                    Err(e) => Err((ConditionKind::Side(v), e)),
                },
                ConditionKind::Modloader(v) => match check_enum_condition_argument(
                    ModloaderMatch::parse_from_str(name.as_str()),
                    name,
                    pos,
                ) {
                    Ok(x) => Ok(ConditionKind::Modloader(Some(x))),
                    Err(e) => Err((ConditionKind::Modloader(v), e)),
                },
                ConditionKind::PluginLoader(v) => match check_enum_condition_argument(
                    PluginLoaderMatch::parse_from_str(name.as_str()),
                    name,
                    pos,
                ) {
                    Ok(x) => Ok(ConditionKind::PluginLoader(Some(x))),
                    Err(e) => Err((ConditionKind::PluginLoader(v), e)),
                },
                ConditionKind::OS(v) => match check_enum_condition_argument(
                    OSCondition::parse_from_str(name.as_str()),
                    name,
                    pos,
                ) {
                    Ok(x) => Ok(ConditionKind::OS(Some(x))),
                    Err(e) => Err((ConditionKind::OS(v), e)),
                },
                ConditionKind::Arch(v) => match check_enum_condition_argument(
                    ArchCondition::parse_from_str(name.as_str()),
                    name,
                    pos,
                ) {
                    Ok(x) => Ok(ConditionKind::Arch(Some(x))),
                    Err(e) => Err((ConditionKind::Arch(v), e)),
                },
                ConditionKind::Stability(v) => match check_enum_condition_argument(
                    PackageStability::parse_from_str(name.as_str()),
                    name,
                    pos,
                ) {
                    Ok(x) => Ok(ConditionKind::Stability(Some(x))),
                    Err(e) => Err((ConditionKind::Stability(v), e)),
                },
                ConditionKind::Language(v) => match check_enum_condition_argument(
                    Language::parse_from_str(name.as_str()),
                    name,
                    pos,
                ) {
                    Ok(x) => Ok(ConditionKind::Language(Some(x))),
                    Err(e) => Err((ConditionKind::Language(v), e)),
                },
                current => {
                    let b = if str_eq(name.as_str(), "true") {
                        Some(true)
                    } else if str_eq(name.as_str(), "false") {
                        Some(false)
                    } else {
                        None
                    };
                    match check_enum_condition_argument(b, name, pos) {
                        Ok(x) => Ok(ConditionKind::Const(Some(x))),
                        Err(e) => Err((current, e)),
                    }
                },
            }
        },
    }
}

/// A condition that checks some property to give a boolean answer
pub struct Condition {
    /// What kind of condition this is
    pub kind: ConditionKind,
}

impl Condition {
    /// Creates a new condition
    pub fn new(kind: ConditionKind) -> (r: Self)
        ensures
            r.kind == kind,
    {
        Self { kind }
    }

    /// Feeds one token to the condition
    pub fn parse(&mut self, tok: &Token, pos: &TextPos) -> (r: Result<(), ParseError>)
        ensures
            match r {
                Ok(()) => old(self).kind.step(*tok, *pos) == Ok::<ConditionKind, ParseError>(
                    final(self).kind,
                ),
                Err(e) => old(self).kind.step(*tok, *pos) == Err::<ConditionKind, ParseError>(e)
                    && final(self).kind == old(self).kind,
            },
    {
        self.kind.parse(tok, pos)
    }
}

/// A node that a keyword starts is never finished: it waits for at least one more token.
pub proof fn lemma_fresh_node_unfinished(name: Seq<char>)
    ensures
        kind_from_name(name) matches Some(k) ==> !k.finished(),
{
}

/// Every leaf that takes one argument is finished by the first token that it accepts, a
/// `value` leaf by the second, and `not` exactly when the condition inside it is finished.
pub proof fn lemma_leaf_finishes(k: ConditionKind, tok: Token, pos: TextPos)
    requires
        !k.finished(),
    ensures
        k.step(tok, pos) matches Ok(n) ==> match k {
            ConditionKind::Not(..) => n.finished() == (n->Not_0->Some_0).finished(),
            ConditionKind::And(l, ..) | ConditionKind::Or(l, ..) => l.finished() ==> (
            n.finished() == (match n {
                ConditionKind::And(_, r) | ConditionKind::Or(_, r) => r->Some_0.finished(),
                _ => false,
            })),
            ConditionKind::Value(l, r) => n.finished() == (l.is_filled() || r.is_filled()),
            _ => n.finished(),
        },
{
}

/// Once a node is finished, `and` or `or` wraps the whole node as the left operand of a new
/// combinator with an empty right slot: chaining is left-associative, the new node is
/// unfinished, and its left operand stays finished.
pub proof fn lemma_chaining_wraps_left(k: ConditionKind, name: String, pos: TextPos)
    requires
        k.finished(),
        name@ == "and"@ || name@ == "or"@,
    ensures
        name@ == "and"@ ==> k.step(Token::Ident(name), pos) == Ok::<ConditionKind, ParseError>(
            ConditionKind::And(Box::new(k), None),
        ),
        name@ == "or"@ ==> k.step(Token::Ident(name), pos) == Ok::<ConditionKind, ParseError>(
            ConditionKind::Or(Box::new(k), None),
        ),
        k.step(Token::Ident(name), pos) matches Ok(n) ==> !n.finished(),
{
    reveal_strlit("and");
    reveal_strlit("or");
    assert("and"@ != "or"@) by {
        assert("and"@.len() != "or"@.len());
    }
}

/// A token after a finished node that is not `and` or `or` is an error.
pub proof fn lemma_token_after_finished_fails(k: ConditionKind, tok: Token, pos: TextPos)
    requires
        k.finished(),
        !(tok matches Token::Ident(name) && (name@ == "and"@ || name@ == "or"@)),
    ensures
        k.step(tok, pos) is Err,
{
}

/// `A or B and C` is read as `(A or B) and C`, whose answer is `(A || B) && C`: when A is
/// false, B true and C false, it is false.
pub proof fn lemma_left_associative_evaluation(
    a: ConditionKind,
    b: ConditionKind,
    c: ConditionKind,
    ctx: EvalContext,
)
    ensures
        ConditionKind::And(
            Box::new(ConditionKind::Or(Box::new(a), Some(Box::new(b)))),
            Some(Box::new(c)),
        ).holds(ctx) == ((a.holds(ctx) || b.holds(ctx)) && c.holds(ctx)),
        !a.holds(ctx) && b.holds(ctx) && !c.holds(ctx) ==> !ConditionKind::And(
            Box::new(ConditionKind::Or(Box::new(a), Some(Box::new(b)))),
            Some(Box::new(c)),
        ).holds(ctx),
{
    let left = ConditionKind::Or(Box::new(a), Some(Box::new(b)));
    assert(left.holds(ctx) == (a.holds(ctx) || b.holds(ctx)));
}

/// What a configured package forces on its own evaluation: absent fields leave the
/// environment as it is
#[derive(Debug, Clone, Default)]
pub struct PackageOverrides {
    /// The stability channel to use for this package
    pub stability: Option<PackageStability>,
    /// Features enabled for this package on top of the global ones
    pub features: Vec<String>,
    /// The content version requested for this package
    pub content_version: Option<String>,
}

/// Rewrites the evaluation input of one package by its configuration, before its relations are
/// evaluated
pub fn override_configured_package_input(overrides: &PackageOverrides, input: &mut EvalContext)
    ensures
        final(input).stability == match overrides.stability {
            Some(s) => s,
            None => old(input).stability,
        },
        strings_view(final(input).features@) == strings_view(old(input).features@)
            + strings_view(overrides.features@),
        final(input).content_version == match overrides.content_version {
            Some(v) => Some(v),
            None => old(input).content_version,
        },
        final(input).version == old(input).version,
        final(input).versions == old(input).versions,
        final(input).side == old(input).side,
        final(input).modloader == old(input).modloader,
        final(input).plugin_loader == old(input).plugin_loader,
        final(input).os == old(input).os,
        final(input).arch == old(input).arch,
        final(input).language == old(input).language,
        final(input).vars == old(input).vars,
{
    if let Some(s) = overrides.stability {
        input.stability = s;
    }
    let ghost start = strings_view(input.features@);
    let mut i: usize = 0;
    while i < overrides.features.len()
        invariant
            i <= overrides.features@.len(),
            strings_view(input.features@) == start + strings_view(overrides.features@).subrange(
                0,
                i as int,
            ),
            input.version == old(input).version,
            input.versions == old(input).versions,
            input.vars == old(input).vars,
            input.side == old(input).side,
            input.modloader == old(input).modloader,
            input.plugin_loader == old(input).plugin_loader,
            input.os == old(input).os,
            input.arch == old(input).arch,
            input.language == old(input).language,
            input.content_version == old(input).content_version,
            input.stability == match overrides.stability {
                Some(s) => s,
                None => old(input).stability,
            },
            start == strings_view(old(input).features@),
        decreases overrides.features@.len() - i,
    {
        let ghost prev = input.features@;
        input.features.push(overrides.features[i].clone());
        assert(strings_view(input.features@) =~= strings_view(prev).push(overrides.features@[i as int]@));
        assert(strings_view(input.features@) =~= start + strings_view(overrides.features@).subrange(
            0,
            i + 1,
        ));
        i = i + 1;
    }
    assert(strings_view(overrides.features@).subrange(0, i as int) =~= strings_view(overrides.features@));
    if let Some(v) = &overrides.content_version {
        input.content_version = Some(v.clone());
    }
}

} // verus!
