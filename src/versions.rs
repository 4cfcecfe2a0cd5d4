use vstd::prelude::*;
use vstd::string::*;

use crate::text::{clone_all, copy_range, owned, push_char, str_eq, strings_view};

verus! {

/// Pattern matching for the version of the game, a package, etc.
#[derive(Debug, Hash, Clone, PartialEq, Eq, PartialOrd, Ord)]
pub enum VersionPattern {
    /// Matches a single version
    Single(String),
    /// Matches the latest version in the list
    Latest(Option<String>),
    /// Matches any version that is <= a version
    Before(String),
    /// Matches any version that is >= a version
    After(String),
    /// Matches any versions between an inclusive range
    Range(String, String),
    /// Matches any version
    Any,
}

/// The mathematical form of a version pattern
pub ghost enum PatternModel {
    Single(Seq<char>),
    Latest(Option<Seq<char>>),
    Before(Seq<char>),
    After(Seq<char>),
    Range(Seq<char>, Seq<char>),
    Any,
}

impl View for VersionPattern {
    type V = PatternModel;

    open spec fn view(&self) -> PatternModel {
        match self {
            VersionPattern::Single(v) => PatternModel::Single(v@),
            VersionPattern::Latest(found) => PatternModel::Latest(
                match found {
                    Some(f) => Some(f@),
                    None => None,
                },
            ),
            VersionPattern::Before(v) => PatternModel::Before(v@),
            VersionPattern::After(v) => PatternModel::After(v@),
            VersionPattern::Range(s, e) => PatternModel::Range(s@, e@),
            VersionPattern::Any => PatternModel::Any,
        }
    }
}

/// Whether `v` occurs in the list
pub open spec fn list_contains(vs: Seq<Seq<char>>, v: Seq<char>) -> bool {
    exists|i: int| 0 <= i < vs.len() && vs[i] == v
}

/// Whether `i` is the first position of `v` in the list
pub open spec fn is_first_index(vs: Seq<Seq<char>>, v: Seq<char>, i: int) -> bool {
    0 <= i < vs.len() && vs[i] == v && forall|j: int| 0 <= j < i ==> vs[j] != v
}

/// The first position of `v` in the list, if it occurs
pub open spec fn index_of(vs: Seq<Seq<char>>, v: Seq<char>) -> Option<int> {
    if list_contains(vs, v) {
        Some(choose|i: int| is_first_index(vs, v, i))
    } else {
        None
    }
}

/// The first position of a value that occurs at `i` exists
proof fn lemma_first_index_exists(vs: Seq<Seq<char>>, v: Seq<char>, i: int)
    requires
        0 <= i < vs.len(),
        vs[i] == v,
    ensures
        exists|k: int| is_first_index(vs, v, k),
    decreases i,
{
    if exists|j: int| 0 <= j < i && vs[j] == v {
        let j = choose|j: int| 0 <= j < i && vs[j] == v;
        lemma_first_index_exists(vs, v, j);
    } else {
        assert(is_first_index(vs, v, i));
    }
}

/// The position that `index_of` gives is the first position of the value
pub proof fn lemma_index_of(vs: Seq<Seq<char>>, v: Seq<char>)
    ensures
        index_of(vs, v) matches Some(i) ==> is_first_index(vs, v, i),
        index_of(vs, v) is None ==> forall|j: int| 0 <= j < vs.len() ==> vs[j] != v,
{
    if list_contains(vs, v) {
        let i = choose|i: int| 0 <= i < vs.len() && vs[i] == v;
        lemma_first_index_exists(vs, v, i);
    }
}

/// The inclusive slice `vs[from..=to]`, empty when the bounds are crossed
pub open spec fn inclusive_slice(vs: Seq<Seq<char>>, from: int, to: int) -> Seq<Seq<char>> {
    if from <= to {
        vs.subrange(from, to + 1)
    } else {
        Seq::empty()
    }
}

/// The pairs at equal positions of two lists that hold the same value, over the first `n`
/// positions
pub open spec fn zip_equal(a: Seq<Seq<char>>, b: Seq<Seq<char>>, n: int) -> Seq<Seq<char>>
    decreases n,
{
    if n <= 0 {
        Seq::empty()
    } else {
        let rest = zip_equal(a, b, n - 1);
        if a[n - 1] == b[n - 1] {
            rest.push(a[n - 1])
        } else {
            rest
        }
    }
}

/// A text with every backslash taken out
pub open spec fn strip_escapes(t: Seq<char>) -> Seq<char>
    decreases t.len(),
{
    if t.len() == 0 {
        t
    } else {
        let rest = strip_escapes(t.drop_last());
        if t.last() == '\\' {
            rest
        } else {
            rest.push(t.last())
        }
    }
}

/// Whether the text holds the range separator `..` starting at `i`
pub open spec fn sep_at(t: Seq<char>, i: int) -> bool {
    0 <= i && i + 1 < t.len() && t[i] == '.' && t[i + 1] == '.'
}

/// Whether the text holds the range separator anywhere
pub open spec fn has_sep(t: Seq<char>) -> bool {
    exists|i: int| sep_at(t, i)
}

/// Whether `i` is the first occurrence of the range separator
pub open spec fn is_first_sep(t: Seq<char>, i: int) -> bool {
    sep_at(t, i) && forall|j: int| 0 <= j < i ==> !sep_at(t, j)
}

/// Whether the character before the last one is an escaping backslash
pub open spec fn last_is_escaped(t: Seq<char>) -> bool {
    t.len() >= 2 && t[t.len() - 2] == '\\'
}

/// The pattern for the text when it holds exactly one range separator, at `i`, and the
/// start is not escaped
pub open spec fn range_at(t: Seq<char>, i: int) -> bool {
    is_first_sep(t, i) && !has_sep(t.subrange(i + 2, t.len() as int)) && !(i > 0 && t[i - 1]
        == '\\')
}

/// The pattern that a text describes
pub open spec fn parse_pattern(t: Seq<char>) -> PatternModel {
    if t == "latest"@ {
        PatternModel::Latest(None)
    } else if t == "*"@ {
        PatternModel::Any
    } else if t.len() >= 1 && !last_is_escaped(t) && t.last() == '-' {
        PatternModel::Before(t.drop_last())
    } else if t.len() >= 1 && !last_is_escaped(t) && t.last() == '+' {
        PatternModel::After(t.drop_last())
    } else if exists|i: int| range_at(t, i) {
        let i = choose|i: int| range_at(t, i);
        PatternModel::Range(t.subrange(0, i), t.subrange(i + 2, t.len() as int))
    } else {
        PatternModel::Single(strip_escapes(t))
    }
}

/// Whether a text holds no character with a special meaning in a pattern
pub open spec fn is_plain_version(t: Seq<char>) -> bool {
    &&& forall|i: int| 0 <= i < t.len() ==> t[i] != '*'
    &&& !has_sep(t)
    &&& t != "latest"@
    &&& !(t.len() >= 1 && (t.last() == '-' || t.last() == '+'))
}

/// The text form of a pattern
pub open spec fn display_pattern(p: PatternModel) -> Seq<char> {
    match p {
        PatternModel::Single(v) => v,
        PatternModel::Latest(..) => "latest"@,
        PatternModel::Before(v) => v + "-"@,
        PatternModel::After(v) => v + "+"@,
        PatternModel::Range(s, e) => s + ".."@ + e,
        PatternModel::Any => "*"@,
    }
}

impl PatternModel {
    /// All the versions of the list that the pattern matches, in list order
    pub open spec fn matches(self, vs: Seq<Seq<char>>) -> Seq<Seq<char>> {
        match self {
            PatternModel::Single(v) => if list_contains(vs, v) {
                seq![v]
            } else {
                Seq::empty()
            },
            PatternModel::Latest(found) => match found {
                Some(f) => seq![f],
                None => if vs.len() > 0 {
                    seq![vs.last()]
                } else {
                    Seq::empty()
                },
            },
            PatternModel::Before(v) => match index_of(vs, v) {
                Some(p) => vs.subrange(0, p + 1),
                None => Seq::empty(),
            },
            PatternModel::After(v) => match index_of(vs, v) {
                Some(p) => vs.subrange(p, vs.len() as int),
                None => Seq::empty(),
            },
            PatternModel::Range(s, e) => match (index_of(vs, s), index_of(vs, e)) {
                (Some(sp), Some(ep)) => inclusive_slice(vs, sp, ep),
                _ => Seq::empty(),
            },
            PatternModel::Any => vs,
        }
    }

    /// Whether the pattern matches one version, judged against the list of versions
    pub open spec fn matches_one(self, version: Seq<char>, vs: Seq<Seq<char>>) -> bool {
        match self {
            PatternModel::Single(v) => version == v,
            PatternModel::Latest(found) => match found {
                Some(f) => version == f,
                None => vs.len() > 0 && version == vs.last(),
            },
            PatternModel::Before(v) => match (index_of(vs, v), index_of(vs, version)) {
                (Some(p), Some(q)) => q <= p,
                _ => false,
            },
            PatternModel::After(v) => match (index_of(vs, v), index_of(vs, version)) {
                (Some(p), Some(q)) => q >= p,
                _ => false,
            },
            PatternModel::Range(s, e) => match (
                index_of(vs, s),
                index_of(vs, e),
                index_of(vs, version),
            ) {
                (Some(sp), Some(ep), Some(q)) => sp <= q && q <= ep,
                _ => false,
            },
            PatternModel::Any => list_contains(vs, version),
        }
    }
}

/// Finds the first position of a version in a list
pub fn position(versions: &[String], v: &str) -> (r: Option<usize>)
    ensures
        match r {
            Some(i) => i < versions@.len() && is_first_index(strings_view(versions@), v@, i as int)
                && index_of(
                strings_view(versions@),
                v@,
            ) == Some(i as int),
            None => !list_contains(strings_view(versions@), v@) && index_of(
                strings_view(versions@),
                v@,
            ) == None::<int>,
        },
{
    let ghost vs = strings_view(versions@);
    let mut i: usize = 0;
    while i < versions.len()
        invariant
            vs == strings_view(versions@),
            vs.len() == versions@.len(),
            i <= versions@.len(),
            forall|j: int| 0 <= j < i ==> vs[j] != v@,
        decreases versions@.len() - i,
    {
        if str_eq(versions[i].as_str(), v) {
            assert(is_first_index(vs, v@, i as int));
            assert(list_contains(vs, v@));
            let ghost k = choose|k: int| is_first_index(vs, v@, k);
            assert(k == i as int) by {
                if k < i {
                } else if k > i {
                    assert(vs[i as int] == v@);
                }
            }
            return Some(i);
        }
        i = i + 1;
    }
    None
}

impl VersionPattern {
    /// Finds all matches in a list of versions
    pub fn get_matches(&self, versions: &[String]) -> (r: Vec<String>)
        ensures
            strings_view(r@) == self@.matches(strings_view(versions@)),
    {
        let n = versions.len();
        match self {
            VersionPattern::Single(version) => {
                match position(versions, version.as_str()) {
                    Some(..) => {
                        let r = vec![version.clone()];
                        assert(strings_view(r@) =~= seq![version@]);
                        r
                    },
                    None => {
                        let r: Vec<String> = Vec::new();
                        assert(strings_view(r@) =~= Seq::<Seq<char>>::empty());
                        r
                    },
                }
            },
            VersionPattern::Latest(found) => {
                match found {
                    Some(found) => {
                        let r = vec![found.clone()];
                        assert(strings_view(r@) =~= seq![found@]);
                        r
                    },
                    None => {
                        if n > 0 {
                            let r = vec![versions[n - 1].clone()];
                            assert(strings_view(r@) =~= seq![strings_view(versions@).last()]);
                            r
                        } else {
                            let r: Vec<String> = Vec::new();
                            assert(strings_view(r@) =~= Seq::<Seq<char>>::empty());
                            r
                        }
                    },
                }
            },
            VersionPattern::Before(version) => {
                match position(versions, version.as_str()) {
                    Some(pos) => copy_range(versions, 0, pos + 1),
                    None => {
                        let r: Vec<String> = Vec::new();
                        assert(strings_view(r@) =~= Seq::<Seq<char>>::empty());
                        r
                    },
                }
            },
            VersionPattern::After(version) => {
                match position(versions, version.as_str()) {
                    Some(pos) => copy_range(versions, pos, versions.len()),
                    None => {
                        let r: Vec<String> = Vec::new();
                        assert(strings_view(r@) =~= Seq::<Seq<char>>::empty());
                        r
                    },
                }
            },
            VersionPattern::Range(start, end) => {
                let sp = position(versions, start.as_str());
                let ep = position(versions, end.as_str());
                match (sp, ep) {
                    (Some(sp), Some(ep)) => {
                        if sp <= ep {
                            copy_range(versions, sp, ep + 1)
                        } else {
                            let r: Vec<String> = Vec::new();
                            assert(strings_view(r@) =~= Seq::<Seq<char>>::empty());
                            r
                        }
                    },
                    _ => {
                        let r: Vec<String> = Vec::new();
                        assert(strings_view(r@) =~= Seq::<Seq<char>>::empty());
                        r
                    },
                }
            },
            VersionPattern::Any => clone_all(versions),
        }
    }

    /// Finds the newest match in a list of versions
    pub fn get_match(&self, versions: &[String]) -> (r: Option<String>)
        ensures
            ({
                let m = self@.matches(strings_view(versions@));
                match r {
                    Some(v) => m.len() > 0 && v@ == m.last(),
                    None => m.len() == 0,
                }
            }),
    {
        let matches = self.get_matches(versions);
        let n = matches.len();
        if n == 0 {
            None
        } else {
            Some(matches[n - 1].clone())
        }
    }
}

/// Finds the first range separator at or after `from`
fn find_sep(text: &str, from: usize) -> (r: Option<usize>)
    ensures
        match r {
            Some(i) => from <= i && sep_at(text@, i as int) && i + 2 <= text@.len() && forall|
                j: int,
            |
                from <= j < i ==> !sep_at(text@, j),
            None => forall|j: int| from <= j ==> !sep_at(text@, j),
        },
{
    let n = text.unicode_len();
    let mut i: usize = from;
    while i < n && i + 1 < n
        invariant
            n == text@.len(),
            from <= i,
            forall|j: int| from <= j < i ==> !sep_at(text@, j),
        decreases n - i,
    {
        if text.get_char(i) == '.' && text.get_char(i + 1) == '.' {
            return Some(i);
        }
        i = i + 1;
    }
    None
}

/// Removes every backslash from a text
fn strip_backslashes(text: &str) -> (r: String)
    ensures
        r@ == strip_escapes(text@),
{
    let n = text.unicode_len();
    let mut out = String::new();
    let mut i: usize = 0;
    while i < n
        invariant
            n == text@.len(),
            i <= n,
            out@ == strip_escapes(text@.subrange(0, i as int)),
        decreases n - i,
    {
        let c = text.get_char(i);
        let ghost pre = text@.subrange(0, i + 1);
        assert(pre.drop_last() =~= text@.subrange(0, i as int));
        assert(pre.last() == c);
        if c != '\\' {
            push_char(&mut out, c);
        }
        i = i + 1;
    }
    assert(text@.subrange(0, n as int) =~= text@);
    out
}

impl VersionPattern {
    /// Compares this pattern to a single version.
    /// For some pattern kinds this is false when the list of versions provided does not
    /// settle the answer.
    pub fn matches_single(&self, version: &str, versions: &[String]) -> (r: bool)
        ensures
            r == self@.matches_one(version@, strings_view(versions@)),
    {
        let n = versions.len();
        match self {
            VersionPattern::Single(vers) => str_eq(version, vers.as_str()),
            VersionPattern::Latest(cached) => match cached {
                Some(vers) => str_eq(version, vers.as_str()),
                None => {
                    if n > 0 {
                        str_eq(version, versions[n - 1].as_str())
                    } else {
                        false
                    }
                },
            },
            VersionPattern::Before(vers) => {
                match (position(versions, vers.as_str()), position(versions, version)) {
                    (Some(vers_pos), Some(version_pos)) => version_pos <= vers_pos,
                    _ => false,
                }
            },
            VersionPattern::After(vers) => {
                match (position(versions, vers.as_str()), position(versions, version)) {
                    (Some(vers_pos), Some(version_pos)) => version_pos >= vers_pos,
                    _ => false,
                }
            },
            VersionPattern::Range(start, end) => {
                match (
                    position(versions, start.as_str()),
                    position(versions, end.as_str()),
                    position(versions, version),
                ) {
                    (Some(start_pos), Some(end_pos), Some(version_pos)) => version_pos
                        >= start_pos && version_pos <= end_pos,
                    _ => false,
                }
            },
            VersionPattern::Any => position(versions, version).is_some(),
        }
    }

    /// Compares this pattern to the version held in a `VersionInfo`
    pub fn matches_info(&self, version_info: &VersionInfo) -> (r: bool)
        ensures
            r == self@.matches_one(version_info.version@, strings_view(version_info.versions@)),
    {
        self.matches_single(version_info.version.as_str(), version_info.versions.as_slice())
    }

    /// The matches of two patterns that agree position by position
    pub fn match_union(&self, other: &Self, versions: &[String]) -> (r: Vec<String>)
        ensures
            ({
                let a = self@.matches(strings_view(versions@));
                let b = other@.matches(strings_view(versions@));
                strings_view(r@) == zip_equal(a, b, if a.len() <= b.len() {
                    a.len() as int
                } else {
                    b.len() as int
                })
            }),
    {
        let left = self.get_matches(versions);
        let right = other.get_matches(versions);
        let ghost a = strings_view(left@);
        let ghost b = strings_view(right@);
        let n = if left.len() <= right.len() {
            left.len()
        } else {
            right.len()
        };
        let mut out: Vec<String> = Vec::new();
        let mut i: usize = 0;
        while i < n
            invariant
                a == strings_view(left@),
                b == strings_view(right@),
                n <= left@.len(),
                n <= right@.len(),
                i <= n,
                strings_view(out@) == zip_equal(a, b, i as int),
            decreases n - i,
        {
            let ghost prev = out@;
            if str_eq(left[i].as_str(), right[i].as_str()) {
                out.push(right[i].clone());
                assert(strings_view(out@) =~= strings_view(prev).push(a[i as int]));
            }
            i = i + 1;
        }
        out
    }

    /// Creates a version pattern by parsing a string
    pub fn from(text: &str) -> (r: VersionPattern)
        ensures
            r@ == parse_pattern(text@),
    {
        let n = text.unicode_len();
        if str_eq(text, "latest") {
            return VersionPattern::Latest(None);
        }
        if str_eq(text, "*") {
            return VersionPattern::Any;
        }
        if n >= 1 {
            let last = text.get_char(n - 1);
            let escaped = n >= 2 && text.get_char(n - 2) == '\\';
            if !escaped {
                if last == '-' {
                    return VersionPattern::Before(owned(text.substring_char(0, n - 1)));
                }
                if last == '+' {
                    return VersionPattern::After(owned(text.substring_char(0, n - 1)));
                }
            }
        }
        let ghost t = text@;
        if let Some(i) = find_sep(text, 0) {
            let rest = find_sep(text, i + 2);
            let escaped = i > 0 && text.get_char(i - 1) == '\\';
            proof {
                assert forall|k: int| #[trigger] sep_at(t.subrange(i + 2, t.len() as int), k) implies sep_at(
                    t,
                    k + i + 2,
                ) by {}
                assert forall|k: int| i + 2 <= k && #[trigger] sep_at(t, k) implies sep_at(
                    t.subrange(i + 2, t.len() as int),
                    k - i - 2,
                ) by {}
                assert forall|j: int| range_at(t, j) implies j == i by {
                    if j < i {
                    } else if j > i {
                        assert(sep_at(t, i as int));
                    }
                }
            }
            if rest.is_none() && !escaped {
                assert(range_at(t, i as int));
                return VersionPattern::Range(
                    owned(text.substring_char(0, i)),
                    owned(text.substring_char(i + 2, n)),
                );
            }
        }
        proof {
            assert forall|j: int| !range_at(t, j) by {
                if range_at(t, j) {
                    assert(sep_at(t, j));
                }
            }
        }
        VersionPattern::Single(strip_backslashes(text))
    }

    /// Checks that a string holds no character with a special meaning in a pattern
    pub fn validate(text: &str) -> (r: bool)
        ensures
            r == is_plain_version(text@),
    {
        let n = text.unicode_len();
        let mut i: usize = 0;
        while i < n
            invariant
                n == text@.len(),
                i <= n,
                forall|j: int| 0 <= j < i ==> text@[j] != '*',
            decreases n - i,
        {
            if text.get_char(i) == '*' {
                return false;
            }
            i = i + 1;
        }
        if find_sep(text, 0).is_some() {
            return false;
        }
        if str_eq(text, "latest") {
            return false;
        }
        if n >= 1 {
            let last = text.get_char(n - 1);
            if last == '-' || last == '+' {
                return false;
            }
        }
        true
    }

    /// The text form of the pattern, which `from` reads back
    pub fn to_string(&self) -> (r: String)
        ensures
            r@ == display_pattern(self@),
    {
        match self {
            VersionPattern::Single(version) => version.clone(),
            VersionPattern::Latest(..) => owned("latest"),
            VersionPattern::Before(version) => version.clone().concat("-"),
            VersionPattern::After(version) => version.clone().concat("+"),
            VersionPattern::Range(start, end) => start.clone().concat("..").concat(end.as_str()),
            VersionPattern::Any => owned("*"),
        }
    }
}

/// The version in use together with the list of available versions, used for comparisons
#[derive(Debug, Default, Clone)]
pub struct VersionInfo {
    /// The version
    pub version: String,
    /// The list of available versions to use for comparisons
    pub versions: Vec<String>,
}

} // verus!
