use vstd::prelude::*;
use vstd::string::*;

use std::path::{Path, PathBuf};

use crate::text::push_char;

verus! {

/// The separator for entries in the classpath
pub const CLASSPATH_SEP: char = ':';

#[verifier::external_type_specification]
#[verifier::external_body]
pub struct ExPathBuf(PathBuf);

#[verifier::external_type_specification]
#[verifier::external_body]
pub struct ExPath(Path);

/// Relies on `PathBuf::from`: the path holds the text as it is.
#[verifier::external_body]
fn path_from(text: String) -> (r: PathBuf) {
    PathBuf::from(text)
}

/// A Java classpath: entries joined by the separator
#[derive(Debug, Clone, PartialEq, Default)]
pub struct Classpath {
    string: String,
}

/// The classpath text after appending an entry: a separator goes between, unless the text is
/// empty or already ends with one
pub open spec fn appended(cp: Seq<char>, entry: Seq<char>) -> Seq<char> {
    if cp.len() > 0 && cp.last() != ':' {
        cp.push(':') + entry
    } else {
        cp + entry
    }
}

/// The entries of a classpath text, split at every separator
pub open spec fn split_entries(cp: Seq<char>) -> Seq<Seq<char>>
    decreases cp.len(),
{
    if cp.len() == 0 {
        seq![Seq::empty()]
    } else {
        let rest = split_entries(cp.drop_last());
        if cp.last() == ':' {
            rest.push(Seq::empty())
        } else {
            rest.update(rest.len() - 1, rest.last().push(cp.last()))
        }
    }
}

proof fn lemma_split_nonempty(cp: Seq<char>)
    ensures
        split_entries(cp).len() >= 1,
    decreases cp.len(),
{
    if cp.len() > 0 {
        lemma_split_nonempty(cp.drop_last());
    }
}

impl Classpath {
    /// The text of the classpath
    pub closed spec fn text(&self) -> Seq<char> {
        self.string@
    }

    /// Creates a new empty classpath
    pub fn new() -> (r: Self)
        ensures
            r.text() == Seq::<char>::empty(),
    {
        Self { string: String::new() }
    }

    /// Appends the classpath separator to the end of the text.
    /// This can make an invalid classpath.
    pub fn add_sep(&mut self)
        ensures
            final(self).text() == old(self).text().push(':'),
    {
        push_char(&mut self.string, CLASSPATH_SEP);
    }

    /// Appends an entry to the end of the classpath
    pub fn add(&mut self, string: &str)
        ensures
            final(self).text() == appended(old(self).text(), string@),
    {
        let n = self.string.as_str().unicode_len();
        if n > 0 {
            let last = self.string.as_str().get_char(n - 1);
            if last != CLASSPATH_SEP {
                self.add_sep();
            }
        }
        self.string.append(string);
    }

    /// Converts a path to text and appends it to the classpath. Fails, leaving the classpath
    /// as it was, when the path is not valid Unicode.
    pub fn add_path(&mut self, path: &Path) -> (r: Result<(), ClasspathError>)
        ensures
            r is Err ==> final(self).text() == old(self).text(),
            r is Ok ==> exists|entry: Seq<char>|
                final(self).text() == appended(old(self).text(), entry),
    {
        self.add_path_text(path_text(path))
    }

    /// Appends the text of a path, as `Path::to_str` gives it: absent when the path is not
    /// valid Unicode, which fails and leaves the classpath as it was
    pub fn add_path_text(&mut self, text: Option<&str>) -> (r: Result<(), ClasspathError>)
        ensures
            match text {
                Some(t) => r is Ok && final(self).text() == appended(old(self).text(), t@),
                None => r == Err::<(), ClasspathError>(ClasspathError::NotUnicode)
                    && final(self).text() == old(self).text(),
            },
    {
        match text {
            Some(text) => {
                self.add(text);
                Ok(())
            },
            None => Err(ClasspathError::NotUnicode),
        }
    }

    /// Extends the classpath with another classpath
    pub fn extend(&mut self, other: Classpath)
        ensures
            final(self).text() == appended(old(self).text(), other.text()),
    {
        self.add(other.string.as_str())
    }

    /// Gets the classpath as text
    pub fn get_str(&self) -> (r: String)
        ensures
            r@ == self.text(),
    {
        self.string.clone()
    }

    /// Splits the classpath into its entries
    pub fn get_entries(&self) -> (r: Vec<String>)
        ensures
            r@.map_values(|s: String| s@) == split_entries(self.text()),
    {
        let n = self.string.as_str().unicode_len();
        let mut out: Vec<String> = Vec::new();
        let mut current = String::new();
        let mut i: usize = 0;
        while i < n
            invariant
                n == self.string@.len(),
                i <= n,
                out@.map_values(|s: String| s@).push(current@) == split_entries(
                    self.string@.subrange(0, i as int),
                ),
            decreases n - i,
        {
            let c = self.string.as_str().get_char(i);
            let ghost pre = self.string@.subrange(0, i + 1);
            assert(pre.drop_last() =~= self.string@.subrange(0, i as int));
            proof {
                lemma_split_nonempty(pre.drop_last());
            }
            let ghost before = out@.map_values(|s: String| s@);
            if c == CLASSPATH_SEP {
                out.push(current);
                current = String::new();
                assert(out@.map_values(|s: String| s@) =~= before.push(
                    split_entries(pre.drop_last()).last(),
                ));
                assert(out@.map_values(|s: String| s@).push(current@) =~= split_entries(pre));
            } else {
                push_char(&mut current, c);
                assert(out@.map_values(|s: String| s@).push(current@) =~= split_entries(pre));
            }
            i = i + 1;
        }
        assert(self.string@.subrange(0, n as int) =~= self.string@);
        out.push(current);
        out
    }

    /// Splits the classpath into a list of paths
    pub fn get_paths(&self) -> (r: Vec<PathBuf>)
        ensures
            r@.len() == split_entries(self.text()).len(),
    {
        let entries = self.get_entries();
        let mut out: Vec<PathBuf> = Vec::new();
        let mut entries = entries;
        let ghost total = entries@.len();
        while entries.len() > 0
            invariant
                out@.len() + entries@.len() == total,
            decreases entries@.len(),
        {
            let e = entries.remove(0);
            out.push(path_from(e));
        }
        out
    }
}

/// An error in building a classpath
#[derive(Debug, Clone, Copy, PartialEq, Eq, Structural)]
pub enum ClasspathError {
    /// The path is not valid Unicode
    NotUnicode,
}

/// Relies on `Path::to_str`: the text of the path, when the path is valid Unicode.
#[verifier::external_body]
fn path_text(path: &Path) -> (r: Option<&str>) {
    path.to_str()
}

} // verus!
