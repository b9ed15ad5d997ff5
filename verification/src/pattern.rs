//! File patterns: Unix shell style globs, matched by the `glob` crate.

use crate::error::Error;
use vstd::prelude::*;

verus! {

/// Whether `glob::Pattern::new` accepts `pattern`.
pub uninterp spec fn glob_compiles(pattern: Seq<char>) -> bool;

/// What `glob::Pattern::matches_with` answers for the compiled `pattern` on
/// `name` under the three match options. What counts as a path separator is
/// decided by the platform that the library is built for.
pub uninterp spec fn glob_matches(
    pattern: Seq<char>,
    name: Seq<char>,
    case_sensitive: bool,
    literal_separator: bool,
    literal_leading_dot: bool,
) -> bool;

/// Calls `glob::Pattern::new` and says whether it accepted the pattern.
#[verifier::external_body]
fn compiles(pattern: &str) -> (ok: bool)
    ensures
        ok == glob_compiles(pattern@),
{
    glob::Pattern::new(pattern).is_ok()
}

/// Compiles `pattern` with `glob::Pattern::new` and asks
/// `glob::Pattern::matches_with` whether it matches `name` under the given
/// options. The answer is that of the `glob` crate, whatever it is.
#[verifier::external_body]
fn matches_with(
    pattern: &str,
    name: &str,
    case_sensitive: bool,
    literal_separator: bool,
    literal_leading_dot: bool,
) -> (hit: bool)
    requires
        glob_compiles(pattern@),
    ensures
        hit == glob_matches(
            pattern@,
            name@,
            case_sensitive,
            literal_separator,
            literal_leading_dot,
        ),
{
    let options = glob::MatchOptions {
        case_sensitive,
        require_literal_separator: literal_separator,
        require_literal_leading_dot: literal_leading_dot,
    };
    match glob::Pattern::new(pattern) {
        Ok(compiled) => compiled.matches_with(name, options),
        Err(_) => false,
    }
}

/// Whether `pattern` selects the file `name`: the case matters, a wildcard
/// does not cross a path separator, and a leading dot must be written out.
pub open spec fn pattern_matches(pattern: Seq<char>, name: Seq<char>) -> bool {
    glob_matches(pattern, name, true, true, true)
}

/// Whether one of `patterns` selects the file `name`.
pub open spec fn any_matches(patterns: Seq<Seq<char>>, name: Seq<char>) -> bool {
    exists|i: int| 0 <= i < patterns.len() && pattern_matches(#[trigger] patterns[i], name)
}

/// Whether every one of `patterns` is a valid glob.
pub open spec fn all_compile(patterns: Seq<Seq<char>>) -> bool {
    forall|i: int| 0 <= i < patterns.len() ==> glob_compiles(#[trigger] patterns[i])
}

/// The first of `patterns` that is no valid glob, if there is one.
pub open spec fn first_invalid(patterns: Seq<Seq<char>>) -> Option<Seq<char>>
    decreases patterns.len(),
{
    if patterns.len() == 0 {
        None
    } else if !glob_compiles(patterns[0]) {
        Some(patterns[0])
    } else {
        first_invalid(patterns.drop_first())
    }
}

/// `first_invalid` finds the pattern at `at` when all before it are valid
/// and it is not, and nothing when `at` is the length.
pub proof fn lemma_first_invalid(patterns: Seq<Seq<char>>, at: int)
    requires
        0 <= at <= patterns.len(),
        forall|j: int| 0 <= j < at ==> glob_compiles(#[trigger] patterns[j]),
        at < patterns.len() ==> !glob_compiles(patterns[at]),
    ensures
        at < patterns.len() ==> first_invalid(patterns) == Some(patterns[at]),
        at == patterns.len() ==> first_invalid(patterns).is_none(),
        first_invalid(patterns).is_none() <==> all_compile(patterns),
    decreases patterns.len(),
{
    if patterns.len() > 0 && at > 0 {
        let rest = patterns.drop_first();
        assert(glob_compiles(patterns[0]));
        assert forall|j: int| 0 <= j < at - 1 implies glob_compiles(#[trigger] rest[j]) by {
            assert(rest[j] == patterns[j + 1]);
        }
        lemma_first_invalid(rest, at - 1);
    }
}

/// The first invalid pattern of two lists in a row is that of the first list,
/// or else that of the second.
pub proof fn lemma_first_invalid_concat(first: Seq<Seq<char>>, second: Seq<Seq<char>>)
    ensures
        first_invalid(first + second) == match first_invalid(first) {
            Some(bad) => Some(bad),
            None => first_invalid(second),
        },
    decreases first.len(),
{
    if first.len() == 0 {
        assert(first + second =~= second);
    } else {
        assert((first + second)[0] == first[0]);
        assert((first + second).drop_first() =~= first.drop_first() + second);
        lemma_first_invalid_concat(first.drop_first(), second);
    }
}

/// The texts of a row of strings.
pub open spec fn texts(strings: Seq<String>) -> Seq<Seq<char>> {
    Seq::new(strings.len(), |i: int| strings[i]@)
}

/// A list of file patterns, each of them a valid glob.
#[derive(Debug)]
pub struct PatternList {
    sources: Vec<String>,
}

impl View for PatternList {
    type V = Seq<Seq<char>>;

    closed spec fn view(&self) -> Seq<Seq<char>> {
        texts(self.sources@)
    }
}

impl PatternList {
    #[verifier::type_invariant]
    spec fn every_pattern_compiles(&self) -> bool {
        all_compile(texts(self.sources@))
    }

    /// The list without patterns, which selects nothing.
    pub fn empty() -> (list: Self)
        ensures
            list@.len() == 0,
    {
        PatternList { sources: Vec::new() }
    }

    /// Checks each of `sources` and keeps them all, or reports the first that
    /// is no valid glob.
    pub fn compile(sources: Vec<String>) -> (list: Result<Self, Error>)
        ensures
            match first_invalid(texts(sources@)) {
                None => (list matches Ok(l) && l@ == texts(sources@)),
                Some(bad) => (list matches Err(Error::InvalidPattern { pattern }) && pattern@
                    == bad),
            },
            list is Ok <==> all_compile(texts(sources@)),
    {
        let mut at: usize = 0;
        while at < sources.len()
            invariant
                at <= sources@.len(),
                forall|j: int| 0 <= j < at ==> glob_compiles(#[trigger] texts(sources@)[j]),
            decreases sources@.len() - at,
        {
            assert(texts(sources@)[at as int] == sources@[at as int]@);
            if !compiles(sources[at].as_str()) {
                proof {
                    lemma_first_invalid(texts(sources@), at as int);
                }
                return Err(Error::InvalidPattern { pattern: sources[at].clone() });
            }
            at += 1;
        }
        proof {
            lemma_first_invalid(texts(sources@), at as int);
        }
        Ok(PatternList { sources })
    }

    /// Number of patterns.
    pub fn len(&self) -> (count: usize)
        ensures
            count == self@.len(),
            all_compile(self@),
    {
        proof {
            use_type_invariant(self);
        }
        self.sources.len()
    }

    /// The pattern at a position, as it was written.
    pub fn source_at(&self, at: usize) -> (source: &String)
        requires
            at < self@.len(),
        ensures
            source@ == self@[at as int],
    {
        &self.sources[at]
    }

    /// Whether one of the patterns selects the file `name`.
    pub fn matches(&self, name: &str) -> (hit: bool)
        ensures
            hit == any_matches(self@, name@),
    {
        proof {
            use_type_invariant(self);
        }
        let mut at: usize = 0;
        while at < self.sources.len()
            invariant
                at <= self.sources@.len(),
                all_compile(texts(self.sources@)),
                forall|j: int| 0 <= j < at ==> !pattern_matches(#[trigger] self@[j], name@),
            decreases self.sources@.len() - at,
        {
            assert(self@[at as int] == self.sources@[at as int]@);
            if matches_with(self.sources[at].as_str(), name, true, true, true) {
                return true;
            }
            at += 1;
        }
        false
    }
}

} // verus!
