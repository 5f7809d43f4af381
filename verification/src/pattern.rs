//! Regular-expression rules, matched by the `regex` crate.
use vstd::prelude::*;

verus! {

/// A compiled regular expression of the `regex` crate.
#[verifier::external_type_specification]
#[verifier::external_body]
pub struct ExRegex(regex::Regex);

/// The error that the `regex` crate gives for a pattern it does not take.
#[verifier::external_type_specification]
#[verifier::external_body]
pub struct ExRegexError(regex::Error);

/// Whether `Regex::new` takes a pattern.
pub uninterp spec fn regex_takes(pattern: Seq<char>) -> bool;

/// Whether the regular expression that `Regex::new` makes of a pattern matches
/// somewhere in a text, as `Regex::is_match` says.
pub uninterp spec fn regex_finds(pattern: Seq<char>, text: Seq<char>) -> bool;

/// The pattern that a regular expression was made of, where it was made by
/// `Regex::new`, with the default options.
pub uninterp spec fn regex_pattern(re: regex::Regex) -> Option<Seq<char>>;

/// `Regex::new` compiles a pattern with the default options. Whether it takes
/// the pattern depends on the pattern alone, among machines with words of the
/// same size: the bound on the size of a compiled pattern is in bytes.
pub assume_specification[ regex::Regex::new ](re: &str) -> (r: Result<regex::Regex, regex::Error>)
    ensures
        match r {
            Ok(x) => regex_takes(re@) && regex_pattern(x) == Some(re@),
            Err(_) => !regex_takes(re@),
        },
;

/// `Regex::is_match` depends on the pattern and the text alone, for a regular
/// expression with the default options. Nothing is said of one with others.
pub assume_specification[ regex::Regex::is_match ](re: &regex::Regex, haystack: &str) -> (r: bool)
    ensures
        regex_pattern(*re) matches Some(p) ==> r == regex_finds(p, haystack@),
;

/// `Regex::as_str` gives the pattern that the regular expression was made of.
pub assume_specification[ regex::Regex::as_str ](re: &regex::Regex) -> (r: &str)
    ensures
        regex_pattern(*re) matches Some(p) ==> r@ == p,
;

/// A pattern compiled with the default options.
pub struct Pattern {
    re: regex::Regex,
}

impl View for Pattern {
    type V = Seq<char>;

    /// The source of the pattern.
    closed spec fn view(&self) -> Seq<char> {
        regex_pattern(self.re)->Some_0
    }
}

impl Pattern {
    #[verifier::type_invariant]
    spec fn well_formed(self) -> bool {
        regex_pattern(self.re) is Some
    }

    /// Compiles a pattern; `None` where it is not a regular expression.
    pub fn compile(source: &str) -> (r: Option<Pattern>)
        ensures
            match r {
                Some(p) => regex_takes(source@) && p@ == source@,
                None => !regex_takes(source@),
            },
    {
        match regex::Regex::new(source) {
            Ok(re) => Some(Pattern { re }),
            Err(_) => None,
        }
    }

    /// Whether the pattern matches somewhere in `text`.
    pub fn is_match(&self, text: &str) -> (r: bool)
        ensures
            r == regex_finds(self@, text@),
    {
        proof {
            use_type_invariant(self);
        }
        self.re.is_match(text)
    }

    /// The source of the pattern.
    pub fn as_str(&self) -> (r: &str)
        ensures
            r@ == self@,
    {
        proof {
            use_type_invariant(self);
        }
        self.re.as_str()
    }
}

} // verus!
