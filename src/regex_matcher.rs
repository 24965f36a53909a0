//! A matching capability backed by a compiled regular expression.
use crate::range::Range;
use crate::searcher::{bounds_of, MatchModel, Matcher};
use vstd::prelude::*;

verus! {

#[verifier::external_type_specification]
#[verifier::external_body]
pub struct ExRegex(regex::bytes::Regex);

#[verifier::external_type_specification]
#[verifier::external_body]
pub struct ExRegexError(regex::Error);

/// Options handed unchanged to the regular-expression compiler.
#[derive(Clone, Copy, Debug, PartialEq, Eq)]
pub struct RegexConfig {
    pub case_insensitive: bool,
    /// Match without regard to case unless the pattern holds an uppercase character.
    pub case_smart: bool,
    pub multi_line: bool,
    pub dot_matches_new_line: bool,
    pub swap_greed: bool,
    pub ignore_whitespace: bool,
    pub unicode: bool,
    pub octal: bool,
    pub size_limit: usize,
    pub dfa_size_limit: usize,
    pub nest_limit: u32,
}

/// The default limit on the size of a compiled program, in bytes (100 MiB).
pub const DEFAULT_SIZE_LIMIT: usize = 104857600;

/// The default limit on the size of the lazy automaton's cache, in bytes (1000 MiB).
pub const DEFAULT_DFA_SIZE_LIMIT: usize = 1048576000;

/// The default limit on the nesting depth of a pattern.
pub const DEFAULT_NEST_LIMIT: u32 = 250;

impl Default for RegexConfig {
    /// Unicode on, generous size limits, every other option off.
    fn default() -> (c: RegexConfig)
        ensures
            !c.case_insensitive && !c.case_smart && !c.multi_line && !c.dot_matches_new_line,
            !c.swap_greed && !c.ignore_whitespace && c.unicode && !c.octal,
            c.size_limit == DEFAULT_SIZE_LIMIT,
            c.dfa_size_limit == DEFAULT_DFA_SIZE_LIMIT,
            c.nest_limit == DEFAULT_NEST_LIMIT,
    {
        RegexConfig {
            case_insensitive: false,
            case_smart: false,
            multi_line: false,
            dot_matches_new_line: false,
            swap_greed: false,
            ignore_whitespace: false,
            unicode: true,
            octal: false,
            size_limit: DEFAULT_SIZE_LIMIT,
            dfa_size_limit: DEFAULT_DFA_SIZE_LIMIT,
            nest_limit: DEFAULT_NEST_LIMIT,
        }
    }
}

/// Whether the character is uppercase in the Unicode sense.
pub uninterp spec fn is_uppercase_char(c: char) -> bool;

/// Relies on `char::is_uppercase`: the answer depends on the character alone, and the
/// ASCII letters `A` to `Z` are uppercase while `a` to `z` are not.
#[verifier::external_body]
fn char_is_uppercase(c: char) -> (r: bool)
    ensures
        r == is_uppercase_char(c),
        'A' <= c <= 'Z' ==> r,
        'a' <= c <= 'z' ==> !r,
{
    c.is_uppercase()
}

/// True when some character of `s` is uppercase.
pub open spec fn has_uppercase(s: Seq<char>) -> bool {
    exists|i: int| 0 <= i < s.len() && is_uppercase_char(#[trigger] s[i])
}

/// Whether `pattern` is to be matched without regard to case under `config`.
pub open spec fn folds_case(config: RegexConfig, pattern: Seq<char>) -> bool {
    config.case_insensitive || (config.case_smart && !has_uppercase(pattern))
}

/// Whether `pattern` is matched without regard to case: always when the configuration
/// asks for it, and in smart mode when the pattern holds no uppercase character.
pub fn effective_case_insensitive(config: &RegexConfig, pattern: &str) -> (r: bool)
    ensures
        r == folds_case(*config, pattern@),
{
    if config.case_insensitive {
        return true;
    }
    if !config.case_smart {
        return false;
    }
    let n = pattern.unicode_len();
    let mut i: usize = 0;
    while i < n
        invariant
            n == pattern@.len(),
            i <= n,
            config.case_smart && !config.case_insensitive,
            forall|k: int| 0 <= k < i ==> !is_uppercase_char(#[trigger] pattern@[k]),
        decreases n - i,
    {
        let c = pattern.get_char(i);
        if char_is_uppercase(c) {
            assert(is_uppercase_char(pattern@[i as int]));
            return false;
        }
        i = i + 1;
    }
    true
}

/// Whether `pattern` compiles with case folding as `case_insensitive` says and the other
/// options of `config`.
pub uninterp spec fn regex_compiles(
    pattern: Seq<char>,
    case_insensitive: bool,
    config: RegexConfig,
) -> bool;

/// Relies on `regex::bytes::RegexBuilder`: compiles `pattern` with each option of
/// `config` set as given, and with case folding as `case_insensitive` says; whether it
/// succeeds depends on the pattern and the options alone.
#[verifier::external_body]
fn compile(pattern: &str, config: &RegexConfig, case_insensitive: bool) -> (r: Result<
    regex::bytes::Regex,
    regex::Error,
>)
    ensures
        r is Ok == regex_compiles(pattern@, case_insensitive, *config),
{
    regex::bytes::RegexBuilder::new(pattern)
        .case_insensitive(case_insensitive)
        .multi_line(config.multi_line)
        .dot_matches_new_line(config.dot_matches_new_line)
        .swap_greed(config.swap_greed)
        .ignore_whitespace(config.ignore_whitespace)
        .unicode(config.unicode)
        .octal(config.octal)
        .size_limit(config.size_limit)
        .dfa_size_limit(config.dfa_size_limit)
        .nest_limit(config.nest_limit)
        .build()
}

/// The bounds of the leftmost match at or after `at` in `haystack` of the expression
/// compiled from `pattern` with case folding as `case_insensitive` says and the other
/// options of `config`.
pub uninterp spec fn regex_match_at(
    pattern: Seq<char>,
    case_insensitive: bool,
    config: RegexConfig,
    haystack: Seq<u8>,
    at: int,
) -> Option<(int, int)>;

/// Relies on `regex::bytes::Regex::find_at`, which panics when `at` is past the end and
/// otherwise returns the leftmost match inside `content` that starts at or after `at`;
/// the expression searched is the one `RegexMatcher::new` compiled for `m`, so the result
/// depends on its pattern, its options, `content` and `at` alone.
#[verifier::external_body]
fn regex_find_at(m: &RegexMatcher, content: &[u8], at: usize) -> (r: Option<Range>)
    requires
        at <= content@.len(),
    ensures
        bounds_of(r) == regex_match_at(
            m.pattern_spec(),
            m.fold_spec(),
            m.config_spec(),
            content@,
            at as int,
        ),
        r matches Some(x) ==> at <= x.lo() <= x.hi() <= content@.len(),
{
    m.regex.find_at(content, at).map(|x| Range::new(x.start(), x.end()))
}

/// A pattern that failed to compile, with the compiler's reason.
#[derive(Debug)]
pub struct PatternError {
    pub pattern: String,
    pub cause: regex::Error,
}

/// A matching capability built from a pattern and a configuration.
pub struct RegexMatcher {
    regex: regex::bytes::Regex,
    pattern: Ghost<Seq<char>>,
    fold: Ghost<bool>,
    config: RegexConfig,
}

impl RegexMatcher {
    /// The pattern the expression was compiled from.
    pub closed spec fn pattern_spec(self) -> Seq<char> {
        self.pattern@
    }

    /// The options the expression was compiled with.
    pub closed spec fn config_spec(self) -> RegexConfig {
        self.config
    }

    /// Whether the expression matches without regard to case.
    pub closed spec fn fold_spec(self) -> bool {
        self.fold@
    }

    /// Compiles `pattern` under `config`, folding case as `effective_case_insensitive` says.
    pub fn new(pattern: &str, config: &RegexConfig) -> (r: Result<RegexMatcher, PatternError>)
        ensures
            r is Ok == regex_compiles(pattern@, folds_case(*config, pattern@), *config),
            r matches Ok(m) ==> m.pattern_spec() == pattern@ && m.config_spec() == *config
                && m.fold_spec() == folds_case(*config, pattern@),
            r matches Err(e) ==> e.pattern@ == pattern@,
    {
        let fold = effective_case_insensitive(config, pattern);
        match compile(pattern, config, fold) {
            Ok(regex) => Ok(
                RegexMatcher { regex, pattern: Ghost(pattern@), fold: Ghost(fold), config: *config },
            ),
            Err(cause) => Err(PatternError { pattern: pattern.to_string(), cause }),
        }
    }
}

impl MatchModel for RegexMatcher {
    open spec fn found_at(&self, content: Seq<u8>, at: int) -> Option<(int, int)> {
        regex_match_at(self.pattern_spec(), self.fold_spec(), self.config_spec(), content, at)
    }
}

impl Matcher for RegexMatcher {
    /// A search through a compiled expression cannot fail.
    type Error = std::convert::Infallible;

    open spec fn infallible(&self) -> bool {
        true
    }


    fn find_at(&self, content: &[u8], at: usize) -> (r: Result<Option<Range>, std::convert::Infallible>) {
        let r = regex_find_at(self, content, at);
        assert(bounds_of(r) == self.found_at(content@, at as int));
        Ok(r)
    }
}

} // verus!
