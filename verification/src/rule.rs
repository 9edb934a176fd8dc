//! Inclusion and exclusion rules over path strings.
//!
//! A rule is a glob pattern (compiled by `globber`) or a regular expression
//! (compiled by `pcre2`); a rule set holds an ordered inclusion list and an
//! ordered exclusion list. A path passes when some inclusion matches it and
//! no exclusion does.

use vstd::prelude::*;

verus! {

/// Outcome of evaluating a path against a rule set.
#[derive(Debug, Clone, Copy, PartialEq, Eq, Structural)]
pub enum Status {
    /// Failed because no inclusion rule matched.
    NotIncluded,
    /// Was included but matched an exclusion rule, so it did not pass.
    Excluded,
    /// Passed.
    Passed,
}

impl Status {
    /// Whether the status is `Ok`.
    pub fn is_ok(&self) -> (r: bool)
        ensures
            r == (*self is Passed),
    {
        match self {
            Status::Passed => true,
            _ => false,
        }
    }
}

#[verifier::external_type_specification]
#[verifier::external_body]
pub struct ExPattern(globber::Pattern);

#[verifier::external_type_specification]
#[verifier::external_body]
pub struct ExPatternError(globber::Error);

#[verifier::external_type_specification]
#[verifier::external_body]
pub struct ExRegex(pcre2::bytes::Regex);

#[verifier::external_type_specification]
#[verifier::external_body]
pub struct ExRegexError(pcre2::Error);

/// A pattern compilation failure from one of the two matcher engines.
#[derive(Debug)]
pub enum RuleError {
    /// The regular expression engine rejected the pattern.
    Regex(pcre2::Error),
    /// The glob engine rejected the pattern.
    Pattern(globber::Error),
}

/// Whether `globber::Pattern::new` accepts the pattern text.
pub uninterp spec fn glob_pattern_ok(pattern: Seq<char>) -> bool;

/// What `globber::Pattern::matches` answers for a pattern text and a value.
pub uninterp spec fn glob_matches(pattern: Seq<char>, value: Seq<char>) -> bool;

/// Whether `pcre2::bytes::Regex::new` accepts the pattern text.
pub uninterp spec fn regex_pattern_ok(pattern: Seq<char>) -> bool;

/// What `pcre2::bytes::Regex::is_match` answers for a pattern text and a
/// value, an engine-side match error counting as no match.
pub uninterp spec fn regex_matches(pattern: Seq<char>, value: Seq<char>) -> bool;

/// A rule that matches its input against an extended glob pattern.
pub struct GlobRule {
    pattern: String,
    inner: globber::Pattern,
}

impl View for GlobRule {
    type V = Seq<char>;

    /// The pattern text this rule was compiled from.
    closed spec fn view(&self) -> Seq<char> {
        self.pattern@
    }
}

impl GlobRule {
    /// Creates a new glob rule from a pattern.
    ///
    /// Relies on globber::Pattern::new: compilation succeeds or fails on the
    /// pattern text alone, and the compiled pattern matches as the text says.
    #[verifier::external_body]
    pub fn new(pattern: &str) -> (r: Result<GlobRule, RuleError>)
        ensures
            r is Ok <==> glob_pattern_ok(pattern@),
            r matches Ok(g) ==> g@ == pattern@,
    {
        match globber::Pattern::new(pattern) {
            Ok(inner) => Ok(GlobRule { pattern: pattern.to_owned(), inner }),
            Err(e) => Err(RuleError::Pattern(e)),
        }
    }

    /// Relies on globber::Pattern::matches: the answer depends on the pattern
    /// text and the value alone.
    #[verifier::external_body]
    fn match_value(&self, value: &str) -> (r: bool)
        ensures
            r == glob_matches(self@, value@),
    {
        self.inner.matches(value)
    }
}

/// A rule that matches its input against a regular expression.
pub struct RegexRule {
    pattern: String,
    inner: pcre2::bytes::Regex,
}

impl View for RegexRule {
    type V = Seq<char>;

    /// The pattern text this rule was compiled from.
    closed spec fn view(&self) -> Seq<char> {
        self.pattern@
    }
}

impl RegexRule {
    /// Creates a new regex rule from a pattern.
    ///
    /// Relies on pcre2::bytes::Regex::new: compilation succeeds or fails on
    /// the pattern text alone.
    #[verifier::external_body]
    pub fn new(pattern: &str) -> (r: Result<RegexRule, RuleError>)
        ensures
            r is Ok <==> regex_pattern_ok(pattern@),
            r matches Ok(g) ==> g@ == pattern@,
    {
        match pcre2::bytes::Regex::new(pattern) {
            Ok(inner) => Ok(RegexRule { pattern: pattern.to_owned(), inner }),
            Err(e) => Err(RuleError::Regex(e)),
        }
    }

    /// Relies on pcre2::bytes::Regex::is_match: the answer depends on the
    /// pattern text and the value alone; a match-time engine error counts as
    /// no match.
    #[verifier::external_body]
    fn match_value(&self, value: &str) -> (r: bool)
        ensures
            r == regex_matches(self@, value@),
    {
        self.inner.is_match(value.as_bytes()).unwrap_or(false)
    }
}

/// A rule: anything that answers whether a path value matches it.
pub trait Rule {
    /// What this rule answers for a value.
    spec fn matches_spec(&self, value: Seq<char>) -> bool;

    /// Takes a value and answers whether the rule matches it.
    fn matches(&self, value: &str) -> (r: bool)
        ensures
            r == self.matches_spec(value@),
    ;
}

impl Rule for GlobRule {
    open spec fn matches_spec(&self, value: Seq<char>) -> bool {
        glob_matches(self@, value)
    }

    fn matches(&self, value: &str) -> (r: bool) {
        self.match_value(value)
    }
}

impl Rule for RegexRule {
    open spec fn matches_spec(&self, value: Seq<char>) -> bool {
        regex_matches(self@, value)
    }

    fn matches(&self, value: &str) -> (r: bool) {
        self.match_value(value)
    }
}

/// One rule of either kind, dispatched by tag.
pub enum Matcher {
    /// A glob rule.
    Glob(GlobRule),
    /// A regex rule.
    Regex(RegexRule),
}

impl Rule for Matcher {
    open spec fn matches_spec(&self, value: Seq<char>) -> bool {
        match self {
            Matcher::Glob(g) => g.matches_spec(value),
            Matcher::Regex(r) => r.matches_spec(value),
        }
    }

    fn matches(&self, value: &str) -> (r: bool) {
        match self {
            Matcher::Glob(g) => g.matches(value),
            Matcher::Regex(r) => r.matches(value),
        }
    }
}

/// Whether some rule in the list matches the value.
pub open spec fn seq_matches(rules: Seq<Matcher>, value: Seq<char>) -> bool {
    exists|i: int| 0 <= i < rules.len() && (#[trigger] rules[i]).matches_spec(value)
}

/// Holds both exclusion and inclusion rules.
pub struct Rules {
    inclusion: Vec<Matcher>,
    exclusion: Vec<Matcher>,
}

impl Rules {
    /// The inclusion list.
    pub closed spec fn inc(&self) -> Seq<Matcher> {
        self.inclusion@
    }

    /// The exclusion list.
    pub closed spec fn exc(&self) -> Seq<Matcher> {
        self.exclusion@
    }

    /// Whether some inclusion rule matches the value.
    pub open spec fn included_spec(&self, value: Seq<char>) -> bool {
        seq_matches(self.inc(), value)
    }

    /// Whether some exclusion rule matches the value.
    pub open spec fn excluded_spec(&self, value: Seq<char>) -> bool {
        seq_matches(self.exc(), value)
    }

    /// Whether the value is included and not excluded.
    pub open spec fn passes_spec(&self, value: Seq<char>) -> bool {
        self.included_spec(value) && !self.excluded_spec(value)
    }

    /// Constructs an empty rule set.
    pub fn new() -> (r: Self)
        ensures
            r.inc() == Seq::<Matcher>::empty(),
            r.exc() == Seq::<Matcher>::empty(),
    {
        let r = Rules { inclusion: Vec::new(), exclusion: Vec::new() };
        proof {
            assert(r.inc() =~= Seq::<Matcher>::empty());
            assert(r.exc() =~= Seq::<Matcher>::empty());
        }
        r
    }

    /// Checks whether the value matches at least one inclusion rule.
    pub fn included(&self, value: &str) -> (r: Status)
        ensures
            r == (if self.included_spec(value@) {
                Status::Passed
            } else {
                Status::NotIncluded
            }),
    {
        let n = self.inclusion.len();
        let mut i: usize = 0;
        while i < n
            invariant
                n == self.inclusion.len(),
                0 <= i <= n,
                forall|j: int| 0 <= j < i ==> !(#[trigger] self.inc()[j]).matches_spec(value@),
            decreases n - i,
        {
            if self.inclusion[i].matches(value) {
                return Status::Passed;
            }
            i += 1;
        }
        Status::NotIncluded
    }

    /// Checks whether the value matches some exclusion rule.
    pub fn excluded(&self, value: &str) -> (r: Status)
        ensures
            r == (if self.excluded_spec(value@) {
                Status::Excluded
            } else {
                Status::Passed
            }),
    {
        let n = self.exclusion.len();
        let mut i: usize = 0;
        while i < n
            invariant
                n == self.exclusion.len(),
                0 <= i <= n,
                forall|j: int| 0 <= j < i ==> !(#[trigger] self.exc()[j]).matches_spec(value@),
            decreases n - i,
        {
            if self.exclusion[i].matches(value) {
                return Status::Excluded;
            }
            i += 1;
        }
        Status::Passed
    }

    /// Evaluates the value: included and not excluded passes.
    pub fn passes(&self, value: &str) -> (r: Status)
        ensures
            r == (if !self.included_spec(value@) {
                Status::NotIncluded
            } else if self.excluded_spec(value@) {
                Status::Excluded
            } else {
                Status::Passed
            }),
            r is Passed <==> self.passes_spec(value@),
    {
        let inc = self.included(value);
        match inc {
            Status::NotIncluded => Status::NotIncluded,
            _ => self.excluded(value),
        }
    }

    /// Adds an inclusion rule.
    pub fn add_inclusion(&mut self, rule: Matcher)
        ensures
            final(self).inc() == old(self).inc().push(rule),
            final(self).exc() == old(self).exc(),
    {
        self.inclusion.push(rule);
    }

    /// Adds an exclusion rule.
    pub fn add_exclusion(&mut self, rule: Matcher)
        ensures
            final(self).exc() == old(self).exc().push(rule),
            final(self).inc() == old(self).inc(),
    {
        self.exclusion.push(rule);
    }

    /// Appends all rules from another rule set.
    pub fn add_all(&mut self, rules: Rules)
        ensures
            final(self).inc() == old(self).inc() + rules.inc(),
            final(self).exc() == old(self).exc() + rules.exc(),
    {
        let Rules { inclusion, exclusion } = rules;
        let mut inclusion = inclusion;
        let mut exclusion = exclusion;
        self.inclusion.append(&mut inclusion);
        self.exclusion.append(&mut exclusion);
    }

    /// Getter for the inclusion list.
    pub fn inclusion_list(&self) -> (r: &Vec<Matcher>)
        ensures
            r@ == self.inc(),
    {
        &self.inclusion
    }

    /// Getter for the exclusion list.
    pub fn exclusion_list(&self) -> (r: &Vec<Matcher>)
        ensures
            r@ == self.exc(),
    {
        &self.exclusion
    }
}

impl Default for Rules {
    /// An empty rule set.
    fn default() -> (r: Self)
        ensures
            r.inc() == Seq::<Matcher>::empty(),
            r.exc() == Seq::<Matcher>::empty(),
    {
        Rules::new()
    }
}

} // verus!
