use vstd::prelude::*;

verus! {

#[verifier::external_type_specification]
#[verifier::external_body]
pub struct ExRegex(regex::Regex);

#[verifier::external_type_specification]
#[verifier::external_body]
pub struct ExRegexError(regex::Error);

/// Whether `pattern` is a regular expression that the engine accepts:
/// exactly the patterns on which `regex::Regex::new` returns `Ok`.
pub uninterp spec fn regex_valid(pattern: Seq<char>) -> bool;

/// The match that a search for `pattern` finds in `input` when it scans
/// from character position `pos` onward: `Some((start, end))` gives the
/// half-open character range of the leftmost match beginning at or after
/// `pos`, and `None` says that no match begins there or later. Anchors
/// and look-around see the whole of `input`, not just the tail.
pub uninterp spec fn find_from(pattern: Seq<char>, input: Seq<char>, pos: int) -> Option<(int, int)>;

/// Relies on `regex::Regex::new`: it compiles the pattern, returning
/// `Err` exactly on patterns the engine rejects.
#[verifier::external_body]
fn compile_regex(pattern: &str) -> (r: Result<regex::Regex, regex::Error>)
    ensures
        r is Ok <==> regex_valid(pattern@),
{
    regex::Regex::new(pattern)
}

/// The reason a `Rule` could not be built: its pattern half is not a
/// valid regular expression.
#[derive(Debug)]
pub struct InvalidRegex {
    pub pattern: String,
    pub source: regex::Error,
}

/// A single rewrite rule: a pattern, its literal replacement, and the
/// compiled form of the pattern. The compiled form is always the one
/// built from `pattern`, because construction goes through `Rule::new`
/// alone and fails atomically on an invalid pattern.
#[derive(Debug)]
pub struct Rule {
    pattern: String,
    replacement: String,
    compiled: regex::Regex,
}

/// The mathematical content of a `Rule`: the pattern and replacement texts.
pub struct RuleV {
    pub pattern: Seq<char>,
    pub replacement: Seq<char>,
}

impl View for Rule {
    type V = RuleV;

    closed spec fn view(&self) -> RuleV {
        RuleV { pattern: self.pattern@, replacement: self.replacement@ }
    }
}

impl Rule {
    /// Builds a rule from a pattern and a literal replacement. Succeeds,
    /// keeping both texts exactly, if and only if the pattern compiles.
    pub fn new(pattern: &str, replacement: &str) -> (r: Result<Rule, InvalidRegex>)
        ensures
            match r {
                Ok(rule) => regex_valid(pattern@)
                    && rule@.pattern == pattern@
                    && rule@.replacement == replacement@,
                Err(e) => !regex_valid(pattern@) && e.pattern@ == pattern@,
            },
    {
        match compile_regex(pattern) {
            Ok(compiled) => Ok(Rule {
                pattern: pattern.to_owned(),
                replacement: replacement.to_owned(),
                compiled,
            }),
            Err(source) => Err(InvalidRegex { pattern: pattern.to_owned(), source }),
        }
    }

    /// The pattern text this rule was built from.
    pub fn pattern(&self) -> (r: &str)
        ensures
            r@ == self@.pattern,
    {
        self.pattern.as_str()
    }

    /// The literal replacement text of this rule.
    pub fn replacement(&self) -> (r: &str)
        ensures
            r@ == self@.replacement,
    {
        self.replacement.as_str()
    }

    /// Relies on `regex::Regex::find_at`: it returns the leftmost match
    /// beginning at or after the given offset, whose bounds lie on
    /// character boundaries within the haystack. The byte offsets the
    /// engine works in are converted to character positions here, and
    /// the compiled expression searched is the one built from
    /// `self.pattern`, which `Rule::new` guarantees.
    #[verifier::external_body]
    pub(crate) fn find_at(&self, input: &str, pos: usize) -> (r: Option<(usize, usize)>)
        requires
            pos <= input@.len(),
        ensures
            match r {
                Some((s, e)) => find_from(self@.pattern, input@, pos as int)
                    == Some((s as int, e as int))
                    && pos <= s <= e <= input@.len(),
                None => find_from(self@.pattern, input@, pos as int) is None,
            },
    {
        let byte_pos = input.char_indices().nth(pos).map_or(input.len(), |(b, _)| b);
        self.compiled.find_at(input, byte_pos).map(|m| {
            (input[..m.start()].chars().count(), input[..m.end()].chars().count())
        })
    }
}

} // verus!
