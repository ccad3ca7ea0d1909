//! Regular-expression filtering of container records by name.
use vstd::prelude::*;
use crate::backend::ConfigError;
use crate::stats::ContainerStats;

verus! {

#[verifier::external_type_specification]
#[verifier::external_body]
pub struct ExRegex(fancy_regex::Regex);

/// Whether a pattern is accepted by the regular-expression compiler.
pub uninterp spec fn pattern_compiles(pattern: Seq<char>) -> bool;

/// The outcome of searching `text` for `pattern` anywhere (unanchored):
/// `Some(found)`, or `None` where the matcher gave up (backtracking limit).
pub uninterp spec fn search_outcome(pattern: Seq<char>, text: Seq<char>) -> Option<bool>;

/// A compiled name filter. Its regex is always the compilation of `source`:
/// `NamePattern::new` is the only way to build one.
pub struct NamePattern {
    source: String,
    re: fancy_regex::Regex,
}

impl NamePattern {
    /// The pattern text this filter was compiled from.
    pub closed spec fn text(&self) -> Seq<char> {
        self.source@
    }

    /// Compiles a filter; an invalid pattern is a configuration error.
    pub fn new(pattern: &str) -> (r: Result<NamePattern, ConfigError>)
        ensures
            pattern_compiles(pattern@) <==> r is Ok,
            r matches Ok(p) ==> p.text() == pattern@,
            r matches Err(e) ==> e == ConfigError::InvalidPattern,
    {
        match compile_regex(pattern) {
            Some(re) => Ok(NamePattern { source: String::from_str(pattern), re }),
            None => Err(ConfigError::InvalidPattern),
        }
    }

    /// Searches `text` for this filter's pattern.
    pub fn search(&self, text: &str) -> (r: Option<bool>)
        ensures
            r == search_outcome(self.text(), text@),
    {
        regex_search(self, text)
    }
}

/// Relies on fancy_regex::Regex::new: it fails exactly on the patterns it
/// cannot parse or compile, and depends on the pattern text alone.
#[verifier::external_body]
fn compile_regex(pattern: &str) -> (r: Option<fancy_regex::Regex>)
    ensures
        r is Some <==> pattern_compiles(pattern@),
{
    fancy_regex::Regex::new(pattern).ok()
}

/// Relies on fancy_regex::Regex::is_match, on the regex that
/// `NamePattern::new` compiled from the filter's text: an unanchored search
/// whose outcome depends on the pattern and the text alone.
#[verifier::external_body]
fn regex_search(p: &NamePattern, text: &str) -> (r: Option<bool>)
    ensures
        r == search_outcome(p.text(), text@),
{
    p.re.is_match(text).ok()
}

/// The records whose name the pattern is found in, in their original order.
pub open spec fn kept_by(s: Seq<ContainerStats>, pattern: Seq<char>) -> Seq<ContainerStats>
    decreases s.len(),
{
    if s.len() == 0 {
        Seq::empty()
    } else if search_outcome(pattern, s.last().name@) == Some(true) {
        kept_by(s.drop_last(), pattern).push(s.last())
    } else {
        kept_by(s.drop_last(), pattern)
    }
}

/// Whether the matcher reached a verdict on every record's name.
pub open spec fn decided_for_all(s: Seq<ContainerStats>, pattern: Seq<char>) -> bool {
    forall|i: int| 0 <= i < s.len() ==> (#[trigger] search_outcome(pattern, s[i].name@)) is Some
}

/// Keeps the records whose name the pattern is found in. Fails with `None`
/// where the matcher gives up on some name.
pub fn filter(stats: Vec<ContainerStats>, pattern: &NamePattern) -> (r: Option<
    Vec<ContainerStats>,
>)
    ensures
        r is Some <==> decided_for_all(stats@, pattern.text()),
        r matches Some(v) ==> v@ == kept_by(stats@, pattern.text()),
{
    let ghost s0 = stats@;
    let mut out: Vec<ContainerStats> = Vec::new();
    let ghost mut i: int = 0;
    for x in it: stats
        invariant
            s0 == it.seq(),
            i == it.index(),
            i <= s0.len(),
            out@ == kept_by(s0.subrange(0, i), pattern.text()),
            decided_for_all(s0.subrange(0, i), pattern.text()),
    {
        proof {
            assert(s0.subrange(0, i + 1).drop_last() =~= s0.subrange(0, i));
        }
        match pattern.search(x.name.as_str()) {
            None => {
                assert(!decided_for_all(s0, pattern.text())) by {
                    assert(search_outcome(pattern.text(), s0[i].name@) is None);
                }
                return None;
            },
            Some(found) => {
                if found {
                    out.push(x);
                }
            },
        }
        proof {
            i = i + 1;
        }
        assert(decided_for_all(s0.subrange(0, i), pattern.text())) by {
            assert forall|k: int| 0 <= k < i implies (#[trigger] search_outcome(
                pattern.text(),
                s0.subrange(0, i)[k].name@,
            )) is Some by {
                if k < i - 1 {
                    assert(s0.subrange(0, i)[k] == s0.subrange(0, i - 1)[k]);
                }
            }
        }
    }
    assert(s0.subrange(0, i) =~= s0);
    Some(out)
}

} // verus!
