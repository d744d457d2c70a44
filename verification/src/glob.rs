//! Shell-style file name patterns, matched by the `globset` crate.

use globset::{Glob, GlobSet, GlobSetBuilder};
use vstd::prelude::*;
use vstd::utf8::encode_utf8;

verus! {

/// The length in bytes up to which a pattern is handed to `globset`.
pub const MAX_PATTERN_BYTES: usize = 0x4000_0000;

/// The number of opening braces up to which a pattern is handed to `globset`.
pub const MAX_PATTERN_BRACES: usize = 256;

#[verifier::external_type_specification]
#[verifier::external_body]
pub struct ExGlobSet(GlobSet);

/// Whether `globset` makes a matcher of the text: it parses the text as a glob
/// pattern and builds a set of that one pattern.
pub uninterp spec fn glob_builds(pattern: Seq<char>) -> bool;

/// Whether the glob `pattern`, built with `globset`'s default options, matches
/// `name`.
pub uninterp spec fn glob_match(pattern: Seq<char>, name: Seq<char>) -> bool;

/// The number of opening braces among the first `n` bytes.
pub open spec fn braces_before(bytes: Seq<u8>, n: nat) -> nat
    decreases n,
{
    if n == 0 {
        0
    } else if bytes[n - 1] == 0x7b {
        braces_before(bytes, (n - 1) as nat) + 1
    } else {
        braces_before(bytes, (n - 1) as nat)
    }
}

/// Whether a pattern is within the limits up to which `globset` is known to build a
/// matcher or to refuse: no longer than `MAX_PATTERN_BYTES`, with no more than
/// `MAX_PATTERN_BRACES` opening braces.
pub open spec fn within_limits(pattern: Seq<char>) -> bool {
    encode_utf8(pattern).len() <= MAX_PATTERN_BYTES && braces_before(
        encode_utf8(pattern),
        encode_utf8(pattern).len(),
    ) <= MAX_PATTERN_BRACES
}

/// A built pattern together with its text. A filter is only ever made by
/// `matcher_for`, so the built form always belongs to the text.
pub struct NameFilter {
    pattern: String,
    matcher: GlobSet,
}

impl NameFilter {
    /// The text of the pattern.
    pub closed spec fn pattern_text(&self) -> Seq<char> {
        self.pattern@
    }

    /// The text of the pattern.
    pub fn pattern(&self) -> (text: &str)
        ensures
            text@ == self.pattern_text(),
    {
        self.pattern.as_str()
    }
}

/// Parses a pattern with `Glob::new` and builds a set of that one pattern with
/// `GlobSetBuilder::add` and `GlobSetBuilder::build`, which hands back an error
/// where the pattern's automaton cannot be built. The result is `Some` exactly
/// where both succeed. The limits keep away from two places where `globset` does
/// not hand back an error: it walks nested braces by recursion, to a depth that the
/// number of opening braces bounds, and it unwraps the building of its prefix and
/// suffix matchers, which fails only for literals of about 2^31 bytes.
#[verifier::external_body]
fn build(pattern: &str) -> (matcher: Option<GlobSet>)
    requires
        within_limits(pattern@),
    ensures
        matcher.is_some() == glob_builds(pattern@),
{
    GlobSetBuilder::new().add(Glob::new(pattern).ok()?).build().ok()
}

/// Calls `GlobSet::is_match` with the built form of a filter on a file name. The
/// result is taken on trust to be what `glob_match` names for the filter's pattern
/// text, which the built form was made from.
#[verifier::external_body]
fn is_match(filter: &NameFilter, name: &str) -> (matched: bool)
    ensures
        matched == glob_match(filter.pattern_text(), name@),
{
    filter.matcher.is_match(name)
}

/// Whether a pattern can be used as a filter: it is within the limits and `globset`
/// makes a matcher of it.
pub open spec fn usable(pattern: Seq<char>) -> bool {
    within_limits(pattern) && glob_builds(pattern)
}

/// Whether a file name passes the name filter that `pattern` stands for. A pattern
/// that cannot be used filters nothing.
pub open spec fn name_passes(pattern: Seq<char>, name: Seq<char>) -> bool {
    usable(pattern) ==> glob_match(pattern, name)
}

/// The pattern text of an optional filter.
pub open spec fn pattern_of(filter: Option<NameFilter>) -> Option<Seq<char>> {
    match filter {
        Some(f) => Some(f.pattern_text()),
        None => None,
    }
}

/// Whether the bytes hold no more than `MAX_PATTERN_BRACES` opening braces.
fn few_braces(bytes: &[u8]) -> (few: bool)
    ensures
        few == (braces_before(bytes@, bytes@.len()) <= MAX_PATTERN_BRACES),
{
    let mut count: usize = 0;
    let mut i: usize = 0;
    while i < bytes.len()
        invariant
            i <= bytes@.len(),
            count == braces_before(bytes@, i as nat),
            count <= MAX_PATTERN_BRACES,
        decreases bytes.len() - i,
    {
        if bytes[i] == 0x7b {
            if count == MAX_PATTERN_BRACES {
                proof {
                    lemma_braces_grow(bytes@, (i + 1) as nat, bytes@.len());
                }
                return false;
            }
            count += 1;
        }
        i += 1;
    }
    true
}

/// The count of opening braces only grows with the bytes looked at.
proof fn lemma_braces_grow(bytes: Seq<u8>, m: nat, n: nat)
    requires
        m <= n <= bytes.len(),
    ensures
        braces_before(bytes, m) <= braces_before(bytes, n),
    decreases n,
{
    if n > m {
        lemma_braces_grow(bytes, m, (n - 1) as nat);
    }
}

/// Makes the filter of a pattern, or returns `None` where the pattern cannot be
/// used.
pub fn matcher_for(pattern: &str) -> (filter: Option<NameFilter>)
    ensures
        filter.is_some() == usable(pattern@),
        filter matches Some(f) ==> f.pattern_text() == pattern@,
{
    let bytes = pattern.as_bytes();
    if bytes.len() > MAX_PATTERN_BYTES || !few_braces(bytes) {
        return None;
    }
    match build(pattern) {
        Some(matcher) => Some(NameFilter { pattern: pattern.to_owned(), matcher }),
        None => None,
    }
}

/// Applies an optional filter to a file name; no filter lets every name pass.
pub fn passes(filter: &Option<NameFilter>, name: &str) -> (pass: bool)
    ensures
        pass == match *filter {
            Some(f) => glob_match(f.pattern_text(), name@),
            None => true,
        },
{
    match filter {
        Some(f) => is_match(f, name),
        None => true,
    }
}

} // verus!
