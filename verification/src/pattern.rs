//! Compiled regular expressions: the one place the crate trusts the
//! regex engine. A compiled pattern carries the source text and case flag
//! it was built from, and matching is a function of those and the text.

use vstd::prelude::*;

verus! {

#[verifier::external_type_specification]
#[verifier::external_body]
pub struct ExRegex(regex::Regex);

#[verifier::external_type_specification]
#[verifier::external_body]
pub struct ExRegexError(regex::Error);

/// A compiled pattern together with the source it was built from. Only
/// this module constructs one, so the engine value always belongs to the
/// recorded source and flag.
pub struct CompiledPattern {
    re: regex::Regex,
    src: String,
    ci: bool,
}

impl CompiledPattern {
    /// The pattern text this was compiled from.
    pub closed spec fn src_spec(&self) -> Seq<char> {
        self.src@
    }

    /// Whether it matches case-insensitively.
    pub closed spec fn ci_spec(&self) -> bool {
        self.ci
    }

    /// The pattern text this was compiled from.
    pub fn source(&self) -> (r: &str)
        ensures
            r@ == self.src_spec(),
    {
        self.src.as_str()
    }
}

/// Whether the engine accepts `src` as a pattern: a function of the
/// pattern text and case flag alone.
pub uninterp spec fn regex_accepts(src: Seq<char>, ci: bool) -> bool;

/// What matching a compiled pattern against a text returns: a function of
/// the pattern text, its case flag, and the text alone.
pub uninterp spec fn regex_match(src: Seq<char>, ci: bool, text: Seq<char>) -> bool;

/// Relies on regex's `RegexBuilder::build`: compiling is deterministic in
/// the pattern text and the case-insensitive flag; the compiled engine
/// value is stored beside the text and flag it came from.
#[verifier::external_body]
fn build_pattern(src: &str, ci: bool) -> (r: Result<CompiledPattern, regex::Error>)
    ensures
        r is Ok <==> regex_accepts(src@, ci),
        r is Ok ==> r->Ok_0.src_spec() == src@ && r->Ok_0.ci_spec() == ci,
{
    match regex::RegexBuilder::new(src).case_insensitive(ci).build() {
        Ok(re) => Ok(CompiledPattern { re, src: src.to_owned(), ci }),
        Err(e) => Err(e),
    }
}

/// The message reported for a pattern the engine rejects.
pub open spec fn invalid_pattern_msg(src: Seq<char>) -> Seq<char> {
    "Invalid pattern: \""@ + src + "\""@
}

/// Compile `src`, case-insensitively when `ci` is set. Succeeds exactly
/// when the engine accepts the pattern; a rejected pattern yields the
/// message grep reports.
pub fn compile_pattern(src: &str, ci: bool) -> (r: Result<CompiledPattern, String>)
    ensures
        r is Ok <==> regex_accepts(src@, ci),
        r is Ok ==> r->Ok_0.src_spec() == src@ && r->Ok_0.ci_spec() == ci,
        r is Err ==> r->Err_0@ == invalid_pattern_msg(src@),
{
    match build_pattern(src, ci) {
        Ok(p) => Ok(p),
        Err(_) => {
            let mut m = "Invalid pattern: \"".to_owned();
            m.append(src);
            m.append("\"");
            proof {
                assert(m@ =~= invalid_pattern_msg(src@));
            }
            Err(m)
        },
    }
}

/// Relies on `Regex::is_match`: the result depends on the pattern text,
/// its case flag, and the text alone.
#[verifier::external_body]
pub(crate) fn pattern_matches(p: &CompiledPattern, text: &str) -> (r: bool)
    ensures
        r == regex_match(p.src_spec(), p.ci_spec(), text@),
{
    p.re.is_match(text)
}

} // verus!
