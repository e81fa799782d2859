//! What Grep builds before it searches: the regular expression, the glob
//! filter and the file-type filter. Each may be refused, with the
//! builder's error text, by the outside crate.

use vstd::prelude::*;

use crate::error::{is_invalid_input, LiteCodeError};
use crate::grep::GrepPlan;
use crate::schema::GrepInput;

verus! {

#[verifier::external_type_specification]
#[verifier::external_body]
pub struct ExRegexMatcher(grep::regex::RegexMatcher);

#[verifier::external_type_specification]
#[verifier::external_body]
pub struct ExOverride(ignore::overrides::Override);

#[verifier::external_type_specification]
#[verifier::external_body]
pub struct ExTypes(ignore::types::Types);

/// The error text `grep`'s regex builder gives for `pattern` with these
/// options, or nothing when it accepts the pattern.
pub uninterp spec fn regex_refusal(pattern: Seq<char>, case_insensitive: bool, multiline: bool) -> Option<Seq<char>>;

/// The error text `ignore`'s override builder (rooted at `root`) gives for
/// the glob, or nothing when it accepts it.
pub uninterp spec fn glob_refusal(root: Seq<char>, glob: Seq<char>) -> Option<Seq<char>>;

/// The error text `ignore`'s type builder (with its default types) gives
/// when selecting the type `name`, or nothing when it accepts it.
pub uninterp spec fn type_refusal(name: Seq<char>) -> Option<Seq<char>>;

/// Builds Grep's regular expression.
///
/// Trusted: sets case insensitivity, multi-line and dot-matches-newline on
/// `grep::regex::RegexMatcherBuilder` and builds the pattern; whether it is
/// refused, and the error's text, are named `regex_refusal`.
#[verifier::external_body]
fn regex_matcher(pattern: &str, case_insensitive: bool, multiline: bool) -> (res: Result<
    grep::regex::RegexMatcher,
    String,
>)
    ensures
        match res {
            Ok(_) => regex_refusal(pattern@, case_insensitive, multiline) is None,
            Err(m) => regex_refusal(pattern@, case_insensitive, multiline) == Some(m@),
        },
{
    let mut builder = grep::regex::RegexMatcherBuilder::new();
    builder.case_insensitive(case_insensitive);
    builder.multi_line(multiline);
    builder.dot_matches_new_line(multiline);
    builder.build(pattern).map_err(|error| error.to_string())
}

/// Builds Grep's glob filter.
///
/// Trusted: adds the glob to an `ignore::overrides::OverrideBuilder` rooted
/// at `root` and builds it; whether it is refused, and the error's text,
/// are named `glob_refusal`.
#[verifier::external_body]
fn override_matcher(root: &str, glob: &str) -> (res: Result<ignore::overrides::Override, String>)
    ensures
        match res {
            Ok(_) => glob_refusal(root@, glob@) is None,
            Err(m) => glob_refusal(root@, glob@) == Some(m@),
        },
{
    let mut builder = ignore::overrides::OverrideBuilder::new(root);
    builder.add(glob).map_err(|error| error.to_string())?;
    builder.build().map_err(|error| error.to_string())
}

/// Builds Grep's file-type filter.
///
/// Trusted: selects the type on an `ignore::types::TypesBuilder` with its
/// default types and builds it; whether it is refused, and the error's
/// text, are named `type_refusal`.
#[verifier::external_body]
fn type_matcher(name: &str) -> (res: Result<ignore::types::Types, String>)
    ensures
        match res {
            Ok(_) => type_refusal(name@) is None,
            Err(m) => type_refusal(name@) == Some(m@),
        },
{
    let mut builder = ignore::types::TypesBuilder::new();
    builder.add_defaults();
    builder.select(name);
    builder.build().map_err(|error| error.to_string())
}

/// The characters of an optional string.
pub open spec fn opt_view(v: Option<String>) -> Option<Seq<char>> {
    match v {
        Some(s) => Some(s@),
        None => None,
    }
}

/// The first refusal among Grep's matchers, in the order regular
/// expression, glob filter (when given), file-type filter (when given).
pub open spec fn matcher_refusal(
    pattern: Seq<char>,
    case_insensitive: bool,
    multiline: bool,
    root: Seq<char>,
    glob: Option<Seq<char>>,
    file_type: Option<Seq<char>>,
) -> Option<Seq<char>> {
    match regex_refusal(pattern, case_insensitive, multiline) {
        Some(m) => Some(m),
        None => {
            let by_glob = match glob {
                Some(g) => glob_refusal(root, g),
                None => None,
            };
            match by_glob {
                Some(m) => Some(m),
                None => match file_type {
                    Some(t) => type_refusal(t),
                    None => None,
                },
            }
        },
    }
}

/// Grep's matchers: the regular expression, and the glob and type filters
/// when asked for, the glob rooted at `root`. The first refusal, in that
/// order, is the answer, as invalid input with the builder's text.
pub fn grep_matchers(input: &GrepInput, plan: &GrepPlan, root: &str) -> (res: Result<
    (grep::regex::RegexMatcher, Option<ignore::overrides::Override>, Option<ignore::types::Types>),
    LiteCodeError,
>)
    ensures
        match matcher_refusal(
            input.pattern@,
            plan.case_insensitive,
            input.multiline,
            root@,
            opt_view(input.glob),
            opt_view(input.file_type),
        ) {
            Some(m) => res matches Err(e) && is_invalid_input(e, m),
            None => res matches Ok((_, o, t)) && (o is Some <==> input.glob is Some) && (t is Some
                <==> input.file_type is Some),
        },
{
    let matcher = match regex_matcher(input.pattern.as_str(), plan.case_insensitive, input.multiline) {
        Ok(m) => m,
        Err(m) => return Err(LiteCodeError::invalid_input(m)),
    };
    let overrides = match &input.glob {
        Some(g) => match override_matcher(root, g.as_str()) {
            Ok(o) => Some(o),
            Err(m) => return Err(LiteCodeError::invalid_input(m)),
        },
        None => None,
    };
    let types = match &input.file_type {
        Some(t) => match type_matcher(t.as_str()) {
            Ok(t) => Some(t),
            Err(m) => return Err(LiteCodeError::invalid_input(m)),
        },
        None => None,
    };
    Ok((matcher, overrides, types))
}

} // verus!
