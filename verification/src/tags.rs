use crate::aggregate::{spec_insert, view_key, VersionAggregator};
use crate::version::{Version, VersionView};
use vstd::prelude::*;

verus! {

/// What lenient parsing makes of a tag name: the version it names, or
/// nothing. The result depends on the name's characters alone.
pub uninterp spec fn lenient_parse_of(s: Seq<char>) -> Option<VersionView>;

/// Relies on lenient_semver::parse: reads a tag name leniently as a semantic
/// version. Whether the name parses, and to which version, depends on its
/// characters alone. Pre-release and build metadata come over as their raw
/// bytes; the parse error is dropped, an unparseable name is `None`.
#[verifier::external_body]
fn parse_lenient(name: &str) -> (r: Option<Version>)
    ensures
        r matches Some(v) ==> lenient_parse_of(name@) == Some(v@),
        r is None ==> lenient_parse_of(name@) is None,
{
    match lenient_semver::parse(name) {
        Ok(v) => Some(
            Version {
                major: v.major,
                minor: v.minor,
                patch: v.patch,
                pre: v.pre.as_str().as_bytes().to_vec(),
                build: v.build.as_str().as_bytes().to_vec(),
            },
        ),
        Err(_) => None,
    }
}

/// The single "parse or skip" boundary: `Some` exactly when the lenient
/// grammar accepts the name, and then exactly the version it names.
pub fn parse_tag(name: &str) -> (r: Option<Version>)
    ensures
        r matches Some(v) ==> lenient_parse_of(name@) == Some(v@),
        r is None ==> lenient_parse_of(name@) is None,
{
    parse_lenient(name)
}

/// Feeds one tag name to the aggregator: a name the lenient grammar accepts
/// is parsed and inserted; any other leaves the aggregator untouched and is
/// reported back for the caller to log and skip — never fatal.
pub fn consume_tag(aggregator: &mut VersionAggregator, name: &str) -> (inserted: bool)
    requires
        old(aggregator).wf(),
    ensures
        final(aggregator).wf(),
        match lenient_parse_of(name@) {
            Some(v) => inserted && final(aggregator)@ == spec_insert(
                old(aggregator)@,
                view_key(v),
                v,
            ),
            None => !inserted && final(aggregator)@ == old(aggregator)@,
        },
{
    match parse_tag(name) {
        Some(v) => {
            aggregator.insert(v);
            true
        },
        None => false,
    }
}

} // verus!
