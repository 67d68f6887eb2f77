use vstd::prelude::*;

verus! {

/// Whether `s` parses as a URI by `hyper::Uri`'s `FromStr` (the `http`
/// crate's `Uri`): a function of the text alone.
pub uninterp spec fn parses_as_uri(s: Seq<char>) -> bool;

/// Calls `str::parse::<hyper::Uri>` and reports whether it succeeded. The
/// contract claims only that the answer is `parses_as_uri` of the text; the
/// parser (`http::Uri::from_str`) returns an error rather than panicking on
/// every input.
#[verifier::external_body]
pub(crate) fn uri_parses(s: &str) -> (b: bool)
    ensures
        b == parses_as_uri(s@),
{
    s.parse::<hyper::Uri>().is_ok()
}

} // verus!
