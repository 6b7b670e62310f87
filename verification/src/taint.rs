//! The taint boundary: an untrusted string is wrapped together with a
//! sanitizing filter, and the only way to get the raw value back out is to
//! consume the wrapper through that filter.

use vstd::prelude::*;

verus! {

/// One ASCII alphanumeric character.
pub open spec fn is_ascii_alphanumeric_char(c: char) -> bool {
    ||| 'a' as u32 <= c as u32 <= 'z' as u32
    ||| 'A' as u32 <= c as u32 <= 'Z' as u32
    ||| '0' as u32 <= c as u32 <= '9' as u32
}

/// What the alphanumeric filter lets through: a string that is exactly one
/// ASCII alphanumeric character passes unchanged; everything else is
/// replaced by the empty string, so the filter fails closed.
pub open spec fn spec_alphanumeric_filter(s: Seq<char>) -> Seq<char> {
    if s.len() == 1 && is_ascii_alphanumeric_char(s[0]) {
        s
    } else {
        Seq::empty()
    }
}

/// Relies on `regex::Regex::is_match` with the pattern `^[a-zA-Z0-9]$`,
/// anchored at both ends of the haystack (multi-line mode is off): it
/// reports a match exactly when the whole input is one ASCII alphanumeric
/// character.
#[verifier::external_body]
fn matches_single_alphanumeric(s: &str) -> (r: bool)
    ensures
        r == (s@.len() == 1 && is_ascii_alphanumeric_char(s@[0])),
{
    let re = regex::Regex::new(r"^[a-zA-Z0-9]$").unwrap();
    re.is_match(s)
}

/// The stock sanitizer: keeps a single alphanumeric character, turns
/// anything else into the empty (neutral) string rather than failing open.
pub fn alphanumeric_filter(tainted: String) -> (r: String)
    ensures
        r@ == spec_alphanumeric_filter(tainted@),
{
    if matches_single_alphanumeric(tainted.as_str()) {
        tainted
    } else {
        String::new()
    }
}

/// An untrusted string, joined at wrapping time to the filter that must
/// sanitize it. The raw value is private: it can only leave through
/// `safe`, which consumes the wrapper.
pub struct Tainted<F: Fn(String) -> String> {
    data: String,
    filter: F,
}

impl<F: Fn(String) -> String> Tainted<F> {
    /// The wrapped raw value.
    pub closed spec fn raw(&self) -> String {
        self.data
    }

    /// The filter the wrapper was made with.
    pub closed spec fn filter_of(&self) -> F {
        self.filter
    }

    /// Wraps an untrusted value with its sanitizing filter.
    pub fn new(data: String, filter: F) -> (r: Tainted<F>)
        ensures
            r.raw() == data,
            r.filter_of() == filter,
    {
        Tainted { data, filter }
    }

    /// Consumes the wrapper and returns what the filter makes of the raw
    /// value: the one way from tainted to safe. After this call the
    /// wrapper, and with it the raw value, is gone.
    pub fn safe(self) -> (r: String)
        requires
            call_requires(self.filter_of(), (self.raw(),)),
        ensures
            call_ensures(self.filter_of(), (self.raw(),), r),
    {
        (self.filter)(self.data)
    }
}

} // verus!
