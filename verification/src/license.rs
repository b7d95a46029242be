//! The rules around a Pro license check: which token is used, which service is
//! asked, and what its answer means.
use vstd::prelude::*;

use crate::text::{chars_of, is_ws, owned, push_str, string_of_range, trim, trimmed};

verus! {

pub const PRODUCT_SLUG: &'static str = "code-path-lens";

/// The released product verifies against Sociobot's production billing service;
/// staging and local integration tests set `CODE_PATH_LENS_BILLING_BASE` instead.
pub const DEFAULT_BILLING_BASE: &'static str = "https://api.sociobot.in/api/v1";

pub open spec fn opt_text(o: Option<String>) -> Option<Seq<char>> {
    match o {
        Some(s) => Some(s@),
        None => None,
    }
}

/// The token to verify: the explicit one if given, else the one from the
/// environment; none when that one is blank.
pub open spec fn token_spec(explicit: Option<Seq<char>>, from_env: Option<Seq<char>>) -> Option<Seq<char>> {
    let chosen = match explicit {
        Some(t) => Some(t),
        None => from_env,
    };
    match chosen {
        Some(t) => if trimmed(t).len() > 0 {
            Some(t)
        } else {
            None
        },
        None => None,
    }
}

/// The token to verify (see `token_spec`).
pub fn select_token(explicit: Option<&str>, from_env: Option<String>) -> (res: Option<String>)
    ensures
        opt_text(res) == token_spec(
            match explicit {
                Some(t) => Some(t@),
                None => None,
            },
            opt_text(from_env),
        ),
{
    let chosen = match explicit {
        Some(t) => Some(owned(t)),
        None => from_env,
    };
    match chosen {
        Some(t) => {
            let tt = trim(t.as_str());
            if tt.as_str().is_empty() {
                None
            } else {
                Some(t)
            }
        },
        None => None,
    }
}

/// The billing service's base address: the override if set, else the default.
pub fn billing_base(from_env: Option<String>) -> (res: String)
    ensures
        res@ == match from_env {
            Some(b) => b@,
            None => DEFAULT_BILLING_BASE@,
        },
{
    match from_env {
        Some(b) => b,
        None => owned(DEFAULT_BILLING_BASE),
    }
}

/// `s` without trailing `/` (`str::trim_end_matches('/')`).
pub open spec fn trim_trailing_slashes(s: Seq<char>) -> Seq<char>
    decreases s.len(),
{
    if s.len() > 0 && s[s.len() - 1] == '/' {
        trim_trailing_slashes(s.subrange(0, s.len() - 1))
    } else {
        s
    }
}

/// The verification address for the product under `base`.
pub open spec fn verify_url_spec(base: Seq<char>) -> Seq<char> {
    trim_trailing_slashes(base) + "/products/"@ + PRODUCT_SLUG@ + "/verify"@
}

/// The verification address (see `verify_url_spec`).
pub fn verify_url(base: &str) -> (res: String)
    ensures
        res@ == verify_url_spec(base@),
{
    let v = chars_of(base);
    let mut end = v.len();
    assert(v@.subrange(0, end as int) =~= v@);
    while end > 0 && v[end - 1] == '/'
        invariant
            end <= v.len(),
            v@ == base@,
            trim_trailing_slashes(base@) == trim_trailing_slashes(v@.subrange(0, end as int)),
        decreases end,
    {
        assert(v@.subrange(0, end as int).subrange(0, end - 1) =~= v@.subrange(0, end - 1));
        end = end - 1;
    }
    let mut url = string_of_range(&v, 0, end);
    push_str(&mut url, "/products/");
    push_str(&mut url, PRODUCT_SLUG);
    push_str(&mut url, "/verify");
    url
}

pub open spec fn missing_token_message() -> Seq<char> {
    "this bound needs Code Path Lens Pro; pass --license or set CODE_PATH_LENS_LICENSE"@
}

/// The message for a run whose bounds need Pro but has no token.
pub fn missing_token_text() -> (res: String)
    ensures
        res@ == missing_token_message(),
{
    owned("this bound needs Code Path Lens Pro; pass --license or set CODE_PATH_LENS_LICENSE")
}

/// What the service's answer means: the license is active, or the reason it is not.
pub fn license_verdict(valid: bool, reason: &str) -> (res: Result<(), String>)
    ensures
        valid ==> res is Ok,
        !valid ==> (res matches Err(m) && m@ == "license is not active ("@ + reason@ + ")"@),
{
    if valid {
        Ok(())
    } else {
        let mut m = owned("license is not active (");
        push_str(&mut m, reason);
        push_str(&mut m, ")");
        Err(m)
    }
}

} // verus!
