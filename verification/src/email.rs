//! Context of the forgotten-password email: the application title and the
//! password-reset link built from a base URL and a one-time token.

use vstd::prelude::*;
use vstd::string::StringExecFns;

verus! {

/// The application's display name, used as the email title.
pub fn app_name() -> (r: &'static str)
    ensures
        r@ == "rate_guard"@,
{
    "rate_guard"
}

/// What the email template is rendered with.
pub struct EmailContext {
    pub title: String,
    pub link: String,
}

impl EmailContext {
    /// New `EmailContext`: the title is the application's name and the link
    /// is the base URL with the token appended as one path segment.
    pub fn new(base_url: String, token: String) -> (r: Self)
        ensures
            r.title@ == "rate_guard"@,
            r.link@ == base_url@ + "/"@ + token@,
    {
        let mut link = base_url;
        link.append("/");
        link.append(token.as_str());
        Self { title: app_name().to_owned(), link }
    }
}

} // verus!
