//! Operator configuration and the login decision.

use vstd::prelude::*;
use crate::model::LoginForm;

verus! {

/// Settings that the operator-facing engines need.
pub struct AdminConfig {
    /// Password of the dashboard.
    pub password: String,
    /// Public base URL under which tags resolve (`{base_url}/v/{code}`).
    pub base_url: String,
}

/// Base URL used when none is configured.
pub open spec fn default_base_url() -> Seq<char> {
    "http://localhost:3000"@
}

/// Password used when none is configured.
pub open spec fn default_password() -> Seq<char> {
    "admin123"@
}

impl AdminConfig {
    /// Settings from optional configured values, with the defaults where a
    /// value is missing.
    pub fn from_settings(password: Option<String>, base_url: Option<String>) -> (r: AdminConfig)
        ensures
            r.password@ == match password {
                Some(p) => p@,
                None => default_password(),
            },
            r.base_url@ == match base_url {
                Some(b) => b@,
                None => default_base_url(),
            },
    {
        AdminConfig {
            password: match password {
                Some(p) => p,
                None => String::from_str("admin123"),
            },
            base_url: match base_url {
                Some(b) => b,
                None => String::from_str("http://localhost:3000"),
            },
        }
    }

    /// Whether the login form carries the dashboard password.
    pub fn accepts(&self, form: &LoginForm) -> (r: bool)
        ensures
            r == (form.password@ == self.password@),
    {
        form.password == self.password
    }
}

} // verus!
