//! The persisted credentials of the social-media client, and the rule that
//! decides which kind of authentication they amount to. The network client
//! itself is an external collaborator; only its configuration data and this
//! decision live here.

use vstd::prelude::*;

verus! {

/// The credentials that survive a restart: the application's consumer pair
/// and whatever tokens earlier authentication steps produced.
pub struct SaveData {
    pub consumer_key: String,
    pub consumer_secret: String,
    pub app_token: Option<String>,
    pub user_token: Option<(String, String)>,
}

/// The kind of authentication a [`SaveData`] yields.
#[derive(Clone, Copy, Debug, PartialEq, Eq, Structural)]
pub enum AuthKind {
    /// A user access-token pair is present: act on the user's behalf.
    UserAuthenticated,
    /// Only an application bearer token is present.
    AppOnly,
    /// Neither token is present; only the consumer pair is configured.
    NotAuthenticated,
}

/// A user token, when present, always wins over an application token.
pub open spec fn auth_kind_of(d: SaveData) -> AuthKind {
    if d.user_token is Some {
        AuthKind::UserAuthenticated
    } else if d.app_token is Some {
        AuthKind::AppOnly
    } else {
        AuthKind::NotAuthenticated
    }
}

impl SaveData {
    /// Fresh credentials: a consumer pair and no tokens yet.
    pub fn new(consumer_key: String, consumer_secret: String) -> (d: SaveData)
        ensures
            d.consumer_key == consumer_key,
            d.consumer_secret == consumer_secret,
            d.app_token is None,
            d.user_token is None,
            auth_kind_of(d) == AuthKind::NotAuthenticated,
    {
        SaveData { consumer_key, consumer_secret, app_token: None, user_token: None }
    }

    /// Which kind of authentication these credentials carry.
    pub fn auth_kind(&self) -> (r: AuthKind)
        ensures
            r == auth_kind_of(*self),
    {
        if self.user_token.is_some() {
            AuthKind::UserAuthenticated
        } else if self.app_token.is_some() {
            AuthKind::AppOnly
        } else {
            AuthKind::NotAuthenticated
        }
    }

    /// Whether any authentication besides the bare consumer pair exists.
    pub fn is_authenticated(&self) -> (r: bool)
        ensures
            r == (auth_kind_of(*self) != AuthKind::NotAuthenticated),
    {
        self.user_token.is_some() || self.app_token.is_some()
    }
}

} // verus!
