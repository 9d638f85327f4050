use vstd::prelude::*;

verus! {

/// How many route calculations a user has left.
#[derive(Debug, PartialEq, Eq)]
pub struct ReturnFeatureUsage {
    pub route_calculation_count: i32,
}

/// A user's profile as handed back to the user.
#[derive(Debug, PartialEq, Eq)]
pub struct ReturnUser {
    pub id: String,
    pub email: String,
    pub feature_usage: ReturnFeatureUsage,
    pub level: Option<i32>,
    pub avatar_url: Option<String>,
    pub cover_url: Option<String>,
}

/// Credentials of a sign-in request.
#[derive(Debug, PartialEq, Eq)]
pub struct SignInPayload {
    pub email: String,
    pub password: String,
}

/// A sign-up request, with an optional invitation code.
#[derive(Debug, PartialEq, Eq)]
pub struct SignUpPayload {
    pub email: String,
    pub password: String,
    pub code: Option<String>,
}

/// A request to check that a token names a valid user.
#[derive(Debug, PartialEq, Eq)]
pub struct CheckValidUserQuery {
    pub token: String,
}

/// A request to invite someone by email.
#[derive(Debug, PartialEq, Eq)]
pub struct InvitePayload {
    pub email: String,
}

/// Claims of a session token: subject, email and expiry in seconds since the
/// Unix epoch.
#[derive(Debug, PartialEq, Eq)]
pub struct Claims {
    pub sub: String,
    pub email: String,
    pub exp: usize,
}

/// Claims of an identity token issued by Apple's sign-in service.
#[derive(Debug, PartialEq, Eq)]
pub struct AppleClaims {
    pub sub: String,
    pub email: Option<String>,
    pub email_verified: Option<String>,
}

} // verus!
