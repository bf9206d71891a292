use vstd::prelude::*;

verus! {

/// A registered account as stored.
#[derive(Clone, Debug)]
pub struct User {
    pub id: Option<i64>,
    pub username: String,
    pub hashed_password: String,
    pub full_name: Option<String>,
    pub role: String,
}

/// Body of a registration request.
#[derive(Clone, Debug)]
pub struct RegisterRequest {
    pub username: String,
    pub password: String,
}

/// Body of a login request.
#[derive(Clone, Debug)]
pub struct LoginRequest {
    pub username: String,
    pub password: String,
}

/// Body of a successful login.
#[derive(Clone, Debug)]
pub struct LoginResponse {
    pub access_token: String,
    pub token_type: String,
}

impl LoginResponse {
    /// A bearer-token response carrying `access_token`.
    pub fn bearer(access_token: String) -> (r: LoginResponse)
        ensures
            r.access_token@ == access_token@,
            r.token_type@ == "Bearer"@,
    {
        LoginResponse { access_token, token_type: "Bearer".to_owned() }
    }
}

} // verus!
