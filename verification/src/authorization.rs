//! What the program asks of the music service when it logs in.

use crate::credentials::CredentialsFile;
use vstd::prelude::*;
use vstd::string::*;

verus! {

/// Where the music service sends the listener back after the login.
pub const REDIRECT_URI: &'static str = "http://localhost:8888/callback";

/// The one permission that the program asks for: to read the listener's
/// saved library.
pub const LIBRARY_SCOPE: &'static str = "user-library-read";

/// A request for an access token by the authorization-code flow. It holds
/// the secret and cannot be printed.
pub struct AuthorizationRequest {
    pub client_id: String,
    pub client_secret: String,
    pub redirect_uri: String,
    pub scopes: Vec<String>,
}

/// The request that the program makes with the given credentials.
pub fn authorization_request(credentials: CredentialsFile) -> (request: AuthorizationRequest)
    ensures
        request.client_id@ == credentials@.spotify_client_id,
        request.client_secret@ == credentials@.spotify_client_secret,
        request.redirect_uri@ == REDIRECT_URI@,
        request.scopes.deep_view() == seq![LIBRARY_SCOPE@],
{
    let mut scopes: Vec<String> = Vec::new();
    scopes.push(String::from_str(LIBRARY_SCOPE));
    assert(scopes.deep_view() =~= seq![LIBRARY_SCOPE@]);
    AuthorizationRequest {
        client_id: credentials.spotify_client_id,
        client_secret: credentials.spotify_client_secret,
        redirect_uri: String::from_str(REDIRECT_URI),
        scopes,
    }
}

} // verus!
