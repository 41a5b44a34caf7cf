//! The credentials of the music service's API client.

use vstd::prelude::*;

verus! {

/// The name of the credentials file, which is looked for in the working
/// directory.
pub const CREDENTIALS_FILE_NAME: &'static str = "credentials.json";

/// The name under which the credentials file holds the client's identifier.
pub const CLIENT_ID_FIELD: &'static str = "spotify_client_id";

/// The name under which the credentials file holds the client's secret.
pub const CLIENT_SECRET_FIELD: &'static str = "spotify_client_secret";

/// What credentials stand for: the client's identifier and its secret.
pub struct CredentialsView {
    pub spotify_client_id: Seq<char>,
    pub spotify_client_secret: Seq<char>,
}

/// The content of the credentials file. Both fields are required. The
/// type cannot be printed, so that the secret does not end up in a log.
pub struct CredentialsFile {
    pub spotify_client_id: String,
    pub spotify_client_secret: String,
}

impl View for CredentialsFile {
    type V = CredentialsView;

    open spec fn view(&self) -> CredentialsView {
        CredentialsView {
            spotify_client_id: self.spotify_client_id@,
            spotify_client_secret: self.spotify_client_secret@,
        }
    }
}

/// Why a text holds no credentials.
#[derive(Debug, PartialEq, Eq)]
pub enum CredentialsError {
    /// The text is not JSON that the parser takes.
    NotJson,
    /// The text is no JSON object with a string under `spotify_client_id`.
    NoClientId,
    /// The identifier is there, but no string under `spotify_client_secret`.
    NoClientSecret,
}

/// What `serde_json` finds in the text `text` under `key`. `None`: it does
/// not take the text for one JSON value, because the text is not JSON or is
/// nested deeper than the parser goes. `Some(Some(s))`: the value is an
/// object, the object has the key, and the key's value is a string, which is
/// `s` once its escapes are resolved. `Some(None)`: the text is JSON, but
/// holds no string there.
pub uninterp spec fn json_object_string(text: Seq<char>, key: Seq<char>) -> Option<
    Option<Seq<char>>,
>;

/// The credentials that two fields make, or the first field that is
/// missing.
pub open spec fn credentials_of(
    client_id: Option<Seq<char>>,
    client_secret: Option<Seq<char>>,
) -> Result<CredentialsView, CredentialsError> {
    match (client_id, client_secret) {
        (None, _) => Err(CredentialsError::NoClientId),
        (Some(_), None) => Err(CredentialsError::NoClientSecret),
        (Some(id), Some(secret)) => Ok(
            CredentialsView { spotify_client_id: id, spotify_client_secret: secret },
        ),
    }
}

/// The credentials that a text holds, given what was found in it under the
/// names of the two fields.
pub open spec fn credentials_found(
    client_id: Option<Option<Seq<char>>>,
    client_secret: Option<Option<Seq<char>>>,
) -> Result<CredentialsView, CredentialsError> {
    match (client_id, client_secret) {
        (Some(id), Some(secret)) => credentials_of(id, secret),
        _ => Err(CredentialsError::NotJson),
    }
}

/// What a `Result` of credentials stands for.
pub open spec fn outcome_view(outcome: Result<CredentialsFile, CredentialsError>) -> Result<
    CredentialsView,
    CredentialsError,
> {
    match outcome {
        Ok(credentials) => Ok(credentials@),
        Err(error) => Err(error),
    }
}

/// What an optional string stands for.
pub open spec fn optional_text(field: Option<String>) -> Option<Seq<char>> {
    match field {
        Some(text) => Some(text@),
        None => None,
    }
}

/// What the outcome of a look into a JSON text stands for.
pub open spec fn lookup_view(found: Result<Option<String>, serde_json::Error>) -> Option<
    Option<Seq<char>>,
> {
    match found {
        Ok(field) => Some(optional_text(field)),
        Err(_) => None,
    }
}

impl CredentialsFile {
    /// Makes credentials of the two fields as they were found in a file.
    pub fn from_fields(client_id: Option<String>, client_secret: Option<String>) -> (outcome:
        Result<CredentialsFile, CredentialsError>)
        ensures
            outcome_view(outcome) == credentials_of(
                optional_text(client_id),
                optional_text(client_secret),
            ),
    {
        match client_id {
            None => Err(CredentialsError::NoClientId),
            Some(spotify_client_id) => match client_secret {
                None => Err(CredentialsError::NoClientSecret),
                Some(spotify_client_secret) => Ok(
                    CredentialsFile { spotify_client_id, spotify_client_secret },
                ),
            },
        }
    }

    /// Reads credentials from the text of a credentials file.
    pub fn parse(text: &str) -> (outcome: Result<CredentialsFile, CredentialsError>)
        ensures
            outcome_view(outcome) == credentials_found(
                json_object_string(text@, CLIENT_ID_FIELD@),
                json_object_string(text@, CLIENT_SECRET_FIELD@),
            ),
    {
        let client_id = match string_field(text, CLIENT_ID_FIELD) {
            Ok(field) => field,
            Err(_) => {
                return Err(CredentialsError::NotJson);
            },
        };
        let client_secret = match string_field(text, CLIENT_SECRET_FIELD) {
            Ok(field) => field,
            Err(_) => {
                return Err(CredentialsError::NotJson);
            },
        };
        CredentialsFile::from_fields(client_id, client_secret)
    }
}

/// `serde_json::from_str` to a `serde_json::Value`, then `Value::get` with
/// the key and `Value::as_str` on what it found. `from_str` fails unless the
/// text is one JSON value; `get` with a string finds something only in an
/// object that has the key; `as_str` gives the text of a string and nothing
/// for any other value. All three depend on the text and the key alone; the
/// contract gives what they find its name.
#[verifier::external_body]
fn string_field(text: &str, key: &str) -> (found: Result<Option<String>, serde_json::Error>)
    ensures
        lookup_view(found) == json_object_string(text@, key@),
{
    let value: serde_json::Value = serde_json::from_str(text)?;
    Ok(value.get(key).and_then(serde_json::Value::as_str).map(String::from))
}

} // verus!
