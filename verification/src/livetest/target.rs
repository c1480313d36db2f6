//! Where to point a live run, and how it was configured.
//!
//! The environment is read by the caller; what it means is decided here.

use vstd::prelude::*;
use vstd::string::*;

use crate::error::text_of;
use crate::text::{
    begins_with, capitals, hex_of, hexadecimal, in_capitals, joined, letters, parts, piece_views,
    same, spelled, split, starts_with, text_views, trim, trimmed,
};
use crate::wire::bytes_of;

verus! {

/// Environment variable holding comma-separated bootstrap addresses.
pub const BOOTSTRAP_ENV: &'static str = "KAAS_TEST_BOOTSTRAP";

/// A label for the cluster, used in reports and in artefact filenames.
pub const LABEL_ENV: &'static str = "KAAS_TEST_LABEL";

/// PEM-encoded CA bundle to trust, inline.
pub const CA_PEM_ENV: &'static str = "KAAS_TEST_CA_PEM";

/// Path to a PEM-encoded CA bundle.
pub const CA_FILE_ENV: &'static str = "KAAS_TEST_CA_FILE";

/// Name to verify the broker certificate against, overriding the host.
pub const TLS_SERVER_NAME_ENV: &'static str = "KAAS_TEST_TLS_SERVER_NAME";

/// PEM-encoded client certificate chain for mutual TLS, inline.
pub const CLIENT_CERT_PEM_ENV: &'static str = "KAAS_TEST_CLIENT_CERT_PEM";

/// Path to a PEM-encoded client certificate chain.
pub const CLIENT_CERT_FILE_ENV: &'static str = "KAAS_TEST_CLIENT_CERT_FILE";

/// PEM-encoded private key for the client certificate, inline.
pub const CLIENT_KEY_PEM_ENV: &'static str = "KAAS_TEST_CLIENT_KEY_PEM";

/// Path to a PEM-encoded private key for the client certificate.
pub const CLIENT_KEY_FILE_ENV: &'static str = "KAAS_TEST_CLIENT_KEY_FILE";

/// SASL mechanism: `PLAIN`, `SCRAM-SHA-256`, `SCRAM-SHA-512` or `OAUTHBEARER`.
pub const SASL_MECHANISM_ENV: &'static str = "KAAS_TEST_SASL_MECHANISM";

/// SASL username.
pub const SASL_USERNAME_ENV: &'static str = "KAAS_TEST_SASL_USERNAME";

/// SASL password.
pub const SASL_PASSWORD_ENV: &'static str = "KAAS_TEST_SASL_PASSWORD";

/// `OAUTHBEARER`: a bearer token the caller has already obtained.
pub const OAUTH_TOKEN_ENV: &'static str = "KAAS_TEST_OAUTH_TOKEN";

/// `OAUTHBEARER`: an OIDC token endpoint to fetch tokens from instead.
pub const OAUTH_TOKEN_ENDPOINT_ENV: &'static str = "KAAS_TEST_OAUTH_TOKEN_ENDPOINT";

/// `OAUTHBEARER`: the OAuth client id.
pub const OAUTH_CLIENT_ID_ENV: &'static str = "KAAS_TEST_OAUTH_CLIENT_ID";

/// `OAUTHBEARER`: the OAuth client secret.
pub const OAUTH_CLIENT_SECRET_ENV: &'static str = "KAAS_TEST_OAUTH_CLIENT_SECRET";

/// `OAUTHBEARER`: the scope to request, if the issuer wants one.
pub const OAUTH_SCOPE_ENV: &'static str = "KAAS_TEST_OAUTH_SCOPE";

/// `OAUTHBEARER`: the audience to request, if the issuer wants one.
pub const OAUTH_AUDIENCE_ENV: &'static str = "KAAS_TEST_OAUTH_AUDIENCE";

/// Set to `1` to refuse every mutating api key.
pub const READ_ONLY_ENV: &'static str = "KAAS_TEST_READ_ONLY";

/// Prefix for topics and groups this tool creates.
pub const PREFIX_ENV: &'static str = "KAAS_TEST_PREFIX";

/// The default prefix for anything a live run creates.
///
/// Everything is namespaced and swept up afterwards, because these clusters are
/// shared and long-lived.
pub const DEFAULT_PREFIX: &'static str = "kaaslib-live";

/// How long a connection may take, in milliseconds. Generous: a shared cluster
/// under someone else's benchmark is slow, not broken.
pub const CONNECT_TIMEOUT_MS: u64 = 20_000;

/// How long a request may take, in milliseconds.
pub const REQUEST_TIMEOUT_MS: u64 = 30_000;

/// How often a request is tried.
pub const MAX_ATTEMPTS: u32 = 6;

/// How often metadata is fetched anew, in milliseconds.
pub const REFRESH_INTERVAL_MS: u64 = 30_000;

/// How old metadata may get, in milliseconds.
pub const MAX_STALENESS_MS: u64 = 60_000;

/// Whether `name` was created by a run using `prefix`.
///
/// The separator is part of the test: `kaaslib-live` must not own
/// `kaaslib-liveness-probe`.
pub fn owns(prefix: &str, name: &str) -> (owned: bool)
    ensures
        owned == begins_with(name@, prefix@ + "-"@),
{
    let marked = joined(prefix, "-");
    starts_with(letters(name).as_slice(), letters(marked.as_str()).as_slice())
}

/// A short token for names that must not collide between runs, from the process
/// and the instant that it runs at.
pub fn run_token(process: u32, nanos: u32) -> (token: String)
    ensures
        token@ == hex_of(process as nat) + hex_of(nanos as nat),
{
    let mut token = hexadecimal(process as u64);
    token.append(hexadecimal(nanos as u64).as_str());
    token
}

/// Where a credential comes from.
#[derive(Debug)]
pub enum PemSource {
    /// It was given.
    Inline(String),
    /// It is in this file.
    File(String),
    /// There is none.
    Absent,
}

/// Whether a setting is there and not blank.
pub open spec fn given(setting: Option<Seq<char>>) -> bool {
    setting matches Some(text) && trimmed(text).len() > 0
}

/// Whether a setting is there and not blank.
fn is_given(setting: &Option<String>) -> (is: bool)
    ensures
        is == given(text_of(*setting)),
{
    match setting {
        Some(text) => trim(letters(text.as_str()).as_slice()).len() > 0,
        None => false,
    }
}

/// A copy of a setting.
fn copied(setting: &Option<String>) -> (copy: Option<String>)
    ensures
        text_of(copy) == text_of(*setting),
{
    match setting {
        Some(text) => Some(text.clone()),
        None => None,
    }
}

/// A PEM either inline in one setting or in a file named by another.
pub fn pem_from_env(inline: &Option<String>, file: &Option<String>) -> (source: PemSource)
    ensures
        match source {
            PemSource::Inline(pem) => given(text_of(*inline)) && text_of(*inline) == Some(pem@),
            PemSource::File(path) => !given(text_of(*inline)) && given(text_of(*file)) && text_of(
                *file,
            ) == Some(path@),
            PemSource::Absent => !given(text_of(*inline)) && !given(text_of(*file)),
        },
{
    if is_given(inline) {
        if let Some(pem) = inline {
            return PemSource::Inline(pem.clone());
        }
    }
    if is_given(file) {
        if let Some(path) = file {
            return PemSource::File(path.clone());
        }
    }
    PemSource::Absent
}

/// A certificate chain and its key, as plain bytes.
pub open spec fn pair_of(pair: Option<(Vec<u8>, Vec<u8>)>) -> Option<(Seq<u8>, Seq<u8>)> {
    match pair {
        Some((chain, key)) => Some((chain@, key@)),
        None => None,
    }
}

/// What is said of a client certificate without its key.
pub open spec fn key_missing() -> Seq<char> {
    "a client certificate was configured without its key; set "@ + CLIENT_KEY_PEM_ENV@ + " or "@
        + CLIENT_KEY_FILE_ENV@ + " too"@
}

/// What is said of a client key without its certificate.
pub open spec fn certificate_missing() -> Seq<char> {
    "a client key was configured without its certificate; set "@ + CLIENT_CERT_PEM_ENV@ + " or "@
        + CLIENT_CERT_FILE_ENV@ + " too"@
}

/// A client certificate is both halves or neither.
///
/// Said here rather than left to the handshake: a chain without a key falls
/// through to a connection that the broker refuses with no hint about which
/// half is missing.
pub fn client_certificate(chain: Option<Vec<u8>>, key: Option<Vec<u8>>) -> (certificate: Result<
    Option<(Vec<u8>, Vec<u8>)>,
    String,
>)
    ensures
        match (bytes_of(chain), bytes_of(key)) {
            (Some(chain), Some(key)) => certificate matches Ok(pair) && pair_of(pair) == Some(
                (chain, key),
            ),
            (None, None) => certificate matches Ok(None),
            (Some(_), None) => certificate matches Err(text) && text@ == key_missing(),
            (None, Some(_)) => certificate matches Err(text) && text@ == certificate_missing(),
        },
{
    match (chain, key) {
        (Some(chain), Some(key)) => Ok(Some((chain, key))),
        (None, None) => Ok(None),
        (Some(_), None) => {
            let mut text = "a client certificate was configured without its key; set ".to_owned();
            text.append(CLIENT_KEY_PEM_ENV);
            text.append(" or ");
            text.append(CLIENT_KEY_FILE_ENV);
            text.append(" too");
            Err(text)
        },
        (None, Some(_)) => {
            let mut text = "a client key was configured without its certificate; set ".to_owned();
            text.append(CLIENT_CERT_PEM_ENV);
            text.append(" or ");
            text.append(CLIENT_CERT_FILE_ENV);
            text.append(" too");
            Err(text)
        },
    }
}

/// How a connection is encrypted.
#[derive(Debug)]
pub struct TlsSettings {
    /// The bundle to trust, or the system's.
    pub ca: Option<Vec<u8>>,
    /// The client certificate and its key.
    pub client: Option<(Vec<u8>, Vec<u8>)>,
    /// The name to verify the broker's certificate against.
    pub server_name: Option<String>,
}

/// [`TlsSettings`], as plain values.
pub struct TlsView {
    pub ca: Option<Seq<u8>>,
    pub client: Option<(Seq<u8>, Seq<u8>)>,
    pub server_name: Option<Seq<char>>,
}

impl View for TlsSettings {
    type V = TlsView;

    open spec fn view(&self) -> TlsView {
        TlsView {
            ca: bytes_of(self.ca),
            client: pair_of(self.client),
            server_name: text_of(self.server_name),
        }
    }
}

/// How a connection is encrypted, if it is. A client certificate is reason
/// enough: a listener whose own certificate chains to a public authority needs
/// no bundle of ours.
pub open spec fn tls_of(
    ca: Option<Seq<u8>>,
    client: Option<(Seq<u8>, Seq<u8>)>,
    server_name: Option<Seq<char>>,
) -> Option<TlsView> {
    if ca is None && client is None {
        None
    } else {
        Some(
            TlsView {
                ca,
                client,
                server_name: if given(server_name) {
                    server_name
                } else {
                    None
                },
            },
        )
    }
}

/// How a connection is encrypted, if it is.
pub fn tls_from_env(
    ca: Option<Vec<u8>>,
    chain: Option<Vec<u8>>,
    key: Option<Vec<u8>>,
    server_name: &Option<String>,
) -> (tls: Result<Option<TlsSettings>, String>)
    ensures
        match (bytes_of(chain), bytes_of(key)) {
            (Some(_), None) => tls matches Err(text) && text@ == key_missing(),
            (None, Some(_)) => tls matches Err(text) && text@ == certificate_missing(),
            (Some(chain), Some(key)) => tls matches Ok(Some(tls)) && Some(tls@) == tls_of(
                bytes_of(ca),
                Some((chain, key)),
                text_of(*server_name),
            ),
            (None, None) => match tls {
                Ok(Some(tls)) => Some(tls@) == tls_of(bytes_of(ca), None, text_of(*server_name)),
                Ok(None) => bytes_of(ca) is None,
                Err(_) => false,
            },
        },
{
    let client = match client_certificate(chain, key) {
        Ok(client) => client,
        Err(text) => {
            return Err(text);
        },
    };
    if ca.is_none() && client.is_none() {
        return Ok(None);
    }
    let server_name = if is_given(server_name) {
        copied(server_name)
    } else {
        None
    };
    Ok(Some(TlsSettings { ca, client, server_name }))
}

/// How a password is proved.
#[derive(Debug, Clone, Copy, PartialEq, Eq, Structural)]
pub enum SaslMechanism {
    /// Sent as it is.
    Plain,
    /// Proved with SHA-256.
    ScramSha256,
    /// Proved with SHA-512.
    ScramSha512,
}

/// Who is connecting.
#[derive(Debug)]
pub enum SaslSettings {
    /// A user with a password.
    Password {
        /// How the password is proved.
        mechanism: SaslMechanism,
        /// The user.
        username: String,
        /// The password.
        password: String,
        /// Whether it may go over a connection that is not encrypted.
        allow_plaintext: bool,
    },
    /// The bearer of a token.
    Token {
        /// The token.
        token: String,
        /// Whether it may go over a connection that is not encrypted.
        allow_plaintext: bool,
    },
    /// The bearer of tokens that an issuer hands out.
    Issuer {
        /// Where to ask for them.
        endpoint: String,
        /// The client to ask as.
        client_id: String,
        /// Its secret.
        client_secret: String,
        /// The scope to ask for.
        scope: Option<String>,
        /// The audience to ask for.
        audience: Option<String>,
        /// Whether they may go over a connection that is not encrypted.
        allow_plaintext: bool,
    },
}

/// [`SaslSettings`], as plain values.
pub enum SaslView {
    Password {
        mechanism: SaslMechanism,
        username: Seq<char>,
        password: Seq<char>,
        allow_plaintext: bool,
    },
    Token { token: Seq<char>, allow_plaintext: bool },
    Issuer {
        endpoint: Seq<char>,
        client_id: Seq<char>,
        client_secret: Seq<char>,
        scope: Option<Seq<char>>,
        audience: Option<Seq<char>>,
        allow_plaintext: bool,
    },
}

impl View for SaslSettings {
    type V = SaslView;

    open spec fn view(&self) -> SaslView {
        match self {
            SaslSettings::Password { mechanism, username, password, allow_plaintext } =>
                SaslView::Password {
                mechanism: *mechanism,
                username: username@,
                password: password@,
                allow_plaintext: *allow_plaintext,
            },
            SaslSettings::Token { token, allow_plaintext } => SaslView::Token {
                token: token@,
                allow_plaintext: *allow_plaintext,
            },
            SaslSettings::Issuer {
                endpoint,
                client_id,
                client_secret,
                scope,
                audience,
                allow_plaintext,
            } => SaslView::Issuer {
                endpoint: endpoint@,
                client_id: client_id@,
                client_secret: client_secret@,
                scope: text_of(*scope),
                audience: text_of(*audience),
                allow_plaintext: *allow_plaintext,
            },
        }
    }
}

/// What the environment holds. A variable that is not set is `None`.
#[derive(Debug)]
pub struct Settings {
    /// [`BOOTSTRAP_ENV`].
    pub bootstrap: Option<String>,
    /// [`LABEL_ENV`].
    pub label: Option<String>,
    /// [`CA_PEM_ENV`].
    pub ca_pem: Option<String>,
    /// [`CA_FILE_ENV`].
    pub ca_file: Option<String>,
    /// [`TLS_SERVER_NAME_ENV`].
    pub tls_server_name: Option<String>,
    /// [`SASL_MECHANISM_ENV`].
    pub sasl_mechanism: Option<String>,
    /// [`SASL_USERNAME_ENV`].
    pub sasl_username: Option<String>,
    /// [`SASL_PASSWORD_ENV`].
    pub sasl_password: Option<String>,
    /// [`OAUTH_TOKEN_ENV`].
    pub oauth_token: Option<String>,
    /// [`OAUTH_TOKEN_ENDPOINT_ENV`].
    pub oauth_token_endpoint: Option<String>,
    /// [`OAUTH_CLIENT_ID_ENV`].
    pub oauth_client_id: Option<String>,
    /// [`OAUTH_CLIENT_SECRET_ENV`].
    pub oauth_client_secret: Option<String>,
    /// [`OAUTH_SCOPE_ENV`].
    pub oauth_scope: Option<String>,
    /// [`OAUTH_AUDIENCE_ENV`].
    pub oauth_audience: Option<String>,
    /// [`READ_ONLY_ENV`].
    pub read_only: Option<String>,
    /// [`PREFIX_ENV`].
    pub prefix: Option<String>,
}

/// What is said of a setting that another one needs.
pub open spec fn must_be_set(because: Seq<char>, missing: Seq<char>) -> Seq<char> {
    because + " is set, so "@ + missing + " must be"@
}

/// What is said of a setting that another one needs.
fn must_be_set_text(because: &str, missing: &str) -> (text: String)
    ensures
        text@ == must_be_set(because@, missing@),
{
    let mut text = joined(because, " is set, so ");
    text.append(missing);
    text.append(" must be");
    text
}

/// What is said when there is neither a token nor an issuer to ask for one.
pub open spec fn no_token_source() -> Seq<char> {
    SASL_MECHANISM_ENV@ + "=OAUTHBEARER needs either "@ + OAUTH_TOKEN_ENV@ + " or "@
        + OAUTH_TOKEN_ENDPOINT_ENV@ + " + "@ + OAUTH_CLIENT_ID_ENV@ + " + "@
        + OAUTH_CLIENT_SECRET_ENV@
}

/// A setting, unless it is empty.
pub open spec fn unless_empty(setting: Option<Seq<char>>) -> Option<Seq<char>> {
    match setting {
        Some(text) => if text.len() == 0 {
            None
        } else {
            Some(text)
        },
        None => None,
    }
}

/// A setting, unless it is empty.
fn nonempty(setting: &Option<String>) -> (rest: Option<String>)
    ensures
        text_of(rest) == unless_empty(text_of(*setting)),
{
    match setting {
        Some(text) => {
            if letters(text.as_str()).len() == 0 {
                None
            } else {
                Some(text.clone())
            }
        },
        None => None,
    }
}

/// Who is connecting with tokens: the bearer of the one that was given, or of
/// those that an issuer hands out. A token is as reusable as a password, so it
/// only goes over a connection that is not encrypted where no bundle was named.
pub open spec fn bearer_of(settings: Settings) -> Result<SaslView, Seq<char>> {
    let allow_plaintext = settings.ca_pem is None && settings.ca_file is None;
    if given(text_of(settings.oauth_token)) {
        Ok(
            SaslView::Token {
                token: trimmed(text_of(settings.oauth_token)->Some_0),
                allow_plaintext,
            },
        )
    } else {
        match text_of(settings.oauth_token_endpoint) {
            None => Err(no_token_source()),
            Some(endpoint) => match text_of(settings.oauth_client_id) {
                None => Err(must_be_set(OAUTH_TOKEN_ENDPOINT_ENV@, OAUTH_CLIENT_ID_ENV@)),
                Some(client_id) => match text_of(settings.oauth_client_secret) {
                    None => Err(must_be_set(OAUTH_TOKEN_ENDPOINT_ENV@, OAUTH_CLIENT_SECRET_ENV@)),
                    Some(client_secret) => Ok(
                        SaslView::Issuer {
                            endpoint,
                            client_id,
                            client_secret,
                            scope: unless_empty(text_of(settings.oauth_scope)),
                            audience: unless_empty(text_of(settings.oauth_audience)),
                            allow_plaintext,
                        },
                    ),
                },
            },
        }
    }
}

/// The settings of an issuer to ask for tokens.
pub fn oidc_from_env(settings: &Settings, allow_plaintext: bool) -> (issuer: Result<
    SaslSettings,
    String,
>)
    ensures
        match text_of(settings.oauth_token_endpoint) {
            None => issuer matches Err(text) && text@ == no_token_source(),
            Some(endpoint) => match text_of(settings.oauth_client_id) {
                None => issuer matches Err(text) && text@ == must_be_set(
                    OAUTH_TOKEN_ENDPOINT_ENV@,
                    OAUTH_CLIENT_ID_ENV@,
                ),
                Some(client_id) => match text_of(settings.oauth_client_secret) {
                    None => issuer matches Err(text) && text@ == must_be_set(
                        OAUTH_TOKEN_ENDPOINT_ENV@,
                        OAUTH_CLIENT_SECRET_ENV@,
                    ),
                    Some(client_secret) => issuer matches Ok(issuer) && issuer@
                        == (SaslView::Issuer {
                        endpoint,
                        client_id,
                        client_secret,
                        scope: unless_empty(text_of(settings.oauth_scope)),
                        audience: unless_empty(text_of(settings.oauth_audience)),
                        allow_plaintext,
                    }),
                },
            },
        },
{
    let endpoint = match &settings.oauth_token_endpoint {
        Some(endpoint) => endpoint.clone(),
        None => {
            let mut text = joined(SASL_MECHANISM_ENV, "=OAUTHBEARER needs either ");
            text.append(OAUTH_TOKEN_ENV);
            text.append(" or ");
            text.append(OAUTH_TOKEN_ENDPOINT_ENV);
            text.append(" + ");
            text.append(OAUTH_CLIENT_ID_ENV);
            text.append(" + ");
            text.append(OAUTH_CLIENT_SECRET_ENV);
            return Err(text);
        },
    };
    let client_id = match &settings.oauth_client_id {
        Some(client_id) => client_id.clone(),
        None => {
            return Err(must_be_set_text(OAUTH_TOKEN_ENDPOINT_ENV, OAUTH_CLIENT_ID_ENV));
        },
    };
    let client_secret = match &settings.oauth_client_secret {
        Some(client_secret) => client_secret.clone(),
        None => {
            return Err(must_be_set_text(OAUTH_TOKEN_ENDPOINT_ENV, OAUTH_CLIENT_SECRET_ENV));
        },
    };
    Ok(
        SaslSettings::Issuer {
            endpoint,
            client_id,
            client_secret,
            scope: nonempty(&settings.oauth_scope),
            audience: nonempty(&settings.oauth_audience),
            allow_plaintext,
        },
    )
}

/// Who is connecting with tokens.
pub fn oauth_bearer_from_env(settings: &Settings) -> (sasl: Result<SaslSettings, String>)
    ensures
        match sasl {
            Ok(sasl) => bearer_of(*settings) == Ok::<_, Seq<char>>(sasl@),
            Err(text) => bearer_of(*settings) == Err::<SaslView, _>(text@),
        },
{
    let allow_plaintext = settings.ca_pem.is_none() && settings.ca_file.is_none();
    if is_given(&settings.oauth_token) {
        if let Some(token) = &settings.oauth_token {
            let rest = trim(letters(token.as_str()).as_slice());
            return Ok(
                SaslSettings::Token { token: spelled(rest.as_slice()), allow_plaintext },
            );
        }
    }
    oidc_from_env(settings, allow_plaintext)
}

/// Who is connecting, if anyone in particular.
pub open spec fn sasl_of(settings: Settings, encrypted: bool) -> Result<Option<SaslView>, Seq<char>> {
    if !given(text_of(settings.sasl_mechanism)) {
        Ok(None)
    } else {
        let named = in_capitals(text_of(settings.sasl_mechanism)->Some_0);
        if named == "OAUTHBEARER"@ {
            match bearer_of(settings) {
                Ok(bearer) => Ok(Some(bearer)),
                Err(text) => Err(text),
            }
        } else {
            match mechanism_of(named) {
                None => Err("unknown "@ + SASL_MECHANISM_ENV@ + ": "@ + named),
                Some(mechanism) => match text_of(settings.sasl_username) {
                    None => Err(must_be_set(SASL_MECHANISM_ENV@, SASL_USERNAME_ENV@)),
                    Some(username) => match text_of(settings.sasl_password) {
                        None => Err(must_be_set(SASL_MECHANISM_ENV@, SASL_PASSWORD_ENV@)),
                        Some(password) => Ok(
                            Some(
                                SaslView::Password {
                                    mechanism,
                                    username,
                                    password,
                                    allow_plaintext: mechanism == SaslMechanism::Plain
                                        && !encrypted,
                                },
                            ),
                        ),
                    },
                },
            }
        }
    }
}

/// The mechanism that a name in large letters stands for.
pub open spec fn mechanism_of(named: Seq<char>) -> Option<SaslMechanism> {
    if named == "PLAIN"@ {
        Some(SaslMechanism::Plain)
    } else if named == "SCRAM-SHA-256"@ || named == "SCRAM_SHA_256"@ {
        Some(SaslMechanism::ScramSha256)
    } else if named == "SCRAM-SHA-512"@ || named == "SCRAM_SHA_512"@ {
        Some(SaslMechanism::ScramSha512)
    } else {
        None
    }
}

/// Who is connecting, if anyone in particular.
///
/// A password is refused over a connection that is not encrypted unless that
/// is asked for. A live run against a listener that offers it is a reason to
/// ask, and whether this run resolved any encryption at all is what says
/// whether the connection is encrypted.
pub fn sasl_from_env(settings: &Settings, encrypted: bool) -> (sasl: Result<
    Option<SaslSettings>,
    String,
>)
    ensures
        match sasl {
            Ok(Some(sasl)) => sasl_of(*settings, encrypted) == Ok::<_, Seq<char>>(Some(sasl@)),
            Ok(None) => sasl_of(*settings, encrypted) == Ok::<Option<SaslView>, Seq<char>>(None),
            Err(text) => sasl_of(*settings, encrypted) == Err::<Option<SaslView>, _>(text@),
        },
{
    if !is_given(&settings.sasl_mechanism) {
        return Ok(None);
    }
    let named = match &settings.sasl_mechanism {
        Some(named) => capitals(named.as_str()),
        None => {
            return Ok(None);
        },
    };
    let mechanism = if same(&named, "OAUTHBEARER") {
        return match oauth_bearer_from_env(settings) {
            Ok(sasl) => Ok(Some(sasl)),
            Err(text) => Err(text),
        };
    } else if same(&named, "PLAIN") {
        SaslMechanism::Plain
    } else if same(&named, "SCRAM-SHA-256") || same(&named, "SCRAM_SHA_256") {
        SaslMechanism::ScramSha256
    } else if same(&named, "SCRAM-SHA-512") || same(&named, "SCRAM_SHA_512") {
        SaslMechanism::ScramSha512
    } else {
        let mut text = joined("unknown ", SASL_MECHANISM_ENV);
        text.append(": ");
        text.append(named.as_str());
        return Err(text);
    };
    let username = match &settings.sasl_username {
        Some(username) => username.clone(),
        None => {
            return Err(must_be_set_text(SASL_MECHANISM_ENV, SASL_USERNAME_ENV));
        },
    };
    let password = match &settings.sasl_password {
        Some(password) => password.clone(),
        None => {
            return Err(must_be_set_text(SASL_MECHANISM_ENV, SASL_PASSWORD_ENV));
        },
    };
    let plain = match mechanism {
        SaslMechanism::Plain => true,
        _ => false,
    };
    Ok(
        Some(
            SaslSettings::Password {
                mechanism,
                username,
                password,
                allow_plaintext: plain && !encrypted,
            },
        ),
    )
}

/// The addresses in a comma-separated list: its parts, trimmed, that are not
/// empty.
pub open spec fn addresses_of(pieces: Seq<Seq<char>>) -> Seq<Seq<char>>
    decreases pieces.len(),
{
    if pieces.len() == 0 {
        seq![]
    } else {
        let before = addresses_of(pieces.drop_last());
        if trimmed(pieces.last()).len() == 0 {
            before
        } else {
            before.push(trimmed(pieces.last()))
        }
    }
}

/// The addresses in a comma-separated list.
pub fn addresses(raw: &str) -> (addresses: Vec<String>)
    ensures
        text_views(addresses@) == addresses_of(parts(raw@, ',')),
{
    let pieces = split(letters(raw).as_slice(), ',');
    let ghost views = piece_views(pieces@);
    let mut addresses: Vec<String> = Vec::new();
    let mut at: usize = 0;
    assert(text_views(addresses@) =~= addresses_of(views.take(0)));
    while at < pieces.len()
        invariant
            at <= pieces.len(),
            views == piece_views(pieces@),
            text_views(addresses@) == addresses_of(views.take(at as int)),
        decreases pieces.len() - at,
    {
        let ghost before = addresses@;
        assert(views.take(at + 1).drop_last() =~= views.take(at as int));
        assert(views.take(at + 1).last() == pieces@[at as int]@);
        let address = trim(pieces[at].as_slice());
        if address.len() > 0 {
            addresses.push(spelled(address.as_slice()));
            assert(text_views(addresses@) =~= text_views(before).push(address@));
        }
        at += 1;
    }
    assert(views.take(at as int) =~= views);
    addresses
}

/// The host in an address, up to its first dot.
pub open spec fn host_of(address: Seq<char>) -> Seq<char> {
    parts(parts(address, ':')[0], '.')[0]
}

/// The host in an address, up to its first dot.
fn host(address: &str) -> (host: String)
    ensures
        host@ == host_of(address@),
{
    let ports = split(letters(address).as_slice(), ':');
    assert(piece_views(ports@)[0] == ports@[0]@);
    let names = split(ports[0].as_slice(), '.');
    assert(piece_views(names@)[0] == names@[0]@);
    spelled(names[0].as_slice())
}

/// Whether a setting says yes.
pub open spec fn says_yes(setting: Option<Seq<char>>) -> bool {
    setting matches Some(text) && (text == "1"@ || text == "true"@ || text == "yes"@)
}

/// A cluster to run against.
#[derive(Debug)]
pub struct Target {
    /// Human-readable label.
    pub label: String,
    /// Bootstrap addresses.
    pub bootstrap: Vec<String>,
    /// Prefix for created topics and groups.
    pub prefix: String,
    /// Whether this run may mutate the cluster.
    pub read_only: bool,
    /// What the run calls itself to the brokers.
    pub client_id: String,
    /// How connections are encrypted, if they are.
    pub tls: Option<TlsSettings>,
    /// Who is connecting, if anyone in particular.
    pub sasl: Option<SaslSettings>,
}

/// Whether a target is what some settings describe, given how connections are
/// encrypted and who is connecting.
pub open spec fn describes(
    settings: Settings,
    tls: Option<TlsView>,
    sasl: Option<SaslView>,
    target: Target,
) -> bool {
    let bootstrap = addresses_of(parts(text_of(settings.bootstrap)->Some_0, ','));
    &&& text_views(target.bootstrap@) == bootstrap
    // The first host is usually the service's name and so the cluster's.
    &&& target.label@ == match text_of(settings.label) {
        Some(label) => label,
        None => host_of(bootstrap[0]),
    }
    &&& target.prefix@ == match text_of(settings.prefix) {
        Some(prefix) => prefix,
        None => DEFAULT_PREFIX@,
    }
    &&& target.read_only == says_yes(text_of(settings.read_only))
    &&& target.client_id@ == "kaas-lib-livetest/"@ + target.label@
    &&& match target.tls {
        Some(plan) => tls == Some(plan@),
        None => tls is None,
    }
    &&& match target.sasl {
        Some(plan) => sasl == Some(plan@),
        None => sasl is None,
    }
}

/// The target that some settings describe, or what is wrong with them. The
/// credentials that they name were read already.
pub open spec fn target_of(
    settings: Settings,
    ca: Option<Seq<u8>>,
    chain: Option<Seq<u8>>,
    key: Option<Seq<u8>>,
) -> Result<(Option<TlsView>, Option<SaslView>), Seq<char>> {
    match text_of(settings.bootstrap) {
        None => Err(
            BOOTSTRAP_ENV@
                + " is not set. The live-cluster skill resolves it from Kubernetes"@,
        ),
        Some(raw) => if addresses_of(parts(raw, ',')).len() == 0 {
            Err(BOOTSTRAP_ENV@ + " is set but empty"@)
        } else if chain is Some && key is None {
            Err(key_missing())
        } else if chain is None && key is Some {
            Err(certificate_missing())
        } else {
            let client = match (chain, key) {
                (Some(chain), Some(key)) => Some((chain, key)),
                _ => None,
            };
            let tls = tls_of(ca, client, text_of(settings.tls_server_name));
            match sasl_of(settings, tls is Some) {
                Err(text) => Err(text),
                Ok(sasl) => Ok((tls, sasl)),
            }
        },
    }
}

impl Target {
    /// The target that some settings describe, with the credentials that they
    /// name.
    pub fn from_env(
        settings: &Settings,
        ca: Option<Vec<u8>>,
        chain: Option<Vec<u8>>,
        key: Option<Vec<u8>>,
    ) -> (target: Result<Self, String>)
        ensures
            match target_of(*settings, bytes_of(ca), bytes_of(chain), bytes_of(key)) {
                Ok((tls, sasl)) => target matches Ok(target) && describes(
                    *settings,
                    tls,
                    sasl,
                    target,
                ),
                Err(problem) => target matches Err(text) && text@ == problem,
            },
    {
        let bootstrap = match &settings.bootstrap {
            Some(raw) => addresses(raw.as_str()),
            None => {
                return Err(
                    joined(
                        BOOTSTRAP_ENV,
                        " is not set. The live-cluster skill resolves it from Kubernetes",
                    ),
                );
            },
        };
        if bootstrap.len() == 0 {
            return Err(joined(BOOTSTRAP_ENV, " is set but empty"));
        }
        assert(text_views(bootstrap@)[0] == bootstrap@[0]@);
        let label = match &settings.label {
            Some(label) => label.clone(),
            None => host(bootstrap[0].as_str()),
        };
        let read_only = match &settings.read_only {
            Some(text) => same(text, "1") || same(text, "true") || same(text, "yes"),
            None => false,
        };
        let prefix = match &settings.prefix {
            Some(prefix) => prefix.clone(),
            None => DEFAULT_PREFIX.to_owned(),
        };
        let client_id = joined("kaas-lib-livetest/", label.as_str());
        let tls = match tls_from_env(ca, chain, key, &settings.tls_server_name) {
            Ok(tls) => tls,
            Err(text) => {
                return Err(text);
            },
        };
        let sasl = match sasl_from_env(settings, tls.is_some()) {
            Ok(sasl) => sasl,
            Err(text) => {
                return Err(text);
            },
        };
        Ok(Target { label, bootstrap, prefix, read_only, client_id, tls, sasl })
    }

    /// How connections are encrypted without the client certificate, or `None`
    /// when no client certificate is configured.
    ///
    /// The negative half of mutual TLS: connecting with this against a listener
    /// that asks for certificates must fail, which shows that the listener
    /// requires one rather than merely tolerating it.
    pub fn connection_without_client_certificate(&self) -> (tls: Option<TlsSettings>)
        ensures
            match self.tls {
                Some(own) => if own@.client is Some {
                    tls matches Some(tls) && tls@ == (TlsView { client: None, ..own@ })
                } else {
                    tls is None
                },
                None => tls is None,
            },
    {
        match &self.tls {
            Some(own) => match &own.client {
                Some(_) => Some(
                    TlsSettings {
                        ca: match &own.ca {
                            Some(ca) => Some(vstd::slice::slice_to_vec(ca.as_slice())),
                            None => None,
                        },
                        client: None,
                        server_name: copied(&own.server_name),
                    },
                ),
                None => None,
            },
            None => None,
        }
    }

    /// A name inside this run's namespace: unique per run, so that two runs
    /// cannot collide, and prefixed, so that what a crashed run left behind can
    /// be found.
    pub fn scoped_name(&self, kind: &str, unique: &str) -> (name: String)
        ensures
            name@ == self.prefix@ + "-"@ + kind@ + "-"@ + unique@,
    {
        let mut name = joined(self.prefix.as_str(), "-");
        name.append(kind);
        name.append("-");
        name.append(unique);
        name
    }

    /// Whether a name belongs to this tool. Nothing else is ever deleted.
    pub fn owns(&self, name: &str) -> (owned: bool)
        ensures
            owned == begins_with(name@, self.prefix@ + "-"@),
    {
        owns(self.prefix.as_str(), name)
    }

    /// Refuses to continue when a run needs to write and was told not to.
    pub fn require_writable(&self, what: &str) -> (writable: Result<(), String>)
        ensures
            match writable {
                Ok(()) => !self.read_only,
                Err(text) => self.read_only && text@ == what@
                    + " needs to create resources, but "@ + READ_ONLY_ENV@ + " is set"@,
            },
    {
        if self.read_only {
            let mut text = joined(what, " needs to create resources, but ");
            text.append(READ_ONLY_ENV);
            text.append(" is set");
            return Err(text);
        }
        Ok(())
    }
}

/// Every name that a run makes is one that it may delete again, whatever its
/// kind and token; and a name that lacks the prefix and its separator is not.
pub proof fn scoped_names_are_owned(prefix: Seq<char>, kind: Seq<char>, unique: Seq<char>)
    ensures
        begins_with(prefix + "-"@ + kind + "-"@ + unique, prefix + "-"@),
        !begins_with(prefix, prefix + "-"@),
{
    let name = prefix + "-"@ + kind + "-"@ + unique;
    let marked = prefix + "-"@;
    reveal_strlit("-");
    assert(name.take(marked.len() as int) =~= marked);
}

} // verus!
