//! Which cluster to run against, and as whom.

use std::time::{SystemTime, UNIX_EPOCH};

use kaas_lib::livetest::command::{fact_count, swept, Command};
use kaas_lib::livetest::target::{
    addresses, client_certificate, pem_from_env, run_token, sasl_from_env, tls_from_env,
    PemSource, SaslMechanism, SaslSettings, Settings, Target, CLIENT_CERT_FILE_ENV,
    CLIENT_KEY_FILE_ENV,
};

fn target(prefix: &str) -> Target {
    Target {
        label: "test".to_owned(),
        bootstrap: vec!["localhost:9092".to_owned()],
        prefix: prefix.to_owned(),
        read_only: false,
        client_id: "kaas-lib-livetest/test".to_owned(),
        tls: None,
        sasl: None,
    }
}

#[test]
fn scoped_names_are_owned_and_unscoped_ones_are_not() {
    let target = target("kaaslib-live");
    let name = target.scoped_name("topic", "abc123");
    assert_eq!(name, "kaaslib-live-topic-abc123");
    assert!(target.owns(&name));

    // These clusters are shared and long-lived, and the sweeper must never
    // touch anything it did not create.
    assert!(!target.owns("orders"));
    assert!(!target.owns("__consumer_offsets"));
    assert!(!target.owns("kperf-bench"));
    // Not even a name that merely starts with the same letters.
    assert!(!target.owns("kaaslib-liveness-probe"));
}

#[test]
fn a_read_only_target_refuses_to_create_anything() {
    let mut target = target("kaaslib-live");
    target.read_only = true;
    let refused = target.require_writable("the smoke suite");
    assert!(refused.is_err());
    assert_eq!(
        refused.unwrap_err(),
        "the smoke suite needs to create resources, but KAAS_TEST_READ_ONLY is set"
    );
    target.read_only = false;
    assert!(target.require_writable("the smoke suite").is_ok());
}

fn nanos() -> u32 {
    SystemTime::now().duration_since(UNIX_EPOCH).unwrap().subsec_nanos()
}

#[test]
fn run_tokens_differ_between_runs() {
    let first = nanos();
    let mut second = nanos();
    while second == first {
        second = nanos();
    }
    assert_ne!(run_token(7, first), run_token(7, second));
    assert_eq!(run_token(0x1f, 0xabc), "1fabc");
    assert_eq!(run_token(0, 0), "00");
}

#[test]
fn half_a_client_certificate_is_named_rather_than_left_to_the_handshake() {
    let chain = || Some(b"chain".to_vec());
    let key = || Some(b"key".to_vec());

    assert!(client_certificate(None, None).unwrap().is_none());
    assert_eq!(
        client_certificate(chain(), key()).unwrap(),
        Some((b"chain".to_vec(), b"key".to_vec()))
    );

    let no_key = client_certificate(chain(), None).unwrap_err();
    assert!(no_key.contains(CLIENT_KEY_FILE_ENV), "{no_key}");
    let no_chain = client_certificate(None, key()).unwrap_err();
    assert!(no_chain.contains(CLIENT_CERT_FILE_ENV), "{no_chain}");
}

fn settings() -> Settings {
    Settings {
        bootstrap: Some(" broker-1.prod.example:9092, broker-2:9092 ,,".to_owned()),
        label: None,
        ca_pem: None,
        ca_file: None,
        tls_server_name: None,
        sasl_mechanism: None,
        sasl_username: None,
        sasl_password: None,
        oauth_token: None,
        oauth_token_endpoint: None,
        oauth_client_id: None,
        oauth_client_secret: None,
        oauth_scope: None,
        oauth_audience: None,
        read_only: None,
        prefix: None,
    }
}

fn some(text: &str) -> Option<String> {
    Some(text.to_owned())
}

#[test]
fn a_target_needs_an_address_and_defaults_the_rest() {
    let target = Target::from_env(&settings(), None, None, None).unwrap();
    assert_eq!(
        target.bootstrap,
        vec!["broker-1.prod.example:9092".to_owned(), "broker-2:9092".to_owned()]
    );
    assert_eq!(target.label, "broker-1");
    assert_eq!(target.prefix, "kaaslib-live");
    assert_eq!(target.client_id, "kaas-lib-livetest/broker-1");
    assert!(!target.read_only);
    assert!(target.tls.is_none());
    assert!(target.sasl.is_none());

    let unset = Settings { bootstrap: None, ..settings() };
    let error = Target::from_env(&unset, None, None, None).unwrap_err();
    assert!(error.starts_with("KAAS_TEST_BOOTSTRAP is not set."));
    let empty = Settings { bootstrap: some(" , "), ..settings() };
    assert_eq!(
        Target::from_env(&empty, None, None, None).unwrap_err(),
        "KAAS_TEST_BOOTSTRAP is set but empty"
    );
    let named = Settings {
        label: some("prod"),
        prefix: some("mine"),
        read_only: some("yes"),
        ..settings()
    };
    let named = Target::from_env(&named, None, None, None).unwrap();
    assert_eq!(named.label, "prod");
    assert_eq!(named.prefix, "mine");
    assert!(named.read_only);
    assert_eq!(addresses("a:1"), vec!["a:1".to_owned()]);
}

#[test]
fn encryption_needs_a_bundle_or_a_certificate() {
    assert!(tls_from_env(None, None, None, &some("name")).unwrap().is_none());
    let tls = tls_from_env(Some(b"ca".to_vec()), None, None, &some("  ")).unwrap().unwrap();
    assert_eq!(tls.ca, Some(b"ca".to_vec()));
    assert_eq!(tls.server_name, None);

    let mut target = target("p");
    assert!(target.connection_without_client_certificate().is_none());
    target.tls = tls_from_env(
        Some(b"ca".to_vec()),
        Some(b"chain".to_vec()),
        Some(b"key".to_vec()),
        &some("name"),
    )
    .unwrap();
    let without = target.connection_without_client_certificate().unwrap();
    assert_eq!(without.ca, Some(b"ca".to_vec()));
    assert!(without.client.is_none());
    assert_eq!(without.server_name.as_deref(), Some("name"));
}

#[test]
fn a_pem_is_given_or_in_a_file() {
    assert!(matches!(pem_from_env(&some("pem"), &some("path")), PemSource::Inline(pem) if pem == "pem"));
    assert!(matches!(pem_from_env(&some(" "), &some("path")), PemSource::File(path) if path == "path"));
    assert!(matches!(pem_from_env(&None, &None), PemSource::Absent));
}

#[test]
fn a_password_goes_over_an_open_connection_only_where_none_is_encrypted() {
    let password = Settings {
        sasl_mechanism: some("plain"),
        sasl_username: some("user"),
        sasl_password: some("word"),
        ..settings()
    };
    match sasl_from_env(&password, false).unwrap().unwrap() {
        SaslSettings::Password { mechanism, username, allow_plaintext, .. } => {
            assert_eq!(mechanism, SaslMechanism::Plain);
            assert_eq!(username, "user");
            assert!(allow_plaintext);
        }
        other => panic!("{other:?}"),
    }
    assert!(matches!(
        sasl_from_env(&password, true).unwrap(),
        Some(SaslSettings::Password { allow_plaintext: false, .. })
    ));
    let scram = Settings { sasl_mechanism: some("scram_sha_512"), ..password };
    assert!(matches!(
        sasl_from_env(&scram, false).unwrap(),
        Some(SaslSettings::Password {
            mechanism: SaslMechanism::ScramSha512,
            allow_plaintext: false,
            ..
        })
    ));
}

#[test]
fn what_is_missing_of_a_login_is_named() {
    let with = |mechanism: &str| Settings { sasl_mechanism: some(mechanism), ..settings() };
    assert_eq!(
        sasl_from_env(&with("gssapi"), false).unwrap_err(),
        "unknown KAAS_TEST_SASL_MECHANISM: GSSAPI"
    );
    assert_eq!(
        sasl_from_env(&with("PLAIN"), false).unwrap_err(),
        "KAAS_TEST_SASL_MECHANISM is set, so KAAS_TEST_SASL_USERNAME must be"
    );
    let named = Settings { sasl_username: some("user"), ..with("PLAIN") };
    assert_eq!(
        sasl_from_env(&named, false).unwrap_err(),
        "KAAS_TEST_SASL_MECHANISM is set, so KAAS_TEST_SASL_PASSWORD must be"
    );
    assert!(sasl_from_env(&with("OAUTHBEARER"), false)
        .unwrap_err()
        .starts_with("KAAS_TEST_SASL_MECHANISM=OAUTHBEARER needs either"));
    let endpoint = Settings { oauth_token_endpoint: some("https://idp"), ..with("OAUTHBEARER") };
    assert_eq!(
        sasl_from_env(&endpoint, false).unwrap_err(),
        "KAAS_TEST_OAUTH_TOKEN_ENDPOINT is set, so KAAS_TEST_OAUTH_CLIENT_ID must be"
    );
    let client = Settings { oauth_client_id: some("id"), ..endpoint };
    assert_eq!(
        sasl_from_env(&client, false).unwrap_err(),
        "KAAS_TEST_OAUTH_TOKEN_ENDPOINT is set, so KAAS_TEST_OAUTH_CLIENT_SECRET must be"
    );
    let whole = Settings { oauth_client_secret: some("s"), oauth_scope: some(""), ..client };
    match sasl_from_env(&whole, false).unwrap().unwrap() {
        SaslSettings::Issuer { endpoint, scope, allow_plaintext, .. } => {
            assert_eq!(endpoint, "https://idp");
            assert_eq!(scope, None);
            assert!(allow_plaintext);
        }
        other => panic!("{other:?}"),
    }
    let token = Settings {
        oauth_token: some(" t "),
        ca_file: some("ca.pem"),
        ..with("oauthbearer")
    };
    assert!(matches!(
        sasl_from_env(&token, true).unwrap(),
        Some(SaslSettings::Token { ref token, allow_plaintext: false }) if token == "t"
    ));
    assert!(sasl_from_env(&settings(), false).unwrap().is_none());
}

#[test]
fn a_command_is_known_or_quoted_back() {
    let parse = |word: &str| Command::parse(Some(&word.to_owned()));
    assert_eq!(Command::parse(None), Ok(Command::Help));
    assert_eq!(parse("-h"), Ok(Command::Help));
    assert_eq!(parse("--help"), Ok(Command::Help));
    assert_eq!(parse("probe"), Ok(Command::Probe));
    assert_eq!(parse("smoke"), Ok(Command::Smoke));
    assert_eq!(parse("produce"), Ok(Command::Produce));
    assert_eq!(parse("read"), Ok(Command::Read));
    assert_eq!(parse("sweep"), Ok(Command::Sweep));
    assert_eq!(parse("de\"lete\n"), Err("unknown command \"de\\\"lete\\n\"".to_owned()));
    assert_eq!(fact_count(12), "# 12 fact(s)");
    assert_eq!(swept(3), "swept 3 leftover resource(s)");
}
