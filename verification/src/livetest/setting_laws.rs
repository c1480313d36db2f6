//! What holds of every command line, setting and report.

use vstd::prelude::*;

use crate::error::text_of;
use crate::livetest::command::{asked, Command};
use crate::livetest::produce::topic_option;
use crate::livetest::read::{default_options, options_of, parsed, OptionsView};
use crate::livetest::report::{
    all_escaped, comments_of, escaped, facts_of, lines_of, present_or_dash, FactView,
};
use crate::livetest::target::{
    addresses_of, bearer_of, describes, given, host_of, mechanism_of, sasl_of, says_yes, target_of,
    tls_of, unless_empty, SaslMechanism, SaslView, Settings, Target, TlsView,
};
use crate::text::{in_capitals, number_in, quoted, text_views, trimmed};
use crate::text_laws::the_first_part_ends_at_the_separator;

verus! {

/// What the first word of a command line asks for. Without one it is help; an unknown one
/// is refused by name.
pub proof fn what_a_word_asks_for(word: Seq<char>)
    ensures
        asked(None) == Ok::<Command, Seq<char>>(Command::Help),
        asked(Some("help"@)) == Ok::<Command, Seq<char>>(Command::Help),
        asked(Some("--help"@)) == Ok::<Command, Seq<char>>(Command::Help),
        asked(Some("-h"@)) == Ok::<Command, Seq<char>>(Command::Help),
        asked(Some("probe"@)) == Ok::<Command, Seq<char>>(Command::Probe),
        asked(Some("smoke"@)) == Ok::<Command, Seq<char>>(Command::Smoke),
        asked(Some("produce"@)) == Ok::<Command, Seq<char>>(Command::Produce),
        asked(Some("read"@)) == Ok::<Command, Seq<char>>(Command::Read),
        asked(Some("sweep"@)) == Ok::<Command, Seq<char>>(Command::Sweep),
        (word != "help"@ && word != "--help"@ && word != "-h"@ && word != "probe"@ && word != "smoke"@ && word != "produce"@ && word != "read"@ && word != "sweep"@) ==> asked(Some(word)) == Err::<Command, Seq<char>>("unknown command "@ + quoted(word)),
{
    reveal_strlit("help");
    reveal_strlit("--help");
    reveal_strlit("-h");
    reveal_strlit("probe");
    reveal_strlit("smoke");
    reveal_strlit("produce");
    reveal_strlit("read");
    reveal_strlit("sweep");
    assert("help"@.len() == 4);
    assert("--help"@.len() == 6);
    assert("-h"@.len() == 2);
    assert("probe"@.len() == 5);
    assert("smoke"@.len() == 5);
    assert("produce"@.len() == 7);
    assert("read"@.len() == 4);
    assert("sweep"@.len() == 5);
    assert("help"@[0] != "read"@[0]);
    assert("probe"@[0] != "smoke"@[0]);
    assert("probe"@[0] != "sweep"@[0]);
    assert("smoke"@[1] != "sweep"@[1]);
}

/// What the names of mechanisms stand for, with dashes or with underscores.
pub proof fn what_mechanisms_are_called(name: Seq<char>)
    ensures
        mechanism_of("PLAIN"@) == Some(SaslMechanism::Plain),
        mechanism_of("SCRAM-SHA-256"@) == Some(SaslMechanism::ScramSha256),
        mechanism_of("SCRAM_SHA_256"@) == Some(SaslMechanism::ScramSha256),
        mechanism_of("SCRAM-SHA-512"@) == Some(SaslMechanism::ScramSha512),
        mechanism_of("SCRAM_SHA_512"@) == Some(SaslMechanism::ScramSha512),
        (name != "PLAIN"@ && name != "SCRAM-SHA-256"@ && name != "SCRAM_SHA_256"@ && name != "SCRAM-SHA-512"@ && name != "SCRAM_SHA_512"@) ==> mechanism_of(name) is None,
{
    reveal_strlit("PLAIN");
    reveal_strlit("SCRAM-SHA-256");
    reveal_strlit("SCRAM_SHA_256");
    reveal_strlit("SCRAM-SHA-512");
    reveal_strlit("SCRAM_SHA_512");
    assert("PLAIN"@.len() == 5);
    assert("SCRAM-SHA-256"@.len() == 13);
    assert("SCRAM_SHA_256"@.len() == 13);
    assert("SCRAM-SHA-512"@.len() == 13);
    assert("SCRAM_SHA_512"@.len() == 13);
    assert("SCRAM-SHA-256"@[5] != "SCRAM_SHA_256"@[5]);
    assert("SCRAM-SHA-256"@[10] != "SCRAM-SHA-512"@[10]);
    assert("SCRAM-SHA-256"@[5] != "SCRAM_SHA_512"@[5]);
    assert("SCRAM_SHA_256"@[5] != "SCRAM-SHA-512"@[5]);
    assert("SCRAM_SHA_256"@[10] != "SCRAM_SHA_512"@[10]);
    assert("SCRAM-SHA-512"@[5] != "SCRAM_SHA_512"@[5]);
}

/// One, true and yes say yes; nothing else does.
pub proof fn what_says_yes(text: Seq<char>)
    ensures
        says_yes(Some("1"@)),
        says_yes(Some("true"@)),
        says_yes(Some("yes"@)),
        !says_yes(None),
        text != "1"@ && text != "true"@ && text != "yes"@ ==> !says_yes(Some(text)),
{
}

/// A setting is given if there is anything in it but white space.
pub proof fn when_a_setting_is_given(text: Seq<char>)
    ensures
        !given(None),
        given(Some(text)) <==> trimmed(text).len() > 0,
        unless_empty(None) is None,
        text.len() == 0 ==> unless_empty(Some(text)) is None,
        text.len() > 0 ==> unless_empty(Some(text)) == Some(text),
{
}

/// A connection is encrypted just when there is a bundle or a client certificate; the
/// server is called by another name where one is given.
pub proof fn when_a_connection_is_encrypted(
    ca: Option<Seq<u8>>,
    client: Option<(Seq<u8>, Seq<u8>)>,
    server_name: Option<Seq<char>>,
)
    ensures
        tls_of(ca, client, server_name) is Some <==> ca is Some || client is Some,
        tls_of(ca, client, server_name) matches Some(tls) ==> {
            &&& tls.ca == ca
            &&& tls.client == client
            &&& given(server_name) ==> tls.server_name == server_name
            &&& !given(server_name) ==> tls.server_name is None
        },
{
}

/// Who connects with tokens: the bearer of the token that is given; else of those that
/// an issuer hands out, where its endpoint, the client's id and its secret are all set.
/// Plain text is allowed only where no bundle is named.
pub proof fn who_connects_with_tokens(settings: Settings)
    ensures
        ({
            let plain = settings.ca_pem is None && settings.ca_file is None;
            let token = text_of(settings.oauth_token);
            let all_set = settings.oauth_token_endpoint is Some && settings.oauth_client_id is Some
                && settings.oauth_client_secret is Some;
            &&& given(token) ==> bearer_of(settings) == Ok::<SaslView, Seq<char>>(
                SaslView::Token { token: trimmed(token->Some_0), allow_plaintext: plain },
            )
            &&& !given(token) ==> (bearer_of(settings) is Ok <==> all_set)
            &&& !given(token) && all_set ==> bearer_of(settings) == Ok::<SaslView, Seq<char>>(
                SaslView::Issuer {
                    endpoint: settings.oauth_token_endpoint->Some_0@,
                    client_id: settings.oauth_client_id->Some_0@,
                    client_secret: settings.oauth_client_secret->Some_0@,
                    scope: unless_empty(text_of(settings.oauth_scope)),
                    audience: unless_empty(text_of(settings.oauth_audience)),
                    allow_plaintext: plain,
                },
            )
        }),
{
}

/// Who connects: nobody in particular without a mechanism; a bearer under that name, in
/// any case; under another mechanism whoever has its user and password. Only the plain
/// mechanism goes over plain text, and only where nothing is encrypted.
pub proof fn who_connects(settings: Settings, encrypted: bool)
    ensures
        ({
            let mechanism = text_of(settings.sasl_mechanism);
            let named = in_capitals(mechanism->Some_0);
            let result = sasl_of(settings, encrypted);
            &&& !given(mechanism) ==> result == Ok::<Option<SaslView>, Seq<char>>(None)
            &&& given(mechanism) && named == "OAUTHBEARER"@ ==> match bearer_of(settings) {
                Ok(bearer) => result == Ok::<Option<SaslView>, Seq<char>>(Some(bearer)),
                Err(text) => result == Err::<Option<SaslView>, Seq<char>>(text),
            }
            &&& given(mechanism) && named != "OAUTHBEARER"@ ==> {
                &&& result is Ok <==> mechanism_of(named) is Some && settings.sasl_username is Some
                    && settings.sasl_password is Some
                &&& result is Ok ==> result == Ok::<Option<SaslView>, Seq<char>>(
                    Some(
                        SaslView::Password {
                            mechanism: mechanism_of(named)->Some_0,
                            username: settings.sasl_username->Some_0@,
                            password: settings.sasl_password->Some_0@,
                            allow_plaintext: mechanism_of(named) == Some(SaslMechanism::Plain)
                                && !encrypted,
                        },
                    ),
                )
            }
        }),
{
}

/// A target needs an address, and a client certificate and its key together or neither;
/// then who connects decides.
pub proof fn when_there_is_a_target(
    settings: Settings,
    ca: Option<Seq<u8>>,
    chain: Option<Seq<u8>>,
    key: Option<Seq<u8>>,
)
    ensures
        ({
            let result = target_of(settings, ca, chain, key);
            let addressed = settings.bootstrap matches Some(raw) && addresses_of(
                crate::text::parts(raw@, ','),
            ).len() > 0;
            let client = if chain is Some && key is Some {
                Some((chain->Some_0, key->Some_0))
            } else {
                None
            };
            let tls = tls_of(ca, client, text_of(settings.tls_server_name));
            &&& !addressed || (chain is Some) != (key is Some) ==> result is Err
            &&& addressed && (chain is Some) == (key is Some) ==> match sasl_of(
                settings,
                ca is Some || chain is Some,
            ) {
                Ok(sasl) => result == Ok::<(Option<TlsView>, Option<SaslView>), Seq<char>>(
                    (tls, sasl),
                ),
                Err(text) => result == Err::<(Option<TlsView>, Option<SaslView>), Seq<char>>(text),
            }
        }),
{
}

/// Addresses are the pieces that are not blank, trimmed, in order.
pub proof fn which_addresses_are_listed(pieces: Seq<Seq<char>>, piece: Seq<char>)
    ensures
        addresses_of(seq![]).len() == 0,
        trimmed(piece).len() == 0 ==> addresses_of(pieces.push(piece)) == addresses_of(pieces),
        trimmed(piece).len() > 0 ==> addresses_of(pieces.push(piece)) == addresses_of(pieces).push(
            trimmed(piece),
        ),
{
    assert(pieces.push(piece).drop_last() =~= pieces);
}

/// What is read unless something else is asked for: any topics, five at most, and 20000
/// records of each.
pub proof fn what_is_read_by_default()
    ensures
        default_options().topics.len() == 0,
        default_options().expect is None,
        default_options().limit == 20000,
        default_options().max_topics == 5,
        parsed(seq![]) == Ok::<OptionsView, Seq<char>>(default_options()),
{
}

/// What the options of a read mean: a topic is added, a number set; one without its value,
/// or with one that is no number, is refused, and so is what is no option.
pub proof fn what_options_mean(args: Seq<Seq<char>>, value: Seq<char>, so_far: OptionsView)
    ensures
        options_of(seq![], so_far) == Ok::<OptionsView, Seq<char>>(so_far),
        options_of(seq!["--topic"@, value] + args, so_far) == options_of(
            args,
            OptionsView { topics: so_far.topics.push(value), ..so_far },
        ),
        number_in(value) matches Some(n) ==> {
            &&& options_of(seq!["--expect"@, value] + args, so_far) == options_of(
                args,
                OptionsView { expect: Some(n), ..so_far },
            )
            &&& options_of(seq!["--limit"@, value] + args, so_far) == options_of(
                args,
                OptionsView { limit: n, ..so_far },
            )
            &&& options_of(seq!["--max-topics"@, value] + args, so_far) == options_of(
                args,
                OptionsView { max_topics: n, ..so_far },
            )
        },
        number_in(value) is None ==> {
            &&& options_of(seq!["--expect"@, value] + args, so_far) is Err
            &&& options_of(seq!["--limit"@, value] + args, so_far) is Err
            &&& options_of(seq!["--max-topics"@, value] + args, so_far) is Err
        },
        options_of(seq!["--topic"@], so_far) is Err,
        options_of(seq!["--expect"@], so_far) is Err,
        options_of(seq!["--limit"@], so_far) is Err,
        options_of(seq!["--max-topics"@], so_far) is Err,
        (value != "--topic"@ && value != "--expect"@ && value != "--limit"@ && value != "--max-topics"@) ==> options_of(seq![value] + args, so_far) is Err,
{
    reveal_strlit("--topic");
    reveal_strlit("--expect");
    reveal_strlit("--limit");
    reveal_strlit("--max-topics");
    assert("--topic"@.len() == 7);
    assert("--expect"@.len() == 8);
    assert("--limit"@.len() == 7);
    assert("--max-topics"@.len() == 12);
    assert("--topic"@[2] != "--limit"@[2]);
    assert((seq!["--topic"@, value] + args).skip(2) =~= args);
    assert((seq!["--expect"@, value] + args).skip(2) =~= args);
    assert((seq!["--limit"@, value] + args).skip(2) =~= args);
    assert((seq!["--max-topics"@, value] + args).skip(2) =~= args);
}

/// A number of records is only expected of a topic that was named.
pub proof fn what_is_expected_needs_a_topic(args: Seq<Seq<char>>)
    ensures
        match options_of(args, default_options()) {
            Err(text) => parsed(args) == Err::<OptionsView, Seq<char>>(text),
            Ok(options) => {
                &&& options.expect is Some && options.topics.len() == 0 ==> parsed(args) is Err
                &&& options.expect is None || options.topics.len() > 0 ==> parsed(args) == Ok::<
                    OptionsView,
                    Seq<char>,
                >(options)
            },
        },
{
}

/// The last topic that is named is the one that is written to.
pub proof fn which_topic_is_written_to(
    args: Seq<Seq<char>>,
    name: Seq<char>,
    so_far: Option<Seq<char>>,
)
    ensures
        topic_option(seq![], so_far) == Ok::<Option<Seq<char>>, Seq<char>>(so_far),
        topic_option(seq!["--topic"@, name] + args, so_far) == topic_option(args, Some(name)),
        topic_option(seq!["--topic"@], so_far) is Err,
        name != "--topic"@ ==> topic_option(seq![name] + args, so_far) is Err,
{
    assert((seq!["--topic"@, name] + args).skip(2) =~= args);
}

/// A report is a line for each fact, its key, an equals sign and its value; and its notes
/// are a comment line each.
pub proof fn how_a_report_is_written(
    entries: Seq<FactView>,
    entry: FactView,
    notes: Seq<Seq<char>>,
    note: Seq<char>,
)
    ensures
        lines_of(seq![]).len() == 0,
        lines_of(entries.push(entry)) == lines_of(entries) + entry.0 + seq![' ', '=', ' '] + entry.1
            + seq!['\n'],
        comments_of(seq![]).len() == 0,
        comments_of(notes.push(note)) == comments_of(notes) + seq!['#', ' '] + note + seq!['\n'],
        facts_of(seq![]) == Map::<Seq<char>, Seq<char>>::empty(),
        facts_of(entries.push(entry)) == facts_of(entries).insert(entry.0, entry.1),
{
    reveal_strlit(" = ");
    reveal_strlit("\n");
    reveal_strlit("# ");
    assert(" = "@ =~= seq![' ', '=', ' ']);
    assert("\n"@ =~= seq!['\n']);
    assert("# "@ =~= seq!['#', ' ']);
    assert(entries.push(entry).drop_last() =~= entries);
    assert(notes.push(note).drop_last() =~= notes);
}

/// What is absent is a dash, and what is there is itself.
pub proof fn absence_is_a_dash(value: Seq<char>)
    ensures
        present_or_dash(None) == "-"@,
        present_or_dash(Some(value)) == value,
{
}

/// Line breaks and backslashes are escaped, each by a backslash in front, and nothing else
/// is.
pub proof fn what_is_escaped(text: Seq<char>, letter: char)
    ensures
        escaped('\\') == seq!['\\', '\\'],
        escaped('\n') == seq!['\\', 'n'],
        escaped('\r') == seq!['\\', 'r'],
        letter != '\\' && letter != '\n' && letter != '\r' ==> escaped(letter) == seq![letter],
        all_escaped(seq![]).len() == 0,
        all_escaped(text.push(letter)) == all_escaped(text) + escaped(letter),
{
    assert(text.push(letter).drop_last() =~= text);
}

/// The host in an address is what stands before its first dot, and before the port.
pub proof fn what_the_host_is(name: Seq<char>, domain: Seq<char>, port: Seq<char>)
    requires
        !name.contains(':'),
        !name.contains('.'),
        !domain.contains(':'),
    ensures
        host_of(name) == name,
        host_of(name + seq![':'] + port) == name,
        host_of(name + seq!['.'] + domain) == name,
        host_of(name + seq!['.'] + domain + seq![':'] + port) == name,
{
    let full = name + seq!['.'] + domain;
    assert(!full.contains(':')) by {
        if full.contains(':') {
            let k = choose|k: int| 0 <= k < full.len() && full[k] == ':';
            if k < name.len() {
                assert(name[k] == ':');
            } else if k > name.len() {
                assert(domain[k - name.len() - 1] == ':');
            }
        }
    }
    the_first_part_ends_at_the_separator(name, port, ':');
    the_first_part_ends_at_the_separator(full, port, ':');
    the_first_part_ends_at_the_separator(name, domain, '.');
}

/// What a target is: the addresses that are listed; the label that is given, or else the
/// first address's host; the prefix that is given, or else the usual one; read-only where
/// that is said; and a client that is called after its label.
pub proof fn what_a_target_is(
    settings: Settings,
    tls: Option<TlsView>,
    sasl: Option<SaslView>,
    target: Target,
)
    requires
        describes(settings, tls, sasl, target),
        settings.bootstrap is Some,
    ensures
        ({
            let listed = addresses_of(crate::text::parts(settings.bootstrap->Some_0@, ','));
            &&& text_views(target.bootstrap@) == listed
            &&& settings.label matches Some(label) ==> target.label@ == label@
            &&& settings.label is None ==> target.label@ == host_of(listed[0])
            &&& settings.prefix matches Some(prefix) ==> target.prefix@ == prefix@
            &&& settings.prefix is None ==> target.prefix@ == "kaaslib-live"@
            &&& target.read_only == says_yes(text_of(settings.read_only))
            &&& target.client_id@ == "kaas-lib-livetest/"@ + target.label@
            &&& target.tls is Some <==> tls is Some
            &&& target.tls matches Some(plan) ==> tls == Some(plan@)
            &&& target.sasl is Some <==> sasl is Some
            &&& target.sasl matches Some(plan) ==> sasl == Some(plan@)
        }),
{
}

} // verus!
