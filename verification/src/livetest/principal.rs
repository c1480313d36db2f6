//! How a cluster authenticates, and how one principal gets in: which facts the
//! answers come to. One key per listener, so that a comparison points at the
//! listener that differs.

use vstd::prelude::*;
use vstd::string::*;

use crate::error::text_of;
use crate::livetest::inventory::optional_line;
use crate::livetest::read::Facts;
use crate::livetest::report::{on_one_line, one_line, present_or_dash, Report};
use crate::text::{
    decimal, decimal_of, in_small_letters, join, joined, signed_of, small_letters, strung,
    text_views, truth, truth_text,
};

verus! {

/// The principal to describe when none is named: what a connection that does
/// not authenticate is called.
pub const DEFAULT_PRINCIPAL: &'static str = "User:ANONYMOUS";

/// The principals to describe.
pub fn requested(names: &Vec<String>) -> (requested: Vec<String>)
    ensures
        text_views(requested@) == if names@.len() == 0 {
            seq![DEFAULT_PRINCIPAL@]
        } else {
            text_views(names@)
        },
{
    let mut requested: Vec<String> = Vec::new();
    if names.len() == 0 {
        requested.push(DEFAULT_PRINCIPAL.to_owned());
        assert(text_views(requested@) =~= seq![DEFAULT_PRINCIPAL@]);
        return requested;
    }
    let mut at: usize = 0;
    assert(text_views(requested@) =~= text_views(names@).take(0));
    while at < names.len()
        invariant
            at <= names.len(),
            text_views(requested@) == text_views(names@).take(at as int),
        decreases names.len() - at,
    {
        let ghost before = requested@;
        requested.push(names[at].clone());
        assert(text_views(requested@) =~= text_views(before).push(names@[at as int]@));
        at += 1;
        assert(text_views(requested@) =~= text_views(names@).take(at as int));
    }
    assert(text_views(requested@) =~= text_views(names@));
    requested
}

/// One listener of a broker.
#[derive(Debug)]
pub struct Listener {
    /// Its name.
    pub name: String,
    /// The protocol that it speaks.
    pub protocol: String,
    /// The mechanisms that it accepts.
    pub sasl_mechanisms: Vec<String>,
    /// Whether it asks for client certificates.
    pub client_auth: String,
    /// Whether brokers talk to each other over it.
    pub inter_broker: bool,
    /// Whether controllers do.
    pub controller: bool,
}

/// How a broker's listeners authenticate.
#[derive(Debug)]
pub struct Authentication {
    /// The broker that was asked.
    pub node_id: i32,
    /// Its listeners.
    pub listeners: Vec<Listener>,
    /// How many of them clients connect to.
    pub client_listeners: usize,
    /// How certificates are turned into principals.
    pub mapping_rules: Option<String>,
    /// Whether they are turned into their subjects.
    pub maps_to_subjects: bool,
    /// The mechanisms that clients may use.
    pub client_mechanisms: Vec<String>,
}

/// What the facts of a listener start with.
pub open spec fn listener_key(listener: Listener) -> Seq<char> {
    "auth.listener."@ + in_small_letters(listener.name@)
}

/// The facts of one listener.
pub open spec fn one_listener_facts(facts: Facts, listener: Listener) -> Facts {
    facts.insert(listener_key(listener) + ".protocol"@, listener.protocol@).insert(
        listener_key(listener) + ".sasl_mechanisms"@,
        strung(text_views(listener.sasl_mechanisms@), ","@),
    ).insert(listener_key(listener) + ".client_auth"@, listener.client_auth@).insert(
        listener_key(listener) + ".inter_broker"@,
        truth(listener.inter_broker),
    ).insert(listener_key(listener) + ".controller"@, truth(listener.controller))
}

/// The facts of every listener.
pub open spec fn all_listener_facts(facts: Facts, listeners: Seq<Listener>) -> Facts
    decreases listeners.len(),
{
    if listeners.len() == 0 {
        facts
    } else {
        one_listener_facts(all_listener_facts(facts, listeners.drop_last()), listeners.last())
    }
}

/// The facts of how a broker's listeners authenticate.
pub open spec fn authentication_facts(facts: Facts, authentication: Authentication) -> Facts {
    all_listener_facts(
        facts.insert("auth.described_broker"@, signed_of(authentication.node_id as int)).insert(
            "auth.listener.count"@,
            decimal_of(authentication.listeners@.len()),
        ).insert(
            "auth.client_listener.count"@,
            decimal_of(authentication.client_listeners as nat),
        ).insert(
            "auth.principal_mapping_rules"@,
            present_or_dash(optional_line(text_of(authentication.mapping_rules))),
        ).insert(
            "auth.maps_certificates_to_subjects"@,
            truth(authentication.maps_to_subjects),
        ).insert(
            "auth.client_mechanisms"@,
            strung(text_views(authentication.client_mechanisms@), ","@),
        ),
        authentication.listeners@,
    )
}

/// Records how a broker's listeners authenticate.
pub fn listener_facts(report: &mut Report, authentication: &Authentication)
    requires
        old(report)@.wf(),
    ensures
        final(report)@.wf(),
        final(report)@.notes == old(report)@.notes,
        final(report)@.facts() == authentication_facts(old(report)@.facts(), *authentication),
{
    let listeners = &authentication.listeners;
    report.set_number("auth.described_broker", authentication.node_id as i64);
    report.set_count("auth.listener.count", listeners.len() as u64);
    report.set_count("auth.client_listener.count", authentication.client_listeners as u64);
    let rules = match &authentication.mapping_rules {
        Some(rules) => Some(one_line(rules.as_str())),
        None => None,
    };
    assert(text_of(rules) == optional_line(text_of(authentication.mapping_rules)));
    report.set_opt("auth.principal_mapping_rules".to_owned(), rules);
    report.set_flag("auth.maps_certificates_to_subjects", authentication.maps_to_subjects);
    report.set("auth.client_mechanisms".to_owned(), join(&authentication.client_mechanisms, ","));
    let ghost before = report@.facts();
    let mut at: usize = 0;
    assert(listeners@.take(0) =~= seq![]);
    while at < listeners.len()
        invariant
            at <= listeners.len(),
            report@.wf(),
            report@.notes == old(report)@.notes,
            report@.facts() == all_listener_facts(before, listeners@.take(at as int)),
        decreases listeners.len() - at,
    {
        let listener = &listeners[at];
        assert(listeners@.take(at + 1).drop_last() =~= listeners@.take(at as int));
        assert(listeners@.take(at + 1).last() == *listener);
        let key = joined("auth.listener.", small_letters(listener.name.as_str()).as_str());
        report.set(joined(key.as_str(), ".protocol"), listener.protocol.clone());
        report.set(
            joined(key.as_str(), ".sasl_mechanisms"),
            join(&listener.sasl_mechanisms, ","),
        );
        report.set(joined(key.as_str(), ".client_auth"), listener.client_auth.clone());
        report.set(joined(key.as_str(), ".inter_broker"), truth_text(listener.inter_broker));
        report.set(joined(key.as_str(), ".controller"), truth_text(listener.controller));
        at += 1;
    }
    assert(listeners@.take(at as int) =~= listeners@);
}

/// What is known of one principal. Each source stands for itself: on a cluster
/// with access control, an unprivileged principal reads some of them and not
/// others.
#[derive(Debug)]
pub struct PrincipalFacts {
    /// Its name.
    pub name: String,
    /// Whether that is a distinguished name.
    pub is_distinguished_name: bool,
    /// How many passwords it has, and for which mechanisms.
    pub scram: Result<(usize, Vec<String>), String>,
    /// How many delegation tokens it has.
    pub tokens: Result<usize, String>,
    /// How many access rules name it.
    pub acls: Result<usize, String>,
    /// How many quotas name it.
    pub quotas: Result<usize, String>,
    /// Whether the cluster stores credentials for it.
    pub has_stored_credentials: bool,
    /// Whether nothing at all is recorded of it.
    pub is_unrecorded: bool,
    /// How it gets in, as far as can be told.
    pub verdict: String,
    /// What that rests on.
    pub basis: String,
    /// Whether it is certain.
    pub conclusive: bool,
}

/// What the facts of a principal start with.
pub open spec fn principal_key(index: usize) -> Seq<char> {
    "principal."@ + decimal_of(index as nat)
}

/// The fact of one source.
pub open spec fn source_facts(facts: Facts, key: Seq<char>, counted: Result<usize, String>) -> Facts {
    match counted {
        Ok(count) => facts.insert(key + ".count"@, decimal_of(count as nat)),
        Err(error) => facts.insert(key + ".error"@, on_one_line(error@)),
    }
}

/// The facts of the passwords of a principal.
pub open spec fn password_facts(facts: Facts, key: Seq<char>, scram: Result<(usize, Vec<String>), String>) -> Facts {
    match scram {
        Ok((count, mechanisms)) => facts.insert(
            key + ".scram.count"@,
            decimal_of(count as nat),
        ).insert(key + ".scram.mechanisms"@, strung(text_views(mechanisms@), ","@)),
        Err(error) => facts.insert(key + ".scram.error"@, on_one_line(error@)),
    }
}

/// The facts of one principal.
pub open spec fn principal_facts(facts: Facts, index: usize, known: PrincipalFacts) -> Facts {
    let key = principal_key(index);
    source_facts(
        source_facts(
            source_facts(
                password_facts(
                    facts.insert(key + ".name"@, on_one_line(known.name@)).insert(
                        key + ".is_distinguished_name"@,
                        truth(known.is_distinguished_name),
                    ),
                    key,
                    known.scram,
                ),
                key + ".tokens"@,
                known.tokens,
            ),
            key + ".acls"@,
            known.acls,
        ),
        key + ".quotas"@,
        known.quotas,
    ).insert(key + ".has_stored_credentials"@, truth(known.has_stored_credentials)).insert(
        key + ".is_unrecorded"@,
        truth(known.is_unrecorded),
    ).insert(key + ".verdict"@, on_one_line(known.verdict@)).insert(
        key + ".verdict.basis"@,
        known.basis@,
    ).insert(key + ".verdict.conclusive"@, truth(known.conclusive))
}

/// Records one source.
fn record_source(report: &mut Report, key: &str, counted: &Result<usize, String>)
    requires
        old(report)@.wf(),
    ensures
        final(report)@.wf(),
        final(report)@.notes == old(report)@.notes,
        final(report)@.facts() == source_facts(old(report)@.facts(), key@, *counted),
{
    match counted {
        Ok(count) => report.set(joined(key, ".count"), decimal(*count as u64)),
        Err(error) => report.set(joined(key, ".error"), one_line(error.as_str())),
    }
}

/// Records what is known of one principal.
pub fn principal(report: &mut Report, index: usize, known: &PrincipalFacts)
    requires
        old(report)@.wf(),
    ensures
        final(report)@.wf(),
        final(report)@.notes == old(report)@.notes,
        final(report)@.facts() == principal_facts(old(report)@.facts(), index, *known),
{
    let key = joined("principal.", decimal(index as u64).as_str());
    report.set(joined(key.as_str(), ".name"), one_line(known.name.as_str()));
    report.set(
        joined(key.as_str(), ".is_distinguished_name"),
        truth_text(known.is_distinguished_name),
    );
    match &known.scram {
        Ok((count, mechanisms)) => {
            report.set(joined(key.as_str(), ".scram.count"), decimal(*count as u64));
            report.set(joined(key.as_str(), ".scram.mechanisms"), join(mechanisms, ","));
        },
        Err(error) => {
            report.set(joined(key.as_str(), ".scram.error"), one_line(error.as_str()));
        },
    }
    record_source(report, joined(key.as_str(), ".tokens").as_str(), &known.tokens);
    record_source(report, joined(key.as_str(), ".acls").as_str(), &known.acls);
    record_source(report, joined(key.as_str(), ".quotas").as_str(), &known.quotas);
    report.set(
        joined(key.as_str(), ".has_stored_credentials"),
        truth_text(known.has_stored_credentials),
    );
    report.set(joined(key.as_str(), ".is_unrecorded"), truth_text(known.is_unrecorded));
    report.set(joined(key.as_str(), ".verdict"), one_line(known.verdict.as_str()));
    report.set(joined(key.as_str(), ".verdict.basis"), known.basis.clone());
    report.set(joined(key.as_str(), ".verdict.conclusive"), truth_text(known.conclusive));
}

} // verus!
