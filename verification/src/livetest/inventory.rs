//! Read-only inventory of a live cluster, continued: its groups, its security
//! settings and its transactions.

use vstd::prelude::*;
use vstd::string::*;

use crate::error::text_of;
use crate::livetest::read::Facts;
use crate::livetest::report::{on_one_line, one_line, present_or_dash, Report};
use crate::livetest::smoke::count_of;
use crate::read::batch::held;
use crate::text::{
    decimal, decimal_of, in_small_letters, joined, letters, small_letters, text_views, truth,
};

verus! {

/// One group in a listing.
#[derive(Debug)]
pub struct GroupListing {
    /// What kind the broker says it is.
    pub group_type: String,
    /// Whether this client can describe it.
    pub describable: bool,
}

/// The name that a kind of group is counted under.
pub open spec fn kind_name(group_type: Seq<char>) -> Seq<char> {
    if group_type.len() == 0 {
        "unreported"@
    } else {
        in_small_letters(group_type)
    }
}

/// The name that a kind of group is counted under.
fn kind_words(group_type: &str) -> (name: String)
    ensures
        name@ == kind_name(group_type@),
{
    if letters(group_type).len() == 0 {
        "unreported".to_owned()
    } else {
        small_letters(group_type)
    }
}

/// How often a name occurs.
pub open spec fn occurrences(names: Seq<Seq<char>>, name: Seq<char>) -> nat {
    count_of(names, |other: Seq<char>| other == name)
}

/// The facts of how often each name occurs.
pub open spec fn occurrence_facts(facts: Facts, prefix: Seq<char>, names: Seq<Seq<char>>) -> Facts
    decreases names.len(),
{
    if names.len() == 0 {
        facts
    } else {
        occurrence_facts(facts, prefix, names.drop_last()).insert(
            prefix + names.last(),
            decimal_of(occurrences(names, names.last())),
        )
    }
}

/// Each name's fact says how often it occurs among all of them.
pub proof fn every_name_is_counted(
    facts: Facts,
    prefix: Seq<char>,
    names: Seq<Seq<char>>,
    name: Seq<char>,
)
    requires
        names.contains(name),
    ensures
        occurrence_facts(facts, prefix, names).contains_key(prefix + name),
        occurrence_facts(facts, prefix, names)[prefix + name] == decimal_of(
            occurrences(names, name),
        ),
    decreases names.len(),
{
    let last = names.last();
    let before = names.drop_last();
    if name != last {
        let i = choose|i: int| 0 <= i < names.len() && names[i] == name;
        assert(before[i] == name);
        every_name_is_counted(facts, prefix, before, name);
        assert(prefix + name != prefix + last) by {
            if prefix + name == prefix + last {
                assert((prefix + name).skip(prefix.len() as int) =~= name);
                assert((prefix + last).skip(prefix.len() as int) =~= last);
            }
        }
    }
}

/// Records how often each name occurs.
fn count_names(report: &mut Report, prefix: &str, names: &Vec<String>)
    requires
        old(report)@.wf(),
    ensures
        final(report)@.wf(),
        final(report)@.notes == old(report)@.notes,
        final(report)@.facts() == occurrence_facts(
            old(report)@.facts(),
            prefix@,
            text_views(names@),
        ),
{
    let ghost before = report@.facts();
    let ghost views = text_views(names@);
    let mut at: usize = 0;
    assert(views.take(0) =~= seq![]);
    while at < names.len()
        invariant
            at <= names.len(),
            views == text_views(names@),
            report@.wf(),
            report@.notes == old(report)@.notes,
            report@.facts() == occurrence_facts(before, prefix@, views.take(at as int)),
        decreases names.len() - at,
    {
        let ghost prior = views.take(at + 1);
        let ghost name = names@[at as int]@;
        assert(prior.drop_last() =~= views.take(at as int));
        assert(prior.last() == name);
        let mut count: usize = 0;
        let mut k: usize = 0;
        assert(prior.take(0) =~= seq![]);
        while k <= at
            invariant
                k <= at + 1,
                at < names.len(),
                count <= k,
                views == text_views(names@),
                prior == views.take(at + 1),
                name == names@[at as int]@,
                count == occurrences(prior.take(k as int), name),
            decreases at + 1 - k,
        {
            assert(prior.take(k + 1).drop_last() =~= prior.take(k as int));
            assert(prior.take(k + 1).last() == names@[k as int]@);
            if names[k] == names[at] {
                count += 1;
            }
            k += 1;
        }
        assert(prior.take(k as int) =~= prior);
        report.set(joined(prefix, names[at].as_str()), decimal(count as u64));
        at += 1;
    }
    assert(views.take(at as int) =~= views);
}

/// What describing one group came to.
#[derive(Debug)]
pub enum GroupKind {
    /// A group of the classic protocol.
    Classic,
    /// A group of the newer consumer protocol.
    Consumer,
    /// A share group.
    Share,
    /// A kind that this client does not know.
    Unrecognized,
    /// It failed.
    Failed {
        /// The group.
        group_id: String,
        /// Why.
        error: String,
    },
}

/// The first group that could not be described, and why. A count without a
/// reason is not something anyone can act on.
pub open spec fn first_failed(groups: Seq<GroupKind>) -> Option<Seq<char>>
    decreases groups.len(),
{
    if groups.len() == 0 {
        None
    } else {
        match first_failed(groups.drop_last()) {
            Some(text) => Some(text),
            None => match groups.last() {
                GroupKind::Failed { group_id, error } => Some(group_id@ + ": "@ + error@),
                _ => None,
            },
        }
    }
}

/// An optional text on one line.
pub open spec fn optional_line(text: Option<Seq<char>>) -> Option<Seq<char>> {
    match text {
        Some(text) => Some(on_one_line(text)),
        None => None,
    }
}

/// The facts of describing groups.
pub open spec fn described_facts(facts: Facts, described: Result<Vec<GroupKind>, String>) -> Facts {
    match described {
        Ok(groups) => facts.insert(
            "groups.described.classic"@,
            decimal_of(count_of(groups@, |group: GroupKind| group is Classic)),
        ).insert(
            "groups.described.consumer"@,
            decimal_of(count_of(groups@, |group: GroupKind| group is Consumer)),
        ).insert(
            "groups.described.share"@,
            decimal_of(count_of(groups@, |group: GroupKind| group is Share)),
        ).insert(
            "groups.described.unrecognized"@,
            decimal_of(count_of(groups@, |group: GroupKind| group is Unrecognized)),
        ).insert(
            "groups.described.failed"@,
            decimal_of(count_of(groups@, |group: GroupKind| group is Failed)),
        ).insert(
            "groups.described.first_failure"@,
            present_or_dash(optional_line(first_failed(groups@))),
        ),
        Err(error) => facts.insert("groups.describe.error"@, on_one_line(error@)),
    }
}

/// The names that the kinds of some groups are counted under.
pub open spec fn kind_names(listings: Seq<GroupListing>) -> Seq<Seq<char>> {
    listings.map_values(|listing: GroupListing| kind_name(listing.group_type@))
}

/// The facts of a listing of groups.
pub open spec fn listing_facts(facts: Facts, listings: Seq<GroupListing>) -> Facts {
    occurrence_facts(
        facts.insert("groups.count"@, decimal_of(listings.len())),
        "groups.type."@,
        kind_names(listings),
    ).insert(
        "groups.describable"@,
        decimal_of(count_of(listings, |listing: GroupListing| listing.describable)),
    ).insert(
        "groups.undescribable"@,
        decimal_of(count_of(listings, |listing: GroupListing| !listing.describable)),
    )
}

/// Records what describing groups came to.
fn describe_groups(report: &mut Report, described: &Result<Vec<GroupKind>, String>)
    requires
        old(report)@.wf(),
    ensures
        final(report)@.wf(),
        final(report)@.notes == old(report)@.notes,
        final(report)@.facts() == described_facts(old(report)@.facts(), *described),
{
    match described {
        Ok(groups) => {
            let mut classic: usize = 0;
            let mut consumer: usize = 0;
            let mut share: usize = 0;
            let mut unrecognized: usize = 0;
            let mut failed: usize = 0;
            let mut first: Option<String> = None;
            let mut at: usize = 0;
            assert(groups@.take(0) =~= seq![]);
            while at < groups.len()
                invariant
                    at <= groups.len(),
                    classic <= at,
                    consumer <= at,
                    share <= at,
                    unrecognized <= at,
                    failed <= at,
                    classic == count_of(
                        groups@.take(at as int),
                        |group: GroupKind| group is Classic,
                    ),
                    consumer == count_of(
                        groups@.take(at as int),
                        |group: GroupKind| group is Consumer,
                    ),
                    share == count_of(groups@.take(at as int), |group: GroupKind| group is Share),
                    unrecognized == count_of(
                        groups@.take(at as int),
                        |group: GroupKind| group is Unrecognized,
                    ),
                    failed == count_of(groups@.take(at as int), |group: GroupKind| group is Failed),
                    text_of(first) == first_failed(groups@.take(at as int)),
                decreases groups.len() - at,
            {
                assert(groups@.take(at + 1).drop_last() =~= groups@.take(at as int));
                assert(groups@.take(at + 1).last() == groups@[at as int]);
                match &groups[at] {
                    GroupKind::Classic => {
                        classic += 1;
                    },
                    GroupKind::Consumer => {
                        consumer += 1;
                    },
                    GroupKind::Share => {
                        share += 1;
                    },
                    GroupKind::Unrecognized => {
                        unrecognized += 1;
                    },
                    GroupKind::Failed { group_id, error } => {
                        failed += 1;
                        if first.is_none() {
                            let mut text = joined(group_id.as_str(), ": ");
                            text.append(error.as_str());
                            first = Some(text);
                        }
                    },
                }
                at += 1;
            }
            assert(groups@.take(at as int) =~= groups@);
            report.set_count("groups.described.classic", classic as u64);
            report.set_count("groups.described.consumer", consumer as u64);
            report.set_count("groups.described.share", share as u64);
            report.set_count("groups.described.unrecognized", unrecognized as u64);
            report.set_count("groups.described.failed", failed as u64);
            let line = match &first {
                Some(text) => Some(one_line(text.as_str())),
                None => None,
            };
            assert(text_of(line) == optional_line(first_failed(groups@)));
            report.set_opt("groups.described.first_failure".to_owned(), line);
        },
        Err(error) => {
            report.set("groups.describe.error".to_owned(), one_line(error.as_str()));
        },
    }
}

/// Records a listing of groups.
fn list_groups(report: &mut Report, listings: &Vec<GroupListing>)
    requires
        old(report)@.wf(),
    ensures
        final(report)@.wf(),
        final(report)@.notes == old(report)@.notes,
        final(report)@.facts() == listing_facts(old(report)@.facts(), listings@),
{
    let mut kinds: Vec<String> = Vec::new();
    let mut describable: usize = 0;
    let mut undescribable: usize = 0;
    let mut at: usize = 0;
    assert(listings@.take(0) =~= seq![]);
    assert(text_views(kinds@) =~= kind_names(listings@).take(0));
    while at < listings.len()
        invariant
            at <= listings.len(),
            describable <= at,
            undescribable <= at,
            text_views(kinds@) == kind_names(listings@).take(at as int),
            describable == count_of(
                listings@.take(at as int),
                |listing: GroupListing| listing.describable,
            ),
            undescribable == count_of(
                listings@.take(at as int),
                |listing: GroupListing| !listing.describable,
            ),
        decreases listings.len() - at,
    {
        let ghost before = kinds@;
        assert(listings@.take(at + 1).drop_last() =~= listings@.take(at as int));
        assert(listings@.take(at + 1).last() == listings@[at as int]);
        let kind = kind_words(listings[at].group_type.as_str());
        let ghost name = kind@;
        kinds.push(kind);
        assert(text_views(kinds@) =~= text_views(before).push(name));
        assert(text_views(kinds@) =~= kind_names(listings@).take(at + 1));
        if listings[at].describable {
            describable += 1;
        } else {
            undescribable += 1;
        }
        at += 1;
    }
    assert(listings@.take(at as int) =~= listings@);
    assert(kind_names(listings@).take(at as int) =~= kind_names(listings@));
    report.set_count("groups.count", listings.len() as u64);
    count_names(report, "groups.type.", &kinds);
    report.set_count("groups.describable", describable as u64);
    report.set_count("groups.undescribable", undescribable as u64);
}

/// Records a cluster's groups: how many there are of which kind, and what
/// describing them came to. A kind that this client cannot describe must come
/// back as unrecognized and not as a failure.
pub fn groups(
    report: &mut Report,
    listings: &Result<Vec<GroupListing>, String>,
    described: &Result<Vec<GroupKind>, String>,
)
    requires
        old(report)@.wf(),
    ensures
        final(report)@.wf(),
        final(report)@.notes == old(report)@.notes,
        final(report)@.facts() == match listings {
            Ok(listings) => described_facts(
                listing_facts(old(report)@.facts(), listings@),
                *described,
            ),
            Err(error) => old(report)@.facts().insert("groups.error"@, on_one_line(error@)),
        },
{
    match listings {
        Ok(listings) => {
            list_groups(report, listings);
            describe_groups(report, described);
        },
        Err(error) => {
            report.set("groups.error".to_owned(), one_line(error.as_str()));
        },
    }
}

/// The facts of something that a cluster may not have: how many there are, or
/// the code that says why not.
pub open spec fn supported_facts(
    facts: Facts,
    what: Seq<char>,
    counted: Seq<char>,
    answer: Result<usize, Option<String>>,
) -> Facts {
    match answer {
        Ok(count) => facts.insert(what + ".supported"@, truth(true)).insert(
            what + "."@ + counted,
            decimal_of(count as nat),
        ),
        Err(code) => facts.insert(what + ".supported"@, truth(false)).insert(
            what + ".error_code"@,
            present_or_dash(text_of(code)),
        ),
    }
}

/// Records something that a cluster may not have. Its absence is a perfectly
/// good answer, and the error is the fact worth recording.
fn supported(report: &mut Report, what: &str, counted: &str, answer: &Result<usize, Option<String>>)
    requires
        old(report)@.wf(),
    ensures
        final(report)@.wf(),
        final(report)@.notes == old(report)@.notes,
        final(report)@.facts() == supported_facts(
            old(report)@.facts(),
            what@,
            counted@,
            *answer,
        ),
{
    match answer {
        Ok(count) => {
            report.set_flag(joined(what, ".supported").as_str(), true);
            let mut key = joined(what, ".");
            key.append(counted);
            report.set(key, decimal(*count as u64));
        },
        Err(code) => {
            report.set_flag(joined(what, ".supported").as_str(), false);
            let code = match code {
                Some(code) => Some(code.clone()),
                None => None,
            };
            report.set_opt(joined(what, ".error_code"), code);
        },
    }
}

/// How many credentials some users have together. A user that could not be
/// described counts for none.
pub open spec fn total_credentials(users: Seq<Option<usize>>) -> nat
    decreases users.len(),
{
    if users.len() == 0 {
        0
    } else {
        total_credentials(users.drop_last()) + match users.last() {
            Some(count) => count as nat,
            None => 0,
        }
    }
}

/// The facts of the users that have passwords.
pub open spec fn scram_facts(facts: Facts, users: Result<Vec<Option<usize>>, Option<String>>) -> Facts {
    match users {
        Ok(users) => facts.insert("scram.supported"@, truth(true)).insert(
            "scram.users"@,
            decimal_of(count_of(users@, |user: Option<usize>| user is Some)),
        ).insert("scram.credentials"@, decimal_of(held(total_credentials(users@)) as nat)),
        Err(code) => facts.insert("scram.supported"@, truth(false)).insert(
            "scram.error_code"@,
            present_or_dash(text_of(code)),
        ),
    }
}

/// Records the users that have passwords.
fn describe_scram(report: &mut Report, users: &Result<Vec<Option<usize>>, Option<String>>)
    requires
        old(report)@.wf(),
    ensures
        final(report)@.wf(),
        final(report)@.notes == old(report)@.notes,
        final(report)@.facts() == scram_facts(old(report)@.facts(), *users),
{
    match users {
        Ok(users) => {
            let mut known: usize = 0;
            let mut credentials: usize = 0;
            let mut at: usize = 0;
            assert(users@.take(0) =~= seq![]);
            while at < users.len()
                invariant
                    at <= users.len(),
                    known <= at,
                    known == count_of(users@.take(at as int), |user: Option<usize>| user is Some),
                    credentials == held(total_credentials(users@.take(at as int))),
                decreases users.len() - at,
            {
                assert(users@.take(at + 1).drop_last() =~= users@.take(at as int));
                assert(users@.take(at + 1).last() == users@[at as int]);
                if let Some(count) = users[at] {
                    known += 1;
                    credentials = credentials.saturating_add(count);
                }
                at += 1;
            }
            assert(users@.take(at as int) =~= users@);
            report.set_flag("scram.supported", true);
            report.set_count("scram.users", known as u64);
            report.set_count("scram.credentials", credentials as u64);
        },
        Err(code) => {
            report.set_flag("scram.supported", false);
            let code = match code {
                Some(code) => Some(code.clone()),
                None => None,
            };
            report.set_opt("scram.error_code".to_owned(), code);
        },
    }
}

/// Records what a cluster has of access control, passwords, quotas and ongoing
/// reassignments.
pub fn security(
    report: &mut Report,
    acls: &Result<usize, Option<String>>,
    scram: &Result<Vec<Option<usize>>, Option<String>>,
    quotas: &Result<usize, Option<String>>,
    reassignments: &Result<usize, Option<String>>,
)
    requires
        old(report)@.wf(),
    ensures
        final(report)@.wf(),
        final(report)@.notes == old(report)@.notes,
        final(report)@.facts() == supported_facts(
            supported_facts(
                scram_facts(
                    supported_facts(old(report)@.facts(), "acls"@, "count"@, *acls),
                    *scram,
                ),
                "quotas"@,
                "entries"@,
                *quotas,
            ),
            "reassignments"@,
            "ongoing"@,
            *reassignments,
        ),
{
    supported(report, "acls", "count", acls);
    describe_scram(report, scram);
    supported(report, "quotas", "entries", quotas);
    supported(report, "reassignments", "ongoing", reassignments);
}

/// Records a cluster's transactions, by the state that each is in.
pub fn transactions(report: &mut Report, states: &Result<Vec<String>, Option<String>>)
    requires
        old(report)@.wf(),
    ensures
        final(report)@.wf(),
        final(report)@.notes == old(report)@.notes,
        final(report)@.facts() == match states {
            Ok(states) => occurrence_facts(
                old(report)@.facts().insert("transactions.supported"@, truth(true)).insert(
                    "transactions.count"@,
                    decimal_of(states@.len()),
                ),
                "transactions.state."@,
                text_views(states@),
            ),
            Err(code) => old(report)@.facts().insert("transactions.supported"@, truth(false)).insert(
                "transactions.error_code"@,
                present_or_dash(text_of(*code)),
            ),
        },
{
    match states {
        Ok(states) => {
            report.set_flag("transactions.supported", true);
            report.set_count("transactions.count", states.len() as u64);
            count_names(report, "transactions.state.", states);
        },
        Err(code) => {
            report.set_flag("transactions.supported", false);
            let code = match code {
                Some(code) => Some(code.clone()),
                None => None,
            };
            report.set_opt("transactions.error_code".to_owned(), code);
        },
    }
}

} // verus!
