//! Counting what goes over the broker connections.

use vstd::prelude::*;
use vstd::string::*;

use crate::read::scan_state::capped;

verus! {

/// What one broker connection has carried.
#[derive(Debug, Clone, Copy, PartialEq, Eq, Structural)]
pub struct ConnectionStats {
    /// Bytes sent.
    pub bytes_sent: u64,
    /// Bytes received.
    pub bytes_received: u64,
    /// Requests sent.
    pub requests_sent: u64,
    /// Responses received.
    pub responses_received: u64,
}

/// Traffic summed across a fixed set of broker connections, and how many of
/// them the sum covers.
///
/// Batches are grouped by leader, so the requests of one run are spread over
/// several connections by design.
#[derive(Debug, Clone, Copy, PartialEq, Eq, Structural)]
pub struct Traffic {
    /// Bytes sent.
    pub bytes_sent: u64,
    /// Bytes received.
    pub bytes_received: u64,
    /// Requests sent.
    pub requests_sent: u64,
    /// Responses received.
    pub responses_received: u64,
    /// Connections that were asked.
    pub sampled: usize,
}

/// A number summed over the connections that could be had.
pub open spec fn summed(
    connections: Seq<Option<ConnectionStats>>,
    number: spec_fn(ConnectionStats) -> u64,
) -> nat
    decreases connections.len(),
{
    if connections.len() == 0 {
        0
    } else {
        summed(connections.drop_last(), number) + match connections.last() {
            Some(stats) => number(stats) as nat,
            None => 0,
        }
    }
}

/// How many connections could be had.
pub open spec fn sampled(connections: Seq<Option<ConnectionStats>>) -> nat
    decreases connections.len(),
{
    if connections.len() == 0 {
        0
    } else {
        sampled(connections.drop_last()) + if connections.last() is Some {
            1nat
        } else {
            0nat
        }
    }
}

/// Sums what some connections have carried. A connection that could not be had
/// is left out of the sum and out of the count, so that two sums over different
/// sets can be told apart. A sum stops at its type's maximum.
pub fn traffic(connections: &Vec<Option<ConnectionStats>>) -> (total: Traffic)
    ensures
        total.bytes_sent == capped(summed(connections@, |stats: ConnectionStats| stats.bytes_sent)),
        total.bytes_received == capped(
            summed(connections@, |stats: ConnectionStats| stats.bytes_received),
        ),
        total.requests_sent == capped(
            summed(connections@, |stats: ConnectionStats| stats.requests_sent),
        ),
        total.responses_received == capped(
            summed(connections@, |stats: ConnectionStats| stats.responses_received),
        ),
        total.sampled == sampled(connections@),
{
    let mut total = Traffic {
        bytes_sent: 0,
        bytes_received: 0,
        requests_sent: 0,
        responses_received: 0,
        sampled: 0,
    };
    let mut at: usize = 0;
    while at < connections.len()
        invariant
            at <= connections.len(),
            total.bytes_sent == capped(
                summed(connections@.take(at as int), |stats: ConnectionStats| stats.bytes_sent),
            ),
            total.bytes_received == capped(
                summed(connections@.take(at as int), |stats: ConnectionStats| stats.bytes_received),
            ),
            total.requests_sent == capped(
                summed(connections@.take(at as int), |stats: ConnectionStats| stats.requests_sent),
            ),
            total.responses_received == capped(
                summed(
                    connections@.take(at as int),
                    |stats: ConnectionStats| stats.responses_received,
                ),
            ),
            total.sampled == sampled(connections@.take(at as int)),
            total.sampled <= at,
        decreases connections.len() - at,
    {
        assert(connections@.take(at + 1).drop_last() =~= connections@.take(at as int));
        assert(connections@.take(at + 1).last() == connections@[at as int]);
        match connections[at] {
            Some(stats) => {
                total.bytes_sent = total.bytes_sent.saturating_add(stats.bytes_sent);
                total.bytes_received = total.bytes_received.saturating_add(stats.bytes_received);
                total.requests_sent = total.requests_sent.saturating_add(stats.requests_sent);
                total.responses_received =
                    total.responses_received.saturating_add(stats.responses_received);
                total.sampled = total.sampled + 1;
            },
            None => {},
        }
        at += 1;
    }
    assert(connections@.take(at as int) =~= connections@);
    total
}

/// How often a cluster is asked for its brokers.
pub const BROKER_ATTEMPTS: u32 = 10;

/// What a list of brokers leads to.
#[derive(Debug)]
pub enum BrokerIds {
    /// These are the brokers.
    Known(Vec<i32>),
    /// There are none yet: they are to be asked for again after a while.
    Again,
    /// It is given up.
    Failed(String),
}

/// Decides what a list of brokers leads to, after so many earlier ones that
/// were empty.
///
/// A refresh that races with an invalidation can hand back no brokers at all,
/// and a measurement over none would cover nothing.
pub fn broker_ids(earlier: u32, ids: Vec<i32>) -> (brokers: BrokerIds)
    ensures
        if ids@.len() > 0 {
            brokers == BrokerIds::Known(ids)
        } else if earlier + 1 < BROKER_ATTEMPTS {
            brokers is Again
        } else {
            brokers matches BrokerIds::Failed(text) && text@
                == "the cluster reported no brokers after ten refreshes"@
        },
{
    if ids.len() > 0 {
        return BrokerIds::Known(ids);
    }
    if earlier < BROKER_ATTEMPTS - 1 {
        return BrokerIds::Again;
    }
    BrokerIds::Failed("the cluster reported no brokers after ten refreshes".to_owned())
}

/// Where two sums cover the same connections and none of these counts down, the
/// second is at least the first.
pub proof fn traffic_only_grows(
    before: Seq<Option<ConnectionStats>>,
    after: Seq<Option<ConnectionStats>>,
    number: spec_fn(ConnectionStats) -> u64,
)
    requires
        before.len() == after.len(),
        forall|i: int|
            0 <= i < before.len() ==> match (#[trigger] before[i], after[i]) {
                (Some(was), Some(is)) => number(was) <= number(is),
                (None, None) => true,
                _ => false,
            },
    ensures
        sampled(before) == sampled(after),
        summed(before, number) <= summed(after, number),
        capped(summed(before, number)) <= capped(summed(after, number)),
    decreases before.len(),
{
    if before.len() > 0 {
        let last = before.len() - 1;
        assert(before[last] == before.last() && after[last] == after.last());
        assert forall|i: int| 0 <= i < last implies match (
            #[trigger] before.drop_last()[i],
            after.drop_last()[i],
        ) {
            (Some(was), Some(is)) => number(was) <= number(is),
            (None, None) => true,
            _ => false,
        } by {
            assert(before.drop_last()[i] == before[i]);
        }
        traffic_only_grows(before.drop_last(), after.drop_last(), number);
    }
}

} // verus!
