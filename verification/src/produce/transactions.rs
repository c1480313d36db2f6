//! Transactions: a fenced producer id, a set of enrolled partitions, and an
//! atomic end.
//!
//! Three rules are easy to get wrong. The coordinator must be told of a
//! partition before the first produce to it. A coordinator that is not ready
//! is asked again rather than given up on. And a producer that has been fenced
//! stays fenced: a second producer sharing the transactional id has bumped the
//! epoch, and every later request would fail the same way.
//!
//! Each operation here is split where the network comes in: one function says
//! what to ask, another takes the answer.

use vstd::prelude::*;
use vstd::string::*;

use crate::error::{
    broker_error, code_for, code_number, invalid_request, Error, ErrorCode, ErrorKindView, ErrorView,
};
use crate::keyed::{
    group_by_topic, group_views, grouped, item_views, PartitionKey, PartitionMap,
};
use crate::produce::idempotence::ProducerIdentity;
use crate::text::signed;

verus! {

/// How long the coordinator may leave our transaction open before aborting it
/// itself, in milliseconds. Kafka's own client default.
pub const TRANSACTION_TIMEOUT_MS: i32 = 60_000;

/// How many times to re-ask when the coordinator is not ready.
pub const COORDINATOR_ATTEMPTS: u32 = 12;

/// How long to wait between those attempts, in milliseconds.
pub const COORDINATOR_BACKOFF_MS: u64 = 500;

/// Whether a code means "ask the coordinator again".
pub open spec fn not_ready(code: ErrorCode) -> bool {
    code == ErrorCode::NotCoordinator || code == ErrorCode::CoordinatorNotAvailable || code
        == ErrorCode::CoordinatorLoadInProgress || code == ErrorCode::ConcurrentTransactions
}

/// Whether an error code means "ask the coordinator again", rather than "this
/// failed".
///
/// A coordinator that answers with a concurrent transaction is not
/// unavailable: it is still finalising the previous transaction for this id,
/// which any transactional loop hits routinely.
pub fn coordinator_not_ready(code: ErrorCode) -> (ask_again: bool)
    ensures
        ask_again == not_ready(code),
{
    match code {
        ErrorCode::NotCoordinator => true,
        ErrorCode::CoordinatorNotAvailable => true,
        ErrorCode::CoordinatorLoadInProgress => true,
        ErrorCode::ConcurrentTransactions => true,
        _ => false,
    }
}

/// What to do with a coordinator's answer.
#[derive(Debug)]
pub enum CoordinatorStep {
    /// Use it.
    Done,
    /// Wait, and ask again.
    AskAgain {
        /// Whether to look the coordinator up afresh first.
        invalidate: bool,
    },
    /// Give up.
    Fail(Error),
}

/// A producer's transactional state, as plain values.
pub struct TransactionsView {
    pub transactional_id: Seq<char>,
    pub identity: Option<ProducerIdentity>,
    pub open: bool,
    pub enrolled: Set<PartitionKey>,
    pub fenced: bool,
}

/// A producer's transactional state.
pub struct Transactions {
    transactional_id: String,
    identity: Option<ProducerIdentity>,
    open: bool,
    enrolled: PartitionMap<bool>,
    fenced: bool,
}

impl View for Transactions {
    type V = TransactionsView;

    closed spec fn view(&self) -> TransactionsView {
        TransactionsView {
            transactional_id: self.transactional_id@,
            identity: self.identity,
            open: self.open,
            enrolled: self.enrolled.map().dom(),
            fenced: self.fenced,
        }
    }
}

/// What every operation of a fenced producer is answered with.
pub open spec fn fenced_error() -> ErrorView {
    broker_error(
        ErrorCode::ProducerFenced,
        Some(
            "another producer with this transactional id has taken over; this one is permanently fenced"@,
        ),
    )
}

/// What an operation that needs a producer id is answered with before one has
/// been claimed.
pub open spec fn unclaimed_error() -> ErrorView {
    invalid_request("no transactional producer id has been claimed"@)
}

impl TransactionsView {
    /// Why any operation is refused.
    pub open spec fn refusal(self) -> Option<ErrorView> {
        if self.fenced {
            Some(fenced_error())
        } else {
            None
        }
    }

    /// Why opening a transaction is refused.
    pub open spec fn begin_refusal(self) -> Option<ErrorView> {
        if self.fenced {
            Some(fenced_error())
        } else if self.identity is None {
            Some(
                invalid_request("init_transactions must be called before begin_transaction"@),
            )
        } else if self.open {
            Some(invalid_request("a transaction is already open; commit or abort it first"@))
        } else {
            None
        }
    }

    /// Why enrolling partitions is refused.
    pub open spec fn enrol_refusal(self) -> Option<ErrorView> {
        if self.fenced {
            Some(fenced_error())
        } else if self.identity is None {
            Some(unclaimed_error())
        } else {
            None
        }
    }

    /// Why sending offsets is refused.
    pub open spec fn offsets_refusal(self) -> Option<ErrorView> {
        if self.fenced {
            Some(fenced_error())
        } else if !self.open {
            Some(
                invalid_request("no transaction is open; offsets can only be sent inside one"@),
            )
        } else if self.identity is None {
            Some(unclaimed_error())
        } else {
            None
        }
    }

    /// Why ending a transaction is refused.
    pub open spec fn end_refusal(self) -> Option<ErrorView> {
        if self.fenced {
            Some(fenced_error())
        } else if !self.open {
            Some(invalid_request("no transaction is open"@))
        } else if self.identity is None {
            Some(unclaimed_error())
        } else {
            None
        }
    }

    /// The state once an error has been noted.
    pub open spec fn noted(self, error: ErrorView) -> Self {
        if error.code() == Some(ErrorCode::ProducerFenced) || error.code() == Some(
            ErrorCode::InvalidProducerEpoch,
        ) {
            TransactionsView { fenced: true, open: false, ..self }
        } else {
            self
        }
    }

    /// The state once a producer id has been claimed.
    pub open spec fn initialised(self, identity: ProducerIdentity) -> Self {
        TransactionsView { identity: Some(identity), enrolled: Set::empty(), open: false, ..self }
    }

    /// The state once a transaction has been opened.
    pub open spec fn begun(self) -> Self {
        TransactionsView { open: true, enrolled: Set::empty(), ..self }
    }

    /// The state once partitions have been enrolled.
    pub open spec fn with_enrolled(self, partitions: Seq<PartitionKey>) -> Self {
        TransactionsView { enrolled: self.enrolled.union(partitions.to_set()), ..self }
    }

    /// The state once a transaction has ended: the identity for the next one is
    /// the answer's, when it names one.
    pub open spec fn ended(self, producer_id: i64, producer_epoch: i16) -> Self {
        TransactionsView {
            identity: if producer_id >= 0 && producer_epoch >= 0 {
                Some(ProducerIdentity { producer_id, producer_epoch })
            } else {
                self.identity
            },
            open: false,
            enrolled: Set::empty(),
            ..self
        }
    }
}

/// What a coordinator's answer calls for.
pub open spec fn step_for(code: i16, attempt: u32) -> CoordinatorStepView {
    match code_for(code) {
        None => CoordinatorStepView::Done,
        Some(code) => if not_ready(code) && attempt < COORDINATOR_ATTEMPTS {
            CoordinatorStepView::AskAgain { invalidate: code != ErrorCode::ConcurrentTransactions }
        } else {
            CoordinatorStepView::Fail(broker_error(code, None))
        },
    }
}

/// A [`CoordinatorStep`], as plain values.
pub enum CoordinatorStepView {
    Done,
    AskAgain { invalidate: bool },
    Fail(ErrorView),
}

impl View for CoordinatorStep {
    type V = CoordinatorStepView;

    open spec fn view(&self) -> CoordinatorStepView {
        match self {
            CoordinatorStep::Done => CoordinatorStepView::Done,
            CoordinatorStep::AskAgain { invalidate } => CoordinatorStepView::AskAgain {
                invalidate: *invalidate,
            },
            CoordinatorStep::Fail(error) => CoordinatorStepView::Fail(error@),
        }
    }
}

/// Partitions, as plain values.
pub open spec fn key_views(partitions: Seq<(String, i32)>) -> Seq<PartitionKey> {
    partitions.map_values(|key: (String, i32)| (key.0@, key.1))
}

/// What to ask the coordinator when a producer id is claimed.
#[derive(Debug)]
pub struct InitRequest {
    /// Whose id.
    pub transactional_id: String,
    /// How long it may leave a transaction open.
    pub transaction_timeout_ms: i32,
}

/// What to ask the coordinator when partitions are enrolled.
#[derive(Debug)]
pub struct EnrolRequest {
    /// Whose transaction.
    pub transactional_id: String,
    /// The producer.
    pub identity: ProducerIdentity,
    /// The partitions, by topic.
    pub topics: Vec<(String, Vec<i32>)>,
}

/// The consumer whose offsets a transaction carries.
#[derive(Debug)]
pub struct ConsumerGroupMetadata {
    /// The group.
    pub group_id: String,
    /// The member's generation.
    pub generation: i32,
    /// The member.
    pub member_id: String,
    /// Its static id, when it has one.
    pub instance_id: Option<String>,
}

/// Whom to ask next when offsets are sent.
#[derive(Debug, Clone, Copy, PartialEq, Eq, Structural)]
pub enum OffsetsHop {
    /// The transaction's coordinator, to enrol the group.
    EnrolGroup,
    /// The group's coordinator, to store the offsets.
    StoreOffsets,
}

/// What to ask the two coordinators when offsets are sent: first to enrol the
/// group, at the transaction's; then to store the offsets, at the group's.
/// Offsets that are stored before the group is enrolled lie outside the
/// transaction, so the second question comes up only once the first has been
/// answered well.
#[derive(Debug)]
pub struct OffsetsRequest {
    /// Whose transaction.
    pub transactional_id: String,
    /// The producer.
    pub identity: ProducerIdentity,
    /// The group.
    pub group_id: String,
    /// The member's generation.
    pub generation: i32,
    /// The member.
    pub member_id: String,
    /// Its static id, when it has one.
    pub instance_id: Option<String>,
    /// The offsets, by topic: partition and next offset to read.
    pub topics: Vec<(String, Vec<(i32, i64)>)>,
    /// Whom to ask next.
    pub next: OffsetsHop,
}

/// What to ask the coordinator when a transaction ends.
#[derive(Debug)]
pub struct EndRequest {
    /// Whose transaction.
    pub transactional_id: String,
    /// The producer.
    pub identity: ProducerIdentity,
    /// Whether to commit it rather than abort it.
    pub commit: bool,
}

/// What the coordinator said about one partition.
#[derive(Debug)]
pub struct PartitionResult {
    /// Topic.
    pub topic: String,
    /// Partition.
    pub partition: i32,
    /// The error code, zero for success.
    pub error_code: i16,
}

/// A [`PartitionResult`], as plain values.
pub struct PartitionResultView {
    pub topic: Seq<char>,
    pub partition: i32,
    pub error_code: i16,
}

impl View for PartitionResult {
    type V = PartitionResultView;

    open spec fn view(&self) -> PartitionResultView {
        PartitionResultView {
            topic: self.topic@,
            partition: self.partition,
            error_code: self.error_code,
        }
    }
}

/// Results, as plain values.
pub open spec fn result_views(results: Seq<PartitionResult>) -> Seq<PartitionResultView> {
    results.map_values(|result: PartitionResult| result@)
}

/// The first result that is a failure.
pub open spec fn first_failure(results: Seq<PartitionResultView>) -> Option<PartitionResultView>
    decreases results.len(),
{
    if results.len() == 0 {
        None
    } else if results[0].error_code != 0 {
        Some(results[0])
    } else {
        first_failure(results.skip(1))
    }
}

/// The error a failed partition is reported as.
pub open spec fn partition_error(result: PartitionResultView, complaint: Seq<char>) -> ErrorView {
    broker_error(
        code_for(result.error_code)->Some_0,
        Some(result.topic + "-"@ + crate::text::signed_of(result.partition as int) + complaint),
    )
}

/// What a refused enrolment is reported with.
pub const ENROLMENT_COMPLAINT: &'static str = ": could not be added to the transaction";

/// What refused offsets are reported with.
pub const OFFSETS_COMPLAINT: &'static str = ": offset could not be committed in the transaction; abort it rather than committing a partial one";

/// What a coordinator's per-partition answer calls for.
///
/// Such an answer leaves its own code at zero, so whether to ask again is read
/// off the first partition that failed; and where it is not to be asked again,
/// the failure is that partition's.
pub open spec fn answer_step(
    results: Seq<PartitionResultView>,
    attempt: u32,
    complaint: Seq<char>,
) -> CoordinatorStepView {
    match first_failure(results) {
        None => CoordinatorStepView::Done,
        Some(failure) => match step_for(failure.error_code, attempt) {
            CoordinatorStepView::Fail(_) => CoordinatorStepView::Fail(
                partition_error(failure, complaint),
            ),
            step => step,
        },
    }
}

/// Where the first failure is.
fn find_failure(results: &Vec<PartitionResult>) -> (found: Option<usize>)
    ensures
        match found {
            Some(at) => at < results@.len() && first_failure(result_views(results@)) == Some(
                results@[at as int]@,
            ) && results@[at as int].error_code != 0,
            None => first_failure(result_views(results@)) is None,
        },
{
    let ghost views = result_views(results@);
    let mut at: usize = 0;
    assert(views.skip(0) =~= views);
    while at < results.len()
        invariant
            at <= results.len(),
            views == result_views(results@),
            first_failure(views) == first_failure(views.skip(at as int)),
        decreases results.len() - at,
    {
        assert(views.skip(at as int)[0] == results@[at as int]@);
        if results[at].error_code != 0 {
            return Some(at);
        }
        assert(views.skip(at as int).skip(1) =~= views.skip(at + 1));
        at += 1;
    }
    None
}

/// The error a failed partition is reported as.
fn name_partition(result: &PartitionResult, complaint: &str) -> (error: Error)
    requires
        result.error_code != 0,
    ensures
        error@ == partition_error(result@, complaint@),
{
    let mut text = result.topic.clone();
    text.append("-");
    text.append(signed(result.partition as i64).as_str());
    text.append(complaint);
    match ErrorCode::from_code(result.error_code) {
        Some(code) => Error::from_code(code, Some(text)),
        None => Error::from_code(ErrorCode::Other(result.error_code), Some(text)),
    }
}

/// Whether to look the coordinator up afresh before asking it again: not when
/// the answer came from the right broker, which is merely busy.
fn to_be_found_again(code: ErrorCode) -> (afresh: bool)
    ensures
        afresh == (code != ErrorCode::ConcurrentTransactions),
{
    match code {
        ErrorCode::ConcurrentTransactions => false,
        _ => true,
    }
}

impl Transactions {
    /// Whether the enrolled partitions are kept soundly.
    pub closed spec fn wf(&self) -> bool {
        self.enrolled.wf()
    }

    /// No id claimed, nothing open.
    pub fn new(transactional_id: String) -> (transactions: Self)
        ensures
            transactions.wf(),
            transactions@ == (TransactionsView {
                transactional_id: transactional_id@,
                identity: None,
                open: false,
                enrolled: Set::empty(),
                fenced: false,
            }),
    {
        let transactions = Transactions {
            transactional_id,
            identity: None,
            open: false,
            enrolled: PartitionMap::new(),
            fenced: false,
        };
        assert(transactions@.enrolled =~= Set::empty());
        transactions
    }

    /// The producer id, once it has been claimed.
    pub fn identity(&self) -> (identity: Option<ProducerIdentity>)
        ensures
            identity == self@.identity,
    {
        self.identity
    }

    /// Whether a transaction is open.
    pub fn is_open(&self) -> (open: bool)
        ensures
            open == self@.open,
    {
        self.open
    }

    /// Refuses everything once the producer is fenced.
    pub fn check_live(&self) -> (result: Result<(), Error>)
        ensures
            match result {
                Ok(_) => self@.refusal() is None,
                Err(error) => self@.refusal() == Some(error@),
            },
    {
        if self.fenced {
            return Err(
                Error::from_code(
                    ErrorCode::ProducerFenced,
                    Some(
                        "another producer with this transactional id has taken over; this one is permanently fenced".to_owned(),
                    ),
                ),
            );
        }
        Ok(())
    }

    /// The claimed producer id, or the complaint that there is none.
    fn claimed(&self) -> (result: Result<ProducerIdentity, Error>)
        ensures
            match result {
                Ok(identity) => self@.identity == Some(identity),
                Err(error) => self@.identity is None && error@ == unclaimed_error(),
            },
    {
        match self.identity {
            Some(identity) => Ok(identity),
            None => Err(
                Error::invalid_request("no transactional producer id has been claimed".to_owned()),
            ),
        }
    }

    /// Notes a fencing error so every later call fails the same way rather than
    /// retrying into a wall.
    pub fn note(&mut self, error: &Error)
        requires
            old(self).wf(),
        ensures
            final(self).wf(),
            final(self)@ == old(self)@.noted(error@),
    {
        let fencing = match error.code() {
            Some(ErrorCode::ProducerFenced) => true,
            Some(ErrorCode::InvalidProducerEpoch) => true,
            _ => false,
        };
        if fencing {
            self.fenced = true;
            self.open = false;
        }
    }

    /// What to do with a coordinator's answer to attempt number `attempt`,
    /// counting from one.
    ///
    /// The cached coordinator is dropped only when it is the coordinator that
    /// is wrong: a concurrent transaction comes from the right broker, which is
    /// merely busy.
    pub fn call_coordinator(&mut self, code: i16, attempt: u32) -> (step: CoordinatorStep)
        requires
            old(self).wf(),
        ensures
            final(self).wf(),
            step@ == step_for(code, attempt),
            final(self)@ == match step@ {
                CoordinatorStepView::Fail(error) => old(self)@.noted(error),
                _ => old(self)@,
            },
    {
        match ErrorCode::from_code(code) {
            None => CoordinatorStep::Done,
            Some(code) => {
                if coordinator_not_ready(code) && attempt < COORDINATOR_ATTEMPTS {
                    return CoordinatorStep::AskAgain { invalidate: to_be_found_again(code) };
                }
                let error = Error::from_code(code, None);
                self.note(&error);
                CoordinatorStep::Fail(error)
            },
        }
    }

    /// What to do with a coordinator's per-partition answer to attempt number
    /// `attempt`, counting from one.
    fn partitions_answered(
        &mut self,
        results: &Vec<PartitionResult>,
        attempt: u32,
        complaint: &str,
    ) -> (step: CoordinatorStep)
        requires
            old(self).wf(),
        ensures
            final(self).wf(),
            step@ == answer_step(result_views(results@), attempt, complaint@),
            final(self)@ == match step@ {
                CoordinatorStepView::Fail(error) => old(self)@.noted(error),
                _ => old(self)@,
            },
    {
        let at: usize = match find_failure(results) {
            Some(at) => at,
            None => return CoordinatorStep::Done,
        };
        if let Some(code) = ErrorCode::from_code(results[at].error_code) {
            if coordinator_not_ready(code) && attempt < COORDINATOR_ATTEMPTS {
                return CoordinatorStep::AskAgain { invalidate: to_be_found_again(code) };
            }
        }
        let error = name_partition(&results[at], complaint);
        self.note(&error);
        CoordinatorStep::Fail(error)
    }

    /// What to ask in order to claim the transactional producer id, which
    /// fences any previous holder.
    pub fn init(&self) -> (request: Result<InitRequest, Error>)
        ensures
            match request {
                Ok(request) => self@.refusal() is None && request.transactional_id@
                    == self@.transactional_id && request.transaction_timeout_ms
                    == TRANSACTION_TIMEOUT_MS,
                Err(error) => self@.refusal() == Some(error@),
            },
    {
        self.check_live()?;
        Ok(
            InitRequest {
                transactional_id: self.transactional_id.clone(),
                transaction_timeout_ms: TRANSACTION_TIMEOUT_MS,
            },
        )
    }

    /// Takes the producer id the coordinator issued.
    pub fn initialised(&mut self, producer_id: i64, producer_epoch: i16)
        requires
            old(self).wf(),
        ensures
            final(self).wf(),
            final(self)@ == old(self)@.initialised(
                ProducerIdentity { producer_id, producer_epoch },
            ),
    {
        self.identity = Some(ProducerIdentity { producer_id, producer_epoch });
        self.enrolled.clear();
        self.open = false;
        assert(self@.enrolled =~= Set::empty());
    }

    /// Opens a transaction.
    ///
    /// Local only: the protocol has no "begin" request. The coordinator learns
    /// a transaction exists from the first partition it is told of.
    pub fn begin(&mut self) -> (result: Result<(), Error>)
        requires
            old(self).wf(),
        ensures
            final(self).wf(),
            match result {
                Ok(_) => old(self)@.begin_refusal() is None && final(self)@ == old(self)@.begun(),
                Err(error) => old(self)@.begin_refusal() == Some(error@) && final(self)@ == old(self)@,
            },
    {
        self.check_live()?;
        if self.identity.is_none() {
            return Err(
                Error::invalid_request(
                    "init_transactions must be called before begin_transaction".to_owned(),
                ),
            );
        }
        if self.open {
            return Err(
                Error::invalid_request(
                    "a transaction is already open; commit or abort it first".to_owned(),
                ),
            );
        }
        self.open = true;
        self.enrolled.clear();
        assert(self@.enrolled =~= Set::empty());
        Ok(())
    }

    /// Which of these partitions the coordinator has not been told about yet.
    /// Outside a transaction that is none of them.
    pub fn unenrolled(&self, partitions: &Vec<(String, i32)>) -> (left: Vec<(String, i32)>)
        requires
            self.wf(),
        ensures
            key_views(left@) == if self@.open {
                missing(key_views(partitions@), self@.enrolled)
            } else {
                seq![]
            },
    {
        let mut left: Vec<(String, i32)> = Vec::new();
        assert(key_views(left@) =~= seq![]);
        if !self.open {
            return left;
        }
        let ghost keys = key_views(partitions@);
        let mut i: usize = 0;
        assert(keys.take(0) =~= seq![]);
        while i < partitions.len()
            invariant
                i <= partitions.len(),
                self.wf(),
                keys == key_views(partitions@),
                key_views(left@) == missing(keys.take(i as int), self@.enrolled),
            decreases partitions.len() - i,
        {
            let ghost before = key_views(left@);
            proof {
                assert(keys.take(i + 1).drop_last() =~= keys.take(i as int));
                assert(keys.take(i + 1).last() == keys[i as int]);
            }
            if !self.enrolled.contains(&partitions[i].0, partitions[i].1) {
                left.push((partitions[i].0.clone(), partitions[i].1));
                assert(key_views(left@) =~= before.push(keys[i as int]));
            }
            i += 1;
        }
        assert(keys.take(i as int) =~= keys);
        left
    }

    /// What to ask in order to tell the coordinator which partitions this
    /// transaction touches, which must be done before the first produce to each
    /// of them. Nothing, for no partitions.
    pub fn enrol(&self, partitions: &Vec<(String, i32)>) -> (request: Result<
        Option<EnrolRequest>,
        Error,
    >)
        ensures
            match request {
                Ok(None) => partitions@.len() == 0,
                Ok(Some(request)) => partitions@.len() > 0 && self@.enrol_refusal() is None
                    && request.transactional_id@ == self@.transactional_id && self@.identity == Some(
                    request.identity,
                ) && group_views(request.topics@) == grouped(item_views(partitions@)),
                Err(error) => partitions@.len() > 0 && self@.enrol_refusal() == Some(error@),
            },
    {
        if partitions.len() == 0 {
            return Ok(None);
        }
        self.check_live()?;
        let identity = self.claimed()?;
        Ok(
            Some(
                EnrolRequest {
                    transactional_id: self.transactional_id.clone(),
                    identity,
                    topics: group_by_topic(partitions),
                },
            ),
        )
    }

    /// Takes the coordinator's per-partition answer to an enrolment. One
    /// partition's failure is reported as that partition's, and enrols none.
    pub fn enrolment_answered(
        &mut self,
        partitions: &Vec<(String, i32)>,
        results: &Vec<PartitionResult>,
        attempt: u32,
    ) -> (step: CoordinatorStep)
        requires
            old(self).wf(),
        ensures
            final(self).wf(),
            step@ == answer_step(result_views(results@), attempt, ENROLMENT_COMPLAINT@),
            final(self)@ == match step@ {
                CoordinatorStepView::Done => old(self)@.with_enrolled(key_views(partitions@)),
                CoordinatorStepView::AskAgain { .. } => old(self)@,
                CoordinatorStepView::Fail(error) => old(self)@.noted(error),
            },
    {
        let step = self.partitions_answered(results, attempt, ENROLMENT_COMPLAINT);
        if let CoordinatorStep::Done = step {
            self.enrol_all(partitions);
        }
        step
    }

    /// Remembers partitions as enrolled.
    fn enrol_all(&mut self, partitions: &Vec<(String, i32)>)
        requires
            old(self).wf(),
        ensures
            final(self).wf(),
            final(self)@ == old(self)@.with_enrolled(key_views(partitions@)),
    {
        let ghost before = self@;
        let ghost keys = key_views(partitions@);
        let mut i: usize = 0;
        assert(before.enrolled.union(keys.take(0).to_set()) =~= before.enrolled);
        while i < partitions.len()
            invariant
                i <= partitions.len(),
                self.wf(),
                keys == key_views(partitions@),
                self@ == before.with_enrolled(keys.take(i as int)),
            decreases partitions.len() - i,
        {
            let ghost earlier = self@.enrolled;
            let ghost key = keys[i as int];
            self.enrolled.insert(partitions[i].0.clone(), partitions[i].1, true);
            proof {
                assert(self@.enrolled =~= earlier.insert(key));
                let taken = keys.take(i as int);
                let longer = keys.take(i + 1);
                assert(longer =~= taken.push(key));
                assert forall|k: PartitionKey|
                    longer.to_set().contains(k) <==> (taken.to_set().contains(k) || k == key) by {
                    if taken.contains(k) {
                        let at = choose|at: int| 0 <= at < taken.len() && taken[at] == k;
                        assert(longer[at] == k);
                    }
                    if longer.contains(k) && k != key {
                        let at = choose|at: int| 0 <= at < longer.len() && longer[at] == k;
                        assert(taken[at] == k);
                    }
                    assert(longer[i as int] == key);
                }
                assert(self@.enrolled =~= before.enrolled.union(longer.to_set()));
            }
            i += 1;
        }
        assert(keys.take(i as int) =~= keys);
    }

    /// What to ask in order to put a consumer's offsets inside this
    /// transaction: the transaction's coordinator first.
    ///
    /// The offsets are the position of the next record to read, which is what a
    /// consumer's own commit stores.
    pub fn send_offsets(
        &self,
        group: &ConsumerGroupMetadata,
        offsets: &Vec<(String, (i32, i64))>,
    ) -> (request: Result<OffsetsRequest, Error>)
        ensures
            match request {
                Ok(request) => {
                    &&& self@.offsets_refusal() is None
                    &&& request.transactional_id@ == self@.transactional_id
                    &&& self@.identity == Some(request.identity)
                    &&& request.group_id@ == group.group_id@
                    &&& request.generation == group.generation
                    &&& request.member_id@ == group.member_id@
                    &&& crate::error::text_of(request.instance_id) == crate::error::text_of(
                        group.instance_id,
                    )
                    &&& group_views(request.topics@) == grouped(item_views(offsets@))
                    &&& request.next == OffsetsHop::EnrolGroup
                },
                Err(error) => self@.offsets_refusal() == Some(error@),
            },
    {
        self.check_live()?;
        if !self.open {
            return Err(
                Error::invalid_request(
                    "no transaction is open; offsets can only be sent inside one".to_owned(),
                ),
            );
        }
        let identity = self.claimed()?;
        Ok(
            OffsetsRequest {
                transactional_id: self.transactional_id.clone(),
                identity,
                group_id: group.group_id.clone(),
                generation: group.generation,
                member_id: group.member_id.clone(),
                instance_id: match &group.instance_id {
                    Some(instance) => Some(instance.clone()),
                    None => None,
                },
                topics: group_by_topic(offsets),
                next: OffsetsHop::EnrolGroup,
            },
        )
    }

    /// Takes the transaction coordinator's answer to the group's enrolment.
    /// Only once that went well is the group's coordinator to be asked.
    pub fn group_answered(&mut self, request: &mut OffsetsRequest, code: i16, attempt: u32) -> (step:
        CoordinatorStep)
        requires
            old(self).wf(),
        ensures
            final(self).wf(),
            step@ == step_for(code, attempt),
            final(self)@ == match step@ {
                CoordinatorStepView::Fail(error) => old(self)@.noted(error),
                _ => old(self)@,
            },
            *final(request) == (OffsetsRequest {
                next: if step@ is Done {
                    OffsetsHop::StoreOffsets
                } else {
                    old(request).next
                },
                ..*old(request)
            }),
    {
        let step = self.call_coordinator(code, attempt);
        if let CoordinatorStep::Done = step {
            request.next = OffsetsHop::StoreOffsets;
        }
        step
    }

    /// Takes the group coordinator's per-partition answer to sent offsets.
    ///
    /// The offsets are one atomic unit with the records this transaction wrote,
    /// so a single partition's refusal fails the call, naming the partition.
    pub fn offsets_answered(&mut self, results: &Vec<PartitionResult>, attempt: u32) -> (step:
        CoordinatorStep)
        requires
            old(self).wf(),
        ensures
            final(self).wf(),
            step@ == answer_step(result_views(results@), attempt, OFFSETS_COMPLAINT@),
            final(self)@ == match step@ {
                CoordinatorStepView::Fail(error) => old(self)@.noted(error),
                _ => old(self)@,
            },
    {
        self.partitions_answered(results, attempt, OFFSETS_COMPLAINT)
    }

    /// What to ask in order to commit or abort, atomically for every enrolled
    /// partition.
    pub fn end(&self, commit: bool) -> (request: Result<EndRequest, Error>)
        ensures
            match request {
                Ok(request) => self@.end_refusal() is None && request.transactional_id@
                    == self@.transactional_id && self@.identity == Some(request.identity)
                    && request.commit == commit,
                Err(error) => self@.end_refusal() == Some(error@),
            },
    {
        self.check_live()?;
        if !self.open {
            return Err(Error::invalid_request("no transaction is open".to_owned()));
        }
        let identity = self.claimed()?;
        Ok(EndRequest { transactional_id: self.transactional_id.clone(), identity, commit })
    }

    /// Takes the coordinator's answer to an end.
    ///
    /// A newer coordinator answers with the producer id and epoch to use for
    /// the next transaction, because it bumps the epoch as it finalises this
    /// one. An older one leaves both at -1, which must not clobber a valid
    /// identity.
    pub fn ended(&mut self, producer_id: i64, producer_epoch: i16)
        requires
            old(self).wf(),
        ensures
            final(self).wf(),
            final(self)@ == old(self)@.ended(producer_id, producer_epoch),
    {
        if producer_id >= 0 && producer_epoch >= 0 {
            self.identity = Some(ProducerIdentity { producer_id, producer_epoch });
        }
        self.open = false;
        self.enrolled.clear();
        assert(self@.enrolled =~= Set::empty());
    }
}

/// The partitions that are not enrolled, in order.
pub open spec fn missing(partitions: Seq<PartitionKey>, enrolled: Set<PartitionKey>) -> Seq<
    PartitionKey,
>
    decreases partitions.len(),
{
    if partitions.len() == 0 {
        seq![]
    } else {
        let before = missing(partitions.drop_last(), enrolled);
        if enrolled.contains(partitions.last()) {
            before
        } else {
            before.push(partitions.last())
        }
    }
}

/// Fencing is terminal: every operation of a fenced producer is refused the
/// same way, and nothing that can happen to its state undoes it.
pub proof fn fencing_is_terminal(
    state: TransactionsView,
    error: ErrorView,
    identity: ProducerIdentity,
    partitions: Seq<PartitionKey>,
)
    requires
        state.fenced,
    ensures
        state.refusal() == Some(fenced_error()),
        state.begin_refusal() == Some(fenced_error()),
        state.enrol_refusal() == Some(fenced_error()),
        state.offsets_refusal() == Some(fenced_error()),
        state.end_refusal() == Some(fenced_error()),
        state.noted(error).fenced,
        state.initialised(identity).fenced,
        state.begun().fenced,
        state.with_enrolled(partitions).fenced,
        state.ended(identity.producer_id, identity.producer_epoch).fenced,
        fenced_error().code() == Some(ErrorCode::ProducerFenced),
{
}

/// A fencing error, under either of its codes, fences, and closes whatever was
/// open.
pub proof fn a_bumped_epoch_fences(state: TransactionsView, error: ErrorView)
    requires
        error.code() == Some(ErrorCode::ProducerFenced) || error.code() == Some(
            ErrorCode::InvalidProducerEpoch,
        ),
    ensures
        state.noted(error).fenced,
        !state.noted(error).open,
{
}

/// One refused partition fails the whole answer, by its own name: with no more
/// attempts, or where asking again would not help, the first partition that
/// failed is the one reported, under its own code; and an answer goes through
/// only when no partition failed.
pub proof fn a_refused_partition_is_named(
    results: Seq<PartitionResultView>,
    attempt: u32,
    complaint: Seq<char>,
)
    ensures
        answer_step(results, attempt, complaint) is Done <==> first_failure(results) is None,
        first_failure(results) matches Some(failure) ==> {
            &&& results.contains(failure)
            &&& failure.error_code != 0
            &&& answer_step(results, attempt, complaint) is AskAgain <==> not_ready(
                code_for(failure.error_code)->Some_0,
            ) && attempt < COORDINATOR_ATTEMPTS
            &&& answer_step(results, attempt, complaint) matches CoordinatorStepView::Fail(error)
                ==> error.code() == code_for(failure.error_code) && error == broker_error(
                code_for(failure.error_code)->Some_0,
                Some(
                    failure.topic + "-"@ + crate::text::signed_of(failure.partition as int)
                        + complaint,
                ),
            )
        },
    decreases results.len(),
{
    if results.len() > 0 {
        if results[0].error_code != 0 {
            assert(results.contains(results[0]));
        } else {
            a_refused_partition_is_named(results.skip(1), attempt, complaint);
            if let Some(failure) = first_failure(results) {
                let at = choose|at: int|
                    0 <= at < results.skip(1).len() && results.skip(1)[at] == failure;
                assert(results[at + 1] == failure);
            }
        }
    }
}

/// Enrolled partitions are not asked about again within their transaction, and
/// every partition is, in the next one.
pub proof fn a_partition_is_enrolled_once_per_transaction(
    state: TransactionsView,
    partitions: Seq<PartitionKey>,
)
    ensures
        missing(partitions, state.with_enrolled(partitions).enrolled) == Seq::<
            PartitionKey,
        >::empty(),
        missing(partitions, state.begun().enrolled) == partitions,
{
    lemma_nothing_missing(partitions, state.with_enrolled(partitions).enrolled);
    lemma_everything_missing(partitions);
}

/// Nothing is missing of what is all enrolled.
proof fn lemma_nothing_missing(partitions: Seq<PartitionKey>, enrolled: Set<PartitionKey>)
    requires
        forall|key: PartitionKey| partitions.to_set().contains(key) ==> enrolled.contains(key),
    ensures
        missing(partitions, enrolled) == Seq::<PartitionKey>::empty(),
    decreases partitions.len(),
{
    if partitions.len() > 0 {
        let shorter = partitions.drop_last();
        assert forall|key: PartitionKey| shorter.to_set().contains(key) implies enrolled.contains(
            key,
        ) by {
            let at = choose|at: int| 0 <= at < shorter.len() && shorter[at] == key;
            assert(partitions[at] == key);
            assert(partitions.contains(key));
            assert(partitions.to_set().contains(key));
        }
        lemma_nothing_missing(shorter, enrolled);
        assert(partitions.contains(partitions[partitions.len() - 1]));
        assert(partitions.to_set().contains(partitions.last()));
    }
}

/// Everything is missing where nothing is enrolled.
proof fn lemma_everything_missing(partitions: Seq<PartitionKey>)
    ensures
        missing(partitions, Set::empty()) == partitions,
    decreases partitions.len(),
{
    if partitions.len() > 0 {
        lemma_everything_missing(partitions.drop_last());
        assert(missing(partitions, Set::empty()) =~= partitions);
    } else {
        assert(missing(partitions, Set::empty()) =~= partitions);
    }
}

/// A coordinator is asked again just when it answers that it is loading (14),
/// that there is none (15), that it is not the one (16) or that it is still
/// busy with the last transaction (51), and no more than a dozen times; it is
/// looked up afresh unless it is merely busy. Zero is the one answer that is
/// used, and any other is the failure, under its own number.
pub proof fn only_an_unready_coordinator_is_asked_again(code: i16, attempt: u32)
    ensures
        step_for(code, attempt) is AskAgain <==> (code == 14 || code == 15 || code == 16 || code
            == 51) && attempt < 12,
        step_for(code, attempt) matches CoordinatorStepView::AskAgain { invalidate } ==> (invalidate
            <==> code != 51),
        step_for(code, attempt) is Done <==> code == 0,
        step_for(code, attempt) matches CoordinatorStepView::Fail(error) ==> {
            &&& error.kind matches ErrorKindView::Broker { code: said, context }
            &&& code_number(said) == code
            &&& context is None
        },
{
}

/// The first result whose code is not zero is the first failure.
proof fn lemma_first_failure(results: Seq<PartitionResultView>, k: int)
    requires
        0 <= k < results.len(),
        results[k].error_code != 0,
        forall|i: int| 0 <= i < k ==> (#[trigger] results[i]).error_code == 0,
    ensures
        first_failure(results) == Some(results[k]),
    decreases results.len(),
{
    if k > 0 {
        let rest = results.skip(1);
        assert forall|i: int| 0 <= i < k - 1 implies (#[trigger] rest[i]).error_code == 0 by {
            assert(rest[i] == results[i + 1]);
        }
        assert(rest[k - 1] == results[k]);
        lemma_first_failure(rest, k - 1);
    }
}

/// A per-partition answer goes through when every partition's code is zero.
pub proof fn an_answer_without_failures_goes_through(
    results: Seq<PartitionResultView>,
    attempt: u32,
    complaint: Seq<char>,
)
    requires
        forall|i: int| 0 <= i < results.len() ==> (#[trigger] results[i]).error_code == 0,
    ensures
        answer_step(results, attempt, complaint) is Done,
    decreases results.len(),
{
    if results.len() > 0 {
        let rest = results.skip(1);
        assert forall|i: int| 0 <= i < rest.len() implies (#[trigger] rest[i]).error_code == 0 by {
            assert(rest[i] == results[i + 1]);
        }
        an_answer_without_failures_goes_through(rest, attempt, complaint);
    }
}

/// And does not otherwise: the first partition with another code decides. By the
/// same four numbers it is asked again; or the whole answer fails, under that
/// partition's number and with its topic and partition first in the text.
pub proof fn the_first_failure_decides(
    results: Seq<PartitionResultView>,
    k: int,
    attempt: u32,
    complaint: Seq<char>,
)
    requires
        0 <= k < results.len(),
        results[k].error_code != 0,
        forall|i: int| 0 <= i < k ==> (#[trigger] results[i]).error_code == 0,
    ensures
        ({
            let code = results[k].error_code;
            let step = answer_step(results, attempt, complaint);
            &&& !(step is Done)
            &&& step is AskAgain <==> (code == 14 || code == 15 || code == 16 || code == 51)
                && attempt < 12
            &&& step matches CoordinatorStepView::AskAgain { invalidate } ==> (invalidate <==> code
                != 51)
            &&& step matches CoordinatorStepView::Fail(error) ==> {
                &&& error.kind matches ErrorKindView::Broker { code: said, context }
                &&& code_number(said) == code
                &&& context == Some(
                    results[k].topic + "-"@ + crate::text::signed_of(results[k].partition as int)
                        + complaint,
                )
            }
        }),
{
    lemma_first_failure(results, k);
}

/// Two numbers fence a producer, and no others do: an old epoch (47) and a
/// newer producer (90). Fencing closes what was open and touches nothing else.
pub proof fn two_numbers_fence(state: TransactionsView, code: i16, context: Option<Seq<char>>)
    requires
        code != 0,
    ensures
        ({
            let after = state.noted(broker_error(code_for(code)->Some_0, context));
            &&& after.fenced <==> state.fenced || code == 47 || code == 90
            &&& after.open <==> state.open && code != 47 && code != 90
            &&& after.identity == state.identity
            &&& after.enrolled == state.enrolled
            &&& after.transactional_id == state.transactional_id
        }),
{
}

/// What a producer may do follows from where it stands: claim an id unless it is
/// fenced; open a transaction once it has an id and none is open; enrol once it
/// has an id; send offsets and end a transaction while one is open.
pub proof fn operations_have_their_turn(state: TransactionsView)
    ensures
        state.refusal() is None <==> !state.fenced,
        state.begin_refusal() is None <==> !state.fenced && state.identity is Some && !state.open,
        state.enrol_refusal() is None <==> !state.fenced && state.identity is Some,
        state.offsets_refusal() is None <==> !state.fenced && state.identity is Some && state.open,
        state.end_refusal() is None <==> !state.fenced && state.identity is Some && state.open,
        // What is refused for any other reason than fencing is the caller's own
        // mistake.
        !state.fenced ==> {
            &&& state.begin_refusal() matches Some(error) ==> error.kind is InvalidRequest
            &&& state.enrol_refusal() matches Some(error) ==> error.kind is InvalidRequest
            &&& state.offsets_refusal() matches Some(error) ==> error.kind is InvalidRequest
            &&& state.end_refusal() matches Some(error) ==> error.kind is InvalidRequest
        },
{
}

/// What each operation leaves behind: a claimed id starts afresh, an opened
/// transaction is open with nothing enrolled, an ended one is closed, with the
/// identity that the coordinator named, or the old one where it named none; and
/// none of them changes whose transactions these are.
pub proof fn operations_leave_what_they_say(
    state: TransactionsView,
    identity: ProducerIdentity,
    producer_id: i64,
    producer_epoch: i16,
    partitions: Seq<PartitionKey>,
    key: PartitionKey,
)
    ensures
        ({
            let after = state.initialised(identity);
            &&& after.identity == Some(identity)
            &&& !after.open
            &&& !after.enrolled.contains(key)
            &&& after.transactional_id == state.transactional_id
        }),
        ({
            let after = state.begun();
            &&& after.open
            &&& after.identity == state.identity
            &&& !after.enrolled.contains(key)
            &&& after.transactional_id == state.transactional_id
        }),
        ({
            let after = state.with_enrolled(partitions);
            &&& after.enrolled.contains(key) <==> state.enrolled.contains(key)
                || partitions.contains(key)
            &&& after.open == state.open
            &&& after.identity == state.identity
            &&& after.transactional_id == state.transactional_id
        }),
        ({
            let after = state.ended(producer_id, producer_epoch);
            &&& !after.open
            &&& !after.enrolled.contains(key)
            &&& after.transactional_id == state.transactional_id
            &&& producer_id >= 0 && producer_epoch >= 0 ==> (after.identity matches Some(next)
                && next.producer_id == producer_id && next.producer_epoch == producer_epoch)
            &&& producer_id < 0 || producer_epoch < 0 ==> after.identity == state.identity
        }),
{
}

/// The partitions to enrol are just those of the given ones that are not
/// enrolled, in the order in which they were given.
pub proof fn what_is_missing_is_not_enrolled(
    partitions: Seq<PartitionKey>,
    enrolled: Set<PartitionKey>,
    more: PartitionKey,
    key: PartitionKey,
)
    ensures
        missing(partitions, enrolled).contains(key) <==> partitions.contains(key)
            && !enrolled.contains(key),
        missing(partitions.push(more), enrolled) == if enrolled.contains(more) {
            missing(partitions, enrolled)
        } else {
            missing(partitions, enrolled).push(more)
        },
        missing(partitions, enrolled).len() <= partitions.len(),
    decreases partitions.len(),
{
    assert(partitions.push(more).drop_last() =~= partitions);
    if partitions.len() > 0 {
        let shorter = partitions.drop_last();
        let last = partitions.last();
        what_is_missing_is_not_enrolled(shorter, enrolled, last, key);
        assert(partitions =~= shorter.push(last));
        let before = missing(shorter, enrolled);
        let after = missing(partitions, enrolled);
        lemma_pushed(shorter, last, key);
        lemma_pushed(before, last, key);
    }
}

/// What a longer sequence holds is its last element, or what the shorter one
/// does.
proof fn lemma_pushed(keys: Seq<PartitionKey>, last: PartitionKey, key: PartitionKey)
    ensures
        keys.push(last).contains(key) <==> keys.contains(key) || key == last,
{
    if keys.contains(key) {
        let at = choose|at: int| 0 <= at < keys.len() && keys[at] == key;
        assert(keys.push(last)[at] == key);
    }
    assert(keys.push(last)[keys.len() as int] == last);
    if keys.push(last).contains(key) && key != last {
        let at = choose|at: int| 0 <= at < keys.push(last).len() && keys.push(last)[at] == key;
        assert(keys[at] == key);
    }
}

/// A producer that was fenced is refused everything, as the broker refuses it: code 90,
/// with a reason.
pub proof fn a_fenced_producer_is_refused_everything(state: TransactionsView)
    requires
        state.fenced,
    ensures
        ({
            let says_so = |refusal: Option<ErrorView>|
                refusal matches Some(error) && (
                error.kind matches ErrorKindView::Broker { code, context } && code_for(90) == Some(
                    code,
                ) && context is Some);
            &&& says_so(state.refusal())
            &&& says_so(state.begin_refusal())
            &&& says_so(state.enrol_refusal())
            &&& says_so(state.offsets_refusal())
            &&& says_so(state.end_refusal())
        }),
{
}

} // verus!
