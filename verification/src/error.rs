//! What a request can fail with.

use vstd::prelude::*;
use vstd::string::*;

verus! {

/// The error codes a broker answers with that this crate tells apart.
#[derive(Debug, Clone, Copy, PartialEq, Eq, Structural)]
pub enum ErrorCode {
    /// The broker does not host the partition.
    UnknownTopicOrPartition,
    /// The partition is between leaders.
    LeaderNotAvailable,
    /// The broker is not the partition's leader.
    NotLeaderOrFollower,
    /// The batch is larger than the broker accepts.
    MessageTooLarge,
    /// The coordinator is still reading its log.
    CoordinatorLoadInProgress,
    /// There is no coordinator at the moment.
    CoordinatorNotAvailable,
    /// The broker is not the coordinator.
    NotCoordinator,
    /// The topic name is not a valid one.
    InvalidTopicException,
    /// The batch is larger than a segment.
    RecordListTooLarge,
    /// The principal may not use the topic.
    TopicAuthorizationFailed,
    /// A sequence number arrived out of order.
    OutOfOrderSequenceNumber,
    /// The producer's epoch is an old one.
    InvalidProducerEpoch,
    /// The previous transaction is still completing.
    ConcurrentTransactions,
    /// The broker has no state for the producer id.
    UnknownProducerId,
    /// A newer producer has taken over the transactional id.
    ProducerFenced,
    /// Any other non-zero code.
    Other(i16),
}

/// The number a code travels as.
pub open spec fn code_number(code: ErrorCode) -> i16 {
    match code {
        ErrorCode::UnknownTopicOrPartition => 3,
        ErrorCode::LeaderNotAvailable => 5,
        ErrorCode::NotLeaderOrFollower => 6,
        ErrorCode::MessageTooLarge => 10,
        ErrorCode::CoordinatorLoadInProgress => 14,
        ErrorCode::CoordinatorNotAvailable => 15,
        ErrorCode::NotCoordinator => 16,
        ErrorCode::InvalidTopicException => 17,
        ErrorCode::RecordListTooLarge => 18,
        ErrorCode::TopicAuthorizationFailed => 29,
        ErrorCode::OutOfOrderSequenceNumber => 45,
        ErrorCode::InvalidProducerEpoch => 47,
        ErrorCode::ConcurrentTransactions => 51,
        ErrorCode::UnknownProducerId => 59,
        ErrorCode::ProducerFenced => 90,
        ErrorCode::Other(number) => number,
    }
}

/// The code a number stands for; zero means success and stands for none.
pub open spec fn code_for(number: i16) -> Option<ErrorCode> {
    if number == 0 {
        None
    } else if number == 3 {
        Some(ErrorCode::UnknownTopicOrPartition)
    } else if number == 5 {
        Some(ErrorCode::LeaderNotAvailable)
    } else if number == 6 {
        Some(ErrorCode::NotLeaderOrFollower)
    } else if number == 10 {
        Some(ErrorCode::MessageTooLarge)
    } else if number == 14 {
        Some(ErrorCode::CoordinatorLoadInProgress)
    } else if number == 15 {
        Some(ErrorCode::CoordinatorNotAvailable)
    } else if number == 16 {
        Some(ErrorCode::NotCoordinator)
    } else if number == 17 {
        Some(ErrorCode::InvalidTopicException)
    } else if number == 18 {
        Some(ErrorCode::RecordListTooLarge)
    } else if number == 29 {
        Some(ErrorCode::TopicAuthorizationFailed)
    } else if number == 45 {
        Some(ErrorCode::OutOfOrderSequenceNumber)
    } else if number == 47 {
        Some(ErrorCode::InvalidProducerEpoch)
    } else if number == 51 {
        Some(ErrorCode::ConcurrentTransactions)
    } else if number == 59 {
        Some(ErrorCode::UnknownProducerId)
    } else if number == 90 {
        Some(ErrorCode::ProducerFenced)
    } else {
        Some(ErrorCode::Other(number))
    }
}

/// A code read off the wire is written back as the same number.
pub proof fn codes_round_trip(number: i16)
    requires
        number != 0,
    ensures
        code_for(number) matches Some(code) && code_number(code) == number,
{
}

/// Whether the Kafka protocol, as `kafka_protocol::error::ResponseError` has
/// it, marks an error code as one a retry may fix.
pub uninterp spec fn protocol_retriable(number: i16) -> bool;

/// Asks `kafka_protocol::error::ResponseError::is_retriable` about a code.
///
/// The contract names the answer after the code. Zero is no error and is
/// answered with `false`.
#[verifier::external_body]
fn is_retriable(number: i16) -> (retriable: bool)
    ensures
        retriable == protocol_retriable(number),
{
    kafka_protocol::error::ResponseError::try_from_code(number).is_some_and(|e| e.is_retriable())
}

impl ErrorCode {
    /// The code a number stands for; zero means success and stands for none.
    pub fn from_code(number: i16) -> (code: Option<Self>)
        ensures
            code == code_for(number),
    {
        match number {
            0 => None,
            3 => Some(ErrorCode::UnknownTopicOrPartition),
            5 => Some(ErrorCode::LeaderNotAvailable),
            6 => Some(ErrorCode::NotLeaderOrFollower),
            10 => Some(ErrorCode::MessageTooLarge),
            14 => Some(ErrorCode::CoordinatorLoadInProgress),
            15 => Some(ErrorCode::CoordinatorNotAvailable),
            16 => Some(ErrorCode::NotCoordinator),
            17 => Some(ErrorCode::InvalidTopicException),
            18 => Some(ErrorCode::RecordListTooLarge),
            29 => Some(ErrorCode::TopicAuthorizationFailed),
            45 => Some(ErrorCode::OutOfOrderSequenceNumber),
            47 => Some(ErrorCode::InvalidProducerEpoch),
            51 => Some(ErrorCode::ConcurrentTransactions),
            59 => Some(ErrorCode::UnknownProducerId),
            90 => Some(ErrorCode::ProducerFenced),
            _ => Some(ErrorCode::Other(number)),
        }
    }

    /// The number this code travels as.
    pub fn code(self) -> (number: i16)
        ensures
            number == code_number(self),
    {
        match self {
            ErrorCode::UnknownTopicOrPartition => 3,
            ErrorCode::LeaderNotAvailable => 5,
            ErrorCode::NotLeaderOrFollower => 6,
            ErrorCode::MessageTooLarge => 10,
            ErrorCode::CoordinatorLoadInProgress => 14,
            ErrorCode::CoordinatorNotAvailable => 15,
            ErrorCode::NotCoordinator => 16,
            ErrorCode::InvalidTopicException => 17,
            ErrorCode::RecordListTooLarge => 18,
            ErrorCode::TopicAuthorizationFailed => 29,
            ErrorCode::OutOfOrderSequenceNumber => 45,
            ErrorCode::InvalidProducerEpoch => 47,
            ErrorCode::ConcurrentTransactions => 51,
            ErrorCode::UnknownProducerId => 59,
            ErrorCode::ProducerFenced => 90,
            ErrorCode::Other(number) => number,
        }
    }
}

/// What went wrong.
#[derive(Debug)]
pub enum ErrorKind {
    /// A broker answered with an error code.
    Broker {
        /// The code.
        code: ErrorCode,
        /// What it was about.
        context: Option<String>,
    },
    /// The request could not be made sense of on this side.
    InvalidRequest(String),
    /// The connection is gone.
    ConnectionClosed {
        /// Which one.
        peer: String,
    },
    /// No answer came in time.
    Timeout,
    /// This client does not do that.
    Unsupported(String),
}

/// A failure, with what the retry rules ask about it.
#[derive(Debug)]
pub struct Error {
    /// What went wrong.
    pub kind: ErrorKind,
    /// Whether the same request may succeed if it is made again.
    pub retriable: bool,
    /// Whether the failure says that cached metadata is out of date.
    pub needs_metadata_refresh: bool,
}

/// An [`ErrorKind`], as plain sequences.
pub enum ErrorKindView {
    Broker { code: ErrorCode, context: Option<Seq<char>> },
    InvalidRequest(Seq<char>),
    ConnectionClosed { peer: Seq<char> },
    Timeout,
    Unsupported(Seq<char>),
}

/// An [`Error`], as plain sequences.
pub struct ErrorView {
    pub kind: ErrorKindView,
    pub retriable: bool,
    pub needs_metadata_refresh: bool,
}

/// An optional text, as a plain sequence.
pub open spec fn text_of(text: Option<String>) -> Option<Seq<char>> {
    match text {
        Some(text) => Some(text@),
        None => None,
    }
}

impl View for ErrorKind {
    type V = ErrorKindView;

    open spec fn view(&self) -> ErrorKindView {
        match self {
            ErrorKind::Broker { code, context } => ErrorKindView::Broker {
                code: *code,
                context: text_of(*context),
            },
            ErrorKind::InvalidRequest(text) => ErrorKindView::InvalidRequest(text@),
            ErrorKind::ConnectionClosed { peer } => ErrorKindView::ConnectionClosed {
                peer: peer@,
            },
            ErrorKind::Timeout => ErrorKindView::Timeout,
            ErrorKind::Unsupported(text) => ErrorKindView::Unsupported(text@),
        }
    }
}

impl View for Error {
    type V = ErrorView;

    open spec fn view(&self) -> ErrorView {
        ErrorView {
            kind: self.kind@,
            retriable: self.retriable,
            needs_metadata_refresh: self.needs_metadata_refresh,
        }
    }
}

impl ErrorView {
    /// The broker's code, when a broker answered with one.
    pub open spec fn code(self) -> Option<ErrorCode> {
        match self.kind {
            ErrorKindView::Broker { code, .. } => Some(code),
            _ => None,
        }
    }
}

/// Whether a code says that the metadata which routed the request is stale.
pub open spec fn stale_metadata(code: ErrorCode) -> bool {
    code == ErrorCode::UnknownTopicOrPartition || code == ErrorCode::LeaderNotAvailable || code
        == ErrorCode::NotLeaderOrFollower
}

/// The error for a broker's code.
pub open spec fn broker_error(code: ErrorCode, context: Option<Seq<char>>) -> ErrorView {
    ErrorView {
        kind: ErrorKindView::Broker { code, context },
        retriable: protocol_retriable(code_number(code)),
        needs_metadata_refresh: stale_metadata(code),
    }
}

/// The error for a request that cannot be made.
pub open spec fn invalid_request(text: Seq<char>) -> ErrorView {
    ErrorView {
        kind: ErrorKindView::InvalidRequest(text),
        retriable: false,
        needs_metadata_refresh: false,
    }
}

impl Error {
    /// The error for a broker's code.
    pub fn from_code(code: ErrorCode, context: Option<String>) -> (error: Self)
        ensures
            error@ == broker_error(code, text_of(context)),
    {
        let refresh = match code {
            ErrorCode::UnknownTopicOrPartition => true,
            ErrorCode::LeaderNotAvailable => true,
            ErrorCode::NotLeaderOrFollower => true,
            _ => false,
        };
        Error {
            kind: ErrorKind::Broker { code, context },
            retriable: is_retriable(code.code()),
            needs_metadata_refresh: refresh,
        }
    }

    /// The error for a request that cannot be made. Making it again changes
    /// nothing.
    pub fn invalid_request(text: String) -> (error: Self)
        ensures
            error@ == invalid_request(text@),
    {
        Error {
            kind: ErrorKind::InvalidRequest(text),
            retriable: false,
            needs_metadata_refresh: false,
        }
    }

    /// The broker's code, when a broker answered with one.
    pub fn code(&self) -> (code: Option<ErrorCode>)
        ensures
            code == self@.code(),
    {
        match &self.kind {
            ErrorKind::Broker { code, .. } => Some(*code),
            _ => None,
        }
    }

    /// Another error just like this one.
    pub fn duplicate(&self) -> (error: Self)
        ensures
            error@ == self@,
    {
        let kind = match &self.kind {
            ErrorKind::Broker { code, context } => ErrorKind::Broker {
                code: *code,
                context: match context {
                    Some(text) => Some(text.clone()),
                    None => None,
                },
            },
            ErrorKind::InvalidRequest(text) => ErrorKind::InvalidRequest(text.clone()),
            ErrorKind::ConnectionClosed { peer } => ErrorKind::ConnectionClosed {
                peer: peer.clone(),
            },
            ErrorKind::Timeout => ErrorKind::Timeout,
            ErrorKind::Unsupported(text) => ErrorKind::Unsupported(text.clone()),
        };
        Error {
            kind,
            retriable: self.retriable,
            needs_metadata_refresh: self.needs_metadata_refresh,
        }
    }
}

/// The numbers are those of the Kafka protocol, and no two codes share one; a
/// number that is not told apart stands for itself.
pub proof fn codes_are_the_protocols(number: i16)
    ensures
        code_for(number) is None <==> number == 0,
        code_for(number) == Some(ErrorCode::UnknownTopicOrPartition) <==> number == 3,
        code_for(number) == Some(ErrorCode::LeaderNotAvailable) <==> number == 5,
        code_for(number) == Some(ErrorCode::NotLeaderOrFollower) <==> number == 6,
        code_for(number) == Some(ErrorCode::MessageTooLarge) <==> number == 10,
        code_for(number) == Some(ErrorCode::CoordinatorLoadInProgress) <==> number == 14,
        code_for(number) == Some(ErrorCode::CoordinatorNotAvailable) <==> number == 15,
        code_for(number) == Some(ErrorCode::NotCoordinator) <==> number == 16,
        code_for(number) == Some(ErrorCode::InvalidTopicException) <==> number == 17,
        code_for(number) == Some(ErrorCode::RecordListTooLarge) <==> number == 18,
        code_for(number) == Some(ErrorCode::TopicAuthorizationFailed) <==> number == 29,
        code_for(number) == Some(ErrorCode::OutOfOrderSequenceNumber) <==> number == 45,
        code_for(number) == Some(ErrorCode::InvalidProducerEpoch) <==> number == 47,
        code_for(number) == Some(ErrorCode::ConcurrentTransactions) <==> number == 51,
        code_for(number) == Some(ErrorCode::UnknownProducerId) <==> number == 59,
        code_for(number) == Some(ErrorCode::ProducerFenced) <==> number == 90,
        forall|other: i16|
            code_for(other) == code_for(number) ==> other == number,
{
}

/// An error for a broker's code carries that code and what it was about; the
/// protocol says whether a retry may fix it, and cached metadata is stale just
/// where the broker does not host, or does not lead, the partition, or nobody
/// does.
pub proof fn an_error_says_what_the_broker_did(number: i16, context: Option<Seq<char>>)
    requires
        number != 0,
    ensures
        ({
            let error = broker_error(code_for(number)->Some_0, context);
            &&& error.code() == code_for(number)
            &&& error.kind == (ErrorKindView::Broker { code: code_for(number)->Some_0, context })
            &&& error.retriable == protocol_retriable(number)
            &&& error.needs_metadata_refresh <==> (number == 3 || number == 5 || number == 6)
        }),
{
}

/// A request that cannot be made is no broker's answer, and making it again, or
/// looking the cluster up again, changes nothing.
pub proof fn an_invalid_request_stays_invalid(text: Seq<char>)
    ensures
        invalid_request(text).kind == ErrorKindView::InvalidRequest(text),
        invalid_request(text).code() is None,
        !invalid_request(text).retriable,
        !invalid_request(text).needs_metadata_refresh,
{
}

} // verus!
