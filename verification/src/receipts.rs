//! What an application is told of its writes.

use vstd::arithmetic::power::{lemma_pow1, lemma_pow_adds, pow};
use vstd::prelude::*;

use crate::ids::{EventId, PublicKey, ReceiptId, Relay};
use crate::sorted::SortedMap;
use crate::text::{
    decimal, decimal_text, hex, hex_digits_give_the_number_back, hex_text, join_text, read_digits,
};

verus! {

/// How a write ended on one relay, or stands there.
#[derive(Clone, Copy, Debug, PartialEq, Eq, Structural)]
pub enum RelayState {
    Waiting,
    Sent,
    Published,
    Rejected,
    GaveUp,
}

/// How a write ended as a whole.
#[derive(Clone, Copy, Debug, PartialEq, Eq, Structural)]
pub enum WriteOutcome {
    Settled,
    Cancelled,
    Failed,
}

/// One fact about a write.
#[derive(Clone, Copy, Debug, PartialEq, Eq, Structural)]
pub enum WriteFact {
    Accepted,
    Signed { event_id: EventId },
    Relay { relay: Relay, event_id: EventId, state: RelayState },
    Outcome(WriteOutcome),
}

/// How far one relay's attempts have been replayed.
#[derive(Clone, Copy, Debug, PartialEq, Eq, Structural)]
pub enum ReceiptAttemptReplayPhase {
    Handoff,
    Transient,
    Outcome,
}

#[derive(Clone, Copy, Debug, PartialEq, Eq, Structural)]
pub struct ReceiptAttemptReplayKey {
    pub ordinal: u64,
    pub phase: ReceiptAttemptReplayPhase,
}

/// How far the facts of one receipt have been replayed.
#[derive(Debug)]
pub struct ReceiptReplayCursor {
    receipt_id: ReceiptId,
    receipt_status: Option<WriteFact>,
    awaiting_capability: bool,
    destinations: bool,
    attempts: SortedMap<Relay, ReceiptAttemptReplayKey>,
    lane_revisions: SortedMap<Relay, u64>,
}

/// What a cursor says.
pub struct CursorView {
    pub receipt_id: ReceiptId,
    pub receipt_status: Option<WriteFact>,
    pub awaiting_capability: bool,
    pub destinations: bool,
    pub attempts: Map<Relay, ReceiptAttemptReplayKey>,
    pub lane_revisions: Map<Relay, u64>,
}

impl View for ReceiptReplayCursor {
    type V = CursorView;

    closed spec fn view(&self) -> CursorView {
        CursorView {
            receipt_id: self.receipt_id,
            receipt_status: self.receipt_status,
            awaiting_capability: self.awaiting_capability,
            destinations: self.destinations,
            attempts: self.attempts@,
            lane_revisions: self.lane_revisions@,
        }
    }
}

impl ReceiptReplayCursor {
    /// The cursor before the first fact of a receipt.
    pub fn new(receipt_id: ReceiptId) -> (r: Self)
        ensures
            r@ == (CursorView {
                receipt_id,
                receipt_status: None,
                awaiting_capability: false,
                destinations: false,
                attempts: Map::empty(),
                lane_revisions: Map::empty(),
            }),
    {
        ReceiptReplayCursor {
            receipt_id,
            receipt_status: None,
            awaiting_capability: false,
            destinations: false,
            attempts: SortedMap::new(),
            lane_revisions: SortedMap::new(),
        }
    }

    pub fn receipt_id(&self) -> (r: ReceiptId)
        ensures
            r == self@.receipt_id,
    {
        self.receipt_id
    }
}

/// Why a write was not taken on.
#[derive(Clone, Debug, PartialEq, Eq)]
pub enum PublishError {
    EngineShuttingDown,
    PersistenceFailed { reason: String },
    NoCurrentAccount,
    SignatureInvalid { reason: String },
    IdentityContradictsSignedAuthor { identity: PublicKey, author: PublicKey },
    ReservedKind { kind: u16 },
    EmptyExplicitRoute,
    AlreadyExpired,
    ReplaceableOperationRefused { reason: String },
}

/// The text of a public key: 64 hexadecimal digits.
pub open spec fn key_text(key: PublicKey) -> Seq<char> {
    hex(key.hi as nat, 32) + hex(key.lo as nat, 32)
}

fn key_digits(key: &PublicKey) -> (r: String)
    ensures
        r@ == key_text(*key),
{
    let low = hex_text(key.lo, 32);
    join_text(hex_text(key.hi, 32).as_str(), low.as_str())
}

impl PublishError {
    /// What the error says.
    pub open spec fn text(&self) -> Seq<char> {
        match self {
            PublishError::EngineShuttingDown => "engine is shutting down"@,
            PublishError::PersistenceFailed { reason } => "the write could not be recorded: "@ + reason@,
            PublishError::NoCurrentAccount =>
                "publishing with the current-account identity requires a current account"@,
            PublishError::SignatureInvalid { reason } => "the supplied signature does not verify: "@
                + reason@,
            PublishError::IdentityContradictsSignedAuthor { identity, author } => "explicit identity "@
                + key_text(*identity) + (" does not match the signed event author "@ + key_text(*author)),
            PublishError::ReservedKind { kind } => "kind:"@ + decimal(*kind as nat)
                + " is reserved for reducer-owned relay authentication"@,
            PublishError::EmptyExplicitRoute =>
                "an explicit route naming no relays is refused: it never degrades into Auto"@,
            PublishError::AlreadyExpired => "the event was already expired at acceptance"@,
            PublishError::ReplaceableOperationRefused { reason } =>
                "the replaceable operation was refused: "@ + reason@,
        }
    }

    /// The error in words.
    pub fn message(&self) -> (r: String)
        ensures
            r@ == self.text(),
    {
        match self {
            PublishError::EngineShuttingDown => "engine is shutting down".to_owned(),
            PublishError::PersistenceFailed { reason } => join_text(
                "the write could not be recorded: ",
                reason.as_str(),
            ),
            PublishError::NoCurrentAccount =>
                "publishing with the current-account identity requires a current account".to_owned(),
            PublishError::SignatureInvalid { reason } => join_text(
                "the supplied signature does not verify: ",
                reason.as_str(),
            ),
            PublishError::IdentityContradictsSignedAuthor { identity, author } => {
                let first = key_digits(identity);
                let second = key_digits(author);
                let head = join_text("explicit identity ", first.as_str());
                let tail = join_text(" does not match the signed event author ", second.as_str());
                join_text(head.as_str(), tail.as_str())
            },
            PublishError::ReservedKind { kind } => {
                let number = decimal_text(*kind as u64);
                let head = join_text("kind:", number.as_str());
                join_text(head.as_str(), " is reserved for reducer-owned relay authentication")
            },
            PublishError::EmptyExplicitRoute =>
                "an explicit route naming no relays is refused: it never degrades into Auto".to_owned(),
            PublishError::AlreadyExpired => "the event was already expired at acceptance".to_owned(),
            PublishError::ReplaceableOperationRefused { reason } => join_text(
                "the replaceable operation was refused: ",
                reason.as_str(),
            ),
        }
    }
}

/// What came of asking for a receipt again.
#[derive(Clone, Copy, Debug, PartialEq, Eq, Structural)]
pub enum ReattachOutcome {
    Attached,
    NotFound,
    RetainedButUnreadable,
}

impl ReattachOutcome {
    pub fn is_attached(self) -> (b: bool)
        ensures
            b == (self == ReattachOutcome::Attached),
    {
        self == ReattachOutcome::Attached
    }
}

/// A page of the facts of one receipt.
#[derive(Debug)]
pub struct ReceiptReplayPage {
    pub outcome: ReattachOutcome,
    pub facts: Vec<WriteFact>,
    pub next_cursor: Option<ReceiptReplayCursor>,
    pub end_cursor: Option<ReceiptReplayCursor>,
    pub frozen_id: Option<EventId>,
    pub isolated_fact_cursors: Vec<ReceiptReplayCursor>,
}

impl ReceiptReplayPage {
    pub fn is_attached(&self) -> (b: bool)
        ensures
            b == (self.outcome == ReattachOutcome::Attached),
    {
        self.outcome.is_attached()
    }

    /// The page of a receipt that is not attached: it holds nothing.
    pub fn unavailable(outcome: ReattachOutcome) -> (r: Self)
        requires
            outcome != ReattachOutcome::Attached,
        ensures
            r.outcome == outcome,
            r.facts@ == Seq::<WriteFact>::empty(),
            r.next_cursor is None,
            r.end_cursor is None,
            r.frozen_id is None,
            r.isolated_fact_cursors@ == Seq::<ReceiptReplayCursor>::empty(),
    {
        ReceiptReplayPage {
            outcome,
            facts: Vec::new(),
            next_cursor: None,
            end_cursor: None,
            frozen_id: None,
            isolated_fact_cursors: Vec::new(),
        }
    }
}

/// The text of a key reads back as the key: two halves of equal length, the upper first.
pub proof fn key_reads_back_from_its_text(key: PublicKey)
    ensures
        key_text(key).len() == 64,
        read_digits(key_text(key).take(32), 16) == key.hi,
        read_digits(key_text(key).skip(32), 16) == key.lo,
{
    lemma_hex_len(key.hi as nat, 32);
    lemma_hex_len(key.lo as nat, 32);
    lemma_pow_parts();
    hex_digits_give_the_number_back(key.hi as nat, 32);
    hex_digits_give_the_number_back(key.lo as nat, 32);
    assert(key_text(key).take(32) =~= hex(key.hi as nat, 32));
    assert(key_text(key).skip(32) =~= hex(key.lo as nat, 32));
}

proof fn lemma_pow_parts()
    ensures
        pow(16, 32) == 0x1_0000_0000_0000_0000_0000_0000_0000_0000,
{
    lemma_pow1(16);
    lemma_pow_adds(16, 1, 1);
    assert(pow(16, 2) == 256) by (nonlinear_arith)
        requires
            pow(16, 2) == pow(16, 1) * pow(16, 1),
            pow(16, 1) == 16,
    ;
    lemma_pow_adds(16, 2, 2);
    assert(pow(16, 4) == 65536) by (nonlinear_arith)
        requires
            pow(16, 4) == pow(16, 2) * pow(16, 2),
            pow(16, 2) == 256,
    ;
    lemma_pow_adds(16, 4, 4);
    assert(pow(16, 8) == 4294967296) by (nonlinear_arith)
        requires
            pow(16, 8) == pow(16, 4) * pow(16, 4),
            pow(16, 4) == 65536,
    ;
    lemma_pow_adds(16, 8, 8);
    assert(pow(16, 16) == 18446744073709551616) by (nonlinear_arith)
        requires
            pow(16, 16) == pow(16, 8) * pow(16, 8),
            pow(16, 8) == 4294967296,
    ;
    lemma_pow_adds(16, 16, 16);
    assert(pow(16, 32) == 0x1_0000_0000_0000_0000_0000_0000_0000_0000) by (nonlinear_arith)
        requires
            pow(16, 32) == pow(16, 16) * pow(16, 16),
            pow(16, 16) == 18446744073709551616,
    ;
}

proof fn lemma_hex_len(n: nat, width: nat)
    ensures
        hex(n, width).len() == width,
    decreases width,
{
    if width > 0 {
        lemma_hex_len(n / 16, (width - 1) as nat);
    }
}

/// An error that has a reason gives it, word for word, at its end; one that is about
/// keys names both, the identity before the author; one about a kind names its number.
pub proof fn error_says_what_it_is_about(e: PublishError)
    ensures
        ({
            let t = e.text();
            &&& e matches PublishError::PersistenceFailed { reason } ==> t.skip(t.len() - reason@.len())
                == reason@
            &&& e matches PublishError::SignatureInvalid { reason } ==> t.skip(t.len() - reason@.len())
                == reason@
            &&& e matches PublishError::ReplaceableOperationRefused { reason } ==> t.skip(
                t.len() - reason@.len(),
            ) == reason@
            &&& e matches PublishError::IdentityContradictsSignedAuthor { identity, author } ==> t.skip(
                t.len() - 64,
            ) == key_text(author) && t.skip("explicit identity "@.len() as int).take(64) == key_text(identity)
            &&& e matches PublishError::ReservedKind { kind } ==> t.skip("kind:"@.len() as int).take(
                decimal(kind as nat).len() as int,
            ) == decimal(kind as nat)
        }),
{
    let t = e.text();
    match e {
        PublishError::PersistenceFailed { reason } => {
            assert(t.skip(t.len() - reason@.len()) =~= reason@);
        },
        PublishError::SignatureInvalid { reason } => {
            assert(t.skip(t.len() - reason@.len()) =~= reason@);
        },
        PublishError::ReplaceableOperationRefused { reason } => {
            assert(t.skip(t.len() - reason@.len()) =~= reason@);
        },
        PublishError::IdentityContradictsSignedAuthor { identity, author } => {
            key_reads_back_from_its_text(identity);
            key_reads_back_from_its_text(author);
            assert(t.skip(t.len() - 64) =~= key_text(author));
            assert(t.skip("explicit identity "@.len() as int).take(64) =~= key_text(identity));
        },
        PublishError::ReservedKind { kind } => {
            assert(t.skip("kind:"@.len() as int).take(decimal(kind as nat).len() as int) =~= decimal(
                kind as nat,
            ));
        },
        _ => {},
    }
}

} // verus!
