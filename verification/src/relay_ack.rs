//! What a relay's answer to a write means.

use vstd::prelude::*;
use vstd::string::StrSliceExecFns;

verus! {

/// Why a write may be tried again.
#[derive(Clone, Copy, Debug, PartialEq, Eq, Structural)]
pub enum PublishQueueTransientCause {
    RelayRateLimited,
    RelayError,
}

/// What a relay's answer means.
#[derive(Clone, Copy, Debug, PartialEq, Eq, Structural)]
pub enum RelayAckClass {
    Acked,
    Transient(PublishQueueTransientCause),
    WaitingAuth,
    Rejected,
}

/// The part of a text before its first colon, where it has one.
pub open spec fn machine_prefix(text: Seq<char>) -> Option<Seq<char>>
    decreases text.len(),
{
    if text.len() == 0 {
        None
    } else {
        match machine_prefix(text.drop_last()) {
            Some(prefix) => Some(prefix),
            None => if text.last() == ':' {
                Some(text.drop_last())
            } else {
                None
            },
        }
    }
}

/// What an answer means: a refusal with no machine-readable prefix, or with an
/// unknown one, is final.
pub open spec fn ack_class(status: bool, message: Seq<char>) -> RelayAckClass {
    if status {
        RelayAckClass::Acked
    } else {
        match machine_prefix(message) {
            None => RelayAckClass::Rejected,
            Some(prefix) => if prefix == "duplicate"@ {
                RelayAckClass::Acked
            } else if prefix == "rate-limited"@ {
                RelayAckClass::Transient(PublishQueueTransientCause::RelayRateLimited)
            } else if prefix == "error"@ {
                RelayAckClass::Transient(PublishQueueTransientCause::RelayError)
            } else if prefix == "auth-required"@ {
                RelayAckClass::WaitingAuth
            } else {
                RelayAckClass::Rejected
            },
        }
    }
}

proof fn lemma_prefix_found(text: Seq<char>, n: int)
    requires
        0 <= n <= text.len(),
        machine_prefix(text.take(n)) is Some,
    ensures
        machine_prefix(text) == machine_prefix(text.take(n)),
    decreases text.len() - n,
{
    if n < text.len() {
        assert(text.take(n + 1).drop_last() =~= text.take(n));
        lemma_prefix_found(text, n + 1);
    } else {
        assert(text.take(n) =~= text);
    }
}

/// The part of a text before its first colon.
fn prefix_of(text: &str) -> (r: Option<String>)
    ensures
        match r {
            Some(prefix) => machine_prefix(text@) == Some(prefix@),
            None => machine_prefix(text@) is None,
        },
{
    let n = text.unicode_len();
    let ghost t = text@;
    let mut i: usize = 0;
    assert(t.take(0) =~= Seq::<char>::empty());
    while i < n
        invariant
            i <= n,
            n == t.len(),
            t == text@,
            machine_prefix(t.take(i as int)) is None,
        decreases n - i,
    {
        proof {
            assert(t.take(i + 1).drop_last() =~= t.take(i as int));
            assert(t.take(i + 1).last() == t[i as int]);
        }
        if text.get_char(i) == ':' {
            proof {
                lemma_prefix_found(t, i + 1);
            }
            let prefix = text.substring_char(0, i);
            assert(prefix@ =~= t.take(i as int));
            return Some(prefix.to_owned());
        }
        i = i + 1;
    }
    assert(t.take(i as int) =~= t);
    None
}

pub fn classify_relay_ack(status: bool, message: &str) -> (r: RelayAckClass)
    ensures
        r == ack_class(status, message@),
{
    if status {
        return RelayAckClass::Acked;
    }
    match prefix_of(message) {
        None => RelayAckClass::Rejected,
        Some(prefix) => {
            if prefix == "duplicate".to_owned() {
                RelayAckClass::Acked
            } else if prefix == "rate-limited".to_owned() {
                RelayAckClass::Transient(PublishQueueTransientCause::RelayRateLimited)
            } else if prefix == "error".to_owned() {
                RelayAckClass::Transient(PublishQueueTransientCause::RelayError)
            } else if prefix == "auth-required".to_owned() {
                RelayAckClass::WaitingAuth
            } else {
                RelayAckClass::Rejected
            }
        },
    }
}

proof fn lemma_prefix_before_first_colon(text: Seq<char>)
    ensures
        machine_prefix(text) is None <==> forall|i: int| 0 <= i < text.len() ==> #[trigger] text[i] != ':',
        machine_prefix(text) matches Some(prefix) ==> prefix.len() < text.len() && prefix == text.take(
            prefix.len() as int,
        ) && text[prefix.len() as int] == ':' && forall|i: int|
            0 <= i < prefix.len() ==> #[trigger] text[i] != ':',
    decreases text.len(),
{
    if text.len() > 0 {
        let rest = text.drop_last();
        lemma_prefix_before_first_colon(rest);
        assert(text.last() == text[text.len() - 1]);
        assert forall|i: int| 0 <= i < rest.len() implies rest[i] == text[i] by {}
        if machine_prefix(rest) is Some {
            let n = machine_prefix(rest)->0.len() as int;
            assert(rest.take(n) =~= text.take(n));
            assert(rest[n] == ':');
        } else {
            assert(text.take(rest.len() as int) =~= rest);
            assert forall|i: int| 0 <= i < rest.len() implies #[trigger] text[i] != ':' by {
                assert(rest[i] != ':');
            }
        }
    }
}

/// `at` is the place of the first colon of a text.
pub open spec fn first_colon(text: Seq<char>, at: int) -> bool {
    0 <= at < text.len() && text[at] == ':' && forall|i: int| 0 <= i < at ==> #[trigger] text[i] != ':'
}

/// What an answer counts as goes by its status and by the text before its first
/// colon alone. It is acknowledged if and only if the relay accepts it or says that it
/// is a duplicate; it is transient, or waits for authentication, for its own prefixes
/// only; every other refusal, and one without a colon, is final.
pub proof fn answer_counts_by_its_prefix(status: bool, text: Seq<char>, at: int)
    requires
        first_colon(text, at),
    ensures
        ({
            let class = ack_class(status, text);
            let prefix = text.take(at);
            &&& class is Acked <==> status || prefix == "duplicate"@
            &&& class == RelayAckClass::Transient(PublishQueueTransientCause::RelayRateLimited) <==> !status
                && prefix == "rate-limited"@
            &&& class == RelayAckClass::Transient(PublishQueueTransientCause::RelayError) <==> !status
                && prefix == "error"@
            &&& class is WaitingAuth <==> !status && prefix == "auth-required"@
            &&& class is Rejected <==> !status && prefix != "duplicate"@ && prefix != "rate-limited"@
                && prefix != "error"@ && prefix != "auth-required"@
        }),
{
    lemma_prefix_before_first_colon(text);
    let prefix = machine_prefix(text)->0;
    assert(machine_prefix(text) is Some) by {
        assert(text[at] == ':');
    }
    let n = prefix.len() as int;
    if n < at {
        assert(text[n] != ':');
    }
    if at < n {
        assert(text[at] != ':');
    }
    lemma_prefixes_differ();
}

proof fn lemma_prefixes_differ()
    ensures
        "duplicate"@ != "rate-limited"@,
        "duplicate"@ != "error"@,
        "duplicate"@ != "auth-required"@,
        "rate-limited"@ != "error"@,
        "rate-limited"@ != "auth-required"@,
        "error"@ != "auth-required"@,
{
    reveal_strlit("duplicate");
    reveal_strlit("rate-limited");
    reveal_strlit("error");
    reveal_strlit("auth-required");
    assert("duplicate"@.len() == 9);
    assert("rate-limited"@.len() == 12);
    assert("error"@.len() == 5);
    assert("auth-required"@.len() == 13);
}

/// An answer without a colon has no prefix: it counts by its status alone, and a
/// refusal is final.
pub proof fn answer_without_a_prefix_counts_by_its_status(status: bool, text: Seq<char>)
    requires
        forall|i: int| 0 <= i < text.len() ==> #[trigger] text[i] != ':',
    ensures
        ack_class(status, text) is Acked <==> status,
        ack_class(status, text) is Rejected <==> !status,
{
    lemma_prefix_before_first_colon(text);
}

/// What a relay says after the first colon never matters: two answers of one status
/// that agree up to it count as the same.
pub proof fn only_the_prefix_matters(status: bool, a: Seq<char>, b: Seq<char>, at: int)
    requires
        first_colon(a, at),
        first_colon(b, at),
        a.take(at) == b.take(at),
    ensures
        ack_class(status, a) == ack_class(status, b),
{
    answer_counts_by_its_prefix(status, a, at);
    answer_counts_by_its_prefix(status, b, at);
}

} // verus!
