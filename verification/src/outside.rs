//! The calls into outside crates, and what is taken on trust of each.

use nostr::{EventBuilder, RelayUrl, Tag, Timestamp};
use vstd::prelude::*;

use crate::ids::{EventId, PublicKey};

verus! {

/// An event that awaits its signature.
#[derive(Debug)]
pub struct UnsignedEvent {
    pub id: EventId,
    pub pubkey: PublicKey,
    pub created_at: u64,
    pub kind: u16,
    pub tags: Vec<Vec<String>>,
    pub content: String,
}

/// The text of one tag.
pub open spec fn tag_text(tag: Vec<String>) -> Seq<Seq<char>> {
    Seq::new(tag@.len(), |i: int| tag@[i]@)
}

/// The text of a list of tags.
pub open spec fn tags_text(tags: Vec<Vec<String>>) -> Seq<Seq<Seq<char>>> {
    Seq::new(tags@.len(), |i: int| tag_text(tags@[i]))
}

impl UnsignedEvent {
    /// Both events say the same.
    pub open spec fn same_text(&self, other: UnsignedEvent) -> bool {
        &&& self.id == other.id
        &&& self.pubkey == other.pubkey
        &&& self.created_at == other.created_at
        &&& self.kind == other.kind
        &&& tags_text(self.tags) == tags_text(other.tags)
        &&& self.content@ == other.content@
    }

    /// Another event that says the same.
    pub fn copy(&self) -> (r: UnsignedEvent)
        ensures
            r.same_text(*self),
    {
        let mut tags: Vec<Vec<String>> = Vec::new();
        let mut i: usize = 0;
        while i < self.tags.len()
            invariant
                i <= self.tags@.len(),
                tags@.len() == i,
                forall|j: int| 0 <= j < i ==> tag_text(#[trigger] tags@[j]) == tag_text(self.tags@[j]),
            decreases self.tags@.len() - i,
        {
            let tag = copy_tag(&self.tags[i]);
            tags.push(tag);
            i = i + 1;
        }
        assert(tags_text(tags) =~= tags_text(self.tags));
        UnsignedEvent {
            id: self.id,
            pubkey: self.pubkey,
            created_at: self.created_at,
            kind: self.kind,
            tags,
            content: self.content.clone(),
        }
    }
}

fn copy_tag(tag: &Vec<String>) -> (r: Vec<String>)
    ensures
        tag_text(r) == tag_text(*tag),
{
    let mut r: Vec<String> = Vec::new();
    let mut i: usize = 0;
    while i < tag.len()
        invariant
            i <= tag@.len(),
            r@.len() == i,
            forall|j: int| 0 <= j < i ==> (#[trigger] r@[j])@ == tag@[j]@,
        decreases tag@.len() - i,
    {
        r.push(tag[i].clone());
        i = i + 1;
    }
    assert(tag_text(r) =~= tag_text(*tag));
    r
}

/// The text of the relay address that `nostr::RelayUrl::parse` reads from a
/// text, or none where it refuses the text.
pub uninterp spec fn relay_address(text: Seq<char>) -> Option<Seq<char>>;

/// The id that `nostr::EventBuilder::build` computes for an authentication
/// event: challenge, relay address, time and author.
pub uninterp spec fn auth_event_id(
    challenge: Seq<char>,
    relay: Seq<char>,
    created_at: u64,
    pubkey_hi: u128,
    pubkey_lo: u128,
) -> EventId;

/// The kind of a client authentication event.
pub const AUTH_EVENT_KIND: u16 = 22242;

/// The two tags of a client authentication event.
pub open spec fn auth_tags(challenge: Seq<char>, relay: Seq<char>) -> Seq<Seq<Seq<char>>> {
    seq![seq!["challenge"@, challenge], seq!["relay"@, relay]]
}

/// Calls `nostr::EventBuilder::auth` with the challenge and the relay address,
/// sets the time by `custom_created_at`, and calls `build` with the author.
///
/// Taken on trust: the result is none exactly where the relay text is no relay
/// address. Otherwise it is an event of the authentication kind with the given
/// time and author, with no content, with a `challenge` tag and a `relay` tag in
/// that order, and with the id that the builder computes from these.
#[verifier::external_body]
pub(crate) fn build_auth_event(
    challenge: &str,
    relay: &str,
    created_at: u64,
    pubkey: PublicKey,
) -> (r: Option<UnsignedEvent>)
    ensures
        r is Some <==> relay_address(relay@) is Some,
        r matches Some(event) ==> {
            &&& event.pubkey == pubkey
            &&& event.created_at == created_at
            &&& event.kind == AUTH_EVENT_KIND
            &&& event.content@ == Seq::<char>::empty()
            &&& tags_text(event.tags) == auth_tags(challenge@, relay_address(relay@)->0)
            &&& event.id == auth_event_id(
                challenge@,
                relay_address(relay@)->0,
                created_at,
                pubkey.hi,
                pubkey.lo,
            )
        },
{
    let author = [pubkey.hi.to_be_bytes(), pubkey.lo.to_be_bytes()].concat();
    let author = nostr::PublicKey::from_slice(&author).ok()?;
    let built = EventBuilder::auth(challenge, RelayUrl::parse(relay).ok()?)
        .custom_created_at(Timestamp::from(created_at)).build(author);
    let id = built.id?.to_bytes();
    let hi = u128::from_be_bytes(id[..16].try_into().ok()?);
    Some(UnsignedEvent {
        id: EventId { hi, lo: u128::from_be_bytes(id[16..].try_into().ok()?) },
        pubkey,
        created_at: built.created_at.as_secs(),
        kind: built.kind.as_u16(),
        tags: built.tags.into_iter().map(Tag::to_vec).collect(),
        content: built.content,
    })
}

/// The lower-case hexadecimal text of the 32 bytes that `blake3::hash` computes
/// from a text.
pub uninterp spec fn blake3_hex(text: Seq<char>) -> Seq<char>;

/// Calls `blake3::hash` on the bytes of a text and `to_hex` on the result.
///
/// Taken on trust: the result is a function of the text alone, 64 characters
/// long, each of them a lower-case hexadecimal digit.
#[verifier::external_body]
pub(crate) fn hash_text(text: &str) -> (r: String)
    ensures
        r@ == blake3_hex(text@),
        r@.len() == 64,
        forall|i: int|
            0 <= i < 64 ==> ('0' <= #[trigger] r@[i] && r@[i] <= '9') || ('a' <= r@[i] && r@[i] <= 'f'),
{
    blake3::hash(text.as_bytes()).to_hex().to_string()
}

} // verus!
