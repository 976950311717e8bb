//! What is known of where authors publish, and where the operator does.

use vstd::prelude::*;

use crate::ids::{PublicKey, Relay};
use crate::sorted::{SortedMap, SortedSet};

verus! {

/// Where one author publishes and reads.
#[derive(Debug)]
pub struct AuthorRoutes {
    pub write: SortedSet<Relay>,
    pub read: SortedSet<Relay>,
}

/// What is known of one author's relays.
#[derive(Debug)]
pub enum AuthorRouteState {
    /// Nobody has looked yet.
    Unknown,
    /// The author is known to have none.
    Absent,
    Present(AuthorRoutes),
}

/// A new answer for one author.
#[derive(Debug)]
pub enum AuthorRouteReplacement {
    Present(AuthorRoutes),
    Absent,
}

/// What a state says.
pub enum RouteView {
    Unknown,
    Absent,
    Present(Set<Relay>, Set<Relay>),
}

impl View for AuthorRouteState {
    type V = RouteView;

    open spec fn view(&self) -> RouteView {
        match self {
            AuthorRouteState::Unknown => RouteView::Unknown,
            AuthorRouteState::Absent => RouteView::Absent,
            AuthorRouteState::Present(routes) => RouteView::Present(routes.write@, routes.read@),
        }
    }
}

impl View for AuthorRouteReplacement {
    type V = RouteView;

    open spec fn view(&self) -> RouteView {
        match self {
            AuthorRouteReplacement::Absent => RouteView::Absent,
            AuthorRouteReplacement::Present(routes) => RouteView::Present(routes.write@, routes.read@),
        }
    }
}

impl AuthorRouteState {
    /// Another state that says the same.
    pub fn copy(&self) -> (r: AuthorRouteState)
        ensures
            r@ == self@,
    {
        match self {
            AuthorRouteState::Unknown => AuthorRouteState::Unknown,
            AuthorRouteState::Absent => AuthorRouteState::Absent,
            AuthorRouteState::Present(routes) => AuthorRouteState::Present(
                AuthorRoutes { write: routes.write.copy(), read: routes.read.copy() },
            ),
        }
    }

    /// Whether both states say the same.
    pub fn equals(&self, other: &AuthorRouteState) -> (b: bool)
        ensures
            b == (self@ == other@),
    {
        match (self, other) {
            (AuthorRouteState::Unknown, AuthorRouteState::Unknown) => true,
            (AuthorRouteState::Absent, AuthorRouteState::Absent) => true,
            (AuthorRouteState::Present(a), AuthorRouteState::Present(b)) => a.write.equals(&b.write)
                && a.read.equals(&b.read),
            _ => false,
        }
    }
}

/// Where authors publish, and the relays that the operator names.
#[derive(Debug)]
pub struct RoutingFactStore {
    authors: SortedMap<PublicKey, AuthorRouteState>,
    operator_app: Vec<Relay>,
    operator_fallback: Vec<Relay>,
}

impl RoutingFactStore {
    /// What is known of each author that was looked up.
    pub closed spec fn authors(&self) -> Map<PublicKey, RouteView> {
        self.authors@.map_values(|s: AuthorRouteState| s@)
    }

    /// What is known of one author.
    pub open spec fn routes(&self, author: PublicKey) -> RouteView {
        if self.authors().contains_key(author) {
            self.authors()[author]
        } else {
            RouteView::Unknown
        }
    }

    pub closed spec fn app_relays(&self) -> Seq<Relay> {
        self.operator_app@
    }

    pub closed spec fn fallback_relays(&self) -> Seq<Relay> {
        self.operator_fallback@
    }

    /// Nothing is known of any author.
    pub fn new(operator_app: Vec<Relay>, operator_fallback: Vec<Relay>) -> (r: Self)
        ensures
            r.authors() == Map::<PublicKey, RouteView>::empty(),
            r.app_relays() == operator_app@,
            r.fallback_relays() == operator_fallback@,
    {
        let r = RoutingFactStore { authors: SortedMap::new(), operator_app, operator_fallback };
        assert(r.authors() =~= Map::<PublicKey, RouteView>::empty());
        r
    }

    pub fn author_routes(&self, author: &PublicKey) -> (r: AuthorRouteState)
        ensures
            r@ == self.routes(*author),
    {
        match self.authors.get(author) {
            Some(state) => state.copy(),
            None => AuthorRouteState::Unknown,
        }
    }

    pub fn operator_app_relays(&self) -> (r: &Vec<Relay>)
        ensures
            r@ == self.app_relays(),
    {
        &self.operator_app
    }

    pub fn operator_fallback_relays(&self) -> (r: &Vec<Relay>)
        ensures
            r@ == self.fallback_relays(),
    {
        &self.operator_fallback
    }

    /// Takes on a new answer for one author. Says whether it is news, in which
    /// case plans and open routes have to be computed again.
    pub fn replace_author_routes(&mut self, author: PublicKey, replacement: AuthorRouteReplacement) -> (news: bool)
        ensures
            final(self).authors() == old(self).authors().insert(author, replacement@),
            final(self).app_relays() == old(self).app_relays(),
            final(self).fallback_relays() == old(self).fallback_relays(),
            news == (old(self).routes(author) != replacement@),
    {
        let before = self.author_routes(&author);
        let state = match replacement {
            AuthorRouteReplacement::Present(routes) => AuthorRouteState::Present(routes),
            AuthorRouteReplacement::Absent => AuthorRouteState::Absent,
        };
        let news = !state.equals(&before);
        self.authors.insert(author, state);
        assert(self.authors() =~= old(self).authors().insert(author, replacement@));
        news
    }
}

/// What is known of an author is what the last answer for the author said, and of an
/// author without an answer nothing is known. An answer for one author says nothing of
/// another.
pub proof fn last_answer_counts(
    before: RoutingFactStore,
    after: RoutingFactStore,
    author: PublicKey,
    other: PublicKey,
    answer: RouteView,
)
    requires
        after.authors() == before.authors().insert(author, answer),
    ensures
        after.routes(author) == answer,
        other != author ==> after.routes(other) == before.routes(other),
        !before.authors().contains_key(other) ==> before.routes(other) is Unknown,
{
}

/// An answer says where the author publishes and where the author reads, each as it
/// was given.
pub proof fn answer_keeps_both_directions(routes: AuthorRoutes)
    ensures
        AuthorRouteReplacement::Present(routes)@ == AuthorRouteState::Present(routes)@,
        AuthorRouteReplacement::Present(routes)@ matches RouteView::Present(write, read) && write
            == routes.write@ && read == routes.read@,
        AuthorRouteReplacement::Absent@ is Absent,
        AuthorRouteState::Absent@ is Absent,
        AuthorRouteState::Unknown@ is Unknown,
{
}

} // verus!
