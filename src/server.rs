use vstd::prelude::*;
use crate::connection::{
    Connection, ConnectionView, Drain, ReadFailed, ReadOutcome, ReadView, CHUNK_SIZE, fresh,
    read_step, write_step, message_view, writable_tracks_queue, drain, chunk_reads, queued,
    is_last_read, lemma_echo_round_trip,
};
use crate::event_set::EventSet;
use crate::table::{ConnectionTable, table_entries, table_capacity, table_offset, keys_in_slots};

verus! {

/// The token reserved for the listening socket.
pub const SERVER_TOKEN: usize = 1;

/// The first token of the connection table's range.
pub const FIRST_CONNECTION_TOKEN: usize = 2;

/// The size of the whole token space; the table holds its tokens from
/// `FIRST_CONNECTION_TOKEN` up to this bound.
pub const TOKEN_SPACE: usize = 16384;

/// What the event loop is to do next for one readiness report.
#[derive(Clone, Copy, Debug, PartialEq, Eq, Structural)]
pub enum Action {
    /// Stop the whole event loop.
    Shutdown,
    /// Close the connection under the token.
    Close(usize),
    /// Hand the connection under the token its writable event.
    Write(usize),
    /// Drain the connection under the token.
    Read(usize),
    /// Accept on the listening socket.
    Accept,
}

/// What `close_connection` did.
#[derive(Clone, Copy, Debug, PartialEq, Eq, Structural)]
pub enum Closed {
    /// The token is the listening socket's: the event loop is to stop.
    Shutdown,
    /// The connection was removed from the table.
    Removed,
    /// No live connection holds the token.
    Absent,
}

/// The action that closing `token` calls for.
pub open spec fn close_action(server: usize, token: usize) -> Action {
    if token == server { Action::Shutdown } else { Action::Close(token) }
}

/// The actions that a readiness report `events` for `token` calls for, in order.
pub open spec fn dispatch_plan(server: usize, token: usize, events: EventSet) -> Seq<Action> {
    if events.error || events.hup {
        seq![close_action(server, token)]
    } else {
        let w: Seq<Action> = if events.writable { seq![Action::Write(token)] } else { seq![] };
        let r: Seq<Action> = if events.readable {
            if token == server { seq![Action::Accept] } else { seq![Action::Read(token)] }
        } else {
            seq![]
        };
        w + r
    }
}

/// The state of a connection that was accepted and then registered.
pub open spec fn registered_fresh(token: usize) -> ConnectionView {
    ConnectionView {
        interest: EventSet { readable: true, ..fresh(token).interest },
        ..fresh(token)
    }
}

/// Every live connection is stored under its own token.
pub open spec fn tokens_match(m: Map<usize, ConnectionView>) -> bool {
    forall|k: usize| #[trigger] m.contains_key(k) ==> m[k].token == k
}

/// What `finish_event` decided.
#[derive(Clone, Copy, Debug, PartialEq, Eq, Structural)]
pub enum FollowUp {
    /// Re-arm the socket's registration with this interest.
    Rearm(EventSet),
    /// The token was closed; what `close_connection` returned.
    Close(Closed),
}

/// What closing `token` returns, given the server's token and the live connections.
pub open spec fn close_result(server: usize, m: Map<usize, ConnectionView>, token: usize) -> Closed {
    if token == server {
        Closed::Shutdown
    } else if m.contains_key(token) {
        Closed::Removed
    } else {
        Closed::Absent
    }
}

/// The live connections after closing `token`.
pub open spec fn closed_connections(server: usize, m: Map<usize, ConnectionView>, token: usize) -> Map<usize, ConnectionView> {
    if token == server { m } else { m.remove(token) }
}

/// A table that differs from a well-formed one at most in the entry under
/// `t`, where that entry, if present, is a well-formed, registered
/// connection under its own token in the table's range, is well-formed.
proof fn lemma_table_change(before: Server, after: Server, t: usize)
    requires
        before.wf(),
        after.token == before.token,
        table_capacity(after.connections) == table_capacity(before.connections),
        table_offset(after.connections) == table_offset(before.connections),
        table_entries(after.connections).dom().finite(),
        table_entries(after.connections).len() <= table_capacity(after.connections),
        forall|k: usize| k != t && #[trigger] table_entries(after.connections).contains_key(k) ==> {
            &&& table_entries(before.connections).contains_key(k)
            &&& table_entries(after.connections)[k] == table_entries(before.connections)[k]
        },
        table_entries(after.connections).contains_key(t) ==> {
            &&& table_entries(after.connections)[t]@.token == t
            &&& table_entries(after.connections)[t].wf()
            &&& table_entries(after.connections)[t]@.interest.readable
            &&& table_offset(after.connections) <= t
                < table_offset(after.connections) + table_capacity(after.connections)
        },
    ensures
        after.wf(),
        before.idle() && (table_entries(after.connections).contains_key(t)
            ==> table_entries(after.connections)[t]@.inbound.len() == 0) ==> after.idle(),
{
    let e0 = table_entries(before.connections);
    let e = table_entries(after.connections);
    assert forall|k: usize| #[trigger] e.contains_key(k) implies {
        &&& e[k]@.token == k
        &&& e[k].wf()
        &&& e[k]@.interest.readable
        &&& table_offset(after.connections) <= k
            < table_offset(after.connections) + table_capacity(after.connections)
    } by {
        if k != t {
            assert(e0.contains_key(k));
        }
    }
    if before.idle() && (e.contains_key(t) ==> e[t]@.inbound.len() == 0) {
        assert forall|k: usize| #[trigger] after.connections().contains_key(k) implies
            after.connections()[k].inbound.len() == 0 by {
            if k != t {
                assert(before.connections().contains_key(k));
            }
        }
    }
}

/// Echo round trip on a live connection of an idle server: the reads of a
/// burst `b` queue exactly `b` on it, and its next writable event hands
/// `b` out.
pub proof fn lemma_server_echo(s: Server, t: usize, b: Seq<u8>, last: ReadView)
    requires
        s.wf(),
        s.idle(),
        s.connections().contains_key(t),
        is_last_read(b, last),
    ensures
        drain(s.connections()[t], chunk_reads(b).push(last)).0 == queued(s.connections()[t], b),
        write_step(drain(s.connections()[t], chunk_reads(b).push(last)).0).1 == Some(b),
{
    lemma_echo_round_trip(s.connections()[t], b, last);
}

/// The listening socket, by its token, and the table of live connections.
pub struct Server {
    token: usize,
    connections: ConnectionTable,
}

/// The table never holds more connections than its capacity, and every live
/// connection holds a token of the table's range, never the listening
/// socket's.
pub proof fn lemma_table_bounded(s: Server)
    requires
        s.wf(),
    ensures
        s.connections().dom().finite(),
        s.connections().len() <= s.capacity(),
        !s.connections().contains_key(s.server_token()),
        forall|k: usize| #[trigger] s.connections().contains_key(k)
            ==> s.first_token() <= k < s.first_token() + s.capacity(),
{
    assert(s.connections().dom() =~= table_entries(s.connections).dom());
    assert(!table_entries(s.connections).contains_key(SERVER_TOKEN));
}

/// No token is held by two live connections: each connection is stored
/// under its own token, so two distinct entries carry distinct tokens.
pub proof fn lemma_tokens_distinct(s: Server)
    requires
        s.wf(),
    ensures
        tokens_match(s.connections()),
        forall|j: usize, k: usize| #[trigger] s.connections().contains_key(j)
            && #[trigger] s.connections().contains_key(k) && j != k
            ==> s.connections()[j].token != s.connections()[k].token,
        forall|k: usize| #[trigger] s.connections().contains_key(k)
            ==> writable_tracks_queue(s.connections()[k]),
{
    assert forall|k: usize| #[trigger] s.connections().contains_key(k) implies
        s.connections()[k].token == k && writable_tracks_queue(s.connections()[k]) by {
        assert(table_entries(s.connections).contains_key(k));
    }
}

/// Once the connection under `t` is closed (`after` is the state that
/// `close_connection(t)` leaves), `t` is a free slot of the table again and
/// the table has room, so the next accept succeeds and may hand `t` out.
pub proof fn lemma_closed_token_reusable(before: Server, after: Server, t: usize)
    requires
        before.wf(),
        before.connections().contains_key(t),
        after.wf(),
        after.capacity() == before.capacity(),
        after.first_token() == before.first_token(),
        after.connections() == before.connections().remove(t),
    ensures
        !after.connections().contains_key(t),
        after.first_token() <= t < after.first_token() + after.capacity(),
        after.connections().len() < after.capacity(),
{
    lemma_table_bounded(before);
    lemma_table_bounded(after);
}

impl Server {
    /// The live connections, by token.
    pub closed spec fn connections(&self) -> Map<usize, ConnectionView> {
        table_entries(self.connections).map_values(|c: Connection| c@)
    }

    /// How many connections the table can hold.
    pub closed spec fn capacity(&self) -> nat {
        table_capacity(self.connections)
    }

    /// The token of the listening socket.
    pub closed spec fn server_token(&self) -> usize {
        self.token
    }

    /// The first token of the table's range.
    pub closed spec fn first_token(&self) -> nat {
        table_offset(self.connections)
    }

    /// The server's invariant.
    pub closed spec fn wf(&self) -> bool {
        &&& self.token == SERVER_TOKEN
        &&& table_offset(self.connections) == FIRST_CONNECTION_TOKEN
        &&& table_offset(self.connections) + table_capacity(self.connections) + 1 <= usize::MAX
        &&& table_entries(self.connections).dom().finite()
        &&& table_entries(self.connections).len() <= table_capacity(self.connections)
        &&& keys_in_slots(self.connections)
        &&& forall|k: usize| #[trigger] table_entries(self.connections).contains_key(k) ==> {
            &&& table_entries(self.connections)[k]@.token == k
            &&& table_entries(self.connections)[k].wf()
            &&& table_entries(self.connections)[k]@.interest.readable
        }
    }

    /// No drain is in progress: no live connection keeps inbound bytes.
    pub open spec fn idle(&self) -> bool {
        forall|k: usize| #[trigger] self.connections().contains_key(k)
            ==> self.connections()[k].inbound.len() == 0
    }

    /// A server with an empty table that holds up to `capacity` connections,
    /// under the tokens from `FIRST_CONNECTION_TOKEN` on.
    pub fn with_capacity(capacity: usize) -> (r: Server)
        requires
            capacity <= usize::MAX - FIRST_CONNECTION_TOKEN - 1,
        ensures
            r.wf(),
            r.connections() == Map::<usize, ConnectionView>::empty(),
            r.capacity() == capacity,
            r.server_token() == SERVER_TOKEN,
            r.first_token() == FIRST_CONNECTION_TOKEN,
            r.idle(),
    {
        let r = Server {
            token: SERVER_TOKEN,
            connections: ConnectionTable::new_starting_at(FIRST_CONNECTION_TOKEN, capacity),
        };
        proof {
            assert(table_entries(r.connections).dom() =~= Set::empty());
            assert(r.connections() =~= Map::<usize, ConnectionView>::empty());
        }
        r
    }

    /// A server whose table covers the whole token space above the reserved tokens.
    pub fn new() -> (r: Server)
        ensures
            r.wf(),
            r.connections() == Map::<usize, ConnectionView>::empty(),
            r.capacity() == TOKEN_SPACE - FIRST_CONNECTION_TOKEN,
            r.server_token() == SERVER_TOKEN,
            r.first_token() == FIRST_CONNECTION_TOKEN,
            r.idle(),
    {
        Server::with_capacity(TOKEN_SPACE - FIRST_CONNECTION_TOKEN)
    }

    /// The token of the listening socket.
    pub fn token(&self) -> (r: usize)
        ensures
            r == self.server_token(),
    {
        self.token
    }

    /// The number of live connections.
    pub fn count(&self) -> (r: usize)
        requires
            self.wf(),
        ensures
            r == self.connections().len(),
    {
        proof {
            assert(self.connections().dom() =~= table_entries(self.connections).dom());
        }
        self.connections.count()
    }

    /// Whether a live connection holds `token`.
    pub fn contains(&self, token: usize) -> (r: bool)
        ensures
            r == self.connections().contains_key(token),
    {
        self.connections.contains(token)
    }

    /// The actions for one readiness report `events` on `token`: on error or
    /// hang-up only the close; else the write, then the read (an accept on
    /// the listening socket).
    pub fn ready(&self, token: usize, events: EventSet) -> (r: Vec<Action>)
        requires
            !(events.writable && !events.error && !events.hup && token == self.server_token()),
        ensures
            r@ == dispatch_plan(self.server_token(), token, events),
    {
        let mut r: Vec<Action> = Vec::new();
        if events.is_error_or_hup() {
            if token == self.token {
                r.push(Action::Shutdown);
            } else {
                r.push(Action::Close(token));
            }
            proof {
                assert(r@ =~= dispatch_plan(self.server_token(), token, events));
            }
            return r;
        }
        if events.writable {
            r.push(Action::Write(token));
        }
        if events.readable {
            if token == self.token {
                r.push(Action::Accept);
            } else {
                r.push(Action::Read(token));
            }
        }
        proof {
            assert(r@ =~= dispatch_plan(self.server_token(), token, events));
        }
        r
    }

    /// Takes a free slot for a newly accepted socket: the new connection is
    /// stored under the slot's token with readable interest asserted, ready
    /// to be registered. When every slot is taken, nothing changes and the
    /// result is `None`.
    pub fn accept(&mut self) -> (r: Option<usize>)
        requires
            old(self).wf(),
        ensures
            final(self).wf(),
            final(self).capacity() == old(self).capacity(),
            final(self).server_token() == old(self).server_token(),
            final(self).first_token() == old(self).first_token(),
            old(self).idle() ==> final(self).idle(),
            r is None <==> old(self).connections().len() == old(self).capacity(),
            r is None ==> final(self).connections() == old(self).connections(),
            r matches Some(t) ==> {
                &&& !old(self).connections().contains_key(t)
                &&& t != old(self).server_token()
                &&& final(self).connections() == old(self).connections().insert(t, registered_fresh(t))
            },
    {
        proof {
            assert(self.connections().dom() =~= table_entries(self.connections).dom());
        }
        let ghost before = *self;
        match self.connections.insert_fresh() {
            None => {
                proof {
                    assert(self.connections() =~= before.connections());
                }
                None
            },
            Some(t) => {
                let c = self.connections.get_mut(t);
                c.register();
                proof {
                    let e0 = table_entries(before.connections);
                    let e = table_entries(self.connections);
                    assert(e.dom() =~= e0.dom().insert(t));
                    lemma_table_change(before, *self, t);
                    assert(self.connections() =~= before.connections().insert(t, registered_fresh(t)));
                }
                Some(t)
            },
        }
    }

    /// Removes the connection under `token`, if any. Returns whether one was
    /// removed.
    pub fn remove_connection(&mut self, token: usize) -> (r: bool)
        requires
            old(self).wf(),
        ensures
            final(self).wf(),
            final(self).capacity() == old(self).capacity(),
            final(self).server_token() == old(self).server_token(),
            final(self).first_token() == old(self).first_token(),
            old(self).idle() ==> final(self).idle(),
            r == old(self).connections().contains_key(token),
            final(self).connections() == old(self).connections().remove(token),
    {
        let ghost before = *self;
        if !self.connections.contains(token) {
            proof {
                assert(self.connections() =~= before.connections().remove(token));
            }
            return false;
        }
        let _ = self.connections.remove(token);
        proof {
            let e0 = table_entries(before.connections);
            assert(table_entries(self.connections).dom() =~= e0.dom().remove(token));
            lemma_table_change(before, *self, token);
            assert(self.connections() =~= before.connections().remove(token));
        }
        true
    }

    /// Settles an accept once its socket's registration was tried: a
    /// connection whose registration failed is taken out of the table again,
    /// so that none stays there unregistered. Returns whether the connection
    /// stays.
    pub fn settle_registration(&mut self, token: usize, registered: bool) -> (r: bool)
        requires
            old(self).wf(),
        ensures
            final(self).wf(),
            final(self).capacity() == old(self).capacity(),
            final(self).server_token() == old(self).server_token(),
            final(self).first_token() == old(self).first_token(),
            old(self).idle() ==> final(self).idle(),
            r == (registered && old(self).connections().contains_key(token)),
            registered ==> final(self).connections() == old(self).connections(),
            !registered ==> final(self).connections() == old(self).connections().remove(token),
    {
        if registered {
            self.contains(token)
        } else {
            let _ = self.remove_connection(token);
            false
        }
    }

    /// Closes `token`: for the listening socket's own token the event loop is
    /// to stop and nothing changes; otherwise the connection under it, if
    /// any, leaves the table.
    pub fn close_connection(&mut self, token: usize) -> (r: Closed)
        requires
            old(self).wf(),
        ensures
            final(self).wf(),
            final(self).capacity() == old(self).capacity(),
            final(self).server_token() == old(self).server_token(),
            final(self).first_token() == old(self).first_token(),
            old(self).idle() ==> final(self).idle(),
            r == close_result(old(self).server_token(), old(self).connections(), token),
            final(self).connections() == closed_connections(old(self).server_token(), old(self).connections(), token),
    {
        if token == self.token {
            return Closed::Shutdown;
        }
        if self.remove_connection(token) {
            Closed::Removed
        } else {
            Closed::Absent
        }
    }

    /// Ends the handling of one event on `token`. Where the handler succeeded
    /// and the connection is live, readable interest is asserted again and
    /// the result is the interest to re-arm the socket with, since a fired
    /// registration reports nothing until re-armed. Otherwise the token is
    /// closed as `close_connection` does.
    pub fn finish_event(&mut self, token: usize, handled: bool) -> (r: FollowUp)
        requires
            old(self).wf(),
        ensures
            final(self).wf(),
            final(self).capacity() == old(self).capacity(),
            final(self).server_token() == old(self).server_token(),
            final(self).first_token() == old(self).first_token(),
            old(self).idle() ==> final(self).idle(),
            handled && old(self).connections().contains_key(token) ==> {
                &&& r == FollowUp::Rearm(old(self).connections()[token].interest)
                &&& final(self).connections() == old(self).connections()
            },
            !(handled && old(self).connections().contains_key(token)) ==> {
                &&& r == FollowUp::Close(close_result(old(self).server_token(), old(self).connections(), token))
                &&& final(self).connections()
                    == closed_connections(old(self).server_token(), old(self).connections(), token)
            },
    {
        if handled && self.connections.contains(token) {
            let ghost before = *self;
            let c = self.connections.get_mut(token);
            let interest = c.reregister();
            proof {
                assert(table_entries(self.connections).dom() =~= table_entries(before.connections).dom());
                lemma_table_change(before, *self, token);
                assert(self.connections() =~= before.connections());
            }
            FollowUp::Rearm(interest)
        } else {
            FollowUp::Close(self.close_connection(token))
        }
    }

    /// Hands the outcome of one read to the connection under `token`; see
    /// `Connection::readable`.
    pub fn readable(&mut self, token: usize, outcome: ReadOutcome) -> (r: Result<Drain, ReadFailed>)
        requires
            old(self).wf(),
            old(self).connections().contains_key(token),
            outcome matches ReadOutcome::Data(b) ==> b@.len() <= CHUNK_SIZE,
        ensures
            final(self).wf(),
            final(self).capacity() == old(self).capacity(),
            final(self).server_token() == old(self).server_token(),
            final(self).first_token() == old(self).first_token(),
            old(self).idle() && r != Ok::<Drain, ReadFailed>(Drain::ReadMore) ==> final(self).idle(),
            r == read_step(old(self).connections()[token], outcome@).1,
            final(self).connections() == old(self).connections().insert(
                token, read_step(old(self).connections()[token], outcome@).0),
    {
        let ghost before = *self;
        let c = self.connections.get_mut(token);
        let r = c.readable(outcome);
        proof {
            assert(table_entries(self.connections).dom() =~= table_entries(before.connections).dom());
            lemma_table_change(before, *self, token);
            assert(self.connections() =~= before.connections().insert(token, table_entries(self.connections)[token]@));
        }
        r
    }

    /// Hands the writable event to the connection under `token`: the message
    /// to write, if any; see `Connection::writable`.
    pub fn writable(&mut self, token: usize) -> (r: Option<Vec<u8>>)
        requires
            old(self).wf(),
            old(self).connections().contains_key(token),
        ensures
            final(self).wf(),
            final(self).capacity() == old(self).capacity(),
            final(self).server_token() == old(self).server_token(),
            final(self).first_token() == old(self).first_token(),
            old(self).idle() ==> final(self).idle(),
            message_view(r) == write_step(old(self).connections()[token]).1,
            final(self).connections() == old(self).connections().insert(
                token, write_step(old(self).connections()[token]).0),
    {
        let ghost before = *self;
        let c = self.connections.get_mut(token);
        let r = c.writable();
        proof {
            assert(table_entries(self.connections).dom() =~= table_entries(before.connections).dom());
            lemma_table_change(before, *self, token);
            assert(self.connections() =~= before.connections().insert(token, table_entries(self.connections)[token]@));
        }
        r
    }

    /// The interest that the connection under `token` is registered with, if
    /// one is live.
    pub fn interest_of(&self, token: usize) -> (r: Option<EventSet>)
        ensures
            self.connections().contains_key(token) ==> r == Some(self.connections()[token].interest),
            !self.connections().contains_key(token) ==> r is None,
    {
        match self.connections.get(token) {
            Some(c) => Some(c.interest()),
            None => None,
        }
    }

    /// The interest to register the listening socket with: readable only.
    pub fn register(&self) -> (r: EventSet)
        ensures
            r == (EventSet { readable: true, writable: false, error: false, hup: false }),
    {
        EventSet::readable()
    }

    /// The interest to re-arm the listening socket with: readable only.
    pub fn reregister(&self) -> (r: EventSet)
        ensures
            r == (EventSet { readable: true, writable: false, error: false, hup: false }),
    {
        EventSet::readable()
    }
}

} // verus!
