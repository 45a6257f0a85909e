use vstd::prelude::*;
use crate::connection::{Connection, fresh};

verus! {

/// A fixed-capacity store of connections, keyed by token, backed by mio's slab.
#[verifier::external_body]
pub struct ConnectionTable {
    slab: mio::util::Slab<Connection>,
}

/// The connections that a table holds, by token.
pub uninterp spec fn table_entries(t: ConnectionTable) -> Map<usize, Connection>;

/// The number of slots that a table was made with.
pub uninterp spec fn table_capacity(t: ConnectionTable) -> nat;

/// The token of a table's first slot.
pub uninterp spec fn table_offset(t: ConnectionTable) -> nat;

/// Every key of `t` names one of its slots.
pub open spec fn keys_in_slots(t: ConnectionTable) -> bool {
    forall|k: usize| #[trigger] table_entries(t).contains_key(k)
        ==> table_offset(t) <= k < table_offset(t) + table_capacity(t)
}

impl ConnectionTable {
    /// Relies on slab's `Slab::new_starting_at`: an empty slab with `capacity`
    /// slots, whose tokens start at `offset`.
    #[verifier::external_body]
    pub(crate) fn new_starting_at(offset: usize, capacity: usize) -> (r: ConnectionTable)
        requires
            offset + capacity + 1 <= usize::MAX,
        ensures
            table_entries(r).dom() =~= Set::empty(),
            table_capacity(r) == capacity,
            table_offset(r) == offset,
    {
        ConnectionTable { slab: mio::util::Slab::new_starting_at(mio::Token(offset), capacity) }
    }

    /// Relies on slab's `Slab::count`: the number of filled slots.
    #[verifier::external_body]
    pub(crate) fn count(&self) -> (r: usize)
        ensures
            r == table_entries(*self).len(),
    {
        self.slab.count()
    }

    /// Relies on slab's `Slab::contains`: whether a slot holds `token`.
    #[verifier::external_body]
    pub(crate) fn contains(&self, token: usize) -> (r: bool)
        ensures
            r == table_entries(*self).contains_key(token),
    {
        self.slab.contains(mio::Token(token))
    }

    /// Relies on slab's `Slab::get`: the connection in the slot of `token`.
    #[verifier::external_body]
    pub(crate) fn get(&self, token: usize) -> (r: Option<&Connection>)
        ensures
            table_entries(*self).contains_key(token) ==> r == Some(&table_entries(*self)[token]),
            !table_entries(*self).contains_key(token) ==> r is None,
    {
        self.slab.get(mio::Token(token))
    }

    /// Relies on slab's `Slab::get_mut`: the connection in the slot of
    /// `token`, changed in place.
    #[verifier::external_body]
    pub(crate) fn get_mut(&mut self, token: usize) -> (r: &mut Connection)
        requires
            table_entries(*old(self)).contains_key(token),
        ensures
            *r == table_entries(*old(self))[token],
            table_entries(*final(self)) == table_entries(*old(self)).insert(token, *final(r)),
            table_capacity(*final(self)) == table_capacity(*old(self)),
            table_offset(*final(self)) == table_offset(*old(self)),
    {
        &mut self.slab[mio::Token(token)]
    }

    /// Relies on slab's `Slab::insert_with`: takes the next free slot, if
    /// any, and fills it with a fresh connection under that slot's token.
    /// It fails exactly when every slot is filled: the slab's free list holds
    /// every empty slot, since this table only ever empties filled ones.
    #[verifier::external_body]
    pub(crate) fn insert_fresh(&mut self) -> (r: Option<usize>)
        ensures
            table_capacity(*final(self)) == table_capacity(*old(self)),
            table_offset(*final(self)) == table_offset(*old(self)),
            r is None <==> table_entries(*old(self)).len() >= table_capacity(*old(self)),
            r is None ==> table_entries(*final(self)) == table_entries(*old(self)),
            r matches Some(t) ==> {
                &&& !table_entries(*old(self)).contains_key(t)
                &&& table_offset(*old(self)) <= t < table_offset(*old(self)) + table_capacity(*old(self))
                &&& table_entries(*final(self)).dom() == table_entries(*old(self)).dom().insert(t)
                &&& forall|k: usize| k != t && #[trigger] table_entries(*old(self)).contains_key(k)
                    ==> table_entries(*final(self))[k] == table_entries(*old(self))[k]
                &&& table_entries(*final(self))[t]@ == fresh(t)
            },
    {
        self.slab.insert_with(|t| Connection::new(t.0)).map(|t| t.0)
    }

    /// Relies on slab's `Slab::remove`: empties the slot of `token` and
    /// hands out what it held. Only a filled slot is emptied, which keeps
    /// the slab's free list whole.
    #[verifier::external_body]
    pub(crate) fn remove(&mut self, token: usize) -> (r: Option<Connection>)
        requires
            table_entries(*old(self)).contains_key(token),
        ensures
            r == Some(table_entries(*old(self))[token]),
            table_entries(*final(self)) == table_entries(*old(self)).remove(token),
            table_capacity(*final(self)) == table_capacity(*old(self)),
            table_offset(*final(self)) == table_offset(*old(self)),
    {
        self.slab.remove(mio::Token(token))
    }
}

} // verus!
