//! The server's registry of connected clients, and what it asks the connections to do.
use vstd::prelude::*;
use vstd::slice::slice_to_vec;
use crate::ClientId;

verus! {

/// Why a client's input was refused.
#[derive(Debug, Clone, Copy, PartialEq, Eq, Structural)]
pub enum ClientInputError {
    /// The message is not valid UTF-8, or a field is missing or of the wrong form.
    NonValidFormat,
    /// The packet names no kind.
    NoMessageType,
    /// The packet's kind is not one that a client may send.
    UnknownMessageType,
    /// The client referred to is not registered.
    UnknownUser,
    /// The client to send to is not connected (any more).
    ResourceNotAvailable,
    /// No command of that name exists.
    UnknownCommand,
    /// The command was given the wrong arguments.
    NonValidCommandUsage,
    /// Something failed inside the server.
    InternalServerError,
}

/// A connected client.
pub struct Client {
    pub name: String,
}

/// What the connections are asked to write.
pub enum Outgoing {
    /// Nothing to write.
    Nothing,
    /// The bytes go to every registered client, in registry order.
    Broadcast(Vec<u8>),
    /// The bytes go to the one client.
    Direct(ClientId, Vec<u8>),
}

/// What the connections are asked to write, as bytes.
pub enum Effect {
    Nothing,
    Broadcast(Seq<u8>),
    Direct(ClientId, Seq<u8>),
}

impl View for Outgoing {
    type V = Effect;

    open spec fn view(&self) -> Effect {
        match self {
            Outgoing::Nothing => Effect::Nothing,
            Outgoing::Broadcast(b) => Effect::Broadcast(b@),
            Outgoing::Direct(id, b) => Effect::Direct(*id, b@),
        }
    }
}

/// A result of the dispatcher, with what it asks written as bytes.
pub open spec fn result_view(r: Result<Outgoing, ClientInputError>) -> Result<
    Effect,
    ClientInputError,
> {
    match r {
        Ok(o) => Ok(o@),
        Err(e) => Err(e),
    }
}

/// The registered clients, in order of registration: each id with its display name.
pub open spec fn roster_view(c: Seq<(ClientId, Client)>) -> Seq<(ClientId, Seq<char>)> {
    c.map_values(|e: (ClientId, Client)| (e.0, e.1.name@))
}

/// The registry: its clients, in the order in which they registered, and the last id
/// that it handed out.
pub struct Server {
    clients: Vec<(ClientId, Client)>,
    last_id: ClientId,
}

impl View for Server {
    type V = (Seq<(ClientId, Seq<char>)>, ClientId);

    closed spec fn view(&self) -> (Seq<(ClientId, Seq<char>)>, ClientId) {
        (roster_view(self.clients@), self.last_id)
    }
}

/// Ids are positive, none above the last one handed out, and increasing in registry
/// order (so each is registered once).
pub open spec fn roster_wf(r: Seq<(ClientId, Seq<char>)>, last_id: ClientId) -> bool {
    &&& last_id >= 0
    &&& forall|i: int| 0 <= i < r.len() ==> 0 < (#[trigger] r[i]).0 <= last_id
    &&& forall|i: int, j: int| 0 <= i < j < r.len() ==> (#[trigger] r[i]).0 < (#[trigger] r[j]).0
}

/// The position of client `id` in the registry, or its length where `id` is absent.
pub open spec fn index_of_id(r: Seq<(ClientId, Seq<char>)>, id: ClientId) -> int
    decreases r.len(),
{
    if r.len() == 0 {
        0
    } else if r[0].0 == id {
        0
    } else {
        1 + index_of_id(r.drop_first(), id)
    }
}

pub open spec fn registered(r: Seq<(ClientId, Seq<char>)>, id: ClientId) -> bool {
    exists|i: int| 0 <= i < r.len() && (#[trigger] r[i]).0 == id
}

/// The display name of a registered client.
pub open spec fn name_of(r: Seq<(ClientId, Seq<char>)>, id: ClientId) -> Seq<char> {
    r[index_of_id(r, id)].1
}

/// The ids of the registered clients, in registry order.
pub open spec fn ids_of(r: Seq<(ClientId, Seq<char>)>) -> Seq<ClientId> {
    r.map_values(|e: (ClientId, Seq<char>)| e.0)
}

pub proof fn lemma_index_of_id(r: Seq<(ClientId, Seq<char>)>, id: ClientId)
    ensures
        0 <= index_of_id(r, id) <= r.len(),
        forall|j: int| 0 <= j < index_of_id(r, id) ==> r[j].0 != id,
        index_of_id(r, id) < r.len() ==> r[index_of_id(r, id)].0 == id,
        registered(r, id) <==> index_of_id(r, id) < r.len(),
    decreases r.len(),
{
    if r.len() > 0 && r[0].0 != id {
        lemma_index_of_id(r.drop_first(), id);
        assert forall|j: int| 0 <= j < index_of_id(r, id) implies r[j].0 != id by {
            if j > 0 {
                assert(r[j] == r.drop_first()[j - 1]);
            }
        }
        if registered(r, id) {
            let i = choose|i: int| 0 <= i < r.len() && (#[trigger] r[i]).0 == id;
            assert(r.drop_first()[i - 1] == r[i]);
        }
        if index_of_id(r, id) < r.len() {
            assert(r[index_of_id(r, id)] == r.drop_first()[index_of_id(r, id) - 1]);
        }
    }
}

proof fn lemma_index_of_id_at(r: Seq<(ClientId, Seq<char>)>, id: ClientId, i: int)
    requires
        0 <= i <= r.len(),
        forall|j: int| 0 <= j < i ==> r[j].0 != id,
        i < r.len() ==> r[i].0 == id,
    ensures
        index_of_id(r, id) == i,
    decreases r.len(),
{
    if r.len() > 0 && i > 0 {
        assert(r[0].0 != id);
        assert forall|j: int| 0 <= j < i - 1 implies r.drop_first()[j].0 != id by {
            assert(r.drop_first()[j] == r[j + 1]);
        }
        if i < r.len() {
            assert(r.drop_first()[i - 1] == r[i]);
        }
        lemma_index_of_id_at(r.drop_first(), id, i - 1);
    }
}

impl Server {
    /// Ids increasing and none above the last one handed out.
    pub open spec fn wf(&self) -> bool {
        roster_wf(self@.0, self@.1)
    }

    /// An empty registry that has handed out no id.
    pub fn default() -> (r: Server)
        ensures
            r.wf(),
            r@.0.len() == 0,
            r@.1 == 0,
    {
        let r = Server { clients: Vec::new(), last_id: 0 };
        assert(r@.0 =~= Seq::<(ClientId, Seq<char>)>::empty());
        r
    }

    /// The last id handed out.
    pub fn last_id(&self) -> (r: ClientId)
        ensures
            r == self@.1,
    {
        self.last_id
    }

    /// Registers `c` under the next id and returns that id.
    pub fn add_client(&mut self, c: Client) -> (r: ClientId)
        requires
            old(self).wf(),
            old(self)@.1 < i128::MAX,
        ensures
            final(self).wf(),
            r == old(self)@.1 + 1,
            final(self)@.1 == r,
            final(self)@.0 == old(self)@.0.push((r, c.name@)),
    {
        let ghost before = self@.0;
        let ghost name = c.name@;
        self.last_id = self.last_id + 1;
        let id = self.last_id;
        self.clients.push((id, c));
        assert(self@.0 =~= before.push((id, name)));
        id
    }

    /// The position of client `id`, or the number of clients where it is absent.
    fn index_of(&self, id: ClientId) -> (r: usize)
        ensures
            r == index_of_id(self@.0, id),
    {
        let ghost r = self@.0;
        let mut i: usize = 0;
        while i < self.clients.len()
            invariant
                0 <= i <= self.clients.len(),
                r == self@.0,
                forall|j: int| 0 <= j < i ==> r[j].0 != id,
            decreases self.clients.len() - i,
        {
            if self.clients[i].0 == id {
                proof {
                    assert(r[i as int].0 == id);
                    lemma_index_of_id_at(r, id, i as int);
                }
                return i;
            }
            assert(r[i as int].0 != id);
            i = i + 1;
        }
        proof {
            lemma_index_of_id_at(r, id, i as int);
        }
        i
    }

    /// Whether client `id` is registered.
    pub fn contains(&self, id: ClientId) -> (r: bool)
        ensures
            r == registered(self@.0, id),
    {
        proof {
            lemma_index_of_id(self@.0, id);
        }
        self.index_of(id) < self.clients.len()
    }

    /// The display name of client `id`, where it is registered.
    pub fn name(&self, id: ClientId) -> (r: Option<String>)
        ensures
            r is Some <==> registered(self@.0, id),
            r is Some ==> r->0@ == name_of(self@.0, id),
    {
        proof {
            lemma_index_of_id(self@.0, id);
        }
        let i = self.index_of(id);
        if i < self.clients.len() {
            Some(self.clients[i].1.name.clone())
        } else {
            None
        }
    }

    /// The ids of the registered clients, in registry order: the order of a broadcast.
    pub fn client_ids(&self) -> (r: Vec<ClientId>)
        ensures
            r@ == ids_of(self@.0),
    {
        let mut r: Vec<ClientId> = Vec::new();
        let mut i: usize = 0;
        while i < self.clients.len()
            invariant
                0 <= i <= self.clients.len(),
                r@ == ids_of(self@.0).subrange(0, i as int),
            decreases self.clients.len() - i,
        {
            r.push(self.clients[i].0);
            assert(r@ =~= ids_of(self@.0).subrange(0, i + 1));
            i = i + 1;
        }
        assert(ids_of(self@.0).subrange(0, i as int) =~= ids_of(self@.0));
        r
    }

    /// Removes client `id`; `UnknownUser` where it is not registered.
    pub fn disconnect_client(&mut self, client_id: ClientId) -> (r: Result<(), ClientInputError>)
        requires
            old(self).wf(),
        ensures
            final(self).wf(),
            final(self)@.1 == old(self)@.1,
            r is Err <==> !registered(old(self)@.0, client_id),
            r is Err ==> r == Err::<(), ClientInputError>(ClientInputError::UnknownUser)
                && final(self)@ == old(self)@,
            r is Ok ==> final(self)@.0 == old(self)@.0.remove(index_of_id(old(self)@.0, client_id)),
    {
        proof {
            lemma_index_of_id(self@.0, client_id);
        }
        let i = self.index_of(client_id);
        if i == self.clients.len() {
            return Err(ClientInputError::UnknownUser);
        }
        let ghost before = self@.0;
        let _gone = self.clients.remove(i);
        assert(self@.0 =~= before.remove(i as int));
        assert forall|a: int, b: int| 0 <= a < b < self@.0.len() implies (
        #[trigger] self@.0[a]).0 < (#[trigger] self@.0[b]).0 by {
            let a0 = if a < i { a } else { a + 1 };
            let b0 = if b < i { b } else { b + 1 };
            assert(self@.0[a] == before[a0]);
            assert(self@.0[b] == before[b0]);
        }
        assert forall|a: int| 0 <= a < self@.0.len() implies 0 < (#[trigger] self@.0[a]).0
            <= self@.1 by {
            let a0 = if a < i { a } else { a + 1 };
            assert(self@.0[a] == before[a0]);
        }
        Ok(())
    }

    /// Gives client `target_id` the display name `new_name`; `UnknownUser` where it is
    /// not registered.
    pub fn change_name(&mut self, target_id: ClientId, new_name: String) -> (r: Result<
        (),
        ClientInputError,
    >)
        requires
            old(self).wf(),
        ensures
            final(self).wf(),
            final(self)@.1 == old(self)@.1,
            r is Err <==> !registered(old(self)@.0, target_id),
            r is Err ==> r == Err::<(), ClientInputError>(ClientInputError::UnknownUser)
                && final(self)@ == old(self)@,
            r is Ok ==> final(self)@.0 == old(self)@.0.update(
                index_of_id(old(self)@.0, target_id),
                (target_id, new_name@),
            ),
    {
        proof {
            lemma_index_of_id(self@.0, target_id);
        }
        let i = self.index_of(target_id);
        if i == self.clients.len() {
            return Err(ClientInputError::UnknownUser);
        }
        let ghost before = self@.0;
        let ghost name = new_name@;
        self.clients[i] = (target_id, Client { name: new_name });
        assert(self@.0 =~= before.update(i as int, (target_id, name)));
        assert forall|a: int, b: int| 0 <= a < b < self@.0.len() implies (
        #[trigger] self@.0[a]).0 < (#[trigger] self@.0[b]).0 by {
            assert(self@.0[a].0 == before[a].0);
            assert(self@.0[b].0 == before[b].0);
        }
        assert forall|a: int| 0 <= a < self@.0.len() implies 0 < (#[trigger] self@.0[a]).0
            <= self@.1 by {
            assert(self@.0[a].0 == before[a].0);
        }
        Ok(())
    }

    /// Asks for `msg` to be written to client `client_id`; `ResourceNotAvailable` where
    /// it is not registered.
    pub fn send_msg(&self, client_id: ClientId, msg: &[u8]) -> (r: Result<Outgoing, ClientInputError>)
        ensures
            registered(self@.0, client_id) ==> result_view(r) == Ok::<Effect, ClientInputError>(
                Effect::Direct(client_id, msg@),
            ),
            !registered(self@.0, client_id) ==> r == Err::<Outgoing, ClientInputError>(
                ClientInputError::ResourceNotAvailable,
            ),
    {
        if self.contains(client_id) {
            Ok(Outgoing::Direct(client_id, slice_to_vec(msg)))
        } else {
            Err(ClientInputError::ResourceNotAvailable)
        }
    }

    /// Asks for `msg` to be written to every registered client, in registry order.
    pub fn broadcast_msg(&self, msg: &[u8]) -> (r: Outgoing)
        ensures
            r@ == Effect::Broadcast(msg@),
    {
        Outgoing::Broadcast(slice_to_vec(msg))
    }
}

} // verus!
