//! What the server does with a client's packet, and with the events of a connection.
use vstd::prelude::*;
use vstd::string::*;
use vstd::utf8::{decode_utf8, encode_utf8, valid_utf8};
use crate::ClientId;
use crate::kind::LnPkgType;
use crate::packet::{decode_packet, encode_packet, field_value, has_field, LnPkg};
use crate::registry::{
    index_of_id, name_of, registered, result_view, ClientInputError, Client,
    Effect, Outgoing, Server,
};
use crate::server::{event_client_connected, event_client_left, id_packet, identity, msg_packet, self_identity};
use crate::text::{chars_of, spells, utf8_text};
use crate::value::{encode_value, strings_view, LnPkgValue, ValueModel};
use crate::server;

verus! {

/// The display name that a client has until it changes it.
pub const DEFAULT_NAME: &'static str = "Generic user name";

/// The bytes that carry a packet.
pub open spec fn packet_bytes(p: (LnPkgType, Seq<(Seq<char>, ValueModel)>)) -> Seq<u8> {
    encode_utf8(encode_packet(p))
}

/// The arguments of a command: a list as it is, a single text as a list of one.
pub open spec fn command_args(v: ValueModel) -> Option<Seq<Seq<char>>> {
    match v {
        ValueModel::List(l) => Some(l),
        ValueModel::Text(s) => Some(seq![s]),
        _ => None,
    }
}

/// Tells `author` its own identity.
pub open spec fn identify(r: Seq<(ClientId, Seq<char>)>, author: ClientId) -> (
    Seq<(ClientId, Seq<char>)>,
    Result<Effect, ClientInputError>,
) {
    if registered(r, author) {
        (
            r,
            Ok(
                Effect::Direct(
                    author,
                    packet_bytes(id_packet(LnPkgType::SelfIdentity, author, name_of(r, author))),
                ),
            ),
        )
    } else {
        (r, Err(ClientInputError::UnknownUser))
    }
}

/// The commands: `chnick <name>` renames the author, `whoami` tells it its identity.
pub open spec fn run_command(
    r: Seq<(ClientId, Seq<char>)>,
    author: ClientId,
    name: Seq<char>,
    args: Seq<Seq<char>>,
) -> (Seq<(ClientId, Seq<char>)>, Result<Effect, ClientInputError>) {
    if name == "chnick"@ {
        if args.len() != 1 {
            (r, Err(ClientInputError::NonValidCommandUsage))
        } else if !registered(r, author) {
            (r, Err(ClientInputError::UnknownUser))
        } else {
            (r.update(index_of_id(r, author), (author, args[0])), Ok(Effect::Nothing))
        }
    } else if name == "whoami"@ {
        identify(r, author)
    } else {
        (r, Err(ClientInputError::UnknownCommand))
    }
}

/// What a packet from `author` does, by its kind: the new registry and what is written,
/// or the error.
pub open spec fn dispatch_packet(
    r: Seq<(ClientId, Seq<char>)>,
    author: ClientId,
    p: (LnPkgType, Seq<(Seq<char>, ValueModel)>),
) -> (Seq<(ClientId, Seq<char>)>, Result<Effect, ClientInputError>) {
    let f = p.1;
    match p.0 {
        LnPkgType::Unknown => (r, Err(ClientInputError::NoMessageType)),
        LnPkgType::Message => if !has_field(f, "msg"@) {
            (r, Err(ClientInputError::NonValidFormat))
        } else {
            (
                r,
                Ok(
                    Effect::Broadcast(
                        packet_bytes(msg_packet(author, encode_value(field_value(f, "msg"@)))),
                    ),
                ),
            )
        },
        LnPkgType::DirectMessage => if !has_field(f, "msg"@) || !has_field(f, "id"@) {
            (r, Err(ClientInputError::NonValidFormat))
        } else {
            match field_value(f, "id"@) {
                ValueModel::Int(to) => if registered(r, to) {
                    (r, Ok(Effect::Direct(to, encode_utf8(encode_value(field_value(f, "msg"@))))))
                } else {
                    (r, Err(ClientInputError::ResourceNotAvailable))
                },
                _ => (r, Err(ClientInputError::NonValidFormat)),
            }
        },
        LnPkgType::Command => if !has_field(f, "args"@) || !has_field(f, "command"@) {
            (r, Err(ClientInputError::NonValidFormat))
        } else {
            match command_args(field_value(f, "args"@)) {
                Some(args) => run_command(
                    r,
                    author,
                    encode_value(field_value(f, "command"@)),
                    args,
                ),
                None => (r, Err(ClientInputError::NonValidFormat)),
            }
        },
        LnPkgType::SelfIdentity => identify(r, author),
        LnPkgType::Identity => (r, Ok(Effect::Nothing)),
        _ => (r, Err(ClientInputError::UnknownMessageType)),
    }
}

/// What the bytes that `author` sent do: they must be UTF-8, and are then read as a
/// packet and dispatched by its kind.
pub open spec fn dispatch(r: Seq<(ClientId, Seq<char>)>, author: ClientId, bytes: Seq<u8>) -> (
    Seq<(ClientId, Seq<char>)>,
    Result<Effect, ClientInputError>,
) {
    if !valid_utf8(bytes) {
        (r, Err(ClientInputError::NonValidFormat))
    } else {
        dispatch_packet(r, author, decode_packet(decode_utf8(bytes)))
    }
}

/// The arguments of a command, where the value is a list or a text.
fn arguments_of(v: &LnPkgValue) -> (r: Option<Vec<String>>)
    ensures
        r is Some <==> command_args(v@) is Some,
        r is Some ==> strings_view(r->0@) == command_args(v@)->0,
{
    match v {
        LnPkgValue::List(l) => {
            let mut out: Vec<String> = Vec::new();
            let mut i: usize = 0;
            while i < l.len()
                invariant
                    0 <= i <= l.len(),
                    out.len() == i,
                    strings_view(out@) == strings_view(l@).subrange(0, i as int),
                decreases l.len() - i,
            {
                let item: String = l[i].clone();
                assert(item@ == l@[i as int]@);
                let ghost before = out@;
                out.push(item);
                assert(out@ == before.push(item));
                assert forall|k: int| 0 <= k < i implies #[trigger] out@[k]@ == l@[k]@ by {
                    assert(out@[k] == before[k]);
                    assert(strings_view(before)[k] == strings_view(l@).subrange(0, i as int)[k]);
                }
                assert(strings_view(out@) =~= strings_view(l@).subrange(0, i + 1));
                i = i + 1;
            }
            assert(strings_view(l@).subrange(0, i as int) =~= strings_view(l@));
            Some(out)
        },
        LnPkgValue::String(s) => {
            let out = vec![s.clone()];
            assert(strings_view(out@) =~= seq![s@]);
            Some(out)
        },
        _ => None,
    }
}

impl Server {
    /// Tells `author` its own identity; `UnknownUser` where it is not registered.
    fn identify_client(&self, author: ClientId) -> (r: Result<Outgoing, ClientInputError>)
        ensures
            result_view(r) == identify(self@.0, author).1,
    {
        match self.name(author) {
            Some(name) => {
                let bytes = self_identity(author, name).as_bytes();
                Ok(Outgoing::Direct(author, bytes))
            },
            None => Err(ClientInputError::UnknownUser),
        }
    }

    /// Runs the command `command` of client `client_id` with `arguments`.
    pub fn execute_client_command(
        &mut self,
        client_id: ClientId,
        command: String,
        arguments: Vec<String>,
    ) -> (r: Result<Outgoing, ClientInputError>)
        requires
            old(self).wf(),
        ensures
            final(self).wf(),
            final(self)@.1 == old(self)@.1,
            (final(self)@.0, result_view(r)) == run_command(
                old(self)@.0,
                client_id,
                command@,
                strings_view(arguments@),
            ),
    {
        let c = chars_of(command.as_str());
        let n = c.len();
        assert(c@.subrange(0, n as int) =~= command@);
        if spells(&c, 0, n, "chnick") {
            if arguments.len() != 1 {
                return Err(ClientInputError::NonValidCommandUsage);
            }
            let new_name = arguments[0].clone();
            assert(strings_view(arguments@)[0] == new_name@);
            match self.change_name(client_id, new_name) {
                Ok(()) => Ok(Outgoing::Nothing),
                Err(e) => Err(e),
            }
        } else if spells(&c, 0, n, "whoami") {
            self.identify_client(client_id)
        } else {
            Err(ClientInputError::UnknownCommand)
        }
    }

    /// Handles the bytes that client `author_id` sent: reads them as a packet and acts
    /// on it by its kind.
    pub fn handle_client_input(&mut self, author_id: ClientId, msg: &[u8]) -> (r: Result<
        Outgoing,
        ClientInputError,
    >)
        requires
            old(self).wf(),
        ensures
            final(self).wf(),
            final(self)@.1 == old(self)@.1,
            (final(self)@.0, result_view(r)) == dispatch(old(self)@.0, author_id, msg@),
    {
        let text = match utf8_text(msg) {
            Some(t) => t,
            None => {
                return Err(ClientInputError::NonValidFormat);
            },
        };
        let parsed = LnPkg::from_string(text.as_str());
        match parsed.pkg_type {
            LnPkgType::Unknown => Err(ClientInputError::NoMessageType),
            LnPkgType::Message => {
                match parsed.get("msg") {
                    Some(v) => {
                        let bytes = server::msg(author_id, v.to_string()).as_bytes();
                        Ok(Outgoing::Broadcast(bytes))
                    },
                    None => Err(ClientInputError::NonValidFormat),
                }
            },
            LnPkgType::DirectMessage => {
                let m = parsed.get("msg");
                let to = parsed.get("id");
                if m.is_none() || to.is_none() {
                    return Err(ClientInputError::NonValidFormat);
                }
                let m = m.unwrap();
                match to.unwrap() {
                    LnPkgValue::Int(to) => {
                        let t = m.to_string();
                        self.send_msg(*to, t.as_str().as_bytes())
                    },
                    _ => Err(ClientInputError::NonValidFormat),
                }
            },
            LnPkgType::Command => {
                let args = parsed.get("args");
                let name = parsed.get("command");
                if args.is_none() || name.is_none() {
                    return Err(ClientInputError::NonValidFormat);
                }
                match arguments_of(args.unwrap()) {
                    Some(arguments) => {
                        let command = name.unwrap().to_string();
                        self.execute_client_command(author_id, command, arguments)
                    },
                    None => Err(ClientInputError::NonValidFormat),
                }
            },
            LnPkgType::SelfIdentity => self.identify_client(author_id),
            LnPkgType::Identity => Ok(Outgoing::Nothing),
            _ => Err(ClientInputError::UnknownMessageType),
        }
    }
}

/// What a connection does after a read.
pub enum SessionStep {
    /// Write what is asked, then read on.
    Continue(Outgoing),
    /// Write what is asked, then close the connection; the error that ended it, if any.
    Close(Option<ClientInputError>, Outgoing),
}

/// What a connection does after a read, with what is written as bytes.
pub enum StepModel {
    Continue(Effect),
    Close(Option<ClientInputError>, Effect),
}

impl View for SessionStep {
    type V = StepModel;

    open spec fn view(&self) -> StepModel {
        match self {
            SessionStep::Continue(o) => StepModel::Continue(o@),
            SessionStep::Close(e, o) => StepModel::Close(*e, o@),
        }
    }
}

/// The bytes without the NUL bytes that pad a read buffer.
pub open spec fn without_nul(b: Seq<u8>) -> Seq<u8> {
    b.filter(|x: u8| x != 0)
}

/// Client `id` leaves: it is removed, and every remaining client is told, under the
/// name that it had. Nothing happens where it is not registered.
pub open spec fn farewell(r: Seq<(ClientId, Seq<char>)>, id: ClientId) -> (
    Seq<(ClientId, Seq<char>)>,
    Effect,
) {
    if registered(r, id) {
        (
            r.remove(index_of_id(r, id)),
            Effect::Broadcast(
                packet_bytes(id_packet(LnPkgType::EventClientLeft, id, name_of(r, id))),
            ),
        )
    } else {
        (r, Effect::Nothing)
    }
}

/// What a read of `read` on the connection of client `id` does: an empty read means the
/// peer closed it, and the client leaves; otherwise the bytes, NUL bytes dropped, are
/// dispatched, and an error makes the client leave.
pub open spec fn session_step(r: Seq<(ClientId, Seq<char>)>, id: ClientId, read: Seq<u8>) -> (
    Seq<(ClientId, Seq<char>)>,
    StepModel,
) {
    if read.len() == 0 {
        (farewell(r, id).0, StepModel::Close(None, farewell(r, id).1))
    } else {
        let (r2, res) = dispatch(r, id, without_nul(read));
        match res {
            Ok(e) => (r2, StepModel::Continue(e)),
            Err(err) => (farewell(r2, id).0, StepModel::Close(Some(err), farewell(r2, id).1)),
        }
    }
}

/// `buf` without its NUL bytes.
pub fn strip_nul(buf: &[u8]) -> (r: Vec<u8>)
    ensures
        r@ == without_nul(buf@),
{
    let mut r: Vec<u8> = Vec::new();
    let mut i: usize = 0;
    while i < buf.len()
        invariant
            0 <= i <= buf.len(),
            r@ == without_nul(buf@.subrange(0, i as int)),
        decreases buf.len() - i,
    {
        let b = buf[i];
        proof {
            let p = buf@.subrange(0, i + 1);
            assert(p.drop_last() =~= buf@.subrange(0, i as int));
            assert(p.last() == b);
            reveal(Seq::filter);
        }
        if b != 0 {
            r.push(b);
        }
        i = i + 1;
    }
    assert(buf@.subrange(0, buf.len() as int) =~= buf@);
    r
}

impl Server {
    /// Registers a new client under the default name. Returns its id, its identity for
    /// it alone, and the event that tells every client (itself included) that it came.
    pub fn connect_client(&mut self) -> (r: (ClientId, Outgoing, Outgoing))
        requires
            old(self).wf(),
            old(self)@.1 < i128::MAX,
        ensures
            final(self).wf(),
            r.0 == old(self)@.1 + 1,
            final(self)@.1 == r.0,
            final(self)@.0 == old(self)@.0.push((r.0, DEFAULT_NAME@)),
            r.1@ == Effect::Direct(
                r.0,
                packet_bytes(id_packet(LnPkgType::Identity, r.0, DEFAULT_NAME@)),
            ),
            r.2@ == Effect::Broadcast(
                packet_bytes(id_packet(LnPkgType::EventClientConnected, r.0, DEFAULT_NAME@)),
            ),
    {
        let id = self.add_client(Client { name: DEFAULT_NAME.to_owned() });
        let hello = identity(id, DEFAULT_NAME.to_owned()).as_bytes();
        let event = event_client_connected(id, DEFAULT_NAME.to_owned()).as_bytes();
        (id, Outgoing::Direct(id, hello), Outgoing::Broadcast(event))
    }

    /// Client `client_id` leaves: removes it and asks every remaining client to be told,
    /// under the name that it had.
    pub fn end_session(&mut self, client_id: ClientId) -> (r: Outgoing)
        requires
            old(self).wf(),
        ensures
            final(self).wf(),
            final(self)@.1 == old(self)@.1,
            (final(self)@.0, r@) == farewell(old(self)@.0, client_id),
    {
        match self.name(client_id) {
            Some(name) => {
                let _ = self.disconnect_client(client_id);
                Outgoing::Broadcast(event_client_left(client_id, name).as_bytes())
            },
            None => Outgoing::Nothing,
        }
    }

    /// Handles one read on the connection of client `client_id`.
    pub fn on_read(&mut self, client_id: ClientId, read: &[u8]) -> (r: SessionStep)
        requires
            old(self).wf(),
        ensures
            final(self).wf(),
            final(self)@.1 == old(self)@.1,
            (final(self)@.0, r@) == session_step(old(self)@.0, client_id, read@),
    {
        if read.len() == 0 {
            let bye = self.end_session(client_id);
            return SessionStep::Close(None, bye);
        }
        let bytes = strip_nul(read);
        match self.handle_client_input(client_id, &bytes) {
            Ok(o) => SessionStep::Continue(o),
            Err(e) => {
                let bye = self.end_session(client_id);
                SessionStep::Close(Some(e), bye)
            },
        }
    }
}

} // verus!
