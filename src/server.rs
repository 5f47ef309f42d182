//! Packets that the server sends.
use vstd::prelude::*;
use crate::ClientId;
use crate::kind::LnPkgType;
use crate::packet::{entry, LnPkg};
use crate::value::{LnPkgValue, ValueModel};

verus! {

/// A packet of kind `kind` that carries a client's id and name.
pub open spec fn id_packet(kind: LnPkgType, id: ClientId, name: Seq<char>) -> (
    LnPkgType,
    Seq<(Seq<char>, ValueModel)>,
) {
    (kind, seq![("id"@, ValueModel::Int(id)), ("name"@, ValueModel::Text(name))])
}

/// The packet that broadcasts the message `text` of client `id`.
pub open spec fn msg_packet(id: ClientId, text: Seq<char>) -> (
    LnPkgType,
    Seq<(Seq<char>, ValueModel)>,
) {
    (LnPkgType::Message, seq![("client"@, ValueModel::Int(id)), ("msg"@, ValueModel::Text(text))])
}

fn id_template(kind: LnPkgType, client_id: ClientId, client_name: String) -> (r: LnPkg)
    ensures
        r@ == id_packet(kind, client_id, client_name@),
{
    let ghost name = client_name@;
    let content = vec![
        entry("id", LnPkgValue::Int(client_id)),
        entry("name", LnPkgValue::String(client_name)),
    ];
    let r = LnPkg { content, pkg_type: kind };
    assert(r@.1 =~= id_packet(kind, client_id, name).1);
    r
}

/// The message `text` of client `client_id`, as the server broadcasts it.
pub fn msg(client_id: ClientId, text: String) -> (r: LnPkg)
    ensures
        r@ == msg_packet(client_id, text@),
{
    let ghost t = text@;
    let content = vec![
        entry("client", LnPkgValue::Int(client_id)),
        entry("msg", LnPkgValue::String(text)),
    ];
    let r = LnPkg { content, pkg_type: LnPkgType::Message };
    assert(r@.1 =~= msg_packet(client_id, t).1);
    r
}

/// Tells a client its own identity.
pub fn self_identity(client_id: ClientId, client_name: String) -> (r: LnPkg)
    ensures
        r@ == id_packet(LnPkgType::SelfIdentity, client_id, client_name@),
{
    id_template(LnPkgType::SelfIdentity, client_id, client_name)
}

/// The identity of a client.
pub fn identity(client_id: ClientId, client_name: String) -> (r: LnPkg)
    ensures
        r@ == id_packet(LnPkgType::Identity, client_id, client_name@),
{
    id_template(LnPkgType::Identity, client_id, client_name)
}

/// Tells every client that a client has connected.
pub fn event_client_connected(client_id: ClientId, client_name: String) -> (r: LnPkg)
    ensures
        r@ == id_packet(LnPkgType::EventClientConnected, client_id, client_name@),
{
    id_template(LnPkgType::EventClientConnected, client_id, client_name)
}

/// Tells every client that a client has left.
pub fn event_client_left(client_id: ClientId, client_name: String) -> (r: LnPkg)
    ensures
        r@ == id_packet(LnPkgType::EventClientLeft, client_id, client_name@),
{
    id_template(LnPkgType::EventClientLeft, client_id, client_name)
}

} // verus!
