//! Packets that a client sends.
use vstd::prelude::*;
use crate::ClientId;
use crate::kind::LnPkgType;
use crate::packet::{entry, LnPkg};
use crate::value::{strings_view, LnPkgValue, ValueModel};

verus! {

/// Asks the server for the identity of the one who asks; the server knows who that is,
/// so the packet carries no field.
pub fn selfid_request(client_id: ClientId, client_name: String) -> (r: LnPkg)
    ensures
        r@ == (LnPkgType::SelfIdentity, Seq::<(Seq<char>, ValueModel)>::empty()),
{
    LnPkg::new(LnPkgType::SelfIdentity)
}

/// Asks for the identity of the client `client_id`.
pub fn id_request(client_id: ClientId, client_name: String) -> (r: LnPkg)
    ensures
        r@ == (LnPkgType::Identity, seq![
            ("id"@, ValueModel::Int(client_id)),
            ("name"@, ValueModel::Text(client_name@)),
        ]),
{
    let content = vec![
        entry("id", LnPkgValue::Int(client_id)),
        entry("name", LnPkgValue::String(client_name)),
    ];
    let r = LnPkg { content, pkg_type: LnPkgType::Identity };
    assert(r@.1 =~= seq![("id"@, ValueModel::Int(client_id)), ("name"@, ValueModel::Text(client_name@))]);
    r
}

/// A message for the server to broadcast to every client.
pub fn msg(text: String) -> (r: LnPkg)
    ensures
        r@ == (LnPkgType::Message, seq![("msg"@, ValueModel::Text(text@))]),
{
    let ghost t = text@;
    let content = vec![entry("msg", LnPkgValue::String(text))];
    let r = LnPkg { content, pkg_type: LnPkgType::Message };
    assert(r@.1 =~= seq![("msg"@, ValueModel::Text(t))]);
    r
}

/// A message for the server to pass on to the client `client_id` alone.
pub fn direct_message(client_id: ClientId, msg: String) -> (r: LnPkg)
    ensures
        r@ == (LnPkgType::DirectMessage, seq![
            ("id"@, ValueModel::Int(client_id)),
            ("msg"@, ValueModel::Text(msg@)),
        ]),
{
    let ghost text = msg@;
    let content = vec![entry("id", LnPkgValue::Int(client_id)), entry("msg", LnPkgValue::String(msg))];
    let r = LnPkg { content, pkg_type: LnPkgType::DirectMessage };
    assert(r@.1 =~= seq![("id"@, ValueModel::Int(client_id)), ("msg"@, ValueModel::Text(text))]);
    r
}

/// Asks the server to run the command `name` with `arguments`.
pub fn command(name: String, arguments: Vec<String>) -> (r: LnPkg)
    ensures
        r@ == (LnPkgType::Command, seq![
            ("command"@, ValueModel::Text(name@)),
            ("args"@, ValueModel::List(strings_view(arguments@))),
        ]),
{
    let ghost n = name@;
    let ghost args = strings_view(arguments@);
    let content = vec![
        entry("command", LnPkgValue::String(name)),
        entry("args", LnPkgValue::List(arguments)),
    ];
    let r = LnPkg { content, pkg_type: LnPkgType::Command };
    assert(r@.1 =~= seq![("command"@, ValueModel::Text(n)), ("args"@, ValueModel::List(args))]);
    r
}

} // verus!
