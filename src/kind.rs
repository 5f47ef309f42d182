//! The kind of a packet and its token on the wire.
use vstd::prelude::*;
use crate::text::{chars_of, push_str, spells};

verus! {

/// What a packet is for; carried on the wire as the value of the reserved `type` field.
#[derive(Clone, Copy, Debug, PartialEq, Eq, Structural)]
pub enum LnPkgType {
    /// Sent by the server: the identity of the client that asked for it.
    SelfIdentity,
    /// The identity of the client that was named, sent to the one that asked.
    Identity,
    /// Sent by a client, then broadcast by the server to every client.
    Message,
    /// A message for one client only.
    DirectMessage,
    /// Sent by a client: a command name and its arguments.
    Command,
    /// Sent by the server when a client has connected.
    EventClientConnected,
    /// Sent by the server when a client has left.
    EventClientLeft,
    /// No kind, or a token that names none.
    Unknown,
}

/// The token that stands for `k` on the wire; empty for `Unknown`.
pub open spec fn token_of(k: LnPkgType) -> Seq<char> {
    match k {
        LnPkgType::Message => "msg"@,
        LnPkgType::Command => "cmd"@,
        LnPkgType::DirectMessage => "dmsg"@,
        LnPkgType::SelfIdentity => "selfid"@,
        LnPkgType::Identity => "id"@,
        LnPkgType::EventClientConnected => "event-connection"@,
        LnPkgType::EventClientLeft => "event-left"@,
        LnPkgType::Unknown => Seq::<char>::empty(),
    }
}

/// The kind that a token names; `Unknown` for any other text.
pub open spec fn kind_of_token(t: Seq<char>) -> LnPkgType {
    if t == "msg"@ {
        LnPkgType::Message
    } else if t == "cmd"@ {
        LnPkgType::Command
    } else if t == "dmsg"@ {
        LnPkgType::DirectMessage
    } else if t == "selfid"@ {
        LnPkgType::SelfIdentity
    } else if t == "id"@ {
        LnPkgType::Identity
    } else if t == "event-connection"@ {
        LnPkgType::EventClientConnected
    } else if t == "event-left"@ {
        LnPkgType::EventClientLeft
    } else {
        LnPkgType::Unknown
    }
}

/// The tokens, character by character.
pub proof fn reveal_tokens()
    ensures
        "msg"@ == seq!['m', 's', 'g'],
        "cmd"@ == seq!['c', 'm', 'd'],
        "dmsg"@ == seq!['d', 'm', 's', 'g'],
        "selfid"@ == seq!['s', 'e', 'l', 'f', 'i', 'd'],
        "id"@ == seq!['i', 'd'],
        "event-connection"@ == seq![
            'e', 'v', 'e', 'n', 't', '-', 'c', 'o', 'n', 'n', 'e', 'c', 't', 'i', 'o', 'n',
        ],
        "event-left"@ == seq!['e', 'v', 'e', 'n', 't', '-', 'l', 'e', 'f', 't'],
{
    reveal_strlit("msg");
    reveal_strlit("cmd");
    reveal_strlit("dmsg");
    reveal_strlit("selfid");
    reveal_strlit("id");
    reveal_strlit("event-connection");
    reveal_strlit("event-left");
    assert("msg"@ =~= seq!['m', 's', 'g']);
    assert("cmd"@ =~= seq!['c', 'm', 'd']);
    assert("dmsg"@ =~= seq!['d', 'm', 's', 'g']);
    assert("selfid"@ =~= seq!['s', 'e', 'l', 'f', 'i', 'd']);
    assert("id"@ =~= seq!['i', 'd']);
    assert("event-connection"@ =~= seq![
        'e', 'v', 'e', 'n', 't', '-', 'c', 'o', 'n', 'n', 'e', 'c', 't', 'i', 'o', 'n',
    ]);
    assert("event-left"@ =~= seq!['e', 'v', 'e', 'n', 't', '-', 'l', 'e', 'f', 't']);
}

/// Reading the token of a kind gives that kind back.
pub proof fn lemma_kind_round_trip(k: LnPkgType)
    ensures
        kind_of_token(token_of(k)) == k,
{
    reveal_tokens();
    assert("msg"@.len() == 3 && "cmd"@.len() == 3 && "dmsg"@.len() == 4);
    assert("selfid"@.len() == 6 && "id"@.len() == 2);
    assert("event-connection"@.len() == 16 && "event-left"@.len() == 10);
    assert("msg"@[0] != "cmd"@[0]);
}

/// A text that is no kind's token names no kind.
pub proof fn lemma_unrecognised_token(t: Seq<char>)
    requires
        forall|k: LnPkgType| k != LnPkgType::Unknown ==> t != token_of(k),
    ensures
        kind_of_token(t) == LnPkgType::Unknown,
{
    assert(t != token_of(LnPkgType::Message));
    assert(t != token_of(LnPkgType::Command));
    assert(t != token_of(LnPkgType::DirectMessage));
    assert(t != token_of(LnPkgType::SelfIdentity));
    assert(t != token_of(LnPkgType::Identity));
    assert(t != token_of(LnPkgType::EventClientConnected));
    assert(t != token_of(LnPkgType::EventClientLeft));
}

/// No token holds `:` or `=`, so one always fits in a packet field.
pub proof fn lemma_token_plain(k: LnPkgType)
    ensures
        !token_of(k).contains(':'),
        !token_of(k).contains('='),
{
    reveal_tokens();
    let t = token_of(k);
    assert forall|i: int| 0 <= i < t.len() implies t[i] != ':' && t[i] != '=' by {
        assert('a' <= t[i] <= 'z' || t[i] == '-');
    }
}

impl LnPkgType {
    /// The kind that `target` names.
    pub fn from_string(target: String) -> (r: LnPkgType)
        ensures
            r == kind_of_token(target@),
    {
        let c = chars_of(target.as_str());
        let n = c.len();
        assert(c@.subrange(0, n as int) =~= target@);
        if spells(&c, 0, n, "msg") {
            LnPkgType::Message
        } else if spells(&c, 0, n, "cmd") {
            LnPkgType::Command
        } else if spells(&c, 0, n, "dmsg") {
            LnPkgType::DirectMessage
        } else if spells(&c, 0, n, "selfid") {
            LnPkgType::SelfIdentity
        } else if spells(&c, 0, n, "id") {
            LnPkgType::Identity
        } else if spells(&c, 0, n, "event-connection") {
            LnPkgType::EventClientConnected
        } else if spells(&c, 0, n, "event-left") {
            LnPkgType::EventClientLeft
        } else {
            LnPkgType::Unknown
        }
    }

    /// Appends the token of this kind to `out`.
    pub fn push_token(&self, out: &mut String)
        ensures
            final(out)@ == old(out)@ + token_of(*self),
    {
        match self {
            LnPkgType::Message => push_str(out, "msg"),
            LnPkgType::Command => push_str(out, "cmd"),
            LnPkgType::DirectMessage => push_str(out, "dmsg"),
            LnPkgType::SelfIdentity => push_str(out, "selfid"),
            LnPkgType::Identity => push_str(out, "id"),
            LnPkgType::EventClientConnected => push_str(out, "event-connection"),
            LnPkgType::EventClientLeft => push_str(out, "event-left"),
            LnPkgType::Unknown => {
                assert(old(out)@ + token_of(*self) =~= old(out)@);
            },
        }
    }

    /// The token of this kind; empty for `Unknown`.
    pub fn to_string(&self) -> (r: String)
        ensures
            r@ == token_of(*self),
    {
        let mut r = String::new();
        self.push_token(&mut r);
        assert(r@ =~= token_of(*self));
        r
    }
}

} // verus!
