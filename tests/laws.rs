use lakenet::client;
use lakenet::kind::LnPkgType;
use lakenet::packet::LnPkg;
use lakenet::server;
use lakenet::value::LnPkgValue;

const KINDS: [LnPkgType; 7] = [
    LnPkgType::SelfIdentity,
    LnPkgType::Identity,
    LnPkgType::Message,
    LnPkgType::DirectMessage,
    LnPkgType::Command,
    LnPkgType::EventClientConnected,
    LnPkgType::EventClientLeft,
];

#[test]
fn kind_tokens_round_trip() {
    for k in KINDS {
        assert_eq!(LnPkgType::from_string(k.to_string()), k);
    }
    assert_eq!(LnPkgType::Message.to_string(), "msg");
    assert_eq!(LnPkgType::EventClientConnected.to_string(), "event-connection");
    assert_eq!(LnPkgType::Unknown.to_string(), "");
}

#[test]
fn unrecognised_tokens_name_no_kind() {
    for t in ["", "MSG", "message", "msg ", "type", "event"] {
        assert_eq!(LnPkgType::from_string(t.to_string()), LnPkgType::Unknown);
    }
}

#[test]
fn packets_round_trip() {
    let packets = vec![
        server::msg(3, "hello there".to_string()),
        server::event_client_left(-9, "x=y".to_string()),
        client::command("chnick".to_string(), vec!["bob".to_string()]),
        client::direct_message(12, "hi".to_string()),
        LnPkg::from_hashmap(
            vec![
                ("".to_string(), LnPkgValue::Null),
                ("l".to_string(), LnPkgValue::List(vec![])),
                ("b".to_string(), LnPkgValue::Bool(false)),
            ],
            LnPkgType::Unknown,
        ),
    ];
    for p in packets {
        let back = LnPkg::from_string(&p.to_string());
        assert_eq!(back, p);
        assert_eq!(back.content, p.content);
    }
}

#[test]
fn type_entries_set_the_kind() {
    let p = LnPkg::from_hashmap(
        vec![
            ("type".to_string(), LnPkgValue::String("cmd".to_string())),
            ("a".to_string(), LnPkgValue::Int(1)),
        ],
        LnPkgType::Message,
    );
    assert_eq!(p.pkg_type, LnPkgType::Command);
    assert_eq!(p.content, vec![("a".to_string(), LnPkgValue::Int(1))]);
    assert!(!p.exist(&["type"]));
    let back = LnPkg::from_string(&p.to_string());
    assert!(!back.exist(&["type"]));
    assert_eq!(back.pkg_type, LnPkgType::Command);

    let p = LnPkg::from_hashmap(vec![("type".to_string(), LnPkgValue::Int(1))], LnPkgType::Message);
    assert_eq!(p.pkg_type, LnPkgType::Unknown);
    assert!(p.content.is_empty());
}

#[test]
fn a_bare_type_segment_is_no_field() {
    let p = LnPkg::from_string("type=msg:type:");
    assert_eq!(p.pkg_type, LnPkgType::Unknown);
    assert!(!p.exist(&["type"]));
}

#[test]
fn templates() {
    assert_eq!(server::identity(4, "ann".to_string()).to_string(), "type=id:id=4:name=ann:");
    assert_eq!(server::self_identity(4, "ann".to_string()).to_string(), "type=selfid:id=4:name=ann:");
    assert_eq!(
        server::event_client_connected(4, "ann".to_string()).to_string(),
        "type=event-connection:id=4:name=ann:"
    );
    assert_eq!(server::event_client_left(4, "ann".to_string()).to_string(), "type=event-left:id=4:name=ann:");
    assert_eq!(server::msg(4, "yo".to_string()).to_string(), "type=msg:client=4:msg=yo:");
    assert_eq!(client::msg("yo".to_string()).to_string(), "type=msg:msg=yo:");
    assert_eq!(client::direct_message(5, "yo".to_string()).to_string(), "type=dmsg:id=5:msg=yo:");
    assert_eq!(
        client::command("chnick".to_string(), vec!["a".to_string(), "b".to_string()]).to_string(),
        "type=cmd:command=chnick:args=[a;b]:"
    );
    assert_eq!(client::id_request(5, "z".to_string()).to_string(), "type=id:id=5:name=z:");
    assert_eq!(client::selfid_request(5, "z".to_string()).to_string(), "type=selfid:");
}
