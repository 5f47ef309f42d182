use lakenet::dispatch::{strip_nul, SessionStep, DEFAULT_NAME};
use lakenet::kind::LnPkgType;
use lakenet::packet::LnPkg;
use lakenet::registry::{Client, ClientInputError, Outgoing, Server};
use lakenet::value::LnPkgValue;

fn field(name: &str, value: LnPkgValue) -> (String, LnPkgValue) {
    (name.to_string(), value)
}

/// A registry with clients 1 to `n`, named `c1` to `cn`.
fn registry(n: i128) -> Server {
    let mut s = Server::default();
    for i in 1..=n {
        let id = s.add_client(Client { name: format!("c{}", i) });
        assert_eq!(id, i);
    }
    s
}

fn decoded(bytes: &[u8]) -> LnPkg {
    LnPkg::from_string(std::str::from_utf8(bytes).unwrap())
}

#[test]
fn test_exist() {
    let hm = vec![
        field("exists", LnPkgValue::Null),
        field("stillexists", LnPkgValue::Null),
    ];
    let pkg = LnPkg::from_hashmap(hm, LnPkgType::Message);

    assert!(pkg.exist(&["exists", "stillexists"]));
    assert!(!pkg.exist(&[&"doesntexist"]));
}

#[test]
fn message_is_broadcast_with_its_author() {
    let mut s = registry(7);
    match s.handle_client_input(7, b"type=msg:msg=hello:") {
        Ok(Outgoing::Broadcast(bytes)) => {
            let expected = LnPkg::from_hashmap(
                vec![field("client", LnPkgValue::Int(7)), field("msg", LnPkgValue::String("hello".to_string()))],
                LnPkgType::Message,
            );
            assert_eq!(decoded(&bytes), expected);
            assert_eq!(bytes, b"type=msg:client=7:msg=hello:".to_vec());
        },
        _ => panic!("expected a broadcast"),
    }
}

#[test]
fn message_without_text_is_refused() {
    let mut s = registry(1);
    assert!(matches!(s.handle_client_input(1, b"type=msg:text=hello:"), Err(ClientInputError::NonValidFormat)));
}

#[test]
fn direct_message_goes_to_its_target() {
    let mut s = registry(3);
    match s.handle_client_input(1, b"type=dmsg:id=3:msg=hi:") {
        Ok(Outgoing::Direct(to, bytes)) => {
            assert_eq!(to, 3);
            assert_eq!(bytes, b"hi".to_vec());
        },
        _ => panic!("expected a direct message"),
    }
}

#[test]
fn direct_message_to_an_absent_client() {
    let mut s = registry(2);
    assert!(matches!(
        s.handle_client_input(1, b"type=dmsg:id=3:msg=hi:"),
        Err(ClientInputError::ResourceNotAvailable)
    ));
    assert!(s.disconnect_client(2).is_ok());
    assert!(matches!(
        s.handle_client_input(1, b"type=dmsg:id=2:msg=hi:"),
        Err(ClientInputError::ResourceNotAvailable)
    ));
}

#[test]
fn direct_message_needs_an_integer_id() {
    let mut s = registry(2);
    assert!(matches!(s.handle_client_input(1, b"type=dmsg:id=bob:msg=hi:"), Err(ClientInputError::NonValidFormat)));
    assert!(matches!(s.handle_client_input(1, b"type=dmsg:msg=hi:"), Err(ClientInputError::NonValidFormat)));
}

#[test]
fn chnick_then_whoami() {
    let mut s = registry(2);
    assert!(matches!(
        s.handle_client_input(2, b"type=cmd:command=chnick:args=[bob]:"),
        Ok(Outgoing::Nothing)
    ));
    assert_eq!(s.name(2), Some("bob".to_string()));
    match s.handle_client_input(2, b"type=cmd:command=whoami:args=[]:") {
        Ok(Outgoing::Direct(to, bytes)) => {
            assert_eq!(to, 2);
            let p = decoded(&bytes);
            assert_eq!(p.pkg_type, LnPkgType::SelfIdentity);
            assert_eq!(p.get("id"), Some(&LnPkgValue::Int(2)));
            assert_eq!(p.get("name"), Some(&LnPkgValue::String("bob".to_string())));
        },
        _ => panic!("expected a reply to the author"),
    }
}

#[test]
fn a_single_text_argument_counts_as_a_list_of_one() {
    let mut s = registry(1);
    assert!(matches!(s.handle_client_input(1, b"type=cmd:command=chnick:args=alice:"), Ok(Outgoing::Nothing)));
    assert_eq!(s.name(1), Some("alice".to_string()));
}

#[test]
fn command_errors() {
    let mut s = registry(1);
    assert!(matches!(
        s.handle_client_input(1, b"type=cmd:command=chnick:args=[]:"),
        Err(ClientInputError::NonValidCommandUsage)
    ));
    assert!(matches!(
        s.handle_client_input(1, b"type=cmd:command=chnick:args=[a;b]:"),
        Err(ClientInputError::NonValidCommandUsage)
    ));
    assert!(matches!(
        s.handle_client_input(1, b"type=cmd:command=dance:args=[]:"),
        Err(ClientInputError::UnknownCommand)
    ));
    assert!(matches!(s.handle_client_input(1, b"type=cmd:command=whoami:"), Err(ClientInputError::NonValidFormat)));
    assert!(matches!(
        s.handle_client_input(1, b"type=cmd:command=whoami:args=5:"),
        Err(ClientInputError::NonValidFormat)
    ));
    assert!(matches!(
        s.handle_client_input(9, b"type=cmd:command=chnick:args=[x]:"),
        Err(ClientInputError::UnknownUser)
    ));
    assert_eq!(s.name(1), Some("c1".to_string()));
}

#[test]
fn execute_client_command_directly() {
    let mut s = registry(1);
    assert!(matches!(
        s.execute_client_command(1, "chnick".to_string(), vec!["zed".to_string()]),
        Ok(Outgoing::Nothing)
    ));
    assert_eq!(s.name(1), Some("zed".to_string()));
    assert!(matches!(
        s.execute_client_command(1, "nope".to_string(), vec![]),
        Err(ClientInputError::UnknownCommand)
    ));
}

#[test]
fn packet_without_kind_is_refused() {
    let mut s = registry(1);
    assert!(matches!(s.handle_client_input(1, b"key:key2:key3"), Err(ClientInputError::NoMessageType)));
    assert!(matches!(s.handle_client_input(1, b"type=bogus:msg=x:"), Err(ClientInputError::NoMessageType)));
}

#[test]
fn server_only_kinds_are_refused() {
    let mut s = registry(1);
    assert!(matches!(
        s.handle_client_input(1, b"type=event-left:id=1:"),
        Err(ClientInputError::UnknownMessageType)
    ));
    assert!(matches!(
        s.handle_client_input(1, b"type=event-connection:"),
        Err(ClientInputError::UnknownMessageType)
    ));
    assert!(matches!(s.handle_client_input(1, b"type=id:id=1:"), Ok(Outgoing::Nothing)));
}

#[test]
fn invalid_utf8_is_refused() {
    let mut s = registry(1);
    assert!(matches!(s.handle_client_input(1, &[0x74, 0xff, 0x3a]), Err(ClientInputError::NonValidFormat)));
}

#[test]
fn utf8_text_is_read() {
    let mut s = registry(1);
    match s.handle_client_input(1, "type=msg:msg=héllo:".as_bytes()) {
        Ok(Outgoing::Broadcast(bytes)) => {
            assert_eq!(bytes, "type=msg:client=1:msg=héllo:".as_bytes().to_vec());
        },
        _ => panic!("expected a broadcast"),
    }
}

#[test]
fn self_identity_request() {
    let mut s = registry(2);
    match s.handle_client_input(2, b"type=selfid:") {
        Ok(Outgoing::Direct(to, bytes)) => {
            assert_eq!(to, 2);
            assert_eq!(bytes, b"type=selfid:id=2:name=c2:".to_vec());
        },
        _ => panic!("expected a reply"),
    }
    assert!(matches!(s.handle_client_input(5, b"type=selfid:"), Err(ClientInputError::UnknownUser)));
}

#[test]
fn registry_operations() {
    let mut s = Server::default();
    assert_eq!(s.last_id(), 0);
    assert_eq!(s.add_client(Client { name: "a".to_string() }), 1);
    assert_eq!(s.add_client(Client { name: "b".to_string() }), 2);
    assert_eq!(s.client_ids(), vec![1, 2]);
    assert!(s.contains(1));
    assert!(matches!(s.disconnect_client(1), Ok(())));
    assert!(matches!(s.disconnect_client(1), Err(ClientInputError::UnknownUser)));
    assert!(!s.contains(1));
    assert_eq!(s.add_client(Client { name: "c".to_string() }), 3);
    assert_eq!(s.client_ids(), vec![2, 3]);
    assert!(matches!(s.change_name(9, "x".to_string()), Err(ClientInputError::UnknownUser)));
    assert!(matches!(s.change_name(3, "x".to_string()), Ok(())));
    assert_eq!(s.name(3), Some("x".to_string()));
    assert_eq!(s.name(1), None);
    assert!(matches!(s.send_msg(1, b"x"), Err(ClientInputError::ResourceNotAvailable)));
    assert!(matches!(s.send_msg(2, b"x"), Ok(Outgoing::Direct(2, _))));
    assert!(matches!(s.broadcast_msg(b"x"), Outgoing::Broadcast(b) if b == b"x".to_vec()));
}

#[test]
fn connecting_sends_identity_and_event() {
    let mut s = registry(1);
    let (id, hello, event) = s.connect_client();
    assert_eq!(id, 2);
    assert_eq!(s.name(2), Some(DEFAULT_NAME.to_string()));
    assert_eq!(s.client_ids(), vec![1, 2]);
    match hello {
        Outgoing::Direct(to, bytes) => {
            assert_eq!(to, 2);
            assert_eq!(bytes, b"type=id:id=2:name=Generic user name:".to_vec());
        },
        _ => panic!("expected the identity"),
    }
    match event {
        Outgoing::Broadcast(bytes) => {
            assert_eq!(bytes, b"type=event-connection:id=2:name=Generic user name:".to_vec());
        },
        _ => panic!("expected the event"),
    }
}

#[test]
fn empty_read_ends_the_session_with_one_farewell() {
    let mut s = registry(2);
    assert!(matches!(
        s.on_read(2, b"type=cmd:command=chnick:args=[bob]:\0\0\0"),
        SessionStep::Continue(Outgoing::Nothing)
    ));
    match s.on_read(2, b"") {
        SessionStep::Close(None, Outgoing::Broadcast(bytes)) => {
            let p = decoded(&bytes);
            assert_eq!(p.pkg_type, LnPkgType::EventClientLeft);
            assert_eq!(p.get("id"), Some(&LnPkgValue::Int(2)));
            assert_eq!(p.get("name"), Some(&LnPkgValue::String("bob".to_string())));
        },
        _ => panic!("expected the session to close with a farewell"),
    }
    assert_eq!(s.client_ids(), vec![1]);
    assert!(matches!(s.end_session(2), Outgoing::Nothing));
}

#[test]
fn an_error_ends_the_session() {
    let mut s = registry(2);
    match s.on_read(1, b"key:key2:key3") {
        SessionStep::Close(Some(ClientInputError::NoMessageType), Outgoing::Broadcast(bytes)) => {
            assert_eq!(bytes, b"type=event-left:id=1:name=c1:".to_vec());
        },
        _ => panic!("expected the session to close"),
    }
    assert_eq!(s.client_ids(), vec![2]);
}

#[test]
fn nul_bytes_are_dropped() {
    assert_eq!(strip_nul(b"\0a\0b\0\0"), b"ab".to_vec());
    assert_eq!(strip_nul(b""), Vec::<u8>::new());
}
