use lakenet::kind::LnPkgType;
use lakenet::packet::LnPkg;
use lakenet::value::LnPkgValue as lpv;

fn field(name: &str, value: lpv) -> (String, lpv) {
    (name.to_string(), value)
}

#[test]
fn test_lnpkgvalues() {
    let sample = vec![
        "".to_string(),
        "false".to_string(),
        "true".to_string(),
        "hello!".to_string(),
        "123".to_string(),
    ];
    let target = vec![
        lpv::Null,
        lpv::Bool(false),
        lpv::Bool(true),
        lpv::String(String::from("hello!")),
        lpv::Int(123),
    ];

    for i in 0..sample.len() {
        assert_eq!(lpv::from_string(sample[i].clone()), target[i])
    }
}

#[test]
fn test_lnpkg_parsing() {
    let sample = String::from("key:key2:key3");
    let target = vec![
        field("key", lpv::Null),
        field("key2", lpv::Null),
        field("key3", lpv::Null),
    ];
    assert_eq!(LnPkg::from_string(&sample), LnPkg::from_hashmap(target, LnPkgType::Unknown));

    let sample = String::from("key=This is a string:key2=false:key3=32");
    let target = vec![
        field("key", lpv::String(String::from("This is a string"))),
        field("key2", lpv::Bool(false)),
        field("key3", lpv::Int(32)),
    ];
    assert_eq!(LnPkg::from_string(&sample), LnPkg::from_hashmap(target, LnPkgType::Unknown));

    let sample = String::from("key=This is a string:key2=false:key3=32::null key");
    let target = vec![
        field("key", lpv::String(String::from("This is a string"))),
        field("key2", lpv::Bool(false)),
        field("key3", lpv::Int(32)),
        field("null key", lpv::Null),
    ];
    assert_eq!(LnPkg::from_string(&sample), LnPkg::from_hashmap(target, LnPkgType::Unknown));
}

#[test]
fn test_lnpkg_type() {
    let sample = "type=msg:msg=Hello starshine".to_string();
    let output = vec![field("msg", lpv::String("Hello starshine".to_string()))];
    let pkg_type = LnPkgType::Message;
    assert_eq!(LnPkg::from_string(&sample).content, output);
    assert_eq!(LnPkg::from_string(&sample).pkg_type, pkg_type);

    let sample = "content=Im null".to_string();
    let output = vec![field("content", lpv::String("Im null".to_string()))];
    let pkg_type = LnPkgType::Unknown;
    assert_eq!(LnPkg::from_string(&sample).content, output);
    assert_eq!(LnPkg::from_string(&sample).pkg_type, pkg_type);

    let sample = "type=dontknow:content=Im null".to_string();
    let output = vec![field("content", lpv::String("Im null".to_string()))];
    let pkg_type = LnPkgType::Unknown;
    assert_eq!(LnPkg::from_string(&sample).content, output);
    assert_eq!(LnPkg::from_string(&sample).pkg_type, pkg_type);
}

#[test]
fn test_to_string() {
    let sample = "type=msg:msg=Hello!:".to_string();
    let output = sample.clone();
    assert_eq!(LnPkg::from_string(&sample).to_string(), output);

    let sample = "msg=Hello!:name=folgue:".to_string();
    let output = sample.clone();
    assert_eq!(LnPkg::from_string(&sample).to_string(), output);
}

#[test]
fn equality_ignores_field_order() {
    let a = LnPkg::from_string("a=1:b=2:");
    let b = LnPkg::from_string("b=2:a=1:");
    assert_eq!(a, b);
    assert_ne!(a, LnPkg::from_string("a=1:b=3:"));
    assert_ne!(a, LnPkg::from_string("a=1:"));
    assert_ne!(a, LnPkg::from_string("type=msg:a=1:b=2:"));
}

#[test]
fn only_the_first_equals_sign_separates() {
    let p = LnPkg::from_string("k=a=b:");
    assert_eq!(p.content, vec![field("k", lpv::String("a=b".to_string()))]);
}

#[test]
fn a_repeated_name_keeps_its_place_and_takes_the_last_value() {
    let p = LnPkg::from_string("a=1:b=2:a=3:");
    assert_eq!(p.content, vec![field("a", lpv::Int(3)), field("b", lpv::Int(2))]);
}

#[test]
fn the_last_type_segment_wins() {
    let p = LnPkg::from_string("type=msg:type=cmd:");
    assert_eq!(p.pkg_type, LnPkgType::Command);
    assert!(p.content.is_empty());
}

#[test]
fn encoding_writes_kind_then_fields_each_closed_by_a_colon() {
    let p = LnPkg::from_hashmap(
        vec![
            field("n", lpv::Int(-42)),
            field("b", lpv::Bool(true)),
            field("l", lpv::List(vec!["x".to_string(), "y".to_string()])),
            field("z", lpv::Null),
        ],
        LnPkgType::DirectMessage,
    );
    assert_eq!(p.to_string(), "type=dmsg:n=-42:b=true:l=[x;y]:z=:");
    assert_eq!(p.as_bytes(), b"type=dmsg:n=-42:b=true:l=[x;y]:z=:".to_vec());
}

#[test]
fn text_beyond_ascii_is_kept() {
    let p = LnPkg::from_string("msg=héllo wörld:");
    assert_eq!(p.content, vec![field("msg", lpv::String("héllo wörld".to_string()))]);
    assert_eq!(p.to_string(), "msg=héllo wörld:");
}

#[test]
fn exist_checks_every_name() {
    let p = LnPkg::from_string("a=1:b=2:");
    assert!(p.exist(&[]));
    assert!(p.exist(&["a"]));
    assert!(p.exist(&["b", "a"]));
    assert!(!p.exist(&["a", "c"]));
    assert!(!p.exist(&["c"]));
}

#[test]
fn get_finds_a_field() {
    let p = LnPkg::from_string("a=1:b=x:");
    assert_eq!(p.get("b"), Some(&lpv::String("x".to_string())));
    assert_eq!(p.get("c"), None);
}
