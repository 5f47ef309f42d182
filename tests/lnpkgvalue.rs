use lakenet::kind::LnPkgType;
use lakenet::packet::LnPkg;
use lakenet::value::LnPkgValue;

#[test]
fn basic_list() {
    let sample = "[hello;world]";
    let output = LnPkgValue::List(vec!["hello".to_string(), "world".to_string()]);
    assert_eq!(LnPkgValue::from_string_to_list(sample), Some(output))
}

#[test]
fn one_element() {
    let sample = "[hello]";
    let output = LnPkgValue::List(vec!["hello".to_string()]);
    assert_eq!(LnPkgValue::from_string_to_list(sample), Some(output));
}

#[test]
fn lnpkgvalue_empty() {
    let sample = "[]";
    let output = LnPkgValue::List(vec![]);
    assert_eq!(LnPkgValue::from_string_to_list(sample), Some(output))
}

#[test]
fn parse_basic_list() {
    let sample = "type=msg:names=[jhonny;mark]:".to_string();
    let hm = vec![(
        "names".to_string(),
        LnPkgValue::List(vec!["jhonny".to_string(), "mark".to_string()]),
    )];
    assert_eq!(LnPkg::from_string(&sample), LnPkg::from_hashmap(hm, LnPkgType::Message))
}

#[test]
fn parse_emtpy_list() {
    let sample = "type=msg:names=[]";
    let hm = vec![("names".to_string(), LnPkgValue::List(Vec::new()))];

    assert_eq!(LnPkg::from_string(sample), LnPkg::from_hashmap(hm, LnPkgType::Message));
}

#[test]
fn list_edge_cases() {
    assert_eq!(LnPkgValue::from_string("[]".to_string()), LnPkgValue::List(vec![]));
    assert_eq!(
        LnPkgValue::from_string("[a]".to_string()),
        LnPkgValue::List(vec!["a".to_string()])
    );
    assert_eq!(
        LnPkgValue::from_string("[a;b]".to_string()),
        LnPkgValue::List(vec!["a".to_string(), "b".to_string()])
    );
    assert_eq!(
        LnPkgValue::from_string("[;]".to_string()),
        LnPkgValue::List(vec!["".to_string(), "".to_string()])
    );
}

#[test]
fn unbracketed_text_is_no_list() {
    assert_eq!(LnPkgValue::from_string_to_list("[unterminated"), None);
    assert_eq!(LnPkgValue::from_string_to_list("x]"), None);
    assert_eq!(LnPkgValue::from_string_to_list(""), None);
    assert_eq!(
        LnPkgValue::from_string("[unterminated".to_string()),
        LnPkgValue::String("[unterminated".to_string())
    );
}

#[test]
fn literal_precedence() {
    assert_eq!(LnPkgValue::from_string("-17".to_string()), LnPkgValue::Int(-17));
    assert_eq!(LnPkgValue::from_string("+5".to_string()), LnPkgValue::Int(5));
    assert_eq!(LnPkgValue::from_string("007".to_string()), LnPkgValue::Int(7));
    assert_eq!(LnPkgValue::from_string("-".to_string()), LnPkgValue::String("-".to_string()));
    assert_eq!(LnPkgValue::from_string("+".to_string()), LnPkgValue::String("+".to_string()));
    assert_eq!(LnPkgValue::from_string("True".to_string()), LnPkgValue::String("True".to_string()));
    assert_eq!(LnPkgValue::from_string("12a".to_string()), LnPkgValue::String("12a".to_string()));
    assert_eq!(LnPkgValue::from_string("[1]".to_string()), LnPkgValue::List(vec!["1".to_string()]));
}

#[test]
fn integer_range_is_that_of_i128() {
    assert_eq!(
        LnPkgValue::from_string("170141183460469231731687303715884105727".to_string()),
        LnPkgValue::Int(i128::MAX)
    );
    assert_eq!(
        LnPkgValue::from_string("-170141183460469231731687303715884105728".to_string()),
        LnPkgValue::Int(i128::MIN)
    );
    assert_eq!(
        LnPkgValue::from_string("170141183460469231731687303715884105728".to_string()),
        LnPkgValue::String("170141183460469231731687303715884105728".to_string())
    );
    assert_eq!(
        LnPkgValue::from_string("-170141183460469231731687303715884105729".to_string()),
        LnPkgValue::String("-170141183460469231731687303715884105729".to_string())
    );
    assert_eq!(
        LnPkgValue::from_string("99999999999999999999999999999999999999999999".to_string()),
        LnPkgValue::String("99999999999999999999999999999999999999999999".to_string())
    );
}

#[test]
fn value_text() {
    assert_eq!(LnPkgValue::Int(0).to_string(), "0");
    assert_eq!(LnPkgValue::Int(-905).to_string(), "-905");
    assert_eq!(LnPkgValue::Int(i128::MIN).to_string(), "-170141183460469231731687303715884105728");
    assert_eq!(LnPkgValue::Int(i128::MAX).to_string(), "170141183460469231731687303715884105727");
    assert_eq!(LnPkgValue::Bool(false).to_string(), "false");
    assert_eq!(LnPkgValue::Null.to_string(), "");
    assert_eq!(LnPkgValue::String("hey".to_string()).to_string(), "hey");
    assert_eq!(LnPkgValue::List(vec![]).to_string(), "[]");
    assert_eq!(
        LnPkgValue::List(vec!["a".to_string(), "".to_string(), "c".to_string()]).to_string(),
        "[a;;c]"
    );
}

#[test]
fn value_round_trip_on_samples() {
    let samples = vec![
        LnPkgValue::Int(i128::MIN),
        LnPkgValue::Int(-1),
        LnPkgValue::Int(0),
        LnPkgValue::Int(i128::MAX),
        LnPkgValue::Bool(true),
        LnPkgValue::Bool(false),
        LnPkgValue::Null,
        LnPkgValue::String("hello world".to_string()),
        LnPkgValue::List(vec![]),
        LnPkgValue::List(vec!["".to_string(), "x".to_string()]),
        LnPkgValue::List(vec!["a b".to_string(), "c".to_string()]),
    ];
    for v in samples {
        assert_eq!(LnPkgValue::from_string(v.to_string()), v);
    }
}

#[test]
fn ambiguous_values_do_not_round_trip() {
    let v = LnPkgValue::List(vec!["".to_string()]);
    assert_eq!(LnPkgValue::from_string(v.to_string()), LnPkgValue::List(vec![]));
    let v = LnPkgValue::String("123".to_string());
    assert_eq!(LnPkgValue::from_string(v.to_string()), LnPkgValue::Int(123));
}
