use abac_policy::client::{check_response, on_connect, on_reply, prepare, ConnectOutcome, Reply};
use abac_policy::codec::{deserialize, serialize};
use abac_policy::command::CreateCommand;
use abac_policy::error::PolicyError;
use abac_policy::expr::{BinOp, Expr};
use abac_policy::ident::{path_for, Action, Resource};
use abac_policy::parse::parse_expr;
use abac_policy::policy::{create_request, Method, Policy, PolicyStore, STATUS_BAD_REQUEST, STATUS_OK};

fn ident(s: &str) -> Expr {
    Expr::Ident(s.to_string())
}

fn sample() -> Expr {
    Expr::Binary(
        BinOp::And,
        Box::new(Expr::Binary(
            BinOp::Eq,
            Box::new(ident("subject.role")),
            Box::new(Expr::Str("admin".to_string())),
        )),
        Box::new(Expr::Not(Box::new(Expr::Binary(
            BinOp::Lt,
            Box::new(ident("resource.level")),
            Box::new(Expr::Int(-3)),
        )))),
    )
}

#[test]
fn parse_literals() {
    assert_eq!(parse_expr("true"), Ok(Expr::Bool(true)));
    assert_eq!(parse_expr("false"), Ok(Expr::Bool(false)));
    assert_eq!(parse_expr("0"), Ok(Expr::Int(0)));
    assert_eq!(parse_expr("-42"), Ok(Expr::Int(-42)));
    assert_eq!(parse_expr("9223372036854775807"), Ok(Expr::Int(i64::MAX)));
    assert_eq!(parse_expr("-9223372036854775808"), Ok(Expr::Int(i64::MIN)));
    assert_eq!(parse_expr("\"a b)\""), Ok(Expr::Str("a b)".to_string())));
    assert_eq!(parse_expr("\"\""), Ok(Expr::Str(String::new())));
    assert_eq!(parse_expr("subject.role"), Ok(ident("subject.role")));
    assert_eq!(parse_expr("_x-1"), Ok(ident("_x-1")));
}

#[test]
fn parse_compound_expression() {
    let text = "(and (= subject.role \"admin\") (not (< resource.level -3)))";
    assert_eq!(parse_expr(text), Ok(sample()));
    assert_eq!(
        parse_expr("(>= a 10)"),
        Ok(Expr::Binary(BinOp::Ge, Box::new(ident("a")), Box::new(Expr::Int(10))))
    );
    assert_eq!(
        parse_expr("(!= a b)"),
        Ok(Expr::Binary(BinOp::Ne, Box::new(ident("a")), Box::new(ident("b"))))
    );
    assert_eq!(
        parse_expr("(or true false)"),
        Ok(Expr::Binary(BinOp::Or, Box::new(Expr::Bool(true)), Box::new(Expr::Bool(false))))
    );
}

fn is_syntax_error(r: Result<Expr, PolicyError>) -> bool {
    matches!(r, Err(PolicyError::SyntaxError { .. }))
}

#[test]
fn parse_rejects_malformed_text() {
    assert!(is_syntax_error(parse_expr("")));
    assert!(is_syntax_error(parse_expr("(and true false")));
    assert!(is_syntax_error(parse_expr("(and true false))")));
    assert!(is_syntax_error(parse_expr("(and true)")));
    assert!(is_syntax_error(parse_expr("(and true false true)")));
    assert!(is_syntax_error(parse_expr("(xor true false)")));
    assert!(is_syntax_error(parse_expr("(and  true false)")));
    assert!(is_syntax_error(parse_expr(" true")));
    assert!(is_syntax_error(parse_expr("true false")));
    assert!(is_syntax_error(parse_expr("\"open")));
    assert!(is_syntax_error(parse_expr("\"a\"b")));
    assert!(is_syntax_error(parse_expr("9223372036854775808")));
    assert!(is_syntax_error(parse_expr("-9223372036854775809")));
    assert!(is_syntax_error(parse_expr("-0")));
    assert!(is_syntax_error(parse_expr("007")));
    assert!(is_syntax_error(parse_expr("12ab")));
    assert!(is_syntax_error(parse_expr("a$b")));
    assert!(is_syntax_error(parse_expr("(not true")));
}

#[test]
fn serialize_exact_bytes() {
    assert_eq!(serialize(&Expr::Bool(true)), vec![0u8, 1]);
    assert_eq!(serialize(&Expr::Int(-1)), vec![1u8, 1, 0, 0, 0, 0, 0, 0, 0, 1]);
    assert_eq!(serialize(&Expr::Int(258)), vec![1u8, 0, 0, 0, 0, 0, 0, 0, 1, 2]);
    assert_eq!(
        serialize(&ident("a")),
        vec![3u8, 0, 0, 0, 0, 0, 0, 0, 1, 0, 0, 0, 0, 0, 0, 0, 97]
    );
    assert_eq!(
        serialize(&Expr::Not(Box::new(Expr::Bool(false)))),
        vec![4u8, 0, 0]
    );
}

#[test]
fn wire_round_trip() {
    let values = vec![
        sample(),
        Expr::Bool(false),
        Expr::Int(i64::MIN),
        Expr::Int(i64::MAX),
        Expr::Str("h\u{e9}llo \u{1f600}".to_string()),
        Expr::Str(String::new()),
        Expr::Binary(BinOp::Gt, Box::new(Expr::Int(0)), Box::new(ident("x"))),
    ];
    for e in values {
        let bytes = serialize(&e);
        assert_eq!(deserialize(&bytes), Ok(e));
    }
}

#[test]
fn deserialize_rejects_malformed_payloads() {
    let bytes = serialize(&sample());
    for cut in 0..bytes.len() {
        let truncated = bytes[..cut].to_vec();
        assert_eq!(deserialize(&truncated), Err(PolicyError::MalformedExpression));
    }
    let mut trailing = bytes.clone();
    trailing.push(0);
    assert_eq!(deserialize(&trailing), Err(PolicyError::MalformedExpression));
    assert_eq!(deserialize(&vec![13u8, 0]), Err(PolicyError::MalformedExpression));
    assert_eq!(deserialize(&vec![0u8, 2]), Err(PolicyError::MalformedExpression));
    assert_eq!(
        deserialize(&vec![1u8, 1, 0, 0, 0, 0, 0, 0, 0, 0]),
        Err(PolicyError::MalformedExpression)
    );
    assert_eq!(
        deserialize(&vec![1u8, 2, 0, 0, 0, 0, 0, 0, 0, 5]),
        Err(PolicyError::MalformedExpression)
    );
    assert_eq!(
        deserialize(&vec![2u8, 0, 0, 0, 0, 0, 0, 0, 1, 0, 0, 0, 0, 0, 0, 0xd8, 0x00]),
        Err(PolicyError::MalformedExpression)
    );
}

#[test]
fn resource_and_action_validation() {
    assert!(Resource::parse("echoer").is_ok());
    assert!(Resource::parse("my_service-1.v2").is_ok());
    assert_eq!(Resource::parse(""), Err(PolicyError::InvalidIdentifier));
    assert_eq!(Resource::parse("a/b"), Err(PolicyError::InvalidIdentifier));
    assert_eq!(Resource::parse("a b"), Err(PolicyError::InvalidIdentifier));
    assert_eq!(Action::parse("h\u{e9}"), Err(PolicyError::InvalidIdentifier));
    let r = Resource::parse("Echoer").unwrap();
    assert_eq!(r.as_str(), "Echoer");
    assert_ne!(Resource::parse("echoer").unwrap(), r);
}

#[test]
fn parse_is_idempotent_on_names() {
    for text in ["echoer", "A.b-c_9", "x"] {
        let r = Resource::parse(text).unwrap();
        assert_eq!(Resource::parse(r.as_str()), Ok(Resource::parse(text).unwrap()));
        let a = Action::parse(text).unwrap();
        assert_eq!(Action::parse(a.as_str()), Ok(Action::parse(text).unwrap()));
    }
}

#[test]
fn default_action_is_handle_message() {
    assert_eq!(Action::default().as_str(), "handle_message");
    assert_eq!(Action::parse_or_default(None).unwrap().as_str(), "handle_message");
    assert_eq!(Action::parse_or_default(Some("read")).unwrap().as_str(), "read");
}

#[test]
fn policy_paths() {
    let r = Resource::parse("echoer").unwrap();
    let a = Action::default();
    assert_eq!(path_for(&r, &a), "/policy/echoer/handle_message");
    let path_ab_c = path_for(&Resource::parse("a-b").unwrap(), &Action::parse("c").unwrap());
    let path_a_bc = path_for(&Resource::parse("a").unwrap(), &Action::parse("b-c").unwrap());
    assert_ne!(path_ab_c, path_a_bc);
    let path_again = path_for(&Resource::parse("a-b").unwrap(), &Action::parse("c").unwrap());
    assert_eq!(path_ab_c, path_again);
}

#[test]
fn request_carries_path_and_body() {
    let r = Resource::parse("echoer").unwrap();
    let a = Action::parse("read").unwrap();
    let req = create_request(&r, &a, &Policy::new(Expr::Bool(true)));
    assert_eq!(req.method, Method::Post);
    assert_eq!(req.path, "/policy/echoer/read");
    assert_eq!(req.body, vec![0u8, 1]);
}

#[test]
fn create_then_read_yields_true() {
    let mut store = PolicyStore::new();
    let req = prepare("echoer", None, "true").unwrap();
    let path = req.path.clone();
    let resp = store.handle_request(req);
    assert_eq!(resp.status, STATUS_OK);
    assert_eq!(store.get(&path).map(|p| p.expression()), Some(&Expr::Bool(true)));
    assert!(store.get("/policy/echoer/other").is_none());
}

#[test]
fn second_create_replaces_first() {
    let mut store = PolicyStore::new();
    let first = prepare("echoer", Some("read"), "(= a 1)").unwrap();
    let second = prepare("echoer", Some("read"), "(or b c)").unwrap();
    let other = prepare("other", Some("read"), "false").unwrap();
    assert_eq!(store.handle_request(first).status, STATUS_OK);
    assert_eq!(store.handle_request(other).status, STATUS_OK);
    assert_eq!(store.handle_request(second).status, STATUS_OK);
    assert_eq!(
        store.get("/policy/echoer/read").map(|p| p.expression()),
        Some(&Expr::Binary(BinOp::Or, Box::new(ident("b")), Box::new(ident("c"))))
    );
    assert_eq!(store.get("/policy/other/read").map(|p| p.expression()), Some(&Expr::Bool(false)));
}

#[test]
fn store_rejects_unreadable_body() {
    let mut store = PolicyStore::new();
    let mut req = prepare("echoer", None, "true").unwrap();
    req.body = vec![9u8];
    let resp = store.handle_request(req);
    assert_eq!(resp.status, STATUS_BAD_REQUEST);
    assert!(store.get("/policy/echoer/handle_message").is_none());
}

#[test]
fn malformed_expression_builds_no_request() {
    assert!(matches!(
        prepare("echoer", None, "(and true false"),
        Err(PolicyError::SyntaxError { .. })
    ));
    assert_eq!(prepare("", None, "(and true false"), Err(PolicyError::InvalidIdentifier));
    assert_eq!(prepare("echoer", Some("a b"), "true"), Err(PolicyError::InvalidIdentifier));
}

#[test]
fn connection_failures_are_not_rejections() {
    assert_eq!(on_connect(ConnectOutcome::Connected), Ok(()));
    assert_eq!(on_connect(ConnectOutcome::NotFound), Err(PolicyError::NodeNotFound));
    assert_eq!(on_connect(ConnectOutcome::Unreachable), Err(PolicyError::NodeUnreachable));
    assert_eq!(on_connect(ConnectOutcome::TimedOut), Err(PolicyError::NodeUnreachable));
    assert_eq!(on_reply(Reply::TransportFailed), Err(PolicyError::TransportError));
    assert_eq!(on_reply(Reply::TimedOut), Err(PolicyError::TransportError));
    assert_eq!(on_reply(Reply::Cancelled), Err(PolicyError::TransportError));
    assert_eq!(on_reply(Reply::Undecodable), Err(PolicyError::ProtocolError));
}

#[test]
fn node_answers() {
    assert_eq!(check_response(200, String::new()), Ok(()));
    assert_eq!(
        check_response(404, "no such resource".to_string()),
        Err(PolicyError::RemoteError { code: 404, message: "no such resource".to_string() })
    );
    assert_eq!(
        on_reply(Reply::Answer { status: 500, message: "store failed".to_string() }),
        Err(PolicyError::RemoteError { code: 500, message: "store failed".to_string() })
    );
    assert_eq!(on_reply(Reply::Answer { status: 200, message: String::new() }), Ok(()));
}

#[test]
fn command_builds_request() {
    let cmd = CreateCommand {
        at: None,
        resource: "echoer".to_string(),
        action: None,
        expression: "(= subject.role \"admin\")".to_string(),
    };
    let req = cmd.request().unwrap();
    assert_eq!(req.path, "/policy/echoer/handle_message");
    let expected = Expr::Binary(
        BinOp::Eq,
        Box::new(ident("subject.role")),
        Box::new(Expr::Str("admin".to_string())),
    );
    assert_eq!(deserialize(&req.body), Ok(expected));
    let bad = CreateCommand {
        at: Some("n1".to_string()),
        resource: "echoer".to_string(),
        action: Some("read".to_string()),
        expression: "(= a".to_string(),
    };
    assert!(matches!(bad.request(), Err(PolicyError::SyntaxError { .. })));
}
