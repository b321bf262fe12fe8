use vstd::prelude::*;

use crate::codec::encode;
use crate::error::PolicyError;
use crate::expr::ExprV;
use crate::ident::{handle_message_name, policy_path, valid_name, Action, Resource};
use crate::parse::{parse_expr, render, well_formed};
use crate::policy::{create_request, Method, Policy, Request, STATUS_OK};

verus! {

/// The action name in force: the one given, else `handle_message`.
pub open spec fn action_name(action: Option<&str>) -> Seq<char> {
    match action {
        Some(t) => t@,
        None => handle_message_name(),
    }
}

/// Both names are valid.
pub open spec fn names_ok(resource: &str, action: Option<&str>) -> bool {
    valid_name(resource@) && valid_name(action_name(action))
}

/// Builds the create-policy request from the command's text inputs. The
/// resource is checked first, then the action, then the expression; the
/// first failure is returned and no request is built.
pub fn prepare(resource: &str, action: Option<&str>, expression: &str) -> (r: Result<
    Request,
    PolicyError,
>)
    ensures
        match r {
            Ok(req) => {
                &&& names_ok(resource, action)
                &&& req.method == Method::Post
                &&& req.path@ == policy_path(resource@, action_name(action))
                &&& exists|e: ExprV|
                    well_formed(e) && #[trigger] render(e) == expression@ && req.body@ == encode(e)
            },
            Err(err) => if !names_ok(resource, action) {
                err == PolicyError::InvalidIdentifier
            } else {
                &&& err is SyntaxError
                &&& forall|e: ExprV| well_formed(e) ==> #[trigger] render(e) != expression@
            },
        },
{
    let res = Resource::parse(resource)?;
    let act = Action::parse_or_default(action)?;
    let expr = parse_expr(expression)?;
    let policy = Policy::new(expr);
    let req = create_request(&res, &act, &policy);
    Ok(req)
}

/// How an attempt to reach the node ended.
#[derive(Clone, Copy, Debug, PartialEq, Eq, Structural)]
pub enum ConnectOutcome {
    Connected,
    NotFound,
    Unreachable,
    TimedOut,
}

/// Decides on a connection outcome: go on to send, or fail with the node
/// error that fits. A failure to connect never reads as a rejection.
pub fn on_connect(outcome: ConnectOutcome) -> (r: Result<(), PolicyError>)
    ensures
        match outcome {
            ConnectOutcome::Connected => r is Ok,
            ConnectOutcome::NotFound => r == Err::<(), PolicyError>(PolicyError::NodeNotFound),
            _ => r == Err::<(), PolicyError>(PolicyError::NodeUnreachable),
        },
        !(r matches Err(PolicyError::RemoteError { .. })),
{
    match outcome {
        ConnectOutcome::Connected => Ok(()),
        ConnectOutcome::NotFound => Err(PolicyError::NodeNotFound),
        _ => Err(PolicyError::NodeUnreachable),
    }
}

/// Interprets the node's answer: success on `STATUS_OK`, otherwise the
/// node's rejection with its code and message intact.
pub fn check_response(status: u16, message: String) -> (r: Result<(), PolicyError>)
    ensures
        status == STATUS_OK ==> r is Ok,
        status != STATUS_OK ==> (r matches Err(PolicyError::RemoteError { code, message: m })
            && code == status && m@ == message@),
{
    if status == STATUS_OK {
        Ok(())
    } else {
        Err(PolicyError::RemoteError { code: status, message })
    }
}

/// How the exchange of a sent request ended.
#[derive(Debug, PartialEq, Eq)]
pub enum Reply {
    /// The node answered with a status code and a message.
    Answer { status: u16, message: String },
    /// An answer came that could not be decoded.
    Undecodable,
    /// The exchange broke off.
    TransportFailed,
    /// No answer came within the bound.
    TimedOut,
    /// The caller gave up waiting.
    Cancelled,
}

/// Decides on the end of an exchange. Only an answer of the node can give
/// `RemoteError`; a lost exchange gives `TransportError`, an unreadable
/// answer `ProtocolError`. Nothing is retried.
pub fn on_reply(reply: Reply) -> (r: Result<(), PolicyError>)
    ensures
        match reply {
            Reply::Answer { status, message } => {
                &&& status == STATUS_OK ==> r is Ok
                &&& status != STATUS_OK ==> (r matches Err(
                    PolicyError::RemoteError { code, message: m },
                ) && code == status && m@ == message@)
            },
            Reply::Undecodable => r == Err::<(), PolicyError>(PolicyError::ProtocolError),
            _ => r == Err::<(), PolicyError>(PolicyError::TransportError),
        },
{
    match reply {
        Reply::Answer { status, message } => check_response(status, message),
        Reply::Undecodable => Err(PolicyError::ProtocolError),
        _ => Err(PolicyError::TransportError),
    }
}

} // verus!
