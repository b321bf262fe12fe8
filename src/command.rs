use vstd::prelude::*;

use crate::client::prepare;
use crate::codec::encode;
use crate::error::PolicyError;
use crate::expr::ExprV;
use crate::ident::policy_path;
use crate::parse::{render, well_formed};
use crate::policy::{Method, Request};

verus! {

/// The inputs of the create-policy command: the target node (the default
/// node where absent), the resource, the action (`handle_message` where
/// absent) and the expression text.
#[derive(Debug, PartialEq, Eq)]
pub struct CreateCommand {
    pub at: Option<String>,
    pub resource: String,
    pub action: Option<String>,
    pub expression: String,
}

impl CreateCommand {
    /// The request that this command sends to its node, or the first input
    /// error.
    pub fn request(&self) -> (r: Result<Request, PolicyError>)
        ensures
            ({
                let act = match self.action {
                    Some(a) => a@,
                    None => crate::ident::handle_message_name(),
                };
                let ok_names = crate::ident::valid_name(self.resource@) && crate::ident::valid_name(
                    act,
                );
                match r {
                    Ok(req) => {
                        &&& ok_names
                        &&& req.method == Method::Post
                        &&& req.path@ == policy_path(self.resource@, act)
                        &&& exists|e: ExprV|
                            well_formed(e) && #[trigger] render(e) == self.expression@ && req.body@
                                == encode(e)
                    },
                    Err(err) => if !ok_names {
                        err == PolicyError::InvalidIdentifier
                    } else {
                        &&& err is SyntaxError
                        &&& forall|e: ExprV| well_formed(e) ==> #[trigger] render(e) != self.expression@
                    },
                }
            }),
    {
        let action: Option<&str> = match &self.action {
            Some(a) => Some(a.as_str()),
            None => None,
        };
        prepare(self.resource.as_str(), action, self.expression.as_str())
    }
}

} // verus!
