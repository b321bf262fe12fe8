// Attribute-based access-control policies: the expression language, its
// text and wire forms, resource and action names, policy paths, a node's
// policy store, and the client's decisions when it installs a policy.

pub mod client;
pub mod codec;
pub mod command;
pub mod error;
pub mod expr;
pub mod ident;
pub mod parse;
pub mod policy;
pub mod text;
