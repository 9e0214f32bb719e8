// A schema-driven RPC client core: name resolution and a deterministic
// command tree over a runtime descriptor pool, a dynamic value codec
// between generic JSON-shaped values and typed wire messages, and the
// request shaping and call decisions an invocation makes before any
// network activity.

pub mod auth;
pub mod client;
pub mod command_tree;
pub mod descriptor;
pub mod gaql;
pub mod mutate;
pub mod names;
pub mod order;
pub mod proto_json;
pub mod reflect;
pub mod value;
