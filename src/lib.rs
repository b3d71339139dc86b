//! Tool orchestration core for an agent that talks to remote tool servers:
//! validated server descriptors, a startup registry of live connections, a
//! catalog of server-qualified tools, invocation routing and bounded,
//! relevance-ordered tool selection.

pub mod catalog;
pub mod config;
pub mod manager;
pub mod selection;
