//! Skill store, chat bookkeeping and path confinement for a terminal coding agent.
pub mod text;
pub mod yaml;
pub mod skills;
pub mod order;
pub mod search;
pub mod security;
pub mod json;
pub mod chat_history;
pub mod agent;
pub mod tool_registry;
pub mod tools;
pub mod roundtrip;
