//! Runs many agents with little memory each. An agent is a transcript on disk plus a machine
//! that exists as processes only while the agent is doing something.

pub mod agent;
pub mod bootstrap;
pub mod cgroup;
pub mod harness;
pub mod json;
pub mod machine;
pub mod paths;
pub mod provider;
pub mod rootfs;
pub mod sandbox;
pub mod store;
pub mod strings;
pub mod tools;
