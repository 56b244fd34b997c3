//! Deployment lifecycle engine for a single project: the state vocabulary a
//! deployment traverses, the capture layer that turns instrumented scopes and
//! diagnostic events into logs, the log router that keeps deployment rows in
//! step with state logs, and an in-memory relational store holding services,
//! deployments, logs, resources and secrets.

pub mod deploy_layer;
pub mod lifecycle;
pub mod persistence;
pub mod sorting;
pub mod strutil;
