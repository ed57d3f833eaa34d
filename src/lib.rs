//! The event fabric of a multi-network chat bot: the event model, the
//! translation of IRC, Slack and Discord traffic into events, the ordering
//! of modules by subscription and priority, the dispatch that stops at the
//! first `Stop`, the timer registry, the configuration checks, and the
//! modules' decisions, with the random-chat word chain and its file format.

pub mod text;
pub mod types;
pub mod event;
pub mod dispatch;
pub mod irc;
pub mod timers;
pub mod bytes;
pub mod dictionary;
pub mod random;
pub mod codec;
pub mod config;
pub mod logger;
pub mod facade;
pub mod msg_pipe;
pub mod eightball;
pub mod patterns;
pub mod randomchat;
pub mod slack;
pub mod discord;
