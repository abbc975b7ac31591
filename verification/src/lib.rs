//! The decisions of a replica and of the Postgres response writer.
//!
//! A replica wraps a domain: it receives packets from other domains and from base tables, hands
//! them to its domain, acknowledges them, and delivers what the domain sends in turn. A response
//! writer turns the outcome of a query into the messages that the frontend is sent.
//!
//! Nothing here waits or touches a socket. Each protocol is a machine which is told what happened
//! and answers with what has to be done next; whoever runs it does the waiting.
pub mod ahash_map;
pub mod connection;
pub mod message;
pub mod outboxes;
pub mod outputs;
pub mod packet;
pub mod receive;
pub mod replay;
pub mod replica;
pub mod response;
pub mod send;
pub mod token;
