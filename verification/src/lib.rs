//! Protocol logic of the cjdns admin interface: the messages that travel between a client
//! and a router, their dispatch to those who wait for them, the calls of remote functions,
//! and the answers of a route server.

pub mod bencode;
pub mod config;
pub mod conn;
pub mod crypto;
pub mod dispatch;
pub mod errors;
pub mod func_list;
pub mod invocation;
pub mod node_info;
pub mod number;
pub mod object;
pub mod options;
pub mod order;
pub mod pipe;
pub mod service;
pub mod text;
pub mod text_map;

pub use crate::config::{EndpointType, Opts};
pub use crate::dispatch::Response;
pub use crate::errors::{ConnOptions, DispatchError, Error, FileError, PanicPayload};
pub use crate::func_list::{Arg, ArgType, Args, Func, Funcs};
