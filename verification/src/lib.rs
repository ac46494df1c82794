//! The logic of a small HTTP/1.x server: request parsing, response writing and
//! the decisions of an event-driven and of a thread-per-connection front end.
//!
//! Sockets, `epoll` and threads are not handled here. A front end performs the
//! system calls, hands their results to the functions of this crate as plain
//! values, and does what the returned step asks for.

pub mod bytes;
pub mod bytes_laws;
pub mod connection_laws;
pub mod connections;
pub mod epoll;
pub mod head_laws;
pub mod http_req;
pub mod http_req_laws;
pub mod http_req_text;
pub mod http_res;
pub mod http_res_laws;
pub mod listener;
pub mod received;
pub mod server;
pub mod server_laws;
pub mod sink;
pub mod text;
pub mod text_laws;
pub mod threaded;
pub mod turn_laws;
