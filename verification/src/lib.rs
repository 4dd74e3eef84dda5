//! Configuration front-end for an HTTP load tester: parses raw user-supplied
//! strings (endpoint, thread count, request count, body, header
//! specifications) into a validated, immutable `Task`.

pub mod header;
pub mod task;
