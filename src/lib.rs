//! A small HTTP/1.1 responder served by a fixed pool of workers.
//!
//! [`response`] turns what a client sent into the bytes it gets back;
//! [`pool`] keeps the books of the workers and of the jobs they share.
pub mod pool;
pub mod response;
