//! The broker: what each request is answered, given what its partition did.
pub mod handler;
