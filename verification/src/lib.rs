//! A small identity provider core: validated mail addresses, users, and
//! stateless signed bearer tokens that bind a subject to an expiry time.
//! Beside it stand the rules of two journals kept as lists: the members
//! of a bill that is split by years of service, and the tasks of a to-do
//! list.

pub mod domain;
pub mod dutch_treat;
pub mod entity;
pub mod error;
pub mod resource;
pub mod todo_app;
pub mod token;
