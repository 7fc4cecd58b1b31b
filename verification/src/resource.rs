//! What the service answers to a request, computed from the request body.

pub mod idp_resource;
pub mod model;
