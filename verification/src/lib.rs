//! Multiparty session types: messages, roles, global and local session
//! types, and the projection of a global type onto one of its roles.
pub mod mpst;
