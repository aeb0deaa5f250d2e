//! Decoding of event records whose layout is described by a type registry
//! that is only known at run time.

pub mod bot;
pub mod compact;
pub mod error;
pub mod events;
pub mod guild;
pub mod ir;
pub mod laws;
pub mod layout;
pub mod metadata;
pub mod primitives;
pub mod table;
pub mod value;
