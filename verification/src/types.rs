//! The typed circuit gadgets: booleans, field elements, fixed-width
//! integers, scalars and group elements.

pub mod boolean;
pub mod field;
pub mod integer;
pub mod scalar;
pub mod group;
