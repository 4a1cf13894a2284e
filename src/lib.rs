//! Folding one `<enums>` scope of a graphics API registry into a table of
//! named constants, with conflict checking and optional group membership,
//! and rendering a resolved constant as a declaration.
use vstd::prelude::*;

pub mod laws;
pub mod model;
pub mod number;
pub mod render;
pub mod scope;

pub use model::{EnumKey, EnumValue, Enums, EnumsError, Group};
pub use render::EnumDisplay;
pub use scope::{pull_enums, XmlEvent};

verus! {

} // verus!
