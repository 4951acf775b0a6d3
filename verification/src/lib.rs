//! A typed call surface for sandboxed executable modules.
//!
//! A call such as `hello-world(false, "Ada")` arrives as text. The
//! [`syntax`] module splits it into the export name and raw argument
//! spans; [`schema`] resolves the name against the export surface and
//! binds each span, through the type-directed codec, to a typed
//! [`value::Value`]; the invocation's results come back through a
//! sentinel-checked buffer and are rendered by the canonical formatter;
//! [`complete`] proposes continuations of partially typed expressions.
//! The literal grammar is defined by specification functions in
//! [`codec`]; the executable parser in [`parse`] and the executable
//! formatter are proved equal to them, and [`laws`] proves the round
//! trip: parsing the canonical text of any well-typed value yields the
//! value back.
pub mod codec;
pub mod complete;
pub mod error;
pub mod guest;
pub mod laws;
pub mod parse;
pub mod schema;
pub mod syntax;
pub mod text;
pub mod value;

use vstd::prelude::*;

verus! {

/// Linker anchor kept for parity with the component's export surface; a
/// deliberate no-op.
pub fn __link_section() {
}

} // verus!
