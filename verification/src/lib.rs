//! Named bit-flag sets over a fixed-width integer.
//!
//! A [`descriptor::FlagSetDescriptor`] is an ordered table of named flag
//! definitions over a bits primitive of a chosen width, together with a mask
//! of extra bits that count as known without being named. A
//! [`value::FlagsValue`] is a plain bits value read against such a
//! descriptor. On top of the two sit a pure set algebra, a decomposition of a
//! value into the named flags that explain it ([`iter`]), and a canonical
//! text form, written by [`text`] and read back by [`parse`], with the
//! round-trip laws between the two proved in [`roundtrip`]. [`example`]
//! shows what a concrete flag-set type built on the library looks like.

pub mod bitops;
pub mod chars;
pub mod descriptor;
pub mod example;
pub mod hex;
pub mod iter;
pub mod parse;
pub mod roundtrip;
pub mod text;
pub mod value;

pub use descriptor::FlagDef;
pub use descriptor::FlagSetDescriptor;
pub use example::ExampleFlags;
pub use iter::Iter;
pub use iter::IterNames;
pub use parse::ParseError;
pub use value::FlagsValue;
