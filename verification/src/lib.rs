//! Core of a protocol-definition compiler for a message-based telemetry and
//! command wire protocol.
//!
//! Definition files declare enumerations, bitmask flags, and messages with
//! ordered typed fields (plus optional trailing extension fields), and may
//! import further definition files. The crate parses such files into a
//! validated semantic model, derives each message's wire layout and
//! compatibility checksum, provides the byte-level codecs whose binary
//! behavior must match any conforming peer on the wire, and binds all
//! dialects into one dispatchable namespace.
//!
//! - `types`: the semantic model and the error catalog.
//! - `parse`: the definition-file loader and its per-file checks.
//! - `model`: import-closure resolution and the flattening merge.
//! - `layout`: wire order, wire lengths, and the `crc_extra` checksum.
//! - `codec`: encode and decode, with the round-trip and truncation laws.
//! - `binder`: the cross-dialect aggregate and its tag-scoped dispatch.
//!
//! The codecs are model-driven: `codec::encode` and `codec::decode` realize,
//! for any validated message model, exactly the behavior that per-dialect
//! generated bindings expose, so a text backend that renders such bindings
//! is a thin layer over functions whose behavior is proved here.

pub mod binder;
pub mod codec;
pub mod ident;
pub mod layout;
pub mod model;
pub mod parse;
pub mod types;

use vstd::prelude::*;

verus! {

} // verus!
