//! The semantic data model: primitive field kinds, fields, enums, messages,
//! dialect files, and the error catalog.
//!
//! Names are carried as byte strings (`Vec<u8>`): the schema's identifiers are
//! ASCII tokens, and the compatibility checksum is defined over raw bytes.
//! Floating-point kinds are carried at the codec boundary as their raw
//! little-endian bit patterns, so every field value is a plain integer here.

use vstd::prelude::*;

verus! {

/// Errors raised while parsing definition files, resolving imported files,
/// and building the semantic model.
#[derive(Clone, Copy, PartialEq, Eq, Structural, Debug)]
pub enum BuildError {
    /// A definition file does not follow the schema's structure.
    MalformedSchema,
    /// An imported definition file is absent from the loaded set.
    MissingInclude,
    /// Import resolution revisited a file already on the active path stack.
    IncludeCycle,
    /// Two definitions give the same entry name of one enum different values.
    DuplicateEnumEntry,
    /// Two distinct messages in one closure carry the same numeric id.
    DuplicateMessageId,
    /// A field references an enum that the closure does not define.
    UnknownEnumReference,
    /// An array length is zero or above the one-byte maximum.
    InvalidArrayLength,
    /// A message's field list is not one run of base fields followed by one
    /// run of extension fields, or it exceeds the field-count limit.
    MalformedMessage,
}

/// Errors raised by decoding and dispatching wire payloads.
#[derive(Clone, Copy, PartialEq, Eq, Structural, Debug)]
pub enum WireError {
    /// The payload is shorter than the base (minimum) wire length.
    TruncatedPayload,
    /// No dialect with the given tag is bound.
    UnknownDialect,
    /// The dialect defines no message with the given id.
    UnknownMessageId,
}

/// The closed catalog of primitive field kinds.
///
/// `F32` and `F64` are the 32- and 64-bit floating-point wire kinds; their
/// values are carried as raw little-endian bit patterns, which is all the
/// codec reads or writes.
#[derive(Clone, Copy, PartialEq, Eq, Structural, Debug)]
pub enum Prim {
    U8,
    I8,
    Char,
    U16,
    I16,
    U32,
    I32,
    F32,
    U64,
    I64,
    F64,
}

impl Prim {
    /// Byte width of one value of this kind on the wire.
    pub open spec fn width(self) -> nat {
        match self {
            Prim::U8 => 1,
            Prim::I8 => 1,
            Prim::Char => 1,
            Prim::U16 => 2,
            Prim::I16 => 2,
            Prim::U32 => 4,
            Prim::I32 => 4,
            Prim::F32 => 4,
            Prim::U64 => 8,
            Prim::I64 => 8,
            Prim::F64 => 8,
        }
    }

    pub fn byte_width(&self) -> (w: usize)
        ensures
            w == self.width(),
    {
        match self {
            Prim::U8 => 1,
            Prim::I8 => 1,
            Prim::Char => 1,
            Prim::U16 => 2,
            Prim::I16 => 2,
            Prim::U32 => 4,
            Prim::I32 => 4,
            Prim::F32 => 4,
            Prim::U64 => 8,
            Prim::I64 => 8,
            Prim::F64 => 8,
        }
    }

    /// The canonical schema name of this kind, as UTF-8 bytes. The
    /// compatibility checksum is computed over these exact names.
    pub open spec fn schema_name(self) -> Seq<u8> {
        match self {
            Prim::U8 => seq![117u8, 105, 110, 116, 56, 95, 116],
            Prim::I8 => seq![105u8, 110, 116, 56, 95, 116],
            Prim::Char => seq![99u8, 104, 97, 114],
            Prim::U16 => seq![117u8, 105, 110, 116, 49, 54, 95, 116],
            Prim::I16 => seq![105u8, 110, 116, 49, 54, 95, 116],
            Prim::U32 => seq![117u8, 105, 110, 116, 51, 50, 95, 116],
            Prim::I32 => seq![105u8, 110, 116, 51, 50, 95, 116],
            Prim::F32 => seq![102u8, 108, 111, 97, 116],
            Prim::U64 => seq![117u8, 105, 110, 116, 54, 52, 95, 116],
            Prim::I64 => seq![105u8, 110, 116, 54, 52, 95, 116],
            Prim::F64 => seq![100u8, 111, 117, 98, 108, 101],
        }
    }

    /// Builds the canonical schema name (`uint8_t`, `float`, ...) of this kind.
    pub fn schema_name_bytes(&self) -> (n: Vec<u8>)
        ensures
            n@ == self.schema_name(),
    {
        let mut v: Vec<u8> = Vec::new();
        match self {
            Prim::U8 => {
                v.push(117);
                v.push(105);
                v.push(110);
                v.push(116);
                v.push(56);
                v.push(95);
                v.push(116);
            },
            Prim::I8 => {
                v.push(105);
                v.push(110);
                v.push(116);
                v.push(56);
                v.push(95);
                v.push(116);
            },
            Prim::Char => {
                v.push(99);
                v.push(104);
                v.push(97);
                v.push(114);
            },
            Prim::U16 => {
                v.push(117);
                v.push(105);
                v.push(110);
                v.push(116);
                v.push(49);
                v.push(54);
                v.push(95);
                v.push(116);
            },
            Prim::I16 => {
                v.push(105);
                v.push(110);
                v.push(116);
                v.push(49);
                v.push(54);
                v.push(95);
                v.push(116);
            },
            Prim::U32 => {
                v.push(117);
                v.push(105);
                v.push(110);
                v.push(116);
                v.push(51);
                v.push(50);
                v.push(95);
                v.push(116);
            },
            Prim::I32 => {
                v.push(105);
                v.push(110);
                v.push(116);
                v.push(51);
                v.push(50);
                v.push(95);
                v.push(116);
            },
            Prim::F32 => {
                v.push(102);
                v.push(108);
                v.push(111);
                v.push(97);
                v.push(116);
            },
            Prim::U64 => {
                v.push(117);
                v.push(105);
                v.push(110);
                v.push(116);
                v.push(54);
                v.push(52);
                v.push(95);
                v.push(116);
            },
            Prim::I64 => {
                v.push(105);
                v.push(110);
                v.push(116);
                v.push(54);
                v.push(52);
                v.push(95);
                v.push(116);
            },
            Prim::F64 => {
                v.push(100);
                v.push(111);
                v.push(117);
                v.push(98);
                v.push(108);
                v.push(101);
            },
        }
        assert(v@ =~= self.schema_name());
        v
    }
}

/// A field's wire shape: one primitive value, or a fixed-length array of one
/// primitive kind.
#[derive(Clone, Copy, PartialEq, Eq, Structural, Debug)]
pub enum FieldKind {
    Scalar(Prim),
    Array(Prim, usize),
}

impl FieldKind {
    pub open spec fn prim(self) -> Prim {
        match self {
            FieldKind::Scalar(p) => p,
            FieldKind::Array(p, _) => p,
        }
    }

    /// Number of primitive elements the field holds (1 for a scalar).
    pub open spec fn count(self) -> nat {
        match self {
            FieldKind::Scalar(_) => 1,
            FieldKind::Array(_, n) => n as nat,
        }
    }

    /// Declared array length; 0 for a scalar. This is the value that enters
    /// the compatibility checksum.
    pub open spec fn array_len(self) -> nat {
        match self {
            FieldKind::Scalar(_) => 0,
            FieldKind::Array(_, n) => n as nat,
        }
    }

    /// Total bytes the field occupies on the wire.
    pub open spec fn size(self) -> nat {
        self.count() * self.prim().width()
    }

    /// Array lengths are positive and fit the checksum's one-byte slot.
    pub open spec fn wf(self) -> bool {
        match self {
            FieldKind::Scalar(_) => true,
            FieldKind::Array(_, n) => 1 <= n && n <= 255,
        }
    }

    pub fn prim_of(&self) -> (p: Prim)
        ensures
            p == self.prim(),
    {
        match self {
            FieldKind::Scalar(p) => *p,
            FieldKind::Array(p, _) => *p,
        }
    }

    pub fn elem_count(&self) -> (n: usize)
        ensures
            n == self.count(),
    {
        match self {
            FieldKind::Scalar(_) => 1,
            FieldKind::Array(_, n) => *n,
        }
    }

    pub fn array_len_byte(&self) -> (n: u8)
        requires
            self.wf(),
        ensures
            n == self.array_len(),
    {
        match self {
            FieldKind::Scalar(_) => 0,
            FieldKind::Array(_, n) => *n as u8,
        }
    }

    /// Total bytes the field occupies on the wire.
    pub fn byte_size(&self) -> (s: usize)
        requires
            self.wf(),
        ensures
            s == self.size(),
            s <= 2040,
    {
        let n = self.elem_count();
        let w = self.prim_of().byte_width();
        proof {
            assert(n * w <= 2040) by (nonlinear_arith)
                requires
                    n <= 255,
                    w <= 8,
            ;
        }
        n * w
    }
}

/// One field of a message: name, wire shape, optional enum reference,
/// free-text units (no semantic effect), and the extension flag.
///
/// A message's field list is kept in declaration order, so a field's
/// declaration index is its position in that list.
#[derive(Clone, Debug, PartialEq, Eq)]
pub struct FieldModel {
    pub name: Vec<u8>,
    pub kind: FieldKind,
    pub enum_ref: Option<Vec<u8>>,
    pub units: Vec<u8>,
    pub is_extension: bool,
}

/// One entry of an enum: integer value, name, free-text description, and
/// whether the entry was inherited from an imported definition file.
#[derive(Clone, Debug, PartialEq, Eq)]
pub struct EnumEntry {
    pub value: u64,
    pub name: Vec<u8>,
    pub description: Vec<u8>,
    pub inherited: bool,
}

/// An enumeration: unique name within a closure, ordered entries, and the
/// bitmask flag.
#[derive(Clone, Debug, PartialEq, Eq)]
pub struct EnumModel {
    pub name: Vec<u8>,
    pub entries: Vec<EnumEntry>,
    pub is_bitmask: bool,
}

/// A message: numeric id (unique within a closure), name, fields in
/// declaration order, and informational deprecation metadata.
#[derive(Clone, Debug, PartialEq, Eq)]
pub struct MessageModel {
    pub id: u32,
    pub name: Vec<u8>,
    pub description: Vec<u8>,
    pub fields: Vec<FieldModel>,
    pub deprecated: bool,
    pub wip: bool,
}

/// One parsed definition file: canonical path, declared version, import
/// references (paths of other definition files), and raw definitions.
/// Immutable once parsed.
#[derive(Clone, Debug, PartialEq, Eq)]
pub struct DialectFile {
    pub path: Vec<u8>,
    pub version: u32,
    pub imports: Vec<Vec<u8>>,
    pub enums: Vec<EnumModel>,
    pub messages: Vec<MessageModel>,
}

/// The validated semantic model of one dialect's closure: every enum and
/// message visible after resolving all import references.
#[derive(Clone, Debug, PartialEq, Eq)]
pub struct MessageSet {
    /// The dialect's tag: the root file's base name.
    pub name: Vec<u8>,
    pub version: u32,
    pub enums: Vec<EnumModel>,
    pub messages: Vec<MessageModel>,
}

/// The runtime value of one field: its primitive elements as raw
/// little-endian integers (one element for a scalar). A value of a narrower
/// kind is bounded by the kind's width; floats are raw bit patterns.
#[derive(Clone, Debug, PartialEq, Eq)]
pub struct FieldValue {
    pub elems: Vec<u64>,
}

/// Base fields precede extension fields: the extension flag is monotone over
/// the declaration order.
pub open spec fn base_then_ext(fields: Seq<FieldModel>) -> bool {
    forall|i: int, j: int|
        0 <= i <= j < fields.len() && fields[i].is_extension ==> fields[j].is_extension
}

/// Well-formed field list of a message: every kind well formed, base fields
/// first, and at most 255 fields. The field-count cap has the same ground as
/// the array-length cap: a conforming transport frames a payload with a
/// one-byte length, and every field occupies at least one wire byte, so no
/// message with more than 255 base fields could ever be carried; the
/// checksum's one-byte array-length slot fixes the 255 array bound (see the
/// layout module).
pub open spec fn wf_fields(fields: Seq<FieldModel>) -> bool {
    &&& fields.len() <= 255
    &&& (forall|i: int| 0 <= i < fields.len() ==> (#[trigger] fields[i]).kind.wf())
    &&& base_then_ext(fields)
}

pub open spec fn wf_message(m: MessageModel) -> bool {
    wf_fields(m.fields@)
}

} // verus!
