//! Core value and schema vocabulary: field values, field types, access modes,
//! resource kinds, the error taxonomy, and the field view handed to callers.

use vstd::prelude::*;

verus! {

/// Everything the store can fail with. Lookup errors name an identifier that
/// was never registered; `MalformedStructure` flags a structurally invalid
/// request; the remaining variants are reserved for the persistence layer
/// around the library (directory/file creation and raw file access).
#[derive(Debug)]
pub enum DatabaseError {
    GenericError,
    FailedToLoadFile(String),
    FailedToSaveFile(String),
    FileNotFound(String),
    CouldNotOpenFile(String),
    CouldNotCreateFile(String),
    CouldNotCreateDirectory(String),
    ComponentNotDefined(String),
    ResourceNotDefined(String),
    InstanceNotDefined(String),
    MalformedStructure(String),
}

pub type DBResult<T> = Result<T, DatabaseError>;

/// A stored field value: a closed tagged union over the primitive shapes the
/// store persists. The two float variants carry the raw IEEE-754 bit
/// patterns (as returned by `f32::to_bits` / `f64::to_bits`) so that values
/// round-trip through the encoder exactly, bit for bit.
#[allow(non_camel_case_types)]
#[derive(Debug, PartialEq)]
pub enum Data {
    BOOL(bool),
    CHAR(char),
    SIGNED_INT_8(i8),
    SIGNED_INT_16(i16),
    SIGNED_INT_32(i32),
    SIGNED_INT_64(i64),
    UNSIGNED_INT_8(u8),
    UNSIGNED_INT_16(u16),
    UNSIGNED_INT_32(u32),
    UNSIGNED_INT_64(u64),
    FLOAT_32(u32),
    FLOAT_64(u64),
    STRING(String),
}

/// The mathematical shape of a `Data` value: the same union with the string
/// payload abstracted to its character sequence.
#[allow(non_camel_case_types)]
pub ghost enum DataAbs {
    BOOL(bool),
    CHAR(char),
    SIGNED_INT_8(i8),
    SIGNED_INT_16(i16),
    SIGNED_INT_32(i32),
    SIGNED_INT_64(i64),
    UNSIGNED_INT_8(u8),
    UNSIGNED_INT_16(u16),
    UNSIGNED_INT_32(u32),
    UNSIGNED_INT_64(u64),
    FLOAT_32(u32),
    FLOAT_64(u64),
    STRING(Seq<char>),
}

impl Data {
    /// The value with its string payload, if any, abstracted to a `Seq<char>`.
    pub open spec fn abs(self) -> DataAbs {
        match self {
            Data::BOOL(d) => DataAbs::BOOL(d),
            Data::CHAR(d) => DataAbs::CHAR(d),
            Data::SIGNED_INT_8(d) => DataAbs::SIGNED_INT_8(d),
            Data::SIGNED_INT_16(d) => DataAbs::SIGNED_INT_16(d),
            Data::SIGNED_INT_32(d) => DataAbs::SIGNED_INT_32(d),
            Data::SIGNED_INT_64(d) => DataAbs::SIGNED_INT_64(d),
            Data::UNSIGNED_INT_8(d) => DataAbs::UNSIGNED_INT_8(d),
            Data::UNSIGNED_INT_16(d) => DataAbs::UNSIGNED_INT_16(d),
            Data::UNSIGNED_INT_32(d) => DataAbs::UNSIGNED_INT_32(d),
            Data::UNSIGNED_INT_64(d) => DataAbs::UNSIGNED_INT_64(d),
            Data::FLOAT_32(d) => DataAbs::FLOAT_32(d),
            Data::FLOAT_64(d) => DataAbs::FLOAT_64(d),
            Data::STRING(d) => DataAbs::STRING(d@),
        }
    }

    /// The default for an unset slot: the empty string variant.
    pub open spec fn is_default(self) -> bool {
        self matches Data::STRING(s) && s@ == Seq::<char>::empty()
    }

    /// An explicit deep copy; the result equals the copied value.
    pub fn copy(&self) -> (r: Data)
        ensures
            r == *self,
    {
        match self {
            Data::BOOL(d) => Data::BOOL(*d),
            Data::CHAR(d) => Data::CHAR(*d),
            Data::SIGNED_INT_8(d) => Data::SIGNED_INT_8(*d),
            Data::SIGNED_INT_16(d) => Data::SIGNED_INT_16(*d),
            Data::SIGNED_INT_32(d) => Data::SIGNED_INT_32(*d),
            Data::SIGNED_INT_64(d) => Data::SIGNED_INT_64(*d),
            Data::UNSIGNED_INT_8(d) => Data::UNSIGNED_INT_8(*d),
            Data::UNSIGNED_INT_16(d) => Data::UNSIGNED_INT_16(*d),
            Data::UNSIGNED_INT_32(d) => Data::UNSIGNED_INT_32(*d),
            Data::UNSIGNED_INT_64(d) => Data::UNSIGNED_INT_64(*d),
            Data::FLOAT_32(d) => Data::FLOAT_32(*d),
            Data::FLOAT_64(d) => Data::FLOAT_64(*d),
            Data::STRING(d) => Data::STRING(d.clone()),
        }
    }

    /// The default value itself: an empty string slot.
    pub fn default_value() -> (r: Data)
        ensures
            r.is_default(),
    {
        Data::STRING(String::new())
    }
}

/// The declared type of a component (field).
#[derive(Copy, Clone, Debug, PartialEq, Eq, Structural)]
pub enum DataType {
    UINT,
    INT,
    STRING,
    PASSWORD,
}

/// The access mode a component is bound with inside a resource's model.
#[allow(non_camel_case_types)]
#[derive(Copy, Clone, Debug, PartialEq, Eq, Structural)]
pub enum DataIO {
    /// Read only: surfaced on load, never overwritten by a save.
    DB_READ_ONLY,
    /// Write only: accepted on save, not meant to surface a current value.
    DB_INPUT,
    /// Read/write: surfaced on load and overwritten by a save.
    DB_BOTH,
    /// Not tied to a stored slot at all; the field exists purely for input
    /// processing (for example credentials on a login form).
    STATIC,
}

/// The kind of a resource.
#[derive(Copy, Clone, Debug, PartialEq, Eq, Structural)]
pub enum ResourceIO {
    /// A form resource has one or more externally identified instances.
    FORM,
    /// A static resource has exactly one implicit instance and may only bind
    /// components with the `STATIC` access mode.
    STATIC,
}

/// One field of a loaded model: the component's identity and declared type,
/// the access mode it is bound with in this resource, and its current value.
#[derive(Debug, PartialEq)]
pub struct ComponentInstance {
    pub component_id: usize,
    pub component_name: String,
    pub component_data_type: DataType,
    pub component_io_type: DataIO,
    pub data: Data,
}

} // verus!
