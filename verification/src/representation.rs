//! The immutable description of a chunk: shape, data type and fill value.
//!
//! Only fixed-width data types are supported; a data type is modelled by its
//! name and its element byte size. The corresponding `zarrs` data type is
//! resolved once at construction and carried along for the codec chain.

use crate::error::CodecPipelineError;
use crate::nd::{checked_num_elements, product};
use crate::text::str_equal;
use vstd::prelude::*;

verus! {

/// A fixed-width element data type.
#[derive(Clone, Copy, Debug, PartialEq, Eq, Structural)]
pub enum ElementType {
    /// One-byte boolean.
    Bool,
    /// Signed one-byte integer.
    Int8,
    /// Signed two-byte integer.
    Int16,
    /// Signed four-byte integer.
    Int32,
    /// Signed eight-byte integer.
    Int64,
    /// Unsigned one-byte integer.
    UInt8,
    /// Unsigned two-byte integer.
    UInt16,
    /// Unsigned four-byte integer.
    UInt32,
    /// Unsigned eight-byte integer.
    UInt64,
    /// Two-byte binary float.
    Float16,
    /// Four-byte binary float.
    Float32,
    /// Eight-byte binary float.
    Float64,
    /// Two-byte brain float.
    BFloat16,
    /// Two four-byte float components.
    Complex64,
    /// Two eight-byte float components.
    Complex128,
}

impl ElementType {
    /// The byte size of one element.
    pub open spec fn spec_size(&self) -> nat {
        match self {
            ElementType::Bool => 1,
            ElementType::Int8 => 1,
            ElementType::Int16 => 2,
            ElementType::Int32 => 4,
            ElementType::Int64 => 8,
            ElementType::UInt8 => 1,
            ElementType::UInt16 => 2,
            ElementType::UInt32 => 4,
            ElementType::UInt64 => 8,
            ElementType::Float16 => 2,
            ElementType::Float32 => 4,
            ElementType::Float64 => 8,
            ElementType::BFloat16 => 2,
            ElementType::Complex64 => 8,
            ElementType::Complex128 => 16,
        }
    }

    /// The data type's name.
    pub open spec fn spec_name(&self) -> Seq<char> {
        match self {
            ElementType::Bool => "bool"@,
            ElementType::Int8 => "int8"@,
            ElementType::Int16 => "int16"@,
            ElementType::Int32 => "int32"@,
            ElementType::Int64 => "int64"@,
            ElementType::UInt8 => "uint8"@,
            ElementType::UInt16 => "uint16"@,
            ElementType::UInt32 => "uint32"@,
            ElementType::UInt64 => "uint64"@,
            ElementType::Float16 => "float16"@,
            ElementType::Float32 => "float32"@,
            ElementType::Float64 => "float64"@,
            ElementType::BFloat16 => "bfloat16"@,
            ElementType::Complex64 => "complex64"@,
            ElementType::Complex128 => "complex128"@,
        }
    }

    /// The byte size of one element.
    pub fn size(&self) -> (r: usize)
        ensures
            r == self.spec_size(),
            r > 0,
    {
        match self {
            ElementType::Bool => 1,
            ElementType::Int8 => 1,
            ElementType::Int16 => 2,
            ElementType::Int32 => 4,
            ElementType::Int64 => 8,
            ElementType::UInt8 => 1,
            ElementType::UInt16 => 2,
            ElementType::UInt32 => 4,
            ElementType::UInt64 => 8,
            ElementType::Float16 => 2,
            ElementType::Float32 => 4,
            ElementType::Float64 => 8,
            ElementType::BFloat16 => 2,
            ElementType::Complex64 => 8,
            ElementType::Complex128 => 16,
        }
    }

    /// The data type's name.
    pub fn name(&self) -> (r: &'static str)
        ensures
            r@ == self.spec_name(),
    {
        match self {
            ElementType::Bool => "bool",
            ElementType::Int8 => "int8",
            ElementType::Int16 => "int16",
            ElementType::Int32 => "int32",
            ElementType::Int64 => "int64",
            ElementType::UInt8 => "uint8",
            ElementType::UInt16 => "uint16",
            ElementType::UInt32 => "uint32",
            ElementType::UInt64 => "uint64",
            ElementType::Float16 => "float16",
            ElementType::Float32 => "float32",
            ElementType::Float64 => "float64",
            ElementType::BFloat16 => "bfloat16",
            ElementType::Complex64 => "complex64",
            ElementType::Complex128 => "complex128",
        }
    }
}

/// The data type a name resolves to, if any.
pub open spec fn parse_element_type_spec(name: Seq<char>) -> Option<ElementType> {
    if name == "bool"@ {
        Some(ElementType::Bool)
    } else if name == "int8"@ {
        Some(ElementType::Int8)
    } else if name == "int16"@ {
        Some(ElementType::Int16)
    } else if name == "int32"@ {
        Some(ElementType::Int32)
    } else if name == "int64"@ {
        Some(ElementType::Int64)
    } else if name == "uint8"@ {
        Some(ElementType::UInt8)
    } else if name == "uint16"@ {
        Some(ElementType::UInt16)
    } else if name == "uint32"@ {
        Some(ElementType::UInt32)
    } else if name == "uint64"@ {
        Some(ElementType::UInt64)
    } else if name == "float16"@ {
        Some(ElementType::Float16)
    } else if name == "float32"@ {
        Some(ElementType::Float32)
    } else if name == "float64"@ {
        Some(ElementType::Float64)
    } else if name == "bfloat16"@ {
        Some(ElementType::BFloat16)
    } else if name == "complex64"@ {
        Some(ElementType::Complex64)
    } else if name == "complex128"@ {
        Some(ElementType::Complex128)
    } else {
        None
    }
}

/// Resolve a data type name to a supported fixed-width data type.
pub fn parse_element_type(name: &str) -> (r: Option<ElementType>)
    ensures
        r == parse_element_type_spec(name@),
{
    if str_equal(name, "bool") {
        Some(ElementType::Bool)
    } else if str_equal(name, "int8") {
        Some(ElementType::Int8)
    } else if str_equal(name, "int16") {
        Some(ElementType::Int16)
    } else if str_equal(name, "int32") {
        Some(ElementType::Int32)
    } else if str_equal(name, "int64") {
        Some(ElementType::Int64)
    } else if str_equal(name, "uint8") {
        Some(ElementType::UInt8)
    } else if str_equal(name, "uint16") {
        Some(ElementType::UInt16)
    } else if str_equal(name, "uint32") {
        Some(ElementType::UInt32)
    } else if str_equal(name, "uint64") {
        Some(ElementType::UInt64)
    } else if str_equal(name, "float16") {
        Some(ElementType::Float16)
    } else if str_equal(name, "float32") {
        Some(ElementType::Float32)
    } else if str_equal(name, "float64") {
        Some(ElementType::Float64)
    } else if str_equal(name, "bfloat16") {
        Some(ElementType::BFloat16)
    } else if str_equal(name, "complex64") {
        Some(ElementType::Complex64)
    } else if str_equal(name, "complex128") {
        Some(ElementType::Complex128)
    } else {
        None
    }
}

/// Whether `a * b` fits the machine's address space.
pub(crate) fn mul_fits_usize(a: u64, b: usize) -> (r: bool)
    ensures
        r == (a as nat * b as nat <= usize::MAX),
{
    proof {
        assert(usize::MAX <= u64::MAX);
        assert(a as nat * b as nat <= u128::MAX) by (nonlinear_arith)
            requires
                a as nat <= u64::MAX,
                b as nat <= u64::MAX,
        ;
    }
    (a as u128) * (b as u128) <= (usize::MAX as u128)
}

/// Whether a shape, data type name and fill value form a valid chunk
/// representation: the name resolves, every dimension is positive, the fill
/// value is one element long and the chunk's byte size fits the address
/// space.
pub open spec fn representation_ok(shape: Seq<u64>, dtype_name: Seq<char>, fill: Seq<u8>) -> bool {
    &&& parse_element_type_spec(dtype_name) is Some
    &&& forall|d: int| 0 <= d < shape.len() ==> #[trigger] shape[d] > 0
    &&& fill.len() == parse_element_type_spec(dtype_name).unwrap().spec_size()
    &&& product(shape) * parse_element_type_spec(dtype_name).unwrap().spec_size() <= usize::MAX
}

/// The error an invalid representation produces: the first failing check of
/// name, dimensions, fill length and byte size.
pub open spec fn representation_error(
    shape: Seq<u64>,
    dtype_name: Seq<char>,
    fill: Seq<u8>,
) -> CodecPipelineError {
    if parse_element_type_spec(dtype_name) is None {
        CodecPipelineError::UnsupportedDataType
    } else if exists|d: int| 0 <= d < shape.len() && #[trigger] shape[d] == 0 {
        CodecPipelineError::ZeroChunkDimension
    } else if fill.len() != parse_element_type_spec(dtype_name).unwrap().spec_size() {
        CodecPipelineError::InvalidFillValueLength
    } else {
        CodecPipelineError::ChunkTooLarge
    }
}

/// The immutable triple describing one chunk: its shape, its element data
/// type and the byte pattern standing for an unwritten element.
pub struct ChunkRepresentation {
    /// The chunk's extent per dimension; every dimension is positive.
    pub shape: Vec<u64>,
    /// The element data type.
    pub data_type: ElementType,
    /// One element's worth of bytes standing for "no data written".
    pub fill_value: Vec<u8>,
}

impl ChunkRepresentation {
    /// A representation is well formed when its dimensions are positive, its
    /// fill value is exactly one element and the chunk's byte size fits the
    /// machine's address space.
    pub open spec fn wf(&self) -> bool {
        &&& forall|d: int| 0 <= d < self.shape@.len() ==> #[trigger] self.shape@[d] > 0
        &&& self.fill_value@.len() == self.data_type.spec_size()
        &&& self.data_type.spec_size() > 0
        &&& product(self.shape@) * self.data_type.spec_size() <= usize::MAX
    }

    /// The chunk's element count.
    pub open spec fn spec_num_elements(&self) -> nat {
        product(self.shape@)
    }

    /// One element's byte size.
    pub open spec fn spec_size(&self) -> nat {
        self.data_type.spec_size()
    }

    /// Validate and build a chunk representation: a pure function of its
    /// inputs, succeeding exactly when they form a valid representation.
    ///
    /// The data type name must resolve to a supported fixed-width type, no
    /// chunk dimension may be zero, the fill value must be exactly one
    /// element long, and the chunk's byte size must fit the address space.
    pub fn new(shape: Vec<u64>, dtype_name: &str, fill_value: Vec<u8>) -> (r: Result<
        ChunkRepresentation,
        CodecPipelineError,
    >)
        ensures
            r is Ok <==> representation_ok(shape@, dtype_name@, fill_value@),
            match r {
                Ok(rep) => {
                    &&& rep.wf()
                    &&& rep.shape@ == shape@
                    &&& rep.fill_value@ == fill_value@
                    &&& Some(rep.data_type) == parse_element_type_spec(dtype_name@)
                },
                Err(e) => e == representation_error(shape@, dtype_name@, fill_value@),
            },
    {
        let data_type = match parse_element_type(dtype_name) {
            Some(dt) => dt,
            None => {
                return Err(CodecPipelineError::UnsupportedDataType);
            },
        };
        let mut d: usize = 0;
        while d < shape.len()
            invariant
                0 <= d <= shape@.len(),
                parse_element_type_spec(dtype_name@) == Some(data_type),
                forall|i: int| 0 <= i < d ==> #[trigger] shape@[i] > 0,
            decreases shape@.len() - d,
        {
            if shape[d] == 0 {
                proof {
                    assert(shape@[d as int] == 0);
                }
                return Err(CodecPipelineError::ZeroChunkDimension);
            }
            d += 1;
        }
        let size = data_type.size();
        if fill_value.len() != size {
            return Err(CodecPipelineError::InvalidFillValueLength);
        }
        let num = match checked_num_elements(&shape) {
            Some(n) => n,
            None => {
                proof {
                    assert(usize::MAX <= u64::MAX);
                    assert(product(shape@) * data_type.spec_size() >= product(shape@))
                        by (nonlinear_arith)
                        requires
                            data_type.spec_size() >= 1,
                            product(shape@) >= 0,
                    ;
                }
                return Err(CodecPipelineError::ChunkTooLarge);
            },
        };
        if !mul_fits_usize(num, size) {
            return Err(CodecPipelineError::ChunkTooLarge);
        }
        Ok(ChunkRepresentation { shape, data_type, fill_value })
    }

    /// The chunk's element count.
    pub fn num_elements(&self) -> (r: u64)
        requires
            self.wf(),
        ensures
            r as nat == self.spec_num_elements(),
    {
        proof {
            assert(product(self.shape@) <= product(self.shape@) * self.data_type.spec_size())
                by (nonlinear_arith)
                requires
                    self.data_type.spec_size() >= 1,
                    product(self.shape@) >= 0,
            ;
            assert(usize::MAX <= u64::MAX);
        }
        match checked_num_elements(&self.shape) {
            Some(n) => n,
            None => {
                proof {
                    assert(false);
                }
                0
            },
        }
    }
}

} // verus!
