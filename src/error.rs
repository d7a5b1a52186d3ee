use vstd::prelude::*;

verus! {

/// Alignment, in bytes, asked of a blob's base address.
pub const ALIGN: usize = 8;

/// What went wrong while reading or writing a blob.
#[allow(inconsistent_fields)]
#[derive(Debug, Clone, Copy, PartialEq, Eq)]
pub enum ErrorType {
    Unaligned { ptr_value: usize, align: usize },
    InvalidMagic { wrong_magic: u32 },
    IncompatibleVersion { last_comp_version: u32, library_supported_version: u32 },
    HeaderTooShort { header_length: u32, at_least_length: u32 },
    StructureIndex {
        current_index: u32,
        bound_index: u32,
        structure_or_string: bool,
        overflow_or_underflow: bool,
    },
    U32IndexSpace { current_index: u32 },
    StringEofUnexpected,
    SliceEofUnexpected { expected_length: u32, remaining_length: u32 },
    TableStringOffset { given_offset: u32, bound_offset: u32 },
    TagEofUnexpected { current_index: u32, bound_index: u32 },
    InvalidTagId { wrong_id: u32 },
    ExpectStructBegin,
    ExpectStructEnd,
    NoRemainingTags,
    InvalidSerdeTypeLength { expected_length: u8 },
    DeserializeNotComplete,
    /// Bytes that should be UTF-8 are not; the field is the length of the valid prefix.
    Utf8 { valid_up_to: usize },
}

/// An error with the byte index in the blob where it was found
/// (0 when it was found before parsing began).
#[derive(Debug, Clone, PartialEq, Eq)]
pub enum Error {
    Typed { error_type: ErrorType, file_index: usize },
    Custom(String),
}

/// The result type of the blob reader.
pub type Result<T> = core::result::Result<T, Error>;

impl Error {
    pub open spec fn typed(error_type: ErrorType, file_index: usize) -> Error {
        Error::Typed { error_type, file_index }
    }

    pub fn unaligned(ptr_value: usize) -> (r: Error)
        ensures
            r == Error::typed(ErrorType::Unaligned { ptr_value, align: ALIGN }, 0),
    {
        Error::Typed { error_type: ErrorType::Unaligned { ptr_value, align: ALIGN }, file_index: 0 }
    }

    pub fn invalid_magic(wrong_magic: u32) -> (r: Error)
        ensures
            r == Error::typed(ErrorType::InvalidMagic { wrong_magic }, 0),
    {
        Error::Typed { error_type: ErrorType::InvalidMagic { wrong_magic }, file_index: 0 }
    }

    pub fn incompatible_version(
        last_comp_version: u32,
        library_supported_version: u32,
        file_index: usize,
    ) -> (r: Error)
        ensures
            r == Error::typed(
                ErrorType::IncompatibleVersion { last_comp_version, library_supported_version },
                file_index,
            ),
    {
        Error::Typed {
            error_type: ErrorType::IncompatibleVersion {
                last_comp_version,
                library_supported_version,
            },
            file_index,
        }
    }

    pub fn header_too_short(header_length: u32, at_least_length: u32, file_index: usize) -> (r:
        Error)
        ensures
            r == Error::typed(
                ErrorType::HeaderTooShort { header_length, at_least_length },
                file_index,
            ),
    {
        Error::Typed {
            error_type: ErrorType::HeaderTooShort { header_length, at_least_length },
            file_index,
        }
    }

    pub fn u32_index_space_overflow(current_index: u32, file_index: usize) -> (r: Error)
        ensures
            r == Error::typed(ErrorType::U32IndexSpace { current_index }, file_index),
    {
        Error::Typed { error_type: ErrorType::U32IndexSpace { current_index }, file_index }
    }

    pub open spec fn index_error(
        current_index: u32,
        bound_index: u32,
        structure_or_string: bool,
        overflow_or_underflow: bool,
        file_index: usize,
    ) -> Error {
        Error::typed(
            ErrorType::StructureIndex {
                current_index,
                bound_index,
                structure_or_string,
                overflow_or_underflow,
            },
            file_index,
        )
    }

    pub fn structure_index_underflow(begin_index: u32, at_least_index: u32, file_index: usize) -> (r:
        Error)
        ensures
            r == Error::index_error(begin_index, at_least_index, true, false, file_index),
    {
        Error::Typed {
            error_type: ErrorType::StructureIndex {
                current_index: begin_index,
                bound_index: at_least_index,
                structure_or_string: true,
                overflow_or_underflow: false,
            },
            file_index,
        }
    }

    pub fn structure_index_overflow(end_index: u32, at_most_index: u32, file_index: usize) -> (r:
        Error)
        ensures
            r == Error::index_error(end_index, at_most_index, true, true, file_index),
    {
        Error::Typed {
            error_type: ErrorType::StructureIndex {
                current_index: end_index,
                bound_index: at_most_index,
                structure_or_string: true,
                overflow_or_underflow: true,
            },
            file_index,
        }
    }

    pub fn string_index_underflow(begin_index: u32, at_least_index: u32, file_index: usize) -> (r:
        Error)
        ensures
            r == Error::index_error(begin_index, at_least_index, false, false, file_index),
    {
        Error::Typed {
            error_type: ErrorType::StructureIndex {
                current_index: begin_index,
                bound_index: at_least_index,
                structure_or_string: false,
                overflow_or_underflow: false,
            },
            file_index,
        }
    }

    pub fn string_index_overflow(end_index: u32, at_most_index: u32, file_index: usize) -> (r:
        Error)
        ensures
            r == Error::index_error(end_index, at_most_index, false, true, file_index),
    {
        Error::Typed {
            error_type: ErrorType::StructureIndex {
                current_index: end_index,
                bound_index: at_most_index,
                structure_or_string: false,
                overflow_or_underflow: true,
            },
            file_index,
        }
    }

    pub fn mem_rsvmap_index_underflow(begin_index: u32, at_least_index: u32, file_index: usize) -> (r:
        Error)
        ensures
            r == Error::index_error(begin_index, at_least_index, false, false, file_index),
    {
        Error::Typed {
            error_type: ErrorType::StructureIndex {
                current_index: begin_index,
                bound_index: at_least_index,
                structure_or_string: false,
                overflow_or_underflow: false,
            },
            file_index,
        }
    }

    pub fn string_eof_unpexpected(file_index: usize) -> (r: Error)
        ensures
            r == Error::typed(ErrorType::StringEofUnexpected, file_index),
    {
        Error::Typed { error_type: ErrorType::StringEofUnexpected, file_index }
    }

    pub fn slice_eof_unpexpected(expected_length: u32, remaining_length: u32, file_index: usize) -> (r:
        Error)
        ensures
            r == Error::typed(
                ErrorType::SliceEofUnexpected { expected_length, remaining_length },
                file_index,
            ),
    {
        Error::Typed {
            error_type: ErrorType::SliceEofUnexpected { expected_length, remaining_length },
            file_index,
        }
    }

    pub fn table_string_offset(given_offset: u32, bound_offset: u32, file_index: usize) -> (r:
        Error)
        ensures
            r == Error::typed(
                ErrorType::TableStringOffset { given_offset, bound_offset },
                file_index,
            ),
    {
        Error::Typed {
            error_type: ErrorType::TableStringOffset { given_offset, bound_offset },
            file_index,
        }
    }

    pub fn tag_eof_unexpected(current_index: u32, bound_index: u32, file_index: usize) -> (r:
        Error)
        ensures
            r == Error::typed(
                ErrorType::TagEofUnexpected { current_index, bound_index },
                file_index,
            ),
    {
        Error::Typed {
            error_type: ErrorType::TagEofUnexpected { current_index, bound_index },
            file_index,
        }
    }

    pub fn invalid_tag_id(wrong_id: u32, file_index: usize) -> (r: Error)
        ensures
            r == Error::typed(ErrorType::InvalidTagId { wrong_id }, file_index),
    {
        Error::Typed { error_type: ErrorType::InvalidTagId { wrong_id }, file_index }
    }

    pub fn invalid_serde_type_length(expected_length: u8, file_index: usize) -> (r: Error)
        ensures
            r == Error::typed(ErrorType::InvalidSerdeTypeLength { expected_length }, file_index),
    {
        Error::Typed { error_type: ErrorType::InvalidSerdeTypeLength { expected_length }, file_index }
    }

    pub fn deserialize_not_complete(file_index: usize) -> (r: Error)
        ensures
            r == Error::typed(ErrorType::DeserializeNotComplete, file_index),
    {
        Error::Typed { error_type: ErrorType::DeserializeNotComplete, file_index }
    }

    pub fn utf8(valid_up_to: usize, file_index: usize) -> (r: Error)
        ensures
            r == Error::typed(ErrorType::Utf8 { valid_up_to }, file_index),
    {
        Error::Typed { error_type: ErrorType::Utf8 { valid_up_to }, file_index }
    }

    pub fn expected_struct_begin() -> (r: Error)
        ensures
            r == Error::typed(ErrorType::ExpectStructBegin, 0),
    {
        Error::Typed { error_type: ErrorType::ExpectStructBegin, file_index: 0 }
    }

    pub fn expected_struct_end() -> (r: Error)
        ensures
            r == Error::typed(ErrorType::ExpectStructEnd, 0),
    {
        Error::Typed { error_type: ErrorType::ExpectStructEnd, file_index: 0 }
    }

    pub fn no_remaining_tags() -> (r: Error)
        ensures
            r == Error::typed(ErrorType::NoRemainingTags, 0),
    {
        Error::Typed { error_type: ErrorType::NoRemainingTags, file_index: 0 }
    }
}

} // verus!
