//! Why a `.ply` file cannot be read.

use vstd::prelude::*;

use crate::text::{decimal, decimal_of, string_of};

verus! {

/// What kind of failure an error is.
#[derive(Clone, Copy, Debug, PartialEq, Eq, Structural)]
pub enum ErrorKind {
    /// The file does not hold what it should.
    InvalidData,
    /// The file is too short.
    UnexpectedEof,
}

/// Why a `.ply` file cannot be read.
#[derive(Debug, PartialEq, Eq)]
pub enum PlyError {
    /// The header does not end.
    NoEndHeader,
    /// The body is binary with the most significant byte first.
    BigEndian,
    /// A vertex lacks a property of a gaussian.
    MissingProperty { name: String },
    /// The file is too short for its vertices.
    BodyTruncated {
        /// The number of vertices.
        count: usize,
        /// The size of a vertex record.
        stride: usize,
        /// Where the first record begins.
        data_start: usize,
        /// The number of properties of a vertex.
        properties: usize,
        /// The size of the file.
        file_len: usize,
        /// The property types of unknown size.
        unknown: Vec<String>,
    },
    /// A number begins less than four bytes before the end of the file, in a property of a
    /// smaller type.
    FieldPastEnd,
}

/// The smaller of `n` and the largest `usize`.
pub open spec fn saturated(n: nat) -> nat {
    if n <= usize::MAX {
        n
    } else {
        usize::MAX as nat
    }
}

/// The size that a file of `count` records of `stride` bytes behind `data_start` should have.
pub fn expected_size(count: usize, stride: usize, data_start: usize) -> (size: usize)
    ensures
        size == saturated(data_start as nat + count as nat * stride as nat),
        data_start + count * stride <= usize::MAX ==> size == data_start + count * stride,
        data_start + count * stride > usize::MAX ==> size == usize::MAX,
{
    match count.checked_mul(stride) {
        Some(body) => data_start.saturating_add(body),
        None => usize::MAX,
    }
}

/// How `Debug` writes a list of strings.
pub uninterp spec fn debug_list_of(list: Seq<Seq<char>>) -> Seq<char>;

/// `format!` with `{:?}` on a list of strings: the text depends on the strings alone. How they are
/// quoted and escaped is left to the name.
#[verifier::external_body]
fn debug_list(list: &Vec<String>) -> (text: String)
    ensures
        text@ == debug_list_of(list.deep_view()),
{
    format!("{:?}", list)
}

/// What a message says of property types of unknown size.
pub open spec fn unknown_note(unknown: Seq<Seq<char>>) -> Seq<char> {
    if unknown.len() == 0 {
        seq![]
    } else {
        " — unrecognized property types "@ + debug_list_of(unknown)
            + " were sized as 4 bytes, which likely made the stride wrong (compressed/half-float .ply?)"@
    }
}

impl PlyError {
    /// What kind of failure the error is.
    pub open spec fn kind_of(self) -> ErrorKind {
        if self is BodyTruncated || self is FieldPastEnd {
            ErrorKind::UnexpectedEof
        } else {
            ErrorKind::InvalidData
        }
    }

    /// What kind of failure the error is.
    pub fn kind(&self) -> (kind: ErrorKind)
        ensures
            kind == self.kind_of(),
    {
        match self {
            PlyError::BodyTruncated { .. } | PlyError::FieldPastEnd => ErrorKind::UnexpectedEof,
            _ => ErrorKind::InvalidData,
        }
    }

    /// The error in words.
    pub open spec fn message_of(self) -> Seq<char> {
        match self {
            PlyError::NoEndHeader => "no end_header"@,
            PlyError::BigEndian => "binary_big_endian .ply not supported"@,
            PlyError::MissingProperty { name } => "missing property "@ + name@,
            PlyError::BodyTruncated { count, stride, data_start, properties, file_len, unknown } =>
                "ply body truncated: expected "@ + decimal_of(
                    saturated(data_start as nat + count as nat * stride as nat),
                ) + " bytes ("@ + decimal_of(count as nat) + " verts × "@ + decimal_of(
                    stride as nat,
                ) + "-byte record + "@ + decimal_of(data_start as nat) + " header, "@ + decimal_of(
                    properties as nat,
                ) + " properties) but the file is "@ + decimal_of(file_len as nat) + " bytes"@
                    + unknown_note(unknown.deep_view()),
            PlyError::FieldPastEnd => "a property reaches past the end of the file"@,
        }
    }

    /// The error in words.
    pub fn message(&self) -> (text: String)
        ensures
            text@ == self.message_of(),
    {
        let mut text = String::new();
        match self {
            PlyError::NoEndHeader => text.append("no end_header"),
            PlyError::BigEndian => text.append("binary_big_endian .ply not supported"),
            PlyError::MissingProperty { name } => {
                text.append("missing property ");
                text.append(name.as_str());
            },
            PlyError::BodyTruncated { count, stride, data_start, properties, file_len, unknown } => {
                text.append("ply body truncated: expected ");
                append_number(&mut text, expected_size(*count, *stride, *data_start));
                text.append(" bytes (");
                append_number(&mut text, *count);
                text.append(" verts × ");
                append_number(&mut text, *stride);
                text.append("-byte record + ");
                append_number(&mut text, *data_start);
                text.append(" header, ");
                append_number(&mut text, *properties);
                text.append(" properties) but the file is ");
                append_number(&mut text, *file_len);
                text.append(" bytes");
                if unknown.len() > 0 {
                    text.append(" — unrecognized property types ");
                    let list = debug_list(unknown);
                    text.append(list.as_str());
                    text.append(
                        " were sized as 4 bytes, which likely made the stride wrong (compressed/half-float .ply?)",
                    );
                }
            },
            PlyError::FieldPastEnd => text.append("a property reaches past the end of the file"),
        }
        assert(text@ =~= self.message_of());
        text
    }
}

/// Appends `n` in decimal.
fn append_number(text: &mut String, n: usize)
    ensures
        final(text)@ == old(text)@ + decimal_of(n as nat),
{
    let digits = string_of(decimal(n as u64).as_slice());
    text.append(digits.as_str());
}

/// What each error says, for all that it can hold. The message of a body that is too short names
/// the expected size, the number of vertices, the size of a record, where the body begins, the
/// number of properties and the size of the file, in this order, and then the unknown types.
pub proof fn lemma_messages(error: PlyError)
    ensures
        error is NoEndHeader ==> error.message_of() == "no end_header"@,
        error is BigEndian ==> error.message_of() == "binary_big_endian .ply not supported"@,
        error matches PlyError::MissingProperty { name } ==> error.message_of()
            == "missing property "@ + name@,
        error matches PlyError::BodyTruncated {
            count,
            stride,
            data_start,
            properties,
            file_len,
            unknown,
        } ==> {
            let expected = data_start + count * stride;
            let told = if expected <= usize::MAX {
                expected as nat
            } else {
                usize::MAX as nat
            };
            let sizes = "ply body truncated: expected "@ + decimal_of(told) + " bytes ("@
                + decimal_of(count as nat) + " verts × "@ + decimal_of(stride as nat)
                + "-byte record + "@ + decimal_of(data_start as nat) + " header, "@ + decimal_of(
                properties as nat,
            ) + " properties) but the file is "@ + decimal_of(file_len as nat) + " bytes"@;
            &&& unknown@.len() == 0 ==> error.message_of() == sizes
            &&& unknown@.len() > 0 ==> error.message_of() == sizes + (
            " — unrecognized property types "@ + debug_list_of(unknown.deep_view())
                + " were sized as 4 bytes, which likely made the stride wrong (compressed/half-float .ply?)"@)
        },
{
    if let PlyError::BodyTruncated { count, stride, data_start, properties, file_len, unknown } =
        error {
        assert(unknown.deep_view().len() == unknown@.len());
        assert(count as nat * stride as nat >= 0) by (nonlinear_arith);
        if unknown@.len() == 0 {
            assert(unknown_note(unknown.deep_view()) =~= Seq::<char>::empty());
        }
    }
}

/// A file that is too short ends unexpectedly; all other failures are of what it holds.
pub proof fn lemma_kinds(error: PlyError)
    ensures
        error is BodyTruncated || error is FieldPastEnd <==> error.kind_of()
            == ErrorKind::UnexpectedEof,
        error is NoEndHeader || error is BigEndian || error is MissingProperty <==> error.kind_of()
            == ErrorKind::InvalidData,
{
}

} // verus!
