//! Message formats, as FMT records declare them.
use crate::text::{decode_text, label_list, lemma_ascii_trimmed, split_labels, trim_nul, trim_nul_chars, trim_nul_string};
use vstd::prelude::*;
use vstd::slice::slice_subrange;
use vstd::utf8::{decode_utf8, valid_utf8};

verus! {

/// First header byte of every record.
pub const HEAD1: u8 = 0xA3;

/// Second header byte of every record.
pub const HEAD2: u8 = 0x95;

/// Message type of FMT records.
pub const MSG_ID_FMT: u8 = 0x80;

/// Bytes of the name in an FMT body.
pub const NAME_LEN: usize = 4;

/// Bytes of the format string in an FMT body.
pub const FORMAT_LEN: usize = 16;

/// Bytes of the labels in an FMT body.
pub const LABELS_LEN: usize = 64;

/// Bytes of an FMT body: name, format string, labels.
pub const FMT_BODY_LEN: usize = 84;

/// The text part of an FMT body.
#[derive(Debug, Clone, Copy, PartialEq, Eq)]
pub enum FmtPart {
    Name,
    Format,
    Labels,
}

/// Why a log could not be read.
#[derive(Debug, Clone, Copy, PartialEq, Eq)]
pub enum LogError {
    /// A text part of the FMT record for `msg_type` is not valid UTF-8.
    InvalidText { msg_type: u8, part: FmtPart },
    /// A message of type `msg_type` reached a format character that names no
    /// field type.
    UnknownFieldType { msg_type: u8, format_char: char },
}

/// The layout of one message type.
#[derive(Debug, Clone)]
pub struct MessageFormat {
    /// The message type.
    pub id: u8,
    /// The record length that the FMT record states (header included).
    pub length: u8,
    /// The name, such as `PARM`.
    pub name: String,
    /// One character per field.
    pub format: Vec<char>,
    /// The field labels.
    pub labels: Vec<String>,
}

/// The mathematical value of a [`MessageFormat`].
pub struct FormatSpec {
    pub id: u8,
    pub length: u8,
    pub name: Seq<char>,
    pub format: Seq<char>,
    pub labels: Seq<Seq<char>>,
}

impl View for MessageFormat {
    type V = FormatSpec;

    open spec fn view(&self) -> FormatSpec {
        FormatSpec {
            id: self.id,
            length: self.length,
            name: self.name@,
            format: self.format@,
            labels: self.labels@.map_values(|s: String| s@),
        }
    }
}

/// The format that an FMT record for `msg_type` with the 84-byte `body`
/// declares. The labels are decoded first, then the name, then the format
/// string; the first that is not UTF-8 is the error.
pub open spec fn format_record(msg_type: u8, length: u8, body: Seq<u8>) -> Result<
    FormatSpec,
    LogError,
> {
    let name = body.subrange(0, 4);
    let format = body.subrange(4, 20);
    let labels = body.subrange(20, 84);
    if !valid_utf8(labels) {
        Err(LogError::InvalidText { msg_type, part: FmtPart::Labels })
    } else if !valid_utf8(name) {
        Err(LogError::InvalidText { msg_type, part: FmtPart::Name })
    } else if !valid_utf8(format) {
        Err(LogError::InvalidText { msg_type, part: FmtPart::Format })
    } else {
        Ok(
            FormatSpec {
                id: msg_type,
                length,
                name: trim_nul(decode_utf8(name)),
                format: trim_nul(decode_utf8(format)),
                labels: label_list(decode_utf8(labels)),
            },
        )
    }
}

/// Decodes the FMT body for `msg_type` that starts at `pos`.
pub fn decode_format_record(msg_type: u8, length: u8, data: &[u8], pos: usize) -> (r: Result<
    MessageFormat,
    LogError,
>)
    requires
        pos + FMT_BODY_LEN <= data.len(),
    ensures
        match r {
            Ok(f) => format_record(msg_type, length, data@.subrange(pos as int, pos + 84)) == Ok::<
                FormatSpec,
                LogError,
            >(f@),
            Err(e) => format_record(msg_type, length, data@.subrange(pos as int, pos + 84))
                == Err::<FormatSpec, LogError>(e),
        },
{
    let ghost body = data@.subrange(pos as int, pos + 84);
    let name_bytes = slice_subrange(data, pos, pos + 4);
    let format_bytes = slice_subrange(data, pos + 4, pos + 20);
    let label_bytes = slice_subrange(data, pos + 20, pos + 84);
    assert(name_bytes@ =~= body.subrange(0, 4));
    assert(format_bytes@ =~= body.subrange(4, 20));
    assert(label_bytes@ =~= body.subrange(20, 84));
    let labels_text = match decode_text(label_bytes) {
        Some(s) => s,
        None => {
            return Err(LogError::InvalidText { msg_type, part: FmtPart::Labels });
        },
    };
    let labels = split_labels(labels_text);
    let name_text = match decode_text(name_bytes) {
        Some(s) => s,
        None => {
            return Err(LogError::InvalidText { msg_type, part: FmtPart::Name });
        },
    };
    let name = trim_nul_string(name_text);
    let format_text = match decode_text(format_bytes) {
        Some(s) => s,
        None => {
            return Err(LogError::InvalidText { msg_type, part: FmtPart::Format });
        },
    };
    let format = trim_nul_chars(format_text);
    Ok(MessageFormat { id: msg_type, length, name, format, labels })
}

/// For an FMT body whose name and format string are ASCII and whose labels
/// are UTF-8, the record is read, and its name and format string are the
/// whole 4-byte and 16-byte fields up to their NUL padding: each character
/// is the byte at its place, and every byte after them in the field is 0.
pub proof fn lemma_format_record_text(msg_type: u8, length: u8, body: Seq<u8>)
    requires
        body.len() == 84,
        forall|j: int| 0 <= j < 20 ==> body[j] < 0x80,
        valid_utf8(body.subrange(20, 84)),
    ensures
        format_record(msg_type, length, body) is Ok,
        ({
            let f = format_record(msg_type, length, body)->Ok_0;
            &&& f.id == msg_type
            &&& f.length == length
            &&& f.name.len() <= 4
            &&& forall|i: int| 0 <= i < f.name.len() ==> f.name[i] as u32 == body[i] as u32
            &&& forall|j: int| f.name.len() <= j < 4 ==> body[j] == 0
            &&& f.name.len() > 0 ==> body[f.name.len() - 1] != 0
            &&& f.format.len() <= 16
            &&& forall|i: int|
                0 <= i < f.format.len() ==> f.format[i] as u32 == body[4 + i] as u32
            &&& forall|j: int| 4 + f.format.len() <= j < 20 ==> body[j] == 0
            &&& f.format.len() > 0 ==> body[4 + f.format.len() - 1] != 0
        }),
{
    let name = body.subrange(0, 4);
    let format = body.subrange(4, 20);
    lemma_ascii_trimmed(name);
    lemma_ascii_trimmed(format);
    let f = format_record(msg_type, length, body)->Ok_0;
    assert forall|i: int| 0 <= i < f.name.len() implies f.name[i] as u32 == body[i] as u32 by {
        assert(name[i] == body[i]);
    }
    assert forall|j: int| f.name.len() <= j < 4 implies body[j] == 0 by {
        assert(name[j] == body[j]);
    }
    if f.name.len() > 0 {
        assert(name[f.name.len() - 1] == body[f.name.len() - 1]);
    }
    assert forall|i: int| 0 <= i < f.format.len() implies f.format[i] as u32 == body[4
        + i] as u32 by {
        assert(format[i] == body[4 + i]);
    }
    assert forall|j: int| 4 + f.format.len() <= j < 20 implies body[j] == 0 by {
        assert(format[j - 4] == body[j]);
    }
    if f.format.len() > 0 {
        assert(format[f.format.len() - 1] == body[4 + f.format.len() - 1]);
    }
}

} // verus!
