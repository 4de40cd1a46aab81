//! Reading a whole log: the record stream, FMT records and message rows.
use crate::field::{decode_field, field_size, field_value, field_width, FieldValue, FormatType};
use crate::format::{
    decode_format_record, format_record, FormatSpec, LogError, MessageFormat, FMT_BODY_LEN, HEAD1,
    HEAD2, MSG_ID_FMT,
};
use std::collections::HashMap;
use vstd::prelude::*;
use vstd::string::StrSliceExecFns;

verus! {

broadcast use vstd::std_specs::hash::group_hash_axioms;

/// What a log holds, as the contracts speak of it.
pub struct LogState {
    /// The format of each message type that an FMT record declared.
    pub formats: Map<u8, FormatSpec>,
    /// The rows read for each message type, in the order of the log.
    pub messages: Map<u8, Seq<Seq<FieldValue>>>,
    /// The type of the format named `PARM`, if one was declared.
    pub param_id: Option<u8>,
    /// The type of the format named `UNIT`, if one was declared.
    pub unit_id: Option<u8>,
    /// The type of the format named `FMTU`, if one was declared.
    pub format_unit_id: Option<u8>,
    /// The type of the format named `MULT`, if one was declared.
    pub mult_id: Option<u8>,
}

/// The state before the first record.
pub open spec fn empty_state() -> LogState {
    LogState {
        formats: Map::empty(),
        messages: Map::empty(),
        param_id: None,
        unit_id: None,
        format_unit_id: None,
        mult_id: None,
    }
}

/// Records `id` as the type of a special format when `name` is one.
pub open spec fn note_name(st: LogState, name: Seq<char>, id: u8) -> LogState {
    if name == seq!['P', 'A', 'R', 'M'] {
        LogState { param_id: Some(id), ..st }
    } else if name == seq!['U', 'N', 'I', 'T'] {
        LogState { unit_id: Some(id), ..st }
    } else if name == seq!['F', 'M', 'T', 'U'] {
        LogState { format_unit_id: Some(id), ..st }
    } else if name == seq!['M', 'U', 'L', 'T'] {
        LogState { mult_id: Some(id), ..st }
    } else {
        st
    }
}

/// The state once the format `f` is declared: it is stored under its
/// type, that type gets an empty row list, and a special name is noted.
pub open spec fn add_format(st: LogState, f: FormatSpec) -> LogState {
    let s = note_name(st, f.name, f.id);
    LogState {
        formats: s.formats.insert(f.id, f),
        messages: s.messages.insert(f.id, Seq::empty()),
        ..s
    }
}

/// The state once `row` is appended to the rows of type `id`.
pub open spec fn add_row(st: LogState, id: u8, row: Seq<FieldValue>) -> LogState {
    LogState { messages: st.messages.insert(id, st.messages[id].push(row)), ..st }
}

/// Reads the fields of a message of type `msg_type` whose format is `fmt`,
/// from field `i` on at `pos`, after the fields `acc`. Gives the fields, the
/// position after them, and whether all of them fitted in `data`; reading
/// stops at the first field that does not fit.
pub open spec fn fields_from(
    data: Seq<u8>,
    pos: int,
    fmt: Seq<char>,
    msg_type: u8,
    i: int,
    acc: Seq<FieldValue>,
) -> Result<(Seq<FieldValue>, int, bool), LogError>
    decreases fmt.len() - i,
{
    if i >= fmt.len() {
        Ok((acc, pos, true))
    } else {
        let c = fmt[i];
        match field_size(c) {
            None => Err(LogError::UnknownFieldType { msg_type, format_char: c }),
            Some(n) => if pos + n > data.len() {
                Ok((acc, pos, false))
            } else {
                fields_from(
                    data,
                    pos + n,
                    fmt,
                    msg_type,
                    i + 1,
                    acc.push(field_value(c, data.subrange(pos, pos + n))),
                )
            },
        }
    }
}

/// The position after a complete message lies within the data.
pub proof fn lemma_fields_from_end(
    data: Seq<u8>,
    pos: int,
    fmt: Seq<char>,
    msg_type: u8,
    i: int,
    acc: Seq<FieldValue>,
)
    requires
        0 <= pos <= data.len(),
    ensures
        fields_from(data, pos, fmt, msg_type, i, acc) matches Ok((row, end, _)) ==> pos <= end
            <= data.len(),
    decreases fmt.len() - i,
{
    if i < fmt.len() {
        if let Some(n) = field_size(fmt[i]) {
            if pos + n <= data.len() {
                lemma_fields_from_end(
                    data,
                    pos + n,
                    fmt,
                    msg_type,
                    i + 1,
                    acc.push(field_value(fmt[i], data.subrange(pos, pos + n))),
                );
            }
        }
    }
}

/// Reads the records from `pos` on, in state `st`.
///
/// Where the two header bytes are not at `pos`, reading goes on one byte
/// further. An FMT record for a type that has a format already is skipped
/// with its 5 header bytes only; a new one adds its format. A record of a
/// type with a format adds one row; a record of any other type is skipped
/// with its 3 header bytes. Reading ends where the data end, and after a
/// message whose fields do not all fit.
pub open spec fn log_from(data: Seq<u8>, pos: int, st: LogState) -> Result<LogState, LogError>
    decreases data.len() - pos,
{
    if pos < 0 || pos + 3 > data.len() {
        Ok(st)
    } else if data[pos] != HEAD1 || data[pos + 1] != HEAD2 {
        log_from(data, pos + 1, st)
    } else if data[pos + 2] == MSG_ID_FMT {
        if pos + 5 > data.len() {
            Ok(st)
        } else if st.formats.contains_key(data[pos + 3]) {
            log_from(data, pos + 5, st)
        } else if pos + 89 > data.len() {
            Ok(st)
        } else {
            match format_record(data[pos + 3], data[pos + 4], data.subrange(pos + 5, pos + 89)) {
                Err(e) => Err(e),
                Ok(f) => log_from(data, pos + 89, add_format(st, f)),
            }
        }
    } else {
        let id = data[pos + 2];
        if st.formats.contains_key(id) && st.messages.contains_key(id) {
            match fields_from(data, pos + 3, st.formats[id].format, id, 0, Seq::empty()) {
                Err(e) => Err(e),
                Ok((row, end, complete)) => if complete {
                    proof {
                        lemma_fields_from_end(
                            data,
                            pos + 3,
                            st.formats[id].format,
                            id,
                            0,
                            Seq::empty(),
                        );
                    }
                    log_from(data, end, add_row(st, id, row))
                } else {
                    Ok(add_row(st, id, row))
                },
            }
        } else {
            log_from(data, pos + 3, st)
        }
    }
}

/// What reading the log `data` gives.
pub open spec fn log_of(data: Seq<u8>) -> Result<LogState, LogError> {
    log_from(data, 0, empty_state())
}

/// The formats and rows read from a log.
pub struct LogData {
    /// The format of each declared message type.
    pub formats: HashMap<u8, MessageFormat>,
    /// The rows read for each declared message type.
    pub messages: HashMap<u8, Vec<Vec<FormatType>>>,
    /// The type of the format named `PARM`.
    pub param_id: Option<u8>,
    /// The type of the format named `UNIT`.
    pub unit_id: Option<u8>,
    /// The type of the format named `FMTU`.
    pub format_unit_id: Option<u8>,
    /// The type of the format named `MULT`.
    pub mult_id: Option<u8>,
}

/// The values of a row.
pub open spec fn row_view(row: Vec<FormatType>) -> Seq<FieldValue> {
    row@.map_values(|f: FormatType| f@)
}

/// The values of a list of rows.
pub open spec fn rows_view(rows: Vec<Vec<FormatType>>) -> Seq<Seq<FieldValue>> {
    rows@.map_values(|r: Vec<FormatType>| row_view(r))
}

impl View for LogData {
    type V = LogState;

    open spec fn view(&self) -> LogState {
        LogState {
            formats: self.formats@.map_values(|f: MessageFormat| f@),
            messages: self.messages@.map_values(|rows: Vec<Vec<FormatType>>| rows_view(rows)),
            param_id: self.param_id,
            unit_id: self.unit_id,
            format_unit_id: self.format_unit_id,
            mult_id: self.mult_id,
        }
    }
}

/// Whether `s` is the four characters `a b c d`.
fn name_is(s: &String, a: char, b: char, c: char, d: char) -> (r: bool)
    ensures
        r == (s@ == seq![a, b, c, d]),
{
    let t = s.as_str();
    let r = t.unicode_len() == 4 && t.get_char(0) == a && t.get_char(1) == b && t.get_char(2)
        == c && t.get_char(3) == d;
    proof {
        if t@.len() == 4 {
            if r {
                assert(t@ =~= seq![a, b, c, d]);
            } else if s@ == seq![a, b, c, d] {
                assert(t@[0] == a && t@[1] == b && t@[2] == c && t@[3] == d);
            }
        }
    }
    r
}

impl LogData {
    /// An empty log.
    pub fn new() -> (r: LogData)
        ensures
            r@ == empty_state(),
    {
        let r = LogData {
            formats: HashMap::new(),
            messages: HashMap::new(),
            param_id: None,
            unit_id: None,
            format_unit_id: None,
            mult_id: None,
        };
        assert(r@.formats =~= Map::empty());
        assert(r@.messages =~= Map::empty());
        r
    }

    fn add_format(&mut self, f: MessageFormat)
        ensures
            final(self)@ == add_format(old(self)@, f@),
    {
        let id = f.id;
        if name_is(&f.name, 'P', 'A', 'R', 'M') {
            self.param_id = Some(id);
        } else if name_is(&f.name, 'U', 'N', 'I', 'T') {
            self.unit_id = Some(id);
        } else if name_is(&f.name, 'F', 'M', 'T', 'U') {
            self.format_unit_id = Some(id);
        } else if name_is(&f.name, 'M', 'U', 'L', 'T') {
            self.mult_id = Some(id);
        }
        let ghost fv = f@;
        self.formats.insert(id, f);
        let empty: Vec<Vec<FormatType>> = Vec::new();
        assert(rows_view(empty) =~= Seq::empty());
        self.messages.insert(id, empty);
        assert(self@.formats =~= old(self)@.formats.insert(id, fv));
        assert(self@.messages =~= old(self)@.messages.insert(id, Seq::empty()));
    }

    fn push_row(&mut self, id: u8, row: Vec<FormatType>)
        requires
            old(self).messages@.contains_key(id),
        ensures
            final(self)@ == add_row(old(self)@, id, row_view(row)),
    {
        let ghost rv = row_view(row);
        match self.messages.remove(&id) {
            Some(mut rows) => {
                let ghost before = rows_view(rows);
                rows.push(row);
                assert(rows_view(rows) =~= before.push(rv));
                self.messages.insert(id, rows);
                assert(self@.messages =~= old(self)@.messages.insert(
                    id,
                    old(self)@.messages[id].push(rv),
                ));
            },
            None => {},
        }
    }
}

/// Reads the fields of a message of type `msg_type` at `pos`.
fn read_fields(data: &[u8], pos: usize, fmt: &Vec<char>, msg_type: u8) -> (r: Result<
    (Vec<FormatType>, usize, bool),
    LogError,
>)
    requires
        pos <= data.len(),
    ensures
        match r {
            Ok((row, end, complete)) => fields_from(data@, pos as int, fmt@, msg_type, 0, Seq::empty())
                == Ok::<(Seq<FieldValue>, int, bool), LogError>((row_view(row), end as int, complete)),
            Err(e) => fields_from(data@, pos as int, fmt@, msg_type, 0, Seq::empty()) == Err::<
                (Seq<FieldValue>, int, bool),
                LogError,
            >(e),
        },
{
    let mut row: Vec<FormatType> = Vec::new();
    let mut p = pos;
    let mut i: usize = 0;
    assert(row_view(row) =~= Seq::empty());
    while i < fmt.len()
        invariant
            i <= fmt@.len(),
            p <= data.len(),
            fields_from(data@, p as int, fmt@, msg_type, i as int, row_view(row)) == fields_from(
                data@,
                pos as int,
                fmt@,
                msg_type,
                0,
                Seq::empty(),
            ),
        decreases fmt@.len() - i,
    {
        let c = fmt[i];
        match field_width(c) {
            None => {
                return Err(LogError::UnknownFieldType { msg_type, format_char: c });
            },
            Some(w) => {
                if w > data.len() - p {
                    return Ok((row, p, false));
                }
                let v = decode_field(c, data, p);
                let ghost before = row_view(row);
                row.push(v);
                assert(row_view(row) =~= before.push(v@));
                p += w;
                i += 1;
            },
        }
    }
    Ok((row, p, true))
}

/// Reads a whole log.
///
/// The result is what [`log_of`] gives for `data`: the error, or the
/// formats, rows and special types read.
pub fn read_log(data: &[u8]) -> (r: Result<LogData, LogError>)
    ensures
        match r {
            Ok(log) => log_of(data@) == Ok::<LogState, LogError>(log@),
            Err(e) => log_of(data@) == Err::<LogState, LogError>(e),
        },
{
    let mut log = LogData::new();
    let mut pos: usize = 0;
    while data.len() - pos >= 3
        invariant
            pos <= data.len(),
            log_from(data@, pos as int, log@) == log_of(data@),
        decreases data.len() - pos,
    {
        if data[pos] != HEAD1 || data[pos + 1] != HEAD2 {
            pos += 1;
        } else {
            let id = data[pos + 2];
            if id == MSG_ID_FMT {
                if data.len() - pos < 5 {
                    return Ok(log);
                }
                let msg_type = data[pos + 3];
                let length = data[pos + 4];
                if log.formats.contains_key(&msg_type) {
                    assert(log@.formats.contains_key(msg_type));
                    pos += 5;
                } else {
                    if data.len() - pos < 5 + FMT_BODY_LEN {
                        return Ok(log);
                    }
                    match decode_format_record(msg_type, length, data, pos + 5) {
                        Err(e) => {
                            return Err(e);
                        },
                        Ok(f) => {
                            log.add_format(f);
                            pos += 5 + FMT_BODY_LEN;
                        },
                    }
                }
            } else if log.formats.contains_key(&id) && log.messages.contains_key(&id) {
                let read = read_fields(data, pos + 3, &log.formats.get(&id).unwrap().format, id);
                match read {
                    Err(e) => {
                        return Err(e);
                    },
                    Ok((row, end, complete)) => {
                        proof {
                            lemma_fields_from_end(
                                data@,
                                pos + 3,
                                log@.formats[id].format,
                                id,
                                0,
                                Seq::empty(),
                            );
                        }
                        log.push_row(id, row);
                        if !complete {
                            return Ok(log);
                        }
                        pos = end;
                    },
                }
            } else {
                pos += 3;
            }
        }
    }
    Ok(log)
}

} // verus!
