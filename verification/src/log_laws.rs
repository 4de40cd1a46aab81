//! What holds of every log that [`crate::log::read_log`] reads.
use crate::field::{field_size, field_value, FieldValue};
use crate::format::{format_record, FormatSpec, HEAD1, HEAD2, MSG_ID_FMT};
use crate::log::{add_format, add_row, empty_state, fields_from, log_from, log_of, note_name, LogState};
use vstd::prelude::*;

verus! {

/// Whether `v` is a value of the field type that format character `c` names.
pub open spec fn has_field_type(c: char, v: FieldValue) -> bool {
    match v {
        FieldValue::Int16Len32(s) => c == 'a' && s.len() == 32,
        FieldValue::Int8(_) => c == 'b',
        FieldValue::Uint8(_) => c == 'B',
        FieldValue::Int16(_) => c == 'h',
        FieldValue::Uint16(_) => c == 'H',
        FieldValue::Int32(_) => c == 'i',
        FieldValue::Uint32(_) => c == 'I',
        FieldValue::Float(_) => c == 'f',
        FieldValue::Double(_) => c == 'd',
        FieldValue::CharLen4(s) => c == 'n' && s.len() == 4,
        FieldValue::CharLen16(s) => c == 'N' && s.len() == 16,
        FieldValue::CharLen64(s) => c == 'Z' && s.len() == 64,
        FieldValue::Int16Mul100(_) => c == 'c',
        FieldValue::Uint16Mul100(_) => c == 'C',
        FieldValue::Int32Mul100(_) => c == 'e',
        FieldValue::Uint32Mul100(_) => c == 'E',
        FieldValue::Int32LatLon(_) => c == 'L',
        FieldValue::Uint8FlightMode(_) => c == 'M',
        FieldValue::Int64(_) => c == 'q',
        FieldValue::Uint64(_) => c == 'Q',
    }
}

/// Whether `row` is a prefix of a row of format `fmt`: no more fields than
/// `fmt` has characters, each of the type its character names.
pub open spec fn row_fits(fmt: Seq<char>, row: Seq<FieldValue>) -> bool {
    &&& row.len() <= fmt.len()
    &&& forall|j: int| 0 <= j < row.len() ==> has_field_type(fmt[j], #[trigger] row[j])
}

/// Whether the special type `id`, if any, is a declared format named `name`.
pub open spec fn names_format(st: LogState, id: Option<u8>, name: Seq<char>) -> bool {
    id matches Some(k) ==> st.formats.contains_key(k) && st.formats[k].name == name
}

/// The invariant of a log being read.
pub open spec fn log_invariant(st: LogState) -> bool {
    &&& st.formats.dom() == st.messages.dom()
    &&& forall|k: u8| #[trigger] st.formats.contains_key(k) ==> st.formats[k].id == k
    &&& forall|k: u8, i: int|
        st.messages.contains_key(k) && 0 <= i < st.messages[k].len() ==> row_fits(
            st.formats[k].format,
            #[trigger] st.messages[k][i],
        )
    &&& names_format(st, st.param_id, seq!['P', 'A', 'R', 'M'])
    &&& names_format(st, st.unit_id, seq!['U', 'N', 'I', 'T'])
    &&& names_format(st, st.format_unit_id, seq!['F', 'M', 'T', 'U'])
    &&& names_format(st, st.mult_id, seq!['M', 'U', 'L', 'T'])
}

/// Whether `later` keeps every format of `earlier` unchanged and every row
/// list of `earlier` as a prefix.
pub open spec fn extends(earlier: LogState, later: LogState) -> bool {
    &&& forall|k: u8| #[trigger]
        earlier.formats.contains_key(k) ==> later.formats.contains_key(k) && later.formats[k]
            == earlier.formats[k]
    &&& forall|k: u8| #[trigger]
        earlier.messages.contains_key(k) ==> later.messages.contains_key(k)
            && earlier.messages[k].len() <= later.messages[k].len() && later.messages[k].subrange(
            0,
            earlier.messages[k].len() as int,
        ) == earlier.messages[k]
}

/// Each decoded field has the type that its format character names.
pub proof fn lemma_field_value_type(c: char, b: Seq<u8>)
    requires
        field_size(c) is Some,
        b.len() == field_size(c)->0,
    ensures
        has_field_type(c, field_value(c, b)),
{
}

/// The fields read for a message fit its format.
proof fn lemma_fields_from_fit(
    data: Seq<u8>,
    pos: int,
    fmt: Seq<char>,
    msg_type: u8,
    i: int,
    acc: Seq<FieldValue>,
)
    requires
        0 <= pos,
        0 <= i,
        acc.len() == i,
        row_fits(fmt, acc),
    ensures
        fields_from(data, pos, fmt, msg_type, i, acc) matches Ok((row, _, complete)) ==> row_fits(
            fmt,
            row,
        ) && (complete ==> row.len() == fmt.len()),
    decreases fmt.len() - i,
{
    if i < fmt.len() {
        let c = fmt[i];
        if let Some(n) = field_size(c) {
            if pos + n <= data.len() {
                let v = field_value(c, data.subrange(pos, pos + n));
                lemma_field_value_type(c, data.subrange(pos, pos + n));
                let acc2 = acc.push(v);
                assert forall|j: int| 0 <= j < acc2.len() implies has_field_type(
                    fmt[j],
                    #[trigger] acc2[j],
                ) by {
                    if j < acc.len() {
                        assert(acc2[j] == acc[j]);
                    }
                }
                lemma_fields_from_fit(data, pos + n, fmt, msg_type, i + 1, acc2);
            }
        }
    }
}

proof fn lemma_note_name(st: LogState, name: Seq<char>, id: u8)
    ensures
        note_name(st, name, id).formats == st.formats,
        note_name(st, name, id).messages == st.messages,
        note_name(st, name, id).param_id == st.param_id || (note_name(st, name, id).param_id
            == Some(id) && name == seq!['P', 'A', 'R', 'M']),
        note_name(st, name, id).unit_id == st.unit_id || (note_name(st, name, id).unit_id == Some(
            id,
        ) && name == seq!['U', 'N', 'I', 'T']),
        note_name(st, name, id).format_unit_id == st.format_unit_id || (note_name(
            st,
            name,
            id,
        ).format_unit_id == Some(id) && name == seq!['F', 'M', 'T', 'U']),
        note_name(st, name, id).mult_id == st.mult_id || (note_name(st, name, id).mult_id == Some(
            id,
        ) && name == seq!['M', 'U', 'L', 'T']),
{
}

proof fn lemma_add_format_invariant(st: LogState, f: FormatSpec)
    requires
        log_invariant(st),
        !st.formats.contains_key(f.id),
    ensures
        log_invariant(add_format(st, f)),
        extends(st, add_format(st, f)),
{
    let s2 = add_format(st, f);
    lemma_note_name(st, f.name, f.id);
    assert(s2.formats.dom() =~= s2.messages.dom());
    assert forall|k: u8, i: int|
        s2.messages.contains_key(k) && 0 <= i < s2.messages[k].len() implies row_fits(
        s2.formats[k].format,
        #[trigger] s2.messages[k][i],
    ) by {
        if k != f.id {
            assert(s2.messages[k][i] == st.messages[k][i]);
        }
    }
    assert forall|k: u8| #[trigger]
        st.messages.contains_key(k) implies s2.messages.contains_key(k)
        && st.messages[k].len() <= s2.messages[k].len() && s2.messages[k].subrange(
        0,
        st.messages[k].len() as int,
    ) == st.messages[k] by {
        assert(k != f.id);
        assert(s2.messages[k].subrange(0, st.messages[k].len() as int) =~= st.messages[k]);
    }
}

proof fn lemma_add_row_invariant(st: LogState, id: u8, row: Seq<FieldValue>)
    requires
        log_invariant(st),
        st.messages.contains_key(id),
        row_fits(st.formats[id].format, row),
    ensures
        log_invariant(add_row(st, id, row)),
        extends(st, add_row(st, id, row)),
{
    let s2 = add_row(st, id, row);
    assert(s2.formats.dom() =~= s2.messages.dom());
    assert forall|k: u8, i: int|
        s2.messages.contains_key(k) && 0 <= i < s2.messages[k].len() implies row_fits(
        s2.formats[k].format,
        #[trigger] s2.messages[k][i],
    ) by {
        if k == id && i < st.messages[k].len() {
            assert(s2.messages[k][i] == st.messages[k][i]);
        }
    }
    assert forall|k: u8| #[trigger]
        st.messages.contains_key(k) implies s2.messages.contains_key(k)
        && st.messages[k].len() <= s2.messages[k].len() && s2.messages[k].subrange(
        0,
        st.messages[k].len() as int,
    ) == st.messages[k] by {
        assert(s2.messages[k].subrange(0, st.messages[k].len() as int) =~= st.messages[k]);
    }
}

proof fn lemma_extends_refl(st: LogState)
    ensures
        extends(st, st),
{
    assert forall|k: u8| #[trigger] st.messages.contains_key(k) implies st.messages[k].subrange(
        0,
        st.messages[k].len() as int,
    ) == st.messages[k] by {
        assert(st.messages[k].subrange(0, st.messages[k].len() as int) =~= st.messages[k]);
    }
}

proof fn lemma_extends_trans(a: LogState, b: LogState, c: LogState)
    requires
        extends(a, b),
        extends(b, c),
    ensures
        extends(a, c),
{
    assert forall|k: u8| #[trigger]
        a.messages.contains_key(k) implies c.messages.contains_key(k) && a.messages[k].len()
        <= c.messages[k].len() && c.messages[k].subrange(0, a.messages[k].len() as int)
        == a.messages[k] by {
        let n = a.messages[k].len() as int;
        assert(c.messages[k].subrange(0, n) =~= c.messages[k].subrange(
            0,
            b.messages[k].len() as int,
        ).subrange(0, n));
    }
}

/// The bytes that the fields of format `fmt` take, from field `i` on.
pub open spec fn format_width_from(fmt: Seq<char>, i: int) -> nat
    decreases fmt.len() - i,
{
    if i >= fmt.len() {
        0
    } else {
        match field_size(fmt[i]) {
            Some(n) => n + format_width_from(fmt, i + 1),
            None => 0,
        }
    }
}

/// A message whose fields are all of known types and all fit is read in
/// full, and ends right after its last field.
proof fn lemma_fields_from_complete(
    data: Seq<u8>,
    pos: int,
    fmt: Seq<char>,
    msg_type: u8,
    i: int,
    acc: Seq<FieldValue>,
)
    requires
        0 <= pos,
        0 <= i <= fmt.len(),
        forall|j: int| i <= j < fmt.len() ==> field_size(#[trigger] fmt[j]) is Some,
        pos + format_width_from(fmt, i) <= data.len(),
    ensures
        fields_from(data, pos, fmt, msg_type, i, acc) matches Ok((row, end, complete)) && complete
            && row.len() == acc.len() + fmt.len() - i && end == pos + format_width_from(fmt, i),
    decreases fmt.len() - i,
{
    if i < fmt.len() {
        let c = fmt[i];
        let n = field_size(c)->0;
        lemma_fields_from_complete(
            data,
            pos + n,
            fmt,
            msg_type,
            i + 1,
            acc.push(field_value(c, data.subrange(pos, pos + n))),
        );
    }
}

/// Every complete message of a declared type adds its row, whatever the
/// type: when a log starts with a new FMT record for type `t` (other than
/// the FMT type itself) and then a message of type `t` whose fields all
/// fit, the log read holds that message as the first row of type `t`, with
/// one field per format character; and a log that ends right after that
/// message is read without error.
pub proof fn lemma_declared_message_read(data: Seq<u8>)
    requires
        data.len() >= 92,
        data[0] == HEAD1,
        data[1] == HEAD2,
        data[2] == MSG_ID_FMT,
        data[3] != MSG_ID_FMT,
        format_record(data[3], data[4], data.subrange(5, 89)) is Ok,
        data[89] == HEAD1,
        data[90] == HEAD2,
        data[91] == data[3],
        forall|j: int|
            0 <= j < format_record(data[3], data[4], data.subrange(5, 89))->Ok_0.format.len()
                ==> field_size(
                #[trigger] format_record(data[3], data[4], data.subrange(5, 89))->Ok_0.format[j],
            ) is Some,
        92 + format_width_from(format_record(data[3], data[4], data.subrange(5, 89))->Ok_0.format, 0)
            <= data.len(),
    ensures
        log_of(data) matches Ok(s) ==> s.messages.contains_key(data[3]) && s.messages[data[3]].len()
            >= 1 && s.messages[data[3]][0].len() == format_record(
            data[3],
            data[4],
            data.subrange(5, 89),
        )->Ok_0.format.len(),
        data.len() == 92 + format_width_from(
            format_record(data[3], data[4], data.subrange(5, 89))->Ok_0.format,
            0,
        ) ==> log_of(data) is Ok,
{
    let t = data[3];
    let f = format_record(t, data[4], data.subrange(5, 89))->Ok_0;
    let st0 = empty_state();
    assert(st0.formats.dom() =~= st0.messages.dom());
    assert(!st0.formats.contains_key(t));
    lemma_add_format_invariant(st0, f);
    let st1 = add_format(st0, f);
    assert(log_of(data) == log_from(data, 89, st1));
    assert(st1.formats.contains_key(t) && st1.messages.contains_key(t));
    let fmt = st1.formats[t].format;
    assert(fmt == f.format);
    lemma_fields_from_complete(data, 92, fmt, t, 0, Seq::empty());
    assert(row_fits(fmt, Seq::<FieldValue>::empty()));
    lemma_fields_from_fit(data, 92, fmt, t, 0, Seq::empty());
    let (row, end, complete) = fields_from(data, 92, fmt, t, 0, Seq::empty())->Ok_0;
    lemma_add_row_invariant(st1, t, row);
    let st2 = add_row(st1, t, row);
    assert(log_from(data, 89, st1) == log_from(data, end, st2));
    assert(st2.messages[t] =~= seq![row]);
    lemma_log_from_invariant(data, end, st2);
    if let Ok(s) = log_from(data, end, st2) {
        assert(s.messages[t].subrange(0, 1) == st2.messages[t]);
        assert(s.messages[t][0] == s.messages[t].subrange(0, 1)[0]);
    }
}

/// Reading on from any state that holds the invariant keeps it, and only
/// adds to that state: no format once declared is replaced, and rows are
/// only appended.
pub proof fn lemma_log_from_invariant(data: Seq<u8>, pos: int, st: LogState)
    requires
        log_invariant(st),
    ensures
        log_from(data, pos, st) matches Ok(s) ==> log_invariant(s) && extends(st, s),
    decreases data.len() - pos,
{
    if pos < 0 || pos + 3 > data.len() {
        lemma_extends_refl(st);
    } else if data[pos] != HEAD1 || data[pos + 1] != HEAD2 {
        lemma_log_from_invariant(data, pos + 1, st);
    } else if data[pos + 2] == MSG_ID_FMT {
        if pos + 5 > data.len() {
            lemma_extends_refl(st);
        } else if st.formats.contains_key(data[pos + 3]) {
            lemma_log_from_invariant(data, pos + 5, st);
        } else if pos + 89 > data.len() {
            lemma_extends_refl(st);
        } else {
            if let Ok(f) = format_record(
                data[pos + 3],
                data[pos + 4],
                data.subrange(pos + 5, pos + 89),
            ) {
                lemma_add_format_invariant(st, f);
                let s2 = add_format(st, f);
                lemma_log_from_invariant(data, pos + 89, s2);
                if let Ok(s) = log_from(data, pos + 89, s2) {
                    lemma_extends_trans(st, s2, s);
                }
            }
        }
    } else {
        let id = data[pos + 2];
        if st.formats.contains_key(id) && st.messages.contains_key(id) {
            let fmt = st.formats[id].format;
            assert(row_fits(fmt, Seq::<FieldValue>::empty()));
            lemma_fields_from_fit(data, pos + 3, fmt, id, 0, Seq::empty());
            if let Ok((row, end, complete)) = fields_from(data, pos + 3, fmt, id, 0, Seq::empty()) {
                lemma_add_row_invariant(st, id, row);
                let s2 = add_row(st, id, row);
                if complete {
                    crate::log::lemma_fields_from_end(data, pos + 3, fmt, id, 0, Seq::empty());
                    lemma_log_from_invariant(data, end, s2);
                    if let Ok(s) = log_from(data, end, s2) {
                        lemma_extends_trans(st, s2, s);
                    }
                }
            }
        } else {
            lemma_log_from_invariant(data, pos + 3, st);
        }
    }
}

/// Every log read holds the invariant: each declared type has a format
/// stored under it and a row list, and nothing else has either; every row
/// has at most as many fields as its format has characters, each of the
/// type its character names; and each special type names a format of that
/// name.
pub proof fn lemma_log_invariant(data: Seq<u8>)
    ensures
        log_of(data) matches Ok(s) ==> log_invariant(s),
{
    assert(empty_state().formats.dom() =~= empty_state().messages.dom());
    lemma_log_from_invariant(data, 0, empty_state());
}

} // verus!
