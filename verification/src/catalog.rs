//! Looking things up in a log that was read: the message types by name,
//! single fields, and the label of a plotted field.
use crate::field::FormatType;
use crate::format::MessageFormat;
use crate::log::{row_view, rows_view, LogData, LogState};
use vstd::prelude::*;
use vstd::string::{StrSliceExecFns, StringExecFns};

verus! {

broadcast use vstd::std_specs::hash::group_hash_axioms;

/// Whether `a` comes before `b` character by character, by code point, a
/// proper prefix first. For UTF-8 text this is the order of `str`'s
/// comparison, which compares the encoded bytes.
pub open spec fn chars_lt(a: Seq<char>, b: Seq<char>) -> bool
    decreases a.len(),
{
    if a.len() == 0 {
        b.len() > 0
    } else if b.len() == 0 {
        false
    } else if a[0] != b[0] {
        (a[0] as u32) < (b[0] as u32)
    } else {
        chars_lt(a.drop_first(), b.drop_first())
    }
}

/// No text comes before itself.
pub proof fn lemma_chars_lt_irreflexive(a: Seq<char>)
    ensures
        !chars_lt(a, a),
    decreases a.len(),
{
    if a.len() > 0 {
        lemma_chars_lt_irreflexive(a.drop_first());
    }
}

/// Of two different texts, one comes before the other.
pub proof fn lemma_chars_lt_total(a: Seq<char>, b: Seq<char>)
    ensures
        a != b ==> chars_lt(a, b) || chars_lt(b, a),
    decreases a.len(),
{
    if a.len() > 0 && b.len() > 0 && a[0] == b[0] {
        lemma_chars_lt_total(a.drop_first(), b.drop_first());
        if a.drop_first() == b.drop_first() {
            assert(a =~= seq![a[0]] + a.drop_first());
            assert(b =~= seq![b[0]] + b.drop_first());
        }
    } else if a.len() > 0 && b.len() > 0 {
        assert((a[0] as u32) != (b[0] as u32)) by {
            vstd::utf8::char_u32_cast(a[0], a[0] as u32);
            vstd::utf8::char_u32_cast(b[0], b[0] as u32);
        }
    } else if a.len() == 0 && b.len() == 0 {
        assert(a =~= b);
    }
}

/// The order is transitive.
pub proof fn lemma_chars_lt_transitive(a: Seq<char>, b: Seq<char>, c: Seq<char>)
    requires
        chars_lt(a, b),
        chars_lt(b, c),
    ensures
        chars_lt(a, c),
    decreases a.len(),
{
    if a.len() > 0 && b.len() > 0 && c.len() > 0 && a[0] == b[0] && b[0] == c[0] {
        lemma_chars_lt_transitive(a.drop_first(), b.drop_first(), c.drop_first());
    }
}

/// A text comes before every longer text that it begins: a proper prefix
/// is listed first, and never after.
pub proof fn lemma_chars_lt_proper_prefix(a: Seq<char>, c: Seq<char>)
    requires
        c.len() > 0,
    ensures
        chars_lt(a, a + c),
        !chars_lt(a + c, a),
    decreases a.len(),
{
    if a.len() > 0 {
        assert((a + c).drop_first() =~= a.drop_first() + c);
        assert((a + c)[0] == a[0]);
        lemma_chars_lt_proper_prefix(a.drop_first(), c);
    }
}

/// Where two texts first differ at position `k`, the one with the smaller
/// character there comes first.
pub proof fn lemma_chars_lt_first_difference(a: Seq<char>, b: Seq<char>, k: int)
    requires
        0 <= k < a.len(),
        k < b.len(),
        a.subrange(0, k) == b.subrange(0, k),
        (a[k] as u32) < (b[k] as u32),
    ensures
        chars_lt(a, b),
        !chars_lt(b, a),
    decreases k,
{
    if k == 0 {
        assert(a[0] != b[0]);
    } else {
        assert(a[0] == a.subrange(0, k)[0]);
        assert(b[0] == b.subrange(0, k)[0]);
        assert(a.drop_first().subrange(0, k - 1) =~= a.subrange(0, k).drop_first());
        assert(b.drop_first().subrange(0, k - 1) =~= b.subrange(0, k).drop_first());
        lemma_chars_lt_first_difference(a.drop_first(), b.drop_first(), k - 1);
    }
}

/// Whether type `a` is listed before type `b`: by format name, then by type.
pub open spec fn listed_before(st: LogState, a: u8, b: u8) -> bool {
    ||| chars_lt(st.formats[a].name, st.formats[b].name)
    ||| (st.formats[a].name == st.formats[b].name && a < b)
}

/// Whether `a` comes before `b`.
fn name_lt(a: &str, b: &str) -> (r: bool)
    ensures
        r == chars_lt(a@, b@),
{
    let la = a.unicode_len();
    let lb = b.unicode_len();
    let mut i: usize = 0;
    assert(a@.skip(0) =~= a@);
    assert(b@.skip(0) =~= b@);
    while i < la && i < lb
        invariant
            i <= la,
            i <= lb,
            la == a@.len(),
            lb == b@.len(),
            chars_lt(a@.skip(i as int), b@.skip(i as int)) == chars_lt(a@, b@),
        decreases la - i,
    {
        let ca = a.get_char(i);
        let cb = b.get_char(i);
        if ca != cb {
            return (ca as u32) < (cb as u32);
        }
        assert(a@.skip(i as int).drop_first() =~= a@.skip(i + 1));
        assert(b@.skip(i as int).drop_first() =~= b@.skip(i + 1));
        i += 1;
    }
    i == la && i < lb
}

proof fn lemma_insert_sorted(st: LogState, v: Seq<u8>, j: int, id: u8)
    requires
        0 <= j <= v.len(),
        forall|x: int| 0 <= x < v.len() ==> st.formats.contains_key(#[trigger] v[x]) && v[x] < id,
        st.formats.contains_key(id),
        forall|x: int, y: int| 0 <= x < y < v.len() ==> listed_before(st, #[trigger] v[x], #[trigger] v[y]),
        forall|x: int| 0 <= x < j ==> !chars_lt(st.formats[id].name, st.formats[#[trigger] v[x]].name),
        j < v.len() ==> chars_lt(st.formats[id].name, st.formats[v[j]].name),
    ensures
        forall|x: int, y: int|
            0 <= x < y < v.insert(j, id).len() ==> listed_before(
                st,
                #[trigger] v.insert(j, id)[x],
                #[trigger] v.insert(j, id)[y],
            ),
{
    let w = v.insert(j, id);
    let n = st.formats[id].name;
    assert forall|x: int, y: int| 0 <= x < y < w.len() implies listed_before(
        st,
        #[trigger] w[x],
        #[trigger] w[y],
    ) by {
        if x < j && y < j {
            assert(w[x] == v[x] && w[y] == v[y]);
        } else if x < j && y == j {
            assert(w[x] == v[x]);
            lemma_chars_lt_total(st.formats[v[x]].name, n);
        } else if x < j {
            assert(w[x] == v[x] && w[y] == v[y - 1]);
        } else if x == j {
            assert(w[y] == v[y - 1]);
            let m = st.formats[v[j]].name;
            let o = st.formats[v[y - 1]].name;
            if y - 1 > j {
                assert(listed_before(st, v[j], v[y - 1]));
                if chars_lt(m, o) {
                    lemma_chars_lt_transitive(n, m, o);
                }
            }
        } else {
            assert(w[x] == v[x - 1] && w[y] == v[y - 1]);
        }
    }
}

/// The declared message types, listed by format name and, among equal
/// names, by type.
pub fn format_ids_by_name(log: &LogData) -> (r: Vec<u8>)
    ensures
        forall|k: u8| r@.contains(k) <==> log@.formats.contains_key(k),
        forall|x: int, y: int|
            0 <= x < y < r@.len() ==> listed_before(log@, #[trigger] r@[x], #[trigger] r@[y]),
{
    let mut r: Vec<u8> = Vec::new();
    let mut next: u16 = 0;
    while next < 256
        invariant
            next <= 256,
            forall|k: u8| r@.contains(k) <==> (k < next && log@.formats.contains_key(k)),
            forall|x: int|
                0 <= x < r@.len() ==> log@.formats.contains_key(#[trigger] r@[x]) && r@[x] < next,
            forall|x: int, y: int|
                0 <= x < y < r@.len() ==> listed_before(log@, #[trigger] r@[x], #[trigger] r@[y]),
        decreases 256 - next,
    {
        let id = next as u8;
        if log.formats.contains_key(&id) {
            let name = log.formats.get(&id).unwrap().name.as_str();
            let mut j: usize = 0;
            while j < r.len() && !name_lt(name, log.formats.get(&r[j]).unwrap().name.as_str())
                invariant
                    j <= r@.len(),
                    name@ == log@.formats[id].name,
                    forall|x: int|
                        0 <= x < r@.len() ==> log@.formats.contains_key(#[trigger] r@[x]),
                    forall|x: int|
                        0 <= x < j ==> !chars_lt(name@, log@.formats[#[trigger] r@[x]].name),
                decreases r@.len() - j,
            {
                j += 1;
            }
            let ghost before = r@;
            assert(forall|k: u8| before.contains(k) <==> (k < next && log@.formats.contains_key(k)));
            proof {
                lemma_insert_sorted(log@, before, j as int, id);
            }
            r.insert(j, id);
            assert forall|k: u8| r@.contains(k) <==> (k < next + 1 && log@.formats.contains_key(
                k,
            )) by {
                if r@.contains(k) {
                    let x = choose|x: int| 0 <= x < r@.len() && r@[x] == k;
                    if x != j {
                        let y = if x < j {
                            x
                        } else {
                            x - 1
                        };
                        assert(before[y] == k);
                    }
                }
                if k < next + 1 && log@.formats.contains_key(k) {
                    if k == id {
                        assert(r@[j as int] == k);
                    } else {
                        assert(k < next);
                        assert(before.contains(k));
                        let x = choose|x: int| 0 <= x < before.len() && before[x] == k;
                        if x < j {
                            assert(r@[x] == k);
                        } else {
                            assert(r@[x + 1] == k);
                        }
                    }
                }
            }
        } else {
            assert forall|k: u8| r@.contains(k) <==> (k < next + 1 && log@.formats.contains_key(
                k,
            )) by {
                if k == id {
                    assert(!log@.formats.contains_key(k));
                }
            }
        }
        next += 1;
    }
    r
}

/// Field `field` of row `row` of the messages of type `msg_id`, if there
/// is one.
pub fn field_at(log: &LogData, msg_id: u8, row: usize, field: usize) -> (r: Option<&FormatType>)
    ensures
        r is Some <==> log@.messages.contains_key(msg_id) && row < log@.messages[msg_id].len()
            && field < log@.messages[msg_id][row as int].len(),
        r matches Some(f) ==> f@ == log@.messages[msg_id][row as int][field as int],
{
    match log.messages.get(&msg_id) {
        None => None,
        Some(rows) => {
            assert(log@.messages[msg_id] == rows_view(*rows));
            if row < rows.len() {
                let fields = &rows[row];
                assert(rows_view(*rows)[row as int] == row_view(*fields));
                if field < fields.len() {
                    Some(&fields[field])
                } else {
                    None
                }
            } else {
                None
            }
        },
    }
}

/// The label of the plotted field `index` of `format`: the format's name, a
/// space, and the field's label.
pub fn series_label(format: &MessageFormat, index: usize) -> (r: String)
    requires
        index < format.labels@.len(),
    ensures
        r@ == format@.name + seq![' '] + format@.labels[index as int],
{
    let mut s = format.name.clone();
    proof {
        reveal_strlit(" ");
    }
    s.append(" ");
    s.append(format.labels[index].as_str());
    s
}

} // verus!
