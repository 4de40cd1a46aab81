//! Text fields of FMT records: UTF-8 decoding, trailing-NUL trimming and
//! comma splitting.
use vstd::prelude::*;
use vstd::string::StrSliceExecFns;
use vstd::utf8::{decode_utf8, encode_utf8, encode_utf8_decode_utf8, pop_first_scalar, valid_utf8};

verus! {

/// `s` without its trailing `'\0'` characters.
pub open spec fn trim_nul(s: Seq<char>) -> Seq<char>
    decreases s.len(),
{
    if s.len() > 0 && s.last() == '\0' {
        trim_nul(s.drop_last())
    } else {
        s
    }
}

/// The pieces of `s` between occurrences of `sep`, as `str::split` gives
/// them: one more piece than `s` has separators.
pub open spec fn split_on(s: Seq<char>, sep: char) -> Seq<Seq<char>>
    decreases s.len(),
{
    if s.len() == 0 {
        seq![Seq::<char>::empty()]
    } else {
        let rest = split_on(s.drop_last(), sep);
        if s.last() == sep {
            rest.push(Seq::<char>::empty())
        } else {
            rest.update(rest.len() - 1, rest.last().push(s.last()))
        }
    }
}

/// The pieces joined back together with `sep` between them.
pub open spec fn join_with(parts: Seq<Seq<char>>, sep: char) -> Seq<char>
    decreases parts.len(),
{
    if parts.len() == 0 {
        Seq::<char>::empty()
    } else if parts.len() == 1 {
        parts[0]
    } else {
        join_with(parts.drop_last(), sep).push(sep) + parts.last()
    }
}

/// The label list of an FMT record: the comma-separated pieces of the
/// labels text, the last one without its trailing `'\0'`s.
pub open spec fn label_list(s: Seq<char>) -> Seq<Seq<char>> {
    let parts = split_on(s, ',');
    parts.update(parts.len() - 1, trim_nul(parts.last()))
}

/// `split_on` gives at least one piece.
pub proof fn lemma_split_nonempty(s: Seq<char>, sep: char)
    ensures
        split_on(s, sep).len() >= 1,
    decreases s.len(),
{
    if s.len() > 0 {
        lemma_split_nonempty(s.drop_last(), sep);
    }
}

proof fn lemma_join_extend_last(parts: Seq<Seq<char>>, sep: char, c: char)
    requires
        parts.len() >= 1,
    ensures
        join_with(parts.update(parts.len() - 1, parts.last().push(c)), sep) == join_with(
            parts,
            sep,
        ).push(c),
{
    let q = parts.update(parts.len() - 1, parts.last().push(c));
    if parts.len() == 1 {
        assert(q[0] == parts[0].push(c));
    } else {
        assert(q.drop_last() =~= parts.drop_last());
        assert(join_with(parts.drop_last(), sep).push(sep) + parts.last().push(c) =~= (
        join_with(parts.drop_last(), sep).push(sep) + parts.last()).push(c));
    }
}

/// Splitting on a separator and joining the pieces with it gives the text
/// back, and no piece holds the separator.
pub proof fn lemma_split_join(s: Seq<char>, sep: char)
    ensures
        join_with(split_on(s, sep), sep) == s,
        forall|i: int, j: int|
            0 <= i < split_on(s, sep).len() && 0 <= j < split_on(s, sep)[i].len() ==> split_on(
                s,
                sep,
            )[i][j] != sep,
    decreases s.len(),
{
    if s.len() == 0 {
        assert(s =~= Seq::<char>::empty());
    } else {
        let rest = split_on(s.drop_last(), sep);
        lemma_split_join(s.drop_last(), sep);
        lemma_split_nonempty(s.drop_last(), sep);
        if s.last() == sep {
            let p = rest.push(Seq::<char>::empty());
            assert(p.drop_last() =~= rest);
            assert(join_with(p, sep) =~= s.drop_last().push(sep) + Seq::<char>::empty());
            assert(s.drop_last().push(sep) =~= s);
        } else {
            lemma_join_extend_last(rest, sep, s.last());
            assert(s.drop_last().push(s.last()) =~= s);
            let p = split_on(s, sep);
            assert forall|i: int, j: int| 0 <= i < p.len() && 0 <= j < p[i].len() implies p[i][j]
                != sep by {
                if i == p.len() - 1 && j == p[i].len() - 1 {
                } else if i == p.len() - 1 {
                    assert(p[i][j] == rest[i][j]);
                }
            }
        }
    }
}

/// `trim_nul(s)` is `s` with the `'\0'`s at its end taken off: a prefix of
/// `s` that does not end in `'\0'`, followed in `s` by `'\0'`s only.
pub proof fn lemma_trim_nul(s: Seq<char>)
    ensures
        trim_nul(s).len() <= s.len(),
        trim_nul(s) == s.subrange(0, trim_nul(s).len() as int),
        trim_nul(s).len() > 0 ==> trim_nul(s).last() != '\0',
        forall|i: int| trim_nul(s).len() <= i < s.len() ==> s[i] == '\0',
    decreases s.len(),
{
    if s.len() > 0 && s.last() == '\0' {
        lemma_trim_nul(s.drop_last());
        assert(trim_nul(s) =~= s.subrange(0, trim_nul(s).len() as int));
        assert forall|i: int| trim_nul(s).len() <= i < s.len() implies s[i] == '\0' by {
            if i < s.len() - 1 {
                assert(s[i] == s.drop_last()[i]);
            }
        }
    } else {
        assert(s =~= s.subrange(0, s.len() as int));
    }
}

/// Taking `'\0'`s off the end of `a + b`, where `a` does not end in one,
/// only touches `b`.
pub proof fn lemma_trim_nul_concat(a: Seq<char>, b: Seq<char>)
    requires
        a.len() > 0,
        a.last() != '\0',
    ensures
        trim_nul(a + b) == a + trim_nul(b),
    decreases b.len(),
{
    if b.len() > 0 && b.last() == '\0' {
        assert((a + b).drop_last() =~= a + b.drop_last());
        lemma_trim_nul_concat(a, b.drop_last());
    } else if b.len() > 0 {
        assert((a + b).last() == b.last());
    } else {
        assert(a + b =~= a);
    }
}

/// The label list joined back with commas is the whole labels text without
/// its trailing `'\0'`s: no character before the padding is lost, none is
/// added, and no label holds a comma.
pub proof fn lemma_label_list_join(s: Seq<char>)
    ensures
        join_with(label_list(s), ',') == trim_nul(s),
        forall|i: int, j: int|
            0 <= i < label_list(s).len() && 0 <= j < label_list(s)[i].len() ==> label_list(
                s,
            )[i][j] != ',',
{
    let parts = split_on(s, ',');
    lemma_split_nonempty(s, ',');
    lemma_split_join(s, ',');
    let n = parts.len();
    let lab = label_list(s);
    lemma_trim_nul(parts.last());
    if n == 1 {
        assert(s == parts[0]);
        assert(join_with(lab, ',') == lab[0]);
    } else {
        assert(lab.drop_last() =~= parts.drop_last());
        let front = join_with(parts.drop_last(), ',').push(',');
        assert(s == front + parts.last());
        assert(join_with(lab, ',') == front + trim_nul(parts.last()));
        lemma_trim_nul_concat(front, parts.last());
    }
    assert forall|i: int, j: int| 0 <= i < lab.len() && 0 <= j < lab[i].len() implies lab[i][j]
        != ',' by {
        if i == n - 1 {
            assert(lab[i][j] == parts[i][j]);
        } else {
            assert(lab[i] == parts[i]);
        }
    }
}

/// Bytes below `0x80` are valid UTF-8, and each decodes to the character
/// of that code.
pub proof fn lemma_ascii_text(b: Seq<u8>)
    requires
        forall|i: int| 0 <= i < b.len() ==> b[i] < 0x80,
    ensures
        valid_utf8(b),
        decode_utf8(b).len() == b.len(),
        forall|i: int| 0 <= i < b.len() ==> decode_utf8(b)[i] as u32 == b[i] as u32,
    decreases b.len(),
{
    if b.len() > 0 {
        let b0 = b[0];
        assert(b0 & 0x7f == b0) by (bit_vector)
            requires
                b0 < 0x80,
        ;
        let rest = b.subrange(1, b.len() as int);
        assert(pop_first_scalar(b) =~= rest);
        lemma_ascii_text(rest);
        assert forall|i: int| 0 <= i < b.len() implies decode_utf8(b)[i] as u32 == b[i] as u32 by {
            if i > 0 {
                assert(decode_utf8(b)[i] == decode_utf8(rest)[i - 1]);
                assert(rest[i - 1] == b[i]);
            }
        }
    }
}

/// An ASCII field with NUL padding decodes to the bytes before the padding:
/// every character is the byte at its place, every byte after them is 0,
/// and the last character kept is not NUL.
pub proof fn lemma_ascii_trimmed(b: Seq<u8>)
    requires
        forall|i: int| 0 <= i < b.len() ==> b[i] < 0x80,
    ensures
        valid_utf8(b),
        trim_nul(decode_utf8(b)).len() <= b.len(),
        forall|i: int|
            0 <= i < trim_nul(decode_utf8(b)).len() ==> trim_nul(decode_utf8(b))[i] as u32
                == b[i] as u32,
        forall|j: int| trim_nul(decode_utf8(b)).len() <= j < b.len() ==> b[j] == 0,
        trim_nul(decode_utf8(b)).len() > 0 ==> b[trim_nul(decode_utf8(b)).len() - 1] != 0,
{
    lemma_ascii_text(b);
    let d = decode_utf8(b);
    let t = trim_nul(d);
    lemma_trim_nul(d);
    assert forall|i: int| 0 <= i < t.len() implies t[i] as u32 == b[i] as u32 by {
        assert(t[i] == d[i]);
    }
    assert forall|j: int| t.len() <= j < b.len() implies b[j] == 0 by {
        assert(d[j] == '\0');
        assert(d[j] as u32 == b[j] as u32);
    }
    if t.len() > 0 {
        let c = d[t.len() - 1];
        assert(c == t.last());
        if b[t.len() - 1] == 0 {
            assert(c as u32 == 0);
            vstd::utf8::char_u32_cast(c, 0);
            vstd::utf8::char_u32_cast('\0', 0);
        }
    }
}

/// `std::str::from_utf8`: the text whose UTF-8 encoding is `bytes`, or
/// `None` where `bytes` is not valid UTF-8. Claimed: the result is `Some`
/// exactly when `bytes` is valid UTF-8, and its encoding is then `bytes`.
#[verifier::external_body]
fn str_from_utf8(bytes: &[u8]) -> (r: Option<&str>)
    ensures
        r is Some <==> valid_utf8(bytes@),
        r matches Some(s) ==> encode_utf8(s@) == bytes@,
{
    match std::str::from_utf8(bytes) {
        Ok(s) => Some(s),
        Err(_) => None,
    }
}

/// Decodes `bytes` as UTF-8.
pub fn decode_text(bytes: &[u8]) -> (r: Option<&str>)
    ensures
        r is Some <==> valid_utf8(bytes@),
        r matches Some(s) ==> s@ == decode_utf8(bytes@),
{
    let r = str_from_utf8(bytes);
    proof {
        if let Some(s) = r {
            encode_utf8_decode_utf8(s@);
        }
    }
    r
}

/// Number of characters left in the first `end` characters of `s` once
/// trailing `'\0'`s are taken off.
fn trimmed_len(s: &str, end: usize) -> (n: usize)
    requires
        end <= s@.len(),
    ensures
        n == trim_nul(s@.subrange(0, end as int)).len(),
{
    let mut n = end;
    while n > 0 && s.get_char(n - 1) == '\0'
        invariant
            n <= end <= s@.len(),
            trim_nul(s@.subrange(0, n as int)) == trim_nul(s@.subrange(0, end as int)),
        decreases n,
    {
        assert(s@.subrange(0, n as int).drop_last() =~= s@.subrange(0, n - 1));
        n -= 1;
    }
    n
}

/// `s` without its trailing `'\0'`s, as an owned string.
pub fn trim_nul_string(s: &str) -> (r: String)
    ensures
        r@ == trim_nul(s@),
{
    let len = s.unicode_len();
    let n = trimmed_len(s, len);
    assert(s@.subrange(0, len as int) =~= s@);
    proof {
        lemma_trim_nul(s@);
    }
    s.substring_char(0, n).to_owned()
}

/// The characters of `s` without its trailing `'\0'`s.
pub fn trim_nul_chars(s: &str) -> (r: Vec<char>)
    ensures
        r@ == trim_nul(s@),
{
    let len = s.unicode_len();
    let n = trimmed_len(s, len);
    assert(s@.subrange(0, len as int) =~= s@);
    proof {
        lemma_trim_nul(s@);
    }
    let mut v: Vec<char> = Vec::new();
    let mut i: usize = 0;
    while i < n
        invariant
            i <= n <= s@.len(),
            v@ == s@.subrange(0, i as int),
        decreases n - i,
    {
        v.push(s.get_char(i));
        i += 1;
        assert(v@ =~= s@.subrange(0, i as int));
    }
    v
}

/// The label list of an FMT record (see [`label_list`]).
pub fn split_labels(s: &str) -> (r: Vec<String>)
    ensures
        r@.map_values(|x: String| x@) == label_list(s@),
{
    let len = s.unicode_len();
    let mut parts: Vec<String> = Vec::new();
    let mut start: usize = 0;
    let mut i: usize = 0;
    proof {
        assert(s@.subrange(0, 0) =~= Seq::<char>::empty());
    }
    while i < len
        invariant
            len == s@.len(),
            start <= i <= len,
            parts@.map_values(|x: String| x@).push(s@.subrange(start as int, i as int))
                == split_on(s@.subrange(0, i as int), ','),
        decreases len - i,
    {
        let c = s.get_char(i);
        let ghost before = parts@.map_values(|x: String| x@);
        let ghost prefix = s@.subrange(0, i as int);
        assert(s@.subrange(0, i + 1).drop_last() =~= prefix);
        assert(s@.subrange(0, i + 1).last() == c);
        if c == ',' {
            let piece = s.substring_char(start, i).to_owned();
            let ghost rest = split_on(prefix, ',');
            assert(split_on(s@.subrange(0, i + 1), ',') == rest.push(Seq::<char>::empty()));
            assert(rest == before.push(piece@));
            parts.push(piece);
            assert(parts@.map_values(|x: String| x@) =~= before.push(piece@));
            i += 1;
            start = i;
            assert(s@.subrange(start as int, i as int) =~= Seq::<char>::empty());
            assert(parts@.map_values(|x: String| x@).push(s@.subrange(start as int, i as int))
                =~= split_on(s@.subrange(0, i as int), ','));
        } else {
            let ghost rest = split_on(prefix, ',');
            assert(rest == before.push(s@.subrange(start as int, i as int)));
            assert(rest.update(rest.len() - 1, rest.last().push(c)) =~= before.push(
                s@.subrange(start as int, i as int).push(c),
            ));
            assert(s@.subrange(start as int, i as int).push(c) =~= s@.subrange(
                start as int,
                i + 1,
            ));
            assert(split_on(s@.subrange(0, i + 1), ',') == rest.update(
                rest.len() - 1,
                rest.last().push(c),
            ));
            i += 1;
            assert(parts@.map_values(|x: String| x@).push(s@.subrange(start as int, i as int))
                =~= split_on(s@.subrange(0, i as int), ','));
        }
    }
    assert(s@.subrange(0, len as int) =~= s@);
    let last_piece = s.substring_char(start, len);
    let last = trim_nul_string(last_piece);
    parts.push(last);
    assert(parts@.map_values(|x: String| x@) =~= label_list(s@));
    parts
}

} // verus!
