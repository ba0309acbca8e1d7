use vstd::prelude::*;

use crate::digits::{dec_digits, is_digit_char, spec_parse_u64, u64_to_string};
use crate::index::{model_of, unique_ids, FileIndex, FileRecord};

verus! {

// The persisted index is one JSON document holding a single array field,
// written without any whitespace so that equal indexes yield equal files:
//
//     {"files":[{"file_id":7,"file_name":"a.jpg"},...]}
//
// A name is written between double quotes; the two characters that would end
// or confuse the quoting, `"` and `\`, are written with a `\` in front.

/// Why a persisted document was rejected.
#[derive(Debug)]
pub enum ParseError {
    /// The text does not spell an index document.
    Malformed,
    /// The text spells an index document, but some file identifier occurs
    /// twice in it, which breaks the index invariant.
    DuplicateId,
}

/// How one name character is written inside the quotes.
pub open spec fn esc_char(c: char) -> Seq<char> {
    if c == '"' || c == '\\' {
        seq!['\\', c]
    } else {
        seq![c]
    }
}

/// How a whole name is written inside the quotes.
pub open spec fn escape(s: Seq<char>) -> Seq<char>
    decreases s.len(),
{
    if s.len() == 0 {
        Seq::empty()
    } else {
        esc_char(s[0]) + escape(s.drop_first())
    }
}

/// How one record is written.
pub open spec fn ser_record(f: (u64, Seq<char>)) -> Seq<char> {
    "{\"file_id\":"@ + dec_digits(f.0 as nat) + ",\"file_name\":\""@ + escape(f.1) + "\"}"@
}

/// How every record after the first is written: a comma, then the record.
pub open spec fn ser_tail(m: Seq<(u64, Seq<char>)>) -> Seq<char>
    decreases m.len(),
{
    if m.len() == 0 {
        Seq::empty()
    } else {
        seq![','] + ser_record(m[0]) + ser_tail(m.drop_first())
    }
}

/// How the records are written, separated by commas.
pub open spec fn ser_records(m: Seq<(u64, Seq<char>)>) -> Seq<char> {
    if m.len() == 0 {
        Seq::empty()
    } else {
        ser_record(m[0]) + ser_tail(m.drop_first())
    }
}

/// How a whole index is written.
pub open spec fn ser_index(m: Seq<(u64, Seq<char>)>) -> Seq<char> {
    "{\"files\":["@ + ser_records(m) + "]}"@
}

/// The text `lit` stands in `s` at position `i`.
pub open spec fn spec_match_lit(s: Seq<char>, i: int, lit: Seq<char>) -> bool {
    0 <= i && i + lit.len() <= s.len() && s.subrange(i, i + lit.len()) == lit
}

/// Reading a quoted name from position `i` (the opening quote already lies
/// behind) up to and over its closing quote.
pub open spec fn spec_parse_name(s: Seq<char>, i: int) -> Option<(Seq<char>, int)>
    decreases s.len() - i,
{
    if i < 0 || i >= s.len() {
        None
    } else if s[i] == '"' {
        Some((Seq::empty(), i + 1))
    } else if s[i] == '\\' {
        if i + 1 < s.len() && (s[i + 1] == '"' || s[i + 1] == '\\') {
            match spec_parse_name(s, i + 2) {
                Some(p) => Some((seq![s[i + 1]] + p.0, p.1)),
                None => None,
            }
        } else {
            None
        }
    } else {
        match spec_parse_name(s, i + 1) {
            Some(p) => Some((seq![s[i]] + p.0, p.1)),
            None => None,
        }
    }
}

/// Reading one record from position `i`.
pub open spec fn spec_parse_record(s: Seq<char>, i: int) -> Option<((u64, Seq<char>), int)> {
    if !spec_match_lit(s, i, "{\"file_id\":"@) {
        None
    } else {
        match spec_parse_u64(s, i + "{\"file_id\":"@.len()) {
            None => None,
            Some((id, j)) => {
                if !spec_match_lit(s, j, ",\"file_name\":\""@) {
                    None
                } else {
                    match spec_parse_name(s, j + ",\"file_name\":\""@.len()) {
                        None => None,
                        Some((nm, k)) => {
                            if !spec_match_lit(s, k, "}"@) {
                                None
                            } else {
                                Some(((id, nm), k + "}"@.len()))
                            }
                        },
                    }
                }
            },
        }
    }
}

/// Reading the records after the first: as long as a comma follows, a record
/// must follow it. The fuel only serves termination; any fuel at least the
/// number of records left behaves alike.
pub open spec fn spec_parse_more(s: Seq<char>, i: int, fuel: nat) -> Option<
    (Seq<(u64, Seq<char>)>, int),
>
    decreases fuel,
{
    if !(0 <= i < s.len() && s[i] == ',') {
        Some((Seq::empty(), i))
    } else if fuel == 0 {
        None
    } else {
        match spec_parse_record(s, i + 1) {
            None => None,
            Some((f, j)) => match spec_parse_more(s, j, (fuel - 1) as nat) {
                None => None,
                Some((fs, k)) => Some((seq![f] + fs, k)),
            },
        }
    }
}

/// Reading a whole document: exactly the texts `ser_index` writes are
/// accepted, and yield the records written.
pub open spec fn spec_parse_index(s: Seq<char>) -> Option<Seq<(u64, Seq<char>)>> {
    if !spec_match_lit(s, 0, "{\"files\":["@) {
        None
    } else {
        let i = "{\"files\":["@.len() as int;
        if spec_match_lit(s, i, "]}"@) && i + "]}"@.len() == s.len() {
            Some(Seq::empty())
        } else {
            match spec_parse_record(s, i) {
                None => None,
                Some((f, j)) => match spec_parse_more(s, j, s.len() as nat) {
                    None => None,
                    Some((fs, k)) => {
                        if spec_match_lit(s, k, "]}"@) && k + "]}"@.len() == s.len() {
                            Some(seq![f] + fs)
                        } else {
                            None
                        }
                    },
                },
            }
        }
    }
}

/// Escaping one more character appends its written form.
proof fn lemma_escape_push(s: Seq<char>, c: char)
    ensures
        escape(s.push(c)) == escape(s) + esc_char(c),
    decreases s.len(),
{
    if s.len() == 0 {
        assert(s.push(c)[0] == c);
        assert(s.push(c).drop_first() =~= Seq::<char>::empty());
        assert(escape(s.push(c)) == esc_char(c) + escape(s.push(c).drop_first()));
        assert(escape(s.push(c).drop_first()) == Seq::<char>::empty());
        assert(escape(s) == Seq::<char>::empty());
        assert(escape(s.push(c)) =~= escape(s) + esc_char(c));
    } else {
        assert(s.push(c)[0] == s[0]);
        assert(s.push(c).drop_first() =~= s.drop_first().push(c));
        lemma_escape_push(s.drop_first(), c);
        assert(escape(s.push(c)) == esc_char(s[0]) + escape(s.drop_first().push(c)));
        assert(escape(s.push(c)) == esc_char(s[0]) + (escape(s.drop_first()) + esc_char(c)));
        assert(escape(s) == esc_char(s[0]) + escape(s.drop_first()));
        assert(escape(s.push(c)) =~= escape(s) + esc_char(c));
    }
}

/// Writing one more record appends a comma and its written form.
proof fn lemma_ser_tail_push(m: Seq<(u64, Seq<char>)>, f: (u64, Seq<char>))
    ensures
        ser_tail(m.push(f)) == ser_tail(m) + seq![','] + ser_record(f),
    decreases m.len(),
{
    if m.len() == 0 {
        assert(m.push(f)[0] == f);
        assert(m.push(f).drop_first() =~= Seq::<(u64, Seq<char>)>::empty());
        assert(ser_tail(m.push(f)) == seq![','] + ser_record(f) + ser_tail(
            m.push(f).drop_first(),
        ));
        assert(ser_tail(m.push(f).drop_first()) == Seq::<char>::empty());
        assert(ser_tail(m) == Seq::<char>::empty());
        assert(ser_tail(m.push(f)) =~= ser_tail(m) + seq![','] + ser_record(f));
    } else {
        assert(m.push(f)[0] == m[0]);
        assert(m.push(f).drop_first() =~= m.drop_first().push(f));
        lemma_ser_tail_push(m.drop_first(), f);
        assert(ser_tail(m.push(f)) == seq![','] + ser_record(m[0]) + ser_tail(
            m.drop_first().push(f),
        ));
        assert(ser_tail(m) == seq![','] + ser_record(m[0]) + ser_tail(m.drop_first()));
        assert(ser_tail(m.push(f)) =~= ser_tail(m) + seq![','] + ser_record(f));
    }
}

/// Relies on String::push: appends exactly the one character.
#[verifier::external_body]
fn push_char(s: &mut String, c: char)
    ensures
        final(s)@ == old(s)@.push(c),
{
    s.push(c);
}

/// Appends the written (escaped) form of `name`.
fn append_escaped(out: &mut String, name: &str)
    ensures
        final(out)@ == old(out)@ + escape(name@),
{
    let n = name.unicode_len();
    let mut j: usize = 0;
    while j < n
        invariant
            j <= n,
            n == name@.len(),
            out@ == old(out)@ + escape(name@.take(j as int)),
        decreases n - j,
    {
        let c = name.get_char(j);
        if c == '"' || c == '\\' {
            push_char(out, '\\');
            push_char(out, c);
        } else {
            push_char(out, c);
        }
        proof {
            lemma_escape_push(name@.take(j as int), name@[j as int]);
            assert(name@.take(j + 1int) =~= name@.take(j as int).push(name@[j as int]));
            assert(out@ =~= old(out)@ + escape(name@.take(j + 1int)));
        }
        j += 1;
    }
    assert(name@.take(n as int) =~= name@);
}

/// Appends the written form of one record.
fn append_record(out: &mut String, rec: &FileRecord)
    ensures
        final(out)@ == old(out)@ + ser_record(rec@),
{
    out.append("{\"file_id\":");
    let ds = u64_to_string(rec.file_id);
    out.append(ds.as_str());
    out.append(",\"file_name\":\"");
    append_escaped(out, rec.file_name.as_str());
    out.append("\"}");
    assert(out@ =~= old(out)@ + ser_record(rec@));
}

/// A text standing at `i` splits into its two halves.
proof fn lemma_match_lit_split(s: Seq<char>, i: int, a: Seq<char>, b: Seq<char>)
    requires
        spec_match_lit(s, i, a + b),
    ensures
        spec_match_lit(s, i, a),
        spec_match_lit(s, i + a.len(), b),
{
    let ab = a + b;
    assert forall|k: int| 0 <= k < ab.len() implies s[i + k] == ab[k] by {
        assert(s.subrange(i, i + ab.len())[k] == s[i + k]);
    }
    assert(s.subrange(i, i + a.len()) =~= a);
    assert forall|k: int|
        0 <= k < b.len() implies s.subrange(i + a.len(), i + a.len() + b.len())[k] == b[k] by {
        assert(s[i + (a.len() + k)] == ab[a.len() + k]);
    }
    assert(s.subrange(i + a.len(), i + a.len() + b.len()) =~= b);
}

/// A text standing at `i` fixes each character under it.
proof fn lemma_match_lit_index(s: Seq<char>, i: int, p: Seq<char>)
    requires
        spec_match_lit(s, i, p),
    ensures
        forall|k: int| 0 <= k < p.len() ==> s[i + k] == #[trigger] p[k],
{
    assert forall|k: int| 0 <= k < p.len() implies s[i + k] == p[k] by {
        assert(s.subrange(i, i + p.len())[k] == s[i + k]);
    }
}

/// Where an escaped name and its closing quote stand, reading a name yields
/// exactly that name and ends past the quote.
proof fn lemma_parse_name_of_escape(s: Seq<char>, i: int, nm: Seq<char>)
    requires
        spec_match_lit(s, i, escape(nm) + seq!['"']),
    ensures
        spec_parse_name(s, i) == Some((nm, i + escape(nm).len() + 1)),
    decreases nm.len(),
{
    let e = escape(nm);
    lemma_match_lit_split(s, i, e, seq!['"']);
    lemma_match_lit_index(s, i + e.len(), seq!['"']);
    assert(s[i + e.len() + 0] == seq!['"'][0]);
    if nm.len() == 0 {
        assert(e == Seq::<char>::empty());
        assert(spec_parse_name(s, i) == Some((Seq::<char>::empty(), i + 1)));
        assert(Seq::<char>::empty() =~= nm);
    } else {
        let c = nm[0];
        let rest = nm.drop_first();
        assert(e == esc_char(c) + escape(rest));
        lemma_match_lit_split(s, i, esc_char(c), escape(rest));
        lemma_match_lit_index(s, i, esc_char(c));
        let ei = i + esc_char(c).len();
        assert(spec_match_lit(s, ei, escape(rest) + seq!['"'])) by {
            lemma_match_lit_index(s, ei, escape(rest));
            assert forall|k: int| 0 <= k < escape(rest).len() + 1 implies s[ei + k] == (escape(
                rest,
            ) + seq!['"'])[k] by {
                if k < escape(rest).len() {
                    assert(s[ei + k] == escape(rest)[k]);
                } else {
                    assert(ei + k == i + e.len());
                    assert(s[i + e.len() + 0] == seq!['"'][0]);
                }
            }
            assert(s.subrange(ei, ei + escape(rest).len() + 1) =~= escape(rest) + seq!['"']);
        }
        lemma_parse_name_of_escape(s, ei, rest);
        if c == '"' || c == '\\' {
            assert(esc_char(c) == seq!['\\', c]);
            assert(s[i + 0] == seq!['\\', c][0]);
            assert(s[i + 1] == seq!['\\', c][1]);
            assert(s[i] == '\\');
            assert(s[i + 1] == c);
            assert(spec_parse_name(s, i) == Some((seq![c] + rest, i + e.len() + 1)));
            assert(seq![c] + rest =~= nm);
        } else {
            assert(esc_char(c) == seq![c]);
            assert(s[i + 0] == seq![c][0]);
            assert(s[i] == c);
            assert(spec_parse_name(s, i) == Some((seq![c] + rest, i + e.len() + 1)));
            assert(seq![c] + rest =~= nm);
        }
    }
}

/// Where a written record stands, reading a record yields exactly it.
proof fn lemma_parse_record_of_ser(s: Seq<char>, i: int, f: (u64, Seq<char>))
    requires
        spec_match_lit(s, i, ser_record(f)),
    ensures
        spec_parse_record(s, i) == Some((f, i + ser_record(f).len())),
{
    let l1 = "{\"file_id\":"@;
    let d = dec_digits(f.0 as nat);
    let l2 = ",\"file_name\":\""@;
    let e = escape(f.1);
    let l3 = "\"}"@;
    reveal_strlit(",\"file_name\":\"");
    reveal_strlit("\"}");
    reveal_strlit("}");
    assert(ser_record(f) == l1 + d + l2 + e + l3);
    lemma_match_lit_split(s, i, l1 + d + l2 + e, l3);
    lemma_match_lit_split(s, i, l1 + d + l2, e);
    lemma_match_lit_split(s, i, l1 + d, l2);
    lemma_match_lit_split(s, i, l1, d);
    let i1 = i + l1.len();
    let j = i1 + d.len();
    let j2 = j + l2.len();
    let k = j2 + e.len();
    lemma_match_lit_index(s, i1, d);
    lemma_match_lit_index(s, j, l2);
    assert(s[j + 0] == l2[0]);
    assert(l2[0] == ',');
    assert(!is_digit_char(s[j]));
    crate::digits::lemma_parse_u64_of_dec_digits(s, i1, f.0);
    assert(spec_parse_u64(s, i1) == Some((f.0, j)));
    lemma_match_lit_index(s, k, l3);
    assert(s[k + 0] == l3[0]);
    assert(l3[0] == '"');
    assert(spec_match_lit(s, j2, e + seq!['"'])) by {
        lemma_match_lit_index(s, j2, e);
        assert forall|k2: int| 0 <= k2 < e.len() + 1 implies s[j2 + k2] == (e + seq!['"'])[k2] by {
            if k2 < e.len() {
                assert(s[j2 + k2] == e[k2]);
            } else {
                assert(j2 + k2 == k);
                assert(s[k + 0] == l3[0]);
            }
        }
        assert(s.subrange(j2, j2 + e.len() + 1) =~= e + seq!['"']);
    }
    lemma_parse_name_of_escape(s, j2, f.1);
    assert(spec_parse_name(s, j2) == Some((f.1, k + 1)));
    assert(spec_match_lit(s, k + 1, "}"@)) by {
        assert(s[k + 1] == l3[1]);
        assert(l3[1] == '}');
        assert("}"@ =~= seq!['}']);
        assert(s.subrange(k + 1, k + 2) =~= "}"@);
    }
    assert(spec_parse_record(s, i) == Some((f, k + 2)));
    assert(k + 2 == i + ser_record(f).len());
}

/// Writing records never takes fewer characters than there are records.
proof fn lemma_ser_tail_len(m: Seq<(u64, Seq<char>)>)
    ensures
        ser_tail(m).len() >= m.len(),
    decreases m.len(),
{
    if m.len() > 0 {
        lemma_ser_tail_len(m.drop_first());
    }
}

/// Where the written later records stand, followed by the closing bracket,
/// reading the later records yields exactly them.
proof fn lemma_parse_more_of_ser(s: Seq<char>, i: int, m: Seq<(u64, Seq<char>)>, fuel: nat)
    requires
        spec_match_lit(s, i, ser_tail(m) + seq![']']),
        fuel >= m.len(),
    ensures
        spec_parse_more(s, i, fuel) == Some((m, i + ser_tail(m).len())),
    decreases m.len(),
{
    lemma_match_lit_split(s, i, ser_tail(m), seq![']']);
    lemma_match_lit_index(s, i + ser_tail(m).len(), seq![']']);
    assert(s[i + ser_tail(m).len() + 0] == seq![']'][0]);
    if m.len() == 0 {
        assert(ser_tail(m).len() == 0);
        assert(s[i] == ']');
        assert(spec_parse_more(s, i, fuel) == Some((Seq::<(u64, Seq<char>)>::empty(), i)));
        assert(Seq::<(u64, Seq<char>)>::empty() =~= m);
    } else {
        let rest = m.drop_first();
        let head = seq![','] + ser_record(m[0]);
        assert(ser_tail(m) == head + ser_tail(rest));
        assert(ser_tail(m) + seq![']'] =~= head + (ser_tail(rest) + seq![']']));
        assert(spec_match_lit(s, i, head + (ser_tail(rest) + seq![']'])));
        lemma_match_lit_split(s, i, head, ser_tail(rest) + seq![']']);
        lemma_match_lit_split(s, i, seq![','], ser_record(m[0]));
        lemma_match_lit_index(s, i, seq![',']);
        assert(s[i + 0] == seq![','][0]);
        assert(s[i] == ',');
        lemma_parse_record_of_ser(s, i + 1, m[0]);
        let j = i + 1 + ser_record(m[0]).len();
        assert(i + head.len() == j);
        lemma_parse_more_of_ser(s, j, rest, (fuel - 1) as nat);
        assert(seq![m[0]] + rest =~= m);
        assert(spec_parse_more(s, i, fuel) == Some((m, i + ser_tail(m).len())));
    }
}

/// Law: reading back a written index yields exactly the records written.
/// Together with the index invariant (unique identifiers) this makes
/// persisting and loading a faithful round trip.
#[verifier::rlimit(100)]
pub proof fn lemma_store_round_trip(m: Seq<(u64, Seq<char>)>)
    ensures
        spec_parse_index(ser_index(m)) == Some(m),
{
    let s = ser_index(m);
    let open = "{\"files\":["@;
    let close = "]}"@;
    reveal_strlit("{\"files\":[");
    reveal_strlit("]}");
    reveal_strlit("{\"file_id\":");
    assert(s == open + ser_records(m) + close);
    assert(spec_match_lit(s, 0, s)) by {
        assert(s.subrange(0, s.len() as int) =~= s);
    }
    assert(s =~= open + (ser_records(m) + close));
    assert(spec_match_lit(s, 0, open + (ser_records(m) + close)));
    lemma_match_lit_split(s, 0, open, ser_records(m) + close);
    let i0 = open.len() as int;
    if m.len() == 0 {
        assert(ser_records(m).len() == 0);
        assert(ser_records(m) + close =~= close);
        assert(spec_match_lit(s, i0, close));
        assert(i0 + close.len() == s.len());
        assert(spec_parse_index(s) == Some(Seq::<(u64, Seq<char>)>::empty()));
        assert(Seq::<(u64, Seq<char>)>::empty() =~= m);
    } else {
        let rest = m.drop_first();
        let rec0 = ser_record(m[0]);
        assert(ser_records(m) == rec0 + ser_tail(rest));
        lemma_match_lit_split(s, i0, ser_records(m), close);
        lemma_match_lit_index(s, i0, ser_records(m));
        assert(s[i0 + 0] == ser_records(m)[0]);
        assert(ser_records(m)[0] == rec0[0]);
        assert(rec0 == "{\"file_id\":"@ + dec_digits(m[0].0 as nat) + ",\"file_name\":\""@
            + escape(m[0].1) + "\"}"@);
        assert(rec0[0] == "{\"file_id\":"@[0]);
        assert(s[i0] == '{');
        assert(!spec_match_lit(s, i0, close)) by {
            if spec_match_lit(s, i0, close) {
                assert(s.subrange(i0, i0 + close.len())[0] == s[i0 + 0]);
                assert(s[i0] == close[0]);
            }
        }
        assert(ser_records(m) + close =~= rec0 + (ser_tail(rest) + close));
        assert(spec_match_lit(s, i0, rec0 + (ser_tail(rest) + close)));
        lemma_match_lit_split(s, i0, rec0, ser_tail(rest) + close);
        lemma_parse_record_of_ser(s, i0, m[0]);
        let j = i0 + rec0.len();
        assert(spec_parse_record(s, i0) == Some((m[0], j)));
        assert(spec_match_lit(s, j, ser_tail(rest) + seq![']'])) by {
            lemma_match_lit_index(s, j, ser_tail(rest) + close);
            assert forall|k2: int| 0 <= k2 < ser_tail(rest).len() + 1 implies s[j + k2] == (
            ser_tail(rest) + seq![']'])[k2] by {
                assert(s[j + k2] == (ser_tail(rest) + close)[k2]);
                if k2 < ser_tail(rest).len() {
                } else {
                    assert((ser_tail(rest) + close)[k2] == close[0]);
                }
            }
            assert(s.subrange(j, j + ser_tail(rest).len() + 1) =~= ser_tail(rest) + seq![']']);
        }
        lemma_ser_tail_len(rest);
        lemma_parse_more_of_ser(s, j, rest, s.len() as nat);
        let k = j + ser_tail(rest).len();
        assert(spec_parse_more(s, j, s.len() as nat) == Some((rest, k)));
        lemma_match_lit_split(s, j, ser_tail(rest), close);
        assert(spec_match_lit(s, k, close));
        assert(k + close.len() == s.len());
        assert(seq![m[0]] + rest =~= m);
        assert(spec_parse_index(s) == Some(m));
    }
}

/// A name read from position `i` ends strictly after `i` and within the text.
proof fn lemma_parse_name_bounds(s: Seq<char>, i: int)
    requires
        0 <= i <= s.len(),
    ensures
        spec_parse_name(s, i) matches Some(p) ==> i < p.1 <= s.len(),
    decreases s.len() - i,
{
    if i < s.len() {
        if s[i] == '"' {
        } else if s[i] == '\\' {
            if i + 1 < s.len() && (s[i + 1] == '"' || s[i + 1] == '\\') {
                lemma_parse_name_bounds(s, i + 2);
            }
        } else {
            lemma_parse_name_bounds(s, i + 1);
        }
    }
}

/// A number read from position `i` ends strictly after `i` and within the
/// text.
proof fn lemma_parse_u64_bounds(s: Seq<char>, i: int)
    requires
        0 <= i <= s.len(),
    ensures
        spec_parse_u64(s, i) matches Some(p) ==> i < p.1 <= s.len(),
{
    crate::digits::lemma_digit_run_len_bounds(s, i);
}

/// A record read from position `i` ends strictly after `i` and within the
/// text.
proof fn lemma_parse_record_bounds(s: Seq<char>, i: int)
    requires
        0 <= i,
    ensures
        spec_parse_record(s, i) matches Some(p) ==> i < p.1 <= s.len(),
{
    if spec_match_lit(s, i, "{\"file_id\":"@) {
        let i1 = i + "{\"file_id\":"@.len();
        lemma_parse_u64_bounds(s, i1);
        match spec_parse_u64(s, i1) {
            None => {},
            Some((id, j)) => {
                if spec_match_lit(s, j, ",\"file_name\":\""@) {
                    let j2 = j + ",\"file_name\":\""@.len();
                    lemma_parse_name_bounds(s, j2);
                }
            },
        }
    }
}

/// Any fuel covering the text left behaves alike.
proof fn lemma_parse_more_fuel(s: Seq<char>, i: int, f1: nat, f2: nat)
    requires
        0 <= i <= s.len(),
        f1 >= s.len() - i,
        f2 >= s.len() - i,
    ensures
        spec_parse_more(s, i, f1) == spec_parse_more(s, i, f2),
    decreases f1,
{
    if 0 <= i < s.len() && s[i] == ',' {
        match spec_parse_record(s, i + 1) {
            None => {},
            Some((f, j)) => {
                lemma_parse_record_bounds(s, i + 1);
                lemma_parse_more_fuel(s, j, (f1 - 1) as nat, (f2 - 1) as nat);
            },
        }
    }
}

/// The characters of `s`, one by one.
fn str_to_chars(s: &str) -> (v: Vec<char>)
    ensures
        v@ == s@,
{
    let n = s.unicode_len();
    let mut v: Vec<char> = Vec::new();
    let mut j: usize = 0;
    while j < n
        invariant
            j <= n,
            n == s@.len(),
            v@ == s@.take(j as int),
        decreases n - j,
    {
        v.push(s.get_char(j));
        assert(v@ =~= s@.take(j + 1int));
        j += 1;
    }
    assert(s@.take(n as int) =~= s@);
    v
}

/// Checks that `lit` stands at position `i` and steps over it.
fn expect_lit(v: &Vec<char>, i: usize, lit: &str) -> (r: Option<usize>)
    requires
        i <= v@.len(),
    ensures
        match r {
            Some(j) => spec_match_lit(v@, i as int, lit@) && j == i + lit@.len() && j <= v@.len(),
            None => !spec_match_lit(v@, i as int, lit@),
        },
{
    let n = lit.unicode_len();
    if n > v.len() - i {
        return None;
    }
    let mut k: usize = 0;
    while k < n
        invariant
            k <= n,
            n == lit@.len(),
            i + n <= v@.len(),
            i + n <= usize::MAX,
            forall|t: int| 0 <= t < k ==> v@[i + t] == lit@[t],
        decreases n - k,
    {
        if lit.get_char(k) != v[i + k] {
            proof {
                if spec_match_lit(v@, i as int, lit@) {
                    assert(v@.subrange(i as int, i + lit@.len())[k as int] == v@[i + k]);
                }
            }
            return None;
        }
        k += 1;
    }
    proof {
        assert(v@.subrange(i as int, i + lit@.len()) =~= lit@);
    }
    Some(i + n)
}

/// Reads a quoted name at position `i`, as `spec_parse_name` describes it.
fn parse_name_at(v: &Vec<char>, i: usize) -> (r: Option<(String, usize)>)
    requires
        i <= v@.len(),
    ensures
        match r {
            Some(p) => spec_parse_name(v@, i as int) == Some((p.0@, p.1 as int)) && i < p.1
                <= v@.len(),
            None => spec_parse_name(v@, i as int) is None,
        },
{
    let mut acc = String::new();
    let mut j: usize = i;
    loop
        invariant
            i <= j <= v@.len(),
            spec_parse_name(v@, i as int) == (match spec_parse_name(v@, j as int) {
                Some(p) => Some((acc@ + p.0, p.1)),
                None => None::<(Seq<char>, int)>,
            }),
        decreases v@.len() - j,
    {
        if j >= v.len() {
            return None;
        }
        let c = v[j];
        if c == '"' {
            proof {
                assert(spec_parse_name(v@, j as int) == Some((Seq::<char>::empty(), j + 1int)));
                assert(acc@ + Seq::<char>::empty() =~= acc@);
                lemma_parse_name_bounds(v@, i as int);
            }
            return Some((acc, j + 1));
        } else if c == '\\' {
            if j + 1 >= v.len() {
                return None;
            }
            let c2 = v[j + 1];
            if c2 == '"' || c2 == '\\' {
                let ghost acc_old = acc@;
                push_char(&mut acc, c2);
                proof {
                    match spec_parse_name(v@, j + 2int) {
                        Some(p) => {
                            assert(spec_parse_name(v@, j as int) == Some(
                                (seq![c2] + p.0, p.1),
                            ));
                            assert(acc_old + (seq![c2] + p.0) =~= acc@ + p.0);
                        },
                        None => {},
                    }
                }
                j += 2;
            } else {
                return None;
            }
        } else {
            let ghost acc_old = acc@;
            push_char(&mut acc, c);
            proof {
                match spec_parse_name(v@, j + 1int) {
                    Some(p) => {
                        assert(spec_parse_name(v@, j as int) == Some((seq![c] + p.0, p.1)));
                        assert(acc_old + (seq![c] + p.0) =~= acc@ + p.0);
                    },
                    None => {},
                }
            }
            j += 1;
        }
    }
}

/// Reads one record at position `i`, as `spec_parse_record` describes it.
fn parse_record_at(v: &Vec<char>, i: usize) -> (r: Option<(FileRecord, usize)>)
    requires
        i <= v@.len(),
    ensures
        match r {
            Some(p) => spec_parse_record(v@, i as int) == Some((p.0@, p.1 as int)) && i < p.1
                <= v@.len(),
            None => spec_parse_record(v@, i as int) is None,
        },
{
    let i1 = match expect_lit(v, i, "{\"file_id\":") {
        Some(j) => j,
        None => {
            return None;
        },
    };
    let (id, j) = match crate::digits::parse_u64_at(v, i1) {
        Some(p) => p,
        None => {
            return None;
        },
    };
    let j2 = match expect_lit(v, j, ",\"file_name\":\"") {
        Some(x) => x,
        None => {
            return None;
        },
    };
    let (name, k) = match parse_name_at(v, j2) {
        Some(p) => p,
        None => {
            return None;
        },
    };
    let end = match expect_lit(v, k, "}") {
        Some(x) => x,
        None => {
            return None;
        },
    };
    let rec = FileRecord { file_id: id, file_name: name };
    assert(rec@ == (id, rec.file_name@));
    Some((rec, end))
}

impl FileIndex {
    /// Serializes the index as the persisted document, deterministically:
    /// equal indexes yield character-for-character equal documents.
    pub fn to_json(&self) -> (r: String)
        ensures
            r@ == ser_index(self@),
    {
        let mut out = String::from_str("{\"files\":[");
        let mut j: usize = 0;
        while j < self.files.len()
            invariant
                j <= self.files.len(),
                out@ == "{\"files\":["@ + ser_records(self@.take(j as int)),
            decreases self.files.len() - j,
        {
            if j > 0 {
                out.append(",");
                proof {
                    reveal_strlit(",");
                    assert(","@ =~= seq![',']);
                }
            }
            append_record(&mut out, &self.files[j]);
            proof {
                let taken = self@.take(j as int);
                let grown = self@.take(j + 1int);
                assert(grown =~= taken.push(self@[j as int]));
                if j == 0 {
                    assert(grown.drop_first() =~= Seq::<(u64, Seq<char>)>::empty());
                    assert(out@ =~= "{\"files\":["@ + ser_records(grown));
                } else {
                    lemma_ser_tail_push(taken.drop_first(), self@[j as int]);
                    assert(grown[0] == taken[0]);
                    assert(grown.drop_first() =~= taken.drop_first().push(self@[j as int]));
                    assert(out@ =~= "{\"files\":["@ + ser_records(grown));
                }
            }
            j += 1;
        }
        assert(self@.take(self@.len() as int) =~= self@);
        out.append("]}");
        assert(out@ =~= ser_index(self@));
        out
    }

    /// Parses a persisted document. Exactly the texts that `spec_parse_index`
    /// accepts yield an index; any other text is malformed, and an accepted
    /// text whose identifiers are not unique is corrupt.
    pub fn from_json(s: &str) -> (r: Result<FileIndex, ParseError>)
        ensures
            match r {
                Ok(idx) => spec_parse_index(s@) == Some(idx@) && idx.wf(),
                Err(ParseError::Malformed) => spec_parse_index(s@) is None,
                Err(ParseError::DuplicateId) => spec_parse_index(s@) matches Some(m)
                    && !unique_ids(m),
            },
    {
        let v = str_to_chars(s);
        let i = match expect_lit(&v, 0, "{\"files\":[") {
            Some(j) => j,
            None => {
                return Err(ParseError::Malformed);
            },
        };
        match expect_lit(&v, i, "]}") {
            Some(k) => {
                if k == v.len() {
                    return Ok(FileIndex::empty());
                }
            },
            None => {},
        }
        let (first, mut j) = match parse_record_at(&v, i) {
            Some(p) => p,
            None => {
                return Err(ParseError::Malformed);
            },
        };
        let mut records: Vec<FileRecord> = Vec::new();
        records.push(first);
        proof {
            lemma_parse_more_fuel(v@, j as int, v@.len() as nat, (v@.len() - j) as nat);
            assert(model_of(records@) =~= seq![first@]);
            match spec_parse_more(v@, j as int, (v@.len() - j) as nat) {
                None => {},
                Some((fs, k)) => {
                    assert(seq![first@] + fs =~= model_of(records@) + fs);
                },
            }
        }
        while j < v.len() && v[j] == ','
            invariant
                i <= j <= v@.len(),
                v@ == s@,
                match spec_parse_more(v@, j as int, (v@.len() - j) as nat) {
                    None => spec_parse_index(v@) is None,
                    Some((fs, k)) => spec_parse_index(v@) == (if spec_match_lit(v@, k, "]}"@)
                        && k + "]}"@.len() == v@.len() {
                        Some(model_of(records@) + fs)
                    } else {
                        None::<Seq<(u64, Seq<char>)>>
                    }),
                },
            decreases v@.len() - j,
        {
            let (f, j2) = match parse_record_at(&v, j + 1) {
                Some(p) => p,
                None => {
                    return Err(ParseError::Malformed);
                },
            };
            let ghost records_old = records@;
            records.push(f);
            proof {
                lemma_parse_more_fuel(v@, j2 as int, (v@.len() - j - 1) as nat, (v@.len()
                    - j2) as nat);
                assert(model_of(records@) =~= model_of(records_old).push(f@));
                match spec_parse_more(v@, j2 as int, (v@.len() - j2) as nat) {
                    None => {},
                    Some((fs, k)) => {
                        assert(model_of(records_old) + (seq![f@] + fs) =~= model_of(records@)
                            + fs);
                    },
                }
            }
            j = j2;
        }
        let end = match expect_lit(&v, j, "]}") {
            Some(k) => k,
            None => {
                return Err(ParseError::Malformed);
            },
        };
        if end != v.len() {
            return Err(ParseError::Malformed);
        }
        proof {
            match spec_parse_more(v@, j as int, (v@.len() - j) as nat) {
                None => {},
                Some((fs, k)) => {
                    assert(model_of(records@) + fs =~= model_of(records@));
                },
            }
        }
        match FileIndex::new(records) {
            Some(idx) => Ok(idx),
            None => Err(ParseError::DuplicateId),
        }
    }

    /// Loads the persisted index from what the store's file read handed back:
    /// a missing or unreadable file (`None`) is the recoverable first-run
    /// condition and yields the empty index, while readable but
    /// non-conforming contents are a distinguishable fatal error, never
    /// silently an empty index.
    pub fn load(contents: Option<&str>) -> (r: Result<FileIndex, ParseError>)
        ensures
            contents is None ==> (r matches Ok(idx) && idx@ == Seq::<(u64, Seq<char>)>::empty()),
            contents matches Some(s) ==> match r {
                Ok(idx) => spec_parse_index(s@) == Some(idx@) && idx.wf(),
                Err(ParseError::Malformed) => spec_parse_index(s@) is None,
                Err(ParseError::DuplicateId) => spec_parse_index(s@) matches Some(m)
                    && !unique_ids(m),
            },
    {
        match contents {
            None => Ok(FileIndex::empty()),
            Some(s) => FileIndex::from_json(s),
        }
    }
}

} // verus!
