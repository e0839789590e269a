//! The report: aggregate entries sorted ascending by (minute, ip) and
//! rendered as a fixed-width text table.
//!
//! The sort compares the minute keys as plain text. Within one month and
//! year that coincides with chronological order; across month names (`Feb`,
//! `Mar`, ...) it is alphabetical, not chronological.

use vstd::prelude::*;

use crate::aggregate::Aggregate;
use crate::aggregate::Entry;
use crate::text::lemma_lex_le_antisym;
use crate::text::lemma_lex_le_total;
use crate::text::lemma_lex_le_trans;
use crate::text::lex_le;
use crate::text::str_eq;
use crate::text::str_le;

verus! {

broadcast use vstd::seq_lib::group_to_multiset_ensures, vstd::seq_lib::to_multiset_insert;

/// Report order on (minute, ip) keys: by the minute text first, then by the
/// ip text, both lexicographically.
pub open spec fn key_le(a: (Seq<char>, Seq<char>), b: (Seq<char>, Seq<char>)) -> bool {
    if a.0 == b.0 {
        lex_le(a.1, b.1)
    } else {
        lex_le(a.0, b.0)
    }
}

/// `key_le` is total.
pub proof fn lemma_key_le_total(a: (Seq<char>, Seq<char>), b: (Seq<char>, Seq<char>))
    ensures
        key_le(a, b) || key_le(b, a),
{
    if a.0 == b.0 {
        lemma_lex_le_total(a.1, b.1);
    } else {
        lemma_lex_le_total(a.0, b.0);
    }
}

/// `key_le` is transitive.
pub proof fn lemma_key_le_trans(
    a: (Seq<char>, Seq<char>),
    b: (Seq<char>, Seq<char>),
    c: (Seq<char>, Seq<char>),
)
    requires
        key_le(a, b),
        key_le(b, c),
    ensures
        key_le(a, c),
{
    if a.0 == b.0 && b.0 == c.0 {
        lemma_lex_le_trans(a.1, b.1, c.1);
    } else if a.0 == c.0 {
        lemma_lex_le_antisym(a.0, b.0);
    } else if a.0 == b.0 {
    } else if b.0 == c.0 {
    } else {
        lemma_lex_le_trans(a.0, b.0, c.0);
    }
}

/// The entry views of `s` stand in report order.
pub open spec fn report_sorted(s: Seq<((Seq<char>, Seq<char>), nat)>) -> bool {
    forall|i: int, j: int| 0 <= i < j < s.len() ==> key_le(#[trigger] s[i].0, #[trigger] s[j].0)
}

/// Whether `a` comes no later than `b` in report order.
fn entry_le(a: &Entry, b: &Entry) -> (r: bool)
    ensures
        r == key_le(a@.0, b@.0),
{
    if str_eq(a.minute.as_str(), b.minute.as_str()) {
        str_le(a.ip.as_str(), b.ip.as_str())
    } else {
        str_le(a.minute.as_str(), b.minute.as_str())
    }
}

/// A copy of `e`.
fn clone_entry(e: &Entry) -> (r: Entry)
    ensures
        r@ == e@,
{
    Entry { minute: e.minute.clone(), ip: e.ip.clone(), count: e.count }
}

/// The aggregate's entries in report order: ascending by (minute, ip),
/// holding exactly the aggregate's entries.
pub fn sorted_entries(agg: &Aggregate) -> (r: Vec<Entry>)
    ensures
        r@.len() == agg@.len(),
        r@.map_values(|e: Entry| e@).to_multiset() == agg@.to_multiset(),
        report_sorted(r@.map_values(|e: Entry| e@)),
{
    let ghost f = |e: Entry| e@;
    let mut out: Vec<Entry> = Vec::new();
    let n = agg.len();
    proof {
        assert(out@.map_values(f) =~= Seq::<((Seq<char>, Seq<char>), nat)>::empty());
        assert(agg@.subrange(0, 0) =~= Seq::<((Seq<char>, Seq<char>), nat)>::empty());
    }
    let mut idx: usize = 0;
    while idx < n
        invariant
            0 <= idx <= n,
            n == agg@.len(),
            out@.len() == idx,
            out@.map_values(f).to_multiset() == agg@.subrange(0, idx as int).to_multiset(),
            report_sorted(out@.map_values(f)),
            f == (|e: Entry| e@),
        decreases n - idx,
    {
        let e = clone_entry(agg.get(idx));
        let ghost old_out = out@;
        let ghost v = out@.map_values(f);
        let m = out.len();
        let mut pos: usize = 0;
        while pos < m && entry_le(&out[pos], &e)
            invariant
                0 <= pos <= m,
                m == out@.len(),
                out@ == old_out,
                v == out@.map_values(f),
                f == (|e: Entry| e@),
                e@ == agg@[idx as int],
                0 <= idx < agg@.len(),
                forall|j: int| 0 <= j < pos ==> key_le(#[trigger] v[j].0, e@.0),
            decreases m - pos,
        {
            assert(v[pos as int] == out@[pos as int]@);
            pos = pos + 1;
        }
        proof {
            if pos < m {
                assert(v[pos as int] == out@[pos as int]@);
                assert(!key_le(v[pos as int].0, e@.0));
                lemma_key_le_total(v[pos as int].0, e@.0);
                assert(key_le(e@.0, v[pos as int].0));
            }
        }
        out.insert(pos, e);
        proof {
            let w = out@.map_values(f);
            assert(w =~= v.insert(pos as int, e@)) by {
                old_out.insert_ensures(pos as int, e);
                assert forall|i: int| 0 <= i < w.len() implies w[i] == v.insert(pos as int, e@)[i]
                    by {
                    assert(w[i] == out@[i]@);
                    if i < pos {
                        assert(out@[i] == old_out[i]);
                        assert(v[i] == old_out[i]@);
                    } else if i == pos {
                        assert(out@[i] == e);
                    } else {
                        assert(out@[i] == old_out[i - 1]);
                        assert(v[i - 1] == old_out[i - 1]@);
                    }
                }
            }
            assert(report_sorted(w)) by {
                assert forall|i: int, j: int| 0 <= i < j < w.len() implies key_le(
                    #[trigger] w[i].0,
                    #[trigger] w[j].0,
                ) by {
                    let p = pos as int;
                    if j < p {
                        assert(w[i] == v[i] && w[j] == v[j]);
                    } else if i > p {
                        assert(w[i] == v[i - 1] && w[j] == v[j - 1]);
                    } else if i < p && j == p {
                        assert(w[i] == v[i] && w[j] == e@);
                    } else if i == p {
                        assert(w[i] == e@ && w[j] == v[j - 1]);
                        assert(p <= j - 1 < v.len());
                        if p < v.len() {
                            assert(key_le(e@.0, v[p].0));
                            if j - 1 > p {
                                assert(key_le(v[p].0, v[j - 1].0));
                                lemma_key_le_trans(e@.0, v[p].0, v[j - 1].0);
                            }
                        }
                    } else {
                        assert(i < p && j > p);
                        assert(w[i] == v[i] && w[j] == v[j - 1]);
                        if j - 1 == i {
                            assert(w[j] == v[i]);
                            assert(key_le(v[i].0, e@.0));
                            assert(false);
                        } else {
                            assert(key_le(v[i].0, v[j - 1].0));
                        }
                    }
                }
            }
            assert(w.to_multiset() == agg@.subrange(0, idx + 1).to_multiset()) by {
                assert(w.to_multiset() =~= v.to_multiset().insert(e@));
                assert(agg@.subrange(0, idx + 1) =~= agg@.subrange(0, idx as int).push(
                    agg@[idx as int],
                ));
            }
        }
        idx = idx + 1;
    }
    proof {
        assert(agg@.subrange(0, n as int) =~= agg@);
    }
    out
}

/// `n` spaces.
pub open spec fn spaces(n: nat) -> Seq<char>
    decreases n,
{
    if n == 0 {
        Seq::empty()
    } else {
        spaces((n - 1) as nat).push(' ')
    }
}

/// `s` left-justified in a field of width `w`: padded with spaces when
/// shorter, kept whole when not.
pub open spec fn pad_to(s: Seq<char>, w: nat) -> Seq<char> {
    if s.len() >= w {
        s
    } else {
        s + spaces((w - s.len()) as nat)
    }
}

/// The decimal digit character for `d`.
pub open spec fn digit_char(d: nat) -> char {
    if d == 0 {
        '0'
    } else if d == 1 {
        '1'
    } else if d == 2 {
        '2'
    } else if d == 3 {
        '3'
    } else if d == 4 {
        '4'
    } else if d == 5 {
        '5'
    } else if d == 6 {
        '6'
    } else if d == 7 {
        '7'
    } else if d == 8 {
        '8'
    } else {
        '9'
    }
}

/// The decimal rendering of `n`, without leading zeros (a single `0` for
/// zero itself).
pub open spec fn dec_str(n: nat) -> Seq<char>
    decreases n,
{
    if n < 10 {
        seq![digit_char(n)]
    } else {
        dec_str(n / 10).push(digit_char(n % 10))
    }
}

/// One table row: the minute in a width-20 field, the ip in a width-15
/// field, then the count, separated by ` | `.
pub open spec fn row_text(row: ((Seq<char>, Seq<char>), nat)) -> Seq<char> {
    pad_to(row.0.0, 20) + " | "@ + pad_to(row.0.1, 15) + " | "@ + dec_str(row.1)
}

/// The table's header row.
pub open spec fn header_text() -> Seq<char> {
    "Time (Minute)        | Internal IP     | Requests"@
}

/// The dash separator under the header.
pub open spec fn separator_text() -> Seq<char> {
    "---------------------+-----------------+-----------"@
}

/// Append `n` spaces to `s`.
fn push_spaces(s: &mut String, n: usize)
    ensures
        final(s)@ == old(s)@ + spaces(n as nat),
{
    proof {
        assert(" "@ =~= seq![' ']) by {
            reveal_strlit(" ");
        }
        assert(old(s)@ + spaces(0) =~= old(s)@);
    }
    let mut i: usize = 0;
    while i < n
        invariant
            0 <= i <= n,
            s@ == old(s)@ + spaces(i as nat),
            " "@ =~= seq![' '],
        decreases n - i,
    {
        s.append(" ");
        proof {
            assert(spaces((i + 1) as nat) == spaces(i as nat).push(' '));
            assert(old(s)@ + spaces(i as nat) + " "@ =~= old(s)@ + spaces((i + 1) as nat));
        }
        i = i + 1;
    }
}

/// The one-character decimal rendering of a digit.
fn digit_str(d: usize) -> (r: &'static str)
    requires
        d < 10,
    ensures
        r@ == seq![digit_char(d as nat)],
{
    if d == 0 {
        proof {
            reveal_strlit("0");
            assert("0"@ =~= seq!['0']);
        }
        "0"
    } else if d == 1 {
        proof {
            reveal_strlit("1");
            assert("1"@ =~= seq!['1']);
        }
        "1"
    } else if d == 2 {
        proof {
            reveal_strlit("2");
            assert("2"@ =~= seq!['2']);
        }
        "2"
    } else if d == 3 {
        proof {
            reveal_strlit("3");
            assert("3"@ =~= seq!['3']);
        }
        "3"
    } else if d == 4 {
        proof {
            reveal_strlit("4");
            assert("4"@ =~= seq!['4']);
        }
        "4"
    } else if d == 5 {
        proof {
            reveal_strlit("5");
            assert("5"@ =~= seq!['5']);
        }
        "5"
    } else if d == 6 {
        proof {
            reveal_strlit("6");
            assert("6"@ =~= seq!['6']);
        }
        "6"
    } else if d == 7 {
        proof {
            reveal_strlit("7");
            assert("7"@ =~= seq!['7']);
        }
        "7"
    } else if d == 8 {
        proof {
            reveal_strlit("8");
            assert("8"@ =~= seq!['8']);
        }
        "8"
    } else {
        proof {
            reveal_strlit("9");
            assert("9"@ =~= seq!['9']);
        }
        "9"
    }
}

/// The decimal rendering of `n`.
pub fn usize_to_string(n: usize) -> (r: String)
    ensures
        r@ == dec_str(n as nat),
    decreases n,
{
    if n < 10 {
        String::from_str(digit_str(n))
    } else {
        let mut s = usize_to_string(n / 10);
        let d = digit_str(n % 10);
        s.append(d);
        proof {
            assert(s@ =~= dec_str((n / 10) as nat).push(digit_char((n % 10) as nat)));
        }
        s
    }
}

/// The table row for entry `e`.
pub fn format_row(e: &Entry) -> (r: String)
    ensures
        r@ == row_text(e@),
{
    let mut s = String::new();
    s.append(e.minute.as_str());
    let l = e.minute.as_str().unicode_len();
    if l < 20 {
        push_spaces(&mut s, 20 - l);
    }
    assert(s@ =~= pad_to(e.minute@, 20));
    s.append(" | ");
    s.append(e.ip.as_str());
    let l2 = e.ip.as_str().unicode_len();
    if l2 < 15 {
        push_spaces(&mut s, 15 - l2);
    }
    assert(s@ =~= pad_to(e.minute@, 20) + " | "@ + pad_to(e.ip@, 15));
    s.append(" | ");
    let c = usize_to_string(e.count);
    s.append(c.as_str());
    proof {
        assert(s@ =~= row_text(e@));
    }
    s
}

/// The header row.
pub fn header_line() -> (r: String)
    ensures
        r@ == header_text(),
{
    String::from_str("Time (Minute)        | Internal IP     | Requests")
}

/// The separator row.
pub fn separator_line() -> (r: String)
    ensures
        r@ == separator_text(),
{
    String::from_str("---------------------+-----------------+-----------")
}

/// `lines` is the rendered table for the row sequence `rows`: header,
/// separator, then one formatted row per entry, in order.
pub open spec fn report_lines_for(
    rows: Seq<((Seq<char>, Seq<char>), nat)>,
    lines: Seq<String>,
) -> bool {
    &&& lines.len() == rows.len() + 2
    &&& lines[0]@ == header_text()
    &&& lines[1]@ == separator_text()
    &&& (forall|i: int| 0 <= i < rows.len() ==> lines[i + 2]@ == row_text(#[trigger] rows[i]))
}

/// The whole report: header, separator, and one row per aggregate entry,
/// the entries in report order.
pub fn render_report(agg: &Aggregate) -> (lines: Vec<String>)
    ensures
        lines@.len() == agg@.len() + 2,
        exists|rows: Seq<((Seq<char>, Seq<char>), nat)>|
            {
                &&& rows.to_multiset() == agg@.to_multiset()
                &&& report_sorted(rows)
                &&& #[trigger] report_lines_for(rows, lines@)
            },
{
    let ghost f = |e: Entry| e@;
    let sorted = sorted_entries(agg);
    let ghost rows = sorted@.map_values(f);
    let mut lines: Vec<String> = Vec::new();
    lines.push(header_line());
    lines.push(separator_line());
    let n = sorted.len();
    let mut i: usize = 0;
    while i < n
        invariant
            0 <= i <= n,
            n == sorted@.len(),
            lines@.len() == i + 2,
            rows == sorted@.map_values(f),
            f == (|e: Entry| e@),
            lines@[0]@ == header_text(),
            lines@[1]@ == separator_text(),
            forall|j: int| 0 <= j < i ==> lines@[j + 2]@ == row_text(#[trigger] rows[j]),
        decreases n - i,
    {
        let row = format_row(&sorted[i]);
        assert(row@ == row_text(rows[i as int]));
        lines.push(row);
        i = i + 1;
    }
    proof {
        assert(report_lines_for(rows, lines@));
    }
    lines
}

} // verus!
