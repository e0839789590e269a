//! Field extraction: the request-path filter, the minute-resolution
//! timestamp key, and the client IP key taken from the forwarded-for block.

use vstd::prelude::*;

use crate::text::contains_substr;
use crate::text::find_char_from;
use crate::text::find_last_char;
use crate::text::find_substr;
use crate::text::first_char_from;
use crate::text::first_match;
use crate::text::has_char_from;
use crate::text::has_match;
use crate::text::last_char;
use crate::text::lemma_first_char_from_is;
use crate::text::lemma_first_match_is;
use crate::text::lemma_last_char_is;
use crate::text::trim_seq;
use crate::text::trim_str;

verus! {

/// The request-path substring that a line must contain to be counted.
pub open spec fn filter_pat() -> Seq<char> {
    "/sap/opu/odata/sap/HCMFAB"@
}

/// Whether a line passes the record filter.
pub open spec fn spec_matches_filter(line: Seq<char>) -> bool {
    has_match(line, filter_pat())
}

/// Whether `line` contains the request-path substring that selects the
/// lines to be counted.
pub fn line_matches_filter(line: &str) -> (r: bool)
    ensures
        r == spec_matches_filter(line@),
{
    contains_substr(line, "/sap/opu/odata/sap/HCMFAB")
}

/// The minute key of the timestamp text found between the leading brackets:
/// the part up to the third colon (date, hour, minute), or all of it when
/// exactly two colons are present; nothing when fewer.
pub open spec fn minute_of_timestamp(ts: Seq<char>) -> Option<Seq<char>> {
    if !has_char_from(ts, ':', 0) {
        None
    } else {
        let c1 = first_char_from(ts, ':', 0);
        if !has_char_from(ts, ':', c1 + 1) {
            None
        } else {
            let c2 = first_char_from(ts, ':', c1 + 1);
            if has_char_from(ts, ':', c2 + 1) {
                Some(ts.subrange(0, first_char_from(ts, ':', c2 + 1)))
            } else {
                Some(ts)
            }
        }
    }
}

/// The minute key of a log line: the line must open with `[`, the timestamp
/// runs to the first `]`, and its first three colon-separated fields are
/// kept. Nothing when any of that is missing.
pub open spec fn minute_key(line: Seq<char>) -> Option<Seq<char>> {
    if line.len() == 0 || line[0] != '[' {
        None
    } else if !has_char_from(line, ']', 0) {
        None
    } else {
        minute_of_timestamp(line.subrange(1, first_char_from(line, ']', 0)))
    }
}

/// The minute-resolution timestamp key of `line`, e.g.
/// `21/Feb/2026:19:48` from a line opening with
/// `[21/Feb/2026:19:48:21 +0100]`, or `None` when the line does not open
/// with a bracketed timestamp of at least three colon-separated fields.
pub fn extract_minute(line: &str) -> (r: Option<String>)
    ensures
        match r {
            Some(m) => minute_key(line@) == Some(m@),
            None => minute_key(line@) is None,
        },
{
    let n = line.unicode_len();
    if n == 0 || line.get_char(0) != '[' {
        return None;
    }
    let close = match find_char_from(line, ']', 0) {
        Some(c) => c,
        None => {
            return None;
        },
    };
    proof {
        lemma_first_char_from_is(line@, ']', 0, close as int);
        assert(line@[close as int] == ']');
        assert(close >= 1) by {
            assert(line@[0] == '[');
        }
    }
    let ts = line.substring_char(1, close);
    proof {
        assert(ts@ == line@.subrange(1, first_char_from(line@, ']', 0)));
    }
    let c1 = match find_char_from(ts, ':', 0) {
        Some(c) => c,
        None => {
            return None;
        },
    };
    proof {
        lemma_first_char_from_is(ts@, ':', 0, c1 as int);
    }
    let c2 = match find_char_from(ts, ':', c1 + 1) {
        Some(c) => c,
        None => {
            return None;
        },
    };
    proof {
        lemma_first_char_from_is(ts@, ':', c1 + 1, c2 as int);
    }
    match find_char_from(ts, ':', c2 + 1) {
        Some(c3) => {
            proof {
                lemma_first_char_from_is(ts@, ':', c2 + 1, c3 as int);
            }
            let head = ts.substring_char(0, c3);
            Some(String::from_str(head))
        },
        None => Some(String::from_str(ts)),
    }
}

/// The marker that opens the forwarded-for block.
pub open spec fn marker_pat() -> Seq<char> {
    "[x-forwarded-for : "@
}

/// The last comma-separated element of `content`: the part after the last
/// comma, or all of `content` when it has no comma.
pub open spec fn last_list_elem(content: Seq<char>) -> Seq<char> {
    if has_char_from(content, ',', 0) {
        content.subrange(last_char(content, ',') + 1, content.len() as int)
    } else {
        content
    }
}

/// The client IP key of a log line: inside the first forwarded-for block
/// (from the first marker occurrence to the next `]`), the last
/// comma-separated element with surrounding white space removed. Nothing
/// when the marker or the closing bracket is missing.
pub open spec fn ip_key(line: Seq<char>) -> Option<Seq<char>> {
    if !has_match(line, marker_pat()) {
        None
    } else {
        let start = first_match(line, marker_pat()) + marker_pat().len();
        if !has_char_from(line, ']', start) {
            None
        } else {
            Some(trim_seq(last_list_elem(line.subrange(start, first_char_from(line, ']', start)))))
        }
    }
}

/// The client IP key of `line`: the trimmed last entry of the
/// comma-separated list inside the `[x-forwarded-for : ...]` block, e.g.
/// `10.0.72.1` from `[x-forwarded-for : 94.31.115.82, 10.0.72.1]`, or
/// `None` when the line has no such block.
pub fn extract_internal_ip(line: &str) -> (r: Option<String>)
    ensures
        match r {
            Some(ip) => ip_key(line@) == Some(ip@),
            None => ip_key(line@) is None,
        },
{
    let marker = "[x-forwarded-for : ";
    let found = match find_substr(line, marker) {
        Some(i) => i,
        None => {
            return None;
        },
    };
    let n = line.unicode_len();
    proof {
        lemma_first_match_is(line@, marker@, found as int);
        assert(found + marker@.len() <= line@.len());
    }
    let start = found + marker.unicode_len();
    assert(start <= n);
    let close = match find_char_from(line, ']', start) {
        Some(c) => c,
        None => {
            return None;
        },
    };
    proof {
        lemma_first_char_from_is(line@, ']', start as int, close as int);
    }
    let content = line.substring_char(start, close);
    proof {
        assert(content@ == line@.subrange(
            first_match(line@, marker_pat()) + marker_pat().len(),
            first_char_from(line@, ']', first_match(line@, marker_pat()) + marker_pat().len()),
        ));
    }
    let elem = match find_last_char(content, ',') {
        Some(lc) => {
            proof {
                lemma_last_char_is(content@, ',', lc as int);
            }
            content.substring_char(lc + 1, content.unicode_len())
        },
        None => content,
    };
    proof {
        assert(elem@ == last_list_elem(content@));
    }
    Some(trim_str(elem))
}

} // verus!
