//! Helpers for wiki pages: the readable title of a page and the two
//! components of a wiki link.

use crate::text::{find_char, find_from, lemma_find_from, strip_cr, to_chars, trim, trim_range};
use vstd::prelude::*;

verus! {

/// The first line of a document, as `str::lines` would yield it; empty
/// for an empty document.
pub open spec fn first_line(s: Seq<char>) -> Seq<char> {
    let nl = find_from(s, '\n', 0);
    if nl >= s.len() {
        s
    } else {
        strip_cr(s.subrange(0, nl))
    }
}

/// A line with every leading `"# "` heading marker removed.
pub open spec fn trim_heading(s: Seq<char>) -> Seq<char>
    decreases s.len(),
{
    if s.len() >= 2 && s[0] == '#' && s[1] == ' ' {
        trim_heading(s.skip(2))
    } else {
        s
    }
}

/// The readable title of a page: its first line, without heading markers.
pub open spec fn spec_extract_title(s: Seq<char>) -> Seq<char> {
    trim_heading(first_line(s))
}

/// The readable title of a page: the text of its first line, with the
/// markdown heading prefix removed.
pub fn extract_title(input: &str) -> (r: &str)
    ensures
        r@ == spec_extract_title(input@),
{
    let n = input.unicode_len();
    let mut nl: usize = 0;
    while nl < n && input.get_char(nl) != '\n'
        invariant
            nl <= n,
            n == input@.len(),
            forall|k: int| 0 <= k < nl ==> input@[k] != '\n',
        decreases n - nl,
    {
        nl = nl + 1;
    }
    proof {
        lemma_find_from(input@, '\n', 0);
        assert(nl as int == find_from(input@, '\n', 0));
    }
    let end = if nl < n {
        if nl > 0 && input.get_char(nl - 1) == '\r' {
            nl - 1
        } else {
            nl
        }
    } else {
        n
    };
    proof {
        if nl < n {
            let raw = input@.subrange(0, nl as int);
            if nl > 0 && input@[nl - 1] == '\r' {
                assert(raw.len() > 0 && raw.last() == '\r');
                assert(raw.drop_last() =~= input@.subrange(0, nl - 1));
            } else {
                assert(!(raw.len() > 0 && raw.last() == '\r'));
            }
        } else {
            assert(input@.subrange(0, n as int) =~= input@);
        }
        assert(first_line(input@) == input@.subrange(0, end as int));
    }
    let ghost fl = first_line(input@);
    let mut start: usize = 0;
    while end - start > 1
        invariant
            start <= end,
            end <= n,
            n == input@.len(),
            trim_heading(fl) == trim_heading(input@.subrange(start as int, end as int)),
        ensures
            start <= end <= n,
            n == input@.len(),
            trim_heading(fl) == input@.subrange(start as int, end as int),
        decreases end - start,
    {
        let a = input.get_char(start);
        let b = input.get_char(start + 1);
        if a == '#' && b == ' ' {
            proof {
                let sub = input@.subrange(start as int, end as int);
                assert(sub[0] == '#' && sub[1] == ' ');
                assert(sub.skip(2) =~= input@.subrange(start + 2, end as int));
            }
            start = start + 2;
        } else {
            proof {
                let sub = input@.subrange(start as int, end as int);
                assert(!(sub.len() >= 2 && sub[0] == '#' && sub[1] == ' '));
            }
            break ;
        }
    }
    input.substring_char(start, end)
}

/// The two components of a wiki link `user/page`: the text before the
/// first slash and everything after it, both trimmed of whitespace;
/// absent when there is no slash or either side is blank.
pub open spec fn spec_extract_details(s: Seq<char>) -> Option<(Seq<char>, Seq<char>)> {
    let sl = find_from(s, '/', 0);
    if sl >= s.len() {
        None
    } else {
        let f = trim(s.subrange(0, sl));
        let sec = trim(s.subrange(sl + 1, s.len() as int));
        if f.len() == 0 || sec.len() == 0 {
            None
        } else {
            Some((f, sec))
        }
    }
}

/// Splits a wiki link `user/page` at its first slash into the trimmed
/// user and page parts, or nothing when either part is blank or the
/// slash is missing.
pub fn extract_details_wiki_url(url: &str) -> (r: Option<(String, String)>)
    ensures
        match r {
            Some(p) => spec_extract_details(url@) == Some((p.0@, p.1@)),
            None => spec_extract_details(url@) is None,
        },
{
    let chars = to_chars(url);
    let n = chars.len();
    let sl = find_char(&chars, 0, '/');
    if sl >= n {
        return None;
    }
    let (a1, b1) = trim_range(&chars, 0, sl);
    let (a2, b2) = trim_range(&chars, sl + 1, n);
    proof {
        assert(trim(url@.subrange(0, sl as int)).len() == b1 - a1);
        assert(trim(url@.subrange(sl + 1, n as int)).len() == b2 - a2);
    }
    if a1 == b1 || a2 == b2 {
        return None;
    }
    let first = String::from_str(url.substring_char(a1, b1));
    let second = String::from_str(url.substring_char(a2, b2));
    Some((first, second))
}

} // verus!
