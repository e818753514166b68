//! Rewrites the custom wiki link syntax `(display text)[user/page]` into
//! standard markdown `[display text](user/page)`.
//!
//! A link is a `(`, at least one character other than `)`, a `)` directly
//! followed by `[`, at least one character other than `]`, and a `]`.
//! Links are rewritten left to right and never overlap; all other text
//! passes through unchanged.

use crate::text::{find_char, find_from, lemma_find_from, to_chars};
use vstd::prelude::*;

verus! {

/// Whether a link starts at position `p`, with `j` the position of its
/// `)` and `k` the position of its `]`.
pub open spec fn link_at(s: Seq<char>, p: int, j: int, k: int) -> bool {
    &&& 0 <= p
    &&& s.len() > p
    &&& s[p] == '('
    &&& j == find_from(s, ')', p + 1)
    &&& j < s.len()
    &&& j > p + 1
    &&& j + 1 < s.len()
    &&& s[j + 1] == '['
    &&& k == find_from(s, ']', j + 2)
    &&& k < s.len()
    &&& k > j + 2
}

/// The text from position `p` on, with every custom link rewritten into
/// markdown form.
pub open spec fn convert_from(s: Seq<char>, p: int) -> Seq<char>
    decreases s.len() - p,
    via convert_from_decreases
{
    if p >= s.len() {
        Seq::empty()
    } else {
        let j = find_from(s, ')', p + 1);
        let k = find_from(s, ']', j + 2);
        if s[p] == '(' && link_at(s, p, j, k) {
            seq!['['] + s.subrange(p + 1, j) + seq![']', '('] + s.subrange(j + 2, k) + seq![')']
                + convert_from(s, k + 1)
        } else {
            seq![s[p]] + convert_from(s, p + 1)
        }
    }
}

#[via_fn]
proof fn convert_from_decreases(s: Seq<char>, p: int) {
    if p < s.len() {
        let j = find_from(s, ')', p + 1);
        if p + 1 <= s.len() {
            lemma_find_from(s, ')', p + 1);
        }
        if j + 2 <= s.len() {
            lemma_find_from(s, ']', j + 2);
        }
    }
}

/// The whole text with every custom link rewritten into markdown form.
pub open spec fn convert_links(s: Seq<char>) -> Seq<char> {
    convert_from(s, 0)
}

/// Converts the custom wiki link format `(display text)[user/page]` to
/// standard markdown `[display text](user/page)`.
pub fn convert_custom_links(content: &str) -> (r: String)
    ensures
        r@ == convert_links(content@),
{
    let chars = to_chars(content);
    let n = chars.len();
    let mut out = String::new();
    proof {
        reveal_strlit("[");
        reveal_strlit("]");
        reveal_strlit("(");
        reveal_strlit(")");
    }
    let mut p: usize = 0;
    while p < n
        invariant
            p <= n,
            n == content@.len(),
            chars@ == content@,
            convert_links(content@) == out@ + convert_from(content@, p as int),
        decreases n - p,
    {
        let ghost pre = out@;
        let mut matched = false;
        if chars[p] == '(' {
            let j = find_char(&chars, p + 1, ')');
            proof {
                lemma_find_from(content@, ')', p + 1);
            }
            if j < n && j > p + 1 && j + 1 < n && chars[j + 1] == '[' {
                let k = find_char(&chars, j + 2, ']');
                proof {
                    lemma_find_from(content@, ']', j + 2);
                }
                if k < n && k > j + 2 {
                    out.append("[");
                    out.append(content.substring_char(p + 1, j));
                    out.append("]");
                    out.append("(");
                    out.append(content.substring_char(j + 2, k));
                    out.append(")");
                    proof {
                        reveal_strlit("[");
                        reveal_strlit("]");
                        reveal_strlit("(");
                        reveal_strlit(")");
                        assert(link_at(content@, p as int, j as int, k as int));
                        assert(out@ =~= pre + (seq!['['] + content@.subrange(p + 1, j as int)
                            + seq![']', '('] + content@.subrange(j + 2, k as int) + seq![')']));
                        assert(convert_from(content@, p as int) =~= (seq!['['] + content@.subrange(
                            p + 1,
                            j as int,
                        ) + seq![']', '('] + content@.subrange(j + 2, k as int) + seq![')'])
                            + convert_from(content@, k + 1));
                        assert(pre + (seq!['['] + content@.subrange(p + 1, j as int) + seq![
                            ']',
                            '(',
                        ] + content@.subrange(j + 2, k as int) + seq![')']) + convert_from(
                            content@,
                            k + 1,
                        ) =~= pre + convert_from(content@, p as int));
                    }
                    p = k + 1;
                    matched = true;
                }
            }
        }
        if !matched {
            out.append(content.substring_char(p, p + 1));
            proof {
                assert(content@.subrange(p as int, p + 1) =~= seq![content@[p as int]]);
                let j = find_from(content@, ')', p + 1);
                let k = find_from(content@, ']', j + 2);
                assert(!(content@[p as int] == '(' && link_at(content@, p as int, j, k)));
                assert(convert_from(content@, p as int) == seq![content@[p as int]] + convert_from(
                    content@,
                    p + 1,
                ));
                assert(pre + seq![content@[p as int]] + convert_from(content@, p + 1) =~= pre
                    + convert_from(content@, p as int));
            }
            p = p + 1;
        }
    }
    proof {
        assert(out@ + convert_from(content@, n as int) =~= out@);
    }
    out
}

} // verus!
