//! Character-level scanning primitives shared by the diff engine and the
//! text utilities: whitespace classification, first-occurrence search, and
//! the specifications of line splitting, word splitting and trimming.

use vstd::prelude::*;

verus! {

/// The Unicode `White_Space` characters, the set that `str::trim` and
/// `str::split_whitespace` go by.
pub open spec fn is_space(c: char) -> bool {
    let u = c as u32;
    u == 0x09 || u == 0x0A || u == 0x0B || u == 0x0C || u == 0x0D || u == 0x20 || u == 0x85
        || u == 0xA0 || u == 0x1680 || (0x2000 <= u && u <= 0x200A) || u == 0x2028 || u == 0x2029
        || u == 0x202F || u == 0x205F || u == 0x3000
}

/// Executable twin of `is_space`.
pub fn is_space_char(c: char) -> (r: bool)
    ensures
        r == is_space(c),
{
    let u = c as u32;
    u == 0x09 || u == 0x0A || u == 0x0B || u == 0x0C || u == 0x0D || u == 0x20 || u == 0x85
        || u == 0xA0 || u == 0x1680 || (0x2000 <= u && u <= 0x200A) || u == 0x2028 || u == 0x2029
        || u == 0x202F || u == 0x205F || u == 0x3000
}

/// Index of the first occurrence of `c` at or after `from`, or `s.len()`
/// when there is none.
pub open spec fn find_from(s: Seq<char>, c: char, from: int) -> int
    decreases s.len() - from,
{
    if from >= s.len() {
        s.len() as int
    } else if s[from] == c {
        from
    } else {
        find_from(s, c, from + 1)
    }
}

pub proof fn lemma_find_from(s: Seq<char>, c: char, from: int)
    requires
        from <= s.len(),
    ensures
        from <= find_from(s, c, from) <= s.len(),
        find_from(s, c, from) < s.len() ==> s[find_from(s, c, from)] == c,
        forall|k: int| from <= k < find_from(s, c, from) ==> s[k] != c,
    decreases s.len() - from,
{
    if from < s.len() && s[from] != c {
        lemma_find_from(s, c, from + 1);
    }
}

/// String equality, with its meaning on views.
pub fn str_eq(a: &String, b: &String) -> (r: bool)
    ensures
        r == (a@ == b@),
{
    a.eq(b)
}

/// The characters of `s`, one by one.
pub fn to_chars(s: &str) -> (v: Vec<char>)
    ensures
        v@ == s@,
{
    let n = s.unicode_len();
    let mut v: Vec<char> = Vec::new();
    let mut i: usize = 0;
    while i < n
        invariant
            i <= n,
            n == s@.len(),
            v@ == s@.take(i as int),
        decreases n - i,
    {
        let c = s.get_char(i);
        v.push(c);
        proof {
            assert(s@.take(i + 1) =~= s@.take(i as int).push(s@[i as int]));
        }
        i = i + 1;
    }
    proof {
        assert(s@.take(n as int) =~= s@);
    }
    v
}

/// A line with a final carriage return removed, as `str::lines` does for
/// lines that ended in `"\r\n"`.
pub open spec fn strip_cr(line: Seq<char>) -> Seq<char> {
    if line.len() > 0 && line.last() == '\r' {
        line.drop_last()
    } else {
        line
    }
}

/// The lines of `s` starting at position `from`: split at `'\n'`, each
/// `"\r\n"` terminator removed, and no artificial empty final line.
pub open spec fn lines_from(s: Seq<char>, from: int) -> Seq<Seq<char>>
    decreases s.len() - from,
    via lines_from_decreases
{
    if from >= s.len() {
        Seq::empty()
    } else {
        let nl = find_from(s, '\n', from);
        if nl >= s.len() {
            seq![s.subrange(from, s.len() as int)]
        } else {
            seq![strip_cr(s.subrange(from, nl))] + lines_from(s, nl + 1)
        }
    }
}

#[via_fn]
proof fn lines_from_decreases(s: Seq<char>, from: int) {
    if from < s.len() {
        lemma_find_from(s, '\n', from);
    }
}

/// The lines of a document, as `str::lines` yields them.
pub open spec fn lines_of(s: Seq<char>) -> Seq<Seq<char>> {
    lines_from(s, 0)
}

/// A vector extended by one element appends that element's deep view.
pub proof fn lemma_deep_view_push<T: DeepView>(v1: Vec<T>, v2: Vec<T>, x: T)
    requires
        v2@ == v1@.push(x),
    ensures
        v2.deep_view() == v1.deep_view().push(x.deep_view()),
{
    assert forall|i: int| 0 <= i < v2@.len() implies v2.deep_view()[i] == v1.deep_view().push(
        x.deep_view(),
    )[i] by {
        if i < v1@.len() {
            assert(v2@[i] == v1@[i]);
        } else {
            assert(v2@[i] == x);
        }
    }
    assert(v2.deep_view() =~= v1.deep_view().push(x.deep_view()));
}

/// A vector shortened by its last element loses that element's deep view.
pub proof fn lemma_deep_view_drop_last<T: DeepView>(v1: Vec<T>, v2: Vec<T>)
    requires
        v1@.len() > 0,
        v2@ == v1@.drop_last(),
    ensures
        v2.deep_view() == v1.deep_view().drop_last(),
{
    assert forall|i: int| 0 <= i < v2@.len() implies v2.deep_view()[i]
        == v1.deep_view().drop_last()[i] by {
        assert(v2@[i] == v1@[i]);
    }
    assert(v2.deep_view() =~= v1.deep_view().drop_last());
}

/// Reversal moves a pushed element to the front.
pub proof fn lemma_reverse_push<A>(s: Seq<A>, x: A)
    ensures
        s.push(x).reverse() == seq![x] + s.reverse(),
{
    assert(s.push(x).reverse() =~= seq![x] + s.reverse());
}

/// Splits a document into its lines, exactly as `str::lines` does.
pub fn split_lines(s: &str) -> (r: Vec<String>)
    ensures
        r.deep_view() == lines_of(s@),
{
    let chars = to_chars(s);
    let n = chars.len();
    let mut out: Vec<String> = Vec::new();
    let mut from: usize = 0;
    while from < n
        invariant
            from <= n,
            n == s@.len(),
            chars@ == s@,
            lines_of(s@) == out.deep_view() + lines_from(s@, from as int),
        decreases n - from,
    {
        let ghost pre = out;
        let ghost from0 = from as int;
        let nl = find_char(&chars, from, '\n');
        proof {
            lemma_find_from(s@, '\n', from as int);
        }
        if nl >= n {
            let line = String::from_str(s.substring_char(from, n));
            proof {
                assert(line@ == s@.subrange(from as int, n as int));
            }
            out.push(line);
            proof {
                lemma_deep_view_push(pre, out, line);
                assert(lines_from(s@, from0) =~= seq![line@] + lines_from(s@, n as int));
                assert(pre.deep_view().push(line@) + lines_from(s@, n as int) =~= pre.deep_view()
                    + lines_from(s@, from0));
            }
            from = n;
        } else {
            let end = if nl > from && chars[nl - 1] == '\r' {
                nl - 1
            } else {
                nl
            };
            let line = String::from_str(s.substring_char(from, end));
            proof {
                let raw = s@.subrange(from0, nl as int);
                if nl > from && s@[nl - 1] == '\r' {
                    assert(raw.len() > 0 && raw.last() == '\r');
                    assert(raw.drop_last() =~= s@.subrange(from0, nl - 1));
                } else {
                    assert(!(raw.len() > 0 && raw.last() == '\r'));
                }
                assert(line@ == strip_cr(raw));
            }
            out.push(line);
            proof {
                lemma_deep_view_push(pre, out, line);
                assert(lines_from(s@, from0) == seq![line@] + lines_from(s@, nl + 1));
                assert(pre.deep_view().push(line@) + lines_from(s@, nl + 1) =~= pre.deep_view()
                    + lines_from(s@, from0));
            }
            from = nl + 1;
        }
    }
    proof {
        assert(out.deep_view() + lines_from(s@, n as int) =~= out.deep_view());
    }
    out
}

/// Index of the first whitespace character at or after `from`, or `s.len()`
/// when there is none.
pub open spec fn space_from(s: Seq<char>, from: int) -> int
    decreases s.len() - from,
{
    if from >= s.len() {
        s.len() as int
    } else if is_space(s[from]) {
        from
    } else {
        space_from(s, from + 1)
    }
}

pub proof fn lemma_space_from(s: Seq<char>, from: int)
    requires
        from <= s.len(),
    ensures
        from <= space_from(s, from) <= s.len(),
        space_from(s, from) < s.len() ==> is_space(s[space_from(s, from)]),
        forall|k: int| from <= k < space_from(s, from) ==> !is_space(s[k]),
    decreases s.len() - from,
{
    if from < s.len() && !is_space(s[from]) {
        lemma_space_from(s, from + 1);
    }
}

/// The whitespace-separated words of `s` starting at position `from`.
pub open spec fn words_from(s: Seq<char>, from: int) -> Seq<Seq<char>>
    decreases s.len() - from,
    via words_from_decreases
{
    if from >= s.len() {
        Seq::empty()
    } else if is_space(s[from]) {
        words_from(s, from + 1)
    } else {
        let e = space_from(s, from + 1);
        seq![s.subrange(from, e)] + words_from(s, e)
    }
}

#[via_fn]
proof fn words_from_decreases(s: Seq<char>, from: int) {
    if from < s.len() {
        lemma_space_from(s, from + 1);
    }
}

/// The whitespace-separated words of a line, as `str::split_whitespace`
/// yields them.
pub open spec fn words_of(s: Seq<char>) -> Seq<Seq<char>> {
    words_from(s, 0)
}

/// Splits a line into its whitespace-separated words, exactly as
/// `str::split_whitespace` does.
pub fn split_words(s: &str) -> (r: Vec<String>)
    ensures
        r.deep_view() == words_of(s@),
{
    let chars = to_chars(s);
    let n = chars.len();
    let mut out: Vec<String> = Vec::new();
    let mut i: usize = 0;
    while i < n
        invariant
            i <= n,
            n == s@.len(),
            chars@ == s@,
            words_of(s@) == out.deep_view() + words_from(s@, i as int),
        decreases n - i,
    {
        if is_space_char(chars[i]) {
            i = i + 1;
        } else {
            let mut e = i + 1;
            while e < n && !is_space_char(chars[e])
                invariant
                    i + 1 <= e <= n,
                    n == chars@.len(),
                    chars@ == s@,
                    forall|k: int| i + 1 <= k < e ==> !is_space(s@[k]),
                decreases n - e,
            {
                e = e + 1;
            }
            proof {
                lemma_space_from(s@, i + 1);
                assert(e as int == space_from(s@, i + 1));
            }
            let ghost pre = out;
            let word = String::from_str(s.substring_char(i, e));
            out.push(word);
            proof {
                lemma_deep_view_push(pre, out, word);
                assert(words_from(s@, i as int) == seq![word@] + words_from(s@, e as int));
                assert(pre.deep_view().push(word@) + words_from(s@, e as int) =~= pre.deep_view()
                    + words_from(s@, i as int));
            }
            i = e;
        }
    }
    proof {
        assert(out.deep_view() + words_from(s@, n as int) =~= out.deep_view());
    }
    out
}

/// `s` with its leading whitespace removed.
pub open spec fn trim_start(s: Seq<char>) -> Seq<char>
    decreases s.len(),
{
    if s.len() > 0 && is_space(s[0]) {
        trim_start(s.drop_first())
    } else {
        s
    }
}

/// `s` with its trailing whitespace removed.
pub open spec fn trim_end(s: Seq<char>) -> Seq<char>
    decreases s.len(),
{
    if s.len() > 0 && is_space(s.last()) {
        trim_end(s.drop_last())
    } else {
        s
    }
}

/// `s` with whitespace removed from both ends, as `str::trim` leaves it.
pub open spec fn trim(s: Seq<char>) -> Seq<char> {
    trim_end(trim_start(s))
}

pub proof fn lemma_trim_start_at(s: Seq<char>, a: int)
    requires
        0 <= a <= s.len(),
        forall|k: int| 0 <= k < a ==> is_space(s[k]),
        a < s.len() ==> !is_space(s[a]),
    ensures
        trim_start(s) == s.skip(a),
    decreases a,
{
    if a == 0 {
        assert(s.skip(0) =~= s);
    } else {
        let t = s.drop_first();
        lemma_trim_start_at(t, a - 1);
        assert(t.skip(a - 1) =~= s.skip(a));
    }
}

pub proof fn lemma_trim_end_at(s: Seq<char>, b: int)
    requires
        0 <= b <= s.len(),
        forall|k: int| b <= k < s.len() ==> is_space(s[k]),
        b > 0 ==> !is_space(s[b - 1]),
    ensures
        trim_end(s) == s.take(b),
    decreases s.len() - b,
{
    if b == s.len() {
        assert(s.take(b) =~= s);
    } else {
        let t = s.drop_last();
        lemma_trim_end_at(t, b);
        assert(t.take(b) =~= s.take(b));
    }
}

/// Bounds of the whitespace-trimmed middle of `chars[lo..hi]`.
pub fn trim_range(chars: &Vec<char>, lo: usize, hi: usize) -> (r: (usize, usize))
    requires
        lo <= hi <= chars@.len(),
    ensures
        lo <= r.0 <= r.1 <= hi,
        trim(chars@.subrange(lo as int, hi as int)) == chars@.subrange(r.0 as int, r.1 as int),
{
    let mut a = lo;
    while a < hi && is_space_char(chars[a])
        invariant
            lo <= a <= hi,
            hi <= chars@.len(),
            forall|k: int| lo <= k < a ==> is_space(chars@[k]),
        decreases hi - a,
    {
        a = a + 1;
    }
    let mut b = hi;
    while b > a && is_space_char(chars[b - 1])
        invariant
            a <= b <= hi,
            hi <= chars@.len(),
            forall|k: int| b <= k < hi ==> is_space(chars@[k]),
        decreases b,
    {
        b = b - 1;
    }
    proof {
        let sub = chars@.subrange(lo as int, hi as int);
        lemma_trim_start_at(sub, a - lo);
        let t1 = sub.skip(a - lo);
        assert(t1 =~= chars@.subrange(a as int, hi as int));
        lemma_trim_end_at(t1, b - a);
        assert(t1.take(b - a) =~= chars@.subrange(a as int, b as int));
    }
    (a, b)
}

/// Executable first-occurrence search over a character vector.
pub fn find_char(chars: &Vec<char>, from: usize, c: char) -> (r: usize)
    requires
        from <= chars@.len(),
    ensures
        r == find_from(chars@, c, from as int),
{
    let n = chars.len();
    let mut i: usize = from;
    while i < n && chars[i] != c
        invariant
            from <= i <= n,
            n == chars@.len(),
            forall|k: int| from <= k < i ==> chars@[k] != c,
        decreases n - i,
    {
        i = i + 1;
    }
    proof {
        lemma_find_from(chars@, c, from as int);
    }
    i
}

} // verus!
