//! What the config merge guarantees: replacing a value rewrites exactly one
//! line and keeps every other line as it was.
use vstd::prelude::*;
use crate::init::{
    comment_scan, comment_start, lemma_comment_scan_bounds, is_table_header, next_line, strip_cr, join_lines, line_key, replaced_value, rewrite_line, scan_lines, scan_step,
    section_header, split_lines, ScanState,
};
use crate::text::{
    trim_start, find_first, is_char, is_ws, lemma_find_first, lemma_find_first_is, non_ws, trim, trim_end,
};

verus! {

/// The scan of line `line` takes the branch that rewrites it.
pub open spec fn rewrites_here(st: ScanState, line: Seq<char>, key: Seq<char>) -> bool {
    !st.1 && st.0 && !is_table_header(trim(line)) && line_key(trim(line)) == Some(key)
}

/// Joining two runs of lines is joining each.
pub proof fn lemma_join_concat(a: Seq<Seq<char>>, b: Seq<Seq<char>>)
    ensures
        join_lines(a + b) == join_lines(a) + join_lines(b),
    decreases a.len(),
{
    if a.len() == 0 {
        assert(a + b =~= b);
        assert(join_lines(a) =~= Seq::<char>::empty());
        assert(join_lines(a + b) =~= join_lines(a) + join_lines(b));
    } else {
        lemma_join_concat(a.drop_first(), b);
        assert((a + b).drop_first() =~= a.drop_first() + b);
        assert((a + b)[0] == a[0]);
        assert(join_lines(a + b) =~= join_lines(a) + join_lines(b));
    }
}

/// Scanning two runs of lines is scanning the second from where the first
/// left off.
pub proof fn lemma_scan_concat(
    st: ScanState,
    a: Seq<Seq<char>>,
    b: Seq<Seq<char>>,
    h: Seq<char>,
    k: Seq<char>,
    v: Seq<char>,
)
    ensures
        scan_lines(st, a + b, h, k, v) == scan_lines(scan_lines(st, a, h, k, v), b, h, k, v),
    decreases a.len(),
{
    if a.len() == 0 {
        assert(a + b =~= b);
    } else {
        assert((a + b).drop_first() =~= a.drop_first() + b);
        assert((a + b)[0] == a[0]);
        lemma_scan_concat(scan_step(st, a[0], h, k, v), a.drop_first(), b, h, k, v);
    }
}

/// Once the value is replaced, the scan writes the remaining lines as they
/// are.
pub proof fn lemma_scan_after_replace(
    st: ScanState,
    ls: Seq<Seq<char>>,
    h: Seq<char>,
    k: Seq<char>,
    v: Seq<char>,
)
    requires
        st.1,
    ensures
        scan_lines(st, ls, h, k, v) == (st.0, true, st.2 + join_lines(ls)),
    decreases ls.len(),
{
    if ls.len() == 0 {
        assert(st.2 + join_lines(ls) =~= st.2);
    } else {
        let next = scan_step(st, ls[0], h, k, v);
        assert(next == (st.0, true, st.2 + ls[0].push('\n')));
        lemma_scan_after_replace(next, ls.drop_first(), h, k, v);
        assert(st.2 + ls[0].push('\n') + join_lines(ls.drop_first()) =~= st.2 + join_lines(ls));
    }
}

/// A scan that replaces nothing writes every line as it is.
pub proof fn lemma_scan_no_replace(
    st: ScanState,
    ls: Seq<Seq<char>>,
    h: Seq<char>,
    k: Seq<char>,
    v: Seq<char>,
)
    requires
        !st.1,
        !scan_lines(st, ls, h, k, v).1,
    ensures
        scan_lines(st, ls, h, k, v).2 == st.2 + join_lines(ls),
    decreases ls.len(),
{
    if ls.len() == 0 {
        assert(st.2 + join_lines(ls) =~= st.2);
    } else {
        let next = scan_step(st, ls[0], h, k, v);
        if next.1 {
            lemma_scan_after_replace(next, ls.drop_first(), h, k, v);
        } else {
            lemma_scan_no_replace(next, ls.drop_first(), h, k, v);
            assert(st.2 + ls[0].push('\n') + join_lines(ls.drop_first()) =~= st.2 + join_lines(
                ls,
            ));
        }
    }
}

/// A scan that replaces the value does so at one line: before it nothing was
/// replaced, that line takes the rewriting branch, and the lines after it
/// are written as they are.
pub proof fn lemma_scan_replace_point(
    st: ScanState,
    ls: Seq<Seq<char>>,
    h: Seq<char>,
    k: Seq<char>,
    v: Seq<char>,
) -> (i: int)
    requires
        !st.1,
        scan_lines(st, ls, h, k, v).1,
    ensures
        0 <= i < ls.len(),
        !scan_lines(st, ls.take(i), h, k, v).1,
        rewrites_here(scan_lines(st, ls.take(i), h, k, v), ls[i], k),
        scan_lines(st, ls, h, k, v) == (
            scan_lines(st, ls.take(i), h, k, v).0,
            true,
            scan_lines(st, ls.take(i), h, k, v).2 + rewrite_line(ls[i], v).push('\n')
                + join_lines(ls.skip(i + 1)),
        ),
    decreases ls.len(),
{
    let next = scan_step(st, ls[0], h, k, v);
    assert(ls.take(0) =~= Seq::<Seq<char>>::empty());
    if next.1 {
        assert(rewrites_here(st, ls[0], k));
        lemma_scan_after_replace(next, ls.drop_first(), h, k, v);
        assert(ls.skip(1) =~= ls.drop_first());
        0
    } else {
        let j = lemma_scan_replace_point(next, ls.drop_first(), h, k, v);
        let i = j + 1;
        assert(ls.take(i) =~= seq![ls[0]] + ls.drop_first().take(j));
        lemma_scan_concat(st, seq![ls[0]], ls.drop_first().take(j), h, k, v);
        assert(seq![ls[0]].drop_first() =~= Seq::<Seq<char>>::empty());
        assert(seq![ls[0]][0] == ls[0]);
        assert(scan_lines(next, Seq::<Seq<char>>::empty(), h, k, v) == next);
        assert(scan_lines(st, seq![ls[0]], h, k, v) == next);
        assert(ls.drop_first().skip(j + 1) =~= ls.skip(i + 1));
        assert(ls.drop_first()[j] == ls[i]);
        i
    }
}

/// After the scan of the lines `ls`, while nothing is replaced yet, the scan
/// is inside the section only if some line of `ls` is the section's header
/// and no table header follows it.
pub proof fn lemma_in_section_witness(ls: Seq<Seq<char>>, h: Seq<char>, k: Seq<char>, v: Seq<char>)
    requires
        !scan_lines((false, false, Seq::<char>::empty()), ls, h, k, v).1,
    ensures
        scan_lines((false, false, Seq::<char>::empty()), ls, h, k, v).0 ==> exists|j: int|
            0 <= j < ls.len() && trim(#[trigger] ls[j]) == h && forall|m: int|
                j < m < ls.len() ==> !is_table_header(trim(#[trigger] ls[m])),
    decreases ls.len(),
{
    let init: ScanState = (false, false, Seq::<char>::empty());
    if ls.len() > 0 {
        let pre = ls.drop_last();
        let x = ls.last();
        assert(ls =~= pre + seq![x]);
        lemma_scan_concat(init, pre, seq![x], h, k, v);
        let st = scan_lines(init, pre, h, k, v);
        assert(seq![x][0] == x);
        assert(seq![x].drop_first() =~= Seq::<Seq<char>>::empty());
        let st1 = scan_step(st, x, h, k, v);
        assert(scan_lines(st1, Seq::<Seq<char>>::empty(), h, k, v) == st1);
        assert(scan_lines(st, seq![x], h, k, v) == st1);
        assert(scan_lines(init, ls, h, k, v) == st1);
        if st.1 {
            lemma_scan_after_replace(st, seq![x], h, k, v);
        } else {
            lemma_in_section_witness(pre, h, k, v);
            if scan_lines(init, ls, h, k, v).0 {
                if trim(x) == h {
                    assert(trim(ls[ls.len() - 1]) == h);
                } else {
                    let j = choose|j: int|
                        0 <= j < pre.len() && trim(#[trigger] pre[j]) == h && forall|m: int|
                            j < m < pre.len() ==> !is_table_header(trim(#[trigger] pre[m]));
                    assert(ls[j] == pre[j]);
                    assert forall|m: int| j < m < ls.len() implies !is_table_header(
                        trim(#[trigger] ls[m]),
                    ) by {
                        if m < pre.len() {
                            assert(ls[m] == pre[m]);
                        }
                    }
                }
            }
        }
    }
}

/// Replacing a value rewrites exactly one line of the text, a line of the
/// section (below the section's header, with no table header between them)
/// whose key is the key asked for, and writes every other line as it was,
/// each line followed by `\n`.
pub proof fn law_replace_rewrites_one_line(
    text: Seq<char>,
    section: Seq<char>,
    key: Seq<char>,
    val: Seq<char>,
)
    requires
        replaced_value(text, section, key, val) is Some,
    ensures
        exists|i: int|
            {
                &&& 0 <= i < split_lines(text).len()
                &&& !is_table_header(trim(#[trigger] split_lines(text)[i]))
                &&& line_key(trim(split_lines(text)[i])) == Some(key)
                &&& exists|j: int|
                    0 <= j < i && trim(#[trigger] split_lines(text)[j]) == section_header(section)
                        && forall|m: int|
                        j < m < i ==> !is_table_header(trim(#[trigger] split_lines(text)[m]))
                &&& replaced_value(text, section, key, val) == Some(
                    join_lines(
                        split_lines(text).update(i, rewrite_line(split_lines(text)[i], val)),
                    ),
                )
            },
{
    let ls = split_lines(text);
    let h = section_header(section);
    let init: ScanState = (false, false, Seq::<char>::empty());
    let i = lemma_scan_replace_point(init, ls, h, key, val);
    let pre = scan_lines(init, ls.take(i), h, key, val);
    lemma_scan_no_replace(init, ls.take(i), h, key, val);
    assert(pre.2 =~= join_lines(ls.take(i)));
    lemma_in_section_witness(ls.take(i), h, key, val);
    let j = choose|j: int|
        0 <= j < ls.take(i).len() && trim(#[trigger] ls.take(i)[j]) == h && forall|m: int|
            j < m < ls.take(i).len() ==> !is_table_header(trim(#[trigger] ls.take(i)[m]));
    assert(ls[j] == ls.take(i)[j]);
    assert forall|m: int| j < m < i implies !is_table_header(trim(#[trigger] ls[m])) by {
        assert(ls[m] == ls.take(i)[m]);
    }
    let upd = ls.update(i, rewrite_line(ls[i], val));
    assert(upd =~= ls.take(i) + seq![rewrite_line(ls[i], val)] + ls.skip(i + 1));
    lemma_join_concat(ls.take(i) + seq![rewrite_line(ls[i], val)], ls.skip(i + 1));
    lemma_join_concat(ls.take(i), seq![rewrite_line(ls[i], val)]);
    assert(seq![rewrite_line(ls[i], val)].drop_first() =~= Seq::<Seq<char>>::empty());
    assert(seq![rewrite_line(ls[i], val)][0] == rewrite_line(ls[i], val));
    assert(join_lines(Seq::<Seq<char>>::empty()) =~= Seq::<char>::empty());
    assert(join_lines(seq![rewrite_line(ls[i], val)]) =~= rewrite_line(ls[i], val).push('\n'));
    assert(join_lines(upd) =~= pre.2 + rewrite_line(ls[i], val).push('\n') + join_lines(
        ls.skip(i + 1),
    ));
}

// ---------------------------------------------------------------------------
// Reading a rewritten line back
// ---------------------------------------------------------------------------

/// The scan state (inside quotes, after a backslash) once `s[i..]` is read.
pub open spec fn scan_end(s: Seq<char>, i: int, q: bool, e: bool) -> (bool, bool)
    decreases s.len() - i,
{
    if i < 0 || i >= s.len() {
        (q, e)
    } else if e {
        scan_end(s, i + 1, q, false)
    } else if s[i] == '\\' {
        scan_end(s, i + 1, q, true)
    } else if s[i] == '"' {
        scan_end(s, i + 1, !q, false)
    } else {
        scan_end(s, i + 1, q, false)
    }
}

/// A value that reads back unchanged from the line it is written into: not
/// empty, no whitespace at either end, no line break, no comment, and quotes
/// and backslashes balanced so that the line's own comment is still found.
pub open spec fn inline_safe(v: Seq<char>) -> bool {
    &&& v.len() > 0
    &&& !is_ws(v[0])
    &&& !is_ws(v.last())
    &&& forall|j: int| 0 <= j < v.len() ==> #[trigger] v[j] != '\n'
    &&& comment_start(v) is None
    &&& scan_end(v, 0, false, false) == (false, false)
}

/// The value written on a `key = value # comment` line: the text after the
/// first `=` and the whitespace after it, up to the comment, without
/// trailing whitespace.
pub open spec fn line_value(line: Seq<char>) -> Seq<char> {
    match find_first(line, is_char('=')) {
        None => Seq::<char>::empty(),
        Some(p) => {
            let after = line.skip(p + 1);
            let body = match find_first(after, non_ws()) {
                Some(k) => after.skip(k),
                None => Seq::<char>::empty(),
            };
            match comment_start(body) {
                Some(c) => trim_end(body.take(c)),
                None => trim_end(body),
            }
        },
    }
}

/// Whitespace is none of the characters the comment scan reacts to.
pub proof fn lemma_ws_is_plain(c: char)
    requires
        is_ws(c),
    ensures
        c != '\\',
        c != '"',
        c != '#',
{
}

/// The comment scan of `a + b` past `a` is the scan of `b`, shifted.
pub proof fn lemma_comment_scan_shift(a: Seq<char>, b: Seq<char>, j: int, q: bool, e: bool)
    requires
        0 <= j,
    ensures
        comment_scan(a + b, a.len() + j, q, e) == match comment_scan(b, j, q, e) {
            Some(c) => Some(c + a.len()),
            None => None,
        },
    decreases b.len() - j,
{
    if j < b.len() {
        assert((a + b)[a.len() + j] == b[j]);
        lemma_comment_scan_shift(a, b, j + 1, q, false);
        lemma_comment_scan_shift(a, b, j + 1, q, true);
        lemma_comment_scan_shift(a, b, j + 1, !q, false);
    }
}

/// When `a` has no comment, the comment of `a + b` is the comment of `b`
/// scanned from the state `a` ends in.
pub proof fn lemma_comment_scan_concat(a: Seq<char>, b: Seq<char>, i: int, q: bool, e: bool)
    requires
        0 <= i <= a.len(),
        comment_scan(a, i, q, e) is None,
    ensures
        comment_scan(a + b, i, q, e) == match comment_scan(
            b,
            0,
            scan_end(a, i, q, e).0,
            scan_end(a, i, q, e).1,
        ) {
            Some(c) => Some(c + a.len()),
            None => None,
        },
    decreases a.len() - i,
{
    if i == a.len() {
        lemma_comment_scan_shift(a, b, 0, q, e);
    } else {
        assert((a + b)[i] == a[i]);
        if e {
            lemma_comment_scan_concat(a, b, i + 1, q, false);
        } else if a[i] == '\\' {
            lemma_comment_scan_concat(a, b, i + 1, q, true);
        } else if a[i] == '"' {
            lemma_comment_scan_concat(a, b, i + 1, !q, false);
        } else {
            lemma_comment_scan_concat(a, b, i + 1, q, false);
        }
    }
}

/// Whitespace then `#`: the comment starts at the `#`.
pub proof fn lemma_comment_after_ws(t: Seq<char>, m: int, i: int)
    requires
        0 <= i <= m < t.len(),
        t[m] == '#',
        forall|j: int| 0 <= j < m ==> is_ws(#[trigger] t[j]),
    ensures
        comment_scan(t, i, false, false) == Some(m),
    decreases m - i,
{
    if i < m {
        lemma_ws_is_plain(t[i]);
        lemma_comment_after_ws(t, m, i + 1);
    }
}

/// `trim_end(s)` is a prefix of `s` that ends in non-whitespace or is empty,
/// followed in `s` by whitespace only.
pub proof fn lemma_trim_end_prefix(s: Seq<char>) -> (m: int)
    ensures
        0 <= m <= s.len(),
        trim_end(s) == s.take(m),
        m == 0 || !is_ws(s[m - 1]),
        forall|j: int| m <= j < s.len() ==> is_ws(#[trigger] s[j]),
    decreases s.len(),
{
    if s.len() > 0 && is_ws(s.last()) {
        let m = lemma_trim_end_prefix(s.drop_last());
        assert(s.drop_last().take(m) =~= s.take(m));
        assert forall|j: int| m <= j < s.len() implies is_ws(#[trigger] s[j]) by {
            if j < s.len() - 1 {
                assert(s[j] == s.drop_last()[j]);
            }
        }
        m
    } else {
        assert(s.take(s.len() as int) =~= s);
        s.len() as int
    }
}

/// Trailing whitespace does not survive `trim_end`.
pub proof fn lemma_trim_end_ws_suffix(s: Seq<char>, w: Seq<char>)
    requires
        forall|j: int| 0 <= j < w.len() ==> is_ws(#[trigger] w[j]),
    ensures
        trim_end(s + w) == trim_end(s),
    decreases w.len(),
{
    if w.len() == 0 {
        assert(s + w =~= s);
    } else {
        assert((s + w).last() == w.last());
        assert((s + w).drop_last() =~= s + w.drop_last());
        lemma_trim_end_ws_suffix(s, w.drop_last());
    }
}

/// A text that ends in non-whitespace is its own `trim_end`.
pub proof fn lemma_trim_end_id(s: Seq<char>)
    requires
        s.len() == 0 || !is_ws(s.last()),
    ensures
        trim_end(s) == s,
{
}

/// The shape of a rewritten line: the line up to its first `=`, then
/// whitespace, then the value, then either nothing or whitespace and the
/// line's comment.
pub proof fn lemma_rewrite_shape(line: Seq<char>, val: Seq<char>) -> (r: (int, Seq<char>, Seq<char>))
    requires
        find_first(line, is_char('=')) is Some,
    ensures
        ({
            let (p, w, tail) = r;
            &&& find_first(line, is_char('=')) == Some(p)
            &&& rewrite_line(line, val) == line.take(p + 1) + w + val + tail
            &&& forall|j: int| 0 <= j < w.len() ==> is_ws(#[trigger] w[j])
            &&& tail.len() == 0 || exists|m: int|
                0 <= m < tail.len() && tail[m] == '#' && forall|j: int|
                    0 <= j < m ==> is_ws(#[trigger] tail[j])
            &&& 0 <= p < line.len()
            &&& p + 1 + w.len() <= line.len()
            &&& w == line.subrange(p + 1, p + 1 + w.len())
            &&& tail.len() <= line.len() - (p + 1 + w.len())
            &&& tail == line.skip(line.len() - tail.len())
        }),
{
    let p = find_first(line, is_char('=')).unwrap();
    lemma_find_first(line, is_char('='));
    let after = line.skip(p + 1);
    lemma_find_first(after, non_ws());
    let lead = match find_first(after, non_ws()) {
        Some(k) => k,
        None => 0,
    };
    let w = after.take(lead);
    assert(w =~= line.subrange(p + 1, p + 1 + w.len()));
    assert forall|j: int| 0 <= j < w.len() implies is_ws(#[trigger] w[j]) by {
        assert(w[j] == after[j]);
        assert(!non_ws()(after[j]));
    }
    let head = line.take(p + 1 + lead);
    assert(head =~= line.take(p + 1) + w);
    let trailing = after.skip(lead);
    match comment_start(trailing) {
        Some(c) => {
            lemma_comment_scan_bounds(trailing, 0, false, false);
            let mlen = lemma_trim_end_prefix(trailing.take(c));
            let tail = trailing.skip(mlen);
            assert(tail =~= line.skip(line.len() - tail.len()));
            assert(tail[c - mlen] == trailing[c]);
            assert forall|j: int| 0 <= j < c - mlen implies is_ws(#[trigger] tail[j]) by {
                assert(tail[j] == trailing.take(c)[mlen + j]);
            }
            (p, w, tail)
        },
        None => {
            assert(rewrite_line(line, val) =~= line.take(p + 1) + w + val + Seq::<char>::empty());
            assert(Seq::<char>::empty() =~= line.skip(line.len() as int));
            (p, w, Seq::<char>::empty())
        },
    }
}

/// A value written into a `key = value` line reads back unchanged.
pub proof fn law_rewritten_value_reads_back(line: Seq<char>, val: Seq<char>)
    requires
        find_first(line, is_char('=')) is Some,
        inline_safe(val),
    ensures
        line_value(rewrite_line(line, val)) == val,
{
    let (p, w, tail) = lemma_rewrite_shape(line, val);
    let rw = rewrite_line(line, val);
    lemma_find_first(line, is_char('='));
    // The first `=` of the rewritten line is the line's first `=`.
    assert(rw[p] == line[p]);
    assert forall|j: int| 0 <= j < p implies !is_char('=')(#[trigger] rw[j]) by {
        assert(rw[j] == line[j]);
    }
    lemma_find_first_is(rw, is_char('='), p);
    let after = rw.skip(p + 1);
    assert(after =~= w + val + tail);
    // The value starts right after the whitespace.
    assert(after[w.len() as int] == val[0]);
    assert forall|j: int| 0 <= j < w.len() implies !non_ws()(#[trigger] after[j]) by {
        assert(after[j] == w[j]);
    }
    lemma_find_first_is(after, non_ws(), w.len() as int);
    let body = after.skip(w.len() as int);
    assert(body =~= val + tail);
    lemma_comment_scan_concat(val, tail, 0, false, false);
    if tail.len() == 0 {
        assert(body =~= val);
        lemma_trim_end_id(val);
    } else {
        let m = choose|m: int|
            0 <= m < tail.len() && tail[m] == '#' && forall|j: int|
                0 <= j < m ==> is_ws(#[trigger] tail[j]);
        lemma_comment_after_ws(tail, m, 0);
        assert(body.take(val.len() + m) =~= val + tail.take(m));
        lemma_trim_end_ws_suffix(val, tail.take(m));
        lemma_trim_end_id(val);
    }
}

// ---------------------------------------------------------------------------
// Merging twice changes nothing more
// ---------------------------------------------------------------------------

/// Rewriting a rewritten line with the same value gives the same line.
pub proof fn lemma_rewrite_fixpoint(line: Seq<char>, val: Seq<char>)
    requires
        find_first(line, is_char('=')) is Some,
        inline_safe(val),
    ensures
        rewrite_line(rewrite_line(line, val), val) == rewrite_line(line, val),
{
    let (p, w, tail) = lemma_rewrite_shape(line, val);
    let rw = rewrite_line(line, val);
    lemma_find_first(line, is_char('='));
    assert(rw[p] == line[p]);
    assert forall|j: int| 0 <= j < p implies !is_char('=')(#[trigger] rw[j]) by {
        assert(rw[j] == line[j]);
    }
    lemma_find_first_is(rw, is_char('='), p);
    let after = rw.skip(p + 1);
    assert(after =~= w + val + tail);
    assert(after[w.len() as int] == val[0]);
    assert forall|j: int| 0 <= j < w.len() implies !non_ws()(#[trigger] after[j]) by {
        assert(after[j] == w[j]);
    }
    lemma_find_first_is(after, non_ws(), w.len() as int);
    let trailing = after.skip(w.len() as int);
    assert(trailing =~= val + tail);
    assert(rw.take(p + 1 + w.len()) =~= line.take(p + 1) + w);
    lemma_comment_scan_concat(val, tail, 0, false, false);
    if tail.len() == 0 {
        assert(rewrite_line(rw, val) =~= rw);
    } else {
        let m = choose|m: int|
            0 <= m < tail.len() && tail[m] == '#' && forall|j: int|
                0 <= j < m ==> is_ws(#[trigger] tail[j]);
        lemma_comment_after_ws(tail, m, 0);
        assert(trailing.take(val.len() + m) =~= val + tail.take(m));
        lemma_trim_end_ws_suffix(val, tail.take(m));
        lemma_trim_end_id(val);
        assert(trailing.skip(val.len() as int) =~= tail);
        assert(rewrite_line(rw, val) =~= rw);
    }
}

/// `trim_start(s)` is `s` from its first non-whitespace character on.
pub proof fn lemma_trim_start_skip(s: Seq<char>) -> (a: int)
    ensures
        0 <= a <= s.len(),
        trim_start(s) == s.skip(a),
        forall|j: int| 0 <= j < a ==> is_ws(#[trigger] s[j]),
        a < s.len() ==> !is_ws(s[a]),
    decreases s.len(),
{
    if s.len() > 0 && is_ws(s[0]) {
        let a = lemma_trim_start_skip(s.drop_first());
        assert(s.drop_first().skip(a) =~= s.skip(a + 1));
        assert forall|j: int| 0 <= j < a + 1 implies is_ws(#[trigger] s[j]) by {
            if j > 0 {
                assert(s[j] == s.drop_first()[j - 1]);
            }
        }
        a + 1
    } else {
        assert(s.skip(0) =~= s);
        0
    }
}

/// `trim(s)` is `s[a..b]`: whitespace before `a` and from `b` on, and
/// non-whitespace at both ends of what is left.
pub proof fn lemma_trim_bounds(s: Seq<char>) -> (r: (int, int))
    ensures
        0 <= r.0 <= r.1 <= s.len(),
        trim(s) == s.subrange(r.0, r.1),
        forall|j: int| 0 <= j < r.0 ==> is_ws(#[trigger] s[j]),
        forall|j: int| r.1 <= j < s.len() ==> is_ws(#[trigger] s[j]),
        r.0 < s.len() ==> !is_ws(s[r.0]) && r.0 < r.1,
{
    let a = lemma_trim_start_skip(s);
    let m = lemma_trim_end_prefix(s.skip(a));
    assert(s.skip(a).take(m) =~= s.subrange(a, a + m));
    assert forall|j: int| a + m <= j < s.len() implies is_ws(#[trigger] s[j]) by {
        assert(s[j] == s.skip(a)[j - a]);
    }
    if a < s.len() {
        assert(s.skip(a)[0] == s[a]);
    }
    (a, a + m)
}

/// A `key = value` line, rewritten, is still a line for `key` and still not
/// a table header.
pub proof fn lemma_rewrite_keeps_key(line: Seq<char>, val: Seq<char>, key: Seq<char>)
    requires
        !is_table_header(trim(line)),
        line_key(trim(line)) == Some(key),
        key.len() == 0 || key[0] != '[',
        inline_safe(val),
    ensures
        find_first(line, is_char('=')) is Some,
        !is_table_header(trim(rewrite_line(line, val))),
        line_key(trim(rewrite_line(line, val))) == Some(key),
        trim(line)[0] != '[',
        trim(rewrite_line(line, val))[0] == trim(line)[0],
{
    let t = trim(line);
    let (a, b) = lemma_trim_bounds(line);
    let e = find_first(t, is_char('=')).unwrap();
    lemma_find_first(t, is_char('='));
    let p = a + e;
    assert(line[p] == t[e]);
    assert forall|j: int| 0 <= j < p implies !is_char('=')(#[trigger] line[j]) by {
        if j >= a {
            assert(line[j] == t[j - a]);
        }
    }
    lemma_find_first_is(line, is_char('='), p);
    let (p2, w, tail) = lemma_rewrite_shape(line, val);
    let rw = rewrite_line(line, val);
    assert(rw.take(p + 1) =~= line.take(p + 1));
    let (a2, b2) = lemma_trim_bounds(rw);
    // Both lines start their trimmed text at `a`.
    assert(rw[a] == line[a]);
    if a2 < a {
        assert(rw[a2] == line[a2]);
    }
    if a2 > a {
        assert(is_ws(rw[a]));
    }
    assert(a2 == a);
    // The rewritten line keeps its `=` inside its trimmed text.
    assert(rw[p] == '=');
    assert(p < b2);
    let t2 = trim(rw);
    assert(t2[e] == rw[p]);
    assert forall|j: int| 0 <= j < e implies !is_char('=')(#[trigger] t2[j]) by {
        assert(t2[j] == rw[a + j]);
        assert(rw[a + j] == line[a + j]);
        assert(t[j] == line[a + j]);
    }
    lemma_find_first_is(t2, is_char('='), e);
    assert(t2.take(e) =~= t.take(e));
    // Not a table header: the first character is the key's.
    assert(t2[0] == t[0]);
    if e > 0 {
        let te = t.take(e);
        assert(trim_start(te) == te);
        let m = lemma_trim_end_prefix(te);
        if m == 0 {
            assert(is_ws(te[0]));
        }
        assert(key[0] == t[0]);
    } else {
        assert(t[0] == '=');
    }
}

/// The lines of a text hold no `\n`.
pub proof fn lemma_split_lines_no_newline(t: Seq<char>)
    ensures
        forall|i: int, j: int|
            0 <= i < split_lines(t).len() && 0 <= j < split_lines(t)[i].len() ==> #[trigger] split_lines(
                t,
            )[i][j] != '\n',
    decreases t.len(),
{
    if t.len() > 0 {
        lemma_find_first(t, is_char('\n'));
        crate::init::lemma_next_line_shorter(t);
        lemma_split_lines_no_newline(next_line(t).1);
        let ls = split_lines(t);
        assert(ls == seq![next_line(t).0] + split_lines(next_line(t).1));
        assert forall|i: int, j: int|
            0 <= i < ls.len() && 0 <= j < ls[i].len() implies #[trigger] ls[i][j] != '\n' by {
            if i > 0 {
                assert(ls[i] == split_lines(next_line(t).1)[i - 1]);
            } else {
                match find_first(t, is_char('\n')) {
                    Some(k) => {
                        assert(ls[0][j] == t[j]);
                    },
                    None => {},
                }
            }
        }
    }
}

/// A line that ends with a carriage return.
pub open spec fn ends_with_cr(l: Seq<char>) -> bool {
    l.len() > 0 && l.last() == '\r'
}

/// Lines without `\n` that do not end with `\r`, joined, split back into
/// the same lines.
pub proof fn lemma_split_join(ls: Seq<Seq<char>>)
    requires
        forall|i: int, j: int| 0 <= i < ls.len() && 0 <= j < ls[i].len() ==> #[trigger] ls[i][j] != '\n',
        forall|i: int| 0 <= i < ls.len() ==> !ends_with_cr(#[trigger] ls[i]),
    ensures
        split_lines(join_lines(ls)) == ls,
    decreases ls.len(),
{
    if ls.len() == 0 {
        assert(join_lines(ls) =~= Seq::<char>::empty());
        assert(split_lines(Seq::<char>::empty()) =~= ls);
    } else {
        let rest = ls.drop_first();
        assert forall|i: int, j: int| 0 <= i < rest.len() && 0 <= j < rest[i].len() implies #[trigger] rest[i][j] != '\n' by {
            assert(rest[i] == ls[i + 1]);
        }
        assert forall|i: int| 0 <= i < rest.len() implies !ends_with_cr(#[trigger] rest[i]) by {
            assert(rest[i] == ls[i + 1]);
        }
        lemma_split_join(rest);
        let t = join_lines(ls);
        let n0 = ls[0].len() as int;
        assert(t == ls[0].push('\n') + join_lines(rest));
        assert(t[n0] == '\n');
        assert forall|j: int| 0 <= j < n0 implies !is_char('\n')(#[trigger] t[j]) by {
            assert(t[j] == ls[0][j]);
        }
        lemma_find_first_is(t, is_char('\n'), n0);
        assert(t.take(n0) =~= ls[0]);
        assert(!ends_with_cr(ls[0]));
        assert(strip_cr(t.take(n0)) == ls[0]);
        assert(t.skip(n0 + 1) =~= join_lines(rest));
        assert(split_lines(t) =~= seq![ls[0]] + rest);
    }
}

/// A rewritten line holds no `\n` and does not end with `\r` when the line
/// did not.
pub proof fn lemma_rewrite_line_ok(l: Seq<char>, val: Seq<char>)
    requires
        find_first(l, is_char('=')) is Some,
        inline_safe(val),
        forall|j: int| 0 <= j < l.len() ==> #[trigger] l[j] != '\n',
        !ends_with_cr(l),
    ensures
        forall|j: int|
            0 <= j < rewrite_line(l, val).len() ==> #[trigger] rewrite_line(l, val)[j] != '\n',
        !ends_with_cr(rewrite_line(l, val)),
{
    let (p, w, tail) = lemma_rewrite_shape(l, val);
    let rw = rewrite_line(l, val);
    assert forall|j: int| 0 <= j < rw.len() implies #[trigger] rw[j] != '\n' by {
        if j < p + 1 {
            assert(rw[j] == l[j]);
        } else if j < p + 1 + w.len() {
            assert(rw[j] == l[j]);
        } else if j < p + 1 + w.len() + val.len() {
            assert(rw[j] == val[j - p - 1 - w.len()]);
        } else {
            assert(rw[j] == tail[j - p - 1 - w.len() - val.len()]);
            assert(tail[j - p - 1 - w.len() - val.len()] == l[l.len() - tail.len() + (j - p - 1
                - w.len() - val.len())]);
        }
    }
    if tail.len() > 0 {
        assert(rw.last() == tail.last());
        assert(tail.last() == l.last());
    } else {
        assert(rw.last() == val.last());
    }
}

/// Carrying a value over into a text that already carries it changes
/// nothing: replacing the same key of the same section with the same value
/// again gives the same text. This holds for values that read back
/// unchanged (`inline_safe`), keys that do not start with `[`, and texts
/// whose lines do not end with a stray carriage return.
pub proof fn law_replace_idempotent(text: Seq<char>, section: Seq<char>, key: Seq<char>, val: Seq<char>)
    requires
        replaced_value(text, section, key, val) is Some,
        inline_safe(val),
        key.len() == 0 || key[0] != '[',
        forall|i: int| 0 <= i < split_lines(text).len() ==> !ends_with_cr(#[trigger] split_lines(text)[i]),
    ensures
        match replaced_value(text, section, key, val) {
            Some(o) => replaced_value(o, section, key, val) == Some(o),
            None => false,
        },
{
    let ls = split_lines(text);
    let h = section_header(section);
    let init: ScanState = (false, false, Seq::<char>::empty());
    let i = lemma_scan_replace_point(init, ls, h, key, val);
    let pre = scan_lines(init, ls.take(i), h, key, val);
    lemma_scan_no_replace(init, ls.take(i), h, key, val);
    let rw = rewrite_line(ls[i], val);
    lemma_rewrite_keeps_key(ls[i], val, key);
    lemma_rewrite_fixpoint(ls[i], val);
    let upd = ls.update(i, rw);
    // The replaced text is the joined updated lines.
    law_replace_rewrites_one_line(text, section, key, val);
    let o = join_lines(upd);
    assert(upd =~= ls.take(i) + seq![rw] + ls.skip(i + 1));
    lemma_join_concat(ls.take(i) + seq![rw], ls.skip(i + 1));
    lemma_join_concat(ls.take(i), seq![rw]);
    assert(seq![rw][0] == rw);
    assert(seq![rw].drop_first() =~= Seq::<Seq<char>>::empty());
    assert(join_lines(Seq::<Seq<char>>::empty()) =~= Seq::<char>::empty());
    assert(join_lines(seq![rw]) =~= rw.push('\n'));
    assert(o =~= pre.2 + rw.push('\n') + join_lines(ls.skip(i + 1)));
    assert(replaced_value(text, section, key, val) == Some(o));
    // The updated lines split back from the replaced text.
    lemma_split_lines_no_newline(text);
    assert forall|j: int| 0 <= j < ls[i].len() implies #[trigger] ls[i][j] != '\n' by {}
    lemma_rewrite_line_ok(ls[i], val);
    assert forall|k: int, j: int| 0 <= k < upd.len() && 0 <= j < upd[k].len() implies #[trigger] upd[k][j] != '\n' by {
        if k == i {
            assert(rw[j] != '\n');
        } else {
            assert(upd[k] == ls[k]);
        }
    }
    assert forall|k: int| 0 <= k < upd.len() implies !ends_with_cr(#[trigger] upd[k]) by {
        if k != i {
            assert(upd[k] == ls[k]);
        }
    }
    lemma_split_join(upd);
    // The second scan runs like the first up to the rewritten line, finds it
    // again, and rewrites it to itself.
    assert(upd.take(i) =~= ls.take(i));
    assert(upd.skip(i) =~= seq![rw] + ls.skip(i + 1));
    assert(upd =~= upd.take(i) + upd.skip(i));
    lemma_scan_concat(init, upd.take(i), upd.skip(i), h, key, val);
    lemma_scan_concat(pre, seq![rw], ls.skip(i + 1), h, key, val);
    assert(rewrites_here(pre, rw, key));
    let st1 = scan_step(pre, rw, h, key, val);
    assert(st1 == (pre.0, true, pre.2 + rw.push('\n')));
    assert(seq![rw][0] == rw);
    assert(scan_lines(st1, Seq::<Seq<char>>::empty(), h, key, val) == st1);
    assert(scan_lines(pre, seq![rw], h, key, val) == st1);
    lemma_scan_after_replace(st1, ls.skip(i + 1), h, key, val);
    assert(scan_lines(init, split_lines(o), h, key, val).2 =~= o);
}

/// Reading `s` up to position `j`: (inside double quotes, right after a
/// backslash). A backslash makes the next character plain, and a plain `"`
/// opens or closes a string.
pub open spec fn quote_state(s: Seq<char>, j: int) -> (bool, bool)
    decreases j,
{
    if j <= 0 {
        (false, false)
    } else {
        let (q, e) = quote_state(s, j - 1);
        let c = s[j - 1];
        if e {
            (q, false)
        } else if c == '\\' {
            (q, true)
        } else if c == '"' {
            (!q, false)
        } else {
            (q, false)
        }
    }
}

/// Position `j` of `s` holds a `#` that is outside double quotes and not
/// right after a backslash.
pub open spec fn is_comment_hash(s: Seq<char>, j: int) -> bool {
    0 <= j < s.len() && s[j] == '#' && quote_state(s, j) == (false, false)
}

/// The scan from position `i`, in the state that reading `s` up to `i`
/// leaves, finds the first comment `#` from `i` on.
proof fn lemma_comment_scan_first(s: Seq<char>, i: int)
    requires
        0 <= i <= s.len(),
    ensures
        match comment_scan(s, i, quote_state(s, i).0, quote_state(s, i).1) {
            Some(c) => i <= c < s.len() && is_comment_hash(s, c) && forall|j: int|
                i <= j < c ==> !is_comment_hash(s, j),
            None => forall|j: int| i <= j < s.len() ==> !is_comment_hash(s, j),
        },
    decreases s.len() - i,
{
    if i < s.len() {
        lemma_comment_scan_first(s, i + 1);
        let (q, e) = quote_state(s, i);
        assert(quote_state(s, i + 1) == (if e {
            (q, false)
        } else if s[i] == '\\' {
            (q, true)
        } else if s[i] == '"' {
            (!q, false)
        } else {
            (q, false)
        }));
    }
}

/// The comment of a line starts at its first `#` that is outside double
/// quotes and not right after a backslash; a line without such a `#` has no
/// comment.
pub proof fn law_comment_start_is_first_open_hash(s: Seq<char>)
    ensures
        match comment_start(s) {
            Some(c) => is_comment_hash(s, c) && forall|j: int| 0 <= j < c ==> !is_comment_hash(s, j),
            None => forall|j: int| 0 <= j < s.len() ==> !is_comment_hash(s, j),
        },
{
    lemma_comment_scan_first(s, 0);
}

/// Every character of `w` is whitespace.
pub open spec fn all_ws(w: Seq<char>) -> bool {
    forall|j: int| 0 <= j < w.len() ==> is_ws(#[trigger] w[j])
}

/// Whitespace at the start changes nothing of where the comment is.
proof fn lemma_comment_scan_skip_ws(t: Seq<char>, i: int, k: int)
    requires
        0 <= i <= k <= t.len(),
        forall|j: int| i <= j < k ==> is_ws(#[trigger] t[j]),
    ensures
        comment_scan(t, i, false, false) == comment_scan(t, k, false, false),
    decreases k - i,
{
    if i < k {
        lemma_ws_is_plain(t[i]);
        lemma_comment_scan_skip_ws(t, i + 1, k);
    }
}

/// Rewriting a `key = value` line keeps everything up to the `=` and the
/// line's comment: the rewritten line is the line up to its first `=`, then
/// whitespace, then the new value, then, when the line had a comment after
/// the `=`, whitespace and that comment to the end of the line.
pub proof fn law_rewrite_keeps_key_and_comment(line: Seq<char>, val: Seq<char>)
    requires
        find_first(line, is_char('=')) is Some,
    ensures
        ({
            let p = find_first(line, is_char('='))->Some_0;
            match comment_start(line.skip(p + 1)) {
                Some(c) => exists|w: Seq<char>, g: Seq<char>|
                    #![trigger all_ws(w), all_ws(g)]
                    {
                        &&& rewrite_line(line, val) == line.take(p + 1) + w + val + g + line.skip(
                            p + 1 + c,
                        )
                        &&& all_ws(w)
                        &&& all_ws(g)
                    },
                None => exists|w: Seq<char>|
                    {
                        &&& rewrite_line(line, val) == line.take(p + 1) + w + val
                        &&& #[trigger] all_ws(w)
                    },
            }
        }),
{
    let p = find_first(line, is_char('='))->Some_0;
    lemma_find_first(line, is_char('='));
    let after = line.skip(p + 1);
    lemma_find_first(after, non_ws());
    let lead = match find_first(after, non_ws()) {
        Some(k) => k,
        None => 0,
    };
    let w = after.take(lead);
    let trailing = after.skip(lead);
    assert forall|j: int| 0 <= j < w.len() implies is_ws(#[trigger] w[j]) by {
        assert(w[j] == after[j]);
        assert(!non_ws()(after[j]));
    }
    assert(line.take(p + 1 + lead) =~= line.take(p + 1) + w);
    // The comment after the `=` is the comment after the whitespace.
    match find_first(after, non_ws()) {
        Some(k) => {
            assert forall|j: int| 0 <= j < k implies is_ws(#[trigger] after[j]) by {
                assert(!non_ws()(after[j]));
            }
            lemma_comment_scan_skip_ws(after, 0, k);
        },
        None => {
            assert forall|j: int| 0 <= j < after.len() implies is_ws(#[trigger] after[j]) by {
                assert(!non_ws()(after[j]));
            }
            lemma_comment_scan_skip_ws(after, 0, after.len() as int);
            assert(comment_scan(after, after.len() as int, false, false) is None);
        },
    }
    assert(after =~= w + trailing);
    lemma_comment_scan_shift(w, trailing, 0, false, false);
    match comment_start(trailing) {
        Some(c1) => {
            lemma_comment_scan_bounds(trailing, 0, false, false);
            let m = lemma_trim_end_prefix(trailing.take(c1));
            let g = trailing.subrange(m, c1);
            assert forall|j: int| 0 <= j < g.len() implies is_ws(#[trigger] g[j]) by {
                assert(g[j] == trailing.take(c1)[m + j]);
            }
            assert(trailing.skip(m) =~= g + trailing.skip(c1));
            assert(trailing.skip(c1) =~= line.skip(p + 1 + lead + c1));
            assert(comment_start(after) == Some(lead + c1));
            assert(rewrite_line(line, val) =~= line.take(p + 1) + w + val + g + line.skip(
                p + 1 + (lead + c1),
            ));
            assert(all_ws(w) && all_ws(g));
        },
        None => {
            if find_first(after, non_ws()) is None {
                assert(comment_start(after) is None);
            }
            assert(rewrite_line(line, val) =~= line.take(p + 1) + w + val);
            assert(all_ws(w));
        },
    }
}

} // verus!
