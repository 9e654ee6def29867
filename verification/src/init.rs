//! Config file initialisation: merging the values of an existing config into
//! the default template, line by line, so that the template's layout, new
//! fields and comments survive while the user's values are kept.
use vstd::prelude::*;
use crate::toml_doc::{docs_distinct, docs_view, toml_accepts, toml_entry_docs, toml_entry_docs_of, DocEntries};
use crate::merge_values::{carried_values, lemma_carried_distinct, pairs_distinct, table_keys_distinct};
use crate::text::{
    chars_of, char_utf8_width, find_char_in, find_first, find_non_ws_in, is_char, lemma_find_first,
    lemma_utf8_len_push, lemma_utf8_len_take_le, non_ws, push_all, push_range, string_from_chars,
    trim, trim_bounds, trim_end, trim_end_bound, utf8_len, range_eq,
};

verus! {

// ---------------------------------------------------------------------------
// Comments
// ---------------------------------------------------------------------------

/// Scans `s` from position `i`, inside a string when `in_quotes`, right after
/// a backslash when `escaped`, for the first `#` that starts a comment.
pub open spec fn comment_scan(s: Seq<char>, i: int, in_quotes: bool, escaped: bool) -> Option<int>
    decreases s.len() - i,
{
    if i < 0 || i >= s.len() {
        None
    } else if escaped {
        comment_scan(s, i + 1, in_quotes, false)
    } else if s[i] == '\\' {
        comment_scan(s, i + 1, in_quotes, true)
    } else if s[i] == '"' {
        comment_scan(s, i + 1, !in_quotes, false)
    } else if s[i] == '#' && !in_quotes {
        Some(i)
    } else {
        comment_scan(s, i + 1, in_quotes, false)
    }
}

/// Character position of the `#` that starts the comment of `s`: the first
/// `#` outside double quotes that does not follow a backslash.
pub open spec fn comment_start(s: Seq<char>) -> Option<int> {
    comment_scan(s, 0, false, false)
}

/// A found comment start is a `#` inside `s`.
pub proof fn lemma_comment_scan_bounds(s: Seq<char>, i: int, q: bool, e: bool)
    ensures
        comment_scan(s, i, q, e) matches Some(c) ==> i <= c < s.len() && s[c] == '#',
    decreases s.len() - i,
{
    if 0 <= i < s.len() {
        lemma_comment_scan_bounds(s, i + 1, q, false);
        lemma_comment_scan_bounds(s, i + 1, q, true);
        lemma_comment_scan_bounds(s, i + 1, !q, false);
    }
}

/// Position of the comment start of `v[lo..hi]`, counted from the start of `v`.
fn comment_start_in(v: &Vec<char>, lo: usize, hi: usize) -> (r: Option<usize>)
    requires
        lo <= hi <= v.len(),
    ensures
        match r {
            Some(c) => lo <= c < hi && comment_start(v@.subrange(lo as int, hi as int)) == Some(
                c - lo,
            ),
            None => comment_start(v@.subrange(lo as int, hi as int)) is None,
        },
{
    let ghost s = v@.subrange(lo as int, hi as int);
    let mut in_quotes = false;
    let mut escaped = false;
    let mut i = lo;
    while i < hi
        invariant
            lo <= i <= hi <= v.len(),
            s == v@.subrange(lo as int, hi as int),
            comment_start(s) == comment_scan(s, i - lo, in_quotes, escaped),
        decreases hi - i,
    {
        let ch = v[i];
        assert(s[i - lo] == ch);
        if escaped {
            escaped = false;
        } else if ch == '\\' {
            escaped = true;
        } else if ch == '"' {
            in_quotes = !in_quotes;
        } else if ch == '#' && !in_quotes {
            proof {
                lemma_comment_scan_bounds(s, i - lo, in_quotes, escaped);
            }
            return Some(i);
        }
        i = i + 1;
    }
    None
}

/// Byte offset, in `s`, of the `#` that starts its comment, if it has one.
pub fn find_comment_start(s: &str) -> (r: Option<usize>)
    ensures
        match comment_start(s@) {
            Some(c) => r == Some(utf8_len(s@.take(c)) as usize),
            None => r is None,
        },
{
    let v = chars_of(s);
    let n = v.len();
    let total = s.as_bytes().len();
    match comment_start_in(&v, 0, n) {
        None => {
            assert(v@.subrange(0, n as int) =~= s@);
            None
        },
        Some(c) => {
            assert(v@.subrange(0, n as int) =~= s@);
            // Sum the UTF-8 widths of the characters before the comment.
            let mut bytes: usize = 0;
            let mut i: usize = 0;
            while i < c
                invariant
                    0 <= i <= c < n == v.len(),
                    v@ == s@,
                    bytes == utf8_len(s@.take(i as int)),
                    total == utf8_len(s@),
                decreases c - i,
            {
                let w = char_utf8_width(v[i]);
                proof {
                    lemma_utf8_len_push(s@.take(i as int), s@[i as int]);
                    assert(s@.take(i + 1) =~= s@.take(i as int).push(s@[i as int]));
                    lemma_utf8_len_take_le(s@, i + 1);
                }
                bytes = bytes + w;
                i = i + 1;
            }
            Some(bytes)
        },
    }
}


// ---------------------------------------------------------------------------
// Lines
// ---------------------------------------------------------------------------

/// `s` without one trailing carriage return.
pub open spec fn strip_cr(s: Seq<char>) -> Seq<char> {
    if s.len() > 0 && s.last() == '\r' {
        s.drop_last()
    } else {
        s
    }
}

/// The first line of `t` and the text after its line ending, as
/// `str::lines` splits them: a line ends at `\n` or `\r\n`, and the last line
/// need not end with a line ending.
pub open spec fn next_line(t: Seq<char>) -> (Seq<char>, Seq<char>) {
    match find_first(t, is_char('\n')) {
        Some(i) => (strip_cr(t.take(i)), t.skip(i + 1)),
        None => (t, Seq::<char>::empty()),
    }
}

/// The rest after the first line is shorter than the text.
pub proof fn lemma_next_line_shorter(t: Seq<char>)
    requires
        t.len() > 0,
    ensures
        next_line(t).1.len() < t.len(),
{
    lemma_find_first(t, is_char('\n'));
}

/// The lines of `t` (`str::lines`).
pub open spec fn split_lines(t: Seq<char>) -> Seq<Seq<char>>
    decreases t.len(),
{
    if t.len() == 0 {
        Seq::<Seq<char>>::empty()
    } else {
        proof {
            lemma_next_line_shorter(t);
        }
        seq![next_line(t).0] + split_lines(next_line(t).1)
    }
}

/// The lines `ls`, each followed by `\n`.
pub open spec fn join_lines(ls: Seq<Seq<char>>) -> Seq<char>
    decreases ls.len(),
{
    if ls.len() == 0 {
        Seq::<char>::empty()
    } else {
        ls[0].push('\n') + join_lines(ls.drop_first())
    }
}

// ---------------------------------------------------------------------------
// Replacing one value
// ---------------------------------------------------------------------------

/// The header line of a section, `[name]`.
pub open spec fn section_header(name: Seq<char>) -> Seq<char> {
    seq!['['] + name + seq![']']
}

/// A trimmed line that opens a table: `[...]`, but not an array of tables
/// `[[...]]`.
pub open spec fn is_table_header(t: Seq<char>) -> bool {
    &&& t.len() > 0
    &&& t[0] == '['
    &&& t.last() == ']'
    &&& !(t.len() > 1 && t[1] == '[')
}

/// The key of a trimmed line `key = value`: the trimmed text before its
/// first `=`.
pub open spec fn line_key(t: Seq<char>) -> Option<Seq<char>> {
    match find_first(t, is_char('=')) {
        Some(e) => Some(trim(t.take(e))),
        None => None,
    }
}

/// The line `line` with its value replaced by `val`: everything up to the
/// first `=` and the whitespace after it is kept, then `val` is written, then
/// the whitespace before the line's comment and the comment, if the line has
/// one.
pub open spec fn rewrite_line(line: Seq<char>, val: Seq<char>) -> Seq<char> {
    match find_first(line, is_char('=')) {
        None => line,
        Some(p) => {
            let after = line.skip(p + 1);
            let lead = match find_first(after, non_ws()) {
                Some(k) => k,
                None => 0,
            };
            let head = line.take(p + 1 + lead);
            let trailing = after.skip(lead);
            match comment_start(trailing) {
                Some(c) => head + val + trailing.skip(trim_end(trailing.take(c)).len() as int),
                None => head + val,
            }
        },
    }
}

/// The state of the line scan: inside the wanted section, value already
/// replaced, text written so far.
pub type ScanState = (bool, bool, Seq<char>);

/// One line of the scan for `key` under the header `header`.
pub open spec fn scan_step(
    st: ScanState,
    line: Seq<char>,
    header: Seq<char>,
    key: Seq<char>,
    val: Seq<char>,
) -> ScanState {
    let (in_section, replaced, out) = st;
    let t = trim(line);
    if !replaced && in_section && !is_table_header(t) && line_key(t) == Some(key) {
        (in_section, true, out + rewrite_line(line, val).push('\n'))
    } else {
        let entered = !replaced && t == header;
        let left = !replaced && in_section && is_table_header(t);
        (
            if entered {
                true
            } else if left {
                false
            } else {
                in_section
            },
            replaced,
            out + line.push('\n'),
        )
    }
}

/// The scan over the lines `ls`.
pub open spec fn scan_lines(
    st: ScanState,
    ls: Seq<Seq<char>>,
    header: Seq<char>,
    key: Seq<char>,
    val: Seq<char>,
) -> ScanState
    decreases ls.len(),
{
    if ls.len() == 0 {
        st
    } else {
        scan_lines(scan_step(st, ls[0], header, key, val), ls.drop_first(), header, key, val)
    }
}

/// The scan of the whole of `text`.
pub open spec fn scan_text(text: Seq<char>, header: Seq<char>, key: Seq<char>, val: Seq<char>) -> ScanState {
    scan_lines((false, false, Seq::<char>::empty()), split_lines(text), header, key, val)
}

/// The text `text` with the value of `key` in the section `section` replaced
/// by `val`: the first line of that section whose key is `key` is rewritten,
/// every line is written followed by `\n`; `None` when no line matched.
pub open spec fn replaced_value(
    text: Seq<char>,
    section: Seq<char>,
    key: Seq<char>,
    val: Seq<char>,
) -> Option<Seq<char>> {
    let st = scan_lines(
        (false, false, Seq::<char>::empty()),
        split_lines(text),
        section_header(section),
        key,
        val,
    );
    if st.1 {
        Some(st.2)
    } else {
        None
    }
}

/// Whether `v[lo..hi]` is a table header line.
fn is_header_range(v: &Vec<char>, lo: usize, hi: usize) -> (b: bool)
    requires
        lo <= hi <= v.len(),
    ensures
        b == is_table_header(v@.subrange(lo as int, hi as int)),
{
    hi > lo && v[lo] == '[' && v[hi - 1] == ']' && !(hi - lo > 1 && v[lo + 1] == '[')
}

/// The first line of `text[pos..]` is `text[pos..line_end]`, followed by the
/// rest from `next`.
proof fn lemma_next_line_at(text: Seq<char>, pos: int, line_end: int, next: int, nl: Option<int>)
    requires
        0 <= pos < text.len(),
        nl == find_first(text.subrange(pos, text.len() as int), is_char('\n')),
        match nl {
            Some(i) => {
                &&& next == pos + i + 1
                &&& if i > 0 && text[pos + i - 1] == '\r' {
                    line_end == pos + i - 1
                } else {
                    line_end == pos + i
                }
            },
            None => line_end == text.len() && next == text.len(),
        },
    ensures
        next_line(text.skip(pos)).0 == text.subrange(pos, line_end),
        next_line(text.skip(pos)).1 == text.skip(next),
        pos <= line_end < next || (line_end == next == text.len()),
        split_lines(text.skip(pos)) == seq![text.subrange(pos, line_end)] + split_lines(
            text.skip(next),
        ),
{
    let t = text.skip(pos);
    assert(t =~= text.subrange(pos, text.len() as int));
    lemma_find_first(t, is_char('\n'));
    match nl {
        Some(i) => {
            assert(t.skip(i + 1) =~= text.skip(next));
            if i > 0 && text[pos + i - 1] == '\r' {
                assert(t.take(i).drop_last() =~= text.subrange(pos, line_end));
            } else {
                assert(t.take(i) =~= text.subrange(pos, line_end));
            }
        },
        None => {
            assert(t =~= text.subrange(pos, line_end));
            assert(text.skip(next) =~= Seq::<char>::empty());
        },
    }
}

/// Where the line that starts at `pos` ends, and where the next one starts.
fn line_bounds(text: &Vec<char>, pos: usize) -> (r: (usize, usize))
    requires
        pos < text.len(),
    ensures
        pos <= r.0 <= r.1 <= text.len(),
        pos < r.1,
        next_line(text@.skip(pos as int)).0 == text@.subrange(pos as int, r.0 as int),
        split_lines(text@.skip(pos as int)) == seq![text@.subrange(pos as int, r.0 as int)]
            + split_lines(text@.skip(r.1 as int)),
{
    let n = text.len();
    let nl = find_char_in(text, pos, n, '\n');
    let (line_end, next) = match nl {
        Some(i) => {
            if i > pos && text[i - 1] == '\r' {
                (i - 1, i + 1)
            } else {
                (i, i + 1)
            }
        },
        None => (n, n),
    };
    let ghost gnl = match nl {
        Some(i) => Some(i - pos),
        None => None,
    };
    proof {
        lemma_next_line_at(text@, pos as int, line_end as int, next as int, gnl);
    }
    (line_end, next)
}

/// Whether the trimmed line `v[ta..tb]` is a `key = ...` line and not a
/// table header.
fn is_key_line(v: &Vec<char>, ta: usize, tb: usize, key: &Vec<char>) -> (b: bool)
    requires
        ta <= tb <= v.len(),
    ensures
        b == (!is_table_header(v@.subrange(ta as int, tb as int)) && line_key(
            v@.subrange(ta as int, tb as int),
        ) == Some(key@)),
{
    let ghost t = v@.subrange(ta as int, tb as int);
    if is_header_range(v, ta, tb) {
        return false;
    }
    match find_char_in(v, ta, tb, '=') {
        Some(e) => {
            let (ka, kb) = trim_bounds(v, ta, e);
            assert(t.take(e - ta) =~= v@.subrange(ta as int, e as int));
            range_eq(v, ka, kb, key)
        },
        None => false,
    }
}

/// Appends to `out` the line `text[pos..line_end]` with its value replaced
/// by `val`.
#[verifier::rlimit(50)]
#[verifier::spinoff_prover]
fn push_rewritten(out: &mut Vec<char>, text: &Vec<char>, pos: usize, line_end: usize, val: &Vec<char>)
    requires
        pos <= line_end <= text.len(),
    ensures
        final(out)@ == old(out)@ + rewrite_line(text@.subrange(pos as int, line_end as int), val@),
{
    let ghost line = text@.subrange(pos as int, line_end as int);
    match find_char_in(text, pos, line_end, '=') {
        None => {
            push_range(out, text, pos, line_end);
        },
        Some(p) => {
            let lead_end = match find_non_ws_in(text, p + 1, line_end) {
                Some(k) => k,
                None => p + 1,
            };
            let ghost after = line.skip(p - pos + 1);
            assert(after =~= text@.subrange(p + 1, line_end as int));
            let ghost trailing = text@.subrange(lead_end as int, line_end as int);
            assert(line.take(lead_end - pos) =~= text@.subrange(pos as int, lead_end as int));
            assert(after.skip(lead_end - p - 1) =~= trailing);
            push_range(out, text, pos, lead_end);
            push_all(out, val);
            match comment_start_in(text, lead_end, line_end) {
                Some(c) => {
                    let vce = trim_end_bound(text, lead_end, c);
                    assert(trailing.take(c - lead_end) =~= text@.subrange(
                        lead_end as int,
                        c as int,
                    ));
                    assert(trailing.skip(vce - lead_end) =~= text@.subrange(
                        vce as int,
                        line_end as int,
                    ));
                    push_range(out, text, vce, line_end);
                },
                None => {},
            }
        },
    }
}

/// Replaces, in `text`, the value of `key` under the header `header` by `val`.
fn replace_in_chars(text: &Vec<char>, header: &Vec<char>, key: &Vec<char>, val: &Vec<char>) -> (r:
    Option<Vec<char>>)
    ensures
        match r {
            Some(o) => scan_text(text@, header@, key@, val@).1 && scan_text(
                text@,
                header@,
                key@,
                val@,
            ).2 == o@,
            None => !scan_text(text@, header@, key@, val@).1,
        },
{
    let ghost init: ScanState = (false, false, Seq::<char>::empty());
    let ghost whole = split_lines(text@);
    let n = text.len();
    let mut pos: usize = 0;
    let mut in_section = false;
    let mut replaced = false;
    let mut out: Vec<char> = Vec::new();
    assert(text@.skip(0) =~= text@);
    while pos < n
        invariant
            pos <= n == text.len(),
            scan_lines(init, whole, header@, key@, val@) == scan_lines(
                (in_section, replaced, out@),
                split_lines(text@.skip(pos as int)),
                header@,
                key@,
                val@,
            ),
        decreases n - pos,
    {
        let (line_end, next) = line_bounds(text, pos);
        let ghost line = text@.subrange(pos as int, line_end as int);
        let ghost rest = split_lines(text@.skip(next as int));
        let ghost st0: ScanState = (in_section, replaced, out@);
        assert((seq![line] + rest)[0] == line);
        assert((seq![line] + rest).drop_first() =~= rest);
        let (ta, tb) = trim_bounds(text, pos, line_end);
        if !replaced && in_section && is_key_line(text, ta, tb, key) {
            push_rewritten(&mut out, text, pos, line_end, val);
            out.push('\n');
            replaced = true;
        } else {
            let is_hdr = is_header_range(text, ta, tb);
            if !replaced && range_eq(text, ta, tb, header) {
                in_section = true;
            } else if !replaced && in_section && is_hdr {
                in_section = false;
            }
            push_range(&mut out, text, pos, line_end);
            out.push('\n');
        }
        assert((in_section, replaced, out@) == scan_step(st0, line, header@, key@, val@));
        pos = next;
    }
    assert(text@.skip(n as int) =~= Seq::<char>::empty());
    if replaced {
        Some(out)
    } else {
        None
    }
}

/// The text `text` with the value of `key` in the section `section_name`
/// replaced by `new_value`, the inline TOML text of the new value: `None`
/// when the text has no line for that key in that section.
pub fn replace_value_in_text(text: &str, section_name: &str, key: &str, new_value: &str) -> (r:
    Option<String>)
    ensures
        match r {
            Some(o) => replaced_value(text@, section_name@, key@, new_value@) == Some(o@),
            None => replaced_value(text@, section_name@, key@, new_value@) is None,
        },
{
    let t = chars_of(text);
    let name = chars_of(section_name);
    let k = chars_of(key);
    let v = chars_of(new_value);
    let mut header: Vec<char> = Vec::new();
    header.push('[');
    push_all(&mut header, &name);
    header.push(']');
    assert(header@ =~= section_header(section_name@));
    match replace_in_chars(&t, &header, &k, &v) {
        Some(o) => Some(string_from_chars(&o)),
        None => None,
    }
}

// ---------------------------------------------------------------------------
// Merging a whole config
// ---------------------------------------------------------------------------

/// A value of the existing config, as the merge reads it: its key and its
/// value written as inline TOML.
pub struct ConfigValue {
    pub key: String,
    pub inline: String,
}

/// A top-level entry of the existing config: its name, and its values when
/// it is a table.
pub struct ConfigEntry {
    pub name: String,
    pub values: Option<Vec<ConfigValue>>,
}

/// A config value as plain text: (key, inline value).
pub type ValueView = (Seq<char>, Seq<char>);

/// A top-level entry as plain text: (name, values when it is a table).
pub type EntryView = (Seq<char>, Option<Seq<ValueView>>);

impl View for ConfigValue {
    type V = ValueView;

    open spec fn view(&self) -> ValueView {
        (self.key@, self.inline@)
    }
}

impl View for ConfigEntry {
    type V = EntryView;

    open spec fn view(&self) -> EntryView {
        (
            self.name@,
            match self.values {
                Some(vs) => Some(vs@.map_values(|v: ConfigValue| v@)),
                None => None,
            },
        )
    }
}

/// The entries as plain text.
pub open spec fn entries_view(es: Seq<ConfigEntry>) -> Seq<EntryView> {
    es.map_values(|e: ConfigEntry| e@)
}

/// `text` with one value carried over: replaced when the text has a line
/// for it, unchanged otherwise.
pub open spec fn apply_value(text: Seq<char>, section: Seq<char>, kv: ValueView) -> Seq<char> {
    match replaced_value(text, section, kv.0, kv.1) {
        Some(r) => r,
        None => text,
    }
}

/// `text` with the values `kvs` of one section carried over, in order.
pub open spec fn apply_values(text: Seq<char>, section: Seq<char>, kvs: Seq<ValueView>) -> Seq<
    char,
>
    decreases kvs.len(),
{
    if kvs.len() == 0 {
        text
    } else {
        apply_values(apply_value(text, section, kvs[0]), section, kvs.drop_first())
    }
}

/// `text` with the values of every table entry of `entries` carried over, in
/// order; entries that are not tables are left out.
pub open spec fn merged_text(text: Seq<char>, entries: Seq<EntryView>) -> Seq<char>
    decreases entries.len(),
{
    if entries.len() == 0 {
        text
    } else {
        let next = match entries[0].1 {
            Some(kvs) => apply_values(text, entries[0].0, kvs),
            None => text,
        };
        merged_text(next, entries.drop_first())
    }
}

/// Carries the values of `entries` into `template`: for each table and each
/// of its keys, in order, the template's line for that key in that section
/// gets the existing value.
pub fn merge_entries(template: &str, entries: &Vec<ConfigEntry>) -> (r: String)
    ensures
        r@ == merged_text(template@, entries_view(entries@)),
{
    let ghost es = entries_view(entries@);
    let mut result = template.to_owned();
    let mut i: usize = 0;
    assert(es.skip(0) =~= es);
    while i < entries.len()
        invariant
            0 <= i <= entries.len(),
            es == entries_view(entries@),
            merged_text(template@, es) == merged_text(result@, es.skip(i as int)),
        decreases entries.len() - i,
    {
        let entry = &entries[i];
        assert(es.skip(i as int)[0] == entry@);
        assert(es.skip(i as int).drop_first() =~= es.skip(i + 1));
        match &entry.values {
            Some(values) => {
                let ghost kvs = values@.map_values(|v: ConfigValue| v@);
                let ghost start = result@;
                let mut j: usize = 0;
                assert(kvs.skip(0) =~= kvs);
                while j < values.len()
                    invariant
                        0 <= j <= values.len(),
                        kvs == values@.map_values(|v: ConfigValue| v@),
                        apply_values(start, entry.name@, kvs) == apply_values(
                            result@,
                            entry.name@,
                            kvs.skip(j as int),
                        ),
                    decreases values.len() - j,
                {
                    let value = &values[j];
                    assert(kvs.skip(j as int)[0] == value@);
                    assert(kvs.skip(j as int).drop_first() =~= kvs.skip(j + 1));
                    match replace_value_in_text(&result, &entry.name, &value.key, &value.inline) {
                        Some(next) => {
                            result = next;
                        },
                        None => {},
                    }
                    j = j + 1;
                }
                assert(kvs.skip(j as int) =~= Seq::<ValueView>::empty());
            },
            None => {},
        }
        i = i + 1;
    }
    assert(es.skip(i as int) =~= Seq::<EntryView>::empty());
    result
}

// ---------------------------------------------------------------------------
// Values written inline, and the whole merge
// ---------------------------------------------------------------------------

/// The value of the document `doc` that holds the single assignment
/// `key = value`: the trimmed document after `key = `, or empty text when the
/// document does not start that way.
pub open spec fn assignment_value(doc: Seq<char>, key: Seq<char>) -> Seq<char> {
    let t = trim(doc);
    let prefix = key + seq![' ', '=', ' '];
    if prefix.len() <= t.len() && t.take(prefix.len() as int) == prefix {
        t.skip(prefix.len() as int)
    } else {
        Seq::<char>::empty()
    }
}

/// The value that the one-assignment document `doc` gives `key`.
pub fn assignment_value_text(doc: &str, key: &str) -> (r: String)
    ensures
        r@ == assignment_value(doc@, key@),
{
    let v = chars_of(doc);
    let k = chars_of(key);
    let mut prefix: Vec<char> = Vec::new();
    push_all(&mut prefix, &k);
    prefix.push(' ');
    prefix.push('=');
    prefix.push(' ');
    assert(prefix@ =~= key@ + seq![' ', '=', ' ']);
    let (ta, tb) = trim_bounds(&v, 0, v.len());
    assert(v@.subrange(0, v@.len() as int) =~= doc@);
    let ghost t = v@.subrange(ta as int, tb as int);
    let mut out: Vec<char> = Vec::new();
    if prefix.len() <= tb - ta && range_eq(&v, ta, ta + prefix.len(), &prefix) {
        assert(t.take(prefix.len() as int) =~= v@.subrange(ta as int, ta + prefix.len()));
        assert(t.skip(prefix.len() as int) =~= v@.subrange(ta + prefix.len(), tb as int));
        push_range(&mut out, &v, ta + prefix.len(), tb);
    } else {
        assert(prefix.len() <= t.len() ==> t.take(prefix.len() as int) =~= v@.subrange(
            ta as int,
            ta + prefix.len(),
        ));
    }
    string_from_chars(&out)
}

/// The inline text of a value whose one-entry document, assigning it to
/// `_`, is `doc`: the text after `_ = `, and empty text where there is no
/// document.
pub open spec fn inline_of(doc: Option<Seq<char>>) -> Seq<char> {
    assignment_value(
        match doc {
            Some(d) => d,
            None => Seq::<char>::empty(),
        },
        "_"@,
    )
}

/// The entries that the merge carries over, read from the documents `ds`.
pub open spec fn entries_of_docs(ds: DocEntries) -> Seq<EntryView> {
    ds.map_values(
        |d: (Seq<char>, Option<Seq<(Seq<char>, Option<Seq<char>>)>>)|
            (
                d.0,
                match d.1 {
                    Some(kvs) => Some(
                        kvs.map_values(
                            |kv: (Seq<char>, Option<Seq<char>>)| (kv.0, inline_of(kv.1)),
                        ),
                    ),
                    None => None,
                },
            ),
    )
}

/// The template `template` with the values of the existing config
/// `existing` carried over.
pub open spec fn merged_config(template: Seq<char>, existing: Seq<char>) -> Seq<char> {
    merged_text(template, entries_of_docs(toml_entry_docs(existing, "_"@)))
}

/// A value written inline, as the `toml` crate serializes it after `_ = `,
/// from its one-entry document `doc`.
fn format_toml_inline(doc: &Option<String>) -> (r: String)
    ensures
        r@ == inline_of(match doc {
            Some(d) => Some(d@),
            None => None,
        }),
{
    match doc {
        Some(d) => assignment_value_text(d.as_str(), "_"),
        None => {
            proof {
                reveal_strlit("");
            }
            assignment_value_text("", "_")
        },
    }
}

/// Why a merge failed.
pub enum MergeError {
    /// The existing config is not a TOML document; the parser's message.
    InvalidExisting(String),
}

impl MergeError {
    /// The message shown to the user.
    pub fn message(&self) -> (m: String)
        ensures
            match self {
                MergeError::InvalidExisting(e) => m@ == "Failed to parse existing config: "@ + e@,
            },
    {
        match self {
            MergeError::InvalidExisting(e) => {
                let mut m = "Failed to parse existing config: ".to_owned();
                m.append(e.as_str());
                m
            },
        }
    }
}

/// Merges the values of the existing config `existing` into the default
/// template: each key of each table of `existing` that the template has a
/// line for, in that table's section, gets the existing value. Fails exactly
/// when `existing` is not a TOML document.
pub fn merge_toml(template: &str, existing: &str) -> (r: Result<String, MergeError>)
    ensures
        r is Ok <==> toml_accepts(existing@),
        r matches Ok(m) ==> m@ == merged_config(template@, existing@),
        r is Ok ==> pairs_distinct(carried_values(entries_of_docs(toml_entry_docs(existing@, "_"@)))),
{
    let docs = match toml_entry_docs_of(existing, "_") {
        Ok(v) => v,
        Err(e) => {
            return Err(MergeError::InvalidExisting(e));
        },
    };
    let ghost ds = docs_view(docs@);
    let ghost target = entries_of_docs(ds);
    let mut entries: Vec<ConfigEntry> = Vec::new();
    let mut i: usize = 0;
    while i < docs.len()
        invariant
            0 <= i <= docs.len(),
            ds == docs_view(docs@),
            target == entries_of_docs(ds),
            entries_view(entries@) == target.take(i as int),
        decreases docs.len() - i,
    {
        let ghost d = ds[i as int];
        assert(d.0 == docs@[i as int].0@);
        let values = match &docs[i].1 {
            Some(inner) => {
                let ghost kvs = d.1->Some_0;
                let ghost want = kvs.map_values(
                    |kv: (Seq<char>, Option<Seq<char>>)| (kv.0, inline_of(kv.1)),
                );
                assert(kvs == inner@.map_values(
                    |kv: (String, Option<String>)|
                        (
                            kv.0@,
                            match kv.1 {
                                Some(x) => Some(x@),
                                None => None,
                            },
                        ),
                ));
                let mut vs: Vec<ConfigValue> = Vec::new();
                let mut j: usize = 0;
                while j < inner.len()
                    invariant
                        0 <= j <= inner.len(),
                        kvs.len() == inner.len(),
                        forall|a: int|
                            0 <= a < inner.len() ==> #[trigger] kvs[a] == (
                                inner@[a].0@,
                                match inner@[a].1 {
                                    Some(x) => Some(x@),
                                    None => None,
                                },
                            ),
                        want == kvs.map_values(
                            |kv: (Seq<char>, Option<Seq<char>>)| (kv.0, inline_of(kv.1)),
                        ),
                        vs@.map_values(|v: ConfigValue| v@) == want.take(j as int),
                    decreases inner.len() - j,
                {
                    assert(kvs[j as int] == (
                        inner@[j as int].0@,
                        match inner@[j as int].1 {
                            Some(x) => Some(x@),
                            None => None,
                        },
                    ));
                    let ghost before = vs@;
                    let cv = ConfigValue {
                        key: inner[j].0.clone(),
                        inline: format_toml_inline(&inner[j].1),
                    };
                    assert(cv@ == want[j as int]);
                    vs.push(cv);
                    assert(vs@ == before.push(cv));
                    assert(vs@.map_values(|v: ConfigValue| v@) =~= before.map_values(
                        |v: ConfigValue| v@,
                    ).push(cv@));
                    assert(want.take(j + 1) =~= want.take(j as int).push(want[j as int]));
                    j = j + 1;
                }
                assert(want.take(j as int) =~= want);
                assert(target[i as int].1 == Some(want));
                Some(vs)
            },
            None => {
                assert(target[i as int].1 is None);
                None
            },
        };
        let entry = ConfigEntry { name: docs[i].0.clone(), values };
        assert(entry@ == target[i as int]);
        let ghost before = entries@;
        entries.push(entry);
        assert(entries@ == before.push(entry));
        assert(entries_view(entries@) =~= entries_view(before).push(entry@));
        assert(target.take(i + 1) =~= target.take(i as int).push(target[i as int]));
        i = i + 1;
    }
    assert(target.take(i as int) =~= target);
    assert forall|a: int, b: int| 0 <= a < b < target.len() implies (#[trigger] target[a]).0
        != (#[trigger] target[b]).0 by {
        assert(target[a].0 == ds[a].0);
        assert(target[b].0 == ds[b].0);
    }
    assert forall|a: int| 0 <= a < target.len() implies table_keys_distinct(#[trigger] target[a]) by {
        assert(docs_distinct(ds));
        match ds[a].1 {
            Some(kvs) => {
                let want = kvs.map_values(
                    |kv: (Seq<char>, Option<Seq<char>>)| (kv.0, inline_of(kv.1)),
                );
                assert(target[a].1 == Some(want));
                assert forall|x: int, y: int| 0 <= x < y < want.len() implies (#[trigger] want[x]).0
                    != (#[trigger] want[y]).0 by {
                    assert(want[x].0 == kvs[x].0);
                    assert(want[y].0 == kvs[y].0);
                }
            },
            None => {},
        }
    }
    proof {
        lemma_carried_distinct(target);
    }
    let merged = merge_entries(template, &entries);
    Ok(merged)
}

} // verus!
