//! What a whole merge guarantees: every value carried over from the existing
//! config is the value of its line in the merged text.
use vstd::prelude::*;
use crate::init::{
    entries_of_docs, merged_config, apply_value, apply_values, merged_text, EntryView, ValueView, is_table_header, join_lines, line_key, replaced_value, rewrite_line, scan_lines,
    scan_step, section_header, split_lines, ScanState,
};
use crate::merge_laws::{
    ends_with_cr, inline_safe, lemma_in_section_witness, lemma_join_concat,
    lemma_rewrite_keeps_key, lemma_rewrite_line_ok, lemma_scan_after_replace, lemma_scan_concat,
    lemma_scan_no_replace, lemma_scan_replace_point, lemma_split_join,
    lemma_split_lines_no_newline, law_replace_idempotent, law_rewritten_value_reads_back,
    line_value, rewrites_here,
};
use crate::text::trim;
use crate::toml_doc::toml_entry_docs;

verus! {

/// A name that does not start with `[`: the header of a section with such a
/// name is a table header, and a key line with such a key is no header.
pub open spec fn plain_name(n: Seq<char>) -> bool {
    n.len() == 0 || n[0] != '['
}

/// A `key = value` line that no section header can be mistaken for.
pub open spec fn plain_key_line(l: Seq<char>) -> bool {
    &&& !is_table_header(trim(l))
    &&& line_key(trim(l)) is Some
    &&& trim(l)[0] != '['
}

/// Two lines that play the same part in every scan: equal lines, or two
/// plain `key = value` lines for the same key.
pub open spec fn same_role(a: Seq<char>, b: Seq<char>) -> bool {
    a == b || (plain_key_line(a) && plain_key_line(b) && line_key(trim(a)) == line_key(trim(b)))
}

/// Two runs of lines that play the same part line by line.
pub open spec fn same_roles(a: Seq<Seq<char>>, b: Seq<Seq<char>>) -> bool {
    &&& a.len() == b.len()
    &&& forall|i: int| 0 <= i < a.len() ==> #[trigger] same_role(a[i], b[i])
}

/// The scan's state before the first line.
pub open spec fn scan_start() -> ScanState {
    (false, false, Seq::<char>::empty())
}

/// Line `i` of `ls` is the line that replacing the value of `key` in
/// `section` rewrites.
pub open spec fn replace_point(ls: Seq<Seq<char>>, section: Seq<char>, key: Seq<char>, i: int) -> bool {
    let pre = scan_lines(scan_start(), ls.take(i), section_header(section), key, Seq::<char>::empty());
    &&& 0 <= i < ls.len()
    &&& !pre.1
    &&& rewrites_here(pre, ls[i], key)
}

/// A section's header line starts with `[`.
proof fn lemma_header_starts(s: Seq<char>)
    ensures
        section_header(s).len() == s.len() + 2,
        section_header(s)[0] == '[',
{
}

/// One line read in two scans in the same state: lines that play the same
/// part leave the scans in the same state, whatever they write.
proof fn lemma_step_flags(
    st1: ScanState,
    st2: ScanState,
    a: Seq<char>,
    b: Seq<char>,
    s: Seq<char>,
    k: Seq<char>,
    v1: Seq<char>,
    v2: Seq<char>,
)
    requires
        st1.0 == st2.0,
        st1.1 == st2.1,
        same_role(a, b),
    ensures
        scan_step(st1, a, section_header(s), k, v1).0 == scan_step(st2, b, section_header(s), k, v2).0,
        scan_step(st1, a, section_header(s), k, v1).1 == scan_step(st2, b, section_header(s), k, v2).1,
{
    lemma_header_starts(s);
    if a != b {
        assert(trim(a) != section_header(s));
        assert(trim(b) != section_header(s));
    }
}

/// Two scans over lines that play the same part, from the same state, end
/// in the same state, whatever they write.
proof fn lemma_scan_flags(
    st1: ScanState,
    st2: ScanState,
    a: Seq<Seq<char>>,
    b: Seq<Seq<char>>,
    s: Seq<char>,
    k: Seq<char>,
    v1: Seq<char>,
    v2: Seq<char>,
)
    requires
        st1.0 == st2.0,
        st1.1 == st2.1,
        same_roles(a, b),
    ensures
        scan_lines(st1, a, section_header(s), k, v1).0 == scan_lines(st2, b, section_header(s), k, v2).0,
        scan_lines(st1, a, section_header(s), k, v1).1 == scan_lines(st2, b, section_header(s), k, v2).1,
    decreases a.len(),
{
    if a.len() > 0 {
        assert(same_role(a[0], b[0]));
        lemma_step_flags(st1, st2, a[0], b[0], s, k, v1, v2);
        assert(same_roles(a.drop_first(), b.drop_first())) by {
            assert forall|i: int| 0 <= i < a.drop_first().len() implies #[trigger] same_role(
                a.drop_first()[i],
                b.drop_first()[i],
            ) by {
                assert(same_role(a[i + 1], b[i + 1]));
            }
        }
        lemma_scan_flags(
            scan_step(st1, a[0], section_header(s), k, v1),
            scan_step(st2, b[0], section_header(s), k, v2),
            a.drop_first(),
            b.drop_first(),
            s,
            k,
            v1,
            v2,
        );
    }
}

/// Lines play the same part as themselves.
proof fn lemma_same_roles_refl(a: Seq<Seq<char>>)
    ensures
        same_roles(a, a),
{
    assert forall|i: int| 0 <= i < a.len() implies #[trigger] same_role(a[i], a[i]) by {}
}

/// The first `i` lines of runs that play the same part play the same part.
proof fn lemma_same_roles_take(a: Seq<Seq<char>>, b: Seq<Seq<char>>, i: int)
    requires
        same_roles(a, b),
        0 <= i <= a.len(),
    ensures
        same_roles(a.take(i), b.take(i)),
{
    assert forall|j: int| 0 <= j < a.take(i).len() implies #[trigger] same_role(
        a.take(i)[j],
        b.take(i)[j],
    ) by {
        assert(same_role(a[j], b[j]));
    }
}

/// Where a replacement happens, there is its replace point.
proof fn lemma_point_of(t: Seq<char>, s: Seq<char>, k: Seq<char>, v: Seq<char>) -> (i: int)
    requires
        replaced_value(t, s, k, v) is Some,
    ensures
        replace_point(split_lines(t), s, k, i),
{
    let ls = split_lines(t);
    let h = section_header(s);
    let i = lemma_scan_replace_point(scan_start(), ls, h, k, v);
    lemma_same_roles_refl(ls.take(i));
    lemma_scan_flags(scan_start(), scan_start(), ls.take(i), ls.take(i), s, k, v, Seq::<char>::empty());
    i
}

/// At its replace point, a replacement rewrites that line and writes every
/// other line as it was, each followed by `\n`.
proof fn lemma_point_result(t: Seq<char>, s: Seq<char>, k: Seq<char>, v: Seq<char>, i: int)
    requires
        replace_point(split_lines(t), s, k, i),
    ensures
        replaced_value(t, s, k, v) == Some(
            join_lines(split_lines(t).update(i, rewrite_line(split_lines(t)[i], v))),
        ),
{
    let ls = split_lines(t);
    let h = section_header(s);
    let init = scan_start();
    lemma_same_roles_refl(ls.take(i));
    lemma_scan_flags(init, init, ls.take(i), ls.take(i), s, k, v, Seq::<char>::empty());
    let pre = scan_lines(init, ls.take(i), h, k, v);
    lemma_scan_no_replace(init, ls.take(i), h, k, v);
    assert(pre.2 =~= join_lines(ls.take(i)));
    let rw = rewrite_line(ls[i], v);
    assert(ls =~= ls.take(i) + (seq![ls[i]] + ls.skip(i + 1)));
    lemma_scan_concat(init, ls.take(i), seq![ls[i]] + ls.skip(i + 1), h, k, v);
    lemma_scan_concat(pre, seq![ls[i]], ls.skip(i + 1), h, k, v);
    let st1 = scan_step(pre, ls[i], h, k, v);
    assert(st1 == (pre.0, true, pre.2 + rw.push('\n')));
    assert(seq![ls[i]][0] == ls[i]);
    assert(seq![ls[i]].drop_first() =~= Seq::<Seq<char>>::empty());
    assert(scan_lines(st1, Seq::<Seq<char>>::empty(), h, k, v) == st1);
    assert(scan_lines(pre, seq![ls[i]], h, k, v) == st1);
    lemma_scan_after_replace(st1, ls.skip(i + 1), h, k, v);
    let upd = ls.update(i, rw);
    assert(upd =~= ls.take(i) + seq![rw] + ls.skip(i + 1));
    lemma_join_concat(ls.take(i) + seq![rw], ls.skip(i + 1));
    lemma_join_concat(ls.take(i), seq![rw]);
    assert(seq![rw].drop_first() =~= Seq::<Seq<char>>::empty());
    assert(seq![rw][0] == rw);
    assert(join_lines(Seq::<Seq<char>>::empty()) =~= Seq::<char>::empty());
    assert(join_lines(seq![rw]) =~= rw.push('\n'));
    assert(join_lines(upd) =~= pre.2 + rw.push('\n') + join_lines(ls.skip(i + 1)));
}

/// Runs of lines that play the same part have the same replace points.
proof fn lemma_point_transfer(a: Seq<Seq<char>>, b: Seq<Seq<char>>, s: Seq<char>, k: Seq<char>, i: int)
    requires
        same_roles(a, b),
        replace_point(a, s, k, i),
    ensures
        replace_point(b, s, k, i),
{
    lemma_same_roles_take(a, b, i);
    let e = Seq::<char>::empty();
    lemma_scan_flags(scan_start(), scan_start(), a.take(i), b.take(i), s, k, e, e);
    assert(same_role(a[i], b[i]));
}

/// A section named without a leading `[` has a table header.
proof fn lemma_header_is_table_header(s: Seq<char>)
    requires
        plain_name(s),
    ensures
        is_table_header(section_header(s)),
{
    let h = section_header(s);
    assert(h[0] == '[');
    assert(h.last() == ']');
    if s.len() > 0 {
        assert(h[1] == s[0]);
    } else {
        assert(h[1] == ']');
    }
}

/// Two headers are the same only for the same section name.
proof fn lemma_header_injective(s1: Seq<char>, s2: Seq<char>)
    requires
        section_header(s1) == section_header(s2),
    ensures
        s1 == s2,
{
    lemma_header_starts(s1);
    lemma_header_starts(s2);
    assert(s1 =~= section_header(s1).subrange(1, s1.len() + 1int));
    assert(s2 =~= section_header(s2).subrange(1, s2.len() + 1int));
}

/// One line is the replace point of one section and key only, among
/// sections named without a leading `[`.
proof fn lemma_point_distinct(
    ls: Seq<Seq<char>>,
    s1: Seq<char>,
    k1: Seq<char>,
    s2: Seq<char>,
    k2: Seq<char>,
    i: int,
)
    requires
        replace_point(ls, s1, k1, i),
        replace_point(ls, s2, k2, i),
        plain_name(s1),
        plain_name(s2),
    ensures
        s1 == s2,
        k1 == k2,
{
    let e = Seq::<char>::empty();
    let pre = ls.take(i);
    lemma_in_section_witness(pre, section_header(s1), k1, e);
    lemma_in_section_witness(pre, section_header(s2), k2, e);
    let j1 = choose|j: int|
        0 <= j < pre.len() && trim(#[trigger] pre[j]) == section_header(s1) && forall|m: int|
            j < m < pre.len() ==> !is_table_header(trim(#[trigger] pre[m]));
    let j2 = choose|j: int|
        0 <= j < pre.len() && trim(#[trigger] pre[j]) == section_header(s2) && forall|m: int|
            j < m < pre.len() ==> !is_table_header(trim(#[trigger] pre[m]));
    lemma_header_is_table_header(s1);
    lemma_header_is_table_header(s2);
    if j1 < j2 {
        assert(!is_table_header(trim(pre[j2])));
    } else if j2 < j1 {
        assert(!is_table_header(trim(pre[j1])));
    } else {
        lemma_header_injective(s1, s2);
    }
}

/// No line of `t` ends with a stray carriage return.
pub open spec fn no_stray_cr(t: Seq<char>) -> bool {
    forall|i: int| 0 <= i < split_lines(t).len() ==> !ends_with_cr(#[trigger] split_lines(t)[i])
}

/// A replacement in a text whose lines end without a stray `\r`: the line
/// it rewrites is a plain `key = value` line, and the text it gives splits
/// back into the lines it wrote, which play the same parts as the lines
/// before.
proof fn lemma_replaced_lines(t: Seq<char>, s: Seq<char>, k: Seq<char>, v: Seq<char>) -> (i: int)
    requires
        replaced_value(t, s, k, v) is Some,
        no_stray_cr(t),
        inline_safe(v),
        plain_name(k),
    ensures
        replace_point(split_lines(t), s, k, i),
        plain_key_line(split_lines(t)[i]),
        ({
            let upd = split_lines(t).update(i, rewrite_line(split_lines(t)[i], v));
            &&& replaced_value(t, s, k, v) == Some(join_lines(upd))
            &&& split_lines(join_lines(upd)) == upd
            &&& same_roles(split_lines(t), upd)
            &&& no_stray_cr(join_lines(upd))
        }),
{
    let ls = split_lines(t);
    let i = lemma_point_of(t, s, k, v);
    lemma_point_result(t, s, k, v, i);
    let l = ls[i];
    lemma_rewrite_keeps_key(l, v, k);
    let rw = rewrite_line(l, v);
    let upd = ls.update(i, rw);
    lemma_split_lines_no_newline(t);
    assert forall|j: int| 0 <= j < l.len() implies #[trigger] l[j] != '\n' by {}
    assert(!ends_with_cr(l));
    lemma_rewrite_line_ok(l, v);
    assert forall|m: int, j: int| 0 <= m < upd.len() && 0 <= j < upd[m].len() implies #[trigger] upd[m][j]
        != '\n' by {
        if m == i {
            assert(rw[j] != '\n');
        } else {
            assert(upd[m] == ls[m]);
        }
    }
    assert forall|m: int| 0 <= m < upd.len() implies !ends_with_cr(#[trigger] upd[m]) by {
        if m != i {
            assert(upd[m] == ls[m]);
        }
    }
    lemma_split_join(upd);
    assert forall|m: int| 0 <= m < ls.len() implies #[trigger] same_role(ls[m], upd[m]) by {
        if m != i {
            assert(upd[m] == ls[m]);
        }
    }
    i
}

/// The line of `t` for `key` in `section` holds the value `v`: carrying
/// `v` over into `t` again changes nothing.
pub open spec fn holds_value(t: Seq<char>, section: Seq<char>, key: Seq<char>, v: Seq<char>) -> bool {
    replaced_value(t, section, key, v) == Some(t)
}

/// Playing the same part is transitive.
proof fn lemma_same_roles_trans(a: Seq<Seq<char>>, b: Seq<Seq<char>>, c: Seq<Seq<char>>)
    requires
        same_roles(a, b),
        same_roles(b, c),
    ensures
        same_roles(a, c),
{
    assert forall|i: int| 0 <= i < a.len() implies #[trigger] same_role(a[i], c[i]) by {
        assert(same_role(a[i], b[i]));
        assert(same_role(b[i], c[i]));
    }
}

/// Carrying one value over keeps the lines free of stray `\r` and keeps
/// the part that every line plays.
proof fn lemma_apply_step(t: Seq<char>, s: Seq<char>, k: Seq<char>, v: Seq<char>)
    requires
        no_stray_cr(t),
        inline_safe(v),
        plain_name(k),
    ensures
        no_stray_cr(apply_value(t, s, (k, v))),
        same_roles(split_lines(t), split_lines(apply_value(t, s, (k, v)))),
{
    if replaced_value(t, s, k, v) is Some {
        lemma_replaced_lines(t, s, k, v);
    } else {
        lemma_same_roles_refl(split_lines(t));
    }
}

/// A text has a line for a key of a section exactly when a text whose
/// lines play the same parts has one.
proof fn lemma_line_transfer(t: Seq<char>, t2: Seq<char>, s: Seq<char>, k: Seq<char>, v: Seq<char>)
    requires
        same_roles(split_lines(t), split_lines(t2)),
        replaced_value(t, s, k, v) is Some,
    ensures
        replaced_value(t2, s, k, v) is Some,
{
    let i = lemma_point_of(t, s, k, v);
    lemma_point_transfer(split_lines(t), split_lines(t2), s, k, i);
    lemma_point_result(t2, s, k, v, i);
}

/// Carrying a value over for another key, or for another section, keeps
/// the value that a line holds.
proof fn lemma_other_keeps_value(
    t: Seq<char>,
    s2: Seq<char>,
    k2: Seq<char>,
    v2: Seq<char>,
    s: Seq<char>,
    k: Seq<char>,
    v: Seq<char>,
)
    requires
        no_stray_cr(t),
        plain_name(s2),
        plain_name(k2),
        inline_safe(v2),
        plain_name(s),
        plain_name(k),
        inline_safe(v),
        s2 != s || k2 != k,
        holds_value(t, s, k, v),
    ensures
        holds_value(apply_value(t, s2, (k2, v2)), s, k, v),
{
    if replaced_value(t, s2, k2, v2) is Some {
        let ls = split_lines(t);
        let i2 = lemma_replaced_lines(t, s2, k2, v2);
        let upd2 = ls.update(i2, rewrite_line(ls[i2], v2));
        let o = join_lines(upd2);
        let i1 = lemma_replaced_lines(t, s, k, v);
        let upd1 = ls.update(i1, rewrite_line(ls[i1], v));
        assert(join_lines(upd1) == t);
        assert(upd1 == ls);
        assert(rewrite_line(ls[i1], v) == upd1[i1]);
        if i1 == i2 {
            lemma_point_distinct(ls, s, k, s2, k2, i1);
        }
        lemma_point_transfer(ls, upd2, s, k, i1);
        assert(split_lines(o) == upd2);
        lemma_point_result(o, s, k, v, i1);
        assert(upd2[i1] == ls[i1]);
        assert(upd2.update(i1, rewrite_line(upd2[i1], v)) =~= upd2);
    }
}

/// Carrying a value over for a key that the text has a line for leaves the
/// text holding that value.
proof fn lemma_own_value_held(t: Seq<char>, s: Seq<char>, k: Seq<char>, v: Seq<char>)
    requires
        no_stray_cr(t),
        plain_name(k),
        inline_safe(v),
        replaced_value(t, s, k, v) is Some,
    ensures
        holds_value(apply_value(t, s, (k, v)), s, k, v),
{
    law_replace_idempotent(t, s, k, v);
}

/// A value carried over: its section, its key and its value as inline text.
pub type Carried = (Seq<char>, Seq<char>, Seq<char>);

/// `t` with the values `ps` carried over, one after the other.
pub open spec fn apply_all(t: Seq<char>, ps: Seq<Carried>) -> Seq<char>
    decreases ps.len(),
{
    if ps.len() == 0 {
        t
    } else {
        apply_all(apply_value(t, ps[0].0, (ps[0].1, ps[0].2)), ps.drop_first())
    }
}

/// The values of the table `section`, as carried values.
pub open spec fn section_values(section: Seq<char>, kvs: Seq<ValueView>) -> Seq<Carried> {
    kvs.map_values(|kv: ValueView| (section, kv.0, kv.1))
}

/// The values of the tables of `es`, in the order the merge carries them.
pub open spec fn carried_values(es: Seq<EntryView>) -> Seq<Carried>
    decreases es.len(),
{
    if es.len() == 0 {
        Seq::<Carried>::empty()
    } else {
        (match es[0].1 {
            Some(kvs) => section_values(es[0].0, kvs),
            None => Seq::<Carried>::empty(),
        }) + carried_values(es.drop_first())
    }
}

/// No two carried values share their section and key.
pub open spec fn pairs_distinct(ps: Seq<Carried>) -> bool {
    forall|a: int, b: int|
        0 <= a < b < ps.len() ==> (#[trigger] ps[a]).0 != (#[trigger] ps[b]).0 || ps[a].1 != ps[b].1
}

/// Every carried value has a plain section name and key and reads back
/// from the line it is written into.
pub open spec fn carried_ok(ps: Seq<Carried>) -> bool {
    forall|j: int|
        0 <= j < ps.len() ==> plain_name((#[trigger] ps[j]).0) && plain_name(ps[j].1)
            && inline_safe(ps[j].2)
}

/// Carrying two runs of values over is carrying the first, then the second.
proof fn lemma_apply_all_concat(t: Seq<char>, a: Seq<Carried>, b: Seq<Carried>)
    ensures
        apply_all(t, a + b) == apply_all(apply_all(t, a), b),
    decreases a.len(),
{
    if a.len() == 0 {
        assert(a + b =~= b);
    } else {
        assert((a + b)[0] == a[0]);
        assert((a + b).drop_first() =~= a.drop_first() + b);
        lemma_apply_all_concat(apply_value(t, a[0].0, (a[0].1, a[0].2)), a.drop_first(), b);
    }
}

/// Carrying a table's values over is carrying them as carried values.
proof fn lemma_apply_values_all(t: Seq<char>, section: Seq<char>, kvs: Seq<ValueView>)
    ensures
        apply_values(t, section, kvs) == apply_all(t, section_values(section, kvs)),
    decreases kvs.len(),
{
    if kvs.len() > 0 {
        let next = apply_value(t, section, kvs[0]);
        assert(section_values(section, kvs)[0] == (section, kvs[0].0, kvs[0].1));
        assert(section_values(section, kvs).drop_first() =~= section_values(
            section,
            kvs.drop_first(),
        ));
        assert(kvs[0] == (kvs[0].0, kvs[0].1));
        lemma_apply_values_all(next, section, kvs.drop_first());
    }
}

/// The merge carries the values of the tables over, in order.
proof fn lemma_merged_all(t: Seq<char>, es: Seq<EntryView>)
    ensures
        merged_text(t, es) == apply_all(t, carried_values(es)),
    decreases es.len(),
{
    if es.len() > 0 {
        let first = match es[0].1 {
            Some(kvs) => section_values(es[0].0, kvs),
            None => Seq::<Carried>::empty(),
        };
        let next = match es[0].1 {
            Some(kvs) => apply_values(t, es[0].0, kvs),
            None => t,
        };
        match es[0].1 {
            Some(kvs) => lemma_apply_values_all(t, es[0].0, kvs),
            None => {},
        }
        assert(apply_all(t, first) == next);
        lemma_merged_all(next, es.drop_first());
        lemma_apply_all_concat(t, first, carried_values(es.drop_first()));
    }
}

/// Carrying the values `ps` over keeps a value that the text holds, when
/// none of them is for the same section and key; and leaves the text
/// holding a value among them that the text has a line for.
proof fn lemma_apply_all_holds(t: Seq<char>, ps: Seq<Carried>, c: Carried)
    requires
        no_stray_cr(t),
        carried_ok(ps),
        pairs_distinct(ps),
        plain_name(c.0),
        plain_name(c.1),
        inline_safe(c.2),
        (holds_value(t, c.0, c.1, c.2) && forall|j: int|
            0 <= j < ps.len() ==> (#[trigger] ps[j]).0 != c.0 || ps[j].1 != c.1) || (ps.contains(c)
            && replaced_value(t, c.0, c.1, c.2) is Some),
    ensures
        holds_value(apply_all(t, ps), c.0, c.1, c.2),
    decreases ps.len(),
{
    if ps.len() > 0 {
        let p = ps[0];
        let rest = ps.drop_first();
        let t2 = apply_value(t, p.0, (p.1, p.2));
        assert(plain_name(p.0) && plain_name(p.1) && inline_safe(p.2));
        lemma_apply_step(t, p.0, p.1, p.2);
        assert(carried_ok(rest)) by {
            assert forall|j: int| 0 <= j < rest.len() implies plain_name((#[trigger] rest[j]).0)
                && plain_name(rest[j].1) && inline_safe(rest[j].2) by {
                assert(rest[j] == ps[j + 1]);
            }
        }
        assert(pairs_distinct(rest)) by {
            assert forall|a: int, b: int| 0 <= a < b < rest.len() implies (#[trigger] rest[a]).0
                != (#[trigger] rest[b]).0 || rest[a].1 != rest[b].1 by {
                assert(rest[a] == ps[a + 1]);
                assert(rest[b] == ps[b + 1]);
            }
        }
        if holds_value(t, c.0, c.1, c.2) && forall|j: int|
            0 <= j < ps.len() ==> (#[trigger] ps[j]).0 != c.0 || ps[j].1 != c.1 {
            lemma_other_keeps_value(t, p.0, p.1, p.2, c.0, c.1, c.2);
            assert forall|j: int| 0 <= j < rest.len() implies (#[trigger] rest[j]).0 != c.0
                || rest[j].1 != c.1 by {
                assert(rest[j] == ps[j + 1]);
            }
            lemma_apply_all_holds(t2, rest, c);
        } else {
            let j = choose|j: int| 0 <= j < ps.len() && ps[j] == c;
            if p.0 == c.0 && p.1 == c.1 {
                assert(j == 0);
                lemma_own_value_held(t, c.0, c.1, c.2);
                assert forall|m: int| 0 <= m < rest.len() implies (#[trigger] rest[m]).0 != c.0
                    || rest[m].1 != c.1 by {
                    assert(rest[m] == ps[m + 1]);
                }
                lemma_apply_all_holds(t2, rest, c);
            } else {
                assert(j > 0);
                assert(rest[j - 1] == c);
                lemma_line_transfer(t, t2, c.0, c.1, c.2);
                lemma_apply_all_holds(t2, rest, c);
            }
        }
    }
}

/// Carrying values over keeps the lines free of stray `\r`.
proof fn lemma_apply_all_no_cr(t: Seq<char>, ps: Seq<Carried>)
    requires
        no_stray_cr(t),
        carried_ok(ps),
    ensures
        no_stray_cr(apply_all(t, ps)),
    decreases ps.len(),
{
    if ps.len() > 0 {
        let p = ps[0];
        assert(plain_name(p.0) && plain_name(p.1) && inline_safe(p.2));
        lemma_apply_step(t, p.0, p.1, p.2);
        let rest = ps.drop_first();
        assert(carried_ok(rest)) by {
            assert forall|j: int| 0 <= j < rest.len() implies plain_name((#[trigger] rest[j]).0)
                && plain_name(rest[j].1) && inline_safe(rest[j].2) by {
                assert(rest[j] == ps[j + 1]);
            }
        }
        lemma_apply_all_no_cr(apply_value(t, p.0, (p.1, p.2)), rest);
    }
}

/// Line `i` of `ls` is a line for `key` in `section`: a `key = value` line
/// below the section's header, with no table header between them.
pub open spec fn section_line(ls: Seq<Seq<char>>, section: Seq<char>, key: Seq<char>, i: int) -> bool {
    &&& 0 <= i < ls.len()
    &&& !is_table_header(trim(ls[i]))
    &&& line_key(trim(ls[i])) == Some(key)
    &&& exists|j: int|
        0 <= j < i && trim(#[trigger] ls[j]) == section_header(section) && forall|m: int|
            j < m < i ==> !is_table_header(trim(#[trigger] ls[m]))
}

/// The merge keeps what the user set: once the values of the existing
/// config are carried into the template, each of them that the template
/// has a line for (a line for its key in its section) is the value written
/// on that line of the merged text, and carrying it over again changes
/// nothing. This holds for section names and keys that do not start with
/// `[`, values that read back unchanged from their line (`inline_safe`), no
/// two values for the same key of the same section, and a template with no
/// line that ends in a stray carriage return.
pub proof fn law_merge_keeps_existing_values(
    template: Seq<char>,
    entries: Seq<EntryView>,
    section: Seq<char>,
    key: Seq<char>,
    value: Seq<char>,
)
    requires
        no_stray_cr(template),
        carried_ok(carried_values(entries)),
        pairs_distinct(carried_values(entries)),
        carried_values(entries).contains((section, key, value)),
        replaced_value(template, section, key, value) is Some,
    ensures
        holds_value(merged_text(template, entries), section, key, value),
        exists|i: int|
            section_line(split_lines(merged_text(template, entries)), section, key, i)
                && line_value(#[trigger] split_lines(merged_text(template, entries))[i]) == value,
{
    let ps = carried_values(entries);
    let c: Carried = (section, key, value);
    let j = choose|j: int| 0 <= j < ps.len() && ps[j] == c;
    assert(plain_name(ps[j].0) && plain_name(ps[j].1) && inline_safe(ps[j].2));
    lemma_merged_all(template, entries);
    lemma_apply_all_holds(template, ps, c);
    lemma_apply_all_no_cr(template, ps);
    let m = merged_text(template, entries);
    let ls = split_lines(m);
    let i = lemma_replaced_lines(m, section, key, value);
    let upd = ls.update(i, rewrite_line(ls[i], value));
    assert(join_lines(upd) == m);
    assert(upd == ls);
    assert(rewrite_line(ls[i], value) == upd[i]);
    lemma_rewrite_keeps_key(ls[i], value, key);
    law_rewritten_value_reads_back(ls[i], value);
    let e = Seq::<char>::empty();
    lemma_in_section_witness(ls.take(i), section_header(section), key, e);
    let w = choose|w: int|
        0 <= w < ls.take(i).len() && trim(#[trigger] ls.take(i)[w]) == section_header(section)
            && forall|m2: int|
            w < m2 < ls.take(i).len() ==> !is_table_header(trim(#[trigger] ls.take(i)[m2]));
    assert(ls[w] == ls.take(i)[w]);
    assert forall|m2: int| w < m2 < i implies !is_table_header(trim(#[trigger] ls[m2])) by {
        assert(ls[m2] == ls.take(i)[m2]);
    }
    assert(section_line(ls, section, key, i));
}

/// Playing the same part is symmetric.
proof fn lemma_same_roles_sym(a: Seq<Seq<char>>, b: Seq<Seq<char>>)
    requires
        same_roles(a, b),
    ensures
        same_roles(b, a),
{
    assert forall|i: int| 0 <= i < b.len() implies #[trigger] same_role(b[i], a[i]) by {
        assert(same_role(a[i], b[i]));
    }
}

/// Carrying values over keeps the part that every line plays.
proof fn lemma_apply_all_roles(t: Seq<char>, ps: Seq<Carried>)
    requires
        no_stray_cr(t),
        carried_ok(ps),
    ensures
        same_roles(split_lines(t), split_lines(apply_all(t, ps))),
    decreases ps.len(),
{
    if ps.len() == 0 {
        lemma_same_roles_refl(split_lines(t));
    } else {
        let p = ps[0];
        assert(plain_name(p.0) && plain_name(p.1) && inline_safe(p.2));
        lemma_apply_step(t, p.0, p.1, p.2);
        let rest = ps.drop_first();
        assert(carried_ok(rest)) by {
            assert forall|j: int| 0 <= j < rest.len() implies plain_name((#[trigger] rest[j]).0)
                && plain_name(rest[j].1) && inline_safe(rest[j].2) by {
                assert(rest[j] == ps[j + 1]);
            }
        }
        let t2 = apply_value(t, p.0, (p.1, p.2));
        lemma_apply_all_roles(t2, rest);
        lemma_same_roles_trans(split_lines(t), split_lines(t2), split_lines(apply_all(t2, rest)));
    }
}

/// Carrying over values that each leave `t` as it is leaves `t` as it is.
proof fn lemma_apply_all_fixed(t: Seq<char>, ps: Seq<Carried>)
    requires
        forall|j: int| 0 <= j < ps.len() ==> apply_value(t, (#[trigger] ps[j]).0, (ps[j].1, ps[j].2)) == t,
    ensures
        apply_all(t, ps) == t,
    decreases ps.len(),
{
    if ps.len() > 0 {
        assert(apply_value(t, ps[0].0, (ps[0].1, ps[0].2)) == t);
        let rest = ps.drop_first();
        assert forall|j: int| 0 <= j < rest.len() implies apply_value(
            t,
            (#[trigger] rest[j]).0,
            (rest[j].1, rest[j].2),
        ) == t by {
            assert(rest[j] == ps[j + 1]);
        }
        lemma_apply_all_fixed(t, rest);
    }
}

/// Merging the same existing values into a merged text again changes
/// nothing more. This holds under the conditions of
/// `law_merge_keeps_existing_values`.
pub proof fn law_merge_idempotent(template: Seq<char>, entries: Seq<EntryView>)
    requires
        no_stray_cr(template),
        carried_ok(carried_values(entries)),
        pairs_distinct(carried_values(entries)),
    ensures
        merged_text(merged_text(template, entries), entries) == merged_text(template, entries),
{
    let ps = carried_values(entries);
    let m = merged_text(template, entries);
    lemma_merged_all(template, entries);
    lemma_merged_all(m, entries);
    lemma_apply_all_roles(template, ps);
    lemma_same_roles_sym(split_lines(template), split_lines(m));
    assert forall|j: int| 0 <= j < ps.len() implies apply_value(
        m,
        (#[trigger] ps[j]).0,
        (ps[j].1, ps[j].2),
    ) == m by {
        let c = ps[j];
        if replaced_value(template, c.0, c.1, c.2) is Some {
            assert(ps.contains((c.0, c.1, c.2)));
            law_merge_keeps_existing_values(template, entries, c.0, c.1, c.2);
        } else if replaced_value(m, c.0, c.1, c.2) is Some {
            lemma_line_transfer(m, template, c.0, c.1, c.2);
        }
    }
    lemma_apply_all_fixed(m, ps);
}

/// No key occurs twice among the values `kvs` of a table.
pub open spec fn keys_distinct(kvs: Seq<ValueView>) -> bool {
    forall|x: int, y: int| 0 <= x < y < kvs.len() ==> (#[trigger] kvs[x]).0 != (#[trigger] kvs[y]).0
}

/// The entry `e`, when it is a table, has no key twice.
pub open spec fn table_keys_distinct(e: EntryView) -> bool {
    match e.1 {
        Some(kvs) => keys_distinct(kvs),
        None => true,
    }
}

/// Every value carried over from `es` belongs to a section of `es`.
proof fn lemma_carried_sections(es: Seq<EntryView>)
    ensures
        forall|i: int|
            0 <= i < carried_values(es).len() ==> exists|j: int|
                0 <= j < es.len() && (#[trigger] carried_values(es)[i]).0 == es[j].0,
    decreases es.len(),
{
    if es.len() > 0 {
        let first = match es[0].1 {
            Some(kvs) => section_values(es[0].0, kvs),
            None => Seq::<Carried>::empty(),
        };
        let rest = es.drop_first();
        lemma_carried_sections(rest);
        let all = carried_values(es);
        assert(all == first + carried_values(rest));
        assert forall|i: int| 0 <= i < all.len() implies exists|j: int|
            0 <= j < es.len() && (#[trigger] all[i]).0 == es[j].0 by {
            if i < first.len() {
                assert(all[i] == first[i]);
                assert(all[i].0 == es[0].0);
            } else {
                let c = carried_values(rest)[i - first.len()];
                assert(all[i] == c);
                let j = choose|j: int| 0 <= j < rest.len() && c.0 == rest[j].0;
                assert(rest[j] == es[j + 1]);
            }
        }
    }
}

/// Tables named differently, each with keys that differ, carry over no two
/// values for the same key of the same section.
pub proof fn lemma_carried_distinct(es: Seq<EntryView>)
    requires
        forall|a: int, b: int| 0 <= a < b < es.len() ==> (#[trigger] es[a]).0 != (#[trigger] es[b]).0,
        forall|a: int| 0 <= a < es.len() ==> table_keys_distinct(#[trigger] es[a]),
    ensures
        pairs_distinct(carried_values(es)),
    decreases es.len(),
{
    if es.len() > 0 {
        let first = match es[0].1 {
            Some(kvs) => section_values(es[0].0, kvs),
            None => Seq::<Carried>::empty(),
        };
        let rest = es.drop_first();
        assert forall|a: int, b: int| 0 <= a < b < rest.len() implies (#[trigger] rest[a]).0
            != (#[trigger] rest[b]).0 by {
            assert(rest[a] == es[a + 1]);
            assert(rest[b] == es[b + 1]);
        }
        assert forall|a: int| 0 <= a < rest.len() implies table_keys_distinct(#[trigger] rest[a]) by {
            assert(rest[a] == es[a + 1]);
        }
        lemma_carried_distinct(rest);
        lemma_carried_sections(rest);
        let cr = carried_values(rest);
        let all = carried_values(es);
        assert(all == first + cr);
        assert forall|a: int, b: int| 0 <= a < b < all.len() implies (#[trigger] all[a]).0
            != (#[trigger] all[b]).0 || all[a].1 != all[b].1 by {
            if b < first.len() {
                let kvs = es[0].1->Some_0;
                assert(table_keys_distinct(es[0]));
                assert(all[a] == first[a] && all[b] == first[b]);
                assert(kvs[a].0 != kvs[b].0);
            } else if a < first.len() {
                assert(all[a] == first[a]);
                assert(all[a].0 == es[0].0);
                assert(all[b] == cr[b - first.len()]);
                let j = choose|j: int| 0 <= j < rest.len() && (#[trigger] cr[b - first.len()]).0 == rest[j].0;
                assert(rest[j] == es[j + 1]);
            } else {
                assert(all[a] == cr[a - first.len()]);
                assert(all[b] == cr[b - first.len()]);
            }
        }
    }
}

/// The entries that merging the existing config `existing` carries over.
pub open spec fn existing_entries(existing: Seq<char>) -> Seq<EntryView> {
    entries_of_docs(toml_entry_docs(existing, "_"@))
}

/// Merging an existing config keeps what the user set: each value of
/// `existing` that the template has a line for is, after `merge_toml`, the
/// value written on that line. The conditions are those of
/// `law_merge_keeps_existing_values`; that no (section, key) pair is carried
/// twice is what `merge_toml` ensures of every config it merges.
pub proof fn law_config_merge_keeps_values(
    template: Seq<char>,
    existing: Seq<char>,
    section: Seq<char>,
    key: Seq<char>,
    value: Seq<char>,
)
    requires
        no_stray_cr(template),
        carried_ok(carried_values(existing_entries(existing))),
        pairs_distinct(carried_values(existing_entries(existing))),
        carried_values(existing_entries(existing)).contains((section, key, value)),
        replaced_value(template, section, key, value) is Some,
    ensures
        holds_value(merged_config(template, existing), section, key, value),
        exists|i: int|
            section_line(split_lines(merged_config(template, existing)), section, key, i)
                && line_value(#[trigger] split_lines(merged_config(template, existing))[i]) == value,
{
    law_merge_keeps_existing_values(template, existing_entries(existing), section, key, value);
}

/// Merging the same existing config a second time changes nothing: when
/// `merge_toml(template, existing)` gives `m`, `merge_toml(m, existing)`
/// gives `m` again. The conditions are those of `law_merge_idempotent`.
pub proof fn law_config_merge_idempotent(template: Seq<char>, existing: Seq<char>)
    requires
        no_stray_cr(template),
        carried_ok(carried_values(existing_entries(existing))),
        pairs_distinct(carried_values(existing_entries(existing))),
    ensures
        merged_config(merged_config(template, existing), existing) == merged_config(
            template,
            existing,
        ),
{
    law_merge_idempotent(template, existing_entries(existing));
}

/// Inside the section, lines that are no table headers keep the scan
/// inside it until it has replaced the value.
proof fn lemma_scan_stays_in_section(
    st: ScanState,
    ls: Seq<Seq<char>>,
    h: Seq<char>,
    k: Seq<char>,
    v: Seq<char>,
)
    requires
        st.0 || st.1,
        forall|m: int| 0 <= m < ls.len() ==> !is_table_header(trim(#[trigger] ls[m])),
    ensures
        scan_lines(st, ls, h, k, v).0 || scan_lines(st, ls, h, k, v).1,
    decreases ls.len(),
{
    if ls.len() > 0 {
        assert(!is_table_header(trim(ls[0])));
        let next = scan_step(st, ls[0], h, k, v);
        assert(next.0 || next.1);
        assert forall|m: int| 0 <= m < ls.drop_first().len() implies !is_table_header(
            trim(#[trigger] ls.drop_first()[m]),
        ) by {
            assert(ls.drop_first()[m] == ls[m + 1]);
        }
        lemma_scan_stays_in_section(next, ls.drop_first(), h, k, v);
    }
}

/// Replacing a value finds every line for its key in its section: when
/// some line of the text is a `key = ...` line below the section's header,
/// with no table header between them, the replacement happens.
pub proof fn law_replace_finds_section_line(
    text: Seq<char>,
    section: Seq<char>,
    key: Seq<char>,
    val: Seq<char>,
    i: int,
)
    requires
        section_line(split_lines(text), section, key, i),
    ensures
        replaced_value(text, section, key, val) is Some,
{
    let ls = split_lines(text);
    let h = section_header(section);
    let init = scan_start();
    let j = choose|j: int|
        0 <= j < i && trim(#[trigger] ls[j]) == h && forall|m: int|
            j < m < i ==> !is_table_header(trim(#[trigger] ls[m]));
    let mid = ls.subrange(j + 1, i);
    assert(ls =~= ls.take(j + 1) + (mid + ls.skip(i)));
    lemma_scan_concat(init, ls.take(j + 1), mid + ls.skip(i), h, key, val);
    lemma_scan_concat(scan_lines(init, ls.take(j + 1), h, key, val), mid, ls.skip(i), h, key, val);
    // After the header line the scan is inside the section (or done).
    assert(ls.take(j + 1) =~= ls.take(j).push(ls[j]));
    assert(ls.take(j).push(ls[j]) =~= ls.take(j) + seq![ls[j]]);
    lemma_scan_concat(init, ls.take(j), seq![ls[j]], h, key, val);
    let s0 = scan_lines(init, ls.take(j), h, key, val);
    assert(seq![ls[j]][0] == ls[j]);
    assert(seq![ls[j]].drop_first() =~= Seq::<Seq<char>>::empty());
    let s1 = scan_step(s0, ls[j], h, key, val);
    assert(scan_lines(s1, Seq::<Seq<char>>::empty(), h, key, val) == s1);
    assert(scan_lines(s0, seq![ls[j]], h, key, val) == s1);
    assert(s1.0 || s1.1);
    // Through the lines between, it stays inside.
    assert forall|m: int| 0 <= m < mid.len() implies !is_table_header(trim(#[trigger] mid[m])) by {
        assert(mid[m] == ls[j + 1 + m]);
    }
    lemma_scan_stays_in_section(s1, mid, h, key, val);
    let s2 = scan_lines(s1, mid, h, key, val);
    // At the key's line it replaces, if it has not already.
    let rest = ls.skip(i);
    assert(rest[0] == ls[i]);
    let s3 = scan_step(s2, ls[i], h, key, val);
    assert(s3.1);
    assert(scan_lines(s2, rest, h, key, val) == scan_lines(s3, rest.drop_first(), h, key, val));
    lemma_scan_after_replace(s3, rest.drop_first(), h, key, val);
}

/// The merge keeps every existing value that the template has a line for,
/// in its section: the hypothesis of `law_merge_keeps_existing_values`
/// that the template has such a line, given as that line.
pub proof fn law_merge_keeps_values_of_section_lines(
    template: Seq<char>,
    entries: Seq<EntryView>,
    section: Seq<char>,
    key: Seq<char>,
    value: Seq<char>,
    i: int,
)
    requires
        no_stray_cr(template),
        carried_ok(carried_values(entries)),
        pairs_distinct(carried_values(entries)),
        carried_values(entries).contains((section, key, value)),
        section_line(split_lines(template), section, key, i),
    ensures
        holds_value(merged_text(template, entries), section, key, value),
        exists|n: int|
            section_line(split_lines(merged_text(template, entries)), section, key, n)
                && line_value(#[trigger] split_lines(merged_text(template, entries))[n]) == value,
{
    law_replace_finds_section_line(template, section, key, value, i);
    law_merge_keeps_existing_values(template, entries, section, key, value);
}

} // verus!
