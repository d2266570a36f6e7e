//! What holds of the library as a whole: parsing, writing and paths.
use vstd::prelude::*;
use crate::roundtrip::is_marker;
use crate::parse::{Frame, attach, replace_top, close_all, step, run, parse_text, initial_stack,
    pop_into_parent, lemma_run_append, lemma_run_one};
use crate::acon::{child, with_child, value_at, with_value_at, AconError};
use crate::text::{words, join, lines_of, line_end, lemma_line_end, lemma_line_end_append, is_word, lemma_words_of_word, lemma_words_all_space,
    lemma_words_append, split_dots, lemma_split_dots_len, strip_cr, lemma_lines_single,
    lemma_lines_append};
use crate::tree::{Value, keys_sorted, lookup, insert_new, insert_pos, lemma_insert_new_sorted,
    lemma_insert_pos, find_key, lemma_find_key, table_insert, key_lt, lemma_key_lt_irreflexive};

verus! {

/// The errors that the format's own rules can give; the others would report a
/// broken parser.
pub open spec fn internal_error(e: AconError) -> bool {
    e is InternalStringTop || e is MissingStackTop
}

/// A parse stack as the parser keeps it: never empty, the outermost frame a
/// table, no frame a string,
/// every table in it with its keys in increasing order.
pub open spec fn good_frames(st: Seq<Frame>) -> bool {
    &&& st.len() >= 1
    &&& st[0].1 is Table
    &&& forall|i: int| 0 <= i < st.len() ==> !((#[trigger] st[i]).1 is Str) && st[i].1.wf()
}

proof fn lemma_insert_new_values(e: Seq<(Seq<char>, Value)>, k: Seq<char>, v: Value)
    requires
        forall|i: int| 0 <= i < e.len() ==> (#[trigger] e[i]).1.wf(),
        v.wf(),
    ensures
        forall|i: int|
            0 <= i < insert_new(e, k, v).len() ==> (#[trigger] insert_new(e, k, v)[i]).1.wf(),
{
    lemma_insert_pos(e, k);
    let p = insert_pos(e, k) as int;
    let r = insert_new(e, k, v);
    assert forall|i: int| 0 <= i < r.len() implies (#[trigger] r[i]).1.wf() by {
        if i < p {
            assert(r[i] == e[i]);
        } else if i > p {
            assert(r[i] == e[i - 1]);
        }
    }
}

proof fn lemma_attach_good(parent: Value, top: Frame, line: usize)
    requires
        !(parent is Str),
        parent.wf(),
        !(top.1 is Str),
        top.1.wf(),
    ensures
        match attach(parent, top, line) {
            Ok(v) => !(v is Str) && v.wf() && (v is Table <==> parent is Table),
            Err(e) => e is OverwritingKey,
        },
{
    match parent {
        Value::Array(items) => {
            let item = if top.0.len() == 0 {
                top.1
            } else {
                Value::Table(seq![(top.0, top.1)])
            };
            if top.0.len() != 0 {
                let e = seq![(top.0, top.1)];
                assert(e[0] == (top.0, top.1));
                assert(keys_sorted(e));
                assert(item.wf());
            }
            let r = items.push(item);
            assert forall|i: int| 0 <= i < r.len() implies (#[trigger] r[i]).wf() by {
                if i < items.len() {
                    assert(r[i] == items[i]);
                }
            }
        },
        Value::Str(_) => {},
        Value::Table(e) => {
            if lookup(e, top.0) is None {
                lemma_insert_new_sorted(e, top.0, top.1);
                lemma_insert_new_values(e, top.0, top.1);
            }
        },
    }
}

proof fn lemma_replace_top_good(st: Seq<Frame>, v: Value)
    requires
        good_frames(st),
        !(v is Str),
        v.wf(),
        v is Table <==> st.last().1 is Table,
    ensures
        good_frames(replace_top(st, v)),
{
    let r = replace_top(st, v);
    assert forall|i: int| 0 <= i < r.len() implies !((#[trigger] r[i]).1 is Str) && r[i].1.wf() by {
        if i < st.len() - 1 {
            assert(r[i] == st[i]);
        }
    }
}

proof fn lemma_pop_into_parent_good(st: Seq<Frame>, line: usize)
    requires
        good_frames(st),
        st.len() >= 2,
    ensures
        match pop_into_parent(st, line) {
            Ok(s) => good_frames(s),
            Err(e) => !internal_error(e),
        },
{
    let rest = st.drop_last();
    assert(rest.last() == st[st.len() - 2]);
    assert(st.last() == st[st.len() - 1]);
    lemma_attach_good(rest.last().1, st.last(), line);
    match attach(rest.last().1, st.last(), line) {
        Ok(v) => {
            assert(good_frames(rest)) by {
                assert forall|i: int| 0 <= i < rest.len() implies !((#[trigger] rest[i]).1 is Str)
                    && rest[i].1.wf() by {
                    assert(rest[i] == st[i]);
                }
            }
            lemma_replace_top_good(rest, v);
        },
        Err(_) => {},
    }
}

proof fn lemma_close_all_good(st: Seq<Frame>, line: usize)
    requires
        good_frames(st),
    ensures
        match close_all(st, line) {
            Ok(s) => good_frames(s) && s.len() == 1,
            Err(e) => !internal_error(e),
        },
    decreases st.len(),
{
    if st.len() > 1 {
        lemma_pop_into_parent_good(st, line);
        let rest = st.drop_last();
        match attach(rest.last().1, st.last(), line) {
            Ok(v) => {
                lemma_close_all_good(replace_top(rest, v), line);
            },
            Err(_) => {},
        }
    }
}

proof fn lemma_step_good(st: Seq<Frame>, ws: Seq<Seq<char>>, line: usize)
    requires
        good_frames(st),
    ensures
        match step(st, ws, line) {
            Ok(s) => good_frames(s),
            Err(e) => !internal_error(e),
        },
{
    if ws.len() > 0 && (ws[0] == seq!['{'] || ws[0] == seq!['[']) {
        let v = if ws[0] == seq!['{'] {
            Value::Table(Seq::empty())
        } else {
            Value::Array(Seq::empty())
        };
        let s = step(st, ws, line)->Ok_0;
        assert forall|i: int| 0 <= i < s.len() implies !((#[trigger] s[i]).1 is Str) && s[i].1.wf() by {
            if i < st.len() {
                assert(s[i] == st[i]);
            }
        }
    } else if ws.len() > 0 && (ws[0] == seq!['}'] || ws[0] == seq![']']) {
        assert(st.last() == st[st.len() - 1]);
        if st.len() >= 2 {
            lemma_pop_into_parent_good(st, line);
        }
    } else if ws.len() > 0 && ws[0] == seq!['$'] {
        lemma_close_all_good(st, line);
    } else if ws.len() > 0 && ws[0] == seq!['#'] {
    } else {
        assert(st.last() == st[st.len() - 1]);
        match st.last().1 {
            Value::Array(items) => {
                let r = items.push(Value::Str(crate::text::join(ws)));
                assert forall|i: int| 0 <= i < r.len() implies (#[trigger] r[i]).wf() by {
                    if i < items.len() {
                        assert(r[i] == items[i]);
                    }
                }
                lemma_replace_top_good(st, Value::Array(r));
            },
            Value::Str(_) => {},
            Value::Table(e) => {
                if ws.len() > 0 && lookup(e, ws[0]) is None {
                    let v = Value::Str(crate::text::join(ws.drop_first()));
                    lemma_insert_new_sorted(e, ws[0], v);
                    lemma_insert_new_values(e, ws[0], v);
                    lemma_replace_top_good(st, Value::Table(insert_new(e, ws[0], v)));
                }
            },
        }
    }
}

proof fn lemma_run_good(lines: Seq<Seq<char>>, st: Seq<Frame>, first: nat)
    requires
        good_frames(st),
    ensures
        match run(lines, st, first) {
            Ok(s) => good_frames(s),
            Err(e) => !internal_error(e),
        },
    decreases lines.len(),
{
    if lines.len() > 0 {
        lemma_step_good(st, words(lines[0]), first as usize);
        match step(st, words(lines[0]), first as usize) {
            Ok(s) => lemma_run_good(lines.drop_first(), s, first + 1),
            Err(_) => {},
        }
    }
}

/// Parsing never reports an internal error (a string on top of the parse
/// stack, or a missing stack top), and what it gives is a table whose
/// tables, at every depth, hold each key once, in increasing order.
pub proof fn law_parse_well_formed(s: Seq<char>)
    ensures
        match parse_text(s) {
            Ok(v) => v is Table && v.wf(),
            Err(e) => !internal_error(e),
        },
{
    let st0 = initial_stack();
    assert(st0[0].1 == Value::Table(Seq::empty()));
    assert(Value::Table(Seq::<(Seq<char>, Value)>::empty()).wf());
    lemma_run_good(lines_of(s), st0, 1);
    match run(lines_of(s), st0, 1) {
        Ok(st) => {
            assert(st.last() == st[st.len() - 1]);
        },
        Err(_) => {},
    }
}

// ---------------------------------------------------------------------------
// Paths

proof fn lemma_split_dots_no_dot(k: Seq<char>)
    requires
        forall|i: int| 0 <= i < k.len() ==> #[trigger] k[i] != '.',
    ensures
        split_dots(k) == seq![k],
    decreases k.len(),
{
    if k.len() > 0 {
        let k1 = k.drop_last();
        assert(k[k.len() - 1] != '.');
        assert forall|i: int| 0 <= i < k1.len() implies #[trigger] k1[i] != '.' by {
            assert(k1[i] == k[i]);
        }
        lemma_split_dots_no_dot(k1);
        assert(k1.push(k.last()) =~= k);
        assert(split_dots(k) =~= seq![k]);
    } else {
        assert(k =~= Seq::<char>::empty());
    }
}

proof fn lemma_split_dots_concat(p: Seq<char>, q: Seq<char>)
    ensures
        split_dots(p + seq!['.'] + q) == split_dots(p) + split_dots(q),
    decreases q.len(),
{
    let pd = p + seq!['.'];
    if q.len() == 0 {
        assert(pd + q =~= pd);
        assert(pd.drop_last() =~= p);
        assert(split_dots(pd) =~= split_dots(p) + split_dots(q));
    } else {
        let q1 = q.drop_last();
        let c = q.last();
        assert((pd + q).drop_last() =~= pd + q1);
        assert((pd + q).last() == c);
        lemma_split_dots_concat(p, q1);
        lemma_split_dots_len(q1);
        if c == '.' {
            assert(split_dots(pd + q) =~= split_dots(p) + split_dots(q));
        } else {
            let a = split_dots(p);
            let b = split_dots(q1);
            assert(split_dots(pd + q) =~= a + b.update(b.len() - 1, b.last().push(c)));
        }
    }
}

proof fn lemma_value_at_concat(v: Value, s1: Seq<Seq<char>>, s2: Seq<Seq<char>>)
    ensures
        value_at(v, s1 + s2) == match value_at(v, s1) {
            Some(x) => value_at(x, s2),
            None => None,
        },
    decreases s1.len(),
{
    if s1.len() == 0 {
        assert(s1 + s2 =~= s2);
    } else {
        assert((s1 + s2)[0] == s1[0]);
        assert((s1 + s2).drop_first() =~= s1.drop_first() + s2);
        match child(v, s1[0]) {
            Some(c) => lemma_value_at_concat(c, s1.drop_first(), s2),
            None => {},
        }
    }
}

/// A path without dots is one segment: it reads what `get` reads.
pub proof fn law_path_one_segment(v: Value, k: Seq<char>)
    requires
        forall|i: int| 0 <= i < k.len() ==> #[trigger] k[i] != '.',
    ensures
        value_at(v, split_dots(k)) == child(v, k),
{
    lemma_split_dots_no_dot(k);
    let s = seq![k];
    assert(s[0] == k);
    assert(s.drop_first() =~= Seq::<Seq<char>>::empty());
    match child(v, k) {
        Some(c) => {
            assert(value_at(c, Seq::<Seq<char>>::empty()) == Some(c));
        },
        None => {},
    }
}

/// Following the path `p.q` is following `p`, then `q` from where it leads.
pub proof fn law_path_concat(v: Value, p: Seq<char>, q: Seq<char>)
    ensures
        value_at(v, split_dots(p + seq!['.'] + q)) == match value_at(v, split_dots(p)) {
            Some(x) => value_at(x, split_dots(q)),
            None => None,
        },
{
    lemma_split_dots_concat(p, q);
    lemma_value_at_concat(v, split_dots(p), split_dots(q));
}

proof fn lemma_find_key_same_keys(e1: Seq<(Seq<char>, Value)>, e2: Seq<(Seq<char>, Value)>, k: Seq<
    char,
>)
    requires
        e1.len() == e2.len(),
        forall|i: int| 0 <= i < e1.len() ==> (#[trigger] e1[i]).0 == e2[i].0,
    ensures
        find_key(e1, k) == find_key(e2, k),
    decreases e1.len(),
{
    if e1.len() > 0 {
        assert(e1[0].0 == e2[0].0);
        let d1 = e1.drop_first();
        let d2 = e2.drop_first();
        assert forall|i: int| 0 <= i < d1.len() implies (#[trigger] d1[i]).0 == d2[i].0 by {
            assert(d1[i] == e1[i + 1]);
            assert(d2[i] == e2[i + 1]);
        }
        lemma_find_key_same_keys(d1, d2, k);
    }
}

/// Replacing the child that a segment names, then reading that segment, gives
/// the new child.
proof fn lemma_child_with_child(v: Value, seg: Seq<char>, c: Value)
    requires
        child(v, seg) is Some,
    ensures
        child(with_child(v, seg, c), seg) == Some(c),
{
    match v {
        Value::Array(items) => {},
        Value::Str(_) => {},
        Value::Table(e) => {
            lemma_find_key(e, seg);
            let f = find_key(e, seg) as int;
            let e2 = e.update(f, (seg, c));
            lemma_find_key_same_keys(e, e2, seg);
        },
    }
}

/// Writing a value through a path (as `path_mut` lets one do) and then reading
/// the path gives the value written.
pub proof fn law_path_write_read(v: Value, segs: Seq<Seq<char>>, x: Value)
    requires
        value_at(v, segs) is Some,
    ensures
        value_at(with_value_at(v, segs, x), segs) == Some(x),
    decreases segs.len(),
{
    if segs.len() > 0 {
        let c = child(v, segs[0])->0;
        law_path_write_read(c, segs.drop_first(), x);
        lemma_child_with_child(v, segs[0], with_value_at(c, segs.drop_first(), x));
    }
}

// ---------------------------------------------------------------------------
// Tables

/// After a key is set, reading it gives the value set, and every other key
/// reads as before (`Table::insert`, then `Table::get`).
pub proof fn law_table_set_get(
    e: Seq<(Seq<char>, Value)>,
    k: Seq<char>,
    v: Value,
    other: Seq<char>,
)
    ensures
        lookup(table_insert(e, k, v), k) == Some(v),
        other != k ==> lookup(table_insert(e, k, v), other) == lookup(e, other),
{
    lemma_find_key(e, k);
    let f = find_key(e, k) as int;
    let r = table_insert(e, k, v);
    if f < e.len() {
        lemma_find_key_same_keys(e, r, k);
        lemma_find_key_same_keys(e, r, other);
        lemma_find_key(e, other);
    } else {
        lemma_insert_pos(e, k);
        let p = insert_pos(e, k) as int;
        lemma_find_key(r, k);
        let g = find_key(r, k) as int;
        if g < p {
            assert(r[g] == e[g]);
        }
        assert(r[p] == (k, v));
        if g > p {
            assert(r[p].0 == k);
        }
        if other != k {
            lemma_find_key(e, other);
            lemma_find_key(r, other);
            let fo = find_key(e, other) as int;
            let go = find_key(r, other) as int;
            // the first key `other` in `r` is the first in `e`, one later past `p`
            if fo < e.len() {
                let expect = if fo < p {
                    fo
                } else {
                    fo + 1
                };
                assert(r[expect] == e[fo]);
                if go < expect {
                    if go < p {
                        assert(r[go] == e[go]);
                    } else if go > p {
                        assert(r[go] == e[go - 1]);
                    }
                }
                if go > expect {
                    assert(r[expect].0 == other);
                }
            } else {
                if go < r.len() {
                    if go < p {
                        assert(r[go] == e[go]);
                    } else if go > p {
                        assert(r[go] == e[go - 1]);
                    }
                }
            }
        }
    }
}

/// After a key is removed it reads as absent, every other key reads as before
/// and the keys stay in increasing order (`Table::remove`, then
/// `Table::get`).
pub proof fn law_table_remove_get(e: Seq<(Seq<char>, Value)>, k: Seq<char>, other: Seq<char>)
    requires
        keys_sorted(e),
        lookup(e, k) is Some,
    ensures
        lookup(e.remove(find_key(e, k) as int), k) is None,
        other != k ==> lookup(e.remove(find_key(e, k) as int), other) == lookup(e, other),
        keys_sorted(e.remove(find_key(e, k) as int)),
{
    lemma_find_key(e, k);
    let f = find_key(e, k) as int;
    let r = e.remove(f);
    assert forall|j: int| 0 <= j < r.len() implies (#[trigger] r[j]).0 != k by {
        if j < f {
            assert(r[j] == e[j]);
        } else {
            assert(r[j] == e[j + 1]);
            assert(key_lt(e[f].0, e[j + 1].0));
            lemma_key_lt_irreflexive(k);
        }
    }
    lemma_find_key(r, k);
    if find_key(r, k) < r.len() {
        assert(r[find_key(r, k) as int].0 == k);
    }
    assert forall|a: int, b: int| 0 <= a < b < r.len() implies key_lt(
        #[trigger] r[a].0,
        #[trigger] r[b].0,
    ) by {
        let a0 = if a < f { a } else { a + 1 };
        let b0 = if b < f { b } else { b + 1 };
        assert(r[a] == e[a0]);
        assert(r[b] == e[b0]);
    }
    if other != k {
        lemma_find_key(e, other);
        lemma_find_key(r, other);
        let fo = find_key(e, other) as int;
        let go = find_key(r, other) as int;
        if fo < e.len() {
            assert(fo != f);
            let expect = if fo < f { fo } else { fo - 1 };
            assert(r[expect] == e[fo]);
            if go < expect {
                if go < f {
                    assert(r[go] == e[go]);
                } else {
                    assert(r[go] == e[go + 1]);
                }
            }
            if go > expect {
                assert(r[expect].0 == other);
            }
        } else {
            if go < r.len() {
                if go < f {
                    assert(r[go] == e[go]);
                } else {
                    assert(r[go] == e[go + 1]);
                }
            }
        }
    }
}

// ---------------------------------------------------------------------------
// Closing with `$`

/// A line whose first word is `$` closes every open table and array: unless
/// a key clashes, only the outermost table is left open.
pub proof fn law_dollar_closes_all(st: Seq<Frame>, ws: Seq<Seq<char>>, line: usize)
    requires
        good_frames(st),
        ws.len() > 0,
        ws[0] == seq!['$'],
    ensures
        match step(st, ws, line) {
            Ok(s) => s.len() == 1,
            Err(e) => e is OverwritingKey,
        },
{
    assert(ws[0][0] == '$');
    assert(seq!['{'][0] == '{');
    assert(seq!['['][0] == '[');
    assert(seq!['}'][0] == '}');
    assert(seq![']'][0] == ']');
    assert(step(st, ws, line) == close_all(st, line));
    lemma_close_all_good(st, line);
    lemma_close_all_errors(st, line);
}

proof fn lemma_close_all_errors(st: Seq<Frame>, line: usize)
    requires
        good_frames(st),
    ensures
        close_all(st, line) matches Err(e) ==> e is OverwritingKey,
    decreases st.len(),
{
    if st.len() > 1 {
        lemma_pop_into_parent_good(st, line);
        let rest = st.drop_last();
        assert(rest.last() == st[st.len() - 2]);
        match attach(rest.last().1, st.last(), line) {
            Ok(v) => {
                lemma_close_all_errors(replace_top(rest, v), line);
            },
            Err(_) => {},
        }
    }
}

// ---------------------------------------------------------------------------
// Comments

proof fn lemma_close_all_numbering(st: Seq<Frame>, l1: usize, l2: usize)
    ensures
        close_all(st, l1) is Ok <==> close_all(st, l2) is Ok,
        close_all(st, l1) is Ok ==> close_all(st, l1) == close_all(st, l2),
    decreases st.len(),
{
    if st.len() > 1 {
        let rest = st.drop_last();
        match attach(rest.last().1, st.last(), l1) {
            Ok(v) => {
                lemma_close_all_numbering(replace_top(rest, v), l1, l2);
            },
            Err(_) => {},
        }
    }
}

proof fn lemma_step_numbering(st: Seq<Frame>, ws: Seq<Seq<char>>, l1: usize, l2: usize)
    ensures
        step(st, ws, l1) is Ok <==> step(st, ws, l2) is Ok,
        step(st, ws, l1) is Ok ==> step(st, ws, l1) == step(st, ws, l2),
{
    lemma_close_all_numbering(st, l1, l2);
}

proof fn lemma_run_numbering(lines: Seq<Seq<char>>, st: Seq<Frame>, n1: nat, n2: nat)
    ensures
        run(lines, st, n1) is Ok <==> run(lines, st, n2) is Ok,
        run(lines, st, n1) is Ok ==> run(lines, st, n1) == run(lines, st, n2),
    decreases lines.len(),
{
    if lines.len() > 0 {
        lemma_step_numbering(st, words(lines[0]), n1 as usize, n2 as usize);
        match step(st, words(lines[0]), n1 as usize) {
            Ok(s) => {
                lemma_run_numbering(lines.drop_first(), s, n1 + 1, n2 + 1);
            },
            Err(_) => {},
        }
    }
}

/// A line whose first word is `#` is ignored: with or without it the text
/// parses to the same tree, or fails either way (the line numbers that the
/// errors carry may differ).
pub proof fn law_comment_line_ignored(a: Seq<char>, c: Seq<char>, b: Seq<char>)
    requires
        a.len() == 0 || a.last() == '\n',
        forall|i: int| 0 <= i < c.len() ==> #[trigger] c[i] != '\n',
        words(c).len() > 0,
        words(c)[0] == seq!['#'],
    ensures
        parse_text(a + c.push('\n') + b) is Ok <==> parse_text(a + b) is Ok,
        parse_text(a + c.push('\n') + b) is Ok ==> parse_text(a + c.push('\n') + b) == parse_text(
            a + b,
        ),
{
    let cl = c.push('\n');
    lemma_lines_single(c);
    lemma_lines_append(a, cl);
    assert((a + cl).last() == '\n');
    lemma_lines_append(a + cl, b);
    lemma_lines_append(a, b);
    let la = lines_of(a);
    let lb = lines_of(b);
    let c1 = strip_cr(c);
    assert(words(c1) == words(c));
    let ws = words(c);
    assert(ws[0][0] == '#');
    assert(seq!['{'][0] == '{');
    assert(seq!['['][0] == '[');
    assert(seq!['}'][0] == '}');
    assert(seq![']'][0] == ']');
    assert(seq!['$'][0] == '$');
    assert(lines_of(a + cl + b) =~= la + (seq![c1] + lb));
    let init = initial_stack();
    lemma_run_append(la, seq![c1] + lb, init, 1);
    lemma_run_append(la, lb, init, 1);
    match run(la, init, 1) {
        Ok(st) => {
            let m = 1 + la.len();
            lemma_run_append(seq![c1], lb, st, m);
            lemma_run_one(c1, st, m);
            assert(step(st, ws, m as usize) == Ok::<Seq<Frame>, AconError>(st));
            lemma_run_numbering(lb, st, m + 1, m);
        },
        Err(_) => {},
    }
}

// ---------------------------------------------------------------------------
// `$` as the closing delimiters written out

/// The word that closes a frame: `]` for an array, `}` for a table.
pub open spec fn closer(v: Value) -> char {
    if v is Array {
        ']'
    } else {
        '}'
    }
}

/// The lines that close every open frame above the outermost, innermost
/// first, each its closing delimiter alone.
pub open spec fn closing_text(st: Seq<Frame>) -> Seq<char>
    decreases st.len(),
{
    if st.len() <= 1 {
        Seq::empty()
    } else {
        seq![closer(st.last().1), '\n'] + closing_text(st.drop_last())
    }
}

proof fn lemma_closing_text_kinds(r: Seq<Frame>, v: Value)
    requires
        r.len() >= 1,
        v is Array <==> r.last().1 is Array,
    ensures
        closing_text(replace_top(r, v)) == closing_text(r),
{
    let s = replace_top(r, v);
    if r.len() > 1 {
        assert(s.drop_last() =~= r.drop_last());
        assert(s.last().1 == v);
    }
}

proof fn lemma_closing_text_ends(st: Seq<Frame>)
    ensures
        closing_text(st).len() == 0 || closing_text(st).last() == '\n',
    decreases st.len(),
{
    if st.len() > 1 {
        lemma_closing_text_ends(st.drop_last());
    }
}

/// Running the written-out closing lines does what `$` does: the same stack,
/// or an overwritten key on both sides.
proof fn lemma_closers_like_close_all(st: Seq<Frame>, n: nat, m: usize)
    requires
        good_frames(st),
    ensures
        run(lines_of(closing_text(st)), st, n) is Ok <==> close_all(st, m) is Ok,
        close_all(st, m) is Ok ==> run(lines_of(closing_text(st)), st, n) == close_all(st, m),
        run(lines_of(closing_text(st)), st, n) matches Err(e) ==> e is OverwritingKey,
        close_all(st, m) matches Err(e) ==> e is OverwritingKey,
    decreases st.len(),
{
    lemma_close_all_errors(st, m);
    if st.len() <= 1 {
        assert(lines_of(closing_text(st)) =~= Seq::<Seq<char>>::empty());
    } else {
        let w = closer(st.last().1);
        let rest_text = closing_text(st.drop_last());
        let line = seq![w];
        assert(seq![w, '\n'] =~= line.push('\n'));
        lemma_lines_single(line);
        assert(strip_cr(line) == line);
        lemma_lines_append(seq![w, '\n'], rest_text);
        let lr = lines_of(rest_text);
        lemma_run_append(seq![line], lr, st, n);
        lemma_run_one(line, st, n);
        assert(words(line) == seq![line]) by {
            assert(is_word(line)) by {
                assert(line[0] == w);
            }
            lemma_words_of_word(line);
        }
        let ws = seq![line];
        assert(ws[0] == line);
        assert(line[0] == w);
        assert(seq!['{'][0] == '{');
        assert(seq!['['][0] == '[');
        assert(seq!['$'][0] == '$');
        assert(seq!['#'][0] == '#');
        assert(seq![']'] =~= line || seq!['}'] =~= line);
        assert(st.last() == st[st.len() - 1]);
        assert(step(st, ws, n as usize) == pop_into_parent(st, n as usize));
        lemma_pop_into_parent_good(st, n as usize);
        let rest = st.drop_last();
        assert(rest.last() == st[st.len() - 2]);
        lemma_attach_good(rest.last().1, st.last(), n as usize);
        lemma_attach_good(rest.last().1, st.last(), m);
        match attach(rest.last().1, st.last(), m) {
            Ok(v) => {
                let s1 = replace_top(rest, v);
                assert(good_frames(rest)) by {
                    assert forall|i: int| 0 <= i < rest.len() implies !((#[trigger] rest[i]).1 is Str)
                        && rest[i].1.wf() by {
                        assert(rest[i] == st[i]);
                    }
                }
                lemma_replace_top_good(rest, v);
                lemma_closing_text_kinds(rest, v);
                lemma_closers_like_close_all(s1, n + 1, m);
            },
            Err(_) => {},
        }
    }
}

/// The text without its last character when that is a line break.
pub open spec fn drop_final_break(s: Seq<char>) -> Seq<char> {
    if s.len() > 0 && s.last() == '\n' {
        s.drop_last()
    } else {
        s
    }
}

proof fn lemma_closing_text_shape(st: Seq<Frame>)
    ensures
        closing_text(st).len() == 0 || (closing_text(st).len() >= 2 && closing_text(st).last()
            == '\n' && closing_text(st)[closing_text(st).len() - 2] != '\n'),
    decreases st.len(),
{
    if st.len() > 1 {
        lemma_closing_text_shape(st.drop_last());
        let r = closing_text(st.drop_last());
        let c = closing_text(st);
        if r.len() > 0 {
            assert(c[c.len() - 2] == r[r.len() - 2]);
        }
    }
}

/// The `$` law holds as well without the line break after the `$` line, or
/// after the last closing delimiter.
proof fn lemma_dollar_final_breaks(a: Seq<char>, t: Seq<char>, ct: Seq<char>)
    requires
        forall|i: int| 0 <= i < t.len() ==> #[trigger] t[i] != '\n',
        ct.len() == 0 || (ct.len() >= 2 && ct.last() == '\n' && ct[ct.len() - 2] != '\n'),
    ensures
        parse_text(a + (seq!['$', ' '] + t)) == parse_text(a + (seq!['$', ' '] + t).push('\n')),
        parse_text(a + drop_final_break(ct)) == parse_text(a + ct),
{
    let c = seq!['$', ' '] + t;
    assert((a + c).last() == c.last());
    if t.len() > 0 {
        assert(c.last() == t.last());
    }
    assert((a + c).push('\n') =~= a + c.push('\n'));
    law_final_line_break(a + c);
    if ct.len() > 0 {
        let x = ct.drop_last();
        assert((a + x).last() == ct[ct.len() - 2]);
        assert((a + x).push('\n') =~= a + ct);
        law_final_line_break(a + x);
    }
}

/// A line whose first word is `$` (the rest of the line is skipped) does what
/// the closing delimiters of every open table and array, written out on lines
/// of their own, innermost first, would do: both texts give the same tree, or
/// both fail on an overwritten key. Either text may leave out its last line
/// break.
pub proof fn law_dollar_is_closing_delimiters(a: Seq<char>, t: Seq<char>)
    requires
        a.len() == 0 || a.last() == '\n',
        forall|i: int| 0 <= i < t.len() ==> #[trigger] t[i] != '\n',
        run(lines_of(a), initial_stack(), 1) is Ok,
    ensures
        ({
            let st = run(lines_of(a), initial_stack(), 1)->Ok_0;
            let with_dollar = a + (seq!['$', ' '] + t).push('\n');
            let with_closers = a + closing_text(st);
            &&& parse_text(with_dollar) is Ok <==> parse_text(with_closers) is Ok
            &&& parse_text(with_dollar) is Ok ==> parse_text(with_dollar) == parse_text(
                with_closers,
            )
            &&& parse_text(with_dollar) matches Err(e) ==> e is OverwritingKey
            &&& parse_text(with_closers) matches Err(e) ==> e is OverwritingKey
            &&& parse_text(a + (seq!['$', ' '] + t)) == parse_text(with_dollar)
            &&& parse_text(a + drop_final_break(closing_text(st))) == parse_text(with_closers)
        }),
{
    lemma_closing_text_shape(run(lines_of(a), initial_stack(), 1)->Ok_0);
    lemma_dollar_final_breaks(a, t, closing_text(run(lines_of(a), initial_stack(), 1)->Ok_0));
    let init = initial_stack();
    assert(init[0].1 == Value::Table(Seq::empty()));
    assert(Value::Table(Seq::<(Seq<char>, Value)>::empty()).wf());
    let la = lines_of(a);
    lemma_run_good(la, init, 1);
    let st = run(la, init, 1)->Ok_0;
    let m = 1 + la.len();
    // the `$` line
    let c = seq!['$', ' '] + t;
    assert forall|i: int| 0 <= i < c.len() implies #[trigger] c[i] != '\n' by {
        if i >= 2 {
            assert(c[i] == t[i - 2]);
        }
    }
    lemma_lines_single(c);
    lemma_lines_append(a, c.push('\n'));
    let c1 = strip_cr(c);
    assert(words(c1) == words(c));
    assert(words(seq!['$']) == seq![seq!['$']]) by {
        assert(is_word(seq!['$'])) by {
            assert(seq!['$'][0] == '$');
        }
        lemma_words_of_word(seq!['$']);
    }
    assert(words(seq![' ']) =~= Seq::<Seq<char>>::empty()) by {
        lemma_words_all_space(seq![' ']);
    }
    lemma_words_append(seq!['$'], seq![' ']);
    assert(seq!['$'] + seq![' '] =~= seq!['$', ' ']);
    lemma_words_append(seq!['$', ' '], t);
    let ws = words(c);
    assert(ws =~= seq![seq!['$']] + words(t));
    assert(ws[0] == seq!['$']);
    assert(seq!['$'][0] == '$');
    assert(seq!['{'][0] == '{');
    assert(seq!['['][0] == '[');
    assert(seq!['}'][0] == '}');
    assert(seq![']'][0] == ']');
    assert(step(st, ws, m as usize) == close_all(st, m as usize));
    lemma_run_append(la, seq![c1], init, 1);
    lemma_run_one(c1, st, m);
    // the written-out closing lines
    let ct = closing_text(st);
    lemma_closing_text_ends(st);
    lemma_lines_append(a, ct);
    lemma_run_append(la, lines_of(ct), init, 1);
    lemma_closers_like_close_all(st, m, m as usize);
    lemma_close_all_good(st, m as usize);
    match close_all(st, m as usize) {
        Ok(s) => {
            assert(s.last() == s[0]);
        },
        Err(_) => {},
    }
}

/// In a table, a line without words is ignored: with or without it the text
/// parses to the same tree, or fails either way (the line numbers that the
/// errors carry may differ).
pub proof fn law_blank_line_in_table(a: Seq<char>, c: Seq<char>, b: Seq<char>)
    requires
        a.len() == 0 || a.last() == '\n',
        forall|i: int| 0 <= i < c.len() ==> #[trigger] c[i] != '\n',
        words(c).len() == 0,
        run(lines_of(a), initial_stack(), 1) is Ok,
        run(lines_of(a), initial_stack(), 1)->Ok_0.last().1 is Table,
    ensures
        parse_text(a + c.push('\n') + b) is Ok <==> parse_text(a + b) is Ok,
        parse_text(a + c.push('\n') + b) is Ok ==> parse_text(a + c.push('\n') + b) == parse_text(
            a + b,
        ),
{
    let cl = c.push('\n');
    lemma_lines_single(c);
    lemma_lines_append(a, cl);
    assert((a + cl).last() == '\n');
    lemma_lines_append(a + cl, b);
    lemma_lines_append(a, b);
    let la = lines_of(a);
    let lb = lines_of(b);
    let c1 = strip_cr(c);
    assert(words(c1) == words(c));
    let init = initial_stack();
    assert(init[0].1 == Value::Table(Seq::empty()));
    assert(Value::Table(Seq::<(Seq<char>, Value)>::empty()).wf());
    lemma_run_good(la, init, 1);
    assert(lines_of(a + cl + b) =~= la + (seq![c1] + lb));
    lemma_run_append(la, seq![c1] + lb, init, 1);
    lemma_run_append(la, lb, init, 1);
    let st = run(la, init, 1)->Ok_0;
    let m = 1 + la.len();
    lemma_run_append(seq![c1], lb, st, m);
    lemma_run_one(c1, st, m);
    assert(step(st, words(c1), m as usize) == Ok::<Seq<Frame>, AconError>(st));
    lemma_run_numbering(lb, st, m + 1, m);
}

// ---------------------------------------------------------------------------
// A final line break

proof fn lemma_lines_final_break(s: Seq<char>)
    requires
        s.len() > 0,
        s.last() != '\n',
    ensures
        lines_of(s.push('\n')).len() == lines_of(s).len(),
        forall|i: int|
            0 <= i < lines_of(s).len() ==> words(#[trigger] lines_of(s.push('\n'))[i]) == words(
                lines_of(s)[i],
            ),
    decreases s.len(),
{
    lemma_line_end(s);
    let n = line_end(s);
    let sp = s.push('\n');
    if n < s.len() {
        assert(s[n as int] == '\n');
        lemma_line_end_append(s, seq!['\n']);
        assert(s + seq!['\n'] =~= sp);
        let rest = s.skip(n as int + 1);
        assert(rest.len() > 0) by {
            if n as int + 1 == s.len() {
                assert(s.last() == s[n as int]);
            }
        }
        assert(rest.last() == s.last());
        lemma_lines_final_break(rest);
        assert(sp.take(n as int) =~= s.take(n as int));
        assert(sp.skip(n as int + 1) =~= rest.push('\n'));
        let l1 = lines_of(sp);
        let l0 = lines_of(s);
        assert forall|i: int| 0 <= i < l0.len() implies words(#[trigger] l1[i]) == words(l0[i]) by {
            if i > 0 {
                assert(l1[i] == lines_of(rest.push('\n'))[i - 1]);
                assert(l0[i] == lines_of(rest)[i - 1]);
            }
        }
    } else {
        lemma_lines_single(s);
        assert(lines_of(s) == seq![s]);
        assert(lines_of(sp)[0] == strip_cr(s));
        assert(words(strip_cr(s)) == words(s));
    }
}

proof fn lemma_run_same_words(l1: Seq<Seq<char>>, l2: Seq<Seq<char>>, st: Seq<Frame>, n: nat)
    requires
        l1.len() == l2.len(),
        forall|i: int| 0 <= i < l1.len() ==> words(#[trigger] l1[i]) == words(l2[i]),
    ensures
        run(l1, st, n) == run(l2, st, n),
    decreases l1.len(),
{
    if l1.len() > 0 {
        assert(words(l1[0]) == words(l2[0]));
        let d1 = l1.drop_first();
        let d2 = l2.drop_first();
        assert forall|i: int| 0 <= i < d1.len() implies words(#[trigger] d1[i]) == words(d2[i]) by {
            assert(d1[i] == l1[i + 1]);
            assert(d2[i] == l2[i + 1]);
        }
        match step(st, words(l1[0]), n as usize) {
            Ok(s) => lemma_run_same_words(d1, d2, s, n + 1),
            Err(_) => {},
        }
    }
}

/// A line break after the last line changes nothing: a text whose last line
/// has none parses as it does with one.
pub proof fn law_final_line_break(s: Seq<char>)
    requires
        s.len() > 0,
        s.last() != '\n',
    ensures
        parse_text(s.push('\n')) == parse_text(s),
{
    lemma_lines_final_break(s);
    lemma_run_same_words(lines_of(s.push('\n')), lines_of(s), initial_stack(), 1);
}

/// A comment line added after a last line that has no line break is ignored
/// too: with or without it the text parses to the same tree, or fails either
/// way.
pub proof fn law_comment_line_at_end(a: Seq<char>, c: Seq<char>)
    requires
        a.len() > 0,
        a.last() != '\n',
        forall|i: int| 0 <= i < c.len() ==> #[trigger] c[i] != '\n',
        words(c).len() > 0,
        words(c)[0] == seq!['#'],
    ensures
        parse_text(a + seq!['\n'] + c) is Ok <==> parse_text(a) is Ok,
        parse_text(a + seq!['\n'] + c) is Ok ==> parse_text(a + seq!['\n'] + c) == parse_text(a),
{
    let a1 = a.push('\n');
    assert(a + seq!['\n'] =~= a1);
    law_final_line_break(a);
    law_comment_line_ignored(a1, c, Seq::empty());
    assert(a1 + c.push('\n') + Seq::<char>::empty() =~= (a1 + c).push('\n'));
    assert(a1 + Seq::<char>::empty() =~= a1);
    assert(c.len() > 0);
    assert((a1 + c).last() == c.last());
    law_final_line_break(a1 + c);
}

/// A blank line added after a last line that has no line break, where the
/// innermost open nesting is a table, is ignored too.
pub proof fn law_blank_line_at_end(a: Seq<char>, c: Seq<char>)
    requires
        a.len() > 0,
        a.last() != '\n',
        forall|i: int| 0 <= i < c.len() ==> #[trigger] c[i] != '\n',
        words(c).len() == 0,
        run(lines_of(a), initial_stack(), 1) is Ok,
        run(lines_of(a), initial_stack(), 1)->Ok_0.last().1 is Table,
    ensures
        parse_text(a + seq!['\n'] + c) is Ok <==> parse_text(a) is Ok,
        parse_text(a + seq!['\n'] + c) is Ok ==> parse_text(a + seq!['\n'] + c) == parse_text(a),
{
    let a1 = a.push('\n');
    assert(a + seq!['\n'] =~= a1);
    law_final_line_break(a);
    lemma_lines_final_break(a);
    lemma_run_same_words(lines_of(a1), lines_of(a), initial_stack(), 1);
    if c.len() == 0 {
        assert(a1 + c =~= a1);
    } else {
        law_blank_line_in_table(a1, c, Seq::empty());
        assert(a1 + c.push('\n') + Seq::<char>::empty() =~= (a1 + c).push('\n'));
        assert(a1 + Seq::<char>::empty() =~= a1);
        assert((a1 + c).last() == c.last());
        law_final_line_break(a1 + c);
    }
}

// ---------------------------------------------------------------------------
// Keys given once

/// In the outermost table a key is given once: after a text that parses to a
/// table holding key `k`, a further line under `k` is refused with
/// `OverwritingKey` and that line's number; where `k` is new, the line adds
/// it, with its words joined by single spaces as the value, and every other
/// key reads as before.
pub proof fn law_key_given_once(
    a: Seq<char>,
    q: Seq<(Seq<char>, Value)>,
    k: Seq<char>,
    v: Seq<char>,
    other: Seq<char>,
)
    requires
        a.len() == 0 || a.last() == '\n',
        parse_text(a) == Ok::<Value, AconError>(Value::Table(q)),
        is_word(k),
        !is_marker(k),
        forall|j: int| 0 <= j < v.len() ==> v[j] != '\n',
    ensures
        lookup(q, k) is Some ==> parse_text(a + k + seq![' '] + v + seq!['\n']) == Err::<
            Value,
            AconError,
        >(AconError::OverwritingKey(Some((lines_of(a).len() + 1) as usize))),
        lookup(q, k) is None ==> ({
            let r = parse_text(a + k + seq![' '] + v + seq!['\n']);
            &&& r is Ok
            &&& r->Ok_0 is Table
            &&& lookup(r->Ok_0->Table_0, k) == Some(Value::Str(join(words(v))))
            &&& other != k ==> lookup(r->Ok_0->Table_0, other) == lookup(q, other)
        }),
{
    let x = k + seq![' '] + v;
    let t = a + k + seq![' '] + v + seq!['\n'];
    assert(t =~= a + x.push('\n'));
    assert forall|i: int| 0 <= i < x.len() implies #[trigger] x[i] != '\n' by {
        if i < k.len() {
            assert(x[i] == k[i]);
        } else if i > k.len() {
            assert(x[i] == v[i - k.len() - 1]);
        }
    }
    lemma_lines_single(x);
    lemma_lines_append(a, x.push('\n'));
    let l = strip_cr(x);
    let la = lines_of(a);
    assert(lines_of(t) == la + seq![l]);
    lemma_words_of_word(k);
    assert(words(seq![' ']) =~= Seq::<Seq<char>>::empty()) by {
        lemma_words_all_space(seq![' ']);
    }
    lemma_words_append(k, seq![' ']);
    lemma_words_append(k + seq![' '], v);
    assert(words(l) == words(x)) by {
        if x.len() > 0 && x.last() == '\r' {
            assert(x.drop_last() == l);
        }
    }
    let ws = words(l);
    assert(ws =~= seq![k] + words(v));
    assert(ws[0] == k);
    assert(ws.drop_first() =~= words(v));
    let st0 = initial_stack();
    lemma_run_append(la, seq![l], st0, 1);
    let st = run(la, st0, 1)->Ok_0;
    assert(run(la, st0, 1) is Ok);
    assert(st.len() == 1 && st.last().1 == Value::Table(q));
    lemma_run_one(l, st, 1 + la.len());
    let val = Value::Str(join(words(v)));
    if lookup(q, k) is None {
        lemma_find_key(q, k);
        law_table_set_get(q, k, val, other);
        let st2 = replace_top(st, Value::Table(insert_new(q, k, val)));
        assert(st2.len() == 1);
        assert(st2.last() == st2[0]);
        assert((la + seq![l]).len() == la.len() + 1);
    }
}

} // verus!
