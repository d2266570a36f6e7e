//! Writing a tree and parsing the text back gives the tree again, for the
//! trees that the text can carry; each array comes back with its elements in
//! order and one empty string more at its end.
use vstd::prelude::*;
use crate::parse::{Frame, replace_top, step, run, parse_text, initial_stack, opening_name, close,
    lemma_run_append, lemma_run_one};
use crate::serialize::{tabs, ser_entry, ser_entries, ser_items, serialize};
use crate::text::{is_space, words, join, lines_of, strip_cr, is_word, canonical, lemma_words_append,
    lemma_words_all_space, lemma_words_of_word, lemma_canonical_chars, lemma_lines_append,
    lemma_lines_single};
use crate::tree::{Value, keys_sorted, key_lt, lookup, find_key, insert_new, insert_pos,
    lemma_find_key, lemma_insert_pos, lemma_key_lt_irreflexive};

verus! {

/// The words that, first on a line, open, close or comment.
pub open spec fn is_marker(k: Seq<char>) -> bool {
    ||| k == seq!['{']
    ||| k == seq!['[']
    ||| k == seq!['}']
    ||| k == seq![']']
    ||| k == seq!['$']
    ||| k == seq!['#']
}

/// A key that the text can carry for a value: the key of a string must be a
/// word that is no marker; the key of a table must be a word or empty; an
/// array cannot be carried (its text ends with an empty line, which parses as
/// one more element).
pub open spec fn writable_key(k: Seq<char>, v: Value) -> bool {
    match v {
        Value::Str(_) => is_word(k) && !is_marker(k),
        Value::Table(_) => k.len() == 0 || is_word(k),
        Value::Array(_) => false,
    }
}

/// A tree that writing and parsing carry unchanged: no arrays, canonical
/// strings, keys as `writable_key` says. (The law also asks for `wf`: each
/// table's keys in increasing order, which every `Table` keeps.)
pub open spec fn writable(v: Value) -> bool
    decreases v,
{
    match v {
        Value::Array(_) => false,
        Value::Str(s) => canonical(s),
        Value::Table(e) => forall|i: int|
            0 <= i < e.len() ==> writable_key((#[trigger] e[i]).0, e[i].1) && writable(e[i].1),
    }
}

// ---------------------------------------------------------------------------
// The lines that writing gives

proof fn lemma_tabs_space(d: nat)
    ensures
        forall|i: int| 0 <= i < tabs(d).len() ==> is_space(#[trigger] tabs(d)[i]),
        words(tabs(d)) == Seq::<Seq<char>>::empty(),
{
    lemma_words_all_space(tabs(d));
}

proof fn lemma_ser_entry_ends(k: Seq<char>, v: Value, d: nat)
    ensures
        ser_entry(k, v, d).len() > 0,
        ser_entry(k, v, d).last() == '\n',
{
}

/// The text of a table's entries is empty or ends with a line feed.
pub proof fn lemma_ser_entries_ends(e: Seq<(Seq<char>, Value)>, d: nat)
    ensures
        ser_entries(e, d).len() == 0 || ser_entries(e, d).last() == '\n',
{
    if e.len() > 0 {
        lemma_ser_entry_ends(e.last().0, e.last().1, d);
    }
}

/// A key greater than every key of `q` is absent, and goes at the end.
proof fn lemma_append_key(q: Seq<(Seq<char>, Value)>, k: Seq<char>, v: Value)
    requires
        forall|j: int| 0 <= j < q.len() ==> key_lt(#[trigger] q[j].0, k),
    ensures
        lookup(q, k) is None,
        insert_new(q, k, v) == q.push((k, v)),
{
    lemma_find_key(q, k);
    lemma_insert_pos(q, k);
    let f = find_key(q, k) as int;
    if f < q.len() {
        assert(key_lt(q[f].0, k));
        lemma_key_lt_irreflexive(k);
    }
    let p = insert_pos(q, k) as int;
    if p < q.len() {
        assert(key_lt(q[p].0, k));
    }
    assert(q.insert(q.len() as int, (k, v)) =~= q.push((k, v)));
}

proof fn lemma_replace_top_twice(st: Seq<Frame>, x: Value, y: Value)
    requires
        st.len() > 0,
    ensures
        replace_top(replace_top(st, x), y) == replace_top(st, y),
{
    assert(replace_top(replace_top(st, x), y) =~= replace_top(st, y));
}

/// The lines of one entry, run on a stack whose top table holds entries with
/// smaller keys, append the entry to that table.
proof fn lemma_run_entry(
    k: Seq<char>,
    v: Value,
    d: nat,
    st: Seq<Frame>,
    q: Seq<(Seq<char>, Value)>,
    n: nat,
)
    requires
        st.len() >= 1,
        st.last().1 == Value::Table(q),
        writable_key(k, v),
        writable(v),
        v.wf(),
        forall|j: int| 0 <= j < q.len() ==> key_lt(#[trigger] q[j].0, k),
    ensures
        run(lines_of(ser_entry(k, v, d)), st, n) == Ok::<Seq<Frame>, crate::acon::AconError>(
            replace_top(st, Value::Table(q.push((k, v)))),
        ),
    decreases v,
{
    lemma_tabs_space(d);
    lemma_append_key(q, k, v);
    let t = tabs(d);
    match v {
        Value::Str(s) => {
            let x = t + k + seq![' '] + s;
            assert(ser_entry(k, v, d) =~= x.push('\n'));
            lemma_canonical_chars(s);
            assert forall|i: int| 0 <= i < x.len() implies #[trigger] x[i] != '\n' by {
                if i < t.len() {
                    assert(x[i] == t[i]);
                } else if i < t.len() + k.len() {
                    assert(x[i] == k[i - t.len()]);
                } else if i == t.len() + k.len() {
                } else {
                    assert(x[i] == s[i - t.len() - k.len() - 1]);
                }
            }
            lemma_lines_single(x);
            assert(strip_cr(x) == x) by {
                if s.len() > 0 {
                    assert(x.last() == s[s.len() - 1]);
                } else {
                    assert(x.last() == ' ');
                }
            }
            lemma_words_append(t, k);
            lemma_words_of_word(k);
            assert(words(seq![' ']) =~= Seq::<Seq<char>>::empty()) by {
                lemma_words_all_space(seq![' ']);
            }
            lemma_words_append(t + k, seq![' ']);
            lemma_words_append(t + k + seq![' '], s);
            let ws = words(x);
            assert(ws =~= seq![k] + words(s));
            assert(ws[0] == k);
            assert(ws.drop_first() =~= words(s));
            lemma_run_one(x, st, n);
            assert(st.last() == st[st.len() - 1]);
        },
        Value::Table(e2) => {
            let x1 = t + seq!['{', ' '] + k;
            let inner = ser_entries(e2, d + 1);
            let x4 = t + seq!['}'];
            let c = seq!['\n'] + x4.push('\n');
            assert(ser_entry(k, v, d) =~= x1.push('\n') + (inner + c));
            // The opening line.
            assert forall|i: int| 0 <= i < x1.len() implies #[trigger] x1[i] != '\n' by {
                if i < t.len() {
                    assert(x1[i] == t[i]);
                } else if i < t.len() + 2 {
                } else {
                    assert(x1[i] == k[i - t.len() - 2]);
                }
            }
            lemma_lines_single(x1);
            assert(strip_cr(x1) == x1) by {
                if k.len() > 0 {
                    assert(x1.last() == k[k.len() - 1]);
                } else {
                    assert(x1.last() == ' ');
                }
            }
            assert(words(seq!['{']) == seq![seq!['{']]) by {
                lemma_words_of_word(seq!['{']);
            }
            assert(words(seq![' ']) =~= Seq::<Seq<char>>::empty()) by {
                lemma_words_all_space(seq![' ']);
            }
            lemma_words_append(t, seq!['{']);
            lemma_words_append(t + seq!['{'], seq![' ']);
            assert(t + seq!['{', ' '] =~= t + seq!['{'] + seq![' ']);
            lemma_words_append(t + seq!['{', ' '], k);
            let ws1 = words(x1);
            if k.len() > 0 {
                lemma_words_of_word(k);
                assert(ws1 =~= seq![seq!['{'], k]);
            } else {
                assert(x1 =~= t + seq!['{', ' ']);
                assert(words(k) =~= Seq::<Seq<char>>::empty());
                assert(ws1 =~= seq![seq!['{']]);
            }
            assert(opening_name(ws1) == k);
            // The closing line.
            assert forall|i: int| 0 <= i < x4.len() implies #[trigger] x4[i] != '\n' by {
                if i < t.len() {
                    assert(x4[i] == t[i]);
                }
            }
            lemma_lines_single(x4);
            assert(strip_cr(x4) == x4);
            assert(words(seq!['}']) == seq![seq!['}']]) by {
                lemma_words_of_word(seq!['}']);
            }
            lemma_words_append(t, seq!['}']);
            assert(words(x4) =~= seq![seq!['}']]);
            // The empty line.
            let empty = Seq::<char>::empty();
            lemma_lines_single(empty);
            assert(empty.push('\n') =~= seq!['\n']);
            assert(strip_cr(empty) == empty);
            assert(words(empty) =~= Seq::<Seq<char>>::empty());
            // All the lines.
            lemma_ser_entries_ends(e2, d + 1);
            lemma_lines_append(x1.push('\n'), inner + c);
            lemma_lines_append(inner, c);
            lemma_lines_append(seq!['\n'], x4.push('\n'));
            let l1 = seq![x1];
            let l2 = lines_of(inner);
            let l3 = seq![empty];
            let l4 = seq![x4];
            assert(lines_of(ser_entry(k, v, d)) =~= l1 + (l2 + (l3 + l4)));
            // Running them.
            let st2 = st.push((k, Value::Table(Seq::empty())));
            lemma_run_one(x1, st, n);
            assert(step(st, ws1, n as usize) == Ok::<Seq<Frame>, crate::acon::AconError>(st2));
            lemma_run_append(l1, l2 + (l3 + l4), st, n);
            assert(keys_sorted(Seq::<(Seq<char>, Value)>::empty() + e2)) by {
                assert(Seq::<(Seq<char>, Value)>::empty() + e2 =~= e2);
            }
            assert(st2.last().1 == Value::Table(Seq::<(Seq<char>, Value)>::empty()));
            lemma_run_entries(e2, d + 1, st2, Seq::empty(), n + 1);
            let st3 = st.push((k, Value::Table(e2)));
            assert(replace_top(st2, Value::Table(Seq::<(Seq<char>, Value)>::empty() + e2)) =~= st3);
            lemma_run_append(l2, l3 + l4, st2, n + 1);
            let m = n + 1 + l2.len();
            lemma_run_append(l3, l4, st3, m);
            lemma_run_one(empty, st3, m);
            assert(st3.last() == (k, Value::Table(e2)));
            assert(step(st3, words(empty), m as usize) == Ok::<Seq<Frame>, crate::acon::AconError>(
                st3,
            ));
            lemma_run_one(x4, st3, m + 1);
            assert(st3.drop_last() =~= st);
            assert(st3.drop_last().last() == st.last());
            assert(close(st3, seq!['}'], (m + 1) as usize) == Ok::<
                Seq<Frame>,
                crate::acon::AconError,
            >(replace_top(st, Value::Table(insert_new(q, k, v)))));
        },
        Value::Array(_) => {},
    }
}

/// The lines of a table's entries, run on a stack whose top table holds
/// entries with smaller keys, append them to that table.
proof fn lemma_run_entries(
    e: Seq<(Seq<char>, Value)>,
    d: nat,
    st: Seq<Frame>,
    q: Seq<(Seq<char>, Value)>,
    n: nat,
)
    requires
        st.len() >= 1,
        st.last().1 == Value::Table(q),
        keys_sorted(q + e),
        forall|i: int|
            0 <= i < e.len() ==> writable_key((#[trigger] e[i]).0, e[i].1) && writable(e[i].1)
                && e[i].1.wf(),
    ensures
        run(lines_of(ser_entries(e, d)), st, n) == Ok::<Seq<Frame>, crate::acon::AconError>(
            replace_top(st, Value::Table(q + e)),
        ),
    decreases e,
{
    if e.len() == 0 {
        assert(q + e =~= q);
        assert(lines_of(Seq::<char>::empty()) =~= Seq::<Seq<char>>::empty());
        assert(replace_top(st, Value::Table(q)) =~= st);
    } else {
        let e1 = e.drop_last();
        let (k, v) = e.last();
        let a = ser_entries(e1, d);
        let b = ser_entry(k, v, d);
        lemma_ser_entries_ends(e1, d);
        lemma_lines_append(a, b);
        lemma_run_append(lines_of(a), lines_of(b), st, n);
        assert(keys_sorted(q + e1)) by {
            assert forall|i: int, j: int| 0 <= i < j < (q + e1).len() implies key_lt(
                #[trigger] (q + e1)[i].0,
                #[trigger] (q + e1)[j].0,
            ) by {
                assert((q + e1)[i] == (q + e)[i]);
                assert((q + e1)[j] == (q + e)[j]);
            }
        }
        assert forall|i: int|
            0 <= i < e1.len() implies writable_key((#[trigger] e1[i]).0, e1[i].1) && writable(
            e1[i].1,
        ) && e1[i].1.wf() by {
            assert(e1[i] == e[i]);
        }
        lemma_run_entries(e1, d, st, q, n);
        let q1 = q + e1;
        let st1 = replace_top(st, Value::Table(q1));
        assert(st1.last().1 == Value::Table(q1));
        assert(e[e.len() - 1] == (k, v));
        assert forall|j: int| 0 <= j < q1.len() implies key_lt(#[trigger] q1[j].0, k) by {
            assert(q1[j] == (q + e)[j]);
            assert((q + e)[(q + e).len() - 1] == (k, v));
        }
        lemma_run_entry(k, v, d, st1, q1, n + lines_of(a).len());
        lemma_replace_top_twice(st, Value::Table(q1), Value::Table(q1.push((k, v))));
        assert(q1.push((k, v)) =~= q + e);
    }
}

/// Writing a tree and parsing the text gives the same tree, for every tree
/// that the text can carry (`writable`); the tree must be a table, as only a
/// table can be written.
pub proof fn law_write_then_parse(v: Value)
    requires
        v is Table,
        v.wf(),
        writable(v),
    ensures
        serialize(v) is Some,
        parse_text(serialize(v)->0) == Ok::<Value, crate::acon::AconError>(v),
{
    let e = v->Table_0;
    let st0 = initial_stack();
    assert(st0.last().1 == Value::Table(Seq::<(Seq<char>, Value)>::empty()));
    assert(Seq::<(Seq<char>, Value)>::empty() + e =~= e);
    lemma_run_entries(e, 0, st0, Seq::empty(), 1);
    let st = replace_top(st0, Value::Table(e));
    assert(st.len() == 1);
    assert(st.last() == st[0]);
}


// ---------------------------------------------------------------------------
// Trees with arrays

/// What parsing the written text of `v` gives: every array gains one empty
/// string after its last element, from the empty line before its closing
/// line; everything else stays as it is.
pub open spec fn padded(v: Value) -> Value
    decreases v,
{
    match v {
        Value::Str(s) => Value::Str(s),
        Value::Array(items) => Value::Array(padded_items(items).push(Value::Str(Seq::empty()))),
        Value::Table(e) => Value::Table(padded_entries(e)),
    }
}

/// `padded` applied to each element, in order.
pub open spec fn padded_items(items: Seq<Value>) -> Seq<Value>
    decreases items,
{
    if items.len() == 0 {
        Seq::empty()
    } else {
        padded_items(items.drop_last()).push(padded(items.last()))
    }
}

/// `padded` applied to each value, keys and order unchanged.
pub open spec fn padded_entries(e: Seq<(Seq<char>, Value)>) -> Seq<(Seq<char>, Value)>
    decreases e,
{
    if e.len() == 0 {
        Seq::empty()
    } else {
        padded_entries(e.drop_last()).push((e.last().0, padded(e.last().1)))
    }
}

/// A key that the text carries for a value: the key of a string must be a
/// word that is no marker; that of a table or an array a word or empty.
pub open spec fn carried_key(k: Seq<char>, v: Value) -> bool {
    match v {
        Value::Str(_) => is_word(k) && !is_marker(k),
        _ => k.len() == 0 || is_word(k),
    }
}

/// An array element that the text carries: a string whose first word, if it
/// has one, is no marker; any table or array.
pub open spec fn carried_item(v: Value) -> bool {
    match v {
        Value::Str(s) => words(s).len() == 0 || !is_marker(words(s)[0]),
        _ => true,
    }
}

/// A tree whose text carries every string, key and element: canonical
/// strings, keys as `carried_key` says, elements as `carried_item` says.
pub open spec fn carried(v: Value) -> bool
    decreases v,
{
    match v {
        Value::Str(s) => canonical(s),
        Value::Array(items) => forall|i: int|
            0 <= i < items.len() ==> carried_item(#[trigger] items[i]) && carried(items[i]),
        Value::Table(e) => forall|i: int|
            0 <= i < e.len() ==> carried_key((#[trigger] e[i]).0, e[i].1) && carried(e[i].1),
    }
}

proof fn lemma_padded_items(items: Seq<Value>)
    ensures
        padded_items(items).len() == items.len(),
        forall|i: int| 0 <= i < items.len() ==> #[trigger] padded_items(items)[i] == padded(items[i]),
    decreases items.len(),
{
    if items.len() > 0 {
        lemma_padded_items(items.drop_last());
        assert forall|i: int| 0 <= i < items.len() implies #[trigger] padded_items(items)[i] == padded(items[i]) by {
            if i < items.len() - 1 {
                assert(items.drop_last()[i] == items[i]);
            }
        }
    }
}

proof fn lemma_padded_entries(e: Seq<(Seq<char>, Value)>)
    ensures
        padded_entries(e).len() == e.len(),
        forall|i: int| 0 <= i < e.len() ==> #[trigger] padded_entries(e)[i] == (e[i].0, padded(e[i].1)),
    decreases e.len(),
{
    if e.len() > 0 {
        lemma_padded_entries(e.drop_last());
        assert forall|i: int| 0 <= i < e.len() implies #[trigger] padded_entries(e)[i] == (e[i].0, padded(e[i].1)) by {
            if i < e.len() - 1 {
                assert(e.drop_last()[i] == e[i]);
            }
        }
    }
}

/// The top of the stack after a value `w` under key `k` is added to it: a
/// table takes the entry at its end, an array the element at its end.
pub open spec fn added(top: Value, k: Seq<char>, w: Value) -> Value {
    match top {
        Value::Table(q) => Value::Table(q.push((k, w))),
        Value::Array(p) => Value::Array(p.push(w)),
        Value::Str(_) => top,
    }
}

/// What a stack's top must be for the lines of `k` with value `v` to add
/// them to it: a table whose keys are all smaller than a key it carries, or
/// an array, with an empty key and an element it carries.
pub open spec fn takes(top: Value, k: Seq<char>, v: Value) -> bool {
    match top {
        Value::Table(q) => carried_key(k, v) && forall|j: int|
            0 <= j < q.len() ==> key_lt(#[trigger] q[j].0, k),
        Value::Array(_) => k.len() == 0 && carried_item(v),
        Value::Str(_) => false,
    }
}

/// The lines of a table's or an array's text: its opening line, the lines of
/// its body, an empty line and its closing line; the opening line names `k`.
proof fn lemma_block_lines(o: char, c: char, k: Seq<char>, inner: Seq<char>, d: nat)
    requires
        o == '{' || o == '[',
        c == '}' || c == ']',
        k.len() == 0 || is_word(k),
        inner.len() == 0 || inner.last() == '\n',
    ensures
        lines_of(tabs(d) + seq![o, ' '] + k + seq!['\n'] + inner + seq!['\n'] + tabs(d) + seq![c, '\n'])
            == seq![tabs(d) + seq![o, ' '] + k] + (lines_of(inner) + (seq![Seq::<char>::empty()]
            + seq![tabs(d) + seq![c]])),
        words(tabs(d) + seq![o, ' '] + k).len() > 0,
        words(tabs(d) + seq![o, ' '] + k)[0] == seq![o],
        opening_name(words(tabs(d) + seq![o, ' '] + k)) == k,
        words(tabs(d) + seq![c]) == seq![seq![c]],
        words(Seq::<char>::empty()) == Seq::<Seq<char>>::empty(),
{
    lemma_tabs_space(d);
    let t = tabs(d);
    let x1 = t + seq![o, ' '] + k;
    let x4 = t + seq![c];
    let cl = seq!['\n'] + x4.push('\n');
    assert(t + seq![o, ' '] + k + seq!['\n'] + inner + seq!['\n'] + t + seq![c, '\n']
        =~= x1.push('\n') + (inner + cl));
    // The opening line.
    assert forall|i: int| 0 <= i < x1.len() implies #[trigger] x1[i] != '\n' by {
        if i < t.len() {
            assert(x1[i] == t[i]);
        } else if i < t.len() + 2 {
        } else {
            assert(x1[i] == k[i - t.len() - 2]);
            assert(!is_space(k[i - t.len() - 2]));
        }
    }
    lemma_lines_single(x1);
    assert(strip_cr(x1) == x1) by {
        if k.len() > 0 {
            assert(x1.last() == k[k.len() - 1]);
            assert(!is_space(k[k.len() - 1]));
        } else {
            assert(x1.last() == ' ');
        }
    }
    assert(words(seq![o]) == seq![seq![o]]) by {
        lemma_words_of_word(seq![o]);
    }
    assert(words(seq![' ']) =~= Seq::<Seq<char>>::empty()) by {
        lemma_words_all_space(seq![' ']);
    }
    lemma_words_append(t, seq![o]);
    lemma_words_append(t + seq![o], seq![' ']);
    assert(t + seq![o, ' '] =~= t + seq![o] + seq![' ']);
    lemma_words_append(t + seq![o, ' '], k);
    let ws1 = words(x1);
    if k.len() > 0 {
        lemma_words_of_word(k);
        assert(ws1 =~= seq![seq![o], k]);
    } else {
        assert(x1 =~= t + seq![o, ' ']);
        assert(words(k) =~= Seq::<Seq<char>>::empty());
        assert(ws1 =~= seq![seq![o]]);
    }
    // The closing line.
    assert forall|i: int| 0 <= i < x4.len() implies #[trigger] x4[i] != '\n' by {
        if i < t.len() {
            assert(x4[i] == t[i]);
        }
    }
    lemma_lines_single(x4);
    assert(strip_cr(x4) == x4);
    assert(words(seq![c]) == seq![seq![c]]) by {
        lemma_words_of_word(seq![c]);
    }
    lemma_words_append(t, seq![c]);
    assert(words(x4) =~= seq![seq![c]]);
    // The empty line.
    let empty = Seq::<char>::empty();
    lemma_lines_single(empty);
    assert(empty.push('\n') =~= seq!['\n']);
    assert(strip_cr(empty) == empty);
    assert(words(empty) =~= Seq::<Seq<char>>::empty());
    // All the lines.
    lemma_lines_append(x1.push('\n'), inner + cl);
    lemma_lines_append(inner, cl);
    lemma_lines_append(seq!['\n'], x4.push('\n'));
}

/// The text of an array's elements is empty or ends with a line feed.
pub proof fn lemma_ser_items_ends(items: Seq<Value>, d: nat)
    ensures
        ser_items(items, d).len() == 0 || ser_items(items, d).last() == '\n',
{
    if items.len() > 0 {
        lemma_ser_entry_ends(Seq::empty(), items.last(), d);
    }
}

/// The line of `k` with the string `s`, run on a stack whose top takes it,
/// adds the string to that top.
proof fn lemma_run_str(k: Seq<char>, s: Seq<char>, d: nat, st: Seq<Frame>, n: nat)
    requires
        st.len() >= 1,
        takes(st.last().1, k, Value::Str(s)),
        canonical(s),
    ensures
        run(lines_of(ser_entry(k, Value::Str(s), d)), st, n) == Ok::<Seq<Frame>, crate::acon::AconError>(
            replace_top(st, added(st.last().1, k, Value::Str(s))),
        ),
{
    lemma_tabs_space(d);
    let v = Value::Str(s);
    let top = st.last().1;
    if let Value::Table(q) = top {
        lemma_append_key(q, k, v);
    }
    let t = tabs(d);
    assert(st.last() == st[st.len() - 1]);
    let x = t + k + seq![' '] + s;
    assert(ser_entry(k, v, d) =~= x.push('\n'));
    lemma_canonical_chars(s);
    assert forall|i: int| 0 <= i < x.len() implies #[trigger] x[i] != '\n' by {
        if i < t.len() {
            assert(x[i] == t[i]);
        } else if i < t.len() + k.len() {
            assert(x[i] == k[i - t.len()]);
            assert(!is_space(k[i - t.len()]));
        } else if i == t.len() + k.len() {
        } else {
            assert(x[i] == s[i - t.len() - k.len() - 1]);
        }
    }
    lemma_lines_single(x);
    assert(strip_cr(x) == x) by {
        if s.len() > 0 {
            assert(x.last() == s[s.len() - 1]);
        } else {
            assert(x.last() == ' ');
        }
    }
    assert(words(seq![' ']) =~= Seq::<Seq<char>>::empty()) by {
        lemma_words_all_space(seq![' ']);
    }
    lemma_words_append(t, k);
    lemma_words_append(t + k, seq![' ']);
    lemma_words_append(t + k + seq![' '], s);
    let ws = words(x);
    lemma_run_one(x, st, n);
    if top is Table {
        lemma_words_of_word(k);
        assert(ws =~= seq![k] + words(s));
        assert(ws[0] == k);
        assert(ws.drop_first() =~= words(s));
    } else {
        assert(k =~= Seq::<char>::empty());
        assert(words(k) =~= Seq::<Seq<char>>::empty());
        assert(ws =~= words(s));
        assert(join(ws) == s);
    }
}

/// The lines of `k` with value `v`, run on a stack whose top takes them
/// (`takes`), add `padded(v)` to that top.
proof fn lemma_run_value(k: Seq<char>, v: Value, d: nat, st: Seq<Frame>, n: nat)
    requires
        st.len() >= 1,
        takes(st.last().1, k, v),
        carried(v),
        v.wf(),
    ensures
        run(lines_of(ser_entry(k, v, d)), st, n) == Ok::<Seq<Frame>, crate::acon::AconError>(
            replace_top(st, added(st.last().1, k, padded(v))),
        ),
    decreases v,
{
    lemma_tabs_space(d);
    let top = st.last().1;
    let w = padded(v);
    if let Value::Table(q) = top {
        lemma_append_key(q, k, w);
    }
    let t = tabs(d);
    assert(st.last() == st[st.len() - 1]);
    match v {
        Value::Str(s) => {
            lemma_run_str(k, s, d, st, n);
        },
        Value::Table(e2) => {
            let inner = ser_entries(e2, d + 1);
            lemma_ser_entries_ends(e2, d + 1);
            lemma_block_lines('{', '}', k, inner, d);
            let x1 = t + seq!['{', ' '] + k;
            let x4 = t + seq!['}'];
            let empty = Seq::<char>::empty();
            let l1 = seq![x1];
            let l2 = lines_of(inner);
            let l3 = seq![empty];
            let l4 = seq![x4];
            assert(lines_of(ser_entry(k, v, d)) == l1 + (l2 + (l3 + l4)));
            let none = Seq::<(Seq<char>, Value)>::empty();
            let st2 = st.push((k, Value::Table(none)));
            lemma_run_one(x1, st, n);
            assert(step(st, words(x1), n as usize) == Ok::<Seq<Frame>, crate::acon::AconError>(st2));
            lemma_run_append(l1, l2 + (l3 + l4), st, n);
            assert(keys_sorted(none + e2)) by {
                assert(none + e2 =~= e2);
            }
            assert(st2.last().1 == Value::Table(none));
            lemma_run_entries_c(e2, d + 1, st2, none, n + 1);
            let st3 = st.push((k, w));
            assert(replace_top(st2, Value::Table(none + padded_entries(e2))) =~= st3);
            lemma_run_append(l2, l3 + l4, st2, n + 1);
            let m = n + 1 + l2.len();
            lemma_run_append(l3, l4, st3, m);
            lemma_run_one(empty, st3, m);
            assert(st3.last() == (k, w));
            assert(step(st3, words(empty), m as usize) == Ok::<Seq<Frame>, crate::acon::AconError>(
                st3,
            ));
            lemma_run_one(x4, st3, m + 1);
            assert(st3.drop_last() =~= st);
            assert(st3.drop_last().last() == st.last());
        },
        Value::Array(p2) => {
            let inner = ser_items(p2, d + 1);
            lemma_ser_items_ends(p2, d + 1);
            lemma_block_lines('[', ']', k, inner, d);
            let x1 = t + seq!['[', ' '] + k;
            let x4 = t + seq![']'];
            let empty = Seq::<char>::empty();
            let l1 = seq![x1];
            let l2 = lines_of(inner);
            let l3 = seq![empty];
            let l4 = seq![x4];
            assert(lines_of(ser_entry(k, v, d)) == l1 + (l2 + (l3 + l4)));
            let none = Seq::<Value>::empty();
            let st2 = st.push((k, Value::Array(none)));
            lemma_run_one(x1, st, n);
            assert(seq!['['] != seq!['{']) by {
                assert(seq!['['][0] != seq!['{'][0]);
            }
            assert(step(st, words(x1), n as usize) == Ok::<Seq<Frame>, crate::acon::AconError>(st2));
            lemma_run_append(l1, l2 + (l3 + l4), st, n);
            assert(st2.last().1 == Value::Array(none));
            lemma_run_items_c(p2, d + 1, st2, none, n + 1);
            let st3 = st.push((k, Value::Array(padded_items(p2))));
            assert(replace_top(st2, Value::Array(none + padded_items(p2))) =~= st3);
            lemma_run_append(l2, l3 + l4, st2, n + 1);
            let m = n + 1 + l2.len();
            lemma_run_append(l3, l4, st3, m);
            lemma_run_one(empty, st3, m);
            assert(st3.last() == (k, Value::Array(padded_items(p2))));
            let st4 = st.push((k, w));
            assert(join(Seq::<Seq<char>>::empty()) == empty);
            assert(replace_top(st3, Value::Array(padded_items(p2).push(Value::Str(empty)))) =~= st4);
            assert(step(st3, words(empty), m as usize) == Ok::<Seq<Frame>, crate::acon::AconError>(
                st4,
            ));
            lemma_run_one(x4, st4, m + 1);
            assert(st4.drop_last() =~= st);
            assert(st4.drop_last().last() == st.last());
            assert(st4.last() == (k, w));
        },
    }
}

/// The lines of a table's entries, run on a stack whose top table holds
/// entries with smaller keys, append them, padded, to that table.
proof fn lemma_run_entries_c(
    e: Seq<(Seq<char>, Value)>,
    d: nat,
    st: Seq<Frame>,
    q: Seq<(Seq<char>, Value)>,
    n: nat,
)
    requires
        st.len() >= 1,
        st.last().1 == Value::Table(q),
        keys_sorted(q + e),
        forall|i: int|
            0 <= i < e.len() ==> carried_key((#[trigger] e[i]).0, e[i].1) && carried(e[i].1)
                && e[i].1.wf(),
    ensures
        run(lines_of(ser_entries(e, d)), st, n) == Ok::<Seq<Frame>, crate::acon::AconError>(
            replace_top(st, Value::Table(q + padded_entries(e))),
        ),
    decreases e,
{
    if e.len() == 0 {
        assert(q + padded_entries(e) =~= q);
        assert(lines_of(Seq::<char>::empty()) =~= Seq::<Seq<char>>::empty());
        assert(replace_top(st, Value::Table(q)) =~= st);
    } else {
        let e1 = e.drop_last();
        let (k, v) = e.last();
        let a = ser_entries(e1, d);
        let b = ser_entry(k, v, d);
        lemma_ser_entries_ends(e1, d);
        lemma_lines_append(a, b);
        lemma_run_append(lines_of(a), lines_of(b), st, n);
        assert(keys_sorted(q + e1)) by {
            assert forall|i: int, j: int| 0 <= i < j < (q + e1).len() implies key_lt(
                #[trigger] (q + e1)[i].0,
                #[trigger] (q + e1)[j].0,
            ) by {
                assert((q + e1)[i] == (q + e)[i]);
                assert((q + e1)[j] == (q + e)[j]);
            }
        }
        assert forall|i: int|
            0 <= i < e1.len() implies carried_key((#[trigger] e1[i]).0, e1[i].1) && carried(
            e1[i].1,
        ) && e1[i].1.wf() by {
            assert(e1[i] == e[i]);
        }
        lemma_run_entries_c(e1, d, st, q, n);
        lemma_padded_entries(e1);
        let q1 = q + padded_entries(e1);
        let st1 = replace_top(st, Value::Table(q1));
        assert(st1.last().1 == Value::Table(q1));
        assert(e[e.len() - 1] == (k, v));
        assert forall|j: int| 0 <= j < q1.len() implies key_lt(#[trigger] q1[j].0, k) by {
            if j < q.len() {
                assert(q1[j] == (q + e)[j]);
            } else {
                assert(q1[j] == padded_entries(e1)[j - q.len()]);
                assert((q + e)[j] == e[j - q.len()]);
            }
            assert((q + e)[(q + e).len() - 1] == (k, v));
        }
        lemma_run_value(k, v, d, st1, n + lines_of(a).len());
        lemma_replace_top_twice(st, Value::Table(q1), Value::Table(q1.push((k, padded(v)))));
        assert(q1.push((k, padded(v))) =~= q + padded_entries(e));
    }
}

/// The lines of an array's elements, run on a stack whose top is an array,
/// append them, padded, to that array.
proof fn lemma_run_items_c(p: Seq<Value>, d: nat, st: Seq<Frame>, r: Seq<Value>, n: nat)
    requires
        st.len() >= 1,
        st.last().1 == Value::Array(r),
        forall|i: int| 0 <= i < p.len() ==> carried_item(#[trigger] p[i]) && carried(p[i]) && p[i].wf(),
    ensures
        run(lines_of(ser_items(p, d)), st, n) == Ok::<Seq<Frame>, crate::acon::AconError>(
            replace_top(st, Value::Array(r + padded_items(p))),
        ),
    decreases p,
{
    if p.len() == 0 {
        assert(r + padded_items(p) =~= r);
        assert(lines_of(Seq::<char>::empty()) =~= Seq::<Seq<char>>::empty());
        assert(replace_top(st, Value::Array(r)) =~= st);
    } else {
        let p1 = p.drop_last();
        let v = p.last();
        let a = ser_items(p1, d);
        let b = ser_entry(Seq::empty(), v, d);
        lemma_ser_items_ends(p1, d);
        lemma_lines_append(a, b);
        lemma_run_append(lines_of(a), lines_of(b), st, n);
        assert forall|i: int| 0 <= i < p1.len() implies carried_item(#[trigger] p1[i]) && carried(p1[i]) && p1[i].wf() by {
            assert(p1[i] == p[i]);
        }
        lemma_run_items_c(p1, d, st, r, n);
        let r1 = r + padded_items(p1);
        let st1 = replace_top(st, Value::Array(r1));
        assert(st1.last().1 == Value::Array(r1));
        assert(p[p.len() - 1] == v);
        lemma_run_value(Seq::empty(), v, d, st1, n + lines_of(a).len());
        lemma_replace_top_twice(st, Value::Array(r1), Value::Array(r1.push(padded(v))));
        assert(r1.push(padded(v)) =~= r + padded_items(p));
    }
}

/// Writing a table and parsing the text gives the table back with each array
/// padded by one empty string at its end (`padded`): every element, empty or
/// not, comes back in its place and in its order, for every tree whose
/// strings, keys and elements the text carries (`carried`).
pub proof fn law_write_then_parse_padded(v: Value)
    requires
        v is Table,
        v.wf(),
        carried(v),
    ensures
        serialize(v) is Some,
        parse_text(serialize(v)->0) == Ok::<Value, crate::acon::AconError>(padded(v)),
{
    let e = v->Table_0;
    let st0 = initial_stack();
    let none = Seq::<(Seq<char>, Value)>::empty();
    assert(st0.last().1 == Value::Table(none));
    assert(none + e =~= e);
    lemma_run_entries_c(e, 0, st0, none, 1);
    assert(none + padded_entries(e) =~= padded_entries(e));
    let st = replace_top(st0, Value::Table(padded_entries(e)));
    assert(st.len() == 1);
    assert(st.last() == st[0]);
}

} // verus!
