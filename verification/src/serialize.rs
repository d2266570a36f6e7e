//! Writing a tree as ACON text.
//!
//! Each entry of the outermost table is written on its own lines, nested
//! levels indented by one tab more: a string as its key, a space and the
//! string; an array or a table as an opening line `[ key` or `{ key`, its
//! elements or entries (array elements with an empty key), an empty line and
//! the closing line `]` or `}`.
use vstd::prelude::*;
use crate::acon::AconError;
use crate::parse::parse_text;
use crate::roundtrip::{lemma_ser_items_ends, lemma_ser_entries_ends, writable, law_write_then_parse, carried, padded, law_write_then_parse_padded};
use crate::text::{chars_to_string, lines_of, strip_cr, lemma_lines_single, lemma_lines_append};
use crate::tree::{Acon, Value, Table, values_of, lemma_array_view, keys_sorted};

verus! {

/// `d` tab characters.
pub open spec fn tabs(d: nat) -> Seq<char> {
    Seq::new(d, |i: int| '\t')
}

/// The lines for `key` with value `v`, indented by `d` tabs.
pub open spec fn ser_entry(key: Seq<char>, v: Value, d: nat) -> Seq<char>
    decreases v,
{
    match v {
        Value::Str(s) => tabs(d) + key + seq![' '] + s + seq!['\n'],
        Value::Array(items) => tabs(d) + seq!['[', ' '] + key + seq!['\n'] + ser_items(items, d + 1)
            + seq!['\n'] + tabs(d) + seq![']', '\n'],
        Value::Table(e) => tabs(d) + seq!['{', ' '] + key + seq!['\n'] + ser_entries(e, d + 1)
            + seq!['\n'] + tabs(d) + seq!['}', '\n'],
    }
}

/// The lines for the elements of an array, each with an empty key.
pub open spec fn ser_items(items: Seq<Value>, d: nat) -> Seq<char>
    decreases items,
{
    if items.len() == 0 {
        Seq::empty()
    } else {
        ser_items(items.drop_last(), d) + ser_entry(Seq::empty(), items.last(), d)
    }
}

/// The lines for the entries of a table, in their order.
pub open spec fn ser_entries(e: Seq<(Seq<char>, Value)>, d: nat) -> Seq<char>
    decreases e,
{
    if e.len() == 0 {
        Seq::empty()
    } else {
        ser_entries(e.drop_last(), d) + ser_entry(e.last().0, e.last().1, d)
    }
}

/// The text of a tree: only a table can be written, as its entries.
pub open spec fn serialize(v: Value) -> Option<Seq<char>> {
    match v {
        Value::Table(e) => Some(ser_entries(e, 0)),
        _ => None,
    }
}

fn push_all(out: &mut Vec<char>, s: &Vec<char>)
    ensures
        final(out)@ == old(out)@ + s@,
{
    let mut i: usize = 0;
    while i < s.len()
        invariant
            i <= s@.len(),
            out@ == old(out)@ + s@.take(i as int),
        decreases s@.len() - i,
    {
        out.push(s[i]);
        i = i + 1;
        assert(out@ =~= old(out)@ + s@.take(i as int));
    }
    assert(s@.take(i as int) =~= s@);
}

/// Writes the lines for `key` with value `v`; `indent` holds `d` tabs.
fn write_entry(out: &mut Vec<char>, key: &Vec<char>, v: &Acon, indent: &Vec<char>, Ghost(d): Ghost<nat>)
    requires
        indent@ == tabs(d),
    ensures
        final(out)@ == old(out)@ + ser_entry(key@, v@, d),
        v@.wf(),
    decreases v,
{
    let ghost start = out@;
    push_all(out, indent);
    match v {
        Acon::String(s) => {
            push_all(out, key);
            out.push(' ');
            let chars = crate::text::str_to_chars(s.as_str());
            push_all(out, &chars);
            out.push('\n');
            assert(out@ =~= start + ser_entry(key@, v@, d));
        },
        Acon::Array(items) => {
            out.push('[');
            out.push(' ');
            push_all(out, key);
            out.push('\n');
            let mut inner = copy_indent(indent);
            inner.push('\t');
            assert(inner@ =~= tabs(d + 1));
            let empty: Vec<char> = Vec::new();
            let ghost head = out@;
            proof {
                lemma_array_view(*items);
            }
            let ghost vals = values_of(items@);
            let mut i: usize = 0;
            assert(vals.take(0) =~= Seq::<Value>::empty());
            while i < items.len()
                invariant
                    i <= items@.len(),
                    *v == Acon::Array(*items),
                    vals == values_of(items@),
                    inner@ == tabs(d + 1),
                    empty@ == Seq::<char>::empty(),
                    out@ == head + ser_items(vals.take(i as int), d + 1),
                    forall|j: int| 0 <= j < i ==> (#[trigger] vals[j]).wf(),
                decreases items@.len() - i,
            {
                assert(decreases_to!(*v => v->Array_0));
                assert(decreases_to!(*items => items[i as int]));
                write_entry(out, &empty, &items[i], &inner, Ghost(d + 1));
                assert(vals.take(i + 1).drop_last() =~= vals.take(i as int));
                i = i + 1;
            }
            assert(vals.take(i as int) =~= vals);
            assert(v@.wf());
            out.push('\n');
            push_all(out, indent);
            out.push(']');
            out.push('\n');
            assert(out@ =~= start + ser_entry(key@, v@, d));
        },
        Acon::Table(t) => {
            out.push('{');
            out.push(' ');
            push_all(out, key);
            out.push('\n');
            let mut inner = copy_indent(indent);
            inner.push('\t');
            assert(inner@ =~= tabs(d + 1));
            let ghost head = out@;
            proof {
                use_type_invariant(t);
                t.lemma_view();
            }
            let ghost e = t@;
            let mut i: usize = 0;
            assert(e.take(0) =~= Seq::<(Seq<char>, Value)>::empty());
            while i < t.keys.len()
                invariant
                    i <= t.keys@.len(),
                    *v == Acon::Table(*t),
                    e == t@,
                    e.len() == t.keys@.len(),
                    e.len() == t.values@.len(),
                    forall|j: int|
                        0 <= j < e.len() ==> #[trigger] e[j] == (t.keys@[j]@, t.values@[j]@),
                    forall|j: int| 0 <= j < i ==> (#[trigger] e[j]).1.wf(),
                    inner@ == tabs(d + 1),
                    out@ == head + ser_entries(e.take(i as int), d + 1),
                decreases t.keys@.len() - i,
            {
                assert(e[i as int] == (t.keys@[i as int]@, t.values@[i as int]@));
                assert(decreases_to!(*v => v->Table_0));
                assert(decreases_to!(*t => t.values));
                assert(decreases_to!(t.values => t.values[i as int]));
                write_entry(out, &t.keys[i], &t.values[i], &inner, Ghost(d + 1));
                assert(e.take(i + 1).drop_last() =~= e.take(i as int));
                i = i + 1;
            }
            assert(e.take(i as int) =~= e);
            assert(v@.wf());
            out.push('\n');
            push_all(out, indent);
            out.push('}');
            out.push('\n');
            assert(out@ =~= start + ser_entry(key@, v@, d));
        },
    }
}

fn copy_indent(v: &Vec<char>) -> (res: Vec<char>)
    ensures
        res@ == v@,
{
    let mut res: Vec<char> = Vec::new();
    push_all(&mut res, v);
    res
}

impl Acon {
    /// The ACON text of this tree (what its `Display` writes): only a table can
    /// be written, anything else gives `None`. Parsing the text gives the tree
    /// back whenever the text can carry it (`writable`); with arrays, each of
    /// them comes back with its elements in order and one empty string more
    /// at its end (`padded`), whenever the text carries them (`carried`).
    pub fn to_string(&self) -> (res: Option<String>)
        ensures
            match res {
                Some(s) => {
                    &&& serialize(self@) == Some(s@)
                    &&& self@.wf()
                    &&& writable(self@) ==> parse_text(s@) == Ok::<Value, AconError>(self@)
                    &&& carried(self@) ==> parse_text(s@) == Ok::<Value, AconError>(padded(self@))
                },
                None => serialize(self@) is None,
            },
    {
        match self {
            Acon::Table(t) => {
                let mut out: Vec<char> = Vec::new();
                let indent: Vec<char> = Vec::new();
                assert(indent@ =~= tabs(0));
                proof {
                    use_type_invariant(t);
                    t.lemma_view();
                }
                let ghost e = t@;
                let mut i: usize = 0;
                assert(e.take(0) =~= Seq::<(Seq<char>, Value)>::empty());
                assert(out@ =~= ser_entries(e.take(0), 0));
                while i < t.keys.len()
                    invariant
                        i <= t.keys@.len(),
                        e == t@,
                        e.len() == t.keys@.len(),
                        e.len() == t.values@.len(),
                        keys_sorted(e),
                        forall|j: int|
                            0 <= j < e.len() ==> #[trigger] e[j] == (t.keys@[j]@, t.values@[j]@),
                        forall|j: int| 0 <= j < i ==> (#[trigger] e[j]).1.wf(),
                        indent@ == tabs(0),
                        out@ == ser_entries(e.take(i as int), 0),
                    decreases t.keys@.len() - i,
                {
                    assert(e[i as int] == (t.keys@[i as int]@, t.values@[i as int]@));
                    write_entry(&mut out, &t.keys[i], &t.values[i], &indent, Ghost(0));
                    assert(e.take(i + 1).drop_last() =~= e.take(i as int));
                    i = i + 1;
                }
                assert(e.take(i as int) =~= e);
                assert(self@.wf());
                proof {
                    if writable(self@) {
                        law_write_then_parse(self@);
                    }
                    if carried(self@) {
                        law_write_then_parse_padded(self@);
                    }
                }
                Some(chars_to_string(&out))
            },
            _ => None,
        }
    }
}

/// A text that stands as one line: no line feed, and no carriage return at
/// its end.
pub open spec fn one_line(s: Seq<char>) -> bool {
    &&& forall|j: int| 0 <= j < s.len() ==> s[j] != '\n'
    &&& s.len() == 0 || s.last() != '\r'
}

/// The lines that an array of strings gives, one level deep: a tab, a space
/// and the string, for each element in index order.
pub open spec fn element_lines(items: Seq<Value>) -> Seq<Seq<char>> {
    Seq::new(items.len(), |i: int| seq!['\t', ' '] + items[i]->Str_0)
}

proof fn lemma_items_lines(items: Seq<Value>)
    requires
        forall|i: int| 0 <= i < items.len() ==> (#[trigger] items[i]) is Str && one_line(items[i]->Str_0),
    ensures
        lines_of(ser_items(items, 1)) == element_lines(items),
    decreases items.len(),
{
    if items.len() == 0 {
        assert(lines_of(Seq::<char>::empty()) =~= Seq::<Seq<char>>::empty());
        assert(element_lines(items) =~= Seq::<Seq<char>>::empty());
    } else {
        let p = items.drop_last();
        assert forall|i: int| 0 <= i < p.len() implies (#[trigger] p[i]) is Str && one_line(p[i]->Str_0) by {
            assert(p[i] == items[i]);
        }
        lemma_items_lines(p);
        let a = ser_items(p, 1);
        let st = items.last()->Str_0;
        assert(items[items.len() - 1] is Str);
        let x = seq!['\t', ' '] + st;
        assert(tabs(1) =~= seq!['\t']);
        assert(ser_entry(Seq::empty(), items.last(), 1) =~= x.push('\n'));
        assert forall|j: int| 0 <= j < x.len() implies #[trigger] x[j] != '\n' by {
            if j >= 2 {
                assert(x[j] == st[j - 2]);
            }
        }
        lemma_lines_single(x);
        assert(strip_cr(x) == x) by {
            if st.len() > 0 {
                assert(x.last() == st.last());
            }
        }
        lemma_ser_items_ends(p, 1);
        lemma_lines_append(a, x.push('\n'));
        assert(element_lines(items) =~= element_lines(p).push(x));
    }
}

/// An array of strings is written one element to a line, in index order and
/// whatever each element holds, the empty string too: after the opening line
/// `[ k`, line `i + 1` is a tab, a space and element `i`; then come an empty
/// line and the closing `]`.
pub proof fn law_array_lines(k: Seq<char>, items: Seq<Value>)
    requires
        one_line(k),
        forall|i: int| 0 <= i < items.len() ==> (#[trigger] items[i]) is Str && one_line(items[i]->Str_0),
    ensures
        serialize(Value::Table(seq![(k, Value::Array(items))])) is Some,
        lines_of(serialize(Value::Table(seq![(k, Value::Array(items))]))->0) == seq![seq!['[', ' ']
            + k] + element_lines(items) + seq![Seq::<char>::empty(), seq![']']],
{
    let e = seq![(k, Value::Array(items))];
    let text = ser_entries(e, 0);
    assert(e.drop_last() =~= Seq::<(Seq<char>, Value)>::empty());
    assert(e.last() == (k, Value::Array(items)));
    assert(ser_entries(e.drop_last(), 0) == Seq::<char>::empty());
    assert(text =~= ser_entry(k, Value::Array(items), 0));
    let x1 = seq!['[', ' '] + k;
    let inner = ser_items(items, 1);
    let x4 = seq![']'];
    let empty = Seq::<char>::empty();
    assert(tabs(0) =~= empty);
    let cl = seq!['\n'] + x4.push('\n');
    assert(text =~= x1.push('\n') + (inner + cl));
    assert forall|j: int| 0 <= j < x1.len() implies #[trigger] x1[j] != '\n' by {
        if j >= 2 {
            assert(x1[j] == k[j - 2]);
        }
    }
    lemma_lines_single(x1);
    assert(strip_cr(x1) == x1) by {
        if k.len() > 0 {
            assert(x1.last() == k.last());
        }
    }
    lemma_lines_single(x4);
    lemma_lines_single(empty);
    assert(empty.push('\n') =~= seq!['\n']);
    lemma_items_lines(items);
    lemma_ser_items_ends(items, 1);
    lemma_lines_append(x1.push('\n'), inner + cl);
    lemma_lines_append(inner, cl);
    lemma_lines_append(seq!['\n'], x4.push('\n'));
    assert(lines_of(text) =~= seq![x1] + element_lines(items) + seq![empty, x4]);
}

/// The lines that a table of strings gives at the outermost level: the key, a
/// space and the string, for each entry in order.
pub open spec fn entry_lines(e: Seq<(Seq<char>, Value)>) -> Seq<Seq<char>> {
    Seq::new(e.len(), |i: int| e[i].0 + seq![' '] + e[i].1->Str_0)
}

/// A table of strings is written one entry to a line, in the order of its
/// entries (for a `Table`, the order of the keys): line `i` is key `i`, a space
/// and string `i`.
pub proof fn law_table_lines(e: Seq<(Seq<char>, Value)>)
    requires
        forall|i: int|
            0 <= i < e.len() ==> (#[trigger] e[i]).1 is Str && one_line(e[i].0 + seq![' '] + e[i].1->Str_0),
    ensures
        serialize(Value::Table(e)) is Some,
        lines_of(serialize(Value::Table(e))->0) == entry_lines(e),
    decreases e.len(),
{
    if e.len() == 0 {
        assert(lines_of(Seq::<char>::empty()) =~= Seq::<Seq<char>>::empty());
        assert(entry_lines(e) =~= Seq::<Seq<char>>::empty());
    } else {
        let p = e.drop_last();
        assert forall|i: int|
            0 <= i < p.len() implies (#[trigger] p[i]).1 is Str && one_line(p[i].0 + seq![' '] + p[i].1->Str_0) by {
            assert(p[i] == e[i]);
        }
        law_table_lines(p);
        let a = ser_entries(p, 0);
        let (k, v) = e.last();
        assert(e[e.len() - 1] == (k, v));
        let x = k + seq![' '] + v->Str_0;
        assert(tabs(0) =~= Seq::<char>::empty());
        assert(ser_entry(k, v, 0) =~= x.push('\n'));
        lemma_lines_single(x);
        assert(strip_cr(x) == x);
        lemma_ser_entries_ends(p, 0);
        lemma_lines_append(a, x.push('\n'));
        assert(entry_lines(e) =~= entry_lines(p).push(x));
    }
}

} // verus!
