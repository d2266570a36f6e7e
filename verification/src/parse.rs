//! Parsing ACON text into a tree.
//!
//! The text is read line by line. The first word of a line decides what the
//! line does: `{` and `[` open a table or an array (named by the second word),
//! `}` and `]` close the innermost one, `$` closes all of them and `#` makes a
//! comment. Any other line is an entry: in a table the first word is the key
//! and the rest of the words, joined by single spaces, the value; in an array
//! all the words are the value. Empty lines are skipped in tables and are empty
//! strings in arrays.
use vstd::prelude::*;
use crate::text::{words, join, lines_of, line_end, lemma_line_end, strip_cr, views, split_words,
    join_words, find_line_end, str_to_chars, chars_to_string, copy_chars};
use crate::tree::{Acon, Value, Table, lookup, insert_new, lemma_array_view};
use crate::acon::{AconError};

verus! {

/// A level of nesting that is still open: its name and what it holds so far.
pub type Frame = (Seq<char>, Value);

/// The name that a line opening a table or an array gives: its second word,
/// or empty when there is none.
pub open spec fn opening_name(ws: Seq<Seq<char>>) -> Seq<char> {
    if ws.len() > 1 {
        ws[1]
    } else {
        Seq::empty()
    }
}

/// Adds a closed table or array `top` to its parent. An array takes it as a
/// new element (wrapped in a one-entry table under its name when it has
/// one); a table takes it as the entry under its name, which must be new.
pub open spec fn attach(parent: Value, top: Frame, line: usize) -> Result<Value, AconError> {
    match parent {
        Value::Array(items) => Ok(
            Value::Array(
                items.push(
                    if top.0.len() == 0 {
                        top.1
                    } else {
                        Value::Table(seq![(top.0, top.1)])
                    },
                ),
            ),
        ),
        Value::Str(_) => Err(AconError::InternalStringTop(Some(line))),
        Value::Table(e) => if lookup(e, top.0) is Some {
            Err(AconError::OverwritingKey(Some(line)))
        } else {
            Ok(Value::Table(insert_new(e, top.0, top.1)))
        },
    }
}

/// The stack with the value of its top frame replaced.
pub open spec fn replace_top(stack: Seq<Frame>, v: Value) -> Seq<Frame> {
    stack.update(stack.len() - 1, (stack.last().0, v))
}

/// Closes the top frame into the frame below it.
pub open spec fn pop_into_parent(stack: Seq<Frame>, line: usize) -> Result<Seq<Frame>, AconError> {
    let rest = stack.drop_last();
    match attach(rest.last().1, stack.last(), line) {
        Ok(v) => Ok(replace_top(rest, v)),
        Err(e) => Err(e),
    }
}

/// A line whose first word is `}` or `]`: it closes the top frame, which must
/// be of the matching kind and must not be the outermost table.
pub open spec fn close(stack: Seq<Frame>, word: Seq<char>, line: usize) -> Result<
    Seq<Frame>,
    AconError,
> {
    if stack.len() == 0 {
        Err(AconError::MissingStackTop(Some(line)))
    } else {
        let top = stack.last().1;
        if top is Array && word != seq![']'] {
            Err(AconError::WrongClosingDelimiterExpectedArray(Some(line)))
        } else if top is Str && word != seq![']'] {
            Err(AconError::InternalStringTop(Some(line)))
        } else if top is Table && word != seq!['}'] {
            Err(AconError::WrongClosingDelimiterExpectedTable(Some(line)))
        } else if stack.len() == 1 {
            Err(AconError::ExcessiveClosingDelimiter(Some(line)))
        } else {
            pop_into_parent(stack, line)
        }
    }
}

/// A line whose first word is `$`: it closes every frame but the outermost.
pub open spec fn close_all(stack: Seq<Frame>, line: usize) -> Result<Seq<Frame>, AconError>
    decreases stack.len(),
{
    if stack.len() <= 1 {
        Ok(stack)
    } else {
        let rest = stack.drop_last();
        match attach(rest.last().1, stack.last(), line) {
            Ok(v) => close_all(replace_top(rest, v), line),
            Err(e) => Err(e),
        }
    }
}

/// What a line with words `ws`, numbered `line`, does to the stack.
pub open spec fn step(stack: Seq<Frame>, ws: Seq<Seq<char>>, line: usize) -> Result<
    Seq<Frame>,
    AconError,
> {
    if ws.len() > 0 && ws[0] == seq!['{'] {
        Ok(stack.push((opening_name(ws), Value::Table(Seq::empty()))))
    } else if ws.len() > 0 && ws[0] == seq!['['] {
        Ok(stack.push((opening_name(ws), Value::Array(Seq::empty()))))
    } else if ws.len() > 0 && (ws[0] == seq!['}'] || ws[0] == seq![']']) {
        close(stack, ws[0], line)
    } else if ws.len() > 0 && ws[0] == seq!['$'] {
        close_all(stack, line)
    } else if ws.len() > 0 && ws[0] == seq!['#'] {
        Ok(stack)
    } else if stack.len() == 0 {
        Err(AconError::MissingStackTop(Some(line)))
    } else {
        match stack.last().1 {
            Value::Array(items) => Ok(
                replace_top(stack, Value::Array(items.push(Value::Str(join(ws))))),
            ),
            Value::Str(_) => Err(AconError::InternalStringTop(Some(line))),
            Value::Table(e) => if ws.len() == 0 {
                Ok(stack)
            } else if lookup(e, ws[0]) is Some {
                Err(AconError::OverwritingKey(Some(line)))
            } else {
                Ok(
                    replace_top(
                        stack,
                        Value::Table(insert_new(e, ws[0], Value::Str(join(ws.drop_first())))),
                    ),
                )
            },
        }
    }
}

/// The lines applied in turn, the first of them numbered `first`; the first
/// error stops the run.
pub open spec fn run(lines: Seq<Seq<char>>, stack: Seq<Frame>, first: nat) -> Result<
    Seq<Frame>,
    AconError,
>
    decreases lines.len(),
{
    if lines.len() == 0 {
        Ok(stack)
    } else {
        match step(stack, words(lines[0]), first as usize) {
            Ok(s) => run(lines.drop_first(), s, first + 1),
            Err(e) => Err(e),
        }
    }
}

/// The end of the input, after `count` lines: only the outermost table may
/// still be open.
pub open spec fn finish(stack: Seq<Frame>, count: nat) -> Result<Value, AconError> {
    if stack.len() == 0 {
        Err(AconError::MissingStackTop(None))
    } else {
        match stack.last().1 {
            Value::Array(_) => Err(AconError::TopNodeIsArray),
            Value::Str(_) => Err(AconError::InternalStringTop(Some(count as usize))),
            Value::Table(e) => if stack.len() > 1 {
                Err(AconError::MultipleTopNodes)
            } else {
                Ok(Value::Table(e))
            },
        }
    }
}

/// Before the first line only the outermost table, unnamed and empty, is open.
pub open spec fn initial_stack() -> Seq<Frame> {
    seq![(Seq::<char>::empty(), Value::Table(Seq::empty()))]
}

/// What parsing the text `s` gives.
pub open spec fn parse_text(s: Seq<char>) -> Result<Value, AconError> {
    let lines = lines_of(s);
    match run(lines, initial_stack(), 1) {
        Ok(st) => finish(st, lines.len()),
        Err(e) => Err(e),
    }
}

/// An open table or array while parsing.
struct Node {
    name: Vec<char>,
    value: Acon,
}

spec fn frames(stack: Seq<Node>) -> Seq<Frame> {
    Seq::new(stack.len(), |i: int| (stack[i].name@, stack[i].value@))
}

fn is_single(w: &Vec<char>, c: char) -> (res: bool)
    ensures
        res == (w@ == seq![c]),
{
    if w.len() == 1 && w[0] == c {
        assert(w@ =~= seq![c]);
        true
    } else {
        false
    }
}

fn attach_node(parent: Acon, top: Node, line: usize) -> (res: Result<Acon, AconError>)
    ensures
        match res {
            Ok(a) => attach(parent@, (top.name@, top.value@), line) == Ok::<Value, AconError>(a@),
            Err(e) => attach(parent@, (top.name@, top.value@), line) == Err::<Value, AconError>(e),
        },
{
    match parent {
        Acon::Array(items) => {
            let mut items = items;
            let ghost old_items = items@;
            proof {
                lemma_array_view(items);
            }
            if top.name.len() == 0 {
                items.push(top.value);
            } else {
                let mut t = Table::new();
                let ghost name = top.name@;
                let ghost value = top.value@;
                t.insert_absent(top.name, top.value);
                assert(insert_new(Seq::empty(), name, value) =~= seq![(name, value)]);
                items.push(Acon::Table(t));
            }
            proof {
                lemma_array_view(items);
                assert(crate::tree::values_of(items@) =~= crate::tree::values_of(old_items).push(
                    items@.last()@,
                ));
            }
            Ok(Acon::Array(items))
        },
        Acon::String(_) => Err(AconError::InternalStringTop(Some(line))),
        Acon::Table(t) => {
            let mut t = t;
            if t.find(&top.name) < t.len() {
                Err(AconError::OverwritingKey(Some(line)))
            } else {
                t.insert_absent(top.name, top.value);
                Ok(Acon::Table(t))
            }
        },
    }
}

fn pop_into_parent_nodes(stack: &mut Vec<Node>, line: usize) -> (res: Result<(), AconError>)
    requires
        old(stack)@.len() >= 2,
    ensures
        match res {
            Ok(()) => pop_into_parent(frames(old(stack)@), line) == Ok::<Seq<Frame>, AconError>(
                frames(final(stack)@),
            ),
            Err(e) => pop_into_parent(frames(old(stack)@), line) == Err::<Seq<Frame>, AconError>(
                e,
            ),
        },
{
    let ghost f = frames(stack@);
    let top = stack.pop().unwrap();
    let parent = stack.pop().unwrap();
    assert(f.drop_last().last() == (parent.name@, parent.value@));
    assert(f.last() == (top.name@, top.value@));
    match attach_node(parent.value, top, line) {
        Ok(v) => {
            stack.push(Node { name: parent.name, value: v });
            assert(frames(stack@) =~= replace_top(f.drop_last(), v@));
            Ok(())
        },
        Err(e) => Err(e),
    }
}

fn close_nodes(stack: &mut Vec<Node>, word: &Vec<char>, line: usize) -> (res: Result<
    (),
    AconError,
>)
    ensures
        match res {
            Ok(()) => close(frames(old(stack)@), word@, line) == Ok::<Seq<Frame>, AconError>(
                frames(final(stack)@),
            ),
            Err(e) => close(frames(old(stack)@), word@, line) == Err::<Seq<Frame>, AconError>(e),
        },
{
    let n = stack.len();
    if n == 0 {
        return Err(AconError::MissingStackTop(Some(line)));
    }
    let closes_array = is_single(word, ']');
    let closes_table = is_single(word, '}');
    assert(frames(stack@).last().1 == stack@[n - 1].value@);
    match &stack[n - 1].value {
        Acon::Array(_) => {
            if !closes_array {
                return Err(AconError::WrongClosingDelimiterExpectedArray(Some(line)));
            }
        },
        Acon::String(_) => {
            if !closes_array {
                return Err(AconError::InternalStringTop(Some(line)));
            }
        },
        Acon::Table(_) => {
            if !closes_table {
                return Err(AconError::WrongClosingDelimiterExpectedTable(Some(line)));
            }
        },
    }
    if n == 1 {
        return Err(AconError::ExcessiveClosingDelimiter(Some(line)));
    }
    pop_into_parent_nodes(stack, line)
}

fn close_all_nodes(stack: &mut Vec<Node>, line: usize) -> (res: Result<(), AconError>)
    ensures
        match res {
            Ok(()) => close_all(frames(old(stack)@), line) == Ok::<Seq<Frame>, AconError>(
                frames(final(stack)@),
            ),
            Err(e) => close_all(frames(old(stack)@), line) == Err::<Seq<Frame>, AconError>(e),
        },
{
    while stack.len() > 1
        invariant
            close_all(frames(old(stack)@), line) == close_all(frames(stack@), line),
        decreases stack@.len(),
    {
        let ghost before = frames(stack@);
        match pop_into_parent_nodes(stack, line) {
            Ok(()) => {},
            Err(e) => {
                return Err(e);
            },
        }
        assert(frames(stack@).len() == before.len() - 1);
    }
    Ok(())
}

/// Replaces the value of the top node.
fn set_top(stack: &mut Vec<Node>, value: Acon)
    requires
        old(stack)@.len() > 0,
    ensures
        frames(final(stack)@) == replace_top(frames(old(stack)@), value@),
{
    let top = stack.pop().unwrap();
    let ghost vv = value@;
    stack.push(Node { name: top.name, value });
    assert(frames(stack@) =~= replace_top(frames(old(stack)@), vv));
}

fn step_nodes(stack: &mut Vec<Node>, ws: &Vec<Vec<char>>, line: usize) -> (res: Result<
    (),
    AconError,
>)
    ensures
        match res {
            Ok(()) => step(frames(old(stack)@), views(ws@), line) == Ok::<Seq<Frame>, AconError>(
                frames(final(stack)@),
            ),
            Err(e) => step(frames(old(stack)@), views(ws@), line) == Err::<Seq<Frame>, AconError>(
                e,
            ),
        },
{
    let ghost w = views(ws@);
    let ghost f = frames(stack@);
    if ws.len() > 0 {
        assert(w[0] == ws@[0]@);
        let first = &ws[0];
        let opens_table = is_single(first, '{');
        let opens_array = is_single(first, '[');
        if opens_table || opens_array {
            let name = if ws.len() > 1 {
                assert(w[1] == ws@[1]@);
                copy_chars(&ws[1])
            } else {
                Vec::new()
            };
            let value = if opens_table {
                Acon::Table(Table::new())
            } else {
                let v: Vec<Acon> = Vec::new();
                proof {
                    lemma_array_view(v);
                    assert(crate::tree::values_of(v@) =~= Seq::<Value>::empty());
                }
                Acon::Array(v)
            };
            stack.push(Node { name, value });
            assert(frames(stack@) =~= f.push((opening_name(w), value@)));
            return Ok(());
        }
        if is_single(first, '}') || is_single(first, ']') {
            return close_nodes(stack, first, line);
        }
        if is_single(first, '$') {
            return close_all_nodes(stack, line);
        }
        if is_single(first, '#') {
            return Ok(());
        }
    }
    let n = stack.len();
    if n == 0 {
        return Err(AconError::MissingStackTop(Some(line)));
    }
    assert(f.last().1 == stack@[n - 1].value@);
    let top = stack.pop().unwrap();
    match top.value {
        Acon::Array(items) => {
            let mut items = items;
            let ghost old_items = items@;
            proof {
                lemma_array_view(items);
            }
            let text = join_words(ws, 0);
            assert(w.skip(0) =~= w);
            items.push(Acon::String(chars_to_string(&text)));
            proof {
                lemma_array_view(items);
                assert(crate::tree::values_of(items@) =~= crate::tree::values_of(old_items).push(
                    Value::Str(join(w)),
                ));
            }
            stack.push(Node { name: top.name, value: Acon::Array(items) });
            assert(frames(stack@) =~= replace_top(f, Value::Array(
                crate::tree::values_of(old_items).push(Value::Str(join(w))),
            )));
            Ok(())
        },
        Acon::String(_) => Err(AconError::InternalStringTop(Some(line))),
        Acon::Table(t) => {
            let mut t = t;
            if ws.len() == 0 {
                stack.push(Node { name: top.name, value: Acon::Table(t) });
                assert(frames(stack@) =~= f);
                return Ok(());
            }
            if t.find(&ws[0]) < t.len() {
                return Err(AconError::OverwritingKey(Some(line)));
            }
            let ghost old_t = t@;
            let key = copy_chars(&ws[0]);
            let text = join_words(ws, 1);
            assert(w.skip(1) =~= w.drop_first());
            t.insert_absent(key, Acon::String(chars_to_string(&text)));
            stack.push(Node { name: top.name, value: Acon::Table(t) });
            assert(frames(stack@) =~= replace_top(
                f,
                Value::Table(insert_new(old_t, w[0], Value::Str(join(w.drop_first())))),
            ));
            Ok(())
        },
    }
}

fn finish_nodes(stack: Vec<Node>, count: usize) -> (res: Result<Acon, AconError>)
    ensures
        match res {
            Ok(a) => finish(frames(stack@), count as nat) == Ok::<Value, AconError>(a@),
            Err(e) => finish(frames(stack@), count as nat) == Err::<Value, AconError>(e),
        },
{
    let ghost f = frames(stack@);
    let mut stack = stack;
    let n = stack.len();
    if n == 0 {
        return Err(AconError::MissingStackTop(None));
    }
    assert(f.last().1 == stack@[n - 1].value@);
    let top = stack.pop().unwrap();
    match top.value {
        Acon::Array(_) => Err(AconError::TopNodeIsArray),
        Acon::String(_) => Err(AconError::InternalStringTop(Some(count))),
        Acon::Table(t) => {
            if n > 1 {
                Err(AconError::MultipleTopNodes)
            } else {
                Ok(Acon::Table(t))
            }
        },
    }
}

impl Acon {
    /// Parse a string into an Acon value
    pub fn from_str(s: &str) -> (res: Result<Acon, AconError>)
        ensures
            match res {
                Ok(a) => parse_text(s@) == Ok::<Value, AconError>(a@),
                Err(e) => parse_text(s@) == Err::<Value, AconError>(e),
            },
    {
        let chars = str_to_chars(s);
        let mut stack: Vec<Node> = Vec::new();
        stack.push(Node { name: Vec::new(), value: Acon::Table(Table::new()) });
        assert(frames(stack@) =~= initial_stack());
        let ghost all = lines_of(chars@);
        let mut pos: usize = 0;
        let mut line: usize = 0;
        assert(chars@.skip(0) =~= chars@);
        while pos < chars.len()
            invariant
                pos <= chars@.len(),
                line <= pos,
                all == lines_of(chars@),
                chars@ == s@,
                run(all, initial_stack(), 1) == run(
                    lines_of(chars@.skip(pos as int)),
                    frames(stack@),
                    line as nat + 1,
                ),
                all.len() == line + lines_of(chars@.skip(pos as int)).len(),
            decreases chars@.len() - pos,
        {
            let ghost t = chars@.skip(pos as int);
            let end = find_line_end(&chars, pos);
            proof {
                lemma_line_end(t);
            }
            let mut stop = end;
            if end < chars.len() && end > pos && chars[end - 1] == '\r' {
                stop = end - 1;
            }
            let ghost n = line_end(t);
            let ghost this_line = if n < t.len() {
                strip_cr(t.take(n as int))
            } else {
                t
            };
            assert(this_line =~= chars@.subrange(pos as int, stop as int)) by {
                if n < t.len() {
                    assert(t.take(n as int) =~= chars@.subrange(pos as int, end as int));
                    if end > pos && chars@[end - 1] == '\r' {
                        assert(t.take(n as int).last() == chars@[end - 1]);
                    }
                    if !(end > pos) {
                        assert(t.take(n as int).len() == 0);
                    }
                }
            }
            let ghost rest = if n < t.len() {
                t.skip(n as int + 1)
            } else {
                Seq::<char>::empty()
            };
            assert(lines_of(t) =~= seq![this_line] + lines_of(rest));
            line = line + 1;
            let ws = split_words(&chars, pos, stop);
            match step_nodes(&mut stack, &ws, line) {
                Ok(()) => {},
                Err(e) => {
                    assert((seq![this_line] + lines_of(rest)).drop_first() =~= lines_of(rest));
                    return Err(e);
                },
            }
            assert((seq![this_line] + lines_of(rest)).drop_first() =~= lines_of(rest));
            if end < chars.len() {
                pos = end + 1;
                assert(rest =~= chars@.skip(pos as int));
            } else {
                pos = chars.len();
                assert(chars@.skip(pos as int) =~= Seq::<char>::empty());
            }
        }
        assert(chars@.skip(pos as int) =~= Seq::<char>::empty());
        finish_nodes(stack, line)
    }
}

impl std::str::FromStr for Acon {
    type Err = AconError;

    /// Parse a string into an Acon value
    fn from_str(s: &str) -> (res: Result<Acon, AconError>)
        ensures
            match res {
                Ok(a) => parse_text(s@) == Ok::<Value, AconError>(a@),
                Err(e) => parse_text(s@) == Err::<Value, AconError>(e),
            },
    {
        Acon::from_str(s)
    }
}

// ---------------------------------------------------------------------------
// Runs of lines

/// Running two lists of lines is running the first, then the second from
/// where the first left off.
pub proof fn lemma_run_append(l1: Seq<Seq<char>>, l2: Seq<Seq<char>>, st: Seq<Frame>, n: nat)
    ensures
        run(l1 + l2, st, n) == match run(l1, st, n) {
            Ok(s) => run(l2, s, n + l1.len()),
            Err(e) => Err(e),
        },
    decreases l1.len(),
{
    if l1.len() == 0 {
        assert(l1 + l2 =~= l2);
    } else {
        assert((l1 + l2)[0] == l1[0]);
        assert((l1 + l2).drop_first() =~= l1.drop_first() + l2);
        match step(st, words(l1[0]), n as usize) {
            Ok(s) => {
                lemma_run_append(l1.drop_first(), l2, s, n + 1);
            },
            Err(_) => {},
        }
    }
}

/// Running one line is one step.
pub proof fn lemma_run_one(l: Seq<char>, st: Seq<Frame>, n: nat)
    ensures
        run(seq![l], st, n) == step(st, words(l), n as usize),
{
    assert(seq![l][0] == l);
    assert(seq![l].drop_first() =~= Seq::<Seq<char>>::empty());
    match step(st, words(l), n as usize) {
        Ok(s) => {
            assert(run(Seq::<Seq<char>>::empty(), s, n + 1) == Ok::<
                Seq<Frame>,
                crate::acon::AconError,
            >(s));
        },
        Err(_) => {},
    }
}

} // verus!
