//! Reading a tree: the accessors, single-step lookup (`get`) and dot-paths
//! (`path`), with their mutable forms; and the parse errors.
use vstd::prelude::*;
use crate::text::{decimal, parse_index, parse_index_chars, push_decimal, split_dots, split_path,
    str_to_chars, views, chars_to_string};
use crate::tree::{Acon, Value, Table, Array, lookup, find_key, lemma_find_key, values_of,
    lemma_array_view};

verus! {

/// Errors that come about during parsing
#[derive(PartialEq, Clone, Debug)]
pub enum AconError {
    /// Indicates that there are too many closing delimiters compared to opening
    /// delimiters
    ExcessiveClosingDelimiter(Option<usize>),
    /// Acon::String is the top of the stack. This indicates an interal error
    InternalStringTop(Option<usize>),
    /// The stack top is missing, indicating that something popped the top
    MissingStackTop(Option<usize>),
    /// There is more than one top node after parsing the input. Unterminated tables.
    MultipleTopNodes,
    /// If the top node of the stack is an array, this indicates that there's an
    /// unterminated array
    TopNodeIsArray,
    /// The key at this line is already present in the parent table
    OverwritingKey(Option<usize>),
    /// Got a } but expected a ]
    WrongClosingDelimiterExpectedArray(Option<usize>),
    /// Got a ] but expected a }
    WrongClosingDelimiterExpectedTable(Option<usize>),
}

/// The child of `v` that the path segment `seg` names: the element at that
/// index of an array, or the value under that key of a table. A string has no
/// children.
pub open spec fn child(v: Value, seg: Seq<char>) -> Option<Value> {
    match v {
        Value::Array(items) => match parse_index(seg) {
            Some(n) => if n < items.len() {
                Some(items[n as int])
            } else {
                None
            },
            None => None,
        },
        Value::Str(_) => None,
        Value::Table(e) => lookup(e, seg),
    }
}

/// `v` with the child that `seg` names replaced by `c` (unchanged when there
/// is no such child).
pub open spec fn with_child(v: Value, seg: Seq<char>, c: Value) -> Value {
    match v {
        Value::Array(items) => match parse_index(seg) {
            Some(n) => if n < items.len() {
                Value::Array(items.update(n as int, c))
            } else {
                v
            },
            None => v,
        },
        Value::Str(_) => v,
        Value::Table(e) => {
            let f = find_key(e, seg);
            if f < e.len() {
                Value::Table(e.update(f as int, (seg, c)))
            } else {
                v
            }
        },
    }
}

/// The value reached from `v` by following the segments in turn.
pub open spec fn value_at(v: Value, segs: Seq<Seq<char>>) -> Option<Value>
    decreases segs.len(),
{
    if segs.len() == 0 {
        Some(v)
    } else {
        match child(v, segs[0]) {
            Some(c) => value_at(c, segs.drop_first()),
            None => None,
        }
    }
}

/// `v` with the value that the segments reach replaced by `new` (unchanged
/// when they reach none).
pub open spec fn with_value_at(v: Value, segs: Seq<Seq<char>>, new: Value) -> Value
    decreases segs.len(),
{
    if segs.len() == 0 {
        new
    } else {
        match child(v, segs[0]) {
            Some(c) => with_child(v, segs[0], with_value_at(c, segs.drop_first(), new)),
            None => v,
        }
    }
}

/// The opening of an error message: where a line is known, it is named.
pub open spec fn message_start(line: Option<usize>) -> Seq<char> {
    match line {
        Some(l) => "On line "@ + decimal(l as nat) + ", t"@,
        None => "T"@,
    }
}

/// The human-friendly text for each parse error.
pub open spec fn reason_text(e: AconError) -> Seq<char> {
    match e {
        AconError::ExcessiveClosingDelimiter(line) => message_start(line) + "here's a closing delimiter that has no matching opening delimiter. Note that\nall delimiters must be the first word on a line to count as such. The only delimiters are {, }, [, ], and $."@,
        AconError::InternalStringTop(line) => message_start(line) + "here's a string on the top of the internal parse stack. This is impossible unless there is a\nbug in the parser. Please report this along with the input to the repository maintainer of ACON."@,
        AconError::MissingStackTop(line) => message_start(line) + "he top of the stack is missing. This indicates an internal error, as it's never supposed to\nhappen. Please contact the maintainer of the ACON repository."@,
        AconError::MultipleTopNodes => "There is an unterminated table, you can append '$' to the input or try terminating it by finding a flaw in the input."@,
        AconError::TopNodeIsArray => "The top of the stack is an array. This indicates that there is an unterminated array all the way\nuntil the end of the input. Try appending a ']' to the input to see if this solves the issue."@,
        AconError::OverwritingKey(line) => message_start(line) + "he key is already present in the table."@,
        AconError::WrongClosingDelimiterExpectedArray(line) => message_start(line) + "he closing delimiter did not match the array closing delimiter ]. Make sure all delimiters\nmatch up in the input. Some editors can help you by jumping from/to each delimiter."@,
        AconError::WrongClosingDelimiterExpectedTable(line) => message_start(line) + "he closing delimiter did not match the table closing delimiter }. Make sure all delimiters\nuntil the end of the input. Try appending a ']' to the input to see if this solves the issue."@,
    }
}

fn start_message(line: Option<usize>) -> (s: String)
    ensures
        s@ == message_start(line),
{
    let mut s = String::new();
    match line {
        Some(l) => {
            let mut digits: Vec<char> = Vec::new();
            push_decimal(&mut digits, l);
            let d = chars_to_string(&digits);
            s.append("On line ");
            s.append(d.as_str());
            s.append(", t");
        },
        None => {
            s.append("T");
        },
    }
    s
}

impl AconError {
    /// Prints a human-friendly error string for the given parse error.
    pub fn reason(&self) -> (res: String)
        ensures
            res@ == reason_text(*self),
    {
        match self {
            AconError::ExcessiveClosingDelimiter(line) => {
                let mut s = start_message(*line);
                s.append("here's a closing delimiter that has no matching opening delimiter. Note that\nall delimiters must be the first word on a line to count as such. The only delimiters are {, }, [, ], and $.");
                s
            },
            AconError::InternalStringTop(line) => {
                let mut s = start_message(*line);
                s.append("here's a string on the top of the internal parse stack. This is impossible unless there is a\nbug in the parser. Please report this along with the input to the repository maintainer of ACON.");
                s
            },
            AconError::MissingStackTop(line) => {
                let mut s = start_message(*line);
                s.append("he top of the stack is missing. This indicates an internal error, as it's never supposed to\nhappen. Please contact the maintainer of the ACON repository.");
                s
            },
            AconError::MultipleTopNodes => {
                let mut s = String::new();
                s.append("There is an unterminated table, you can append '$' to the input or try terminating it by finding a flaw in the input.");
                s
            },
            AconError::TopNodeIsArray => {
                let mut s = String::new();
                s.append("The top of the stack is an array. This indicates that there is an unterminated array all the way\nuntil the end of the input. Try appending a ']' to the input to see if this solves the issue.");
                s
            },
            AconError::OverwritingKey(line) => {
                let mut s = start_message(*line);
                s.append("he key is already present in the table.");
                s
            },
            AconError::WrongClosingDelimiterExpectedArray(line) => {
                let mut s = start_message(*line);
                s.append("he closing delimiter did not match the array closing delimiter ]. Make sure all delimiters\nmatch up in the input. Some editors can help you by jumping from/to each delimiter.");
                s
            },
            AconError::WrongClosingDelimiterExpectedTable(line) => {
                let mut s = start_message(*line);
                s.append("he closing delimiter did not match the table closing delimiter }. Make sure all delimiters\nuntil the end of the input. Try appending a ']' to the input to see if this solves the issue.");
                s
            },
        }
    }
}

/// Putting back the child that was there changes nothing.
pub proof fn lemma_with_child_same(v: Value, seg: Seq<char>)
    requires
        child(v, seg) is Some,
    ensures
        with_child(v, seg, child(v, seg)->0) == v,
{
    match v {
        Value::Array(items) => {
            let n = parse_index(seg)->0 as int;
            assert(items.update(n, items[n]) =~= items);
        },
        Value::Str(_) => {},
        Value::Table(e) => {
            lemma_find_key(e, seg);
            let f = find_key(e, seg) as int;
            assert(e.update(f, (seg, e[f].1)) =~= e);
        },
    }
}

impl Acon {
    /// The array that this value holds; callers must know that it is an array.
    pub fn array(&self) -> (res: &Array)
        requires
            self is Array,
        ensures
            *self == Acon::Array(*res),
    {
        match self {
            Acon::Array(array) => array,
            _ => {
                proof {
                    assert(false);
                }
                unreached()
            },
        }
    }

    /// The string that this value holds; callers must know that it is a string.
    pub fn string(&self) -> (res: &String)
        requires
            self is String,
        ensures
            *self == Acon::String(*res),
    {
        match self {
            Acon::String(string) => string,
            _ => {
                proof {
                    assert(false);
                }
                unreached()
            },
        }
    }

    /// The table that this value holds; callers must know that it is a table.
    pub fn table(&self) -> (res: &Table)
        requires
            self is Table,
        ensures
            *self == Acon::Table(*res),
    {
        match self {
            Acon::Table(table) => table,
            _ => {
                proof {
                    assert(false);
                }
                unreached()
            },
        }
    }

    pub(crate) fn child_chars(&self, seg: &Vec<char>) -> (res: Option<&Acon>)
        ensures
            match res {
                Some(r) => child(self@, seg@) == Some(r@),
                None => child(self@, seg@) is None,
            },
    {
        match self {
            Acon::Array(array) => {
                proof {
                    lemma_array_view(*array);
                }
                match parse_index_chars(seg) {
                    Some(n) => {
                        if n < array.len() {
                            Some(&array[n])
                        } else {
                            None
                        }
                    },
                    None => None,
                }
            },
            Acon::String(_) => None,
            Acon::Table(table) => table.get_chars(seg),
        }
    }

    /// Retrieve a reference to an entry
    pub fn get(&self, path: &str) -> (res: Option<&Acon>)
        ensures
            match res {
                Some(r) => child(self@, path@) == Some(r@),
                None => child(self@, path@) is None,
            },
    {
        let seg = str_to_chars(path);
        self.child_chars(&seg)
    }

    pub(crate) fn child_mut_chars(&mut self, seg: &Vec<char>) -> (res: Option<&mut Acon>)
        ensures
            match res {
                Some(r) => {
                    &&& child(old(self)@, seg@) == Some((*r)@)
                    &&& final(self)@ == with_child(old(self)@, seg@, (*final(r))@)
                },
                None => {
                    &&& child(old(self)@, seg@) is None
                    &&& final(self)@ == old(self)@
                },
            },
    {
        match self {
            Acon::Array(array) => {
                proof {
                    lemma_array_view(*array);
                }
                match parse_index_chars(seg) {
                    Some(n) => {
                        if n < array.len() {
                            let ghost a = array@;
                            assert forall|w: Vec<Acon>, x: Acon|
                                #![trigger Acon::Array(w)@, x@]
                                w@ == a.update(n as int, x)
                                implies Acon::Array(w)@ == Value::Array(
                                values_of(a).update(n as int, x@),
                            ) by {
                                lemma_array_view(w);
                                assert(values_of(w@) =~= values_of(a).update(n as int, x@));
                            }
                            let r = &mut array[n];
                            Some(r)
                        } else {
                            None
                        }
                    },
                    None => None,
                }
            },
            Acon::String(_) => None,
            Acon::Table(table) => {
                proof {
                    lemma_find_key(table@, seg@);
                }
                table.get_mut_chars(seg)
            },
        }
    }

    /// Retrieve a mutable reference to an entry
    pub fn get_mut(&mut self, path: &str) -> (res: Option<&mut Acon>)
        ensures
            match res {
                Some(r) => {
                    &&& child(old(self)@, path@) == Some((*r)@)
                    &&& final(self)@ == with_child(old(self)@, path@, (*final(r))@)
                },
                None => {
                    &&& child(old(self)@, path@) is None
                    &&& final(self)@ == old(self)@
                },
            },
    {
        let seg = str_to_chars(path);
        self.child_mut_chars(&seg)
    }

    /// Retrieve a reference to an entry via its path
    /// Paths are dot-separated.
    pub fn path(&self, path: &str) -> (res: Option<&Acon>)
        ensures
            match res {
                Some(r) => value_at(self@, split_dots(path@)) == Some(r@),
                None => value_at(self@, split_dots(path@)) is None,
            },
    {
        let chars = str_to_chars(path);
        let segs = split_path(&chars);
        let ghost all = views(segs@);
        let mut current = self;
        let mut i: usize = 0;
        assert(all.skip(0) =~= all);
        while i < segs.len()
            invariant
                i <= segs@.len(),
                all == views(segs@),
                all == split_dots(path@),
                value_at(self@, all) == value_at(current@, all.skip(i as int)),
            decreases segs@.len() - i,
        {
            assert(all.skip(i as int).drop_first() =~= all.skip(i + 1));
            assert(all.skip(i as int)[0] == segs@[i as int]@);
            match current.child_chars(&segs[i]) {
                Some(c) => {
                    current = c;
                },
                None => {
                    return None;
                },
            }
            i = i + 1;
        }
        assert(all.skip(i as int) =~= Seq::<Seq<char>>::empty());
        Some(current)
    }

    fn path_mut_from<'a>(node: &'a mut Acon, segs: &Vec<Vec<char>>, i: usize) -> (res: Option<
        &'a mut Acon,
    >)
        requires
            i <= segs@.len(),
        ensures
            match res {
                Some(r) => {
                    &&& value_at(old(node)@, views(segs@).skip(i as int)) == Some((*r)@)
                    &&& final(node)@ == with_value_at(
                        old(node)@,
                        views(segs@).skip(i as int),
                        (*final(r))@,
                    )
                },
                None => {
                    &&& value_at(old(node)@, views(segs@).skip(i as int)) is None
                    &&& final(node)@ == old(node)@
                },
            },
        decreases segs@.len() - i,
    {
        let ghost rest = views(segs@).skip(i as int);
        if i == segs.len() {
            assert(rest =~= Seq::<Seq<char>>::empty());
            return Some(node);
        }
        assert(rest.drop_first() =~= views(segs@).skip(i + 1));
        assert(rest[0] == segs@[i as int]@);
        proof {
            if child(old(node)@, rest[0]) is Some {
                lemma_with_child_same(old(node)@, rest[0]);
            }
        }
        match node.child_mut_chars(&segs[i]) {
            Some(c) => Acon::path_mut_from(c, segs, i + 1),
            None => None,
        }
    }

    /// Retrieve a mutable reference to an entry via its path.
    /// Paths are dot-separated.
    pub fn path_mut(&mut self, path: &str) -> (res: Option<&mut Acon>)
        ensures
            match res {
                Some(r) => {
                    &&& value_at(old(self)@, split_dots(path@)) == Some((*r)@)
                    &&& final(self)@ == with_value_at(
                        old(self)@,
                        split_dots(path@),
                        (*final(r))@,
                    )
                },
                None => {
                    &&& value_at(old(self)@, split_dots(path@)) is None
                    &&& final(self)@ == old(self)@
                },
            },
    {
        let chars = str_to_chars(path);
        let segs = split_path(&chars);
        assert(views(segs@).skip(0) =~= views(segs@));
        Acon::path_mut_from(self, &segs, 0)
    }
}

} // verus!
