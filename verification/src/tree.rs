//! The ACON tree: its executable types `Acon` and `Table`, the mathematical
//! `Value` they stand for, and the ordered table of keys.
use vstd::prelude::*;
use crate::text::{chars_equal, chars_to_string, copy_chars, str_to_chars};

verus! {

/// What an ACON tree means: an array of values, a string, or a table whose
/// entries are listed in increasing order of their keys.
pub enum Value {
    Array(Seq<Value>),
    Str(Seq<char>),
    Table(Seq<(Seq<char>, Value)>),
}

/// Vec of Acon values
pub type Array = Vec<Acon>;

/// Enumeration over all variable types in ACON
#[derive(PartialEq, Debug)]
pub enum Acon {
    /// Array type contains a Vec of Acon
    Array(Array),
    /// String type contains a simple std::string::String
    String(String),
    /// Table maps keys to Acon values, kept in increasing order of the keys
    Table(Table),
}

/// A map from string keys to Acon values, with its entries in increasing
/// order of their keys (the order in which a `BTreeMap<String, _>` holds them).
#[derive(PartialEq, Debug)]
pub struct Table {
    pub(crate) keys: Vec<Vec<char>>,
    pub(crate) values: Vec<Acon>,
}

impl View for Table {
    type V = Seq<(Seq<char>, Value)>;

    /// The entries of the table, keys with their values.
    closed spec fn view(&self) -> Seq<(Seq<char>, Value)>
        decreases self,
    {
        Seq::new(
            self.keys.len() as nat,
            |i: int|
                if 0 <= i < self.keys.len() && i < self.values.len() {
                    (self.keys[i]@, self.values[i].view())
                } else {
                    (Seq::empty(), Value::Str(Seq::empty()))
                },
        )
    }
}

impl Table {
    /// Every key has its value, and the keys are in strictly increasing
    /// order, so that each occurs once.
    #[verifier::type_invariant]
    pub(crate) closed spec fn keys_in_order(self) -> bool {
        &&& self.keys@.len() == self.values@.len()
        &&& forall|i: int, j: int|
            0 <= i < j < self.keys@.len() ==> key_lt(
                #[trigger] self.keys@[i]@,
                #[trigger] self.keys@[j]@,
            )
    }

    /// The entries of the table, as the view sees them.
    pub(crate) proof fn lemma_view(&self)
        requires
            self.keys_in_order(),
        ensures
            self@.len() == self.keys@.len(),
            self@.len() == self.values@.len(),
            forall|i: int|
                0 <= i < self.keys@.len() ==> #[trigger] self@[i] == (
                    self.keys@[i]@,
                    self.values@[i].view(),
                ),
            keys_sorted(self@),
    {
        assert forall|i: int, j: int| 0 <= i < j < self@.len() implies key_lt(
            #[trigger] self@[i].0,
            #[trigger] self@[j].0,
        ) by {
            assert(self@[i].0 == self.keys@[i]@);
            assert(self@[j].0 == self.keys@[j]@);
        }
    }
}

impl View for Acon {
    type V = Value;

    /// The value that this tree stands for.
    open spec fn view(&self) -> Value
        decreases self,
    {
        match self {
            Acon::Array(v) => Value::Array(
                Seq::new(
                    v.len() as nat,
                    |i: int|
                        if 0 <= i < v.len() {
                            v[i].view()
                        } else {
                            Value::Str(Seq::empty())
                        },
                ),
            ),
            Acon::String(s) => Value::Str(s@),
            Acon::Table(t) => Value::Table(t.view()),
        }
    }
}

/// The values of a vector of trees.
pub open spec fn values_of(v: Seq<Acon>) -> Seq<Value> {
    Seq::new(v.len(), |i: int| v[i]@)
}

/// The value of an array is the values of its elements.
pub proof fn lemma_array_view(v: Vec<Acon>)
    ensures
        Acon::Array(v)@ == Value::Array(values_of(v@)),
{
    assert(Acon::Array(v)@->Array_0 =~= values_of(v@));
}

/// Strict order of keys: lexicographic by code point, which is the order of
/// `String`'s `Ord` (UTF-8 keeps the order of code points).
pub open spec fn key_lt(a: Seq<char>, b: Seq<char>) -> bool
    decreases a.len(),
{
    if b.len() == 0 {
        false
    } else if a.len() == 0 {
        true
    } else if a[0] != b[0] {
        a[0] < b[0]
    } else {
        key_lt(a.drop_first(), b.drop_first())
    }
}

/// No key is smaller than itself.
pub proof fn lemma_key_lt_irreflexive(a: Seq<char>)
    ensures
        !key_lt(a, a),
    decreases a.len(),
{
    if a.len() > 0 {
        lemma_key_lt_irreflexive(a.drop_first());
    }
}

/// The order of keys is transitive.
pub proof fn lemma_key_lt_transitive(a: Seq<char>, b: Seq<char>, c: Seq<char>)
    requires
        key_lt(a, b),
        key_lt(b, c),
    ensures
        key_lt(a, c),
    decreases a.len(),
{
    if a.len() > 0 && b.len() > 0 && c.len() > 0 && a[0] == b[0] && b[0] == c[0] {
        lemma_key_lt_transitive(a.drop_first(), b.drop_first(), c.drop_first());
    }
}

/// Two different keys are ordered one way or the other.
pub proof fn lemma_key_lt_total(a: Seq<char>, b: Seq<char>)
    requires
        a != b,
    ensures
        key_lt(a, b) || key_lt(b, a),
    decreases a.len(),
{
    if a.len() > 0 && b.len() > 0 && a[0] == b[0] {
        if a.drop_first() == b.drop_first() {
            assert(a =~= seq![a[0]] + a.drop_first());
            assert(b =~= seq![b[0]] + b.drop_first());
        }
        lemma_key_lt_total(a.drop_first(), b.drop_first());
    } else if a.len() == 0 && b.len() == 0 {
        assert(a =~= b);
    } else if a.len() > 0 && b.len() > 0 {
        assert(a[0] < b[0] || b[0] < a[0]);
    }
}

/// The keys are in strictly increasing order (so no key occurs twice).
pub open spec fn keys_sorted(e: Seq<(Seq<char>, Value)>) -> bool {
    forall|i: int, j: int| 0 <= i < j < e.len() ==> key_lt(#[trigger] e[i].0, #[trigger] e[j].0)
}

/// The index of the first entry with key `k`, or the number of entries when
/// there is none.
pub open spec fn find_key(e: Seq<(Seq<char>, Value)>, k: Seq<char>) -> nat
    decreases e.len(),
{
    if e.len() == 0 || e[0].0 == k {
        0
    } else {
        1 + find_key(e.drop_first(), k)
    }
}

/// `find_key` is the index of the first entry with the key, or the length.
pub proof fn lemma_find_key(e: Seq<(Seq<char>, Value)>, k: Seq<char>)
    ensures
        find_key(e, k) <= e.len(),
        forall|j: int| 0 <= j < find_key(e, k) ==> e[j].0 != k,
        find_key(e, k) < e.len() ==> e[find_key(e, k) as int].0 == k,
    decreases e.len(),
{
    if e.len() > 0 && e[0].0 != k {
        lemma_find_key(e.drop_first(), k);
        assert forall|j: int| 0 <= j < find_key(e, k) implies e[j].0 != k by {
            if j > 0 {
                assert(e[j] == e.drop_first()[j - 1]);
            }
        }
    }
}

/// The value held under key `k`.
pub open spec fn lookup(e: Seq<(Seq<char>, Value)>, k: Seq<char>) -> Option<Value> {
    let f = find_key(e, k);
    if f < e.len() {
        Some(e[f as int].1)
    } else {
        None
    }
}

/// Where a new key `k` goes: before the first entry whose key is not smaller.
pub open spec fn insert_pos(e: Seq<(Seq<char>, Value)>, k: Seq<char>) -> nat
    decreases e.len(),
{
    if e.len() == 0 || !key_lt(e[0].0, k) {
        0
    } else {
        1 + insert_pos(e.drop_first(), k)
    }
}

/// `insert_pos` is the index of the first entry whose key is not smaller, or
/// the length.
pub proof fn lemma_insert_pos(e: Seq<(Seq<char>, Value)>, k: Seq<char>)
    ensures
        insert_pos(e, k) <= e.len(),
        forall|j: int| 0 <= j < insert_pos(e, k) ==> key_lt(e[j].0, k),
        insert_pos(e, k) < e.len() ==> !key_lt(e[insert_pos(e, k) as int].0, k),
    decreases e.len(),
{
    if e.len() > 0 && key_lt(e[0].0, k) {
        lemma_insert_pos(e.drop_first(), k);
        assert forall|j: int| 0 <= j < insert_pos(e, k) implies key_lt(e[j].0, k) by {
            if j > 0 {
                assert(e[j] == e.drop_first()[j - 1]);
            }
        }
    }
}

/// The entries with a new entry `(k, v)` in its place in the order.
pub open spec fn insert_new(e: Seq<(Seq<char>, Value)>, k: Seq<char>, v: Value) -> Seq<
    (Seq<char>, Value),
> {
    e.insert(insert_pos(e, k) as int, (k, v))
}

/// The entries after `k` is set to `v`: its value replaced where the key is
/// present, else a new entry.
pub open spec fn table_insert(e: Seq<(Seq<char>, Value)>, k: Seq<char>, v: Value) -> Seq<
    (Seq<char>, Value),
> {
    let f = find_key(e, k);
    if f < e.len() {
        e.update(f as int, (k, v))
    } else {
        insert_new(e, k, v)
    }
}

/// Inserting a key that is absent keeps the keys sorted.
pub proof fn lemma_insert_new_sorted(e: Seq<(Seq<char>, Value)>, k: Seq<char>, v: Value)
    requires
        keys_sorted(e),
        lookup(e, k) is None,
    ensures
        keys_sorted(insert_new(e, k, v)),
{
    lemma_insert_pos(e, k);
    lemma_find_key(e, k);
    let p = insert_pos(e, k) as int;
    let r = insert_new(e, k, v);
    assert forall|j: int| p < j < r.len() implies key_lt(k, #[trigger] r[j].0) by {
        assert(r[j] == e[j - 1]);
        if !key_lt(e[p].0, k) {
            if e[p].0 == k {
                assert(false);
            }
            lemma_key_lt_total(e[p].0, k);
            if j - 1 > p {
                lemma_key_lt_transitive(k, e[p].0, e[j - 1].0);
            }
        }
    }
    assert forall|i: int, j: int| 0 <= i < j < r.len() implies key_lt(
        #[trigger] r[i].0,
        #[trigger] r[j].0,
    ) by {
        if j < p {
        } else if j == p {
        } else if i < p {
            lemma_key_lt_transitive(r[i].0, k, r[j].0);
        } else if i == p {
        } else {
            assert(r[i] == e[i - 1]);
            assert(r[j] == e[j - 1]);
        }
    }
}

/// Setting a key keeps the keys sorted.
pub proof fn lemma_table_insert_sorted(e: Seq<(Seq<char>, Value)>, k: Seq<char>, v: Value)
    requires
        keys_sorted(e),
    ensures
        keys_sorted(table_insert(e, k, v)),
{
    lemma_find_key(e, k);
    if find_key(e, k) < e.len() {
        let r = table_insert(e, k, v);
        assert forall|i: int, j: int| 0 <= i < j < r.len() implies key_lt(
            #[trigger] r[i].0,
            #[trigger] r[j].0,
        ) by {
            assert(r[i].0 == e[i].0);
            assert(r[j].0 == e[j].0);
        }
    } else {
        lemma_insert_new_sorted(e, k, v);
    }
}

/// Compares two keys in the order of `key_lt`.
pub fn key_less(a: &Vec<char>, b: &Vec<char>) -> (res: bool)
    ensures
        res == key_lt(a@, b@),
{
    let mut i: usize = 0;
    assert(a@.skip(0) =~= a@);
    assert(b@.skip(0) =~= b@);
    while i < a.len() && i < b.len() && a[i] == b[i]
        invariant
            i <= a@.len(),
            i <= b@.len(),
            key_lt(a@, b@) == key_lt(a@.skip(i as int), b@.skip(i as int)),
        decreases a@.len() - i,
    {
        assert(a@.skip(i as int).drop_first() =~= a@.skip(i + 1));
        assert(b@.skip(i as int).drop_first() =~= b@.skip(i + 1));
        i = i + 1;
    }
    if i == b.len() {
        false
    } else if i == a.len() {
        true
    } else {
        assert(a@.skip(i as int)[0] == a@[i as int]);
        assert(b@.skip(i as int)[0] == b@[i as int]);
        a[i] < b[i]
    }
}

impl Table {
    /// An empty table.
    pub fn new() -> (t: Table)
        ensures
            t@ == Seq::<(Seq<char>, Value)>::empty(),
    {
        let t = Table { keys: Vec::new(), values: Vec::new() };
        assert(t@ =~= Seq::<(Seq<char>, Value)>::empty());
        t
    }

    /// The number of entries.
    pub fn len(&self) -> (n: usize)
        ensures
            n == self@.len(),
    {
        self.keys.len()
    }

    /// Whether the table has no entries.
    pub fn is_empty(&self) -> (b: bool)
        ensures
            b == (self@.len() == 0),
    {
        self.keys.len() == 0
    }

    /// The index of the entry with key `key`, or the number of entries.
    pub(crate) fn find(&self, key: &Vec<char>) -> (i: usize)
        ensures
            i == find_key(self@, key@),
    {
        let ghost e = self@;
        proof {
            lemma_find_key(e, key@);
        }
        proof {
            use_type_invariant(self);
            self.lemma_view();
        }
        let mut i: usize = 0;
        while i < self.keys.len()
            invariant
                e == self@,
                e.len() == self.keys@.len(),
                i <= e.len(),
                forall|j: int| 0 <= j < i ==> e[j].0 != key@,
                forall|j: int| 0 <= j < e.len() ==> e[j].0 == self.keys@[j]@,
            decreases e.len() - i,
        {
            if chars_equal(&self.keys[i], key) {
                assert(e[i as int].0 == key@);
                proof {
                    lemma_find_key(e, key@);
                }
                return i;
            }
            i = i + 1;
        }
        proof {
            lemma_find_key(e, key@);
        }
        i
    }

    /// Where a new key `key` goes in the order.
    pub(crate) fn position(&self, key: &Vec<char>) -> (i: usize)
        ensures
            i == insert_pos(self@, key@),
    {
        let ghost e = self@;
        proof {
            lemma_insert_pos(e, key@);
        }
        proof {
            use_type_invariant(self);
            self.lemma_view();
        }
        let mut i: usize = 0;
        while i < self.keys.len()
            invariant
                e == self@,
                e.len() == self.keys@.len(),
                i <= e.len(),
                forall|j: int| 0 <= j < i ==> key_lt(e[j].0, key@),
                forall|j: int| 0 <= j < e.len() ==> e[j].0 == self.keys@[j]@,
            decreases e.len() - i,
        {
            if !key_less(&self.keys[i], key) {
                proof {
                    lemma_insert_pos(e, key@);
                    let p = insert_pos(e, key@) as int;
                    assert(!key_lt(e[i as int].0, key@));
                    if p < i {
                        assert(key_lt(e[p].0, key@));
                    }
                    if p > i {
                        assert(key_lt(e[i as int].0, key@));
                    }
                }
                return i;
            }
            i = i + 1;
        }
        proof {
            lemma_insert_pos(e, key@);
        }
        i
    }

    /// Whether an entry has key `key`.
    pub fn contains_key(&self, key: &str) -> (b: bool)
        ensures
            b == (lookup(self@, key@) is Some),
    {
        let k = str_to_chars(key);
        self.find(&k) < self.keys.len()
    }

    /// The value under key `key`.
    pub fn get(&self, key: &str) -> (res: Option<&Acon>)
        ensures
            match res {
                Some(r) => lookup(self@, key@) == Some(r@),
                None => lookup(self@, key@) is None,
            },
    {
        let k = str_to_chars(key);
        self.get_chars(&k)
    }

    pub(crate) fn get_chars(&self, key: &Vec<char>) -> (res: Option<&Acon>)
        ensures
            match res {
                Some(r) => lookup(self@, key@) == Some(r@),
                None => lookup(self@, key@) is None,
            },
    {
        let i = self.find(key);
        proof {
            use_type_invariant(self);
            self.lemma_view();
        }
        if i < self.keys.len() {
            Some(&self.values[i])
        } else {
            None
        }
    }

    /// A mutable reference to the value under key `key`.
    pub fn get_mut(&mut self, key: &str) -> (res: Option<&mut Acon>)
        ensures
            match res {
                Some(r) => {
                    &&& lookup(old(self)@, key@) == Some((*r)@)
                    &&& final(self)@ == old(self)@.update(
                        find_key(old(self)@, key@) as int,
                        (key@, (*final(r))@),
                    )
                },
                None => {
                    &&& lookup(old(self)@, key@) is None
                    &&& final(self)@ == old(self)@
                },
            },
    {
        let k = str_to_chars(key);
        self.get_mut_chars(&k)
    }

    pub(crate) fn get_mut_chars(&mut self, key: &Vec<char>) -> (res: Option<&mut Acon>)
        ensures
            match res {
                Some(r) => {
                    &&& lookup(old(self)@, key@) == Some((*r)@)
                    &&& final(self)@ == old(self)@.update(
                        find_key(old(self)@, key@) as int,
                        (key@, (*final(r))@),
                    )
                },
                None => {
                    &&& lookup(old(self)@, key@) is None
                    &&& final(self)@ == old(self)@
                },
            },
    {
        let i = self.find(key);
        proof {
            lemma_find_key(old(self)@, key@);
        }
        proof {
            use_type_invariant(&*self);
            self.lemma_view();
        }
        if i < self.keys.len() {
            let r = &mut self.values[i];
            Some(r)
        } else {
            None
        }
    }

    /// Adds an entry whose key is not yet present, in its place in the order.
    pub(crate) fn insert_absent(&mut self, key: Vec<char>, value: Acon)
        requires
            lookup(old(self)@, key@) is None,
        ensures
            final(self)@ == insert_new(old(self)@, key@, value@),
    {
        proof {
            use_type_invariant(&*self);
            lemma_insert_pos(old(self)@, key@);
            lemma_insert_new_sorted(old(self)@, key@, value@);
        }
        let p = self.position(&key);
        let ghost kv = key@;
        let ghost vv = value@;
        let mut t = Table::new();
        std::mem::swap(&mut t, self);
        let Table { mut keys, mut values } = t;
        proof {
            old(self).lemma_view();
        }
        keys.insert(p, key);
        values.insert(p, value);
        let ghost nt = Table { keys: keys, values: values };
        assert(nt@ =~= insert_new(old(self)@, kv, vv));
        proof {
            assert forall|i: int, j: int| 0 <= i < j < keys@.len() implies key_lt(
                #[trigger] keys@[i]@,
                #[trigger] keys@[j]@,
            ) by {
                assert(keys@[i]@ == nt@[i].0);
                assert(keys@[j]@ == nt@[j].0);
            }
        }
        *self = Table { keys, values };
    }

    /// Sets key `key` to `value`; returns the value it replaced, if any (as
    /// `BTreeMap::insert` does).
    pub fn insert(&mut self, key: String, value: Acon) -> (res: Option<Acon>)
        ensures
            final(self)@ == table_insert(old(self)@, key@, value@),
            match res {
                Some(o) => lookup(old(self)@, key@) == Some(o@),
                None => lookup(old(self)@, key@) is None,
            },
            keys_sorted(final(self)@),
    {
        proof {
            use_type_invariant(&*self);
            lemma_table_insert_sorted(old(self)@, key@, value@);
            lemma_find_key(old(self)@, key@);
        }
        let k = str_to_chars(key.as_str());
        let i = self.find(&k);
        if i < self.keys.len() {
            let ghost kv = k@;
            let ghost vv = value@;
            let mut t = Table::new();
            std::mem::swap(&mut t, self);
            let Table { keys, mut values } = t;
            proof {
                old(self).lemma_view();
            }
            let old_value = values.remove(i);
            values.insert(i, value);
            let ghost nt = Table { keys: keys, values: values };
            assert(nt@ =~= table_insert(old(self)@, kv, vv));
            *self = Table { keys, values };
            Some(old_value)
        } else {
            self.insert_absent(k, value);
            proof {
                use_type_invariant(&*self);
            }
            None
        }
    }

    /// Removes the entry with key `key`; returns its value, if there was one
    /// (as `BTreeMap::remove` does).
    pub fn remove(&mut self, key: &str) -> (res: Option<Acon>)
        ensures
            match res {
                Some(o) => {
                    &&& lookup(old(self)@, key@) == Some(o@)
                    &&& final(self)@ == old(self)@.remove(find_key(old(self)@, key@) as int)
                },
                None => {
                    &&& lookup(old(self)@, key@) is None
                    &&& final(self)@ == old(self)@
                },
            },
    {
        let k = str_to_chars(key);
        let i = self.find(&k);
        proof {
            use_type_invariant(&*self);
            self.lemma_view();
        }
        if i < self.keys.len() {
            let mut t = Table::new();
            std::mem::swap(&mut t, self);
            let Table { mut keys, mut values } = t;
            let ghost ok = keys@;
            keys.remove(i);
            let old_value = values.remove(i);
            let ghost nt = Table { keys: keys, values: values };
            assert(nt@ =~= old(self)@.remove(i as int));
            proof {
                assert forall|a: int, b: int| 0 <= a < b < keys@.len() implies key_lt(
                    #[trigger] keys@[a]@,
                    #[trigger] keys@[b]@,
                ) by {
                    let a0 = if a < i { a } else { a + 1 };
                    let b0 = if b < i { b } else { b + 1 };
                    assert(keys@[a] == ok[a0]);
                    assert(keys@[b] == ok[b0]);
                }
            }
            *self = Table { keys, values };
            Some(old_value)
        } else {
            None
        }
    }

    /// The key of the entry at `i`, in the order of the keys.
    pub fn key_at(&self, i: usize) -> (k: String)
        requires
            i < self@.len(),
        ensures
            k@ == self@[i as int].0,
    {
        proof {
            use_type_invariant(self);
            self.lemma_view();
        }
        chars_to_string(&self.keys[i])
    }

    /// The value of the entry at `i`, in the order of the keys.
    pub fn value_at(&self, i: usize) -> (v: &Acon)
        requires
            i < self@.len(),
        ensures
            v@ == self@[i as int].1,
    {
        proof {
            use_type_invariant(self);
            self.lemma_view();
        }
        &self.values[i]
    }
}

impl Acon {
    /// A copy of the tree, built node by node.
    pub fn deep_copy(&self) -> (res: Acon)
        ensures
            res@ == self@,
        decreases self,
    {
        match self {
            Acon::Array(items) => {
                let mut copy: Vec<Acon> = Vec::new();
                let mut i: usize = 0;
                proof {
                    lemma_array_view(*items);
                }
                while i < items.len()
                    invariant
                        i <= items@.len(),
                        *self == Acon::Array(*items),
                        values_of(copy@) == values_of(items@).take(i as int),
                    decreases items@.len() - i,
                {
                    assert(decreases_to!(*self => self->Array_0));
                    assert(decreases_to!(*items => items[i as int]));
                    let c = items[i].deep_copy();
                    let ghost before = copy@;
                    copy.push(c);
                    assert(values_of(copy@) =~= values_of(items@).take(i + 1)) by {
                        assert(values_of(copy@) =~= values_of(before).push(c@));
                    }
                    i = i + 1;
                }
                assert(values_of(items@).take(i as int) =~= values_of(items@));
                proof {
                    lemma_array_view(copy);
                }
                Acon::Array(copy)
            },
            Acon::String(s) => {
                let chars = str_to_chars(s.as_str());
                Acon::String(chars_to_string(&chars))
            },
            Acon::Table(t) => {
                assert(decreases_to!(*self => self->Table_0));
                Acon::Table(t.deep_copy())
            },
        }
    }
}

impl Table {
    /// A copy of the table, built entry by entry.
    pub fn deep_copy(&self) -> (res: Table)
        ensures
            res@ == self@,
        decreases self,
    {
        proof {
            use_type_invariant(self);
            self.lemma_view();
        }
        let mut keys: Vec<Vec<char>> = Vec::new();
        let mut values: Vec<Acon> = Vec::new();
        let mut i: usize = 0;
        while i < self.keys.len()
            invariant
                i <= self.keys@.len(),
                self.keys@.len() == self.values@.len(),
                keys@.len() == i,
                values@.len() == i,
                forall|j: int| 0 <= j < i ==> (#[trigger] keys@[j])@ == self.keys@[j]@,
                forall|j: int| 0 <= j < i ==> (#[trigger] values@[j])@ == self.values@[j]@,
            decreases self.keys@.len() - i,
        {
            assert(decreases_to!(*self => self.values));
            assert(decreases_to!(self.values => self.values[i as int]));
            let key = copy_chars(&self.keys[i]);
            let value = self.values[i].deep_copy();
            keys.push(key);
            values.push(value);
            i = i + 1;
        }
        let ghost nt = Table { keys: keys, values: values };
        assert(nt@ =~= self@);
        proof {
            assert forall|a: int, b: int| 0 <= a < b < keys@.len() implies key_lt(
                #[trigger] keys@[a]@,
                #[trigger] keys@[b]@,
            ) by {
                assert(keys@[a]@ == self.keys@[a]@);
                assert(keys@[b]@ == self.keys@[b]@);
            }
        }
        Table { keys, values }
    }
}

impl Clone for Acon {
    fn clone(&self) -> (res: Self)
        ensures
            res@ == self@,
    {
        self.deep_copy()
    }
}

impl Clone for Table {
    fn clone(&self) -> (res: Self)
        ensures
            res@ == self@,
    {
        self.deep_copy()
    }
}

impl Value {
    /// Every table in the value has its keys in strictly increasing order.
    pub open spec fn wf(self) -> bool
        decreases self,
    {
        match self {
            Value::Array(items) => forall|i: int| 0 <= i < items.len() ==> (#[trigger] items[i]).wf(),
            Value::Str(_) => true,
            Value::Table(e) => keys_sorted(e) && forall|i: int|
                0 <= i < e.len() ==> (#[trigger] e[i]).1.wf(),
        }
    }
}

} // verus!
