//! Character-level text handling: whitespace, words, lines, dot-separated
//! paths, decimal numbers and the conversions between `str`, `String` and
//! character vectors.
use vstd::prelude::*;

verus! {

/// Unicode `White_Space`, the set that `char::is_whitespace` tests.
pub open spec fn is_space(c: char) -> bool {
    let n = c as u32;
    ||| n == 0x20
    ||| 0x09 <= n && n <= 0x0d
    ||| n == 0x85
    ||| n == 0xa0
    ||| n == 0x1680
    ||| 0x2000 <= n && n <= 0x200a
    ||| n == 0x2028
    ||| n == 0x2029
    ||| n == 0x202f
    ||| n == 0x205f
    ||| n == 0x3000
}

/// Tests whether `c` is Unicode whitespace.
pub fn is_whitespace(c: char) -> (res: bool)
    ensures
        res == is_space(c),
{
    let n = c as u32;
    n == 0x20 || (0x09 <= n && n <= 0x0d) || n == 0x85 || n == 0xa0 || n == 0x1680 || (0x2000
        <= n && n <= 0x200a) || n == 0x2028 || n == 0x2029 || n == 0x202f || n == 0x205f || n
        == 0x3000
}

/// The words of `s`: its maximal runs of non-whitespace characters, in order
/// (what `str::split_whitespace` yields).
pub open spec fn words(s: Seq<char>) -> Seq<Seq<char>>
    decreases s.len(),
{
    if s.len() == 0 {
        Seq::empty()
    } else if is_space(s.last()) {
        words(s.drop_last())
    } else if s.len() >= 2 && !is_space(s[s.len() - 2]) {
        let w = words(s.drop_last());
        w.update(w.len() - 1, w.last().push(s.last()))
    } else {
        words(s.drop_last()).push(seq![s.last()])
    }
}

/// Words joined by single spaces.
pub open spec fn join(ws: Seq<Seq<char>>) -> Seq<char>
    decreases ws.len(),
{
    if ws.len() == 0 {
        Seq::empty()
    } else if ws.len() == 1 {
        ws[0]
    } else {
        join(ws.drop_last()) + seq![' '] + ws.last()
    }
}

/// The character sequences held by a vector of character vectors.
pub open spec fn views(v: Seq<Vec<char>>) -> Seq<Seq<char>> {
    Seq::new(v.len(), |i: int| v[i]@)
}

/// A text that ends in a non-whitespace character has at least one word.
pub proof fn lemma_words_nonempty(s: Seq<char>)
    requires
        s.len() > 0,
        !is_space(s.last()),
    ensures
        words(s).len() > 0,
    decreases s.len(),
{
    if s.len() >= 2 && !is_space(s[s.len() - 2]) {
        lemma_words_nonempty(s.drop_last());
    }
}

/// Splits `line[start..end]` into its words.
pub fn split_words(line: &Vec<char>, start: usize, end: usize) -> (res: Vec<Vec<char>>)
    requires
        start <= end <= line@.len(),
    ensures
        views(res@) == words(line@.subrange(start as int, end as int)),
{
    let mut res: Vec<Vec<char>> = Vec::new();
    let mut i = start;
    let mut in_word = false;
    while i < end
        invariant
            start <= i <= end <= line@.len(),
            views(res@) == words(line@.subrange(start as int, i as int)),
            in_word == (i > start && !is_space(line@[i - 1])),
        decreases end - i,
    {
        let c = line[i];
        let ghost prev = line@.subrange(start as int, i as int);
        let ghost next = line@.subrange(start as int, i + 1);
        assert(next.drop_last() =~= prev);
        if is_whitespace(c) {
            in_word = false;
        } else if in_word {
            proof {
                lemma_words_nonempty(prev);
            }
            let ghost old_res = res@;
            let mut w = res.pop().unwrap();
            w.push(c);
            res.push(w);
            assert(views(res@) =~= words(next)) by {
                assert(views(res@) =~= views(old_res).update(views(old_res).len() - 1, views(old_res).last().push(c)));
            }
            in_word = true;
        } else {
            let mut w: Vec<char> = Vec::new();
            w.push(c);
            let ghost old_res = res@;
            res.push(w);
            assert(views(res@) =~= words(next)) by {
                assert(w@ =~= seq![c]);
                assert(views(res@) =~= views(old_res).push(seq![c]));
            }
            in_word = true;
        }
        i = i + 1;
    }
    res
}

/// Joins `ws[from..]` with single spaces.
pub fn join_words(ws: &Vec<Vec<char>>, from: usize) -> (res: Vec<char>)
    requires
        from <= ws@.len(),
    ensures
        res@ == join(views(ws@).skip(from as int)),
{
    let mut res: Vec<char> = Vec::new();
    let mut i = from;
    while i < ws.len()
        invariant
            from <= i <= ws@.len(),
            res@ == join(views(ws@).subrange(from as int, i as int)),
        decreases ws@.len() - i,
    {
        let ghost prev = views(ws@).subrange(from as int, i as int);
        let ghost next = views(ws@).subrange(from as int, i + 1);
        assert(next.drop_last() =~= prev);
        if i > from {
            res.push(' ');
        }
        let w = &ws[i];
        let mut j: usize = 0;
        let ghost base = res@;
        while j < w.len()
            invariant
                j <= w@.len(),
                res@ == base + w@.take(j as int),
            decreases w@.len() - j,
        {
            res.push(w[j]);
            j = j + 1;
            assert(res@ =~= base + w@.take(j as int));
        }
        assert(w@.take(j as int) =~= w@);
        assert(views(ws@)[i as int] == w@);
        assert(res@ =~= join(next));
        i = i + 1;
    }
    assert(views(ws@).subrange(from as int, i as int) =~= views(ws@).skip(from as int));
    res
}

/// Index of the first line feed in `s`, or its length when there is none.
pub open spec fn line_end(s: Seq<char>) -> nat
    decreases s.len(),
{
    if s.len() == 0 || s[0] == '\n' {
        0
    } else {
        1 + line_end(s.drop_first())
    }
}

/// `line_end` is the index of the first line feed, or the length.
pub proof fn lemma_line_end(s: Seq<char>)
    ensures
        line_end(s) <= s.len(),
        forall|j: int| 0 <= j < line_end(s) ==> s[j] != '\n',
        line_end(s) < s.len() ==> s[line_end(s) as int] == '\n',
    decreases s.len(),
{
    if s.len() > 0 && s[0] != '\n' {
        lemma_line_end(s.drop_first());
        assert forall|j: int| 0 <= j < line_end(s) implies s[j] != '\n' by {
            if j > 0 {
                assert(s[j] == s.drop_first()[j - 1]);
            }
        }
    }
}

/// The line without one carriage return at its end.
pub open spec fn strip_cr(l: Seq<char>) -> Seq<char> {
    if l.len() > 0 && l.last() == '\r' {
        l.drop_last()
    } else {
        l
    }
}

/// The lines of `s` as `str::lines` yields them: `s` is split after each line
/// feed; the line feed, and a carriage return just before it, are dropped; no
/// line follows a final line feed.
pub open spec fn lines_of(s: Seq<char>) -> Seq<Seq<char>>
    decreases s.len(),
{
    if s.len() == 0 {
        Seq::empty()
    } else {
        let n = line_end(s);
        if n < s.len() {
            seq![strip_cr(s.take(n as int))] + lines_of(s.skip(n as int + 1))
        } else {
            seq![s]
        }
    }
}

/// The end of the line that starts at `pos`: the index of the next line feed,
/// or the length of the text.
pub fn find_line_end(chars: &Vec<char>, pos: usize) -> (res: usize)
    requires
        pos <= chars@.len(),
    ensures
        res == pos + line_end(chars@.skip(pos as int)),
{
    let mut i = pos;
    while i < chars.len() && chars[i] != '\n'
        invariant
            pos <= i <= chars@.len(),
            forall|j: int| pos <= j < i ==> chars@[j] != '\n',
        decreases chars@.len() - i,
    {
        i = i + 1;
    }
    proof {
        let t = chars@.skip(pos as int);
        lemma_line_end(t);
        let e = line_end(t);
        if e < i - pos {
            assert(t[e as int] == chars@[pos + e]);
        }
        if e > i - pos {
            assert(t[i - pos] == chars@[i as int]);
        }
    }
    i
}

/// An ASCII digit.
pub open spec fn is_digit(c: char) -> bool {
    '0' <= c && c <= '9'
}

/// Only ASCII digits.
pub open spec fn all_digits(s: Seq<char>) -> bool {
    forall|i: int| 0 <= i < s.len() ==> is_digit(s[i])
}

/// The value of an ASCII digit.
pub open spec fn digit_value(c: char) -> nat {
    ((c as u32) - 0x30) as nat
}

/// The number that a string of decimal digits writes.
pub open spec fn digits_value(s: Seq<char>) -> nat
    decreases s.len(),
{
    if s.len() == 0 {
        0
    } else {
        digits_value(s.drop_last()) * 10 + digit_value(s.last())
    }
}

/// What `str::parse::<usize>` gives: an optional `+` sign, then one or more
/// ASCII digits whose value fits in a `usize`; anything else is rejected.
pub open spec fn parse_index(s: Seq<char>) -> Option<nat> {
    let d = if s.len() > 0 && s[0] == '+' {
        s.drop_first()
    } else {
        s
    };
    if d.len() > 0 && all_digits(d) && digits_value(d) <= usize::MAX {
        Some(digits_value(d))
    } else {
        None
    }
}

/// A longer string of digits writes a number no smaller.
pub proof fn lemma_digits_value_prefix(s: Seq<char>, k: int)
    requires
        0 <= k <= s.len(),
        all_digits(s),
    ensures
        digits_value(s.take(k)) <= digits_value(s),
    decreases s.len(),
{
    if k < s.len() {
        assert(s.drop_last().take(k) =~= s.take(k));
        lemma_digits_value_prefix(s.drop_last(), k);
    } else {
        assert(s.take(k) =~= s);
    }
}

/// Parses a decimal index as `str::parse::<usize>` does.
pub fn parse_index_chars(s: &Vec<char>) -> (res: Option<usize>)
    ensures
        match res {
            Some(n) => parse_index(s@) == Some(n as nat),
            None => parse_index(s@) is None,
        },
{
    let ghost d = if s@.len() > 0 && s@[0] == '+' {
        s@.drop_first()
    } else {
        s@
    };
    let start: usize = if s.len() > 0 && s[0] == '+' {
        1
    } else {
        0
    };
    assert(d =~= s@.skip(start as int));
    if start == s.len() {
        return None;
    }
    let mut acc: usize = 0;
    let mut i = start;
    while i < s.len()
        invariant
            start <= i <= s@.len(),
            d == s@.skip(start as int),
            d.len() > 0,
            parse_index(s@) == (if all_digits(d) && digits_value(d) <= usize::MAX {
                Some(digits_value(d))
            } else {
                None
            }),
            all_digits(s@.subrange(start as int, i as int)),
            acc as nat == digits_value(s@.subrange(start as int, i as int)),
        decreases s@.len() - i,
    {
        let c = s[i];
        let ghost next = s@.subrange(start as int, i + 1);
        assert(next.drop_last() =~= s@.subrange(start as int, i as int));
        if !(c >= '0' && c <= '9') {
            assert(d[i - start] == c);
            assert(!all_digits(d));
            return None;
        }
        let v = ((c as u32) - 0x30) as usize;
        let m = acc.checked_mul(10);
        let sum = match m {
            Some(m) => m.checked_add(v),
            None => None,
        };
        match sum {
            Some(t) => {
                acc = t;
            },
            None => {
                proof {
                    if all_digits(d) {
                        assert(d.take(i + 1 - start) =~= next);
                        lemma_digits_value_prefix(d, i + 1 - start);
                    }
                }
                return None;
            },
        }
        i = i + 1;
    }
    assert(s@.subrange(start as int, i as int) =~= d);
    Some(acc)
}

/// The decimal digits of `n`, most significant first, without leading zeros.
pub open spec fn decimal(n: nat) -> Seq<char>
    decreases n,
{
    if n < 10 {
        seq![digit_char(n)]
    } else {
        decimal(n / 10).push(digit_char(n % 10))
    }
}

/// The ASCII digit for a value below ten.
pub open spec fn digit_char(d: nat) -> char {
    (0x30 + d) as char
}

/// Appends the decimal digits of `n` to `out`.
pub fn push_decimal(out: &mut Vec<char>, n: usize)
    ensures
        final(out)@ == old(out)@ + decimal(n as nat),
    decreases n,
{
    if n >= 10 {
        push_decimal(out, n / 10);
    }
    let d = (n % 10) as u8;
    let c = (0x30u8 + d) as char;
    out.push(c);
    assert(final(out)@ =~= old(out)@ + decimal(n as nat));
}

/// The pieces of `s` between its dots (what `str::split('.')` yields): one
/// more than there are dots.
pub open spec fn split_dots(s: Seq<char>) -> Seq<Seq<char>>
    decreases s.len(),
{
    if s.len() == 0 {
        seq![Seq::empty()]
    } else if s.last() == '.' {
        split_dots(s.drop_last()).push(Seq::empty())
    } else {
        let p = split_dots(s.drop_last());
        p.update(p.len() - 1, p.last().push(s.last()))
    }
}

/// Splitting always gives at least one piece.
pub proof fn lemma_split_dots_len(s: Seq<char>)
    ensures
        split_dots(s).len() > 0,
    decreases s.len(),
{
    if s.len() > 0 {
        lemma_split_dots_len(s.drop_last());
    }
}

/// Splits a path at its dots.
pub fn split_path(s: &Vec<char>) -> (res: Vec<Vec<char>>)
    ensures
        views(res@) == split_dots(s@),
{
    let mut res: Vec<Vec<char>> = Vec::new();
    res.push(Vec::new());
    assert(views(res@) =~= split_dots(s@.take(0)));
    let mut i: usize = 0;
    while i < s.len()
        invariant
            i <= s@.len(),
            res@.len() > 0,
            views(res@) == split_dots(s@.take(i as int)),
        decreases s@.len() - i,
    {
        let c = s[i];
        let ghost prev = s@.take(i as int);
        let ghost next = s@.take(i + 1);
        assert(next.drop_last() =~= prev);
        let ghost old_res = res@;
        if c == '.' {
            res.push(Vec::new());
            assert(views(res@) =~= views(old_res).push(Seq::empty()));
        } else {
            let mut w = res.pop().unwrap();
            w.push(c);
            res.push(w);
            assert(views(res@) =~= views(old_res).update(
                views(old_res).len() - 1,
                views(old_res).last().push(c),
            ));
        }
        i = i + 1;
    }
    assert(s@.take(i as int) =~= s@);
    res
}

/// A copy of a character vector.
pub fn copy_chars(v: &Vec<char>) -> (res: Vec<char>)
    ensures
        res@ == v@,
{
    let mut res: Vec<char> = Vec::new();
    let mut i: usize = 0;
    while i < v.len()
        invariant
            i <= v@.len(),
            res@ == v@.take(i as int),
        decreases v@.len() - i,
    {
        res.push(v[i]);
        i = i + 1;
        assert(res@ =~= v@.take(i as int));
    }
    assert(v@.take(i as int) =~= v@);
    res
}

/// Tests two character sequences for equality.
pub fn chars_equal(a: &Vec<char>, b: &Vec<char>) -> (res: bool)
    ensures
        res == (a@ == b@),
{
    if a.len() != b.len() {
        return false;
    }
    let mut i: usize = 0;
    while i < a.len()
        invariant
            a@.len() == b@.len(),
            i <= a@.len(),
            forall|j: int| 0 <= j < i ==> a@[j] == b@[j],
        decreases a@.len() - i,
    {
        if a[i] != b[i] {
            return false;
        }
        i = i + 1;
    }
    assert(a@ =~= b@);
    true
}

/// The characters of a string slice.
pub fn str_to_chars(s: &str) -> (v: Vec<char>)
    ensures
        v@ == s@,
{
    let mut v: Vec<char> = Vec::new();
    for c in it: s.chars()
        invariant
            v@ == it.seq().take(it.index() as int),
            it.seq() == s@,
    {
        v.push(c);
    }
    v
}

/// `String`'s `FromIterator<&char>`: the string made of these characters.
#[verifier::external_body]
pub fn chars_to_string(v: &Vec<char>) -> (s: String)
    ensures
        s@ == v@,
{
    v.iter().collect()
}

/// One word: not empty, and no whitespace in it.
pub open spec fn is_word(k: Seq<char>) -> bool {
    k.len() > 0 && forall|i: int| 0 <= i < k.len() ==> !is_space(#[trigger] k[i])
}

/// A string made of words separated by single spaces, which is what a line
/// gives back.
pub open spec fn canonical(s: Seq<char>) -> bool {
    join(words(s)) == s
}

// ---------------------------------------------------------------------------
// Words

/// Where the texts meet at whitespace, the words of the whole are the words of
/// each part in turn.
pub proof fn lemma_words_append(a: Seq<char>, b: Seq<char>)
    requires
        a.len() == 0 || b.len() == 0 || is_space(a.last()) || is_space(b[0]),
    ensures
        words(a + b) == words(a) + words(b),
    decreases b.len(),
{
    if b.len() == 0 {
        assert(a + b =~= a);
        assert(words(a) + words(b) =~= words(a));
    } else {
        let c = b.last();
        let b1 = b.drop_last();
        assert((a + b).drop_last() =~= a + b1);
        assert((a + b).last() == c);
        if b1.len() > 0 {
            assert(b1[0] == b[0]);
        }
        lemma_words_append(a, b1);
        if is_space(c) {
        } else if b.len() >= 2 && !is_space(b[b.len() - 2]) {
            assert((a + b)[(a + b).len() - 2] == b[b.len() - 2]);
            lemma_words_nonempty(b1);
            let w = words(b1);
            assert(words(a + b) =~= words(a) + w.update(w.len() - 1, w.last().push(c)));
        } else {
            if b.len() >= 2 {
                assert((a + b)[(a + b).len() - 2] == b[b.len() - 2]);
            } else if a.len() > 0 {
                assert((a + b)[(a + b).len() - 2] == a.last());
            }
            assert(words(a + b) =~= words(a) + words(b1).push(seq![c]));
        }
    }
}

/// A text of whitespace only has no words.
pub proof fn lemma_words_all_space(s: Seq<char>)
    requires
        forall|i: int| 0 <= i < s.len() ==> is_space(#[trigger] s[i]),
    ensures
        words(s) == Seq::<Seq<char>>::empty(),
    decreases s.len(),
{
    if s.len() > 0 {
        assert(is_space(s[s.len() - 1]));
        lemma_words_all_space(s.drop_last());
    }
}

/// A single word is its only word.
pub proof fn lemma_words_of_word(k: Seq<char>)
    requires
        is_word(k),
    ensures
        words(k) == seq![k],
    decreases k.len(),
{
    let c = k.last();
    let k1 = k.drop_last();
    assert(!is_space(k[k.len() - 1]));
    if k1.len() == 0 {
        assert(words(k1) =~= Seq::<Seq<char>>::empty());
        assert(k =~= seq![c]);
    } else {
        assert(is_word(k1)) by {
            assert forall|i: int| 0 <= i < k1.len() implies !is_space(#[trigger] k1[i]) by {
                assert(k1[i] == k[i]);
            }
        }
        lemma_words_of_word(k1);
        assert(!is_space(k[k.len() - 2]));
        assert(k1.push(c) =~= k);
    }
}

/// Every word that `words` yields is a word.
pub proof fn lemma_words_are_words(s: Seq<char>)
    ensures
        forall|i: int| 0 <= i < words(s).len() ==> is_word(#[trigger] words(s)[i]),
    decreases s.len(),
{
    if s.len() > 0 {
        let c = s.last();
        let s1 = s.drop_last();
        lemma_words_are_words(s1);
        let w = words(s1);
        if is_space(c) {
        } else if s.len() >= 2 && !is_space(s[s.len() - 2]) {
            lemma_words_nonempty(s1);
            let r = words(s);
            assert forall|i: int| 0 <= i < r.len() implies is_word(#[trigger] r[i]) by {
                if i < w.len() - 1 {
                    assert(r[i] == w[i]);
                } else {
                    let x = w.last().push(c);
                    assert(r[i] == x);
                    assert(is_word(w[w.len() - 1]));
                    assert forall|j: int| 0 <= j < x.len() implies !is_space(#[trigger] x[j]) by {
                        if j < x.len() - 1 {
                            assert(x[j] == w[w.len() - 1][j]);
                        }
                    }
                }
            }
        } else {
            let r = words(s);
            assert forall|i: int| 0 <= i < r.len() implies is_word(#[trigger] r[i]) by {
                if i < w.len() {
                    assert(r[i] == w[i]);
                } else {
                    assert(r[i] == seq![c]);
                    assert(seq![c][0] == c);
                }
            }
        }
    }
}

/// Words joined by single spaces hold no whitespace but those spaces.
pub proof fn lemma_join_chars(ws: Seq<Seq<char>>)
    requires
        forall|i: int| 0 <= i < ws.len() ==> is_word(#[trigger] ws[i]),
    ensures
        forall|j: int|
            0 <= j < join(ws).len() ==> !is_space(#[trigger] join(ws)[j]) || join(ws)[j] == ' ',
    decreases ws.len(),
{
    if ws.len() == 1 {
        assert(is_word(ws[0]));
    } else if ws.len() > 1 {
        let w1 = ws.drop_last();
        assert forall|i: int| 0 <= i < w1.len() implies is_word(#[trigger] w1[i]) by {
            assert(w1[i] == ws[i]);
        }
        lemma_join_chars(w1);
        let a = join(w1);
        let l = ws.last();
        assert(is_word(ws[ws.len() - 1]));
        let r = join(ws);
        assert(r == a + seq![' '] + l);
        assert forall|j: int| 0 <= j < r.len() implies !is_space(#[trigger] r[j]) || r[j] == ' ' by {
            if j < a.len() {
                assert(r[j] == a[j]);
            } else if j == a.len() {
            } else {
                assert(r[j] == l[j - a.len() - 1]);
            }
        }
    }
}

/// A canonical string has no whitespace but single spaces.
pub proof fn lemma_canonical_chars(s: Seq<char>)
    requires
        canonical(s),
    ensures
        forall|j: int| 0 <= j < s.len() ==> !is_space(#[trigger] s[j]) || s[j] == ' ',
{
    lemma_words_are_words(s);
    lemma_join_chars(words(s));
}

// ---------------------------------------------------------------------------
// Lines

/// The first line feed of `a` stays the first one when text follows.
pub proof fn lemma_line_end_append(a: Seq<char>, b: Seq<char>)
    requires
        line_end(a) < a.len(),
    ensures
        line_end(a + b) == line_end(a),
    decreases a.len(),
{
    if a[0] != '\n' {
        assert((a + b).drop_first() =~= a.drop_first() + b);
        lemma_line_end_append(a.drop_first(), b);
    }
}

/// After a line feed the lines start afresh: the lines of `a + b` are those of
/// `a`, then those of `b`.
pub proof fn lemma_lines_append(a: Seq<char>, b: Seq<char>)
    requires
        a.len() == 0 || a.last() == '\n',
    ensures
        lines_of(a + b) == lines_of(a) + lines_of(b),
    decreases a.len(),
{
    if a.len() == 0 {
        assert(a + b =~= b);
        assert(lines_of(a) + lines_of(b) =~= lines_of(b));
    } else {
        lemma_line_end(a);
        let n = line_end(a);
        if n == a.len() {
            assert(a[a.len() - 1] != '\n');
        }
        lemma_line_end_append(a, b);
        let rest = a.skip(n as int + 1);
        assert((a + b).take(n as int) =~= a.take(n as int));
        assert((a + b).skip(n as int + 1) =~= rest + b);
        if rest.len() > 0 {
            assert(rest.last() == a.last());
        }
        lemma_lines_append(rest, b);
        assert(lines_of(a + b) =~= lines_of(a) + lines_of(b));
    }
}

/// A text without line feeds, ended by one, is one line.
pub proof fn lemma_lines_single(x: Seq<char>)
    requires
        forall|i: int| 0 <= i < x.len() ==> #[trigger] x[i] != '\n',
    ensures
        lines_of(x.push('\n')) == seq![strip_cr(x)],
{
    let s = x.push('\n');
    lemma_line_end(s);
    let n = line_end(s);
    if n < x.len() {
        assert(s[n as int] == x[n as int]);
    }
    assert(s[x.len() as int] == '\n');
    assert(s.take(x.len() as int) =~= x);
    assert(s.skip(x.len() as int + 1) =~= Seq::<char>::empty());
    assert(lines_of(Seq::<char>::empty()) =~= Seq::<Seq<char>>::empty());
    assert(lines_of(s) =~= seq![strip_cr(x)]);
}

} // verus!
