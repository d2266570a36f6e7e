//! What holds of the character-level rules: which characters separate words,
//! how a decimal index reads, and how keys are ordered.
use vstd::prelude::*;
use crate::text::{is_space, decimal, digit_char, digit_value, digits_value, all_digits,
    parse_index};
use crate::tree::{key_lt, Value, lookup, insert_new};
use crate::acon::{child, AconError};
use crate::parse::{parse_text, initial_stack, lemma_run_one};
use crate::roundtrip::is_marker;
use crate::text::{words, join, is_word, lines_of, strip_cr, line_end, lemma_line_end,
    lemma_words_of_word, lemma_words_append, lemma_words_all_space, lemma_lines_single,
    lemma_lines_append, lemma_join_chars};

verus! {

/// Among ASCII characters exactly the space, tab, line feed, vertical tab,
/// form feed and carriage return are whitespace; no printable ASCII character
/// (`!` to `~`) is, and nothing beyond U+3000 is.
pub proof fn law_ascii_whitespace(c: char)
    ensures
        (c as u32) < 0x80 ==> (is_space(c) <==> (c == ' ' || c == '\t' || c == '\n' || c
            == '\u{0b}' || c == '\u{0c}' || c == '\r')),
        '!' <= c && c <= '~' ==> !is_space(c),
        (c as u32) > 0x3000 ==> !is_space(c),
{
}

/// The whitespace characters are exactly the twenty-five of Unicode's
/// `White_Space` property, which `char::is_whitespace` tests.
pub proof fn law_whitespace_chars(c: char)
    ensures
        is_space(c) <==> (c == '\t' || c == '\n' || c == '\u{0b}' || c == '\u{0c}' || c == '\r'
            || c == ' ' || c == '\u{85}' || c == '\u{a0}' || c == '\u{1680}' || c == '\u{2000}'
            || c == '\u{2001}' || c == '\u{2002}' || c == '\u{2003}' || c == '\u{2004}' || c
            == '\u{2005}' || c == '\u{2006}' || c == '\u{2007}' || c == '\u{2008}' || c
            == '\u{2009}' || c == '\u{200a}' || c == '\u{2028}' || c == '\u{2029}' || c
            == '\u{202f}' || c == '\u{205f}' || c == '\u{3000}'),
{
}

/// A line of two words made of printable ASCII characters, the first no
/// marker, is the entry under the first word with the second as its value,
/// character for character.
pub proof fn law_ascii_entry(k: Seq<char>, v: Seq<char>)
    requires
        k.len() > 0,
        v.len() > 0,
        forall|i: int| 0 <= i < k.len() ==> '!' <= #[trigger] k[i] && k[i] <= '~',
        forall|i: int| 0 <= i < v.len() ==> '!' <= #[trigger] v[i] && v[i] <= '~',
        !is_marker(k),
    ensures
        parse_text(k + seq![' '] + v + seq!['\n']) == Ok::<Value, AconError>(
            Value::Table(seq![(k, Value::Str(v))]),
        ),
{
    assert(is_word(k)) by {
        assert forall|i: int| 0 <= i < k.len() implies !is_space(#[trigger] k[i]) by {
            law_ascii_whitespace(k[i]);
        }
    }
    assert(is_word(v)) by {
        assert forall|i: int| 0 <= i < v.len() implies !is_space(#[trigger] v[i]) by {
            law_ascii_whitespace(v[i]);
        }
    }
    let x = k + seq![' '] + v;
    assert(k + seq![' '] + v + seq!['\n'] =~= x.push('\n'));
    assert forall|i: int| 0 <= i < x.len() implies #[trigger] x[i] != '\n' by {
        if i < k.len() {
            assert(x[i] == k[i]);
        } else if i > k.len() {
            assert(x[i] == v[i - k.len() - 1]);
        }
    }
    lemma_lines_single(x);
    assert(x.last() == v[v.len() - 1]);
    assert(strip_cr(x) == x);
    lemma_words_of_word(k);
    lemma_words_of_word(v);
    assert(words(seq![' ']) =~= Seq::<Seq<char>>::empty()) by {
        lemma_words_all_space(seq![' ']);
    }
    lemma_words_append(k, seq![' ']);
    lemma_words_append(k + seq![' '], v);
    let ws = words(x);
    assert(ws =~= seq![k, v]);
    assert(ws.drop_first() =~= seq![v]);
    let st = initial_stack();
    lemma_run_one(x, st, 1);
    assert(st.last() == st[0]);
    let e = Seq::<(Seq<char>, Value)>::empty();
    assert(lookup(e, k) is None);
    assert(insert_new(e, k, Value::Str(v)) =~= seq![(k, Value::Str(v))]);
    assert(lines_of(x.push('\n')).len() == 1);
}

/// Reading the decimal digits of a number gives the number back, whenever it
/// fits in a `usize`; so the decimal digits of an index name that element of
/// an array.
pub proof fn law_decimal_index(n: nat, items: Seq<Value>)
    requires
        n <= usize::MAX,
    ensures
        parse_index(decimal(n)) == Some(n),
        n < items.len() ==> child(Value::Array(items), decimal(n)) == Some(items[n as int]),
{
    lemma_decimal_digits(n);
}

/// The forms that an index takes besides its plain digits, as
/// `str::parse::<usize>` reads them: one leading `+` and leading zeros are
/// allowed; the empty text, a lone `+`, a number beyond `usize::MAX` and any
/// text with another character than the digits and the leading `+` are not.
pub proof fn law_index_forms(n: nat, s: Seq<char>, i: int)
    ensures
        n <= usize::MAX ==> parse_index(seq!['+'] + decimal(n)) == Some(n),
        n <= usize::MAX ==> parse_index(seq!['0'] + decimal(n)) == Some(n),
        n > usize::MAX ==> parse_index(decimal(n)) is None,
        parse_index(Seq::<char>::empty()) is None,
        parse_index(seq!['+']) is None,
        0 <= i < s.len() && !('0' <= s[i] && s[i] <= '9') && !(i == 0 && s[i] == '+')
            ==> parse_index(s) is None,
{
    lemma_decimal_digits(n);
    let dn = decimal(n);
    assert((seq!['+'] + dn).drop_first() =~= dn);
    lemma_leading_zero(dn);
    let z = seq!['0'] + dn;
    assert(all_digits(z)) by {
        assert forall|j: int| 0 <= j < z.len() implies crate::text::is_digit(z[j]) by {
            if j > 0 {
                assert(z[j] == dn[j - 1]);
            }
        }
    }
    assert(seq!['+'].drop_first() =~= Seq::<char>::empty());
    if 0 <= i < s.len() && !('0' <= s[i] && s[i] <= '9') && !(i == 0 && s[i] == '+') {
        if s.len() > 0 && s[0] == '+' {
            assert(s.drop_first()[i - 1] == s[i]);
        }
    }
}

/// A leading zero does not change the number that digits write.
proof fn lemma_leading_zero(s: Seq<char>)
    ensures
        digits_value(seq!['0'] + s) == digits_value(s),
    decreases s.len(),
{
    let z = seq!['0'] + s;
    if s.len() == 0 {
        assert(z.drop_last() =~= Seq::<char>::empty());
        assert(digit_value('0') == 0);
        assert(digits_value(z.drop_last()) == 0);
        assert(z.last() == '0');
        assert(digits_value(z) == digits_value(z.drop_last()) * 10 + digit_value(z.last()));
    } else {
        lemma_leading_zero(s.drop_last());
        assert(z.drop_last() =~= seq!['0'] + s.drop_last());
        assert(z.last() == s.last());
        assert(digits_value(z) == digits_value(z.drop_last()) * 10 + digit_value(z.last()));
        assert(digits_value(s) == digits_value(s.drop_last()) * 10 + digit_value(s.last()));
    }
}

proof fn lemma_decimal_digits(n: nat)
    ensures
        decimal(n).len() > 0,
        decimal(n)[0] != '+',
        all_digits(decimal(n)),
        digits_value(decimal(n)) == n,
    decreases n,
{
    if n < 10 {
        let s = decimal(n);
        assert(s.drop_last() =~= Seq::<char>::empty());
        assert(digit_value(digit_char(n)) == n);
        assert(s.last() == digit_char(n));
        assert(digits_value(s.drop_last()) == 0);
        assert(digits_value(s) == digits_value(s.drop_last()) * 10 + digit_value(s.last()));
    } else {
        lemma_decimal_digits(n / 10);
        let s = decimal(n);
        assert(s.drop_last() =~= decimal(n / 10));
        assert(digit_value(digit_char(n % 10)) == n % 10);
        assert((n / 10) * 10 + n % 10 == n) by (nonlinear_arith);
        assert(s.last() == digit_char(n % 10));
        assert(digits_value(s) == digits_value(s.drop_last()) * 10 + digit_value(s.last()));
        assert(s[0] == decimal(n / 10)[0]);
        assert(all_digits(s)) by {
            assert forall|i: int| 0 <= i < s.len() implies crate::text::is_digit(s[i]) by {
                if i < s.len() - 1 {
                    assert(s[i] == decimal(n / 10)[i]);
                }
            }
        }
    }
}

/// Keys are ordered as strings are: by the first character where they differ,
/// compared by code point, and a key comes before every longer key that it
/// begins.
pub proof fn law_key_order(p: Seq<char>, x: char, y: char, a: Seq<char>, b: Seq<char>)
    ensures
        key_lt(p.push(x) + a, p.push(y) + b) == ((x as u32) < (y as u32) || (x == y && key_lt(a, b))),
        b.len() > 0 ==> key_lt(p, p + b),
        !key_lt(p + b, p),
    decreases p.len(),
{
    if p.len() == 0 {
        let l = p.push(x) + a;
        let r = p.push(y) + b;
        assert(l[0] == x);
        assert(r[0] == y);
        assert(l.drop_first() =~= a);
        assert(r.drop_first() =~= b);
        assert(p + b =~= b);
        assert(p =~= Seq::<char>::empty());
    } else {
        let q = p.drop_first();
        law_key_order(q, x, y, a, b);
        assert((p.push(x) + a).drop_first() =~= q.push(x) + a);
        assert((p.push(y) + b).drop_first() =~= q.push(y) + b);
        assert((p.push(x) + a)[0] == p[0]);
        assert((p.push(y) + b)[0] == p[0]);
        assert((p + b).drop_first() =~= q + b);
        assert((p + b)[0] == p[0]);
    }
}

/// A line ends at a line feed, with a carriage return just before it dropped:
/// a text `x` without line feeds (and without a carriage return at its end)
/// is the one line of `x`, of `x` and a line feed, and of `x`, a carriage
/// return and a line feed; what follows a line feed starts the next line.
pub proof fn law_line_breaks(x: Seq<char>, y: Seq<char>)
    requires
        forall|j: int| 0 <= j < x.len() ==> x[j] != '\n',
        x.len() == 0 || x.last() != '\r',
    ensures
        x.len() > 0 ==> lines_of(x) == seq![x],
        lines_of(x + seq!['\n']) == seq![x],
        lines_of(x + seq!['\r', '\n']) == seq![x],
        lines_of(x + seq!['\n'] + y) == seq![x] + lines_of(y),
        lines_of(Seq::<char>::empty()) == Seq::<Seq<char>>::empty(),
{
    lemma_line_end(x);
    if x.len() > 0 {
        if line_end(x) < x.len() {
            assert(x[line_end(x) as int] == '\n');
        }
    }
    assert(x + seq!['\n'] =~= x.push('\n'));
    lemma_lines_single(x);
    let xr = x.push('\r');
    assert forall|j: int| 0 <= j < xr.len() implies #[trigger] xr[j] != '\n' by {
        if j < x.len() {
            assert(xr[j] == x[j]);
        }
    }
    lemma_lines_single(xr);
    assert(x + seq!['\r', '\n'] =~= xr.push('\n'));
    assert(xr.drop_last() =~= x);
    lemma_lines_append(x.push('\n'), y);
}

/// The words of words joined by single spaces are those words again; the
/// joined text holds no whitespace but those spaces.
pub proof fn law_join_then_words(ws: Seq<Seq<char>>)
    requires
        forall|i: int| 0 <= i < ws.len() ==> is_word(#[trigger] ws[i]),
    ensures
        words(join(ws)) == ws,
        forall|j: int|
            0 <= j < join(ws).len() ==> !is_space(#[trigger] join(ws)[j]) || join(ws)[j] == ' ',
    decreases ws.len(),
{
    lemma_join_chars(ws);
    if ws.len() == 0 {
        assert(words(Seq::<char>::empty()) =~= Seq::<Seq<char>>::empty());
    } else if ws.len() == 1 {
        lemma_words_of_word(ws[0]);
        assert(seq![ws[0]] =~= ws);
    } else {
        let w1 = ws.drop_last();
        assert forall|i: int| 0 <= i < w1.len() implies is_word(#[trigger] w1[i]) by {
            assert(w1[i] == ws[i]);
        }
        law_join_then_words(w1);
        let a = join(w1);
        let l = ws.last();
        assert(is_word(ws[ws.len() - 1]));
        lemma_words_of_word(l);
        assert(words(seq![' ']) =~= Seq::<Seq<char>>::empty()) by {
            lemma_words_all_space(seq![' ']);
        }
        lemma_words_append(a, seq![' ']);
        lemma_words_append(a + seq![' '], l);
        assert(words(a) + words(seq![' ']) =~= w1);
        assert(w1 + seq![l] =~= ws);
    }
}

/// An entry line keeps its first word as the key, and its other words, with
/// the whitespace between them made a single space, as the value.
pub proof fn law_line_value(k: Seq<char>, v: Seq<char>)
    requires
        k.len() > 0,
        forall|i: int| 0 <= i < k.len() ==> '!' <= #[trigger] k[i] && k[i] <= '~',
        !is_marker(k),
        forall|j: int| 0 <= j < v.len() ==> v[j] != '\n',
    ensures
        parse_text(k + seq![' '] + v + seq!['\n']) == Ok::<Value, AconError>(
            Value::Table(seq![(k, Value::Str(join(words(v))))]),
        ),
{
    assert(is_word(k)) by {
        assert forall|i: int| 0 <= i < k.len() implies !is_space(#[trigger] k[i]) by {
            law_ascii_whitespace(k[i]);
        }
    }
    let x = k + seq![' '] + v;
    assert(k + seq![' '] + v + seq!['\n'] =~= x.push('\n'));
    assert forall|i: int| 0 <= i < x.len() implies #[trigger] x[i] != '\n' by {
        if i < k.len() {
            assert(x[i] == k[i]);
            law_ascii_whitespace(k[i]);
        } else if i > k.len() {
            assert(x[i] == v[i - k.len() - 1]);
        }
    }
    lemma_lines_single(x);
    let l = strip_cr(x);
    lemma_words_of_word(k);
    assert(words(seq![' ']) =~= Seq::<Seq<char>>::empty()) by {
        lemma_words_all_space(seq![' ']);
    }
    lemma_words_append(k, seq![' ']);
    lemma_words_append(k + seq![' '], v);
    assert(words(l) == words(x)) by {
        if x.len() > 0 && x.last() == '\r' {
            assert(x.drop_last() == l);
        }
    }
    let ws = words(l);
    assert(ws =~= seq![k] + words(v));
    assert(ws[0] == k);
    assert(ws.drop_first() =~= words(v));
    let st = initial_stack();
    lemma_run_one(l, st, 1);
    assert(st.last() == st[0]);
    let e = Seq::<(Seq<char>, Value)>::empty();
    assert(lookup(e, k) is None);
    assert(insert_new(e, k, Value::Str(join(words(v)))) =~= seq![(k, Value::Str(join(words(v))))]);
}

} // verus!
