//! Characters, lines, words and decimal integers of the instance text formats.

use vstd::prelude::*;
use vstd::std_specs::iter::IteratorSpec;

verus! {

// ---------------------------------------------------------------------------
// Decimal integers
// ---------------------------------------------------------------------------

pub open spec fn is_digit(c: char) -> bool {
    '0' <= c <= '9'
}

pub open spec fn digit_value(c: char) -> int {
    (c as int) - ('0' as int)
}

pub open spec fn all_digits(s: Seq<char>) -> bool {
    forall|i: int| 0 <= i < s.len() ==> is_digit(#[trigger] s[i])
}

/// The value of a string of decimal digits.
pub open spec fn digits_value(s: Seq<char>) -> int
    decreases s.len(),
{
    if s.len() == 0 {
        0
    } else {
        digits_value(s.drop_last()) * 10 + digit_value(s.last())
    }
}

/// An integer written in decimal: an optional `+` (or, when `signed`, `-`) and one
/// or more digits, whose value lies in `lo..=hi`.
pub open spec fn parse_int(s: Seq<char>, signed: bool, lo: int, hi: int) -> Option<int> {
    let neg = signed && s.len() > 0 && s[0] == '-';
    let body = if s.len() > 0 && (s[0] == '+' || neg) {
        s.drop_first()
    } else {
        s
    };
    if body.len() > 0 && all_digits(body) {
        let v = if neg {
            -digits_value(body)
        } else {
            digits_value(body)
        };
        if lo <= v <= hi {
            Some(v)
        } else {
            None
        }
    } else {
        None
    }
}

pub open spec fn digit_char(d: int) -> char {
    if d == 0 {
        '0'
    } else if d == 1 {
        '1'
    } else if d == 2 {
        '2'
    } else if d == 3 {
        '3'
    } else if d == 4 {
        '4'
    } else if d == 5 {
        '5'
    } else if d == 6 {
        '6'
    } else if d == 7 {
        '7'
    } else if d == 8 {
        '8'
    } else {
        '9'
    }
}

/// The decimal digits of `n`, without leading zeros.
pub open spec fn digits_of(n: nat) -> Seq<char>
    decreases n,
{
    if n < 10 {
        seq![digit_char(n as int)]
    } else {
        digits_of(n / 10).push(digit_char((n % 10) as int))
    }
}

/// `v` written in decimal, with a leading `-` when negative.
pub open spec fn print_int(v: int) -> Seq<char> {
    if v < 0 {
        seq!['-'] + digits_of((-v) as nat)
    } else {
        digits_of(v as nat)
    }
}

pub proof fn lemma_digit_char(d: int)
    requires
        0 <= d < 10,
    ensures
        is_digit(digit_char(d)),
        digit_value(digit_char(d)) == d,
{
}

pub proof fn lemma_digits_of(n: nat)
    ensures
        all_digits(digits_of(n)),
        digits_of(n).len() >= 1,
        digits_value(digits_of(n)) == n,
    decreases n,
{
    if n >= 10 {
        lemma_digits_of(n / 10);
        let s = digits_of(n);
        assert(s.drop_last() == digits_of(n / 10));
        assert(is_digit(digit_char((n % 10) as int)));
        assert forall|i: int| 0 <= i < s.len() implies is_digit(#[trigger] s[i]) by {
            if i < s.len() - 1 {
                assert(s[i] == digits_of(n / 10)[i]);
            }
        }
        lemma_digit_char((n % 10) as int);
        assert((n / 10) * 10 + n % 10 == n) by {
            vstd::arithmetic::div_mod::lemma_fundamental_div_mod(n as int, 10);
        }
    } else {
        let s = digits_of(n);
        assert(s.drop_last() =~= Seq::<char>::empty());
        lemma_digit_char(n as int);
        assert(s.last() == digit_char(n as int));
        assert(digits_value(s) == digits_value(s.drop_last()) * 10 + digit_value(s.last()));
    }
}

/// Writing an integer in decimal and reading it back gives the integer.
pub proof fn lemma_print_parse_int(v: int, signed: bool, lo: int, hi: int)
    requires
        lo <= v <= hi,
        signed || v >= 0,
    ensures
        parse_int(print_int(v), signed, lo, hi) == Some(v),
        print_int(v).len() >= 1,
        forall|i: int|
            0 <= i < print_int(v).len() ==> #[trigger] print_int(v)[i] == '-' || is_digit(
                print_int(v)[i],
            ),
{
    if v < 0 {
        lemma_digits_of((-v) as nat);
        let s = print_int(v);
        assert(s.drop_first() =~= digits_of((-v) as nat));
        assert forall|i: int| 0 <= i < s.len() implies #[trigger] s[i] == '-' || is_digit(s[i]) by {
            if i > 0 {
                assert(s[i] == digits_of((-v) as nat)[i - 1]);
            }
        }
    } else {
        lemma_digits_of(v as nat);
        assert(is_digit(print_int(v)[0]));
    }
}

/// Reads a decimal integer in `lo..=hi` (see `parse_int`).
pub fn parse_integer(tok: &Vec<char>, signed: bool, lo: i128, hi: i128) -> (r: Option<i128>)
    requires
        -0x1_0000_0000_0000_0000 <= lo <= 0,
        0 <= hi <= 0x1_0000_0000_0000_0000,
    ensures
        r matches Some(v) ==> parse_int(tok@, signed, lo as int, hi as int) == Some(v as int),
        r is None ==> parse_int(tok@, signed, lo as int, hi as int) is None,
{
    let n = tok.len();
    let neg = signed && n > 0 && tok[0] == '-';
    let start: usize = if n > 0 && (tok[0] == '+' || neg) {
        1
    } else {
        0
    };
    if start >= n {
        proof {
            if n > 0 {
                assert(tok@.drop_first().len() == 0);
            }
        }
        return None;
    }
    let ghost body = if n > 0 && (tok@[0] == '+' || neg) {
        tok@.drop_first()
    } else {
        tok@
    };
    let bound: i128 = if neg {
        -lo
    } else {
        hi
    };
    let mut acc: i128 = 0;
    let mut i: usize = start;
    while i < n
        invariant
            start <= i <= n,
            n == tok.len(),
            start == 0 || start == 1,
            body == tok@.subrange(start as int, n as int),
            neg == (signed && n > 0 && tok@[0] == '-'),
            body == (if n > 0 && (tok@[0] == '+' || neg) {
                tok@.drop_first()
            } else {
                tok@
            }),
            bound == (if neg {
                -lo
            } else {
                hi as int
            }),
            -0x1_0000_0000_0000_0000 <= lo <= 0,
            0 <= hi <= 0x1_0000_0000_0000_0000,
            0 <= bound <= 0x1_0000_0000_0000_0000,
            0 <= acc <= bound,
            acc == digits_value(body.take(i - start)),
            all_digits(body.take(i - start)),
        decreases n - i,
    {
        let c = tok[i];
        if !('0' <= c && c <= '9') {
            proof {
                assert(body[i - start] == c);
                assert(!is_digit(body[i - start]));
                assert(!all_digits(body));
            }
            return None;
        }
        let d = (c as u32 - '0' as u32) as i128;
        proof {
            assert(d == digit_value(c));
            assert(body.take(i - start + 1).drop_last() =~= body.take(i - start));
            assert(body.take(i - start + 1).last() == c);
            assert forall|j: int| 0 <= j < i - start + 1 implies is_digit(
                #[trigger] body.take(i - start + 1)[j],
            ) by {
                if j < i - start {
                    assert(body.take(i - start + 1)[j] == body.take(i - start)[j]);
                }
            }
        }
        acc = acc * 10 + d;
        if acc > bound {
            proof {
                lemma_digits_prefix_le(body, i - start + 1);
            }
            return None;
        }
        i = i + 1;
    }
    proof {
        assert(body.take(n - start) =~= body);
    }
    if neg {
        Some(-acc)
    } else {
        Some(acc)
    }
}

/// A prefix of a digit string is worth at most the whole string, when that is all digits.
proof fn lemma_digits_prefix_le(s: Seq<char>, j: int)
    requires
        0 <= j <= s.len(),
        all_digits(s.take(j)),
    ensures
        all_digits(s) ==> digits_value(s.take(j)) <= digits_value(s),
    decreases s.len(),
{
    if all_digits(s) {
        if j < s.len() {
            let d = s.drop_last();
            assert(d.take(j) =~= s.take(j));
            assert forall|i: int| 0 <= i < d.len() implies is_digit(#[trigger] d[i]) by {
                assert(d[i] == s[i]);
            }
            lemma_digits_prefix_le(d, j);
            lemma_digits_nonneg(d);
            assert(is_digit(s[s.len() - 1]));
        } else {
            assert(s.take(j) =~= s);
        }
    }
}

proof fn lemma_digits_nonneg(s: Seq<char>)
    requires
        all_digits(s),
    ensures
        digits_value(s) >= 0,
    decreases s.len(),
{
    if s.len() > 0 {
        let d = s.drop_last();
        assert forall|i: int| 0 <= i < d.len() implies is_digit(#[trigger] d[i]) by {
            assert(d[i] == s[i]);
        }
        lemma_digits_nonneg(d);
        assert(is_digit(s[s.len() - 1]));
    }
}

} // verus!

verus! {

// ---------------------------------------------------------------------------
// Whitespace, words and lines
// ---------------------------------------------------------------------------

/// Unicode white space (the characters with the `White_Space` property).
pub open spec fn is_ws(c: char) -> bool {
    ||| c == '\t'
    ||| c == '\n'
    ||| c == '\u{0B}'
    ||| c == '\u{0C}'
    ||| c == '\r'
    ||| c == ' '
    ||| c == '\u{85}'
    ||| c == '\u{A0}'
    ||| c == '\u{1680}'
    ||| ('\u{2000}' <= c && c <= '\u{200A}')
    ||| c == '\u{2028}'
    ||| c == '\u{2029}'
    ||| c == '\u{202F}'
    ||| c == '\u{205F}'
    ||| c == '\u{3000}'
}

pub fn is_whitespace(c: char) -> (r: bool)
    ensures
        r == is_ws(c),
{
    c == '\t' || c == '\n' || c == '\u{0B}' || c == '\u{0C}' || c == '\r' || c == ' ' || c
        == '\u{85}' || c == '\u{A0}' || c == '\u{1680}' || ('\u{2000}' <= c && c <= '\u{200A}')
        || c == '\u{2028}' || c == '\u{2029}' || c == '\u{202F}' || c == '\u{205F}' || c
        == '\u{3000}'
}

/// Number of leading white-space characters.
pub open spec fn leading_ws(s: Seq<char>) -> int
    decreases s.len(),
{
    if s.len() == 0 {
        0
    } else if is_ws(s[0]) {
        1 + leading_ws(s.drop_first())
    } else {
        0
    }
}

/// Number of leading characters that are not white space.
pub open spec fn leading_word(s: Seq<char>) -> int
    decreases s.len(),
{
    if s.len() == 0 {
        0
    } else if is_ws(s[0]) {
        0
    } else {
        1 + leading_word(s.drop_first())
    }
}

pub proof fn lemma_leading_bounds(s: Seq<char>)
    ensures
        0 <= leading_ws(s) <= s.len(),
        0 <= leading_word(s) <= s.len(),
        s.len() > 0 && !is_ws(s[0]) ==> leading_word(s) >= 1,
        leading_ws(s) < s.len() ==> !is_ws(s[leading_ws(s)]),
    decreases s.len(),
{
    if s.len() > 0 {
        lemma_leading_bounds(s.drop_first());
        if is_ws(s[0]) && leading_ws(s) < s.len() {
            assert(s[leading_ws(s)] == s.drop_first()[leading_ws(s.drop_first())]);
        }
    }
}

/// The words of `s`: its maximal runs of characters that are not white space.
pub open spec fn words_of(s: Seq<char>) -> Seq<Seq<char>>
    decreases s.len(),
{
    let r = s.skip(leading_ws(s));
    if r.len() == 0 {
        Seq::empty()
    } else {
        let w = leading_word(r);
        proof {
            lemma_leading_bounds(s);
            lemma_leading_bounds(r);
            assert(r[0] == s[leading_ws(s)]);
        }
        seq![r.take(w)] + words_of(r.skip(w))
    }
}

/// The position of the first line feed in `s`, or `s.len()` when there is none.
pub open spec fn newline_index(s: Seq<char>) -> int
    decreases s.len(),
{
    if s.len() == 0 {
        0
    } else if s[0] == '\n' {
        0
    } else {
        1 + newline_index(s.drop_first())
    }
}

pub proof fn lemma_newline_index_bounds(s: Seq<char>)
    ensures
        0 <= newline_index(s) <= s.len(),
        newline_index(s) < s.len() ==> s[newline_index(s)] == '\n',
        forall|j: int| 0 <= j < newline_index(s) ==> s[j] != '\n',
    decreases s.len(),
{
    if s.len() > 0 && s[0] != '\n' {
        lemma_newline_index_bounds(s.drop_first());
        assert forall|j: int| 0 <= j < newline_index(s) implies s[j] != '\n' by {
            if j > 0 {
                assert(s[j] == s.drop_first()[j - 1]);
            }
        }
    }
}

/// The lines of `s`: the pieces between line feeds, a carriage return before a
/// line feed removed; a final line feed does not start another line.
pub open spec fn lines_of(s: Seq<char>) -> Seq<Seq<char>>
    decreases s.len(),
{
    if s.len() == 0 {
        Seq::empty()
    } else {
        let i = newline_index(s);
        proof {
            lemma_newline_index_bounds(s);
        }
        if i >= s.len() {
            seq![s]
        } else {
            let raw = s.take(i);
            let line = if raw.len() > 0 && raw.last() == '\r' {
                raw.drop_last()
            } else {
                raw
            };
            seq![line] + lines_of(s.skip(i + 1))
        }
    }
}

/// Words joined by single spaces.
pub open spec fn join_words(ws: Seq<Seq<char>>) -> Seq<char>
    decreases ws.len(),
{
    if ws.len() == 0 {
        Seq::empty()
    } else if ws.len() == 1 {
        ws[0]
    } else {
        ws[0] + seq![' '] + join_words(ws.drop_first())
    }
}

/// Lines, each ended by a line feed.
pub open spec fn join_lines(ls: Seq<Seq<char>>) -> Seq<char>
    decreases ls.len(),
{
    if ls.len() == 0 {
        Seq::empty()
    } else {
        ls[0] + seq!['\n'] + join_lines(ls.drop_first())
    }
}

/// The words of all pieces, in order.
pub open spec fn words_of_all(ps: Seq<Seq<char>>) -> Seq<Seq<char>>
    decreases ps.len(),
{
    if ps.len() == 0 {
        Seq::empty()
    } else {
        words_of(ps[0]) + words_of_all(ps.drop_first())
    }
}

/// A non-empty piece of text without white space.
pub open spec fn is_word(w: Seq<char>) -> bool {
    w.len() > 0 && forall|i: int| 0 <= i < w.len() ==> !is_ws(#[trigger] w[i])
}

/// Text without line feeds that does not end in a carriage return.
pub open spec fn is_line(l: Seq<char>) -> bool {
    (forall|i: int| 0 <= i < l.len() ==> #[trigger] l[i] != '\n') && (l.len() > 0 ==> l.last()
        != '\r')
}

pub proof fn lemma_words_skip_ws(s: Seq<char>)
    requires
        s.len() > 0,
        is_ws(s[0]),
    ensures
        words_of(s) == words_of(s.drop_first()),
{
    lemma_leading_bounds(s.drop_first());
    assert(s.skip(leading_ws(s)) =~= s.drop_first().skip(leading_ws(s.drop_first())));
}

proof fn lemma_leading_word_is(s: Seq<char>, k: int)
    requires
        0 <= k <= s.len(),
        forall|j: int| 0 <= j < k ==> !is_ws(#[trigger] s[j]),
        k == s.len() || is_ws(s[k]),
    ensures
        leading_word(s) == k,
    decreases k,
{
    if k > 0 {
        let d = s.drop_first();
        assert forall|j: int| 0 <= j < k - 1 implies !is_ws(#[trigger] d[j]) by {
            assert(d[j] == s[j + 1]);
        }
        if k < s.len() {
            assert(d[k - 1] == s[k]);
        }
        lemma_leading_word_is(d, k - 1);
        assert(!is_ws(s[0]));
    }
}

/// A text that starts with a word of length `k` splits off that word first.
pub proof fn lemma_words_take_word(s: Seq<char>, k: int)
    requires
        1 <= k <= s.len(),
        forall|j: int| 0 <= j < k ==> !is_ws(#[trigger] s[j]),
        k == s.len() || is_ws(s[k]),
    ensures
        words_of(s) == seq![s.take(k)] + words_of(s.skip(k)),
{
    assert(!is_ws(s[0]));
    assert(leading_ws(s) == 0);
    assert(s.skip(0) =~= s);
    lemma_leading_word_is(s, k);
}

/// White space separates words: the words of `x c y` are those of `x` then those of `y`.
pub proof fn lemma_words_split(x: Seq<char>, c: char, y: Seq<char>)
    requires
        is_ws(c),
    ensures
        words_of(x + seq![c] + y) == words_of(x) + words_of(y),
    decreases x.len(),
{
    let s = x + seq![c] + y;
    if x.len() == 0 {
        assert(s.drop_first() =~= y);
        lemma_words_skip_ws(s);
        assert(words_of(x) =~= Seq::<Seq<char>>::empty()) by {
            assert(x.skip(leading_ws(x)).len() == 0);
        }
        assert(words_of(s) =~= words_of(x) + words_of(y));
    } else if is_ws(x[0]) {
        lemma_words_skip_ws(s);
        lemma_words_skip_ws(x);
        assert(s.drop_first() =~= x.drop_first() + seq![c] + y);
        lemma_words_split(x.drop_first(), c, y);
    } else {
        let k = leading_word(x);
        lemma_leading_bounds(x);
        lemma_leading_word_facts(x);
        assert forall|j: int| 0 <= j < k implies !is_ws(#[trigger] s[j]) by {
            assert(s[j] == x[j]);
        }
        if k < x.len() {
            assert(s[k] == x[k]);
        } else {
            assert(s[k] == c);
        }
        lemma_words_take_word(s, k);
        lemma_words_take_word(x, k);
        assert(s.take(k) =~= x.take(k));
        assert(s.skip(k) =~= x.skip(k) + seq![c] + y);
        lemma_words_split(x.skip(k), c, y);
    }
}

/// The leading word of `s` holds no white space and ends at white space or at the end.
pub proof fn lemma_leading_word_facts(s: Seq<char>)
    ensures
        forall|j: int| 0 <= j < leading_word(s) ==> !is_ws(#[trigger] s[j]),
        leading_word(s) == s.len() || is_ws(s[leading_word(s)]),
    decreases s.len(),
{
    lemma_leading_bounds(s);
    if s.len() > 0 && !is_ws(s[0]) {
        let d = s.drop_first();
        lemma_leading_word_facts(d);
        assert forall|j: int| 0 <= j < leading_word(s) implies !is_ws(#[trigger] s[j]) by {
            if j > 0 {
                assert(s[j] == d[j - 1]);
            }
        }
        if leading_word(s) < s.len() {
            assert(s[leading_word(s)] == d[leading_word(d)]);
        }
    }
}

/// A word is its own only word.
pub proof fn lemma_words_of_word(w: Seq<char>)
    requires
        is_word(w),
    ensures
        words_of(w) == seq![w],
{
    lemma_words_take_word(w, w.len() as int);
    assert(w.take(w.len() as int) =~= w);
    assert(w.skip(w.len() as int).len() == 0);
    let e = w.skip(w.len() as int);
    assert(words_of(e) =~= Seq::<Seq<char>>::empty()) by {
        assert(e.skip(leading_ws(e)).len() == 0);
    }
}

/// The words of pieces joined by spaces are the words of the pieces.
pub proof fn lemma_words_join(ps: Seq<Seq<char>>)
    ensures
        words_of(join_words(ps)) == words_of_all(ps),
    decreases ps.len(),
{
    if ps.len() == 0 {
        let e = join_words(ps);
        assert(words_of(e) =~= Seq::<Seq<char>>::empty()) by {
            assert(e.skip(leading_ws(e)).len() == 0);
        }
    } else if ps.len() == 1 {
        assert(ps.drop_first().len() == 0);
        assert(words_of_all(ps.drop_first()) =~= Seq::<Seq<char>>::empty());
        assert(words_of_all(ps) =~= words_of(ps[0]));
    } else {
        lemma_words_split(ps[0], ' ', join_words(ps.drop_first()));
        lemma_words_join(ps.drop_first());
    }
}

/// Words joined by spaces split back into the same words.
pub proof fn lemma_words_join_words(ws: Seq<Seq<char>>)
    requires
        forall|i: int| 0 <= i < ws.len() ==> is_word(#[trigger] ws[i]),
    ensures
        words_of(join_words(ws)) == ws,
        words_of_all(ws) == ws,
    decreases ws.len(),
{
    lemma_words_join(ws);
    if ws.len() > 0 {
        lemma_words_of_word(ws[0]);
        let d = ws.drop_first();
        assert forall|i: int| 0 <= i < d.len() implies is_word(#[trigger] d[i]) by {
            assert(d[i] == ws[i + 1]);
        }
        lemma_words_join_words(d);
        assert(words_of_all(ws) =~= seq![ws[0]] + d);
        assert(ws =~= seq![ws[0]] + d);
    } else {
        assert(words_of_all(ws) =~= ws);
    }
}

pub proof fn lemma_join_words_push(ws: Seq<Seq<char>>, w: Seq<char>)
    ensures
        join_words(ws.push(w)) == (if ws.len() == 0 {
            w
        } else {
            join_words(ws) + seq![' '] + w
        }),
    decreases ws.len(),
{
    let t = ws.push(w);
    if ws.len() == 0 {
        assert(t.len() == 1 && t[0] == w);
    } else if ws.len() == 1 {
        assert(t.drop_first() =~= seq![w]);
        assert(t.drop_first().len() == 1);
        assert(join_words(t.drop_first()) == w);
        assert(t[0] == ws[0]);
        assert(join_words(ws) == ws[0]);
    } else {
        lemma_join_words_push(ws.drop_first(), w);
        assert(t.drop_first() =~= ws.drop_first().push(w));
        assert(join_words(t) =~= join_words(ws) + seq![' '] + w);
    }
}

pub proof fn lemma_join_lines_push(ls: Seq<Seq<char>>, l: Seq<char>)
    ensures
        join_lines(ls.push(l)) == join_lines(ls) + l + seq!['\n'],
    decreases ls.len(),
{
    let t = ls.push(l);
    if ls.len() == 0 {
        assert(t.drop_first() =~= Seq::<Seq<char>>::empty());
        assert(t[0] == l);
        assert(join_lines(t.drop_first()) =~= Seq::<char>::empty());
        assert(join_lines(ls) =~= Seq::<char>::empty());
        assert(join_lines(t) =~= l + seq!['\n']);
    } else {
        lemma_join_lines_push(ls.drop_first(), l);
        assert(t.drop_first() =~= ls.drop_first().push(l));
        assert(join_lines(t) =~= join_lines(ls) + l + seq!['\n']);
    }
}

/// Lines each ended by a line feed split back into the same lines.
pub proof fn lemma_lines_join(ls: Seq<Seq<char>>)
    requires
        forall|i: int| 0 <= i < ls.len() ==> is_line(#[trigger] ls[i]),
    ensures
        lines_of(join_lines(ls)) == ls,
    decreases ls.len(),
{
    if ls.len() > 0 {
        let l = ls[0];
        let s = join_lines(ls);
        let rest = join_lines(ls.drop_first());
        assert(s =~= l + seq!['\n'] + rest);
        assert(is_line(l));
        lemma_newline_index_is(s, l.len() as int);
        assert(s.take(l.len() as int) =~= l);
        assert(s.skip(l.len() as int + 1) =~= rest);
        let d = ls.drop_first();
        assert forall|i: int| 0 <= i < d.len() implies is_line(#[trigger] d[i]) by {
            assert(d[i] == ls[i + 1]);
        }
        lemma_lines_join(d);
        assert(ls =~= seq![l] + d);
    } else {
        assert(join_lines(ls).len() == 0);
        assert(lines_of(join_lines(ls)) =~= ls);
    }
}

/// The first line feed of `s` is at `k` when `s[k]` is one and none comes before it.
pub proof fn lemma_newline_index_is(s: Seq<char>, k: int)
    requires
        0 <= k < s.len(),
        s[k] == '\n',
        forall|j: int| 0 <= j < k ==> #[trigger] s[j] != '\n',
    ensures
        newline_index(s) == k,
    decreases k,
{
    if k > 0 {
        let d = s.drop_first();
        assert forall|j: int| 0 <= j < k - 1 implies #[trigger] d[j] != '\n' by {
            assert(d[j] == s[j + 1]);
        }
        assert(s[0] != '\n');
        lemma_newline_index_is(d, k - 1);
    }
}

} // verus!

verus! {

// ---------------------------------------------------------------------------
// Executable text handling
// ---------------------------------------------------------------------------

/// The views of a sequence of character vectors.
pub open spec fn texts_view(v: Seq<Vec<char>>) -> Seq<Seq<char>> {
    v.map_values(|t: Vec<char>| t@)
}

/// The characters of a string.
pub fn chars_of(s: &str) -> (v: Vec<char>)
    ensures
        v@ == s@,
{
    let mut v: Vec<char> = Vec::new();
    for c in it: s.chars()
        invariant
            v@.len() == it.index(),
            forall|i: int| 0 <= i < it.index() ==> v@[i] == it.seq()[i],
    {
        v.push(c);
    }
    proof {
        assert(v@ =~= vstd::string::spec_iter(s).remaining());
    }
    v
}

/// The characters of `text` from `start` up to `end`.
pub fn slice_chars(text: &Vec<char>, start: usize, end: usize) -> (v: Vec<char>)
    requires
        start <= end <= text.len(),
    ensures
        v@ == text@.subrange(start as int, end as int),
{
    let mut v: Vec<char> = Vec::new();
    let mut i = start;
    while i < end
        invariant
            start <= i <= end <= text.len(),
            v@ == text@.subrange(start as int, i as int),
        decreases end - i,
    {
        v.push(text[i]);
        proof {
            assert(v@ =~= text@.subrange(start as int, i + 1));
        }
        i = i + 1;
    }
    v
}

/// Splits a text into lines (see `lines_of`).
pub fn split_lines(text: &Vec<char>) -> (lines: Vec<Vec<char>>)
    ensures
        texts_view(lines@) == lines_of(text@),
{
    let n = text.len();
    let mut lines: Vec<Vec<char>> = Vec::new();
    let mut start: usize = 0;
    let mut i: usize = 0;
    proof {
        assert(text@.skip(0) =~= text@);
        assert(texts_view(lines@) =~= Seq::<Seq<char>>::empty());
        assert(Seq::<Seq<char>>::empty() + lines_of(text@) =~= lines_of(text@));
    }
    while i < n
        invariant
            n == text.len(),
            start <= i <= n,
            forall|j: int| start <= j < i ==> #[trigger] text@[j] != '\n',
            lines_of(text@) == texts_view(lines@) + lines_of(text@.skip(start as int)),
        decreases n - i,
    {
        if text[i] == '\n' {
            let mut end = i;
            if end > start && text[end - 1] == '\r' {
                end = end - 1;
            }
            let line = slice_chars(text, start, end);
            proof {
                let r = text@.skip(start as int);
                assert forall|j: int| 0 <= j < i - start implies #[trigger] r[j] != '\n' by {
                    assert(r[j] == text@[start + j]);
                }
                lemma_newline_index_is(r, i - start);
                assert(r.skip(i - start + 1) =~= text@.skip(i + 1));
                assert(line@ =~= (if r.take(i - start).len() > 0 && r.take(i - start).last()
                    == '\r' {
                    r.take(i - start).drop_last()
                } else {
                    r.take(i - start)
                }));
                assert(texts_view(lines@.push(line)) =~= texts_view(lines@).push(line@));
            }
            lines.push(line);
            start = i + 1;
        }
        i = i + 1;
    }
    if start < n {
        let line = slice_chars(text, start, n);
        proof {
            let r = text@.skip(start as int);
            lemma_newline_index_bounds(r);
            if newline_index(r) < r.len() {
                assert(r[newline_index(r)] == text@[start + newline_index(r)]);
            }
            assert(line@ =~= r);
            assert(texts_view(lines@.push(line)) =~= texts_view(lines@).push(line@));
        }
        lines.push(line);
    } else {
        proof {
            assert(text@.skip(start as int).len() == 0);
        }
    }
    proof {
        assert(text@.skip(n as int).len() == 0);
    }
    lines
}

/// Splits a line into its words (see `words_of`).
pub fn split_words(line: &Vec<char>) -> (words: Vec<Vec<char>>)
    ensures
        texts_view(words@) == words_of(line@),
{
    let n = line.len();
    let mut words: Vec<Vec<char>> = Vec::new();
    let mut i: usize = 0;
    proof {
        assert(line@.skip(0) =~= line@);
        assert(texts_view(words@) =~= Seq::<Seq<char>>::empty());
        assert(Seq::<Seq<char>>::empty() + words_of(line@) =~= words_of(line@));
    }
    while i < n
        invariant
            n == line.len(),
            i <= n,
            words_of(line@) == texts_view(words@) + words_of(line@.skip(i as int)),
        decreases n - i,
    {
        if is_whitespace(line[i]) {
            proof {
                let r = line@.skip(i as int);
                lemma_words_skip_ws(r);
                assert(r.drop_first() =~= line@.skip(i + 1));
            }
            i = i + 1;
        } else {
            let start = i;
            while i < n && !is_whitespace(line[i])
                invariant
                    n == line.len(),
                    start <= i <= n,
                    start < n,
                    forall|j: int| start <= j < i ==> !is_ws(#[trigger] line@[j]),
                    !is_ws(line@[start as int]),
                decreases n - i,
            {
                i = i + 1;
            }
            let word = slice_chars(line, start, i);
            proof {
                let r = line@.skip(start as int);
                assert forall|j: int| 0 <= j < i - start implies !is_ws(#[trigger] r[j]) by {
                    assert(r[j] == line@[start + j]);
                }
                if i < n {
                    assert(r[i - start] == line@[i as int]);
                }
                if i == start {
                    assert(false);
                }
                lemma_words_take_word(r, i - start);
                assert(r.take(i - start) =~= word@);
                assert(r.skip(i - start) =~= line@.skip(i as int));
                assert(texts_view(words@.push(word)) =~= texts_view(words@).push(word@));
            }
            words.push(word);
        }
    }
    proof {
        let e = line@.skip(n as int);
        assert(e.len() == 0);
        assert(words_of(e) =~= Seq::<Seq<char>>::empty()) by {
            assert(e.skip(leading_ws(e)).len() == 0);
        }
        assert(words_of(line@) =~= texts_view(words@));
    }
    words
}

fn digit_to_char(d: u128) -> (c: char)
    requires
        d < 10,
    ensures
        c == digit_char(d as int),
{
    if d == 0 {
        '0'
    } else if d == 1 {
        '1'
    } else if d == 2 {
        '2'
    } else if d == 3 {
        '3'
    } else if d == 4 {
        '4'
    } else if d == 5 {
        '5'
    } else if d == 6 {
        '6'
    } else if d == 7 {
        '7'
    } else if d == 8 {
        '8'
    } else {
        '9'
    }
}

fn push_digits(out: &mut String, n: u128)
    ensures
        final(out)@ == old(out)@ + digits_of(n as nat),
    decreases n,
{
    if n >= 10 {
        push_digits(out, n / 10);
    }
    let c = digit_to_char(n % 10);
    crate::stdlib::push_char(out, c);
    proof {
        if n >= 10 {
            assert(digits_of(n as nat) == digits_of((n / 10) as nat).push(c));
        } else {
            assert(digits_of(n as nat) =~= seq![c]);
        }
    }
}

/// Appends `v` written in decimal.
pub fn push_int(out: &mut String, v: i128)
    requires
        v > i128::MIN,
    ensures
        final(out)@ == old(out)@ + print_int(v as int),
{
    if v < 0 {
        crate::stdlib::push_char(out, '-');
        push_digits(out, (-v) as u128);
        proof {
            assert(final(out)@ =~= old(out)@ + print_int(v as int));
        }
    } else {
        push_digits(out, v as u128);
    }
}

} // verus!
