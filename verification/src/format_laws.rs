//! Laws of the instance text formats: how lines and words are cut, and what the
//! lines of a single-commodity text declare.

use crate::models::{Edge, ParseError};
use crate::roundtrip::lemma_print_is_word;
use crate::text::{
    is_line, is_word, is_ws, join_lines, join_words, leading_word, leading_ws,
    lemma_leading_bounds, lemma_leading_word_facts, lemma_newline_index_bounds,
    lemma_newline_index_is, lemma_print_parse_int, lemma_words_join_words, lemma_words_of_word,
    lemma_words_split, lines_of, newline_index, parse_int, print_int, words_of,
};
use crate::utils::{
    MinLine, MultiAcc, i64_fields, min_fold, min_line, multi_fold, multi_step, spec_parse_min,
    spec_parse_multi,
};
use vstd::prelude::*;

verus! {

/// A line without its final carriage return, if it has one.
pub open spec fn without_cr(l: Seq<char>) -> Seq<char> {
    if l.len() > 0 && l.last() == '\r' {
        l.drop_last()
    } else {
        l
    }
}

proof fn lemma_no_line_feed(s: Seq<char>)
    requires
        forall|j: int| 0 <= j < s.len() ==> s[j] != '\n',
    ensures
        newline_index(s) == s.len(),
{
    lemma_newline_index_bounds(s);
}

/// Text that does not end in a line feed ends in a last line that holds its last
/// character; ending it with a line feed changes only that last line, which loses a
/// final carriage return.
pub proof fn lemma_lines_of_line_feed(s: Seq<char>)
    requires
        s.len() > 0,
        s.last() != '\n',
    ensures
        lines_of(s).len() > 0,
        lines_of(s).last().len() > 0,
        lines_of(s).last().last() == s.last(),
        lines_of(s.push('\n')) == lines_of(s).drop_last().push(without_cr(lines_of(s).last())),
    decreases s.len(),
{
    let t = s.push('\n');
    let i = newline_index(s);
    lemma_newline_index_bounds(s);
    if i >= s.len() {
        assert forall|j: int| 0 <= j < s.len() implies #[trigger] t[j] != '\n' by {
            assert(t[j] == s[j]);
        }
        lemma_newline_index_is(t, s.len() as int);
        assert(t.take(s.len() as int) =~= s);
        assert(t.skip(s.len() + 1int) =~= Seq::<char>::empty());
        assert(lines_of(Seq::<char>::empty()) =~= Seq::<Seq<char>>::empty());
        assert(lines_of(t) == seq![without_cr(s)] + lines_of(Seq::<char>::empty()));
        assert(lines_of(s) =~= seq![s]);
        assert(lines_of(t) =~= seq![without_cr(s)]);
        assert(lines_of(s).drop_last().push(without_cr(s)) =~= seq![without_cr(s)]);
    } else {
        assert(i < s.len() - 1);
        assert forall|j: int| 0 <= j < i implies #[trigger] t[j] != '\n' by {
            assert(t[j] == s[j]);
        }
        assert(t[i] == s[i]);
        lemma_newline_index_is(t, i);
        let r = s.skip(i + 1);
        assert(t.take(i) =~= s.take(i));
        assert(t.skip(i + 1) =~= r.push('\n'));
        assert(r.last() == s.last());
        lemma_lines_of_line_feed(r);
        let raw = s.take(i);
        let line = if raw.len() > 0 && raw.last() == '\r' {
            raw.drop_last()
        } else {
            raw
        };
        assert(lines_of(s) == seq![line] + lines_of(r));
        assert(lines_of(t) == seq![line] + lines_of(r.push('\n')));
        assert((seq![line] + lines_of(r)).drop_last() =~= seq![line] + lines_of(r).drop_last());
        assert((seq![line] + lines_of(r)).last() == lines_of(r).last());
        assert(lines_of(t) =~= lines_of(s).drop_last().push(without_cr(lines_of(s).last())));
    }
}

/// A final line feed adds no line: text that ends in neither a line feed nor a
/// carriage return has the same lines with a line feed appended.
pub proof fn lemma_final_line_feed_adds_no_line(s: Seq<char>)
    requires
        s.len() > 0,
        s.last() != '\n',
        s.last() != '\r',
    ensures
        lines_of(s.push('\n')) == lines_of(s),
{
    lemma_lines_of_line_feed(s);
    assert(lines_of(s).drop_last().push(lines_of(s).last()) =~= lines_of(s));
}

/// The last piece of a text is a line even when no line feed ends it: lines, each
/// ended by a line feed, followed by a non-empty piece without line feeds, split into
/// those lines and that piece.
pub proof fn lemma_unterminated_last_line(ls: Seq<Seq<char>>, last: Seq<char>)
    requires
        forall|i: int| 0 <= i < ls.len() ==> is_line(#[trigger] ls[i]),
        last.len() > 0,
        forall|j: int| 0 <= j < last.len() ==> last[j] != '\n',
    ensures
        lines_of(join_lines(ls) + last) == ls.push(last),
    decreases ls.len(),
{
    let s = join_lines(ls) + last;
    if ls.len() == 0 {
        assert(join_lines(ls) =~= Seq::<char>::empty());
        assert(s =~= last);
        lemma_no_line_feed(last);
        assert(lines_of(s) =~= seq![last]);
        assert(ls.push(last) =~= seq![last]);
    } else {
        let l = ls[0];
        let d = ls.drop_first();
        assert(is_line(l));
        let rest = join_lines(d) + last;
        assert(s =~= l + seq!['\n'] + rest);
        lemma_newline_index_is(s, l.len() as int);
        assert(s.take(l.len() as int) =~= l);
        assert(s.skip(l.len() as int + 1) =~= rest);
        assert forall|i: int| 0 <= i < d.len() implies is_line(#[trigger] d[i]) by {
            assert(d[i] == ls[i + 1]);
        }
        lemma_unterminated_last_line(d, last);
        assert(lines_of(s) == seq![l] + lines_of(rest));
        assert(ls.push(last) =~= seq![l] + d.push(last));
    }
}

/// A final carriage return changes no words.
proof fn lemma_words_without_cr(l: Seq<char>)
    ensures
        words_of(without_cr(l)) == words_of(l),
{
    if l.len() > 0 && l.last() == '\r' {
        let x = l.drop_last();
        lemma_words_split(x, '\r', Seq::<char>::empty());
        assert(x + seq!['\r'] + Seq::<char>::empty() =~= l);
        let e = Seq::<char>::empty();
        assert(words_of(e) =~= Seq::<Seq<char>>::empty()) by {
            assert(e.skip(leading_ws(e)).len() == 0);
        }
        assert(words_of(x) + words_of(e) =~= words_of(x));
    }
}

/// A single-commodity text reads the same whether or not a line feed ends it.
pub proof fn lemma_parse_min_final_line_feed(s: Seq<char>)
    requires
        s.len() > 0,
        s.last() != '\n',
    ensures
        spec_parse_min(s.push('\n')) == spec_parse_min(s),
{
    lemma_lines_of_line_feed(s);
    let ls = lines_of(s);
    let l = ls.last();
    let m = ls.drop_last().push(without_cr(l));
    lemma_words_without_cr(l);
    if l.last() == '\r' && l.len() > 1 {
        assert(without_cr(l)[0] == l[0]);
    }
    assert(min_line(without_cr(l)) == min_line(l));
    assert(m.drop_last() =~= ls.drop_last());
    assert(m.last() == without_cr(l));
}

/// A multi-commodity text reads the same whether or not a line feed ends it.
pub proof fn lemma_parse_multi_final_line_feed(s: Seq<char>)
    requires
        s.len() > 0,
        s.last() != '\n',
    ensures
        spec_parse_multi(s.push('\n')) == spec_parse_multi(s),
{
    lemma_lines_of_line_feed(s);
    let ls = lines_of(s);
    let l = ls.last();
    let m = ls.drop_last().push(without_cr(l));
    lemma_words_without_cr(l);
    assert(m.drop_last() =~= ls.drop_last());
    assert(m.last() == without_cr(l));
    assert forall|acc: MultiAcc| multi_step(acc, without_cr(l)) == multi_step(acc, l) by {}
}

/// An arc line of a single-commodity text declares the arc its words give: a line
/// that does not start with a space, whose first word is `a` and whose next five
/// words are the integers `t h l u c`, declares the arc from `t` to `h` with lower
/// bound `l`, upper bound `u` and cost `c`, whatever white space separates the words
/// and whatever follows them.
pub proof fn lemma_arc_line_declares_its_fields(
    line: Seq<char>,
    t: i64,
    h: i64,
    l: i64,
    u: i64,
    c: i64,
)
    requires
        line.len() > 0,
        line[0] != ' ',
        words_of(line).len() >= 6,
        words_of(line)[0] == seq!['a'],
        parse_int(words_of(line)[1], true, i64::MIN as int, i64::MAX as int) == Some(t as int),
        parse_int(words_of(line)[2], true, i64::MIN as int, i64::MAX as int) == Some(h as int),
        parse_int(words_of(line)[3], true, i64::MIN as int, i64::MAX as int) == Some(l as int),
        parse_int(words_of(line)[4], true, i64::MIN as int, i64::MAX as int) == Some(u as int),
        parse_int(words_of(line)[5], true, i64::MIN as int, i64::MAX as int) == Some(c as int),
    ensures
        min_line(line) == Ok::<MinLine, ParseError>(
            MinLine::Arc(Edge { tail: t, head: h, low: l, up: u, cost: c }),
        ),
{
    let ws = words_of(line);
    lemma_first_word_not_comment(line);
    assert(ws[0] != seq!['p']) by {
        assert(ws[0][0] == 'a');
    }
    assert(ws[0] != seq!['n']) by {
        assert(ws[0][0] == 'a');
    }
    reveal_with_fuel(i64_fields, 6);
    let f = seq![t, h, l, u, c];
    assert(i64_fields(ws, 6, 0) == Ok::<Seq<i64>, ParseError>(Seq::empty()));
    assert(seq![c] + Seq::<i64>::empty() =~= seq![c]);
    assert(i64_fields(ws, 5, 1) == Ok::<Seq<i64>, ParseError>(seq![c]));
    assert(seq![u] + seq![c] =~= seq![u, c]);
    assert(i64_fields(ws, 4, 2) == Ok::<Seq<i64>, ParseError>(seq![u, c]));
    assert(seq![l] + seq![u, c] =~= seq![l, u, c]);
    assert(i64_fields(ws, 3, 3) == Ok::<Seq<i64>, ParseError>(seq![l, u, c]));
    assert(seq![h] + seq![l, u, c] =~= seq![h, l, u, c]);
    assert(i64_fields(ws, 2, 4) == Ok::<Seq<i64>, ParseError>(seq![h, l, u, c]));
    assert(seq![t] + seq![h, l, u, c] =~= f);
    assert(i64_fields(ws, 1, 5) == Ok::<Seq<i64>, ParseError>(f));
}

/// A line whose first word does not start with `c` does not start with `c`.
proof fn lemma_first_word_not_comment(line: Seq<char>)
    requires
        line.len() > 0,
        words_of(line).len() > 0,
        words_of(line)[0].len() > 0,
        words_of(line)[0][0] != 'c',
    ensures
        line[0] != 'c',
{
    let ws = words_of(line);
    lemma_leading_bounds(line);
    if line[0] == 'c' {
        assert(leading_ws(line) == 0);
        assert(line.skip(0) =~= line);
        assert(ws[0] == line.take(leading_word(line)));
        assert(ws[0][0] == 'c');
    }
}

/// A node line of a single-commodity text declares the supply its words give: a line
/// that does not start with a space, whose first word is `n` and whose next two
/// words are the integers `id v`, gives node `id` the supply `v`.
pub proof fn lemma_node_line_declares_its_supply(line: Seq<char>, id: i64, v: i64)
    requires
        line.len() > 0,
        line[0] != ' ',
        words_of(line).len() >= 3,
        words_of(line)[0] == seq!['n'],
        parse_int(words_of(line)[1], true, i64::MIN as int, i64::MAX as int) == Some(id as int),
        parse_int(words_of(line)[2], true, i64::MIN as int, i64::MAX as int) == Some(v as int),
    ensures
        min_line(line) == Ok::<MinLine, ParseError>(MinLine::Node(id, v)),
{
    let ws = words_of(line);
    lemma_first_word_not_comment(line);
    assert(ws[0] != seq!['p']) by {
        assert(ws[0][0] == 'n');
    }
    reveal_with_fuel(i64_fields, 3);
    assert(seq![v] + Seq::<i64>::empty() =~= seq![v]);
    assert(i64_fields(ws, 2, 1) == Ok::<Seq<i64>, ParseError>(seq![v]));
    assert(seq![id] + seq![v] =~= seq![id, v]);
    assert(i64_fields(ws, 1, 2) == Ok::<Seq<i64>, ParseError>(seq![id, v]));
}

/// The problem line of a single-commodity text declares the sizes its words give: a
/// line that does not start with a space, whose first word is `p` and whose third and
/// fourth words are the integers `nodes arcs`, declares `nodes` nodes and `arcs`
/// arcs, and is refused when `arcs` is negative.
pub proof fn lemma_problem_line_declares_its_sizes(line: Seq<char>, nodes: i64, arcs: i64)
    requires
        line.len() > 0,
        line[0] != ' ',
        words_of(line).len() >= 4,
        words_of(line)[0] == seq!['p'],
        parse_int(words_of(line)[2], true, i64::MIN as int, i64::MAX as int) == Some(
            nodes as int,
        ),
        parse_int(words_of(line)[3], true, i64::MIN as int, i64::MAX as int) == Some(arcs as int),
    ensures
        min_line(line) == (if arcs < 0 {
            Err::<MinLine, ParseError>(ParseError::NegativeArcCount)
        } else {
            Ok::<MinLine, ParseError>(MinLine::Problem(nodes, arcs))
        }),
{
    let ws = words_of(line);
    lemma_first_word_not_comment(line);
    reveal_with_fuel(i64_fields, 3);
    assert(seq![arcs] + Seq::<i64>::empty() =~= seq![arcs]);
    assert(i64_fields(ws, 3, 1) == Ok::<Seq<i64>, ParseError>(seq![arcs]));
    assert(seq![nodes] + seq![arcs] =~= seq![nodes, arcs]);
    assert(i64_fields(ws, 2, 2) == Ok::<Seq<i64>, ParseError>(seq![nodes, arcs]));
}

/// The arc line `a t h l u c` that writes five integers with single spaces declares
/// the arc from `t` to `h` with lower bound `l`, upper bound `u` and cost `c`.
pub proof fn lemma_written_arc_line_reads_back(t: i64, h: i64, l: i64, u: i64, c: i64)
    ensures
        min_line(
            join_words(
                seq![
                    seq!['a'],
                    print_int(t as int),
                    print_int(h as int),
                    print_int(l as int),
                    print_int(u as int),
                    print_int(c as int),
                ],
            ),
        ) == Ok::<MinLine, ParseError>(
            MinLine::Arc(Edge { tail: t, head: h, low: l, up: u, cost: c }),
        ),
{
    let ws = seq![
        seq!['a'],
        print_int(t as int),
        print_int(h as int),
        print_int(l as int),
        print_int(u as int),
        print_int(c as int),
    ];
    lemma_print_is_word(t as int);
    lemma_print_is_word(h as int);
    lemma_print_is_word(l as int);
    lemma_print_is_word(u as int);
    lemma_print_is_word(c as int);
    assert(is_word(seq!['a']));
    assert forall|i: int| 0 <= i < ws.len() implies is_word(#[trigger] ws[i]) by {
        if i == 0 {
        } else if i == 1 {
        } else if i == 2 {
        } else if i == 3 {
        } else if i == 4 {
        } else {
        }
    }
    lemma_words_join_words(ws);
    let line = join_words(ws);
    lemma_print_parse_int(t as int, true, i64::MIN as int, i64::MAX as int);
    lemma_print_parse_int(h as int, true, i64::MIN as int, i64::MAX as int);
    lemma_print_parse_int(l as int, true, i64::MIN as int, i64::MAX as int);
    lemma_print_parse_int(u as int, true, i64::MIN as int, i64::MAX as int);
    lemma_print_parse_int(c as int, true, i64::MIN as int, i64::MAX as int);
    lemma_join_words_starts_with_first(ws);
    lemma_arc_line_declares_its_fields(line, t, h, l, u, c);
}

/// Words joined by spaces start with the first word.
proof fn lemma_join_words_starts_with_first(ws: Seq<Seq<char>>)
    requires
        ws.len() > 0,
        ws[0].len() > 0,
    ensures
        join_words(ws).len() > 0,
        join_words(ws)[0] == ws[0][0],
{
    if ws.len() > 1 {
        assert((ws[0] + seq![' '] + join_words(ws.drop_first()))[0] == ws[0][0]);
    }
}

/// `a` and `b` have the same length and differ only where both hold white space.
pub open spec fn ws_alike(a: Seq<char>, b: Seq<char>) -> bool {
    &&& a.len() == b.len()
    &&& forall|j: int|
        0 <= j < a.len() ==> a[j] == b[j] || (is_ws(#[trigger] a[j]) && is_ws(b[j]))
}

/// Lines alike as words, with the same first character when `starts`.
pub open spec fn lines_alike(a: Seq<char>, b: Seq<char>, starts: bool) -> bool {
    &&& ws_alike(a, b)
    &&& starts && a.len() > 0 ==> a[0] == b[0]
}

/// Texts of the same length that differ only where both hold white space other than
/// a line feed or a carriage return, and, when `starts`, never at the start of a line.
pub open spec fn text_alike(a: Seq<char>, b: Seq<char>, starts: bool) -> bool {
    &&& a.len() == b.len()
    &&& forall|j: int|
        0 <= j < a.len() ==> a[j] == b[j] || {
            &&& is_ws(#[trigger] a[j]) && is_ws(b[j])
            &&& a[j] != '\n' && b[j] != '\n' && a[j] != '\r' && b[j] != '\r'
            &&& starts ==> j > 0 && a[j - 1] != '\n'
        }
}

proof fn lemma_ws_alike_skip(a: Seq<char>, b: Seq<char>, k: int)
    requires
        ws_alike(a, b),
        0 <= k <= a.len(),
    ensures
        ws_alike(a.skip(k), b.skip(k)),
        ws_alike(a.take(k), b.take(k)),
{
    assert forall|j: int| 0 <= j < a.len() - k implies a.skip(k)[j] == b.skip(k)[j] || (is_ws(
        #[trigger] a.skip(k)[j],
    ) && is_ws(b.skip(k)[j])) by {
        assert(a.skip(k)[j] == a[j + k]);
    }
    assert forall|j: int| 0 <= j < k implies a.take(k)[j] == b.take(k)[j] || (is_ws(
        #[trigger] a.take(k)[j],
    ) && is_ws(b.take(k)[j])) by {
        assert(a.take(k)[j] == a[j]);
    }
}

proof fn lemma_leading_alike(a: Seq<char>, b: Seq<char>)
    requires
        ws_alike(a, b),
    ensures
        leading_ws(a) == leading_ws(b),
        leading_word(a) == leading_word(b),
    decreases a.len(),
{
    if a.len() > 0 {
        assert(a[0] == b[0] || (is_ws(a[0]) && is_ws(b[0])));
        lemma_ws_alike_skip(a, b, 1);
        assert(a.skip(1) =~= a.drop_first());
        assert(b.skip(1) =~= b.drop_first());
        lemma_leading_alike(a.drop_first(), b.drop_first());
    }
}

/// Which white space separates words does not matter: texts that differ only where
/// both hold white space have the same words.
pub proof fn lemma_words_alike(a: Seq<char>, b: Seq<char>)
    requires
        ws_alike(a, b),
    ensures
        words_of(a) == words_of(b),
    decreases a.len(),
{
    lemma_leading_alike(a, b);
    lemma_leading_bounds(a);
    lemma_leading_bounds(b);
    let n = leading_ws(a);
    let ra = a.skip(n);
    let rb = b.skip(n);
    lemma_ws_alike_skip(a, b, n);
    if ra.len() > 0 {
        assert(ra[0] == a[n]);
        lemma_leading_alike(ra, rb);
        lemma_leading_bounds(ra);
        lemma_leading_word_facts(ra);
        let w = leading_word(ra);
        assert(ra.take(w) =~= rb.take(w)) by {
            assert forall|j: int| 0 <= j < w implies ra.take(w)[j] == rb.take(w)[j] by {
                assert(!is_ws(ra[j]));
            }
        }
        lemma_ws_alike_skip(ra, rb, w);
        lemma_words_alike(ra.skip(w), rb.skip(w));
    }
}

proof fn lemma_newline_alike(a: Seq<char>, b: Seq<char>)
    requires
        a.len() == b.len(),
        forall|j: int| 0 <= j < a.len() ==> (#[trigger] a[j] == '\n') == (b[j] == '\n'),
    ensures
        newline_index(a) == newline_index(b),
    decreases a.len(),
{
    if a.len() > 0 {
        let da = a.drop_first();
        let db = b.drop_first();
        assert forall|j: int| 0 <= j < da.len() implies (#[trigger] da[j] == '\n') == (db[j]
            == '\n') by {
            assert(da[j] == a[j + 1]);
            assert(db[j] == b[j + 1]);
        }
        assert((a[0] == '\n') == (b[0] == '\n'));
        lemma_newline_alike(da, db);
    }
}

/// Texts alike in the sense of `text_alike` cut into as many lines, pairwise alike.
pub proof fn lemma_lines_alike(a: Seq<char>, b: Seq<char>, starts: bool)
    requires
        text_alike(a, b, starts),
    ensures
        lines_of(a).len() == lines_of(b).len(),
        forall|k: int|
            0 <= k < lines_of(a).len() ==> lines_alike(
                #[trigger] lines_of(a)[k],
                lines_of(b)[k],
                starts,
            ),
    decreases a.len(),
{
    if a.len() > 0 {
        assert forall|j: int| 0 <= j < a.len() implies (#[trigger] a[j] == '\n') == (b[j]
            == '\n') by {
            assert(a[j] == b[j] || (a[j] != '\n' && b[j] != '\n'));
        }
        lemma_newline_alike(a, b);
        lemma_newline_index_bounds(a);
        let i = newline_index(a);
        assert(starts ==> a[0] == b[0]);
        assert(ws_alike(a, b)) by {
            assert forall|j: int| 0 <= j < a.len() implies a[j] == b[j] || (is_ws(#[trigger] a[j])
                && is_ws(b[j])) by {
                assert(a[j] == b[j] || (is_ws(a[j]) && is_ws(b[j])));
            }
        }
        if i >= a.len() {
            assert(lines_of(a) =~= seq![a]);
            assert(lines_of(b) =~= seq![b]);
        } else {
            let ra = a.take(i);
            let rb = b.take(i);
            lemma_ws_alike_skip(a, b, i);
            let la = if ra.len() > 0 && ra.last() == '\r' { ra.drop_last() } else { ra };
            let lb = if rb.len() > 0 && rb.last() == '\r' { rb.drop_last() } else { rb };
            if i > 0 {
                assert(ra.last() == a[i - 1]);
                assert(rb.last() == b[i - 1]);
                assert(a[i - 1] == b[i - 1] || (a[i - 1] != '\r' && b[i - 1] != '\r'));
            }
            assert(lines_alike(la, lb, starts)) by {
                if ra.len() > 0 && ra.last() == '\r' {
                    lemma_ws_alike_skip(ra, rb, i - 1);
                    assert(ra.take(i - 1) =~= la);
                    assert(rb.take(i - 1) =~= lb);
                } else {
                    assert(la == ra && lb == rb);
                }
                if starts && la.len() > 0 {
                    assert(la[0] == a[0]);
                    assert(lb[0] == b[0]);
                }
            }
            let sa = a.skip(i + 1);
            let sb = b.skip(i + 1);
            assert(text_alike(sa, sb, starts)) by {
                assert forall|j: int| 0 <= j < sa.len() implies sa[j] == sb[j] || {
                    &&& is_ws(#[trigger] sa[j]) && is_ws(sb[j])
                    &&& sa[j] != '\n' && sb[j] != '\n' && sa[j] != '\r' && sb[j] != '\r'
                    &&& starts ==> j > 0 && sa[j - 1] != '\n'
                } by {
                    assert(sa[j] == a[i + 1 + j]);
                    assert(sb[j] == b[i + 1 + j]);
                    if j > 0 {
                        assert(sa[j - 1] == a[i + j]);
                    }
                }
            }
            lemma_lines_alike(sa, sb, starts);
            assert(lines_of(a) == seq![la] + lines_of(sa));
            assert(lines_of(b) == seq![lb] + lines_of(sb));
            assert forall|k: int| 0 <= k < lines_of(a).len() implies lines_alike(
                #[trigger] lines_of(a)[k],
                lines_of(b)[k],
                starts,
            ) by {
                if k > 0 {
                    assert(lines_of(a)[k] == lines_of(sa)[k - 1]);
                    assert(lines_of(b)[k] == lines_of(sb)[k - 1]);
                }
            }
        }
    }
}

proof fn lemma_min_fold_alike(la: Seq<Seq<char>>, lb: Seq<Seq<char>>)
    requires
        la.len() == lb.len(),
        forall|k: int| 0 <= k < la.len() ==> lines_alike(#[trigger] la[k], lb[k], true),
    ensures
        min_fold(la) == min_fold(lb),
    decreases la.len(),
{
    if la.len() > 0 {
        let n = la.len() - 1;
        assert(lines_alike(la[n], lb[n], true));
        lemma_words_alike(la[n], lb[n]);
        assert(min_line(la.last()) == min_line(lb.last()));
        assert forall|k: int| 0 <= k < la.drop_last().len() implies lines_alike(
            #[trigger] la.drop_last()[k],
            lb.drop_last()[k],
            true,
        ) by {
            assert(lines_alike(la[k], lb[k], true));
        }
        lemma_min_fold_alike(la.drop_last(), lb.drop_last());
    }
}

proof fn lemma_multi_fold_alike(la: Seq<Seq<char>>, lb: Seq<Seq<char>>)
    requires
        la.len() == lb.len(),
        forall|k: int| 0 <= k < la.len() ==> lines_alike(#[trigger] la[k], lb[k], false),
    ensures
        multi_fold(la) == multi_fold(lb),
    decreases la.len(),
{
    if la.len() > 0 {
        let n = la.len() - 1;
        assert(lines_alike(la[n], lb[n], false));
        lemma_words_alike(la[n], lb[n]);
        assert forall|acc: MultiAcc| multi_step(acc, la.last()) == multi_step(acc, lb.last()) by {}
        assert forall|k: int| 0 <= k < la.drop_last().len() implies lines_alike(
            #[trigger] la.drop_last()[k],
            lb.drop_last()[k],
            false,
        ) by {
            assert(lines_alike(la[k], lb[k], false));
        }
        lemma_multi_fold_alike(la.drop_last(), lb.drop_last());
    }
}

/// Each character of Unicode's White_Space separates words: the words of `x c y` are
/// those of `x` then those of `y`.
pub proof fn lemma_white_space_separates(x: Seq<char>, c: char, y: Seq<char>)
    requires
        c == '\t' || c == '\n' || c == '\u{0B}' || c == '\u{0C}' || c == '\r' || c == ' ' || c
            == '\u{85}' || c == '\u{A0}' || c == '\u{1680}' || ('\u{2000}' <= c && c
            <= '\u{200A}') || c == '\u{2028}' || c == '\u{2029}' || c == '\u{202F}' || c
            == '\u{205F}' || c == '\u{3000}',
    ensures
        words_of(x + seq![c] + y) == words_of(x) + words_of(y),
{
    lemma_words_split(x, c, y);
}

/// Every character outside Unicode's White_Space belongs to a word: alone, it is
/// the one word of its text.
pub proof fn lemma_other_characters_form_words(c: char)
    requires
        !(c == '\t' || c == '\n' || c == '\u{0B}' || c == '\u{0C}' || c == '\r' || c == ' ' || c
            == '\u{85}' || c == '\u{A0}' || c == '\u{1680}' || ('\u{2000}' <= c && c
            <= '\u{200A}') || c == '\u{2028}' || c == '\u{2029}' || c == '\u{202F}' || c
            == '\u{205F}' || c == '\u{3000}'),
    ensures
        words_of(seq![c]) == seq![seq![c]],
{
    assert(is_word(seq![c]));
    lemma_words_of_word(seq![c]);
}

/// A tab separates words as a space does.
pub proof fn lemma_tab_separates_like_space(x: Seq<char>, y: Seq<char>)
    ensures
        words_of(x + seq!['\t'] + y) == words_of(x + seq![' '] + y),
{
    lemma_white_space_separates(x, '\t', y);
    lemma_white_space_separates(x, ' ', y);
}

/// A multi-commodity text reads the same with a tab in place of a space.
pub proof fn lemma_parse_multi_tab_for_space(x: Seq<char>, y: Seq<char>)
    ensures
        spec_parse_multi(x + seq!['\t'] + y) == spec_parse_multi(x + seq![' '] + y),
{
    let a = x + seq!['\t'] + y;
    let b = x + seq![' '] + y;
    lemma_text_alike_tab(x, y, false);
    lemma_lines_alike(a, b, false);
    lemma_multi_fold_alike(lines_of(a), lines_of(b));
}

/// A single-commodity text reads the same with a tab in place of a space that does
/// not start a line (a line that starts with a space is skipped).
pub proof fn lemma_parse_min_tab_for_space(x: Seq<char>, y: Seq<char>)
    requires
        x.len() > 0,
        x.last() != '\n',
    ensures
        spec_parse_min(x + seq!['\t'] + y) == spec_parse_min(x + seq![' '] + y),
{
    let a = x + seq!['\t'] + y;
    let b = x + seq![' '] + y;
    lemma_text_alike_tab(x, y, true);
    lemma_lines_alike(a, b, true);
    lemma_min_fold_alike(lines_of(a), lines_of(b));
}

proof fn lemma_text_alike_tab(x: Seq<char>, y: Seq<char>, starts: bool)
    requires
        starts ==> x.len() > 0 && x.last() != '\n',
    ensures
        text_alike(x + seq!['\t'] + y, x + seq![' '] + y, starts),
{
    let a = x + seq!['\t'] + y;
    let b = x + seq![' '] + y;
    assert forall|j: int| 0 <= j < a.len() implies a[j] == b[j] || {
        &&& is_ws(#[trigger] a[j]) && is_ws(b[j])
        &&& a[j] != '\n' && b[j] != '\n' && a[j] != '\r' && b[j] != '\r'
        &&& starts ==> j > 0 && a[j - 1] != '\n'
    } by {
        if j != x.len() {
            if j < x.len() {
                assert(a[j] == x[j] && b[j] == x[j]);
            } else {
                assert(a[j] == y[j - x.len() - 1] && b[j] == y[j - x.len() - 1]);
            }
        } else if starts {
            assert(a[j - 1] == x.last());
        }
    }
}

} // verus!
