//! Splitting label text into numbered lines and whitespace-separated fields.
//!
//! A label file is read line by line: lines end at `\n` (a `\r` before it is
//! whitespace), blank lines are skipped, and each remaining line is split into
//! its maximal runs of non-whitespace characters. Whitespace is the Unicode
//! `White_Space` property, the one that `char::is_whitespace` tests.
use vstd::prelude::*;

verus! {

/// The Unicode `White_Space` characters.
pub open spec fn is_whitespace(c: char) -> bool {
    ||| ('\u{9}' <= c && c <= '\u{d}')
    ||| c == ' '
    ||| c == '\u{85}'
    ||| c == '\u{a0}'
    ||| c == '\u{1680}'
    ||| ('\u{2000}' <= c && c <= '\u{200a}')
    ||| c == '\u{2028}'
    ||| c == '\u{2029}'
    ||| c == '\u{202f}'
    ||| c == '\u{205f}'
    ||| c == '\u{3000}'
}

/// The pieces of `s` that lie between the characters satisfying `sep`.
/// There is always one piece more than there are separators.
pub open spec fn pieces(s: Seq<char>, sep: spec_fn(char) -> bool) -> Seq<Seq<char>>
    decreases s.len(),
{
    if s.len() == 0 {
        seq![Seq::<char>::empty()]
    } else {
        let p = pieces(s.drop_last(), sep);
        if sep(s.last()) {
            p.push(Seq::<char>::empty())
        } else {
            p.update(p.len() - 1, p.last().push(s.last()))
        }
    }
}

/// The line separator `\n`.
pub open spec fn newline_sep() -> spec_fn(char) -> bool {
    |c: char| c == '\n'
}

/// The field separators: the whitespace characters.
pub open spec fn whitespace_sep() -> spec_fn(char) -> bool {
    |c: char| is_whitespace(c)
}

/// The lines of `s`: the pieces between its `\n` characters.
pub open spec fn line_pieces(s: Seq<char>) -> Seq<Seq<char>> {
    pieces(s, newline_sep())
}

/// The pieces of `s` between its whitespace characters, empty ones included.
pub open spec fn word_pieces(s: Seq<char>) -> Seq<Seq<char>> {
    pieces(s, whitespace_sep())
}

/// A field of the text is non-empty.
pub open spec fn is_nonempty(t: Seq<char>) -> bool {
    t.len() > 0
}

/// The whitespace-separated fields of `s`: its maximal runs of
/// non-whitespace characters, in order.
pub open spec fn fields(s: Seq<char>) -> Seq<Seq<char>> {
    word_pieces(s).filter(|t: Seq<char>| is_nonempty(t))
}

/// A line holds at least one field.
pub open spec fn has_fields(l: (int, Seq<Seq<char>>)) -> bool {
    l.1.len() > 0
}

/// Numbers the given lines from 1 and keeps, with its number, the fields of
/// each line that has any.
pub open spec fn numbered_fields(lines: Seq<Seq<char>>) -> Seq<(int, Seq<Seq<char>>)> {
    lines.map(|i: int, l: Seq<char>| (i + 1, fields(l))).filter(
        |l: (int, Seq<Seq<char>>)| has_fields(l),
    )
}

/// The non-blank lines of `s`, each with its 1-based line number and its fields.
pub open spec fn label_lines(s: Seq<char>) -> Seq<(int, Seq<Seq<char>>)> {
    numbered_fields(line_pieces(s))
}

/// A non-blank line of a label text: its 1-based number and its fields.
pub struct LabelLine {
    /// The line's number, counting from 1.
    pub number: usize,
    /// The line's whitespace-separated fields, in order.
    pub fields: Vec<String>,
}

/// The views of a sequence of strings.
pub open spec fn strings_view(v: Seq<String>) -> Seq<Seq<char>> {
    v.map_values(|s: String| s@)
}

impl View for LabelLine {
    type V = (int, Seq<Seq<char>>);

    open spec fn view(&self) -> (int, Seq<Seq<char>>) {
        (self.number as int, strings_view(self.fields@))
    }
}

/// The views of a sequence of label lines.
pub open spec fn lines_view(v: Seq<LabelLine>) -> Seq<(int, Seq<Seq<char>>)> {
    v.map_values(|l: LabelLine| l@)
}

/// There is one piece more than there are separators, and the separators
/// together with the last piece take no more than all of `s`.
pub proof fn lemma_pieces_len(s: Seq<char>, sep: spec_fn(char) -> bool)
    ensures
        pieces(s, sep).len() >= 1,
        pieces(s, sep).len() + pieces(s, sep).last().len() <= s.len() + 1,
    decreases s.len(),
{
    if s.len() > 0 {
        lemma_pieces_len(s.drop_last(), sep);
    }
}

/// Appending a character to `s` either opens a new piece or extends the last one.
proof fn lemma_pieces_push(s: Seq<char>, c: char, sep: spec_fn(char) -> bool)
    ensures
        pieces(s.push(c), sep) == if sep(c) {
            pieces(s, sep).push(Seq::<char>::empty())
        } else {
            pieces(s, sep).update(pieces(s, sep).len() - 1, pieces(s, sep).last().push(c))
        },
{
    assert(s.push(c).drop_last() =~= s);
    assert(s.push(c).last() == c);
}

/// Numbering lines and keeping those with fields, one line at a time.
proof fn lemma_numbered_fields_push(lines: Seq<Seq<char>>, l: Seq<char>)
    ensures
        numbered_fields(lines.push(l)) == if fields(l).len() > 0 {
            numbered_fields(lines).push((lines.len() + 1int, fields(l)))
        } else {
            numbered_fields(lines)
        },
{
    let f = |i: int, l: Seq<char>| (i + 1, fields(l));
    let keep = |l: (int, Seq<Seq<char>>)| has_fields(l);
    assert(lines.push(l).map(f) =~= lines.map(f).push((lines.len() + 1int, fields(l))));
    lines.map(f).lemma_filter_push((lines.len() + 1int, fields(l)), keep);
}

/// Keeping the non-empty pieces, one piece at a time.
proof fn lemma_nonempty_push(ps: Seq<Seq<char>>, t: Seq<char>)
    ensures
        ps.push(t).filter(|t: Seq<char>| is_nonempty(t)) == if t.len() > 0 {
            ps.filter(|t: Seq<char>| is_nonempty(t)).push(t)
        } else {
            ps.filter(|t: Seq<char>| is_nonempty(t))
        },
{
    ps.lemma_filter_push(t, |t: Seq<char>| is_nonempty(t));
}

/// The characters of a string, in order.
pub(crate) fn chars_of(s: &str) -> (res: Vec<char>)
    ensures
        res@ == s@,
{
    broadcast use vstd::string::group_string_axioms;
    let mut res: Vec<char> = Vec::new();
    for c in it: s.chars()
        invariant
            it.seq() == s@,
            res@ == it.seq().take(it.index()),
    {
        res.push(c);
        assert(res@ =~= it.seq().take(it.index() + 1));
    }
    assert(res@ =~= s@);
    res
}

/// Appends a character to a string.
#[verifier::external_body]
pub(crate) fn push_char(s: &mut String, c: char)
    ensures
        final(s)@ == old(s)@.push(c),
{
    s.push(c)
}

/// Whether `c` has the Unicode `White_Space` property.
pub fn is_whitespace_char(c: char) -> (res: bool)
    ensures
        res == is_whitespace(c),
{
    ('\u{9}' <= c && c <= '\u{d}') || c == ' ' || c == '\u{85}' || c == '\u{a0}' || c
        == '\u{1680}' || ('\u{2000}' <= c && c <= '\u{200a}') || c == '\u{2028}' || c
        == '\u{2029}' || c == '\u{202f}' || c == '\u{205f}' || c == '\u{3000}'
}

/// Splits `text` into its non-blank lines, each with its 1-based line number
/// and its whitespace-separated fields.
pub fn scan_label_text(text: &str) -> (lines: Vec<LabelLine>)
    ensures
        lines_view(lines@) == label_lines(text@),
{
    let chars = chars_of(text);
    let n = chars.len();
    let ghost s = text@;
    let mut lines: Vec<LabelLine> = Vec::new();
    let mut line_fields: Vec<String> = Vec::new();
    let mut current = String::new();
    let mut done: usize = 0;
    let mut i: usize = 0;
    proof {
        assert(s.take(0) =~= Seq::<char>::empty());
        assert(seq![Seq::<char>::empty()].drop_last() =~= Seq::<Seq<char>>::empty());
        assert(numbered_fields(Seq::<Seq<char>>::empty()) =~= Seq::<(int, Seq<Seq<char>>)>::empty()) by {
            reveal(Seq::filter);
        }
        assert(seq![Seq::<char>::empty()].drop_last().filter(|t: Seq<char>| is_nonempty(t))
            =~= Seq::<Seq<char>>::empty()) by {
            reveal(Seq::filter);
        }
    }
    while i < n
        invariant
            n == chars@.len(),
            chars@ == s,
            i <= n,
            done + line_pieces(s.take(i as int)).last().len() <= i,
            done == line_pieces(s.take(i as int)).len() - 1,
            lines_view(lines@) == numbered_fields(line_pieces(s.take(i as int)).drop_last()),
            strings_view(line_fields@) == word_pieces(
                line_pieces(s.take(i as int)).last(),
            ).drop_last().filter(|t: Seq<char>| is_nonempty(t)),
            current@ == word_pieces(line_pieces(s.take(i as int)).last()).last(),
        decreases n - i,
    {
        let c = chars[i];
        let ghost p = s.take(i as int);
        let ghost lp = line_pieces(p);
        let ghost wp = word_pieces(lp.last());
        proof {
            assert(s.take(i + 1) =~= p.push(c));
            lemma_pieces_len(p, newline_sep());
            lemma_pieces_push(p, c, newline_sep());
            lemma_pieces_len(lp.last(), whitespace_sep());
        }
        if c == '\n' {
            proof {
                lemma_nonempty_push(wp.drop_last(), wp.last());
                assert(wp.drop_last().push(wp.last()) =~= wp);
            }
            if !current.as_str().is_empty() {
                let ghost before = line_fields@;
                line_fields.push(current);
                proof {
                    assert(strings_view(line_fields@) =~= strings_view(before).push(wp.last()));
                }
            }
            proof {
                assert(strings_view(line_fields@) == fields(lp.last()));
                lemma_numbered_fields_push(lp.drop_last(), lp.last());
                assert(lp.drop_last().push(lp.last()) =~= lp);
                assert(lp.drop_last().len() + 1 == done + 1);
            }
            if line_fields.len() > 0 {
                let ghost before = lines@;
                lines.push(LabelLine { number: done + 1, fields: line_fields });
                proof {
                    assert(lines_view(lines@) =~= lines_view(before).push(
                        (lp.drop_last().len() + 1int, fields(lp.last())),
                    ));
                }
            }
            line_fields = Vec::new();
            current = String::new();
            done = done + 1;
            proof {
                let lp2 = line_pieces(s.take(i + 1));
                assert(lp2 == lp.push(Seq::<char>::empty()));
                assert(lp2.drop_last() =~= lp);
                assert(lp2.last() == Seq::<char>::empty());
                assert(word_pieces(Seq::<char>::empty()) == seq![Seq::<char>::empty()]);
                assert(seq![Seq::<char>::empty()].drop_last() =~= Seq::<Seq<char>>::empty());
                assert(Seq::<Seq<char>>::empty().filter(|t: Seq<char>| is_nonempty(t))
                    =~= Seq::<Seq<char>>::empty()) by {
                    reveal(Seq::filter);
                }
                assert(strings_view(line_fields@) =~= Seq::<Seq<char>>::empty());
            }
        } else {
            let ghost lp2 = line_pieces(s.take(i + 1));
            proof {
                assert(lp2 == lp.update(lp.len() - 1, lp.last().push(c)));
                assert(lp2.drop_last() =~= lp.drop_last());
                assert(lp2.last() == lp.last().push(c));
                lemma_pieces_push(lp.last(), c, whitespace_sep());
            }
            if is_whitespace_char(c) {
                proof {
                    lemma_nonempty_push(wp.drop_last(), wp.last());
                    assert(wp.drop_last().push(wp.last()) =~= wp);
                    assert(word_pieces(lp2.last()) == wp.push(Seq::<char>::empty()));
                    assert(wp.push(Seq::<char>::empty()).drop_last() =~= wp);
                }
                if !current.as_str().is_empty() {
                    let ghost before = line_fields@;
                    line_fields.push(current);
                    proof {
                        assert(strings_view(line_fields@) =~= strings_view(before).push(
                            wp.last(),
                        ));
                    }
                }
                current = String::new();
            } else {
                proof {
                    let wp2 = word_pieces(lp2.last());
                    assert(wp2 == wp.update(wp.len() - 1, wp.last().push(c)));
                    assert(wp2.drop_last() =~= wp.drop_last());
                }
                push_char(&mut current, c);
            }
        }
        i = i + 1;
    }
    proof {
        assert(s.take(n as int) =~= s);
    }
    let ghost lp = line_pieces(s);
    let ghost wp = word_pieces(lp.last());
    proof {
        lemma_pieces_len(s, newline_sep());
        lemma_pieces_len(lp.last(), whitespace_sep());
        lemma_nonempty_push(wp.drop_last(), wp.last());
        assert(wp.drop_last().push(wp.last()) =~= wp);
    }
    if !current.as_str().is_empty() {
        let ghost before = line_fields@;
        line_fields.push(current);
        proof {
            assert(strings_view(line_fields@) =~= strings_view(before).push(wp.last()));
        }
    }
    proof {
        assert(strings_view(line_fields@) == fields(lp.last()));
        lemma_numbered_fields_push(lp.drop_last(), lp.last());
        assert(lp.drop_last().push(lp.last()) =~= lp);
    }
    if line_fields.len() > 0 {
        let ghost before = lines@;
        proof {
            assert(lp.last().len() > 0) by {
                if lp.last().len() == 0 {
                    assert(lp.last() =~= Seq::<char>::empty());
                    assert(word_pieces(Seq::<char>::empty()) == seq![Seq::<char>::empty()]);
                    assert(fields(Seq::<char>::empty()) =~= Seq::<Seq<char>>::empty()) by {
                        reveal_with_fuel(Seq::filter, 2);
                    }
                    assert(strings_view(line_fields@).len() == line_fields@.len());
                }
            }
        }
        lines.push(LabelLine { number: done + 1, fields: line_fields });
        proof {
            assert(lines_view(lines@) =~= lines_view(before).push(
                (lp.drop_last().len() + 1int, fields(lp.last())),
            ));
        }
    }
    lines
}

/// No piece of `s` holds a separator.
pub proof fn lemma_pieces_avoid_sep(s: Seq<char>, sep: spec_fn(char) -> bool)
    ensures
        forall|i: int, j: int|
            0 <= i < pieces(s, sep).len() && 0 <= j < pieces(s, sep)[i].len() ==> !sep(
                #[trigger] pieces(s, sep)[i][j],
            ),
    decreases s.len(),
{
    if s.len() > 0 {
        lemma_pieces_avoid_sep(s.drop_last(), sep);
        lemma_pieces_len(s.drop_last(), sep);
        let p = pieces(s.drop_last(), sep);
        if !sep(s.last()) {
            let q = pieces(s, sep);
            assert forall|i: int, j: int| 0 <= i < q.len() && 0 <= j < q[i].len() implies !sep(
                #[trigger] q[i][j],
            ) by {
                if i == q.len() - 1 && j == q[i].len() - 1 {
                    assert(q[i][j] == s.last());
                } else if i == q.len() - 1 {
                    assert(q[i][j] == p[i][j]);
                } else {
                    assert(q[i] == p[i]);
                }
            }
        }
    }
}

/// What a filter keeps is an element of the filtered sequence.
proof fn lemma_filter_from<A>(s: Seq<A>, pred: spec_fn(A) -> bool)
    ensures
        forall|i: int| 0 <= i < s.filter(pred).len() ==> s.contains(#[trigger] s.filter(pred)[i]),
    decreases s.len(),
{
    reveal(Seq::filter);
    if s.len() > 0 {
        lemma_filter_from(s.drop_last(), pred);
        let f = s.filter(pred);
        let g = s.drop_last().filter(pred);
        assert forall|i: int| 0 <= i < f.len() implies s.contains(#[trigger] f[i]) by {
            if i < g.len() {
                assert(f[i] == g[i]);
                assert(s.drop_last().contains(g[i]));
                let j = choose|j: int| 0 <= j < s.drop_last().len() && s.drop_last()[j] == g[i];
                assert(s[j] == f[i]);
            } else {
                assert(f[i] == s[s.len() - 1]);
            }
        }
    }
}

/// The fields of a text are non-empty and hold no whitespace.
pub proof fn lemma_fields_are_words(s: Seq<char>)
    ensures
        forall|i: int| 0 <= i < fields(s).len() ==> (#[trigger] fields(s)[i]).len() > 0,
        forall|i: int, j: int|
            0 <= i < fields(s).len() && 0 <= j < fields(s)[i].len() ==> !is_whitespace(
                #[trigger] fields(s)[i][j],
            ),
{
    let keep = |t: Seq<char>| is_nonempty(t);
    let w = word_pieces(s);
    lemma_pieces_avoid_sep(s, whitespace_sep());
    lemma_filter_from(w, keep);
    assert forall|i: int| 0 <= i < fields(s).len() implies (#[trigger] fields(s)[i]).len() > 0 by {
        w.lemma_filter_pred(keep, i);
    }
    assert forall|i: int, j: int|
        0 <= i < fields(s).len() && 0 <= j < fields(s)[i].len() implies !is_whitespace(
        #[trigger] fields(s)[i][j],
    ) by {
        assert(w.contains(fields(s)[i]));
        let k = choose|k: int| 0 <= k < w.len() && w[k] == fields(s)[i];
        assert(!whitespace_sep()(w[k][j]));
    }
}

/// The numbered lines with fields: numbers count lines from 1, strictly
/// increase, and each comes with the (non-empty) fields of its own line.
pub proof fn lemma_numbered_fields(lines: Seq<Seq<char>>)
    ensures
        forall|k: int|
            0 <= k < numbered_fields(lines).len() ==> {
                let (n, fs) = #[trigger] numbered_fields(lines)[k];
                &&& 1 <= n <= lines.len()
                &&& fs == fields(lines[n - 1])
                &&& fs.len() > 0
            },
        forall|a: int, b: int|
            0 <= a < b < numbered_fields(lines).len() ==> (#[trigger] numbered_fields(lines)[a]).0
                < (#[trigger] numbered_fields(lines)[b]).0,
    decreases lines.len(),
{
    if lines.len() == 0 {
        assert(numbered_fields(lines) =~= Seq::<(int, Seq<Seq<char>>)>::empty()) by {
            reveal(Seq::filter);
        }
    } else {
        let init = lines.drop_last();
        lemma_numbered_fields(init);
        lemma_numbered_fields_push(init, lines.last());
        assert(init.push(lines.last()) =~= lines);
        let prev = numbered_fields(init);
        let cur = numbered_fields(lines);
        assert forall|k: int| 0 <= k < prev.len() implies #[trigger] lines[prev[k].0 - 1] == init[prev[k].0
            - 1] by {
            let (n, fs) = prev[k];
            assert(1 <= n <= init.len());
        }
    }
}

/// The non-blank lines of a text: their numbers count every line from 1 and
/// strictly increase, and each carries the non-empty fields of its own line.
pub proof fn lemma_label_lines_numbered(s: Seq<char>)
    ensures
        forall|k: int|
            0 <= k < label_lines(s).len() ==> {
                let (n, fs) = #[trigger] label_lines(s)[k];
                &&& 1 <= n <= line_pieces(s).len()
                &&& fs == fields(line_pieces(s)[n - 1])
                &&& fs.len() > 0
            },
        forall|a: int, b: int|
            0 <= a < b < label_lines(s).len() ==> (#[trigger] label_lines(s)[a]).0 < (
            #[trigger] label_lines(s)[b]).0,
{
    lemma_numbered_fields(line_pieces(s));
}

/// Splitting `x + y`, where `y` starts with a separator, splits `x` and the
/// rest of `y` apart.
proof fn lemma_pieces_append(x: Seq<char>, y: Seq<char>, sep: spec_fn(char) -> bool)
    requires
        y.len() > 0,
        sep(y[0]),
    ensures
        pieces(x + y, sep) == pieces(x, sep) + pieces(y.drop_first(), sep),
    decreases y.len(),
{
    if y.len() == 1 {
        assert(x + y =~= x.push(y[0]));
        lemma_pieces_push(x, y[0], sep);
        assert(y.drop_first() =~= Seq::<char>::empty());
        assert(pieces(Seq::<char>::empty(), sep) == seq![Seq::<char>::empty()]);
        assert(pieces(x, sep).push(Seq::<char>::empty()) =~= pieces(x, sep) + seq![Seq::<char>::empty()]);
    } else {
        let y1 = y.drop_last();
        let c = y.last();
        lemma_pieces_append(x, y1, sep);
        assert(x + y =~= (x + y1).push(c));
        assert(y.drop_first() =~= y1.drop_first().push(c));
        lemma_pieces_push(x + y1, c, sep);
        lemma_pieces_push(y1.drop_first(), c, sep);
        lemma_pieces_len(y1.drop_first(), sep);
        let pp = pieces(x, sep);
        let q = pieces(y1.drop_first(), sep);
        if sep(c) {
            assert((pp + q).push(Seq::<char>::empty()) =~= pp + q.push(Seq::<char>::empty()));
        } else {
            assert((pp + q).update((pp + q).len() - 1, (pp + q).last().push(c)) =~= pp + q.update(
                q.len() - 1,
                q.last().push(c),
            ));
        }
    }
}

/// All characters of `w` are whitespace.
pub open spec fn all_whitespace(w: Seq<char>) -> bool {
    forall|i: int| 0 <= i < w.len() ==> is_whitespace(#[trigger] w[i])
}

/// Leading whitespace adds no fields.
proof fn lemma_fields_leading_whitespace(w: Seq<char>, b: Seq<char>)
    requires
        all_whitespace(w),
    ensures
        fields(w + b) == fields(b),
    decreases w.len(),
{
    if w.len() == 0 {
        assert(w + b =~= b);
    } else {
        let keep = |t: Seq<char>| is_nonempty(t);
        let y = w + b;
        assert(y[0] == w[0]);
        lemma_pieces_append(Seq::<char>::empty(), y, whitespace_sep());
        assert(Seq::<char>::empty() + y =~= y);
        assert(y.drop_first() =~= w.drop_first() + b);
        assert(all_whitespace(w.drop_first())) by {
            assert forall|i: int| 0 <= i < w.drop_first().len() implies is_whitespace(
                #[trigger] w.drop_first()[i],
            ) by {
                assert(w.drop_first()[i] == w[i + 1]);
            }
        }
        lemma_fields_leading_whitespace(w.drop_first(), b);
        let e = pieces(Seq::<char>::empty(), whitespace_sep());
        assert(e == seq![Seq::<char>::empty()]);
        Seq::<Seq<char>>::filter_distributes_over_add(e, word_pieces(w.drop_first() + b), keep);
        assert(e.filter(keep) =~= Seq::<Seq<char>>::empty()) by {
            reveal_with_fuel(Seq::filter, 2);
        }
        assert(Seq::<Seq<char>>::empty() + fields(w.drop_first() + b) =~= fields(w.drop_first() + b));
    }
}

/// A non-empty run of whitespace separates fields: the fields of `a + w + b`
/// are those of `a` followed by those of `b`. So the fields of a line do not
/// depend on which whitespace, or how much of it, stands between, before or
/// after them.
pub proof fn lemma_fields_split_at_whitespace(a: Seq<char>, w: Seq<char>, b: Seq<char>)
    requires
        w.len() > 0,
        all_whitespace(w),
    ensures
        fields(a + w + b) == fields(a) + fields(b),
{
    let keep = |t: Seq<char>| is_nonempty(t);
    let y = w + b;
    assert(a + w + b =~= a + y);
    assert(y[0] == w[0]);
    lemma_pieces_append(a, y, whitespace_sep());
    assert(y.drop_first() =~= w.drop_first() + b);
    assert(all_whitespace(w.drop_first())) by {
        assert forall|i: int| 0 <= i < w.drop_first().len() implies is_whitespace(
            #[trigger] w.drop_first()[i],
        ) by {
            assert(w.drop_first()[i] == w[i + 1]);
        }
    }
    lemma_fields_leading_whitespace(w.drop_first(), b);
    Seq::<Seq<char>>::filter_distributes_over_add(word_pieces(a), word_pieces(w.drop_first() + b), keep);
}

/// Whitespace appended to a text, blank lines included, adds no labels and
/// changes none.
pub proof fn lemma_trailing_whitespace(s: Seq<char>, w: Seq<char>)
    requires
        all_whitespace(w),
    ensures
        label_lines(s + w) == label_lines(s),
    decreases w.len(),
{
    if w.len() == 0 {
        assert(s + w =~= s);
    } else {
        let w1 = w.drop_last();
        let c = w.last();
        assert(all_whitespace(w1)) by {
            assert forall|i: int| 0 <= i < w1.len() implies is_whitespace(#[trigger] w1[i]) by {
                assert(w1[i] == w[i]);
            }
        }
        lemma_trailing_whitespace(s, w1);
        let x = s + w1;
        assert(s + w =~= x.push(c));
        assert(is_whitespace(c));
        lemma_pieces_push(x, c, newline_sep());
        lemma_pieces_len(x, newline_sep());
        let lp = line_pieces(x);
        if c == '\n' {
            lemma_numbered_fields_push(lp, Seq::<char>::empty());
            assert(word_pieces(Seq::<char>::empty()) == seq![Seq::<char>::empty()]);
            assert(fields(Seq::<char>::empty()) =~= Seq::<Seq<char>>::empty()) by {
                reveal_with_fuel(Seq::filter, 2);
            }
        } else {
            let last = lp.last();
            let lp2 = lp.update(lp.len() - 1, last.push(c));
            assert(lp2 =~= lp.drop_last().push(last.push(c)));
            assert(lp =~= lp.drop_last().push(last));
            lemma_numbered_fields_push(lp.drop_last(), last.push(c));
            lemma_numbered_fields_push(lp.drop_last(), last);
            lemma_pieces_push(last, c, whitespace_sep());
            lemma_nonempty_push(word_pieces(last), Seq::<char>::empty());
            assert(fields(last.push(c)) == fields(last));
        }
    }
}

/// The fields of a line do not depend on the whitespace around it: leading
/// and trailing whitespace add no fields.
pub proof fn lemma_fields_outer_whitespace(w1: Seq<char>, a: Seq<char>, w2: Seq<char>)
    requires
        all_whitespace(w1),
        all_whitespace(w2),
    ensures
        fields(w1 + a + w2) == fields(a),
{
    assert(w1 + a + w2 =~= w1 + (a + w2));
    lemma_fields_leading_whitespace(w1, a + w2);
    if w2.len() > 0 {
        lemma_fields_split_at_whitespace(a, w2, Seq::<char>::empty());
        assert(a + w2 + Seq::<char>::empty() =~= a + w2);
        assert(word_pieces(Seq::<char>::empty()) == seq![Seq::<char>::empty()]);
        assert(fields(Seq::<char>::empty()) =~= Seq::<Seq<char>>::empty()) by {
            reveal_with_fuel(Seq::filter, 2);
        }
        assert(fields(a) + Seq::<Seq<char>>::empty() =~= fields(a));
    } else {
        assert(a + w2 =~= a);
    }
}

/// Two runs of whitespace between the same text give the same fields.
pub proof fn lemma_fields_whitespace_runs(a: Seq<char>, w1: Seq<char>, w2: Seq<char>, b: Seq<char>)
    requires
        w1.len() > 0,
        w2.len() > 0,
        all_whitespace(w1),
        all_whitespace(w2),
    ensures
        fields(a + w1 + b) == fields(a + w2 + b),
{
    lemma_fields_split_at_whitespace(a, w1, b);
    lemma_fields_split_at_whitespace(a, w2, b);
}

/// An empty text has no non-blank lines.
pub proof fn lemma_label_lines_empty(s: Seq<char>)
    requires
        s.len() == 0,
    ensures
        label_lines(s) == Seq::<(int, Seq<Seq<char>>)>::empty(),
{
    assert(line_pieces(s) == seq![Seq::<char>::empty()]);
    lemma_numbered_fields_push(Seq::<Seq<char>>::empty(), Seq::<char>::empty());
    assert(Seq::<Seq<char>>::empty().push(Seq::<char>::empty()) =~= seq![Seq::<char>::empty()]);
    assert(word_pieces(Seq::<char>::empty()) == seq![Seq::<char>::empty()]);
    assert(fields(Seq::<char>::empty()) =~= Seq::<Seq<char>>::empty()) by {
        reveal_with_fuel(Seq::filter, 2);
    }
    assert(numbered_fields(Seq::<Seq<char>>::empty()) =~= Seq::<(int, Seq<Seq<char>>)>::empty()) by {
        reveal(Seq::filter);
    }
}

} // verus!
