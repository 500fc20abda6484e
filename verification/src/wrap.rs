use vstd::prelude::*;

use crate::text::{chars_of, char_index, find_char, split_on, string_of};

verus! {

/// The characters of each string.
pub open spec fn strings_view(v: Seq<String>) -> Seq<Seq<char>> {
    v.map_values(|s: String| s@)
}

/// `w` cut into pieces of `width` characters; the last piece holds the rest.
pub open spec fn chunks(w: Seq<char>, width: nat) -> Seq<Seq<char>>
    decreases w.len(),
{
    if width == 0 || w.len() <= width {
        seq![w]
    } else {
        seq![w.take(width as int)] + chunks(w.skip(width as int), width)
    }
}

/// One word added to the finished lines `out` and the line `cur` being
/// filled: a word longer than the width starts on a line of its own and is
/// cut into full-width pieces, the last piece staying open; a word that does
/// not fit after `cur` and a space starts a new line; otherwise it joins
/// `cur`, after a space unless `cur` is empty.
pub open spec fn wrap_word(out: Seq<Seq<char>>, cur: Seq<char>, w: Seq<char>, width: nat) -> (
    Seq<Seq<char>>,
    Seq<char>,
) {
    if w.len() > width {
        let out1 = if cur.len() > 0 {
            out.push(cur)
        } else {
            out
        };
        let cs = chunks(w, width);
        (out1 + cs.drop_last(), cs.last())
    } else {
        let add = if cur.len() == 0 {
            w.len()
        } else {
            w.len() + 1
        };
        if cur.len() + add > width {
            (out.push(cur), w)
        } else if cur.len() == 0 {
            (out, w)
        } else {
            (out, cur + seq![' '] + w)
        }
    }
}

/// The words of a paragraph added one by one.
pub open spec fn wrap_words(
    words: Seq<Seq<char>>,
    width: nat,
    out: Seq<Seq<char>>,
    cur: Seq<char>,
) -> (Seq<Seq<char>>, Seq<char>)
    decreases words.len(),
{
    if words.len() == 0 {
        (out, cur)
    } else {
        let st = wrap_word(out, cur, words[0], width);
        wrap_words(words.drop_first(), width, st.0, st.1)
    }
}

/// Paragraphs wrapped one after another: each paragraph's words (split at
/// single spaces) fill lines, and its last line closes with it.
pub open spec fn wrap_paragraphs(paras: Seq<Seq<char>>, width: nat, out: Seq<Seq<char>>) -> Seq<
    Seq<char>,
>
    decreases paras.len(),
{
    if paras.len() == 0 {
        out
    } else {
        let st = wrap_words(split_on(paras[0], ' '), width, out, seq![]);
        wrap_paragraphs(paras.drop_first(), width, st.0.push(st.1))
    }
}

/// `s` word-wrapped to `width` columns counted in characters; a width of 0
/// leaves `s` whole.
pub open spec fn wrapped(s: Seq<char>, width: nat) -> Seq<Seq<char>> {
    if width == 0 {
        seq![s]
    } else {
        wrap_paragraphs(split_on(s, '\n'), width, seq![])
    }
}

/// Adds the word `text[from..to]` to `out` and `cur`.
fn wrap_word_into(
    text: &Vec<char>,
    from: usize,
    to: usize,
    width: usize,
    out: &mut Vec<String>,
    cur: &mut Vec<char>,
)
    requires
        from <= to <= text@.len(),
        width > 0,
        old(cur)@.len() <= width,
    ensures
        (strings_view(final(out)@), final(cur)@) == wrap_word(
            strings_view(old(out)@),
            old(cur)@,
            text@.subrange(from as int, to as int),
            width as nat,
        ),
        final(cur)@.len() <= width,
{
    let ghost w = text@.subrange(from as int, to as int);
    let ghost out0 = strings_view(out@);
    let ww = to - from;
    let cur_w = cur.len();
    if ww > width {
        if cur_w > 0 {
            let line = string_of(cur, 0, cur_w);
            assert(cur@.subrange(0, cur_w as int) =~= cur@);
            let ghost old_vec = out@;
            out.push(line);
            assert(strings_view(out@) =~= strings_view(old_vec).push(old(cur)@));
        }
        let ghost out1 = strings_view(out@);
        let mut q = from;
        let ghost mut done: Seq<Seq<char>> = seq![];
        assert(chunks(w, width as nat) =~= done + chunks(text@.subrange(q as int, to as int), width as nat));
        while to - q > width
            invariant
                from <= q <= to <= text@.len(),
                width > 0,
                chunks(w, width as nat) == done + chunks(text@.subrange(q as int, to as int), width as nat),
                strings_view(out@) == out1 + done,
            decreases to - q,
        {
            let piece = string_of(text, q, q + width);
            let ghost old_vec = out@;
            out.push(piece);
            assert(strings_view(out@) =~= strings_view(old_vec).push(text@.subrange(q as int, q + width)));
            let ghost rest = text@.subrange(q as int, to as int);
            assert(rest.take(width as int) =~= text@.subrange(q as int, q + width));
            assert(rest.skip(width as int) =~= text@.subrange(q + width, to as int));
            assert(strings_view(out@) =~= out1 + done.push(text@.subrange(q as int, q + width)));
            proof {
                assert(done + chunks(rest, width as nat) =~= done.push(text@.subrange(q as int, q + width)) + chunks(text@.subrange(q + width, to as int), width as nat));
                done = done.push(text@.subrange(q as int, q + width));
            }
            q = q + width;
        }
        let ghost last = text@.subrange(q as int, to as int);
        assert(chunks(last, width as nat) =~= seq![last]);
        assert(chunks(w, width as nat).drop_last() =~= done);
        assert(chunks(w, width as nat).last() == last);
        cur.clear();
        let mut k = q;
        while k < to
            invariant
                q <= k <= to <= text@.len(),
                cur@ == text@.subrange(q as int, k as int),
            decreases to - k,
        {
            cur.push(text[k]);
            assert(text@.subrange(q as int, k + 1) =~= text@.subrange(q as int, k as int).push(text@[k as int]));
            k = k + 1;
        }
    } else {
        let overflows = if cur_w == 0 {
            false
        } else {
            !(ww < width && cur_w <= width - ww - 1)
        };
        if overflows {
            let line = string_of(cur, 0, cur_w);
            assert(cur@.subrange(0, cur_w as int) =~= cur@);
            let ghost old_vec = out@;
            out.push(line);
            assert(strings_view(out@) =~= strings_view(old_vec).push(old(cur)@));
            cur.clear();
        } else if cur_w > 0 {
            cur.push(' ');
        }
        let ghost base = cur@;
        let mut k = from;
        while k < to
            invariant
                from <= k <= to <= text@.len(),
                cur@ == base + text@.subrange(from as int, k as int),
            decreases to - k,
        {
            cur.push(text[k]);
            assert(text@.subrange(from as int, k + 1) =~= text@.subrange(from as int, k as int).push(text@[k as int]));
            assert(base + text@.subrange(from as int, k + 1) =~= (base + text@.subrange(from as int, k as int)).push(text@[k as int]));
            k = k + 1;
        }
        assert(base + w =~= cur@);
        if !overflows && cur_w == 0 {
            assert(cur@ =~= w);
        }
        if overflows {
            assert(cur@ =~= w);
        }
    }
}


/// Word-wraps `s` to `width` columns, counting characters: lines split at
/// `\n`, words at single spaces, and words longer than the width cut.
pub fn wrap_text(s: &str, width: usize) -> (r: Vec<String>)
    ensures
        strings_view(r@) == wrapped(s@, width as nat),
        r@.len() >= 1,
        width > 0 ==> all_fit(strings_view(r@), width as nat),
        width > 0 ==> none_holds(strings_view(r@), '\n'),
        ink(strings_view(r@).flatten()) == ink(s@),
{
    proof {
        lemma_wrapped_lines(s@, width as nat);
        lemma_wrapped_keeps_text(s@, width as nat);
    }
    if width == 0 {
        let whole = s.to_owned();
        let r = vec![whole];
        assert(strings_view(r@) =~= seq![s@]);
        return r;
    }
    let text = chars_of(s);
    let n = text.len();
    let mut out: Vec<String> = Vec::new();
    let mut p: usize = 0;
    assert(text@.subrange(0, n as int) =~= text@);
    assert(strings_view(out@) =~= Seq::<Seq<char>>::empty());
    loop
        invariant
            p <= n == text@.len(),
            width > 0,
            wrapped(s@, width as nat) == wrap_paragraphs(
                split_on(text@.subrange(p as int, n as int), '\n'),
                width as nat,
                strings_view(out@),
            ),
        decreases n - p,
    {
        let e = find_char(&text, p, n, '\n');
        let ghost para = text@.subrange(p as int, e as int);
        let ghost paras_rest = text@.subrange(if e < n { e + 1 } else { n as int }, n as int);
        let ghost rest = text@.subrange(p as int, n as int);
        assert(split_on(rest, '\n') =~= if e < n {
            seq![para] + split_on(paras_rest, '\n')
        } else {
            seq![para]
        }) by {
            assert(char_index(rest, '\n') == e - p);
            if e < n {
                assert(rest.take(e - p) =~= para);
                assert(rest.skip(e - p + 1) =~= paras_rest);
            } else {
                assert(rest =~= para);
            }
        }
        let ghost out0 = strings_view(out@);
        let mut cur: Vec<char> = Vec::new();
        let mut q = p;
        assert(text@.subrange(p as int, e as int) =~= para);
        loop
            invariant_except_break
                wrap_words(split_on(para, ' '), width as nat, out0, seq![]) == wrap_words(
                    split_on(text@.subrange(q as int, e as int), ' '),
                    width as nat,
                    strings_view(out@),
                    cur@,
                ),
            invariant
                p <= q <= e <= n == text@.len(),
                width > 0,
                cur@.len() <= width,
                para == text@.subrange(p as int, e as int),
            ensures
                wrap_words(split_on(para, ' '), width as nat, out0, seq![]) == (
                    strings_view(out@),
                    cur@,
                ),
            decreases e - q,
        {
            let f = find_char(&text, q, e, ' ');
            let ghost wrest = text@.subrange(q as int, e as int);
            let ghost word = text@.subrange(q as int, f as int);
            let ghost words_rest = text@.subrange(if f < e { f + 1 } else { e as int }, e as int);
            assert(split_on(wrest, ' ') =~= if f < e {
                seq![word] + split_on(words_rest, ' ')
            } else {
                seq![word]
            }) by {
                assert(char_index(wrest, ' ') == f - q);
                if f < e {
                    assert(wrest.take(f - q) =~= word);
                    assert(wrest.skip(f - q + 1) =~= words_rest);
                } else {
                    assert(wrest =~= word);
                }
            }
            let ghost ws = split_on(wrest, ' ');
            assert(ws[0] == word);
            let ghost out_before = strings_view(out@);
            let ghost cur_before = cur@;
            wrap_word_into(&text, q, f, width, &mut out, &mut cur);
            assert(wrap_words(ws, width as nat, out_before, cur_before) == wrap_words(
                ws.drop_first(),
                width as nat,
                strings_view(out@),
                cur@,
            ));
            if f >= e {
                assert(ws.drop_first() =~= Seq::<Seq<char>>::empty());
                break;
            }
            assert(ws.drop_first() =~= split_on(words_rest, ' '));
            q = f + 1;
        }
        let line = string_of(&cur, 0, cur.len());
        assert(cur@.subrange(0, cur@.len() as int) =~= cur@);
        let ghost old_vec = out@;
        out.push(line);
        assert(strings_view(out@) =~= strings_view(old_vec).push(cur@));
        let ghost ps = split_on(rest, '\n');
        assert(ps[0] == para);
        assert(wrap_paragraphs(ps, width as nat, out0) == wrap_paragraphs(
            ps.drop_first(),
            width as nat,
            strings_view(out@),
        ));
        if e >= n {
            assert(ps.drop_first() =~= Seq::<Seq<char>>::empty());
            proof {
                lemma_wrapped_lines(s@, width as nat);
                lemma_wrapped_keeps_text(s@, width as nat);
            }
            return out;
        }
        assert(ps.drop_first() =~= split_on(paras_rest, '\n'));
        p = e + 1;
    }
}


/// Every line has at most `width` characters.
pub open spec fn all_fit(ls: Seq<Seq<char>>, width: nat) -> bool {
    forall|i: int| 0 <= i < ls.len() ==> #[trigger] ls[i].len() <= width
}

/// No line holds the character `c`.
pub open spec fn none_holds(ls: Seq<Seq<char>>, c: char) -> bool {
    forall|i: int, k: int| 0 <= i < ls.len() && 0 <= k < ls[i].len() ==> #[trigger] ls[i][k] != c
}

/// `s` does not hold `c`.
pub open spec fn lacks(s: Seq<char>, c: char) -> bool {
    forall|k: int| 0 <= k < s.len() ==> #[trigger] s[k] != c
}

proof fn lemma_chunks(w: Seq<char>, width: nat, c: char)
    requires
        width > 0,
    ensures
        chunks(w, width).len() >= 1,
        w.len() > width ==> all_fit(chunks(w, width), width),
        lacks(w, c) ==> none_holds(chunks(w, width), c),
    decreases w.len(),
{
    if w.len() > width {
        let rest = w.skip(width as int);
        lemma_chunks(rest, width, c);
        let cs = chunks(w, width);
        let head = w.take(width as int);
        assert(cs == seq![head] + chunks(rest, width));
        if rest.len() <= width {
            assert(chunks(rest, width) == seq![rest]);
        }
        assert forall|i: int| 0 <= i < cs.len() implies #[trigger] cs[i].len() <= width by {
            if i > 0 {
                assert(cs[i] == chunks(rest, width)[i - 1]);
            }
        }
        if lacks(w, c) {
            assert(lacks(rest, c)) by {
                assert forall|k: int| 0 <= k < rest.len() implies #[trigger] rest[k] != c by {
                    assert(rest[k] == w[k + width]);
                }
            }
            assert forall|i: int, k: int|
                0 <= i < cs.len() && 0 <= k < cs[i].len() implies #[trigger] cs[i][k] != c by {
                if i == 0 {
                    assert(cs[0][k] == w[k]);
                } else {
                    assert(cs[i] == chunks(rest, width)[i - 1]);
                }
            }
        }
    } else {
        let cs = chunks(w, width);
        if lacks(w, c) {
            assert forall|i: int, k: int|
                0 <= i < cs.len() && 0 <= k < cs[i].len() implies #[trigger] cs[i][k] != c by {
                assert(cs[i] == w);
            }
        }
    }
}

proof fn lemma_wrap_word(out: Seq<Seq<char>>, cur: Seq<char>, w: Seq<char>, width: nat)
    requires
        width > 0,
        all_fit(out, width),
        cur.len() <= width,
        none_holds(out, '\n'),
        lacks(cur, '\n'),
        lacks(w, '\n'),
    ensures
        all_fit(wrap_word(out, cur, w, width).0, width),
        wrap_word(out, cur, w, width).1.len() <= width,
        none_holds(wrap_word(out, cur, w, width).0, '\n'),
        lacks(wrap_word(out, cur, w, width).1, '\n'),
        wrap_word(out, cur, w, width).0.len() >= out.len(),
{
    let r = wrap_word(out, cur, w, width);
    if w.len() > width {
        let out1 = if cur.len() > 0 {
            out.push(cur)
        } else {
            out
        };
        lemma_chunks(w, width, '\n');
        let cs = chunks(w, width);
        let pre = cs.drop_last();
        assert(r.0 == out1 + pre);
        assert forall|i: int| 0 <= i < r.0.len() implies #[trigger] r.0[i].len() <= width by {
            if i < out1.len() {
                assert(r.0[i] == out1[i]);
                if i < out.len() {
                    assert(out1[i] == out[i]);
                }
            } else {
                assert(r.0[i] == cs[i - out1.len()]);
            }
        }
        assert(r.1 == cs[cs.len() - 1]);
        assert forall|i: int, k: int|
            0 <= i < r.0.len() && 0 <= k < r.0[i].len() implies #[trigger] r.0[i][k] != '\n' by {
            if i < out1.len() {
                assert(r.0[i] == out1[i]);
                if i < out.len() {
                    assert(out1[i] == out[i]);
                }
            } else {
                assert(r.0[i] == cs[i - out1.len()]);
            }
        }
        assert forall|k: int| 0 <= k < r.1.len() implies #[trigger] r.1[k] != '\n' by {
            assert(r.1[k] == cs[cs.len() - 1][k]);
        }
    } else {
        let add = if cur.len() == 0 {
            w.len()
        } else {
            w.len() + 1
        };
        if cur.len() + add > width {
            assert forall|i: int| 0 <= i < r.0.len() implies #[trigger] r.0[i].len() <= width by {
                if i < out.len() {
                    assert(r.0[i] == out[i]);
                }
            }
            assert forall|i: int, k: int|
                0 <= i < r.0.len() && 0 <= k < r.0[i].len() implies #[trigger] r.0[i][k] != '\n' by {
                if i < out.len() {
                    assert(r.0[i] == out[i]);
                }
            }
        } else if cur.len() > 0 {
            let joined = cur + seq![' '] + w;
            assert forall|k: int| 0 <= k < joined.len() implies #[trigger] joined[k] != '\n' by {
                if k < cur.len() {
                    assert(joined[k] == cur[k]);
                } else if k > cur.len() {
                    assert(joined[k] == w[k - cur.len() - 1]);
                }
            }
        }
    }
}

proof fn lemma_wrap_words(
    words: Seq<Seq<char>>,
    width: nat,
    out: Seq<Seq<char>>,
    cur: Seq<char>,
)
    requires
        width > 0,
        all_fit(out, width),
        cur.len() <= width,
        none_holds(out, '\n'),
        lacks(cur, '\n'),
        none_holds(words, '\n'),
    ensures
        all_fit(wrap_words(words, width, out, cur).0, width),
        wrap_words(words, width, out, cur).1.len() <= width,
        none_holds(wrap_words(words, width, out, cur).0, '\n'),
        lacks(wrap_words(words, width, out, cur).1, '\n'),
        wrap_words(words, width, out, cur).0.len() >= out.len(),
    decreases words.len(),
{
    if words.len() > 0 {
        assert(lacks(words[0], '\n')) by {
            assert forall|k: int| 0 <= k < words[0].len() implies #[trigger] words[0][k] != '\n' by {
                assert(words[0][k] == words[0][k]);
            }
        }
        lemma_wrap_word(out, cur, words[0], width);
        let st = wrap_word(out, cur, words[0], width);
        let rest = words.drop_first();
        assert forall|i: int, k: int|
            0 <= i < rest.len() && 0 <= k < rest[i].len() implies #[trigger] rest[i][k] != '\n' by {
            assert(rest[i] == words[i + 1]);
        }
        lemma_wrap_words(rest, width, st.0, st.1);
    }
}

/// The pieces of `s` split at `c` hold no `c`, and no character that `s`
/// lacks.
pub proof fn lemma_split_on_lacks(s: Seq<char>, c: char, d: char)
    ensures
        none_holds(split_on(s, c), c),
        lacks(s, d) ==> none_holds(split_on(s, c), d),
        split_on(s, c).len() >= 1,
    decreases s.len(),
{
    crate::text::lemma_char_index(s, c);
    let k = char_index(s, c);
    let ps = split_on(s, c);
    if k >= s.len() {
        assert(ps == seq![s]);
        assert forall|i: int, j: int| 0 <= i < ps.len() && 0 <= j < ps[i].len() implies #[trigger] ps[i][j] != c by {
            assert(ps[i] == s);
        }
    } else {
        let rest = s.skip(k + 1int);
        lemma_split_on_lacks(rest, c, d);
        assert(ps == seq![s.take(k as int)] + split_on(rest, c));
        assert forall|i: int, j: int| 0 <= i < ps.len() && 0 <= j < ps[i].len() implies #[trigger] ps[i][j] != c by {
            if i == 0 {
                assert(ps[0][j] == s[j]);
            } else {
                assert(ps[i] == split_on(rest, c)[i - 1]);
            }
        }
        if lacks(s, d) {
            assert(lacks(rest, d)) by {
                assert forall|j: int| 0 <= j < rest.len() implies #[trigger] rest[j] != d by {
                    assert(rest[j] == s[j + k + 1]);
                }
            }
            assert forall|i: int, j: int| 0 <= i < ps.len() && 0 <= j < ps[i].len() implies #[trigger] ps[i][j] != d by {
                if i == 0 {
                    assert(ps[0][j] == s[j]);
                } else {
                    assert(ps[i] == split_on(rest, c)[i - 1]);
                }
            }
        }
    }
}

proof fn lemma_wrap_paragraphs(paras: Seq<Seq<char>>, width: nat, out: Seq<Seq<char>>)
    requires
        width > 0,
        all_fit(out, width),
        none_holds(out, '\n'),
        none_holds(paras, '\n'),
    ensures
        all_fit(wrap_paragraphs(paras, width, out), width),
        none_holds(wrap_paragraphs(paras, width, out), '\n'),
        wrap_paragraphs(paras, width, out).len() >= out.len() + paras.len(),
    decreases paras.len(),
{
    if paras.len() > 0 {
        let p = paras[0];
        assert(lacks(p, '\n')) by {
            assert forall|k: int| 0 <= k < p.len() implies #[trigger] p[k] != '\n' by {
                assert(paras[0][k] == p[k]);
            }
        }
        lemma_split_on_lacks(p, ' ', '\n');
        let e: Seq<char> = seq![];
        lemma_wrap_words(split_on(p, ' '), width, out, e);
        let st = wrap_words(split_on(p, ' '), width, out, e);
        let out2 = st.0.push(st.1);
        assert forall|i: int| 0 <= i < out2.len() implies #[trigger] out2[i].len() <= width by {
            if i < st.0.len() {
                assert(out2[i] == st.0[i]);
            }
        }
        assert forall|i: int, k: int| 0 <= i < out2.len() && 0 <= k < out2[i].len() implies #[trigger] out2[i][k] != '\n' by {
            if i < st.0.len() {
                assert(out2[i] == st.0[i]);
            } else {
                assert(out2[i] == st.1);
            }
        }
        let rest = paras.drop_first();
        assert forall|i: int, k: int| 0 <= i < rest.len() && 0 <= k < rest[i].len() implies #[trigger] rest[i][k] != '\n' by {
            assert(rest[i] == paras[i + 1]);
        }
        lemma_wrap_paragraphs(rest, width, out2);
    }
}

/// What wrapping promises: at least one line; with a positive width no line
/// is longer than the width and no line holds a line feed.
pub proof fn lemma_wrapped_lines(s: Seq<char>, width: nat)
    ensures
        wrapped(s, width).len() >= 1,
        width > 0 ==> all_fit(wrapped(s, width), width),
        width > 0 ==> none_holds(wrapped(s, width), '\n'),
{
    if width > 0 {
        lemma_split_on_lacks(s, '\n', '\n');
        let e: Seq<Seq<char>> = seq![];
        lemma_wrap_paragraphs(split_on(s, '\n'), width, e);
    }
}

/// The identifier as a title shows it: when it is longer than ten
/// characters, its first eight characters followed by an ellipsis.
pub open spec fn shortened(id: Seq<char>) -> Seq<char> {
    if id.len() > 10 {
        id.take(8) + "\u{2026}"@
    } else {
        id
    }
}

/// Shortens `id` for the title.
pub fn short(id: &str) -> (r: String)
    ensures
        r@ == shortened(id@),
{
    let chars = chars_of(id);
    if chars.len() > 10 {
        let mut r = string_of(&chars, 0, 8);
        r.append("\u{2026}");
        proof {
            assert(chars@.subrange(0, 8) =~= id@.take(8));
        }
        r
    } else {
        id.to_owned()
    }
}

/// The characters of `s` other than spaces and line feeds, in order: what
/// wrapping must not lose.
pub open spec fn ink(s: Seq<char>) -> Seq<char>
    decreases s.len(),
{
    if s.len() == 0 {
        seq![]
    } else if s[0] != ' ' && s[0] != '\n' {
        seq![s[0]] + ink(s.drop_first())
    } else {
        ink(s.drop_first())
    }
}

proof fn lemma_ink_add(a: Seq<char>, b: Seq<char>)
    ensures
        ink(a + b) == ink(a) + ink(b),
    decreases a.len(),
{
    if a.len() == 0 {
        assert(a + b =~= b);
        assert(ink(a) + ink(b) =~= ink(b));
    } else {
        lemma_ink_add(a.drop_first(), b);
        assert((a + b).drop_first() =~= a.drop_first() + b);
        assert((a + b)[0] == a[0]);
        if a[0] != ' ' && a[0] != '\n' {
            assert(seq![a[0]] + (ink(a.drop_first()) + ink(b)) =~= (seq![a[0]] + ink(
                a.drop_first(),
            )) + ink(b));
        }
    }
}

proof fn lemma_ink_blank(c: char)
    requires
        c == ' ' || c == '\n',
    ensures
        ink(seq![c]) == Seq::<char>::empty(),
{
    assert(seq![c].drop_first() =~= Seq::<char>::empty());
    assert(seq![c][0] == c);
    assert(ink(seq![c]) == ink(Seq::<char>::empty()));
    assert(ink(Seq::<char>::empty()) =~= Seq::<char>::empty());
}

proof fn lemma_ink_lines_push(ls: Seq<Seq<char>>, l: Seq<char>)
    ensures
        ink(ls.push(l).flatten()) == ink(ls.flatten()) + ink(l),
{
    ls.lemma_flatten_push(l);
    lemma_ink_add(ls.flatten(), l);
}

proof fn lemma_ink_lines_concat(x: Seq<Seq<char>>, y: Seq<Seq<char>>)
    ensures
        ink((x + y).flatten()) == ink(x.flatten()) + ink(y.flatten()),
{
    vstd::seq_lib::lemma_flatten_concat(x, y);
    lemma_ink_add(x.flatten(), y.flatten());
}

proof fn lemma_chunks_flatten(w: Seq<char>, width: nat)
    ensures
        chunks(w, width).flatten() == w,
    decreases w.len(),
{
    let cs = chunks(w, width);
    if width == 0 || w.len() <= width {
        cs.lemma_flatten_one_element();
    } else {
        lemma_chunks_flatten(w.skip(width as int), width);
        assert(cs.first() == w.take(width as int));
        assert(cs.drop_first() =~= chunks(w.skip(width as int), width));
        assert(w.take(width as int) + w.skip(width as int) =~= w);
    }
}

proof fn lemma_split_on_ink(s: Seq<char>, c: char)
    requires
        c == ' ' || c == '\n',
    ensures
        ink(split_on(s, c).flatten()) == ink(s),
    decreases s.len(),
{
    crate::text::lemma_char_index(s, c);
    let k = char_index(s, c);
    let ps = split_on(s, c);
    if k >= s.len() {
        ps.lemma_flatten_one_element();
    } else {
        let rest = s.skip(k + 1int);
        lemma_split_on_ink(rest, c);
        let head = s.take(k as int);
        assert(ps.first() == head);
        assert(ps.drop_first() =~= split_on(rest, c));
        assert(ps.flatten() == head + split_on(rest, c).flatten());
        lemma_ink_add(head, split_on(rest, c).flatten());
        assert(s =~= head + (seq![c] + rest));
        lemma_ink_add(head, seq![c] + rest);
        lemma_ink_add(seq![c], rest);
        lemma_ink_blank(c);
        assert(Seq::<char>::empty() + ink(rest) =~= ink(rest));
    }
}

proof fn lemma_wrap_word_ink(out: Seq<Seq<char>>, cur: Seq<char>, w: Seq<char>, width: nat)
    ensures
        ink(wrap_word(out, cur, w, width).0.flatten()) + ink(wrap_word(out, cur, w, width).1)
            == ink(out.flatten()) + ink(cur) + ink(w),
{
    let r = wrap_word(out, cur, w, width);
    if w.len() > width {
        let out1 = if cur.len() > 0 {
            out.push(cur)
        } else {
            out
        };
        assert(ink(out1.flatten()) == ink(out.flatten()) + ink(cur)) by {
            if cur.len() > 0 {
                lemma_ink_lines_push(out, cur);
            } else {
                assert(ink(cur) =~= Seq::<char>::empty());
                assert(ink(out.flatten()) + ink(cur) =~= ink(out.flatten()));
            }
        }
        let cs = chunks(w, width);
        lemma_chunks_flatten(w, width);
        let pre = cs.drop_last();
        assert(cs.len() >= 1) by {
            if !(width == 0 || w.len() <= width) {
                assert(cs.len() == 1 + chunks(w.skip(width as int), width).len());
            }
        }
        assert(pre.push(cs.last()) =~= cs);
        lemma_ink_lines_push(pre, cs.last());
        lemma_ink_lines_concat(out1, pre);
        assert(ink(r.0.flatten()) + ink(r.1) =~= ink(out1.flatten()) + (ink(pre.flatten()) + ink(
            cs.last(),
        )));
    } else {
        let add = if cur.len() == 0 {
            w.len()
        } else {
            w.len() + 1
        };
        if cur.len() + add > width {
            lemma_ink_lines_push(out, cur);
        } else if cur.len() == 0 {
            assert(ink(cur) =~= Seq::<char>::empty());
            assert(ink(out.flatten()) + ink(cur) =~= ink(out.flatten()));
        } else {
            lemma_ink_add(cur + seq![' '], w);
            lemma_ink_add(cur, seq![' ']);
            lemma_ink_blank(' ');
            assert(ink(cur) + Seq::<char>::empty() =~= ink(cur));
            assert(ink(out.flatten()) + (ink(cur) + ink(w)) =~= ink(out.flatten()) + ink(cur)
                + ink(w));
        }
    }
}

proof fn lemma_wrap_words_ink(
    words: Seq<Seq<char>>,
    width: nat,
    out: Seq<Seq<char>>,
    cur: Seq<char>,
)
    ensures
        ink(wrap_words(words, width, out, cur).0.flatten()) + ink(
            wrap_words(words, width, out, cur).1,
        ) == ink(out.flatten()) + ink(cur) + ink(words.flatten()),
    decreases words.len(),
{
    if words.len() == 0 {
        assert(ink(words.flatten()) =~= Seq::<char>::empty());
        assert(ink(out.flatten()) + ink(cur) + Seq::<char>::empty() =~= ink(out.flatten()) + ink(
            cur,
        ));
    } else {
        let st = wrap_word(out, cur, words[0], width);
        lemma_wrap_word_ink(out, cur, words[0], width);
        lemma_wrap_words_ink(words.drop_first(), width, st.0, st.1);
        assert(words.flatten() == words[0] + words.drop_first().flatten());
        lemma_ink_add(words[0], words.drop_first().flatten());
        assert(ink(out.flatten()) + ink(cur) + ink(words[0]) + ink(words.drop_first().flatten())
            =~= ink(out.flatten()) + ink(cur) + (ink(words[0]) + ink(
            words.drop_first().flatten(),
        )));
    }
}

proof fn lemma_wrap_paragraphs_ink(paras: Seq<Seq<char>>, width: nat, out: Seq<Seq<char>>)
    ensures
        ink(wrap_paragraphs(paras, width, out).flatten()) == ink(out.flatten()) + ink(
            paras.flatten(),
        ),
    decreases paras.len(),
{
    if paras.len() == 0 {
        assert(ink(paras.flatten()) =~= Seq::<char>::empty());
        assert(ink(out.flatten()) + Seq::<char>::empty() =~= ink(out.flatten()));
    } else {
        let p = paras[0];
        let e: Seq<char> = seq![];
        let st = wrap_words(split_on(p, ' '), width, out, e);
        lemma_wrap_words_ink(split_on(p, ' '), width, out, e);
        lemma_split_on_ink(p, ' ');
        assert(ink(e) =~= Seq::<char>::empty());
        assert(ink(out.flatten()) + ink(e) =~= ink(out.flatten()));
        lemma_ink_lines_push(st.0, st.1);
        lemma_wrap_paragraphs_ink(paras.drop_first(), width, st.0.push(st.1));
        lemma_ink_add(p, paras.drop_first().flatten());
        assert(ink(out.flatten()) + ink(p) + ink(paras.drop_first().flatten())
            =~= ink(out.flatten()) + (ink(p) + ink(paras.drop_first().flatten())));
    }
}

/// Wrapping loses nothing but spaces and line feeds: the lines, run
/// together, hold exactly the other characters of the text, in order.
pub proof fn lemma_wrapped_keeps_text(s: Seq<char>, width: nat)
    ensures
        ink(wrapped(s, width).flatten()) == ink(s),
{
    if width == 0 {
        seq![s].lemma_flatten_one_element();
    } else {
        let e: Seq<Seq<char>> = seq![];
        lemma_wrap_paragraphs_ink(split_on(s, '\n'), width, e);
        lemma_split_on_ink(s, '\n');
        assert(ink(e.flatten()) =~= Seq::<char>::empty());
        assert(Seq::<char>::empty() + ink(split_on(s, '\n').flatten()) =~= ink(
            split_on(s, '\n').flatten(),
        ));
    }
}


/// The line does not start with a space.
pub open spec fn starts_clean(l: Seq<char>) -> bool {
    l.len() == 0 || l[0] != ' '
}

/// No line starts with a space.
pub open spec fn all_clean(ls: Seq<Seq<char>>) -> bool {
    forall|i: int| 0 <= i < ls.len() ==> starts_clean(#[trigger] ls[i])
}

proof fn lemma_wrap_word_clean(out: Seq<Seq<char>>, cur: Seq<char>, w: Seq<char>, width: nat)
    requires
        width > 0,
        all_clean(out),
        starts_clean(cur),
        lacks(w, ' '),
    ensures
        all_clean(wrap_word(out, cur, w, width).0),
        starts_clean(wrap_word(out, cur, w, width).1),
{
    let r = wrap_word(out, cur, w, width);
    if w.len() > width {
        let out1 = if cur.len() > 0 {
            out.push(cur)
        } else {
            out
        };
        lemma_chunks(w, width, ' ');
        let cs = chunks(w, width);
        assert(r.0 == out1 + cs.drop_last());
        assert forall|i: int| 0 <= i < r.0.len() implies starts_clean(#[trigger] r.0[i]) by {
            if i < out1.len() {
                assert(r.0[i] == out1[i]);
                if i < out.len() {
                    assert(out1[i] == out[i]);
                }
            } else {
                assert(r.0[i] == cs[i - out1.len()]);
                if cs[i - out1.len()].len() > 0 {
                    assert(cs[i - out1.len()][0] != ' ');
                }
            }
        }
        if r.1.len() > 0 {
            assert(r.1 == cs[cs.len() - 1]);
            assert(cs[cs.len() - 1][0] != ' ');
        }
    } else {
        assert forall|i: int| 0 <= i < r.0.len() implies starts_clean(#[trigger] r.0[i]) by {
            if i < out.len() {
                assert(r.0[i] == out[i]);
            }
        }
        if w.len() > 0 {
            assert(w[0] != ' ');
        }
        if cur.len() > 0 {
            assert((cur + seq![' '] + w)[0] == cur[0]);
        }
    }
}

proof fn lemma_wrap_words_clean(
    words: Seq<Seq<char>>,
    width: nat,
    out: Seq<Seq<char>>,
    cur: Seq<char>,
)
    requires
        width > 0,
        all_clean(out),
        starts_clean(cur),
        none_holds(words, ' '),
    ensures
        all_clean(wrap_words(words, width, out, cur).0),
        starts_clean(wrap_words(words, width, out, cur).1),
    decreases words.len(),
{
    if words.len() > 0 {
        assert(lacks(words[0], ' ')) by {
            assert forall|k: int| 0 <= k < words[0].len() implies #[trigger] words[0][k] != ' ' by {
                assert(words[0][k] == words[0][k]);
            }
        }
        lemma_wrap_word_clean(out, cur, words[0], width);
        let st = wrap_word(out, cur, words[0], width);
        let rest = words.drop_first();
        assert forall|i: int, k: int|
            0 <= i < rest.len() && 0 <= k < rest[i].len() implies #[trigger] rest[i][k] != ' ' by {
            assert(rest[i] == words[i + 1]);
        }
        lemma_wrap_words_clean(rest, width, st.0, st.1);
    }
}

proof fn lemma_wrap_paragraphs_clean(paras: Seq<Seq<char>>, width: nat, out: Seq<Seq<char>>)
    requires
        width > 0,
        all_clean(out),
    ensures
        all_clean(wrap_paragraphs(paras, width, out)),
    decreases paras.len(),
{
    if paras.len() > 0 {
        let p = paras[0];
        lemma_split_on_lacks(p, ' ', ' ');
        let e: Seq<char> = seq![];
        lemma_wrap_words_clean(split_on(p, ' '), width, out, e);
        let st = wrap_words(split_on(p, ' '), width, out, e);
        let out2 = st.0.push(st.1);
        assert forall|i: int| 0 <= i < out2.len() implies starts_clean(#[trigger] out2[i]) by {
            if i < st.0.len() {
                assert(out2[i] == st.0[i]);
            }
        }
        lemma_wrap_paragraphs_clean(paras.drop_first(), width, out2);
    }
}

/// Words that fit after `cur` join it, each after one space.
proof fn lemma_words_join(
    rest: Seq<char>,
    width: nat,
    out: Seq<Seq<char>>,
    cur: Seq<char>,
)
    requires
        cur.len() > 0,
        cur.len() + 1 + rest.len() <= width,
    ensures
        wrap_words(split_on(rest, ' '), width, out, cur).0 == out,
        wrap_words(split_on(rest, ' '), width, out, cur).1 == cur + seq![' '] + rest,
    decreases rest.len(),
{
    crate::text::lemma_char_index(rest, ' ');
    let k = char_index(rest, ' ');
    let ws = split_on(rest, ' ');
    if k >= rest.len() {
        assert(ws == seq![rest]);
        let st = wrap_word(out, cur, rest, width);
        assert(st.0 == out);
        assert(st.1 == cur + seq![' '] + rest);
        assert(ws.drop_first() =~= Seq::<Seq<char>>::empty());
        assert(wrap_words(ws, width, out, cur) == wrap_words(ws.drop_first(), width, st.0, st.1));
        assert(wrap_words(ws.drop_first(), width, st.0, st.1) == st);
    } else {
        let word = rest.take(k as int);
        let tail = rest.skip(k + 1int);
        assert(ws == seq![word] + split_on(tail, ' '));
        assert(ws[0] == word);
        assert(ws.drop_first() =~= split_on(tail, ' '));
        let cur2 = cur + seq![' '] + word;
        let st = wrap_word(out, cur, word, width);
        assert(st.0 == out);
        assert(st.1 == cur2);
        assert(wrap_words(ws, width, out, cur) == wrap_words(split_on(tail, ' '), width, out, cur2));
        lemma_words_join(tail, width, out, cur2);
        assert(cur2 + seq![' '] + tail =~= cur + seq![' '] + rest) by {
            assert(rest =~= word + seq![' '] + tail);
        }
    }
}

/// A line that fits, holds no line feed and does not start with a space is
/// left as it is by wrapping.
proof fn lemma_rewrap_line(l: Seq<char>, width: nat)
    requires
        width > 0,
        l.len() <= width,
        lacks(l, '\n'),
        starts_clean(l),
    ensures
        wrapped(l, width) == seq![l],
{
    crate::text::lemma_char_index(l, '\n');
    assert(char_index(l, '\n') >= l.len()) by {
        if char_index(l, '\n') < l.len() {
            assert(l[char_index(l, '\n') as int] == '\n');
        }
    }
    assert(split_on(l, '\n') == seq![l]);
    let e: Seq<char> = seq![];
    let none: Seq<Seq<char>> = seq![];
    crate::text::lemma_char_index(l, ' ');
    let k = char_index(l, ' ');
    let ws = split_on(l, ' ');
    if k >= l.len() {
        assert(ws == seq![l]);
        let st = wrap_word(none, e, l, width);
        assert(st.0 == none);
        assert(st.1 == l);
        assert(ws.drop_first() =~= Seq::<Seq<char>>::empty());
        assert(wrap_words(ws, width, none, e) == wrap_words(ws.drop_first(), width, st.0, st.1));
        assert(wrap_words(ws.drop_first(), width, st.0, st.1) == st);
    } else {
        assert(k > 0);
        let word = l.take(k as int);
        let tail = l.skip(k + 1int);
        assert(ws == seq![word] + split_on(tail, ' '));
        assert(ws[0] == word);
        assert(ws.drop_first() =~= split_on(tail, ' '));
        let st = wrap_word(none, e, word, width);
        assert(st.0 == none);
        assert(st.1 == word);
        assert(wrap_words(ws, width, none, e) == wrap_words(split_on(tail, ' '), width, none, word));
        lemma_words_join(tail, width, none, word);
        assert(word + seq![' '] + tail =~= l);
    }
    let r = wrap_words(ws, width, none, e);
    assert(r.0 == none);
    assert(r.1 == l);
    let ps = seq![l];
    assert(ps.drop_first() =~= Seq::<Seq<char>>::empty());
    assert(wrap_paragraphs(ps, width, none) == wrap_paragraphs(ps.drop_first(), width, r.0.push(r.1)));
    assert(wrap_paragraphs(ps.drop_first(), width, r.0.push(r.1)) == r.0.push(r.1));
    assert(none.push(l) =~= seq![l]);
}

/// Wrapping what wrapping gave changes nothing: every line, wrapped again
/// at the same positive width, is that one line.
pub proof fn lemma_wrapped_is_stable(s: Seq<char>, width: nat)
    requires
        width > 0,
    ensures
        forall|i: int|
            0 <= i < wrapped(s, width).len() ==> wrapped(#[trigger] wrapped(s, width)[i], width)
                == seq![wrapped(s, width)[i]],
{
    lemma_wrapped_lines(s, width);
    let e: Seq<Seq<char>> = seq![];
    lemma_wrap_paragraphs_clean(split_on(s, '\n'), width, e);
    let ls = wrapped(s, width);
    assert forall|i: int| 0 <= i < ls.len() implies wrapped(#[trigger] ls[i], width) == seq![ls[i]] by {
        assert(lacks(ls[i], '\n')) by {
            assert forall|k: int| 0 <= k < ls[i].len() implies #[trigger] ls[i][k] != '\n' by {
                assert(ls[i][k] == ls[i][k]);
            }
        }
        assert(ls[i].len() <= width);
        assert(starts_clean(ls[i]));
        lemma_rewrap_line(ls[i], width);
    }
}

/// Splitting at `c` where `c` joins two texts splits each text on its own.
pub proof fn lemma_split_on_join(a: Seq<char>, b: Seq<char>, c: char)
    ensures
        split_on(a + seq![c] + b, c) == split_on(a, c) + split_on(b, c),
    decreases a.len(),
{
    let s = a + seq![c] + b;
    crate::text::lemma_char_index(a, c);
    let k = char_index(a, c);
    if k >= a.len() {
        crate::text::lemma_char_index_unique(s, c, a.len() as int);
        assert(s.take(a.len() as int) =~= a);
        assert(s.skip(a.len() + 1int) =~= b);
        assert(split_on(a, c) == seq![a]);
    } else {
        crate::text::lemma_char_index_unique(s, c, k as int);
        let rest = a.skip(k + 1int);
        assert(s.take(k as int) =~= a.take(k as int));
        assert(s.skip(k + 1int) =~= rest + seq![c] + b);
        lemma_split_on_join(rest, b, c);
        assert(split_on(s, c) == seq![a.take(k as int)] + split_on(rest + seq![c] + b, c));
        assert(split_on(a, c) == seq![a.take(k as int)] + split_on(rest, c));
        assert(seq![a.take(k as int)] + (split_on(rest, c) + split_on(b, c)) =~= (seq![
            a.take(k as int),
        ] + split_on(rest, c)) + split_on(b, c));
    }
}

/// The lines already finished play no part in how a word is placed.
proof fn lemma_wrap_word_prefix(out: Seq<Seq<char>>, cur: Seq<char>, w: Seq<char>, width: nat)
    ensures
        wrap_word(out, cur, w, width).0 == out + wrap_word(seq![], cur, w, width).0,
        wrap_word(out, cur, w, width).1 == wrap_word(seq![], cur, w, width).1,
{
    let e: Seq<Seq<char>> = seq![];
    if w.len() > width {
        let cs = chunks(w, width);
        if cur.len() > 0 {
            assert(out.push(cur) + cs.drop_last() =~= out + (e.push(cur) + cs.drop_last()));
        } else {
            assert(out + cs.drop_last() =~= out + (e + cs.drop_last()));
        }
    } else {
        assert(out.push(cur) =~= out + e.push(cur));
        assert(out =~= out + e);
    }
}

/// The lines already finished play no part in how a paragraph's words are
/// placed.
proof fn lemma_wrap_words_prefix(
    words: Seq<Seq<char>>,
    width: nat,
    out: Seq<Seq<char>>,
    cur: Seq<char>,
)
    ensures
        wrap_words(words, width, out, cur).0 == out + wrap_words(words, width, seq![], cur).0,
        wrap_words(words, width, out, cur).1 == wrap_words(words, width, seq![], cur).1,
    decreases words.len(),
{
    let e: Seq<Seq<char>> = seq![];
    if words.len() == 0 {
        assert(out =~= out + e);
    } else {
        let rest = words.drop_first();
        let st = wrap_word(out, cur, words[0], width);
        let st0 = wrap_word(e, cur, words[0], width);
        lemma_wrap_word_prefix(out, cur, words[0], width);
        lemma_wrap_words_prefix(rest, width, st.0, st.1);
        lemma_wrap_words_prefix(rest, width, st0.0, st0.1);
        let tail = wrap_words(rest, width, e, st0.1).0;
        assert(st.0 + tail =~= out + (st0.0 + tail));
    }
}

/// The lines already finished are kept in front of what the paragraphs add.
proof fn lemma_wrap_paragraphs_prefix(paras: Seq<Seq<char>>, width: nat, out: Seq<Seq<char>>)
    ensures
        wrap_paragraphs(paras, width, out) == out + wrap_paragraphs(paras, width, seq![]),
    decreases paras.len(),
{
    let e: Seq<Seq<char>> = seq![];
    let none: Seq<char> = seq![];
    if paras.len() == 0 {
        assert(out =~= out + e);
    } else {
        let rest = paras.drop_first();
        let ws = split_on(paras[0], ' ');
        let st = wrap_words(ws, width, out, none);
        let st0 = wrap_words(ws, width, e, none);
        lemma_wrap_words_prefix(ws, width, out, none);
        lemma_wrap_paragraphs_prefix(rest, width, st.0.push(st.1));
        lemma_wrap_paragraphs_prefix(rest, width, st0.0.push(st0.1));
        let tail = wrap_paragraphs(rest, width, e);
        assert(st.0.push(st.1) =~= out + st0.0.push(st0.1));
        assert(st.0.push(st.1) + tail =~= out + (st0.0.push(st0.1) + tail));
    }
}

/// Paragraphs one after another are wrapped as the first ones, then the rest.
proof fn lemma_wrap_paragraphs_concat(
    p: Seq<Seq<char>>,
    q: Seq<Seq<char>>,
    width: nat,
    out: Seq<Seq<char>>,
)
    ensures
        wrap_paragraphs(p + q, width, out) == wrap_paragraphs(q, width, wrap_paragraphs(p, width, out)),
    decreases p.len(),
{
    if p.len() == 0 {
        assert(p + q =~= q);
    } else {
        let none: Seq<char> = seq![];
        assert((p + q)[0] == p[0]);
        assert((p + q).drop_first() =~= p.drop_first() + q);
        let st = wrap_words(split_on(p[0], ' '), width, out, none);
        lemma_wrap_paragraphs_concat(p.drop_first(), q, width, st.0.push(st.1));
    }
}

/// Each line of a text is wrapped on its own: for a positive width, wrapping
/// two texts joined by a line feed gives the lines of the first followed by
/// the lines of the second.
pub proof fn lemma_wrapped_splits_at_newline(a: Seq<char>, b: Seq<char>, width: nat)
    requires
        width > 0,
    ensures
        wrapped(a + seq!['\n'] + b, width) == wrapped(a, width) + wrapped(b, width),
{
    let e: Seq<Seq<char>> = seq![];
    lemma_split_on_join(a, b, '\n');
    lemma_wrap_paragraphs_concat(split_on(a, '\n'), split_on(b, '\n'), width, e);
    lemma_wrap_paragraphs_prefix(split_on(b, '\n'), width, wrapped(a, width));
}

/// A shortened id is the id itself up to ten characters; a longer one
/// gives nine characters: its first eight, then "…".
pub proof fn lemma_shortened_shape(id: Seq<char>)
    ensures
        id.len() <= 10 ==> shortened(id) == id,
        id.len() > 10 ==> shortened(id).len() == 9,
        id.len() > 10 ==> forall|k: int| 0 <= k < 8 ==> #[trigger] shortened(id)[k] == id[k],
        id.len() > 10 ==> shortened(id)[8] == '\u{2026}',
{
    reveal_strlit("\u{2026}");
}

} // verus!
