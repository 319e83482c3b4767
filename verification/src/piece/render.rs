//! Rendering sections into pieces: word wrapping, lists, tables, quotes.
use vstd::prelude::*;
use crate::text::{
    spec_is_whitespace, is_whitespace, chars_of, push_char, push_chars, repeat_char, repeated,
    decimal, push_decimal, lemma_usize_decimal_len, join, join_len, lemma_join_len, strings_view,
    join_strings, text_lines, split_lines, lemma_text_lines_len, string_from_chars,
};
use crate::parse::types::{
    TextRun, RunView, runs_view, Section, ContentItem, ListEntry, ItemView, EntryView, SectionView,
    table_rows_view, entry_view, entries_view, item_view, items_view, section_view, lemma_entries_view,
    lemma_items_view,
};
use super::types::{
    LineSegment, RenderedLine, TextStyle, SegView, segs_view, segs_width, segs_text, line_view, Piece,
};

verus! {

// ---------------------------------------------------------------------
// Splitting on whitespace
// ---------------------------------------------------------------------

/// The maximal runs of non-whitespace characters of `s`, in order
/// (`str::split_whitespace`).
pub open spec fn split_ws(s: Seq<char>) -> Seq<Seq<char>>
    decreases s.len(),
{
    if s.len() == 0 {
        Seq::empty()
    } else {
        let words = split_ws(s.drop_last());
        let c = s.last();
        if spec_is_whitespace(c) {
            words
        } else if s.len() > 1 && !spec_is_whitespace(s[s.len() - 2]) {
            words.update(words.len() - 1, words.last().push(c))
        } else {
            words.push(seq![c])
        }
    }
}

/// Characters plus one separator per word.
pub open spec fn word_total(ws: Seq<Seq<char>>) -> nat
    decreases ws.len(),
{
    if ws.len() == 0 {
        0
    } else {
        word_total(ws.drop_last()) + ws.last().len() + 1
    }
}

proof fn lemma_split_ws(s: Seq<char>)
    ensures
        word_total(split_ws(s)) <= 2 * s.len(),
        s.len() > 0 && !spec_is_whitespace(s.last()) ==> split_ws(s).len() > 0,
    decreases s.len(),
{
    if s.len() > 0 {
        let p = s.drop_last();
        lemma_split_ws(p);
        let words = split_ws(p);
        let c = s.last();
        if spec_is_whitespace(c) {
        } else if s.len() > 1 && !spec_is_whitespace(s[s.len() - 2]) {
            assert(p.last() == s[s.len() - 2]);
            let nw = words.update(words.len() - 1, words.last().push(c));
            assert(nw.drop_last() =~= words.drop_last());
        } else {
            assert(words.push(seq![c]).drop_last() =~= words);
        }
    }
}

fn copy_chars(v: &Vec<char>) -> (c: Vec<char>)
    ensures
        c@ == v@,
{
    let mut c: Vec<char> = Vec::new();
    let mut i: usize = 0;
    while i < v.len()
        invariant
            i <= v.len(),
            c@ == v@.take(i as int),
        decreases v.len() - i,
    {
        c.push(v[i]);
        i += 1;
        assert(c@ =~= v@.take(i as int));
    }
    assert(v@.take(v.len() as int) =~= v@);
    c
}

pub open spec fn words_view(ws: Seq<Vec<char>>) -> Seq<Seq<char>> {
    ws.map_values(|w: Vec<char>| w@)
}

/// The words of `s`: its maximal runs of non-whitespace characters.
fn split_whitespace(s: &Vec<char>) -> (ws: Vec<Vec<char>>)
    ensures
        words_view(ws@) == split_ws(s@),
{
    let mut words: Vec<Vec<char>> = Vec::new();
    let mut cur: Vec<char> = Vec::new();
    let mut i: usize = 0;
    while i < s.len()
        invariant
            i <= s.len(),
            split_ws(s@.take(i as int)) == if cur.len() > 0 {
                words_view(words@).push(cur@)
            } else {
                words_view(words@)
            },
            cur.len() > 0 <==> (i > 0 && !spec_is_whitespace(s@[i - 1])),
        decreases s.len() - i,
    {
        let c = s[i];
        let ghost p = s@.take(i as int);
        let ghost q = s@.take(i + 1);
        assert(q.drop_last() =~= p);
        assert(q.last() == c);
        if is_whitespace(c) {
            if cur.len() > 0 {
                let done = cur;
                cur = Vec::new();
                words.push(done);
                assert(words_view(words@) =~= words_view(words@.drop_last()).push(done@));
                assert(words@.drop_last() =~= words@.drop_last());
            }
        } else {
            if cur.len() > 0 {
                assert(q[q.len() - 2] == s@[i - 1]);
                let ghost before = cur@;
                cur.push(c);
                assert(split_ws(q) =~= words_view(words@).push(before).update(
                    words_view(words@).len() as int,
                    before.push(c),
                ));
                assert(words_view(words@).push(before).update(words_view(words@).len() as int, before.push(c))
                    =~= words_view(words@).push(cur@));
            } else {
                cur.push(c);
                assert(cur@ =~= seq![c]);
            }
        }
        i += 1;
        proof {
            if i >= 2 {
                assert(q[q.len() - 2] == s@[i - 2]);
            }
        }
    }
    assert(s@.take(s.len() as int) =~= s@);
    if cur.len() > 0 {
        let ghost wv = words_view(words@);
        words.push(cur);
        assert(words_view(words@) =~= wv.push(words@.last()@));
    }
    words
}

// ---------------------------------------------------------------------
// Tokens
// ---------------------------------------------------------------------

/// A word, its style, and whether a space separates it from the word before.
pub type TokView = (Seq<char>, TextStyle, bool);

/// The tokens of one run's words: the first word has a space before it
/// when `first_space`, the others always do.
pub open spec fn run_tokens(words: Seq<Seq<char>>, style: TextStyle, first_space: bool) -> Seq<TokView> {
    Seq::new(words.len(), |i: int| (words[i], style, if i == 0 { first_space } else { true }))
}

/// The tokens of a sequence of runs, and whether the text so far ends in a
/// break between words (whitespace at the end of the last run, or a run
/// with no words).
///
/// The first word of a run is spaced from the previous token when the
/// previous text ended in a break or the run starts with whitespace.
pub open spec fn tokenize(runs: Seq<RunView>) -> (Seq<TokView>, bool)
    decreases runs.len(),
{
    if runs.len() == 0 {
        (Seq::empty(), false)
    } else {
        let (toks, trailing) = tokenize(runs.drop_last());
        let t = runs.last().0;
        let lead = t.len() > 0 && spec_is_whitespace(t[0]);
        let trail = t.len() > 0 && spec_is_whitespace(t.last());
        let words = split_ws(t);
        (
            toks + run_tokens(words, runs.last().1, toks.len() > 0 && (trailing || lead)),
            trail || words.len() == 0,
        )
    }
}

/// Characters plus one separator per token.
pub open spec fn tok_total(toks: Seq<TokView>) -> nat
    decreases toks.len(),
{
    if toks.len() == 0 {
        0
    } else {
        tok_total(toks.drop_last()) + toks.last().0.len() + 1
    }
}

/// The number of characters in a sequence of runs.
pub open spec fn run_chars(runs: Seq<RunView>) -> nat
    decreases runs.len(),
{
    if runs.len() == 0 {
        0
    } else {
        run_chars(runs.drop_last()) + runs.last().0.len()
    }
}

proof fn lemma_tok_total_append(a: Seq<TokView>, b: Seq<TokView>)
    ensures
        tok_total(a + b) == tok_total(a) + tok_total(b),
    decreases b.len(),
{
    if b.len() > 0 {
        assert((a + b).drop_last() =~= a + b.drop_last());
        lemma_tok_total_append(a, b.drop_last());
    } else {
        assert(a + b =~= a);
    }
}

proof fn lemma_run_tokens_total(words: Seq<Seq<char>>, style: TextStyle, fs: bool)
    ensures
        tok_total(run_tokens(words, style, fs)) == word_total(words),
    decreases words.len(),
{
    if words.len() > 0 {
        let rt = run_tokens(words, style, fs);
        let rd = run_tokens(words.drop_last(), style, fs);
        assert(rt.drop_last() =~= rd);
        lemma_run_tokens_total(words.drop_last(), style, fs);
    }
}

/// The tokens take at most twice as many characters as the runs.
pub proof fn lemma_tokenize_total(runs: Seq<RunView>)
    ensures
        tok_total(tokenize(runs).0) <= 2 * run_chars(runs),
    decreases runs.len(),
{
    if runs.len() > 0 {
        lemma_tokenize_total(runs.drop_last());
        let (toks, trailing) = tokenize(runs.drop_last());
        let t = runs.last().0;
        let lead = t.len() > 0 && spec_is_whitespace(t[0]);
        let words = split_ws(t);
        lemma_split_ws(t);
        let rt = run_tokens(words, runs.last().1, toks.len() > 0 && (trailing || lead));
        lemma_tok_total_append(toks, rt);
        lemma_run_tokens_total(words, runs.last().1, toks.len() > 0 && (trailing || lead));
    }
}

struct Token {
    text: Vec<char>,
    style: TextStyle,
    space_before: bool,
}

spec fn tok_view(t: Token) -> TokView {
    (t.text@, t.style, t.space_before)
}

spec fn toks_view(ts: Seq<Token>) -> Seq<TokView> {
    ts.map_values(|t: Token| tok_view(t))
}

fn tokenize_runs(runs: &Vec<TextRun>) -> (toks: Vec<Token>)
    ensures
        toks_view(toks@) == tokenize(runs_view(runs@)).0,
{
    let ghost rv = runs_view(runs@);
    let mut tokens: Vec<Token> = Vec::new();
    let mut trailing_space = false;
    let mut k: usize = 0;
    while k < runs.len()
        invariant
            k <= runs.len(),
            rv == runs_view(runs@),
            (toks_view(tokens@), trailing_space) == tokenize(rv.take(k as int)),
        decreases runs.len() - k,
    {
        let run = &runs[k];
        let text = chars_of(run.text.as_str());
        let has_leading_space = text.len() > 0 && is_whitespace(text[0]);
        let has_trailing_space = text.len() > 0 && is_whitespace(text[text.len() - 1]);
        let words = split_whitespace(&text);
        let had_tokens = tokens.len() > 0;
        let ghost before = toks_view(tokens@);
        let ghost first_space = had_tokens && (trailing_space || has_leading_space);
        let ghost rt = run_tokens(words_view(words@), run.style, first_space);
        let mut j: usize = 0;
        while j < words.len()
            invariant
                j <= words.len(),
                rt == run_tokens(words_view(words@), run.style, first_space),
                first_space == (had_tokens && (trailing_space || has_leading_space)),
                toks_view(tokens@) == before + rt.take(j as int),
            decreases words.len() - j,
        {
            let space_before = if j == 0 {
                had_tokens && (trailing_space || has_leading_space)
            } else {
                true
            };
            let w = copy_chars(&words[j]);
            let ghost b2 = toks_view(tokens@);
            assert(words_view(words@)[j as int] == words@[j as int]@);
            let tok = Token { text: w, style: run.style, space_before };
            assert(tok_view(tok) == rt[j as int]);
            tokens.push(tok);
            assert(toks_view(tokens@) =~= b2.push(tok_view(tok)));
            assert(rt.take(j + 1) =~= rt.take(j as int).push(rt[j as int]));
            j += 1;
            assert(toks_view(tokens@) =~= before + rt.take(j as int));
        }
        assert(rt.take(words.len() as int) =~= rt);
        trailing_space = has_trailing_space || words.len() == 0;
        proof {
            let rvk = rv.take(k + 1);
            assert(rvk.drop_last() =~= rv.take(k as int));
            assert(rvk.last() == (run.text@, run.style));
            assert(text@ == run.text@);
        }
        k += 1;
    }
    assert(rv.take(runs.len() as int) =~= rv);
    tokens
}

// ---------------------------------------------------------------------
// Greedy wrapping
// ---------------------------------------------------------------------

pub open spec fn space_prefix(space: bool) -> Seq<char> {
    if space {
        seq![' ']
    } else {
        Seq::empty()
    }
}

/// Finished lines, the segments of the line being filled, and its width.
pub type WrapState = (Seq<Seq<SegView>>, Seq<SegView>, nat);

/// Greedy wrapping of tokens into lines of at most `max_width` characters.
/// A token goes on the current line when it fits (with its space, if the
/// token asks for one and the line is not empty) or when the line is empty;
/// else it starts a new line, without a space. A token in the style of the
/// line's last segment joins that segment.
pub open spec fn wrap_state(toks: Seq<TokView>, max_width: nat) -> WrapState
    decreases toks.len(),
{
    if toks.len() == 0 {
        (Seq::empty(), Seq::empty(), 0)
    } else {
        let (lines, segs, width) = wrap_state(toks.drop_last(), max_width);
        let t = toks.last();
        let space: nat = if t.2 && segs.len() > 0 { 1 } else { 0 };
        let tl = t.0.len();
        if width + space + tl > max_width && segs.len() > 0 {
            (lines.push(segs), seq![(t.0, t.1)], tl)
        } else if segs.len() > 0 && segs.last().1 == t.1 {
            (
                lines,
                segs.update(segs.len() - 1, (segs.last().0 + space_prefix(space > 0) + t.0, t.1)),
                width + space + tl,
            )
        } else {
            (lines, segs.push((space_prefix(space > 0) + t.0, t.1)), width + space + tl)
        }
    }
}

/// The lines of greedily wrapped tokens.
pub open spec fn wrap_lines(toks: Seq<TokView>, max_width: nat) -> Seq<Seq<SegView>> {
    let (lines, segs, _) = wrap_state(toks, max_width);
    if segs.len() > 0 {
        lines.push(segs)
    } else {
        lines
    }
}

/// The wrapped lines of a sequence of runs.
pub open spec fn wrap_runs_spec(runs: Seq<RunView>, max_width: nat) -> Seq<Seq<SegView>> {
    wrap_lines(tokenize(runs).0, max_width)
}

pub open spec fn lines_view(ls: Seq<RenderedLine>) -> Seq<Seq<SegView>> {
    ls.map_values(|l: RenderedLine| line_view(l))
}

/// Every line's width is its character count.
pub open spec fn widths_exact(ls: Seq<RenderedLine>) -> bool {
    forall|i: int| 0 <= i < ls.len() ==> (#[trigger] ls[i]).width == segs_width(line_view(ls[i]))
}

proof fn lemma_tok_total_prefix(toks: Seq<TokView>, k: int)
    requires
        0 <= k <= toks.len(),
    ensures
        tok_total(toks.take(k)) <= tok_total(toks),
    decreases toks.len(),
{
    if k < toks.len() {
        assert(toks.drop_last().take(k) =~= toks.take(k));
        lemma_tok_total_prefix(toks.drop_last(), k);
    } else {
        assert(toks.take(k) =~= toks);
    }
}

proof fn lemma_segs_width_push(s: Seq<SegView>, x: SegView)
    ensures
        segs_width(s.push(x)) == segs_width(s) + x.0.len(),
{
    assert(s.push(x).drop_last() =~= s);
}

proof fn lemma_segs_width_update_last(s: Seq<SegView>, x: SegView)
    requires
        s.len() > 0,
    ensures
        segs_width(s.update(s.len() - 1, x)) == segs_width(s) - s.last().0.len() + x.0.len(),
{
    assert(s.update(s.len() - 1, x).drop_last() =~= s.drop_last());
}

fn wrap_tokens(tokens: &Vec<Token>, max_width: usize) -> (lines: Vec<RenderedLine>)
    requires
        tok_total(toks_view(tokens@)) <= usize::MAX,
    ensures
        lines_view(lines@) == wrap_lines(toks_view(tokens@), max_width as nat),
        widths_exact(lines@),
        forall|i: int| 0 <= i < lines.len() ==> (#[trigger] lines[i]).width <= tok_total(toks_view(tokens@)),
{
    let ghost tv = toks_view(tokens@);
    let mut result: Vec<RenderedLine> = Vec::new();
    let mut segments: Vec<LineSegment> = Vec::new();
    let mut width: usize = 0;
    let mut i: usize = 0;
    while i < tokens.len()
        invariant
            i <= tokens.len(),
            tv == toks_view(tokens@),
            tok_total(tv) <= usize::MAX,
            wrap_state(tv.take(i as int), max_width as nat) == (lines_view(result@), segs_view(segments@), width as nat),
            width == segs_width(segs_view(segments@)),
            width <= tok_total(tv.take(i as int)),
            widths_exact(result@),
            forall|k: int| 0 <= k < result.len() ==> (#[trigger] result[k]).width <= tok_total(tv),
        decreases tokens.len() - i,
    {
        let token = &tokens[i];
        proof {
            let q = tv.take(i + 1);
            assert(q.drop_last() =~= tv.take(i as int));
            assert(q.last() == tok_view(*token));
            lemma_tok_total_prefix(tv, i + 1);
        }
        let space: usize = if token.space_before && segments.len() > 0 { 1 } else { 0 };
        let token_len = token.text.len();
        if width + space + token_len > max_width && segments.len() > 0 {
            let ghost lv = lines_view(result@);
            let done = segments;
            let line = RenderedLine::new(done);
            result.push(line);
            assert(lines_view(result@) =~= lv.push(segs_view(done@)));
            segments = Vec::new();
            let text = crate::text::string_from_chars(&token.text);
            segments.push(LineSegment { text, style: token.style });
            width = token_len;
            proof {
                assert(segs_view(segments@) =~= seq![(token.text@, token.style)]);
                lemma_segs_width_push(Seq::<SegView>::empty(), (token.text@, token.style));
                assert(seq![(token.text@, token.style)] =~= Seq::<SegView>::empty().push((token.text@, token.style)));
            }
        } else if segments.len() > 0 && segments[segments.len() - 1].style == token.style {
            let ghost old_segs = segs_view(segments@);
            let ghost old_segments = segments@;
            let mut last = segments.pop().unwrap();
            assert(last == old_segments.last());
            assert(last.style == token.style);
            assert(segments@ =~= old_segments.drop_last());
            if space > 0 {
                push_char(&mut last.text, ' ');
            }
            push_chars(&mut last.text, &token.text);
            segments.push(last);
            proof {
                let nl = (old_segs.last().0 + space_prefix(space > 0) + token.text@, token.style);
                assert(last.text@ =~= old_segs.last().0 + space_prefix(space > 0) + token.text@);
                assert(segs_view(segments@) =~= old_segs.update(old_segs.len() - 1, nl));
                lemma_segs_width_update_last(old_segs, nl);
            }
            width = width + space + token_len;
        } else {
            let ghost old_segs = segs_view(segments@);
            let mut text = String::new();
            if space > 0 {
                push_char(&mut text, ' ');
            }
            push_chars(&mut text, &token.text);
            segments.push(LineSegment { text, style: token.style });
            proof {
                let nl = (space_prefix(space > 0) + token.text@, token.style);
                assert(segs_view(segments@) =~= old_segs.push(nl));
                lemma_segs_width_push(old_segs, nl);
            }
            width = width + space + token_len;
        }
        i += 1;
    }
    assert(tv.take(tokens.len() as int) =~= tv);
    if segments.len() > 0 {
        let ghost lv = lines_view(result@);
        let line = RenderedLine::new(segments);
        result.push(line);
        assert(lines_view(result@) =~= lv.push(line_view(line)));
    }
    result
}

/// Word-wraps runs to lines of at most `max_width` characters (a single
/// word longer than that gets a line of its own).
fn wrap_runs(runs: &Vec<TextRun>, max_width: usize) -> (lines: Vec<RenderedLine>)
    requires
        2 * run_chars(runs_view(runs@)) <= usize::MAX,
    ensures
        lines_view(lines@) == wrap_runs_spec(runs_view(runs@), max_width as nat),
        widths_exact(lines@),
        forall|i: int| 0 <= i < lines.len() ==> (#[trigger] lines[i]).width <= 2 * run_chars(runs_view(runs@)),
{
    let tokens = tokenize_runs(runs);
    proof {
        lemma_tokenize_total(runs_view(runs@));
    }
    if tokens.len() == 0 {
        assert(wrap_state(toks_view(tokens@), max_width as nat) == (Seq::<Seq<SegView>>::empty(), Seq::<SegView>::empty(), 0nat));
        let empty: Vec<RenderedLine> = Vec::new();
        assert(lines_view(empty@) =~= Seq::<Seq<SegView>>::empty());
        return empty;
    }
    wrap_tokens(&tokens, max_width)
}

/// `w` holds no whitespace character.
pub open spec fn no_whitespace(w: Seq<char>) -> bool {
    forall|i: int| 0 <= i < w.len() ==> !spec_is_whitespace(#[trigger] w[i])
}

/// A wrapped line is within `max_width`, or it is one word on its own.
pub open spec fn line_fits(l: Seq<SegView>, max_width: nat) -> bool {
    segs_width(l) <= max_width || (l.len() == 1 && no_whitespace(l[0].0))
}

proof fn lemma_split_ws_words(s: Seq<char>)
    ensures
        forall|k: int| 0 <= k < split_ws(s).len() ==> no_whitespace(#[trigger] split_ws(s)[k]),
    decreases s.len(),
{
    if s.len() > 0 {
        let p = s.drop_last();
        lemma_split_ws_words(p);
        let words = split_ws(p);
        let c = s.last();
        if spec_is_whitespace(c) {
        } else if s.len() > 1 && !spec_is_whitespace(s[s.len() - 2]) {
            assert(p.last() == s[s.len() - 2]);
            lemma_split_ws(p);
            let nw = words.update(words.len() - 1, words.last().push(c));
            assert forall|k: int| 0 <= k < nw.len() implies no_whitespace(#[trigger] nw[k]) by {
                if k == words.len() - 1 {
                    assert(no_whitespace(words[k]));
                    assert forall|i: int| 0 <= i < nw[k].len() implies !spec_is_whitespace(#[trigger] nw[k][i]) by {
                        if i < words[k].len() {
                            assert(nw[k][i] == words[k][i]);
                        }
                    }
                }
            }
        } else {
            let nw = words.push(seq![c]);
            assert forall|k: int| 0 <= k < nw.len() implies no_whitespace(#[trigger] nw[k]) by {
                if k < words.len() {
                    assert(nw[k] == words[k]);
                }
            }
        }
    }
}

proof fn lemma_tokens_are_words(runs: Seq<RunView>)
    ensures
        forall|k: int| 0 <= k < tokenize(runs).0.len() ==> no_whitespace(#[trigger] tokenize(runs).0[k].0),
    decreases runs.len(),
{
    if runs.len() > 0 {
        lemma_tokens_are_words(runs.drop_last());
        let (toks, trailing) = tokenize(runs.drop_last());
        let t = runs.last().0;
        lemma_split_ws_words(t);
        let lead = t.len() > 0 && spec_is_whitespace(t[0]);
        let rt = run_tokens(split_ws(t), runs.last().1, toks.len() > 0 && (trailing || lead));
        let all = toks + rt;
        assert(tokenize(runs).0 == all);
        assert forall|k: int| 0 <= k < all.len() implies no_whitespace(#[trigger] all[k].0) by {
            if k < toks.len() {
                assert(all[k] == toks[k]);
            } else {
                assert(all[k] == rt[k - toks.len()]);
                assert(rt[k - toks.len()].0 == split_ws(t)[k - toks.len()]);
            }
        }
    }
}

proof fn lemma_wrap_state_fits(toks: Seq<TokView>, max_width: nat)
    requires
        forall|k: int| 0 <= k < toks.len() ==> no_whitespace(#[trigger] toks[k].0),
    ensures
        wrap_state(toks, max_width).2 == segs_width(wrap_state(toks, max_width).1),
        forall|i: int|
            0 <= i < wrap_state(toks, max_width).0.len() ==> line_fits(
                #[trigger] wrap_state(toks, max_width).0[i],
                max_width,
            ),
        line_fits(wrap_state(toks, max_width).1, max_width),
    decreases toks.len(),
{
    if toks.len() > 0 {
        let prev = toks.drop_last();
        assert forall|k: int| 0 <= k < prev.len() implies no_whitespace(#[trigger] prev[k].0) by {
            assert(prev[k] == toks[k]);
        }
        lemma_wrap_state_fits(prev, max_width);
        let (lines, segs, width) = wrap_state(prev, max_width);
        let t = toks.last();
        assert(no_whitespace(toks[toks.len() - 1].0));
        let space: nat = if t.2 && segs.len() > 0 { 1 } else { 0 };
        let tl = t.0.len();
        if width + space + tl > max_width && segs.len() > 0 {
            let nl = lines.push(segs);
            assert forall|i: int| 0 <= i < nl.len() implies line_fits(#[trigger] nl[i], max_width) by {
                if i < lines.len() {
                    assert(nl[i] == lines[i]);
                }
            }
            let ns = seq![(t.0, t.1)];
            lemma_segs_width_push(Seq::<SegView>::empty(), (t.0, t.1));
            assert(ns =~= Seq::<SegView>::empty().push((t.0, t.1)));
        } else if segs.len() > 0 && segs.last().1 == t.1 {
            let x = (segs.last().0 + space_prefix(space > 0) + t.0, t.1);
            lemma_segs_width_update_last(segs, x);
        } else {
            let x = (space_prefix(space > 0) + t.0, t.1);
            lemma_segs_width_push(segs, x);
            if segs.len() == 0 {
                assert(segs.push(x)[0].0 =~= t.0);
            }
        }
    }
}

/// Wrapping keeps every line within the width, but for a line that holds
/// a single word longer than the width, which then stands alone.
pub proof fn wrapped_lines_fit(runs: Seq<RunView>, max_width: nat)
    ensures
        forall|i: int|
            0 <= i < wrap_runs_spec(runs, max_width).len() ==> line_fits(
                #[trigger] wrap_runs_spec(runs, max_width)[i],
                max_width,
            ),
{
    lemma_tokens_are_words(runs);
    let toks = tokenize(runs).0;
    lemma_wrap_state_fits(toks, max_width);
    let (lines, segs, _) = wrap_state(toks, max_width);
    if segs.len() > 0 {
        let all = lines.push(segs);
        assert forall|i: int| 0 <= i < all.len() implies line_fits(#[trigger] all[i], max_width) by {
            if i < lines.len() {
                assert(all[i] == lines[i]);
            }
        }
    }
}

// ---------------------------------------------------------------------
// Blocks
// ---------------------------------------------------------------------

pub open spec fn spaces(n: nat) -> Seq<char> {
    repeat_char(' ', n)
}

pub open spec fn sat_sub(a: nat, b: nat) -> nat {
    if a >= b {
        (a - b) as nat
    } else {
        0
    }
}

/// A line behind an unstyled prefix.
pub open spec fn with_prefix(prefix: Seq<char>, line: Seq<SegView>) -> Seq<SegView> {
    seq![(prefix, TextStyle::Normal)] + line
}

/// A line of one segment.
pub open spec fn one_seg(text: Seq<char>, style: TextStyle) -> Seq<SegView> {
    seq![(text, style)]
}

/// A paragraph wrapped to `available` columns, indented by `indent` spaces.
pub open spec fn paragraph_lines(runs: Seq<RunView>, available: nat, indent: nat) -> Seq<Seq<SegView>> {
    let w = wrap_runs_spec(runs, available);
    if indent == 0 {
        w
    } else {
        w.map_values(|l: Seq<SegView>| with_prefix(spaces(indent), l))
    }
}

/// The bullet of entry `i` of a list: `"{i + 1}. "` when ordered, else `"• "`.
pub open spec fn bullet_chars(i: nat, ordered: bool) -> Seq<char> {
    if ordered {
        decimal(i + 1) + seq!['.', ' ']
    } else {
        seq!['•', ' ']
    }
}

/// The bullet of nested list entries.
pub open spec fn sub_bullet() -> Seq<char> {
    seq!['·', ' ']
}

/// A list entry: its text wrapped behind the bullet (continuation lines
/// aligned under the text), then its nested entries two columns further in.
pub open spec fn entry_lines(e: EntryView, max_width: nat, indent: nat, bullet: Seq<char>) -> Seq<Seq<SegView>>
    decreases e,
{
    let own = if e.runs.len() == 0 {
        Seq::empty()
    } else {
        let w = wrap_runs_spec(e.runs, sat_sub(max_width, indent + bullet.len()));
        Seq::new(
            w.len(),
            |j: int|
                with_prefix(
                    spaces(indent) + if j == 0 {
                        bullet
                    } else {
                        spaces(bullet.len())
                    },
                    w[j],
                ),
        )
    };
    own + children_lines(e.children, e.children.len() as int, max_width, indent + 2)
}

/// The first `k` nested entries, each behind the nested bullet.
pub open spec fn children_lines(es: Seq<EntryView>, k: int, max_width: nat, indent: nat) -> Seq<Seq<SegView>>
    decreases es, k,
{
    if k <= 0 || k > es.len() {
        Seq::empty()
    } else {
        children_lines(es, k - 1, max_width, indent) + entry_lines(es[k - 1], max_width, indent, sub_bullet())
    }
}

/// The first `k` entries of a list.
pub open spec fn list_lines(es: Seq<EntryView>, k: int, ordered: bool, max_width: nat, indent: nat) -> Seq<Seq<SegView>>
    decreases k,
{
    if k <= 0 || k > es.len() {
        Seq::empty()
    } else {
        list_lines(es, k - 1, ordered, max_width, indent) + entry_lines(
            es[k - 1],
            max_width,
            indent,
            bullet_chars((k - 1) as nat, ordered),
        )
    }
}

/// The column separator of tables.
pub open spec fn cell_sep() -> Seq<char> {
    seq![' ', '│', ' ']
}

/// A table: the header row in bold, then each row, cells joined by `" │ "`.
pub open spec fn table_lines(headers: Seq<Seq<char>>, rows: Seq<Seq<Seq<char>>>) -> Seq<Seq<SegView>> {
    seq![one_seg(join(headers, cell_sep()), TextStyle::Bold)] + Seq::new(
        rows.len(),
        |r: int| one_seg(join(rows[r], cell_sep()), TextStyle::Normal),
    )
}

/// The rule line.
pub open spec fn rule_chars() -> Seq<char> {
    seq!['─', '─', '─']
}

/// The lines of one block rendered at `indent` within `max_width` columns.
pub open spec fn item_lines(item: ItemView, max_width: nat, indent: nat) -> Seq<Seq<SegView>>
    decreases item,
{
    match item {
        ItemView::Paragraph(runs) => paragraph_lines(runs, sat_sub(max_width, indent), indent),
        ItemView::CodeBlock(code) => text_lines(code).map_values(|l: Seq<char>| one_seg(l, TextStyle::Code)),
        ItemView::Heading(_, text) => seq![one_seg(text, TextStyle::Bold)],
        ItemView::List(es, ordered) => list_lines(es, es.len() as int, ordered, max_width, indent),
        ItemView::Table(headers, rows) => table_lines(headers, rows),
        ItemView::Rule => seq![one_seg(rule_chars(), TextStyle::Normal)],
        ItemView::BlockQuote(items) => items_lines(items, items.len() as int, max_width, indent + 2),
    }
}

/// The lines of the first `k` blocks.
pub open spec fn items_lines(items: Seq<ItemView>, k: int, max_width: nat, indent: nat) -> Seq<Seq<SegView>>
    decreases items, k,
{
    if k <= 0 || k > items.len() {
        Seq::empty()
    } else {
        items_lines(items, k - 1, max_width, indent) + item_lines(items[k - 1], max_width, indent)
    }
}

/// The lines of a section: its title in bold, then its blocks.
pub open spec fn section_lines(section: SectionView, max_width: nat) -> Seq<Seq<SegView>> {
    let title = match section.title {
        Some(t) => seq![one_seg(t, TextStyle::Bold)],
        None => Seq::empty(),
    };
    title + items_lines(section.items, section.items.len() as int, max_width, 0)
}

// ---------------------------------------------------------------------
// Wrapping keeps the text
// ---------------------------------------------------------------------

/// The characters of `s` that are not whitespace, in order.
pub open spec fn visible(s: Seq<char>) -> Seq<char>
    decreases s.len(),
{
    if s.len() == 0 {
        Seq::empty()
    } else {
        visible(s.drop_last()) + if spec_is_whitespace(s.last()) {
            Seq::<char>::empty()
        } else {
            seq![s.last()]
        }
    }
}

/// The texts of runs, one after the other.
pub open spec fn runs_text(runs: Seq<RunView>) -> Seq<char>
    decreases runs.len(),
{
    if runs.len() == 0 {
        Seq::empty()
    } else {
        runs_text(runs.drop_last()) + runs.last().0
    }
}

/// The texts of lines, one after the other.
pub open spec fn lines_text(ls: Seq<Seq<SegView>>) -> Seq<char>
    decreases ls.len(),
{
    if ls.len() == 0 {
        Seq::empty()
    } else {
        lines_text(ls.drop_last()) + segs_text(ls.last())
    }
}

/// Words, one after the other.
pub open spec fn flatten_words(ws: Seq<Seq<char>>) -> Seq<char>
    decreases ws.len(),
{
    if ws.len() == 0 {
        Seq::empty()
    } else {
        flatten_words(ws.drop_last()) + ws.last()
    }
}

/// The texts of tokens, one after the other.
pub open spec fn tokens_text(toks: Seq<TokView>) -> Seq<char>
    decreases toks.len(),
{
    if toks.len() == 0 {
        Seq::empty()
    } else {
        tokens_text(toks.drop_last()) + toks.last().0
    }
}

proof fn lemma_visible_concat(a: Seq<char>, b: Seq<char>)
    ensures
        visible(a + b) == visible(a) + visible(b),
    decreases b.len(),
{
    if b.len() == 0 {
        assert(a + b =~= a);
        assert(visible(a) + visible(b) =~= visible(a));
    } else {
        lemma_visible_concat(a, b.drop_last());
        assert((a + b).drop_last() =~= a + b.drop_last());
        assert((a + b).last() == b.last());
        let tail = if spec_is_whitespace(b.last()) { Seq::<char>::empty() } else { seq![b.last()] };
        assert(visible(a) + visible(b.drop_last()) + tail =~= visible(a) + (visible(b.drop_last()) + tail));
    }
}

proof fn lemma_visible_word(w: Seq<char>)
    requires
        no_whitespace(w),
    ensures
        visible(w) == w,
    decreases w.len(),
{
    if w.len() > 0 {
        let p = w.drop_last();
        assert(no_whitespace(p)) by {
            assert forall|i: int| 0 <= i < p.len() implies !spec_is_whitespace(#[trigger] p[i]) by {
                assert(p[i] == w[i]);
            }
        }
        lemma_visible_word(p);
        assert(!spec_is_whitespace(w[w.len() - 1]));
        assert(p + seq![w.last()] =~= w);
    }
}

proof fn lemma_visible_spaces(b: bool)
    ensures
        visible(space_prefix(b)) == Seq::<char>::empty(),
{
    assert(visible(Seq::<char>::empty()) == Seq::<char>::empty());
    if b {
        let sp = space_prefix(b);
        assert(sp.drop_last() =~= Seq::<char>::empty());
        assert(sp.last() == ' ');
        assert(spec_is_whitespace(' '));
        assert(visible(sp) =~= Seq::<char>::empty());
    }
}

proof fn lemma_split_ws_text(s: Seq<char>)
    ensures
        flatten_words(split_ws(s)) == visible(s),
    decreases s.len(),
{
    if s.len() > 0 {
        let p = s.drop_last();
        lemma_split_ws_text(p);
        let words = split_ws(p);
        let c = s.last();
        if spec_is_whitespace(c) {
            assert(visible(s) =~= visible(p));
        } else if s.len() > 1 && !spec_is_whitespace(s[s.len() - 2]) {
            assert(p.last() == s[s.len() - 2]);
            lemma_split_ws(p);
            let nw = words.update(words.len() - 1, words.last().push(c));
            assert(nw.drop_last() =~= words.drop_last());
            assert(flatten_words(words) == flatten_words(words.drop_last()) + words.last());
            assert(flatten_words(nw) =~= flatten_words(words) + seq![c]);
        } else {
            assert(words.push(seq![c]).drop_last() =~= words);
        }
    }
}

proof fn lemma_flatten_concat(a: Seq<Seq<char>>, b: Seq<Seq<char>>)
    ensures
        flatten_words(a + b) == flatten_words(a) + flatten_words(b),
    decreases b.len(),
{
    if b.len() == 0 {
        assert(a + b =~= a);
        assert(flatten_words(a) + flatten_words(b) =~= flatten_words(a));
    } else {
        lemma_flatten_concat(a, b.drop_last());
        assert((a + b).drop_last() =~= a + b.drop_last());
        assert(flatten_words(a) + flatten_words(b.drop_last()) + b.last() =~= flatten_words(a) + (flatten_words(
            b.drop_last(),
        ) + b.last()));
    }
}

proof fn lemma_tokens_text_is_words(toks: Seq<TokView>)
    ensures
        tokens_text(toks) == flatten_words(toks.map_values(|t: TokView| t.0)),
    decreases toks.len(),
{
    if toks.len() > 0 {
        lemma_tokens_text_is_words(toks.drop_last());
        assert(toks.map_values(|t: TokView| t.0).drop_last() =~= toks.drop_last().map_values(|t: TokView| t.0));
    }
}

proof fn lemma_tokenize_text(runs: Seq<RunView>)
    ensures
        tokens_text(tokenize(runs).0) == visible(runs_text(runs)),
    decreases runs.len(),
{
    if runs.len() > 0 {
        let prev = runs.drop_last();
        lemma_tokenize_text(prev);
        let (toks, trailing) = tokenize(prev);
        let t = runs.last().0;
        let lead = t.len() > 0 && spec_is_whitespace(t[0]);
        let rt = run_tokens(split_ws(t), runs.last().1, toks.len() > 0 && (trailing || lead));
        assert(tokenize(runs).0 == toks + rt);
        lemma_tokens_text_is_words(toks + rt);
        lemma_tokens_text_is_words(toks);
        assert((toks + rt).map_values(|x: TokView| x.0) =~= toks.map_values(|x: TokView| x.0) + split_ws(t));
        lemma_flatten_concat(toks.map_values(|x: TokView| x.0), split_ws(t));
        lemma_split_ws_text(t);
        lemma_visible_concat(runs_text(prev), t);
    }
}

proof fn lemma_segs_text_push(segs: Seq<SegView>, x: SegView)
    ensures
        segs_text(segs.push(x)) == segs_text(segs) + x.0,
{
    assert(segs.push(x).drop_last() =~= segs);
}

proof fn lemma_segs_text_update_last(segs: Seq<SegView>, x: SegView, extra: Seq<char>)
    requires
        segs.len() > 0,
        x.0 == segs.last().0 + extra,
    ensures
        segs_text(segs.update(segs.len() - 1, x)) == segs_text(segs) + extra,
{
    assert(segs.update(segs.len() - 1, x).drop_last() =~= segs.drop_last());
    assert(segs_text(segs.drop_last()) + (segs.last().0 + extra) =~= segs_text(segs.drop_last()) + segs.last().0 + extra);
}

proof fn lemma_wrap_state_text(toks: Seq<TokView>, max_width: nat)
    requires
        forall|k: int| 0 <= k < toks.len() ==> no_whitespace(#[trigger] toks[k].0),
    ensures
        visible(lines_text(wrap_state(toks, max_width).0) + segs_text(wrap_state(toks, max_width).1)) == tokens_text(
            toks,
        ),
    decreases toks.len(),
{
    if toks.len() == 0 {
        assert(visible(Seq::<char>::empty()) == Seq::<char>::empty());
        assert(lines_text(Seq::<Seq<SegView>>::empty()) + segs_text(Seq::<SegView>::empty()) =~= Seq::<char>::empty());
    } else {
        let prev = toks.drop_last();
        assert forall|k: int| 0 <= k < prev.len() implies no_whitespace(#[trigger] prev[k].0) by {
            assert(prev[k] == toks[k]);
        }
        lemma_wrap_state_text(prev, max_width);
        let (lines, segs, width) = wrap_state(prev, max_width);
        let t = toks.last();
        assert(no_whitespace(toks[toks.len() - 1].0));
        lemma_visible_word(t.0);
        let before = lines_text(lines) + segs_text(segs);
        let space: nat = if t.2 && segs.len() > 0 { 1 } else { 0 };
        let tl = t.0.len();
        lemma_visible_spaces(space > 0);
        if width + space + tl > max_width && segs.len() > 0 {
            let nl = lines.push(segs);
            assert(nl.drop_last() =~= lines);
            let ns = seq![(t.0, t.1)];
            lemma_segs_text_push(Seq::<SegView>::empty(), (t.0, t.1));
            assert(ns =~= Seq::<SegView>::empty().push((t.0, t.1)));
            assert(segs_text(ns) =~= t.0);
            assert(lines_text(nl) + segs_text(ns) =~= before + t.0);
            lemma_visible_concat(before, t.0);
        } else if segs.len() > 0 && segs.last().1 == t.1 {
            let extra = space_prefix(space > 0) + t.0;
            let x = (segs.last().0 + extra, t.1);
            assert(x.0 =~= segs.last().0 + space_prefix(space > 0) + t.0);
            lemma_segs_text_update_last(segs, x, extra);
            assert(lines_text(lines) + segs_text(segs.update(segs.len() - 1, x)) =~= before + extra);
            lemma_visible_concat(before, extra);
            lemma_visible_concat(space_prefix(space > 0), t.0);
        } else {
            let x = (space_prefix(space > 0) + t.0, t.1);
            lemma_segs_text_push(segs, x);
            assert(lines_text(lines) + segs_text(segs.push(x)) =~= before + x.0);
            lemma_visible_concat(before, x.0);
            lemma_visible_concat(space_prefix(space > 0), t.0);
        }
    }
}

/// Wrapping neither drops, adds nor reorders any visible character: the
/// lines' text, whitespace aside, is the runs' text, whitespace aside.
pub proof fn wrapping_keeps_the_text(runs: Seq<RunView>, max_width: nat)
    ensures
        visible(lines_text(wrap_runs_spec(runs, max_width))) == visible(runs_text(runs)),
{
    lemma_tokens_are_words(runs);
    let toks = tokenize(runs).0;
    lemma_wrap_state_text(toks, max_width);
    lemma_tokenize_text(runs);
    let (lines, segs, _) = wrap_state(toks, max_width);
    if segs.len() > 0 {
        assert(lines.push(segs).drop_last() =~= lines);
    } else {
        assert(segs =~= Seq::<SegView>::empty());
        assert(lines_text(lines) + segs_text(segs) =~= lines_text(lines));
    }
}

// ---------------------------------------------------------------------
// Indents and widths of wrapped blocks
// ---------------------------------------------------------------------

proof fn lemma_split_ws_nonempty(s: Seq<char>)
    ensures
        forall|k: int| 0 <= k < split_ws(s).len() ==> (#[trigger] split_ws(s)[k]).len() > 0,
    decreases s.len(),
{
    if s.len() > 0 {
        let p = s.drop_last();
        lemma_split_ws_nonempty(p);
        let words = split_ws(p);
        let c = s.last();
        if spec_is_whitespace(c) {
        } else if s.len() > 1 && !spec_is_whitespace(s[s.len() - 2]) {
            assert(p.last() == s[s.len() - 2]);
            lemma_split_ws(p);
            let nw = words.update(words.len() - 1, words.last().push(c));
            assert forall|k: int| 0 <= k < nw.len() implies (#[trigger] nw[k]).len() > 0 by {
                if k != words.len() - 1 {
                    assert(nw[k] == words[k]);
                }
            }
        } else {
            let nw = words.push(seq![c]);
            assert forall|k: int| 0 <= k < nw.len() implies (#[trigger] nw[k]).len() > 0 by {
                if k < words.len() {
                    assert(nw[k] == words[k]);
                }
            }
        }
    }
}

proof fn lemma_tokens_nonempty(runs: Seq<RunView>)
    ensures
        forall|k: int| 0 <= k < tokenize(runs).0.len() ==> (#[trigger] tokenize(runs).0[k]).0.len() > 0,
    decreases runs.len(),
{
    if runs.len() > 0 {
        lemma_tokens_nonempty(runs.drop_last());
        let (toks, trailing) = tokenize(runs.drop_last());
        let t = runs.last().0;
        lemma_split_ws_nonempty(t);
        let lead = t.len() > 0 && spec_is_whitespace(t[0]);
        let rt = run_tokens(split_ws(t), runs.last().1, toks.len() > 0 && (trailing || lead));
        let all = toks + rt;
        assert(tokenize(runs).0 == all);
        assert forall|k: int| 0 <= k < all.len() implies (#[trigger] all[k]).0.len() > 0 by {
            if k < toks.len() {
                assert(all[k] == toks[k]);
            } else {
                assert(all[k] == rt[k - toks.len()]);
                assert(rt[k - toks.len()].0 == split_ws(t)[k - toks.len()]);
            }
        }
    }
}

proof fn lemma_wrap_state_positive(toks: Seq<TokView>, max_width: nat)
    requires
        forall|k: int| 0 <= k < toks.len() ==> (#[trigger] toks[k]).0.len() > 0,
    ensures
        forall|i: int|
            0 <= i < wrap_state(toks, max_width).0.len() ==> segs_width(#[trigger] wrap_state(toks, max_width).0[i]) >= 1,
        wrap_state(toks, max_width).1.len() > 0 ==> segs_width(wrap_state(toks, max_width).1) >= 1,
    decreases toks.len(),
{
    if toks.len() > 0 {
        let prev = toks.drop_last();
        assert forall|k: int| 0 <= k < prev.len() implies (#[trigger] prev[k]).0.len() > 0 by {
            assert(prev[k] == toks[k]);
        }
        lemma_wrap_state_positive(prev, max_width);
        let (lines, segs, width) = wrap_state(prev, max_width);
        let t = toks.last();
        assert(toks[toks.len() - 1].0.len() > 0);
        let space: nat = if t.2 && segs.len() > 0 { 1 } else { 0 };
        let tl = t.0.len();
        if width + space + tl > max_width && segs.len() > 0 {
            let nl = lines.push(segs);
            assert forall|i: int| 0 <= i < nl.len() implies segs_width(#[trigger] nl[i]) >= 1 by {
                if i < lines.len() {
                    assert(nl[i] == lines[i]);
                }
            }
            lemma_segs_width_push(Seq::<SegView>::empty(), (t.0, t.1));
            assert(seq![(t.0, t.1)] =~= Seq::<SegView>::empty().push((t.0, t.1)));
        } else if segs.len() > 0 && segs.last().1 == t.1 {
            let x = (segs.last().0 + space_prefix(space > 0) + t.0, t.1);
            lemma_segs_width_update_last(segs, x);
        } else {
            let x = (space_prefix(space > 0) + t.0, t.1);
            lemma_segs_width_push(segs, x);
        }
    }
}

/// Every wrapped line holds at least one character.
proof fn lemma_wrapped_lines_positive(runs: Seq<RunView>, max_width: nat)
    ensures
        forall|i: int|
            0 <= i < wrap_runs_spec(runs, max_width).len() ==> segs_width(#[trigger] wrap_runs_spec(runs, max_width)[i])
                >= 1,
{
    lemma_tokens_nonempty(runs);
    let toks = tokenize(runs).0;
    lemma_wrap_state_positive(toks, max_width);
    let (lines, segs, _) = wrap_state(toks, max_width);
    if segs.len() > 0 {
        let all = lines.push(segs);
        assert forall|i: int| 0 <= i < all.len() implies segs_width(#[trigger] all[i]) >= 1 by {
            if i < lines.len() {
                assert(all[i] == lines[i]);
            }
        }
    }
}

/// A block whose text is word-wrapped: a paragraph, a list, or a quote
/// holding only such blocks.
pub open spec fn wrapped_block(item: ItemView) -> bool
    decreases item,
{
    match item {
        ItemView::Paragraph(_) => true,
        ItemView::List(_, _) => true,
        ItemView::BlockQuote(items) => wrapped_blocks(items, items.len() as int),
        _ => false,
    }
}

/// The first `k` blocks are all wrapped blocks.
pub open spec fn wrapped_blocks(items: Seq<ItemView>, k: int) -> bool
    decreases items, k,
{
    if k <= 0 || k > items.len() {
        true
    } else {
        wrapped_blocks(items, k - 1) && wrapped_block(items[k - 1])
    }
}

/// The line starts with `n` spaces (in its first segment).
pub open spec fn indented(l: Seq<SegView>, n: nat) -> bool {
    n == 0 || (l.len() > 0 && l[0].0.len() >= n && l[0].0.take(n as int) == spaces(n))
}

/// The line is at most `max_width` wide, or it holds, after at most a
/// prefix, a single word (no whitespace) too long to fit.
pub open spec fn fits_or_word(l: Seq<SegView>, max_width: nat) -> bool {
    segs_width(l) <= max_width || (1 <= l.len() <= 2 && no_whitespace(l.last().0))
}

pub open spec fn good_line(l: Seq<SegView>, max_width: nat, indent: nat) -> bool {
    indented(l, indent) && fits_or_word(l, max_width)
}

pub open spec fn all_good(ls: Seq<Seq<SegView>>, max_width: nat, indent: nat) -> bool {
    forall|i: int| 0 <= i < ls.len() ==> good_line(#[trigger] ls[i], max_width, indent)
}

proof fn lemma_all_good_concat(a: Seq<Seq<SegView>>, b: Seq<Seq<SegView>>, max_width: nat, indent: nat)
    requires
        all_good(a, max_width, indent),
        all_good(b, max_width, indent),
    ensures
        all_good(a + b, max_width, indent),
{
    let c = a + b;
    assert forall|i: int| 0 <= i < c.len() implies good_line(#[trigger] c[i], max_width, indent) by {
        if i < a.len() {
            assert(c[i] == a[i]);
        } else {
            assert(c[i] == b[i - a.len()]);
        }
    }
}

proof fn lemma_all_good_outdent(ls: Seq<Seq<SegView>>, max_width: nat, indent: nat)
    requires
        all_good(ls, max_width, indent + 2),
    ensures
        all_good(ls, max_width, indent),
{
    assert forall|i: int| 0 <= i < ls.len() implies good_line(#[trigger] ls[i], max_width, indent) by {
        let l = ls[i];
        assert(good_line(l, max_width, indent + 2));
        if indent > 0 {
            assert(l[0].0.take(indent as int) =~= l[0].0.take((indent + 2) as int).take(indent as int));
            assert(spaces(indent) =~= spaces(indent + 2).take(indent as int));
        }
    }
}

/// A wrapped line behind a prefix that starts with `indent` spaces, wrapped
/// to the width left after the prefix.
proof fn lemma_prefixed_line(p: Seq<char>, w: Seq<SegView>, max_width: nat, indent: nat)
    requires
        p.len() >= indent,
        p.take(indent as int) == spaces(indent),
        line_fits(w, sat_sub(max_width, p.len())),
        segs_width(w) >= 1,
    ensures
        good_line(with_prefix(p, w), max_width, indent),
{
    let l = with_prefix(p, w);
    lemma_segs_width_concat(seq![(p, TextStyle::Normal)], w);
    lemma_segs_width_push(Seq::<SegView>::empty(), (p, TextStyle::Normal));
    assert(seq![(p, TextStyle::Normal)] =~= Seq::<SegView>::empty().push((p, TextStyle::Normal)));
    assert(segs_width(seq![(p, TextStyle::Normal)]) == p.len());
    assert(l[0] == (p, TextStyle::Normal));
    if w.len() == 1 && no_whitespace(w[0].0) {
        assert(l.len() == 2);
        assert(l.last() == w[0]);
    }
}

proof fn lemma_paragraph_good(runs: Seq<RunView>, max_width: nat, indent: nat)
    ensures
        all_good(paragraph_lines(runs, sat_sub(max_width, indent), indent), max_width, indent),
{
    let avail = sat_sub(max_width, indent);
    let w = wrap_runs_spec(runs, avail);
    wrapped_lines_fit(runs, avail);
    lemma_wrapped_lines_positive(runs, avail);
    let ls = paragraph_lines(runs, avail, indent);
    assert forall|i: int| 0 <= i < ls.len() implies good_line(#[trigger] ls[i], max_width, indent) by {
        assert(line_fits(w[i], avail));
        assert(segs_width(w[i]) >= 1);
        if indent > 0 {
            assert(ls[i] == with_prefix(spaces(indent), w[i]));
            assert(spaces(indent).take(indent as int) =~= spaces(indent));
            lemma_prefixed_line(spaces(indent), w[i], max_width, indent);
        }
    }
}

proof fn lemma_entry_good(e: EntryView, max_width: nat, indent: nat, bullet: Seq<char>)
    ensures
        all_good(entry_lines(e, max_width, indent, bullet), max_width, indent),
    decreases e,
{
    let own = if e.runs.len() == 0 {
        Seq::empty()
    } else {
        let w = wrap_runs_spec(e.runs, sat_sub(max_width, indent + bullet.len()));
        Seq::new(
            w.len(),
            |j: int|
                with_prefix(
                    spaces(indent) + if j == 0 {
                        bullet
                    } else {
                        spaces(bullet.len())
                    },
                    w[j],
                ),
        )
    };
    if e.runs.len() > 0 {
        let avail = sat_sub(max_width, indent + bullet.len());
        let w = wrap_runs_spec(e.runs, avail);
        wrapped_lines_fit(e.runs, avail);
        lemma_wrapped_lines_positive(e.runs, avail);
        assert forall|j: int| 0 <= j < own.len() implies good_line(#[trigger] own[j], max_width, indent) by {
            let p = spaces(indent) + if j == 0 {
                bullet
            } else {
                spaces(bullet.len())
            };
            assert(own[j] == with_prefix(p, w[j]));
            assert(p.take(indent as int) =~= spaces(indent));
            assert(line_fits(w[j], avail));
            lemma_prefixed_line(p, w[j], max_width, indent);
        }
    }
    assert(decreases_to!(e => e.children));
    lemma_children_good(e.children, e.children.len() as int, max_width, indent + 2);
    lemma_all_good_outdent(children_lines(e.children, e.children.len() as int, max_width, indent + 2), max_width, indent);
    lemma_all_good_concat(own, children_lines(e.children, e.children.len() as int, max_width, indent + 2), max_width, indent);
}

proof fn lemma_children_good(es: Seq<EntryView>, k: int, max_width: nat, indent: nat)
    ensures
        all_good(children_lines(es, k, max_width, indent), max_width, indent),
    decreases es, k,
{
    if k > 0 && k <= es.len() {
        lemma_children_good(es, k - 1, max_width, indent);
        assert(decreases_to!(es => es[k - 1]));
        lemma_entry_good(es[k - 1], max_width, indent, sub_bullet());
        lemma_all_good_concat(
            children_lines(es, k - 1, max_width, indent),
            entry_lines(es[k - 1], max_width, indent, sub_bullet()),
            max_width,
            indent,
        );
    }
}

proof fn lemma_list_good(es: Seq<EntryView>, k: int, ordered: bool, max_width: nat, indent: nat)
    ensures
        all_good(list_lines(es, k, ordered, max_width, indent), max_width, indent),
    decreases k,
{
    if k > 0 && k <= es.len() {
        lemma_list_good(es, k - 1, ordered, max_width, indent);
        lemma_entry_good(es[k - 1], max_width, indent, bullet_chars((k - 1) as nat, ordered));
        lemma_all_good_concat(
            list_lines(es, k - 1, ordered, max_width, indent),
            entry_lines(es[k - 1], max_width, indent, bullet_chars((k - 1) as nat, ordered)),
            max_width,
            indent,
        );
    }
}

proof fn lemma_item_good(item: ItemView, max_width: nat, indent: nat)
    requires
        wrapped_block(item),
    ensures
        all_good(item_lines(item, max_width, indent), max_width, indent),
        item is BlockQuote ==> all_good(item_lines(item, max_width, indent), max_width, indent + 2),
    decreases item,
{
    match item {
        ItemView::Paragraph(runs) => {
            lemma_paragraph_good(runs, max_width, indent);
        },
        ItemView::List(es, ordered) => {
            lemma_list_good(es, es.len() as int, ordered, max_width, indent);
        },
        ItemView::BlockQuote(items) => {
            lemma_items_good(items, items.len() as int, max_width, indent + 2);
            lemma_all_good_outdent(items_lines(items, items.len() as int, max_width, indent + 2), max_width, indent);
        },
        _ => {},
    }
}

proof fn lemma_items_good(items: Seq<ItemView>, k: int, max_width: nat, indent: nat)
    requires
        wrapped_blocks(items, k),
    ensures
        all_good(items_lines(items, k, max_width, indent), max_width, indent),
    decreases items, k,
{
    if k > 0 && k <= items.len() {
        lemma_items_good(items, k - 1, max_width, indent);
        assert(decreases_to!(items => items[k - 1]));
        lemma_item_good(items[k - 1], max_width, indent);
        lemma_all_good_concat(
            items_lines(items, k - 1, max_width, indent),
            item_lines(items[k - 1], max_width, indent),
            max_width,
            indent,
        );
    }
}

/// Every line of a paragraph, a list, or a quote of such blocks rendered
/// at `indent` starts with `indent` spaces; the lines of a quote start
/// with two more, so a block nested in quotes is indented two columns per
/// quote around it.
pub proof fn wrapped_blocks_keep_their_indent(item: ItemView, max_width: nat, indent: nat)
    requires
        wrapped_block(item),
    ensures
        forall|i: int|
            0 <= i < item_lines(item, max_width, indent).len() ==> indented(
                #[trigger] item_lines(item, max_width, indent)[i],
                indent,
            ),
        item is BlockQuote ==> forall|i: int|
            0 <= i < item_lines(item, max_width, indent).len() ==> indented(
                #[trigger] item_lines(item, max_width, indent)[i],
                indent + 2,
            ),
{
    lemma_item_good(item, max_width, indent);
}

/// Every line of a paragraph, a list, or a quote of such blocks is at most
/// `max_width` characters wide, unless it holds a single word, behind its
/// indent or bullet, too long for the width left.
pub proof fn wrapped_blocks_fit_the_width(item: ItemView, max_width: nat, indent: nat)
    requires
        wrapped_block(item),
    ensures
        forall|i: int|
            0 <= i < item_lines(item, max_width, indent).len() ==> fits_or_word(
                #[trigger] item_lines(item, max_width, indent)[i],
                max_width,
            ),
{
    lemma_item_good(item, max_width, indent);
}

// Sizes bounding every rendered width, so that no width overflows.

pub open spec fn entry_size(e: EntryView) -> nat
    decreases e,
{
    2 * run_chars(e.runs) + 26 + entries_size(e.children, e.children.len() as int)
}

pub open spec fn entries_size(es: Seq<EntryView>, k: int) -> nat
    decreases es, k,
{
    if k <= 0 || k > es.len() {
        0
    } else {
        entries_size(es, k - 1) + entry_size(es[k - 1])
    }
}

pub open spec fn rows_size(rows: Seq<Seq<Seq<char>>>) -> nat
    decreases rows.len(),
{
    if rows.len() == 0 {
        0
    } else {
        rows_size(rows.drop_last()) + join_len(rows.last(), 3)
    }
}

pub open spec fn item_size(item: ItemView) -> nat
    decreases item,
{
    match item {
        ItemView::Paragraph(runs) => 2 * run_chars(runs),
        ItemView::CodeBlock(code) => code.len(),
        ItemView::Heading(_, text) => text.len(),
        ItemView::List(es, _) => 2 + entries_size(es, es.len() as int),
        ItemView::Table(headers, rows) => join_len(headers, 3) + rows_size(rows),
        ItemView::Rule => 3,
        ItemView::BlockQuote(items) => 2 + items_size(items, items.len() as int),
    }
}

pub open spec fn items_size(items: Seq<ItemView>, k: int) -> nat
    decreases items, k,
{
    if k <= 0 || k > items.len() {
        0
    } else {
        items_size(items, k - 1) + item_size(items[k - 1])
    }
}

/// No rendered width of the section overflows a `usize`.
pub open spec fn section_fits(section: SectionView) -> bool {
    &&& forall|i: int| 0 <= i < section.items.len() ==> item_size(#[trigger] section.items[i]) <= usize::MAX
    &&& section.title matches Some(t) ==> t.len() <= usize::MAX
}

proof fn lemma_entries_size_each(es: Seq<EntryView>, k: int, i: int)
    requires
        0 <= i < k <= es.len(),
    ensures
        entry_size(es[i]) <= entries_size(es, k),
    decreases k,
{
    if i < k - 1 {
        lemma_entries_size_each(es, k - 1, i);
    }
}

proof fn lemma_items_size_each(items: Seq<ItemView>, k: int, i: int)
    requires
        0 <= i < k <= items.len(),
    ensures
        item_size(items[i]) <= items_size(items, k),
    decreases k,
{
    if i < k - 1 {
        lemma_items_size_each(items, k - 1, i);
    }
}

proof fn lemma_rows_size_each(rows: Seq<Seq<Seq<char>>>, i: int)
    requires
        0 <= i < rows.len(),
    ensures
        join_len(rows[i], 3) <= rows_size(rows),
    decreases rows.len(),
{
    if i < rows.len() - 1 {
        lemma_rows_size_each(rows.drop_last(), i);
    }
}

proof fn lemma_segs_width_concat(a: Seq<SegView>, b: Seq<SegView>)
    ensures
        segs_width(a + b) == segs_width(a) + segs_width(b),
    decreases b.len(),
{
    if b.len() > 0 {
        assert((a + b).drop_last() =~= a + b.drop_last());
        lemma_segs_width_concat(a, b.drop_last());
    } else {
        assert(a + b =~= a);
    }
}

/// A line behind an unstyled prefix.
fn prefixed(prefix: String, line: RenderedLine) -> (r: RenderedLine)
    requires
        prefix@.len() + line.width <= usize::MAX,
        line.width == segs_width(line_view(line)),
    ensures
        line_view(r) == with_prefix(prefix@, line_view(line)),
        r.width == prefix@.len() + line.width,
        r.width == segs_width(line_view(r)),
{
    let ghost pv = prefix@;
    let mut segs: Vec<LineSegment> = Vec::new();
    segs.push(LineSegment { text: prefix, style: TextStyle::Normal });
    let ghost first = segs@;
    let mut rest = line.segments;
    segs.append(&mut rest);
    proof {
        assert(segs_view(segs@) =~= seq![(pv, TextStyle::Normal)] + line_view(line));
        lemma_segs_width_concat(seq![(pv, TextStyle::Normal)], line_view(line));
        lemma_segs_width_single((pv, TextStyle::Normal));
    }
    RenderedLine::new(segs)
}

/// A line of one segment whose text is `text`.
fn single_line(text: String, style: TextStyle) -> (r: RenderedLine)
    requires
        text@.len() <= usize::MAX,
    ensures
        line_view(r) == one_seg(text@, style),
        r.width == text@.len(),
        r.width == segs_width(line_view(r)),
{
    let ghost t = text@;
    let r = RenderedLine::single(text, style);
    proof {
        lemma_segs_width_single((t, style));
    }
    r
}

proof fn lemma_segs_width_single(x: SegView)
    ensures
        segs_width(seq![x]) == x.0.len(),
{
    assert(seq![x].drop_last() =~= Seq::<SegView>::empty());
    assert(segs_width(Seq::<SegView>::empty()) == 0);
    assert(seq![x].last() == x);
}

fn push_line(lines: &mut Vec<RenderedLine>, l: RenderedLine)
    requires
        widths_exact(old(lines)@),
        l.width == segs_width(line_view(l)),
    ensures
        lines_view(final(lines)@) == lines_view(old(lines)@).push(line_view(l)),
        widths_exact(final(lines)@),
{
    lines.push(l);
    assert(lines_view(lines@) =~= lines_view(old(lines)@).push(line_view(l)));
}

fn render_paragraph(runs: &Vec<TextRun>, available: usize, indent: usize, lines: &mut Vec<RenderedLine>)
    requires
        indent + 2 * run_chars(runs_view(runs@)) <= usize::MAX,
        widths_exact(old(lines)@),
    ensures
        lines_view(final(lines)@) == lines_view(old(lines)@) + paragraph_lines(
            runs_view(runs@),
            available as nat,
            indent as nat,
        ),
        widths_exact(final(lines)@),
{
    let wrapped = wrap_runs(runs, available);
    let ghost wv = lines_view(wrapped@);
    let ghost target = paragraph_lines(runs_view(runs@), available as nat, indent as nat);
    let ghost start = lines_view(lines@);
    let mut i: usize = 0;
    while i < wrapped.len()
        invariant
            i <= wrapped.len(),
            wv == lines_view(wrapped@),
            wv == wrap_runs_spec(runs_view(runs@), available as nat),
            target == paragraph_lines(runs_view(runs@), available as nat, indent as nat),
            target.len() == wv.len(),
            widths_exact(wrapped@),
            forall|k: int| 0 <= k < wrapped.len() ==> (#[trigger] wrapped[k]).width <= 2 * run_chars(runs_view(runs@)),
            indent + 2 * run_chars(runs_view(runs@)) <= usize::MAX,
            lines_view(lines@) == start + target.take(i as int),
            widths_exact(lines@),
        decreases wrapped.len() - i,
    {
        let l = wrapped[i].clone_line();
        assert(wrapped[i as int].width == segs_width(line_view(wrapped[i as int])));
        if indent == 0 {
            push_line(lines, l);
        } else {
            let prefix = repeated(' ', indent);
            let pl = prefixed(prefix, l);
            proof {
                lemma_segs_width_concat(seq![(prefix@, TextStyle::Normal)], line_view(l));
                assert(seq![(prefix@, TextStyle::Normal)].drop_last() =~= Seq::<SegView>::empty());
            }
            push_line(lines, pl);
        }
        i += 1;
        assert(lines_view(lines@) =~= start + target.take(i as int));
    }
    assert(target.take(wrapped.len() as int) =~= target);
}

fn render_table(headers: &Vec<String>, rows: &Vec<Vec<String>>, lines: &mut Vec<RenderedLine>)
    requires
        join_len(strings_view(headers@), 3) + rows_size(table_rows_view(rows@)) <= usize::MAX,
        widths_exact(old(lines)@),
    ensures
        lines_view(final(lines)@) == lines_view(old(lines)@) + table_lines(strings_view(headers@), table_rows_view(rows@)),
        widths_exact(final(lines)@),
{
    let sep: Vec<char> = vec![' ', '│', ' '];
    assert(sep@ =~= cell_sep());
    let ghost target = table_lines(strings_view(headers@), table_rows_view(rows@));
    let ghost start = lines_view(lines@);
    let h = join_strings(headers, &sep);
    proof {
        lemma_join_len(strings_view(headers@), cell_sep());
    }
    let hl = single_line(h, TextStyle::Bold);
    push_line(lines, hl);
    assert(lines_view(lines@) =~= start + target.take(1));
    let mut r: usize = 0;
    while r < rows.len()
        invariant
            r <= rows.len(),
            sep@ == cell_sep(),
            target == table_lines(strings_view(headers@), table_rows_view(rows@)),
            rows_size(table_rows_view(rows@)) <= usize::MAX,
            lines_view(lines@) == start + target.take(r + 1),
            widths_exact(lines@),
        decreases rows.len() - r,
    {
        let row_text = join_strings(&rows[r], &sep);
        proof {
            assert(table_rows_view(rows@)[r as int] == strings_view(rows@[r as int]@));
            lemma_join_len(strings_view(rows@[r as int]@), cell_sep());
            lemma_rows_size_each(table_rows_view(rows@), r as int);
        }
        let rl = single_line(row_text, TextStyle::Normal);
        push_line(lines, rl);
        r += 1;
        assert(lines_view(lines@) =~= start + target.take(r + 1));
    }
    assert(target.take(rows.len() + 1) =~= target);
}

spec fn seg_view_eq(a: LineSegment, b: LineSegment) -> bool {
    a.text@ == b.text@ && a.style == b.style
}

impl RenderedLine {
    /// A copy of this line.
    pub fn clone_line(&self) -> (c: Self)
        ensures
            line_view(c) == line_view(*self),
            c.width == self.width,
    {
        let mut segs: Vec<LineSegment> = Vec::new();
        let mut i: usize = 0;
        while i < self.segments.len()
            invariant
                i <= self.segments.len(),
                segs_view(segs@) == segs_view(self.segments@.take(i as int)),
            decreases self.segments.len() - i,
        {
            let t = chars_of(self.segments[i].text.as_str());
            let text = string_from_chars(&t);
            let ghost before = segs_view(segs@);
            let seg = LineSegment { text, style: self.segments[i].style };
            assert(seg_view_eq(seg, self.segments@[i as int]));
            segs.push(seg);
            assert(segs_view(segs@) =~= before.push(segs_view(self.segments@)[i as int]));
            assert(self.segments@.take(i + 1) =~= self.segments@.take(i as int).push(self.segments@[i as int]));
            i += 1;
            assert(segs_view(segs@) =~= segs_view(self.segments@.take(i as int)));
        }
        assert(self.segments@.take(self.segments.len() as int) =~= self.segments@);
        RenderedLine { segments: segs, width: self.width }
    }
}

fn render_list_entry(
    entry: &ListEntry,
    max_width: usize,
    lines: &mut Vec<RenderedLine>,
    indent: usize,
    bullet: &Vec<char>,
)
    requires
        indent + entry_size(entry_view(*entry)) <= usize::MAX,
        bullet@.len() <= 22,
        widths_exact(old(lines)@),
    ensures
        lines_view(final(lines)@) == lines_view(old(lines)@) + entry_lines(
            entry_view(*entry),
            max_width as nat,
            indent as nat,
            bullet@,
        ),
        widths_exact(final(lines)@),
    decreases entry,
{
    let ghost ev = entry_view(*entry);
    let ghost start = lines_view(lines@);
    let ghost rc = run_chars(runs_view(entry.runs@));
    let ghost own = if ev.runs.len() == 0 {
        Seq::<Seq<SegView>>::empty()
    } else {
        let w = wrap_runs_spec(ev.runs, sat_sub(max_width as nat, (indent + bullet@.len()) as nat));
        Seq::new(
            w.len(),
            |j: int|
                with_prefix(
                    spaces(indent as nat) + if j == 0 {
                        bullet@
                    } else {
                        spaces(bullet@.len())
                    },
                    w[j],
                ),
        )
    };
    assert(ev.runs == runs_view(entry.runs@));
    assert(ev.runs.len() == entry.runs.len());
    if entry.runs.len() > 0 {
        let blen = bullet.len();
        let available = if max_width >= indent + blen { max_width - (indent + blen) } else { 0 };
        let wrapped = wrap_runs(&entry.runs, available);
        let ghost wv = lines_view(wrapped@);
        let mut j: usize = 0;
        while j < wrapped.len()
            invariant
                j <= wrapped.len(),
                blen == bullet@.len(),
                blen <= 22,
                wv == lines_view(wrapped@),
                rc == run_chars(runs_view(entry.runs@)),
                own.len() == wv.len(),
                own == Seq::new(
                    wv.len(),
                    |jj: int|
                        with_prefix(
                            spaces(indent as nat) + if jj == 0 {
                                bullet@
                            } else {
                                spaces(bullet@.len())
                            },
                            wv[jj],
                        ),
                ),
                widths_exact(wrapped@),
                forall|k: int| 0 <= k < wrapped.len() ==> (#[trigger] wrapped[k]).width <= 2 * rc,
                indent + 26 + 2 * rc <= usize::MAX,
                lines_view(lines@) == start + own.take(j as int),
                widths_exact(lines@),
            decreases wrapped.len() - j,
        {
            let mut prefix = repeated(' ', indent);
            if j == 0 {
                push_chars(&mut prefix, bullet);
            } else {
                let pad = repeated(' ', blen);
                let pad_chars = chars_of(pad.as_str());
                push_chars(&mut prefix, &pad_chars);
            }
            assert(prefix@ =~= spaces(indent as nat) + if j == 0 {
                bullet@
            } else {
                spaces(bullet@.len())
            });
            let l = wrapped[j].clone_line();
            assert(wrapped[j as int].width == segs_width(line_view(wrapped[j as int])));
            let pl = prefixed(prefix, l);
            push_line(lines, pl);
            j += 1;
            assert(lines_view(lines@) =~= start + own.take(j as int));
        }
        assert(own.take(wrapped.len() as int) =~= own);
    } else {
        assert(start + own =~= start);
    }
    let ghost mid = lines_view(lines@);
    let children = &entry.children;
    let ghost cs = entry.children@;
    let ghost cvs = ev.children;
    proof {
        lemma_entries_view(cs, cs.len() as int);
    }
    let sub: Vec<char> = vec!['·', ' '];
    assert(sub@ =~= sub_bullet());
    let mut i: usize = 0;
    while i < children.len()
        invariant
            i <= children.len(),
            cs == children@,
            cs == entry.children@,
            cvs == entries_view(cs, cs.len() as int),
            cvs.len() == cs.len(),
            forall|k: int| 0 <= k < cs.len() ==> #[trigger] cvs[k] == entry_view(cs[k]),
            sub@ == sub_bullet(),
            indent + entry_size(ev) <= usize::MAX,
            ev == entry_view(*entry),
            entry_size(ev) == 2 * run_chars(ev.runs) + 26 + entries_size(cvs, cvs.len() as int),
            mid == start + own,
            lines_view(lines@) == mid + children_lines(cvs, i as int, max_width as nat, (indent + 2) as nat),
            widths_exact(lines@),
        decreases children.len() - i,
    {
        proof {
            lemma_entries_size_each(cvs, cvs.len() as int, i as int);
            assert(decreases_to!(*entry => entry.children));
        }
        render_list_entry(&children[i], max_width, lines, indent + 2, &sub);
        i += 1;
        assert(lines_view(lines@) =~= mid + children_lines(cvs, i as int, max_width as nat, (indent + 2) as nat));
    }
    assert(lines_view(lines@) =~= start + entry_lines(ev, max_width as nat, indent as nat, bullet@));
}

/// The bullet of entry `i` of a list.
fn bullet_for(i: usize, ordered: bool) -> (b: Vec<char>)
    requires
        i < usize::MAX,
    ensures
        b@ == bullet_chars(i as nat, ordered),
        b@.len() <= 22,
{
    if ordered {
        let mut s = String::new();
        push_decimal(&mut s, i + 1);
        push_char(&mut s, '.');
        push_char(&mut s, ' ');
        proof {
            lemma_usize_decimal_len((i + 1) as usize);
        }
        let b = chars_of(s.as_str());
        assert(b@ =~= bullet_chars(i as nat, ordered));
        b
    } else {
        let b = vec!['•', ' '];
        assert(b@ =~= bullet_chars(i as nat, ordered));
        b
    }
}

fn render_item(item: &ContentItem, max_width: usize, lines: &mut Vec<RenderedLine>, indent: usize)
    requires
        indent + item_size(item_view(*item)) <= usize::MAX,
        widths_exact(old(lines)@),
    ensures
        lines_view(final(lines)@) == lines_view(old(lines)@) + item_lines(item_view(*item), max_width as nat, indent as nat),
        widths_exact(final(lines)@),
    decreases item,
{
    let available = if max_width >= indent { max_width - indent } else { 0 };
    let ghost start = lines_view(lines@);
    let ghost iv = item_view(*item);
    match item {
        ContentItem::Paragraph { runs } => {
            render_paragraph(runs, available, indent, lines);
        },
        ContentItem::CodeBlock { code } => {
            let cs = chars_of(code.as_str());
            let ls = split_lines(&cs);
            let ghost tl = text_lines(code@);
            let ghost target = tl.map_values(|l: Seq<char>| one_seg(l, TextStyle::Code));
            proof {
                lemma_text_lines_len(code@);
            }
            let mut k: usize = 0;
            while k < ls.len()
                invariant
                    k <= ls.len(),
                    ls@.map_values(|l: Vec<char>| l@) == tl,
                    tl == text_lines(code@),
                    target == tl.map_values(|l: Seq<char>| one_seg(l, TextStyle::Code)),
                    forall|i: int| 0 <= i < tl.len() ==> #[trigger] tl[i].len() <= code@.len(),
                    code@.len() <= usize::MAX,
                    lines_view(lines@) == start + target.take(k as int),
                    widths_exact(lines@),
                decreases ls.len() - k,
            {
                assert(tl[k as int] == ls@[k as int]@);
                let text = string_from_chars(&ls[k]);
                let l = single_line(text, TextStyle::Code);
                push_line(lines, l);
                k += 1;
                assert(lines_view(lines@) =~= start + target.take(k as int));
            }
            assert(target.take(ls.len() as int) =~= target);
        },
        ContentItem::Heading { text, .. } => {
            let l = single_line(text.clone(), TextStyle::Bold);
            push_line(lines, l);
        },
        ContentItem::List { items, ordered } => {
            let ghost es = items@;
            let ghost evs = entries_view(es, es.len() as int);
            proof {
                lemma_entries_view(es, es.len() as int);
            }
            let mut i: usize = 0;
            while i < items.len()
                invariant
                    i <= items.len(),
                    es == items@,
                    evs == entries_view(es, es.len() as int),
                    evs.len() == es.len(),
                    forall|k: int| 0 <= k < es.len() ==> #[trigger] evs[k] == entry_view(es[k]),
                    indent + item_size(iv) <= usize::MAX,
                    item_size(iv) == 2 + entries_size(evs, evs.len() as int),
                    lines_view(lines@) == start + list_lines(evs, i as int, *ordered, max_width as nat, indent as nat),
                    widths_exact(lines@),
                decreases items.len() - i,
            {
                let bullet = bullet_for(i, *ordered);
                proof {
                    lemma_entries_size_each(evs, evs.len() as int, i as int);
                }
                render_list_entry(&items[i], max_width, lines, indent, &bullet);
                i += 1;
                assert(lines_view(lines@) =~= start + list_lines(evs, i as int, *ordered, max_width as nat, indent as nat));
            }
        },
        ContentItem::Table { headers, rows } => {
            render_table(headers, rows, lines);
        },
        ContentItem::Rule => {
            let rule: Vec<char> = vec!['─', '─', '─'];
            let text = string_from_chars(&rule);
            assert(text@ =~= rule_chars());
            let l = single_line(text, TextStyle::Normal);
            push_line(lines, l);
        },
        ContentItem::BlockQuote { items } => {
            let ghost its = items@;
            let ghost ivs = items_view(its, its.len() as int);
            proof {
                lemma_items_view(its, its.len() as int);
            }
            let mut i: usize = 0;
            while i < items.len()
                invariant
                    i <= items.len(),
                    its == items@,
                    ivs == items_view(its, its.len() as int),
                    ivs.len() == its.len(),
                    forall|k: int| 0 <= k < its.len() ==> #[trigger] ivs[k] == item_view(its[k]),
                    *item is BlockQuote,
                    item->BlockQuote_items == *items,
                    indent + item_size(iv) <= usize::MAX,
                    item_size(iv) == 2 + items_size(ivs, ivs.len() as int),
                    lines_view(lines@) == start + items_lines(ivs, i as int, max_width as nat, (indent + 2) as nat),
                    widths_exact(lines@),
                decreases items.len() - i,
            {
                proof {
                    lemma_items_size_each(ivs, ivs.len() as int, i as int);
                    assert(decreases_to!(*item => item->BlockQuote_items));
                }
                render_item(&items[i], max_width, lines, indent + 2);
                i += 1;
                assert(lines_view(lines@) =~= start + items_lines(ivs, i as int, max_width as nat, (indent + 2) as nat));
            }
        },
    }
    assert(lines_view(lines@) =~= start + item_lines(iv, max_width as nat, indent as nat));
}

/// Renders a section into a piece: the title in bold, then every block,
/// wrapped to `max_width` columns.
pub fn render_piece(section: &Section, section_index: usize, max_width: usize) -> (p: Piece)
    requires
        section_fits(section_view(*section)),
    ensures
        p.section_index == section_index,
        p.title == section.title,
        lines_view(p.lines@) == section_lines(section_view(*section), max_width as nat),
        widths_exact(p.lines@),
{
    let ghost sv = section_view(*section);
    let mut lines: Vec<RenderedLine> = Vec::new();
    assert(lines_view(lines@) =~= Seq::<Seq<SegView>>::empty());
    match &section.title {
        Some(t) => {
            let l = single_line(t.clone(), TextStyle::Bold);
            push_line(&mut lines, l);
        },
        None => {},
    }
    let ghost start = lines_view(lines@);
    let ghost its = section.items@;
    let ghost ivs = sv.items;
    proof {
        lemma_items_view(its, its.len() as int);
    }
    let mut i: usize = 0;
    while i < section.items.len()
        invariant
            i <= section.items.len(),
            its == section.items@,
            sv == section_view(*section),
            ivs == sv.items,
            ivs == items_view(its, its.len() as int),
            ivs.len() == its.len(),
            forall|k: int| 0 <= k < its.len() ==> #[trigger] ivs[k] == item_view(its[k]),
            section_fits(sv),
            lines_view(lines@) == start + items_lines(ivs, i as int, max_width as nat, 0),
            widths_exact(lines@),
        decreases section.items.len() - i,
    {
        assert(item_size(ivs[i as int]) <= usize::MAX);
        render_item(&section.items[i], max_width, &mut lines, 0);
        i += 1;
        assert(lines_view(lines@) =~= start + items_lines(ivs, i as int, max_width as nat, 0));
    }
    let title = match &section.title {
        Some(t) => Some(t.clone()),
        None => None,
    };
    assert(lines_view(lines@) =~= section_lines(sv, max_width as nat));
    Piece { section_index, title, lines }
}

// ---------------------------------------------------------------------
// Checking the size bound
// ---------------------------------------------------------------------

/// `r` is `v` when it fits a `usize`, and `None` when it does not.
pub open spec fn fits_as(r: Option<usize>, v: nat) -> bool {
    match r {
        Some(n) => n == v,
        None => v > usize::MAX,
    }
}

fn add_sizes(a: Option<usize>, b: Option<usize>, Ghost(x): Ghost<nat>, Ghost(y): Ghost<nat>) -> (r: Option<usize>)
    requires
        fits_as(a, x),
        fits_as(b, y),
    ensures
        fits_as(r, x + y),
{
    match (a, b) {
        (Some(p), Some(q)) => p.checked_add(q),
        _ => None,
    }
}

fn run_chars_checked(runs: &Vec<TextRun>) -> (r: Option<usize>)
    ensures
        fits_as(r, run_chars(runs_view(runs@))),
{
    let ghost rv = runs_view(runs@);
    let mut total: Option<usize> = Some(0);
    let mut i: usize = 0;
    assert(rv.take(0) =~= Seq::<RunView>::empty());
    while i < runs.len()
        invariant
            i <= runs.len(),
            rv == runs_view(runs@),
            fits_as(total, run_chars(rv.take(i as int))),
        decreases runs.len() - i,
    {
        let n = runs[i].text.as_str().unicode_len();
        proof {
            assert(rv.take(i + 1).drop_last() =~= rv.take(i as int));
            assert(rv[i as int].0 == runs@[i as int].text@);
        }
        total = add_sizes(total, Some(n), Ghost(run_chars(rv.take(i as int))), Ghost(n as nat));
        i += 1;
    }
    assert(rv.take(runs.len() as int) =~= rv);
    total
}

fn join_len_checked(parts: &Vec<String>) -> (r: Option<usize>)
    ensures
        fits_as(r, join_len(strings_view(parts@), 3)),
{
    let ghost pv = strings_view(parts@);
    let mut total: Option<usize> = Some(0);
    let mut i: usize = 0;
    assert(pv.take(0) =~= Seq::<Seq<char>>::empty());
    while i < parts.len()
        invariant
            i <= parts.len(),
            pv == strings_view(parts@),
            fits_as(total, join_len(pv.take(i as int), 3)),
        decreases parts.len() - i,
    {
        let n = parts[i].as_str().unicode_len();
        proof {
            assert(pv.take(i + 1).drop_last() =~= pv.take(i as int));
            assert(pv[i as int] == parts@[i as int]@);
        }
        let m = if n < usize::MAX - 2 { Some(n + 3) } else { None };
        total = add_sizes(total, m, Ghost(join_len(pv.take(i as int), 3)), Ghost((n + 3) as nat));
        i += 1;
    }
    assert(pv.take(parts.len() as int) =~= pv);
    total
}

fn rows_size_checked(rows: &Vec<Vec<String>>) -> (r: Option<usize>)
    ensures
        fits_as(r, rows_size(table_rows_view(rows@))),
{
    let ghost rv = table_rows_view(rows@);
    let mut total: Option<usize> = Some(0);
    let mut i: usize = 0;
    assert(rv.take(0) =~= Seq::<Seq<Seq<char>>>::empty());
    while i < rows.len()
        invariant
            i <= rows.len(),
            rv == table_rows_view(rows@),
            fits_as(total, rows_size(rv.take(i as int))),
        decreases rows.len() - i,
    {
        let n = join_len_checked(&rows[i]);
        proof {
            assert(rv.take(i + 1).drop_last() =~= rv.take(i as int));
            assert(rv[i as int] == strings_view(rows@[i as int]@));
        }
        total = add_sizes(total, n, Ghost(rows_size(rv.take(i as int))), Ghost(join_len(rv[i as int], 3)));
        i += 1;
    }
    assert(rv.take(rows.len() as int) =~= rv);
    total
}

fn entry_size_checked(e: &ListEntry) -> (r: Option<usize>)
    ensures
        fits_as(r, entry_size(entry_view(*e))),
    decreases e,
{
    let ghost ev = entry_view(*e);
    let ghost rcv = run_chars(ev.runs);
    let rc = run_chars_checked(&e.runs);
    let twice = add_sizes(rc, rc, Ghost(rcv), Ghost(rcv));
    let mut total = add_sizes(twice, Some(26), Ghost(rcv + rcv), Ghost(26nat));
    let ghost cs = e.children@;
    proof {
        lemma_entries_view(cs, cs.len() as int);
    }
    let ghost cvs = ev.children;
    let ghost base: nat = 2 * rcv + 26;
    let mut i: usize = 0;
    while i < e.children.len()
        invariant
            i <= e.children.len(),
            cs == e.children@,
            ev == entry_view(*e),
            cvs == ev.children,
            cvs == entries_view(cs, cs.len() as int),
            cvs.len() == cs.len(),
            forall|k: int| 0 <= k < cs.len() ==> #[trigger] cvs[k] == entry_view(cs[k]),
            base == 2 * run_chars(ev.runs) + 26,
            fits_as(total, base + entries_size(cvs, i as int)),
        decreases e.children.len() - i,
    {
        proof {
            assert(decreases_to!(*e => e.children));
        }
        let n = entry_size_checked(&e.children[i]);
        total = add_sizes(total, n, Ghost(base + entries_size(cvs, i as int)), Ghost(entry_size(cvs[i as int])));
        i += 1;
    }
    total
}

fn list_size_checked(items: &Vec<ListEntry>) -> (r: Option<usize>)
    ensures
        fits_as(r, 2 + entries_size(entries_view(items@, items@.len() as int), items@.len() as int)),
{
    let ghost es = items@;
    let ghost evs = entries_view(es, es.len() as int);
    proof {
        lemma_entries_view(es, es.len() as int);
    }
    let mut total: Option<usize> = Some(2);
    let mut i: usize = 0;
    while i < items.len()
        invariant
            i <= items.len(),
            es == items@,
            evs == entries_view(es, es.len() as int),
            evs.len() == es.len(),
            forall|k: int| 0 <= k < es.len() ==> #[trigger] evs[k] == entry_view(es[k]),
            fits_as(total, 2 + entries_size(evs, i as int)),
        decreases items.len() - i,
    {
        let n = entry_size_checked(&items[i]);
        total = add_sizes(total, n, Ghost(2 + entries_size(evs, i as int)), Ghost(entry_size(evs[i as int])));
        i += 1;
    }
    total
}

fn item_size_checked(item: &ContentItem) -> (r: Option<usize>)
    ensures
        fits_as(r, item_size(item_view(*item))),
    decreases item,
{
    match item {
        ContentItem::Paragraph { runs } => {
            let ghost rcv = run_chars(runs_view(runs@));
            let rc = run_chars_checked(runs);
            add_sizes(rc, rc, Ghost(rcv), Ghost(rcv))
        },
        ContentItem::CodeBlock { code } => {
            Some(code.as_str().unicode_len())
        },
        ContentItem::Heading { text, .. } => {
            Some(text.as_str().unicode_len())
        },
        ContentItem::List { items, .. } => {
            let r = list_size_checked(items);
            proof {
                lemma_entries_view(items@, items@.len() as int);
            }
            r
        },
        ContentItem::Table { headers, rows } => {
            let h = join_len_checked(headers);
            let r = rows_size_checked(rows);
            add_sizes(h, r, Ghost(join_len(strings_view(headers@), 3)), Ghost(rows_size(table_rows_view(rows@))))
        },
        ContentItem::Rule => Some(3),
        ContentItem::BlockQuote { items } => {
            let ghost its = items@;
            let ghost ivs = items_view(its, its.len() as int);
            proof {
                lemma_items_view(its, its.len() as int);
            }
            let mut total: Option<usize> = Some(2);
            let mut i: usize = 0;
            while i < items.len()
                invariant
                    i <= items.len(),
                    its == items@,
                    ivs == items_view(its, its.len() as int),
                    ivs.len() == its.len(),
                    forall|k: int| 0 <= k < its.len() ==> #[trigger] ivs[k] == item_view(its[k]),
                    *item is BlockQuote,
                    item->BlockQuote_items == *items,
                    fits_as(total, 2 + items_size(ivs, i as int)),
                decreases items.len() - i,
            {
                proof {
                    assert(decreases_to!(*item => item->BlockQuote_items));
                }
                let n = item_size_checked(&items[i]);
                total = add_sizes(total, n, Ghost(2 + items_size(ivs, i as int)), Ghost(item_size(ivs[i as int])));
                i += 1;
            }
            total
        },
    }
}

/// Whether no rendered width of the section overflows a `usize`.
pub fn section_fits_check(section: &Section) -> (b: bool)
    ensures
        b == section_fits(section_view(*section)),
{
    let ghost sv = section_view(*section);
    let ghost its = section.items@;
    proof {
        lemma_items_view(its, its.len() as int);
    }
    match &section.title {
        Some(t) => {
            let _n = t.as_str().unicode_len();
        },
        None => {},
    }
    let mut i: usize = 0;
    while i < section.items.len()
        invariant
            i <= section.items.len(),
            its == section.items@,
            sv == section_view(*section),
            sv.items == items_view(its, its.len() as int),
            sv.items.len() == its.len(),
            forall|k: int| 0 <= k < its.len() ==> #[trigger] sv.items[k] == item_view(its[k]),
            forall|k: int| 0 <= k < i ==> item_size(#[trigger] sv.items[k]) <= usize::MAX,
        decreases section.items.len() - i,
    {
        match item_size_checked(&section.items[i]) {
            Some(_) => {},
            None => {
                assert(item_size(sv.items[i as int]) > usize::MAX);
                return false;
            },
        }
        i += 1;
    }
    true
}

} // verus!
