//! Structural analysis of the text to be typed: counts, and the words with
//! their byte ranges.
use vstd::prelude::*;
use vstd::utf8::encode_utf8;

use crate::text::chars::{
    alphanumeric, ascii_punctuation, byte_len, is_alphanumeric, is_ascii_punctuation,
    lemma_byte_len_prefix, lemma_byte_len_push, lemma_chars_le_bytes, lemma_encode_concat,
    len_utf8,
};

verus! {

/// A word of the source text: a maximal run of alphanumeric characters and
/// apostrophes. `start` and `end` are byte offsets into the source.
#[derive(Clone, Debug)]
pub struct WordToken {
    pub start: usize,
    pub end: usize,
    pub text: String,
    pub difficult: bool,
}

/// The counts and words of a text.
#[derive(Clone, Debug)]
pub struct TextAnalysis {
    pub characters: usize,
    pub words: usize,
    pub sentences: usize,
    pub paragraphs: usize,
    pub punctuation: usize,
    pub tokens: Vec<WordToken>,
}

/// Which characters of `s` words are made of, given which are alphanumeric:
/// the alphanumeric ones and the apostrophe.
pub open spec fn word_mask(s: Seq<char>, alnum: Seq<bool>) -> Seq<bool> {
    Seq::new(s.len(), |k: int| alnum[k] || s[k] == '\'')
}

/// Which characters of `s` are alphanumeric, as `char::is_alphanumeric` decides.
pub open spec fn alnum_flags(s: Seq<char>) -> Seq<bool> {
    Seq::new(s.len(), |k: int| alphanumeric(s[k]))
}

/// The characters that end a sentence.
pub open spec fn sentence_end(c: char) -> bool {
    c == '.' || c == '!' || c == '?'
}

/// The number of characters of `s` that end a sentence.
pub open spec fn sentence_count(s: Seq<char>) -> nat
    decreases s.len(),
{
    if s.len() == 0 {
        0
    } else {
        sentence_count(s.drop_last()) + if sentence_end(s.last()) {
            1nat
        } else {
            0nat
        }
    }
}

/// The number of ASCII punctuation characters of `s`.
pub open spec fn punctuation_count(s: Seq<char>) -> nat
    decreases s.len(),
{
    if s.len() == 0 {
        0
    } else {
        punctuation_count(s.drop_last()) + if ascii_punctuation(s.last()) {
            1nat
        } else {
            0nat
        }
    }
}

/// The number of blank-line separators ("\n\n") in `s`, found from the left
/// without overlap, as `str::split` finds them.
pub open spec fn separator_count(s: Seq<char>) -> nat
    decreases s.len(),
{
    if s.len() < 2 {
        0
    } else if s[0] == '\n' && s[1] == '\n' {
        1 + separator_count(s.skip(2))
    } else {
        separator_count(s.skip(1))
    }
}

/// The number of paragraphs: none in an empty text, else one more than the
/// number of blank-line separators.
pub open spec fn paragraph_count(s: Seq<char>) -> nat {
    if s.len() == 0 {
        0
    } else {
        separator_count(s) + 1
    }
}

/// The index at which the run of word positions that ends `w` begins
/// (`w.len()` when the last position of `w` is not a word position).
pub open spec fn run_start(w: Seq<bool>) -> int
    decreases w.len(),
{
    if w.len() == 0 || !w.last() {
        w.len() as int
    } else {
        run_start(w.drop_last())
    }
}

/// The run that ends `w` lies within `w`, is made of word positions, and is
/// not preceded by one.
pub proof fn lemma_run_start(w: Seq<bool>)
    ensures
        0 <= run_start(w) <= w.len(),
        forall|k: int| run_start(w) <= k < w.len() ==> #[trigger] w[k],
        run_start(w) > 0 ==> !w[run_start(w) - 1],
    decreases w.len(),
{
    if w.len() > 0 && w.last() {
        let p = w.drop_last();
        lemma_run_start(p);
        assert forall|k: int| run_start(w) <= k < w.len() implies #[trigger] w[k] by {
            if k < p.len() {
                assert(w[k] == p[k]);
            }
        }
        if run_start(p) > 0 {
            assert(w[run_start(p) - 1] == p[run_start(p) - 1]);
        }
    }
}

/// The spans `(start, end)` of the runs of word positions of `w` that a
/// non-word position of `w` follows.
pub open spec fn closed_spans(w: Seq<bool>) -> Seq<(int, int)>
    decreases w.len(),
{
    if w.len() == 0 {
        seq![]
    } else {
        let p = w.drop_last();
        if !w.last() && p.len() > 0 && p.last() {
            closed_spans(p).push((run_start(p), p.len() as int))
        } else {
            closed_spans(p)
        }
    }
}

/// The spans `(start, end)` of all runs of word positions of `w`, in order.
pub open spec fn word_spans(w: Seq<bool>) -> Seq<(int, int)> {
    if w.len() > 0 && w.last() {
        closed_spans(w).push((run_start(w), w.len() as int))
    } else {
        closed_spans(w)
    }
}

/// `(a, b)` is a maximal run of word positions of `w`: all of `a..b` are
/// word positions, and neither neighbour is.
pub open spec fn is_maximal_run(w: Seq<bool>, a: int, b: int) -> bool {
    &&& 0 <= a < b <= w.len()
    &&& forall|k: int| a <= k < b ==> #[trigger] w[k]
    &&& a == 0 || !w[a - 1]
    &&& b == w.len() || !w[b]
}

/// `spans` lists maximal runs of `w` from left to right.
pub open spec fn ordered_runs(w: Seq<bool>, spans: Seq<(int, int)>) -> bool {
    &&& forall|k: int| 0 <= k < spans.len() ==> is_maximal_run(w, #[trigger] spans[k].0, spans[k].1)
    &&& forall|k: int| 0 <= k < spans.len() - 1 ==> #[trigger] spans[k].1 < spans[k + 1].0
}

/// The spans of closed runs are maximal runs that end before the last run,
/// and cover every word position before it.
proof fn lemma_closed_spans(w: Seq<bool>)
    ensures
        ordered_runs(w, closed_spans(w)),
        forall|k: int|
            0 <= k < closed_spans(w).len() ==> #[trigger] closed_spans(w)[k].1 < run_start(w),
        forall|pos: int|
            0 <= pos < run_start(w) && #[trigger] w[pos] ==> exists|k: int|
                0 <= k < closed_spans(w).len() && closed_spans(w)[k].0 <= pos
                    < #[trigger] closed_spans(w)[k].1,
    decreases w.len(),
{
    lemma_run_start(w);
    if w.len() > 0 {
        let p = w.drop_last();
        lemma_closed_spans(p);
        lemma_run_start(p);
        let old_spans = closed_spans(p);
        assert forall|k: int| 0 <= k < old_spans.len() implies is_maximal_run(
            w,
            #[trigger] old_spans[k].0,
            old_spans[k].1,
        ) by {
            let (a, b) = old_spans[k];
            assert(is_maximal_run(p, a, b));
            assert forall|j: int| a <= j < b implies #[trigger] w[j] by {
                assert(p[j]);
            }
            if a > 0 {
                assert(!p[a - 1]);
            }
            assert(b < p.len());
            assert(!p[b]);
        }
        if !w.last() && p.len() > 0 && p.last() {
            let a = run_start(p);
            let b = p.len() as int;
            assert(run_start(p) == run_start(p.drop_last()));
            lemma_run_start(p.drop_last());
            let spans = closed_spans(w);
            assert(spans == old_spans.push((a, b)));
            assert(is_maximal_run(w, a, b)) by {
                assert forall|j: int| a <= j < b implies #[trigger] w[j] by {
                    assert(p[j]);
                }
                if a > 0 {
                    assert(!p[a - 1]);
                }
            }
            assert forall|k: int| 0 <= k < spans.len() implies is_maximal_run(
                w,
                #[trigger] spans[k].0,
                spans[k].1,
            ) by {
                if k < old_spans.len() {
                    assert(spans[k] == old_spans[k]);
                }
            }
            assert forall|k: int| 0 <= k < spans.len() - 1 implies #[trigger] spans[k].1 < spans[k
                + 1].0 by {
                assert(spans[k] == old_spans[k]);
                if k + 1 < old_spans.len() {
                    assert(spans[k + 1] == old_spans[k + 1]);
                }
            }
            assert forall|k: int| 0 <= k < spans.len() implies #[trigger] spans[k].1 < run_start(
                w,
            ) by {
                if k < old_spans.len() {
                    assert(spans[k] == old_spans[k]);
                }
            }
            assert forall|pos: int| 0 <= pos < run_start(w) && #[trigger] w[pos] implies exists|
                k: int,
            |
                0 <= k < spans.len() && spans[k].0 <= pos < #[trigger] spans[k].1 by {
                if pos < a {
                    assert(p[pos]);
                    let k = choose|k: int|
                        0 <= k < old_spans.len() && old_spans[k].0 <= pos < #[trigger] old_spans[k].1;
                    assert(spans[k] == old_spans[k]);
                    assert(spans[k].0 <= pos < spans[k].1);
                } else {
                    assert(pos < b);
                    let n = old_spans.len() as int;
                    assert(spans[n] == (a, b));
                    assert(spans[n].0 <= pos < spans[n].1);
                }
            }
        } else {
            assert(closed_spans(w) == old_spans);
            assert forall|k: int| 0 <= k < old_spans.len() implies #[trigger] old_spans[k].1
                < run_start(w) by {
                if w.last() {
                    assert(run_start(w) == run_start(p));
                } else {
                    assert(old_spans[k].1 < run_start(p));
                }
            }
            assert forall|pos: int| 0 <= pos < run_start(w) && #[trigger] w[pos] implies exists|
                k: int,
            |
                0 <= k < old_spans.len() && old_spans[k].0 <= pos < #[trigger] old_spans[k].1 by {
                assert(p[pos]);
                if !w.last() && p.len() > 0 {
                    assert(!p.last());
                    assert(run_start(p) == p.len());
                }
            }
        }
    }
}

/// Law: the words of a text are exactly its maximal runs of word characters,
/// from left to right, and every word character lies in one of them.
pub proof fn lemma_word_spans_are_maximal_runs(w: Seq<bool>)
    ensures
        ordered_runs(w, word_spans(w)),
        forall|pos: int|
            0 <= pos < w.len() && #[trigger] w[pos] ==> exists|k: int|
                0 <= k < word_spans(w).len() && word_spans(w)[k].0 <= pos
                    < #[trigger] word_spans(w)[k].1,
{
    lemma_closed_spans(w);
    lemma_run_start(w);
    let closed = closed_spans(w);
    if w.len() > 0 && w.last() {
        let a = run_start(w);
        let b = w.len() as int;
        let spans = word_spans(w);
        assert(spans == closed.push((a, b)));
        assert(run_start(w) == run_start(w.drop_last()));
        lemma_run_start(w.drop_last());
        assert(is_maximal_run(w, a, b));
        assert forall|k: int| 0 <= k < spans.len() implies is_maximal_run(
            w,
            #[trigger] spans[k].0,
            spans[k].1,
        ) by {
            if k < closed.len() {
                assert(spans[k] == closed[k]);
            }
        }
        assert forall|k: int| 0 <= k < spans.len() - 1 implies #[trigger] spans[k].1 < spans[k
            + 1].0 by {
            assert(spans[k] == closed[k]);
            if k + 1 < closed.len() {
                assert(spans[k + 1] == closed[k + 1]);
            }
        }
        assert forall|pos: int| 0 <= pos < w.len() && #[trigger] w[pos] implies exists|k: int|
            0 <= k < spans.len() && spans[k].0 <= pos < #[trigger] spans[k].1 by {
            if pos < a {
                let k = choose|k: int|
                    0 <= k < closed.len() && closed[k].0 <= pos < #[trigger] closed[k].1;
                assert(spans[k] == closed[k]);
                assert(spans[k].0 <= pos < spans[k].1);
            } else {
                let n = closed.len() as int;
                assert(spans[n] == (a, b));
                assert(spans[n].0 <= pos < spans[n].1);
            }
        }
    } else {
        if w.len() > 0 {
            assert(run_start(w) == w.len());
        }
        assert(word_spans(w) == closed);
    }
}

/// `t` is the token of `s` for the character span `span`: its byte range,
/// its text, and whether it has ten characters or more.
pub open spec fn token_of_span(t: WordToken, s: Seq<char>, span: (int, int)) -> bool {
    &&& t.start == byte_len(s.take(span.0))
    &&& t.end == byte_len(s.take(span.1))
    &&& t.text@ == s.subrange(span.0, span.1)
    &&& t.difficult == (span.1 - span.0 >= 10)
}

/// `a` is the analysis of the text `s` in which the characters flagged in
/// `alnum` are the alphanumeric ones.
pub open spec fn analysis_with(a: TextAnalysis, s: Seq<char>, alnum: Seq<bool>) -> bool {
    let spans = word_spans(word_mask(s, alnum));
    &&& a.characters == s.len()
    &&& a.words == spans.len()
    &&& a.sentences == sentence_count(s)
    &&& a.paragraphs == paragraph_count(s)
    &&& a.punctuation == punctuation_count(s)
    &&& a.tokens@.len() == spans.len()
    &&& forall|k: int|
        0 <= k < a.tokens@.len() ==> token_of_span(#[trigger] a.tokens@[k], s, spans[k])
}

/// `a` is the analysis of the text `s`.
pub open spec fn analysis_of(a: TextAnalysis, s: Seq<char>) -> bool {
    analysis_with(a, s, alnum_flags(s))
}

/// Law: a word's byte range `start..end` holds exactly the UTF-8 encoding of
/// its text, so that `source[start..end]` is the word.
pub proof fn lemma_token_bytes(a: TextAnalysis, s: Seq<char>, alnum: Seq<bool>, k: int)
    requires
        alnum.len() == s.len(),
        analysis_with(a, s, alnum),
        0 <= k < a.tokens@.len(),
    ensures
        a.tokens@[k].start < a.tokens@[k].end <= byte_len(s),
        encode_utf8(s).subrange(a.tokens@[k].start as int, a.tokens@[k].end as int) == encode_utf8(
            a.tokens@[k].text@,
        ),
{
    let w = word_mask(s, alnum);
    let spans = word_spans(w);
    lemma_word_spans_are_maximal_runs(w);
    let t = a.tokens@[k];
    assert(token_of_span(t, s, spans[k]));
    let (i, j) = spans[k];
    assert(is_maximal_run(w, i, j));
    let head = s.take(i);
    let mid = s.subrange(i, j);
    let tail = s.skip(j);
    assert(s.take(j) =~= head + mid);
    assert(s =~= (head + mid) + tail);
    lemma_encode_concat(head, mid);
    lemma_encode_concat(head + mid, tail);
    lemma_chars_le_bytes(mid);
    assert(encode_utf8(s).subrange(t.start as int, t.end as int) =~= encode_utf8(mid));
}

/// `spans` moved `d` positions to the right.
pub open spec fn shifted(spans: Seq<(int, int)>, d: int) -> Seq<(int, int)> {
    Seq::new(spans.len(), |k: int| (spans[k].0 + d, spans[k].1 + d))
}

/// After a non-word position, the runs of `m` start afresh.
proof fn lemma_spans_concat(w: Seq<bool>, m: Seq<bool>)
    requires
        w.len() > 0,
        !w.last(),
    ensures
        closed_spans(w + m) == closed_spans(w) + shifted(closed_spans(m), w.len() as int),
        run_start(w + m) == w.len() + run_start(m),
    decreases m.len(),
{
    if m.len() == 0 {
        assert(w + m =~= w);
        assert(closed_spans(w) + shifted(closed_spans(m), w.len() as int) =~= closed_spans(w));
    } else {
        let s = w + m;
        let mp = m.drop_last();
        assert(s.drop_last() =~= w + mp);
        assert(s.last() == m.last());
        lemma_spans_concat(w, mp);
        let p = s.drop_last();
        if mp.len() > 0 {
            assert(p.last() == mp.last());
        } else {
            assert(p.last() == w.last());
        }
        if !m.last() && mp.len() > 0 && mp.last() {
            assert(shifted(closed_spans(mp).push((run_start(mp), mp.len() as int)), w.len() as int)
                =~= shifted(closed_spans(mp), w.len() as int).push(
                (w.len() + run_start(mp), (w.len() + mp.len()) as int),
            ));
            assert(closed_spans(w) + shifted(closed_spans(m), w.len() as int) =~= (closed_spans(w)
                + shifted(closed_spans(mp), w.len() as int)).push(
                (w.len() + run_start(mp), (w.len() + mp.len()) as int),
            ));
        }
    }
}

/// A non-word position closes the run before it.
proof fn lemma_spans_push_break(w: Seq<bool>)
    ensures
        closed_spans(w.push(false)) == word_spans(w),
{
    assert(w.push(false).drop_last() =~= w);
}

/// The sentence ends of two texts joined are those of each.
proof fn lemma_sentence_count_concat(a: Seq<char>, b: Seq<char>)
    ensures
        sentence_count(a + b) == sentence_count(a) + sentence_count(b),
    decreases b.len(),
{
    if b.len() == 0 {
        assert(a + b =~= a);
    } else {
        assert((a + b).drop_last() =~= a + b.drop_last());
        lemma_sentence_count_concat(a, b.drop_last());
    }
}

/// The punctuation of two texts joined is that of each.
proof fn lemma_punctuation_count_concat(a: Seq<char>, b: Seq<char>)
    ensures
        punctuation_count(a + b) == punctuation_count(a) + punctuation_count(b),
    decreases b.len(),
{
    if b.len() == 0 {
        assert(a + b =~= a);
    } else {
        assert((a + b).drop_last() =~= a + b.drop_last());
        lemma_punctuation_count_concat(a, b.drop_last());
    }
}

/// The word positions of two texts joined by a space that is not
/// alphanumeric.
proof fn lemma_mask_concat(a: Seq<char>, fa: Seq<bool>, b: Seq<char>, fb: Seq<bool>)
    requires
        fa.len() == a.len(),
        fb.len() == b.len(),
    ensures
        word_mask(a.push(' ') + b, fa.push(false) + fb) == word_mask(a, fa).push(false) + word_mask(
            b,
            fb,
        ),
{
    let s = a.push(' ') + b;
    let f = fa.push(false) + fb;
    let ws = word_mask(s, f);
    let joined = word_mask(a, fa).push(false) + word_mask(b, fb);
    assert forall|k: int| 0 <= k < ws.len() implies ws[k] == joined[k] by {
        if k < a.len() {
            assert(s[k] == a[k]);
            assert(f[k] == fa[k]);
        } else if k == a.len() {
            assert(s[k] == ' ');
            assert(f[k] == false);
        } else {
            assert(s[k] == b[k - a.len() - 1]);
            assert(f[k] == fb[k - a.len() - 1]);
        }
    }
    assert(ws =~= joined);
}

/// The words of two texts joined by a space: those of the first, then
/// those of the second moved past the first and the space.
proof fn lemma_spans_join(a: Seq<char>, fa: Seq<bool>, b: Seq<char>, fb: Seq<bool>)
    requires
        fa.len() == a.len(),
        fb.len() == b.len(),
    ensures
        word_spans(word_mask(a.push(' ') + b, fa.push(false) + fb)) == word_spans(word_mask(a, fa))
            + shifted(word_spans(word_mask(b, fb)), a.len() as int + 1),
{
    let wa = word_mask(a, fa);
    let wb = word_mask(b, fb);
    let wsa = wa.push(false);
    lemma_mask_concat(a, fa, b, fb);
    lemma_spans_concat(wsa, wb);
    lemma_spans_push_break(wa);
    let ws = wsa + wb;
    let sp_a = word_spans(wa);
    let sp_b = word_spans(wb);
    let off: int = a.len() as int + 1;
    if wb.len() > 0 && wb.last() {
        assert(ws.last() == wb.last());
        assert(shifted(sp_b, off) =~= shifted(closed_spans(wb), off).push(
            (off + run_start(wb), off + wb.len() as int),
        ));
        assert(word_spans(ws) =~= sp_a + shifted(sp_b, off));
    } else {
        if wb.len() > 0 {
            assert(ws.last() == wb.last());
        } else {
            assert(ws =~= wsa);
        }
        assert(word_spans(ws) =~= sp_a + shifted(sp_b, off));
    }
}

/// Law: analysing two texts joined by a space gives the analyses of both:
/// the counts add up (the space adds one character), and the words are
/// those of the first text followed by those of the second, whose byte
/// ranges move by the first text's bytes and the space. `fa` and `fb` tell
/// which characters are alphanumeric, and the space is not.
pub proof fn lemma_parse_concat(
    r: TextAnalysis,
    x: TextAnalysis,
    y: TextAnalysis,
    a: Seq<char>,
    fa: Seq<bool>,
    b: Seq<char>,
    fb: Seq<bool>,
)
    requires
        fa.len() == a.len(),
        fb.len() == b.len(),
        analysis_with(r, a.push(' ') + b, fa.push(false) + fb),
        analysis_with(x, a, fa),
        analysis_with(y, b, fb),
    ensures
        r.characters == x.characters + y.characters + 1,
        r.words == x.words + y.words,
        r.sentences == x.sentences + y.sentences,
        r.punctuation == x.punctuation + y.punctuation,
        r.tokens@.len() == x.tokens@.len() + y.tokens@.len(),
        forall|k: int|
            0 <= k < x.tokens@.len() ==> {
                &&& (#[trigger] r.tokens@[k]).start == x.tokens@[k].start
                &&& r.tokens@[k].end == x.tokens@[k].end
                &&& r.tokens@[k].text@ == x.tokens@[k].text@
                &&& r.tokens@[k].difficult == x.tokens@[k].difficult
            },
        forall|k: int|
            0 <= k < y.tokens@.len() ==> {
                &&& (#[trigger] r.tokens@[x.tokens@.len() + k]).start == y.tokens@[k].start
                    + byte_len(a) + 1
                &&& r.tokens@[x.tokens@.len() + k].end == y.tokens@[k].end + byte_len(a) + 1
                &&& r.tokens@[x.tokens@.len() + k].text@ == y.tokens@[k].text@
                &&& r.tokens@[x.tokens@.len() + k].difficult == y.tokens@[k].difficult
            },
{
    let sa = a.push(' ');
    let s = sa + b;
    lemma_spans_join(a, fa, b, fb);
    lemma_sentence_count_concat(sa, b);
    lemma_punctuation_count_concat(sa, b);
    assert(sa.drop_last() =~= a);
    lemma_head_tokens(r, x, a, fa, b, fb);
    lemma_tail_tokens(r, x, y, a, fa, b, fb);
}

/// The words of the first text keep their ranges when a space and a second
/// text follow.
proof fn lemma_head_tokens(
    r: TextAnalysis,
    x: TextAnalysis,
    a: Seq<char>,
    fa: Seq<bool>,
    b: Seq<char>,
    fb: Seq<bool>,
)
    requires
        fa.len() == a.len(),
        fb.len() == b.len(),
        analysis_with(r, a.push(' ') + b, fa.push(false) + fb),
        analysis_with(x, a, fa),
    ensures
        forall|k: int|
            0 <= k < x.tokens@.len() ==> {
                &&& (#[trigger] r.tokens@[k]).start == x.tokens@[k].start
                &&& r.tokens@[k].end == x.tokens@[k].end
                &&& r.tokens@[k].text@ == x.tokens@[k].text@
                &&& r.tokens@[k].difficult == x.tokens@[k].difficult
            },
{
    let s = a.push(' ') + b;
    let wa = word_mask(a, fa);
    lemma_spans_join(a, fa, b, fb);
    lemma_word_spans_are_maximal_runs(wa);
    let sp_a = word_spans(wa);
    let sp_s = word_spans(word_mask(s, fa.push(false) + fb));
    assert forall|k: int| 0 <= k < x.tokens@.len() implies {
        &&& (#[trigger] r.tokens@[k]).start == x.tokens@[k].start
        &&& r.tokens@[k].end == x.tokens@[k].end
        &&& r.tokens@[k].text@ == x.tokens@[k].text@
        &&& r.tokens@[k].difficult == x.tokens@[k].difficult
    } by {
        let (i, j) = sp_a[k];
        assert(sp_s[k] == sp_a[k]);
        assert(token_of_span(r.tokens@[k], s, sp_s[k]));
        assert(token_of_span(x.tokens@[k], a, sp_a[k]));
        assert(is_maximal_run(wa, i, j));
        assert(s.take(i) =~= a.take(i));
        assert(s.take(j) =~= a.take(j));
        assert(s.subrange(i, j) =~= a.subrange(i, j));
    }
}

/// The words of the second text move past the first text and the space.
proof fn lemma_tail_tokens(
    r: TextAnalysis,
    x: TextAnalysis,
    y: TextAnalysis,
    a: Seq<char>,
    fa: Seq<bool>,
    b: Seq<char>,
    fb: Seq<bool>,
)
    requires
        fa.len() == a.len(),
        fb.len() == b.len(),
        analysis_with(r, a.push(' ') + b, fa.push(false) + fb),
        analysis_with(x, a, fa),
        analysis_with(y, b, fb),
    ensures
        forall|k: int|
            0 <= k < y.tokens@.len() ==> {
                &&& (#[trigger] r.tokens@[x.tokens@.len() + k]).start == y.tokens@[k].start
                    + byte_len(a) + 1
                &&& r.tokens@[x.tokens@.len() + k].end == y.tokens@[k].end + byte_len(a) + 1
                &&& r.tokens@[x.tokens@.len() + k].text@ == y.tokens@[k].text@
                &&& r.tokens@[x.tokens@.len() + k].difficult == y.tokens@[k].difficult
            },
{
    let sa = a.push(' ');
    let s = sa + b;
    let wb = word_mask(b, fb);
    lemma_spans_join(a, fa, b, fb);
    lemma_word_spans_are_maximal_runs(wb);
    lemma_byte_len_push(a, ' ');
    let sp_a = word_spans(word_mask(a, fa));
    let sp_b = word_spans(wb);
    let sp_s = word_spans(word_mask(s, fa.push(false) + fb));
    let off: int = a.len() as int + 1;
    assert forall|k: int| 0 <= k < y.tokens@.len() implies {
        &&& (#[trigger] r.tokens@[x.tokens@.len() + k]).start == y.tokens@[k].start + byte_len(a)
            + 1
        &&& r.tokens@[x.tokens@.len() + k].end == y.tokens@[k].end + byte_len(a) + 1
        &&& r.tokens@[x.tokens@.len() + k].text@ == y.tokens@[k].text@
        &&& r.tokens@[x.tokens@.len() + k].difficult == y.tokens@[k].difficult
    } by {
        let (i, j) = sp_b[k];
        let n = x.tokens@.len() + k;
        assert(sp_s[n] == (i + off, j + off));
        assert(token_of_span(r.tokens@[n], s, sp_s[n]));
        assert(token_of_span(y.tokens@[k], b, sp_b[k]));
        assert(is_maximal_run(wb, i, j));
        assert(s.take(i + off) =~= sa + b.take(i));
        assert(s.take(j + off) =~= sa + b.take(j));
        lemma_encode_concat(sa, b.take(i));
        lemma_encode_concat(sa, b.take(j));
        assert(s.subrange(i + off, j + off) =~= b.subrange(i, j));
    }
}

/// Law: the same for `parse`, given that std does not class the space as
/// alphanumeric (which `is_alphanumeric(' ')` shows at a call).
pub proof fn lemma_parse_concat_text(
    r: TextAnalysis,
    x: TextAnalysis,
    y: TextAnalysis,
    a: Seq<char>,
    b: Seq<char>,
)
    requires
        !alphanumeric(' '),
        analysis_of(r, a.push(' ') + b),
        analysis_of(x, a),
        analysis_of(y, b),
    ensures
        r.characters == x.characters + y.characters + 1,
        r.words == x.words + y.words,
        r.sentences == x.sentences + y.sentences,
        r.punctuation == x.punctuation + y.punctuation,
        r.tokens@.len() == x.tokens@.len() + y.tokens@.len(),
        forall|k: int|
            0 <= k < x.tokens@.len() ==> {
                &&& (#[trigger] r.tokens@[k]).start == x.tokens@[k].start
                &&& r.tokens@[k].end == x.tokens@[k].end
                &&& r.tokens@[k].text@ == x.tokens@[k].text@
                &&& r.tokens@[k].difficult == x.tokens@[k].difficult
            },
        forall|k: int|
            0 <= k < y.tokens@.len() ==> {
                &&& (#[trigger] r.tokens@[x.tokens@.len() + k]).start == y.tokens@[k].start
                    + byte_len(a) + 1
                &&& r.tokens@[x.tokens@.len() + k].end == y.tokens@[k].end + byte_len(a) + 1
                &&& r.tokens@[x.tokens@.len() + k].text@ == y.tokens@[k].text@
                &&& r.tokens@[x.tokens@.len() + k].difficult == y.tokens@[k].difficult
            },
{
    let s = a.push(' ') + b;
    let fa = alnum_flags(a);
    let fb = alnum_flags(b);
    let f = fa.push(false) + fb;
    assert forall|k: int| 0 <= k < s.len() implies alnum_flags(s)[k] == f[k] by {
        if k < a.len() {
            assert(s[k] == a[k]);
        } else if k == a.len() {
            assert(s[k] == ' ');
        } else {
            assert(s[k] == b[k - a.len() - 1]);
        }
    }
    assert(alnum_flags(s) =~= f);
    lemma_parse_concat(r, x, y, a, fa, b, fb);
}

impl Default for TextAnalysis {
    fn default() -> (r: Self)
        ensures
            r.characters == 0 && r.words == 0 && r.sentences == 0,
            r.paragraphs == 0 && r.punctuation == 0 && r.tokens@.len() == 0,
    {
        TextAnalysis {
            characters: 0,
            words: 0,
            sentences: 0,
            paragraphs: 0,
            punctuation: 0,
            tokens: Vec::new(),
        }
    }
}

/// Calls `String::push` of std: appends one character.
#[verifier::external_body]
fn push_char(s: &mut String, c: char)
    ensures
        final(s)@ == old(s)@.push(c),
{
    s.push(c)
}

/// The number of blank-line separators of `source`.
fn count_separators(source: &str) -> (n: usize)
    ensures
        n == separator_count(source@),
        2 * n <= source@.len(),
{
    let ghost s = source@;
    let total = source.as_bytes().len();
    proof {
        lemma_chars_le_bytes(s);
    }
    let mut it = source.chars();
    let mut i: usize = 0;
    let mut count: usize = 0;
    let mut pending: bool = false;
    proof {
        assert(s.skip(0) =~= s);
    }
    loop
        invariant_except_break
            i <= s.len(),
            s.len() <= total,
            vstd::std_specs::iter::IteratorSpec::remaining(&it) == s.skip(i as int),
            2 * count + (if pending {
                1int
            } else {
                0int
            }) <= i,
            pending ==> i > 0 && s[i - 1] == '\n',
            separator_count(s) == count + separator_count(
                s.skip(
                    if pending {
                        i - 1
                    } else {
                        i as int
                    },
                ),
            ),
        ensures
            count == separator_count(s),
            2 * count <= s.len(),
        decreases s.len() - i,
    {
        let next = it.next();
        match next {
            None => {
                proof {
                    if pending {
                        assert(s.skip(i - 1).len() == 1);
                    }
                }
                break ;
            },
            Some(c) => {
                let ghost r = s.skip(i as int);
                proof {
                    assert(r.drop_first() =~= s.skip(i + 1));
                    assert(c == s[i as int]);
                    assert(r[0] == c);
                    if r.len() >= 2 {
                        assert(r.skip(1) =~= s.skip(i + 1));
                    } else {
                        assert(s.skip(i + 1).len() == 0);
                    }
                }
                if pending {
                    let ghost r0 = s.skip(i - 1);
                    proof {
                        assert(r0[0] == '\n');
                        assert(r0[1] == c);
                        assert(r0.skip(1) =~= r);
                    }
                    if c == '\n' {
                        proof {
                            assert(r0.skip(2) =~= s.skip(i + 1));
                            assert(separator_count(r0) == 1 + separator_count(s.skip(i + 1)));
                        }
                        count = count + 1;
                    } else {
                        proof {
                            assert(separator_count(r0) == separator_count(r));
                            assert(separator_count(r) == separator_count(s.skip(i + 1)));
                        }
                    }
                    pending = false;
                } else {
                    if c == '\n' {
                        pending = true;
                    } else {
                        proof {
                            assert(separator_count(r) == separator_count(s.skip(i + 1)));
                        }
                    }
                }
                i = i + 1;
            },
        }
    }
    count
}

/// Whether each character of `source` is alphanumeric, in order.
fn alphanumeric_flags(source: &str) -> (flags: Vec<bool>)
    ensures
        flags@ == alnum_flags(source@),
{
    let ghost s = source@;
    let mut it = source.chars();
    let mut flags: Vec<bool> = Vec::new();
    proof {
        assert(s.skip(0) =~= s);
    }
    loop
        invariant_except_break
            flags@.len() <= s.len(),
            vstd::std_specs::iter::IteratorSpec::remaining(&it) == s.skip(flags@.len() as int),
            forall|k: int| 0 <= k < flags@.len() ==> flags@[k] == alphanumeric(#[trigger] s[k]),
        ensures
            flags@.len() == s.len(),
            forall|k: int| 0 <= k < flags@.len() ==> flags@[k] == alphanumeric(#[trigger] s[k]),
        decreases s.len() - flags@.len(),
    {
        let ghost i = flags@.len() as int;
        match it.next() {
            None => {
                break ;
            },
            Some(c) => {
                proof {
                    assert(s.skip(i).drop_first() =~= s.skip(i + 1));
                    assert(c == s[i]);
                }
                flags.push(is_alphanumeric(c));
            },
        }
    }
    proof {
        assert(flags@ =~= alnum_flags(s));
    }
    flags
}

impl TextAnalysis {
    /// Analyses `source`: its number of characters, words, sentence ends,
    /// paragraphs and ASCII punctuation, and its words with their byte ranges.
    pub fn parse(source: &str) -> (result: Self)
        ensures
            analysis_of(result, source@),
    {
        let alnum = alphanumeric_flags(source);
        Self::parse_with(source, alnum.as_slice())
    }

    /// Analyses `source` as `parse` does, where `alnum[k]` tells whether the
    /// character `k` of `source` is alphanumeric.
    pub fn parse_with(source: &str, alnum: &[bool]) -> (result: Self)
        requires
            alnum@.len() == source@.len(),
        ensures
            analysis_with(result, source@, alnum@),
    {
        let ghost s = source@;
        let ghost w = word_mask(s, alnum@);
        let bytes = source.as_bytes();
        let total = bytes.len();
        proof {
            lemma_chars_le_bytes(s);
            assert(total == byte_len(s));
        }
        let paragraphs = if source.is_empty() {
            0
        } else {
            count_separators(source) + 1
        };
        let mut result = TextAnalysis {
            characters: 0,
            words: 0,
            sentences: 0,
            paragraphs,
            punctuation: 0,
            tokens: Vec::new(),
        };
        let mut it = source.chars();
        let mut i: usize = 0;
        let mut index: usize = 0;
        let mut byte_start: Option<usize> = None;
        let mut word = String::new();
        proof {
            assert(s.skip(0) =~= s);
        }
        loop
            invariant_except_break
                i <= s.len(),
                w == word_mask(s, alnum@),
                alnum@.len() == s.len(),
                s.len() <= total,
                byte_len(s) == total,
                vstd::std_specs::iter::IteratorSpec::remaining(&it) == s.skip(i as int),
                index == byte_len(s.take(i as int)),
                result.paragraphs == paragraph_count(s),
                result.sentences == sentence_count(s.take(i as int)),
                result.punctuation == punctuation_count(s.take(i as int)),
                result.sentences <= i,
                result.punctuation <= i,
                result.words == result.tokens@.len(),
                result.tokens@.len() == closed_spans(w.take(i as int)).len(),
                result.tokens@.len() <= i,
                byte_start is Some ==> result.tokens@.len() < i,
                forall|k: int|
                    0 <= k < result.tokens@.len() ==> token_of_span(
                        #[trigger] result.tokens@[k],
                        s,
                        closed_spans(w.take(i as int))[k],
                    ),
                byte_start is Some <==> (i > 0 && w[i - 1]),
                byte_start matches Some(b) ==> b == byte_len(s.take(run_start(w.take(i as int)))),
                byte_start is Some ==> word@ == s.subrange(run_start(w.take(i as int)), i as int),
            ensures
                i == s.len(),
                index == total,
                result.paragraphs == paragraph_count(s),
                result.sentences == sentence_count(s),
                result.punctuation == punctuation_count(s),
                result.words == result.tokens@.len(),
                result.tokens@.len() == closed_spans(w).len(),
                result.tokens@.len() <= i,
                byte_start is Some ==> result.tokens@.len() < i,
                forall|k: int|
                    0 <= k < result.tokens@.len() ==> token_of_span(
                        #[trigger] result.tokens@[k],
                        s,
                        closed_spans(w)[k],
                    ),
                byte_start is Some <==> (i > 0 && w[i - 1]),
                byte_start matches Some(b) ==> b == byte_len(s.take(run_start(w))),
                byte_start is Some ==> word@ == s.subrange(run_start(w), i as int),
            decreases s.len() - i,
        {
            let next = it.next();
            match next {
                None => {
                    proof {
                        assert(s.take(i as int) =~= s);
                        assert(w.take(i as int) =~= w);
                    }
                    break ;
                },
                Some(character) => {
                    let ghost p = w.take(i as int);
                    let ghost q = w.take(i + 1);
                    let ghost sp = s.take(i as int);
                    let ghost sq = s.take(i + 1);
                    proof {
                        assert(s.skip(i as int).drop_first() =~= s.skip(i + 1));
                        assert(character == s[i as int]);
                        assert(q.drop_last() =~= p);
                        assert(q.last() == w[i as int]);
                        assert(sq =~= sp.push(character));
                        assert(sq.drop_last() =~= sp);
                        lemma_byte_len_push(sp, character);
                        lemma_byte_len_prefix(s, i + 1, s.len() as int);
                        assert(s.take(s.len() as int) =~= s);
                        if i > 0 {
                            assert(p.last() == w[i - 1]);
                        }
                        lemma_run_start(p);
                    }
                    let width = len_utf8(character);
                    let is_word = alnum[i] || character == '\'';
                    if is_word {
                        if byte_start.is_none() {
                            byte_start = Some(index);
                            word = String::new();
                            proof {
                                assert(run_start(p) == i);
                            }
                        }
                        proof {
                            assert(run_start(q) == run_start(p));
                            assert(s.subrange(run_start(p), i + 1) =~= s.subrange(
                                run_start(p),
                                i as int,
                            ).push(character));
                        }
                        push_char(&mut word, character);
                    } else {
                        match byte_start {
                            Some(start) => {
                                proof {
                                    lemma_byte_len_prefix(s, run_start(p), i as int);
                                    assert(s.take(i as int) =~= sp);
                                }
                                let finished = word;
                                word = String::new();
                                result.add_word(start, index, finished);
                                byte_start = None;
                                proof {
                                    assert(closed_spans(q) == closed_spans(p).push(
                                        (run_start(p), i as int),
                                    ));
                                    assert forall|k: int|
                                        0 <= k < result.tokens@.len() implies token_of_span(
                                        #[trigger] result.tokens@[k],
                                        s,
                                        closed_spans(q)[k],
                                    ) by {}
                                }
                            },
                            None => {
                                proof {
                                    assert(closed_spans(q) == closed_spans(p));
                                }
                            },
                        }
                    }
                    if character == '.' || character == '!' || character == '?' {
                        result.sentences = result.sentences + 1;
                    }
                    if is_ascii_punctuation(character) {
                        result.punctuation = result.punctuation + 1;
                    }
                    index = index + width;
                    i = i + 1;
                },
            }
        }
        match byte_start {
            Some(start) => {
                proof {
                    lemma_run_start(w);
                    lemma_byte_len_prefix(s, run_start(w), s.len() as int);
                    assert(s.take(s.len() as int) =~= s);
                }
                result.add_word(start, total, word);
            },
            None => {},
        }
        result.characters = i;
        proof {
            assert(result.tokens@.len() == word_spans(w).len());
            assert(forall|k: int|
                0 <= k < result.tokens@.len() ==> token_of_span(
                    #[trigger] result.tokens@[k],
                    s,
                    word_spans(w)[k],
                ));
        }
        result
    }

    /// Records the word `text` that spans the bytes `start..end`.
    fn add_word(&mut self, start: usize, end: usize, text: String)
        requires
            old(self).words == old(self).tokens@.len(),
            old(self).tokens@.len() < usize::MAX,
        ensures
            final(self).tokens@ == old(self).tokens@.push(
                WordToken { start, end, text, difficult: text@.len() >= 10 },
            ),
            final(self).words == old(self).words + 1,
            final(self).characters == old(self).characters,
            final(self).sentences == old(self).sentences,
            final(self).paragraphs == old(self).paragraphs,
            final(self).punctuation == old(self).punctuation,
    {
        let difficult = text.as_str().unicode_len() >= 10;
        self.tokens.push(WordToken { start, end, difficult, text });
        self.words = self.words + 1;
    }
}

} // verus!
