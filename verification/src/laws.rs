//! Laws of the transform, stated and proved over its model.

use vstd::prelude::*;

use crate::model::bold_count;
use crate::model::concat_all;
use crate::model::count_words;
use crate::model::render_spans;
use crate::model::render_word;
use crate::model::transform_spec;
use crate::output::OutputType;
use crate::segment::graphemes_of;
use crate::segment::has_word_char;
use crate::segment::word_spans;

verus! {

/// One more span adds one to the word count iff it is a word span.
pub proof fn lemma_count_words_snoc(spans: Seq<Seq<char>>, j: int)
    requires
        0 <= j < spans.len(),
    ensures
        count_words(spans.take(j + 1)) == count_words(spans.take(j)) + (if has_word_char(
            spans[j],
        ) {
            1int
        } else {
            0int
        }),
    decreases j,
{
    if j == 0 {
        assert(spans.take(1).drop_first() =~= Seq::<Seq<char>>::empty());
        assert(spans.take(1).first() == spans[0]);
        assert(spans.take(0) =~= Seq::<Seq<char>>::empty());
    } else {
        let rest = spans.drop_first();
        lemma_count_words_snoc(rest, j - 1);
        assert(spans.take(j + 1).drop_first() =~= rest.take(j));
        assert(spans.take(j).drop_first() =~= rest.take(j - 1));
        assert(spans.take(j + 1).first() == spans.first());
        assert(spans.take(j).first() == spans.first());
        assert(rest[j - 1] == spans[j]);
    }
}

/// Law: at a bold fraction of one, a selected word is wrapped entirely: the
/// rendering is the open marker, every grapheme cluster of the word in order,
/// and the close marker, with no unmarked cluster inside.  (A word with no
/// grapheme cluster at all is empty and is rendered unchanged.)
pub proof fn lemma_full_word_bold(word: Seq<char>, den: int, kind: OutputType)
    requires
        den > 0,
    ensures
        graphemes_of(word).len() > 0 ==> render_word(word, den, den, kind) == kind.open_marker()
            + concat_all(graphemes_of(word)) + kind.close_marker(),
        graphemes_of(word).len() == 0 ==> render_word(word, den, den, kind) == word,
{
    let gs = graphemes_of(word);
    let l = gs.len() as int;
    assert((l * den + den - 1) / den == l) by (nonlinear_arith)
        requires
            den > 0,
            l >= 0,
    ;
    assert(bold_count(l, den, den) == l);
    if l > 0 {
        assert(gs.take(l) =~= gs);
        assert(gs.skip(l) =~= Seq::<Seq<char>>::empty());
        assert(concat_all(Seq::<Seq<char>>::empty()) == Seq::<char>::empty());
        assert(kind.open_marker() + concat_all(gs) + kind.close_marker()
            + Seq::<char>::empty() =~= kind.open_marker() + concat_all(gs)
            + kind.close_marker());
    }
}

/// Law: the transform renders every span in place.  For any position `i`, the
/// rendering of the whole span sequence is the rendering of the spans before
/// `i`, then span `i` itself — bolded exactly when it is a word span whose
/// zero-based word position is a multiple of the stride, and unchanged
/// otherwise — then the rendering of the spans after `i` at the advanced word
/// count.  `counter` generalizes the starting word count; the transform
/// starts it at zero.
#[verifier::rlimit(60)]
pub proof fn lemma_render_decomposition(
    spans: Seq<Seq<char>>,
    i: int,
    counter: int,
    frequency: int,
    num: int,
    den: int,
    kind: OutputType,
)
    requires
        0 <= i < spans.len(),
        frequency > 0,
    ensures
        ({
            let sel = has_word_char(spans[i]) && (counter + count_words(spans.take(i)))
                % frequency == 0;
            render_spans(spans, counter, frequency, num, den, kind) == render_spans(
                spans.take(i),
                counter,
                frequency,
                num,
                den,
                kind,
            ) + (if sel {
                render_word(spans[i], num, den, kind)
            } else {
                spans[i]
            }) + render_spans(
                spans.skip(i + 1),
                counter + count_words(spans.take(i + 1)),
                frequency,
                num,
                den,
                kind,
            )
        }),
    decreases i,
{
    let sel = has_word_char(spans[i]) && (counter + count_words(spans.take(i))) % frequency
        == 0;
    let mid = if sel {
        render_word(spans[i], num, den, kind)
    } else {
        spans[i]
    };
    lemma_count_words_snoc(spans, i);
    if i == 0 {
        assert(spans.take(0) =~= Seq::<Seq<char>>::empty());
        assert(count_words(spans.take(0)) == 0);
        assert(render_spans(spans.take(0), counter, frequency, num, den, kind)
            == Seq::<char>::empty());
        assert(spans.skip(1) =~= spans.drop_first());
        assert(spans.first() == spans[0]);
        let tail = render_spans(
            spans.skip(1),
            counter + count_words(spans.take(1)),
            frequency,
            num,
            den,
            kind,
        );
        assert(render_spans(spans, counter, frequency, num, den, kind) == mid + tail);
        assert(Seq::<char>::empty() + mid + tail =~= mid + tail);
    } else {
        let rest = spans.drop_first();
        let w0: int = if has_word_char(spans.first()) {
            1
        } else {
            0
        };
        let counter1 = counter + w0;
        lemma_render_decomposition(rest, i - 1, counter1, frequency, num, den, kind);
        assert(spans.take(i).drop_first() =~= rest.take(i - 1));
        assert(spans.take(i + 1).drop_first() =~= rest.take(i));
        assert(spans.take(i).first() == spans.first());
        assert(spans.take(i + 1).first() == spans.first());
        assert(spans.skip(i + 1) =~= rest.skip(i));
        assert(rest[i - 1] == spans[i]);
        assert(count_words(spans.take(i)) == w0 + count_words(rest.take(i - 1)));
        assert(count_words(spans.take(i + 1)) == w0 + count_words(rest.take(i)));
        let head = if has_word_char(spans.first()) && counter % frequency == 0 {
            render_word(spans.first(), num, den, kind)
        } else {
            spans.first()
        };
        let a = render_spans(rest.take(i - 1), counter1, frequency, num, den, kind);
        let b = render_spans(
            rest.skip(i),
            counter1 + count_words(rest.take(i)),
            frequency,
            num,
            den,
            kind,
        );
        assert(render_spans(rest, counter1, frequency, num, den, kind) == a + mid + b);
        assert(render_spans(spans, counter, frequency, num, den, kind) == head + (a + mid
            + b));
        assert(render_spans(spans.take(i), counter, frequency, num, den, kind) == head + a);
        assert(head + (a + mid + b) =~= (head + a) + mid + b);
    }
}

/// Law: selection stride correctness.  Starting from a word count of zero,
/// exactly the word spans at zero-based word positions `0, frequency,
/// 2 * frequency, …` are rendered bolded; every other span passes through
/// unchanged, in place.
pub proof fn lemma_stride_selection(
    spans: Seq<Seq<char>>,
    i: int,
    frequency: int,
    num: int,
    den: int,
    kind: OutputType,
)
    requires
        0 <= i < spans.len(),
        frequency > 0,
    ensures
        ({
            let sel = has_word_char(spans[i]) && count_words(spans.take(i)) % frequency == 0;
            render_spans(spans, 0, frequency, num, den, kind) == render_spans(
                spans.take(i),
                0,
                frequency,
                num,
                den,
                kind,
            ) + (if sel {
                render_word(spans[i], num, den, kind)
            } else {
                spans[i]
            }) + render_spans(
                spans.skip(i + 1),
                count_words(spans.take(i + 1)),
                frequency,
                num,
                den,
                kind,
            )
        }),
{
    lemma_render_decomposition(spans, i, 0, frequency, num, den, kind);
}

/// Law: non-word spans are never marked.  A span with no word-forming
/// character appears in the rendering unchanged, between the renderings of
/// its neighbours, and does not advance the word count.
pub proof fn lemma_non_word_span_unchanged(
    spans: Seq<Seq<char>>,
    i: int,
    frequency: int,
    num: int,
    den: int,
    kind: OutputType,
)
    requires
        0 <= i < spans.len(),
        frequency > 0,
        !has_word_char(spans[i]),
    ensures
        render_spans(spans, 0, frequency, num, den, kind) == render_spans(
            spans.take(i),
            0,
            frequency,
            num,
            den,
            kind,
        ) + spans[i] + render_spans(
            spans.skip(i + 1),
            count_words(spans.take(i)),
            frequency,
            num,
            den,
            kind,
        ),
{
    lemma_render_decomposition(spans, i, 0, frequency, num, den, kind);
    lemma_count_words_snoc(spans, i);
}

/// Law: selection stride correctness, read on the transform of a text.  The
/// transform's output decomposes at every word span of the text as
/// `lemma_stride_selection` says: bolded iff its zero-based word position is
/// a multiple of the stride.
pub proof fn lemma_transform_stride(
    text: Seq<char>,
    i: int,
    frequency: int,
    num: int,
    den: int,
    kind: OutputType,
)
    requires
        0 <= i < word_spans(text).len(),
        frequency > 0,
    ensures
        ({
            let spans = word_spans(text);
            let sel = has_word_char(spans[i]) && count_words(spans.take(i)) % frequency == 0;
            transform_spec(text, frequency, num, den, kind) == render_spans(
                spans.take(i),
                0,
                frequency,
                num,
                den,
                kind,
            ) + (if sel {
                render_word(spans[i], num, den, kind)
            } else {
                spans[i]
            }) + render_spans(
                spans.skip(i + 1),
                count_words(spans.take(i + 1)),
                frequency,
                num,
                den,
                kind,
            )
        }),
{
    lemma_stride_selection(word_spans(text), i, frequency, num, den, kind);
}

/// Law: non-word spans are never marked, read on the transform of a text.
pub proof fn lemma_transform_non_word_unchanged(
    text: Seq<char>,
    i: int,
    frequency: int,
    num: int,
    den: int,
    kind: OutputType,
)
    requires
        0 <= i < word_spans(text).len(),
        frequency > 0,
        !has_word_char(word_spans(text)[i]),
    ensures
        ({
            let spans = word_spans(text);
            transform_spec(text, frequency, num, den, kind) == render_spans(
                spans.take(i),
                0,
                frequency,
                num,
                den,
                kind,
            ) + spans[i] + render_spans(
                spans.skip(i + 1),
                count_words(spans.take(i)),
                frequency,
                num,
                den,
                kind,
            )
        }),
{
    lemma_non_word_span_unchanged(word_spans(text), i, frequency, num, den, kind);
}

} // verus!
