//! The mathematical model of the transform.
//!
//! `transform_spec` says, over sequences of characters, exactly what string
//! the transform returns: the word spans of the text are walked in order, a
//! running count of word spans selects every `frequency`-th one, and a
//! selected word has its leading `ceil(word_len * fraction)` grapheme
//! clusters wrapped in the style's markers.

use vstd::prelude::*;

use crate::output::OutputType;
use crate::segment::graphemes_of;
use crate::segment::has_word_char;
use crate::segment::word_spans;

verus! {

/// The concatenation, in order, of a sequence of character sequences.
pub open spec fn concat_all(parts: Seq<Seq<char>>) -> Seq<char>
    decreases parts.len(),
{
    if parts.len() == 0 {
        Seq::empty()
    } else {
        parts.first() + concat_all(parts.drop_first())
    }
}

/// How many leading grapheme clusters of a word of `word_len` clusters are
/// bolded: the ceiling of `word_len * num / den`, the fraction given as the
/// rational `num / den`.
pub open spec fn bold_count(word_len: int, num: int, den: int) -> int
    recommends
        den > 0,
        0 <= num,
        0 <= word_len,
{
    (word_len * num + den - 1) / den
}

/// How a selected word span is rendered: its leading `bold_count` grapheme
/// clusters are wrapped in the style's open and close markers; if that count
/// is zero the word is left unchanged.
pub open spec fn render_word(word: Seq<char>, num: int, den: int, kind: OutputType) -> Seq<char>
    recommends
        den > 0,
        0 <= num <= den,
{
    let gs = graphemes_of(word);
    let k = bold_count(gs.len() as int, num, den);
    if k <= 0 {
        word
    } else {
        kind.open_marker() + concat_all(gs.take(k)) + kind.close_marker() + concat_all(gs.skip(k))
    }
}

/// How a whole sequence of spans is rendered, walking them in order.
/// `counter` is the number of word spans already visited; a word span is
/// selected iff that count is a multiple of `frequency` when it is visited,
/// and only word spans advance the count.  Non-word spans, unselected word
/// spans, and selected words with a zero bold count pass through unchanged.
pub open spec fn render_spans(
    spans: Seq<Seq<char>>,
    counter: int,
    frequency: int,
    num: int,
    den: int,
    kind: OutputType,
) -> Seq<char>
    recommends
        frequency > 0,
        den > 0,
        0 <= num <= den,
    decreases spans.len(),
{
    if spans.len() == 0 {
        Seq::empty()
    } else {
        let span = spans.first();
        let word = has_word_char(span);
        let head = if word && counter % frequency == 0 {
            render_word(span, num, den, kind)
        } else {
            span
        };
        head + render_spans(
            spans.drop_first(),
            if word {
                counter + 1
            } else {
                counter
            },
            frequency,
            num,
            den,
            kind,
        )
    }
}

/// How many of the spans are word spans.
pub open spec fn count_words(spans: Seq<Seq<char>>) -> int
    decreases spans.len(),
{
    if spans.len() == 0 {
        0int
    } else {
        (if has_word_char(spans.first()) {
            1int
        } else {
            0int
        }) + count_words(spans.drop_first())
    }
}

/// Whether the word span at position `j` of `spans` is selected for bolding,
/// when the walk starts with `counter` word spans already seen.
pub open spec fn selected_at(
    spans: Seq<Seq<char>>,
    j: int,
    counter: int,
    frequency: int,
) -> bool {
    has_word_char(spans[j]) && (counter + count_words(spans.take(j))) % frequency == 0
}

/// The whole transform on a text whose bold fraction `num / den` lies in
/// [0, 1] and whose stride `frequency` is positive.
pub open spec fn transform_spec(
    text: Seq<char>,
    frequency: int,
    num: int,
    den: int,
    kind: OutputType,
) -> Seq<char>
    recommends
        frequency > 0,
        den > 0,
        0 <= num <= den,
{
    render_spans(word_spans(text), 0, frequency, num, den, kind)
}

/// Appending one more part to a prefix concatenates its characters at the end.
pub proof fn lemma_concat_all_snoc(parts: Seq<Seq<char>>, j: int)
    requires
        0 <= j < parts.len(),
    ensures
        concat_all(parts.take(j + 1)) == concat_all(parts.take(j)) + parts[j],
    decreases j,
{
    if j == 0 {
        assert(parts.take(1).drop_first() =~= Seq::<Seq<char>>::empty());
        assert(concat_all(Seq::<Seq<char>>::empty()) == Seq::<char>::empty());
        assert(parts.take(1).first() == parts[0]);
        assert(concat_all(parts.take(1)) == parts[0] + Seq::<char>::empty());
        assert(parts[0] + Seq::<char>::empty() =~= parts[0]);
        assert(parts.take(0) =~= Seq::<Seq<char>>::empty());
        assert(Seq::<char>::empty() + parts[0] =~= parts[0]);
    } else {
        let rest = parts.drop_first();
        lemma_concat_all_snoc(rest, j - 1);
        assert(parts.take(j + 1).drop_first() =~= rest.take(j));
        assert(parts.take(j).drop_first() =~= rest.take(j - 1));
        assert(parts.take(j + 1).first() == parts.first());
        assert(parts.take(j).first() == parts.first());
        assert(rest[j - 1] == parts[j]);
        assert((parts.first() + concat_all(rest.take(j - 1))) + parts[j] =~= parts.first()
            + (concat_all(rest.take(j - 1)) + parts[j]));
    }
}

/// Splitting a sequence of parts anywhere splits its concatenation there.
pub proof fn lemma_concat_all_split(parts: Seq<Seq<char>>, k: int)
    requires
        0 <= k <= parts.len(),
    ensures
        concat_all(parts.take(k)) + concat_all(parts.skip(k)) == concat_all(parts),
    decreases k,
{
    if k == 0 {
        assert(parts.take(0) =~= Seq::<Seq<char>>::empty());
        assert(parts.skip(0) =~= parts);
        assert(concat_all(parts.take(0)) + concat_all(parts) =~= concat_all(parts));
    } else {
        lemma_concat_all_split(parts, k - 1);
        lemma_concat_all_snoc(parts, k - 1);
        let a = concat_all(parts.take(k - 1));
        let b = parts[k - 1];
        let c = concat_all(parts.skip(k));
        assert(parts.skip(k - 1).first() == b);
        assert(parts.skip(k - 1).drop_first() =~= parts.skip(k));
        assert(concat_all(parts.skip(k - 1)) == b + c);
        assert((a + b) + c =~= a + (b + c));
    }
}

/// At a zero bold fraction every word is rendered unchanged, so the rendering
/// of any span sequence is just its concatenation.
pub proof fn lemma_render_spans_zero_num(
    spans: Seq<Seq<char>>,
    counter: int,
    frequency: int,
    den: int,
    kind: OutputType,
)
    requires
        frequency > 0,
        den > 0,
    ensures
        render_spans(spans, counter, frequency, 0, den, kind) == concat_all(spans),
    decreases spans.len(),
{
    if spans.len() == 0 {
    } else {
        let span = spans.first();
        assert(bold_count(graphemes_of(span).len() as int, 0, den) == (den - 1) / den);
        assert((den - 1) / den == 0) by (nonlinear_arith)
            requires
                den > 0,
        ;
        let word = has_word_char(span);
        lemma_render_spans_zero_num(
            spans.drop_first(),
            if word {
                counter + 1
            } else {
                counter
            },
            frequency,
            den,
            kind,
        );
    }
}

} // verus!
