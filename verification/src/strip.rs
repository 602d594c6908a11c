//! Marker stripping, and the round-trip law: removing the markers from the
//! transform's output restores the input.

use vstd::prelude::*;

use crate::model::bold_count;
use crate::model::concat_all;
use crate::model::count_words;
use crate::model::lemma_concat_all_split;
use crate::model::render_spans;
use crate::model::render_word;
use crate::model::selected_at;
use crate::output::OutputType;
use crate::segment::graphemes_of;
use crate::segment::has_word_char;

verus! {

/// The characters of `s` with every occurrence of `marker` removed: the scan
/// runs left to right, removes each match whole, and never rescans what it
/// has already passed.
pub open spec fn strip(s: Seq<char>, marker: Seq<char>) -> Seq<char>
    decreases s.len(),
{
    if marker.len() == 0 || s.len() < marker.len() {
        s
    } else if s.take(marker.len() as int) == marker {
        strip(s.skip(marker.len() as int), marker)
    } else {
        seq![s[0]] + strip(s.drop_first(), marker)
    }
}

/// Whether the character `c` occurs in `s`.
pub open spec fn has_char(s: Seq<char>, c: char) -> bool {
    exists|i: int| 0 <= i < s.len() && s[i] == c
}

/// The character that both markers of a style begin with.
pub open spec fn marker_char(kind: OutputType) -> char {
    match kind {
        OutputType::HTML => '<',
        OutputType::Markdown => '*',
    }
}

/// Whether the text cannot interfere with the style's markers.  For rich
/// text: no `<` immediately followed by `b` or `/`, so that no open or close
/// marker, whole or clipped at a span boundary, stands in the text.  For
/// lightweight markup: no `*` at all, since a star of the text abutting an
/// inserted `**` would shift which stars a removal pass pairs up.
pub open spec fn marker_safe(kind: OutputType, s: Seq<char>) -> bool {
    match kind {
        OutputType::HTML => forall|i: int|
            #![trigger s[i]]
            0 <= i && i + 1 < s.len() ==> !(s[i] == '<' && (s[i + 1] == 'b' || s[i + 1]
                == '/')),
        OutputType::Markdown => !has_char(s, '*'),
    }
}

/// A character occurs in a concatenation iff it occurs in one of the parts.
pub proof fn lemma_has_char_concat(a: Seq<char>, b: Seq<char>, c: char)
    ensures
        has_char(a + b, c) <==> (has_char(a, c) || has_char(b, c)),
{
    if has_char(a, c) {
        let i = choose|i: int| 0 <= i < a.len() && a[i] == c;
        assert((a + b)[i] == c);
    }
    if has_char(b, c) {
        let i = choose|i: int| 0 <= i < b.len() && b[i] == c;
        assert((a + b)[a.len() + i] == c);
    }
    if has_char(a + b, c) {
        let i = choose|i: int| 0 <= i < (a + b).len() && (a + b)[i] == c;
        if i < a.len() {
            assert(a[i] == c);
        } else {
            assert(b[i - a.len()] == c);
        }
    }
}

/// Stripping walks unchanged over a prefix free of the marker's first
/// character.
pub proof fn lemma_strip_clean_prefix(x: Seq<char>, y: Seq<char>, marker: Seq<char>)
    requires
        marker.len() > 0,
        !has_char(x, marker[0]),
    ensures
        strip(x + y, marker) == x + strip(y, marker),
    decreases x.len(),
{
    if x.len() == 0 {
        assert(x + y =~= y);
        assert(x + strip(y, marker) =~= strip(y, marker));
    } else {
        let s = x + y;
        assert(s[0] == x[0]);
        assert(x[0] != marker[0]);
        if s.len() < marker.len() {
            assert(y.len() < marker.len());
            assert(strip(y, marker) == y);
        } else {
            assert(s.take(marker.len() as int) != marker) by {
                assert(s.take(marker.len() as int)[0] == s[0]);
            }
            let x1 = x.drop_first();
            assert(!has_char(x1, marker[0])) by {
                if has_char(x1, marker[0]) {
                    let i = choose|i: int| 0 <= i < x1.len() && x1[i] == marker[0];
                    assert(x[i + 1] == marker[0]);
                }
            }
            lemma_strip_clean_prefix(x1, y, marker);
            assert(s.drop_first() =~= x1 + y);
            assert(seq![x[0]] + (x1 + strip(y, marker)) =~= x + strip(y, marker));
        }
    }
}

/// Stripping walks unchanged over a prefix when no window of marker length
/// beginning inside the prefix matches the marker.
pub proof fn lemma_strip_prefix_no_match(x: Seq<char>, y: Seq<char>, marker: Seq<char>)
    requires
        marker.len() > 0,
        forall|i: int|
            #![trigger (x + y).subrange(i, i + marker.len() as int)]
            0 <= i < x.len() && i + marker.len() <= x.len() + y.len() ==> (x + y).subrange(
                i,
                i + marker.len() as int,
            ) != marker,
    ensures
        strip(x + y, marker) == x + strip(y, marker),
    decreases x.len(),
{
    if x.len() == 0 {
        assert(x + y =~= y);
        assert(x + strip(y, marker) =~= strip(y, marker));
    } else {
        let s = x + y;
        if s.len() < marker.len() {
            assert(y.len() < marker.len());
            assert(strip(y, marker) == y);
        } else if s.take(marker.len() as int) == marker {
            assert((x + y).subrange(0, 0 + marker.len() as int) != marker);
            assert(s.subrange(0, 0 + marker.len() as int) =~= s.take(marker.len() as int));
            assert(false);
        } else {
            let x1 = x.drop_first();
            assert(s.drop_first() =~= x1 + y);
            assert forall|i: int|
                #![trigger (x1 + y).subrange(i, i + marker.len() as int)]
                0 <= i < x1.len() && i + marker.len() <= x1.len() + y.len() implies (x1
                + y).subrange(i, i + marker.len() as int) != marker by {
                assert((x1 + y).subrange(i, i + marker.len() as int) =~= s.subrange(
                    i + 1,
                    i + 1 + marker.len() as int,
                ));
            };
            lemma_strip_prefix_no_match(x1, y, marker);
            assert(seq![s[0]] + (x1 + strip(y, marker)) =~= x + strip(y, marker));
        }
    }
}

/// Stripping removes a marker standing at the front.
pub proof fn lemma_strip_marker_front(y: Seq<char>, marker: Seq<char>)
    requires
        marker.len() > 0,
    ensures
        strip(marker + y, marker) == strip(y, marker),
{
    let s = marker + y;
    assert(s.take(marker.len() as int) =~= marker);
    assert(s.skip(marker.len() as int) =~= y);
}

/// Stripping the rich-text open marker walks unchanged over a close marker:
/// the two only share their first character.
pub proof fn lemma_strip_open_over_close(y: Seq<char>)
    ensures
        strip(OutputType::HTML.close_marker() + y, OutputType::HTML.open_marker())
            == OutputType::HTML.close_marker() + strip(y, OutputType::HTML.open_marker()),
{
    let om = OutputType::HTML.open_marker();
    let cm = OutputType::HTML.close_marker();
    let s = cm + y;
    assert(s.len() >= om.len());
    assert(s.take(om.len() as int) != om) by {
        assert(s.take(om.len() as int)[1] == '/');
        assert(om[1] == 'b');
    }
    let tail = seq!['/', 'b', '>'];
    assert(!has_char(tail, om[0]));
    lemma_strip_clean_prefix(tail, y, om);
    assert(s.drop_first() =~= tail + y);
    assert(seq![s[0]] + (tail + strip(y, om)) =~= cm + strip(y, om));
}

/// Stripping a rich-text marker walks unchanged over a piece of text that
/// holds no clipped marker, provided what follows begins with `<` (a marker)
/// or continues the text without forming a clipped marker at the junction.
proof fn lemma_strip_over_text_html(x: Seq<char>, y: Seq<char>, marker: Seq<char>)
    requires
        marker == OutputType::HTML.open_marker() || marker
            == OutputType::HTML.close_marker(),
        forall|i: int|
            #![trigger x[i]]
            0 <= i && i + 1 < x.len() ==> !(x[i] == '<' && (x[i + 1] == 'b' || x[i + 1]
                == '/')),
        y.len() == 0 || y[0] == '<' || x.len() == 0 || !(x[x.len() - 1] == '<' && (y[0]
            == 'b' || y[0] == '/')),
    ensures
        strip(x + y, marker) == x + strip(y, marker),
{
    assert forall|i: int|
        #![trigger (x + y).subrange(i, i + marker.len() as int)]
        0 <= i < x.len() && i + marker.len() <= x.len() + y.len() implies (x + y).subrange(
        i,
        i + marker.len() as int,
    ) != marker by {
        if (x + y).subrange(i, i + marker.len() as int) == marker {
            assert((x + y).subrange(i, i + marker.len() as int)[0] == (x + y)[i]);
            assert((x + y).subrange(i, i + marker.len() as int)[1] == (x + y)[i + 1]);
            assert(marker[0] == '<');
            assert(marker[1] == 'b' || marker[1] == '/');
            assert(x[i] == '<');
            if i + 1 < x.len() {
                assert(x[i + 1] == marker[1]);
            } else {
                assert((x + y)[i + 1] == y[0]);
            }
            assert(false);
        }
    };
    lemma_strip_prefix_no_match(x, y, marker);
}

/// The bold count of a fraction in [0, 1] never exceeds the word length.
pub proof fn lemma_bold_count_le(word_len: int, num: int, den: int)
    requires
        0 <= word_len,
        0 < den,
        0 <= num <= den,
    ensures
        bold_count(word_len, num, den) <= word_len,
        0 <= bold_count(word_len, num, den),
{
    assert((word_len * num + den - 1) / den <= word_len && 0 <= (word_len * num + den - 1)
        / den) by (nonlinear_arith)
        requires
            0 <= word_len,
            0 < den,
            0 <= num <= den,
    ;
}

/// The rendering of a span sequence, when not empty, begins either with the
/// marker character of the style or with the first character of the spans'
/// own text.
proof fn lemma_render_first_char(
    spans: Seq<Seq<char>>,
    counter: int,
    frequency: int,
    num: int,
    den: int,
    kind: OutputType,
)
    requires
        frequency > 0,
        0 < den,
        0 <= num <= den,
    ensures
        ({
            let r = render_spans(spans, counter, frequency, num, den, kind);
            r.len() == 0 || r[0] == marker_char(kind) || (concat_all(spans).len() > 0 && r[0]
                == concat_all(spans)[0])
        }),
    decreases spans.len(),
{
    if spans.len() == 0 {
    } else {
        let span = spans.first();
        let rest = spans.drop_first();
        let word = has_word_char(span);
        let sel = word && counter % frequency == 0;
        let counter1: int = if word {
            counter + 1
        } else {
            counter
        };
        let gs = graphemes_of(span);
        let k = bold_count(gs.len() as int, num, den);
        let tail = render_spans(rest, counter1, frequency, num, den, kind);
        let r = render_spans(spans, counter, frequency, num, den, kind);
        if sel && k > 0 {
            let om = kind.open_marker();
            assert(render_word(span, num, den, kind)[0] == om[0]);
            assert(r[0] == om[0]);
            assert(om[0] == marker_char(kind));
        } else {
            assert(r == span + tail);
            if span.len() > 0 {
                assert(r[0] == span[0]);
                assert(concat_all(spans)[0] == span[0]);
            } else {
                lemma_render_first_char(rest, counter1, frequency, num, den, kind);
                assert(r =~= tail);
                assert(concat_all(spans) =~= concat_all(rest));
            }
        }
    }
}

/// Stripping both markers of the style from a rendering restores the
/// concatenation of the spans, provided that concatenation is marker-safe
/// and each selected span is partitioned by its grapheme clusters (which the
/// segmentation guarantees).  For rich text the stripped rendering moreover
/// begins, like the rendering itself, with `<` or with the text's own first
/// character.
#[verifier::rlimit(100)]
pub proof fn lemma_strip_render(
    spans: Seq<Seq<char>>,
    counter: int,
    frequency: int,
    num: int,
    den: int,
    kind: OutputType,
)
    requires
        frequency > 0,
        0 < den,
        0 <= num <= den,
        marker_safe(kind, concat_all(spans)),
        forall|j: int|
            0 <= j < spans.len() && selected_at(spans, j, counter, frequency)
                ==> concat_all(graphemes_of(spans[j])) == spans[j],
    ensures
        strip(
            strip(render_spans(spans, counter, frequency, num, den, kind), kind.open_marker()),
            kind.close_marker(),
        ) == concat_all(spans),
        kind == OutputType::HTML ==> ({
            let s1 = strip(
                render_spans(spans, counter, frequency, num, den, kind),
                kind.open_marker(),
            );
            s1.len() == 0 || s1[0] == '<' || (concat_all(spans).len() > 0 && s1[0]
                == concat_all(spans)[0])
        }),
    decreases spans.len(),
{
    let om = kind.open_marker();
    let cm = kind.close_marker();
    let cs = concat_all(spans);
    if spans.len() == 0 {
    } else {
        let span = spans.first();
        let rest = spans.drop_first();
        let cr = concat_all(rest);
        assert(cs == span + cr);
        let word = has_word_char(span);
        let sel = word && counter % frequency == 0;
        let counter1: int = if word {
            counter + 1
        } else {
            counter
        };
        let rest_out = render_spans(rest, counter1, frequency, num, den, kind);
        assert(spans.take(0) =~= Seq::<Seq<char>>::empty());
        assert(selected_at(spans, 0, counter, frequency) == sel);
        assert forall|j: int|
            0 <= j < rest.len() && selected_at(rest, j, counter1, frequency) implies concat_all(
            graphemes_of(rest[j]),
        ) == rest[j] by {
            assert(spans.take(j + 1).drop_first() =~= rest.take(j));
            assert(spans.take(j + 1).first() == span);
            assert(count_words(spans.take(j + 1)) == (if word {
                1int
            } else {
                0int
            }) + count_words(rest.take(j)));
            assert(rest[j] == spans[j + 1]);
            assert(selected_at(spans, j + 1, counter, frequency));
        };
        assert(forall|i: int| 0 <= i < span.len() ==> span[i] == cs[i]);
        assert(forall|i: int| 0 <= i < cr.len() ==> cr[i] == cs[span.len() + i]);
        match kind {
            OutputType::HTML => {
                assert forall|i: int|
                    #![trigger cr[i]]
                    0 <= i && i + 1 < cr.len() implies !(cr[i] == '<' && (cr[i + 1] == 'b'
                    || cr[i + 1] == '/')) by {
                    assert(cs[span.len() + i] == cr[i]);
                    assert(cs[span.len() + i + 1] == cr[i + 1]);
                };
            },
            OutputType::Markdown => {
                lemma_has_char_concat(span, cr, '*');
            },
        }
        lemma_strip_render(rest, counter1, frequency, num, den, kind);
        lemma_render_first_char(rest, counter1, frequency, num, den, kind);
        let s1r = strip(rest_out, om);
        let gs = graphemes_of(span);
        let k = bold_count(gs.len() as int, num, den);
        let r = render_spans(spans, counter, frequency, num, den, kind);
        if sel && k > 0 {
            lemma_bold_count_le(gs.len() as int, num, den);
            lemma_concat_all_split(gs, k);
            let a = concat_all(gs.take(k));
            let b = concat_all(gs.skip(k));
            assert(a + b == span);
            assert(forall|i: int| 0 <= i < a.len() ==> a[i] == span[i]);
            assert(forall|i: int| 0 <= i < b.len() ==> b[i] == span[a.len() + i]);
            assert(r == (om + a + cm + b) + rest_out);
            assert(r =~= om + (a + (cm + (b + rest_out))));
            match kind {
                OutputType::HTML => {
                    assert(forall|i: int|
                        #![trigger a[i]]
                        0 <= i && i + 1 < a.len() ==> !(a[i] == '<' && (a[i + 1] == 'b'
                            || a[i + 1] == '/')));
                    assert(forall|i: int|
                        #![trigger b[i]]
                        0 <= i && i + 1 < b.len() ==> !(b[i] == '<' && (b[i + 1] == 'b'
                            || b[i + 1] == '/')));
                    assert(b.len() > 0 ==> b[b.len() - 1] == cs[span.len() - 1]);
                    // First pass: drop the open marker, walk over everything else.
                    lemma_strip_marker_front(a + (cm + (b + rest_out)), om);
                    assert((cm + (b + rest_out))[0] == '<');
                    lemma_strip_over_text_html(a, cm + (b + rest_out), om);
                    lemma_strip_open_over_close(b + rest_out);
                    if rest_out.len() > 0 && rest_out[0] != '<' {
                        assert(rest_out[0] == cr[0]);
                        assert(b.len() > 0 ==> !(b[b.len() - 1] == '<' && (rest_out[0]
                            == 'b' || rest_out[0] == '/'))) by {
                            if b.len() > 0 {
                                assert(cs[span.len() - 1] == b[b.len() - 1]);
                                assert(cs[span.len() as int] == cr[0]);
                            }
                        }
                    }
                    lemma_strip_over_text_html(b, rest_out, om);
                    assert(strip(r, om) == a + (cm + (b + s1r)));
                    let s1 = a + (cm + (b + s1r));
                    // Second pass: drop the close marker.
                    assert((cm + (b + s1r))[0] == '<');
                    lemma_strip_over_text_html(a, cm + (b + s1r), cm);
                    lemma_strip_marker_front(b + s1r, cm);
                    if s1r.len() > 0 && s1r[0] != '<' {
                        assert(s1r[0] == cr[0]);
                        assert(b.len() > 0 ==> !(b[b.len() - 1] == '<' && (s1r[0] == 'b'
                            || s1r[0] == '/'))) by {
                            if b.len() > 0 {
                                assert(cs[span.len() - 1] == b[b.len() - 1]);
                                assert(cs[span.len() as int] == cr[0]);
                            }
                        }
                    }
                    lemma_strip_over_text_html(b, s1r, cm);
                    assert(strip(s1, cm) == a + (b + strip(s1r, cm)));
                    assert(a + (b + cr) =~= span + cr);
                    // The stripped rendering still leads with `<` or the text.
                    if a.len() > 0 {
                        assert(s1[0] == a[0]);
                        assert(a[0] == cs[0]);
                    } else {
                        assert(s1 =~= cm + (b + s1r));
                        assert(s1[0] == '<');
                    }
                },
                OutputType::Markdown => {
                    lemma_has_char_concat(a, b, '*');
                    assert(om == cm);
                    lemma_strip_marker_front(a + (om + (b + rest_out)), om);
                    lemma_strip_clean_prefix(a, om + (b + rest_out), om);
                    lemma_strip_marker_front(b + rest_out, om);
                    lemma_strip_clean_prefix(b, rest_out, om);
                    assert(strip(r, om) == a + (b + s1r));
                    assert(a + (b + s1r) =~= (a + b) + s1r);
                    lemma_strip_clean_prefix(a + b, s1r, cm);
                    assert(span + strip(s1r, cm) =~= span + cr);
                },
            }
        } else {
            assert(r == span + rest_out);
            match kind {
                OutputType::HTML => {
                    assert(forall|i: int|
                        #![trigger span[i]]
                        0 <= i && i + 1 < span.len() ==> !(span[i] == '<' && (span[i + 1]
                            == 'b' || span[i + 1] == '/')));
                    if rest_out.len() > 0 && rest_out[0] != '<' {
                        assert(rest_out[0] == cr[0]);
                        assert(span.len() > 0 ==> !(span[span.len() - 1] == '<' && (
                        rest_out[0] == 'b' || rest_out[0] == '/'))) by {
                            if span.len() > 0 {
                                assert(cs[span.len() - 1] == span[span.len() - 1]);
                                assert(cs[span.len() as int] == cr[0]);
                            }
                        }
                    }
                    lemma_strip_over_text_html(span, rest_out, om);
                    assert(strip(r, om) == span + s1r);
                    let s1 = span + s1r;
                    if s1r.len() > 0 && s1r[0] != '<' {
                        assert(s1r[0] == cr[0]);
                        assert(span.len() > 0 ==> !(span[span.len() - 1] == '<' && (s1r[0]
                            == 'b' || s1r[0] == '/'))) by {
                            if span.len() > 0 {
                                assert(cs[span.len() - 1] == span[span.len() - 1]);
                                assert(cs[span.len() as int] == cr[0]);
                            }
                        }
                    }
                    lemma_strip_over_text_html(span, s1r, cm);
                    // The stripped rendering still leads with `<` or the text.
                    if span.len() > 0 {
                        assert(s1[0] == span[0]);
                        assert(span[0] == cs[0]);
                    } else {
                        assert(s1 =~= s1r);
                        assert(cs =~= cr);
                    }
                },
                OutputType::Markdown => {
                    assert(!has_char(span, om[0]));
                    lemma_strip_clean_prefix(span, rest_out, om);
                    assert(!has_char(span, cm[0]));
                    lemma_strip_clean_prefix(span, s1r, cm);
                },
            }
        }
    }
}

/// Law: marker-stripping round trip.  On marker-safe input — for rich text,
/// no `<` directly followed by `b` or `/`; for lightweight markup, no `*` —
/// removing every occurrence of the open marker and then of the close marker
/// from the rendering reproduces the concatenated spans, that is, the
/// original text, exactly.  The grapheme hypothesis restates, for the
/// selected spans, the partition fact the segmentation guarantees.
pub proof fn lemma_marker_strip_round_trip(
    spans: Seq<Seq<char>>,
    frequency: int,
    num: int,
    den: int,
    kind: OutputType,
)
    requires
        frequency > 0,
        0 < den,
        0 <= num <= den,
        marker_safe(kind, concat_all(spans)),
        forall|j: int|
            0 <= j < spans.len() && selected_at(spans, j, 0, frequency) ==> concat_all(
                graphemes_of(spans[j]),
            ) == spans[j],
    ensures
        strip(
            strip(render_spans(spans, 0, frequency, num, den, kind), kind.open_marker()),
            kind.close_marker(),
        ) == concat_all(spans),
{
    lemma_strip_render(spans, 0, frequency, num, den, kind);
}

} // verus!
