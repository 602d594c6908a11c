//! The executable transform.

use vstd::prelude::*;
use vstd::string::StringExecFns;
use vstd::utf8::decode_utf8;
use vstd::utf8::valid_utf8;

use crate::laws::lemma_count_words_snoc;
use crate::model::bold_count;
use crate::model::concat_all;
use crate::model::count_words;
use crate::model::lemma_concat_all_snoc;
use crate::model::lemma_render_spans_zero_num;
use crate::model::render_spans;
use crate::model::selected_at;
use crate::model::render_word;
use crate::model::transform_spec;
use crate::strip::lemma_marker_strip_round_trip;
use crate::strip::marker_safe;
use crate::strip::strip;
use crate::output::NotBrError;
use crate::output::OutputType;
use crate::segment::graphemes_of;
use crate::segment::graphemes_vec;
use crate::segment::has_word;
use crate::segment::split_word_bounds_vec;

verus! {

/// Whether the rational `num / den` is a well-formed bold fraction, that is,
/// lies in the closed interval [0, 1].
pub open spec fn fraction_in_range(num: int, den: int) -> bool {
    0 < den && 0 <= num && num <= den
}

/// Appends to `acc` the rendering of the selected word span `span`: its
/// leading `ceil(graphemes * num / den)` grapheme clusters wrapped in the
/// markers of `kind`, or the span unchanged when that count is zero.
fn render_bold_into(acc: &mut String, span: &str, num: u64, den: u64, kind: OutputType)
    requires
        0 < den,
        num <= den,
    ensures
        final(acc)@ == old(acc)@ + render_word(span@, num as int, den as int, kind),
        concat_all(graphemes_of(span@)) == span@,
{
    let gs = graphemes_vec(span);
    let ghost gs_m = gs@.map_values(|p: String| p@);
    let word_len = gs.len();
    proof {
        assert(gs_m.len() == gs@.len());
    }
    proof {
        assert((word_len as int) * (num as int) <= 0xFFFF_FFFF_FFFF_FFFF
            * 0xFFFF_FFFF_FFFF_FFFF) by (nonlinear_arith)
            requires
                0 <= word_len as int <= 0xFFFF_FFFF_FFFF_FFFF,
                0 <= num as int <= 0xFFFF_FFFF_FFFF_FFFF,
        ;
    }
    let prod: u128 = (word_len as u128) * (num as u128);
    let k128: u128 = (prod + (den as u128) - 1) / (den as u128);
    proof {
        assert(k128 == bold_count(word_len as int, num as int, den as int));
        assert(k128 <= word_len) by (nonlinear_arith)
            requires
                0 < den,
                num <= den,
                prod == (word_len as u128) * (num as u128),
                k128 == (prod + den - 1) / (den as int),
                word_len <= 0xFFFF_FFFF_FFFF_FFFFu128,
                num <= 0xFFFF_FFFF_FFFF_FFFFu128,
        ;
    }
    let k: usize = k128 as usize;
    if k == 0 {
        acc.append(span);
    } else {
        acc.append(kind.get_open());
        let ghost acc_open = acc@;
        let mut j: usize = 0;
        while j < k
            invariant
                j <= k,
                k <= word_len,
                word_len == gs.len(),
                gs_m == gs@.map_values(|p: String| p@),
                acc@ == acc_open + concat_all(gs_m.take(j as int)),
            decreases k - j,
        {
            proof {
                lemma_concat_all_snoc(gs_m, j as int);
                assert(gs_m[j as int] == gs@[j as int]@);
            }
            acc.append(gs[j].as_str());
            j += 1;
        }
        acc.append(kind.get_closing());
        let ghost acc_close = acc@;
        while j < word_len
            invariant
                k <= j <= word_len,
                word_len == gs.len(),
                gs_m == gs@.map_values(|p: String| p@),
                acc@ == acc_close + concat_all(gs_m.skip(k as int).take(j as int - k as int)),
            decreases word_len - j,
        {
            proof {
                lemma_concat_all_snoc(gs_m.skip(k as int), j as int - k as int);
                assert(gs_m.skip(k as int)[j as int - k as int] == gs_m[j as int]);
                assert(gs_m[j as int] == gs@[j as int]@);
            }
            acc.append(gs[j].as_str());
            j += 1;
        }
        proof {
            assert(gs_m.skip(k as int).take(word_len as int - k as int) =~= gs_m.skip(k as int));
            assert(final(acc)@ =~= old(acc)@ + render_word(span@, num as int, den as int, kind));
        }
    }
}

/// The core transform: renders a leading fraction of every `frequency`-th
/// word of `input` in bold, in the markers of `output_type`.
///
/// The bold fraction is given as the rational `bold_numerator /
/// bold_denominator`; it must lie in [0, 1], else the call fails with
/// `InvalidPercentage`.  A `frequency` of zero disables bolding entirely and
/// returns the input unchanged, bypassing that validation; so does a bold
/// fraction of zero (there is nothing to wrap).
pub fn process_text(
    input: &str,
    frequency: u64,
    bold_numerator: i64,
    bold_denominator: u64,
    output_type: OutputType,
) -> (r: Result<String, NotBrError>)
    ensures
        frequency == 0 ==> (r matches Ok(s) && s@ == input@),
        frequency > 0 && !fraction_in_range(bold_numerator as int, bold_denominator as int)
            ==> r == Err::<String, NotBrError>(NotBrError::InvalidPercentage),
        frequency > 0 && fraction_in_range(bold_numerator as int, bold_denominator as int) ==> (
        r matches Ok(s) && s@ == transform_spec(
            input@,
            frequency as int,
            bold_numerator as int,
            bold_denominator as int,
            output_type,
        )),
        frequency > 0 && fraction_in_range(bold_numerator as int, bold_denominator as int)
            && bold_numerator == 0 ==> (r matches Ok(s) && s@ == input@),
        frequency > 0 && fraction_in_range(bold_numerator as int, bold_denominator as int)
            && marker_safe(output_type, input@) ==> (r matches Ok(s) && strip(
            strip(s@, output_type.open_marker()),
            output_type.close_marker(),
        ) == input@),
{
    if frequency == 0 {
        return Ok(input.to_owned());
    }
    if !(bold_denominator > 0 && bold_numerator >= 0 && (bold_numerator as u64)
        <= bold_denominator) {
        return Err(NotBrError::InvalidPercentage);
    }
    let num: u64 = bold_numerator as u64;
    let den: u64 = bold_denominator;
    let spans = split_word_bounds_vec(input);
    let ghost spans_m = spans@.map_values(|p: String| p@);
    let ghost goal = render_spans(
        spans_m,
        0,
        frequency as int,
        num as int,
        den as int,
        output_type,
    );
    let mut acc = String::new();
    let mut counter: u64 = 0;
    let mut i: usize = 0;
    proof {
        assert(spans_m.skip(0) =~= spans_m);
        assert(Seq::<char>::empty() + goal =~= goal);
    }
    while i < spans.len()
        invariant
            0 < frequency,
            0 < den,
            num <= den,
            i <= spans.len(),
            counter as int <= i as int,
            counter as int == count_words(spans_m.take(i as int)),
            forall|j: int|
                0 <= j < i && selected_at(spans_m, j, 0, frequency as int) ==> concat_all(
                    graphemes_of(spans_m[j]),
                ) == spans_m[j],
            spans_m == spans@.map_values(|p: String| p@),
            goal == render_spans(
                spans_m,
                0,
                frequency as int,
                num as int,
                den as int,
                output_type,
            ),
            acc@ + render_spans(
                spans_m.skip(i as int),
                counter as int,
                frequency as int,
                num as int,
                den as int,
                output_type,
            ) == goal,
        decreases spans.len() - i,
    {
        proof {
            assert(spans_m.skip(i as int).first() == spans_m[i as int]);
            assert(spans_m.skip(i as int).drop_first() =~= spans_m.skip(i as int + 1));
            assert(spans_m[i as int] == spans@[i as int]@);
            lemma_count_words_snoc(spans_m, i as int);
        }
        let span = &spans[i];
        let word = has_word(span.as_str());
        let selected = word && counter % frequency == 0;
        proof {
            assert(selected == selected_at(spans_m, i as int, 0, frequency as int));
        }
        if selected {
            render_bold_into(&mut acc, span.as_str(), num, den, output_type);
        } else {
            acc.append(span.as_str());
        }
        proof {
            assert forall|j: int|
                0 <= j < i + 1 && selected_at(spans_m, j, 0, frequency as int) implies concat_all(
                graphemes_of(spans_m[j]),
            ) == spans_m[j] by {
                if j < i {
                } else {
                    assert(selected);
                }
            };
        }
        if word {
            counter += 1;
        }
        i += 1;
    }
    proof {
        assert(spans_m.skip(spans_m.len() as int) =~= Seq::<Seq<char>>::empty());
        assert(acc@ == transform_spec(
            input@,
            frequency as int,
            num as int,
            den as int,
            output_type,
        ));
        if num == 0 {
            lemma_render_spans_zero_num(
                spans_m,
                0,
                frequency as int,
                den as int,
                output_type,
            );
        }
        if marker_safe(output_type, input@) {
            lemma_marker_strip_round_trip(
                spans_m,
                frequency as int,
                num as int,
                den as int,
                output_type,
            );
        }
    }
    Ok(acc)
}

/// Relies on str::from_utf8: it returns Ok exactly on valid UTF-8 input, and
/// the returned slice's characters are the UTF-8 decoding of the bytes.
#[verifier::external_body]
fn utf8_to_str(bytes: &[u8]) -> (r: Option<&str>)
    ensures
        r is Some <==> valid_utf8(bytes@),
        r matches Some(s) ==> s@ == decode_utf8(bytes@),
{
    core::str::from_utf8(bytes).ok()
}

/// The transform on raw bytes: the input must be valid UTF-8, else the call
/// fails with `InvalidEncoding` before any segmentation; on valid text it
/// behaves as `process_text` does.
pub fn process_bytes(
    input: &[u8],
    frequency: u64,
    bold_numerator: i64,
    bold_denominator: u64,
    output_type: OutputType,
) -> (r: Result<String, NotBrError>)
    ensures
        !valid_utf8(input@) ==> r == Err::<String, NotBrError>(NotBrError::InvalidEncoding),
        valid_utf8(input@) && frequency == 0 ==> (r matches Ok(s) && s@ == decode_utf8(
            input@,
        )),
        valid_utf8(input@) && frequency > 0 && !fraction_in_range(
            bold_numerator as int,
            bold_denominator as int,
        ) ==> r == Err::<String, NotBrError>(NotBrError::InvalidPercentage),
        valid_utf8(input@) && frequency > 0 && fraction_in_range(
            bold_numerator as int,
            bold_denominator as int,
        ) ==> (r matches Ok(s) && s@ == transform_spec(
            decode_utf8(input@),
            frequency as int,
            bold_numerator as int,
            bold_denominator as int,
            output_type,
        )),
{
    match utf8_to_str(input) {
        Some(text) => process_text(
            text,
            frequency,
            bold_numerator,
            bold_denominator,
            output_type,
        ),
        None => Err(NotBrError::InvalidEncoding),
    }
}

/// Renders a leading fraction of every `frequency`-th word of `input` in
/// bold; see `process_text`, which does the work.
pub fn process(
    input: &str,
    frequency: u64,
    bold_numerator: i64,
    bold_denominator: u64,
    output_type: OutputType,
) -> (r: Result<String, NotBrError>)
    ensures
        frequency == 0 ==> (r matches Ok(s) && s@ == input@),
        frequency > 0 && !fraction_in_range(bold_numerator as int, bold_denominator as int)
            ==> r == Err::<String, NotBrError>(NotBrError::InvalidPercentage),
        frequency > 0 && fraction_in_range(bold_numerator as int, bold_denominator as int) ==> (
        r matches Ok(s) && s@ == transform_spec(
            input@,
            frequency as int,
            bold_numerator as int,
            bold_denominator as int,
            output_type,
        )),
        frequency > 0 && fraction_in_range(bold_numerator as int, bold_denominator as int)
            && marker_safe(output_type, input@) ==> (r matches Ok(s) && strip(
            strip(s@, output_type.open_marker()),
            output_type.close_marker(),
        ) == input@),
{
    process_text(input, frequency, bold_numerator, bold_denominator, output_type)
}

} // verus!
