use vstd::prelude::*;
use vstd::arithmetic::div_mod::lemma_fundamental_div_mod_converse;
use vstd::arithmetic::power2::{
    lemma2_to64, lemma2_to64_rest, lemma_pow2_adds, lemma_pow2_pos, lemma_pow2_strictly_increases,
    lemma_pow2_unfold, pow2,
};
use crate::error::{ErrorModel, OcrError};
use crate::float::double::Double;
use crate::float::laws::{
    law_numbers_of_the_format_are_exact, law_rounding_keeps_lower_bounds,
    law_rounding_keeps_upper_bounds,
};
use crate::float::model::{
    fraction, one, rounded, rounded_magnitude, unit_exponent, zero, Datum, Precision,
};
use crate::float::rounding::lemma_bit_length_unique;
use crate::geometry::{
    is_share, law_boxes_lie_within_the_image, normalized_bounding_box, normalized_box, BoxModel,
};
use crate::output::{
    lemma_push_line, line_models, lines_are_normalized, outcome_model, LineModel, OcrLine,
    OcrOutput, OutputModel,
};
use crate::task::OcrAccuracy;

verus! {

/// One reading of a piece of text.
pub struct Candidate {
    pub text: String,
    pub confidence: Double,
}

/// A piece of text that was found, with its readings, the best one first. The
/// box is given in fractions of the image, with the origin in the bottom left
/// corner.
pub struct Observation {
    pub candidates: Vec<Candidate>,
    pub x: Double,
    pub y: Double,
    pub width: Double,
    pub height: Double,
}

/// What a candidate stands for.
pub struct CandidateModel {
    pub text: Seq<char>,
    pub confidence: Datum,
}

/// What an observation stands for.
pub struct ObservationModel {
    pub candidates: Seq<CandidateModel>,
    pub x: Datum,
    pub y: Datum,
    pub width: Datum,
    pub height: Datum,
}

impl View for Candidate {
    type V = CandidateModel;

    open spec fn view(&self) -> CandidateModel {
        CandidateModel { text: self.text@, confidence: self.confidence@ }
    }
}

impl View for Observation {
    type V = ObservationModel;

    open spec fn view(&self) -> ObservationModel {
        ObservationModel {
            candidates: Seq::new(self.candidates@.len(), |i: int| self.candidates@[i]@),
            x: self.x@,
            y: self.y@,
            width: self.width@,
            height: self.height@,
        }
    }
}

/// What a list of observations stands for.
pub open spec fn observation_models(observations: Seq<Observation>) -> Seq<ObservationModel> {
    Seq::new(observations.len(), |i: int| observations[i]@)
}

/// The first candidate that has a confidence of zero or more.
pub open spec fn chosen(candidates: Seq<CandidateModel>) -> Option<CandidateModel>
    decreases candidates.len(),
{
    if candidates.len() == 0 {
        None
    } else if zero().at_most(candidates[0].confidence) {
        Some(candidates[0])
    } else {
        chosen(candidates.drop_first())
    }
}

/// An observation together with the reading that was chosen.
pub struct Reading {
    pub observation: ObservationModel,
    pub candidate: CandidateModel,
}

/// The observations that have a usable candidate, in their order.
pub open spec fn readings(observations: Seq<ObservationModel>) -> Seq<Reading>
    decreases observations.len(),
{
    if observations.len() == 0 {
        Seq::empty()
    } else {
        let earlier = readings(observations.drop_last());
        let observation = observations.last();
        match chosen(observation.candidates) {
            Some(candidate) => earlier.push(Reading { observation, candidate }),
            None => earlier,
        }
    }
}

/// What separates a piece of text from the text before it: a line break where
/// it lies in the lowest tenth of the image, else a space.
pub open spec fn separator(observation: ObservationModel) -> Seq<char> {
    if observation.y.less(fraction(Precision::Double, 1, 10)) {
        "\n"@
    } else {
        " "@
    }
}

/// The texts of the readings, one after another. Empty texts leave no trace.
pub open spec fn page_text(readings: Seq<Reading>) -> Seq<char>
    decreases readings.len(),
{
    if readings.len() == 0 {
        Seq::empty()
    } else {
        let earlier = page_text(readings.drop_last());
        let last = readings.last();
        if last.candidate.text.len() == 0 {
            earlier
        } else if earlier.len() == 0 {
            last.candidate.text
        } else {
            earlier + separator(last.observation) + last.candidate.text
        }
    }
}

/// The box of an observation, with the origin moved to the top left corner.
pub open spec fn observation_box(o: ObservationModel) -> Option<BoxModel> {
    let p = Precision::Double;
    let top = one().minus(o.y, p).minus(o.height, p);
    normalized_box(o.x, top, o.x.plus(o.width, p), top.plus(o.height, p))
}

/// The lines of the readings that have both a text and a box.
pub open spec fn page_lines(readings: Seq<Reading>) -> Seq<LineModel>
    decreases readings.len(),
{
    if readings.len() == 0 {
        Seq::empty()
    } else {
        let earlier = page_lines(readings.drop_last());
        let last = readings.last();
        match observation_box(last.observation) {
            Some(bounding_box) => if last.candidate.text.len() == 0 {
                earlier
            } else {
                earlier.push(
                    LineModel {
                        text: last.candidate.text,
                        confidence: last.candidate.confidence,
                        bounding_box,
                    },
                )
            },
            None => earlier,
        }
    }
}

/// The sum of the confidences, in single precision.
pub open spec fn confidence_sum(readings: Seq<Reading>) -> Datum
    decreases readings.len(),
{
    if readings.len() == 0 {
        zero()
    } else {
        confidence_sum(readings.drop_last()).plus(
            readings.last().candidate.confidence,
            Precision::Single,
        )
    }
}

/// The average confidence, in single precision; zero where there is nothing to
/// average.
pub open spec fn average_confidence(readings: Seq<Reading>) -> Datum {
    if readings.len() == 0 {
        zero()
    } else {
        confidence_sum(readings).over(
            fraction(Precision::Single, readings.len(), 1),
            Precision::Single,
        )
    }
}

/// What a text request that ended as `performed` tells gives to its caller.
pub open spec fn legacy_model(
    performed: Result<Option<Seq<ObservationModel>>, Seq<char>>,
) -> Result<OutputModel, ErrorModel> {
    match performed {
        Err(description) => Err(ErrorModel::ErrorWithDesc(description)),
        Ok(None) => Err(ErrorModel::NoTextRecognized),
        Ok(Some(observations)) => if observations.len() == 0 {
            Err(ErrorModel::NoTextRecognized)
        } else {
            let found = readings(observations);
            Ok(
                OutputModel {
                    text: page_text(found),
                    confidence: average_confidence(found),
                    lines: page_lines(found),
                },
            )
        },
    }
}

/// What the end of a text request stands for.
pub open spec fn performed_model(
    performed: Result<Option<Vec<Observation>>, String>,
) -> Result<Option<Seq<ObservationModel>>, Seq<char>> {
    match performed {
        Err(description) => Err(description@),
        Ok(None) => Ok(None),
        Ok(Some(observations)) => Ok(Some(observation_models(observations@))),
    }
}

/// Picks the first candidate that has a confidence of zero or more.
fn choose_candidate(candidates: &Vec<Candidate>) -> (r: Option<usize>)
    ensures
        ({
            let models = Seq::new(candidates@.len(), |i: int| candidates@[i]@);
            match r {
                Some(i) => i < candidates.len() && chosen(models) == Some(candidates@[i as int]@),
                None => chosen(models) is None,
            }
        }),
{
    let ghost models = Seq::new(candidates@.len(), |i: int| candidates@[i]@);
    let mut i: usize = 0;
    assert(models.skip(0) =~= models);
    while i < candidates.len()
        invariant
            i <= candidates.len(),
            models == Seq::new(candidates@.len(), |i: int| candidates@[i]@),
            chosen(models) == chosen(models.skip(i as int)),
        decreases candidates.len() - i,
    {
        if Double::zero().at_most(candidates[i].confidence) {
            return Some(i);
        }
        assert(models.skip(i as int).drop_first() =~= models.skip(i + 1));
        i = i + 1;
    }
    None
}

/// What comes out of a text request: `performed` is the description of its
/// failure, or its observations if it has any to show.
pub fn legacy_outcome(performed: Result<Option<Vec<Observation>>, String>) -> (r: Result<
    OcrOutput,
    OcrError,
>)
    ensures
        outcome_model(r) == legacy_model(performed_model(performed)),
        r matches Ok(output) ==> lines_are_normalized(output@.lines),
{
    let observations = match performed {
        Err(description) => return Err(OcrError::ErrorWithDesc(description)),
        Ok(None) => return Err(OcrError::NoTextRecognized),
        Ok(Some(observations)) => observations,
    };
    if observations.len() == 0 {
        return Err(OcrError::NoTextRecognized);
    }
    let p = Precision::Double;
    let tenth = Double::ratio(1, 10, p);
    let ghost models = observation_models(observations@);
    let mut text = String::new();
    let mut total = Double::zero();
    let mut used: u64 = 0;
    let mut lines: Vec<OcrLine> = Vec::new();
    let mut i: usize = 0;
    assert(line_models(lines@) =~= Seq::<LineModel>::empty());
    while i < observations.len()
        invariant
            i <= observations.len(),
            models == observation_models(observations@),
            p == Precision::Double,
            tenth@ == fraction(p, 1, 10),
            text@ == page_text(readings(models.take(i as int))),
            total@ == confidence_sum(readings(models.take(i as int))),
            used == readings(models.take(i as int)).len(),
            used <= i,
            line_models(lines@) == page_lines(readings(models.take(i as int))),
            lines_are_normalized(line_models(lines@)),
        decreases observations.len() - i,
    {
        let observation = &observations[i];
        let ghost earlier = readings(models.take(i as int));
        let ghost reached = readings(models.take(i + 1));
        proof {
            assert(models.take(i + 1).drop_last() =~= models.take(i as int));
            assert(models.take(i + 1).last() == observation@);
        }
        if let Some(choice) = choose_candidate(&observation.candidates) {
            let candidate = &observation.candidates[choice];
            proof {
                assert(reached == earlier.push(
                    Reading { observation: observation@, candidate: candidate@ },
                ));
                assert(reached.drop_last() =~= earlier);
            }
            if !candidate.text.as_str().is_empty() {
                if !text.as_str().is_empty() {
                    if observation.y.less(tenth) {
                        text.append("\n");
                    } else {
                        text.append(" ");
                    }
                }
                text.append(candidate.text.as_str());
                proof {
                    if page_text(earlier).len() == 0 {
                        assert(text@ =~= candidate.text@);
                    }
                }
                let left = observation.x;
                let top = Double::one().minus(observation.y, p).minus(observation.height, p);
                if let Some(bounding_box) = normalized_bounding_box(
                    left,
                    top,
                    left.plus(observation.width, p),
                    top.plus(observation.height, p),
                ) {
                    let line = OcrLine {
                        text: candidate.text.clone(),
                        confidence: candidate.confidence,
                        bounding_box,
                    };
                    proof {
                        lemma_push_line(lines@, line);
                    }
                    lines.push(line);
                }
            }
            total = total.plus(candidate.confidence, Precision::Single);
            used = used + 1;
        }
        i = i + 1;
    }
    assert(models.take(i as int) =~= models);
    let confidence = if used > 0 {
        total.over(Double::from_count(used, Precision::Single), Precision::Single)
    } else {
        Double::zero()
    };
    Ok(OcrOutput { text, confidence, lines })
}

/// How a text request is set up.
pub struct TextRequest {
    pub level: OcrAccuracy,
    pub languages: Vec<String>,
    pub uses_language_correction: bool,
    /// The smallest height of text, as a fraction of the height of the image.
    pub minimum_text_height: Double,
    pub automatically_detects_language: bool,
    /// How many candidates are asked for per observation.
    pub candidates: usize,
}

/// Sets up a text request for the given accuracy and languages.
pub fn text_request(accuracy: OcrAccuracy, langs: Vec<String>) -> (r: TextRequest)
    ensures
        r.level == accuracy,
        r.languages == langs,
        r.uses_language_correction,
        r.minimum_text_height@ == fraction(Precision::Single, 8, 1000),
        r.automatically_detects_language,
        r.candidates == 5,
{
    TextRequest {
        level: accuracy,
        languages: langs,
        uses_language_correction: true,
        minimum_text_height: Double::ratio(8, 1000, Precision::Single),
        automatically_detects_language: true,
        candidates: 5,
    }
}

/// The candidate that is chosen is one of the candidates, has a confidence of
/// zero or more, and comes first among those that do.
pub proof fn law_chosen_candidate_is_the_first_confident_one(candidates: Seq<CandidateModel>)
    ensures
        match chosen(candidates) {
            Some(candidate) => exists|i: int|
                #![trigger candidates[i]]
                {
                    &&& 0 <= i < candidates.len()
                    &&& candidates[i] == candidate
                    &&& zero().at_most(candidate.confidence)
                    &&& forall|j: int|
                        0 <= j < i ==> !zero().at_most((#[trigger] candidates[j]).confidence)
                },
            None => forall|j: int|
                0 <= j < candidates.len() ==> !zero().at_most(
                    (#[trigger] candidates[j]).confidence,
                ),
        },
    decreases candidates.len(),
{
    if candidates.len() > 0 && !zero().at_most(candidates[0].confidence) {
        let rest = candidates.drop_first();
        law_chosen_candidate_is_the_first_confident_one(rest);
        assert forall|j: int| 0 < j < candidates.len() implies candidates[j] == rest[j - 1] by {}
        match chosen(rest) {
            Some(candidate) => {
                let i = choose|i: int|
                    #![trigger rest[i]]
                    {
                        &&& 0 <= i < rest.len()
                        &&& rest[i] == candidate
                        &&& zero().at_most(candidate.confidence)
                        &&& forall|j: int|
                            0 <= j < i ==> !zero().at_most((#[trigger] rest[j]).confidence)
                    };
                assert(candidates[i + 1] == candidate);
            },
            None => {},
        }
    } else if candidates.len() > 0 {
        assert(candidates[0] == chosen(candidates).unwrap());
    }
}

/// The observations are read in order: reading two stretches one after another
/// gives the readings of the first and then those of the second.
pub proof fn law_readings_keep_the_order(a: Seq<ObservationModel>, b: Seq<ObservationModel>)
    ensures
        readings(a + b) == readings(a) + readings(b),
    decreases b.len(),
{
    if b.len() == 0 {
        assert(a + b =~= a);
        assert(readings(a) + readings(b) =~= readings(a));
    } else {
        law_readings_keep_the_order(a, b.drop_last());
        assert((a + b).drop_last() =~= a + b.drop_last());
        assert((a + b).last() == b.last());
        assert(readings(a + b) =~= readings(a) + readings(b));
    }
}

/// The lines come in reading order: the lines of two stretches of readings are
/// those of the first and then those of the second.
pub proof fn law_lines_keep_the_order(a: Seq<Reading>, b: Seq<Reading>)
    ensures
        page_lines(a + b) == page_lines(a) + page_lines(b),
    decreases b.len(),
{
    if b.len() == 0 {
        assert(a + b =~= a);
        assert(page_lines(a) + page_lines(b) =~= page_lines(a));
    } else {
        law_lines_keep_the_order(a, b.drop_last());
        assert((a + b).drop_last() =~= a + b.drop_last());
        assert((a + b).last() == b.last());
        assert(page_lines(a + b) =~= page_lines(a) + page_lines(b));
    }
}

/// There is a line for at most every reading, no line is empty, and every line
/// has a box within the image.
pub proof fn law_lines_have_text_and_lie_within_the_image(readings: Seq<Reading>)
    ensures
        page_lines(readings).len() <= readings.len(),
        forall|i: int|
            0 <= i < page_lines(readings).len() ==> (#[trigger] page_lines(readings)[i]).text.len()
                > 0,
        lines_are_normalized(page_lines(readings)),
    decreases readings.len(),
{
    if readings.len() > 0 {
        law_lines_have_text_and_lie_within_the_image(readings.drop_last());
        let o = readings.last().observation;
        let p = Precision::Double;
        let top = one().minus(o.y, p).minus(o.height, p);
        law_boxes_lie_within_the_image(
            o.x,
            top,
            o.x.plus(o.width, p),
            top.plus(o.height, p),
            one(),
            one(),
            None,
        );
    }
}

/// There is text exactly where some reading has text.
pub proof fn law_text_is_empty_only_without_readings(readings: Seq<Reading>)
    ensures
        page_text(readings).len() == 0 <==> forall|i: int|
            0 <= i < readings.len() ==> (#[trigger] readings[i]).candidate.text.len() == 0,
    decreases readings.len(),
{
    if readings.len() > 0 {
        let earlier = readings.drop_last();
        law_text_is_empty_only_without_readings(earlier);
        assert forall|i: int| 0 <= i < earlier.len() implies earlier[i] == readings[i] by {}
        assert(readings.last() == readings[readings.len() - 1]);
    }
}

/// The largest whole number up to which single precision counts without gaps.
spec fn count_limit() -> nat {
    pow2(24)
}

/// Adding a confidence to a sum of `n` of them.
proof fn lemma_sum_grows_by_one(sum: Datum, confidence: Datum, n: nat)
    requires
        is_share(confidence),
        sum.is_finite(),
        0 <= sum.units() <= n * pow2(unit_exponent()),
        sum.units() <= count_limit() * pow2(unit_exponent()),
    ensures
        ({
            let next = sum.plus(confidence, Precision::Single);
            &&& next.is_finite()
            &&& 0 <= next.units() <= (n + 1) * pow2(unit_exponent())
            &&& next.units() <= count_limit() * pow2(unit_exponent())
        }),
{
    let unit = pow2(1074);
    let p = Precision::Single;
    let total = (sum.units() + confidence.units()) as nat;
    lemma_pow2_pos(1074);
    lemma2_to64();
    lemma_pow2_adds(24, 1074);
    lemma_pow2_strictly_increases(1098, 1202);
    assert((n + 1) * unit == n * unit + unit) by (nonlinear_arith);
    if total > 0 {
        let result = rounded_magnitude(p, total, 1);
        assert(result <= count_limit() * unit) by {
            lemma_rounds_to_count_limit(total);
        }
        if n + 1 <= count_limit() {
            law_rounding_keeps_upper_bounds(p, total, 1, n + 1, 1074);
        } else {
            assert(count_limit() * unit <= (n + 1) * unit) by (nonlinear_arith)
                requires
                    count_limit() <= n + 1,
            ;
        }
    }
}

/// Up to one past the limit, single precision rounds to the limit at most.
proof fn lemma_rounds_to_count_limit(num: nat)
    requires
        num <= count_limit() * pow2(1074) + pow2(1074),
    ensures
        rounded_magnitude(Precision::Single, num, 1) <= count_limit() * pow2(1074),
{
    let p = Precision::Single;
    let unit = pow2(1074);
    let top = count_limit() * unit;
    lemma2_to64();
    lemma_pow2_pos(1074);
    if num <= top {
        law_rounding_keeps_upper_bounds(p, num, 1, count_limit(), 1074);
    } else {
        lemma_pow2_adds(24, 1074);
        lemma_pow2_unfold(1099);
        lemma_pow2_unfold(1075);
        assert(num / 1 == num) by (nonlinear_arith);
        assert(unit <= top) by (nonlinear_arith)
            requires
                top == count_limit() * unit,
                count_limit() >= 1,
        ;
        if num == 2 * top {
            assert(top == unit);
            assert(false) by (nonlinear_arith)
                requires
                    top == count_limit() * unit,
                    top == unit,
                    count_limit() > 1,
                    unit > 0,
            ;
        }
        lemma_bit_length_unique(num, 1099);
        let step = pow2(1075);
        assert(1 * step == step);
        lemma_pow2_adds(23, 1075);
        lemma_fundamental_div_mod_converse(
            num as int,
            step as int,
            pow2(23) as int,
            num - top,
        );
    }
}

/// The sum of confidences from zero to one.
proof fn lemma_sum_is_bounded(readings: Seq<Reading>)
    requires
        forall|i: int|
            0 <= i < readings.len() ==> is_share((#[trigger] readings[i]).candidate.confidence),
    ensures
        confidence_sum(readings).is_finite(),
        0 <= confidence_sum(readings).units() <= readings.len() * pow2(unit_exponent()),
        confidence_sum(readings).units() <= count_limit() * pow2(unit_exponent()),
    decreases readings.len(),
{
    let unit = pow2(unit_exponent());
    lemma2_to64();
    if readings.len() == 0 {
        assert(0 * unit == 0) by (nonlinear_arith);
        assert(0 <= count_limit() * unit) by (nonlinear_arith);
    } else {
        let earlier = readings.drop_last();
        assert forall|i: int| 0 <= i < earlier.len() implies is_share(
            (#[trigger] earlier[i]).candidate.confidence,
        ) by {
            assert(earlier[i] == readings[i]);
        }
        lemma_sum_is_bounded(earlier);
        assert(readings.last() == readings[readings.len() - 1]);
        lemma_sum_grows_by_one(
            confidence_sum(earlier),
            readings.last().candidate.confidence,
            earlier.len(),
        );
    }
}

/// Where every confidence lies between zero and one, so does their average.
pub proof fn law_average_confidence_lies_between_zero_and_one(readings: Seq<Reading>)
    requires
        readings.len() <= u64::MAX,
        forall|i: int|
            0 <= i < readings.len() ==> is_share((#[trigger] readings[i]).candidate.confidence),
    ensures
        is_share(average_confidence(readings)),
{
    let p = Precision::Single;
    let unit = pow2(1074);
    lemma_pow2_pos(1074);
    if readings.len() > 0 {
        lemma_sum_is_bounded(readings);
        let sum = confidence_sum(readings);
        let s = sum->magnitude;
        let n = readings.len();
        let num = n * unit;
        let divisor = rounded_magnitude(p, num, 1);
        lemma2_to64();
        lemma2_to64_rest();
        lemma_pow2_adds(24, 1074);
        lemma_pow2_adds(64, 1074);
        lemma_pow2_adds(0, 1138);
        lemma_pow2_strictly_increases(1138, 1202);
        lemma_pow2_strictly_increases(1074, 1202);
        // The divisor is a finite number, at least the sum.
        assert(num <= 1 * pow2(1138) * 1) by (nonlinear_arith)
            requires
                num == n * unit,
                n <= pow2(64),
                pow2(1138) == pow2(64) * unit,
        ;
        law_rounding_keeps_upper_bounds(p, num, 1, 1, 1138);
        if n <= count_limit() {
            law_rounding_keeps_lower_bounds(p, num, 1, n, 1074);
        } else {
            assert(count_limit() * unit <= num) by (nonlinear_arith)
                requires
                    num == n * unit,
                    count_limit() <= n,
            ;
            law_rounding_keeps_lower_bounds(p, num, 1, count_limit(), 1074);
        }
        assert(num >= unit) by (nonlinear_arith)
            requires
                num == n * unit,
                n >= 1,
        ;
        law_rounding_keeps_lower_bounds(p, num, 1, 1, 1074);
        assert(s <= divisor);
        assert(s * unit <= 1 * unit * divisor) by (nonlinear_arith)
            requires
                s <= divisor,
        ;
        law_rounding_keeps_upper_bounds(p, s * unit, divisor, 1, 1074);
        if s == 0 {
            assert(s * unit <= 0 * unit * divisor) by (nonlinear_arith)
                requires
                    s == 0,
            ;
            law_rounding_keeps_upper_bounds(p, s * unit, divisor, 0, 1074);
        }
    }
}

/// No candidate has a confidence of zero or more.
pub open spec fn is_unreadable(observation: ObservationModel) -> bool {
    forall|j: int|
        0 <= j < observation.candidates.len() ==> !zero().at_most(
            (#[trigger] observation.candidates[j]).confidence,
        )
}

/// The candidate at `choice` has a confidence of zero or more, and none before
/// it has.
pub open spec fn is_read_as(observation: ObservationModel, choice: int) -> bool {
    &&& 0 <= choice < observation.candidates.len()
    &&& zero().at_most(observation.candidates[choice].confidence)
    &&& forall|j: int|
        0 <= j < choice ==> !zero().at_most((#[trigger] observation.candidates[j]).confidence)
}

/// The choice of a candidate.
proof fn lemma_choice(observation: ObservationModel, choice: int)
    requires
        is_read_as(observation, choice),
    ensures
        chosen(observation.candidates) == Some(observation.candidates[choice]),
{
    let candidates = observation.candidates;
    law_chosen_candidate_is_the_first_confident_one(candidates);
    match chosen(candidates) {
        Some(candidate) => {
            let i = choose|i: int|
                #![trigger candidates[i]]
                {
                    &&& 0 <= i < candidates.len()
                    &&& candidates[i] == candidate
                    &&& zero().at_most(candidate.confidence)
                    &&& forall|j: int|
                        0 <= j < i ==> !zero().at_most((#[trigger] candidates[j]).confidence)
                };
            if i < choice {
                assert(!zero().at_most(candidates[i].confidence));
            } else if choice < i {
                assert(!zero().at_most(candidates[choice].confidence));
            }
        },
        None => {
            assert(!zero().at_most(candidates[choice].confidence));
        },
    }
}

/// An observation without a usable candidate.
proof fn lemma_no_choice(observation: ObservationModel)
    requires
        is_unreadable(observation),
    ensures
        chosen(observation.candidates) is None,
{
    law_chosen_candidate_is_the_first_confident_one(observation.candidates);
}

/// The readings of a single observation.
proof fn lemma_reading_of_one(observation: ObservationModel, choice: int)
    requires
        is_read_as(observation, choice),
    ensures
        readings(seq![observation]) == seq![
            Reading { observation, candidate: observation.candidates[choice] },
        ],
{
    let none = Seq::<ObservationModel>::empty();
    lemma_choice(observation, choice);
    assert(seq![observation].drop_last() =~= none);
    assert(readings(none) =~= Seq::<Reading>::empty());
    assert(readings(seq![observation]) =~= seq![
        Reading { observation, candidate: observation.candidates[choice] },
    ]);
}

/// A request that fails is reported with its description, and one without
/// observations as having found no text. With observations there is a result.
pub proof fn law_requests_fail_only_without_observations(
    description: Seq<char>,
    observations: Seq<ObservationModel>,
)
    ensures
        legacy_model(Err(description)) == Err::<OutputModel, ErrorModel>(
            ErrorModel::ErrorWithDesc(description),
        ),
        legacy_model(Ok(None)) == Err::<OutputModel, ErrorModel>(ErrorModel::NoTextRecognized),
        observations.len() == 0 ==> legacy_model(Ok(Some(observations))) == Err::<
            OutputModel,
            ErrorModel,
        >(ErrorModel::NoTextRecognized),
        observations.len() > 0 ==> legacy_model(Ok(Some(observations))) is Ok,
{
}

/// An observation without a candidate of a confidence of zero or more leaves no
/// trace among other observations. On its own it gives no text, no lines and the
/// confidence zero.
pub proof fn law_unreadable_observations_leave_no_trace(
    before: Seq<ObservationModel>,
    observation: ObservationModel,
    after: Seq<ObservationModel>,
)
    requires
        is_unreadable(observation),
    ensures
        (before + after).len() > 0 ==> legacy_model(Ok(Some(before.push(observation) + after)))
            == legacy_model(Ok(Some(before + after))),
        legacy_model(Ok(Some(seq![observation]))) == Ok::<OutputModel, ErrorModel>(
            OutputModel { text: Seq::empty(), confidence: zero(), lines: Seq::empty() },
        ),
{
    let none = Seq::<ObservationModel>::empty();
    lemma_no_choice(observation);
    assert(before.push(observation).drop_last() =~= before);
    assert(readings(before.push(observation)) == readings(before));
    law_readings_keep_the_order(before.push(observation), after);
    law_readings_keep_the_order(before, after);
    assert(seq![observation].drop_last() =~= none);
    assert(readings(seq![observation]) == readings(none));
}

/// The box of an observation is that between its left edge and as far to the
/// right as it is wide, and between its top edge, which is measured from the top
/// of the image, and as far down as it is high.
pub open spec fn is_box_of(observation: ObservationModel, bounding_box: Option<BoxModel>) -> bool {
    let p = Precision::Double;
    let left = observation.x;
    let top = one().minus(observation.y, p).minus(observation.height, p);
    let right = left.plus(observation.width, p);
    let bottom = top.plus(observation.height, p);
    bounding_box == normalized_box(left, top, right, bottom)
}

/// A single observation gives the text of the first candidate that has a
/// confidence of zero or more, and a line with that text and that confidence if
/// there is text and a box.
pub proof fn law_one_observation_is_read_on_its_own(
    observation: ObservationModel,
    choice: int,
    bounding_box: Option<BoxModel>,
)
    requires
        is_read_as(observation, choice),
        is_box_of(observation, bounding_box),
    ensures
        legacy_model(Ok(Some(seq![observation]))) matches Ok(output) && {
            let candidate = observation.candidates[choice];
            &&& output.text == candidate.text
            &&& output.lines == if candidate.text.len() > 0 && bounding_box is Some {
                seq![
                    LineModel {
                        text: candidate.text,
                        confidence: candidate.confidence,
                        bounding_box: bounding_box->0,
                    },
                ]
            } else {
                Seq::empty()
            }
        },
{
    let candidate = observation.candidates[choice];
    lemma_reading_of_one(observation, choice);
    let found = readings(seq![observation]);
    let none = Seq::<Reading>::empty();
    assert(found.drop_last() =~= none);
    assert(page_text(none) =~= Seq::<char>::empty());
    assert(page_lines(none) =~= Seq::<LineModel>::empty());
    if candidate.text.len() == 0 {
        assert(candidate.text =~= Seq::<char>::empty());
    }
    assert(page_lines(found) =~= if candidate.text.len() > 0 && bounding_box is Some {
        seq![
            LineModel {
                text: candidate.text,
                confidence: candidate.confidence,
                bounding_box: bounding_box->0,
            },
        ]
    } else {
        Seq::empty()
    });
}

/// A further observation is added at the end. Its text follows after one
/// character: a line break where the observation begins below one tenth of the
/// height of the image, a space everywhere else. There is no such character
/// before the first text, and an empty text adds nothing at all. A line is added
/// with the text if there is text and a box.
pub proof fn law_further_observations_are_added_at_the_end(
    observations: Seq<ObservationModel>,
    observation: ObservationModel,
    choice: int,
    bounding_box: Option<BoxModel>,
)
    requires
        observations.len() > 0,
        is_read_as(observation, choice),
        is_box_of(observation, bounding_box),
    ensures
        legacy_model(Ok(Some(observations))) matches Ok(earlier) && legacy_model(
            Ok(Some(observations.push(observation))),
        ) matches Ok(output) && {
            let candidate = observation.candidates[choice];
            let mark = if observation.y.less(fraction(Precision::Double, 1, 10)) {
                '\n'
            } else {
                ' '
            };
            &&& output.text == if candidate.text.len() == 0 {
                earlier.text
            } else if earlier.text.len() == 0 {
                candidate.text
            } else {
                earlier.text.push(mark) + candidate.text
            }
            &&& output.lines == if candidate.text.len() > 0 && bounding_box is Some {
                earlier.lines.push(
                    LineModel {
                        text: candidate.text,
                        confidence: candidate.confidence,
                        bounding_box: bounding_box->0,
                    },
                )
            } else {
                earlier.lines
            }
        },
{
    let candidate = observation.candidates[choice];
    reveal_strlit("\n");
    reveal_strlit(" ");
    lemma_choice(observation, choice);
    let all = observations.push(observation);
    assert(all.drop_last() =~= observations);
    let found = readings(all);
    assert(found == readings(observations).push(Reading { observation, candidate }));
    assert(found.drop_last() =~= readings(observations));
    let mark = if observation.y.less(fraction(Precision::Double, 1, 10)) {
        '\n'
    } else {
        ' '
    };
    assert(separator(observation) =~= seq![mark]);
    let earlier = page_text(readings(observations));
    assert(earlier + separator(observation) + candidate.text =~= earlier.push(mark)
        + candidate.text);
}

/// The text of two observations with text is the first text, one character and
/// the second text: a line break where the second observation begins below one
/// tenth of the height of the image, a space everywhere else.
pub proof fn law_two_texts_are_separated_by_one_character(
    first: ObservationModel,
    second: ObservationModel,
    first_choice: int,
    second_choice: int,
)
    requires
        is_read_as(first, first_choice),
        is_read_as(second, second_choice),
        first.candidates[first_choice].text.len() > 0,
        second.candidates[second_choice].text.len() > 0,
    ensures
        legacy_model(Ok(Some(seq![first, second]))) matches Ok(output) && output.text
            == first.candidates[first_choice].text.push(
            if second.y.less(fraction(Precision::Double, 1, 10)) {
                '\n'
            } else {
                ' '
            },
        ) + second.candidates[second_choice].text,
{
    law_one_observation_is_read_on_its_own(first, first_choice, observation_box(first));
    law_further_observations_are_added_at_the_end(
        seq![first],
        second,
        second_choice,
        observation_box(second),
    );
    assert(seq![first].push(second) =~= seq![first, second]);
}

/// All observations have a usable candidate, those at `choices`.
pub open spec fn are_read_as(observations: Seq<ObservationModel>, choices: Seq<int>) -> bool {
    &&& choices.len() == observations.len()
    &&& forall|i: int|
        0 <= i < observations.len() ==> is_read_as(#[trigger] observations[i], choices[i])
}

/// The readings of observations that all have one.
proof fn lemma_readings_of_all(observations: Seq<ObservationModel>, choices: Seq<int>)
    requires
        are_read_as(observations, choices),
    ensures
        readings(observations).len() == observations.len(),
        forall|i: int|
            0 <= i < observations.len() ==> #[trigger] readings(observations)[i] == (Reading {
                observation: observations[i],
                candidate: observations[i].candidates[choices[i]],
            }),
    decreases observations.len(),
{
    if observations.len() > 0 {
        let earlier = observations.drop_last();
        let n = earlier.len() as int;
        assert forall|i: int| 0 <= i < earlier.len() implies is_read_as(
            #[trigger] earlier[i],
            choices.drop_last()[i],
        ) by {
            assert(earlier[i] == observations[i]);
        }
        lemma_readings_of_all(earlier, choices.drop_last());
        assert(is_read_as(observations[n], choices[n]));
        lemma_choice(observations.last(), choices[n]);
        assert forall|i: int| 0 <= i < observations.len() implies #[trigger] readings(
            observations,
        )[i] == (Reading {
            observation: observations[i],
            candidate: observations[i].candidates[choices[i]],
        }) by {
            if i < n {
                assert(readings(observations)[i] == readings(earlier)[i]);
            }
        }
    }
}

/// The sum by its steps.
proof fn lemma_sum_by_steps(found: Seq<Reading>, sums: Seq<Datum>)
    requires
        sums.len() == found.len() + 1,
        sums[0] == zero(),
        forall|i: int|
            0 <= i < found.len() ==> #[trigger] sums[i + 1] == sums[i].plus(
                found[i].candidate.confidence,
                Precision::Single,
            ),
    ensures
        confidence_sum(found) == sums.last(),
    decreases found.len(),
{
    if found.len() > 0 {
        let n = found.len() - 1;
        let earlier = found.drop_last();
        let shorter = sums.drop_last();
        assert forall|i: int| 0 <= i < earlier.len() implies #[trigger] shorter[i + 1]
            == shorter[i].plus(earlier[i].candidate.confidence, Precision::Single) by {
            assert(sums[i + 1] == sums[i].plus(found[i].candidate.confidence, Precision::Single));
        }
        lemma_sum_by_steps(earlier, shorter);
        assert(sums[n + 1] == sums[n].plus(found[n].candidate.confidence, Precision::Single));
    }
}

/// The confidence of a result is the sum of the confidences of all readings,
/// added up one after another in single precision, divided by their number.
pub proof fn law_confidence_is_the_sum_over_the_number(
    observations: Seq<ObservationModel>,
    choices: Seq<int>,
    sums: Seq<Datum>,
)
    requires
        observations.len() > 0,
        are_read_as(observations, choices),
        sums.len() == observations.len() + 1,
        sums[0] == zero(),
        forall|i: int|
            0 <= i < observations.len() ==> #[trigger] sums[i + 1] == sums[i].plus(
                observations[i].candidates[choices[i]].confidence,
                Precision::Single,
            ),
    ensures
        legacy_model(Ok(Some(observations))) matches Ok(output) && output.confidence
            == sums.last().over(
            fraction(Precision::Single, observations.len(), 1),
            Precision::Single,
        ),
{
    lemma_readings_of_all(observations, choices);
    let found = readings(observations);
    assert forall|i: int| 0 <= i < found.len() implies #[trigger] sums[i + 1] == sums[i].plus(
        found[i].candidate.confidence,
        Precision::Single,
    ) by {
        assert(found[i].candidate == observations[i].candidates[choices[i]]);
    }
    lemma_sum_by_steps(found, sums);
}

/// A positive number of single precision.
pub open spec fn is_single(value: Datum, steps: nat, exponent: nat) -> bool {
    &&& 0 < steps <= pow2(24)
    &&& exponent >= Precision::Single.lowest()
    &&& steps * pow2(exponent) < pow2(Precision::Single.limit())
    &&& value == (Datum::Finite { negative: false, magnitude: steps * pow2(exponent) })
}

/// The whole numbers up to the limit are numbers of single precision.
proof fn lemma_counts_are_exact(n: nat)
    requires
        n <= count_limit(),
    ensures
        rounded(Precision::Single, false, n * pow2(1074), 1) == (Datum::Finite {
            negative: false,
            magnitude: n * pow2(1074),
        }),
        fraction(Precision::Single, n, 1) == (Datum::Finite {
            negative: false,
            magnitude: n * pow2(1074),
        }),
{
    let unit = pow2(1074);
    lemma_pow2_pos(1074);
    lemma_pow2_adds(24, 1074);
    lemma_pow2_strictly_increases(1098, 1202);
    assert(n * unit <= pow2(24) * unit) by (nonlinear_arith)
        requires
            n <= pow2(24),
    ;
    assert(n * unit * 1 == n * unit);
    law_numbers_of_the_format_are_exact(Precision::Single, false, 1, n, 1074);
}

/// The confidence of a result of a single reading is the confidence of that
/// reading, for every positive number of single precision.
pub proof fn law_one_reading_keeps_its_confidence(
    observation: ObservationModel,
    choice: int,
    steps: nat,
    exponent: nat,
)
    requires
        is_read_as(observation, choice),
        is_single(observation.candidates[choice].confidence, steps, exponent),
    ensures
        legacy_model(Ok(Some(seq![observation]))) matches Ok(output) && output.confidence
            == observation.candidates[choice].confidence,
{
    let p = Precision::Single;
    let confidence = observation.candidates[choice].confidence;
    let size = steps * pow2(exponent);
    let unit = pow2(1074);
    lemma_pow2_pos(exponent);
    lemma_pow2_pos(1074);
    lemma2_to64();
    assert(size > 0) by (nonlinear_arith)
        requires
            size == steps * pow2(exponent),
            steps > 0,
            pow2(exponent) > 0,
    ;
    assert(size * 1 == size);
    law_numbers_of_the_format_are_exact(p, false, 1, steps, exponent);
    assert(zero().plus(confidence, p) == confidence);
    lemma_counts_are_exact(1);
    assert(1 * unit == unit);
    law_numbers_of_the_format_are_exact(p, false, unit, steps, exponent);
    assert(confidence.over(fraction(p, 1, 1), p) == confidence);
    law_confidence_is_the_sum_over_the_number(
        seq![observation],
        seq![choice],
        seq![zero(), zero().plus(confidence, p)],
    );
}

/// The sum of `n` confidences of one.
proof fn lemma_sum_of_ones(found: Seq<Reading>)
    requires
        found.len() <= count_limit(),
        forall|i: int|
            0 <= i < found.len() ==> (#[trigger] found[i]).candidate.confidence == one(),
    ensures
        confidence_sum(found) == (Datum::Finite {
            negative: false,
            magnitude: found.len() * pow2(1074),
        }),
    decreases found.len(),
{
    let unit = pow2(1074);
    lemma_pow2_pos(1074);
    if found.len() == 0 {
        assert(0 * unit == 0) by (nonlinear_arith);
    } else {
        let earlier = found.drop_last();
        assert forall|i: int| 0 <= i < earlier.len() implies (
        #[trigger] earlier[i]).candidate.confidence == one() by {
            assert(earlier[i] == found[i]);
        }
        lemma_sum_of_ones(earlier);
        assert(found.last() == found[found.len() - 1]);
        lemma_counts_are_exact(found.len());
        let (n, m) = (found.len(), earlier.len());
        assert(n * unit == m * unit + unit) by (nonlinear_arith)
            requires
                n == m + 1,
        ;
    }
}

/// Where all readings have the confidence one, so has the result, for up to
/// `2^24` readings.
pub proof fn law_full_confidence_stays_full(observations: Seq<ObservationModel>, choices: Seq<int>)
    requires
        0 < observations.len() <= pow2(24),
        are_read_as(observations, choices),
        forall|i: int|
            0 <= i < observations.len() ==> (#[trigger] observations[i]).candidates[choices[i]].confidence
                == one(),
    ensures
        legacy_model(Ok(Some(observations))) matches Ok(output) && output.confidence == one(),
{
    let p = Precision::Single;
    let unit = pow2(1074);
    let n = observations.len();
    lemma_readings_of_all(observations, choices);
    let found = readings(observations);
    assert forall|i: int| 0 <= i < found.len() implies (#[trigger] found[i]).candidate.confidence
        == one() by {
        assert(observations[i].candidates[choices[i]].confidence == one());
    }
    lemma_sum_of_ones(found);
    lemma_counts_are_exact(n);
    lemma_pow2_pos(1074);
    lemma2_to64();
    lemma_pow2_strictly_increases(1074, 1202);
    let size = n * unit;
    assert(size > 0) by (nonlinear_arith)
        requires
            size == n * unit,
            n > 0,
            unit > 0,
    ;
    assert(1 * unit * size == size * unit) by (nonlinear_arith);
    law_numbers_of_the_format_are_exact(p, false, size, 1, 1074);
}

/// What an observation shows is what its fields hold, and so for a list of them
/// and the end of a request.
pub proof fn law_observations_are_shown_as_they_are(
    observation: Observation,
    observations: Vec<Observation>,
    description: String,
)
    ensures
        observation@.x == observation.x@,
        observation@.y == observation.y@,
        observation@.width == observation.width@,
        observation@.height == observation.height@,
        observation@.candidates.len() == observation.candidates@.len(),
        forall|i: int|
            0 <= i < observation.candidates@.len() ==> {
                &&& (#[trigger] observation@.candidates[i]).text == observation.candidates@[i].text@
                &&& observation@.candidates[i].confidence
                    == observation.candidates@[i].confidence@
            },
        performed_model(Err(description)) == Err::<Option<Seq<ObservationModel>>, Seq<char>>(
            description@,
        ),
        performed_model(Ok(None)) == Ok::<Option<Seq<ObservationModel>>, Seq<char>>(None),
        performed_model(Ok(Some(observations))) matches Ok(Some(models)) && {
            &&& models.len() == observations@.len()
            &&& forall|i: int|
                0 <= i < observations@.len() ==> #[trigger] models[i] == observations@[i]@
        },
{
}

} // verus!
