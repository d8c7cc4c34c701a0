use vstd::prelude::*;
use crate::error::{ErrorModel, OcrError};
use crate::float::double::Double;
use crate::float::model::Datum;
use crate::geometry::{BoxModel, OcrBoundingBox};

verus! {

/// A recognized line of text.
#[derive(Debug, Clone, PartialEq)]
pub struct OcrLine {
    pub text: String,
    /// Always one on Windows.
    pub confidence: Double,
    /// Axis-aligned bounds of the line, as fractions of the image, with the
    /// origin in the top left corner.
    pub bounding_box: OcrBoundingBox,
}

/// What a recognizer found.
pub struct OcrOutput {
    pub text: String,
    pub confidence: Double,
    pub lines: Vec<OcrLine>,
}

/// What a recognition gives to its caller.
pub struct OcrResult {
    pub text: String,
    /// Always one on Windows. On macOS, the average of the confidences that the
    /// recognizer gives to its observations.
    pub confidence: Double,
    /// The recognized lines in reading order. Joined together they need not
    /// make up `text`.
    pub lines: Vec<OcrLine>,
}

/// What a line stands for.
pub struct LineModel {
    pub text: Seq<char>,
    pub confidence: Datum,
    pub bounding_box: BoxModel,
}

/// What an output or a result stands for.
#[verifier::ext_equal]
pub struct OutputModel {
    pub text: Seq<char>,
    pub confidence: Datum,
    pub lines: Seq<LineModel>,
}

impl View for OcrLine {
    type V = LineModel;

    open spec fn view(&self) -> LineModel {
        LineModel {
            text: self.text@,
            confidence: self.confidence@,
            bounding_box: self.bounding_box@,
        }
    }
}

/// What a list of lines stands for.
pub open spec fn line_models(lines: Seq<OcrLine>) -> Seq<LineModel> {
    Seq::new(lines.len(), |i: int| lines[i]@)
}

impl View for OcrOutput {
    type V = OutputModel;

    open spec fn view(&self) -> OutputModel {
        OutputModel {
            text: self.text@,
            confidence: self.confidence@,
            lines: line_models(self.lines@),
        }
    }
}

impl View for OcrResult {
    type V = OutputModel;

    open spec fn view(&self) -> OutputModel {
        OutputModel {
            text: self.text@,
            confidence: self.confidence@,
            lines: line_models(self.lines@),
        }
    }
}

/// Every line has a bounding box within the image.
pub open spec fn lines_are_normalized(lines: Seq<LineModel>) -> bool {
    forall|i: int| 0 <= i < lines.len() ==> (#[trigger] lines[i]).bounding_box.is_normalized()
}

/// What the outcome of a recognizer stands for.
pub open spec fn outcome_model(outcome: Result<OcrOutput, OcrError>) -> Result<
    OutputModel,
    ErrorModel,
> {
    match outcome {
        Ok(output) => Ok(output@),
        Err(error) => Err(error@),
    }
}

impl OcrOutput {
    /// Hands the output to the caller of the recognition.
    pub fn into_result(self) -> (r: OcrResult)
        ensures
            r@ == self@,
    {
        OcrResult { text: self.text, confidence: self.confidence, lines: self.lines }
    }
}

/// Adding a line to a list of lines.
pub proof fn lemma_push_line(lines: Seq<OcrLine>, line: OcrLine)
    ensures
        line_models(lines.push(line)) == line_models(lines).push(line@),
{
    assert(line_models(lines.push(line)) =~= line_models(lines).push(line@));
}

/// What a line shows is what its fields hold.
pub proof fn law_lines_are_shown_as_they_are(line: OcrLine)
    ensures
        line@.text == line.text@,
        line@.confidence == line.confidence@,
        line@.bounding_box.x == line.bounding_box.x@,
        line@.bounding_box.y == line.bounding_box.y@,
        line@.bounding_box.width == line.bounding_box.width@,
        line@.bounding_box.height == line.bounding_box.height@,
{
}

/// What an output and a result show is what their fields hold, all lines in
/// their order.
pub proof fn law_outputs_are_shown_as_they_are(output: OcrOutput, result: OcrResult, error: OcrError)
    ensures
        output@.text == output.text@,
        output@.confidence == output.confidence@,
        output@.lines.len() == output.lines@.len(),
        forall|i: int|
            0 <= i < output.lines@.len() ==> #[trigger] output@.lines[i] == output.lines@[i]@,
        result@.text == result.text@,
        result@.confidence == result.confidence@,
        result@.lines.len() == result.lines@.len(),
        forall|i: int|
            0 <= i < result.lines@.len() ==> #[trigger] result@.lines[i] == result.lines@[i]@,
        outcome_model(Ok(output)) == Ok::<OutputModel, ErrorModel>(output@),
        outcome_model(Err(error)) == Err::<OutputModel, ErrorModel>(error@),
{
}

} // verus!
