use vstd::prelude::*;
use crate::error::{ErrorModel, OcrError};
use crate::output::{outcome_model, OcrOutput, OutputModel};
use crate::task::OcrAccuracy;

verus! {

/// The recognizers of macOS.
#[derive(Debug, Clone, Copy, PartialEq, Eq, Structural)]
pub enum Recognizer {
    /// The recognizer for structured documents, in the sidecar library.
    Documents,
    /// The recognizer for plain text.
    Legacy,
}

/// The recognizer to try first.
pub open spec fn first_model(documents_built: bool, accuracy: OcrAccuracy) -> Recognizer {
    if documents_built && accuracy == OcrAccuracy::Accurate {
        Recognizer::Documents
    } else {
        Recognizer::Legacy
    }
}

/// The recognizer to try first: that for documents, where the program was
/// built with it and the caller does not ask for speed, which it does not
/// offer.
pub fn first_recognizer(documents_built: bool, accuracy: OcrAccuracy) -> (r: Recognizer)
    ensures
        r == first_model(documents_built, accuracy),
{
    if documents_built && accuracy == OcrAccuracy::Accurate {
        Recognizer::Documents
    } else {
        Recognizer::Legacy
    }
}

/// What to do once the recognizer for documents is done.
pub enum NextStep {
    /// This is the outcome.
    Finish(Result<OcrOutput, OcrError>),
    /// Try the other recognizer, and report the warning if there is one.
    FallBack { warning: Option<String> },
}

/// What a step stands for.
pub enum StepModel {
    Finish(Result<OutputModel, ErrorModel>),
    FallBack { warning: Option<Seq<char>> },
}

impl View for NextStep {
    type V = StepModel;

    open spec fn view(&self) -> StepModel {
        match self {
            NextStep::Finish(outcome) => StepModel::Finish(outcome_model(*outcome)),
            NextStep::FallBack { warning: None } => StepModel::FallBack { warning: None },
            NextStep::FallBack { warning: Some(warning) } => {
                StepModel::FallBack { warning: Some(warning@) }
            },
        }
    }
}

/// What is reported when the recognizer for documents fails.
pub open spec fn fallback_warning(error: ErrorModel) -> Seq<char> {
    "system-ocr: RecognizeDocumentsRequest failed ("@ + error.message()
        + "); falling back to VNRecognizeTextRequest"@
}

/// What to do after an outcome of the recognizer for documents. A success is
/// final, and so is a failure where `strict` forbids to fall back. A missing
/// sidecar library is passed over in silence; any other failure is reported.
pub open spec fn after_documents_model(
    outcome: Result<OutputModel, ErrorModel>,
    strict: bool,
) -> StepModel {
    match outcome {
        Ok(_) => StepModel::Finish(outcome),
        Err(error) => if strict {
            StepModel::Finish(outcome)
        } else if error == ErrorModel::DocumentsSidecarUnavailable {
            StepModel::FallBack { warning: None }
        } else {
            StepModel::FallBack { warning: Some(fallback_warning(error)) }
        },
    }
}

/// Decides what to do after an outcome of the recognizer for documents.
pub fn after_documents(outcome: Result<OcrOutput, OcrError>, strict: bool) -> (r: NextStep)
    ensures
        r@ == after_documents_model(outcome_model(outcome), strict),
{
    match outcome {
        Ok(output) => NextStep::Finish(Ok(output)),
        Err(error) => {
            if strict {
                return NextStep::Finish(Err(error));
            }
            match error {
                OcrError::DocumentsSidecarUnavailable => NextStep::FallBack { warning: None },
                error => {
                    let mut warning = "system-ocr: RecognizeDocumentsRequest failed (".to_owned();
                    let message = error.message();
                    warning.append(message.as_str());
                    warning.append("); falling back to VNRecognizeTextRequest");
                    NextStep::FallBack { warning: Some(warning) }
                },
            }
        },
    }
}

/// Without strictness no failure of the recognizer for documents reaches the
/// caller, and with it none is hidden. A success is handed on either way.
pub proof fn law_documents_failures_are_final_only_if_strict(
    outcome: Result<OutputModel, ErrorModel>,
    strict: bool,
)
    ensures
        after_documents_model(outcome, strict) is FallBack <==> outcome is Err && !strict,
        after_documents_model(outcome, strict) matches StepModel::Finish(o) ==> o == outcome,
{
}

/// What the caller gets, where `documents` and `legacy` are what the two
/// recognizers make of the image.
pub open spec fn performed(
    documents_built: bool,
    accuracy: OcrAccuracy,
    strict: bool,
    documents: Result<OutputModel, ErrorModel>,
    legacy: Result<OutputModel, ErrorModel>,
) -> Result<OutputModel, ErrorModel> {
    match first_model(documents_built, accuracy) {
        Recognizer::Legacy => legacy,
        Recognizer::Documents => match after_documents_model(documents, strict) {
            StepModel::Finish(outcome) => outcome,
            StepModel::FallBack { .. } => legacy,
        },
    }
}

/// A fast recognition never depends on the recognizer for documents, and an
/// accurate one prefers it: its success is what the caller gets. Where it
/// fails, the caller gets what the other recognizer finds, or the failure
/// itself if strictness is asked for.
pub proof fn law_caller_gets_one_of_the_outcomes(
    documents_built: bool,
    accuracy: OcrAccuracy,
    strict: bool,
    documents: Result<OutputModel, ErrorModel>,
    legacy: Result<OutputModel, ErrorModel>,
)
    ensures
        accuracy == OcrAccuracy::Fast || !documents_built ==> performed(
            documents_built,
            accuracy,
            strict,
            documents,
            legacy,
        ) == legacy,
        accuracy == OcrAccuracy::Accurate && documents_built ==> performed(
            documents_built,
            accuracy,
            strict,
            documents,
            legacy,
        ) == if documents is Ok || strict {
            documents
        } else {
            legacy
        },
{
}

/// The recognizer for documents comes first exactly where the program was built
/// with it and the caller asks for accuracy.
pub proof fn law_documents_come_first_only_for_accuracy(
    documents_built: bool,
    accuracy: OcrAccuracy,
)
    ensures
        first_model(documents_built, accuracy) is Documents <==> documents_built
            && accuracy is Accurate,
{
}

/// A missing sidecar library is passed over in silence. Every other failure is
/// reported with its own message before the other recognizer is tried.
pub proof fn law_only_a_missing_sidecar_is_passed_over(error: ErrorModel)
    ensures
        after_documents_model(Err(error), false) matches StepModel::FallBack { warning } && {
            &&& error is DocumentsSidecarUnavailable ==> warning is None
            &&& !(error is DocumentsSidecarUnavailable) ==> warning == Some(
                "system-ocr: RecognizeDocumentsRequest failed ("@ + error.message()
                    + "); falling back to VNRecognizeTextRequest"@,
            )
        },
{
}

/// What a step shows is what it holds.
pub proof fn law_steps_are_shown_as_they_are(
    outcome: Result<OcrOutput, OcrError>,
    warning: String,
)
    ensures
        NextStep::Finish(outcome)@ == StepModel::Finish(outcome_model(outcome)),
        (NextStep::FallBack { warning: None })@ == (StepModel::FallBack { warning: None }),
        (NextStep::FallBack { warning: Some(warning) })@ == (StepModel::FallBack {
            warning: Some(warning@),
        }),
{
}

} // verus!
