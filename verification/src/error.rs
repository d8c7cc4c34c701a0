use vstd::prelude::*;

verus! {

/// Why a recognition failed.
#[derive(Debug)]
pub enum OcrError {
    VNRecognizeTextRequest,
    VNRecognizeTextRequestInit,
    NoTextRecognized,
    UnknownVisionError,
    ErrorWithDesc(String),
    LocalizedDescription,
    StringFromFirstObject,
    WindowsError(String),
    /// The sidecar library for document recognition could not be loaded: the
    /// operating system is too old, or the library or its runtime is missing.
    /// It is told apart from the failures of a sidecar that is present.
    DocumentsSidecarUnavailable,
}

/// What an error stands for.
pub enum ErrorModel {
    VNRecognizeTextRequest,
    VNRecognizeTextRequestInit,
    NoTextRecognized,
    UnknownVisionError,
    ErrorWithDesc(Seq<char>),
    LocalizedDescription,
    StringFromFirstObject,
    WindowsError(Seq<char>),
    DocumentsSidecarUnavailable,
}

impl View for OcrError {
    type V = ErrorModel;

    open spec fn view(&self) -> ErrorModel {
        match self {
            OcrError::VNRecognizeTextRequest => ErrorModel::VNRecognizeTextRequest,
            OcrError::VNRecognizeTextRequestInit => ErrorModel::VNRecognizeTextRequestInit,
            OcrError::NoTextRecognized => ErrorModel::NoTextRecognized,
            OcrError::UnknownVisionError => ErrorModel::UnknownVisionError,
            OcrError::ErrorWithDesc(text) => ErrorModel::ErrorWithDesc(text@),
            OcrError::LocalizedDescription => ErrorModel::LocalizedDescription,
            OcrError::StringFromFirstObject => ErrorModel::StringFromFirstObject,
            OcrError::WindowsError(text) => ErrorModel::WindowsError(text@),
            OcrError::DocumentsSidecarUnavailable => ErrorModel::DocumentsSidecarUnavailable,
        }
    }
}

impl ErrorModel {
    /// The message that a user gets to see.
    pub open spec fn message(self) -> Seq<char> {
        match self {
            ErrorModel::VNRecognizeTextRequest => "Failed to allocate VNRecognizeTextRequest"@,
            ErrorModel::VNRecognizeTextRequestInit => {
                "Failed to initialize VNRecognizeTextRequest"@
            },
            ErrorModel::NoTextRecognized => "No text recognized"@,
            ErrorModel::UnknownVisionError => "Unknown Vision error"@,
            ErrorModel::ErrorWithDesc(text) => "Error "@ + text,
            ErrorModel::LocalizedDescription => "Failed to get localized description"@,
            ErrorModel::StringFromFirstObject => "Failed to get string from first object"@,
            ErrorModel::WindowsError(text) => "Windows error "@ + text,
            ErrorModel::DocumentsSidecarUnavailable => {
                "RecognizeDocumentsRequest sidecar unavailable"@
            },
        }
    }
}

impl OcrError {
    /// The message that a user gets to see.
    pub fn message(&self) -> (r: String)
        ensures
            r@ == self@.message(),
    {
        match self {
            OcrError::VNRecognizeTextRequest => {
                "Failed to allocate VNRecognizeTextRequest".to_owned()
            },
            OcrError::VNRecognizeTextRequestInit => {
                "Failed to initialize VNRecognizeTextRequest".to_owned()
            },
            OcrError::NoTextRecognized => "No text recognized".to_owned(),
            OcrError::UnknownVisionError => "Unknown Vision error".to_owned(),
            OcrError::ErrorWithDesc(text) => {
                let mut r = "Error ".to_owned();
                r.append(text.as_str());
                r
            },
            OcrError::LocalizedDescription => "Failed to get localized description".to_owned(),
            OcrError::StringFromFirstObject => "Failed to get string from first object".to_owned(),
            OcrError::WindowsError(text) => {
                let mut r = "Windows error ".to_owned();
                r.append(text.as_str());
                r
            },
            OcrError::DocumentsSidecarUnavailable => {
                "RecognizeDocumentsRequest sidecar unavailable".to_owned()
            },
        }
    }
}

/// Every error has a message of its own; those that come with a description
/// have it at their end.
pub proof fn law_messages_tell_what_went_wrong(text: Seq<char>)
    ensures
        ErrorModel::VNRecognizeTextRequest.message()
            == "Failed to allocate VNRecognizeTextRequest"@,
        ErrorModel::VNRecognizeTextRequestInit.message()
            == "Failed to initialize VNRecognizeTextRequest"@,
        ErrorModel::NoTextRecognized.message() == "No text recognized"@,
        ErrorModel::UnknownVisionError.message() == "Unknown Vision error"@,
        ErrorModel::ErrorWithDesc(text).message() == "Error "@ + text,
        ErrorModel::LocalizedDescription.message() == "Failed to get localized description"@,
        ErrorModel::StringFromFirstObject.message() == "Failed to get string from first object"@,
        ErrorModel::WindowsError(text).message() == "Windows error "@ + text,
        ErrorModel::DocumentsSidecarUnavailable.message()
            == "RecognizeDocumentsRequest sidecar unavailable"@,
{
}

/// What an error shows is what it is.
pub proof fn law_errors_are_shown_as_they_are(error: OcrError)
    ensures
        error is VNRecognizeTextRequest <==> error@ is VNRecognizeTextRequest,
        error is VNRecognizeTextRequestInit <==> error@ is VNRecognizeTextRequestInit,
        error is NoTextRecognized <==> error@ is NoTextRecognized,
        error is UnknownVisionError <==> error@ is UnknownVisionError,
        error is LocalizedDescription <==> error@ is LocalizedDescription,
        error is StringFromFirstObject <==> error@ is StringFromFirstObject,
        error is DocumentsSidecarUnavailable <==> error@ is DocumentsSidecarUnavailable,
        error matches OcrError::ErrorWithDesc(text) ==> error@ == ErrorModel::ErrorWithDesc(text@),
        error matches OcrError::WindowsError(text) ==> error@ == ErrorModel::WindowsError(text@),
{
}

} // verus!
