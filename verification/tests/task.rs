use system_ocr::float::double::Double;
use system_ocr::task::ImageSource;
use system_ocr::{recognize, OcrAccuracy, OcrError, OcrOutput, RecognizeTask};

fn path(text: &str) -> ImageSource {
    ImageSource::Path(text.to_string())
}

#[test]
fn recognition_is_accurate_by_default() {
    let mut task = recognize(path("a.png"), None, None);
    let request = task.take_request();
    assert_eq!(request.accuracy, OcrAccuracy::Accurate);
    assert!(request.preferred_langs.is_empty());
    match request.image {
        ImageSource::Path(text) => assert_eq!(text, "a.png"),
        ImageSource::Buffer(_) => panic!("the image is a path"),
    }
}

#[test]
fn requests_hold_what_was_asked_for() {
    let langs = vec!["fr".to_string(), "zh-cn".to_string()];
    let image = ImageSource::Buffer(vec![1, 2, 3]);
    let mut task = recognize(image, Some(OcrAccuracy::Fast), Some(langs.clone()));
    let request = task.take_request();
    assert_eq!(request.accuracy, OcrAccuracy::Fast);
    assert_eq!(request.preferred_langs, langs);
    match request.image {
        ImageSource::Buffer(bytes) => assert_eq!(bytes, vec![1, 2, 3]),
        ImageSource::Path(_) => panic!("the image is a buffer"),
    }
}

#[test]
fn requests_are_taken_once() {
    let langs = vec!["fr".to_string()];
    let mut task = recognize(path("a.png"), Some(OcrAccuracy::Fast), Some(langs));
    let _ = task.take_request();
    let second = task.take_request();
    assert_eq!(second.accuracy, OcrAccuracy::Fast);
    assert!(second.preferred_langs.is_empty());
    match second.image {
        ImageSource::Path(text) => assert_eq!(text, ""),
        ImageSource::Buffer(_) => panic!("an empty path stays behind"),
    }
}

#[test]
fn outcomes_are_handed_on() {
    let output = OcrOutput {
        text: "found".to_string(),
        confidence: Double::one(),
        lines: Vec::new(),
    };
    match RecognizeTask::finish(Ok(output)) {
        Ok(result) => {
            assert_eq!(result.text, "found");
            assert_eq!(result.confidence, Double::one());
            assert!(result.lines.is_empty());
        }
        Err(error) => panic!("{}", error.message()),
    }
    assert!(matches!(
        RecognizeTask::finish(Err(OcrError::NoTextRecognized)),
        Err(OcrError::NoTextRecognized)
    ));
}

#[test]
fn errors_have_messages() {
    let cases = [
        (OcrError::VNRecognizeTextRequest, "Failed to allocate VNRecognizeTextRequest"),
        (OcrError::VNRecognizeTextRequestInit, "Failed to initialize VNRecognizeTextRequest"),
        (OcrError::NoTextRecognized, "No text recognized"),
        (OcrError::UnknownVisionError, "Unknown Vision error"),
        (OcrError::ErrorWithDesc("x".to_string()), "Error x"),
        (OcrError::LocalizedDescription, "Failed to get localized description"),
        (OcrError::StringFromFirstObject, "Failed to get string from first object"),
        (OcrError::WindowsError("y".to_string()), "Windows error y"),
        (
            OcrError::DocumentsSidecarUnavailable,
            "RecognizeDocumentsRequest sidecar unavailable",
        ),
    ];
    for (error, message) in cases {
        assert_eq!(error.message(), message);
    }
}
