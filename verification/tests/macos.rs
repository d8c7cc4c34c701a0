use system_ocr::float::double::Double;
use system_ocr::langs::resolve_langs;
use system_ocr::macos::bridge::{
    required_system_version, BridgeLoad, LoadEvent, LoadStage, EXPECTED_ABI_VERSION,
};
use system_ocr::macos::dispatch::{after_documents, first_recognizer, NextStep, Recognizer};
use system_ocr::macos::documents::{
    documents_outcome, documents_output, encode_langs, DocumentsBoundingBox, DocumentsLine,
    DocumentsPayload, DocumentsReply,
};
use system_ocr::macos::legacy::{legacy_outcome, text_request, Candidate, Observation};
use system_ocr::{OcrAccuracy, OcrError, OcrOutput};

fn double(value: f64) -> Double {
    Double::from_bits(value.to_bits())
}

fn native(value: Double) -> f64 {
    f64::from_bits(value.to_bits())
}

fn strings(list: &[&str]) -> Vec<String> {
    list.iter().map(|item| item.to_string()).collect()
}

fn candidate(text: &str, confidence: f32) -> Candidate {
    Candidate { text: text.to_string(), confidence: double(f64::from(confidence)) }
}

fn observation(candidates: Vec<Candidate>, x: f64, y: f64, width: f64, height: f64) -> Observation {
    Observation {
        candidates,
        x: double(x),
        y: double(y),
        width: double(width),
        height: double(height),
    }
}

fn recognized(observations: Vec<Observation>) -> OcrOutput {
    match legacy_outcome(Ok(Some(observations))) {
        Ok(output) => output,
        Err(error) => panic!("{}", error.message()),
    }
}

#[test]
fn requests_without_observations_have_no_text() {
    assert!(matches!(legacy_outcome(Ok(None)), Err(OcrError::NoTextRecognized)));
    assert!(matches!(legacy_outcome(Ok(Some(Vec::new()))), Err(OcrError::NoTextRecognized)));
}

#[test]
fn failed_requests_keep_their_description() {
    match legacy_outcome(Err("broken image".to_string())) {
        Err(OcrError::ErrorWithDesc(text)) => assert_eq!(text, "broken image"),
        _ => panic!("the request failed"),
    }
}

#[test]
fn text_is_put_together_in_order() {
    let output = recognized(vec![
        observation(vec![candidate("one", 0.5)], 0.25, 0.75, 0.5, 0.125),
        observation(vec![candidate("two", 1.0)], 0.25, 0.5, 0.5, 0.125),
        observation(vec![candidate("", 0.75)], 0.25, 0.5, 0.5, 0.125),
        observation(vec![candidate("low", 0.25)], 0.25, 0.0625, 0.5, 0.0625),
    ]);
    assert_eq!(output.text, "one two\nlow");
    assert_eq!(native(output.confidence), 0.625);
    let texts: Vec<&str> = output.lines.iter().map(|line| line.text.as_str()).collect();
    assert_eq!(texts, vec!["one", "two", "low"]);
    assert_eq!(native(output.lines[0].confidence), 0.5);
    assert_eq!(native(output.lines[0].bounding_box.x), 0.25);
    assert_eq!(native(output.lines[0].bounding_box.y), 0.125);
    assert_eq!(native(output.lines[0].bounding_box.width), 0.5);
    assert_eq!(native(output.lines[0].bounding_box.height), 0.125);
}

#[test]
fn line_breaks_begin_below_a_tenth() {
    let page = |y: f64| {
        recognized(vec![
            observation(vec![candidate("a", 1.0)], 0.1, 0.8, 0.1, 0.1),
            observation(vec![candidate("b", 1.0)], 0.1, y, 0.1, 0.1),
        ])
        .text
    };
    assert_eq!(page(0.1), "a b");
    assert_eq!(page(f64::from_bits(0.1f64.to_bits() - 1)), "a\nb");
    assert_eq!(page(f64::NAN), "a b");
}

#[test]
fn the_first_candidate_with_confidence_is_taken() {
    let output = recognized(vec![
        observation(
            vec![candidate("no", -0.5), candidate("nan", f32::NAN), candidate("yes", 0.0)],
            0.1,
            0.5,
            0.1,
            0.1,
        ),
        observation(vec![candidate("never", -1.0)], 0.1, 0.4, 0.1, 0.1),
        observation(Vec::new(), 0.1, 0.3, 0.1, 0.1),
    ]);
    assert_eq!(output.text, "yes");
    assert_eq!(output.lines.len(), 1);
    assert_eq!(native(output.confidence), 0.0);
}

#[test]
fn without_usable_candidates_the_confidence_is_zero() {
    let output = recognized(vec![observation(Vec::new(), 0.1, 0.3, 0.1, 0.1)]);
    assert_eq!(output.text, "");
    assert_eq!(native(output.confidence), 0.0);
    assert!(output.lines.is_empty());
}

#[test]
fn text_without_a_box_is_no_line() {
    let output = recognized(vec![
        observation(vec![candidate("flat", 1.0)], 0.1, 0.3, 0.1, 0.0),
        observation(vec![candidate("far", 0.5)], 1.5, 0.3, 0.1, 0.1),
    ]);
    assert_eq!(output.text, "flat far");
    assert_eq!(output.lines.len(), 0);
    assert_eq!(native(output.confidence), 0.75);
}

#[test]
fn confidences_are_averaged_in_single_precision() {
    let values = [0.1f32, 0.2, 0.3, 0.7, 0.9];
    let mut total = 0.0f32;
    for value in values {
        total += value;
    }
    let output = recognized(
        values
            .iter()
            .map(|value| observation(vec![candidate("t", *value)], 0.1, 0.3, 0.1, 0.1))
            .collect(),
    );
    assert_eq!(native(output.confidence), f64::from(total / values.len() as f32));
    assert!(native(output.confidence) >= 0.0 && native(output.confidence) <= 1.0);
}

#[test]
fn text_requests_are_set_up_alike() {
    let request = text_request(OcrAccuracy::Fast, strings(&["fr"]));
    assert_eq!(request.level, OcrAccuracy::Fast);
    assert_eq!(request.languages, strings(&["fr"]));
    assert!(request.uses_language_correction);
    assert!(request.automatically_detects_language);
    assert_eq!(native(request.minimum_text_height), f64::from(0.008f32));
    assert_eq!(request.candidates, 5);
}

fn document_line(text: &str, x: f64, y: f64, width: f64, height: f64) -> DocumentsLine {
    DocumentsLine {
        text: text.to_string(),
        confidence: double(0.5),
        bounding_box: DocumentsBoundingBox {
            x: double(x),
            y: double(y),
            width: double(width),
            height: double(height),
        },
    }
}

fn payload(text: &str) -> DocumentsPayload {
    DocumentsPayload {
        text: text.to_string(),
        lines: vec![
            document_line("first", 0.25, 0.25, 0.5, 0.125),
            document_line("nowhere", 2.0, 0.25, 0.5, 0.125),
            document_line("second", 0.75, 0.5, 0.5, 0.25),
        ],
    }
}

#[test]
fn documents_keep_the_lines_with_a_box() {
    let output = match documents_output(payload("# first\n\nsecond"), double(0.875)) {
        Ok(output) => output,
        Err(error) => panic!("{}", error.message()),
    };
    assert_eq!(output.text, "# first\n\nsecond");
    assert_eq!(native(output.confidence), 0.875);
    assert_eq!(output.lines.len(), 2);
    assert_eq!(output.lines[0].text, "first");
    assert_eq!(native(output.lines[0].confidence), 0.5);
    assert_eq!(output.lines[1].text, "second");
    assert_eq!(native(output.lines[1].bounding_box.width), 0.25);
}

#[test]
fn documents_of_white_space_have_no_text() {
    assert!(matches!(
        documents_output(payload(" \n\u{a0}"), double(1.0)),
        Err(OcrError::NoTextRecognized)
    ));
}

fn reply_message(reply: DocumentsReply) -> String {
    match documents_outcome(reply) {
        Ok(output) => output.text,
        Err(error) => error.message(),
    }
}

#[test]
fn replies_turn_into_outcomes() {
    assert_eq!(
        reply_message(DocumentsReply::SidecarMissing),
        "RecognizeDocumentsRequest sidecar unavailable"
    );
    assert_eq!(
        reply_message(DocumentsReply::LanguagesRejected("nul byte".to_string())),
        "Error nul byte"
    );
    assert_eq!(reply_message(DocumentsReply::PathRejected("nul".to_string())), "Error nul");
    assert_eq!(reply_message(DocumentsReply::Failed(Some("oops".to_string()))), "Error oops");
    assert_eq!(
        reply_message(DocumentsReply::Failed(None)),
        "Error Swift bridge returned null without an error description"
    );
    assert_eq!(
        reply_message(DocumentsReply::Answered {
            payload: Err("expected value at line 1 column 1".to_string()),
            failure: None,
            confidence: double(0.0),
        }),
        "Error Invalid documents sidecar payload: expected value at line 1 column 1"
    );
    assert_eq!(
        reply_message(DocumentsReply::Answered {
            payload: Ok(payload("found")),
            failure: Some("ignored".to_string()),
            confidence: double(1.0),
        }),
        "found"
    );
}

#[test]
fn languages_are_joined_with_commas() {
    assert_eq!(encode_langs(&strings(&["fr", "zh-cn"])), "fr,zh-cn");
    assert_eq!(encode_langs(&strings(&["en-US"])), "en-US");
}

#[test]
fn american_english_is_the_default() {
    assert_eq!(resolve_langs(Vec::new()), strings(&["en-US"]));
    assert_eq!(resolve_langs(strings(&["fr", "zh-cn"])), strings(&["fr", "zh-cn"]));
}

#[test]
fn documents_come_first_only_for_accuracy() {
    assert_eq!(first_recognizer(true, OcrAccuracy::Accurate), Recognizer::Documents);
    assert_eq!(first_recognizer(true, OcrAccuracy::Fast), Recognizer::Legacy);
    assert_eq!(first_recognizer(false, OcrAccuracy::Accurate), Recognizer::Legacy);
}

#[test]
fn successes_are_final() {
    for strict in [false, true] {
        let outcome = documents_output(payload("found"), double(1.0));
        match after_documents(outcome, strict) {
            NextStep::Finish(Ok(output)) => assert_eq!(output.text, "found"),
            _ => panic!("the success is the outcome"),
        }
    }
}

#[test]
fn failures_fall_back_unless_strict() {
    match after_documents(Err(OcrError::DocumentsSidecarUnavailable), false) {
        NextStep::FallBack { warning } => assert_eq!(warning, None),
        NextStep::Finish(_) => panic!("a missing sidecar is passed over"),
    }
    match after_documents(Err(OcrError::NoTextRecognized), false) {
        NextStep::FallBack { warning } => assert_eq!(
            warning,
            Some(
                "system-ocr: RecognizeDocumentsRequest failed (No text recognized); falling back \
                 to VNRecognizeTextRequest"
                    .to_string()
            )
        ),
        NextStep::Finish(_) => panic!("the failure is not final"),
    }
    assert!(matches!(
        after_documents(Err(OcrError::DocumentsSidecarUnavailable), true),
        NextStep::Finish(Err(OcrError::DocumentsSidecarUnavailable))
    ));
    assert!(matches!(
        after_documents(Err(OcrError::NoTextRecognized), true),
        NextStep::Finish(Err(OcrError::NoTextRecognized))
    ));
}

/// A loading in which the first `count` questions were answered well.
fn loading(count: usize) -> BridgeLoad {
    let events = vec![
        LoadEvent::System { supported: true },
        LoadEvent::Location(Some("/app/lib.dylib".to_string())),
        LoadEvent::File { present: true },
        LoadEvent::Encoding { valid: true },
        LoadEvent::Library { opened: true, failure: None },
        LoadEvent::VersionSymbol { found: true, failure: None },
        LoadEvent::Version(EXPECTED_ABI_VERSION),
        LoadEvent::EntryPoints { from_path: true, from_data: true, free: true, failure: None },
    ];
    let mut load = BridgeLoad::new();
    for event in events.into_iter().take(count) {
        assert_eq!(load.advance(event), None);
    }
    load
}

#[test]
fn loading_asks_its_questions_in_order() {
    let stages = [
        LoadStage::System,
        LoadStage::Location,
        LoadStage::File,
        LoadStage::Encoding,
        LoadStage::Library,
        LoadStage::VersionSymbol,
        LoadStage::Version,
        LoadStage::EntryPoints,
        LoadStage::Loaded,
    ];
    for (count, stage) in stages.into_iter().enumerate() {
        assert_eq!(loading(count).stage(), stage);
    }
    assert_eq!(loading(1).path(), "");
    assert_eq!(loading(2).path(), "/app/lib.dylib");
}

fn gives_up(count: usize, event: LoadEvent) -> Option<String> {
    let mut load = loading(count);
    let complaint = load.advance(event);
    assert_eq!(load.stage(), LoadStage::Unavailable);
    complaint
}

#[test]
fn absent_libraries_are_passed_over() {
    assert_eq!(gives_up(0, LoadEvent::System { supported: false }), None);
    assert_eq!(gives_up(1, LoadEvent::Location(None)), None);
    assert_eq!(gives_up(2, LoadEvent::File { present: false }), None);
    assert_eq!(gives_up(3, LoadEvent::Encoding { valid: false }), None);
}

#[test]
fn broken_libraries_are_reported() {
    let complaint = gives_up(4, LoadEvent::Library { opened: false, failure: None }).unwrap();
    assert_eq!(
        complaint,
        "system-ocr: sidecar at /app/lib.dylib failed to load: unknown dlopen error"
    );
    let failure = Some("wrong architecture".to_string());
    let complaint = gives_up(4, LoadEvent::Library { opened: false, failure }).unwrap();
    assert_eq!(
        complaint,
        "system-ocr: sidecar at /app/lib.dylib failed to load: wrong architecture"
    );
    let complaint = gives_up(5, LoadEvent::VersionSymbol { found: false, failure: None }).unwrap();
    assert_eq!(
        complaint,
        "system-ocr: sidecar at /app/lib.dylib missing recognize_documents_abi_version: \
         abi-version symbol missing"
    );
    assert_eq!(
        gives_up(6, LoadEvent::Version(31)).unwrap(),
        "system-ocr: sidecar at /app/lib.dylib ABI version 31 doesn't match expected 2 — \
         refusing to use"
    );
    for missing in 0..3 {
        let complaint = gives_up(
            7,
            LoadEvent::EntryPoints {
                from_path: missing != 0,
                from_data: missing != 1,
                free: missing != 2,
                failure: None,
            },
        )
        .unwrap();
        assert_eq!(
            complaint,
            "system-ocr: sidecar at /app/lib.dylib loaded but symbol lookup failed: missing \
             exported symbol"
        );
    }
}

#[test]
fn documents_need_a_recent_system() {
    let version = required_system_version();
    assert_eq!((version.major, version.minor, version.patch), (26, 0, 0));
}
