use system_ocr::float::double::Double;
use system_ocr::geometry::TextRotation;
use system_ocr::langs::resolve_langs;
use system_ocr::windows::image::{
    buffer_decoder, choose_decoder, file_to_open, ImageDecoder, OpenError,
};
use system_ocr::windows::page::{
    choose_engine, line_rect, page_outcome, NativeLine, NativePage, WordRect,
};
use system_ocr::{OcrError, OcrOutput};

fn double(value: f64) -> Double {
    Double::from_bits(value.to_bits())
}

fn native(value: Double) -> f64 {
    f64::from_bits(value.to_bits())
}

fn strings(list: &[&str]) -> Vec<String> {
    list.iter().map(|item| item.to_string()).collect()
}

#[test]
fn decoders_are_chosen_by_extension() {
    let cases = [
        (&["png"][..], Some(ImageDecoder::Png)),
        (&["jpg"], Some(ImageDecoder::Jpeg)),
        (&["jpe", "jpeg"], Some(ImageDecoder::Jpeg)),
        (&["bmp", "dib"], Some(ImageDecoder::Bmp)),
        (&["tif", "tiff"], Some(ImageDecoder::Tiff)),
        (&["gif"], Some(ImageDecoder::Gif)),
        (&["hdp", "jxr"], Some(ImageDecoder::JpegXr)),
        (&["webp"], Some(ImageDecoder::Webp)),
        (&["heic", "heif"], Some(ImageDecoder::Heif)),
        (&["heif", "png"], Some(ImageDecoder::Png)),
        (&["PNG"], None),
        (&["tif"], None),
        (&[], None),
    ];
    for (extensions, decoder) in cases {
        assert_eq!(choose_decoder(&strings(extensions)), decoder);
    }
}

#[test]
fn buffers_are_recognized_by_their_bytes() {
    let mut png = vec![0x89, b'P', b'N', b'G', 0x0d, 0x0a, 0x1a, 0x0a, 0, 0, 0, 0x0d];
    png.extend_from_slice(b"IHDR\x00\x00\x00\x01\x00\x00\x00\x01\x08\x02\x00\x00\x00");
    assert_eq!(buffer_decoder(&png), Ok(ImageDecoder::Png));
    let gif = b"GIF89a\x00\x00\x00\x00\x00\x00\x00;";
    assert_eq!(buffer_decoder(gif), Ok(ImageDecoder::Gif));
}

#[test]
fn buffers_agree_with_the_detected_type() {
    let samples: Vec<Vec<u8>> = vec![
        b"GIF87a\x01\x00".to_vec(),
        b"BM\x00\x00\x00\x00".to_vec(),
        b"II*\x00\x08\x00\x00\x00".to_vec(),
        b"MM\x00*\x00\x00\x00\x08".to_vec(),
        b"RIFF\x24\x00\x00\x00WEBPVP8 ".to_vec(),
        b"\xff\xd8\xff\xe0\x00\x10JFIF\x00\x01\x01".to_vec(),
        b"\xff\xd8\xff\xd9".to_vec(),
        b"II\xbc\x01\x20\x00\x00\x00".to_vec(),
        b"%PDF-1.4".to_vec(),
        b"hello".to_vec(),
        Vec::new(),
    ];
    for sample in samples {
        let extensions = file_type::FileType::from_bytes(&sample).extensions();
        let expected = choose_decoder(&strings(extensions));
        assert_eq!(buffer_decoder(&sample).ok(), expected);
    }
}

#[test]
fn other_bytes_are_refused() {
    assert_eq!(buffer_decoder(b"hello, world\n"), Err(OpenError::FormatNotRecognized));
    assert_eq!(buffer_decoder(&[]), Err(OpenError::FormatNotRecognized));
    assert_eq!(OpenError::FormatNotRecognized.message(), "Could not recognize file");
    assert_eq!(OpenError::FormatNotRecognized.code(), 0x8007_0005);
}

#[test]
fn files_lose_the_mark_of_extended_paths() {
    assert_eq!(
        file_to_open(Some("\\\\?\\C:\\images\\a.png".to_string())),
        Ok(("C:\\images\\a.png".to_string(), ImageDecoder::Png))
    );
    assert_eq!(
        file_to_open(Some("C:\\images\\a.jpg".to_string())),
        Ok(("C:\\images\\a.jpg".to_string(), ImageDecoder::Png))
    );
    assert_eq!(file_to_open(None), Err(OpenError::FileNotOpened));
    assert_eq!(OpenError::FileNotOpened.message(), "Could not open file");
    assert_eq!(OpenError::FileNotOpened.code(), 0x8007_0005);
}

#[test]
fn only_the_first_language_counts() {
    assert_eq!(choose_engine(&strings(&["fr", "zh-cn"])), "fr");
    assert_eq!(choose_engine(&strings(&["fr"])), "fr");
}

#[test]
fn the_engine_is_american_english_by_default() {
    assert_eq!(choose_engine(&Vec::new()), "en-US");
    assert_eq!(choose_engine(&Vec::new()), choose_engine(&strings(&["en-US"])));
    assert_eq!(choose_engine(&Vec::new()), choose_engine(&resolve_langs(Vec::new())));
}

fn word(x: f32, y: f32, width: f32, height: f32) -> WordRect {
    WordRect {
        x: double(f64::from(x)),
        y: double(f64::from(y)),
        width: double(f64::from(width)),
        height: double(f64::from(height)),
    }
}

fn line(text: &str, words: Vec<WordRect>) -> Result<NativeLine, String> {
    Ok(NativeLine { words, text: Ok(text.to_string()) })
}

fn page(lines: Vec<Result<NativeLine, String>>) -> NativePage {
    NativePage { width: 100, height: 200, text: "whole page".to_string(), rotation: None, lines }
}

fn recognized(page: NativePage) -> OcrOutput {
    match page_outcome(Ok(page)) {
        Ok(output) => output,
        Err(error) => panic!("{}", error.message()),
    }
}

fn failure(page: Result<NativePage, String>) -> String {
    match page_outcome(page) {
        Err(OcrError::WindowsError(text)) => text,
        _ => panic!("the recognition fails"),
    }
}

#[test]
fn lines_reach_around_their_words() {
    let rect = line_rect(&vec![word(10.0, 20.0, 5.0, 4.0), word(16.0, 18.0, 8.0, 5.0)]).unwrap();
    assert_eq!(native(rect.left), 10.0);
    assert_eq!(native(rect.top), 18.0);
    assert_eq!(native(rect.right), 24.0);
    assert_eq!(native(rect.bottom), 24.0);
    assert!(line_rect(&Vec::new()).is_none());
}

#[test]
fn pages_have_confidence_one() {
    let output = recognized(page(vec![
        line("first", vec![word(10.0, 20.0, 15.0, 20.0), word(25.0, 20.0, 25.0, 20.0)]),
        line("no words", Vec::new()),
        line("empty word", vec![word(10.0, 20.0, 0.0, 20.0)]),
        line("second", vec![word(0.0, 100.0, 50.0, 50.0)]),
    ]));
    assert_eq!(output.text, "whole page");
    assert_eq!(native(output.confidence), 1.0);
    assert_eq!(output.lines.len(), 2);
    assert_eq!(output.lines[0].text, "first");
    assert_eq!(native(output.lines[0].confidence), 1.0);
    assert_eq!(native(output.lines[0].bounding_box.x), 0.1);
    assert_eq!(native(output.lines[0].bounding_box.y), 0.1);
    assert_eq!(native(output.lines[0].bounding_box.width), 0.4);
    assert_eq!(native(output.lines[0].bounding_box.height), 0.1);
    assert_eq!(output.lines[1].text, "second");
    assert_eq!(native(output.lines[1].bounding_box.width), 0.5);
}

#[test]
fn rotated_pages_turn_their_lines() {
    let (sin, cos) = 90.0f64.to_radians().sin_cos();
    let mut turned = page(vec![line("up", vec![word(10.0, 20.0, 20.0, 20.0)])]);
    turned.height = 100;
    turned.rotation =
        Some(TextRotation { degrees: double(90.0), sin: double(sin), cos: double(cos) });
    let output = recognized(turned);
    assert!((native(output.lines[0].bounding_box.x) - 0.6).abs() < 1e-10);
    assert!((native(output.lines[0].bounding_box.y) - 0.1).abs() < 1e-10);
}

#[test]
fn pages_without_area_have_no_lines() {
    let mut empty = page(vec![line("first", vec![word(10.0, 20.0, 15.0, 20.0)])]);
    empty.width = 0;
    assert!(recognized(empty).lines.is_empty());
    let mut negative = page(vec![line("first", vec![word(10.0, 20.0, 15.0, 20.0)])]);
    negative.height = i32::MIN;
    assert!(recognized(negative).lines.is_empty());
}

#[test]
fn failures_keep_their_description() {
    assert_eq!(failure(Err("no engine".to_string())), "no engine");
    assert_eq!(
        failure(Ok(page(vec![
            line("first", vec![word(10.0, 20.0, 15.0, 20.0)]),
            Err("no words".to_string()),
            Err("later".to_string()),
        ]))),
        "no words"
    );
    let denied = |words: Vec<WordRect>| NativeLine { words, text: Err("no text".to_string()) };
    assert_eq!(failure(Ok(page(vec![Ok(denied(vec![word(1.0, 1.0, 5.0, 5.0)]))]))), "no text");
    assert!(recognized(page(vec![Ok(denied(Vec::new()))])).lines.is_empty());
}
