use std::path::Path;
use system_ocr::macos::location::sidecar_path;
use system_ocr::text::{characters, is_blank, join, remove_all, to_decimal};

fn strings(list: &[&str]) -> Vec<String> {
    list.iter().map(|item| item.to_string()).collect()
}

#[test]
fn white_space_is_that_of_unicode() {
    for code in 0..=0x10ffffu32 {
        if let Some(c) = char::from_u32(code) {
            assert_eq!(is_blank(&c.to_string()), c.is_whitespace(), "{code:x}");
        }
    }
    assert!(is_blank(""));
    assert!(is_blank(" \t\r\n\u{3000}"));
    assert!(!is_blank("  a  "));
}

#[test]
fn joining_puts_the_separator_between_texts() {
    for list in [&[][..], &["a"], &["a", "b"], &["", "x", "", "é"], &["fr", "zh-cn", "en-US"]] {
        assert_eq!(join(&strings(list), ","), list.join(","));
        assert_eq!(join(&strings(list), "--"), list.join("--"));
    }
}

#[test]
fn joined_texts_split_again() {
    let list = strings(&["fr", "", "en-US"]);
    let joined = join(&list, ",");
    let pieces: Vec<String> = joined.split(',').map(String::from).collect();
    assert_eq!(pieces, list);
}

#[test]
fn removal_goes_from_left_to_right() {
    let texts = ["", "\\\\?\\C:\\a.png", "C:\\a.png", "aaa", "aaaa", "xaay", "ab", "éaaé"];
    for text in texts {
        for pattern in ["\\\\?\\", "aa", "a", "é", "aaaaaaaaaaaa"] {
            assert_eq!(remove_all(text, pattern), text.replace(pattern, ""));
        }
    }
}

#[test]
fn numbers_are_written_in_decimal() {
    for n in [0, 1, 9, 10, 26, 99, 100, 4_294_967_295] {
        assert_eq!(to_decimal(n), n.to_string());
    }
}

#[test]
fn characters_are_those_of_the_text() {
    assert_eq!(characters("aé\u{1f600}"), vec!['a', 'é', '\u{1f600}']);
}

#[test]
fn sidecar_lies_beside_the_image() {
    assert_eq!(sidecar_path(None), None);
    assert_eq!(
        sidecar_path(Some("/opt/app/index.node".to_string())),
        Some("/opt/app/librecognize_documents.dylib".to_string())
    );
    assert_eq!(
        sidecar_path(Some("/index.node".to_string())),
        Some("/librecognize_documents.dylib".to_string())
    );
    assert_eq!(
        sidecar_path(Some("index.node".to_string())),
        Some("librecognize_documents.dylib".to_string())
    );
    assert_eq!(sidecar_path(Some("/".to_string())), None);
    assert_eq!(sidecar_path(Some(String::new())), None);
}

#[test]
fn sidecar_path_agrees_with_the_paths_of_the_system() {
    let alphabet = ['/', '.', 'a', 'é'];
    let mut paths = vec![String::new()];
    let mut level = paths.clone();
    for _ in 0..7 {
        let mut next = Vec::new();
        for path in &level {
            for c in alphabet {
                let mut longer = path.clone();
                longer.push(c);
                next.push(longer);
            }
        }
        paths.extend(next.iter().cloned());
        level = next;
    }
    for path in paths {
        let expected = Path::new(&path)
            .parent()
            .map(|p| p.join("librecognize_documents.dylib").to_str().unwrap().to_string());
        assert_eq!(sidecar_path(Some(path.clone())), expected, "{path}");
    }
}
