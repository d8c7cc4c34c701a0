use vstd::prelude::*;
use crate::text::{
    law_occurrences_are_removed_from_left_to_right, remove_all, removed, texts,
};

verus! {

/// The extensions of the type of file that the `file_type` crate takes `bytes`
/// for.
pub uninterp spec fn detected_extensions(bytes: Seq<u8>) -> Seq<Seq<char>>;

/// Calls `file_type::FileType::from_bytes` and then `extensions` on the type
/// that it finds. The contract claims that the extensions, in their order, are
/// a function of the bytes alone: the crate holds the bytes against a fixed
/// table of signatures. Which extensions go with which bytes is not said.
#[verifier::external_body]
fn file_extensions(bytes: &[u8]) -> (r: Vec<String>)
    ensures
        texts(r@) == detected_extensions(bytes@),
{
    file_type::FileType::from_bytes(bytes).extensions().iter().map(|e| e.to_string()).collect()
}

/// The image formats that Windows decodes.
#[derive(Debug, Clone, Copy, PartialEq, Eq, Structural)]
pub enum ImageDecoder {
    Png,
    Jpeg,
    Bmp,
    Tiff,
    Gif,
    JpegXr,
    Webp,
    Heif,
}

/// Why an image cannot be opened.
#[derive(Debug, Clone, Copy, PartialEq, Eq, Structural)]
pub enum OpenError {
    /// There is no file at the path.
    FileNotOpened,
    /// The bytes are of no known image format.
    FormatNotRecognized,
}

/// The code of the system for a denied access.
pub const E_ACCESSDENIED: u32 = 0x8007_0005;

impl OpenError {
    /// The error code of the system.
    pub fn code(self) -> (r: u32)
        ensures
            r == E_ACCESSDENIED,
            r == 0x8007_0005,
    {
        E_ACCESSDENIED
    }

    /// What the error says.
    pub open spec fn words(self) -> Seq<char> {
        match self {
            OpenError::FileNotOpened => "Could not open file"@,
            OpenError::FormatNotRecognized => "Could not recognize file"@,
        }
    }

    /// What the error says.
    pub fn message(self) -> (r: &'static str)
        ensures
            r@ == self.words(),
    {
        match self {
            OpenError::FileNotOpened => "Could not open file",
            OpenError::FormatNotRecognized => "Could not recognize file",
        }
    }
}

/// The decoder for a file type with the given extensions. Where several would
/// do, the first of the list below is taken.
pub open spec fn decoder_model(extensions: Seq<Seq<char>>) -> Option<ImageDecoder> {
    if extensions.contains("png"@) {
        Some(ImageDecoder::Png)
    } else if extensions.contains("jpg"@) || extensions.contains("jpeg"@) {
        Some(ImageDecoder::Jpeg)
    } else if extensions.contains("bmp"@) {
        Some(ImageDecoder::Bmp)
    } else if extensions.contains("tiff"@) {
        Some(ImageDecoder::Tiff)
    } else if extensions.contains("gif"@) {
        Some(ImageDecoder::Gif)
    } else if extensions.contains("jxr"@) {
        Some(ImageDecoder::JpegXr)
    } else if extensions.contains("webp"@) {
        Some(ImageDecoder::Webp)
    } else if extensions.contains("heif"@) {
        Some(ImageDecoder::Heif)
    } else {
        None
    }
}

/// Whether `wanted` is one of the extensions.
fn has_extension(extensions: &Vec<String>, wanted: &str) -> (b: bool)
    ensures
        b == texts(extensions@).contains(wanted@),
{
    let owned = wanted.to_owned();
    let ghost all = texts(extensions@);
    let mut i: usize = 0;
    while i < extensions.len()
        invariant
            i <= extensions.len(),
            all == texts(extensions@),
            owned@ == wanted@,
            forall|j: int| 0 <= j < i ==> all[j] != wanted@,
        decreases extensions.len() - i,
    {
        if extensions[i] == owned {
            assert(all[i as int] == wanted@);
            return true;
        }
        i = i + 1;
    }
    false
}

/// Picks the decoder for a file type with the given extensions.
pub fn choose_decoder(extensions: &Vec<String>) -> (r: Option<ImageDecoder>)
    ensures
        r == decoder_model(texts(extensions@)),
{
    if has_extension(extensions, "png") {
        Some(ImageDecoder::Png)
    } else if has_extension(extensions, "jpg") || has_extension(extensions, "jpeg") {
        Some(ImageDecoder::Jpeg)
    } else if has_extension(extensions, "bmp") {
        Some(ImageDecoder::Bmp)
    } else if has_extension(extensions, "tiff") {
        Some(ImageDecoder::Tiff)
    } else if has_extension(extensions, "gif") {
        Some(ImageDecoder::Gif)
    } else if has_extension(extensions, "jxr") {
        Some(ImageDecoder::JpegXr)
    } else if has_extension(extensions, "webp") {
        Some(ImageDecoder::Webp)
    } else if has_extension(extensions, "heif") {
        Some(ImageDecoder::Heif)
    } else {
        None
    }
}

/// What comes of bytes that are taken for a file type with the given extensions.
pub open spec fn recognized(extensions: Seq<Seq<char>>) -> Result<ImageDecoder, OpenError> {
    match decoder_model(extensions) {
        Some(decoder) => Ok(decoder),
        None => Err(OpenError::FormatNotRecognized),
    }
}

/// Picks the decoder for the bytes of an image by what they look like.
pub fn buffer_decoder(bytes: &[u8]) -> (r: Result<ImageDecoder, OpenError>)
    ensures
        r == recognized(detected_extensions(bytes@)),
        r == match decoder_model(detected_extensions(bytes@)) {
            Some(decoder) => Ok::<ImageDecoder, OpenError>(decoder),
            None => Err(OpenError::FormatNotRecognized),
        },
{
    let extensions = file_extensions(bytes);
    match choose_decoder(&extensions) {
        Some(decoder) => Ok(decoder),
        None => Err(OpenError::FormatNotRecognized),
    }
}

/// The mark of an extended path, which the storage interface does not take.
pub open spec fn extended_prefix() -> Seq<char> {
    "\\\\?\\"@
}

/// The path and the decoder that a file is opened with.
pub open spec fn opened(canonical: Option<Seq<char>>) -> Result<
    (Seq<char>, ImageDecoder),
    OpenError,
> {
    match canonical {
        Some(path) => Ok((removed(path, extended_prefix()), ImageDecoder::Png)),
        None => Err(OpenError::FileNotOpened),
    }
}

/// The path under which a file is opened. `canonical` is its canonical path,
/// if it has one; the marks of extended paths are taken out. A file is always
/// decoded as PNG.
pub fn file_to_open(canonical: Option<String>) -> (r: Result<(String, ImageDecoder), OpenError>)
    ensures
        match canonical {
            Some(path) => r matches Ok((cleaned, decoder)) && cleaned@ == removed(
                path@,
                extended_prefix(),
            ) && decoder == ImageDecoder::Png,
            None => r == Err::<(String, ImageDecoder), OpenError>(OpenError::FileNotOpened),
        },
        ({
            let shown = match canonical {
                Some(path) => Some(path@),
                None => None,
            };
            match r {
                Ok((cleaned, decoder)) => opened(shown) == Ok::<
                    (Seq<char>, ImageDecoder),
                    OpenError,
                >((cleaned@, decoder)),
                Err(error) => opened(shown) == Err::<(Seq<char>, ImageDecoder), OpenError>(error),
            }
        }),
{
    match canonical {
        Some(path) => Ok((remove_all(path.as_str(), "\\\\?\\"), ImageDecoder::Png)),
        None => Err(OpenError::FileNotOpened),
    }
}

/// A path that comes with one mark at its front, and no mark further on, loses
/// that mark and nothing else; a path without a mark stays as it is.
pub proof fn law_only_the_mark_is_taken_out(path: Seq<char>, mark: Seq<char>)
    requires
        mark.len() > 0,
        forall|i: int|
            0 <= i <= path.len() - mark.len() ==> #[trigger] path.subrange(i, i + mark.len())
                != mark,
    ensures
        removed(path, mark) == path,
        removed(mark + path, mark) == path,
    decreases path.len(),
{
    let n = mark.len() as int;
    if path.len() >= n {
        assert(path.take(n) =~= path.subrange(0, 0 + n));
        let rest = path.skip(1);
        assert forall|i: int| 0 <= i <= rest.len() - n implies #[trigger] rest.subrange(i, i + n)
            != mark by {
            assert(rest.subrange(i, i + n) =~= path.subrange(i + 1, i + 1 + n));
        }
        law_only_the_mark_is_taken_out(rest, mark);
        assert(seq![path[0]] + rest =~= path);
    }
    assert((mark + path).take(n) =~= mark);
    assert((mark + path).skip(n) =~= path);
}

/// Every decoder is chosen by an extension of its own format, and none is
/// chosen without one.
pub proof fn law_decoder_matches_an_extension(extensions: Seq<Seq<char>>)
    ensures
        match decoder_model(extensions) {
            Some(ImageDecoder::Png) => extensions.contains("png"@),
            Some(ImageDecoder::Jpeg) => extensions.contains("jpg"@) || extensions.contains(
                "jpeg"@,
            ),
            Some(ImageDecoder::Bmp) => extensions.contains("bmp"@),
            Some(ImageDecoder::Tiff) => extensions.contains("tiff"@),
            Some(ImageDecoder::Gif) => extensions.contains("gif"@),
            Some(ImageDecoder::JpegXr) => extensions.contains("jxr"@),
            Some(ImageDecoder::Webp) => extensions.contains("webp"@),
            Some(ImageDecoder::Heif) => extensions.contains("heif"@),
            None => !extensions.contains("png"@) && !extensions.contains("jpg"@)
                && !extensions.contains("jpeg"@) && !extensions.contains("bmp"@)
                && !extensions.contains("tiff"@) && !extensions.contains("gif"@)
                && !extensions.contains("jxr"@) && !extensions.contains("webp"@)
                && !extensions.contains("heif"@),
        },
{
}

/// The decoder is that of the first format of the list that an extension speaks
/// for: PNG, JPEG, BMP, TIFF, GIF, JPEG XR, WebP and HEIF, in this order. Where
/// none does, there is no decoder.
pub proof fn law_earlier_formats_come_first(extensions: Seq<Seq<char>>)
    ensures
        ({
            let png = extensions.contains("png"@);
            let jpeg = extensions.contains("jpg"@) || extensions.contains("jpeg"@);
            let bmp = extensions.contains("bmp"@);
            let tiff = extensions.contains("tiff"@);
            let gif = extensions.contains("gif"@);
            let jxr = extensions.contains("jxr"@);
            let webp = extensions.contains("webp"@);
            let heif = extensions.contains("heif"@);
            let decoder = decoder_model(extensions);
            &&& png ==> decoder == Some(ImageDecoder::Png)
            &&& jpeg && !png ==> decoder == Some(ImageDecoder::Jpeg)
            &&& bmp && !jpeg && !png ==> decoder == Some(ImageDecoder::Bmp)
            &&& tiff && !bmp && !jpeg && !png ==> decoder == Some(ImageDecoder::Tiff)
            &&& gif && !tiff && !bmp && !jpeg && !png ==> decoder == Some(ImageDecoder::Gif)
            &&& jxr && !gif && !tiff && !bmp && !jpeg && !png ==> decoder == Some(
                ImageDecoder::JpegXr,
            )
            &&& webp && !jxr && !gif && !tiff && !bmp && !jpeg && !png ==> decoder == Some(
                ImageDecoder::Webp,
            )
            &&& heif && !webp && !jxr && !gif && !tiff && !bmp && !jpeg && !png ==> decoder == Some(
                ImageDecoder::Heif,
            )
            &&& !heif && !webp && !jxr && !gif && !tiff && !bmp && !jpeg && !png
                ==> decoder is None
        }),
{
}

/// The order of the extensions does not matter, nor how often one occurs: the
/// same extensions have the same decoder.
pub proof fn law_decoder_depends_on_the_extensions_alone(a: Seq<Seq<char>>, b: Seq<Seq<char>>)
    requires
        forall|e: Seq<char>| #[trigger] a.contains(e) <==> b.contains(e),
    ensures
        decoder_model(a) == decoder_model(b),
{
}

/// The mark of an extended path is two backslashes, a question mark and a
/// backslash.
pub proof fn law_mark_of_extended_paths()
    ensures
        extended_prefix() == seq!['\\', '\\', '?', '\\'],
{
    reveal_strlit("\\\\?\\");
    assert(extended_prefix() =~= seq!['\\', '\\', '?', '\\']);
}

/// What the errors say.
pub proof fn law_open_errors_say_what_failed(error: OpenError)
    ensures
        error is FileNotOpened ==> error.words() == "Could not open file"@,
        error is FormatNotRecognized ==> error.words() == "Could not recognize file"@,
{
}

/// A file without a canonical path cannot be opened. Any other is opened as PNG:
/// under its path, if that has no mark of an extended path in it, and else
/// under what is left without the marks.
pub proof fn law_files_are_opened_without_marks(path: Seq<char>, first: nat)
    requires
        forall|i: int|
            0 <= i < first && i + 4 <= path.len() ==> #[trigger] path.subrange(i, i + 4) != seq![
                '\\',
                '\\',
                '?',
                '\\',
            ],
    ensures
        opened(None) == Err::<(Seq<char>, ImageDecoder), OpenError>(OpenError::FileNotOpened),
        opened(Some(path)) matches Ok((_, decoder)) && decoder is Png,
        first + 4 > path.len() ==> opened(Some(path))->Ok_0.0 == path,
        first + 4 <= path.len() && path.subrange(first as int, (first + 4) as int) == seq![
            '\\',
            '\\',
            '?',
            '\\',
        ] ==> opened(Some(path))->Ok_0.0 == path.take(first as int) + opened(
            Some(path.skip((first + 4) as int)),
        )->Ok_0.0,
{
    law_mark_of_extended_paths();
    law_occurrences_are_removed_from_left_to_right(path, extended_prefix(), first);
}

/// The decoder for the bytes of an image is the one for the extensions that
/// they are taken for, and where there is none the format is not recognized.
pub proof fn law_bytes_without_a_decoder_are_not_recognized(extensions: Seq<Seq<char>>)
    ensures
        recognized(extensions) is Ok <==> decoder_model(extensions) is Some,
        recognized(extensions) matches Ok(decoder) ==> decoder_model(extensions) == Some(decoder),
        recognized(extensions) matches Err(error) ==> error is FormatNotRecognized,
{
}

} // verus!
