use vstd::prelude::*;
use vstd::arithmetic::power2::{
    lemma2_to64_rest, lemma_pow2_adds, lemma_pow2_pos, lemma_pow2_strictly_increases, pow2,
};
use crate::error::{ErrorModel, OcrError};
use crate::float::double::Double;
use crate::float::laws::law_numbers_of_the_format_are_exact;
use crate::float::model::{fraction, one, zero, Datum, Precision};
use crate::geometry::{
    is_upright, law_boxes_lie_within_the_image, law_whole_image_is_the_whole_box,
    normalized_rotated_bounding_box, rotated_box, rotation_model, whole_box, BoxModel,
    OcrBoundingBox, PixelRect, RectModel, RotationModel, TextRotation,
};
use crate::langs::{default_langs, resolved};
use crate::output::{
    lemma_push_line, line_models, lines_are_normalized, outcome_model, LineModel, OcrLine,
    OcrOutput, OutputModel,
};
use crate::text::texts;

verus! {

/// The language of the engine: only the first of the languages counts.
pub open spec fn engine_language(preferred: Seq<Seq<char>>) -> Seq<char> {
    resolved(preferred)[0]
}

/// Picks the language of the engine: the first of the preferred languages, or
/// American English where there are none.
pub fn choose_engine(preferred_langs: &Vec<String>) -> (r: String)
    ensures
        r@ == engine_language(texts(preferred_langs@)),
        r@ == if preferred_langs@.len() > 0 {
            preferred_langs@[0]@
        } else {
            "en-US"@
        },
{
    if preferred_langs.len() > 0 {
        preferred_langs[0].clone()
    } else {
        "en-US".to_owned()
    }
}

/// Without preferred languages the engine is that of the default languages.
pub proof fn law_no_language_means_the_default()
    ensures
        engine_language(Seq::empty()) == engine_language(default_langs()),
        engine_language(Seq::empty()) == "en-US"@,
{
}

/// Languages after the first one change nothing.
pub proof fn law_only_the_first_language_counts(preferred: Seq<Seq<char>>)
    requires
        preferred.len() > 0,
    ensures
        engine_language(preferred) == engine_language(preferred.take(1)),
        engine_language(preferred) == preferred[0],
{
}

/// The bounds of a word, in pixels.
#[derive(Debug, Clone, Copy)]
pub struct WordRect {
    pub x: Double,
    pub y: Double,
    pub width: Double,
    pub height: Double,
}

/// A line as the engine gives it. The text may be denied, with a description.
pub struct NativeLine {
    pub words: Vec<WordRect>,
    pub text: Result<String, String>,
}

/// A page as the engine gives it. The words of a line may be denied, with a
/// description.
pub struct NativePage {
    pub width: i32,
    pub height: i32,
    pub text: String,
    pub rotation: Option<TextRotation>,
    pub lines: Vec<Result<NativeLine, String>>,
}

/// What a line of the engine stands for.
pub struct NativeLineModel {
    pub words: Seq<RectModel>,
    pub text: Result<Seq<char>, Seq<char>>,
}

/// What a page of the engine stands for.
pub struct NativePageModel {
    pub width: Datum,
    pub height: Datum,
    pub text: Seq<char>,
    pub rotation: Option<RotationModel>,
    pub lines: Seq<Result<NativeLineModel, Seq<char>>>,
}

impl View for WordRect {
    type V = RectModel;

    open spec fn view(&self) -> RectModel {
        RectModel {
            left: self.x@,
            top: self.y@,
            right: self.x@.plus(self.width@, Precision::Double),
            bottom: self.y@.plus(self.height@, Precision::Double),
        }
    }
}

/// What a list of words stands for.
pub open spec fn word_models(words: Seq<WordRect>) -> Seq<RectModel> {
    Seq::new(words.len(), |i: int| words[i]@)
}

impl View for NativeLine {
    type V = NativeLineModel;

    open spec fn view(&self) -> NativeLineModel {
        NativeLineModel {
            words: word_models(self.words@),
            text: match self.text {
                Ok(text) => Ok(text@),
                Err(description) => Err(description@),
            },
        }
    }
}

/// What a line, or its denial, stands for.
pub open spec fn native_line_model(line: Result<NativeLine, String>) -> Result<
    NativeLineModel,
    Seq<char>,
> {
    match line {
        Ok(line) => Ok(line@),
        Err(description) => Err(description@),
    }
}

/// What a list of lines of the engine stands for.
pub open spec fn native_line_models(lines: Seq<Result<NativeLine, String>>) -> Seq<
    Result<NativeLineModel, Seq<char>>,
> {
    Seq::new(lines.len(), |i: int| native_line_model(lines[i]))
}

/// A whole number as a floating-point number.
pub open spec fn whole(n: int) -> Datum {
    if n < 0 {
        fraction(Precision::Double, (-n) as nat, 1).negated()
    } else {
        fraction(Precision::Double, n as nat, 1)
    }
}

impl View for NativePage {
    type V = NativePageModel;

    open spec fn view(&self) -> NativePageModel {
        NativePageModel {
            width: whole(self.width as int),
            height: whole(self.height as int),
            text: self.text@,
            rotation: rotation_model(self.rotation),
            lines: native_line_models(self.lines@),
        }
    }
}

/// The rectangle around the words of a line; nothing where there are none.
pub open spec fn words_rect(words: Seq<RectModel>) -> Option<RectModel>
    decreases words.len(),
{
    if words.len() == 0 {
        None
    } else {
        match words_rect(words.drop_last()) {
            Some(earlier) => Some(earlier.joined(words.last())),
            None => Some(words.last()),
        }
    }
}

impl NativePageModel {
    /// The box of a line.
    pub open spec fn line_box(self, line: NativeLineModel) -> Option<BoxModel> {
        match words_rect(line.words) {
            Some(rect) => rotated_box(
                rect.left,
                rect.top,
                rect.right,
                rect.bottom,
                self.width,
                self.height,
                self.rotation,
            ),
            None => None,
        }
    }

    /// The first `count` lines, as far as they have a box, or the description
    /// of the first denial among them. The text of a line without a box is not
    /// asked for.
    pub open spec fn found(self, count: nat) -> Result<Seq<LineModel>, Seq<char>>
        decreases count,
    {
        if count == 0 {
            Ok(Seq::empty())
        } else {
            match self.found((count - 1) as nat) {
                Err(description) => Err(description),
                Ok(earlier) => match self.lines[count - 1] {
                    Err(description) => Err(description),
                    Ok(line) => match self.line_box(line) {
                        None => Ok(earlier),
                        Some(bounding_box) => match line.text {
                            Err(description) => Err(description),
                            Ok(text) => Ok(
                                earlier.push(LineModel { text, confidence: one(), bounding_box }),
                            ),
                        },
                    },
                },
            }
        }
    }
}

/// What the engine's page, or the description of a failure before there was
/// one, gives to the caller.
pub open spec fn page_outcome_model(page: Result<NativePageModel, Seq<char>>) -> Result<
    OutputModel,
    ErrorModel,
> {
    match page {
        Err(description) => Err(ErrorModel::WindowsError(description)),
        Ok(page) => match page.found(page.lines.len()) {
            Err(description) => Err(ErrorModel::WindowsError(description)),
            Ok(lines) => Ok(OutputModel { text: page.text, confidence: one(), lines }),
        },
    }
}

/// What a page, or the description of a failure, stands for.
pub open spec fn page_model(page: Result<NativePage, String>) -> Result<
    NativePageModel,
    Seq<char>,
> {
    match page {
        Ok(page) => Ok(page@),
        Err(description) => Err(description@),
    }
}

/// A whole number as a floating-point number.
fn whole_number(n: i32) -> (r: Double)
    ensures
        r@ == whole(n as int),
{
    if n < 0 {
        Double::from_count((-(n as i64)) as u64, Precision::Double).negated()
    } else {
        Double::from_count(n as u64, Precision::Double)
    }
}

/// The rectangle around the words of a line.
pub fn line_rect(words: &Vec<WordRect>) -> (r: Option<PixelRect>)
    ensures
        match r {
            Some(rect) => words_rect(word_models(words@)) == Some(rect@),
            None => words_rect(word_models(words@)) is None,
        },
{
    let ghost models = word_models(words@);
    let mut r: Option<PixelRect> = None;
    let mut i: usize = 0;
    while i < words.len()
        invariant
            i <= words.len(),
            models == word_models(words@),
            match r {
                Some(rect) => words_rect(models.take(i as int)) == Some(rect@),
                None => words_rect(models.take(i as int)) is None,
            },
        decreases words.len() - i,
    {
        let word = words[i];
        let word_rect = PixelRect {
            left: word.x,
            top: word.y,
            right: word.x.plus(word.width, Precision::Double),
            bottom: word.y.plus(word.height, Precision::Double),
        };
        proof {
            assert(models.take(i + 1).drop_last() =~= models.take(i as int));
            assert(models.take(i + 1).last() == word_rect@);
        }
        r = Some(
            match r {
                Some(current) => current.union(word_rect),
                None => word_rect,
            },
        );
        i = i + 1;
    }
    assert(models.take(i as int) =~= models);
    r
}

/// The box of a line of a page of the given size.
fn line_box(
    words: &Vec<WordRect>,
    width: Double,
    height: Double,
    rotation: Option<TextRotation>,
    Ghost(page): Ghost<NativePageModel>,
    Ghost(line): Ghost<NativeLineModel>,
) -> (r: Option<OcrBoundingBox>)
    requires
        width@ == page.width,
        height@ == page.height,
        rotation_model(rotation) == page.rotation,
        line.words == word_models(words@),
    ensures
        match r {
            Some(bounding_box) => page.line_box(line) == Some(bounding_box@),
            None => page.line_box(line) is None,
        },
        r matches Some(bounding_box) ==> bounding_box@.is_normalized(),
{
    match line_rect(words) {
        Some(rect) => normalized_rotated_bounding_box(
            rect.left,
            rect.top,
            rect.right,
            rect.bottom,
            width,
            height,
            rotation,
        ),
        None => None,
    }
}

/// The lines of a page that have a box, or the description of the first
/// denial.
fn page_lines(page: &NativePage) -> (r: Result<Vec<OcrLine>, String>)
    ensures
        match r {
            Ok(lines) => page@.found(page@.lines.len()) == Ok::<Seq<LineModel>, Seq<char>>(
                line_models(lines@),
            ) && lines_are_normalized(line_models(lines@)),
            Err(description) => page@.found(page@.lines.len()) == Err::<
                Seq<LineModel>,
                Seq<char>,
            >(description@),
        },
{
    let ghost model = page@;
    let width = whole_number(page.width);
    let height = whole_number(page.height);
    let mut lines: Vec<OcrLine> = Vec::new();
    let mut i: usize = 0;
    assert(line_models(lines@) =~= Seq::<LineModel>::empty());
    while i < page.lines.len()
        invariant
            i <= page.lines.len(),
            model == page@,
            width@ == model.width,
            height@ == model.height,
            model.found(i as nat) == Ok::<Seq<LineModel>, Seq<char>>(line_models(lines@)),
            lines_are_normalized(line_models(lines@)),
        decreases page.lines.len() - i,
    {
        assert(model.lines[i as int] == native_line_model(page.lines@[i as int]));
        match &page.lines[i] {
            Err(description) => {
                proof {
                    lemma_denial_is_final(model, (i + 1) as nat, model.lines.len());
                }
                return Err(description.clone());
            },
            Ok(line) => {
                if let Some(bounding_box) = line_box(
                    &line.words,
                    width,
                    height,
                    page.rotation,
                    Ghost(model),
                    Ghost(line@),
                ) {
                    match &line.text {
                        Err(description) => {
                            proof {
                                lemma_denial_is_final(model, (i + 1) as nat, model.lines.len());
                            }
                            return Err(description.clone());
                        },
                        Ok(text) => {
                            let kept = OcrLine {
                                text: text.clone(),
                                confidence: Double::one(),
                                bounding_box,
                            };
                            proof {
                                lemma_push_line(lines@, kept);
                            }
                            lines.push(kept);
                        },
                    }
                }
            },
        }
        i = i + 1;
    }
    Ok(lines)
}

/// What the engine's page gives to the caller: `page` is the page, or the
/// description of a failure before there was one.
pub fn page_outcome(page: Result<NativePage, String>) -> (r: Result<OcrOutput, OcrError>)
    ensures
        outcome_model(r) == page_outcome_model(page_model(page)),
        r matches Ok(output) ==> lines_are_normalized(output@.lines),
{
    match page {
        Err(description) => Err(OcrError::WindowsError(description)),
        Ok(page) => match page_lines(&page) {
            Err(description) => Err(OcrError::WindowsError(description)),
            Ok(lines) => Ok(OcrOutput { text: page.text, confidence: Double::one(), lines }),
        },
    }
}

/// A denial among the first lines stays the outcome, whatever follows.
proof fn lemma_denial_is_final(page: NativePageModel, count: nat, more: nat)
    requires
        page.found(count) is Err,
        count <= more,
    ensures
        page.found(more) == page.found(count),
    decreases more - count,
{
    if count < more {
        lemma_denial_is_final(page, count, (more - 1) as nat);
    }
}

/// Everything that is recognized on Windows has the confidence one, and every
/// line has a box within the image.
pub proof fn law_confidence_is_one(page: NativePageModel, count: nat)
    requires
        count <= page.lines.len(),
    ensures
        page.found(count) matches Ok(lines) ==> {
            &&& lines.len() <= count
            &&& lines_are_normalized(lines)
            &&& forall|i: int| 0 <= i < lines.len() ==> (#[trigger] lines[i]).confidence == one()
        },
        page_outcome_model(Ok(page)) matches Ok(output) ==> output.confidence == one(),
    decreases count,
{
    if count > 0 {
        law_confidence_is_one(page, (count - 1) as nat);
        if let Ok(line) = page.lines[count - 1] {
            if let Some(rect) = words_rect(line.words) {
                law_boxes_lie_within_the_image(
                    rect.left,
                    rect.top,
                    rect.right,
                    rect.bottom,
                    page.width,
                    page.height,
                    page.rotation,
                );
            }
        }
    }
}

/// The lines come in the order of the engine: the lines of the first part of a
/// page are the first lines of the page.
pub proof fn law_engine_lines_keep_the_order(page: NativePageModel, count: nat, more: nat)
    requires
        count <= more,
        page.found(more) is Ok,
    ensures
        page.found(count) is Ok,
        page.found(count)->Ok_0.is_prefix_of(page.found(more)->Ok_0),
    decreases more - count,
{
    if count < more {
        law_engine_lines_keep_the_order(page, count, (more - 1) as nat);
    }
}

/// The rectangle of a line encloses every word of it.
pub proof fn law_line_rect_encloses_its_words(words: Seq<RectModel>)
    requires
        words.len() > 0,
        forall|i: int| 0 <= i < words.len() ==> (#[trigger] words[i]).is_ordered(),
    ensures
        words_rect(words) is Some,
        words_rect(words)->0.is_ordered(),
        forall|i: int|
            0 <= i < words.len() ==> words_rect(words)->0.encloses(#[trigger] words[i]),
    decreases words.len(),
{
    let earlier = words.drop_last();
    assert(words.last() == words[words.len() - 1]);
    if earlier.len() > 0 {
        assert forall|i: int| 0 <= i < earlier.len() implies (#[trigger] earlier[i]).is_ordered() by {
            assert(earlier[i] == words[i]);
        }
        law_line_rect_encloses_its_words(earlier);
        assert forall|i: int| 0 <= i < words.len() implies words_rect(words)->0.encloses(
            #[trigger] words[i],
        ) by {
            if i < earlier.len() {
                assert(earlier[i] == words[i]);
            }
        }
    }
}

/// The rectangle around the words of a line grows word by word: a line without
/// words has none, the rectangle of a single word is its own, and a further word
/// is joined to what was there.
pub proof fn law_line_rect_grows_word_by_word(words: Seq<RectModel>, word: RectModel)
    ensures
        words.len() == 0 ==> words_rect(words) is None,
        words.len() > 0 ==> words_rect(words) is Some,
        words_rect(words.push(word)) == Some(
            if words.len() == 0 {
                word
            } else {
                words_rect(words)->0.joined(word)
            },
        ),
    decreases words.len(),
{
    assert(words.push(word).drop_last() =~= words);
    if words.len() > 0 {
        law_line_rect_grows_word_by_word(words.drop_last(), words.last());
        assert(words.drop_last().push(words.last()) =~= words);
    }
}

/// No rectangle that encloses all words of a line is smaller than the rectangle
/// of the line.
pub proof fn law_line_rect_is_smallest(words: Seq<RectModel>, around: RectModel)
    requires
        words.len() > 0,
        forall|i: int| 0 <= i < words.len() ==> around.encloses(#[trigger] words[i]),
    ensures
        words_rect(words) is Some,
        around.encloses(words_rect(words)->0),
    decreases words.len(),
{
    let earlier = words.drop_last();
    assert(words.last() == words[words.len() - 1]);
    if earlier.len() > 0 {
        assert forall|i: int| 0 <= i < earlier.len() implies around.encloses(
            #[trigger] earlier[i],
        ) by {
            assert(earlier[i] == words[i]);
        }
        law_line_rect_is_smallest(earlier, around);
    }
}

/// A page with one line more.
pub open spec fn with_line(
    page: NativePageModel,
    line: Result<NativeLineModel, Seq<char>>,
) -> NativePageModel {
    NativePageModel { lines: page.lines.push(line), ..page }
}

/// What is found in the first lines depends on these lines alone.
proof fn lemma_later_lines_do_not_matter(
    page: NativePageModel,
    line: Result<NativeLineModel, Seq<char>>,
    count: nat,
)
    requires
        count <= page.lines.len(),
    ensures
        with_line(page, line).found(count) == page.found(count),
    decreases count,
{
    if count > 0 {
        lemma_later_lines_do_not_matter(page, line, (count - 1) as nat);
        assert(with_line(page, line).lines[count - 1] == page.lines[count - 1]);
    }
}

/// A failure before there is a page is handed on with its description. A page
/// without lines gives its text, with the confidence one.
pub proof fn law_pages_give_their_text(page: NativePageModel, description: Seq<char>)
    ensures
        page_outcome_model(Err(description)) == Err::<OutputModel, ErrorModel>(
            ErrorModel::WindowsError(description),
        ),
        page.lines.len() == 0 ==> page_outcome_model(Ok(page)) == Ok::<OutputModel, ErrorModel>(
            OutputModel { text: page.text, confidence: one(), lines: Seq::empty() },
        ),
        page_outcome_model(Ok(page)) matches Ok(output) ==> output.text == page.text
            && output.confidence == one(),
        page_outcome_model(Ok(page)) matches Err(error) ==> error is WindowsError,
{
}

/// A further line adds itself to what the page gives, with the confidence one
/// and the box of the rectangle around its words, turned with the page and
/// measured by its width and height. A line without words, or without such a
/// box, adds nothing, and its text is not asked for. A denial of the line, or
/// of the text of a line with a box, is the outcome of the page, unless there was
/// a failure before.
pub proof fn law_every_line_adds_itself(
    page: NativePageModel,
    line: Result<NativeLineModel, Seq<char>>,
)
    ensures
        page_outcome_model(Ok(page)) matches Err(error) ==> page_outcome_model(
            Ok(with_line(page, line)),
        ) == Err::<OutputModel, ErrorModel>(error),
        page_outcome_model(Ok(page)) matches Ok(output) ==> page_outcome_model(
            Ok(with_line(page, line)),
        ) == match line {
            Err(description) => Err::<OutputModel, ErrorModel>(
                ErrorModel::WindowsError(description),
            ),
            Ok(l) => if l.words.len() == 0 {
                Ok(output)
            } else {
                let rect = words_rect(l.words)->0;
                match rotated_box(
                    rect.left,
                    rect.top,
                    rect.right,
                    rect.bottom,
                    page.width,
                    page.height,
                    page.rotation,
                ) {
                    None => Ok(output),
                    Some(bounding_box) => match l.text {
                        Err(description) => Err(ErrorModel::WindowsError(description)),
                        Ok(text) => Ok(
                            OutputModel {
                                text: output.text,
                                confidence: one(),
                                lines: output.lines.push(
                                    LineModel { text, confidence: one(), bounding_box },
                                ),
                            },
                        ),
                    },
                }
            },
        },
{
    let longer = with_line(page, line);
    lemma_later_lines_do_not_matter(page, line, page.lines.len());
    assert(longer.lines.last() == line);
    assert(longer.lines[page.lines.len() as int] == line);
    if let Ok(l) = line {
        if l.words.len() > 0 {
            law_line_rect_grows_word_by_word(l.words.drop_last(), l.words.last());
            assert(l.words.drop_last().push(l.words.last()) =~= l.words);
        }
    }
}

/// A line whose words fill the whole page has the box from zero to one, whatever
/// the size of the page, as long as the page is not turned.
pub proof fn law_line_over_the_whole_page_has_the_whole_box(
    page: NativePageModel,
    line: NativeLineModel,
)
    requires
        page.width.is_finite(),
        page.height.is_finite(),
        page.width.units() > 0,
        page.height.units() > 0,
        is_upright(page.rotation),
        words_rect(line.words) == Some(
            RectModel { left: zero(), top: zero(), right: page.width, bottom: page.height },
        ),
        line.text is Ok,
        page_outcome_model(Ok(page)) is Ok,
    ensures
        page_outcome_model(Ok(with_line(page, Ok(line)))) matches Ok(output) && output.lines
            == page_outcome_model(Ok(page))->Ok_0.lines.push(
            LineModel { text: line.text->Ok_0, confidence: one(), bounding_box: whole_box() },
        ),
{
    law_every_line_adds_itself(page, Ok(line));
    law_whole_image_is_the_whole_box(page.width, page.height, page.rotation);
    assert(line.words.len() > 0);
}

/// A rotation by an angle that is zero or not finite gives the same as none,
/// and so does any other rotation of that kind.
pub proof fn law_idle_rotation_leaves_the_page_as_it_is(
    page: NativePageModel,
    rotation: Option<RotationModel>,
)
    requires
        is_upright(page.rotation),
        is_upright(rotation),
    ensures
        page_outcome_model(Ok(page)) == page_outcome_model(
            Ok(NativePageModel { rotation, ..page }),
        ),
{
    lemma_idle_rotation(page, rotation, page.lines.len());
}

/// The first lines of a page that is not turned.
proof fn lemma_idle_rotation(page: NativePageModel, rotation: Option<RotationModel>, count: nat)
    requires
        is_upright(page.rotation),
        is_upright(rotation),
        count <= page.lines.len(),
    ensures
        page.found(count) == (NativePageModel { rotation, ..page }).found(count),
    decreases count,
{
    if count > 0 {
        let other = NativePageModel { rotation, ..page };
        lemma_idle_rotation(page, rotation, (count - 1) as nat);
        if let Ok(line) = page.lines[count - 1] {
            assert(page.line_box(line) == other.line_box(line));
        }
    }
}

/// The sizes of a page are taken as they are, and so are its text and its lines;
/// a word reaches from its position as far as its width and its height.
pub proof fn law_pages_are_shown_as_they_are(page: NativePage, description: String)
    ensures
        page_model(Err(description)) == Err::<NativePageModel, Seq<char>>(description@),
        page_model(Ok(page)) == Ok::<NativePageModel, Seq<char>>(page@),
        page@.width.is_finite(),
        page@.height.is_finite(),
        page@.width.units() == page.width * pow2(1074),
        page@.height.units() == page.height * pow2(1074),
        page@.text == page.text@,
        page@.rotation is Some <==> page.rotation is Some,
        page.rotation matches Some(r) ==> page@.rotation == Some(
            RotationModel { degrees: r.degrees@, sin: r.sin@, cos: r.cos@ },
        ),
        page@.lines.len() == page.lines@.len(),
        forall|i: int|
            0 <= i < page.lines@.len() ==> #[trigger] page@.lines[i] == native_line_model(
                page.lines@[i],
            ),
{
    lemma_whole_numbers_are_exact(page.width as int);
    lemma_whole_numbers_are_exact(page.height as int);
}

/// The words and the text of a line are taken as they are.
pub proof fn law_engine_lines_are_shown_as_they_are(line: NativeLine, description: String)
    ensures
        native_line_model(Ok(line)) == Ok::<NativeLineModel, Seq<char>>(line@),
        native_line_model(Err(description)) == Err::<NativeLineModel, Seq<char>>(description@),
        line.text matches Ok(text) ==> line@.text == Ok::<Seq<char>, Seq<char>>(text@),
        line.text matches Err(denial) ==> line@.text == Err::<Seq<char>, Seq<char>>(denial@),
        line@.words.len() == line.words@.len(),
        forall|i: int|
            0 <= i < line.words@.len() ==> {
                let word = line.words@[i];
                &&& (#[trigger] line@.words[i]).left == word.x@
                &&& line@.words[i].top == word.y@
                &&& line@.words[i].right == word.x@.plus(word.width@, Precision::Double)
                &&& line@.words[i].bottom == word.y@.plus(word.height@, Precision::Double)
            },
{
}

/// A whole number of 32 bits is a number of the format.
proof fn lemma_whole_numbers_are_exact(n: int)
    requires
        -0x1_0000_0000 <= n <= 0x1_0000_0000,
    ensures
        whole(n).is_finite(),
        whole(n).units() == n * pow2(1074),
{
    let size: nat = if n < 0 {
        (-n) as nat
    } else {
        n as nat
    };
    let unit = pow2(1074);
    lemma2_to64_rest();
    lemma_pow2_pos(1074);
    lemma_pow2_adds(53, 1074);
    lemma_pow2_strictly_increases(1127, 2098);
    assert(size * unit < pow2(2098)) by (nonlinear_arith)
        requires
            size <= pow2(53),
            pow2(53) * unit == pow2(1127),
            pow2(1127) < pow2(2098),
    ;
    assert(size * unit * 1 == size * unit);
    law_numbers_of_the_format_are_exact(Precision::Double, false, 1, size, 1074);
    assert(n < 0 ==> n * unit == -(size * unit)) by (nonlinear_arith)
        requires
            n < 0 ==> n == -size,
    ;
}

} // verus!
