use vstd::prelude::*;
use crate::error::{ErrorModel, OcrError};
use crate::float::double::Double;
use crate::float::model::{one, Datum, Precision};
use crate::geometry::{
    is_share, law_boxes_lie_within_the_image, law_edges_within_the_image_are_kept,
    normalized_bounding_box, normalized_box, BoxModel,
};
use crate::output::{
    lemma_push_line, line_models, lines_are_normalized, outcome_model, LineModel, OcrLine,
    OcrOutput, OutputModel,
};
use crate::text::{
    blank, is_blank, join, joined, law_joined_texts_can_be_split, law_texts_are_joined_one_by_one,
    split, texts,
};

verus! {

/// What the sidecar library recognized in a document.
pub struct DocumentsPayload {
    pub text: String,
    pub lines: Vec<DocumentsLine>,
}

/// A line of a document.
pub struct DocumentsLine {
    pub text: String,
    pub confidence: Double,
    pub bounding_box: DocumentsBoundingBox,
}

/// The box of a line, as fractions of the image, with the origin in the top
/// left corner.
pub struct DocumentsBoundingBox {
    pub x: Double,
    pub y: Double,
    pub width: Double,
    pub height: Double,
}

/// How a call of the sidecar library ended.
pub enum DocumentsReply {
    /// The library is not loaded.
    SidecarMissing,
    /// The list of languages cannot be handed over.
    LanguagesRejected(String),
    /// The path of the image cannot be handed over.
    PathRejected(String),
    /// There is no payload; there may be a description of the failure.
    Failed(Option<String>),
    /// There is a payload, or the reason why it could not be read. A
    /// description of a failure that comes along is of no account.
    Answered {
        payload: Result<DocumentsPayload, String>,
        failure: Option<String>,
        confidence: Double,
    },
}

/// What a line of a document stands for. The box is not normalized.
pub struct DocumentsLineModel {
    pub text: Seq<char>,
    pub confidence: Datum,
    pub x: Datum,
    pub y: Datum,
    pub width: Datum,
    pub height: Datum,
}

/// What a payload stands for.
pub struct PayloadModel {
    pub text: Seq<char>,
    pub lines: Seq<DocumentsLineModel>,
}

/// What a reply stands for.
pub enum ReplyModel {
    SidecarMissing,
    LanguagesRejected(Seq<char>),
    PathRejected(Seq<char>),
    Failed(Option<Seq<char>>),
    Answered { payload: Result<PayloadModel, Seq<char>>, confidence: Datum },
}

impl View for DocumentsLine {
    type V = DocumentsLineModel;

    open spec fn view(&self) -> DocumentsLineModel {
        DocumentsLineModel {
            text: self.text@,
            confidence: self.confidence@,
            x: self.bounding_box.x@,
            y: self.bounding_box.y@,
            width: self.bounding_box.width@,
            height: self.bounding_box.height@,
        }
    }
}

/// What a list of lines of a document stands for.
pub open spec fn documents_line_models(lines: Seq<DocumentsLine>) -> Seq<DocumentsLineModel> {
    Seq::new(lines.len(), |i: int| lines[i]@)
}

impl View for DocumentsPayload {
    type V = PayloadModel;

    open spec fn view(&self) -> PayloadModel {
        PayloadModel { text: self.text@, lines: documents_line_models(self.lines@) }
    }
}

impl View for DocumentsReply {
    type V = ReplyModel;

    open spec fn view(&self) -> ReplyModel {
        match self {
            DocumentsReply::SidecarMissing => ReplyModel::SidecarMissing,
            DocumentsReply::LanguagesRejected(reason) => ReplyModel::LanguagesRejected(reason@),
            DocumentsReply::PathRejected(reason) => ReplyModel::PathRejected(reason@),
            DocumentsReply::Failed(None) => ReplyModel::Failed(None),
            DocumentsReply::Failed(Some(description)) => {
                ReplyModel::Failed(Some(description@))
            },
            DocumentsReply::Answered { payload: Ok(payload), confidence, .. } => {
                ReplyModel::Answered { payload: Ok(payload@), confidence: confidence@ }
            },
            DocumentsReply::Answered { payload: Err(reason), confidence, .. } => {
                ReplyModel::Answered { payload: Err(reason@), confidence: confidence@ }
            },
        }
    }
}

/// The box of a line of a document.
pub open spec fn documents_box(line: DocumentsLineModel) -> Option<BoxModel> {
    let p = Precision::Double;
    normalized_box(line.x, line.y, line.x.plus(line.width, p), line.y.plus(line.height, p))
}

/// The lines of a document that have a box, in their order.
pub open spec fn boxed_lines(lines: Seq<DocumentsLineModel>) -> Seq<LineModel>
    decreases lines.len(),
{
    if lines.len() == 0 {
        Seq::empty()
    } else {
        let earlier = boxed_lines(lines.drop_last());
        let last = lines.last();
        match documents_box(last) {
            Some(bounding_box) => earlier.push(
                LineModel { text: last.text, confidence: last.confidence, bounding_box },
            ),
            None => earlier,
        }
    }
}

/// What a payload gives to the caller: nothing but white space counts as no
/// text.
pub open spec fn payload_outcome(payload: PayloadModel, confidence: Datum) -> Result<
    OutputModel,
    ErrorModel,
> {
    if blank(payload.text) {
        Err(ErrorModel::NoTextRecognized)
    } else {
        Ok(
            OutputModel {
                text: payload.text,
                confidence,
                lines: boxed_lines(payload.lines),
            },
        )
    }
}

/// What a reply gives to the caller.
pub open spec fn reply_outcome(reply: ReplyModel) -> Result<OutputModel, ErrorModel> {
    match reply {
        ReplyModel::SidecarMissing => Err(ErrorModel::DocumentsSidecarUnavailable),
        ReplyModel::LanguagesRejected(reason) => Err(ErrorModel::ErrorWithDesc(reason)),
        ReplyModel::PathRejected(reason) => Err(ErrorModel::ErrorWithDesc(reason)),
        ReplyModel::Failed(Some(description)) => Err(ErrorModel::ErrorWithDesc(description)),
        ReplyModel::Failed(None) => Err(
            ErrorModel::ErrorWithDesc("Swift bridge returned null without an error description"@),
        ),
        ReplyModel::Answered { payload: Ok(payload), confidence } => payload_outcome(
            payload,
            confidence,
        ),
        ReplyModel::Answered { payload: Err(reason), .. } => Err(
            ErrorModel::ErrorWithDesc("Invalid documents sidecar payload: "@ + reason),
        ),
    }
}

/// The languages as the sidecar library takes them.
pub open spec fn encoded_langs(langs: Seq<Seq<char>>) -> Seq<char> {
    joined(langs, ","@)
}

/// The languages as the sidecar library takes them: one string, with commas
/// between the languages.
pub fn encode_langs(langs: &Vec<String>) -> (r: String)
    ensures
        r@ == joined(texts(langs@), ","@),
        r@ == encoded_langs(texts(langs@)),
{
    join(langs, ",")
}

/// What a payload gives to the caller. A text of nothing but white space
/// counts as no text, and lines without a box are left out.
pub fn documents_output(payload: DocumentsPayload, confidence: Double) -> (r: Result<
    OcrOutput,
    OcrError,
>)
    ensures
        outcome_model(r) == payload_outcome(payload@, confidence@),
        r matches Ok(output) ==> lines_are_normalized(output@.lines),
{
    if is_blank(payload.text.as_str()) {
        return Err(OcrError::NoTextRecognized);
    }
    let p = Precision::Double;
    let ghost models = documents_line_models(payload.lines@);
    let mut lines: Vec<OcrLine> = Vec::new();
    let mut i: usize = 0;
    assert(line_models(lines@) =~= Seq::<LineModel>::empty());
    while i < payload.lines.len()
        invariant
            i <= payload.lines.len(),
            p == Precision::Double,
            models == documents_line_models(payload.lines@),
            line_models(lines@) == boxed_lines(models.take(i as int)),
            lines_are_normalized(line_models(lines@)),
        decreases payload.lines.len() - i,
    {
        let line = &payload.lines[i];
        let area = &line.bounding_box;
        proof {
            assert(models.take(i + 1).drop_last() =~= models.take(i as int));
            assert(models.take(i + 1).last() == line@);
        }
        if let Some(bounding_box) = normalized_bounding_box(
            area.x,
            area.y,
            area.x.plus(area.width, p),
            area.y.plus(area.height, p),
        ) {
            let kept = OcrLine {
                text: line.text.clone(),
                confidence: line.confidence,
                bounding_box,
            };
            proof {
                lemma_push_line(lines@, kept);
            }
            lines.push(kept);
        }
        i = i + 1;
    }
    assert(models.take(i as int) =~= models);
    Ok(OcrOutput { text: payload.text, confidence, lines })
}

/// What a reply of the sidecar library gives to the caller.
pub fn documents_outcome(reply: DocumentsReply) -> (r: Result<OcrOutput, OcrError>)
    ensures
        outcome_model(r) == reply_outcome(reply@),
        r matches Ok(output) ==> lines_are_normalized(output@.lines),
{
    match reply {
        DocumentsReply::SidecarMissing => Err(OcrError::DocumentsSidecarUnavailable),
        DocumentsReply::LanguagesRejected(reason) => Err(OcrError::ErrorWithDesc(reason)),
        DocumentsReply::PathRejected(reason) => Err(OcrError::ErrorWithDesc(reason)),
        DocumentsReply::Failed(Some(description)) => Err(OcrError::ErrorWithDesc(description)),
        DocumentsReply::Failed(None) => Err(
            OcrError::ErrorWithDesc(
                "Swift bridge returned null without an error description".to_owned(),
            ),
        ),
        DocumentsReply::Answered { payload: Ok(payload), failure: _, confidence } => {
            documents_output(payload, confidence)
        },
        DocumentsReply::Answered { payload: Err(reason), failure: _, confidence: _ } => {
            let mut message = "Invalid documents sidecar payload: ".to_owned();
            message.append(reason.as_str());
            Err(OcrError::ErrorWithDesc(message))
        },
    }
}

/// The lines come in the order of the document: the lines of two stretches are
/// those of the first and then those of the second.
pub proof fn law_document_lines_keep_the_order(
    a: Seq<DocumentsLineModel>,
    b: Seq<DocumentsLineModel>,
)
    ensures
        boxed_lines(a + b) == boxed_lines(a) + boxed_lines(b),
    decreases b.len(),
{
    if b.len() == 0 {
        assert(a + b =~= a);
        assert(boxed_lines(a) + boxed_lines(b) =~= boxed_lines(a));
    } else {
        law_document_lines_keep_the_order(a, b.drop_last());
        assert((a + b).drop_last() =~= a + b.drop_last());
        assert((a + b).last() == b.last());
        assert(boxed_lines(a + b) =~= boxed_lines(a) + boxed_lines(b));
    }
}

/// Every line of a document has a box within the image.
pub proof fn law_document_lines_lie_within_the_image(lines: Seq<DocumentsLineModel>)
    ensures
        boxed_lines(lines).len() <= lines.len(),
        lines_are_normalized(boxed_lines(lines)),
    decreases lines.len(),
{
    if lines.len() > 0 {
        law_document_lines_lie_within_the_image(lines.drop_last());
        let line = lines.last();
        let p = Precision::Double;
        law_boxes_lie_within_the_image(
            line.x,
            line.y,
            line.x.plus(line.width, p),
            line.y.plus(line.height, p),
            one(),
            one(),
            None,
        );
    }
}

/// Only a missing sidecar library is reported as missing: whatever a library
/// that is present does has another outcome.
pub proof fn law_only_a_missing_sidecar_is_unavailable(reply: ReplyModel)
    ensures
        reply_outcome(reply) == Err::<OutputModel, ErrorModel>(
            ErrorModel::DocumentsSidecarUnavailable,
        ) <==> reply is SidecarMissing,
{
}

/// The sidecar library gets the languages back by splitting at the commas, as
/// long as no language holds one.
pub proof fn law_languages_survive_the_encoding(langs: Seq<Seq<char>>)
    requires
        langs.len() > 0,
        forall|i: int| 0 <= i < langs.len() ==> !(#[trigger] langs[i]).contains(','),
    ensures
        split(joined(langs, ","@), ',') == langs,
        split(encoded_langs(langs), ',') == langs,
{
    reveal_strlit(",");
    assert(","@ =~= seq![',']);
    law_joined_texts_can_be_split(langs, ',');
}

/// A payload with one line more.
pub open spec fn with_line(payload: PayloadModel, line: DocumentsLineModel) -> PayloadModel {
    PayloadModel { text: payload.text, lines: payload.lines.push(line) }
}

/// A payload whose text is nothing but white space has no text, whatever its
/// lines. Any other payload gives its text as it is, with the confidence that
/// comes along, and without lines it gives none.
pub proof fn law_payloads_give_their_text(payload: PayloadModel, confidence: Datum)
    ensures
        blank(payload.text) ==> payload_outcome(payload, confidence) == Err::<
            OutputModel,
            ErrorModel,
        >(ErrorModel::NoTextRecognized),
        !blank(payload.text) ==> {
            &&& payload_outcome(payload, confidence) matches Ok(output)
            &&& output.text == payload.text
            &&& output.confidence == confidence
            &&& payload.lines.len() == 0 ==> output.lines == Seq::<LineModel>::empty()
        },
{
}

/// A further line of a payload adds itself at the end, with its own text and its
/// own confidence, and with the box from its position to as far right and down
/// as it is wide and high. It adds nothing where there is no such box.
pub proof fn law_every_document_line_adds_itself(
    payload: PayloadModel,
    line: DocumentsLineModel,
    confidence: Datum,
)
    requires
        !blank(payload.text),
    ensures
        payload_outcome(payload, confidence) matches Ok(earlier) && payload_outcome(
            with_line(payload, line),
            confidence,
        ) == Ok::<OutputModel, ErrorModel>(
            OutputModel {
                text: payload.text,
                confidence,
                lines: match normalized_box(
                    line.x,
                    line.y,
                    line.x.plus(line.width, Precision::Double),
                    line.y.plus(line.height, Precision::Double),
                ) {
                    Some(bounding_box) => earlier.lines.push(
                        LineModel { text: line.text, confidence: line.confidence, bounding_box },
                    ),
                    None => earlier.lines,
                },
            },
        ),
{
    assert(payload.lines.push(line).drop_last() =~= payload.lines);
}

/// A line that lies within the image stays where it is: its box has the
/// position of the line, and the sides that its edges leave.
pub proof fn law_document_lines_within_the_image_keep_their_place(
    payload: PayloadModel,
    line: DocumentsLineModel,
    confidence: Datum,
)
    requires
        !blank(payload.text),
        is_share(line.x),
        is_share(line.y),
        is_share(line.x.plus(line.width, Precision::Double)),
        is_share(line.y.plus(line.height, Precision::Double)),
        line.x.units() < line.x.plus(line.width, Precision::Double).units(),
        line.y.units() < line.y.plus(line.height, Precision::Double).units(),
    ensures
        ({
            let p = Precision::Double;
            &&& payload_outcome(payload, confidence) matches Ok(earlier)
            &&& payload_outcome(with_line(payload, line), confidence) matches Ok(output)
            &&& output.lines == earlier.lines.push(
                LineModel {
                    text: line.text,
                    confidence: line.confidence,
                    bounding_box: BoxModel {
                        x: line.x,
                        y: line.y,
                        width: line.x.plus(line.width, p).minus(line.x, p),
                        height: line.y.plus(line.height, p).minus(line.y, p),
                    },
                },
            )
        }),
{
    let p = Precision::Double;
    law_every_document_line_adds_itself(payload, line, confidence);
    law_edges_within_the_image_are_kept(
        line.x,
        line.y,
        line.x.plus(line.width, p),
        line.y.plus(line.height, p),
    );
}

/// What each kind of reply comes to: a missing library is reported as missing,
/// every failure with its description, and a payload gives what it holds.
pub proof fn law_every_reply_has_its_outcome(
    reason: Seq<char>,
    payload: PayloadModel,
    confidence: Datum,
)
    ensures
        reply_outcome(ReplyModel::SidecarMissing) == Err::<OutputModel, ErrorModel>(
            ErrorModel::DocumentsSidecarUnavailable,
        ),
        reply_outcome(ReplyModel::LanguagesRejected(reason)) == Err::<OutputModel, ErrorModel>(
            ErrorModel::ErrorWithDesc(reason),
        ),
        reply_outcome(ReplyModel::PathRejected(reason)) == Err::<OutputModel, ErrorModel>(
            ErrorModel::ErrorWithDesc(reason),
        ),
        reply_outcome(ReplyModel::Failed(Some(reason))) == Err::<OutputModel, ErrorModel>(
            ErrorModel::ErrorWithDesc(reason),
        ),
        reply_outcome(ReplyModel::Failed(None)) == Err::<OutputModel, ErrorModel>(
            ErrorModel::ErrorWithDesc("Swift bridge returned null without an error description"@),
        ),
        reply_outcome(ReplyModel::Answered { payload: Err(reason), confidence }) == Err::<
            OutputModel,
            ErrorModel,
        >(ErrorModel::ErrorWithDesc("Invalid documents sidecar payload: "@ + reason)),
        reply_outcome(ReplyModel::Answered { payload: Ok(payload), confidence })
            == payload_outcome(payload, confidence),
{
}

/// What a line and a payload show is what their fields hold.
pub proof fn law_documents_are_shown_as_they_are(line: DocumentsLine, payload: DocumentsPayload)
    ensures
        line@.text == line.text@,
        line@.confidence == line.confidence@,
        line@.x == line.bounding_box.x@,
        line@.y == line.bounding_box.y@,
        line@.width == line.bounding_box.width@,
        line@.height == line.bounding_box.height@,
        payload@.text == payload.text@,
        payload@.lines.len() == payload.lines@.len(),
        forall|i: int|
            0 <= i < payload.lines@.len() ==> #[trigger] payload@.lines[i] == payload.lines@[i]@,
{
}

/// What a reply shows is what it holds. A failure that comes along with a
/// payload is of no account.
pub proof fn law_replies_are_shown_as_they_are(
    reason: String,
    payload: DocumentsPayload,
    failure: Option<String>,
    confidence: Double,
)
    ensures
        DocumentsReply::SidecarMissing@ == ReplyModel::SidecarMissing,
        DocumentsReply::LanguagesRejected(reason)@ == ReplyModel::LanguagesRejected(reason@),
        DocumentsReply::PathRejected(reason)@ == ReplyModel::PathRejected(reason@),
        DocumentsReply::Failed(None)@ == ReplyModel::Failed(None),
        DocumentsReply::Failed(Some(reason))@ == ReplyModel::Failed(Some(reason@)),
        (DocumentsReply::Answered { payload: Ok(payload), failure, confidence })@
            == (ReplyModel::Answered { payload: Ok(payload@), confidence: confidence@ }),
        (DocumentsReply::Answered { payload: Err(reason), failure, confidence })@
            == (ReplyModel::Answered { payload: Err(reason@), confidence: confidence@ }),
{
}

/// A further language comes after all others, with a comma before it unless it
/// is the first. No languages are an empty string.
pub proof fn law_languages_are_encoded_one_by_one(langs: Seq<Seq<char>>, lang: Seq<char>)
    ensures
        langs.len() == 0 ==> encoded_langs(langs) == Seq::<char>::empty(),
        encoded_langs(langs.push(lang)) == if langs.len() == 0 {
            lang
        } else {
            encoded_langs(langs).push(',') + lang
        },
{
    reveal_strlit(",");
    law_texts_are_joined_one_by_one(langs, lang, ","@);
    assert(encoded_langs(langs) + ","@ =~= encoded_langs(langs).push(','));
}

} // verus!
