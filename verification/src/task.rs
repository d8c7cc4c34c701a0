use vstd::prelude::*;
use crate::error::{ErrorModel, OcrError};
use crate::output::{outcome_model, OcrOutput, OcrResult, OutputModel};
use crate::text::texts;

verus! {

/// How a recognizer weighs speed against accuracy.
#[derive(Debug, Clone, Copy, PartialEq, Eq, Structural)]
pub enum OcrAccuracy {
    Fast,
    Accurate,
}

/// Where the image comes from.
#[derive(Debug)]
pub enum ImageSource {
    /// The path of an image file.
    Path(String),
    /// The bytes of an encoded image.
    Buffer(Vec<u8>),
}

/// What an image source stands for.
pub enum ImageModel {
    Path(Seq<char>),
    Buffer(Seq<u8>),
}

impl View for ImageSource {
    type V = ImageModel;

    open spec fn view(&self) -> ImageModel {
        match self {
            ImageSource::Path(path) => ImageModel::Path(path@),
            ImageSource::Buffer(bytes) => ImageModel::Buffer(bytes@),
        }
    }
}

/// A recognition that has been asked for.
pub struct RecognizeTask {
    image: ImageSource,
    accuracy: OcrAccuracy,
    preferred_langs: Option<Vec<String>>,
}

/// What a recognizer is asked to do.
pub struct OcrRequest {
    pub image: ImageSource,
    pub accuracy: OcrAccuracy,
    pub preferred_langs: Vec<String>,
}

/// What a task stands for.
#[verifier::ext_equal]
pub struct TaskModel {
    pub image: ImageModel,
    pub accuracy: OcrAccuracy,
    pub preferred_langs: Option<Seq<Seq<char>>>,
}

/// What a request stands for.
#[verifier::ext_equal]
pub struct RequestModel {
    pub image: ImageModel,
    pub accuracy: OcrAccuracy,
    pub preferred_langs: Seq<Seq<char>>,
}

/// What an optional list of languages stands for.
pub open spec fn langs_model(langs: Option<Vec<String>>) -> Option<Seq<Seq<char>>> {
    match langs {
        Some(list) => Some(texts(list@)),
        None => None,
    }
}

impl View for RecognizeTask {
    type V = TaskModel;

    closed spec fn view(&self) -> TaskModel {
        TaskModel {
            image: self.image@,
            accuracy: self.accuracy,
            preferred_langs: langs_model(self.preferred_langs),
        }
    }
}

impl View for OcrRequest {
    type V = RequestModel;

    open spec fn view(&self) -> RequestModel {
        RequestModel {
            image: self.image@,
            accuracy: self.accuracy,
            preferred_langs: texts(self.preferred_langs@),
        }
    }
}

impl TaskModel {
    /// What a caller asks for.
    pub open spec fn asked(
        image: ImageModel,
        accuracy: Option<OcrAccuracy>,
        preferred_langs: Option<Seq<Seq<char>>>,
    ) -> TaskModel {
        TaskModel {
            image,
            accuracy: match accuracy {
                Some(a) => a,
                None => OcrAccuracy::Accurate,
            },
            preferred_langs,
        }
    }

    /// What the recognizer is asked to do.
    pub open spec fn request(self) -> RequestModel {
        RequestModel {
            image: self.image,
            accuracy: self.accuracy,
            preferred_langs: match self.preferred_langs {
                Some(langs) => langs,
                None => Seq::empty(),
            },
        }
    }

    /// What is left of the task once the request has been taken out.
    pub open spec fn spent(self) -> TaskModel {
        TaskModel {
            image: ImageModel::Path(Seq::empty()),
            accuracy: self.accuracy,
            preferred_langs: None,
        }
    }
}

impl RecognizeTask {
    /// Takes out what the recognizer needs. The image and the languages are
    /// moved, not copied: what stays behind is an empty path and no languages.
    pub fn take_request(&mut self) -> (r: OcrRequest)
        ensures
            r@ == old(self)@.request(),
            final(self)@ == old(self)@.spent(),
    {
        let mut image = ImageSource::Path(String::new());
        std::mem::swap(&mut image, &mut self.image);
        let preferred_langs = match self.preferred_langs.take() {
            Some(langs) => langs,
            None => Vec::new(),
        };
        assert(texts(Seq::<String>::empty()) =~= Seq::<Seq<char>>::empty());
        OcrRequest { image, accuracy: self.accuracy, preferred_langs }
    }

    /// Turns the outcome of the recognizer into what the caller gets.
    pub fn finish(outcome: Result<OcrOutput, OcrError>) -> (r: Result<OcrResult, OcrError>)
        ensures
            r is Ok <==> outcome is Ok,
            r matches Ok(result) ==> outcome_model(outcome) == Ok::<OutputModel, ErrorModel>(
                result@,
            ),
            r matches Err(error) ==> outcome_model(outcome) == Err::<OutputModel, ErrorModel>(
                error@,
            ),
    {
        match outcome {
            Ok(output) => Ok(output.into_result()),
            Err(error) => Err(error),
        }
    }
}

/// Asks for the recognition of the text of an image. Without an accuracy the
/// recognition is accurate.
pub fn recognize(
    image: ImageSource,
    accuracy: Option<OcrAccuracy>,
    preferred_langs: Option<Vec<String>>,
) -> (r: RecognizeTask)
    ensures
        r@ == (TaskModel {
            image: image@,
            accuracy: match accuracy {
                Some(a) => a,
                None => OcrAccuracy::Accurate,
            },
            preferred_langs: langs_model(preferred_langs),
        }),
        r@ == TaskModel::asked(image@, accuracy, langs_model(preferred_langs)),
{
    let accuracy = match accuracy {
        Some(a) => a,
        None => OcrAccuracy::Accurate,
    };
    RecognizeTask { image, accuracy, preferred_langs }
}

/// A task gives its image and its languages away once: a second request has
/// neither.
pub proof fn law_request_is_taken_once(task: TaskModel)
    ensures
        task.spent().request() == (RequestModel {
            image: ImageModel::Path(Seq::empty()),
            accuracy: task.accuracy,
            preferred_langs: Seq::empty(),
        }),
        task.spent().spent() == task.spent(),
{
}

/// The recognizer is asked for what the caller wants: the same image, the same
/// accuracy and the same languages, or none where the caller names none.
pub proof fn law_request_is_what_the_caller_wants(task: TaskModel)
    ensures
        task.request().image == task.image,
        task.request().accuracy == task.accuracy,
        task.preferred_langs matches Some(langs) ==> task.request().preferred_langs == langs,
        task.preferred_langs is None ==> task.request().preferred_langs.len() == 0,
        task.spent().accuracy == task.accuracy,
{
}

/// What a request shows is what its fields hold.
pub proof fn law_requests_are_shown_as_they_are(request: OcrRequest, path: String, bytes: Vec<u8>)
    ensures
        ImageSource::Path(path)@ == ImageModel::Path(path@),
        ImageSource::Buffer(bytes)@ == ImageModel::Buffer(bytes@),
        request@.image == request.image@,
        request@.accuracy == request.accuracy,
        request@.preferred_langs.len() == request.preferred_langs@.len(),
        forall|i: int|
            0 <= i < request.preferred_langs@.len() ==> #[trigger] request@.preferred_langs[i]
                == request.preferred_langs@[i]@,
        langs_model(None) is None,
        langs_model(Some(request.preferred_langs)) == Some(request@.preferred_langs),
{
}

/// What a caller asks for is what the recognizer is asked for. Without an
/// accuracy the recognition is accurate, without languages none are named.
pub proof fn law_recognition_is_asked_for_as_the_caller_says(
    image: ImageModel,
    accuracy: OcrAccuracy,
    langs: Seq<Seq<char>>,
)
    ensures
        TaskModel::asked(image, Some(accuracy), Some(langs)).request() == (RequestModel {
            image,
            accuracy,
            preferred_langs: langs,
        }),
        TaskModel::asked(image, None, Some(langs)).request() == (RequestModel {
            image,
            accuracy: OcrAccuracy::Accurate,
            preferred_langs: langs,
        }),
        TaskModel::asked(image, Some(accuracy), None).request() == (RequestModel {
            image,
            accuracy,
            preferred_langs: Seq::empty(),
        }),
        TaskModel::asked(image, None, None).request() == (RequestModel {
            image,
            accuracy: OcrAccuracy::Accurate,
            preferred_langs: Seq::empty(),
        }),
{
}

} // verus!
