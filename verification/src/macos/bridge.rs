use vstd::prelude::*;
use crate::text::{decimal, to_decimal};

verus! {

/// The version of the interface of the sidecar library that this library
/// speaks.
pub const EXPECTED_ABI_VERSION: u32 = 2;

/// A version of the operating system.
#[derive(Debug, Clone, Copy, PartialEq, Eq, Structural)]
pub struct SystemVersion {
    pub major: u32,
    pub minor: u32,
    pub patch: u32,
}

/// The oldest version of macOS that recognizes documents.
pub fn required_system_version() -> (r: SystemVersion)
    ensures
        r == (SystemVersion { major: 26, minor: 0, patch: 0 }),
{
    SystemVersion { major: 26, minor: 0, patch: 0 }
}

/// What is to be found out next while the sidecar library is being loaded.
#[derive(Debug, Clone, Copy, PartialEq, Eq, Structural)]
pub enum LoadStage {
    /// Whether the operating system is new enough.
    System,
    /// Where the library is.
    Location,
    /// Whether the file is there.
    File,
    /// Whether the path can be handed to the loader.
    Encoding,
    /// Whether the loader opens the file.
    Library,
    /// Whether the library tells the version of its interface.
    VersionSymbol,
    /// The version of the interface.
    Version,
    /// Whether the library has all entry points.
    EntryPoints,
    /// The library can be used.
    Loaded,
    /// The library cannot be used.
    Unavailable,
}

/// What was found out. A failure of the loader may come with a description.
pub enum LoadEvent {
    System { supported: bool },
    Location(Option<String>),
    File { present: bool },
    Encoding { valid: bool },
    Library { opened: bool, failure: Option<String> },
    VersionSymbol { found: bool, failure: Option<String> },
    Version(u32),
    EntryPoints { from_path: bool, from_data: bool, free: bool, failure: Option<String> },
}

/// What an event stands for.
pub enum EventModel {
    System { supported: bool },
    Location(Option<Seq<char>>),
    File { present: bool },
    Encoding { valid: bool },
    Library { opened: bool, failure: Option<Seq<char>> },
    VersionSymbol { found: bool, failure: Option<Seq<char>> },
    Version(u32),
    EntryPoints { from_path: bool, from_data: bool, free: bool, failure: Option<Seq<char>> },
}

/// What an optional string stands for.
pub open spec fn optional_text(text: Option<String>) -> Option<Seq<char>> {
    match text {
        Some(t) => Some(t@),
        None => None,
    }
}

impl View for LoadEvent {
    type V = EventModel;

    open spec fn view(&self) -> EventModel {
        match *self {
            LoadEvent::System { supported } => EventModel::System { supported },
            LoadEvent::Location(path) => EventModel::Location(optional_text(path)),
            LoadEvent::File { present } => EventModel::File { present },
            LoadEvent::Encoding { valid } => EventModel::Encoding { valid },
            LoadEvent::Library { opened, failure } => {
                EventModel::Library { opened, failure: optional_text(failure) }
            },
            LoadEvent::VersionSymbol { found, failure } => {
                EventModel::VersionSymbol { found, failure: optional_text(failure) }
            },
            LoadEvent::Version(version) => EventModel::Version(version),
            LoadEvent::EntryPoints { from_path, from_data, free, failure } => {
                EventModel::EntryPoints {
                    from_path,
                    from_data,
                    free,
                    failure: optional_text(failure),
                }
            },
        }
    }
}

impl EventModel {
    /// The stage that the event answers.
    pub open spec fn stage(self) -> LoadStage {
        match self {
            EventModel::System { .. } => LoadStage::System,
            EventModel::Location(_) => LoadStage::Location,
            EventModel::File { .. } => LoadStage::File,
            EventModel::Encoding { .. } => LoadStage::Encoding,
            EventModel::Library { .. } => LoadStage::Library,
            EventModel::VersionSymbol { .. } => LoadStage::VersionSymbol,
            EventModel::Version(_) => LoadStage::Version,
            EventModel::EntryPoints { .. } => LoadStage::EntryPoints,
        }
    }

    /// Whether loading goes on after the event.
    pub open spec fn goes_on(self) -> bool {
        match self {
            EventModel::System { supported } => supported,
            EventModel::Location(path) => path is Some,
            EventModel::File { present } => present,
            EventModel::Encoding { valid } => valid,
            EventModel::Library { opened, .. } => opened,
            EventModel::VersionSymbol { found, .. } => found,
            EventModel::Version(version) => version == EXPECTED_ABI_VERSION,
            EventModel::EntryPoints { from_path, from_data, free, .. } => {
                from_path && from_data && free
            },
        }
    }
}

/// The stage that follows where all is well.
pub open spec fn following(stage: LoadStage) -> LoadStage {
    match stage {
        LoadStage::System => LoadStage::Location,
        LoadStage::Location => LoadStage::File,
        LoadStage::File => LoadStage::Encoding,
        LoadStage::Encoding => LoadStage::Library,
        LoadStage::Library => LoadStage::VersionSymbol,
        LoadStage::VersionSymbol => LoadStage::Version,
        LoadStage::Version => LoadStage::EntryPoints,
        LoadStage::EntryPoints => LoadStage::Loaded,
        LoadStage::Loaded => LoadStage::Loaded,
        LoadStage::Unavailable => LoadStage::Unavailable,
    }
}

/// A description, or what stands in for it.
pub open spec fn described(failure: Option<Seq<char>>, otherwise: Seq<char>) -> Seq<char> {
    match failure {
        Some(text) => text,
        None => otherwise,
    }
}

/// What is reported about the library at `path` when an event ends the
/// loading. That the library is not there, or that the system is too old, is no
/// news; that a library which is there cannot be used is.
pub open spec fn complaint(path: Seq<char>, event: EventModel) -> Option<Seq<char>> {
    let subject = "system-ocr: sidecar at "@ + path;
    if event.goes_on() {
        None
    } else {
        match event {
            EventModel::Library { failure, .. } => Some(
                subject + " failed to load: "@ + described(failure, "unknown dlopen error"@),
            ),
            EventModel::VersionSymbol { failure, .. } => Some(
                subject + " missing recognize_documents_abi_version: "@ + described(
                    failure,
                    "abi-version symbol missing"@,
                ),
            ),
            EventModel::Version(version) => Some(
                subject + " ABI version "@ + decimal(version as nat) + " doesn't match expected "@
                    + decimal(EXPECTED_ABI_VERSION as nat) + " — refusing to use"@,
            ),
            EventModel::EntryPoints { failure, .. } => Some(
                subject + " loaded but symbol lookup failed: "@ + described(
                    failure,
                    "missing exported symbol"@,
                ),
            ),
            _ => None,
        }
    }
}

/// The loading of the sidecar library.
pub struct BridgeLoad {
    stage: LoadStage,
    path: String,
}

/// What a loading stands for: what is to be found out next, and where the
/// library is, as far as that is known.
#[verifier::ext_equal]
pub struct LoadModel {
    pub stage: LoadStage,
    pub path: Seq<char>,
}

impl View for BridgeLoad {
    type V = LoadModel;

    closed spec fn view(&self) -> LoadModel {
        LoadModel { stage: self.stage, path: self.path@ }
    }
}

impl LoadModel {
    /// The beginning of every loading.
    pub open spec fn begun() -> LoadModel {
        LoadModel { stage: LoadStage::System, path: Seq::empty() }
    }

    /// What an event leads to.
    pub open spec fn after(self, event: EventModel) -> LoadModel {
        LoadModel {
            stage: if event.goes_on() {
                following(self.stage)
            } else {
                LoadStage::Unavailable
            },
            path: match event {
                EventModel::Location(Some(path)) => path,
                _ => self.path,
            },
        }
    }
}

/// Reports that something is the matter with the library at `path`.
fn complain(path: &str, trouble: &str, failure: Option<String>, otherwise: &str) -> (r: String)
    ensures
        r@ == "system-ocr: sidecar at "@ + path@ + trouble@ + described(
            optional_text(failure),
            otherwise@,
        ),
{
    let mut r = "system-ocr: sidecar at ".to_owned();
    r.append(path);
    r.append(trouble);
    match failure {
        Some(text) => r.append(text.as_str()),
        None => r.append(otherwise),
    }
    r
}

impl BridgeLoad {
    /// Begins to load the sidecar library.
    pub fn new() -> (r: BridgeLoad)
        ensures
            r@ == LoadModel::begun(),
    {
        BridgeLoad { stage: LoadStage::System, path: String::new() }
    }

    /// What is to be found out next.
    pub fn stage(&self) -> (r: LoadStage)
        ensures
            r == self@.stage,
    {
        self.stage
    }

    /// Where the library is.
    pub fn path(&self) -> (r: &str)
        ensures
            r@ == self@.path,
    {
        self.path.as_str()
    }

    /// Takes in what was found out, which has to be what the stage asks for.
    /// What comes back is to be reported.
    pub fn advance(&mut self, event: LoadEvent) -> (r: Option<String>)
        requires
            event@.stage() == old(self)@.stage,
        ensures
            final(self)@ == old(self)@.after(event@),
            optional_text(r) == complaint(old(self)@.path, event@),
    {
        match event {
            LoadEvent::System { supported } => {
                self.stage = if supported {
                    LoadStage::Location
                } else {
                    LoadStage::Unavailable
                };
                None
            },
            LoadEvent::Location(Some(path)) => {
                self.path = path;
                self.stage = LoadStage::File;
                None
            },
            LoadEvent::Location(None) => {
                self.stage = LoadStage::Unavailable;
                None
            },
            LoadEvent::File { present } => {
                self.stage = if present {
                    LoadStage::Encoding
                } else {
                    LoadStage::Unavailable
                };
                None
            },
            LoadEvent::Encoding { valid } => {
                self.stage = if valid {
                    LoadStage::Library
                } else {
                    LoadStage::Unavailable
                };
                None
            },
            LoadEvent::Library { opened, failure } => {
                if opened {
                    self.stage = LoadStage::VersionSymbol;
                    return None;
                }
                self.stage = LoadStage::Unavailable;
                Some(
                    complain(
                        self.path.as_str(),
                        " failed to load: ",
                        failure,
                        "unknown dlopen error",
                    ),
                )
            },
            LoadEvent::VersionSymbol { found, failure } => {
                if found {
                    self.stage = LoadStage::Version;
                    return None;
                }
                self.stage = LoadStage::Unavailable;
                Some(
                    complain(
                        self.path.as_str(),
                        " missing recognize_documents_abi_version: ",
                        failure,
                        "abi-version symbol missing",
                    ),
                )
            },
            LoadEvent::Version(version) => {
                if version == EXPECTED_ABI_VERSION {
                    self.stage = LoadStage::EntryPoints;
                    return None;
                }
                self.stage = LoadStage::Unavailable;
                let mut r = "system-ocr: sidecar at ".to_owned();
                r.append(self.path.as_str());
                r.append(" ABI version ");
                let actual = to_decimal(version);
                r.append(actual.as_str());
                r.append(" doesn't match expected ");
                let expected = to_decimal(EXPECTED_ABI_VERSION);
                r.append(expected.as_str());
                r.append(" — refusing to use");
                Some(r)
            },
            LoadEvent::EntryPoints { from_path, from_data, free, failure } => {
                if from_path && from_data && free {
                    self.stage = LoadStage::Loaded;
                    return None;
                }
                self.stage = LoadStage::Unavailable;
                Some(
                    complain(
                        self.path.as_str(),
                        " loaded but symbol lookup failed: ",
                        failure,
                        "missing exported symbol",
                    ),
                )
            },
        }
    }
}

/// The events answer the stages as they come up.
pub open spec fn in_order(events: Seq<EventModel>) -> bool
    decreases events.len(),
{
    events.len() > 0 ==> in_order(events.drop_last()) && events.last().stage() == progress(
        events.drop_last(),
    ).stage
}

/// Where a loading stands after some events.
pub open spec fn progress(events: Seq<EventModel>) -> LoadModel
    decreases events.len(),
{
    if events.len() == 0 {
        LoadModel::begun()
    } else {
        progress(events.drop_last()).after(events.last())
    }
}

/// The number of questions that have been answered when a stage is reached.
pub open spec fn answers_before(stage: LoadStage) -> nat {
    match stage {
        LoadStage::System => 0,
        LoadStage::Location => 1,
        LoadStage::File => 2,
        LoadStage::Encoding => 3,
        LoadStage::Library => 4,
        LoadStage::VersionSymbol => 5,
        LoadStage::Version => 6,
        LoadStage::EntryPoints => 7,
        LoadStage::Loaded => 8,
        LoadStage::Unavailable => 0,
    }
}

/// As long as the library is not given up, every question so far was answered
/// well, in order.
pub proof fn law_every_stage_passed_the_earlier_ones(events: Seq<EventModel>)
    requires
        in_order(events),
        progress(events).stage != LoadStage::Unavailable,
    ensures
        events.len() == answers_before(progress(events).stage),
        forall|i: int|
            0 <= i < events.len() ==> (#[trigger] events[i]).goes_on() && answers_before(
                events[i].stage(),
            ) == i,
    decreases events.len(),
{
    if events.len() > 0 {
        let earlier = events.drop_last();
        law_every_stage_passed_the_earlier_ones(earlier);
        assert forall|i: int| 0 <= i < earlier.len() implies earlier[i] == events[i] by {}
        assert(events.last() == events[events.len() - 1]);
    }
}

/// No entry point is looked up before the library has told that it speaks the
/// expected version of the interface.
pub proof fn law_version_is_checked_before_entry_points(events: Seq<EventModel>)
    requires
        in_order(events),
        progress(events).stage == LoadStage::EntryPoints || progress(events).stage
            == LoadStage::Loaded,
    ensures
        events.len() > 6,
        events[6] == EventModel::Version(EXPECTED_ABI_VERSION),
{
    law_every_stage_passed_the_earlier_ones(events);
}

/// A library that is loaded has all three entry points.
pub proof fn law_loaded_library_has_all_entry_points(events: Seq<EventModel>)
    requires
        in_order(events),
        progress(events).stage == LoadStage::Loaded,
    ensures
        events.len() == 8,
        events[7] matches EventModel::EntryPoints { from_path, from_data, free, .. } && from_path
            && from_data && free,
{
    law_every_stage_passed_the_earlier_ones(events);
}

/// An old system or a missing library is passed over in silence; a library
/// that is there and cannot be used is reported.
pub proof fn law_only_a_broken_library_is_reported(path: Seq<char>, event: EventModel)
    ensures
        complaint(path, event) is Some <==> !event.goes_on() && (event.stage() == LoadStage::Library
            || event.stage() == LoadStage::VersionSymbol || event.stage() == LoadStage::Version
            || event.stage() == LoadStage::EntryPoints),
{
}

/// What has to be found for the loading to go on: a system that is new enough,
/// a place, a file at that place, a path that can be handed over, a library that
/// opens, the version of its interface, which has to be the expected one, and
/// all three entry points.
pub proof fn law_loading_goes_on_where_all_is_well(
    yes: bool,
    place: Option<Seq<char>>,
    failure: Option<Seq<char>>,
    version: u32,
    from_path: bool,
    from_data: bool,
    free: bool,
)
    ensures
        (EventModel::System { supported: yes }).goes_on() <==> yes,
        EventModel::Location(place).goes_on() <==> place is Some,
        (EventModel::File { present: yes }).goes_on() <==> yes,
        (EventModel::Encoding { valid: yes }).goes_on() <==> yes,
        (EventModel::Library { opened: yes, failure }).goes_on() <==> yes,
        (EventModel::VersionSymbol { found: yes, failure }).goes_on() <==> yes,
        EventModel::Version(version).goes_on() <==> version == 2,
        (EventModel::EntryPoints { from_path, from_data, free, failure }).goes_on() <==> from_path
            && from_data && free,
{
}

/// An answer that is well leads to the next question, and after the last one
/// the library is loaded; any other answer is the end. The place of the library
/// is what the answer to that question says, and stays.
pub proof fn law_every_answer_leads_on_or_ends_the_loading(load: LoadModel, event: EventModel)
    requires
        event.stage() == load.stage,
    ensures
        !event.goes_on() ==> load.after(event).stage is Unavailable,
        event.goes_on() ==> !(load.after(event).stage is Unavailable) && answers_before(
            load.after(event).stage,
        ) == answers_before(load.stage) + 1,
        event matches EventModel::Location(Some(path)) ==> load.after(event).path == path,
        !(event is Location) ==> load.after(event).path == load.path,
{
}

/// Eight answers that are well, in order, load the library from the place that
/// was named.
pub proof fn law_eight_good_answers_load_the_library(events: Seq<EventModel>)
    requires
        events.len() == 8,
        forall|i: int|
            0 <= i < 8 ==> (#[trigger] events[i]).goes_on() && answers_before(events[i].stage())
                == i,
    ensures
        in_order(events),
        progress(events).stage is Loaded,
        events[1] matches EventModel::Location(Some(path)) && progress(events).path == path,
{
    lemma_good_answers(events, 8);
    assert(events.take(8) =~= events);
    assert(events[1].goes_on());
}

/// The first answers of a good run.
proof fn lemma_good_answers(events: Seq<EventModel>, count: nat)
    requires
        count <= events.len() <= 8,
        forall|i: int|
            0 <= i < events.len() ==> (#[trigger] events[i]).goes_on() && answers_before(
                events[i].stage(),
            ) == i,
    ensures
        in_order(events.take(count as int)),
        !(progress(events.take(count as int)).stage is Unavailable),
        answers_before(progress(events.take(count as int)).stage) == count,
        count > 1 ==> (events[1] matches EventModel::Location(Some(path)) && progress(
            events.take(count as int),
        ).path == path),
    decreases count,
{
    let reached = events.take(count as int);
    if count > 0 {
        lemma_good_answers(events, (count - 1) as nat);
        assert(reached.drop_last() =~= events.take(count - 1));
        assert(reached.last() == events[count - 1]);
        assert(events[count - 1].goes_on());
        if count > 1 {
            assert(events[1].goes_on());
        }
    }
}

/// What is reported names the place of the library, what is the matter with it
/// and, where the loader gives one, the description of the failure.
pub proof fn law_reports_tell_what_is_the_matter(
    path: Seq<char>,
    failure: Seq<char>,
    version: u32,
    entry_points: (bool, bool, bool),
)
    requires
        version != 2,
        !(entry_points.0 && entry_points.1 && entry_points.2),
    ensures
        ({
            let subject = "system-ocr: sidecar at "@ + path;
            let (from_path, from_data, free) = entry_points;
            &&& complaint(path, EventModel::Library { opened: false, failure: Some(failure) })
                == Some(subject + " failed to load: "@ + failure)
            &&& complaint(path, EventModel::Library { opened: false, failure: None }) == Some(
                subject + " failed to load: "@ + "unknown dlopen error"@,
            )
            &&& complaint(path, EventModel::VersionSymbol { found: false, failure: Some(failure) })
                == Some(subject + " missing recognize_documents_abi_version: "@ + failure)
            &&& complaint(path, EventModel::VersionSymbol { found: false, failure: None }) == Some(
                subject + " missing recognize_documents_abi_version: "@
                    + "abi-version symbol missing"@,
            )
            &&& complaint(path, EventModel::Version(version)) == Some(
                subject + " ABI version "@ + decimal(version as nat) + " doesn't match expected "@
                    + decimal(2) + " — refusing to use"@,
            )
            &&& complaint(
                path,
                EventModel::EntryPoints { from_path, from_data, free, failure: Some(failure) },
            ) == Some(subject + " loaded but symbol lookup failed: "@ + failure)
            &&& complaint(
                path,
                EventModel::EntryPoints { from_path, from_data, free, failure: None },
            ) == Some(subject + " loaded but symbol lookup failed: "@ + "missing exported symbol"@)
        }),
{
}

/// What an event shows is what it holds.
pub proof fn law_events_are_shown_as_they_are(
    yes: bool,
    text: Option<String>,
    version: u32,
    from_path: bool,
    from_data: bool,
    free: bool,
)
    ensures
        ({
            let shown = match text {
                Some(t) => Some(t@),
                None => None,
            };
            &&& (LoadEvent::System { supported: yes })@ == (EventModel::System { supported: yes })
            &&& LoadEvent::Location(text)@ == EventModel::Location(shown)
            &&& (LoadEvent::File { present: yes })@ == (EventModel::File { present: yes })
            &&& (LoadEvent::Encoding { valid: yes })@ == (EventModel::Encoding { valid: yes })
            &&& (LoadEvent::Library { opened: yes, failure: text })@ == (EventModel::Library {
                opened: yes,
                failure: shown,
            })
            &&& (LoadEvent::VersionSymbol { found: yes, failure: text })@
                == (EventModel::VersionSymbol { found: yes, failure: shown })
            &&& LoadEvent::Version(version)@ == EventModel::Version(version)
            &&& (LoadEvent::EntryPoints { from_path, from_data, free, failure: text })@
                == (EventModel::EntryPoints { from_path, from_data, free, failure: shown })
        }),
{
}

/// Every event answers the question it is about, and a loading begins with the
/// first of them.
pub proof fn law_every_event_answers_its_question(event: EventModel)
    ensures
        event is System <==> event.stage() is System,
        event is Location <==> event.stage() is Location,
        event is File <==> event.stage() is File,
        event is Encoding <==> event.stage() is Encoding,
        event is Library <==> event.stage() is Library,
        event is VersionSymbol <==> event.stage() is VersionSymbol,
        event is Version <==> event.stage() is Version,
        event is EntryPoints <==> event.stage() is EntryPoints,
        LoadModel::begun().stage is System,
        LoadModel::begun().path.len() == 0,
{
}

} // verus!
