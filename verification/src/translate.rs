//! The steps of a translation: look for a cached answer, else run the script, then read.

use crate::command::{word_views, Word, WordView};
use crate::json::{json_document, pretty_text};
use crate::key::key_writes;
use crate::qwen::{answer_file, answer_of, cache_name, read_output, request_file, request_text, request_tree, script_line, Output, OutputError, Qwen};
use crate::text::string_texts;
use std::collections::hash_map::DefaultHasher;
use vstd::prelude::*;
use vstd::std_specs::hash::DefaultHasherAdditionalSpecFns;

verus! {

/// What is to be translated.
#[derive(Debug, Clone)]
pub struct Request {
    /// The video's id.
    pub id: String,
    pub title: String,
    /// The language.
    pub target: String,
    pub lines: Vec<String>,
}

/// How far a translation is.
#[derive(Debug, Clone, Copy, PartialEq, Eq)]
pub enum Stage {
    Start,
    /// A cached answer is being looked for.
    Looking,
    /// The script is running.
    Running,
    /// The answer is being read.
    Reading,
    Over,
}

/// What has happened.
#[derive(Debug)]
pub enum Event {
    /// The script's file holds these bytes.
    Script(Vec<u8>),
    /// The answer's file is there, or not.
    Looked { exists: bool },
    /// The script has ended.
    Ended { success: bool },
    /// The answer's file holds this text.
    Answer(String),
}

/// What to do next.
#[derive(Debug)]
pub enum Action {
    /// Look whether there is an answer to this request in the work directory.
    Look { request: String, request_file: String, answer_file: String },
    /// Write the request and run this command.
    Run(Vec<Word>),
    /// Read the answer; it was there before where `reused` says so.
    Read { reused: bool },
    /// The translations are these.
    Done(Output),
    /// The script failed.
    Fail,
    /// The answer cannot be used.
    Unusable(OutputError),
}

/// What an `Event` says.
pub enum EventView {
    Script(Seq<u8>),
    Looked { exists: bool },
    Ended { success: bool },
    Answer(Seq<char>),
}

/// What an `Action` asks for.
pub enum ActionView {
    Look { request: Seq<char>, request_file: Seq<char>, answer_file: Seq<char> },
    Run(Seq<WordView>),
    Read { reused: bool },
    Done { model: Seq<char>, translations: Seq<Seq<char>> },
    Fail,
    Unusable(OutputError),
}

impl View for Event {
    type V = EventView;

    open spec fn view(&self) -> EventView {
        match self {
            Event::Script(bytes) => EventView::Script(bytes@),
            Event::Looked { exists } => EventView::Looked { exists: *exists },
            Event::Ended { success } => EventView::Ended { success: *success },
            Event::Answer(s) => EventView::Answer(s@),
        }
    }
}

impl View for Action {
    type V = ActionView;

    open spec fn view(&self) -> ActionView {
        match self {
            Action::Look { request, request_file, answer_file } => ActionView::Look {
                request: request@,
                request_file: request_file@,
                answer_file: answer_file@,
            },
            Action::Run(words) => ActionView::Run(word_views(words@)),
            Action::Read { reused } => ActionView::Read { reused: *reused },
            Action::Done(o) => ActionView::Done {
                model: o.model@,
                translations: string_texts(o.translations@),
            },
            Action::Fail => ActionView::Fail,
            Action::Unusable(e) => ActionView::Unusable(*e),
        }
    }
}

/// The text of a request.
pub open spec fn text_of_request(r: Request) -> Seq<char> {
    pretty_text(request_tree(r.title@, r.target@, string_texts(r.lines@)))
}

/// The key of a request.
pub open spec fn key_of(q: Qwen, script: Seq<u8>, r: Request) -> u64 {
    DefaultHasher::spec_finish(key_writes(q, script, text_of_request(r)))
}

/// What an answer leads to.
pub open spec fn answer_action(r: Request, text: Seq<char>) -> ActionView {
    match answer_of(json_document(text)) {
        Some((model, translations)) => if translations.len() == r.lines@.len() {
            ActionView::Done { model, translations }
        } else {
            ActionView::Unusable(OutputError::Count(translations.len() as usize))
        },
        None => ActionView::Unusable(OutputError::Invalid),
    }
}

/// Whether an event can happen at a stage.
pub open spec fn expected(s: Stage, e: EventView) -> bool {
    match s {
        Stage::Start => e is Script,
        Stage::Looking => e is Looked,
        Stage::Running => e is Ended,
        Stage::Reading => e is Answer,
        Stage::Over => false,
    }
}

/// The next stage and what to do, at a stage and an event that can happen there.
pub open spec fn advance(q: Qwen, r: Request, s: Stage, e: EventView) -> (Stage, ActionView) {
    match (s, e) {
        (Stage::Start, EventView::Script(script)) => (
            Stage::Looking,
            ActionView::Look {
                request: text_of_request(r),
                request_file: cache_name(r.id@, key_of(q, script, r), ".in.json"@),
                answer_file: cache_name(r.id@, key_of(q, script, r), ".out.json"@),
            },
        ),
        (Stage::Looking, EventView::Looked { exists }) => if exists {
            (Stage::Reading, ActionView::Read { reused: true })
        } else {
            (Stage::Running, ActionView::Run(script_line(q)))
        },
        (Stage::Running, EventView::Ended { success }) => if success {
            (Stage::Reading, ActionView::Read { reused: false })
        } else {
            (Stage::Over, ActionView::Fail)
        },
        (Stage::Reading, EventView::Answer(text)) => (Stage::Over, answer_action(r, text)),
        _ => (Stage::Over, ActionView::Fail),
    }
}

/// Where the answer to a request is kept.
fn look(q: &Qwen, r: &Request, script: &Vec<u8>) -> (a: Action)
    ensures
        a@ == advance(*q, *r, Stage::Start, EventView::Script(script@)).1,
{
    let request = request_text(r.title.as_str(), r.target.as_str(), r.lines.as_slice());
    let key: u64 = q.key(script.as_slice(), request.as_str());
    Action::Look {
        request_file: request_file(r.id.as_str(), key),
        answer_file: answer_file(r.id.as_str(), key),
        request,
    }
}

/// What an answer leads to.
fn use_answer(r: &Request, text: &str) -> (a: Action)
    ensures
        a@ == answer_action(*r, text@),
{
    match read_output(text, r.lines.len()) {
        Ok(o) => Action::Done(o),
        Err(e) => Action::Unusable(e),
    }
}

impl Qwen {
    /// How lines are translated: from the stage a translation is at and what has happened, the
    /// next stage and what to do. Results are cached, keyed by the settings, the script and the
    /// request.
    pub fn translate(&self, r: &Request, stage: Stage, event: Event) -> (next: (Stage, Action))
        requires
            expected(stage, event@),
        ensures
            (next.0, next.1@) == advance(*self, *r, stage, event@),
    {
        match (stage, event) {
            (Stage::Start, Event::Script(script)) => (Stage::Looking, look(self, r, &script)),
            (Stage::Looking, Event::Looked { exists }) => if exists {
                (Stage::Reading, Action::Read { reused: true })
            } else {
                (Stage::Running, Action::Run(self.command()))
            },
            (Stage::Running, Event::Ended { success }) => if success {
                (Stage::Reading, Action::Read { reused: false })
            } else {
                (Stage::Over, Action::Fail)
            },
            (Stage::Reading, Event::Answer(text)) => (Stage::Over, use_answer(r, text.as_str())),
            _ => (Stage::Over, Action::Fail),
        }
    }
}

/// How many steps are left at most.
pub open spec fn steps_left(s: Stage) -> nat {
    match s {
        Stage::Start => 4,
        Stage::Looking => 3,
        Stage::Running => 2,
        Stage::Reading => 1,
        Stage::Over => 0,
    }
}

/// Law: every step brings a translation closer to its end, and it ends with the translations or a
/// failure.
pub proof fn law_translation_ends(q: Qwen, r: Request, s: Stage, e: EventView)
    requires
        expected(s, e),
    ensures
        ({
            let (next, action) = advance(q, r, s, e);
            &&& steps_left(next) < steps_left(s)
            &&& next is Over <==> action is Done || action is Fail || action is Unusable
        }),
{
}

/// Law: the script runs only where there is no answer to the request, and an answer that is there
/// is read in its place.
pub proof fn law_answer_reused(q: Qwen, r: Request, s: Stage, e: EventView)
    requires
        expected(s, e),
    ensures
        ({
            let (_, action) = advance(q, r, s, e);
            &&& action is Run <==> s is Looking && !e->exists
            &&& action == (ActionView::Read { reused: true }) <==> s is Looking && e->exists
        }),
{
}

/// Law: translations that are used are as many as the lines.
pub proof fn law_as_many_lines(q: Qwen, r: Request, s: Stage, e: EventView)
    requires
        expected(s, e),
    ensures
        advance(q, r, s, e).1 matches ActionView::Done { translations, .. } ==> translations.len()
            == r.lines@.len(),
{
}

} // verus!
