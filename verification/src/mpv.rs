//! mpv as a headless audio player, driven over its JSON IPC socket: what is sent and what comes
//! back.

use crate::finite::{finite_number, is_finite_number};
use crate::float::{parse_seconds, read_seconds};
use crate::json::{compact_text, json_document, json_of, members, unsigned, Json};
use crate::json::{bool_value, compact, integer_value, list_value, member, number_text, parse_unsigned, read_document, record_value, text_value, unsigned_value};
use crate::number::{decimal, parse_i64, read_i64, signed_decimal};
use crate::text::{chars_of, same_str};
use vstd::prelude::*;

verus! {

// ---- Commands ------------------------------------------------------------------------------

/// One argument of an mpv command: an integer, a finite number with a fraction as it was written,
/// or a text.
#[derive(Debug, Clone, PartialEq, Eq)]
pub enum CtlArg {
    Int(i64),
    Float(String),
    Text(String),
}

/// What an argument is.
pub enum CtlArgView {
    Int(i64),
    Float(Seq<char>),
    Text(Seq<char>),
}

impl View for CtlArg {
    type V = CtlArgView;

    open spec fn view(&self) -> CtlArgView {
        match self {
            CtlArg::Int(i) => CtlArgView::Int(*i),
            CtlArg::Float(s) => CtlArgView::Float(s@),
            CtlArg::Text(s) => CtlArgView::Text(s@),
        }
    }
}

/// The argument that a word is: a number where JSON can write it as one, else a text.
pub open spec fn ctl_arg(w: Seq<char>) -> CtlArgView {
    match read_i64(w) {
        Some(i) => CtlArgView::Int(i),
        None => if finite_number(w) {
            CtlArgView::Float(w)
        } else {
            CtlArgView::Text(w)
        },
    }
}

/// Turn `diolingo ctl` words into mpv command arguments: integers and floats
/// become JSON numbers, everything else stays a string. A word that no JSON number can stand for,
/// such as `inf`, is a string.
pub fn parse_ctl_args(words: &[String]) -> (r: Vec<CtlArg>)
    ensures
        r@.len() == words@.len(),
        forall|i: int| 0 <= i < words@.len() ==> (#[trigger] r@[i])@ == ctl_arg(words@[i]@),
{
    let mut out: Vec<CtlArg> = Vec::new();
    for i in 0..words.len()
        invariant
            out@.len() == i,
            forall|j: int| 0 <= j < i ==> (#[trigger] out@[j])@ == ctl_arg(words@[j]@),
    {
        let w = chars_of(words[i].as_str());
        let arg = match parse_i64(w.as_slice()) {
            Some(n) => CtlArg::Int(n),
            None => if is_finite_number(w.as_slice()) {
                CtlArg::Float(words[i].clone())
            } else {
                CtlArg::Text(words[i].clone())
            },
        };
        out.push(arg);
    }
    out
}

// ---- What is sent --------------------------------------------------------------------------

/// An argument of a message: a text, an integer or a truth value.
#[derive(Debug, Clone, PartialEq, Eq)]
pub enum Arg {
    Text(String),
    Int(i64),
    Bool(bool),
}

/// What an argument is in JSON.
pub open spec fn arg_tree(a: Arg) -> Json {
    match a {
        Arg::Text(s) => Json::Text(s@),
        Arg::Int(i) => Json::Number(signed_decimal(i as int)),
        Arg::Bool(b) => Json::Bool(b),
    }
}

/// What arguments are in JSON.
pub open spec fn arg_trees(args: Seq<Arg>) -> Seq<Json> {
    Seq::new(args.len(), |i: int| arg_tree(args[i]))
}

/// What values hold.
pub open spec fn value_trees(values: Seq<serde_json::Value>) -> Seq<Json> {
    Seq::new(values.len(), |i: int| json_of(values[i]))
}

/// A command with its arguments, and the number of the request where a reply is wanted.
pub open spec fn command_tree(args: Seq<Json>, request: Option<u64>) -> Json {
    match request {
        Some(id) => Json::Record(
            map!["command"@ => Json::List(args), "request_id"@ => Json::Number(decimal(id as nat))],
        ),
        None => Json::Record(map!["command"@ => Json::List(args)]),
    }
}

/// A message: one line of JSON.
pub open spec fn message(args: Seq<Json>, request: Option<u64>) -> Seq<char> {
    compact_text(command_tree(args, request)) + seq!['\n']
}

/// The JSON value of an argument.
pub fn arg_value(arg: &Arg) -> (r: serde_json::Value)
    ensures
        json_of(r) == arg_tree(*arg),
{
    match arg {
        Arg::Text(s) => text_value(s.as_str()),
        Arg::Int(i) => integer_value(*i),
        Arg::Bool(b) => bool_value(*b),
    }
}

/// The message that sends a command whose arguments are JSON values already.
pub fn command_message(args: Vec<serde_json::Value>, request: Option<u64>) -> (r: String)
    ensures
        r@ == message(value_trees(args@), request),
{
    let ghost trees = value_trees(args@);
    let mut pairs: Vec<(String, serde_json::Value)> = Vec::new();
    pairs.push(("command".to_string(), list_value(args)));
    if let Some(id) = request {
        pairs.push(("request_id".to_string(), unsigned_value(id)));
    }
    proof {
        reveal_with_fuel(members, 3);
        reveal_strlit("command");
        reveal_strlit("request_id");
        assert("command"@[0] != "request_id"@[0]);
        let p = pairs@;
        match request {
            Some(id) => {
                assert(p.drop_last().drop_last() =~= Seq::empty());
                assert(members(p) =~= map![
                    "command"@ => Json::List(trees),
                    "request_id"@ => Json::Number(decimal(id as nat)),
                ]);
            },
            None => {
                assert(p.drop_last() =~= Seq::empty());
                assert(members(p) =~= map!["command"@ => Json::List(trees)]);
            },
        }
    }
    let v = record_value(pairs);
    let mut line = compact(&v).unwrap();
    line.push('\n');
    assert(line@ =~= message(trees, request));
    line
}

/// The message that sends a command (`{"command": [...]}`), with the number of the request where a
/// reply is wanted.
pub fn command_line(args: &[Arg], request: Option<u64>) -> (r: String)
    ensures
        r@ == message(arg_trees(args@), request),
{
    let mut values: Vec<serde_json::Value> = Vec::new();
    for i in 0..args.len()
        invariant
            values@.len() == i,
            forall|j: int| 0 <= j < i ==> json_of(#[trigger] values@[j]) == arg_tree(args@[j]),
    {
        values.push(arg_value(&args[i]));
    }
    assert(value_trees(values@) =~= arg_trees(args@));
    command_message(values, request)
}

/// The properties that the subtitle bar follows.
pub open spec fn followed() -> Seq<Seq<char>> {
    seq!["time-pos"@, "pause"@, "volume"@]
}

/// What asks for reports of a property's changes.
pub open spec fn observing(id: int, property: Seq<char>) -> Seq<Json> {
    seq![
        Json::Text("observe_property"@),
        Json::Number(signed_decimal(id)),
        Json::Text(property),
    ]
}

/// The message that asks for reports of a property's changes.
fn observe(id: i64, property: &str) -> (r: String)
    ensures
        r@ == message(observing(id as int, property@), None),
{
    let mut args: Vec<Arg> = Vec::new();
    args.push(Arg::Text("observe_property".to_string()));
    args.push(Arg::Int(id));
    args.push(Arg::Text(property.to_string()));
    assert(arg_trees(args@) =~= observing(id as int, property@));
    command_line(args.as_slice(), None)
}

/// The messages that ask for reports of the properties that the subtitle bar follows, numbered
/// from one.
pub fn observe_all() -> (r: Vec<String>)
    ensures
        r@.len() == followed().len(),
        forall|i: int|
            0 <= i < followed().len() ==> (#[trigger] r@[i])@ == message(
                observing(i + 1, followed()[i]),
                None,
            ),
{
    let mut out: Vec<String> = Vec::new();
    out.push(observe(1, "time-pos"));
    out.push(observe(2, "pause"));
    out.push(observe(3, "volume"));
    out
}

/// The message that pauses or resumes.
pub fn pause_message(paused: bool) -> (r: String)
    ensures
        r@ == message(
            seq![Json::Text("set_property"@), Json::Text("pause"@), Json::Bool(paused)],
            None,
        ),
{
    let mut args: Vec<Arg> = Vec::new();
    args.push(Arg::Text("set_property".to_string()));
    args.push(Arg::Text("pause".to_string()));
    args.push(Arg::Bool(paused));
    assert(arg_trees(args@) =~= seq![
        Json::Text("set_property"@),
        Json::Text("pause"@),
        Json::Bool(paused),
    ]);
    command_line(args.as_slice(), None)
}

/// The message that changes the volume.
pub fn volume_message(step: i64) -> (r: String)
    ensures
        r@ == message(
            seq![
                Json::Text("add"@),
                Json::Text("volume"@),
                Json::Number(signed_decimal(step as int)),
            ],
            None,
        ),
{
    let mut args: Vec<Arg> = Vec::new();
    args.push(Arg::Text("add".to_string()));
    args.push(Arg::Text("volume".to_string()));
    args.push(Arg::Int(step));
    assert(arg_trees(args@) =~= seq![
        Json::Text("add"@),
        Json::Text("volume"@),
        Json::Number(signed_decimal(step as int)),
    ]);
    command_line(args.as_slice(), None)
}

/// The message that pauses where mpv plays, and resumes where it pauses.
pub fn toggle_message() -> (r: String)
    ensures
        r@ == message(seq![Json::Text("cycle"@), Json::Text("pause"@)], None),
{
    let mut args: Vec<Arg> = Vec::new();
    args.push(Arg::Text("cycle".to_string()));
    args.push(Arg::Text("pause".to_string()));
    assert(arg_trees(args@) =~= seq![Json::Text("cycle"@), Json::Text("pause"@)]);
    command_line(args.as_slice(), None)
}

// ---- What comes back -----------------------------------------------------------------------

/// The member of a record.
pub open spec fn field(j: Json, key: Seq<char>) -> Option<Json> {
    match j {
        Json::Record(m) => if m.dom().contains(key) {
            Some(m[key])
        } else {
            None
        },
        _ => None,
    }
}

/// The member of a record, where it is a text.
pub open spec fn text_field(j: Json, key: Seq<char>) -> Option<Seq<char>> {
    match field(j, key) {
        Some(Json::Text(s)) => Some(s),
        _ => None,
    }
}

/// The member of a record, where it is a number.
pub open spec fn number_field(j: Json, key: Seq<char>) -> Option<Seq<char>> {
    match field(j, key) {
        Some(Json::Number(t)) => Some(t),
        _ => None,
    }
}

/// Reads a member that is a text.
fn text_of<'a>(v: &'a serde_json::Value, key: &str) -> (r: Option<&'a str>)
    ensures
        match text_field(json_of(*v), key@) {
            Some(s) => r is Some && r->0@ == s,
            None => r is None,
        },
{
    match member(v, key) {
        Some(x) => x.as_str(),
        None => None,
    }
}

/// Reads a member that is a number.
fn number_of(v: &serde_json::Value, key: &str) -> (r: Option<String>)
    ensures
        match number_field(json_of(*v), key@) {
            Some(t) => r is Some && r->0@ == t,
            None => r is None,
        },
{
    match member(v, key) {
        Some(x) => number_text(x),
        None => None,
    }
}

/// The number under which requests are sent.
pub const REQUEST_ID: u64 = 1;

/// What a line from mpv says of a request.
#[derive(Debug)]
pub enum Reply {
    /// It is about something else.
    Other,
    /// The request was carried out, with these data.
    Done(Option<serde_json::Value>),
    /// mpv reports an error.
    Failed(String),
}

/// What a `Reply` says.
pub enum ReplyView {
    Other,
    Done(Option<Json>),
    Failed(Seq<char>),
}

impl View for Reply {
    type V = ReplyView;

    open spec fn view(&self) -> ReplyView {
        match self {
            Reply::Other => ReplyView::Other,
            Reply::Done(Some(v)) => ReplyView::Done(Some(json_of(*v))),
            Reply::Done(None) => ReplyView::Done(None),
            Reply::Failed(e) => ReplyView::Failed(e@),
        }
    }
}

/// `Value`'s `Clone`: the same tree once more.
pub assume_specification[ <serde_json::Value as Clone>::clone ](v: &serde_json::Value) -> (r: serde_json::Value)
    ensures
        json_of(r) == json_of(*v),
;

/// Whether a message answers the request.
pub open spec fn answers(j: Json) -> bool {
    match number_field(j, "request_id"@) {
        Some(t) => unsigned(t) == Some(REQUEST_ID as nat),
        None => false,
    }
}

/// What a message says of the request. A reply that names no error was carried out, without data.
pub open spec fn reply_of(doc: Option<Json>) -> ReplyView {
    match doc {
        Some(j) => if answers(j) {
            match text_field(j, "error"@) {
                Some(e) => if e == "success"@ {
                    ReplyView::Done(field(j, "data"@))
                } else {
                    ReplyView::Failed(e)
                },
                None => ReplyView::Done(None),
            }
        } else {
            ReplyView::Other
        },
        None => ReplyView::Other,
    }
}

/// What a message says of the request.
pub fn read_reply(v: &serde_json::Value) -> (r: Reply)
    ensures
        r@ == reply_of(Some(json_of(*v))),
{
    let id = match number_of(v, "request_id") {
        Some(t) => parse_unsigned(t.as_str(), u64::MAX),
        None => None,
    };
    if id.is_none() || id.unwrap() != REQUEST_ID {
        return Reply::Other;
    }
    match text_of(v, "error") {
        Some(e) => if same_str(e, "success") {
            match member(v, "data") {
                Some(d) => Reply::Done(Some(d.clone())),
                None => Reply::Done(None),
            }
        } else {
            Reply::Failed(e.to_string())
        },
        None => Reply::Done(None),
    }
}

/// What a line from mpv says of the request; events and lines that are no JSON are about
/// something else.
pub fn command(line: &str) -> (r: Reply)
    ensures
        r@ == reply_of(json_document(line@)),
{
    match read_document(line) {
        Ok(v) => read_reply(&v),
        Err(_) => Reply::Other,
    }
}

/// A property that has changed, and what it is now: the playback time in milliseconds, whether
/// playback pauses, or the volume as the number was written.
#[derive(Debug, Clone, PartialEq, Eq)]
pub enum Change {
    Time(Option<u64>),
    Pause(bool),
    Volume(Option<String>),
}

/// What a `Change` says.
pub enum ChangeView {
    Time(Option<u64>),
    Pause(bool),
    Volume(Option<Seq<char>>),
}

/// What a text that may be missing holds.
pub open spec fn text_view(s: Option<String>) -> Option<Seq<char>> {
    match s {
        Some(t) => Some(t@),
        None => None,
    }
}

impl View for Change {
    type V = ChangeView;

    open spec fn view(&self) -> ChangeView {
        match self {
            Change::Time(t) => ChangeView::Time(*t),
            Change::Pause(b) => ChangeView::Pause(*b),
            Change::Volume(s) => ChangeView::Volume(text_view(*s)),
        }
    }
}

/// The playback time that a message gives: seconds as a number, in whole milliseconds.
pub open spec fn time_of(j: Json) -> Option<u64> {
    match number_field(j, "data"@) {
        Some(t) => read_seconds(t, false),
        None => None,
    }
}

/// The property change that a message reports: of the playback time, of the pause, or of the
/// volume.
pub open spec fn change_of(doc: Option<Json>) -> Option<ChangeView> {
    match doc {
        Some(j) => if text_field(j, "event"@) == Some("property-change"@) {
            match text_field(j, "name"@) {
                Some(name) => if name == "time-pos"@ {
                    Some(ChangeView::Time(time_of(j)))
                } else if name == "pause"@ {
                    Some(
                        ChangeView::Pause(
                            match field(j, "data"@) {
                                Some(Json::Bool(b)) => b,
                                _ => false,
                            },
                        ),
                    )
                } else if name == "volume"@ {
                    Some(ChangeView::Volume(number_field(j, "data"@)))
                } else {
                    None
                },
                None => None,
            }
        } else {
            None
        },
        None => None,
    }
}

/// What a result of reading a change holds.
pub open spec fn change_view(r: Option<Change>) -> Option<ChangeView> {
    match r {
        Some(c) => Some(c@),
        None => None,
    }
}

/// Reads a property change from a message.
pub fn read_change(v: &serde_json::Value) -> (r: Option<Change>)
    ensures
        change_view(r) == change_of(Some(json_of(*v))),
{
    match text_of(v, "event") {
        Some(e) => if !same_str(e, "property-change") {
            return None;
        },
        None => {
            return None;
        },
    }
    match text_of(v, "name") {
        Some(name) => if same_str(name, "time-pos") {
            let time = match number_of(v, "data") {
                Some(t) => parse_seconds(chars_of(t.as_str()).as_slice(), false),
                None => None,
            };
            Some(Change::Time(time))
        } else if same_str(name, "pause") {
            let paused = match member(v, "data") {
                Some(d) => match d.as_bool() {
                    Some(b) => b,
                    None => false,
                },
                None => false,
            };
            Some(Change::Pause(paused))
        } else if same_str(name, "volume") {
            Some(Change::Volume(number_of(v, "data")))
        } else {
            None
        },
        None => None,
    }
}

/// Reads a property change from a line that mpv sent.
pub fn property_change(line: &str) -> (r: Option<Change>)
    ensures
        change_view(r) == change_of(json_document(line@)),
{
    match read_document(line) {
        Ok(v) => read_change(&v),
        Err(_) => None,
    }
}

} // verus!
