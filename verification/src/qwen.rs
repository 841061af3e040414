//! Local translation through a script that runs a Qwen model: what it is asked, how it is run and
//! what it answers.

use crate::command::{add_path, add_text, add_texts, text_words, word_views, Word, WordView};
use crate::json::{all_of, describes, json_document, json_of, part, pretty_text, Json};
use crate::json::{find_part, is_record, list_value, pretty, read_document, record_value, text_value};
use crate::number::{decimal, push_decimal};
use crate::text::{chars_of, push_str, same_str, string_of, string_texts};
use vstd::prelude::*;

verus! {

/// The translation script's file name.
pub const SCRIPT_NAME: &'static str = "translate_qwen.py";

/// Whether a file has to be written: unless what it holds is known and the same.
pub fn write_if_changed(current: Option<&str>, content: &str) -> (r: bool)
    ensures
        r == !(current matches Some(c) && c@ == content@),
{
    match current {
        Some(c) => !same_str(c, content),
        None => true,
    }
}

/// How the translation script is run.
#[derive(Debug, Clone)]
pub struct Qwen {
    /// The script's path, for display.
    pub script: String,
    /// Interpreter to run the script with; `None` means `uv run --script`.
    pub python: Option<String>,
    /// Model id passed through to the script; `None` keeps the script's default.
    pub model: Option<String>,
    pub batch_lines: usize,
    /// Extra arguments passed verbatim to the script (e.g. `--device cpu`, `--quant 4bit`).
    pub extra_args: Vec<String>,
}

/// A text, or another where it is missing.
pub open spec fn text_or(s: Option<String>, other: Seq<char>) -> Seq<char> {
    match s {
        Some(t) => t@,
        None => other,
    }
}

/// The translator in a few words.
pub open spec fn translator_text(q: Qwen) -> Seq<char> {
    "qwen "@ + text_or(q.model, "script default"@) + " via "@ + text_or(q.python, "uv run"@) + " ("@
        + q.script@ + ")"@
}

// ---- The request ---------------------------------------------------------------------------

/// The texts as a list.
pub open spec fn text_list(s: Seq<Seq<char>>) -> Json {
    Json::List(Seq::new(s.len(), |i: int| Json::Text(s[i])))
}

/// What the script is asked.
pub open spec fn request_tree(title: Seq<char>, target: Seq<char>, lines: Seq<Seq<char>>) -> Json {
    Json::Record(
        map!["title"@ => Json::Text(title), "target"@ => Json::Text(target), "lines"@ => text_list(lines)],
    )
}

/// The texts as a list.
fn list_of(lines: &[String]) -> (r: serde_json::Value)
    ensures
        json_of(r) == text_list(string_texts(lines@)),
{
    let ghost all = string_texts(lines@);
    let mut v: Vec<serde_json::Value> = Vec::new();
    for i in 0..lines.len()
        invariant
            all == string_texts(lines@),
            v@.len() == i,
            forall|j: int| 0 <= j < i ==> json_of(#[trigger] v@[j]) == Json::Text(all[j]),
    {
        v.push(text_value(lines[i].as_str()));
    }
    assert(Seq::new(v@.len(), |i: int| json_of(v@[i])) =~= Seq::new(
        all.len(),
        |i: int| Json::Text(all[i]),
    ));
    list_value(v)
}

/// The text of the request for the script, as JSON.
pub fn request_text(title: &str, target: &str, lines: &[String]) -> (r: String)
    ensures
        r@ == pretty_text(request_tree(title@, target@, string_texts(lines@))),
{
    let mut pairs: Vec<(String, serde_json::Value)> = Vec::new();
    pairs.push(("title".to_string(), text_value(title)));
    pairs.push(("target".to_string(), text_value(target)));
    pairs.push(("lines".to_string(), list_of(lines)));
    proof {
        reveal_with_fuel(crate::json::members, 4);
        reveal_strlit("title");
        reveal_strlit("target");
        reveal_strlit("lines");
        assert("title"@[1] != "target"@[1]);
        assert("title"@[0] != "lines"@[0] && "target"@[0] != "lines"@[0]);
        let p = pairs@;
        assert(p.drop_last().drop_last().drop_last() =~= Seq::empty());
        assert(crate::json::members(p) =~= map![
            "title"@ => Json::Text(title@),
            "target"@ => Json::Text(target@),
            "lines"@ => text_list(string_texts(lines@)),
        ]);
    }
    let v = record_value(pairs);
    pretty(&v).unwrap()
}

// ---- The cache -----------------------------------------------------------------------------

/// A hexadecimal digit.
pub open spec fn hex_digit(d: nat) -> char {
    if d < 10 {
        ('0' as u32 + d) as char
    } else {
        ('a' as u32 + (d - 10)) as char
    }
}

/// The last `k` hexadecimal digits of `n`, with zeros in front.
pub open spec fn hex(n: nat, k: nat) -> Seq<char>
    decreases k,
{
    if k == 0 {
        Seq::empty()
    } else {
        hex(n / 16, (k - 1) as nat).push(hex_digit(n % 16))
    }
}

/// `16` to the power `k`.
pub open spec fn pow16(k: nat) -> nat
    decreases k,
{
    if k == 0 {
        1
    } else {
        16 * pow16((k - 1) as nat)
    }
}

/// Different numbers have different digits.
proof fn lemma_hex_injective(a: nat, b: nat, k: nat)
    requires
        a < pow16(k),
        b < pow16(k),
        hex(a, k) == hex(b, k),
    ensures
        a == b,
    decreases k,
{
    if k > 0 {
        let (p, q) = (hex(a, k), hex(b, k));
        assert(p.last() == q.last());
        assert(p.drop_last() =~= hex(a / 16, (k - 1) as nat));
        assert(q.drop_last() =~= hex(b / 16, (k - 1) as nat));
        assert(a / 16 < pow16((k - 1) as nat) && b / 16 < pow16((k - 1) as nat)) by {
            assert(pow16(k) == 16 * pow16((k - 1) as nat));
        }
        lemma_hex_injective(a / 16, b / 16, (k - 1) as nat);
        assert(a % 16 == b % 16);
    }
}

/// The name of a request's or an answer's file.
pub open spec fn cache_name(id: Seq<char>, key: u64, ending: Seq<char>) -> Seq<char> {
    id + ".qwen."@ + hex(key as nat, 16) + ending
}

/// Law: different keys have different files.
pub proof fn law_cache_names_differ(id: Seq<char>, a: u64, b: u64, ending: Seq<char>)
    requires
        cache_name(id, a, ending) == cache_name(id, b, ending),
    ensures
        a == b,
{
    let (s, t) = (cache_name(id, a, ending), cache_name(id, b, ending));
    lemma_hex_len(a as nat, 16);
    lemma_hex_len(b as nat, 16);
    let n = (id + ".qwen."@).len() as int;
    assert(s.subrange(n, n + 16) =~= hex(a as nat, 16));
    assert(t.subrange(n, n + 16) =~= hex(b as nat, 16));
    reveal_with_fuel(pow16, 17);
    lemma_hex_injective(a as nat, b as nat, 16);
}

/// How many digits there are.
proof fn lemma_hex_len(n: nat, k: nat)
    ensures
        hex(n, k).len() == k,
    decreases k,
{
    if k > 0 {
        lemma_hex_len(n / 16, (k - 1) as nat);
    }
}

/// Appends hexadecimal digits.
fn push_hex(out: &mut Vec<char>, n: u64, k: u8)
    ensures
        final(out)@ == old(out)@ + hex(n as nat, k as nat),
    decreases k,
{
    let ghost start = out@;
    if k == 0 {
        assert(out@ =~= start + Seq::<char>::empty());
        return;
    }
    push_hex(out, n / 16, k - 1);
    let d: u8 = (n % 16) as u8;
    let c: char = if d < 10 {
        ('0' as u8 + d) as char
    } else {
        ('a' as u8 + (d - 10)) as char
    };
    assert(c == hex_digit((n as nat) % 16));
    out.push(c);
    assert(out@ =~= start + hex(n as nat, k as nat));
}

/// A file name in the cache.
fn cache_file(id: &str, key: u64, ending: &str) -> (r: String)
    ensures
        r@ == cache_name(id@, key, ending@),
{
    let mut out = chars_of(id);
    push_str(&mut out, ".qwen.");
    push_hex(&mut out, key, 16);
    push_str(&mut out, ending);
    string_of(out.as_slice())
}

/// The file that holds the request with this key.
pub fn request_file(id: &str, key: u64) -> (r: String)
    ensures
        r@ == cache_name(id@, key, ".in.json"@),
{
    cache_file(id, key, ".in.json")
}

/// The file that holds the answer to the request with this key.
pub fn answer_file(id: &str, key: u64) -> (r: String)
    ensures
        r@ == cache_name(id@, key, ".out.json"@),
{
    cache_file(id, key, ".out.json")
}

// ---- Running the script --------------------------------------------------------------------

/// The number of the interpreter's path in a command line.
pub const PYTHON: usize = 0;

/// The number of the script's path.
pub const SCRIPT: usize = 1;

/// The number of the request's path.
pub const REQUEST: usize = 2;

/// The number of the answer's path.
pub const ANSWER: usize = 3;

/// The command that runs the script.
pub open spec fn script_line(q: Qwen) -> Seq<WordView> {
    let start = if q.python is Some {
        seq![WordView::Path(PYTHON), WordView::Path(SCRIPT)]
    } else {
        text_words(seq!["uv"@, "run"@, "--script"@]) + seq![WordView::Path(SCRIPT)]
    };
    let model = match q.model {
        Some(m) => text_words(seq!["--model"@, m@]),
        None => Seq::empty(),
    };
    start + seq![
        WordView::Text("--input"@),
        WordView::Path(REQUEST),
        WordView::Text("--output"@),
        WordView::Path(ANSWER),
        WordView::Text("--batch-lines"@),
        WordView::Text(decimal(q.batch_lines as nat)),
    ] + model + text_words(string_texts(q.extra_args@))
}

impl Qwen {
    /// The translator in a few words.
    pub fn describe(&self) -> (r: String)
        ensures
            r@ == translator_text(*self),
    {
        let mut out = chars_of("qwen ");
        match &self.model {
            Some(m) => push_str(&mut out, m.as_str()),
            None => push_str(&mut out, "script default"),
        }
        push_str(&mut out, " via ");
        match &self.python {
            Some(p) => push_str(&mut out, p.as_str()),
            None => push_str(&mut out, "uv run"),
        }
        push_str(&mut out, " (");
        push_str(&mut out, self.script.as_str());
        push_str(&mut out, ")");
        assert(out@ =~= translator_text(*self));
        string_of(out.as_slice())
    }

    /// The command that translates: it reads the request and writes the answer.
    pub fn command(&self) -> (r: Vec<Word>)
        ensures
            word_views(r@) == script_line(*self),
    {
        let mut count: Vec<char> = Vec::new();
        push_decimal(&mut count, self.batch_lines as u64);
        assert(count@ =~= decimal(self.batch_lines as nat));
        let mut words: Vec<Word> = Vec::new();
        if self.python.is_some() {
            add_path(&mut words, PYTHON);
            add_path(&mut words, SCRIPT);
            assert(word_views(words@) =~= seq![WordView::Path(PYTHON), WordView::Path(SCRIPT)]);
        } else {
            add_text(&mut words, "uv");
            add_text(&mut words, "run");
            add_text(&mut words, "--script");
            add_path(&mut words, SCRIPT);
            assert(word_views(words@) =~= text_words(seq!["uv"@, "run"@, "--script"@]) + seq![
                WordView::Path(SCRIPT),
            ]);
        }
        let ghost start = word_views(words@);
        add_text(&mut words, "--input");
        add_path(&mut words, REQUEST);
        add_text(&mut words, "--output");
        add_path(&mut words, ANSWER);
        add_text(&mut words, "--batch-lines");
        add_text(&mut words, string_of(count.as_slice()).as_str());
        assert(word_views(words@) =~= start + seq![
            WordView::Text("--input"@),
            WordView::Path(REQUEST),
            WordView::Text("--output"@),
            WordView::Path(ANSWER),
            WordView::Text("--batch-lines"@),
            WordView::Text(count@),
        ]);
        let ghost middle = word_views(words@);
        if let Some(m) = &self.model {
            add_text(&mut words, "--model");
            add_text(&mut words, m.as_str());
            assert(word_views(words@) =~= middle + text_words(seq!["--model"@, m@]));
        } else {
            assert(word_views(words@) =~= middle + Seq::<WordView>::empty());
        }
        add_texts(&mut words, self.extra_args.as_slice());
        words
    }
}

// ---- The answer ----------------------------------------------------------------------------

/// What the script answers.
#[derive(Debug, Clone)]
pub struct Output {
    /// Which model translated; may be empty.
    pub model: String,
    pub translations: Vec<String>,
}

/// Why an answer cannot be used.
#[derive(Debug, PartialEq, Eq)]
pub enum OutputError {
    /// It is no JSON, or not of the right shape.
    Invalid,
    /// It does not have as many lines as there were inputs.
    Count(usize),
}

/// What a text value says.
pub open spec fn as_text(j: Json) -> Option<Seq<char>> {
    match j {
        Json::Text(s) => Some(s),
        _ => None,
    }
}

/// The model that an answer names; the empty text where it names none.
pub open spec fn answer_model(j: Json) -> Option<Seq<char>> {
    match part(j, "model"@, 0) {
        Some(m) => as_text(m),
        None => Some(Seq::empty()),
    }
}

/// The translations of an answer.
pub open spec fn answer_lines(j: Json) -> Option<Seq<Seq<char>>> {
    match part(j, "translations"@, 1) {
        Some(Json::List(s)) => all_of(s, |j: Json| as_text(j)),
        _ => None,
    }
}

/// What an answer holds: its model and its translations.
pub open spec fn answer_of(doc: Option<Json>) -> Option<(Seq<char>, Seq<Seq<char>>)> {
    match doc {
        Some(j) => if describes(j, 2) {
            match (answer_model(j), answer_lines(j)) {
                (Some(model), Some(lines)) => Some((model, lines)),
                _ => None,
            }
        } else {
            None
        },
        None => None,
    }
}

/// Whether `r` is what an answer to `expected` lines gives.
pub open spec fn answered(doc: Option<Json>, expected: usize, r: Result<Output, OutputError>) -> bool {
    match answer_of(doc) {
        Some((model, lines)) => if lines.len() == expected {
            r is Ok && r->Ok_0.model@ == model && string_texts(r->Ok_0.translations@) == lines
        } else {
            r matches Err(OutputError::Count(n)) && n == lines.len()
        },
        None => r matches Err(OutputError::Invalid),
    }
}

/// Reads the translations of an answer.
fn read_lines(v: &serde_json::Value) -> (r: Option<Vec<String>>)
    ensures
        match answer_lines(json_of(*v)) {
            Some(lines) => r is Some && string_texts(r->0@) == lines,
            None => r is None,
        },
{
    let list = match find_part(v, "translations", 1) {
        Some(x) => match x.as_array() {
            Some(a) => a,
            None => {
                return None;
            },
        },
        None => {
            return None;
        },
    };
    let ghost doc = json_of(*v);
    let ghost s = part(doc, "translations"@, 1)->0->List_0;
    let ghost f = |j: Json| as_text(j);
    let mut out: Vec<String> = Vec::new();
    for i in 0..list.len()
        invariant
            doc == json_of(*v),
            part(doc, "translations"@, 1) == Some(Json::List(s)),
            f == (|j: Json| as_text(j)),
            list@.len() == s.len(),
            forall|k: int| 0 <= k < s.len() ==> json_of(#[trigger] list@[k]) == s[k],
            out@.len() == i,
            forall|k: int| 0 <= k < i ==> f(#[trigger] s[k]) == Some(out@[k]@),
    {
        match list[i].as_str() {
            Some(t) => {
                let ghost so_far = out@;
                out.push(t.to_string());
                assert(f(s[i as int]) == Some(out@[i as int]@));
                assert forall|k: int| 0 <= k < i + 1 implies f(#[trigger] s[k]) == Some(out@[k]@) by {
                    if k < i {
                        assert(out@[k] == so_far[k]);
                    }
                }
            },
            None => {
                assert(f(s[i as int]) is None);
                return None;
            },
        }
    }
    assert(string_texts(out@) =~= Seq::new(s.len(), |k: int| f(s[k])->0));
    Some(out)
}

/// Reads the value of an answer to `expected` lines.
pub fn read_answer(v: &serde_json::Value, expected: usize) -> (r: Result<Output, OutputError>)
    ensures
        answered(Some(json_of(*v)), expected, r),
{
    if !is_record(v, 2) {
        return Err(OutputError::Invalid);
    }
    let model = match find_part(v, "model", 0) {
        Some(x) => match x.as_str() {
            Some(t) => t.to_string(),
            None => {
                return Err(OutputError::Invalid);
            },
        },
        None => {
            let none = String::new();
            assert(none@ =~= Seq::<char>::empty());
            none
        },
    };
    match read_lines(v) {
        Some(translations) => {
            assert(string_texts(translations@).len() == translations@.len());
            if translations.len() == expected {
                Ok(Output { model, translations })
            } else {
                Err(OutputError::Count(translations.len()))
            }
        },
        None => Err(OutputError::Invalid),
    }
}

/// Reads the script's answer to `expected` lines.
pub fn read_output(text: &str, expected: usize) -> (r: Result<Output, OutputError>)
    ensures
        answered(json_document(text@), expected, r),
{
    match read_document(text) {
        Ok(v) => read_answer(&v, expected),
        Err(_) => Err(OutputError::Invalid),
    }
}

/// Law: an answer that is used has one translation for every line of the request.
pub proof fn law_one_line_each(doc: Option<Json>, lines: Seq<Seq<char>>, r: Result<Output, OutputError>)
    requires
        lines.len() <= usize::MAX,
        answered(doc, lines.len() as usize, r),
        r is Ok,
    ensures
        r->Ok_0.translations@.len() == lines.len(),
{
    assert(string_texts(r->Ok_0.translations@).len() == r->Ok_0.translations@.len());
}

} // verus!
