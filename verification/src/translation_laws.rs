//! What the translation script is asked, where its answers are kept, and what is taken from them.

use crate::command::WordView;
use crate::json::{json_document, pretty_text, Json};
use crate::key::key_writes;
use crate::number::decimal;
use crate::qwen::{answer_of, hex, pow16, request_tree, script_line, translator_text, OutputError, Qwen, ANSWER, PYTHON, REQUEST, SCRIPT, SCRIPT_NAME};
use crate::text::string_texts;
use crate::translate::{advance, key_of, ActionView, EventView, Request, Stage};
use vstd::bytes::spec_u64_to_le_bytes;
use vstd::prelude::*;
use vstd::utf8::encode_utf8;

verus! {

// ---- The request ---------------------------------------------------------------------------

/// The names of the request's members differ.
proof fn lemma_names()
    ensures
        "title"@ != "target"@,
        "title"@ != "lines"@,
        "target"@ != "lines"@,
{
    reveal_strlit("title");
    reveal_strlit("target");
    reveal_strlit("lines");
    assert("title"@.len() != "target"@.len() && "lines"@.len() != "target"@.len());
    assert("title"@[0] != "lines"@[0]);
}

/// Law: the script is asked for all lines, in their order and as they are, with the title and the
/// target language, and for nothing else.
pub proof fn law_request(title: Seq<char>, target: Seq<char>, lines: Seq<Seq<char>>)
    ensures
        request_tree(title, target, lines) matches Json::Record(m) && {
            &&& m.dom() =~= set!["title"@, "target"@, "lines"@]
            &&& m["title"@] == Json::Text(title)
            &&& m["target"@] == Json::Text(target)
            &&& m["lines"@] matches Json::List(l) && l.len() == lines.len() && forall|i: int|
                0 <= i < lines.len() ==> #[trigger] l[i] == Json::Text(lines[i])
        },
{
    lemma_names();
}

/// Law: a translation first looks for an answer to its request, under a name that the key of the
/// request is part of; the request's own name has the same key.
pub proof fn law_looks(q: Qwen, r: Request, script: Seq<u8>)
    ensures
        advance(q, r, Stage::Start, EventView::Script(script)).0 is Looking,
        advance(q, r, Stage::Start, EventView::Script(script)).1 matches ActionView::Look {
            request,
            request_file,
            answer_file,
        } && {
            let key = key_of(q, script, r);
            &&& request == pretty_text(
                request_tree(r.title@, r.target@, string_texts(r.lines@)),
            )
            &&& request_file == r.id@ + ".qwen."@ + hex(key as nat, 16) + ".in.json"@
            &&& answer_file == r.id@ + ".qwen."@ + hex(key as nat, 16) + ".out.json"@
        },
{
}

/// The value of a hexadecimal digit.
pub open spec fn hex_digit_value(c: char) -> nat {
    if '0' <= c && c <= '9' {
        (c as u32 - '0' as u32) as nat
    } else {
        (c as u32 - 'a' as u32 + 10) as nat
    }
}

/// The value of hexadecimal digits.
pub open spec fn hex_value(s: Seq<char>) -> nat
    decreases s.len(),
{
    if s.len() == 0 {
        0
    } else {
        hex_value(s.drop_last()) * 16 + hex_digit_value(s.last())
    }
}

/// What hexadecimal digits of a number mean.
proof fn lemma_hex(n: nat, k: nat)
    requires
        n < pow16(k),
    ensures
        hex(n, k).len() == k,
        hex_value(hex(n, k)) == n,
        forall|i: int|
            0 <= i < k ==> {
                let c = #[trigger] hex(n, k)[i];
                ('0' <= c && c <= '9') || ('a' <= c && c <= 'f')
            },
    decreases k,
{
    if k > 0 {
        let m = (k - 1) as nat;
        assert(n / 16 < pow16(m)) by {
            assert(pow16(k) == 16 * pow16(m));
        }
        lemma_hex(n / 16, m);
        let s = hex(n, k);
        assert(s.drop_last() =~= hex(n / 16, m));
        assert(n % 16 < 16);
        assert(hex_digit_value(s.last()) == n % 16);
        assert forall|i: int| 0 <= i < k implies {
            let c = #[trigger] s[i];
            ('0' <= c && c <= '9') || ('a' <= c && c <= 'f')
        } by {
            if i < k - 1 {
                assert(s[i] == hex(n / 16, m)[i]);
            }
        }
    }
}

/// Law: a key is written with sixteen hexadecimal digits in small letters that mean it.
pub proof fn law_hex_key(key: u64)
    ensures
        hex(key as nat, 16).len() == 16,
        hex_value(hex(key as nat, 16)) == key,
        forall|i: int|
            0 <= i < 16 ==> {
                let c = #[trigger] hex(key as nat, 16)[i];
                ('0' <= c && c <= '9') || ('a' <= c && c <= 'f')
            },
{
    reveal_with_fuel(pow16, 17);
    lemma_hex(key as nat, 16);
}

/// Law: what is hashed for a key is the model, then the extra arguments with their number in front,
/// then the batch size, then the script's bytes with their number in front, then the request.
pub proof fn law_key_order(q: Qwen, script: Seq<u8>, request: Seq<char>)
    ensures
        ({
            let w = key_writes(q, script, request);
            let n = w.len() as int;
            let k = if q.model is Some {
                3int
            } else {
                1int
            };
            let args = string_texts(q.extra_args@);
            &&& n == k + 2 * args.len() + 6
            &&& q.model is None ==> w[0] == spec_u64_to_le_bytes(0)
            &&& q.model matches Some(m) ==> w[0] == spec_u64_to_le_bytes(1) && w[1] == encode_utf8(m@) && w[2]
                == seq![0xffu8]
            &&& w[k] == spec_u64_to_le_bytes(args.len() as u64)
            &&& forall|i: int|
                0 <= i < args.len() ==> w[k + 1 + 2 * i] == encode_utf8(#[trigger] args[i]) && w[k + 2 + 2
                    * i] == seq![0xffu8]
            &&& w[n - 5] == spec_u64_to_le_bytes(q.batch_lines as u64)
            &&& w[n - 4] == spec_u64_to_le_bytes(script.len() as u64)
            &&& w[n - 3] == script
            &&& w[n - 2] == encode_utf8(request)
            &&& w[n - 1] == seq![0xffu8]
        }),
{
    let args = string_texts(q.extra_args@);
    lemma_each(args);
    let e = crate::key::each_writes(args);
    let w = key_writes(q, script, request);
    let k = if q.model is Some {
        3int
    } else {
        1int
    };
    assert(e =~= w.subrange(k + 1, k + 1 + 2 * args.len()));
    assert forall|i: int| 0 <= i < args.len() implies w[k + 1 + 2 * i] == encode_utf8(#[trigger] args[i])
        && w[k + 2 + 2 * i] == seq![0xffu8] by {
        assert(w[k + 1 + 2 * i] == e[2 * i]);
        assert(w[k + 2 + 2 * i] == e[2 * i + 1]);
    }
}

/// What is hashed of texts one after the other.
proof fn lemma_each(s: Seq<Seq<char>>)
    ensures
        ({
            let e = crate::key::each_writes(s);
            &&& e.len() == 2 * s.len()
            &&& forall|i: int|
                0 <= i < s.len() ==> e[2 * i] == encode_utf8(#[trigger] s[i]) && e[2 * i + 1] == seq![
                    0xffu8,
                ]
        }),
    decreases s.len(),
{
    if s.len() > 0 {
        let front = s.drop_last();
        lemma_each(front);
        let e = crate::key::each_writes(s);
        let f = crate::key::each_writes(front);
        assert forall|i: int| 0 <= i < s.len() implies e[2 * i] == encode_utf8(#[trigger] s[i]) && e[2 * i
            + 1] == seq![0xffu8] by {
            if i < front.len() {
                assert(front[i] == s[i]);
                assert(e[2 * i] == f[2 * i] && e[2 * i + 1] == f[2 * i + 1]);
            }
        }
    }
}

// ---- Running -------------------------------------------------------------------------------

/// Law: the paths of a command line are numbered apart, and the script has its name.
pub proof fn law_script_paths()
    ensures
        SCRIPT_NAME@ == "translate_qwen.py"@,
        PYTHON == 0,
        SCRIPT == 1,
        REQUEST == 2,
        ANSWER == 3,
{
}

/// Law: the script is run by the interpreter that was given, or else by `uv`; it is told where the
/// request and the answer are and how many lines to take at once, then the model where one is
/// asked for, and then the extra arguments, word by word.
pub proof fn law_script_line(q: Qwen)
    ensures
        ({
            let w = script_line(q);
            let n = if q.python is Some {
                2int
            } else {
                4int
            };
            let m = if q.model is Some {
                n + 8
            } else {
                n + 6
            };
            let args = string_texts(q.extra_args@);
            &&& w.len() == m + args.len()
            &&& q.python is Some ==> w[0] == WordView::Path(PYTHON)
            &&& q.python is None ==> w[0] == WordView::Text("uv"@) && w[1] == WordView::Text("run"@) && w[2]
                == WordView::Text("--script"@)
            &&& w[n - 1] == WordView::Path(SCRIPT)
            &&& w[n] == WordView::Text("--input"@) && w[n + 1] == WordView::Path(REQUEST)
            &&& w[n + 2] == WordView::Text("--output"@) && w[n + 3] == WordView::Path(ANSWER)
            &&& w[n + 4] == WordView::Text("--batch-lines"@) && w[n + 5] == WordView::Text(
                decimal(q.batch_lines as nat),
            )
            &&& q.model matches Some(x) ==> w[n + 6] == WordView::Text("--model"@) && w[n + 7]
                == WordView::Text(x@)
            &&& forall|i: int| 0 <= i < args.len() ==> w[m + i] == WordView::Text(#[trigger] args[i])
        }),
{
}

/// Law: a translator is told by its model, what runs it, and the script.
pub proof fn law_translator_text(q: Qwen)
    ensures
        translator_text(q) == "qwen "@ + (match q.model {
            Some(m) => m@,
            None => "script default"@,
        }) + " via "@ + (match q.python {
            Some(p) => p@,
            None => "uv run"@,
        }) + " ("@ + q.script@ + ")"@,
{
}

/// Law: an answer that is there is read; otherwise the script is run, and its answer is read where
/// it succeeds.
pub proof fn law_steps(q: Qwen, r: Request, b: bool)
    ensures
        advance(q, r, Stage::Looking, EventView::Looked { exists: b }) == if b {
            (Stage::Reading, ActionView::Read { reused: true })
        } else {
            (Stage::Running, ActionView::Run(script_line(q)))
        },
        advance(q, r, Stage::Running, EventView::Ended { success: b }) == if b {
            (Stage::Reading, ActionView::Read { reused: false })
        } else {
            (Stage::Over, ActionView::Fail)
        },
{
}

// ---- The answer ----------------------------------------------------------------------------

/// Whether a tree is a list of texts.
pub open spec fn texts_only(j: Json) -> bool {
    j matches Json::List(s) && forall|i: int| 0 <= i < s.len() ==> #[trigger] s[i] is Text
}

/// Law: an answer is used as it is where it holds a list of texts, one for every line of the
/// request, in order; the model is what it names, or nothing. With another number of texts it is
/// refused with that number, and what is no such answer is refused.
pub proof fn law_answer(q: Qwen, r: Request, text: Seq<char>, m: Map<Seq<char>, Json>)
    requires
        json_document(text) == Some(Json::Record(m)),
    ensures
        ({
            let (next, action) = advance(q, r, Stage::Reading, EventView::Answer(text));
            let named = !m.dom().contains("model"@) || m["model"@] is Text;
            let listed = m.dom().contains("translations"@) && texts_only(m["translations"@]);
            &&& next is Over
            &&& !(named && listed) ==> action == ActionView::Unusable(OutputError::Invalid)
            &&& named && listed ==> {
                let s = m["translations"@]->List_0;
                &&& s.len() != r.lines@.len() ==> action == ActionView::Unusable(
                    OutputError::Count(s.len() as usize),
                )
                &&& s.len() == r.lines@.len() ==> (action matches ActionView::Done { model, translations }
                    && translations.len() == s.len() && (forall|i: int|
                    0 <= i < s.len() ==> #[trigger] s[i] == Json::Text(translations[i])) && (if m.dom().contains(
                    "model"@,
                ) {
                    m["model"@] == Json::Text(model)
                } else {
                    model.len() == 0
                }))
            }
        }),
{
    let f = |j: Json| crate::qwen::as_text(j);
    if m.dom().contains("translations"@) {
        if let Json::List(s) = m["translations"@] {
            if texts_only(m["translations"@]) {
                assert forall|i: int| 0 <= i < s.len() implies f(#[trigger] s[i]) is Some by {
                    assert(s[i] is Text);
                }
            } else {
                let i = choose|i: int| 0 <= i < s.len() && !(#[trigger] s[i] is Text);
                assert(f(s[i]) is None);
            }
        }
    }
}

/// Law: what is no JSON is no answer.
pub proof fn law_no_answer(q: Qwen, r: Request, text: Seq<char>)
    requires
        json_document(text) is None,
    ensures
        advance(q, r, Stage::Reading, EventView::Answer(text)) == (
            Stage::Over,
            ActionView::Unusable(OutputError::Invalid),
        ),
{
}

/// Law: an answer may be a list of two values, the model and the translations, in this order.
pub proof fn law_answer_list(model: Json, translations: Json)
    ensures
        answer_of(Some(Json::List(seq![model, translations]))) == answer_of(
            Some(Json::Record(map!["model"@ => model, "translations"@ => translations])),
        ),
        answer_of(Some(Json::List(seq![model]))) is None,
{
    reveal_strlit("model");
    reveal_strlit("translations");
    assert("model"@.len() != "translations"@.len());
    let s = seq![model, translations];
    assert(s[0] == model && s[1] == translations);
}

} // verus!
