//! What is sent to mpv and what is understood of what it says.

use crate::finite::{finite_number, scaled_below, float_limit};
use crate::float::read_seconds;
use crate::json::{compact_text, unsigned, Json};
use crate::mpv::{arg_trees, change_of, command_tree, ctl_arg, followed, message, observing, reply_of, Arg, ChangeView, CtlArgView, ReplyView};
use crate::number::{all_digits, decimal, digit_run, digits_value, integer, is_digit, lemma_integer_signed, mantissa_parts, signed_decimal, without_sign};
use crate::number_laws::law_number;
use vstd::prelude::*;

verus! {

// ---- Words ---------------------------------------------------------------------------------

/// Law: a word that writes an integer is that integer; one that writes a fraction stays as it is
/// written, as a number, where it is not too large for one.
pub proof fn law_number_word(i: i64, w: Seq<char>, f: Seq<char>)
    requires
        all_digits(w),
        w.len() > 0,
        all_digits(f),
    ensures
        ctl_arg(signed_decimal(i as int)) == CtlArgView::Int(i),
        scaled_below(digits_value(w + f), -(f.len() as int), float_limit()) ==> ctl_arg(
            w + seq!['.'] + f,
        ) == CtlArgView::Float(w + seq!['.'] + f),
        !scaled_below(digits_value(w + f), -(f.len() as int), float_limit()) ==> ctl_arg(
            w + seq!['.'] + f,
        ) == CtlArgView::Text(w + seq!['.'] + f),
{
    lemma_integer_signed(i as int);
    let s = w + seq!['.'] + f;
    let e = seq!['0'];
    law_number(w, f, e);
    let n = w.len() as int;
    assert(is_digit(w[0]) && s[0] == w[0]);
    assert(s[n] == '.' && !is_digit(s[n]));
    assert(!all_digits(s));
}

/// A word without digits is no number.
proof fn lemma_no_digits(s: Seq<char>)
    requires
        forall|i: int| 0 <= i < s.len() ==> !is_digit(#[trigger] s[i]),
    ensures
        integer(s) is None,
        !finite_number(s),
{
    if s.len() > 0 {
        let t = s.drop_first();
        assert forall|i: int| 0 <= i < t.len() implies !is_digit(#[trigger] t[i]) by {
            assert(t[i] == s[i + 1]);
        }
        if t.len() > 0 {
            assert(!is_digit(t[0]));
        }
        assert(!is_digit(s[0]));
    }
    let body = without_sign(s);
    assert forall|i: int| 0 <= i < body.len() implies !is_digit(#[trigger] body[i]) by {
        if body.len() < s.len() {
            assert(body[i] == s[i + 1]);
        } else {
            assert(body[i] == s[i]);
        }
    }
    let (whole, fraction, rest) = mantissa_parts(body);
    assert(digit_run(body) == 0);
    assert(whole.len() == 0);
    let r = body.skip(0);
    assert(r =~= body);
    if r.len() > 0 && r[0] == '.' {
        let tail = r.drop_first();
        if tail.len() > 0 {
            assert(tail[0] == body[1]);
        }
        assert(digit_run(tail) == 0);
        assert(fraction.len() == 0);
    }
}

/// Law: a word without a digit stays a text.
pub proof fn law_text_word(s: Seq<char>)
    requires
        forall|i: int| 0 <= i < s.len() ==> !is_digit(#[trigger] s[i]),
    ensures
        ctl_arg(s) == CtlArgView::Text(s),
{
    lemma_no_digits(s);
}

// ---- Messages ------------------------------------------------------------------------------

/// Law: a message is one line: the JSON of a record that holds the arguments in their order under
/// `command` and, only where a reply is wanted, the number of the request.
pub proof fn law_message(args: Seq<Json>, request: Option<u64>)
    ensures
        message(args, request).last() == '\n',
        message(args, request).drop_last() == compact_text(command_tree(args, request)),
        command_tree(args, request) matches Json::Record(m) && {
            &&& m.dom().contains("command"@) && m["command"@] == Json::List(args)
            &&& m.dom().contains("request_id"@) <==> request is Some
            &&& request matches Some(id) ==> m["request_id"@] == Json::Number(decimal(id as nat))
            &&& m.dom().len() == if request is Some {
                2nat
            } else {
                1nat
            }
        },
{
    reveal_strlit("command");
    reveal_strlit("request_id");
    assert("command"@[0] != "request_id"@[0]);
    assert(message(args, request).drop_last() =~= compact_text(command_tree(args, request)));
    let m = command_tree(args, request)->Record_0;
    match request {
        Some(id) => {
            assert(m.dom() =~= set!["command"@, "request_id"@]);
        },
        None => {
            assert(m.dom() =~= set!["command"@]);
        },
    }
}

/// Law: arguments are sent in their order, each as what it is.
pub proof fn law_arguments(args: Seq<Arg>, i: int)
    requires
        0 <= i < args.len(),
    ensures
        arg_trees(args).len() == args.len(),
        args[i] matches Arg::Text(s) ==> arg_trees(args)[i] == Json::Text(s@),
        args[i] matches Arg::Int(n) ==> arg_trees(args)[i] == Json::Number(signed_decimal(n as int)),
        args[i] matches Arg::Bool(b) ==> arg_trees(args)[i] == Json::Bool(b),
{
}

/// Law: the bar follows the time, the pause and the volume, and asks for each by a number and its
/// name.
pub proof fn law_followed(id: int, property: Seq<char>)
    ensures
        followed().len() == 3,
        followed()[0] == "time-pos"@,
        followed()[1] == "pause"@,
        followed()[2] == "volume"@,
        observing(id, property).len() == 3,
        observing(id, property)[0] == Json::Text("observe_property"@),
        observing(id, property)[1] == Json::Number(signed_decimal(id)),
        observing(id, property)[2] == Json::Text(property),
{
}

// ---- Replies -------------------------------------------------------------------------------

/// Law: only a record with the request's number is a reply. It was carried out, with its data,
/// where its error is `success`, and without data where it names no error; any other error is what
/// it says.
pub proof fn law_reply(m: Map<Seq<char>, Json>)
    ensures
        ({
            let r = reply_of(Some(Json::Record(m)));
            let mine = m.dom().contains("request_id"@) && (m["request_id"@] matches Json::Number(t)
                && unsigned(t) == Some(1nat));
            &&& r is Other <==> !mine
            &&& mine && m.dom().contains("error"@) ==> (m["error"@] matches Json::Text(e) ==> {
                &&& e == "success"@ && m.dom().contains("data"@) ==> r == ReplyView::Done(
                    Some(m["data"@]),
                )
                &&& e == "success"@ && !m.dom().contains("data"@) ==> r == ReplyView::Done(None)
                &&& e != "success"@ ==> r == ReplyView::Failed(e)
            })
            &&& mine && !m.dom().contains("error"@) ==> r == ReplyView::Done(None)
        }),
        reply_of(None) is Other,
{
}

/// Law: only a property change is a report: of the playback time, in whole milliseconds where it
/// is a number; of the pause, where it is true; of the volume, as the number is written. Of other
/// properties there is none.
pub proof fn law_change(m: Map<Seq<char>, Json>)
    ensures
        ({
            let c = change_of(Some(Json::Record(m)));
            let told = m.dom().contains("event"@) && m["event"@] == Json::Text("property-change"@);
            let of = |name: Seq<char>| told && m.dom().contains("name"@) && m["name"@] == Json::Text(name);
            let has = m.dom().contains("data"@);
            &&& c is Some <==> of("time-pos"@) || of("pause"@) || of("volume"@)
            &&& of("time-pos"@) && has ==> (m["data"@] matches Json::Number(t) ==> c == Some(
                ChangeView::Time(read_seconds(t, false)),
            ))
            &&& of("time-pos"@) && !(has && m["data"@] is Number) ==> c == Some(ChangeView::Time(None))
            &&& of("pause"@) ==> c == Some(
                ChangeView::Pause(has && m["data"@] == Json::Bool(true)),
            )
            &&& of("volume"@) && has ==> (m["data"@] matches Json::Number(t) ==> c == Some(
                ChangeView::Volume(Some(t)),
            ))
            &&& of("volume"@) && !(has && m["data"@] is Number) ==> c == Some(ChangeView::Volume(None))
        }),
        change_of(None) is None,
{
    reveal_strlit("time-pos");
    reveal_strlit("pause");
    reveal_strlit("volume");
    assert("time-pos"@.len() != "pause"@.len() && "time-pos"@.len() != "volume"@.len()
        && "pause"@.len() != "volume"@.len());
}

} // verus!
