use diolingo::mpv::{
    arg_value, command, command_line, command_message, observe_all, parse_ctl_args, pause_message, toggle_message,
    volume_message, Arg, REQUEST_ID,
};
use diolingo::mpv::{property_change, read_change, read_reply, Change, CtlArg, Reply};

#[test]
fn ctl_args_numbers() {
    let v = parse_ctl_args(&["sub-seek".into(), "-1".into(), "0.5".into()]);
    assert_eq!(v, vec![CtlArg::Text("sub-seek".into()), CtlArg::Int(-1), CtlArg::Float("0.5".into())]);
}

#[test]
fn ctl_args_follow_the_number_parsers() {
    let words = [
        "0", "+7", "-0", "9223372036854775807", "9223372036854775808", "-9223372036854775808", "1e3", "1.", ".5", "-.5e-2",
        "inf", "-Infinity", "NaN", "nan1", "", "+", "-", ".", "e5", "1e", "1e+", "0x10", "1_000", " 1", "1 ", "--1", "infinit",
        "INF", "+nan", "5.5.5", "1e5.0", "1e308", "1.7976931348623157e308", "-1.7976931348623158e308",
        "1.7976931348623159e308", "1.79769313486231580793e308", "1.79769313486231580794e308", "1e309", "-1e999",
        "1e99999999999999999999999999999999999999999", "0e99999999999999999999999999999999999999999",
        "1e-99999999999999999999999999999999999999999", "0000.0000001e315", "0000.0000001e316",
    ];
    let mut words: Vec<String> = words.iter().map(|w| w.to_string()).collect();
    // Halfway between the largest finite number and the next one, and its neighbours.
    let half = "179769313486231580793728971405303415079934132710037826936173778980444968292764750946649017977587207096330286416692887910946555547851940402630657488671505820681908902000708383676273854845817711531764475730270069855571366959622842914819860834936475292719074168444365510704342711559699508093042880177904174497792";
    let below = format!("{}1", &half[..half.len() - 1]);
    for w in [half, &below, &format!("{half}.0"), &format!("{below}.99999"), &format!("00{half}0e-1"), &format!("{below}9e-1")] {
        words.push(w.to_string());
        words.push(format!("-{w}"));
    }
    let long = format!("0.{}1e{}", "0".repeat(400), 700);
    words.push(long);
    words.push(format!("0.{}1e{}", "0".repeat(400), 710));
    words.push(format!("{}e-{}", "9".repeat(700), 392));
    words.push(format!("{}e-{}", "9".repeat(700), 391));
    for w in &words {
        let got = parse_ctl_args(&[w.to_string()]).remove(0);
        let want = if let Ok(i) = w.parse::<i64>() {
            CtlArg::Int(i)
        } else if w.parse::<f64>().is_ok_and(f64::is_finite) {
            CtlArg::Float(w.to_string())
        } else {
            CtlArg::Text(w.to_string())
        };
        assert_eq!(got, want, "{w:?}");
    }
}

#[test]
fn replies() {
    assert!(matches!(command("not json"), Reply::Other));
    assert!(matches!(command("[1]"), Reply::Other));
    assert!(matches!(command(r#"{"event":"idle"}"#), Reply::Other));
    assert!(matches!(command(r#"{"request_id":2,"error":"success"}"#), Reply::Other));
    assert!(matches!(command(r#"{"request_id":1.0,"error":"success"}"#), Reply::Other));
    assert!(matches!(command(r#"{"request_id":1,"error":"success"}"#), Reply::Done(None)));
    assert!(matches!(command(r#"{"request_id":1,"data":3}"#), Reply::Done(None)));
    assert!(matches!(command(r#"{"request_id":1,"error":7,"data":3}"#), Reply::Done(None)));
    match command(r#"{"request_id":1,"error":"success","data":{"a":[1,null]}}"#) {
        Reply::Done(Some(v)) => assert_eq!(v, serde_json::from_str::<serde_json::Value>(r#"{"a":[1,null]}"#).unwrap()),
        other => panic!("{other:?}"),
    }
    match command(r#"{"request_id":1,"error":"property unavailable"}"#) {
        Reply::Failed(e) => assert_eq!(e, "property unavailable"),
        other => panic!("{other:?}"),
    }
    let v: serde_json::Value = serde_json::from_str(r#"{"request_id":1,"error":"x"}"#).unwrap();
    assert!(matches!(read_reply(&v), Reply::Failed(e) if e == "x"));
}

#[test]
fn changes() {
    let c = |s: &str| property_change(s);
    assert_eq!(
        c(r#"{"event":"property-change","name":"time-pos","data":1.25}"#),
        Some(Change::Time(Some(1250)))
    );
    for (text, ms) in [("8.034", 8034u64), ("0.0289999", 28), ("-0.5", 0), ("7", 7000), ("4.35", 4350), ("1e30", u64::MAX)] {
        let line = format!(r#"{{"event":"property-change","name":"time-pos","data":{text}}}"#);
        let want = (text.parse::<f64>().unwrap().max(0.0) * 1000.0) as u64;
        assert_eq!(c(&line), Some(Change::Time(Some(want))), "{text}");
        assert!(want.abs_diff(ms) <= 1, "{text}");
    }
    assert_eq!(c(r#"{"event":"property-change","name":"time-pos"}"#), Some(Change::Time(None)));
    assert_eq!(c(r#"{"event":"property-change","name":"time-pos","data":null}"#), Some(Change::Time(None)));
    assert_eq!(c(r#"{"event":"property-change","name":"pause","data":true}"#), Some(Change::Pause(true)));
    assert_eq!(c(r#"{"event":"property-change","name":"pause","data":"yes"}"#), Some(Change::Pause(false)));
    assert_eq!(c(r#"{"event":"property-change","name":"pause"}"#), Some(Change::Pause(false)));
    assert_eq!(
        c(r#"{"event":"property-change","name":"volume","data":100}"#),
        Some(Change::Volume(Some("100".into())))
    );
    assert_eq!(c(r#"{"event":"property-change","name":"speed","data":1}"#), None);
    assert_eq!(c(r#"{"event":"seek","name":"pause","data":true}"#), None);
    assert_eq!(c(r#"{"name":"pause","data":true}"#), None);
    assert_eq!(c("{"), None);
    let v: serde_json::Value = serde_json::from_str(r#"{"event":"property-change","name":"pause","data":true}"#).unwrap();
    assert_eq!(read_change(&v), Some(Change::Pause(true)));
}

#[test]
fn messages() {
    assert_eq!(
        observe_all(),
        vec![
            "{\"command\":[\"observe_property\",1,\"time-pos\"]}\n",
            "{\"command\":[\"observe_property\",2,\"pause\"]}\n",
            "{\"command\":[\"observe_property\",3,\"volume\"]}\n",
        ]
    );
    assert_eq!(pause_message(true), "{\"command\":[\"set_property\",\"pause\",true]}\n");
    assert_eq!(pause_message(false), "{\"command\":[\"set_property\",\"pause\",false]}\n");
    assert_eq!(volume_message(-5), "{\"command\":[\"add\",\"volume\",-5]}\n");
    assert_eq!(toggle_message(), "{\"command\":[\"cycle\",\"pause\"]}\n");
    let args = [Arg::Text("a\"\n中".into()), Arg::Int(i64::MIN), Arg::Int(i64::MAX), Arg::Bool(true)];
    assert_eq!(
        command_line(&args, Some(u64::MAX)),
        "{\"command\":[\"a\\\"\\n中\",-9223372036854775808,9223372036854775807,true],\"request_id\":18446744073709551615}\n"
    );
    assert_eq!(command_line(&[], None), "{\"command\":[]}\n");
    let values = vec![arg_value(&Arg::Text("seek".into())), serde_json::Value::from(0.5)];
    assert_eq!(command_message(values, Some(REQUEST_ID)), "{\"command\":[\"seek\",0.5],\"request_id\":1}\n");
}
