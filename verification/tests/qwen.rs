use diolingo::command::Word;
use diolingo::qwen::{
    answer_file, read_answer, read_output, request_file, request_text, write_if_changed, OutputError, Qwen,
};
use diolingo::translate::{Action, Event, Request, Stage};
use std::collections::hash_map::DefaultHasher;
use std::hash::{Hash, Hasher};

fn qwen() -> Qwen {
    Qwen { script: "/s/t.py".into(), python: None, model: None, batch_lines: 16, extra_args: vec![] }
}

#[test]
fn descriptions() {
    let mut q = qwen();
    assert_eq!(q.describe(), "qwen script default via uv run (/s/t.py)");
    q.python = Some("/usr/bin/python3".into());
    q.model = Some("Qwen/Qwen3-4B".into());
    assert_eq!(q.describe(), "qwen Qwen/Qwen3-4B via /usr/bin/python3 (/s/t.py)");
}

#[test]
fn rewriting() {
    assert!(write_if_changed(None, "a"));
    assert!(write_if_changed(Some("b"), "a"));
    assert!(!write_if_changed(Some("a"), "a"));
}

#[test]
fn requests() {
    let text = request_text("T \"x\"", "zh", &["a".to_string(), "b\n".to_string()]);
    assert_eq!(
        text,
        "{\n  \"lines\": [\n    \"a\",\n    \"b\\n\"\n  ],\n  \"target\": \"zh\",\n  \"title\": \"T \\\"x\\\"\"\n}"
    );
    assert_eq!(request_text("", "", &[]), "{\n  \"lines\": [],\n  \"target\": \"\",\n  \"title\": \"\"\n}");
}

#[test]
fn names_in_the_cache() {
    assert_eq!(request_file("id", 0xabc), "id.qwen.0000000000000abc.in.json");
    assert_eq!(answer_file("id", u64::MAX), "id.qwen.ffffffffffffffff.out.json");
    for key in [0u64, 1, 9, 10, 255, 0x0123_4567_89ab_cdef] {
        assert_eq!(answer_file("x", key), format!("x.qwen.{key:016x}.out.json"));
    }
}

/// The hash of the same values, one after the other.
fn hashed(q: &Qwen, script: &[u8], request: &str) -> u64 {
    let mut h = DefaultHasher::new();
    q.model.hash(&mut h);
    q.extra_args.hash(&mut h);
    (q.batch_lines as u64).hash(&mut h);
    script.to_vec().hash(&mut h);
    request.to_string().hash(&mut h);
    h.finish()
}

#[test]
fn keys() {
    let scripts: [&[u8]; 3] = [b"", b"print(1)", &[0, 255, 254, 10]];
    let mut seen: Vec<u64> = Vec::new();
    for model in [None, Some(""), Some("Qwen/Qwen3-4B")] {
        for args in [vec![], vec![""], vec!["--quant", "4bit"], vec!["--quant4bit"]] {
            for batch_lines in [0, 16, 300] {
                for script in scripts {
                    for request in ["", "{}", "中文"] {
                        let mut q = qwen();
                        q.model = model.map(String::from);
                        q.extra_args = args.iter().map(|a| a.to_string()).collect();
                        q.batch_lines = batch_lines;
                        let key = q.key(script, request);
                        assert_eq!(key, hashed(&q, script, request));
                        q.script = "/elsewhere/t.py".into();
                        q.python = Some("/usr/bin/python3".into());
                        assert_eq!(key, q.key(script, request));
                        seen.push(key);
                    }
                }
            }
        }
    }
    let all = seen.len();
    seen.sort();
    seen.dedup();
    assert_eq!(seen.len(), all);
}

fn words(w: &[Word]) -> Vec<String> {
    w.iter()
        .map(|x| match x {
            Word::Text(s) => s.clone(),
            Word::Path(i) => format!("<{i}>"),
        })
        .collect()
}

#[test]
fn script_commands() {
    let mut q = qwen();
    assert_eq!(
        words(&q.command()),
        vec!["uv", "run", "--script", "<1>", "--input", "<2>", "--output", "<3>", "--batch-lines", "16"]
    );
    q.python = Some("py".into());
    q.model = Some("m".into());
    q.extra_args = vec!["--quant".into(), "4bit".into()];
    assert_eq!(
        words(&q.command()),
        vec![
            "<0>", "<1>", "--input", "<2>", "--output", "<3>", "--batch-lines", "16", "--model", "m", "--quant", "4bit",
        ]
    );
}

#[test]
fn answers() {
    let o = read_output(r#"{"model":"m","translations":["甲","乙"],"x":1}"#, 2).unwrap();
    assert_eq!((o.model.as_str(), o.translations), ("m", vec!["甲".to_string(), "乙".to_string()]));
    assert_eq!(read_output(r#"{"translations":[]}"#, 0).unwrap().model, "");
    assert_eq!(read_output(r#"{"translations":["a"]}"#, 2).unwrap_err(), OutputError::Count(1));
    let o = read_output(r#"["m",["甲"]]"#, 1).unwrap();
    assert_eq!((o.model.as_str(), o.translations), ("m", vec!["甲".to_string()]));
    for bad in ["", "[]", "{}", r#"["m"]"#, r#"["m",[],1]"#, r#"[[],"m"]"#, r#"{"translations":"a"}"#, r#"{"translations":[1]}"#, r#"{"translations":[],"model":null}"#] {
        assert_eq!(read_output(bad, 0).unwrap_err(), OutputError::Invalid, "{bad}");
    }
    let v: serde_json::Value = serde_json::from_str(r#"{"translations":["a"]}"#).unwrap();
    assert_eq!(read_answer(&v, 1).unwrap().translations, vec!["a".to_string()]);
}

fn request() -> Request {
    Request { id: "id".into(), title: "T".into(), target: "zh".into(), lines: vec!["a".into(), "b".into()] }
}

#[test]
fn translations_start_with_the_cache() {
    let (q, r) = (qwen(), request());
    let (stage, action) = q.translate(&r, Stage::Start, Event::Script(b"print(1)".to_vec()));
    assert_eq!(stage, Stage::Looking);
    let text = request_text("T", "zh", &r.lines);
    let key = hashed(&q, b"print(1)", &text);
    match action {
        Action::Look { request, request_file, answer_file } => {
            assert_eq!(request, text);
            assert_eq!(request_file, format!("id.qwen.{key:016x}.in.json"));
            assert_eq!(answer_file, format!("id.qwen.{key:016x}.out.json"));
        }
        other => panic!("{other:?}"),
    }
}

#[test]
fn translations_reuse_answers() {
    let (q, r) = (qwen(), request());
    let (stage, action) = q.translate(&r, Stage::Looking, Event::Looked { exists: true });
    assert_eq!(stage, Stage::Reading);
    assert!(matches!(action, Action::Read { reused: true }));
    let answer = r#"{"model":"m","translations":["甲","乙"]}"#;
    let (stage, action) = q.translate(&r, Stage::Reading, Event::Answer(answer.into()));
    assert_eq!(stage, Stage::Over);
    match action {
        Action::Done(o) => assert_eq!((o.model.as_str(), o.translations), ("m", vec!["甲".to_string(), "乙".to_string()])),
        other => panic!("{other:?}"),
    }
}

#[test]
fn translations_run_the_script() {
    let (q, r) = (qwen(), request());
    let (stage, action) = q.translate(&r, Stage::Looking, Event::Looked { exists: false });
    assert_eq!(stage, Stage::Running);
    match action {
        Action::Run(w) => assert_eq!(words(&w), words(&q.command())),
        other => panic!("{other:?}"),
    }
    let (stage, action) = q.translate(&r, Stage::Running, Event::Ended { success: true });
    assert_eq!(stage, Stage::Reading);
    assert!(matches!(action, Action::Read { reused: false }));
    let (stage, action) = q.translate(&r, Stage::Running, Event::Ended { success: false });
    assert_eq!(stage, Stage::Over);
    assert!(matches!(action, Action::Fail));
    let short = r#"{"translations":["甲"]}"#;
    let (_, action) = q.translate(&r, Stage::Reading, Event::Answer(short.into()));
    assert!(matches!(action, Action::Unusable(OutputError::Count(1))));
    let (_, action) = q.translate(&r, Stage::Reading, Event::Answer("{".into()));
    assert!(matches!(action, Action::Unusable(OutputError::Invalid)));
}
