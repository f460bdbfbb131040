use llm::json::{parse, Json};

/// The text a document prints as once each number is read as a double and
/// printed back, as a double prints.
fn shown(doc: &Json) -> String {
    fn normal(doc: &Json) -> Json {
        match doc {
            Json::Null => Json::Null,
            Json::Bool(b) => Json::Bool(*b),
            Json::Number(n) => Json::Number(format!("{}", n.parse::<f64>().unwrap())),
            Json::String(s) => Json::String(s.clone()),
            Json::Array(items) => Json::Array(items.iter().map(normal).collect()),
            Json::Object(members) => Json::Object(
                members
                    .iter()
                    .map(|(k, v)| (k.clone(), normal(v)))
                    .collect(),
            ),
        }
    }
    normal(doc).to_string()
}

fn number(x: f64) -> Json {
    Json::Number(format!("{x}"))
}

#[test]
fn display_prints_compact_json() {
    let doc = Json::Object(vec![
        ("model_type".to_string(), Json::String("qwen3".to_string())),
        ("hidden_size".to_string(), number(2560.0)),
        ("tie_word_embeddings".to_string(), Json::Bool(true)),
        ("rope_scaling".to_string(), Json::Null),
        (
            "sizes".to_string(),
            Json::Array(vec![number(0.6), number(1.7), number(4.0)]),
        ),
    ]);
    assert_eq!(
        doc.to_string(),
        r#"{"model_type":"qwen3","hidden_size":2560,"tie_word_embeddings":true,"rope_scaling":null,"sizes":[0.6,1.7,4]}"#
    );
}

#[test]
fn parse_accepts_literals() {
    assert_eq!(shown(&parse("null").unwrap()), "null");
    assert_eq!(shown(&parse("  true ").unwrap()), "true");
    assert_eq!(shown(&parse("false").unwrap()), "false");
}

#[test]
fn parse_rejects_malformed_input() {
    assert!(parse("nul").is_err());
    assert!(parse("").is_err());
    assert!(parse("true false").is_err());
}

#[test]
fn parse_reports_error_position_and_msg() {
    let Err(e) = parse("truefalse") else {
        panic!("expected error")
    };
    assert_eq!(e.pos, 4);
    assert_eq!(e.msg, "end of input")
}

#[test]
fn parse_errors_lie_within_the_text() {
    for text in ["", "[", "{\"a\"", "\"abc", "[1,", "-", "1.", "tru", "{\"a\":1,}", "  "] {
        let Err(e) = parse(text) else {
            panic!("{text} should be rejected")
        };
        assert!(e.pos <= text.len(), "{text}: {}", e.pos);
    }
}

#[test]
fn parse_allows_only_whitespace_after_the_value() {
    assert!(parse(" \t[1, 2] \n\r ").is_ok());
    let Err(e) = parse("[1] x") else {
        panic!("expected error")
    };
    assert_eq!(e.pos, 4);
    assert_eq!(e.msg, "end of input");
}

#[test]
fn parse_accepts_numbers() {
    for (input, expected) in [
        ("0", "0"),
        ("-0", "-0"),
        ("2560", "2560"),
        ("0.6", "0.6"),
        ("1e-06", "0.000001"),
        ("5000000.0", "5000000"),
        ("-12.5e3", "-12500"),
    ] {
        assert_eq!(shown(&parse(input).unwrap()), expected);
    }
}

#[test]
fn parse_rejects_malformed_numbers() {
    for s in ["01", ".5", "-", "1.", "1e", "+1", "1e+", "0x10", "1e309"] {
        assert!(parse(s).is_err(), "{s}");
    }
}

#[test]
fn parse_accepts_strings() {
    for (input, expected) in [
        (r#""hello""#, "hello"),
        (r#""""#, ""),
        (r#""a\"b\\c\/d""#, "a\"b\\c/d"),
        (r#""tab\there""#, "tab\there"),
        (r#""\u0041""#, "A"),
        (r#""caf\u00e9""#, "café"),
        (r#""\ud83d\ude00""#, "😀"),
        (r#""直接""#, "直接"),
    ] {
        let Json::String(s) = parse(input).unwrap() else {
            panic!("{input}")
        };
        assert_eq!(s, expected);
    }
}

#[test]
fn parse_rejects_malformed_strings() {
    for s in [
        r#"""#,
        r#""\x""#,
        r#""\u12""#,
        r#""\ud800""#,
        r#""\ud8000\u0041""#,
        "\"\n\"",
    ] {
        assert!(parse(s).is_err(), "{s}");
    }
}

#[test]
fn parse_accepts_containers() {
    for (input, expected) in [
        ("[]", "[]"),
        ("{}", "{}"),
        ("[ 1 , true , \"x\" ]", r#"[1,true,"x"]"#),
        (
            r#"{ "a" : [1, {"b": null}] , "c" : -2.5e3 }"#,
            r#"{"a":[1,{"b":null}],"c":-2500}"#,
        ),
    ] {
        assert_eq!(shown(&parse(input).unwrap()), expected, "{input}");
    }
}

#[test]
fn parse_rejects_malformed_containers() {
    for s in [
        "[",
        "]",
        "[1,]",
        "[1 2]",
        "[[]",
        "{",
        r#"{"a"}"#,
        r#"{"a":}"#,
        r#"{"a":1,}"#,
        r#"{a:1}"#,
    ] {
        assert!(parse(s).is_err(), "{s}");
    }
}

#[test]
fn parse_keeps_the_text_of_numbers() {
    let doc = parse("[1e-06, -12.5e3, 0.60]").unwrap();
    assert_eq!(doc.to_string(), "[1e-06,-12.5e3,0.60]");
}

#[test]
fn parse_reports_each_kind_of_error() {
    for (input, pos, msg) in [
        ("", 0, "a JSON value"),
        ("[1 2]", 3, "',' or ']'"),
        ("{\"a\" 1}", 5, ":"),
        ("\"abc", 4, "a closing quote"),
        ("\"\\x\"", 2, "an escape character"),
        ("1e309", 0, "a representable number"),
        ("01", 1, "end of input"),
    ] {
        let Err(e) = parse(input) else {
            panic!("{input} should be rejected")
        };
        assert_eq!((e.pos, e.msg), (pos, msg), "{input}");
    }
}

#[test]
fn numbers_below_the_overflow_threshold_are_representable() {
    let max = "179769313486231580793728971405303415079934132710037826936173778980444968292764750946649017977587207096330286416692887910946555547851940402630657488671505820681908902000708383676273854845817711531764475730270069855571366959622842914819860834936475292719074168444365510704342711559699508093042880177904174497791";
    let limit = "179769313486231580793728971405303415079934132710037826936173778980444968292764750946649017977587207096330286416692887910946555547851940402630657488671505820681908902000708383676273854845817711531764475730270069855571366959622842914819860834936475292719074168444365510704342711559699508093042880177904174497792";
    for accepted in [
        max,
        "1.7976931348623157e308",
        "1.797693134862315807937289714053034150799341327100378269361737789804449682927647509466490179775872070963302864166928879109465555478519404026306574886715058206819089020007083836762738548458177115317644757302700698555713669596228429148198608349364752927190741684443655107043427115596995080930428801779041744977919e308",
        "0.1e309",
        "-1e308",
        "1e-400",
        "0e999999999999999999999999",
        "0.000e400",
    ] {
        let doc = parse(accepted).unwrap_or_else(|e| panic!("{accepted}: {e:?}"));
        assert!(shown(&doc).parse::<f64>().unwrap().is_finite(), "{accepted}");
    }
    for rejected in [
        limit,
        "1.8e308",
        "-1.8e308",
        "1e309",
        "10e308",
        "1e99999999999999999999999999",
        "17976931348623158079372897140530341507993413271003782693617377898044496829276475094664901797758720709633028641669288791094655554785194040263065748867150582068190890200070838367627385484581771153176447573027006985557136695962284291481986083493647529271907416844436551070434271155969950809304288017790417449779200e-1",
    ] {
        let Err(e) = parse(rejected) else {
            panic!("{rejected} should be rejected")
        };
        assert_eq!(e.msg, "a representable number");
        assert!(rejected.parse::<f64>().unwrap().is_infinite(), "{rejected}");
    }
}

#[test]
fn get_finds_the_first_member_with_the_key() {
    let doc = parse(r#"{"a": 1, "b": true, "a": 2}"#).unwrap();
    assert_eq!(doc.get("a").unwrap().as_number(), Some("1"));
    assert_eq!(doc.get("b").unwrap().as_bool(), Some(true));
    assert!(doc.get("c").is_none());
    assert!(parse("[1]").unwrap().get("a").is_none());
}

#[test]
fn accessors_read_their_own_kind_only() {
    let doc = parse(r#"["x", 7, 12.5, -3, {"k": null}]"#).unwrap();
    let items = doc.as_array().unwrap();
    assert_eq!(items[0].as_str(), Some("x"));
    assert_eq!(items[0].as_usize(), None);
    assert_eq!(items[1].as_usize(), Some(7));
    assert_eq!(items[2].as_usize(), None);
    assert_eq!(items[3].as_usize(), None);
    assert_eq!(items[4].as_object().unwrap().len(), 1);
    assert!(items[1].as_str().is_none());
    assert!(doc.as_object().is_none());
    assert_eq!(
        parse("18446744073709551616").unwrap().as_usize(),
        None,
        "one more than usize::MAX on a 64-bit target"
    );
}

#[test]
fn strings_print_with_escapes() {
    let doc = Json::String("a\"b\\c\n\r\t\u{1}é".to_string());
    assert_eq!(doc.to_string(), "\"a\\\"b\\\\c\\n\\r\\t\\u0001é\"");
    let back = parse(&doc.to_string()).unwrap();
    let Json::String(s) = back else { panic!() };
    assert_eq!(s, "a\"b\\c\n\r\t\u{1}é");
}

fn same(a: &Json, b: &Json) -> bool {
    match (a, b) {
        (Json::Null, Json::Null) => true,
        (Json::Bool(x), Json::Bool(y)) => x == y,
        (Json::Number(x), Json::Number(y)) => x == y,
        (Json::String(x), Json::String(y)) => x == y,
        (Json::Array(x), Json::Array(y)) => {
            x.len() == y.len() && x.iter().zip(y).all(|(a, b)| same(a, b))
        }
        (Json::Object(x), Json::Object(y)) => {
            x.len() == y.len()
                && x.iter().zip(y).all(|((ka, va), (kb, vb))| ka == kb && same(va, vb))
        }
        _ => false,
    }
}

#[test]
fn printed_values_parse_back_as_themselves() {
    for text in [
        r#"{"a" : [1, -2.5e3, {"b": null}], "c\"\\\n\u0001\t" : "é😀/\b\f", "d": true}"#,
        "[]",
        "{}",
        r#""\u0000\u001f""#,
        " [ [ ] , { } , 0 , -0.0e-0 ] ",
        r#"{"k":1,"k":2}"#,
    ] {
        let doc = parse(text).unwrap();
        let printed = doc.to_string();
        let again = parse(&printed).unwrap_or_else(|e| panic!("{printed}: {e:?}"));
        assert!(same(&doc, &again), "{text}");
        assert_eq!(again.to_string(), printed);
    }
}

#[test]
fn built_values_print_and_parse_back() {
    let doc = Json::Array(vec![
        Json::String("line\nbreak \"quoted\" \\ \u{7f} \u{1b}".to_string()),
        Json::Object(vec![("".to_string(), Json::Number("12.5E+2".to_string()))]),
        Json::Bool(false),
    ]);
    let printed = doc.to_string();
    assert_eq!(
        printed,
        "[\"line\\nbreak \\\"quoted\\\" \\\\ \u{7f} \\u001b\",{\"\":12.5E+2},false]"
    );
    assert!(same(&parse(&printed).unwrap(), &doc));
}
