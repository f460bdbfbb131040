use llm::error::LoadSource;
use llm::json::parse;
use llm::tokenizer::{
    byte_char, char_byte, contraction, newlines, number, punctuation, space, split, whitespace,
    word, Tokenizer, VocabError,
};

fn tokenizer(text: &str) -> Tokenizer {
    Tokenizer::from_json(&parse(text).unwrap()).unwrap()
}

fn char_indices(s: &str) -> Vec<(usize, char)> {
    s.char_indices().collect()
}

#[test]
fn from_json_places_tokens_by_id() {
    let text = r#"{"model":{"vocab":{"b":1,"a":0}}}"#;
    let tokenizer = tokenizer(text);
    assert_eq!(tokenizer.vocab(), ["a", "b"]);
}

#[test]
fn from_json_rejects_malformed_vocabs() {
    let texts = [
        r#"{}"#,
        r#"{"model":{}}"#,
        r#"{"model":{"vocab":[]}}"#,
        r#"{"model":{"vocab":{"a":true}}}"#,
        r#"{"model":{"vocab":{"a":0,"b":2}}}"#,
        r#"{"model":{"vocab":{"a":0,"b":0}}}"#,
        r#"{"model":{"vocab":{"€":0}}}"#,
    ];
    for text in texts {
        assert!(
            Tokenizer::from_json(&parse(text).unwrap()).is_err(),
            "{text}"
        )
    }
}

#[test]
fn from_json_names_each_problem() {
    let cases: [(&str, fn(&VocabError) -> bool); 4] = [
        (r#"{"model":{"vocab":[]}}"#, |e| matches!(e, VocabError::MissingVocab)),
        (r#"{"model":{"vocab":{"€":0}}}"#, |e| {
            matches!(e, VocabError::NotByteLevel(t) if t == "€")
        }),
        (r#"{"model":{"vocab":{"a":0,"b":2}}}"#, |e| {
            matches!(e, VocabError::BadId(t, 2) if t == "b")
        }),
        (r#"{"model":{"vocab":{"a":0,"b":0}}}"#, |e| {
            matches!(e, VocabError::DuplicateId(0))
        }),
    ];
    for (text, expected) in cases {
        match Tokenizer::from_json(&parse(text).unwrap()) {
            Err(e) => assert!(expected(&e), "{text}: {e:?}"),
            Ok(_) => panic!("{text} should be rejected"),
        }
    }
}

#[test]
fn merge_prefers_earlier_merges() {
    let text = r#"{"model":{"vocab":{"a":0,"b":1,"c":2,"bc":3,"ab":4}}}"#;
    let tokenizer = tokenizer(text);
    assert_eq!(tokenizer.merge("abc"), [0, 3]);
}

#[test]
fn merge_chains_merges() {
    let text = r#"{"model":{"vocab":{"a":0,"b":1,"c":2,"ab":3,"abc":4}}}"#;
    let tokenizer = tokenizer(text);
    assert_eq!(tokenizer.merge("abc"), [4]);
    assert_eq!(tokenizer.merge("cab"), [2, 3]);
}

#[test]
fn merge_spells_bytes_first() {
    let text = r#"{"model":{"vocab":{"Ġ":0,"a":1,"Ġa":2}}}"#;
    let tokenizer = tokenizer(text);
    assert_eq!(tokenizer.merge(" a"), [2]);
}

#[test]
fn merge_needs_only_the_final_parts_as_tokens() {
    let text = r#"{"model":{"vocab":{"ab":0}}}"#;
    let tokenizer = tokenizer(text);
    assert!(tokenizer.can_encode("ab"));
    assert_eq!(tokenizer.merged_parts("ab"), ["ab"]);
    assert_eq!(tokenizer.merge("ab"), [0]);
    assert_eq!(tokenizer.encode("ab"), [0]);
    assert!(!tokenizer.can_encode("a"));
}

#[test]
fn merge_leaves_no_pair_that_joins() {
    let text = r#"{"model":{"vocab":{"a":0,"b":1,"c":2,"ab":3,"bc":4}}}"#;
    let tokenizer = tokenizer(text);
    assert_eq!(tokenizer.merged_parts("abcab"), ["ab", "c", "ab"]);
    assert_eq!(tokenizer.merge("abcab"), [3, 2, 3]);
    assert_eq!(tokenizer.merge(""), Vec::<usize>::new());
}

#[test]
fn decode_reverses_spellings() {
    let text = r#"{"model":{"vocab":{"Ġhello":0,"Ã©":1,"!":2}}}"#;
    let tokenizer = tokenizer(text);
    assert_eq!(tokenizer.decode(&[0, 1, 2]), " helloé!");
}

#[test]
fn decode_replaces_invalid_utf8() {
    let text = r#"{"model":{"vocab":{"Ã":0}}}"#;
    let tokenizer = tokenizer(text);
    assert_eq!(tokenizer.decode(&[0]), "\u{fffd}");
}

#[test]
fn byte_char_matches_known_spellings() {
    assert_eq!(byte_char(0x21), '!');
    assert_eq!(byte_char(0x61), 'a');
    assert_eq!(byte_char(0xff), 'ÿ');
    assert_eq!(byte_char(0x20), 'Ġ');
    assert_eq!(byte_char(0x00), 'Ā');
    assert_eq!(byte_char(0x7f), 'ġ');
    assert_eq!(byte_char(0xa0), 'ł');
    assert_eq!(byte_char(0xad), 'Ń');
    assert_eq!(byte_char(0xb7), '·');
}

#[test]
fn char_byte_inverts_byte_char() {
    for b in 0..=u8::MAX {
        assert_eq!(char_byte(byte_char(b)), Some(b));
    }
    assert_eq!(char_byte('€'), None);
}

#[test]
fn byte_char_inverts_char_byte() {
    for c in ['!', 'a', 'Ġ', 'Ā', 'ł', 'Ń', '·', 'ÿ', '€', 'A', '\u{100}', '\u{144}'] {
        if let Some(b) = char_byte(c) {
            assert_eq!(byte_char(b), c);
        }
    }
    assert_eq!(char_byte('\u{144}'), None);
    assert_eq!(char_byte(' '), None);
}

#[test]
fn split_matches_example() {
    assert_eq!(
        split("We've 12 cats!"),
        ["We", "'ve", " ", "1", "2", " cats", "!"]
    );
}

#[test]
fn split_keeps_the_last_space_for_the_word() {
    assert_eq!(split("  Hello"), [" ", " Hello"]);
}

#[test]
fn split_glues_newlines_to_punctuation() {
    assert_eq!(split("!\n"), ["!\n"]);
    assert_eq!(split("a\n\nb"), ["a", "\n\n", "b"]);
}

#[test]
fn split_tiles_the_text() {
    for text in ["We've 12 cats!", "  Hello  ", "a\r\n\r\nb", " é’…\t9", ""] {
        assert_eq!(split(text).concat(), text, "{text}");
    }
}

#[test]
fn split_never_gives_an_empty_chunk() {
    for text in ["We've 12 cats!", "  Hello  ", "a\r\n\r\nb", " é’…\t9", "x"] {
        assert!(split(text).iter().all(|chunk| !chunk.is_empty()), "{text}");
    }
}

#[test]
fn contraction_takes_the_seven_tails() {
    for tail in ["'s", "'t", "'m", "'d", "'re", "'ve", "'ll"] {
        assert_eq!(contraction(&char_indices(tail)), Some(tail.len()), "{tail}");
    }
    assert_eq!(contraction(&char_indices("'S")), Some(2));
    assert_eq!(contraction(&char_indices("'r")), None);
}

#[test]
fn word_takes_letters_and_their_prefix() {
    assert_eq!(word(&char_indices("hello")), Some(5));
    assert_eq!(word(&char_indices(" hello")), Some(6));
    assert_eq!(word(&char_indices(" Hello")), Some(6));
    assert_eq!(word(&char_indices("42")), None);
}

#[test]
fn number_takes_one_digit() {
    assert_eq!(number(&char_indices("a")), None);
    assert_eq!(number(&char_indices("1")), Some(1));
    assert_eq!(number(&char_indices("12")), Some(1));
}

#[test]
fn punctuation_takes_a_run_and_trailing_newlines() {
    assert_eq!(punctuation(&char_indices("")), None);
    assert_eq!(punctuation(&char_indices("1")), None);
    assert_eq!(punctuation(&char_indices(".")), Some(1));
    assert_eq!(punctuation(&char_indices("..")), Some(2));
    assert_eq!(punctuation(&char_indices(".1")), Some(1));
    assert_eq!(punctuation(&char_indices(".1\n")), Some(1));
    assert_eq!(punctuation(&char_indices("..\n\r.")), Some(4));
    assert_eq!(punctuation(&char_indices(" ..\n\r.")), Some(5));
    assert_eq!(punctuation(&char_indices(" 1..\n.")), None);
    assert_eq!(punctuation(&char_indices("\n")), None);
    assert_eq!(punctuation(&char_indices(" \n.")), None);
}

#[test]
fn newlines_end_at_the_last_newline() {
    assert_eq!(newlines(&char_indices(" ")), None);
    assert_eq!(newlines(&char_indices("1\n")), None);
    assert_eq!(newlines(&char_indices("\n")), Some(1));
    assert_eq!(newlines(&char_indices(" \n")), Some(2));
    assert_eq!(newlines(&char_indices(" \n\r\n")), Some(4));
    assert_eq!(newlines(&char_indices(" \n \n ")), Some(4));
}

#[test]
fn space_gives_the_last_space_back() {
    assert_eq!(space(&char_indices("")), None);
    assert_eq!(space(&char_indices("a")), None);
    assert_eq!(space(&char_indices(" a")), None);
    assert_eq!(space(&char_indices("  a")), Some(1));
    assert_eq!(space(&char_indices("  ")), Some(2));
    assert_eq!(space(&char_indices(" ")), Some(1));
}

#[test]
fn whitespace_consumes_spaces() {
    assert_eq!(whitespace(&char_indices("")), None);
    assert_eq!(whitespace(&char_indices("a ")), None);
    assert_eq!(whitespace(&char_indices(" ")), Some(1));
    assert_eq!(whitespace(&char_indices("  a")), Some(2));
}

#[test]
fn encode_splits_then_merges_each_chunk() {
    let text = r#"{"model":{"vocab":{"a":0,"b":1,"Ġ":2,"ab":3,"Ġb":4,"!":5}}}"#;
    let tokenizer = tokenizer(text);
    assert!(tokenizer.can_encode("ab b!"));
    assert_eq!(tokenizer.encode("ab b!"), [3, 4, 5]);
    assert!(!tokenizer.can_encode("abc"));
}

#[test]
fn decode_of_encode_gives_the_text_back() {
    let text = r#"{"model":{"vocab":{"a":0,"b":1,"Ġ":2,"ab":3,"Ġb":4,"!":5,"Ã":6,"©":7}}}"#;
    let tokenizer = tokenizer(text);
    for input in ["ab b!", "é", " é!", ""] {
        assert!(tokenizer.can_encode(input), "{input}");
        let ids = tokenizer.encode(input);
        assert_eq!(tokenizer.decode(&ids), input);
    }
}

#[test]
fn load_reports_each_stage() {
    let read_failed = Tokenizer::load("t.json", Err("no such file".to_string()));
    match read_failed {
        Err(e) => {
            assert_eq!(e.path_str(), "t.json");
            assert!(matches!(e.cause(), LoadSource::Io(m) if m == "no such file"));
        }
        Ok(_) => panic!("should fail"),
    }
    match Tokenizer::load("t.json", Ok("{".to_string())) {
        Err(e) => assert!(matches!(e.cause(), LoadSource::Json(_))),
        Ok(_) => panic!("should fail"),
    }
    match Tokenizer::load("t.json", Ok("{}".to_string())) {
        Err(e) => assert!(matches!(e.cause(), LoadSource::Vocab(VocabError::MissingVocab))),
        Ok(_) => panic!("should fail"),
    }
    let loaded = Tokenizer::load("t.json", Ok(r#"{"model":{"vocab":{"a":0}}}"#.to_string()));
    assert_eq!(loaded.unwrap().vocab(), ["a"]);
}

#[test]
fn try_encode_encodes_exactly_what_can_be_encoded() {
    let text = r#"{"model":{"vocab":{"a":0,"b":1,"Ġ":2,"ab":3,"Ġb":4,"!":5}}}"#;
    let tokenizer = tokenizer(text);
    assert_eq!(tokenizer.try_encode("ab b!"), Some(vec![3, 4, 5]));
    assert_eq!(tokenizer.try_encode("abc"), None);
    assert_eq!(tokenizer.try_encode(""), Some(vec![]));
}

#[test]
fn a_vocabulary_of_every_byte_encodes_any_text() {
    let mut entries: Vec<String> = (0..=255u8)
        .map(|b| format!("\"{}\":{}", json_escape(byte_char(b)), b))
        .collect();
    entries.push(format!("\"{}{}\":256", json_escape(byte_char(b'h')), json_escape(byte_char(b'i'))));
    let text = format!("{{\"model\":{{\"vocab\":{{{}}}}}}}", entries.join(","));
    let tokenizer = tokenizer(&text);
    for input in ["hi there", "é€ 𝄞!", "", "  \n\t x1"] {
        let ids = tokenizer.try_encode(input).unwrap();
        assert!(ids.iter().all(|&id| id < 257), "{input}");
        assert_eq!(tokenizer.decode(&ids), input);
    }
    assert_eq!(tokenizer.encode("hi"), [256]);
}

fn json_escape(c: char) -> String {
    match c {
        '"' => "\\\"".to_string(),
        '\\' => "\\\\".to_string(),
        c => c.to_string(),
    }
}

#[test]
fn whitespace_is_the_unicode_white_space_property() {
    for u in 0..=0x10FFFFu32 {
        if let Some(c) = char::from_u32(u) {
            assert_eq!(llm::text::is_whitespace(c), c.is_whitespace(), "{u:#x}");
        }
    }
}
