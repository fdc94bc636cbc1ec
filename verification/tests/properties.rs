//! Concrete cases of what the library promises in general, and of the inputs
//! those promises leave out.

use configobj::config::split_lines;
use configobj::value::IntError;
use configobj::{Builder, Comments, ConfigObj, Error, ErrorKind, NotABool, ParseValueError, Section, Value};

fn cycle_with(list_values: bool, conf: &ConfigObj) -> ConfigObj {
    let text = conf.to_string().expect("should write");
    Builder::new()
        .list_values(list_values)
        .from_str(&text)
        .unwrap_or_else(|e| panic!("could not re-read {text:?}: {e:?}"))
}

#[test]
fn a_value_under_an_awkward_key_reads_back() {
    for (key, value) in [
        ("", "x"),
        ("it's", "y"),
        ("a,b", "z"),
        ("#tag", "w"),
        ("k=v", "u"),
        ("say \"hi\"", "v"),
    ] {
        let mut conf = ConfigObj::new();
        conf.insert(key, value);
        let back = cycle_with(true, &conf);
        assert_eq!(back.get_str(key), Some(value), "key {key:?}");
    }
}

#[test]
fn a_value_with_list_values_off_reads_back() {
    let mut conf = Builder::new().list_values(false).from_str("").expect("empty");
    conf.insert("k", "x, y # not a comment?");
    assert!(matches!(conf.to_string(), Err(Error::Unwritable(_))));
    conf.insert("k", "left \"quoted\", alone");
    let back = cycle_with(false, &conf);
    assert_eq!(back.get_str("k"), Some("left \"quoted\", alone"));
}

#[test]
fn white_space_at_the_ends_of_a_value_is_quoted_and_kept() {
    for value in ["\u{c}x", "x\u{a0}", "\u{3000}y\u{2028}", " z "] {
        let mut conf = ConfigObj::new();
        conf.insert("k", value);
        let text = conf.to_string().expect("write");
        assert_eq!(text, format!("k = \"{value}\"\n"));
        let back = cycle_with(true, &conf);
        assert_eq!(back.get_str("k"), Some(value));
        assert_eq!(back.to_string().expect("write"), text);
    }
}

#[test]
fn a_carriage_return_before_a_line_break_is_refused() {
    let mut conf = ConfigObj::new();
    conf.insert("k", "a\r\nb");
    assert!(matches!(conf.to_string(), Err(Error::Unwritable(v)) if v == "a\r\nb"));
    conf.insert("k", "a\rb\nc\r");
    assert_eq!(cycle_with(true, &conf).get_str("k"), Some("a\rb\nc\r"));
}

#[test]
fn a_list_item_opening_with_a_triple_quote_is_single_quoted() {
    let mut conf = ConfigObj::new();
    conf.insert("k", vec!["'''x", "b"]);
    let text = conf.to_string().expect("write");
    assert_eq!(text, "k = \"'''x\", b\n");
    assert_eq!(cycle_with(true, &conf).get_list("k"), Some(vec!["'''x", "b"]));
    conf.insert("k", vec!["\"\"\"y"]);
    assert_eq!(cycle_with(true, &conf).get_list("k"), Some(vec!["\"\"\"y"]));
    conf.insert("k", vec!["'''both\"", "b"]);
    assert!(matches!(conf.to_string(), Err(Error::Unwritable(_))));
}

#[test]
fn an_empty_value_with_list_values_off_is_written_as_it_is() {
    let mut conf = Builder::new().list_values(false).from_str("").expect("empty");
    conf.insert("k", "");
    assert_eq!(conf.to_string().expect("write"), "k = \n");
    assert_eq!(cycle_with(false, &conf).get_str("k"), Some(""));
    conf.insert("", "v");
    assert_eq!(cycle_with(false, &conf).get_str(""), Some("v"));
}

#[test]
fn a_list_with_list_values_off_is_refused() {
    let mut conf = Builder::new().list_values(false).from_str("").expect("empty");
    conf.insert("k", vec!["a", "b"]);
    assert!(matches!(conf.to_string(), Err(Error::Unwritable(v)) if v == "a, b"));
}

#[test]
fn keys_and_names_are_quoted_only_for_equals_and_brackets() {
    let mut conf = ConfigObj::new();
    conf.insert("[a", "x");
    conf.insert("'''k", "v");
    conf.entry_section("'''s").insert("x", "1");
    let text = conf.to_string().expect("write");
    assert_eq!(text, "[a = x\n\"'''k\" = v\n[\"'''s\"]\nx = 1\n");
    let back = cycle_with(true, &conf);
    assert_eq!(back.get_str("[a"), Some("x"));
    assert_eq!(back.get_str("'''k"), Some("v"));
    assert_eq!(back.section("'''s").and_then(|s| s.get_str("x")), Some("1"));

    // A bare key opening with `[` is left bare even where the line then
    // reads as a section header.
    let mut conf = ConfigObj::new();
    conf.insert("[a", "b]");
    assert_eq!(conf.to_string().expect("write"), "[a = b]\n");

    // With list values off, keys and names are written as they are, and a
    // quoted one reads back without its quotes.
    let mut conf = Builder::new().list_values(false).from_str("").expect("empty");
    conf.insert("\"q\"", "v");
    conf.entry_section("\"n\"").insert("x", "1");
    assert_eq!(conf.to_string().expect("write"), "\"q\" = v\n[\"n\"]\nx = 1\n");
    let back = cycle_with(false, &conf);
    assert_eq!(back.get_str("q"), Some("v"));
    assert!(back.section("n").is_some());
    conf.insert("k=v", "w");
    assert_eq!(cycle_with(false, &conf).get_str("k=v"), Some("w"));
}

#[test]
fn a_stored_value_is_read_back_and_others_are_left_alone() {
    let mut s = Section::new();
    s.insert("a", "1");
    s.insert("b", "2");
    s.insert("a", "3");
    assert_eq!(s.get_str("a"), Some("3"));
    assert_eq!(s.get_str("b"), Some("2"));
    assert_eq!(s.keys(), vec!["a", "b"]);
    s.insert("c", "4");
    assert_eq!(s.keys(), vec!["a", "b", "c"]);
}

#[test]
fn storing_keeps_the_comments_of_an_entry() {
    let mut conf = ConfigObj::from_str("# about a\na = 1\n[s]\n").expect("parse");
    let mut c = Comments::new();
    c.above.push("about s".to_string());
    assert!(conf.set_comments("s", c.clone()));
    conf.insert("s", "now a value");
    assert_eq!(conf.comments("s"), Some(&c));
    assert_eq!(conf.get_str("s"), Some("now a value"));
}

#[test]
fn removing_a_new_key_undoes_adding_it() {
    let mut s = Section::new();
    s.insert("a", "1");
    s.insert("b", "2");
    assert!(s.remove("b"));
    assert!(!s.contains_key("b"));
    assert_eq!(s.keys(), vec!["a"]);
    assert!(!s.remove("b"));
}

#[test]
fn renaming_moves_an_entry_with_its_comments() {
    let mut conf = ConfigObj::from_str("a = 1\n# about b\nb = 2 # note\nc = 3\n").expect("parse");
    let before = conf.comments("b").cloned();
    assert!(conf.rename("b", "d"));
    assert_eq!(conf.keys(), vec!["a", "d", "c"]);
    assert_eq!(conf.get_str("d"), Some("2"));
    assert_eq!(conf.comments("d").cloned(), before);
    assert!(!conf.contains_key("b"));
    assert!(!conf.rename("a", "c"), "the new name is taken");
    assert!(!conf.rename("zz", "y"), "there is nothing to rename");
}

#[test]
fn unquoting_undoes_quoting() {
    for value in ["", "plain", "  padded  ", "has#hash", "a,b", "it's", "say \"hi\""] {
        let quoted = ConfigObj::quote(value).expect("quote");
        assert_eq!(ConfigObj::unquote(&quoted), value);
    }
    for value in ["a\nb", "'''x", "\"\"\"y", "it's \"both\""] {
        let quoted = ConfigObj::quote(value).expect("quote");
        assert_eq!(ConfigObj::unquote(&quoted), value);
    }
    let quoted = ConfigObj::quote("a\nb").expect("quote");
    assert_eq!(quoted, "\"\"\"a\nb\"\"\"");
}

#[test]
fn values_are_quoted_the_way_the_writer_writes_them() {
    assert_eq!(ConfigObj::quote_value(&Value::List(vec![])).expect("q"), ",");
    assert_eq!(
        ConfigObj::quote_value(&Value::List(vec!["a b".into(), "c,d".into()])).expect("q"),
        "a b, \"c,d\""
    );
    assert_eq!(ConfigObj::quote_value(&Value::List(vec!["x".into()])).expect("q"), "x,");
    assert!(matches!(
        ConfigObj::quote("''' and \"\"\"\n"),
        Err(Error::Unwritable(_))
    ));
}

#[test]
fn bytes_read_as_the_text_they_encode() {
    let mut conf = ConfigObj::new();
    conf.insert("name", "Jelmer Vernoo\u{133}");
    let bytes = conf.to_bytes().expect("bytes");
    assert_eq!(bytes, "name = Jelmer Vernoo\u{133}\n".as_bytes());
    let back = ConfigObj::from_bytes(&bytes).expect("read");
    assert!(!back.has_bom());
    assert_eq!(back.get_str("name"), Some("Jelmer Vernoo\u{133}"));

    conf.set_bom(true);
    let bytes = conf.to_bytes().expect("bytes");
    assert_eq!(&bytes[..3], &[0xEF, 0xBB, 0xBF]);
    let back = ConfigObj::from_bytes(&bytes).expect("read");
    assert!(back.has_bom());
    assert_eq!(back.to_bytes().expect("bytes"), bytes);
}

#[test]
fn a_key_starting_with_the_mark_character_reads_as_a_mark() {
    let mut conf = ConfigObj::new();
    conf.insert("\u{feff}k", "v");
    let back = ConfigObj::from_bytes(&conf.to_bytes().expect("bytes")).expect("read");
    assert!(back.has_bom());
    assert_eq!(back.get_str("k"), Some("v"));
}

#[test]
fn each_error_has_its_message() {
    let err = ConfigObj::from_str("a = 1\na = 2\nnonsense\n").expect_err("errors");
    assert_eq!(err.parse_errors().len(), 2);
    assert_eq!(err.parse_errors()[1].kind, ErrorKind::Parse);
    assert_eq!(
        err.describe(),
        "Duplicate keyword name \"a\" at line 2 (and 1 more error(s))"
    );
    assert_eq!(
        err.parse_errors()[1].describe(),
        "Invalid line \"nonsense\" (matched as neither section nor keyword) at line 3"
    );

    let mut conf = ConfigObj::new();
    conf.insert("k", "''' \"\"\"\nx");
    let err = conf.to_string().expect_err("unwritable");
    assert_eq!(
        err.describe(),
        "value \"''' \\\"\\\"\\\"\\nx\" cannot be safely quoted"
    );
    assert_eq!(err.line_number(), None);

    let err = ConfigObj::from_bytes(b"a = \xff\n").expect_err("encoding");
    assert_eq!(
        err.describe(),
        "input is not valid UTF-8: invalid utf-8 sequence of 1 bytes from index 4"
    );

    let err = ConfigObj::from_str("[[a]]\n[b]\n[b]\n").expect_err("nesting");
    assert_eq!(err.parse_errors()[0].kind, ErrorKind::Nesting);
    assert_eq!(err.parse_errors()[0].describe(), "Section too nested at line 1");
    assert_eq!(err.parse_errors()[1].kind, ErrorKind::Duplicate);
    assert_eq!(err.line_number(), Some(1));

    let err = ConfigObj::from_str("a = '''never closed\n").expect_err("multiline");
    assert_eq!(err.describe(), "Parse error in multiline value at line 1");
    let err = ConfigObj::from_str("a = 'open\n").expect_err("value");
    assert_eq!(err.describe(), "Parse error in value at line 1");
}

#[test]
fn saving_and_reloading_need_a_file() {
    let mut conf = ConfigObj::new();
    assert!(matches!(conf.remembered_file(true), Err(Error::Io(_))));
    conf.set_filename(std::path::PathBuf::from("settings.ini"));
    assert_eq!(
        conf.remembered_file(false).expect("a file"),
        std::path::Path::new("settings.ini")
    );
    assert_eq!(conf.filename(), Some(std::path::Path::new("settings.ini")));
}

#[test]
fn reloading_replaces_what_was_held() {
    let mut conf = Builder::new()
        .list_values(false)
        .from_str("a = x, y\n")
        .expect("parse");
    conf.set_indent("  ");
    conf.insert("b", "z");
    conf.reload_from_bytes(b"a = x, y\n").expect("reload");
    assert_eq!(conf.get_str("a"), Some("x, y"));
    assert_eq!(conf.get_str("b"), None);
    assert_eq!(conf.indent(), "  ");
    assert!(conf.reload_from_bytes(b"a = 1\na = 2\n").is_err());
    assert_eq!(conf.get_str("a"), Some("x, y"), "a failed reload changes nothing");
    conf.reload_from_bytes(b"[s]\n\tb = 1\n").expect("reload");
    assert_eq!(conf.indent(), "\t");
}

#[test]
fn integers_are_read_within_their_range() {
    let v = |t: &str| Value::String(t.to_string());
    assert_eq!(v("255").parse::<u8>(), Ok(255));
    assert_eq!(v("256").parse::<u8>(), Err(ParseValueError::Invalid(IntError::PosOverflow)));
    assert_eq!(v("-1").parse::<u8>(), Err(ParseValueError::Invalid(IntError::InvalidDigit)));
    assert_eq!(v("-128").parse::<i8>(), Ok(-128));
    assert_eq!(v("-129").parse::<i8>(), Err(ParseValueError::Invalid(IntError::NegOverflow)));
    assert_eq!(v("+7").parse::<i32>(), Ok(7));
    assert_eq!(v("").parse::<i32>(), Err(ParseValueError::Invalid(IntError::Empty)));
    assert_eq!(v("-").parse::<i32>(), Err(ParseValueError::Invalid(IntError::InvalidDigit)));
    assert_eq!(v("1a").parse::<u64>(), Err(ParseValueError::Invalid(IntError::InvalidDigit)));
    assert_eq!(v(" 1").parse::<u16>(), Err(ParseValueError::Invalid(IntError::InvalidDigit)));
    assert_eq!(v("-9223372036854775808").parse::<i64>(), Ok(i64::MIN));
    assert_eq!(v("18446744073709551615").parse::<u64>(), Ok(u64::MAX));
    assert_eq!(v("65536").parse::<u16>(), Err(ParseValueError::Invalid(IntError::PosOverflow)));
    assert_eq!(v("4294967296").parse::<u32>(), Err(ParseValueError::Invalid(IntError::PosOverflow)));
    assert_eq!(v("-32769").parse::<i16>(), Err(ParseValueError::Invalid(IntError::NegOverflow)));
    match Value::List(vec!["1".into()]).parse::<u8>() {
        Err(ParseValueError::WrongShape(w)) => assert_eq!(w.wanted, "single value"),
        other => panic!("expected a shape error, got {other:?}"),
    }
}

#[test]
fn booleans_have_four_spellings_each() {
    for (text, expected) in [("On", true), ("yEs", true), ("OFF", false), ("No", false)] {
        assert_eq!(Value::String(text.into()).as_bool(), Ok(expected));
    }
    assert_eq!(
        Value::String("nope".into()).as_bool(),
        Err(NotABool::Unrecognised("nope".into()))
    );
    assert!(matches!(
        Value::List(vec![]).as_bool(),
        Err(NotABool::WrongShape(_))
    ));
}

#[test]
fn a_value_seen_as_a_list_and_as_text() {
    assert_eq!(Value::String("x".into()).as_list(), vec!["x"]);
    assert_eq!(Value::List(vec!["x".into(), "y".into()]).as_list(), vec!["x", "y"]);
    assert_eq!(Value::List(vec!["x".into()]).as_str(), None);
}

#[test]
fn paths_lead_through_nested_sections() {
    let conf = ConfigObj::from_str("[a]\n[[b]]\nx = 1\n").expect("parse");
    assert_eq!(conf.get_path(&["a", "b", "x"]), Some(&Value::String("1".into())));
    assert!(conf.section_path(&["a", "b"]).is_some());
    assert_eq!(conf.get_path(&["a", "x"]), None);
    assert_eq!(conf.get_path(&[]), None);
    assert!(conf.section_path(&[]).is_some());
}

#[test]
fn lines_are_split_at_line_breaks() {
    assert_eq!(split_lines("a\r\nb\n"), vec!["a".to_string(), "b".to_string()]);
    assert_eq!(split_lines(""), Vec::<String>::new());
    assert_eq!(split_lines("\n"), Vec::<String>::new());
    assert_eq!(split_lines("\n\n"), vec![String::new(), String::new()]);
    assert_eq!(split_lines("a\n\nb"), vec!["a".to_string(), String::new(), "b".to_string()]);
}

fn comments(above: &[&str], inline: Option<&str>) -> Comments {
    Comments { above: above.iter().map(|s| s.to_string()).collect(), inline: inline.map(|s| s.to_string()) }
}

#[test]
fn a_nested_config_with_comments_reads_back_whole() {
    let mut conf = ConfigObj::new();
    conf.set_initial_comment(["top of file", ""]);
    conf.set_final_comment(["the end"]);
    conf.set_indent("    ");
    conf.root_mut().insert("a", "1");
    assert!(conf.root_mut().set_comments("a", comments(&[], Some("first"))));
    conf.root_mut().insert("b", vec!["x", "y z"]);
    assert!(conf.root_mut().set_comments("b", comments(&["about b", ""], None)));
    let mut inner = Section::new();
    inner.insert("d", "deep value");
    assert!(inner.set_comments("d", comments(&["on d"], Some("d's"))));
    let mut outer = Section::new();
    outer.insert("c", "two\nlines");
    outer.insert("e", "it's \"quoted\"");
    outer.insert_section("inner", inner);
    assert!(outer.set_comments("inner", comments(&["inner one"], None)));
    conf.root_mut().insert_section("outer", outer);
    assert!(conf.root_mut().set_comments("outer", comments(&["the outer one"], Some("o"))));
    conf.root_mut().insert_section("empty", Section::new());

    let back = cycle_with(true, &conf);
    assert_eq!(back.initial_comment(), conf.initial_comment());
    assert_eq!(back.final_comment(), conf.final_comment());
    assert_eq!(back.indent(), "    ");
    assert!(back.root() == conf.root());
    assert_eq!(back.root().get_path(&["outer", "inner", "d"]).and_then(|v| v.as_str()), Some("deep value"));
    assert_eq!(back.to_string().expect("should write"), conf.to_string().expect("should write"));
}

#[test]
fn a_config_with_no_indented_line_reads_back_without_its_indentation() {
    let mut conf = ConfigObj::new();
    conf.set_indent("\t");
    conf.root_mut().insert("x", "1");
    conf.root_mut().insert_section("s", Section::new());
    let back = cycle_with(true, &conf);
    assert!(back.root() == conf.root());
    assert_eq!(back.indent(), "");
    assert_eq!(back.to_string().expect("should write"), conf.to_string().expect("should write"));
}

#[test]
fn rewriting_a_hand_written_file_spaces_it_the_writer_s_way() {
    let conf = ConfigObj::from_str("a=1\n[s]\nb   =  2\n").expect("should read");
    assert_eq!(conf.to_string().expect("should write"), "a = 1\n[s]\nb = 2\n");
}

#[test]
fn a_comment_above_the_first_entry_joins_the_leading_comment() {
    let mut conf = ConfigObj::new();
    conf.set_initial_comment(["lead"]);
    conf.root_mut().insert("k", "v");
    assert!(conf.root_mut().set_comments("k", comments(&["above k"], None)));
    let back = cycle_with(true, &conf);
    assert_eq!(back.initial_comment(), &["lead".to_string(), "above k".to_string()][..]);
    assert_eq!(back.root().comments("k"), None);
}

#[test]
fn a_file_of_one_blank_comment_line_reads_back_with_none() {
    let mut conf = ConfigObj::new();
    conf.set_initial_comment([""]);
    assert_eq!(conf.to_string().expect("should write"), "\n");
    let back = cycle_with(true, &conf);
    assert!(back.initial_comment().is_empty());
}

#[test]
fn a_config_saved_as_bytes_loads_back_with_its_byte_order_mark() {
    let mut conf = ConfigObj::new();
    conf.set_bom(true);
    conf.insert("k", "v");
    conf.entry_section("s").insert("n", "1, 2");
    let bytes = conf.to_bytes().expect("should write");
    assert_eq!(&bytes[..3], &[0xEF, 0xBB, 0xBF]);
    let back = ConfigObj::from_bytes(&bytes).expect("should read");
    assert!(back.has_bom());
    assert!(back.root() == conf.root());

    conf.set_bom(false);
    let back = ConfigObj::from_bytes(&conf.to_bytes().expect("should write")).expect("should read");
    assert!(!back.has_bom());
    assert!(back.root() == conf.root());
}

#[test]
fn a_section_before_a_value_reads_back_after_it() {
    let mut conf = ConfigObj::new();
    conf.entry_section("s").insert("inner", "1");
    conf.entry_section("s").entry_section("t").insert("deep", "2");
    conf.entry_section("s").insert("late", "3");
    conf.insert("outer", "4");
    let back = cycle_with(true, &conf);
    assert_eq!(back.root().keys(), vec!["outer", "s"]);
    assert_eq!(back.section("s").map(|s| s.keys()), Some(vec!["inner", "late", "t"]));
    assert_eq!(back.root().get_path(&["s", "t", "deep"]).and_then(|v| v.as_str()), Some("2"));
}

#[test]
fn errors_name_their_lines_in_order() {
    let err = ConfigObj::from_str("x\na = 1\ny\n[[deep]]\n").expect_err("errors");
    let errors = err.parse_errors();
    let numbers: Vec<usize> = errors.iter().map(|e| e.line_number).collect();
    assert_eq!(numbers, vec![1, 3, 4]);
    assert_eq!(errors[0].line, "x");
    assert_eq!(errors[1].line, "y");
    assert_eq!(errors[2].line, "[[deep]]");
    assert_eq!(errors[2].kind, ErrorKind::Nesting);
}

#[test]
fn a_repeated_section_name_is_a_duplicate_error() {
    let err = ConfigObj::from_str("[a]\nx = 1\n[a]\n").expect_err("duplicate");
    assert_eq!(err.parse_errors()[0].kind, ErrorKind::Duplicate);
    assert_eq!(err.parse_errors()[0].line_number, 3);
}

#[test]
fn comments_only_make_the_leading_comment() {
    let conf = ConfigObj::from_str("# one\n\n   #two\n#  three\n").expect("read");
    assert_eq!(conf.initial_comment(), &["one".to_string(), "".to_string(), "two".to_string(), " three".to_string()][..]);
    assert!(conf.final_comment().is_empty());
    assert!(conf.root().is_empty());
}

#[test]
fn with_list_values_off_nothing_reads_as_a_list() {
    let conf = Builder::new().list_values(false).from_str("a = x, y\n[s]\nb = ,\n").expect("read");
    assert_eq!(conf.get("a"), Some(&Value::String("x, y".into())));
    assert_eq!(conf.get_path(&["s", "b"]), Some(&Value::String(",".into())));
}

#[test]
fn plain_text_is_written_as_it_is() {
    for value in ["plain", "a b", "x=y", "it's", "[x]"] {
        assert_eq!(ConfigObj::quote(value).expect("quote"), value);
    }
}

#[test]
fn values_parse_as_other_types() {
    assert_eq!(Value::String("true".into()).parse::<bool>(), Ok(true));
    assert_eq!(Value::String("false".into()).parse::<bool>(), Ok(false));
    assert!(Value::String("yes".into()).parse::<bool>().is_err());
    assert_eq!(Value::String("x".into()).parse::<char>(), Ok('x'));
    assert!(Value::String("xy".into()).parse::<char>().is_err());
    assert!(Value::String("".into()).parse::<char>().is_err());
    assert_eq!(Value::String("8080".into()).parse::<usize>(), Ok(8080));
    assert_eq!(Value::String("-5".into()).parse::<isize>(), Ok(-5));
    assert!(Value::String("-5".into()).parse::<usize>().is_err());
    assert_eq!(configobj::value::BoolError.describe(), "provided string was not `true` or `false`");
    assert_eq!(configobj::value::CharError::TooMany.describe(), "too many characters in string");
}

#[test]
fn numbers_are_stored_in_decimal() {
    let mut s = Section::new();
    s.insert("a", 42u16);
    s.insert("b", -7i32);
    s.insert("c", u64::MAX);
    s.insert("d", i64::MIN);
    assert_eq!(s.get_str("a"), Some("42"));
    assert_eq!(s.get_str("b"), Some("-7"));
    assert_eq!(s.get_str("c"), Some("18446744073709551615"));
    assert_eq!(s.get_str("d"), Some("-9223372036854775808"));
}

#[test]
fn sections_and_configs_copy_whole() {
    let mut conf = ConfigObj::new();
    conf.insert("k", "v");
    conf.entry_section("s").insert("x", vec!["1", "2"]);
    assert!(conf.root_mut().set_comments("k", comments(&["above"], Some("beside"))));
    conf.set_filename(std::path::PathBuf::from("c.ini"));
    let copy = conf.clone();
    assert!(copy.root() == conf.root());
    assert_eq!(copy.filename(), conf.filename());
    let section_copy = conf.root().clone();
    assert!(section_copy == *conf.root());
    assert!(Section::default().is_empty());
}

#[test]
fn no_written_line_is_indentation_alone() {
    let mut conf = ConfigObj::new();
    conf.set_indent("    ");
    conf.set_initial_comment(["top", ""]);
    conf.entry_section("s").insert("a", "1");
    assert!(conf.root_mut().section_mut("s").expect("s").set_comments("a", comments(&["", "about a"], None)));
    conf.entry_section("s").entry_section("t").insert("b", "2");
    let text = conf.to_string().expect("write");
    for line in text.lines() {
        assert!(line.is_empty() || !line.trim().is_empty(), "line {line:?} in {text:?}");
    }
}

#[test]
fn a_comma_inside_quotes_does_not_split_a_list() {
    let conf = ConfigObj::from_str("a = \"x, y\", z\nb = \"x, y\"\nc = one # two, three\n").expect("read");
    assert_eq!(conf.get_list("a"), Some(vec!["x, y", "z"]));
    assert_eq!(conf.get_str("b"), Some("x, y"));
    assert_eq!(conf.get_str("c"), Some("one"));
    assert_eq!(conf.comments("c").and_then(|c| c.inline.clone()), Some("two, three".to_string()));
}

#[test]
fn reloading_keeps_the_options_the_indent_and_the_file() {
    let mut conf = Builder::new().list_values(false).from_str("").expect("empty");
    conf.set_indent("    ");
    conf.set_filename(std::path::PathBuf::from("app.ini"));
    conf.reload_from_bytes(b"[s]\nk = a, b\n").expect("reload");
    let s = conf.section("s").expect("section read");
    assert_eq!(s.get_str("k"), Some("a, b"), "list values stay off");
    assert_eq!(s.get_list("k"), Some(vec!["a, b"]));
    assert_eq!(conf.indent(), "    ", "a file with no indentation keeps the one set");
    assert_eq!(conf.filename(), Some(std::path::Path::new("app.ini")));
    assert_eq!(conf.to_string().expect("write"), "[s]\n    k = a, b\n");
}
