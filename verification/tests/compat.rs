//! Values the writer emits read back unchanged, and files in the shape that
//! other writers of the format produce are read correctly.

use configobj::{ConfigObj, Value};

#[test]
fn values_we_write_are_read_back_unchanged() {
    // Whatever the writer emits has to parse back into the value that was
    // stored, including the forms a careless writer gets wrong.
    let values: Vec<Value> = vec![
        Value::String("plain".into()),
        Value::String(String::new()),
        Value::String("with space".into()),
        Value::String("  padded  ".into()),
        Value::String("has#hash".into()),
        Value::String("has,comma".into()),
        Value::String("it's".into()),
        Value::String("say \"hi\"".into()),
        Value::String("both ' and \"".into()),
        Value::String("line\nbreak".into()),
        Value::String("triple ''' inside".into()),
        Value::String("triple \"\"\" inside".into()),
        Value::String("spam\n\"\"\" that's my spam \"\"\"\neggs".into()),
        Value::String("=equals".into()),
        Value::String("[brackets]".into()),
        Value::List(vec![]),
        Value::List(vec!["one".into()]),
        Value::List(vec!["one".into(), "two".into()]),
        Value::List(vec!["with space".into(), "with,comma".into()]),
    ];

    let mut failures = Vec::new();
    for value in &values {
        let mut conf = ConfigObj::new();
        conf.insert("key", value.clone());
        let text = match conf.to_string() {
            Ok(text) => text,
            Err(e) => {
                failures.push(format!("{value:?}: could not write: {e:?}"));
                continue;
            }
        };
        match ConfigObj::from_str(&text) {
            Ok(back) if back.get("key") == Some(value) => {}
            Ok(back) => failures.push(format!(
                "{value:?}: wrote {text:?}, read back {:?}",
                back.get("key")
            )),
            Err(e) => failures.push(format!("{value:?}: wrote {text:?}, could not read it: {e:?}")),
        }
    }
    assert!(
        failures.is_empty(),
        "{} value(s) did not survive being written:\n{}",
        failures.len(),
        failures.join("\n")
    );
}

#[test]
fn a_file_in_the_upstream_style_is_read_correctly() {
    // The shape that other writers of the format produce, covering each
    // form they use.
    let text = "\
# a header
plain = value
spaced = \"  padded  \"
listed = a, b c
single = only,
empty_list = ,
hash = \"has#hash\"
quote = \"it's\"
[section]
nested = yes
[[deeper]]
x = 1
# a footer
";
    let conf = ConfigObj::from_str(text).expect("should parse");
    assert_eq!(conf.get_str("plain"), Some("value"));
    assert_eq!(conf.get_str("spaced"), Some("  padded  "));
    assert_eq!(conf.get_list("listed"), Some(vec!["a", "b c"]));
    assert_eq!(conf.get("single"), Some(&Value::List(vec!["only".into()])));
    assert_eq!(conf.get("empty_list"), Some(&Value::List(vec![])));
    assert_eq!(conf.get_str("hash"), Some("has#hash"));
    assert_eq!(conf.get_str("quote"), Some("it's"));
    let section = conf.section("section").expect("nested section");
    assert_eq!(section.get_str("nested"), Some("yes"));
    assert_eq!(
        section.section("deeper").and_then(|s| s.get_str("x")),
        Some("1")
    );
    assert_eq!(conf.initial_comment(), ["a header".to_string()]);
    assert_eq!(conf.final_comment(), ["a footer".to_string()]);
}
