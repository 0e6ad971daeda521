use mustache::{compile_str, decode_source, render_str, Compiler, Context, Encoder, Error, MapBuilder};

fn err(src: &str) -> Error {
    match compile_str(src) {
        Ok(_) => panic!("{:?} compiled", src),
        Err(e) => e,
    }
}

#[test]
fn unclosed_tag() {
    assert_eq!(err("{{a"), Error::UnclosedTag);
    assert_eq!(err("text {{ a b c"), Error::UnclosedTag);
    assert_eq!(err("{{"), Error::UnclosedTag);
}

#[test]
fn unclosed_section() {
    assert_eq!(err("{{#a}}x"), Error::UnclosedSection);
    assert_eq!(err("{{#a}}{{/b}}"), Error::UnclosedSection);
    assert_eq!(err("{{^a}}{{#b}}{{/b}}"), Error::UnclosedSection);
}

#[test]
fn stray_close() {
    assert_eq!(err("{{/a}}"), Error::StrayClose);
    assert_eq!(err("{{#a}}{{/a}}{{/a}}"), Error::StrayClose);
}

#[test]
fn empty_tag() {
    assert_eq!(err("{{}}"), Error::EmptyTag);
    assert_eq!(err("{{  }}"), Error::EmptyTag);
    assert_eq!(err("{{#}}"), Error::EmptyTag);
    assert_eq!(err("{{& }}"), Error::EmptyTag);
    assert_eq!(err("{{>}}"), Error::EmptyTag);
    assert_eq!(err("{{{}}}"), Error::EmptyTag);
}

#[test]
fn unbalanced_braces() {
    assert_eq!(err("{{{a}b}}"), Error::UnbalancedTripleMustache);
    assert_eq!(err("{{a}b}}"), Error::UnbalancedTripleMustache);
    assert_eq!(err("{{{a}} b"), Error::UnbalancedTripleMustache);
}

#[test]
fn bad_delimiter_change() {
    assert_eq!(err("{{=a=}}"), Error::BadDelimiterChange);
    assert_eq!(err("{{==}}"), Error::BadDelimiterChange);
    assert_eq!(err("{{=a b}}"), Error::BadDelimiterChange);
    assert_eq!(err("{{= =}}"), Error::EmptyTag);
}

#[test]
fn empty_delimiters_are_refused() {
    let r = Compiler::new_with(
        Context::new(".".to_string()),
        "x".chars().collect(),
        no_partials(),
        "",
        "}}",
    );
    assert!(matches!(r, Err(Error::BadDelimiterChange)));
}

fn no_partials() -> mustache::PartialMap {
    mustache::PartialMap::new()
}

#[test]
fn unsupported_type() {
    let d = MapBuilder::new().insert_bool("a", true).build();
    assert_eq!(render_str("{{a}}", &d), Err(Error::UnsupportedType));
    assert_eq!(render_str("{{{a}}}", &d), Err(Error::UnsupportedType));
    let d = MapBuilder::new().insert_vec("a", |b| b).build();
    assert_eq!(render_str("{{&a}}", &d), Err(Error::UnsupportedType));
    let d = MapBuilder::new().insert_map("a", |b| b).build();
    assert_eq!(render_str("x{{a}}", &d), Err(Error::UnsupportedType));
}

#[test]
fn output_before_an_error_stays() {
    let d = MapBuilder::new().insert_bool("a", true).build();
    let t = compile_str("before {{{a}}} after").unwrap();
    let mut out = String::from("kept:");
    assert_eq!(t.render_data(&mut out, &d), Err(Error::UnsupportedType));
    assert_eq!(out, "kept:before ");
}

#[test]
fn recursion_limit() {
    let mut c = Compiler::new(Context::new(".".to_string()), "{{>p}}".chars().collect()).unwrap();
    assert_eq!(c.next_partial(), Some("p".to_string()));
    c.supply("p", Some("x{{>p}}")).unwrap();
    assert_eq!(c.next_partial(), None);
    let t = c.finish();
    let mut out = String::new();
    assert_eq!(
        t.render_data(&mut out, &MapBuilder::new().build()),
        Err(Error::RecursionLimit)
    );
    assert_eq!(out, "x".repeat(mustache::render_model::MAX_DEPTH));
}

#[test]
fn lambda_that_answers_itself_stops() {
    let d = MapBuilder::new()
        .insert_fn("l", |_| "a{{l}}".to_string())
        .build();
    assert_eq!(render_str("{{l}}", &d), Err(Error::RecursionLimit));
}

#[test]
fn incomplete_section_is_refused_by_the_renderer() {
    let tokens = vec![mustache::Token::IncompleteSection(
        vec!["a".to_string()],
        false,
        "{{#a}}".to_string(),
        false,
    )];
    let t = mustache::Template::new(Context::new(".".to_string()), tokens, no_partials());
    let mut out = String::new();
    assert_eq!(
        t.render_data(&mut out, &MapBuilder::new().build()),
        Err(Error::UnclosedSection)
    );
}

#[test]
fn invalid_str() {
    assert_eq!(decode_source(vec![0xff, 0xfe]), Err(Error::InvalidStr));
    assert_eq!(decode_source(vec![0xc3, 0x28]), Err(Error::InvalidStr));
    assert_eq!(decode_source("héllo".as_bytes().to_vec()), Ok("héllo".to_string()));
}

#[test]
fn encoder_errors() {
    let mut e = Encoder::new();
    assert_eq!(e.emit_nil(), Err(Error::UnsupportedType));
    assert_eq!(e.emit_enum(), Err(Error::UnsupportedType));
    assert_eq!(e.emit_option_none(), Err(Error::UnsupportedType));
    assert_eq!(e.emit_map_elt_key_end(), Err(Error::MissingElements));
    e.emit_map().unwrap();
    e.emit_bool(true).unwrap();
    assert_eq!(e.emit_map_elt_key_end(), Err(Error::KeyIsNotString));
    assert!(matches!(e.emit_map_elt_val_begin(), Err(Error::KeyIsNotString)));
    assert!(matches!(Encoder::new().finish(), Err(Error::MissingElements)));
    let mut e = Encoder::new();
    e.emit_bool(true).unwrap();
    assert!(matches!(e.emit_struct_field_begin(), Err(Error::UnsupportedType)));
    let mut e = Encoder::new();
    e.emit_bool(true).unwrap();
    assert!(matches!(e.emit_seq_elt_begin(), Err(Error::UnsupportedType)));
}

#[test]
fn descriptions() {
    assert_eq!(Error::UnsupportedType.description(), "unsupported type");
    assert_eq!(Error::InvalidStr.description(), "invalid string");
    assert_eq!(Error::MissingElements.description(), "no elements in value");
    assert_eq!(Error::KeyIsNotString.description(), "key is not a string");
    assert_eq!(Error::EmptyTag.detail(), Some("empty tag".to_string()));
}
