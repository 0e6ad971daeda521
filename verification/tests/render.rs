use mustache::{compile_str, render_str, Compiler, Context, Data, MapBuilder, Template};

fn name_world() -> Data {
    MapBuilder::new().insert_str("name", "world").build()
}

fn render(template: &Template, data: &Data) -> String {
    let mut out = String::new();
    template.render_data(&mut out, data).unwrap();
    out
}

fn compile_with(src: &str, partials: &[(&str, &str)]) -> Template {
    let mut compiler = Compiler::new(Context::new(".".to_string()), src.chars().collect()).unwrap();
    loop {
        let name = match compiler.next_partial() {
            Some(name) => name,
            None => break,
        };
        let source = partials.iter().find(|(n, _)| *n == name).map(|(_, s)| *s);
        compiler.supply(&name, source).unwrap();
    }
    compiler.finish()
}

#[test]
fn lib_test_render_texts() {
    let ctx = name_world();

    assert_eq!(render_str("hello world", &ctx).unwrap(), "hello world".to_string());
    assert_eq!(render_str("hello {world", &ctx).unwrap(), "hello {world".to_string());
    assert_eq!(render_str("hello world}", &ctx).unwrap(), "hello world}".to_string());
    assert_eq!(render_str("hello {world}", &ctx).unwrap(), "hello {world}".to_string());
    assert_eq!(render_str("hello world}}", &ctx).unwrap(), "hello world}}".to_string());
}

#[test]
fn lib_test_render_etags() {
    let ctx = name_world();

    assert!(render_str("hello {{name}}", &ctx).unwrap() == "hello world".to_string());
}

#[test]
fn lib_test_render_utags() {
    let ctx = name_world();

    assert!(render_str("hello {{{name}}}", &ctx).unwrap() == "hello world".to_string());
}

#[test]
fn lib_test_render_sections() {
    let template = compile_str("0{{#a}}1 {{n}} 3{{/a}}5").unwrap();

    let ctx0 = MapBuilder::new().build();
    assert!(render(&template, &ctx0) == "05".to_string());

    let ctx0 = MapBuilder::new().insert_vec("a", |b| b).build();
    assert!(render(&template, &ctx0) == "05".to_string());

    let ctx0 = MapBuilder::new()
        .insert_vec("a", |b| b.push_map(|m| m))
        .build();
    assert!(render(&template, &ctx0) == "01  35".to_string());

    let ctx0 = MapBuilder::new()
        .insert_vec("a", |b| b.push_map(|m| m.insert_str("n", "a")))
        .build();
    assert!(render(&template, &ctx0) == "01 a 35".to_string());
}

#[test]
fn lib_test_render_inverted_sections() {
    let template = compile_str("0{{^a}}1 3{{/a}}5").unwrap();

    let ctx0 = MapBuilder::new().build();
    assert!(render(&template, &ctx0) == "01 35".to_string());

    let ctx0 = MapBuilder::new().insert_vec("a", |b| b).build();
    assert!(render(&template, &ctx0) == "01 35".to_string());

    let ctx0 = MapBuilder::new()
        .insert_vec("a", |b| b.push_map(|m| m))
        .build();
    assert!(render(&template, &ctx0) == "05".to_string());

    let ctx0 = MapBuilder::new()
        .insert_vec("a", |b| b.push_map(|m| m.insert_str("n", "a")))
        .build();
    assert!(render(&template, &ctx0) == "05".to_string());
}

fn base_template() -> Template {
    compile_with(
        "<h2>Names</h2>\n{{#names}}\n  {{> user}}\n{{/names}}\n",
        &[("user", "<strong>{{name}}</strong>\n\n")],
    )
}

#[test]
fn lib_test_render_partial() {
    let template = base_template();

    let ctx0 = MapBuilder::new().build();
    assert_eq!(render(&template, &ctx0), "<h2>Names</h2>\n".to_string());

    let ctx0 = MapBuilder::new().insert_vec("names", |b| b).build();
    assert_eq!(render(&template, &ctx0), "<h2>Names</h2>\n".to_string());

    let ctx0 = MapBuilder::new()
        .insert_vec("names", |b| b.push_map(|m| m))
        .build();
    assert_eq!(
        render(&template, &ctx0),
        "<h2>Names</h2>\n  <strong></strong>\n\n".to_string()
    );

    let ctx0 = MapBuilder::new()
        .insert_vec("names", |b| b.push_map(|m| m.insert_str("name", "a")))
        .build();
    assert_eq!(
        render(&template, &ctx0),
        "<h2>Names</h2>\n  <strong>a</strong>\n\n".to_string()
    );

    let ctx0 = MapBuilder::new()
        .insert_vec("names", |b| {
            b.push_map(|m| m.insert_str("name", "a"))
                .push_map(|m| m.insert_str("name", "<b>"))
        })
        .build();
    assert_eq!(
        render(&template, &ctx0),
        "<h2>Names</h2>\n  <strong>a</strong>\n\n  <strong>&lt;b&gt;</strong>\n\n".to_string()
    );
}

#[test]
fn mustache_test_render_texts() {
    let ctx = name_world();

    assert!(render(&compile_str("hello world").unwrap(), &ctx) == "hello world");
    assert!(render(&compile_str("hello {world").unwrap(), &ctx) == "hello {world");
    assert!(render(&compile_str("hello world}").unwrap(), &ctx) == "hello world}");
    assert!(render(&compile_str("hello {world}").unwrap(), &ctx) == "hello {world}");
    assert!(render(&compile_str("hello world}}").unwrap(), &ctx) == "hello world}}");
}

#[test]
fn mustache_test_render_etags() {
    let ctx = name_world();

    assert!(render(&compile_str("hello {{name}}").unwrap(), &ctx) == "hello world");
}

#[test]
fn mustache_test_render_utags() {
    let ctx = name_world();

    assert!(render(&compile_str("hello {{{name}}}").unwrap(), &ctx) == "hello world");
}

#[test]
fn mustache_test_render_sections() {
    let template = compile_str("0{{#a}}1 {{n}} 3{{/a}}5").unwrap();

    let ctx0 = MapBuilder::new().build();
    assert!(render(&template, &ctx0) == "05");

    let ctx0 = MapBuilder::new().insert_vec("a", |b| b).build();
    assert!(render(&template, &ctx0) == "05");

    let ctx0 = MapBuilder::new()
        .insert_vec("a", |b| b.push_map(|m| m))
        .build();
    assert!(render(&template, &ctx0) == "01  35");

    let ctx0 = MapBuilder::new()
        .insert_vec("a", |b| b.push_map(|m| m.insert_str("n", "a")))
        .build();
    assert!(render(&template, &ctx0) == "01 a 35");

    let ctx0 = MapBuilder::new()
        .insert_fn("a", |text| {
            assert!(text == "1 {{n}} 3");
            "foo".to_string()
        })
        .build();
    assert!(render(&template, &ctx0) == "0foo5");
}

#[test]
fn mustache_test_render_inverted_sections() {
    let template = "0{{^a}}1 3{{/a}}5";

    let ctx0 = MapBuilder::new().build();
    assert!(render_str(template, &ctx0).unwrap() == "01 35");

    let ctx0 = MapBuilder::new().insert_vec("a", |b| b).build();
    assert!(render_str(template, &ctx0).unwrap() == "01 35");

    let ctx0 = MapBuilder::new()
        .insert_vec("a", |b| b.push_map(|m| m))
        .build();
    assert!(render_str(template, &ctx0).unwrap() == "05");

    let ctx0 = MapBuilder::new()
        .insert_vec("a", |b| b.push_map(|m| m.insert_str("n", "a")))
        .build();
    assert!(render_str(template, &ctx0).unwrap() == "05");
}

#[test]
fn mustache_test_render_partial() {
    let template = base_template();

    let ctx0 = MapBuilder::new().build();
    assert!(render(&template, &ctx0) == "<h2>Names</h2>\n");

    let ctx0 = MapBuilder::new().insert_vec("names", |b| b).build();
    assert!(render(&template, &ctx0) == "<h2>Names</h2>\n");

    let ctx0 = MapBuilder::new()
        .insert_vec("names", |b| b.push_map(|m| m))
        .build();
    assert!(render(&template, &ctx0) == "<h2>Names</h2>\n".to_string() + "  <strong></strong>\n\n");

    let ctx0 = MapBuilder::new()
        .insert_vec("names", |b| b.push_map(|m| m.insert_str("name", "a")))
        .build();
    assert!(render(&template, &ctx0) == "<h2>Names</h2>\n".to_string() + "  <strong>a</strong>\n\n");

    let ctx0 = MapBuilder::new()
        .insert_vec("names", |b| {
            b.push_map(|m| m.insert_str("name", "a"))
                .push_map(|m| m.insert_str("name", "<b>"))
        })
        .build();
    assert!(
        render(&template, &ctx0)
            == "<h2>Names</h2>\n".to_string()
                + "  <strong>a</strong>\n\n"
                + "  <strong>&lt;b&gt;</strong>\n\n"
    );
}

#[test]
fn rendering_examples() {
    let d = MapBuilder::new().insert_str("name", "world").build();
    assert_eq!(render_str("hello {{name}}", &d).unwrap(), "hello world");

    let d = MapBuilder::new().insert_str("a", "<b>").build();
    assert_eq!(render_str("<{{a}}>", &d).unwrap(), "<&lt;b&gt;>");
    assert_eq!(render_str("<{{{a}}}>", &d).unwrap(), "<<b>>");

    let d = MapBuilder::new()
        .insert_vec("a", |b| {
            b.push_map(|m| m.insert_str("n", "x"))
                .push_map(|m| m.insert_str("n", "y"))
        })
        .build();
    assert_eq!(render_str("0{{#a}}1 {{n}} 3{{/a}}5", &d).unwrap(), "01 x 31 y 35");

    let d = MapBuilder::new().insert_vec("a", |b| b).build();
    assert_eq!(render_str("0{{^a}}1{{/a}}2", &d).unwrap(), "012");

    let t = compile_with("  {{>p}}\n", &[("p", "x\ny")]);
    assert_eq!(render(&t, &MapBuilder::new().build()), "  x\n  y");

    let d = MapBuilder::new().insert_str("x", "ok").build();
    assert_eq!(render_str("{{=<% %>=}}<%x%>", &d).unwrap(), "ok");
}

#[test]
fn rooted_once_lookup() {
    let outer = MapBuilder::new()
        .insert_map("a", |m| m.insert_str("b", "1"))
        .insert_map("s", |m| m.insert_str("b", "2"))
        .build();
    assert_eq!(render_str("{{#s}}{{a.b}}{{/s}}", &outer).unwrap(), "1");
    let outer = MapBuilder::new()
        .insert_map("a", |m| m.insert_str("c", "1"))
        .insert_map("s", |m| m.insert_str("b", "2"))
        .build();
    assert_eq!(render_str("{{#s}}{{a.b}}{{/s}}", &outer).unwrap(), "");
}
