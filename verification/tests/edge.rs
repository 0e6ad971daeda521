use mustache::text::{from_chars, is_whitespace, path_of, same_path, same_text, to_chars, trim};
use mustache::render_model::MAX_DEPTH;
use mustache::{compile_str, render_str, Compiler, Context, Data, MapBuilder, Template, Token};

fn render(template: &Template, data: &Data) -> String {
    let mut out = String::new();
    template.render_data(&mut out, data).unwrap();
    out
}

fn compile_with(src: &str, partials: &[(&str, &str)]) -> Template {
    let mut compiler = Compiler::new(Context::new(".".to_string()), src.chars().collect()).unwrap();
    while let Some(name) = compiler.next_partial() {
        let source = partials.iter().find(|(n, _)| *n == name).map(|(_, s)| *s);
        compiler.supply(&name, source).unwrap();
    }
    compiler.finish()
}

fn empty() -> Data {
    MapBuilder::new().build()
}

#[test]
fn text_helpers() {
    assert_eq!(to_chars("a\u{e9}b"), vec!['a', '\u{e9}', 'b']);
    assert_eq!(from_chars(&vec!['a', '\u{e9}', 'b']), "a\u{e9}b");
    assert!(same_text(&"ab".to_string(), &"ab".to_string()));
    assert!(!same_text(&"ab".to_string(), &"ac".to_string()));
    assert!(!same_text(&"ab".to_string(), &"abc".to_string()));
    assert!(same_path(&vec!["a".to_string(), "b".to_string()], &vec!["a".to_string(), "b".to_string()]));
    assert!(!same_path(&vec!["a".to_string()], &vec!["a".to_string(), "b".to_string()]));
    assert!(!same_path(&vec!["a".to_string()], &vec!["b".to_string()]));
    assert!(is_whitespace(' '));
    assert!(is_whitespace('\t'));
    assert!(is_whitespace('\n'));
    assert!(is_whitespace('\r'));
    assert!(is_whitespace('\u{a0}'));
    assert!(is_whitespace('\u{2003}'));
    assert!(is_whitespace('\u{3000}'));
    assert!(!is_whitespace('a'));
    assert!(!is_whitespace('\u{200b}'));
    for c in ['\u{0}', ' ', 'a', '\u{85}', '\u{1680}', '\u{2028}', '\u{202f}', '\u{205f}', '\u{feff}'] {
        assert_eq!(is_whitespace(c), c.is_whitespace());
    }
    assert_eq!(trim("  a b \t"), "a b");
    assert_eq!(trim("a"), "a");
    assert_eq!(trim("   "), "");
    assert_eq!(trim(""), "");
    assert_eq!(trim("\n x\u{a0}"), "x");
}

#[test]
fn paths() {
    let p = |s: &str| path_of(s);
    assert_eq!(p("a"), vec!["a"]);
    assert_eq!(p("a.b.c"), vec!["a", "b", "c"]);
    assert_eq!(p("."), Vec::<String>::new());
    assert_eq!(p("a."), vec!["a"]);
    assert_eq!(p("a..b"), vec!["a", "", "b"]);
    assert_eq!(p(".a"), vec!["", "a"]);
}

#[test]
fn dot_names_the_top_of_the_stack() {
    let wrapped = MapBuilder::new().insert_vec("xs", |b| b.push_str("a").push_str("<")).build();
    assert_eq!(render_str("{{#xs}}({{.}}){{/xs}}", &wrapped).unwrap(), "(a)(&lt;)");
    assert_eq!(render_str("{{#xs}}({{{.}}}){{/xs}}", &wrapped).unwrap(), "(a)(<)");
    assert_eq!(render_str("{{#xs}}({{&.}}){{/xs}}", &wrapped).unwrap(), "(a)(<)");
    assert_eq!(
        compile_str("{{.}}").unwrap().tokens()[0],
        Token::EscapedTag(vec![], "{{.}}".to_string())
    );
}

#[test]
fn dotted_names() {
    let d = MapBuilder::new()
        .insert_map("a", |m| m.insert_map("b", |m| m.insert_str("c", "deep")))
        .build();
    assert_eq!(render_str("{{a.b.c}}", &d).unwrap(), "deep");
    assert_eq!(render_str("{{a.b.x}}", &d).unwrap(), "");
    assert_eq!(render_str("{{a.x.c}}", &d).unwrap(), "");
    assert_eq!(render_str("{{#a.b}}{{c}}{{/a.b}}", &d).unwrap(), "deep");
    assert_eq!(render_str("{{#a}}{{b.c}}{{/a}}", &d).unwrap(), "deep");
}

#[test]
fn missing_values_render_nothing() {
    assert_eq!(render_str("a{{x}}b{{{y}}}c{{&z}}d", &empty()).unwrap(), "abcd");
    assert_eq!(render_str("a{{#x}}no{{/x}}b", &empty()).unwrap(), "ab");
    assert_eq!(render_str("a{{>nothing}}b", &empty()).unwrap(), "ab");
}

#[test]
fn escaping() {
    let d = MapBuilder::new().insert_str("a", "<>&\"'x").build();
    assert_eq!(render_str("{{a}}", &d).unwrap(), "&lt;&gt;&amp;&quot;&#39;x");
    assert_eq!(render_str("{{{a}}}", &d).unwrap(), "<>&\"'x");
    assert_eq!(render_str("{{&a}}", &d).unwrap(), "<>&\"'x");
    assert_eq!(render_str("{{& a }}", &d).unwrap(), "<>&\"'x");
}

#[test]
fn sections_by_kind() {
    let d = MapBuilder::new()
        .insert_bool("t", true)
        .insert_bool("f", false)
        .insert_str("s", "text")
        .insert_str("e", "")
        .insert_map("m", |m| m.insert_str("k", "v"))
        .insert_vec("l", |b| b.push_bool(true).push_bool(false))
        .build();
    assert_eq!(render_str("{{#t}}y{{/t}}", &d).unwrap(), "y");
    assert_eq!(render_str("{{#f}}y{{/f}}", &d).unwrap(), "");
    assert_eq!(render_str("{{#s}}[{{.}}]{{/s}}", &d).unwrap(), "[text]");
    assert_eq!(render_str("{{#e}}y{{/e}}", &d).unwrap(), "");
    assert_eq!(render_str("{{#m}}{{k}}{{/m}}", &d).unwrap(), "v");
    assert_eq!(render_str("{{#l}}x{{/l}}", &d).unwrap(), "xx");
    assert_eq!(render_str("{{^t}}y{{/t}}", &d).unwrap(), "");
    assert_eq!(render_str("{{^f}}y{{/f}}", &d).unwrap(), "y");
    assert_eq!(render_str("{{^s}}y{{/s}}", &d).unwrap(), "");
    assert_eq!(render_str("{{^e}}y{{/e}}", &d).unwrap(), "");
    assert_eq!(render_str("{{^m}}y{{/m}}", &d).unwrap(), "");
    assert_eq!(render_str("{{^l}}y{{/l}}", &d).unwrap(), "");
    assert_eq!(render_str("{{^missing}}y{{/missing}}", &d).unwrap(), "y");
}

#[test]
fn optional_values() {
    let mut m = mustache::DataMap::new();
    m.insert("none".to_string(), Data::Opt(None));
    m.insert("some".to_string(), Data::Opt(Some(Box::new(Data::Str("s".to_string())))));
    m.insert(
        "nested".to_string(),
        Data::Opt(Some(Box::new(Data::Opt(Some(Box::new(Data::Str("n".to_string()))))))),
    );
    let d = Data::Dict(m);
    assert_eq!(render_str("[{{none}}][{{some}}][{{nested}}]", &d).unwrap(), "[][s][n]");
    assert_eq!(render_str("{{#none}}y{{/none}}", &d).unwrap(), "");
    assert_eq!(render_str("{{#some}}{{.}}{{/some}}", &d).unwrap(), "s");
    assert_eq!(render_str("{{^none}}y{{/none}}", &d).unwrap(), "y");
    assert_eq!(render_str("{{^some}}y{{/some}}", &d).unwrap(), "");
}

#[test]
fn standalone_lines() {
    assert_eq!(
        render_str("Begin.\n{{! Comment Block! }}\nEnd.\n", &empty()).unwrap(),
        "Begin.\nEnd.\n"
    );
    assert_eq!(
        render_str("Begin.\n  {{! Indented Comment Block! }}\nEnd.\n", &empty()).unwrap(),
        "Begin.\nEnd.\n"
    );
    assert_eq!(
        render_str("|\r\n{{! Standalone Comment }}\r\n|", &empty()).unwrap(),
        "|\r\n|"
    );
    assert_eq!(render_str("  {{! I'm Still Standalone }}\n!", &empty()).unwrap(), "!");
    assert_eq!(render_str("!\n  {{! I'm Still Standalone }}", &empty()).unwrap(), "!\n");
    assert_eq!(
        render_str("  12 {{! 34 }}\n", &empty()).unwrap(),
        "  12 \n"
    );
    let d = MapBuilder::new().insert_bool("boolean", true).build();
    assert_eq!(
        render_str("| This Is\n{{#boolean}}\n|\n{{/boolean}}\n| A Line\n", &d).unwrap(),
        "| This Is\n|\n| A Line\n"
    );
    assert_eq!(
        render_str("Begin.\n{{=@ @=}}\nEnd.\n", &empty()).unwrap(),
        "Begin.\nEnd.\n"
    );
}

#[test]
fn delimiters() {
    let d = MapBuilder::new().insert_str("text", "Hey!").build();
    assert_eq!(render_str("{{=<% %>=}}(<%text%>)", &d).unwrap(), "(Hey!)");
    assert_eq!(render_str("({{=[ ]=}}[text])", &d).unwrap(), "(Hey!)");
    assert_eq!(
        render_str("{{= | | =}}|text|{{text}}", &d).unwrap(),
        "Hey!{{text}}"
    );
    assert_eq!(
        render_str("[{{text}}]{{=<% %>=}}[<%text%>]<%={{ }}=%>[{{text}}]", &d).unwrap(),
        "[Hey!][Hey!][Hey!]"
    );
    let t = compile_str("{{=<% %>=}}<%#a%>x<%/a%>").unwrap();
    match &t.tokens()[0] {
        Token::Section(_, _, _, otag, _, src, _, ctag) => {
            assert_eq!(otag, "<%");
            assert_eq!(ctag, "%>");
            assert_eq!(src, "x");
        }
        other => panic!("{:?}", other),
    }
}

#[test]
fn partials_keep_their_indent() {
    let t = compile_with("\\\n {{>partial}}\n/\n", &[("partial", "|\n{{{content}}}\n|\n")]);
    let d = MapBuilder::new().insert_str("content", "<\n->").build();
    assert_eq!(render(&t, &d), "\\\n |\n <\n->\n |\n/\n");
    let t = compile_with("  {{>partial}}\n>", &[("partial", ">\n>")]);
    assert_eq!(render(&t, &empty()), "  >\n  >>");
    let t = compile_with("|{{> partial }}|", &[("partial", "[]")]);
    assert_eq!(render(&t, &empty()), "|[]|");
    match &t.tokens()[1] {
        Token::Partial(name, indent, src) => {
            assert_eq!(name, "partial");
            assert_eq!(indent, "");
            assert_eq!(src, "{{> partial }}");
        }
        other => panic!("{:?}", other),
    }
    assert_eq!(t.partial("partial").unwrap().len(), 1);
    assert!(t.partial("other").is_none());
}

#[test]
fn partials_of_partials() {
    let t = compile_with(
        "{{>a}}",
        &[("a", "a[{{>b}}{{>c}}]"), ("b", "b({{>c}})"), ("c", "c")],
    );
    assert_eq!(render(&t, &empty()), "a[b(c)c]");
    let mut c = Compiler::new(Context::new(".".to_string()), "{{>a}}{{>z}}".chars().collect()).unwrap();
    let mut asked = Vec::new();
    while let Some(name) = c.next_partial() {
        asked.push(name.clone());
        let src = match name.as_str() {
            "a" => Some("{{>b}}{{>c}}"),
            "b" => Some("{{>c}}{{>a}}"),
            _ => None,
        };
        c.supply(&name, src).unwrap();
    }
    assert_eq!(asked, vec!["a", "b", "c", "z"]);
}

#[test]
fn recursive_partials_over_data() {
    let t = compile_with(
        "{{>node}}",
        &[("node", "{{content}}<{{#nodes}}{{>node}}{{/nodes}}>")],
    );
    let d = MapBuilder::new()
        .insert_str("content", "X")
        .insert_vec("nodes", |b| {
            b.push_map(|m| m.insert_str("content", "Y").insert_vec("nodes", |b| b))
        })
        .build();
    assert_eq!(render(&t, &d), "X<Y<>>");
}

#[test]
fn test_spec_lambdas() {
    // Interpolation
    let d = MapBuilder::new().insert_fn("lambda", |_| "world".to_string()).build();
    assert_eq!(render_str("Hello, {{lambda}}!", &d).unwrap(), "Hello, world!");

    let d = MapBuilder::new()
        .insert_str("planet", "world")
        .insert_fn("lambda", |_| "{{planet}}".to_string())
        .build();
    assert_eq!(render_str("Hello, {{lambda}}!", &d).unwrap(), "Hello, world!");

    let d = MapBuilder::new()
        .insert_str("planet", "world")
        .insert_fn("lambda", |_| "|planet| => {{planet}}".to_string())
        .build();
    assert_eq!(
        render_str("{{= | | =}}\nHello, (|&lambda|)!", &d).unwrap(),
        "Hello, (|planet| => world)!"
    );

    let mut calls = 0;
    let d = MapBuilder::new()
        .insert_fn("lambda", move |_| {
            calls += 1;
            calls.to_string()
        })
        .build();
    assert_eq!(
        render_str("{{lambda}} == {{{lambda}}} == {{lambda}}", &d).unwrap(),
        "1 == 2 == 3"
    );

    let d = MapBuilder::new().insert_fn("lambda", |_| ">".to_string()).build();
    assert_eq!(render_str("<{{lambda}}{{{lambda}}}", &d).unwrap(), "<&gt;>");

    let d = MapBuilder::new()
        .insert_str("x", "Error!")
        .insert_fn("lambda", |text| if text == "{{x}}" { "yes".to_string() } else { "no".to_string() })
        .build();
    assert_eq!(render_str("<{{#lambda}}{{x}}{{/lambda}}>", &d).unwrap(), "<yes>");

    let d = MapBuilder::new()
        .insert_str("planet", "Earth")
        .insert_fn("lambda", |text| format!("{}{}{}", text, "{{planet}}", text))
        .build();
    assert_eq!(render_str("<{{#lambda}}-{{/lambda}}>", &d).unwrap(), "<-Earth->");

    let d = MapBuilder::new()
        .insert_str("planet", "Earth")
        .insert_fn("lambda", |text| format!("{}{}{}", text, "{{planet}} => |planet|", text))
        .build();
    assert_eq!(
        render_str("{{= | | =}}<|#lambda|-|/lambda|>", &d).unwrap(),
        "<-{{planet}} => Earth->"
    );

    let d = MapBuilder::new()
        .insert_fn("lambda", |text| format!("__{}__", text))
        .build();
    assert_eq!(
        render_str("{{#lambda}}FILE{{/lambda}} != {{#lambda}}LINE{{/lambda}}", &d).unwrap(),
        "__FILE__ != __LINE__"
    );

    // Inverted Section
    let d = MapBuilder::new()
        .insert_str("static", "static")
        .insert_fn("lambda", |_| String::new())
        .build();
    assert_eq!(render_str("<{{^lambda}}{{static}}{{/lambda}}>", &d).unwrap(), "<>");
}

#[test]
fn expansion_of_an_answer() {
    let t = compile_with("", &[]);
    let d = MapBuilder::new().insert_str("planet", "Earth").build();
    let mut out = String::new();
    t.render_expansion(&mut out, &d, "-|planet|-{{planet}}", "|", "|").unwrap();
    assert_eq!(out, "-Earth-{{planet}}");
    let mut out = String::new();
    assert!(t.render_expansion(&mut out, &d, "{{#a}}", "{{", "}}").is_err());
}

#[test]
fn same_source_same_output() {
    let src = "a{{#l}}<{{x}}>{{/l}}{{^m}}-{{/m}}\n  {{! c }}\nz";
    let d = MapBuilder::new()
        .insert_vec("l", |b| b.push_map(|m| m.insert_str("x", "1")).push_map(|m| m.insert_str("x", "&")))
        .build();
    let once = render(&compile_str(src).unwrap(), &d);
    let again = render(&compile_str(src).unwrap(), &d);
    assert_eq!(once, again);
    assert_eq!(once, "a<1><&amp;>-\nz");
    assert_eq!(*compile_str(src).unwrap().tokens(), *compile_str(src).unwrap().tokens());
}

#[test]
fn comment_alone_on_its_line_leaves_no_trace() {
    let d = empty();
    assert_eq!(
        render_str("one\n  {{! note }}\ntwo", &d).unwrap(),
        render_str("one\ntwo", &d).unwrap()
    );
    assert_eq!(
        render_str("{{! note }}\ntwo", &d).unwrap(),
        render_str("two", &d).unwrap()
    );
    assert_eq!(
        render_str("one\n{{! note }}", &d).unwrap(),
        render_str("one\n", &d).unwrap()
    );
}

#[test]
fn section_over_a_list_is_the_body_for_each_item() {
    let body = "1 {{n}} 3";
    let item = |n: &str| MapBuilder::new().insert_str("n", n).build();
    let d = MapBuilder::new()
        .insert_vec("list", |b| {
            b.push_map(|m| m.insert_str("n", "a"))
                .push_map(|m| m.insert_str("n", "b"))
                .push_map(|m| m.insert_str("n", "c"))
        })
        .build();
    let whole = render_str(&format!("{{{{#list}}}}{}{{{{/list}}}}", body), &d).unwrap();
    let parts = render_str(body, &item("a")).unwrap()
        + &render_str(body, &item("b")).unwrap()
        + &render_str(body, &item("c")).unwrap();
    assert_eq!(whole, parts);
    assert_eq!(whole, "1 a 31 b 31 c 3");
}

#[test]
fn context_file_names() {
    let ctx = Context::new("templates".to_string());
    assert_eq!(ctx.template_path, "templates");
    assert_eq!(ctx.template_extension, "mustache");
    assert_eq!(ctx.file_name("user"), "user.mustache");
}

#[test]
fn indent_goes_before_what_starts_a_line() {
    let t = compile_with("  {{>p}}\n", &[("p", "{{a}}x\n{{{a}}}y\n")]);
    let d = MapBuilder::new().insert_str("a", "").build();
    assert_eq!(render(&t, &d), "  x\n  y\n");
    let d = MapBuilder::new().insert_str("a", "v").build();
    assert_eq!(render(&t, &d), "  vx\n  vy\n");
    let d = MapBuilder::new().insert_str("a", "\nq").build();
    assert_eq!(render(&t, &d), "\nqx\n\nqy\n");
    let d = MapBuilder::new().insert_str("a", "1\n2").build();
    assert_eq!(render(&t, &d), "  1\n2x\n  1\n2y\n");
    let d = MapBuilder::new().insert_fn("a", |_| "L".to_string()).build();
    assert_eq!(render(&t, &d), "  Lx\n  Ly\n");
    let t = compile_with(" {{>p}}\n", &[("p", "a\n\nb\n")]);
    assert_eq!(render(&t, &empty()), " a\n\n b\n");
}

#[test]
fn tag_after_a_removed_line_stands_alone() {
    // Once a line is removed, the next line begins where it ended: a tag
    // alone on that line, after whitespace, goes with its line too.
    assert_eq!(
        render_str("a\n{{! c }}\n  {{! d }}\nb", &empty()).unwrap(),
        "a\nb"
    );
    assert_eq!(render_str("a\n  {{! d }}\nb", &empty()).unwrap(), "a\nb");
    assert_eq!(
        render_str("{{#t}}\n  {{#t}}\nx\n  {{/t}}\n{{/t}}\n", &truthy()).unwrap(),
        "x\n"
    );
    // After a tag that shares its line with text, whitespace does not make
    // the next tag stand alone.
    assert_eq!(render_str("{{x}} {{! d }}\nb", &empty()).unwrap(), " \nb");
    assert_eq!(render_str("{{! c }} {{! d }}\nb", &empty()).unwrap(), " \nb");
}

fn truthy() -> Data {
    MapBuilder::new().insert_bool("t", true).build()
}

#[test]
fn whitespace_after_a_tag_that_stands_alone() {
    assert_eq!(render_str("a\n{{!c}}  \nb", &empty()).unwrap(), "a\nb");
    assert_eq!(render_str("a\n{{!c}}\t \r\nb", &empty()).unwrap(), "a\nb");
    assert_eq!(render_str("a\n  {{!c}}  \nb", &empty()).unwrap(), "a\nb");
    assert_eq!(render_str("a\n{{!c}}  ", &empty()).unwrap(), "a\n");
    assert_eq!(render_str("{{!c}}  \nb", &empty()).unwrap(), "b");
    assert_eq!(render_str("a\n{{!c}}\r\nb", &empty()).unwrap(), "a\nb");
    assert_eq!(
        render_str("a\n{{#t}} \nx\n{{/t}}\t\nb", &truthy()).unwrap(),
        "a\nx\nb"
    );
    assert_eq!(render_str("a\n{{=<% %>=}}  \n<%! c %>b", &empty()).unwrap(), "a\nb");
    // Text on the line keeps the line: only the comment goes.
    assert_eq!(render_str("a {{!c}}  \nb", &empty()).unwrap(), "a   \nb");
    assert_eq!(render_str("a\n{{!c}}  x\nb", &empty()).unwrap(), "a\n  x\nb");
    // A carriage return without a line feed ends no line.
    assert_eq!(render_str("a\n{{!c}}\rb", &empty()).unwrap(), "a\n\rb");
}

#[test]
fn partial_with_whitespace_after_it_keeps_its_indent() {
    let t = compile_with("a\n  {{>p}} \t\nb", &[("p", "x\ny\n")]);
    assert_eq!(t.tokens()[1], Token::Partial("p".to_string(), "  ".to_string(), "{{>p}}".to_string()));
    assert_eq!(render(&t, &empty()), "a\n  x\n  y\nb");
}

#[test]
fn closing_delimiter_of_three_characters() {
    let d = MapBuilder::new().insert_str("x", "v").build();
    assert_eq!(render_str("{{=<% %>>=}}<%x%>>", &d).unwrap(), "v");
    assert_eq!(render_str("{{=<% %>>=}}a<%x%>>b<%! c %>>d", &d).unwrap(), "avbd");
    assert_eq!(render_str("{{=[[[ ]]]=}}[[[x]]]-[[[&x]]]", &d).unwrap(), "v-v");
    assert_eq!(
        render_str("{{=<% %>>=}}<%x%>y", &d),
        Err(mustache::Error::UnbalancedTripleMustache)
    );
}

#[test]
fn stack_of_two_frames() {
    let outer = MapBuilder::new()
        .insert_map("a", |m| m.insert_str("b", "1"))
        .insert_str("b", "o")
        .insert_str("c", "out")
        .build();
    let inner = MapBuilder::new()
        .insert_map("a", |m| m.insert_str("z", "3"))
        .insert_str("b", "i")
        .build();
    let t = compile_str("{{a.b}}|{{b}}|{{c}}|{{{c}}}").unwrap();
    // The last frame is looked at first, and a dotted name does not go back
    // to an outer frame once its first part is found.
    let mut out = String::new();
    let (res, calls) = t.render_stack(&mut out, vec![&outer, &inner], "", MAX_DEPTH);
    assert_eq!(res, Ok(()));
    assert!(calls.is_empty());
    assert_eq!(out, "|i|out|out");
    let mut out = String::new();
    let (res, _) = t.render_stack(&mut out, vec![&inner, &outer], "", MAX_DEPTH);
    assert_eq!(res, Ok(()));
    assert_eq!(out, "1|o|out|out");
    let mut out = String::new();
    let (res, _) = t.render_stack(&mut out, Vec::new(), "", MAX_DEPTH);
    assert_eq!(res, Ok(()));
    assert_eq!(out, "|||");
}

#[test]
fn rendering_under_an_indent() {
    let d = MapBuilder::new().insert_str("x", "v").build();
    let t = compile_str("a\n\n{{x}}\nb").unwrap();
    let mut out = String::from(">");
    let (res, _) = t.render_stack(&mut out, vec![&d], "  ", MAX_DEPTH);
    assert_eq!(res, Ok(()));
    assert_eq!(out, ">  a\n\n  v\n  b");
}

#[test]
fn rendering_to_a_given_depth() {
    let t = compile_with("{{>p}}", &[("p", "x{{>p}}")]);
    let d = empty();
    for depth in [0usize, 1, 3, 10] {
        let mut out = String::new();
        let (res, calls) = t.render_stack(&mut out, vec![&d], "", depth);
        assert_eq!(res, Err(mustache::Error::RecursionLimit));
        assert!(calls.is_empty());
        assert_eq!(out, "x".repeat(depth));
    }
    let flat = compile_with("{{>q}}!", &[("q", "y")]);
    let mut out = String::new();
    assert_eq!(flat.render_stack(&mut out, vec![&d], "", 1).0, Ok(()));
    assert_eq!(out, "y!");
}

#[test]
fn calls_of_lambdas_are_returned_in_order() {
    let d = MapBuilder::new()
        .insert_fn("up", |s| s.to_uppercase())
        .insert_fn("twice", |s| format!("{}{}", s, s))
        .insert_str("n", "x")
        .build();
    let t = compile_str("{{#up}}a{{n}}{{/up}}-{{#twice}}b{{/twice}}-{{up}}").unwrap();
    let mut out = String::new();
    let (res, calls) = t.render_stack(&mut out, vec![&d], "", MAX_DEPTH);
    assert_eq!(res, Ok(()));
    assert_eq!(out, "A-bb-");
    assert_eq!(
        calls,
        vec![
            ("a{{n}}".to_string(), "A{{N}}".to_string()),
            ("b".to_string(), "bb".to_string()),
            ("".to_string(), "".to_string()),
        ]
    );
}

#[test]
fn recompiled_template_renders_alike_with_lambdas() {
    let src = "{{#wrap}}<{{n}}>{{/wrap}} {{n}} {{wrap}}";
    let make = || {
        MapBuilder::new()
            .insert_fn("wrap", |s| format!("[{}]", s))
            .insert_str("n", "a&b")
            .build()
    };
    let (d1, d2) = (make(), make());
    let (t1, t2) = (compile_str(src).unwrap(), compile_str(src).unwrap());
    let (mut o1, mut o2) = (String::new(), String::new());
    let (r1, c1) = t1.render_stack(&mut o1, vec![&d1], "", MAX_DEPTH);
    let (r2, c2) = t2.render_stack(&mut o2, vec![&d2], "", MAX_DEPTH);
    assert_eq!(c1, c2);
    assert_eq!(r1, r2);
    assert_eq!(o1, o2);
    assert_eq!(o1, "[<a&amp;b>] a&amp;b []");
}

#[test]
fn comparing_values() {
    let a = MapBuilder::new()
        .insert_str("s", "x")
        .insert_vec("v", |v| v.push_bool(true).push_str("y"))
        .build();
    let b = MapBuilder::new()
        .insert_vec("v", |v| v.push_bool(true).push_str("y"))
        .insert_str("s", "x")
        .build();
    let c = MapBuilder::new().insert_str("s", "x").build();
    assert!(a.equals(&b));
    assert!(b.equals(&a));
    assert!(!a.equals(&c));
    assert!(!c.equals(&a));
    assert!(!Data::Str("x".to_string()).equals(&Data::Bool(true)));
    assert!(Data::Opt(None).equals(&Data::Opt(None)));
    assert!(!Data::Opt(None).equals(&Data::Opt(Some(Box::new(Data::Bool(true))))));
    // A callable against a value of another variant is different from it.
    let f = MapBuilder::new().insert_fn("f", |s| s).build();
    let g = MapBuilder::new().insert_str("f", "x").build();
    assert!(!f.equals(&g));
    assert!(!g.equals(&f));
}

#[test]
fn a_key_inserted_again_moves_to_the_end() {
    let mut m = mustache::DataMap::new();
    assert!(m.insert("a".to_string(), Data::Bool(true)).is_none());
    assert!(m.insert("b".to_string(), Data::Bool(false)).is_none());
    assert_eq!(Data::Dict(m).describe(), "Map({a: Bool(true), b: Bool(false)})");
    let mut m = mustache::DataMap::new();
    m.insert("a".to_string(), Data::Bool(true));
    m.insert("b".to_string(), Data::Bool(false));
    assert!(m.insert("a".to_string(), Data::Str("z".to_string())) == Some(Data::Bool(true)));
    assert_eq!(m.len(), 2);
    assert_eq!(Data::Dict(m).describe(), "Map({b: Bool(false), a: Str(z)})");
}

#[test]
fn comment_line_leaves_no_trace_before_tags() {
    let data = MapBuilder::new()
        .insert_vec("l", |v| {
            v.push_map(|m| m.insert_str("x", "1"))
                .push_map(|m| m.insert_str("x", "<2>"))
        })
        .insert_bool("t", true)
        .insert_fn("f", |s| format!("({})", s))
        .build();
    let rests = [
        "{{#l}}\n  {{x}}\n{{/l}}\nend",
        "  {{#t}}\nyes\n  {{/t}}\n",
        "{{x}}{{^t}}no{{/t}}\n",
        " \t{{! another }}\nz",
        "{{=<% %>=}}\n<%#l%><%x%>,<%/l%>",
        "{{#f}}a{{#t}}b{{/t}}\n{{/f}}",
        "  {{>p}}\nafter",
        "plain",
        "",
    ];
    let lines = ["{{! c }}\n", "  {{!c}} \t\r\n", "\t{{! a\nb }}  \n", "{{!c}} \r\n"];
    let befores = [
        "",
        "first\n",
        "a\n\n",
        "{{#t}}\nin\n{{/t}}\n",
        "{{x}} b\n",
        "  {{>p}}\n",
        "{{#l}}{{x}}{{/l}}\n",
    ];
    for pre in befores {
        for line in lines {
            for rest in rests {
                let with = format!("{}{}{}", pre, line, rest);
                let without = format!("{}{}", pre, rest);
                let a = compile_with(&with, &[("p", "x\n{{#l}}{{x}}{{/l}}\n")]);
                let b = compile_with(&without, &[("p", "x\n{{#l}}{{x}}{{/l}}\n")]);
                let (mut o1, mut o2) = (String::new(), String::new());
                let (r1, c1) = a.render_stack(&mut o1, vec![&data], "", MAX_DEPTH);
                let (r2, c2) = b.render_stack(&mut o2, vec![&data], "", MAX_DEPTH);
                assert_eq!(r1, r2, "{:?}", with);
                assert_eq!(o1, o2, "{:?}", with);
                assert_eq!(c1, c2, "{:?}", with);
            }
        }
    }
    // At the end of the template no line end is needed.
    assert_eq!(render_str("a\n  {{! c }}  ", &data).unwrap(), "a\n");
    assert_eq!(
        render_str("a\n{{! c }}\n{{#l}}\n{{x}}\n{{/l}}\n", &data).unwrap(),
        "a\n1\n&lt;2&gt;\n"
    );
}
