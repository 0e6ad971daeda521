use mustache::{render_str, Compiler, Context, Data, MapBuilder};

fn empty() -> Data {
    MapBuilder::new().build()
}

fn render(template: &str, data: &Data) -> String {
    render_str(template, data).unwrap()
}

fn render_with(template: &str, partials: &[(&str, &str)], data: &Data) -> String {
    let mut compiler =
        Compiler::new(Context::new(".".to_string()), template.chars().collect()).unwrap();
    while let Some(name) = compiler.next_partial() {
        let source = partials.iter().find(|(n, _)| *n == name).map(|(_, s)| *s);
        compiler.supply(&name, source).unwrap();
    }
    let mut out = String::new();
    compiler.finish().render_data(&mut out, data).unwrap();
    out
}

#[test]
fn suite_comments() {
    let d = empty();
    assert_eq!(render("12345{{! Comment Block! }}67890", &d), "1234567890");
    assert_eq!(
        render("12345{{!\n  This is a\n  multi-line comment...\n}}67890\n", &d),
        "1234567890\n"
    );
    assert_eq!(render("Begin.\n{{! Comment Block! }}\nEnd.\n", &d), "Begin.\nEnd.\n");
    assert_eq!(
        render("Begin.\n  {{! Indented Comment Block! }}\nEnd.\n", &d),
        "Begin.\nEnd.\n"
    );
    assert_eq!(render("|\r\n{{! Standalone Comment }}\r\n|", &d), "|\r\n|");
    assert_eq!(render("  {{! I'm Still Standalone }}\n!", &d), "!");
    assert_eq!(render("!\n  {{! I'm Still Standalone }}", &d), "!\n");
    assert_eq!(
        render("Begin.\n{{!\nSomething's going on here...\n}}\nEnd.\n", &d),
        "Begin.\nEnd.\n"
    );
    assert_eq!(
        render("Begin.\n  {{!\n    Something's going on here...\n  }}\nEnd.\n", &d),
        "Begin.\nEnd.\n"
    );
    assert_eq!(render("  12 {{! 34 }}\n", &d), "  12 \n");
    assert_eq!(render("12345 {{! Comment Block! }} 67890", &d), "12345  67890");
}

#[test]
fn suite_interpolation() {
    let d = empty();
    assert_eq!(render("Hello from {Mustache}!\n", &d), "Hello from {Mustache}!\n");
    let d = MapBuilder::new().insert_str("subject", "world").build();
    assert_eq!(render("Hello, {{subject}}!\n", &d), "Hello, world!\n");
    let d = MapBuilder::new().insert_str("forbidden", "& \" < >").build();
    assert_eq!(
        render("These characters should be HTML escaped: {{forbidden}}\n", &d),
        "These characters should be HTML escaped: &amp; &quot; &lt; &gt;\n"
    );
    assert_eq!(
        render("These characters should not be HTML escaped: {{{forbidden}}}\n", &d),
        "These characters should not be HTML escaped: & \" < >\n"
    );
    assert_eq!(
        render("These characters should not be HTML escaped: {{&forbidden}}\n", &d),
        "These characters should not be HTML escaped: & \" < >\n"
    );
    let d = MapBuilder::new().insert_str("mph", "85").build();
    assert_eq!(render("\"{{mph}} miles an hour!\"", &d), "\"85 miles an hour!\"");
    assert_eq!(render("\"{{{mph}}} miles an hour!\"", &d), "\"85 miles an hour!\"");
    assert_eq!(render("\"{{&mph}} miles an hour!\"", &d), "\"85 miles an hour!\"");
    let d = empty();
    assert_eq!(render("I ({{cannot}}) be seen!", &d), "I () be seen!");
    assert_eq!(render("I ({{{cannot}}}) be seen!", &d), "I () be seen!");
    assert_eq!(render("I ({{&cannot}}) be seen!", &d), "I () be seen!");

    let d = MapBuilder::new()
        .insert_map("person", |m| m.insert_str("name", "Joe"))
        .build();
    assert_eq!(
        render("\"{{person.name}}\" == \"{{#person}}{{name}}{{/person}}\"", &d),
        "\"Joe\" == \"Joe\""
    );
    assert_eq!(
        render("\"{{{person.name}}}\" == \"{{#person}}{{{name}}}{{/person}}\"", &d),
        "\"Joe\" == \"Joe\""
    );
    assert_eq!(
        render("\"{{&person.name}}\" == \"{{#person}}{{&name}}{{/person}}\"", &d),
        "\"Joe\" == \"Joe\""
    );
    let deep = |name: &'static str| {
        move |m: MapBuilder| {
            m.insert_map("c", move |m| {
                m.insert_map("d", move |m| m.insert_map("e", move |m| m.insert_str("name", name)))
            })
        }
    };
    let d = MapBuilder::new()
        .insert_map("a", |m| m.insert_map("b", deep("Phil")))
        .build();
    assert_eq!(render("\"{{a.b.c.d.e.name}}\" == \"Phil\"", &d), "\"Phil\" == \"Phil\"");
    let d = MapBuilder::new().insert_map("a", |m| m).build();
    assert_eq!(render("\"{{a.b.c}}\" == \"\"", &d), "\"\" == \"\"");
    let d = MapBuilder::new()
        .insert_map("a", |m| m.insert_map("b", |m| m))
        .insert_map("c", |m| m.insert_str("name", "Jim"))
        .build();
    assert_eq!(render("\"{{a.b.c.name}}\" == \"\"", &d), "\"\" == \"\"");
    let d = MapBuilder::new()
        .insert_map("a", |m| m.insert_map("b", deep("Phil")))
        .insert_map("b", deep("Wrong"))
        .build();
    assert_eq!(
        render("\"{{#a}}{{b.c.d.e.name}}{{/a}}\" == \"Phil\"", &d),
        "\"Phil\" == \"Phil\""
    );
    let d = MapBuilder::new()
        .insert_map("a", |m| m.insert_map("b", |m| m))
        .insert_map("b", |m| m.insert_str("c", "ERROR"))
        .build();
    assert_eq!(render("{{#a}}{{b.c}}{{/a}}", &d), "");

    let d = MapBuilder::new().insert_str("string", "---").build();
    assert_eq!(render("| {{string}} |", &d), "| --- |");
    assert_eq!(render("| {{{string}}} |", &d), "| --- |");
    assert_eq!(render("| {{&string}} |", &d), "| --- |");
    assert_eq!(render("  {{string}}\n", &d), "  ---\n");
    assert_eq!(render("  {{{string}}}\n", &d), "  ---\n");
    assert_eq!(render("  {{&string}}\n", &d), "  ---\n");
    assert_eq!(render("|{{ string }}|", &d), "|---|");
    assert_eq!(render("|{{{ string }}}|", &d), "|---|");
    assert_eq!(render("|{{& string }}|", &d), "|---|");
}

#[test]
fn suite_sections() {
    let t = MapBuilder::new().insert_bool("boolean", true).build();
    let f = MapBuilder::new().insert_bool("boolean", false).build();
    assert_eq!(
        render("\"{{#boolean}}This should be rendered.{{/boolean}}\"", &t),
        "\"This should be rendered.\""
    );
    assert_eq!(
        render("\"{{#boolean}}This should not be rendered.{{/boolean}}\"", &f),
        "\"\""
    );
    let d = MapBuilder::new()
        .insert_map("context", |m| m.insert_str("name", "Joe"))
        .build();
    assert_eq!(render("\"{{#context}}Hi {{name}}.{{/context}}\"", &d), "\"Hi Joe.\"");
    let d = MapBuilder::new()
        .insert_vec("list", |b| {
            b.push_map(|m| m.insert_str("item", "1"))
                .push_map(|m| m.insert_str("item", "2"))
                .push_map(|m| m.insert_str("item", "3"))
        })
        .build();
    assert_eq!(render("\"{{#list}}{{item}}{{/list}}\"", &d), "\"123\"");
    let d = MapBuilder::new().insert_vec("list", |b| b).build();
    assert_eq!(render("\"{{#list}}Yay lists!{{/list}}\"", &d), "\"\"");
    let d = MapBuilder::new()
        .insert_bool("bool", true)
        .insert_str("two", "second")
        .build();
    assert_eq!(
        render(
            "{{#bool}}\n* first\n{{/bool}}\n* {{two}}\n{{#bool}}\n* third\n{{/bool}}\n",
            &d
        ),
        "* first\n* second\n* third\n"
    );
    let d = MapBuilder::new().insert_bool("bool", true).build();
    assert_eq!(
        render("| A {{#bool}}B {{#bool}}C{{/bool}} D{{/bool}} E |", &d),
        "| A B C D E |"
    );
    let d = MapBuilder::new().insert_bool("bool", false).build();
    assert_eq!(
        render("| A {{#bool}}B {{#bool}}C{{/bool}} D{{/bool}} E |", &d),
        "| A  E |"
    );
    assert_eq!(
        render("[{{#missing}}Found key 'missing'!{{/missing}}]", &empty()),
        "[]"
    );
    let d = MapBuilder::new()
        .insert_vec("list", |b| {
            b.push_str("a").push_str("b").push_str("c").push_str("d").push_str("e")
        })
        .build();
    assert_eq!(render("\"{{#list}}({{.}}){{/list}}\"", &d), "\"(a)(b)(c)(d)(e)\"");
    let d = MapBuilder::new()
        .insert_map("a", |m| m.insert_map("b", |m| m.insert_bool("c", true)))
        .build();
    assert_eq!(render("\"{{#a.b.c}}Here{{/a.b.c}}\" == \"Here\"", &d), "\"Here\" == \"Here\"");
    let d = MapBuilder::new()
        .insert_map("a", |m| m.insert_map("b", |m| m.insert_bool("c", false)))
        .build();
    assert_eq!(render("\"{{#a.b.c}}Here{{/a.b.c}}\" == \"\"", &d), "\"\" == \"\"");
    let d = MapBuilder::new().insert_map("a", |m| m).build();
    assert_eq!(render("\"{{#a.b.c}}Here{{/a.b.c}}\" == \"\"", &d), "\"\" == \"\"");

    assert_eq!(render(" | {{#boolean}}\t|\t{{/boolean}} | \n", &t), " | \t|\t | \n");
    assert_eq!(
        render(" | {{#boolean}} {{! Important Whitespace }}\n {{/boolean}} | \n", &t),
        " |  \n  | \n"
    );
    assert_eq!(
        render(" {{#boolean}}YES{{/boolean}}\n {{#boolean}}GOOD{{/boolean}}\n", &t),
        " YES\n GOOD\n"
    );
    assert_eq!(
        render("| This Is\n{{#boolean}}\n|\n{{/boolean}}\n| A Line\n", &t),
        "| This Is\n|\n| A Line\n"
    );
    assert_eq!(
        render("| This Is\n  {{#boolean}}\n|\n  {{/boolean}}\n| A Line\n", &t),
        "| This Is\n|\n| A Line\n"
    );
    assert_eq!(render("|\r\n{{#boolean}}\r\n{{/boolean}}\r\n|", &t), "|\r\n|");
    assert_eq!(render("  {{#boolean}}\n#{{/boolean}}\n/", &t), "#\n/");
    assert_eq!(render("#{{#boolean}}\n/\n  {{/boolean}}", &t), "#\n/\n");
    assert_eq!(render("|{{# boolean }}={{/ boolean }}|", &t), "|=|");
}

#[test]
fn suite_inverted() {
    let t = MapBuilder::new().insert_bool("boolean", true).build();
    let f = MapBuilder::new().insert_bool("boolean", false).build();
    assert_eq!(
        render("\"{{^boolean}}This should be rendered.{{/boolean}}\"", &f),
        "\"This should be rendered.\""
    );
    assert_eq!(
        render("\"{{^boolean}}This should not be rendered.{{/boolean}}\"", &t),
        "\"\""
    );
    let d = MapBuilder::new()
        .insert_map("context", |m| m.insert_str("name", "Joe"))
        .build();
    assert_eq!(render("\"{{^context}}Hi {{name}}.{{/context}}\"", &d), "\"\"");
    let d = MapBuilder::new()
        .insert_vec("list", |b| b.push_map(|m| m.insert_str("n", "1")))
        .build();
    assert_eq!(render("\"{{^list}}{{n}}{{/list}}\"", &d), "\"\"");
    let d = MapBuilder::new().insert_vec("list", |b| b).build();
    assert_eq!(render("\"{{^list}}Yay lists!{{/list}}\"", &d), "\"Yay lists!\"");
    let d = MapBuilder::new()
        .insert_bool("bool", false)
        .insert_str("two", "second")
        .build();
    assert_eq!(
        render(
            "{{^bool}}\n* first\n{{/bool}}\n* {{two}}\n{{^bool}}\n* third\n{{/bool}}\n",
            &d
        ),
        "* first\n* second\n* third\n"
    );
    let d = MapBuilder::new().insert_bool("bool", false).build();
    assert_eq!(
        render("| A {{^bool}}B {{^bool}}C{{/bool}} D{{/bool}} E |", &d),
        "| A B C D E |"
    );
    let d = MapBuilder::new().insert_bool("bool", true).build();
    assert_eq!(
        render("| A {{^bool}}B {{^bool}}C{{/bool}} D{{/bool}} E |", &d),
        "| A  E |"
    );
    assert_eq!(
        render("[{{^missing}}Cannot find key 'missing'!{{/missing}}]", &empty()),
        "[Cannot find key 'missing'!]"
    );
    let d = MapBuilder::new()
        .insert_map("a", |m| m.insert_map("b", |m| m.insert_bool("c", true)))
        .build();
    assert_eq!(render("\"{{^a.b.c}}Not Here{{/a.b.c}}\" == \"\"", &d), "\"\" == \"\"");
    let d = MapBuilder::new()
        .insert_map("a", |m| m.insert_map("b", |m| m.insert_bool("c", false)))
        .build();
    assert_eq!(
        render("\"{{^a.b.c}}Not Here{{/a.b.c}}\" == \"Not Here\"", &d),
        "\"Not Here\" == \"Not Here\""
    );
    let d = MapBuilder::new().insert_map("a", |m| m).build();
    assert_eq!(
        render("\"{{^a.b.c}}Not Here{{/a.b.c}}\" == \"Not Here\"", &d),
        "\"Not Here\" == \"Not Here\""
    );
    assert_eq!(render(" | {{^boolean}}\t|\t{{/boolean}} | \n", &f), " | \t|\t | \n");
    assert_eq!(
        render(" | {{^boolean}} {{! Important Whitespace }}\n {{/boolean}} | \n", &f),
        " |  \n  | \n"
    );
    assert_eq!(
        render(" {{^boolean}}NO{{/boolean}}\n {{^boolean}}WAY{{/boolean}}\n", &f),
        " NO\n WAY\n"
    );
    assert_eq!(
        render("| This Is\n{{^boolean}}\n|\n{{/boolean}}\n| A Line\n", &f),
        "| This Is\n|\n| A Line\n"
    );
    assert_eq!(
        render("| This Is\n  {{^boolean}}\n|\n  {{/boolean}}\n| A Line\n", &f),
        "| This Is\n|\n| A Line\n"
    );
    assert_eq!(render("|\r\n{{^boolean}}\r\n{{/boolean}}\r\n|", &f), "|\r\n|");
    assert_eq!(render("  {{^boolean}}\n^{{/boolean}}\n/", &f), "^\n/");
    assert_eq!(render("^{{^boolean}}\n/\n  {{/boolean}}", &f), "^\n/\n");
    assert_eq!(render("|{{^ boolean }}={{/ boolean }}|", &f), "|=|");
}

#[test]
fn suite_delimiters() {
    let d = MapBuilder::new().insert_str("text", "Hey!").build();
    assert_eq!(render("{{=<% %>=}}(<%text%>)", &d), "(Hey!)");
    let d = MapBuilder::new().insert_str("text", "It worked!").build();
    assert_eq!(render("({{=[ ]=}}[text])", &d), "(It worked!)");
    let d = MapBuilder::new()
        .insert_bool("section", true)
        .insert_str("data", "I got interpolated.")
        .build();
    assert_eq!(
        render(
            "[\n{{#section}}\n  {{data}}\n  |data|\n{{/section}}\n\n{{= | | =}}\n|#section|\n  {{data}}\n  |data|\n|/section|\n]\n",
            &d
        ),
        "[\n  I got interpolated.\n  |data|\n\n  {{data}}\n  I got interpolated.\n]\n"
    );
    let d = MapBuilder::new()
        .insert_bool("section", false)
        .insert_str("data", "I got interpolated.")
        .build();
    assert_eq!(
        render(
            "[\n{{^section}}\n  {{data}}\n  |data|\n{{/section}}\n\n{{= | | =}}\n|^section|\n  {{data}}\n  |data|\n|/section|\n]\n",
            &d
        ),
        "[\n  I got interpolated.\n  |data|\n\n  {{data}}\n  I got interpolated.\n]\n"
    );
    let d = MapBuilder::new().insert_str("value", "yes").build();
    assert_eq!(
        render_with(
            "[ {{>include}} ]\n{{= | | =}}\n[ |>include| ]\n",
            &[("include", ".{{value}}.")],
            &d
        ),
        "[ .yes. ]\n[ .yes. ]\n"
    );
    assert_eq!(
        render_with(
            "[ {{>include}} ]\n[ .{{value}}.  .|value|. ]\n",
            &[("include", ".{{value}}. {{= | | =}} .|value|.")],
            &d
        ),
        "[ .yes.  .yes. ]\n[ .yes.  .|value|. ]\n"
    );
    let d = empty();
    assert_eq!(render("| {{=@ @=}} |", &d), "|  |");
    assert_eq!(render(" | {{=@ @=}}\n", &d), " | \n");
    assert_eq!(render("Begin.\n{{=@ @=}}\nEnd.\n", &d), "Begin.\nEnd.\n");
    assert_eq!(render("Begin.\n  {{=@ @=}}\nEnd.\n", &d), "Begin.\nEnd.\n");
    assert_eq!(render("|\r\n{{= @ @ =}}\r\n|", &d), "|\r\n|");
    assert_eq!(render("  {{=@ @=}}\n=", &d), "=");
    assert_eq!(render("=\n  {{=@ @=}}", &d), "=\n");
    assert_eq!(render("|{{= @   @ =}}|", &d), "||");
}

#[test]
fn suite_partials() {
    let d = empty();
    assert_eq!(
        render_with("\"{{>text}}\"", &[("text", "from partial")], &d),
        "\"from partial\""
    );
    assert_eq!(render_with("\"{{>text}}\"", &[], &d), "\"\"");
    let d = MapBuilder::new().insert_str("text", "content").build();
    assert_eq!(
        render_with("\"{{>partial}}\"", &[("partial", "*{{text}}*")], &d),
        "\"*content*\""
    );
    let d = MapBuilder::new()
        .insert_str("content", "X")
        .insert_vec("nodes", |b| {
            b.push_map(|m| m.insert_str("content", "Y").insert_vec("nodes", |b| b))
        })
        .build();
    assert_eq!(
        render_with(
            "{{>node}}",
            &[("node", "{{content}}<{{#nodes}}{{>node}}{{/nodes}}>")],
            &d
        ),
        "X<Y<>>"
    );
    let d = empty();
    assert_eq!(
        render_with("| {{>partial}} |", &[("partial", "\t|\t")], &d),
        "| \t|\t |"
    );
    let d = MapBuilder::new().insert_str("data", "|").build();
    assert_eq!(
        render_with("  {{data}}  {{> partial}}\n", &[("partial", ">\n>")], &d),
        "  |  >\n>\n"
    );
    let d = empty();
    assert_eq!(
        render_with("|\r\n{{>partial}}\r\n|", &[("partial", ">")], &d),
        "|\r\n>|"
    );
    assert_eq!(
        render_with("  {{>partial}}\n>", &[("partial", ">\n>")], &d),
        "  >\n  >>"
    );
    assert_eq!(
        render_with(">\n  {{>partial}}", &[("partial", ">\n>")], &d),
        ">\n  >\n  >"
    );
    let d = MapBuilder::new().insert_str("content", "<\n->").build();
    assert_eq!(
        render_with(
            "\\\n {{>partial}}\n/\n",
            &[("partial", "|\n{{{content}}}\n|\n")],
            &d
        ),
        "\\\n |\n <\n->\n |\n/\n"
    );
    let d = MapBuilder::new().insert_bool("boolean", true).build();
    assert_eq!(
        render_with("|{{> partial }}|", &[("partial", "[]")], &d),
        "|[]|"
    );
}
