use mustache::{compile_str, Token};

fn s(x: &str) -> String {
    x.to_string()
}

fn path(xs: &[&str]) -> Vec<String> {
    xs.iter().map(|x| x.to_string()).collect()
}

fn same_tokens(src: &str, expected: Vec<Token>) -> bool {
    let template = compile_str(src).unwrap();
    *template.tokens() == expected
}

#[test]
fn mustache_test_compile_texts() {
    assert!(same_tokens("hello world", vec![Token::Text(s("hello world"))]));
    assert!(same_tokens("hello {world", vec![Token::Text(s("hello {world"))]));
    assert!(same_tokens("hello world}", vec![Token::Text(s("hello world}"))]));
    assert!(same_tokens("hello world}}", vec![Token::Text(s("hello world}}"))]));
}

#[test]
fn mustache_test_compile_etags() {
    assert!(same_tokens(
        "{{ name }}",
        vec![Token::EscapedTag(path(&["name"]), s("{{ name }}"))]
    ));

    assert!(same_tokens(
        "before {{name}} after",
        vec![
            Token::Text(s("before ")),
            Token::EscapedTag(path(&["name"]), s("{{name}}")),
            Token::Text(s(" after")),
        ]
    ));

    assert!(same_tokens(
        "before {{name}}",
        vec![
            Token::Text(s("before ")),
            Token::EscapedTag(path(&["name"]), s("{{name}}")),
        ]
    ));

    assert!(same_tokens(
        "{{name}} after",
        vec![
            Token::EscapedTag(path(&["name"]), s("{{name}}")),
            Token::Text(s(" after")),
        ]
    ));
}

#[test]
fn mustache_test_compile_utags() {
    assert!(same_tokens(
        "{{{name}}}",
        vec![Token::UnescapedTag(path(&["name"]), s("{{{name}}}"))]
    ));

    assert!(same_tokens(
        "before {{{name}}} after",
        vec![
            Token::Text(s("before ")),
            Token::UnescapedTag(path(&["name"]), s("{{{name}}}")),
            Token::Text(s(" after")),
        ]
    ));

    assert!(same_tokens(
        "before {{{name}}}",
        vec![
            Token::Text(s("before ")),
            Token::UnescapedTag(path(&["name"]), s("{{{name}}}")),
        ]
    ));

    assert!(same_tokens(
        "{{{name}}} after",
        vec![
            Token::UnescapedTag(path(&["name"]), s("{{{name}}}")),
            Token::Text(s(" after")),
        ]
    ));
}

#[test]
fn mustache_test_compile_sections() {
    assert!(same_tokens(
        "{{# name}}{{/name}}",
        vec![Token::Section(
            path(&["name"]),
            false,
            vec![],
            s("{{"),
            s("{{# name}}"),
            s(""),
            s("{{/name}}"),
            s("}}"),
        )]
    ));

    assert!(same_tokens(
        "before {{^name}}{{/name}} after",
        vec![
            Token::Text(s("before ")),
            Token::Section(
                path(&["name"]),
                true,
                vec![],
                s("{{"),
                s("{{^name}}"),
                s(""),
                s("{{/name}}"),
                s("}}"),
            ),
            Token::Text(s(" after")),
        ]
    ));

    assert!(same_tokens(
        "before {{#name}}{{/name}}",
        vec![
            Token::Text(s("before ")),
            Token::Section(
                path(&["name"]),
                false,
                vec![],
                s("{{"),
                s("{{#name}}"),
                s(""),
                s("{{/name}}"),
                s("}}"),
            ),
        ]
    ));

    assert!(same_tokens(
        "{{#name}}{{/name}} after",
        vec![
            Token::Section(
                path(&["name"]),
                false,
                vec![],
                s("{{"),
                s("{{#name}}"),
                s(""),
                s("{{/name}}"),
                s("}}"),
            ),
            Token::Text(s(" after")),
        ]
    ));

    assert!(same_tokens(
        "before {{#a}} 1 {{^b}} 2 {{/b}} {{/a}} after",
        vec![
            Token::Text(s("before ")),
            Token::Section(
                path(&["a"]),
                false,
                vec![
                    Token::Text(s(" 1 ")),
                    Token::Section(
                        path(&["b"]),
                        true,
                        vec![Token::Text(s(" 2 "))],
                        s("{{"),
                        s("{{^b}}"),
                        s(" 2 "),
                        s("{{/b}}"),
                        s("}}"),
                    ),
                    Token::Text(s(" ")),
                ],
                s("{{"),
                s("{{#a}}"),
                s(" 1 {{^b}} 2 {{/b}} "),
                s("{{/a}}"),
                s("}}"),
            ),
            Token::Text(s(" after")),
        ]
    ));
}

#[test]
fn mustache_test_compile_partials() {
    assert!(same_tokens(
        "{{> test}}",
        vec![Token::Partial(s("test"), s(""), s("{{> test}}"))]
    ));

    assert!(same_tokens(
        "before {{>test}} after",
        vec![
            Token::Text(s("before ")),
            Token::Partial(s("test"), s(""), s("{{>test}}")),
            Token::Text(s(" after")),
        ]
    ));

    assert!(same_tokens(
        "before {{> test}}",
        vec![
            Token::Text(s("before ")),
            Token::Partial(s("test"), s(""), s("{{> test}}")),
        ]
    ));

    assert!(same_tokens(
        "{{>test}} after",
        vec![
            Token::Partial(s("test"), s(""), s("{{>test}}")),
            Token::Text(s(" after")),
        ]
    ));
}

#[test]
fn mustache_test_compile_delimiters() {
    assert!(same_tokens(
        "before {{=<% %>=}}<%name%> after",
        vec![
            Token::Text(s("before ")),
            Token::EscapedTag(path(&["name"]), s("<%name%>")),
            Token::Text(s(" after")),
        ]
    ));
}
