use stache::{Context, Partials, Template};
use std::collections::HashMap;

fn table(entries: HashMap<String, String>) -> Partials {
    let mut partials = Partials::new();
    for (name, text) in entries {
        partials.insert(&name, &text);
    }
    partials
}

#[test]
fn partials_basic_behavior() {
    let context = Context::Object(Vec::from([]));
    let template = Template::compile("\"{{>text}}\"\n").unwrap();
    let partials = table(HashMap::from([(String::from("text"), String::from("from partial"))]));
    let rendered = template.render_with_partials(context, partials);
    assert_eq!(rendered, "\"from partial\"\n");
}

#[test]
fn partials_failed_lookup() {
    let context = Context::Object(Vec::from([]));
    let template = Template::compile("\"{{>text}}\"\n").unwrap();
    let partials = table(HashMap::new());
    let rendered = template.render_with_partials(context, partials);
    assert_eq!(rendered, "\"\"\n");
}

#[test]
fn partials_context() {
    let context = Context::Object(Vec::from([(
        String::from("text"),
        Context::String("content".into()),
    )]));
    let template = Template::compile("\"{{>partial}}\"\n").unwrap();
    let partials = table(HashMap::from([(String::from("partial"), String::from("*{{text}}*"))]));
    let rendered = template.render_with_partials(context, partials);
    assert_eq!(rendered, "\"*content*\"\n");
}

#[test]
fn partials_recursion() {
    let context = Context::Object(Vec::from([
        (String::from("content"), Context::String("X".into())),
        (
            String::from("nodes"),
            Context::List(vec![Context::Object(Vec::from([
                (String::from("content"), Context::String("Y".into())),
                (String::from("nodes"), Context::List(vec![])),
            ]))]),
        ),
    ]));
    let template = Template::compile("{{>node}}\n").unwrap();
    let partials = table(HashMap::from([(
        String::from("node"),
        String::from("{{content}}<{{#nodes}}{{>node}}{{/nodes}}>"),
    )]));
    let rendered = template.render_with_partials(context, partials);
    assert_eq!(rendered, "X<Y<>>");
}

#[test]
fn partials_surrounding_whitespace() {
    let context = Context::Object(Vec::from([]));
    let template = Template::compile("| {{>partial}} |\n").unwrap();
    let partials = table(HashMap::from([(String::from("partial"), String::from("\t|\t"))]));
    let rendered = template.render_with_partials(context, partials);
    assert_eq!(rendered, "| \t|\t |\n");
}

#[test]
fn partials_inline_indentation() {
    let context = Context::Object(Vec::from([(String::from("data"), Context::String("|".into()))]));
    let template = Template::compile("  {{data}}  {{> partial}}\n\n").unwrap();
    let partials = table(HashMap::from([(String::from("partial"), String::from(">\n>"))]));
    let rendered = template.render_with_partials(context, partials);
    assert_eq!(rendered, "  |  >\n>\n\n");
}

#[test]
fn partials_standalone_line_endings() {
    let context = Context::Object(Vec::from([]));
    let template = Template::compile("|\r\n{{>partial}}\r\n|\n").unwrap();
    let partials = table(HashMap::from([(String::from("partial"), String::from(">"))]));
    let rendered = template.render_with_partials(context, partials);
    assert_eq!(rendered, "|\r\n>|\n");
}

#[test]
fn partials_standalone_no_previous_line() {
    let context = Context::Object(Vec::from([]));
    let template = Template::compile("  {{>partial}}\n>\n").unwrap();
    let partials = table(HashMap::from([(String::from("partial"), String::from(">\n>"))]));
    let rendered = template.render_with_partials(context, partials);
    assert_eq!(rendered, "  >\n  >>\n");
}

#[test]
fn partials_standalone_no_following_line() {
    let context = Context::Object(Vec::from([]));
    let template = Template::compile(">\n  {{>partial}}\n").unwrap();
    let partials = table(HashMap::from([(String::from("partial"), String::from(">\n>"))]));
    let rendered = template.render_with_partials(context, partials);
    assert_eq!(rendered, ">\n  >\n  >");
}

#[test]
fn partials_standalone_indentation() {
    let context = Context::Object(Vec::from([(
        String::from("content"),
        Context::String("<\n->".into()),
    )]));
    let template = Template::compile("\\\n {{>partial}}\n/\n\n").unwrap();
    let partials = table(HashMap::from([(
        String::from("partial"),
        String::from("|\n{{{content}}}\n|\n"),
    )]));
    let rendered = template.render_with_partials(context, partials);
    assert_eq!(rendered, "\\\n |\n <\n->\n |\n/\n\n");
}

#[test]
fn partials_padding_whitespace() {
    let context = Context::Object(Vec::from([(String::from("boolean"), Context::Bool(true))]));
    let template = Template::compile("|{{> partial }}|\n").unwrap();
    let partials = table(HashMap::from([(String::from("partial"), String::from("[]"))]));
    let rendered = template.render_with_partials(context, partials);
    assert_eq!(rendered, "|[]|\n");
}
