use stache::{Context, Partials, Template};
use std::collections::HashMap;

fn table(entries: HashMap<String, String>) -> Partials {
    let mut partials = Partials::new();
    for (name, text) in entries {
        partials.insert(&name, &text);
    }
    partials
}

#[test]
fn delimiters_pair_behavior() {
    let context = Context::Object(Vec::from([(
        (String::from("text")),
        Context::String("Hey!".into()),
    )]));
    let template = Template::compile("{{=<% %>=}}(<%text%>)\n").unwrap();
    let rendered = template.render(context);
    assert_eq!(rendered, "(Hey!)\n");
}

#[test]
fn delimiters_special_characters() {
    let context = Context::Object(Vec::from([(
        (String::from("text")),
        Context::String("It worked!".into()),
    )]));
    let template = Template::compile("({{=[ ]=}}[text])\n").unwrap();
    let rendered = template.render(context);
    assert_eq!(rendered, "(It worked!)\n");
}

#[test]
fn delimiters_sections() {
    let context = Context::Object(Vec::from([
        (String::from("section"), Context::Bool(true)),
        ((String::from("data")), Context::String("I got interpolated.".into())),
    ]));
    let template = Template::compile("[\n{{#section}}\n  {{data}}\n  |data|\n{{/section}}\n\n{{= | | =}}\n|#section|\n  {{data}}\n  |data|\n|/section|\n]\n\n").unwrap();
    let rendered = template.render(context);
    assert_eq!(rendered, "[\n  I got interpolated.\n  |data|\n\n  {{data}}\n  I got interpolated.\n]\n\n");
}

#[test]
fn delimiters_inverted_sections() {
    let context = Context::Object(Vec::from([
        (String::from("section"), Context::Bool(false)),
        (String::from("data"), Context::String("I got interpolated.".into())),
    ]));
    let template = Template::compile("[\n{{^section}}\n  {{data}}\n  |data|\n{{/section}}\n\n{{= | | =}}\n|^section|\n  {{data}}\n  |data|\n|/section|\n]\n\n").unwrap();
    let rendered = template.render(context);
    assert_eq!(rendered, "[\n  I got interpolated.\n  |data|\n\n  {{data}}\n  I got interpolated.\n]\n\n");
}

#[test]
fn delimiters_partial_inheritance() {
    let context = Context::Object(Vec::from([(
        String::from("value"),
        Context::String("yes".into()),
    )]));
    let template = Template::compile("[ {{>include}} ]\n{{= | | =}}\n[ |>include| ]\n\n").unwrap();
    let partials = table(HashMap::from([(String::from("include"), String::from(".{{value}}."))]));
    let rendered = template.render_with_partials(context, partials);
    assert_eq!(rendered, "[ .yes. ]\n[ .yes. ]\n\n");
}

#[test]
fn delimiters_post_partial_behavior() {
    let context = Context::Object(Vec::from([(
        String::from("value"),
        Context::String("yes".into()),
    )]));
    let template = Template::compile("[ {{>include}} ]\n[ .{{value}}.  .|value|. ]\n\n").unwrap();
    let partials = table(HashMap::from([(
        String::from("include"),
        String::from(".{{value}}. {{= | | =}} .|value|."),
    )]));
    let rendered = template.render_with_partials(context, partials);
    assert_eq!(rendered, "[ .yes.  .yes. ]\n[ .yes.  .|value|. ]\n\n");
}

#[test]
fn delimiters_surrounding_whitespace() {
    let context = Context::Object(Vec::from([]));
    let template = Template::compile("| {{=@ @=}} |\n").unwrap();
    let rendered = template.render(context);
    assert_eq!(rendered, "|  |\n");
}

#[test]
fn delimiters_outlying_whitespace_inline() {
    let context = Context::Object(Vec::from([]));
    let template = Template::compile("| {{=@ @=}}\n\n").unwrap();
    let rendered = template.render(context);
    assert_eq!(rendered, "| \n\n");
}

#[test]
fn delimiters_standalone_tag() {
    let context = Context::Object(Vec::from([]));
    let template = Template::compile("Begin.\n{{=@ @=}}\nEnd.\n\n").unwrap();
    let rendered = template.render(context);
    assert_eq!(rendered, "Begin.\nEnd.\n\n");
}

#[test]
fn delimiters_indented_standalone_tag() {
    let context = Context::Object(Vec::from([]));
    let template = Template::compile("Begin.\n  {{=@ @=}}\nEnd.\n\n").unwrap();
    let rendered = template.render(context);
    assert_eq!(rendered, "Begin.\nEnd.\n\n");
}

#[test]
fn delimiters_standalone_line_endings() {
    let context = Context::Object(Vec::from([]));
    let template = Template::compile("|\r\n{{= @ @ =}}\r\n|\n").unwrap();
    let rendered = template.render(context);
    assert_eq!(rendered, "|\r\n|\n");
}

#[test]
fn delimiters_standalone_no_previous_line() {
    let context = Context::Object(Vec::from([]));
    let template = Template::compile("{{=@ @=}}\n=\n").unwrap();
    let rendered = template.render(context);
    assert_eq!(rendered, "=\n");
}

#[test]
fn delimiters_standalone_no_following_line() {
    let context = Context::Object(Vec::from([]));
    let template = Template::compile("=\n  {{=@ @=}}\n").unwrap();
    let rendered = template.render(context);
    assert_eq!(rendered, "=\n");
}

#[test]
fn delimiters_pair_with_padding() {
    let context = Context::Object(Vec::from([]));
    let template = Template::compile("|{{= @   @ =}}|\n").unwrap();
    let rendered = template.render(context);
    assert_eq!(rendered, "||\n");
}
