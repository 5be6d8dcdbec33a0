use stache::{Context, Partials, Template};
use std::collections::HashMap;

fn table(entries: HashMap<String, String>) -> Partials {
    let mut partials = Partials::new();
    for (name, text) in entries {
        partials.insert(&name, &text);
    }
    partials
}

#[test]
fn manual_intro() {
    let context = Context::Object(Vec::from([
        ("name".into(), Context::String("Mustafa".into())),
        ("value".into(), Context::Integer(10000)),
        ("taxed_value".into(), Context::Float((10000.0 - (10000.0 * 0.4)).to_string())),
        ("in_ca".into(), Context::Bool(true)),
    ]));
    let template = Template::compile("Hello {{name}}\nYou have just won {{value}} dollars!\n{{#in_ca}}\nWell, {{taxed_value}} dollars, after taxes.\n{{/in_ca}}\n").unwrap();
    let rendered = template.render(context);
    assert_eq!(rendered, "Hello Mustafa\nYou have just won 10000 dollars!\nWell, 6000 dollars, after taxes.\n");
}

#[test]
fn manual_variables() {
    let context = Context::Object(Vec::from([
        ("name".into(), Context::String("Mustafa".into())),
        ("company".into(), Context::String("<b>GitHub</b>".into())),
    ]));
    let template = Template::compile("* {{name}}\n* {{age}}\n* {{company}}\n* {{{company}}}\n").unwrap();
    let rendered = template.render(context);
    assert_eq!(rendered, "* Mustafa\n* \n* &lt;b&gt;GitHub&lt;/b&gt;\n* <b>GitHub</b>\n");
}

#[test]
fn manual_section_false() {
    let context = Context::Object(Vec::from([("person".into(), Context::Bool(false))]));
    let template = Template::compile("Shown.\n{{#person}}\n  Never shown!\n{{/person}}\n").unwrap();
    let rendered = template.render(context);
    assert_eq!(rendered, "Shown.\n");
}

#[test]
fn manual_section_non_empty_list() {
    let context = Context::Object(Vec::from([(
        "repo".into(),
        Context::List(vec![
            Context::Object(Vec::from([(String::from("name"), Context::String("resque".into()))])),
            Context::Object(Vec::from([(String::from("name"), Context::String("hub".into()))])),
            Context::Object(Vec::from([(String::from("name"), Context::String("rip".into()))])),
        ]),
    )]));
    let template = Template::compile("{{#repo}}\n  <b>{{name}}</b>\n{{/repo}}\n").unwrap();
    let rendered = template.render(context);
    assert_eq!(rendered, "  <b>resque</b>\n  <b>hub</b>\n  <b>rip</b>\n");
}

#[test]
fn manual_non_false_values() {
    let context = Context::Object(Vec::from([(
        String::from("person?"),
        Context::Object(Vec::from([(String::from("name"), Context::String("Jon".into()))])),
    )]));
    let template = Template::compile("{{#person?}}\n  Hi {{name}}!\n{{/person?}}\n").unwrap();
    let rendered = template.render(context);
    assert_eq!(rendered, "  Hi Jon!\n");
}

#[test]
fn manual_inverted_sections() {
    let context = Context::Object(Vec::from([(String::from("repo"), Context::List(vec![]))]));
    let template = Template::compile("{{#repo}}\n  <b>{{name}}</b>\n{{/repo}}\n{{^repo}}\n  No repos :(\n{{/repo}}\n").unwrap();
    let rendered = template.render(context);
    assert_eq!(rendered, "  No repos :(\n");
}

#[test]
fn manual_comments() {
    let context = Context::Object(Vec::from([]));
    let template = Template::compile("<h1>Today{{! ignore me }}.</h1>\n").unwrap();
    let rendered = template.render(context);
    assert_eq!(rendered, "<h1>Today.</h1>\n");
}

#[test]
fn manual_partials() {
    let context = Context::Object(Vec::from([(
        String::from("names"),
        Context::List(vec![
            Context::Object(Vec::from([(String::from("name"), Context::String("Bob".into()))])),
            Context::Object(Vec::from([(String::from("name"), Context::String("Billy".into()))])),
        ]),
    )]));
    let template = Template::compile("<h2>Names</h2>\n{{#names}}\n  {{> user}}\n{{/names}}\n").unwrap();
    let partials = table(HashMap::from([(
        String::from("user"),
        String::from("<strong>{{name}}</strong>\n"),
    )]));
    let rendered = template.render_with_partials(context, partials);
    assert_eq!(rendered, "<h2>Names</h2>\n  <strong>Bob</strong>\n  <strong>Billy</strong>\n");
}

#[test]
fn manual_set_delimiter() {
    let context = Context::Object(Vec::from([(
        String::from("greeting"),
        Context::String("hello".into()),
    )]));
    let template = Template::compile("* {{greeting}}\n{{=<% %>=}}\n* <% greeting %>\n<%={{ }}=%>\n* {{ greeting }}\n").unwrap();
    let rendered = template.render(context);
    assert_eq!(rendered, "* hello\n* hello\n* hello\n");
}
