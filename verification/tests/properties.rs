use stache::ast::{Node, Partial, Root, Section, Variable, Variant};
use stache::context::decimal_string;
use stache::lexer::{Lexer, Token};
use stache::parser::Parser;
use stache::template::MAX_PARTIAL_DEPTH;
use stache::{Context, Error, MapBuilder, Partials, Template, VecBuilder};

fn render(text: &str, context: Context) -> String {
    Template::compile(text).unwrap().render(context)
}

fn render_with(text: &str, context: Context, partials: &[(&str, &str)]) -> String {
    let mut table = Partials::new();
    for (name, body) in partials {
        table.insert(name, body);
    }
    Template::compile(text)
        .unwrap()
        .render_with_partials(context, table)
}

fn empty() -> Context {
    MapBuilder::new().build()
}

#[test]
fn plain_text_renders_unchanged() {
    assert_eq!(render("Hello world", empty()), "Hello world");
    assert_eq!(render("", empty()), "");
    assert_eq!(render("a { b } c\r\n\t d\n", empty()), "a { b } c\r\n\t d\n");
}

#[test]
fn escaped_and_unescaped_variables() {
    let value = "& \" < >";
    let context = || MapBuilder::new().str("v", value).build();
    assert_eq!(render("{{v}}", context()), "&amp; &quot; &lt; &gt;");
    assert_eq!(render("{{{v}}}", context()), "& \" < >");
    assert_eq!(render("{{&v}}", context()), "& \" < >");
}

#[test]
fn escape_replaces_each_special_character_once() {
    assert_eq!(Template::escape("&"), "&amp;");
    assert_eq!(Template::escape("&amp;"), "&amp;amp;");
    assert_eq!(Template::escape("<a href='x'>\"</a>"), "&lt;a href=&#39;x&#39;&gt;&quot;&lt;/a&gt;");
    assert_eq!(Template::escape("plain"), "plain");
    assert_eq!(Template::escape(""), "");
}

#[test]
fn direct_and_inverted_sections_are_complements() {
    let values: Vec<fn() -> Context> = vec![
        || Context::String("text".into()),
        || Context::String(String::new()),
        || Context::Integer(0),
        || Context::Integer(7),
        || Context::Float("0".into()),
        || Context::Bool(true),
        || Context::Bool(false),
        || Context::Null,
        || Context::Object(Vec::new()),
        || Context::List(Vec::new()),
        || Context::List(vec![Context::Null]),
    ];
    for value in values {
        let truthy = value().is_truthy();
        let direct = render("{{#b}}X{{/b}}", MapBuilder::new().insert("b", value()).build());
        let inverse = render("{{^b}}X{{/b}}", MapBuilder::new().insert("b", value()).build());
        assert_eq!(direct, if truthy { "X" } else { "" });
        assert_eq!(inverse, if truthy { "" } else { "X" });
    }
    assert_eq!(render("{{#b}}X{{/b}}", empty()), "");
    assert_eq!(render("{{^b}}X{{/b}}", empty()), "X");
}

#[test]
fn direct_section_repeats_for_each_element() {
    let list = VecBuilder::new().integer(1).integer(2).integer(3).build();
    let context = MapBuilder::new().insert("b", list).build();
    assert_eq!(render("{{#b}}X{{/b}}", context), "XXX");
}

#[test]
fn list_iteration() {
    let list = VecBuilder::new()
        .map(vec![("n".to_string(), Context::Integer(1))])
        .map(vec![("n".to_string(), Context::Integer(2))])
        .map(vec![("n".to_string(), Context::Integer(3))])
        .build();
    let context = MapBuilder::new().insert("list", list).build();
    assert_eq!(render("{{#list}}{{n}}{{/list}}", context), "123");
}

#[test]
fn implicit_iterator_names_the_innermost_value() {
    let context = MapBuilder::new()
        .list("list", vec![Context::String("a".into()), Context::Integer(2)])
        .build();
    assert_eq!(render("{{#list}}({{.}}){{/list}}", context), "(a)(2)");
}

#[test]
fn broken_dotted_chain_resolves_to_nothing() {
    let context = MapBuilder::new().map("a", Vec::new()).build();
    assert_eq!(render("[{{a.b.c}}]", context), "[]");
    let context = MapBuilder::new()
        .map("a", vec![("b".to_string(), Context::String("x".into()))])
        .str("c", "outer")
        .build();
    assert_eq!(render("[{{a.b.c}}]", context), "[]");
    let context = MapBuilder::new()
        .map(
            "a",
            vec![(
                "b".to_string(),
                Context::Object(vec![("c".to_string(), Context::String("deep".into()))]),
            )],
        )
        .build();
    assert_eq!(render("[{{a.b.c}}]", context), "[deep]");
}

#[test]
fn first_segment_falls_through_to_outer_frames() {
    let inner = Context::Object(vec![("x".to_string(), Context::Integer(1))]);
    let context = MapBuilder::new()
        .insert("inner", inner)
        .str("y", "outer")
        .build();
    assert_eq!(render("{{#inner}}{{x}}{{y}}{{/inner}}", context), "1outer");
}

#[test]
fn later_binding_of_a_name_counts() {
    let context = Context::Object(vec![
        ("k".to_string(), Context::Integer(1)),
        ("k".to_string(), Context::Integer(2)),
    ]);
    assert_eq!(render("{{k}}", context), "2");
    let context = MapBuilder::new().integer("k", 1).str("k", "two").build();
    assert_eq!(render("{{k}}", context), "two");
}

#[test]
fn standalone_lines_leave_no_blank_line() {
    let context = || MapBuilder::new().bool("c", true).str("v", "val").build();
    assert_eq!(render("a\n  {{#c}}  \nb\n\t{{/c}}\nc\n", context()), "a\nb\nc\n");
    assert_eq!(render("{{! first }}\nx\n{{! last }}", context()), "x\n");
    assert_eq!(render("a\r\n{{! note }}\r\nb\r\n", context()), "a\r\nb\r\n");
    assert_eq!(render("  {{v}}  \n", context()), "  val  \n");
    assert_eq!(render("  {{#c}} x\n{{/c}}\n", context()), "   x\n");
    assert_eq!(render("{{#c}}{{/c}}\n|", context()), "\n|");
}

#[test]
fn tokens_of_a_standalone_line() {
    let mut lexer = Lexer::new("a\n  {{>p}}  \nb");
    let tokens = lexer.tokens().unwrap();
    assert_eq!(
        tokens,
        vec![
            Token::Text("a".to_string()),
            Token::Newline("\n".to_string()),
            Token::Partial("p".to_string(), "  ".to_string()),
            Token::Text("b".to_string()),
        ]
    );
}

#[test]
fn tokens_keep_a_line_with_text() {
    let mut lexer = Lexer::new(" {{#a}} x \r\n");
    let tokens = lexer.tokens().unwrap();
    assert_eq!(
        tokens,
        vec![
            Token::Whitespace(" ".to_string()),
            Token::SectionStart("a".to_string(), Variant::Direct),
            Token::Whitespace(" ".to_string()),
            Token::Text("x ".to_string()),
            Token::Newline("\r\n".to_string()),
        ]
    );
}

#[test]
fn partial_indentation_reaches_every_line() {
    let rendered = render_with(
        "begin\n  {{>p}}\nend\n",
        empty(),
        &[("p", "one\ntwo\n")],
    );
    assert_eq!(rendered, "begin\n  one\n  two\nend\n");
    let rendered = render_with("  {{>p}}", empty(), &[("p", "one\ntwo")]);
    assert_eq!(rendered, "  one\n  two");
}

#[test]
fn partial_indentation_reaches_nested_partials() {
    let rendered = render_with(
        "  {{>outer}}\n",
        empty(),
        &[("outer", "a\n {{>inner}}\nb\n"), ("inner", "x\ny\n")],
    );
    assert_eq!(rendered, "  a\n   x\n   y\n  b\n");
}

#[test]
fn indent_and_lines() {
    assert_eq!(Template::lines("a\nb"), vec!["a\n".to_string(), "b".to_string()]);
    assert_eq!(Template::lines("a\n\n"), vec!["a\n".to_string(), "\n".to_string()]);
    assert_eq!(Template::lines(""), Vec::<String>::new());
    assert_eq!(Template::lines("é\nü"), vec!["é\n".to_string(), "ü".to_string()]);
    assert_eq!(Template::indent("a\nb", "> "), "> a\n> b");
    assert_eq!(Template::indent("a\r\n\nb\n", "\t"), "\ta\r\n\t\n\tb\n");
    assert_eq!(Template::indent("", "  "), "");
}

#[test]
fn custom_delimiters() {
    let context = || MapBuilder::new().str("text", "Hey!").build();
    assert_eq!(render("{{=<% %>=}}(<%text%>)", context()), "(Hey!)");
    assert_eq!(
        render("{{=<% %>=}}(<%text%>)<%={{ }}=%>[{{text}}]<%text%>", context()),
        "(Hey!)[Hey!]<%text%>"
    );
    assert_eq!(render("{{= | | =}}(|text|){{text}}", context()), "(Hey!){{text}}");
}

#[test]
fn delimiter_change_is_a_token() {
    let mut lexer = Lexer::new("{{=<% %>=}}<%x%>{{x}}");
    assert_eq!(
        lexer.tokens().unwrap(),
        vec![
            Token::SetDelim("<%".to_string(), "%>".to_string()),
            Token::Variable("x".to_string(), true),
            Token::Text("{{x}}".to_string()),
        ]
    );
}

#[test]
fn names_are_trimmed() {
    let mut lexer = Lexer::new("{{ a }}{{#  b\t}}{{/ b }}{{{ c }}}{{& d }}{{> e }}{{}}");
    assert_eq!(
        lexer.tokens().unwrap(),
        vec![
            Token::Variable("a".to_string(), true),
            Token::SectionStart("b".to_string(), Variant::Direct),
            Token::SectionEnd("b".to_string()),
            Token::Variable("c".to_string(), false),
            Token::Variable("d".to_string(), false),
            Token::Partial("e".to_string(), String::new()),
            Token::Variable(String::new(), true),
        ]
    );
}

#[test]
fn malformed_templates_are_rejected() {
    let rejected = |text: &str| matches!(Template::compile(text), Err(Error::Parse));
    assert!(rejected("{{foo"));
    assert!(rejected("a {{#s}} b {{x"));
    assert!(rejected("{{{foo}}"));
    assert!(rejected("{{=<% %>"));
    assert!(rejected("{{=<%=}}"));
    assert!(rejected("{{= =}}"));
    assert!(rejected("{{/a}}"));
    assert!(rejected("x{{#a}}y{{/b}}"));
    assert!(rejected("{{#a}}{{#b}}{{/a}}{{/b}}"));
    assert!(rejected("{{#a}}never closed"));
    assert!(rejected("{{^a}}{{#b}}x{{/b}}"));
}

#[test]
fn parse_errors_from_the_parser() {
    assert_eq!(Parser::parse("{{/a}}"), Err(Error::Parse));
    assert_eq!(Parser::parse("{{#a}}"), Err(Error::Parse));
    assert_eq!(Parser::parse("{{"), Err(Error::Parse));
}

#[test]
fn parse_builds_the_tree() {
    let tree = Parser::parse("a{{#s}} {{v}}{{>p}}{{/s}}{{!c}}{{^t}}{{/t}}").unwrap();
    let expected = Node::Root(Root {
        children: vec![
            Node::Text("a".to_string()),
            Node::Section(Section {
                name: "s".to_string(),
                variant: Variant::Direct,
                children: vec![
                    Node::Text(" ".to_string()),
                    Node::Variable(Variable::new("v".to_string(), true)),
                    Node::Partial(Partial::new("p".to_string(), String::new())),
                ],
            }),
            Node::Section(Section::new("t".to_string(), Variant::Inverse)),
        ],
    });
    assert_eq!(tree, expected);
}

#[test]
fn nodes_hold_their_children() {
    let mut node = Node::Section(Section::new("s".to_string(), Variant::Direct));
    assert!(node.children().is_empty());
    node.push(Node::Text("x".to_string()));
    node.push(Node::Variable(Variable::new("v".to_string(), false)));
    assert_eq!(
        node.children(),
        &vec![
            Node::Text("x".to_string()),
            Node::Variable(Variable::new("v".to_string(), false)),
        ]
    );
    let mut root = Node::Root(Root::default());
    root.push(node);
    assert_eq!(root.children().len(), 1);
}

#[test]
fn decimal_text_of_integers() {
    assert_eq!(decimal_string(0), "0");
    assert_eq!(decimal_string(7), "7");
    assert_eq!(decimal_string(10), "10");
    assert_eq!(decimal_string(-1), "-1");
    assert_eq!(decimal_string(1234567890), "1234567890");
    assert_eq!(decimal_string(i64::MAX), "9223372036854775807");
    assert_eq!(decimal_string(i64::MIN), "-9223372036854775808");
}

#[test]
fn scalar_text_and_truthiness() {
    assert_eq!(Context::String("s".into()).to_string(), "s");
    assert_eq!(Context::Integer(-42).to_string(), "-42");
    assert_eq!(Context::Float("1.5".into()).to_string(), "1.5");
    assert_eq!(Context::Bool(true).to_string(), "true");
    assert_eq!(Context::Bool(false).to_string(), "false");
    assert_eq!(Context::Null.to_string(), "");
    assert_eq!(Context::Object(Vec::new()).to_string(), "");
    assert_eq!(Context::List(vec![Context::Integer(1)]).to_string(), "");
    assert!(Context::Float("0".into()).is_truthy());
    assert!(Context::Object(Vec::new()).is_truthy());
    assert!(!Context::List(Vec::new()).is_truthy());
    assert!(!Context::Null.is_truthy());
}

#[test]
fn maps_and_lists_interpolate_as_nothing() {
    let context = MapBuilder::new()
        .map("m", vec![("k".to_string(), Context::Integer(1))])
        .list("l", vec![Context::Integer(1)])
        .build();
    assert_eq!(render("[{{m}}][{{l}}][{{{m}}}]", context), "[][][]");
}

#[test]
fn lookup_in_a_value() {
    let map = MapBuilder::new().integer("a", 1).bool("b", false).build();
    assert!(matches!(map.get(&"a".to_string()), Some(Context::Integer(1))));
    assert!(matches!(map.get(&"b".to_string()), Some(Context::Bool(false))));
    assert!(map.get(&"c".to_string()).is_none());
    assert!(Context::Integer(1).get(&"a".to_string()).is_none());
    assert!(matches!(map.index(&"a".to_string()), Context::Integer(1)));
}

#[test]
fn missing_and_broken_partials_render_nothing() {
    assert_eq!(render_with("[{{>p}}]", empty(), &[]), "[]");
    assert_eq!(render_with("[{{>p}}]", empty(), &[("p", "{{#open}}")]), "[]");
    assert_eq!(render_with("[{{>p}}]", empty(), &[("p", "{{oops")]), "[]");
    assert_eq!(render("[{{>p}}]", empty()), "[]");
}

#[test]
fn partials_that_include_themselves_stop_at_the_depth_limit() {
    let rendered = render_with("{{>p}}", empty(), &[("p", "x{{>p}}")]);
    assert_eq!(rendered, "x".repeat(MAX_PARTIAL_DEPTH));
}

#[test]
fn the_depth_of_partials_can_be_chosen() {
    let template = Template::compile("{{>p}}").unwrap();
    let table = || {
        let mut table = Partials::new();
        table.insert("p", "x{{>p}}");
        table
    };
    assert_eq!(template.render_with_depth(empty(), table(), 0), "");
    assert_eq!(template.render_with_depth(empty(), table(), 3), "xxx");
    assert_eq!(template.render_with_depth(empty(), table(), 1000), "x".repeat(1000));
}

#[test]
fn a_template_renders_many_times() {
    let template = Template::compile("{{#on}}{{n}}{{/on}}{{^on}}off{{/on}}").unwrap();
    let on = MapBuilder::new().bool("on", true).integer("n", 3).build();
    let off = MapBuilder::new().bool("on", false).build();
    assert_eq!(template.render(on), "3");
    assert_eq!(template.render(off), "off");
}
