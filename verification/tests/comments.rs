use stache::{Context, Template};

#[test]
fn comments_comment_stripped() {
    let context = Context::Object(Vec::new());
    let template = Template::compile("12345{{! Comment Block! }}67890\n").unwrap();
    let rendered = template.render(context);
    assert_eq!(rendered, "1234567890\n");
}

#[test]
fn comments_multiline_comment() {
    let context = Context::Object(Vec::from([]));
    let template = Template::compile("12345{{!\n  This is a\n  multi-line comment...\n}}67890\n\n").unwrap();
    let rendered = template.render(context);
    assert_eq!(rendered, "1234567890\n\n");
}

#[test]
fn comments_standalone_comment() {
    let context = Context::Object(Vec::from([]));
    let template = Template::compile("Begin.\n{{! Comment Block! }}\nEnd.\n\n").unwrap();
    let rendered = template.render(context);
    assert_eq!(rendered, "Begin.\nEnd.\n\n");
}

#[test]
fn comments_indented_standalone_comment() {
    let context = Context::Object(Vec::from([]));
    let template = Template::compile("Begin.\n  {{! Indented Comment Block! }}\nEnd.\n\n").unwrap();
    let rendered = template.render(context);
    assert_eq!(rendered, "Begin.\nEnd.\n\n");
}

#[test]
fn comments_win_standalone_line_ending() {
    let context = Context::Object(Vec::from([]));
    let template = Template::compile("|\r\n{{! Standalone Comment }}\r\n|\n").unwrap();
    let rendered = template.render(context);
    assert_eq!(rendered, "|\r\n|\n");
}

#[test]
fn comments_standalone_no_previous_line() {
    let context = Context::Object(Vec::from([]));
    let template = Template::compile("{{! I'm Still Standalone }}\n!\n").unwrap();
    let rendered = template.render(context);
    assert_eq!(rendered, "!\n");
}

#[test]
fn comments_standalone_no_following_line() {
    let context = Context::Object(Vec::from([]));
    let template = Template::compile("!\n  {{! I'm Still Standalone }}\n").unwrap();
    let rendered = template.render(context);
    assert_eq!(rendered, "!\n");
}

#[test]
fn comments_multiline_standalone() {
    let context = Context::Object(Vec::from([]));
    let template = Template::compile("Begin.\n{{!\nSomething's going on here...\n}}\nEnd.\n\n").unwrap();
    let rendered = template.render(context);
    assert_eq!(rendered, "Begin.\nEnd.\n\n");
}

#[test]
fn comments_indented_multiline_standalone() {
    let context = Context::Object(Vec::from([]));
    let template = Template::compile("Begin.\n  {{!\n    Something's going on here...\n  }}\nEnd.\n\n").unwrap();
    let rendered = template.render(context);
    assert_eq!(rendered, "Begin.\nEnd.\n\n");
}

#[test]
fn comments_indented_inline() {
    let context = Context::Object(Vec::from([]));
    let template = Template::compile("12 {{! 34 }}\n\n").unwrap();
    let rendered = template.render(context);
    assert_eq!(rendered, "12 \n\n");
}

#[test]
fn comments_surrounding_whitespace() {
    let context = Context::Object(Vec::from([]));
    let template = Template::compile("12345 {{! Comment Block! }} 67890\n").unwrap();
    let rendered = template.render(context);
    assert_eq!(rendered, "12345  67890\n");
}

#[test]
fn comments_variable_name_collision() {
    let context = Context::Object(Vec::from([
        (String::from("! comment"), Context::Integer(1)),
        (String::from("! comment "), Context::Integer(2)),
        (String::from("!comment"), Context::Integer(3)),
        (String::from("comment"), Context::Integer(4)),
    ]));
    let template = Template::compile("comments never show: >{{! comment }}<\n").unwrap();
    let rendered = template.render(context);
    assert_eq!(rendered, "comments never show: ><\n");
}
