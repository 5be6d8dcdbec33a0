//! Compiled templates and how they render.
//!
//! [`render_node`] defines the text that a tree renders to with a stack of
//! values and a table of partials; [`Template::render`] and
//! [`Template::render_with_partials`] compute it.

use crate::ast::{nodes_view, Node, NodeView, Variant};
use crate::chars::{
    lemma_strings_view_push, push_char, split, split_chars, string_of_range, strings_view, to_chars,
};
use crate::context::{list_view, Context, ContextView};
use crate::error::Result;
use crate::lexer::{
    is_plain, lemma_lex_plain, lemma_strip_literals, lex, literal_text, literal_texts, TokenView,
};
use crate::parser::{compile, lemma_parse_literals, text_nodes, Parser};
use vstd::hash_map::StringHashMap;
use vstd::prelude::*;

verus! {

/// How many partials may be open inside one another while rendering. A
/// partial tag met at that depth renders nothing, which bounds the expansion
/// of partials that include themselves without end.
pub const MAX_PARTIAL_DEPTH: usize = 256;

/// The replacement of `c` in escaped output.
pub open spec fn escape_char(c: char) -> Seq<char> {
    if c == '&' {
        seq!['&', 'a', 'm', 'p', ';']
    } else if c == '>' {
        seq!['&', 'g', 't', ';']
    } else if c == '<' {
        seq!['&', 'l', 't', ';']
    } else if c == '"' {
        seq!['&', 'q', 'u', 'o', 't', ';']
    } else if c == '\'' {
        seq!['&', '#', '3', '9', ';']
    } else {
        seq![c]
    }
}

/// `s` with each of `&`, `>`, `<`, `"` and `'` replaced by its HTML entity.
pub open spec fn escape(s: Seq<char>) -> Seq<char>
    decreases s.len(),
{
    if s.len() == 0 {
        Seq::empty()
    } else {
        escape(s.drop_last()) + escape_char(s.last())
    }
}

/// The index behind the first `'\n'` at or after `i`, or the length of `text`.
pub open spec fn line_end(text: Seq<char>, i: int) -> int
    decreases text.len() - i,
{
    if 0 <= i < text.len() {
        if text[i] == '\n' {
            i + 1
        } else {
            line_end(text, i + 1)
        }
    } else {
        i
    }
}

/// The lines of `text` from `from` on. A line is never empty, see
/// [`lemma_line_end_bounds`].
pub open spec fn lines_from(text: Seq<char>, from: int) -> Seq<Seq<char>>
    decreases text.len() - from,
{
    let end = line_end(text, from);
    if 0 <= from < end <= text.len() {
        seq![text.subrange(from, end)] + lines_from(text, end)
    } else {
        Seq::empty()
    }
}

/// The lines of `text`, each with its `'\n'`; what follows the last `'\n'`
/// is a line too unless it is empty.
pub open spec fn lines(text: Seq<char>) -> Seq<Seq<char>> {
    lines_from(text, 0)
}

/// `lines` joined, each with `prefix` in front of it.
pub open spec fn indent_lines(lines: Seq<Seq<char>>, prefix: Seq<char>) -> Seq<char>
    decreases lines.len(),
{
    if lines.len() == 0 {
        Seq::empty()
    } else {
        indent_lines(lines.drop_last(), prefix) + prefix + lines.last()
    }
}

/// `text` with `prefix` in front of each of its lines.
pub open spec fn indent(text: Seq<char>, prefix: Seq<char>) -> Seq<char> {
    indent_lines(lines(text), prefix)
}

/// The value that `key` is bound to in the innermost of the first `n`
/// entries of `stack` that is a map binding it.
pub open spec fn resolve_first(stack: Seq<ContextView>, key: Seq<char>, n: int) -> Option<
    ContextView,
>
    decreases n,
{
    if n <= 0 || n > stack.len() {
        None
    } else {
        match stack[n - 1].get(key) {
            Some(value) => Some(value),
            None => resolve_first(stack, key, n - 1),
        }
    }
}

/// The value reached from `value` by looking up `segments[from..]` one
/// after the other, each in the map that the one before gave.
pub open spec fn resolve_rest(value: ContextView, segments: Seq<Seq<char>>, from: int) -> Option<
    ContextView,
>
    decreases segments.len() - from,
{
    if from < 0 || from >= segments.len() {
        Some(value)
    } else {
        match value.get(segments[from]) {
            Some(next) => resolve_rest(next, segments, from + 1),
            None => None,
        }
    }
}

/// The value that `path` names on `stack`, whose last entry is the innermost.
///
/// The path `.` names the innermost entry. Any other path is cut at its
/// dots: the first piece is looked up in the entries from the innermost
/// outwards, the others in the value found before them, and a piece that is
/// not found there makes the whole path name nothing.
pub open spec fn resolve(stack: Seq<ContextView>, path: Seq<char>) -> Option<ContextView> {
    if path == seq!['.'] {
        if stack.len() > 0 {
            Some(stack.last())
        } else {
            None
        }
    } else {
        let segments = split(path, '.');
        match resolve_first(stack, segments[0], stack.len() as int) {
            Some(value) => resolve_rest(value, segments, 1),
            None => None,
        }
    }
}

/// The text that `node` renders to.
///
/// `stack` holds the values in scope, the innermost last; `partials` maps the
/// names of partials to their template text; `depth` is the number of
/// partials that may still be opened inside one another.
pub open spec fn render_node(
    node: NodeView,
    stack: Seq<ContextView>,
    partials: Map<Seq<char>, Seq<char>>,
    depth: nat,
) -> Seq<char>
    decreases depth, node, 0nat, 0nat,
{
    match node {
        NodeView::Root(children) => render_nodes(children, stack, partials, depth),
        NodeView::Text(text) => text,
        NodeView::Variable(name, escaped) => {
            let raw = match resolve(stack, name) {
                Some(value) => value.text(),
                None => Seq::empty(),
            };
            if escaped {
                escape(raw)
            } else {
                raw
            }
        },
        NodeView::Section(name, variant, children) => match (variant, resolve(stack, name)) {
            (Variant::Direct, Some(ContextView::List(items))) => render_each(
                children,
                items,
                stack,
                partials,
                depth,
            ),
            (Variant::Direct, Some(value)) => if value.truthy() {
                render_nodes(children, stack.push(value), partials, depth)
            } else {
                Seq::empty()
            },
            (Variant::Direct, None) => Seq::empty(),
            (Variant::Inverse, Some(value)) => if value.truthy() {
                Seq::empty()
            } else {
                render_nodes(children, stack, partials, depth)
            },
            (Variant::Inverse, None) => render_nodes(children, stack, partials, depth),
        },
        NodeView::Partial(name, prefix) => if depth == 0 || !partials.contains_key(name) {
            Seq::empty()
        } else {
            match compile(indent(partials[name], prefix)) {
                Ok(root) => render_node(root, stack, partials, (depth - 1) as nat),
                Err(_) => Seq::empty(),
            }
        },
    }
}

/// The renderings of `nodes`, joined in order.
pub open spec fn render_nodes(
    nodes: Seq<NodeView>,
    stack: Seq<ContextView>,
    partials: Map<Seq<char>, Seq<char>>,
    depth: nat,
) -> Seq<char>
    decreases depth, nodes, 0nat, nodes.len(),
{
    if nodes.len() == 0 {
        Seq::empty()
    } else {
        render_nodes(nodes.drop_last(), stack, partials, depth) + render_node(
            nodes.last(),
            stack,
            partials,
            depth,
        )
    }
}

/// The renderings of `nodes` once for each of `items`, the item innermost on
/// the stack, joined in order.
pub open spec fn render_each(
    nodes: Seq<NodeView>,
    items: Seq<ContextView>,
    stack: Seq<ContextView>,
    partials: Map<Seq<char>, Seq<char>>,
    depth: nat,
) -> Seq<char>
    decreases depth, nodes, 1nat, items.len(),
{
    if items.len() == 0 {
        Seq::empty()
    } else {
        render_each(nodes, items.drop_last(), stack, partials, depth) + render_nodes(
            nodes,
            stack.push(items.last()),
            partials,
            depth,
        )
    }
}

/// The text that the tree `root` renders to with `context` as the only value
/// in scope.
pub open spec fn render(root: NodeView, context: ContextView, partials: Map<Seq<char>, Seq<char>>) -> Seq<
    char,
> {
    render_node(root, seq![context], partials, MAX_PARTIAL_DEPTH as nat)
}

/// `s` with every `from` replaced by `to`.
pub open spec fn replace(s: Seq<char>, from: char, to: Seq<char>) -> Seq<char>
    decreases s.len(),
{
    if s.len() == 0 {
        Seq::empty()
    } else {
        replace(s.drop_last(), from, to) + if s.last() == from {
            to
        } else {
            seq![s.last()]
        }
    }
}

/// The five replacements of escaping made one after the other over the whole
/// text, the ampersand first.
pub open spec fn replace_in_order(s: Seq<char>) -> Seq<char> {
    let s1 = replace(s, '&', escape_char('&'));
    let s2 = replace(s1, '>', escape_char('>'));
    let s3 = replace(s2, '<', escape_char('<'));
    let s4 = replace(s3, '"', escape_char('"'));
    replace(s4, '\'', escape_char('\''))
}

/// Replacing in two texts joined is replacing in each.
proof fn lemma_replace_add(a: Seq<char>, b: Seq<char>, from: char, to: Seq<char>)
    ensures
        replace(a + b, from, to) == replace(a, from, to) + replace(b, from, to),
    decreases b.len(),
{
    if b.len() == 0 {
        assert(a + b == a);
        assert(replace(a, from, to) + Seq::<char>::empty() == replace(a, from, to));
    } else {
        assert((a + b).drop_last() == a + b.drop_last());
        assert((a + b).last() == b.last());
        lemma_replace_add(a, b.drop_last(), from, to);
        let piece = if b.last() == from {
            to
        } else {
            seq![b.last()]
        };
        assert((replace(a, from, to) + replace(b.drop_last(), from, to)) + piece == replace(
            a,
            from,
            to,
        ) + (replace(b.drop_last(), from, to) + piece));
    }
}

/// Replacing a character that does not occur changes nothing.
proof fn lemma_replace_absent(s: Seq<char>, from: char, to: Seq<char>)
    requires
        forall|i: int| 0 <= i < s.len() ==> #[trigger] s[i] != from,
    ensures
        replace(s, from, to) == s,
    decreases s.len(),
{
    if s.len() > 0 {
        lemma_replace_absent(s.drop_last(), from, to);
        assert(s.drop_last() + seq![s.last()] == s);
    } else {
        assert(s == Seq::<char>::empty());
    }
}

/// Replacing in a text of one character.
proof fn lemma_replace_single(c: char, from: char, to: Seq<char>)
    ensures
        replace(seq![c], from, to) == if c == from {
            to
        } else {
            seq![c]
        },
{
    let s = seq![c];
    assert(s.drop_last() == Seq::<char>::empty());
    assert(replace(s.drop_last(), from, to) == Seq::<char>::empty());
    assert(Seq::<char>::empty() + to == to);
    assert(Seq::<char>::empty() + seq![c] == seq![c]);
}

/// The replacements in order turn one character into its escaped form.
proof fn lemma_replace_in_order_single(c: char)
    ensures
        replace_in_order(seq![c]) == escape_char(c),
{
    let amp = escape_char('&');
    let gt = escape_char('>');
    let lt = escape_char('<');
    let quot = escape_char('"');
    let apos = escape_char('\'');
    lemma_replace_single(c, '&', amp);
    lemma_replace_single(c, '>', gt);
    lemma_replace_single(c, '<', lt);
    lemma_replace_single(c, '"', quot);
    lemma_replace_single(c, '\'', apos);
    lemma_replace_absent(amp, '>', gt);
    lemma_replace_absent(amp, '<', lt);
    lemma_replace_absent(amp, '"', quot);
    lemma_replace_absent(amp, '\'', apos);
    lemma_replace_absent(gt, '<', lt);
    lemma_replace_absent(gt, '"', quot);
    lemma_replace_absent(gt, '\'', apos);
    lemma_replace_absent(lt, '"', quot);
    lemma_replace_absent(lt, '\'', apos);
    lemma_replace_absent(quot, '\'', apos);
}

/// The replacements in order over two texts joined are those over each.
proof fn lemma_replace_in_order_add(a: Seq<char>, b: Seq<char>)
    ensures
        replace_in_order(a + b) == replace_in_order(a) + replace_in_order(b),
{
    let a1 = replace(a, '&', escape_char('&'));
    let b1 = replace(b, '&', escape_char('&'));
    lemma_replace_add(a, b, '&', escape_char('&'));
    let a2 = replace(a1, '>', escape_char('>'));
    let b2 = replace(b1, '>', escape_char('>'));
    lemma_replace_add(a1, b1, '>', escape_char('>'));
    let a3 = replace(a2, '<', escape_char('<'));
    let b3 = replace(b2, '<', escape_char('<'));
    lemma_replace_add(a2, b2, '<', escape_char('<'));
    let a4 = replace(a3, '"', escape_char('"'));
    let b4 = replace(b3, '"', escape_char('"'));
    lemma_replace_add(a3, b3, '"', escape_char('"'));
    lemma_replace_add(a4, b4, '\'', escape_char('\''));
}

/// Escaping is what the five replacements give when each is made over the
/// whole text in turn, the ampersand first: no entity is escaped again.
pub proof fn law_escape_replaces_in_order(s: Seq<char>)
    ensures
        escape(s) == replace_in_order(s),
    decreases s.len(),
{
    if s.len() > 0 {
        law_escape_replaces_in_order(s.drop_last());
        lemma_replace_in_order_single(s.last());
        lemma_replace_in_order_add(s.drop_last(), seq![s.last()]);
        assert(s.drop_last() + seq![s.last()] == s);
    }
}

/// How often a direct section named after `value` renders its body: once
/// for each element of a list, once for any other truthy value, and not at
/// all for a value that is missing or falsy.
pub open spec fn repetitions(value: Option<ContextView>) -> nat {
    match value {
        Some(ContextView::List(items)) => items.len(),
        Some(other) => if other.truthy() {
            1
        } else {
            0
        },
        None => 0,
    }
}

/// `text` repeated `n` times.
pub open spec fn repeat(text: Seq<char>, n: nat) -> Seq<char>
    decreases n,
{
    if n == 0 {
        Seq::empty()
    } else {
        repeat(text, (n - 1) as nat) + text
    }
}

/// A body that is one text node renders as that text.
proof fn lemma_render_text_alone(
    text: Seq<char>,
    stack: Seq<ContextView>,
    partials: Map<Seq<char>, Seq<char>>,
    depth: nat,
)
    ensures
        render_nodes(seq![NodeView::Text(text)], stack, partials, depth) == text,
{
    let nodes = seq![NodeView::Text(text)];
    assert(nodes.drop_last() == Seq::<NodeView>::empty());
    assert(render_nodes(nodes.drop_last(), stack, partials, depth) == Seq::<char>::empty());
    assert(render_node(nodes.last(), stack, partials, depth) == text);
    assert(Seq::<char>::empty() + text == text);
}

/// A body that is one text node renders once for each item.
proof fn lemma_render_each_text(
    text: Seq<char>,
    items: Seq<ContextView>,
    stack: Seq<ContextView>,
    partials: Map<Seq<char>, Seq<char>>,
    depth: nat,
)
    ensures
        render_each(seq![NodeView::Text(text)], items, stack, partials, depth) == repeat(
            text,
            items.len(),
        ),
    decreases items.len(),
{
    if items.len() > 0 {
        lemma_render_each_text(text, items.drop_last(), stack, partials, depth);
        lemma_render_text_alone(text, stack.push(items.last()), partials, depth);
    }
}

/// Direct and inverted sections are exact complements: with the same name
/// and the body `text`, the direct section renders `text` once for each
/// repetition that the named value calls for, and the inverted section
/// renders `text` once exactly when the direct one renders nothing.
pub proof fn law_sections_are_complements(
    name: Seq<char>,
    text: Seq<char>,
    stack: Seq<ContextView>,
    partials: Map<Seq<char>, Seq<char>>,
    depth: nat,
)
    ensures
        render_node(
            NodeView::Section(name, Variant::Direct, seq![NodeView::Text(text)]),
            stack,
            partials,
            depth,
        ) == repeat(text, repetitions(resolve(stack, name))),
        render_node(
            NodeView::Section(name, Variant::Inverse, seq![NodeView::Text(text)]),
            stack,
            partials,
            depth,
        ) == if repetitions(resolve(stack, name)) == 0 {
            text
        } else {
            Seq::empty()
        },
        repetitions(resolve(stack, name)) > 0 <==> (resolve(stack, name) matches Some(value)
            && value.truthy()),
{
    let body = seq![NodeView::Text(text)];
    lemma_render_text_alone(text, stack, partials, depth);
    assert(repeat(text, 1) == text) by {
        assert(repeat(text, 0) == Seq::<char>::empty());
        assert(Seq::<char>::empty() + text == text);
    }
    match resolve(stack, name) {
        Some(ContextView::List(items)) => {
            lemma_render_each_text(text, items, stack, partials, depth);
        },
        Some(value) => {
            lemma_render_text_alone(text, stack.push(value), partials, depth);
        },
        None => {},
    }
}

/// Where the first `k` pieces of a dotted path lead to a value, the whole
/// path leads where the remaining pieces lead from that value.
proof fn lemma_resolve_rest_split(
    value: ContextView,
    segments: Seq<Seq<char>>,
    from: int,
    k: int,
)
    requires
        0 <= from <= k <= segments.len(),
    ensures
        resolve_rest(value, segments, from) == match resolve_rest(value, segments.take(k), from) {
            Some(reached) => resolve_rest(reached, segments, k),
            None => None,
        },
    decreases k - from,
{
    if from < k {
        assert(segments.take(k)[from] == segments[from]);
        match value.get(segments[from]) {
            Some(next) => {
                lemma_resolve_rest_split(next, segments, from + 1, k);
            },
            None => {},
        }
    }
}

/// A dotted path never resolves in part: where its first `k` pieces lead to
/// a value that does not bind the next piece, the path names nothing, and a
/// variable of that name renders as nothing.
pub proof fn law_broken_chain_names_nothing(
    stack: Seq<ContextView>,
    path: Seq<char>,
    k: int,
    escaped: bool,
    partials: Map<Seq<char>, Seq<char>>,
    depth: nat,
)
    requires
        path != seq!['.'],
        1 <= k < split(path, '.').len(),
        resolve_first(stack, split(path, '.')[0], stack.len() as int) matches Some(first)
            && resolve_rest(first, split(path, '.').take(k), 1) matches Some(reached)
            && reached.get(split(path, '.')[k]) is None,
    ensures
        resolve(stack, path) is None,
        render_node(NodeView::Variable(path, escaped), stack, partials, depth) == Seq::<
            char,
        >::empty(),
{
    let segments = split(path, '.');
    let first = resolve_first(stack, segments[0], stack.len() as int).unwrap();
    lemma_resolve_rest_split(first, segments, 1, k);
}

/// The first line of `text` from `i` on ends at `end` when no `'\n'` lies
/// before its last character and it ends with `'\n'` or with the text.
proof fn lemma_line_end_is(text: Seq<char>, i: int, end: int)
    requires
        0 <= i < end <= text.len(),
        forall|j: int| i <= j < end - 1 ==> #[trigger] text[j] != '\n',
        text[end - 1] == '\n' || end == text.len(),
    ensures
        line_end(text, i) == end,
    decreases end - i,
{
    if i < end - 1 {
        lemma_line_end_is(text, i + 1, end);
    } else if text[i] != '\n' {
        assert(line_end(text, i + 1) == i + 1);
    }
}

/// What `line_end` finds: a line without a `'\n'` before its last character,
/// which ends with `'\n'` unless it ends the text.
proof fn lemma_line_end_props(text: Seq<char>, i: int)
    requires
        0 <= i < text.len(),
    ensures
        i < line_end(text, i) <= text.len(),
        forall|j: int| i <= j < line_end(text, i) - 1 ==> #[trigger] text[j] != '\n',
        text[line_end(text, i) - 1] == '\n' || line_end(text, i) == text.len(),
    decreases text.len() - i,
{
    if text[i] != '\n' {
        if i + 1 < text.len() {
            lemma_line_end_props(text, i + 1);
        } else {
            assert(line_end(text, i + 1) == i + 1);
        }
    }
}

/// Behind a text put in front, lines end where they ended, shifted.
proof fn lemma_line_end_shift(a: Seq<char>, b: Seq<char>, k: int)
    requires
        0 <= k <= b.len(),
    ensures
        line_end(a + b, a.len() + k) == a.len() + line_end(b, k),
    decreases b.len() - k,
{
    if k < b.len() {
        assert((a + b)[a.len() + k] == b[k]);
        if b[k] != '\n' {
            lemma_line_end_shift(a, b, k + 1);
        }
    }
}

/// Behind a text put in front, the lines are the same.
proof fn lemma_lines_from_shift(a: Seq<char>, b: Seq<char>, k: int)
    requires
        0 <= k <= b.len(),
    ensures
        lines_from(a + b, a.len() + k) == lines_from(b, k),
    decreases b.len() - k,
{
    lemma_line_end_shift(a, b, k);
    lemma_line_end_bounds(b, k);
    if k < b.len() {
        let end = line_end(b, k);
        assert((a + b).subrange(a.len() + k, a.len() + end) == b.subrange(k, end));
        lemma_lines_from_shift(a, b, end);
    }
}

/// A whole line in front of a text is the first of its lines.
proof fn lemma_lines_concat(first: Seq<char>, rest: Seq<char>)
    requires
        first.len() > 0,
        forall|j: int| 0 <= j < first.len() - 1 ==> #[trigger] first[j] != '\n',
        first.last() == '\n' || rest.len() == 0,
    ensures
        lines(first + rest) == seq![first] + lines(rest),
{
    let whole = first + rest;
    let n = first.len() as int;
    assert forall|j: int| 0 <= j < n - 1 implies #[trigger] whole[j] != '\n' by {
        assert(whole[j] == first[j]);
    }
    assert(whole[n - 1] == first.last());
    lemma_line_end_is(whole, 0, n);
    assert(whole.subrange(0, n) == first);
    lemma_lines_from_shift(first, rest, 0);
}

/// Indenting from the front gives what indenting from the back gives.
proof fn lemma_indent_lines_front(line: Seq<char>, rest: Seq<Seq<char>>, prefix: Seq<char>)
    ensures
        indent_lines(seq![line] + rest, prefix) == prefix + line + indent_lines(rest, prefix),
    decreases rest.len(),
{
    let all = seq![line] + rest;
    if rest.len() == 0 {
        assert(all.drop_last() == Seq::<Seq<char>>::empty());
        assert(all.last() == line);
        assert(indent_lines(all.drop_last(), prefix) == Seq::<char>::empty());
        assert(indent_lines(all, prefix) == Seq::<char>::empty() + prefix + line);
        assert(Seq::<char>::empty() + prefix + line == prefix + line + Seq::<char>::empty());
    } else {
        assert(all.drop_last() == seq![line] + rest.drop_last());
        assert(all.last() == rest.last());
        lemma_indent_lines_front(line, rest.drop_last(), prefix);
        assert((prefix + line + indent_lines(rest.drop_last(), prefix)) + prefix + rest.last()
            == prefix + line + (indent_lines(rest.drop_last(), prefix) + prefix + rest.last()));
    }
}

/// The lines of the indented rest of a text are the indented lines of the
/// rest.
proof fn lemma_indented_lines(text: Seq<char>, from: int, prefix: Seq<char>)
    requires
        0 <= from <= text.len(),
        forall|j: int| 0 <= j < prefix.len() ==> #[trigger] prefix[j] != '\n',
    ensures
        lines(indent_lines(lines_from(text, from), prefix)) == lines_from(text, from).map_values(
            |line: Seq<char>| prefix + line,
        ),
    decreases text.len() - from,
{
    let put = |line: Seq<char>| prefix + line;
    if from < text.len() {
        let end = line_end(text, from);
        lemma_line_end_props(text, from);
        let line = text.subrange(from, end);
        let rest = lines_from(text, end);
        lemma_indented_lines(text, end, prefix);
        lemma_indent_lines_front(line, rest, prefix);
        let first = prefix + line;
        let tail = indent_lines(rest, prefix);
        assert(first.last() == line.last());
        assert(line.last() == text[end - 1]);
        assert forall|j: int| 0 <= j < first.len() - 1 implies #[trigger] first[j] != '\n' by {
            if j >= prefix.len() {
                assert(first[j] == text[from + (j - prefix.len())]);
            } else {
                assert(first[j] == prefix[j]);
            }
        }
        if end == text.len() {
            lemma_line_end_bounds(text, end);
            assert(rest == Seq::<Seq<char>>::empty());
            assert(tail == Seq::<char>::empty());
        }
        lemma_lines_concat(first, tail);
        assert((seq![line] + rest).map_values(put) == seq![first] + rest.map_values(put));
    } else {
        assert(lines_from(text, from) == Seq::<Seq<char>>::empty());
        assert(lines_from(text, from).map_values(put) == Seq::<Seq<char>>::empty());
    }
}

/// Indentation reaches every line: the lines of an indented text are the
/// lines of the text, each with the prefix in front of it.
pub proof fn law_indent_prefixes_every_line(text: Seq<char>, prefix: Seq<char>)
    requires
        forall|j: int| 0 <= j < prefix.len() ==> #[trigger] prefix[j] != '\n',
    ensures
        lines(indent(text, prefix)) == lines(text).map_values(|line: Seq<char>| prefix + line),
{
    lemma_indented_lines(text, 0, prefix);
}

/// Text nodes render as their texts joined.
proof fn lemma_render_text_nodes(
    tokens: Seq<TokenView>,
    stack: Seq<ContextView>,
    partials: Map<Seq<char>, Seq<char>>,
    depth: nat,
)
    ensures
        render_nodes(text_nodes(tokens), stack, partials, depth) == literal_texts(tokens),
    decreases tokens.len(),
{
    let nodes = text_nodes(tokens);
    if tokens.len() > 0 {
        lemma_render_text_nodes(tokens.drop_last(), stack, partials, depth);
        assert(nodes.drop_last() == text_nodes(tokens.drop_last()));
        assert(nodes.last() == NodeView::Text(literal_text(tokens.last())));
        assert(render_node(nodes.last(), stack, partials, depth) == literal_text(tokens.last()));
    } else {
        assert(nodes.len() == 0);
        assert(literal_texts(tokens) == Seq::<char>::empty());
    }
}

/// A text without tags renders unchanged: it compiles, and whatever the
/// values and the partials, its rendering is the text itself.
pub proof fn law_plain_text_renders_unchanged(
    text: Seq<char>,
    stack: Seq<ContextView>,
    partials: Map<Seq<char>, Seq<char>>,
    depth: nat,
)
    requires
        is_plain(text),
    ensures
        compile(text) matches Ok(root) && render_node(root, stack, partials, depth) == text,
{
    lemma_lex_plain(text, 0);
    let tokens = lex(text).unwrap();
    lemma_strip_literals(tokens);
    lemma_parse_literals(tokens, 0);
    assert(tokens.subrange(0, tokens.len() as int) == tokens);
    lemma_render_text_nodes(tokens, stack, partials, depth);
    assert(text.subrange(0, text.len() as int) == text);
}

/// A partial whose indented text holds no tag renders as that text: the text
/// of the partial with the indentation of its tag in front of every line.
pub proof fn law_plain_partial_is_indented(
    name: Seq<char>,
    prefix: Seq<char>,
    stack: Seq<ContextView>,
    partials: Map<Seq<char>, Seq<char>>,
    depth: nat,
)
    requires
        depth > 0,
        partials.contains_key(name),
        is_plain(indent(partials[name], prefix)),
        forall|j: int| 0 <= j < prefix.len() ==> #[trigger] prefix[j] != '\n',
    ensures
        render_node(NodeView::Partial(name, prefix), stack, partials, depth) == indent(
            partials[name],
            prefix,
        ),
        lines(render_node(NodeView::Partial(name, prefix), stack, partials, depth)) == lines(
            partials[name],
        ).map_values(|line: Seq<char>| prefix + line),
{
    law_plain_text_renders_unchanged(
        indent(partials[name], prefix),
        stack,
        partials,
        (depth - 1) as nat,
    );
    law_indent_prefixes_every_line(partials[name], prefix);
}

/// A line ends within the text, and behind where it starts unless the text
/// ends there.
pub proof fn lemma_line_end_bounds(text: Seq<char>, i: int)
    requires
        0 <= i <= text.len(),
    ensures
        i <= line_end(text, i) <= text.len(),
        i < text.len() ==> i < line_end(text, i),
    decreases text.len() - i,
{
    if i < text.len() && text[i] != '\n' {
        lemma_line_end_bounds(text, i + 1);
    }
}

/// The table of partials: template texts by name.
pub struct Partials {
    table: StringHashMap<String>,
}

impl View for Partials {
    type V = Map<Seq<char>, Seq<char>>;

    closed spec fn view(&self) -> Map<Seq<char>, Seq<char>> {
        self.table@.map_values(|text: String| text@)
    }
}

impl Partials {
    /// A table without partials.
    pub fn new() -> (out: Self)
        ensures
            out@ == Map::<Seq<char>, Seq<char>>::empty(),
    {
        let out = Partials { table: StringHashMap::new() };
        assert(out@ =~= Map::<Seq<char>, Seq<char>>::empty());
        out
    }

    /// Gives the partial `name` the template text `text`, in place of what
    /// it had.
    pub fn insert(&mut self, name: &str, text: &str)
        ensures
            final(self)@ == old(self)@.insert(name@, text@),
    {
        let text = String::from_str(text);
        self.table.insert(String::from_str(name), text);
        assert(self@ =~= old(self)@.insert(name@, text@));
    }

    /// The template text of the partial `name`.
    pub fn get(&self, name: &str) -> (r: Option<&String>)
        ensures
            match r {
                Some(text) => self@.contains_key(name@) && self@[name@] == text@,
                None => !self@.contains_key(name@),
            },
    {
        self.table.get(name)
    }
}

/// The views of the values on a stack, outermost first.
pub open spec fn stack_view(stack: Seq<&Context>) -> Seq<ContextView> {
    stack.map_values(|c: &Context| c@)
}

/// The values in scope while rendering, the innermost last.
pub struct ContextResolver<'a> {
    stack: Vec<&'a Context>,
}

impl<'a> View for ContextResolver<'a> {
    type V = Seq<ContextView>;

    closed spec fn view(&self) -> Seq<ContextView> {
        stack_view(self.stack@)
    }
}

impl<'a> ContextResolver<'a> {
    /// A stack that holds `base` alone.
    pub fn new(base: &'a Context) -> (out: Self)
        ensures
            out@ == seq![base@],
    {
        let mut stack: Vec<&'a Context> = Vec::new();
        stack.push(base);
        let out = ContextResolver { stack };
        assert(out@ =~= seq![base@]);
        out
    }

    /// This stack with `context` as its new innermost value.
    pub fn push(&self, context: &'a Context) -> (out: Self)
        ensures
            out@ == self@.push(context@),
    {
        let mut stack: Vec<&'a Context> = Vec::new();
        let mut i: usize = 0;
        while i < self.stack.len()
            invariant
                i <= self.stack.len(),
                stack@ == self.stack@.take(i as int),
            decreases self.stack.len() - i,
        {
            stack.push(self.stack[i]);
            i = i + 1;
        }
        assert(stack@ == self.stack@);
        stack.push(context);
        let out = ContextResolver { stack };
        assert(out@ =~= self@.push(context@));
        out
    }

    /// The value that `name` resolves to.
    pub fn get(&self, name: &String) -> (r: Option<&'a Context>)
        ensures
            match resolve(self@, name@) {
                Some(value) => r matches Some(found) && found@ == value,
                None => r is None,
            },
    {
        let chars = to_chars(name.as_str());
        if chars.len() == 1 && chars[0] == '.' {
            assert(name@ == seq!['.']);
            if self.stack.len() > 0 {
                return Some(self.stack[self.stack.len() - 1]);
            } else {
                return None;
            }
        }
        assert(name@ != seq!['.']) by {
            if name@ == seq!['.'] {
                assert(name@.len() == 1 && name@[0] == '.');
            }
        }
        let segments = split_chars(&chars, '.');
        let ghost pieces = strings_view(segments@);
        let mut n: usize = self.stack.len();
        let mut first: Option<&'a Context> = None;
        while n > 0
            invariant_except_break
                first is None,
                resolve_first(self@, pieces[0], self.stack.len() as int) == resolve_first(
                    self@,
                    pieces[0],
                    n as int,
                ),
            invariant
                n <= self.stack.len(),
                segments@.len() > 0,
                pieces == strings_view(segments@),
            ensures
                match resolve_first(self@, pieces[0], self.stack.len() as int) {
                    Some(value) => first matches Some(found) && found@ == value,
                    None => first is None,
                },
            decreases n,
        {
            n = n - 1;
            assert(self@[n as int] == self.stack@[n as int]@);
            assert(pieces[0] == segments@[0]@);
            match self.stack[n].get(&segments[0]) {
                Some(found) => {
                    first = Some(found);
                    break ;
                },
                None => {},
            }
        }
        let mut current: &'a Context = match first {
            Some(found) => found,
            None => {
                return None;
            },
        };
        let mut k: usize = 1;
        while k < segments.len()
            invariant
                1 <= k <= segments.len(),
                pieces == strings_view(segments@),
                resolve(self@, name@) == resolve_rest(current@, pieces, k as int),
            decreases segments.len() - k,
        {
            assert(pieces[k as int] == segments@[k as int]@);
            match current.get(&segments[k]) {
                Some(next) => {
                    current = next;
                },
                None => {
                    return None;
                },
            }
            k = k + 1;
        }
        Some(current)
    }
}

/// A compiled template: the tree of a template text, ready to be rendered
/// any number of times.
pub struct Template {
    root: Node,
}

impl View for Template {
    type V = NodeView;

    closed spec fn view(&self) -> NodeView {
        self.root@
    }
}

impl Template {
    /// Compiles `text`.
    ///
    /// Fails where a tag or a section is left open, a delimiter change is
    /// incomplete, or an end tag does not match the innermost open section.
    pub fn compile(text: &str) -> (r: Result<Template>)
        ensures
            match compile(text@) {
                Ok(root) => r matches Ok(template) && template@ == root,
                Err(e) => r matches Err(f) && f == e,
            },
    {
        match Parser::parse(text) {
            Ok(root) => Ok(Template { root }),
            Err(e) => Err(e),
        }
    }

    /// Renders the template with `context`, without any partials.
    pub fn render(&self, context: Context) -> (out: String)
        ensures
            out@ == render(self@, context@, Map::empty()),
    {
        self.render_with_depth(context, Partials::new(), MAX_PARTIAL_DEPTH)
    }

    /// Renders the template with `context` and the partials of `partials`.
    /// Partials may be open inside one another up to [`MAX_PARTIAL_DEPTH`].
    pub fn render_with_partials(&self, context: Context, partials: Partials) -> (out: String)
        ensures
            out@ == render(self@, context@, partials@),
    {
        self.render_with_depth(context, partials, MAX_PARTIAL_DEPTH)
    }

    /// Renders the template with `context` and the partials of `partials`,
    /// where at most `depth` partials may be open inside one another. With
    /// `usize::MAX` the expansion of partials is bounded by the call stack
    /// alone.
    pub fn render_with_depth(
        &self,
        context: Context,
        partials: Partials,
        depth: usize,
    ) -> (out: String)
        ensures
            out@ == render_node(self@, seq![context@], partials@, depth as nat),
    {
        Self::render_node(&self.root, &ContextResolver::new(&context), &partials, depth)
    }

    /// Renders `node` with the values of `resolver` in scope.
    pub fn render_node(
        node: &Node,
        resolver: &ContextResolver,
        partials: &Partials,
        depth: usize,
    ) -> (out: String)
        ensures
            out@ == render_node(node@, resolver@, partials@, depth as nat),
        decreases depth, node, 0nat,
    {
        match node {
            Node::Root(x) => Self::render_children(&x.children, resolver, partials, depth),
            Node::Text(x) => x.clone(),
            Node::Variable(x) => {
                let raw = match resolver.get(&x.name) {
                    Some(value) => value.to_string(),
                    None => String::new(),
                };
                if x.escaped {
                    Self::escape(raw.as_str())
                } else {
                    raw
                }
            },
            Node::Section(x) => {
                let value = resolver.get(&x.name);
                match x.variant {
                    Variant::Direct => match value {
                        None => String::new(),
                        Some(Context::List(items)) => {
                            let mut out = String::new();
                            let mut i: usize = 0;
                            let ghost all = list_view(items@);
                            assert(all.take(0) == Seq::<ContextView>::empty());
                            while i < items.len()
                                invariant
                                    i <= items.len(),
                                    all == list_view(items@),
                                    decreases_to!(node => x.children),
                                    out@ == render_each(
                                        nodes_view(x.children@),
                                        all.take(i as int),
                                        resolver@,
                                        partials@,
                                        depth as nat,
                                    ),
                                decreases items.len() - i,
                            {
                                let inner = resolver.push(&items[i]);
                                let piece = Self::render_children(
                                    &x.children,
                                    &inner,
                                    partials,
                                    depth,
                                );
                                proof {
                                    assert(all.take(i + 1).drop_last() == all.take(i as int));
                                    assert(all.take(i + 1).last() == items@[i as int]@);
                                }
                                out.append(piece.as_str());
                                i = i + 1;
                            }
                            assert(all.take(items.len() as int) == all);
                            out
                        },
                        Some(found) => {
                            if found.is_truthy() {
                                Self::render_children(
                                    &x.children,
                                    &resolver.push(found),
                                    partials,
                                    depth,
                                )
                            } else {
                                String::new()
                            }
                        },
                    },
                    Variant::Inverse => match value {
                        None => Self::render_children(&x.children, resolver, partials, depth),
                        Some(found) => {
                            if found.is_truthy() {
                                String::new()
                            } else {
                                Self::render_children(&x.children, resolver, partials, depth)
                            }
                        },
                    },
                }
            },
            Node::Partial(x) => {
                if depth == 0 {
                    return String::new();
                }
                match partials.get(x.name.as_str()) {
                    None => String::new(),
                    Some(text) => {
                        let indented = Self::indent(text.as_str(), x.indent.as_str());
                        match Template::compile(indented.as_str()) {
                            Err(_) => String::new(),
                            Ok(template) => Self::render_node(
                                &template.root,
                                resolver,
                                partials,
                                depth - 1,
                            ),
                        }
                    },
                }
            },
        }
    }

    /// Renders `children` one after the other.
    fn render_children(
        children: &Vec<Node>,
        resolver: &ContextResolver,
        partials: &Partials,
        depth: usize,
    ) -> (out: String)
        ensures
            out@ == render_nodes(nodes_view(children@), resolver@, partials@, depth as nat),
        decreases depth, children, 1nat,
    {
        let mut out = String::new();
        let mut i: usize = 0;
        let ghost all = nodes_view(children@);
        assert(all.take(0) == Seq::<NodeView>::empty());
        while i < children.len()
            invariant
                i <= children.len(),
                all == nodes_view(children@),
                out@ == render_nodes(all.take(i as int), resolver@, partials@, depth as nat),
            decreases children.len() - i,
        {
            proof {
                vstd::std_specs::vec::axiom_vec_index_decreases(*children, i as int);
                assert(all.take(i + 1).drop_last() == all.take(i as int));
                assert(all.take(i + 1).last() == children@[i as int]@);
            }
            let piece = Self::render_node(&children[i], resolver, partials, depth);
            out.append(piece.as_str());
            i = i + 1;
        }
        assert(all.take(children.len() as int) == all);
        out
    }

    /// `input` with the characters that HTML gives a meaning replaced by
    /// their entities.
    pub fn escape(input: &str) -> (out: String)
        ensures
            out@ == escape(input@),
    {
        let chars = to_chars(input);
        let mut out = String::new();
        let mut i: usize = 0;
        assert(chars@.take(0) == Seq::<char>::empty());
        while i < chars.len()
            invariant
                i <= chars.len(),
                out@ == escape(chars@.take(i as int)),
            decreases chars.len() - i,
        {
            let c = chars[i];
            proof {
                assert(chars@.take(i + 1).drop_last() == chars@.take(i as int));
                assert(chars@.take(i + 1).last() == c);
                reveal_strlit("&amp;");
                reveal_strlit("&gt;");
                reveal_strlit("&lt;");
                reveal_strlit("&quot;");
                reveal_strlit("&#39;");
            }
            if c == '&' {
                out.append("&amp;");
                assert(out@ == escape(chars@.take(i as int)) + escape_char(c));
            } else if c == '>' {
                out.append("&gt;");
                assert(out@ == escape(chars@.take(i as int)) + escape_char(c));
            } else if c == '<' {
                out.append("&lt;");
                assert(out@ == escape(chars@.take(i as int)) + escape_char(c));
            } else if c == '"' {
                out.append("&quot;");
                assert(out@ == escape(chars@.take(i as int)) + escape_char(c));
            } else if c == '\'' {
                out.append("&#39;");
                assert(out@ == escape(chars@.take(i as int)) + escape_char(c));
            } else {
                push_char(&mut out, c);
                assert(out@ == escape(chars@.take(i as int)) + escape_char(c));
            }
            i = i + 1;
        }
        assert(chars@.take(chars.len() as int) == chars@);
        out
    }

    /// `partial` with `prefix` in front of each of its lines.
    pub fn indent(partial: &str, prefix: &str) -> (out: String)
        ensures
            out@ == indent(partial@, prefix@),
    {
        let lines = Self::lines(partial);
        let mut out = String::new();
        let mut i: usize = 0;
        let ghost all = strings_view(lines@);
        assert(all.take(0) == Seq::<Seq<char>>::empty());
        while i < lines.len()
            invariant
                i <= lines.len(),
                all == strings_view(lines@),
                out@ == indent_lines(all.take(i as int), prefix@),
            decreases lines.len() - i,
        {
            proof {
                assert(all.take(i + 1).drop_last() == all.take(i as int));
                assert(all.take(i + 1).last() == lines@[i as int]@);
            }
            out.append(prefix);
            out.append(lines[i].as_str());
            i = i + 1;
        }
        assert(all.take(lines.len() as int) == all);
        out
    }

    /// The lines of `input`, each with its line ending.
    pub fn lines(input: &str) -> (out: Vec<String>)
        ensures
            strings_view(out@) == lines(input@),
    {
        let chars = to_chars(input);
        let mut out: Vec<String> = Vec::new();
        let mut start: usize = 0;
        assert(strings_view(out@) + lines_from(chars@, 0) == lines(chars@));
        while start < chars.len()
            invariant
                start <= chars.len(),
                chars@ == input@,
                strings_view(out@) + lines_from(chars@, start as int) == lines(chars@),
            decreases chars.len() - start,
        {
            let mut end: usize = start;
            while end < chars.len() && chars[end] != '\n'
                invariant
                    start <= end <= chars.len(),
                    line_end(chars@, start as int) == line_end(chars@, end as int),
                decreases chars.len() - end,
            {
                end = end + 1;
            }
            if end < chars.len() {
                end = end + 1;
            }
            let line = string_of_range(&chars, start, end);
            proof {
                lemma_strings_view_push(out@, line);
                assert(strings_view(out@).push(line@) + lines_from(chars@, end as int)
                    == strings_view(out@) + (seq![line@] + lines_from(chars@, end as int)));
            }
            out.push(line);
            start = end;
        }
        assert(strings_view(out@) + Seq::<Seq<char>>::empty() == strings_view(out@));
        out
    }
}

} // verus!
