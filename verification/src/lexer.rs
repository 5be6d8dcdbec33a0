//! From template text to tokens.
//!
//! The token stream of a text is defined by [`lex`]: [`token_at`] says which
//! token starts at a position under the delimiters in force, [`lex_from`]
//! chains the tokens and lets a delimiter change take effect for what follows
//! it, and [`strip_standalone`] removes the white space around tags that stand
//! alone on their line.

use crate::ast::Variant;
use crate::chars::{
    find_at, find_from, first_word, has_prefix_at, is_blank, lemma_find_from, lemma_words_nonempty,
    starts_with_at, string_of_range, to_chars, trim, trim_bounds, words,
};
use crate::error::{Error, Result};
use vstd::prelude::*;

verus! {

/// A piece of a template text: literal text, or a tag.
#[derive(Debug, PartialEq)]
pub enum Token {
    Text(String),
    Newline(String),
    Whitespace(String),
    Variable(String, bool),
    SectionStart(String, Variant),
    SectionEnd(String),
    Partial(String, String),
    SetDelim(String, String),
    Comment,
}

/// The mathematical value of a [`Token`].
pub enum TokenView {
    /// Literal text that holds no line ending.
    Text(Seq<char>),
    /// A line ending, `"\n"` or `"\r\n"`, kept as written.
    Newline(Seq<char>),
    /// A run of spaces and tabs.
    Whitespace(Seq<char>),
    /// A variable tag: its name, and whether its value is to be escaped.
    Variable(Seq<char>, bool),
    SectionStart(Seq<char>, Variant),
    SectionEnd(Seq<char>),
    /// A partial tag: its name, and the indentation it was found at.
    Partial(Seq<char>, Seq<char>),
    /// A delimiter change: the new opening and closing delimiters.
    SetDelim(Seq<char>, Seq<char>),
    Comment,
}

impl View for Token {
    type V = TokenView;

    open spec fn view(&self) -> TokenView {
        match self {
            Token::Text(x) => TokenView::Text(x@),
            Token::Newline(x) => TokenView::Newline(x@),
            Token::Whitespace(x) => TokenView::Whitespace(x@),
            Token::Variable(x, e) => TokenView::Variable(x@, *e),
            Token::SectionStart(x, v) => TokenView::SectionStart(x@, *v),
            Token::SectionEnd(x) => TokenView::SectionEnd(x@),
            Token::Partial(x, i) => TokenView::Partial(x@, i@),
            Token::SetDelim(o, c) => TokenView::SetDelim(o@, c@),
            Token::Comment => TokenView::Comment,
        }
    }
}

impl Clone for Token {
    fn clone(&self) -> (out: Self)
        ensures
            out@ == self@,
    {
        match self {
            Token::Text(x) => Token::Text(x.clone()),
            Token::Newline(x) => Token::Newline(x.clone()),
            Token::Whitespace(x) => Token::Whitespace(x.clone()),
            Token::Variable(x, e) => Token::Variable(x.clone(), *e),
            Token::SectionStart(x, v) => Token::SectionStart(x.clone(), *v),
            Token::SectionEnd(x) => Token::SectionEnd(x.clone()),
            Token::Partial(x, i) => Token::Partial(x.clone(), i.clone()),
            Token::SetDelim(o, c) => Token::SetDelim(o.clone(), c.clone()),
            Token::Comment => Token::Comment,
        }
    }
}

/// The views of `tokens`, element by element.
pub open spec fn tokens_view(tokens: Seq<Token>) -> Seq<TokenView> {
    tokens.map_values(|t: Token| t@)
}

/// What a scanner makes of a position in the text.
pub enum Scan {
    /// Nothing that the scanner recognises starts here.
    Pass,
    /// What starts here is recognised and malformed.
    Malformed,
    /// A token, and the number of characters it spans.
    Token(TokenView, int),
}

/// The opening delimiter that a text starts out with.
pub open spec fn default_open() -> Seq<char> {
    seq!['{', '{']
}

/// The closing delimiter that a text starts out with.
pub open spec fn default_close() -> Seq<char> {
    seq!['}', '}']
}

/// A delimiter change `<open>=NEW_OPEN NEW_CLOSE=<close>` at `pos`.
///
/// The tag ends at the first `=<close>` behind `<open>=`; the new delimiters
/// are the first two words in between, and fewer than two make it malformed.
pub open spec fn set_delim_at(text: Seq<char>, pos: int, open: Seq<char>, close: Seq<char>) -> Scan {
    let start = pos + open.len() + 1;
    if !has_prefix_at(text, open.push('='), pos) {
        Scan::Pass
    } else {
        match find_from(text, seq!['='] + close, start) {
            None => Scan::Malformed,
            Some(end) => {
                let w = words(text.subrange(start, end));
                if w.len() < 2 {
                    Scan::Malformed
                } else {
                    Scan::Token(TokenView::SetDelim(w[0], w[1]), end + 1 + close.len() - pos)
                }
            },
        }
    }
}

/// An unescaped variable `<open>{name}<close>` at `pos`.
pub open spec fn triple_at(text: Seq<char>, pos: int, open: Seq<char>, close: Seq<char>) -> Scan {
    let start = pos + open.len() + 1;
    if !has_prefix_at(text, open.push('{'), pos) {
        Scan::Pass
    } else {
        match find_from(text, seq!['}'] + close, start) {
            None => Scan::Malformed,
            Some(end) => Scan::Token(
                TokenView::Variable(trim(text.subrange(start, end)), false),
                end + 1 + close.len() - pos,
            ),
        }
    }
}

/// The token that a tag with the given content, delimiters excluded, stands for.
///
/// A leading sigil selects the kind of tag and the trimmed remainder is the
/// name; content without a sigil names an escaped variable.
pub open spec fn tag_token(content: Seq<char>) -> TokenView {
    if content.len() == 0 {
        TokenView::Variable(Seq::empty(), true)
    } else {
        let c = content[0];
        let name = trim(content.skip(1));
        if c == '#' {
            TokenView::SectionStart(name, Variant::Direct)
        } else if c == '^' {
            TokenView::SectionStart(name, Variant::Inverse)
        } else if c == '/' {
            TokenView::SectionEnd(name)
        } else if c == '>' {
            TokenView::Partial(name, Seq::empty())
        } else if c == '&' {
            TokenView::Variable(name, false)
        } else if c == '!' {
            TokenView::Comment
        } else {
            TokenView::Variable(trim(content), true)
        }
    }
}

/// A tag `<open>content<close>` at `pos`, closed by the first `<close>` behind
/// the opening delimiter.
pub open spec fn tag_at(text: Seq<char>, pos: int, open: Seq<char>, close: Seq<char>) -> Scan {
    let start = pos + open.len();
    if !has_prefix_at(text, open, pos) {
        Scan::Pass
    } else {
        match find_from(text, close, start) {
            None => Scan::Malformed,
            Some(end) => Scan::Token(tag_token(text.subrange(start, end)), end + close.len() - pos),
        }
    }
}

/// Whether a line ending starts at `i`.
pub open spec fn newline_starts(text: Seq<char>, i: int) -> bool {
    &&& 0 <= i < text.len()
    &&& (text[i] == '\n' || (text[i] == '\r' && i + 1 < text.len() && text[i + 1] == '\n'))
}

/// A line ending at `pos`.
pub open spec fn newline_at(text: Seq<char>, pos: int) -> Scan {
    if !newline_starts(text, pos) {
        Scan::Pass
    } else if text[pos] == '\n' {
        Scan::Token(TokenView::Newline(seq!['\n']), 1)
    } else {
        Scan::Token(TokenView::Newline(seq!['\r', '\n']), 2)
    }
}

/// The first index at or after `i` that holds neither a space nor a tab.
pub open spec fn blank_end(text: Seq<char>, i: int) -> int
    decreases text.len() - i,
{
    if 0 <= i < text.len() && is_blank(text[i]) {
        blank_end(text, i + 1)
    } else {
        i
    }
}

/// A run of spaces and tabs at `pos`.
pub open spec fn blank_at(text: Seq<char>, pos: int) -> Scan {
    let end = blank_end(text, pos);
    if end > pos {
        Scan::Token(TokenView::Whitespace(text.subrange(pos, end)), end - pos)
    } else {
        Scan::Pass
    }
}

/// The first index at or after `i` where an opening delimiter or a line
/// ending starts, or the length of the text.
pub open spec fn text_end(text: Seq<char>, i: int, open: Seq<char>) -> int
    decreases text.len() - i,
{
    if 0 <= i < text.len() && !has_prefix_at(text, open, i) && !newline_starts(text, i) {
        text_end(text, i + 1, open)
    } else {
        i
    }
}

/// The literal text at `pos`, up to the next opening delimiter or line ending.
pub open spec fn text_at(text: Seq<char>, pos: int, open: Seq<char>) -> Scan {
    let end = text_end(text, pos, open);
    Scan::Token(TokenView::Text(text.subrange(pos, end)), end - pos)
}

/// The token that starts at `pos` under the delimiters `open` and `close`:
/// the first of delimiter change, unescaped variable, tag, line ending, blank
/// run and literal text that applies. `Pass` stands for the end of the text.
pub open spec fn token_at(text: Seq<char>, pos: int, open: Seq<char>, close: Seq<char>) -> Scan {
    if pos < 0 || pos >= text.len() {
        Scan::Pass
    } else if !(set_delim_at(text, pos, open, close) is Pass) {
        set_delim_at(text, pos, open, close)
    } else if !(triple_at(text, pos, open, close) is Pass) {
        triple_at(text, pos, open, close)
    } else if !(tag_at(text, pos, open, close) is Pass) {
        tag_at(text, pos, open, close)
    } else if !(newline_at(text, pos) is Pass) {
        newline_at(text, pos)
    } else if !(blank_at(text, pos) is Pass) {
        blank_at(text, pos)
    } else {
        text_at(text, pos, open)
    }
}

/// The opening delimiter in force behind `token`.
pub open spec fn open_after(token: TokenView, open: Seq<char>) -> Seq<char> {
    match token {
        TokenView::SetDelim(o, _) => o,
        _ => open,
    }
}

/// The closing delimiter in force behind `token`.
pub open spec fn close_after(token: TokenView, close: Seq<char>) -> Seq<char> {
    match token {
        TokenView::SetDelim(_, c) => c,
        _ => close,
    }
}

/// What `blank_end` finds: a run of blanks that ends before a character of
/// another kind or with the text.
pub proof fn lemma_blank_end_bounds(text: Seq<char>, i: int)
    requires
        0 <= i <= text.len(),
    ensures
        i <= blank_end(text, i) <= text.len(),
        forall|k: int| i <= k < blank_end(text, i) ==> is_blank(#[trigger] text[k]),
        blank_end(text, i) < text.len() ==> !is_blank(text[blank_end(text, i)]),
    decreases text.len() - i,
{
    if i < text.len() && is_blank(text[i]) {
        lemma_blank_end_bounds(text, i + 1);
    }
}

/// What `text_end` finds: a run in which neither an opening delimiter nor
/// a line ending starts, and which ends where one does or with the text.
pub proof fn lemma_text_end_bounds(text: Seq<char>, i: int, open: Seq<char>)
    requires
        0 <= i <= text.len(),
    ensures
        i <= text_end(text, i, open) <= text.len(),
        forall|k: int| i <= k < text_end(text, i, open) ==> !#[trigger] has_prefix_at(text, open, k),
        forall|k: int| i <= k < text_end(text, i, open) ==> !#[trigger] newline_starts(text, k),
        text_end(text, i, open) < text.len() ==> has_prefix_at(text, open, text_end(text, i, open))
            || newline_starts(text, text_end(text, i, open)),
    decreases text.len() - i,
{
    if i < text.len() && !has_prefix_at(text, open, i) && !newline_starts(text, i) {
        lemma_text_end_bounds(text, i + 1, open);
    }
}

/// A token spans at least one character and ends within the text, and the
/// delimiters in force behind it are not empty.
pub proof fn lemma_token_at_advances(text: Seq<char>, pos: int, open: Seq<char>, close: Seq<char>)
    requires
        open.len() > 0,
        close.len() > 0,
    ensures
        token_at(text, pos, open, close) matches Scan::Token(tok, len) ==> {
            &&& 0 < len
            &&& pos + len <= text.len()
            &&& open_after(tok, open).len() > 0
            &&& close_after(tok, close).len() > 0
        },
{
    if 0 <= pos < text.len() {
        if !(set_delim_at(text, pos, open, close) is Pass) {
            let start = pos + open.len() + 1;
            lemma_find_from(text, seq!['='] + close, start);
            if let Some(end) = find_from(text, seq!['='] + close, start) {
                let w = words(text.subrange(start, end));
                if w.len() >= 2 {
                    lemma_words_nonempty(text.subrange(start, end), 0);
                    lemma_words_nonempty(text.subrange(start, end), 1);
                }
            }
        } else if !(triple_at(text, pos, open, close) is Pass) {
            lemma_find_from(text, seq!['}'] + close, pos + open.len() + 1);
        } else if !(tag_at(text, pos, open, close) is Pass) {
            lemma_find_from(text, close, pos + open.len());
        } else if !(newline_at(text, pos) is Pass) {
        } else if !(blank_at(text, pos) is Pass) {
            lemma_blank_end_bounds(text, pos);
        } else {
            lemma_text_end_bounds(text, pos, open);
        }
    }
}

/// The tokens of `text` from `pos` on, scanned under the delimiters `open`
/// and `close`, or the failure that the first malformed tag causes. A
/// delimiter change is a token itself and governs the scanning behind it.
///
/// Defined for delimiters that are not empty: then every token spans at
/// least one character, see [`lemma_token_at_advances`].
pub open spec fn lex_from(text: Seq<char>, pos: int, open: Seq<char>, close: Seq<char>) -> Result<
    Seq<TokenView>,
>
    decreases text.len() - pos,
    when open.len() > 0 && close.len() > 0
{
    match token_at(text, pos, open, close) {
        Scan::Pass => Ok(Seq::empty()),
        Scan::Malformed => Err(Error::Parse),
        Scan::Token(tok, len) => {
            proof {
                lemma_token_at_advances(text, pos, open, close);
            }
            match lex_from(text, pos + len, open_after(tok, open), close_after(tok, close)) {
                Ok(rest) => Ok(seq![tok] + rest),
                Err(e) => Err(e),
            }
        },
    }
}

/// A delimiter change takes effect at once: the tokens behind it are those
/// of the rest of the text under the new delimiters, whatever the delimiters
/// were before.
pub proof fn law_delimiter_change_governs_the_rest(
    text: Seq<char>,
    pos: int,
    open: Seq<char>,
    close: Seq<char>,
)
    requires
        open.len() > 0,
        close.len() > 0,
        token_at(text, pos, open, close) matches Scan::Token(TokenView::SetDelim(_, _), _),
    ensures
        token_at(text, pos, open, close) matches Scan::Token(TokenView::SetDelim(o, c), len)
            && lex_from(text, pos, open, close) == match lex_from(text, pos + len, o, c) {
            Ok(rest) => Ok::<Seq<TokenView>, Error>(seq![TokenView::SetDelim(o, c)] + rest),
            Err(e) => Err(e),
        },
{
    lemma_token_at_advances(text, pos, open, close);
}

/// The tokens of `text` as scanned, before standalone lines are stripped.
pub open spec fn lex(text: Seq<char>) -> Result<Seq<TokenView>> {
    lex_from(text, 0, default_open(), default_close())
}

/// Whether `token` is literal text or a variable.
pub open spec fn is_text_or_var(token: TokenView) -> bool {
    token is Text || token is Variable
}

/// Whether `token` is a tag that renders nothing by itself: a section start
/// or end, a partial, a delimiter change or a comment.
pub open spec fn is_special_tag(token: TokenView) -> bool {
    token is SectionStart || token is SectionEnd || token is Partial || token is SetDelim
        || token is Comment
}

/// The number of tokens in the first line of `tokens`: those up to and
/// including the first line ending, or all of them where there is none.
pub open spec fn line_len(tokens: Seq<TokenView>) -> int
    decreases tokens.len(),
{
    if tokens.len() == 0 {
        0
    } else if tokens[0] is Newline {
        1
    } else {
        1 + line_len(tokens.drop_first())
    }
}

/// The number of special tags among `line`.
pub open spec fn count_special(line: Seq<TokenView>) -> nat
    decreases line.len(),
{
    if line.len() == 0 {
        0
    } else {
        count_special(line.drop_last()) + if is_special_tag(line.last()) {
            1nat
        } else {
            0nat
        }
    }
}

/// Whether `line` holds literal text or a variable.
pub open spec fn has_text_or_var(line: Seq<TokenView>) -> bool {
    exists|i: int| 0 <= i < line.len() && is_text_or_var(#[trigger] line[i])
}

/// A line is standalone when it holds exactly one special tag and, besides
/// it, only blanks and its line ending.
pub open spec fn is_standalone(line: Seq<TokenView>) -> bool {
    !has_text_or_var(line) && count_special(line) == 1
}

/// The index of the first special tag in `line`, or its length.
pub open spec fn first_special(line: Seq<TokenView>) -> int
    decreases line.len(),
{
    if line.len() == 0 || is_special_tag(line[0]) {
        0
    } else {
        1 + first_special(line.drop_first())
    }
}

/// The blanks among the first `n` tokens of `line`, joined.
pub open spec fn blank_prefix(line: Seq<TokenView>, n: int) -> Seq<char>
    decreases n,
{
    if n <= 0 || n > line.len() {
        Seq::empty()
    } else {
        blank_prefix(line, n - 1) + match line[n - 1] {
            TokenView::Whitespace(s) => s,
            _ => Seq::empty(),
        }
    }
}

/// What is left of a standalone line: its tag. A partial takes the blanks in
/// front of it as its indentation.
pub open spec fn standalone_tag(line: Seq<TokenView>) -> TokenView {
    let p = first_special(line);
    match line[p] {
        TokenView::Partial(name, _) => TokenView::Partial(name, blank_prefix(line, p)),
        other => other,
    }
}

/// A line with the standalone rule applied: a standalone line keeps its tag
/// alone, any other line stays as it is.
pub open spec fn strip_line(line: Seq<TokenView>) -> Seq<TokenView> {
    if is_standalone(line) {
        seq![standalone_tag(line)]
    } else {
        line
    }
}

/// `tokens` with the standalone rule applied to each of its lines, the first
/// line first. A first line is never empty, see [`lemma_line_len_bounds`].
pub open spec fn strip_standalone(tokens: Seq<TokenView>) -> Seq<TokenView>
    decreases tokens.len(),
{
    let n = line_len(tokens);
    if 0 < n <= tokens.len() {
        strip_line(tokens.take(n)) + strip_standalone(tokens.skip(n))
    } else {
        Seq::empty()
    }
}

/// The tokens that a text compiles from: scanned, then stripped.
pub open spec fn tokenize(text: Seq<char>) -> Result<Seq<TokenView>> {
    match lex(text) {
        Ok(tokens) => Ok(strip_standalone(tokens)),
        Err(e) => Err(e),
    }
}

/// The first line lies within the tokens and is empty only where they are.
pub proof fn lemma_line_len_bounds(tokens: Seq<TokenView>)
    ensures
        0 <= line_len(tokens) <= tokens.len(),
        tokens.len() > 0 ==> line_len(tokens) > 0,
    decreases tokens.len(),
{
    if tokens.len() > 0 && !(tokens[0] is Newline) {
        lemma_line_len_bounds(tokens.drop_first());
    }
}

/// A run of `n` tokens without a line ending, followed by a line ending or by
/// nothing, is the first line.
pub proof fn lemma_line_len_is(tokens: Seq<TokenView>, n: int)
    requires
        0 <= n <= tokens.len(),
        forall|j: int| 0 <= j < n ==> !(#[trigger] tokens[j] is Newline),
        n < tokens.len() ==> tokens[n] is Newline,
    ensures
        line_len(tokens) == if n < tokens.len() {
            n + 1
        } else {
            n
        },
    decreases n,
{
    if n > 0 {
        let rest = tokens.drop_first();
        assert forall|j: int| 0 <= j < n - 1 implies !(#[trigger] rest[j] is Newline) by {
            assert(rest[j] == tokens[j + 1]);
        }
        lemma_line_len_is(rest, n - 1);
    }
}

/// A special tag behind `p` tokens of other kinds is the first one.
pub proof fn lemma_first_special_is(line: Seq<TokenView>, p: int)
    requires
        0 <= p <= line.len(),
        forall|j: int| 0 <= j < p ==> !is_special_tag(#[trigger] line[j]),
        p < line.len() ==> is_special_tag(line[p]),
    ensures
        first_special(line) == p,
    decreases p,
{
    if p > 0 {
        let rest = line.drop_first();
        assert forall|j: int| 0 <= j < p - 1 implies !is_special_tag(#[trigger] rest[j]) by {
            assert(rest[j] == line[j + 1]);
        }
        lemma_first_special_is(rest, p - 1);
    }
}

/// The standalone rule, line by line. `line` is a whole line of tokens: it
/// ends with the first line ending, or it holds none and nothing follows it.
/// Then the tokens keep what the rule makes of `line`, followed by what it
/// makes of the rest; a standalone line leaves one special tag and so
/// neither blanks nor a line ending, and a line that holds text or a
/// variable is left as it is.
pub proof fn law_standalone_lines(line: Seq<TokenView>, rest: Seq<TokenView>)
    requires
        line.len() > 0,
        forall|j: int| 0 <= j < line.len() - 1 ==> !(#[trigger] line[j] is Newline),
        line.last() is Newline || rest.len() == 0,
    ensures
        strip_standalone(line + rest) == strip_line(line) + strip_standalone(rest),
        is_standalone(line) ==> strip_line(line).len() == 1 && is_special_tag(strip_line(line)[0]),
        has_text_or_var(line) ==> strip_line(line) == line,
{
    let whole = line + rest;
    let n = line.len() as int;
    assert(whole.take(n) == line);
    assert(whole.skip(n) == rest);
    if line.last() is Newline {
        assert forall|j: int| 0 <= j < n - 1 implies !(#[trigger] whole[j] is Newline) by {
            assert(whole[j] == line[j]);
        }
        assert(whole[n - 1] == line.last());
        lemma_line_len_is(whole, n - 1);
    } else {
        assert(whole == line);
        lemma_line_len_is(whole, n);
    }
    if is_standalone(line) {
        lemma_first_special_exists(line);
    }
}

/// A line that counts a special tag holds one, and `first_special` finds it.
pub proof fn lemma_first_special_exists(line: Seq<TokenView>)
    requires
        count_special(line) > 0,
    ensures
        0 <= first_special(line) < line.len(),
        is_special_tag(line[first_special(line)]),
    decreases line.len(),
{
    if line.len() > 0 && !is_special_tag(line[0]) {
        lemma_count_special_drop_first(line);
        lemma_first_special_exists(line.drop_first());
    }
}

/// Counting from the front gives what counting from the back gives.
pub proof fn lemma_count_special_drop_first(line: Seq<TokenView>)
    requires
        line.len() > 0,
    ensures
        count_special(line) == count_special(line.drop_first()) + if is_special_tag(line[0]) {
            1nat
        } else {
            0nat
        },
    decreases line.len(),
{
    if line.len() == 1 {
        assert(line.drop_first() == Seq::<TokenView>::empty());
        assert(line.drop_last() == Seq::<TokenView>::empty());
    } else {
        lemma_count_special_drop_first(line.drop_last());
        assert(line.drop_last().drop_first() == line.drop_first().drop_last());
    }
}

/// Whether `token` stands for a piece of the text itself.
pub open spec fn is_literal(token: TokenView) -> bool {
    token is Text || token is Newline || token is Whitespace
}

/// The piece of text that a literal token stands for.
pub open spec fn literal_text(token: TokenView) -> Seq<char> {
    match token {
        TokenView::Text(s) => s,
        TokenView::Newline(s) => s,
        TokenView::Whitespace(s) => s,
        _ => Seq::empty(),
    }
}

/// The pieces of text that `tokens` stand for, joined.
pub open spec fn literal_texts(tokens: Seq<TokenView>) -> Seq<char>
    decreases tokens.len(),
{
    if tokens.len() == 0 {
        Seq::empty()
    } else {
        literal_texts(tokens.drop_last()) + literal_text(tokens.last())
    }
}

/// Whether `text` holds no tag: the opening delimiter `{{` occurs nowhere in it.
pub open spec fn is_plain(text: Seq<char>) -> bool {
    forall|i: int| !has_prefix_at(text, default_open(), i)
}

/// Joining the texts from the front gives what joining from the back gives.
pub proof fn lemma_literal_texts_front(token: TokenView, rest: Seq<TokenView>)
    ensures
        literal_texts(seq![token] + rest) == literal_text(token) + literal_texts(rest),
    decreases rest.len(),
{
    let all = seq![token] + rest;
    if rest.len() == 0 {
        assert(all.drop_last() == Seq::<TokenView>::empty());
        assert(literal_texts(all.drop_last()) == Seq::<char>::empty());
        assert(Seq::<char>::empty() + literal_text(token) == literal_text(token) + Seq::<
            char,
        >::empty());
    } else {
        assert(all.drop_last() == seq![token] + rest.drop_last());
        lemma_literal_texts_front(token, rest.drop_last());
        assert((literal_text(token) + literal_texts(rest.drop_last())) + literal_text(rest.last())
            == literal_text(token) + (literal_texts(rest.drop_last()) + literal_text(rest.last())));
    }
}

/// A text without tags is cut into literal tokens that together spell it.
pub proof fn lemma_lex_plain(text: Seq<char>, pos: int)
    requires
        is_plain(text),
        0 <= pos <= text.len(),
    ensures
        lex_from(text, pos, default_open(), default_close()) matches Ok(tokens) && literal_texts(
            tokens,
        ) == text.subrange(pos, text.len() as int) && forall|i: int|
            0 <= i < tokens.len() ==> is_literal(#[trigger] tokens[i]),
    decreases text.len() - pos,
{
    let open = default_open();
    let close = default_close();
    if pos < text.len() {
        assert(!has_prefix_at(text, open, pos));
        assert(!has_prefix_at(text, open.push('='), pos)) by {
            if has_prefix_at(text, open.push('='), pos) {
                assert forall|k: int| 0 <= k < open.len() implies text[pos + k] == #[trigger] open[k] by {
                    assert(open.push('=')[k] == open[k]);
                }
            }
        }
        assert(!has_prefix_at(text, open.push('{'), pos)) by {
            if has_prefix_at(text, open.push('{'), pos) {
                assert forall|k: int| 0 <= k < open.len() implies text[pos + k] == #[trigger] open[k] by {
                    assert(open.push('{')[k] == open[k]);
                }
            }
        }
        lemma_token_at_advances(text, pos, open, close);
        lemma_blank_end_bounds(text, pos);
        lemma_text_end_bounds(text, pos, open);
        let scanned = token_at(text, pos, open, close);
        assert(scanned is Token);
        let tok = scanned->Token_0;
        let len = scanned->Token_1;
        assert(is_literal(tok));
        assert(literal_text(tok) == text.subrange(pos, pos + len));
        lemma_lex_plain(text, pos + len);
        let rest = lex_from(text, pos + len, open, close).unwrap();
        lemma_literal_texts_front(tok, rest);
        assert(text.subrange(pos, pos + len) + text.subrange(pos + len, text.len() as int)
            == text.subrange(pos, text.len() as int));
    } else {
        assert(text.subrange(pos, text.len() as int) == Seq::<char>::empty());
        assert(literal_texts(Seq::<TokenView>::empty()) == Seq::<char>::empty());
    }
}

/// Literal tokens count no special tag.
pub proof fn lemma_count_special_literals(line: Seq<TokenView>)
    requires
        forall|i: int| 0 <= i < line.len() ==> is_literal(#[trigger] line[i]),
    ensures
        count_special(line) == 0,
    decreases line.len(),
{
    if line.len() > 0 {
        assert(is_literal(line.last()));
        lemma_count_special_literals(line.drop_last());
    }
}

/// The standalone rule changes nothing where every token is literal.
pub proof fn lemma_strip_literals(tokens: Seq<TokenView>)
    requires
        forall|i: int| 0 <= i < tokens.len() ==> is_literal(#[trigger] tokens[i]),
    ensures
        strip_standalone(tokens) == tokens,
    decreases tokens.len(),
{
    lemma_line_len_bounds(tokens);
    if tokens.len() > 0 {
        let n = line_len(tokens);
        lemma_count_special_literals(tokens.take(n));
        lemma_strip_literals(tokens.skip(n));
        assert(tokens.take(n) + tokens.skip(n) == tokens);
    }
}

/// The view of a sequence of tokens grows with the sequence.
pub proof fn lemma_tokens_view_push(tokens: Seq<Token>, token: Token)
    ensures
        tokens_view(tokens.push(token)) == tokens_view(tokens).push(token@),
{
    assert(tokens_view(tokens.push(token)) =~= tokens_view(tokens).push(token@));
}

/// The view of two sequences of tokens joined is their views joined.
pub proof fn lemma_tokens_view_add(a: Seq<Token>, b: Seq<Token>)
    ensures
        tokens_view(a + b) == tokens_view(a) + tokens_view(b),
{
    assert(tokens_view(a + b) =~= tokens_view(a) + tokens_view(b));
}

/// What an executable scanner returned, as a [`Scan`].
pub open spec fn scan_view(r: Result<Option<(Token, usize)>>) -> Scan {
    match r {
        Ok(None) => Scan::Pass,
        Ok(Some((token, len))) => Scan::Token(token@, len as int),
        Err(_) => Scan::Malformed,
    }
}

/// `v` followed by `c`.
fn with_last(v: &Vec<char>, c: char) -> (out: Vec<char>)
    ensures
        out@ == v@.push(c),
{
    let mut out: Vec<char> = Vec::new();
    let mut i: usize = 0;
    while i < v.len()
        invariant
            i <= v.len(),
            out@ == v@.take(i as int),
        decreases v.len() - i,
    {
        out.push(v[i]);
        i = i + 1;
    }
    out.push(c);
    out
}

/// `c` followed by `v`.
fn with_first(c: char, v: &Vec<char>) -> (out: Vec<char>)
    ensures
        out@ == seq![c] + v@,
{
    let mut out: Vec<char> = Vec::new();
    out.push(c);
    let mut i: usize = 0;
    while i < v.len()
        invariant
            i <= v.len(),
            out@ == seq![c] + v@.take(i as int),
        decreases v.len() - i,
    {
        out.push(v[i]);
        i = i + 1;
    }
    out
}

/// A cursor over a template text, together with the delimiters in force.
pub struct Lexer {
    text: Vec<char>,
    pos: usize,
    open_delim: Vec<char>,
    close_delim: Vec<char>,
}

impl Lexer {
    /// The whole text that is being scanned.
    pub closed spec fn text(&self) -> Seq<char> {
        self.text@
    }

    /// The index of the next character to scan.
    pub closed spec fn pos(&self) -> int {
        self.pos as int
    }

    /// The opening delimiter in force.
    pub closed spec fn open(&self) -> Seq<char> {
        self.open_delim@
    }

    /// The closing delimiter in force.
    pub closed spec fn close(&self) -> Seq<char> {
        self.close_delim@
    }

    /// The cursor lies within the text and neither delimiter is empty.
    pub open spec fn wf(&self) -> bool {
        &&& 0 <= self.pos() <= self.text().len()
        &&& self.open().len() > 0
        &&& self.close().len() > 0
    }

    /// A lexer at the start of `text`, with the delimiters `{{` and `}}`.
    pub fn new(text: &str) -> (out: Self)
        ensures
            out.wf(),
            out.text() == text@,
            out.pos() == 0,
            out.open() == default_open(),
            out.close() == default_close(),
    {
        let mut open_delim: Vec<char> = Vec::new();
        open_delim.push('{');
        open_delim.push('{');
        let mut close_delim: Vec<char> = Vec::new();
        close_delim.push('}');
        close_delim.push('}');
        assert(open_delim@ == default_open());
        assert(close_delim@ == default_close());
        Lexer { text: to_chars(text), pos: 0, open_delim, close_delim }
    }

    /// Scans a delimiter change at the cursor.
    fn scan_set_delim(&self) -> (r: Result<Option<(Token, usize)>>)
        requires
            self.wf(),
        ensures
            scan_view(r) == set_delim_at(self.text(), self.pos(), self.open(), self.close()),
    {
        let head = with_last(&self.open_delim, '=');
        if !starts_with_at(&self.text, self.pos, &head) {
            return Ok(None);
        }
        assert(self.pos + head@.len() <= self.text.len());
        let start: usize = self.pos + self.open_delim.len() + 1;
        let tail = with_first('=', &self.close_delim);
        proof {
            lemma_find_from(self.text@, tail@, start as int);
        }
        match find_at(&self.text, start, &tail) {
            None => Err(Error::Parse),
            Some(end) => {
                match first_word(&self.text, start, end) {
                    None => Err(Error::Parse),
                    Some((a1, b1)) => {
                        match first_word(&self.text, b1, end) {
                            None => Err(Error::Parse),
                            Some((a2, b2)) => {
                                let open = string_of_range(&self.text, a1, b1);
                                let close = string_of_range(&self.text, a2, b2);
                                Ok(
                                    Some(
                                        (
                                            Token::SetDelim(open, close),
                                            end + 1 + self.close_delim.len() - self.pos,
                                        ),
                                    ),
                                )
                            },
                        }
                    },
                }
            },
        }
    }

    /// Scans an unescaped variable in triple braces at the cursor.
    fn scan_triple_unescape(&self) -> (r: Result<Option<(Token, usize)>>)
        requires
            self.wf(),
        ensures
            scan_view(r) == triple_at(self.text(), self.pos(), self.open(), self.close()),
    {
        let head = with_last(&self.open_delim, '{');
        if !starts_with_at(&self.text, self.pos, &head) {
            return Ok(None);
        }
        assert(self.pos + head@.len() <= self.text.len());
        let start: usize = self.pos + self.open_delim.len() + 1;
        let tail = with_first('}', &self.close_delim);
        proof {
            lemma_find_from(self.text@, tail@, start as int);
        }
        match find_at(&self.text, start, &tail) {
            None => Err(Error::Parse),
            Some(end) => {
                let (a, b) = trim_bounds(&self.text, start, end);
                let name = string_of_range(&self.text, a, b);
                Ok(Some((Token::Variable(name, false), end + 1 + self.close_delim.len() - self.pos)))
            },
        }
    }

    /// Scans a tag at the cursor.
    fn scan_tag(&self) -> (r: Result<Option<(Token, usize)>>)
        requires
            self.wf(),
        ensures
            scan_view(r) == tag_at(self.text(), self.pos(), self.open(), self.close()),
    {
        if !starts_with_at(&self.text, self.pos, &self.open_delim) {
            return Ok(None);
        }
        assert(self.pos + self.open_delim@.len() <= self.text.len());
        let start: usize = self.pos + self.open_delim.len();
        proof {
            lemma_find_from(self.text@, self.close_delim@, start as int);
        }
        match find_at(&self.text, start, &self.close_delim) {
            None => Err(Error::Parse),
            Some(end) => {
                assert(end + self.close_delim@.len() <= self.text.len());
                let len: usize = end + self.close_delim.len() - self.pos;
                let ghost content = self.text@.subrange(start as int, end as int);
                if start == end {
                    let name = string_of_range(&self.text, start, end);
                    assert(name@ == Seq::<char>::empty());
                    return Ok(Some((Token::Variable(name, true), len)));
                }
                let sigil = self.text[start];
                assert(content.skip(1) == self.text@.subrange(start + 1, end as int));
                let (a, b) = if sigil == '#' || sigil == '^' || sigil == '/' || sigil == '>'
                    || sigil == '&' || sigil == '!' {
                    trim_bounds(&self.text, start + 1, end)
                } else {
                    trim_bounds(&self.text, start, end)
                };
                let name = string_of_range(&self.text, a, b);
                let token = if sigil == '#' {
                    Token::SectionStart(name, Variant::Direct)
                } else if sigil == '^' {
                    Token::SectionStart(name, Variant::Inverse)
                } else if sigil == '/' {
                    Token::SectionEnd(name)
                } else if sigil == '>' {
                    let indent = String::new();
                    Token::Partial(name, indent)
                } else if sigil == '&' {
                    Token::Variable(name, false)
                } else if sigil == '!' {
                    Token::Comment
                } else {
                    Token::Variable(name, true)
                };
                Ok(Some((token, len)))
            },
        }
    }

    /// Scans a line ending at the cursor.
    fn scan_newline(&self) -> (r: Option<(Token, usize)>)
        requires
            self.wf(),
        ensures
            scan_view(Ok(r)) == newline_at(self.text(), self.pos()),
    {
        if self.pos >= self.text.len() {
            return None;
        }
        let c = self.text[self.pos];
        if c == '\n' {
            let s = string_of_range(&self.text, self.pos, self.pos + 1);
            assert(s@ == seq!['\n']);
            Some((Token::Newline(s), 1))
        } else if c == '\r' && self.pos + 1 < self.text.len() && self.text[self.pos + 1] == '\n' {
            let s = string_of_range(&self.text, self.pos, self.pos + 2);
            assert(s@ == seq!['\r', '\n']);
            Some((Token::Newline(s), 2))
        } else {
            None
        }
    }

    /// Scans a run of spaces and tabs at the cursor.
    fn scan_whitespace(&self) -> (r: Option<(Token, usize)>)
        requires
            self.wf(),
        ensures
            scan_view(Ok(r)) == blank_at(self.text(), self.pos()),
    {
        let mut end: usize = self.pos;
        while end < self.text.len() && (self.text[end] == ' ' || self.text[end] == '\t')
            invariant
                self.pos <= end <= self.text.len(),
                blank_end(self.text@, self.pos as int) == blank_end(self.text@, end as int),
            decreases self.text.len() - end,
        {
            end = end + 1;
        }
        if end > self.pos {
            Some((Token::Whitespace(string_of_range(&self.text, self.pos, end)), end - self.pos))
        } else {
            None
        }
    }

    /// Scans literal text at the cursor.
    fn scan_text(&self) -> (r: (Token, usize))
        requires
            self.wf(),
        ensures
            scan_view(Ok(Some(r))) == text_at(self.text(), self.pos(), self.open()),
    {
        let mut end: usize = self.pos;
        while end < self.text.len() && !starts_with_at(&self.text, end, &self.open_delim)
            && !self.newline_starts_at(end)
            invariant
                self.pos <= end <= self.text.len(),
                text_end(self.text@, self.pos as int, self.open_delim@) == text_end(
                    self.text@,
                    end as int,
                    self.open_delim@,
                ),
            decreases self.text.len() - end,
        {
            end = end + 1;
        }
        (Token::Text(string_of_range(&self.text, self.pos, end)), end - self.pos)
    }

    /// Whether a line ending starts at `i`.
    fn newline_starts_at(&self, i: usize) -> (b: bool)
        requires
            i < self.text.len(),
        ensures
            b == newline_starts(self.text@, i as int),
    {
        let c = self.text[i];
        c == '\n' || (c == '\r' && i + 1 < self.text.len() && self.text[i + 1] == '\n')
    }

    /// Whether `token` is literal text or a variable.
    fn is_text_or_var(token: &Token) -> (b: bool)
        ensures
            b == is_text_or_var(token@),
    {
        match token {
            Token::Text(_) => true,
            Token::Variable(_, _) => true,
            _ => false,
        }
    }

    /// Whether `token` is a tag that renders nothing by itself.
    fn is_special_tag(token: &Token) -> (b: bool)
        ensures
            b == is_special_tag(token@),
    {
        match token {
            Token::SectionStart(_, _) => true,
            Token::SectionEnd(_) => true,
            Token::Partial(_, _) => true,
            Token::SetDelim(_, _) => true,
            Token::Comment => true,
            _ => false,
        }
    }

    /// Moves the tokens of one line behind `out`: its tag alone where the
    /// line is standalone, all of them otherwise.
    fn strip_line(line: Vec<Token>, out: &mut Vec<Token>)
        ensures
            tokens_view(final(out)@) == tokens_view(old(out)@) + strip_line(tokens_view(line@)),
    {
        let mut line = line;
        let ghost view = tokens_view(line@);
        let mut has_content = false;
        let mut special: usize = 0;
        let mut tag_pos: usize = 0;
        let mut i: usize = 0;
        while i < line.len()
            invariant
                i <= line.len(),
                view == tokens_view(line@),
                has_content == has_text_or_var(view.take(i as int)),
                special == count_special(view.take(i as int)),
                special <= i,
                special == 0 ==> forall|j: int| 0 <= j < i ==> !is_special_tag(#[trigger] view[j]),
                special > 0 ==> {
                    &&& tag_pos < i
                    &&& is_special_tag(view[tag_pos as int])
                    &&& forall|j: int| 0 <= j < tag_pos ==> !is_special_tag(#[trigger] view[j])
                },
            decreases line.len() - i,
        {
            proof {
                let before = view.take(i as int);
                let after = view.take(i + 1);
                assert(after.drop_last() == before);
                assert(after.last() == view[i as int]);
                if has_text_or_var(before) {
                    let w = choose|w: int| 0 <= w < before.len() && is_text_or_var(#[trigger] before[w]);
                    assert(is_text_or_var(after[w]));
                }
                if is_text_or_var(view[i as int]) {
                    assert(is_text_or_var(after[i as int]));
                }
                if has_text_or_var(after) {
                    let w = choose|w: int| 0 <= w < after.len() && is_text_or_var(#[trigger] after[w]);
                    if w < i {
                        assert(is_text_or_var(before[w]));
                    }
                }
            }
            if Self::is_text_or_var(&line[i]) {
                has_content = true;
            }
            if Self::is_special_tag(&line[i]) {
                if special == 0 {
                    tag_pos = i;
                }
                special = special + 1;
            }
            i = i + 1;
        }
        assert(view.take(line.len() as int) == view);
        if has_content || special != 1 {
            proof {
                lemma_tokens_view_add(out@, line@);
            }
            out.append(&mut line);
            return ;
        }
        proof {
            lemma_first_special_is(view, tag_pos as int);
        }
        let mut indent = String::new();
        let mut k: usize = 0;
        while k < tag_pos
            invariant
                k <= tag_pos < line.len(),
                view == tokens_view(line@),
                indent@ == blank_prefix(view, k as int),
            decreases tag_pos - k,
        {
            match &line[k] {
                Token::Whitespace(blank) => {
                    indent.append(blank.as_str());
                },
                _ => {},
            }
            k = k + 1;
        }
        let tag = line.remove(tag_pos);
        let kept = match tag {
            Token::Partial(name, _) => Token::Partial(name, indent),
            other => other,
        };
        proof {
            lemma_tokens_view_push(out@, kept);
            assert(tokens_view(out@).push(kept@) == tokens_view(out@) + seq![kept@]);
        }
        out.push(kept);
    }

    /// Applies the standalone rule to every line of `tokens`.
    fn strip_standalone_whitespace(tokens: Vec<Token>) -> (out: Vec<Token>)
        ensures
            tokens_view(out@) == strip_standalone(tokens_view(tokens@)),
    {
        let ghost all = tokens_view(tokens@);
        let ghost source = tokens@;
        let mut out: Vec<Token> = Vec::new();
        let mut line: Vec<Token> = Vec::new();
        assert(tokens_view(line@) + all.skip(0) == all);
        assert(tokens_view(out@) + strip_standalone(all) == strip_standalone(all));
        for token in it: tokens.into_iter()
            invariant
                it.seq() == source,
                all == tokens_view(source),
                forall|j: int| 0 <= j < line@.len() ==> !(#[trigger] tokens_view(line@)[j] is Newline),
                strip_standalone(all) == tokens_view(out@) + strip_standalone(
                    tokens_view(line@) + all.skip(it.index() as int),
                ),
        {
            let ghost k = it.index() as int;
            let ghost before = tokens_view(line@);
            let ends_line = match &token {
                Token::Newline(_) => true,
                _ => false,
            };
            proof {
                lemma_tokens_view_push(line@, token);
                assert(all[k] == token@);
                assert(before.push(token@) + all.skip(k + 1) == before + all.skip(k));
            }
            line.push(token);
            if ends_line {
                proof {
                    let whole = tokens_view(line@) + all.skip(k + 1);
                    let n = line@.len() as int;
                    assert forall|j: int| 0 <= j < n - 1 implies !(#[trigger] whole[j] is Newline) by {
                        assert(whole[j] == before[j]);
                    }
                    assert(whole[n - 1] == token@);
                    lemma_line_len_is(whole, n - 1);
                    assert(whole.take(n) == tokens_view(line@));
                    assert(whole.skip(n) == all.skip(k + 1));
                    assert(Seq::<TokenView>::empty() + all.skip(k + 1) == all.skip(k + 1));
                }
                Self::strip_line(line, &mut out);
                line = Vec::new();
                assert(tokens_view(line@) == Seq::<TokenView>::empty());
            }
        }
        proof {
            let last = tokens_view(line@);
            assert(all.skip(source.len() as int) == Seq::<TokenView>::empty());
            assert(last + Seq::<TokenView>::empty() == last);
            if last.len() > 0 {
                lemma_line_len_is(last, last.len() as int);
                assert(last.take(last.len() as int) == last);
                assert(last.skip(last.len() as int) == Seq::<TokenView>::empty());
                assert(strip_standalone(Seq::<TokenView>::empty()) == Seq::<TokenView>::empty());
            }
        }
        if line.len() > 0 {
            Self::strip_line(line, &mut out);
        }
        out
    }

    /// Scans the rest of the text and applies the standalone rule.
    ///
    /// On success the lexer is left at the end of the text.
    pub fn tokens(&mut self) -> (r: Result<Vec<Token>>)
        requires
            old(self).wf(),
        ensures
            final(self).wf(),
            final(self).text() == old(self).text(),
            r is Ok ==> final(self).pos() == final(self).text().len(),
            match lex_from(old(self).text(), old(self).pos(), old(self).open(), old(self).close()) {
                Ok(scanned) => r matches Ok(tokens) && tokens_view(tokens@) == strip_standalone(
                    scanned,
                ),
                Err(e) => r == Err::<Vec<Token>, Error>(e),
            },
    {
        let mut tokens: Vec<Token> = Vec::new();
        let ghost whole = lex_from(self.text@, self.pos as int, self.open_delim@, self.close_delim@);
        loop
            invariant
                self.wf(),
                self.text() == old(self).text(),
                whole == lex_from(
                    old(self).text(),
                    old(self).pos(),
                    old(self).open(),
                    old(self).close(),
                ),
                whole == match lex_from(self.text(), self.pos(), self.open(), self.close()) {
                    Ok(rest) => Ok(tokens_view(tokens@) + rest),
                    Err(e) => Err(e),
                },
            decreases self.text().len() - self.pos(),
        {
            proof {
                lemma_token_at_advances(self.text(), self.pos(), self.open(), self.close());
            }
            match self.next() {
                Err(e) => {
                    return Err(e);
                },
                Ok(None) => {
                    assert(tokens_view(tokens@) + Seq::<TokenView>::empty() == tokens_view(tokens@));
                    return Ok(Self::strip_standalone_whitespace(tokens));
                },
                Ok(Some(token)) => {
                    proof {
                        lemma_tokens_view_push(tokens@, token);
                        let rest = lex_from(self.text(), self.pos(), self.open(), self.close());
                        if let Ok(more) = rest {
                            assert(tokens_view(tokens@).push(token@) + more == tokens_view(tokens@)
                                + (seq![token@] + more));
                        }
                    }
                    tokens.push(token);
                },
            }
        }
    }

    /// Scans one token and moves behind it.
    ///
    /// Returns `Ok(None)` at the end of the text. A delimiter change is
    /// returned as a token and is in force from then on. On failure the lexer
    /// is left as it was.
    pub fn next(&mut self) -> (r: Result<Option<Token>>)
        requires
            old(self).wf(),
        ensures
            final(self).wf(),
            final(self).text() == old(self).text(),
            match token_at(old(self).text(), old(self).pos(), old(self).open(), old(self).close()) {
                Scan::Pass => r == Ok::<Option<Token>, Error>(None) && *final(self) == *old(self),
                Scan::Malformed => r == Err::<Option<Token>, Error>(Error::Parse) && *final(self)
                    == *old(self),
                Scan::Token(tok, len) => {
                    &&& r matches Ok(Some(t))
                    &&& t@ == tok
                    &&& final(self).pos() == old(self).pos() + len
                    &&& final(self).open() == open_after(tok, old(self).open())
                    &&& final(self).close() == close_after(tok, old(self).close())
                },
            },
    {
        proof {
            lemma_token_at_advances(self.text@, self.pos as int, self.open_delim@, self.close_delim@);
        }
        if self.pos == self.text.len() {
            return Ok(None);
        }
        match self.scan_set_delim() {
            Err(e) => {
                return Err(Error::Parse);
            },
            Ok(Some((token, len))) => {
                self.pos = self.pos + len;
                match &token {
                    Token::SetDelim(open, close) => {
                        self.open_delim = to_chars(open.as_str());
                        self.close_delim = to_chars(close.as_str());
                    },
                    _ => {},
                }
                return Ok(Some(token));
            },
            Ok(None) => {},
        }
        match self.scan_triple_unescape() {
            Err(e) => {
                return Err(Error::Parse);
            },
            Ok(Some((token, len))) => {
                self.pos = self.pos + len;
                return Ok(Some(token));
            },
            Ok(None) => {},
        }
        match self.scan_tag() {
            Err(e) => {
                return Err(Error::Parse);
            },
            Ok(Some((token, len))) => {
                self.pos = self.pos + len;
                return Ok(Some(token));
            },
            Ok(None) => {},
        }
        if let Some((token, len)) = self.scan_newline() {
            self.pos = self.pos + len;
            return Ok(Some(token));
        }
        if let Some((token, len)) = self.scan_whitespace() {
            self.pos = self.pos + len;
            return Ok(Some(token));
        }
        let (token, len) = self.scan_text();
        self.pos = self.pos + len;
        Ok(Some(token))
    }
}

} // verus!
