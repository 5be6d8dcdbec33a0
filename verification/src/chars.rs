//! Searching, trimming and splitting over sequences of characters.
//!
//! The lexer and the renderer describe text as `Seq<char>`; the executable
//! counterparts below work on a `Vec<char>` and on index ranges into it, so
//! that no intermediate strings are allocated while scanning.

use vstd::prelude::*;

verus! {

/// Whether `c` carries the Unicode `White_Space` property.
pub open spec fn is_space(c: char) -> bool {
    let n = c as u32;
    ||| 0x09 <= n <= 0x0D
    ||| n == 0x20
    ||| n == 0x85
    ||| n == 0xA0
    ||| n == 0x1680
    ||| 0x2000 <= n <= 0x200A
    ||| n == 0x2028
    ||| n == 0x2029
    ||| n == 0x202F
    ||| n == 0x205F
    ||| n == 0x3000
}

/// Whether `c` is a space or a horizontal tab.
pub open spec fn is_blank(c: char) -> bool {
    c == ' ' || c == '\t'
}

/// Whether `pat` occurs in `s` starting at index `i`.
pub open spec fn has_prefix_at(s: Seq<char>, pat: Seq<char>, i: int) -> bool {
    &&& 0 <= i
    &&& i + pat.len() <= s.len()
    &&& forall|k: int| 0 <= k < pat.len() ==> s[i + k] == #[trigger] pat[k]
}

/// The least index at or after `from` where `pat` occurs in `s`.
pub open spec fn find_from(s: Seq<char>, pat: Seq<char>, from: int) -> Option<int>
    decreases s.len() - from,
{
    if from < 0 || from + pat.len() > s.len() {
        None
    } else if has_prefix_at(s, pat, from) {
        Some(from)
    } else {
        find_from(s, pat, from + 1)
    }
}

/// The first index at or after `i` that does not hold white space.
pub open spec fn skip_spaces(s: Seq<char>, i: int) -> int
    decreases s.len() - i,
{
    if 0 <= i < s.len() && is_space(s[i]) {
        skip_spaces(s, i + 1)
    } else {
        i
    }
}

/// The end of `s` once trailing white space is cut off, never going below `lo`.
pub open spec fn skip_spaces_back(s: Seq<char>, lo: int, j: int) -> int
    decreases j,
{
    if lo < j <= s.len() && 0 < j && is_space(s[j - 1]) {
        skip_spaces_back(s, lo, j - 1)
    } else {
        j
    }
}

/// `s` without its leading and trailing white space.
pub open spec fn trim(s: Seq<char>) -> Seq<char> {
    let a = skip_spaces(s, 0);
    let b = skip_spaces_back(s, a, s.len() as int);
    s.subrange(a, b)
}

/// The first index at or after `i` that holds white space, or the length of `s`.
pub open spec fn word_end(s: Seq<char>, i: int) -> int
    decreases s.len() - i,
{
    if 0 <= i < s.len() && !is_space(s[i]) {
        word_end(s, i + 1)
    } else {
        i
    }
}

/// The maximal runs of characters of `s` that hold no white space, in order.
///
/// The bounds asked of the end of a word make the definition well founded;
/// they always hold, see [`lemma_word_end_bounds`].
pub open spec fn words(s: Seq<char>) -> Seq<Seq<char>>
    decreases s.len(),
{
    let a = skip_spaces(s, 0);
    if 0 <= a < s.len() {
        let b = word_end(s, a);
        if a < b <= s.len() {
            seq![s.subrange(a, b)] + words(s.skip(b))
        } else {
            Seq::empty()
        }
    } else {
        Seq::empty()
    }
}

/// The first index at or after `i` that holds `sep`, or the length of `s`.
pub open spec fn segment_end(s: Seq<char>, i: int, sep: char) -> int
    decreases s.len() - i,
{
    if 0 <= i < s.len() && s[i] != sep {
        segment_end(s, i + 1, sep)
    } else {
        i
    }
}

/// The pieces of `s` from `from` on, cut at every `sep`.
pub open spec fn split_from(s: Seq<char>, from: int, sep: char) -> Seq<Seq<char>>
    decreases s.len() - from,
{
    let end = segment_end(s, from, sep);
    if 0 <= from <= end < s.len() {
        seq![s.subrange(from, end)] + split_from(s, end + 1, sep)
    } else if 0 <= from <= s.len() {
        seq![s.subrange(from, s.len() as int)]
    } else {
        Seq::empty()
    }
}

/// `s` cut at every `sep`: the pieces between separators, empty ones
/// included. There is always at least one piece.
pub open spec fn split(s: Seq<char>, sep: char) -> Seq<Seq<char>> {
    split_from(s, 0, sep)
}

/// The views of `strings`, element by element.
pub open spec fn strings_view(strings: Seq<String>) -> Seq<Seq<char>> {
    strings.map_values(|s: String| s@)
}

/// The view of a sequence of strings grows with the sequence.
pub proof fn lemma_strings_view_push(strings: Seq<String>, s: String)
    ensures
        strings_view(strings.push(s)) == strings_view(strings).push(s@),
{
    assert(strings_view(strings.push(s)) =~= strings_view(strings).push(s@));
}

/// What `skip_spaces` finds: a run of white space that ends before a
/// character of another kind or with `s`.
pub proof fn lemma_skip_spaces_bounds(s: Seq<char>, i: int)
    requires
        0 <= i <= s.len(),
    ensures
        i <= skip_spaces(s, i) <= s.len(),
        skip_spaces(s, i) < s.len() ==> !is_space(s[skip_spaces(s, i)]),
        forall|k: int| i <= k < skip_spaces(s, i) ==> is_space(#[trigger] s[k]),
    decreases s.len() - i,
{
    if i < s.len() && is_space(s[i]) {
        lemma_skip_spaces_bounds(s, i + 1);
    }
}

/// What `word_end` finds: a run without white space that ends before white
/// space or with `s`, and that is not empty where it starts on such a
/// character.
pub proof fn lemma_word_end_bounds(s: Seq<char>, i: int)
    requires
        0 <= i <= s.len(),
    ensures
        i <= word_end(s, i) <= s.len(),
        word_end(s, i) < s.len() ==> is_space(s[word_end(s, i)]),
        forall|k: int| i <= k < word_end(s, i) ==> !is_space(#[trigger] s[k]),
        i < s.len() && !is_space(s[i]) ==> i < word_end(s, i),
    decreases s.len() - i,
{
    if i < s.len() && !is_space(s[i]) {
        lemma_word_end_bounds(s, i + 1);
    }
}

/// A successful search names an occurrence, and no earlier index at or after
/// `from` holds one; a failed search means there is none from `from` on.
pub proof fn lemma_find_from(s: Seq<char>, pat: Seq<char>, from: int)
    requires
        0 <= from,
    ensures
        match find_from(s, pat, from) {
            Some(i) => {
                &&& from <= i
                &&& i + pat.len() <= s.len()
                &&& has_prefix_at(s, pat, i)
                &&& forall|j: int| from <= j < i ==> !has_prefix_at(s, pat, j)
            },
            None => forall|j: int| from <= j ==> !has_prefix_at(s, pat, j),
        },
    decreases s.len() - from,
{
    if from + pat.len() > s.len() {
    } else if has_prefix_at(s, pat, from) {
    } else {
        lemma_find_from(s, pat, from + 1);
    }
}

/// Every word is non-empty and free of white space.
pub proof fn lemma_words_nonempty(s: Seq<char>, i: int)
    requires
        0 <= i < words(s).len(),
    ensures
        words(s)[i].len() > 0,
        forall|k: int| 0 <= k < words(s)[i].len() ==> !is_space(#[trigger] words(s)[i][k]),
    decreases s.len(),
{
    let a = skip_spaces(s, 0);
    lemma_skip_spaces_bounds(s, 0);
    if 0 <= a < s.len() {
        let b = word_end(s, a);
        lemma_word_end_bounds(s, a);
        if i > 0 {
            lemma_words_nonempty(s.skip(b), i - 1);
        }
    }
}

/// Appends one character to a string.
///
/// Trusted: stands for `String::push`, which the standard library documents
/// as appending the given `char` to the end of the string.
#[verifier::external_body]
pub(crate) fn push_char(s: &mut String, c: char)
    ensures
        final(s)@ == old(s)@.push(c),
{
    s.push(c)
}

/// The characters of `text`, in order.
pub fn to_chars(text: &str) -> (out: Vec<char>)
    ensures
        out@ == text@,
{
    let mut out: Vec<char> = Vec::new();
    for c in it: text.chars()
        invariant
            out@ == it.seq().take(it.index() as int),
            it.seq() == text@,
    {
        out.push(c);
    }
    out
}

/// The string made of `text[from..to]`.
pub fn string_of_range(text: &Vec<char>, from: usize, to: usize) -> (out: String)
    requires
        from <= to <= text.len(),
    ensures
        out@ == text@.subrange(from as int, to as int),
{
    let mut out = String::new();
    let mut i: usize = from;
    while i < to
        invariant
            from <= i <= to <= text.len(),
            out@ == text@.subrange(from as int, i as int),
        decreases to - i,
    {
        push_char(&mut out, text[i]);
        i = i + 1;
    }
    out
}

/// Whether `c` is white space.
pub fn is_whitespace(c: char) -> (b: bool)
    ensures
        b == is_space(c),
{
    let n: u32 = c as u32;
    (0x09 <= n && n <= 0x0D) || n == 0x20 || n == 0x85 || n == 0xA0 || n == 0x1680 || (0x2000 <= n
        && n <= 0x200A) || n == 0x2028 || n == 0x2029 || n == 0x202F || n == 0x205F || n == 0x3000
}

/// Whether `pat` occurs in `text` at `pos`.
pub fn starts_with_at(text: &Vec<char>, pos: usize, pat: &Vec<char>) -> (b: bool)
    ensures
        b == has_prefix_at(text@, pat@, pos as int),
{
    if pat.len() > text.len() || pos > text.len() - pat.len() {
        return false;
    }
    let mut k: usize = 0;
    while k < pat.len()
        invariant
            k <= pat.len(),
            pos + pat.len() <= text.len(),
            forall|j: int| 0 <= j < k ==> text@[pos + j] == #[trigger] pat@[j],
        decreases pat.len() - k,
    {
        if text[pos + k] != pat[k] {
            return false;
        }
        k = k + 1;
    }
    true
}

/// The first position at or after `from` where `pat` occurs in `text`.
pub fn find_at(text: &Vec<char>, from: usize, pat: &Vec<char>) -> (r: Option<usize>)
    ensures
        match r {
            Some(i) => find_from(text@, pat@, from as int) == Some(i as int),
            None => find_from(text@, pat@, from as int) is None,
        },
{
    if pat.len() > text.len() {
        return None;
    }
    let last: usize = text.len() - pat.len();
    let mut i: usize = from;
    while i <= last
        invariant
            from <= i,
            last == text.len() - pat.len(),
            find_from(text@, pat@, from as int) == find_from(text@, pat@, i as int),
        decreases last + 1 - i,
    {
        if starts_with_at(text, i, pat) {
            return Some(i);
        }
        i = i + 1;
    }
    None
}

/// The bounds of `text[lo..hi]` with its leading and trailing white space removed.
pub fn trim_bounds(text: &Vec<char>, lo: usize, hi: usize) -> (r: (usize, usize))
    requires
        lo <= hi <= text.len(),
    ensures
        lo <= r.0 <= r.1 <= hi,
        text@.subrange(r.0 as int, r.1 as int) == trim(text@.subrange(lo as int, hi as int)),
{
    let ghost sub = text@.subrange(lo as int, hi as int);
    let mut a: usize = lo;
    while a < hi && is_whitespace(text[a])
        invariant
            lo <= a <= hi <= text.len(),
            sub == text@.subrange(lo as int, hi as int),
            skip_spaces(sub, 0) == skip_spaces(sub, a - lo),
        decreases hi - a,
    {
        a = a + 1;
    }
    let mut b: usize = hi;
    while b > a && is_whitespace(text[b - 1])
        invariant
            lo <= a <= b <= hi <= text.len(),
            sub == text@.subrange(lo as int, hi as int),
            skip_spaces_back(sub, a - lo, hi - lo) == skip_spaces_back(sub, a - lo, b - lo),
        decreases b,
    {
        b = b - 1;
    }
    assert(sub.subrange(a - lo, b - lo) == text@.subrange(a as int, b as int));
    (a, b)
}

/// The bounds of the first word of `text[lo..hi]`, if it holds one.
pub fn first_word(text: &Vec<char>, lo: usize, hi: usize) -> (r: Option<(usize, usize)>)
    requires
        lo <= hi <= text.len(),
    ensures
        match r {
            Some((a, b)) => {
                &&& lo <= a < b <= hi
                &&& words(text@.subrange(lo as int, hi as int)) == seq![
                    text@.subrange(a as int, b as int),
                ] + words(text@.subrange(b as int, hi as int))
            },
            None => words(text@.subrange(lo as int, hi as int)).len() == 0,
        },
{
    let ghost sub = text@.subrange(lo as int, hi as int);
    let mut a: usize = lo;
    while a < hi && is_whitespace(text[a])
        invariant
            lo <= a <= hi <= text.len(),
            sub == text@.subrange(lo as int, hi as int),
            skip_spaces(sub, 0) == skip_spaces(sub, a - lo),
        decreases hi - a,
    {
        a = a + 1;
    }
    if a >= hi {
        return None;
    }
    let mut b: usize = a;
    while b < hi && !is_whitespace(text[b])
        invariant
            lo <= a <= b <= hi <= text.len(),
            sub == text@.subrange(lo as int, hi as int),
            word_end(sub, a - lo) == word_end(sub, b - lo),
        decreases hi - b,
    {
        b = b + 1;
    }
    proof {
        lemma_word_end_bounds(sub, a - lo);
        assert(sub.subrange(a - lo, b - lo) == text@.subrange(a as int, b as int));
        assert(sub.skip(b - lo) == text@.subrange(b as int, hi as int));
    }
    Some((a, b))
}

/// The pieces of `text` between occurrences of `sep`.
pub fn split_chars(text: &Vec<char>, sep: char) -> (out: Vec<String>)
    ensures
        strings_view(out@) == split(text@, sep),
        out@.len() > 0,
{
    let mut out: Vec<String> = Vec::new();
    let mut start: usize = 0;
    assert(strings_view(out@) + split_from(text@, 0, sep) == split(text@, sep));
    loop
        invariant
            start <= text.len(),
            strings_view(out@) + split_from(text@, start as int, sep) == split(text@, sep),
        decreases text.len() - start,
    {
        let mut end: usize = start;
        while end < text.len() && text[end] != sep
            invariant
                start <= end <= text.len(),
                segment_end(text@, start as int, sep) == segment_end(text@, end as int, sep),
            decreases text.len() - end,
        {
            end = end + 1;
        }
        let piece = string_of_range(text, start, end);
        proof {
            lemma_strings_view_push(out@, piece);
            let rest = if end < text.len() {
                split_from(text@, end + 1, sep)
            } else {
                Seq::empty()
            };
            assert(strings_view(out@).push(piece@) + rest == strings_view(out@) + (seq![piece@]
                + rest));
            assert(seq![piece@] + Seq::<Seq<char>>::empty() == seq![piece@]);
        }
        out.push(piece);
        if end >= text.len() {
            assert(strings_view(out@) + Seq::<Seq<char>>::empty() == strings_view(out@));
            return out;
        }
        start = end + 1;
    }
}

} // verus!
