//! The data that a template is rendered with.

use vstd::prelude::*;

verus! {

/// A value of the data tree: a scalar, a list or a map from names to values.
///
/// A map is kept as a list of bindings; where a name is bound more than
/// once, the last binding is the one that counts.
#[derive(Debug)]
pub enum Context {
    String(String),
    Integer(i64),
    /// A floating-point number, held as its decimal text.
    Float(String),
    Bool(bool),
    Null,
    /// A map from names to values.
    Object(Vec<(String, Context)>),
    List(Vec<Context>),
}

/// The mathematical value of a [`Context`].
pub enum ContextView {
    String(Seq<char>),
    Integer(int),
    Float(Seq<char>),
    Bool(bool),
    Null,
    Object(Map<Seq<char>, ContextView>),
    List(Seq<ContextView>),
}

/// The map that a list of bindings stands for: later bindings replace
/// earlier ones of the same name.
pub open spec fn entries_view(entries: Seq<(String, Context)>) -> Map<Seq<char>, ContextView>
    decreases entries,
{
    if entries.len() == 0 {
        Map::empty()
    } else {
        entries_view(entries.drop_last()).insert(entries.last().0@, entries.last().1.view())
    }
}

/// The views of `items`, element by element.
pub open spec fn list_view(items: Seq<Context>) -> Seq<ContextView>
    decreases items,
{
    Seq::new(
        items.len(),
        |i: int|
            if 0 <= i < items.len() {
                items[i].view()
            } else {
                ContextView::Null
            },
    )
}

impl View for Context {
    type V = ContextView;

    open spec fn view(&self) -> ContextView
        decreases self,
    {
        match self {
            Context::String(x) => ContextView::String(x@),
            Context::Integer(x) => ContextView::Integer(*x as int),
            Context::Float(x) => ContextView::Float(x@),
            Context::Bool(x) => ContextView::Bool(*x),
            Context::Null => ContextView::Null,
            Context::Object(x) => ContextView::Object(entries_view(x@)),
            Context::List(x) => ContextView::List(list_view(x@)),
        }
    }
}

/// The character of a decimal digit.
pub open spec fn digit(d: int) -> char {
    if d == 0 {
        '0'
    } else if d == 1 {
        '1'
    } else if d == 2 {
        '2'
    } else if d == 3 {
        '3'
    } else if d == 4 {
        '4'
    } else if d == 5 {
        '5'
    } else if d == 6 {
        '6'
    } else if d == 7 {
        '7'
    } else if d == 8 {
        '8'
    } else {
        '9'
    }
}

/// The decimal digits of `n`, most significant first, without leading zeros.
pub open spec fn digits(n: nat) -> Seq<char>
    decreases n,
{
    if n < 10 {
        seq![digit(n as int)]
    } else {
        digits(n / 10).push(digit((n % 10) as int))
    }
}

/// The decimal text of `i`, with a minus sign where it is negative.
pub open spec fn decimal(i: int) -> Seq<char> {
    if i < 0 {
        seq!['-'] + digits((-i) as nat)
    } else {
        digits(i as nat)
    }
}

impl ContextView {
    /// Whether a direct section named after this value is rendered: every
    /// scalar but `false` and null, every map, and every list that is not empty.
    pub open spec fn truthy(self) -> bool {
        match self {
            ContextView::Bool(b) => b,
            ContextView::Null => false,
            ContextView::List(items) => items.len() > 0,
            _ => true,
        }
    }

    /// The text that the value is interpolated as. Null, maps and lists
    /// interpolate as nothing.
    pub open spec fn text(self) -> Seq<char> {
        match self {
            ContextView::String(s) => s,
            ContextView::Integer(i) => decimal(i),
            ContextView::Float(s) => s,
            ContextView::Bool(b) => if b {
                seq!['t', 'r', 'u', 'e']
            } else {
                seq!['f', 'a', 'l', 's', 'e']
            },
            _ => Seq::empty(),
        }
    }

    /// The value bound to `key`, where this is a map that binds it.
    pub open spec fn get(self, key: Seq<char>) -> Option<ContextView> {
        match self {
            ContextView::Object(m) => if m.contains_key(key) {
                Some(m[key])
            } else {
                None
            },
            _ => None,
        }
    }
}

/// The binding at `i` is the one that counts when none behind it has its name.
pub proof fn lemma_entries_view_get(entries: Seq<(String, Context)>, i: int, key: Seq<char>)
    requires
        0 <= i < entries.len(),
        entries[i].0@ == key,
        forall|j: int| i < j < entries.len() ==> (#[trigger] entries[j]).0@ != key,
    ensures
        entries_view(entries).contains_key(key),
        entries_view(entries)[key] == entries[i].1@,
    decreases entries.len(),
{
    assert(entries_view(entries) == entries_view(entries.drop_last()).insert(
        entries.last().0@,
        entries.last().1@,
    ));
    if i < entries.len() - 1 {
        let front = entries.drop_last();
        assert(front[i] == entries[i]);
        assert forall|j: int| i < j < front.len() implies (#[trigger] front[j]).0@ != key by {
            assert(front[j] == entries[j]);
        }
        lemma_entries_view_get(front, i, key);
    }
}

/// A name that no binding has is not in the map.
pub proof fn lemma_entries_view_absent(entries: Seq<(String, Context)>, key: Seq<char>)
    requires
        forall|j: int| 0 <= j < entries.len() ==> (#[trigger] entries[j]).0@ != key,
    ensures
        !entries_view(entries).contains_key(key),
    decreases entries.len(),
{
    if entries.len() > 0 {
        let front = entries.drop_last();
        assert(entries_view(entries) == entries_view(front).insert(
            entries.last().0@,
            entries.last().1@,
        ));
        assert forall|j: int| 0 <= j < front.len() implies (#[trigger] front[j]).0@ != key by {
            assert(front[j] == entries[j]);
        }
        lemma_entries_view_absent(front, key);
    }
}

/// One more binding at the end is an insertion into the map.
pub proof fn lemma_entries_view_push(entries: Seq<(String, Context)>, key: String, value: Context)
    ensures
        entries_view(entries.push((key, value))) == entries_view(entries).insert(key@, value@),
{
    assert(entries.push((key, value)).drop_last() == entries);
}

/// The view of a list grows with the list.
pub proof fn lemma_list_view_push(items: Seq<Context>, value: Context)
    ensures
        list_view(items.push(value)) == list_view(items).push(value@),
{
    assert(list_view(items.push(value)) =~= list_view(items).push(value@));
}

/// The character of the digit `d`.
fn digit_char(d: u64) -> (c: char)
    requires
        d < 10,
    ensures
        c == digit(d as int),
{
    if d == 0 {
        '0'
    } else if d == 1 {
        '1'
    } else if d == 2 {
        '2'
    } else if d == 3 {
        '3'
    } else if d == 4 {
        '4'
    } else if d == 5 {
        '5'
    } else if d == 6 {
        '6'
    } else if d == 7 {
        '7'
    } else if d == 8 {
        '8'
    } else {
        '9'
    }
}

/// Appends the decimal digits of `n` to `out`.
fn push_digits(out: &mut String, n: u64)
    ensures
        final(out)@ == old(out)@ + digits(n as nat),
    decreases n,
{
    if n >= 10 {
        push_digits(out, n / 10);
    }
    crate::chars::push_char(out, digit_char(n % 10));
    proof {
        if n >= 10 {
            assert(old(out)@ + digits(n as nat) == (old(out)@ + digits((n / 10) as nat)).push(
                digit((n % 10) as int),
            ));
        } else {
            assert(old(out)@ + digits(n as nat) == old(out)@.push(digit(n as int)));
        }
    }
}

/// The decimal text of `value`.
pub fn decimal_string(value: i64) -> (out: String)
    ensures
        out@ == decimal(value as int),
{
    let mut out = String::new();
    if value < 0 {
        crate::chars::push_char(&mut out, '-');
        let magnitude: u64 = (-(value + 1)) as u64 + 1;
        push_digits(&mut out, magnitude);
        assert(out@ == seq!['-'] + digits((-value) as nat));
    } else {
        push_digits(&mut out, value as u64);
        assert(out@ == digits(value as nat));
    }
    out
}

impl Context {
    /// The text that the value is interpolated as.
    pub fn to_string(&self) -> (out: String)
        ensures
            out@ == self@.text(),
    {
        match self {
            Context::String(x) => x.clone(),
            Context::Integer(x) => decimal_string(*x),
            Context::Float(x) => x.clone(),
            Context::Bool(x) => {
                proof {
                    reveal_strlit("true");
                    reveal_strlit("false");
                }
                if *x {
                    let out = String::from_str("true");
                    assert(out@ == seq!['t', 'r', 'u', 'e']);
                    out
                } else {
                    let out = String::from_str("false");
                    assert(out@ == seq!['f', 'a', 'l', 's', 'e']);
                    out
                }
            },
            _ => String::new(),
        }
    }

    /// Whether a direct section named after this value is rendered.
    pub fn is_truthy(&self) -> (b: bool)
        ensures
            b == self@.truthy(),
    {
        match self {
            Context::Bool(x) => *x,
            Context::Null => false,
            Context::List(x) => x.len() > 0,
            _ => true,
        }
    }

    /// The value bound to `key`, where this is a map that binds it.
    pub fn get(&self, key: &String) -> (r: Option<&Context>)
        ensures
            match self@.get(key@) {
                Some(value) => r matches Some(found) && found@ == value,
                None => r is None,
            },
    {
        match self {
            Context::Object(entries) => {
                let mut i: usize = entries.len();
                while i > 0
                    invariant
                        i <= entries.len(),
                        self@ == ContextView::Object(entries_view(entries@)),
                        forall|j: int| i <= j < entries.len() ==> (#[trigger] entries@[j]).0@ != key@,
                    decreases i,
                {
                    i = i - 1;
                    if entries[i].0 == *key {
                        proof {
                            lemma_entries_view_get(entries@, i as int, key@);
                        }
                        return Some(&entries[i].1);
                    }
                }
                proof {
                    lemma_entries_view_absent(entries@, key@);
                }
                None
            },
            _ => None,
        }
    }
}

impl Context {
    /// The value bound to `key` in a map that binds it.
    pub fn index(&self, key: &String) -> (out: &Context)
        requires
            self@.get(key@) is Some,
        ensures
            Some(out@) == self@.get(key@),
    {
        match self.get(key) {
            Some(found) => found,
            None => vstd::pervasive::unreached(),
        }
    }
}

/// Builds a map value, one binding at a time.
pub struct MapBuilder {
    context: Vec<(String, Context)>,
}

impl View for MapBuilder {
    type V = Map<Seq<char>, ContextView>;

    closed spec fn view(&self) -> Map<Seq<char>, ContextView> {
        entries_view(self.context@)
    }
}

impl MapBuilder {
    /// A builder without bindings.
    pub fn new() -> (out: Self)
        ensures
            out@ == Map::<Seq<char>, ContextView>::empty(),
    {
        MapBuilder { context: Vec::new() }
    }

    /// Binds `key` to `value`, in place of what it was bound to.
    pub fn insert(self, key: &str, value: Context) -> (out: Self)
        ensures
            out@ == self@.insert(key@, value@),
    {
        let mut context = self.context;
        let key = String::from_str(key);
        proof {
            lemma_entries_view_push(context@, key, value);
        }
        context.push((key, value));
        MapBuilder { context }
    }

    /// Binds `key` to the string `value`.
    pub fn str(self, key: &str, value: &str) -> (out: Self)
        ensures
            out@ == self@.insert(key@, ContextView::String(value@)),
    {
        self.insert(key, Context::String(String::from_str(value)))
    }

    /// Binds `key` to the integer `value`.
    pub fn integer(self, key: &str, value: i64) -> (out: Self)
        ensures
            out@ == self@.insert(key@, ContextView::Integer(value as int)),
    {
        self.insert(key, Context::Integer(value))
    }

    /// Binds `key` to the floating-point number whose decimal text is `value`.
    pub fn float(self, key: &str, value: &str) -> (out: Self)
        ensures
            out@ == self@.insert(key@, ContextView::Float(value@)),
    {
        self.insert(key, Context::Float(String::from_str(value)))
    }

    /// Binds `key` to the truth value `value`.
    pub fn bool(self, key: &str, value: bool) -> (out: Self)
        ensures
            out@ == self@.insert(key@, ContextView::Bool(value)),
    {
        self.insert(key, Context::Bool(value))
    }

    /// Binds `key` to the list of `value`.
    pub fn list(self, key: &str, value: Vec<Context>) -> (out: Self)
        ensures
            out@ == self@.insert(key@, ContextView::List(list_view(value@))),
    {
        self.insert(key, Context::List(value))
    }

    /// Binds `key` to the map with the bindings of `value`.
    pub fn map(self, key: &str, value: Vec<(String, Context)>) -> (out: Self)
        ensures
            out@ == self@.insert(key@, ContextView::Object(entries_view(value@))),
    {
        self.insert(key, Context::Object(value))
    }

    /// The value built.
    pub fn build(self) -> (out: Context)
        ensures
            out@ == ContextView::Object(self@),
    {
        Context::Object(self.context)
    }
}

/// Builds a list value, one element at a time.
pub struct VecBuilder {
    context: Vec<Context>,
}

impl View for VecBuilder {
    type V = Seq<ContextView>;

    closed spec fn view(&self) -> Seq<ContextView> {
        list_view(self.context@)
    }
}

impl VecBuilder {
    /// A builder without elements.
    pub fn new() -> (out: Self)
        ensures
            out@ == Seq::<ContextView>::empty(),
    {
        let out = VecBuilder { context: Vec::new() };
        assert(out@ =~= Seq::<ContextView>::empty());
        out
    }

    /// Adds `value` behind the elements so far.
    pub fn push(self, value: Context) -> (out: Self)
        ensures
            out@ == self@.push(value@),
    {
        let mut context = self.context;
        proof {
            lemma_list_view_push(context@, value);
        }
        context.push(value);
        VecBuilder { context }
    }

    /// Adds the string `value`.
    pub fn str(self, value: &str) -> (out: Self)
        ensures
            out@ == self@.push(ContextView::String(value@)),
    {
        self.push(Context::String(String::from_str(value)))
    }

    /// Adds the integer `value`.
    pub fn integer(self, value: i64) -> (out: Self)
        ensures
            out@ == self@.push(ContextView::Integer(value as int)),
    {
        self.push(Context::Integer(value))
    }

    /// Adds the floating-point number whose decimal text is `value`.
    pub fn float(self, value: &str) -> (out: Self)
        ensures
            out@ == self@.push(ContextView::Float(value@)),
    {
        self.push(Context::Float(String::from_str(value)))
    }

    /// Adds the truth value `value`.
    pub fn bool(self, value: bool) -> (out: Self)
        ensures
            out@ == self@.push(ContextView::Bool(value)),
    {
        self.push(Context::Bool(value))
    }

    /// Adds the list of `value`.
    pub fn list(self, value: Vec<Context>) -> (out: Self)
        ensures
            out@ == self@.push(ContextView::List(list_view(value@))),
    {
        self.push(Context::List(value))
    }

    /// Adds the map with the bindings of `value`.
    pub fn map(self, value: Vec<(String, Context)>) -> (out: Self)
        ensures
            out@ == self@.push(ContextView::Object(entries_view(value@))),
    {
        self.push(Context::Object(value))
    }

    /// The value built.
    pub fn build(self) -> (out: Context)
        ensures
            out@ == ContextView::List(self@),
    {
        Context::List(self.context)
    }
}

} // verus!
