//! The state of a rendering: the variables in scope, the stack of `{% for %}` loops, and
//! rendered strings that remember whether they still need escaping.
use std::collections::HashMap;

use vstd::prelude::*;
use vstd::std_specs::hash::obeys_key_model;

verus! {

/// The position of a `{% for %}` loop: how many items were done, and how many there are.
pub type ForLoopView = (nat, nat);

/// A `{% for %}` loop in progress, as the template sees it through `forloop`.
#[derive(Debug)]
pub struct ForLoop {
    count: usize,
    len: usize,
}

impl View for ForLoop {
    type V = ForLoopView;

    closed spec fn view(&self) -> ForLoopView {
        (self.count as nat, self.len as nat)
    }
}

impl ForLoop {
    /// The index of the current item, from 0.
    pub fn counter0(&self) -> (r: usize)
        ensures
            r == self@.0,
    {
        self.count
    }

    /// The index of the current item, from 1.
    pub fn counter(&self) -> (r: usize)
        requires
            self@.0 < usize::MAX,
        ensures
            r == self@.0 + 1,
    {
        self.count + 1
    }

    /// How many items are left, the current one included.
    pub fn rev_counter(&self) -> (r: usize)
        requires
            self@.0 <= self@.1,
        ensures
            r == self@.1 - self@.0,
    {
        self.len - self.count
    }

    /// How many items are left after the current one.
    pub fn rev_counter0(&self) -> (r: usize)
        requires
            self@.0 < self@.1,
        ensures
            r == self@.1 - self@.0 - 1,
    {
        self.len - self.count - 1
    }

    /// Whether the current item is the first.
    pub fn first(&self) -> (r: bool)
        ensures
            r <==> self@.0 == 0,
    {
        self.count == 0
    }

    /// Whether the current item is the last.
    pub fn last(&self) -> (r: bool)
        requires
            self@.0 < usize::MAX,
        ensures
            r <==> self@.0 + 1 == self@.1,
    {
        self.count + 1 == self.len
    }
}

/// The loops of `loops`, innermost last, by their position.
pub open spec fn loop_views(loops: Seq<ForLoop>) -> Seq<ForLoopView> {
    loops.map_values(|l: ForLoop| l@)
}

/// The loop stack after entering a loop over `len` items.
pub open spec fn pushed(s: Seq<ForLoopView>, len: nat) -> Seq<ForLoopView> {
    s.push((0, len))
}

/// The loop stack after the innermost loop moved to its next item.
pub open spec fn incremented(s: Seq<ForLoopView>) -> Seq<ForLoopView> {
    s.update(s.len() - 1, (s.last().0 + 1, s.last().1))
}

/// The loop stack after the innermost loop moved `k` items on.
pub open spec fn incremented_by(s: Seq<ForLoopView>, k: nat) -> Seq<ForLoopView>
    decreases k,
{
    if k == 0 {
        s
    } else {
        incremented(incremented_by(s, (k - 1) as nat))
    }
}

/// The loop stack after leaving the innermost loop.
pub open spec fn popped(s: Seq<ForLoopView>) -> Seq<ForLoopView> {
    s.drop_last()
}

/// The loop `depth` levels out from the innermost one (which is at depth 0), if there is one.
pub open spec fn loop_at(s: Seq<ForLoopView>, depth: int) -> Option<ForLoopView> {
    if 0 <= depth < s.len() {
        Some(s[s.len() - 1 - depth])
    } else {
        None
    }
}

/// The variables of `context` after binding each of `names` to the value at the same index.
pub open spec fn bind_all<V>(context: Map<String, V>, names: Seq<String>, values: Seq<V>) -> Map<
    String,
    V,
>
    decreases names.len(),
{
    if names.len() == 0 {
        context
    } else {
        bind_all(context, names.drop_last(), values.take(names.len() - 1)).insert(
            names.last(),
            values[names.len() - 1],
        )
    }
}

/// What rendering rejects, with the spans of the template that it points at.
#[derive(Debug, PartialEq, Eq)]
pub enum RenderError {
    InvalidArgumentInteger { argument: String, argument_at: (usize, usize) },
    InvalidArgumentFloat { argument: String, argument_at: (usize, usize) },
    OverflowError { argument: String, argument_at: (usize, usize) },
    ArgumentDoesNotExist {
        key: String,
        object: String,
        key_at: (usize, usize),
        object_at: Option<(usize, usize)>,
    },
    TupleUnpackError {
        expected_count: usize,
        actual_count: usize,
        expected_at: (usize, usize),
        actual_at: (usize, usize),
    },
    VariableDoesNotExist {
        key: String,
        object: String,
        key_at: (usize, usize),
        object_at: Option<(usize, usize)>,
    },
}

/// The variables in scope, the request, whether output is escaped, and the loops entered,
/// innermost last. `V` is the type of the template's values.
pub struct Context<V> {
    pub request: Option<V>,
    pub context: HashMap<String, V>,
    pub autoescape: bool,
    pub loops: Vec<ForLoop>,
}

impl<V> Context<V> {
    /// A context with the given variables and request, in no loop.
    pub fn new(context: HashMap<String, V>, request: Option<V>, autoescape: bool) -> (r: Self)
        ensures
            r.context == context,
            r.request == request,
            r.autoescape == autoescape,
            r.loops@.len() == 0,
    {
        Self { request, context, autoescape, loops: Vec::new() }
    }

    /// Binds `name` to `value`.
    pub fn push_variable(&mut self, name: String, value: V)
        ensures
            obeys_key_model::<String>() ==> final(self).context@ == old(self).context@.insert(
                name,
                value,
            ),
            final(self).request == old(self).request,
            final(self).autoescape == old(self).autoescape,
            final(self).loops == old(self).loops,
    {
        self.context.insert(name, value);
    }

    /// Binds the names of a loop to its current item: a single name to the item itself; other
    /// names (several, or none) to the values `unpacked` that the item unpacks into, one per
    /// name, in order, which must be as many as the names.
    pub fn push_variables(
        &mut self,
        names: &Vec<String>,
        names_at: (usize, usize),
        item: V,
        unpacked: Vec<V>,
        values_at: (usize, usize),
    ) -> (r: Result<(), RenderError>)
        ensures
            names@.len() == 1 ==> r is Ok && (obeys_key_model::<String>() ==> final(self).context@
                == old(self).context@.insert(names@[0], item)),
            names@.len() != 1 ==> (r is Ok <==> names@.len() == unpacked@.len()),
            names@.len() != 1 && r is Ok ==> (obeys_key_model::<String>() ==> final(self).context@
                == bind_all(old(self).context@, names@, unpacked@)),
            r is Ok ==> final(self).request == old(self).request && final(self).autoescape == old(
                self,
            ).autoescape && final(self).loops == old(self).loops,
            r is Err ==> *final(self) == *old(self),
            r matches Err(e) ==> e == (RenderError::TupleUnpackError {
                expected_count: names@.len() as usize,
                actual_count: unpacked@.len() as usize,
                expected_at: names_at,
                actual_at: values_at,
            }),
    {
        if names.len() == 1 {
            self.push_variable(names[0].clone(), item);
            return Ok(());
        }
        let values = unpacked;
        if names.len() != values.len() {
            return Err(
                RenderError::TupleUnpackError {
                    expected_count: names.len(),
                    actual_count: values.len(),
                    expected_at: names_at,
                    actual_at: values_at,
                },
            );
        }
        let ghost start = self.context@;
        let ghost all = values@;
        let mut values = values;
        let mut rest: Vec<V> = Vec::new();
        while values.len() > 0
            invariant
                values@ + rest@.reverse() == all,
                values@.len() + rest@.len() == all.len(),
                names@.len() == all.len(),
            decreases values@.len(),
        {
            let value = values.pop().unwrap();
            rest.push(value);
            proof {
                assert(values@ + rest@.reverse() =~= all);
            }
        }
        let mut i: usize = 0;
        while i < names.len()
            invariant
                0 <= i <= names@.len(),
                names@.len() == all.len(),
                rest@.len() == all.len() - i,
                rest@.reverse() =~= all.skip(i as int),
                obeys_key_model::<String>() ==> self.context@ == bind_all(
                    start,
                    names@.take(i as int),
                    all.take(i as int),
                ),
                self.request == old(self).request,
                self.autoescape == old(self).autoescape,
                self.loops == old(self).loops,
            decreases names@.len() - i,
        {
            let ghost before = rest@;
            let value = rest.pop().unwrap();
            proof {
                assert(before.reverse()[0] == before[before.len() - 1]);
                assert(value == all[i as int]);
                assert(rest@ =~= before.drop_last());
                assert forall|j: int| 0 <= j < rest@.len() implies rest@.reverse()[j] == all.skip(
                    i + 1,
                )[j] by {
                    assert(before.reverse()[j + 1] == all.skip(i as int)[j + 1]);
                }
                assert(rest@.reverse() =~= all.skip(i + 1));
                assert(names@.take(i + 1).drop_last() =~= names@.take(i as int));
                assert(all.take(i + 1).take(i as int) =~= all.take(i as int));
            }
            self.push_variable(names[i].clone(), value);
            i = i + 1;
        }
        proof {
            assert(names@.take(names@.len() as int) =~= names@);
            assert(all.take(all.len() as int) =~= all);
        }
        Ok(())
    }

    /// Enters a loop over `len` items, at its first item.
    pub fn push_for_loop(&mut self, len: usize)
        ensures
            loop_views(final(self).loops@) == pushed(loop_views(old(self).loops@), len as nat),
            final(self).context == old(self).context,
            final(self).request == old(self).request,
            final(self).autoescape == old(self).autoescape,
    {
        self.loops.push(ForLoop { count: 0, len });
        assert(loop_views(self.loops@) =~= pushed(loop_views(old(self).loops@), len as nat));
    }

    /// Moves the innermost loop to its next item.
    pub fn increment_for_loop(&mut self)
        requires
            old(self).loops@.len() > 0,
            loop_views(old(self).loops@).last().0 < usize::MAX,
        ensures
            loop_views(final(self).loops@) == incremented(loop_views(old(self).loops@)),
            final(self).context == old(self).context,
            final(self).request == old(self).request,
            final(self).autoescape == old(self).autoescape,
    {
        let last = self.loops.len() - 1;
        self.loops[last].count += 1;
        assert(loop_views(self.loops@) =~= incremented(loop_views(old(self).loops@)));
    }

    /// Leaves the innermost loop.
    pub fn pop_for_loop(&mut self)
        requires
            old(self).loops@.len() > 0,
        ensures
            loop_views(final(self).loops@) == popped(loop_views(old(self).loops@)),
            final(self).context == old(self).context,
            final(self).request == old(self).request,
            final(self).autoescape == old(self).autoescape,
    {
        let _ = self.loops.pop();
        assert(loop_views(self.loops@) =~= popped(loop_views(old(self).loops@)));
    }

    /// The loop `depth` levels out from the innermost one, if there is one.
    pub fn get_for_loop(&self, depth: usize) -> (r: Option<&ForLoop>)
        requires
            depth < usize::MAX,
        ensures
            r is Some <==> depth < self.loops@.len(),
            r matches Some(l) ==> l == self.loops@[self.loops@.len() - 1 - depth],
            r matches Some(l) ==> Some(l@) == loop_at(loop_views(self.loops@), depth as int),
            r is None ==> loop_at(loop_views(self.loops@), depth as int) is None,
    {
        match self.loops.len().checked_sub(depth + 1) {
            Some(index) => Some(&self.loops[index]),
            None => None,
        }
    }
}

/// Leaving a loop undoes entering it.
pub proof fn lemma_pop_undoes_push(s: Seq<ForLoopView>, len: nat)
    ensures
        popped(pushed(s, len)) == s,
{
    assert(popped(pushed(s, len)) =~= s);
}

/// A loop just entered is the innermost, at its first item; the loops around it are reached one
/// level further out.
pub proof fn lemma_push_depth(s: Seq<ForLoopView>, len: nat, depth: int)
    ensures
        loop_at(pushed(s, len), 0) == Some((0nat, len)),
        depth >= 0 ==> loop_at(pushed(s, len), depth + 1) == loop_at(s, depth),
{
}

/// After entering a loop over `len` items and moving `k` items on, the innermost loop is at item
/// `k` of `len` and the loops around it are as they were; leaving it gives back the stack from
/// before the loop.
pub proof fn lemma_loop_progress(s: Seq<ForLoopView>, len: nat, k: nat)
    ensures
        incremented_by(pushed(s, len), k).len() == s.len() + 1,
        incremented_by(pushed(s, len), k).last() == (k, len),
        popped(incremented_by(pushed(s, len), k)) == s,
    decreases k,
{
    if k > 0 {
        lemma_loop_progress(s, len, (k - 1) as nat);
        let prev = incremented_by(pushed(s, len), (k - 1) as nat);
        assert(popped(incremented(prev)) =~= popped(prev));
    } else {
        assert(popped(pushed(s, len)) =~= s);
    }
}

/// Moving the innermost loop on changes only that loop, by one item.
pub proof fn lemma_increment_innermost(s: Seq<ForLoopView>, depth: int)
    requires
        s.len() > 0,
    ensures
        loop_at(incremented(s), 0) == Some((s.last().0 + 1, s.last().1)),
        depth > 0 ==> loop_at(incremented(s), depth) == loop_at(s, depth),
{
}

/// The text that `encode_quoted_attribute` gives for the character `c`: `&`, `<`, `>`, `"` and
/// `'` become entities, any other character stays.
pub open spec fn quoted_attribute_char(c: char) -> Seq<char> {
    if c == '&' {
        seq!['&', 'a', 'm', 'p', ';']
    } else if c == '<' {
        seq!['&', 'l', 't', ';']
    } else if c == '>' {
        seq!['&', 'g', 't', ';']
    } else if c == '"' {
        seq!['&', 'q', 'u', 'o', 't', ';']
    } else if c == '\'' {
        seq!['&', '#', 'x', '2', '7', ';']
    } else {
        seq![c]
    }
}

/// `text` escaped for use inside a quoted HTML attribute.
pub open spec fn quoted_attribute(text: Seq<char>) -> Seq<char>
    decreases text.len(),
{
    if text.len() == 0 {
        Seq::empty()
    } else {
        quoted_attribute_char(text[0]) + quoted_attribute(text.drop_first())
    }
}

/// Calls `html_escape::encode_quoted_attribute`, which by its documentation replaces `&`, `<`,
/// `>`, `"` and `'` with their HTML entities and leaves every other character as it is.
#[verifier::external_body]
fn encode_quoted_attribute(text: &str) -> (r: String)
    ensures
        r@ == quoted_attribute(text@),
{
    html_escape::encode_quoted_attribute(text).to_string()
}

/// A rendered string: plain (no escaping asked for), marked safe, or still to be escaped.
#[derive(Debug, PartialEq, Eq)]
pub enum ContentString {
    String(String),
    HtmlSafe(String),
    HtmlUnsafe(String),
}

impl ContentString {
    /// The text of the string itself, before any escaping.
    pub open spec fn raw(&self) -> Seq<char> {
        match self {
            ContentString::String(s) => s@,
            ContentString::HtmlSafe(s) => s@,
            ContentString::HtmlUnsafe(s) => s@,
        }
    }

    /// The text to output: an unsafe string is escaped, the others are output as they are.
    pub fn content(self) -> (r: String)
        ensures
            r@ == match self {
                ContentString::HtmlUnsafe(s) => quoted_attribute(s@),
                _ => self.raw(),
            },
    {
        match self {
            Self::String(content) => content,
            Self::HtmlSafe(content) => content,
            Self::HtmlUnsafe(content) => encode_quoted_attribute(content.as_str()),
        }
    }

    /// The text of the string, unescaped.
    pub fn as_raw(&self) -> (r: &String)
        ensures
            r@ == self.raw(),
    {
        match self {
            Self::String(content) => content,
            Self::HtmlSafe(content) => content,
            Self::HtmlUnsafe(content) => content,
        }
    }

    /// The text of the string, unescaped.
    pub fn into_raw(self) -> (r: String)
        ensures
            r@ == self.raw(),
    {
        match self {
            Self::String(content) => content,
            Self::HtmlSafe(content) => content,
            Self::HtmlUnsafe(content) => content,
        }
    }
}

} // verus!
