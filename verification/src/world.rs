//! World-space text payloads that never reflow under projection.

use vstd::prelude::*;
use vstd::std_specs::iter::IteratorSpec;

verus! {

/// The lines of `s` as cut at every newline. A trailing newline yields a
/// trailing empty line, and the empty text is one empty line.
pub open spec fn split_lines(s: Seq<char>) -> Seq<Seq<char>>
    decreases s.len(),
{
    if s.len() == 0 {
        seq![Seq::<char>::empty()]
    } else {
        let rest = split_lines(s.drop_last());
        if s.last() == '\n' {
            rest.push(Seq::<char>::empty())
        } else {
            rest.update(rest.len() - 1, rest.last().push(s.last()))
        }
    }
}

/// The lines glued back together with one newline between neighbours.
pub open spec fn join_lines(lines: Seq<Seq<char>>) -> Seq<char>
    decreases lines.len(),
{
    if lines.len() == 0 {
        Seq::<char>::empty()
    } else if lines.len() == 1 {
        lines[0]
    } else {
        join_lines(lines.drop_last()) + seq!['\n'] + lines.last()
    }
}

/// Number of newline characters in `s`.
pub open spec fn newline_count(s: Seq<char>) -> nat
    decreases s.len(),
{
    if s.len() == 0 {
        0
    } else {
        newline_count(s.drop_last()) + if s.last() == '\n' { 1nat } else { 0nat }
    }
}

pub open spec fn views_of(lines: Seq<String>) -> Seq<Seq<char>> {
    lines.map_values(|l: String| l@)
}

proof fn lemma_split_nonempty(s: Seq<char>)
    ensures
        split_lines(s).len() >= 1,
        split_lines(s).len() == newline_count(s) + 1,
    decreases s.len(),
{
    if s.len() > 0 {
        lemma_split_nonempty(s.drop_last());
    }
}

/// Splitting at newlines and joining with newlines gives the text back, and
/// no line holds a newline: the line breaks are recognized exactly once.
pub proof fn lemma_split_lines_round_trip(s: Seq<char>)
    ensures
        join_lines(split_lines(s)) == s,
        split_lines(s).len() == newline_count(s) + 1,
        forall|i: int|
            0 <= i < split_lines(s).len() ==> !(#[trigger] split_lines(s)[i]).contains('\n'),
    decreases s.len(),
{
    lemma_split_nonempty(s);
    if s.len() == 0 {
        assert(join_lines(split_lines(s)) =~= s);
    } else {
        let p = s.drop_last();
        lemma_split_lines_round_trip(p);
        lemma_split_nonempty(p);
        let rest = split_lines(p);
        if s.last() == '\n' {
            let lines = rest.push(Seq::<char>::empty());
            assert(lines.drop_last() =~= rest);
            assert(join_lines(lines) =~= s);
            assert forall|i: int| 0 <= i < lines.len() implies !(#[trigger] lines[i]).contains(
                '\n',
            ) by {
                if i < rest.len() {
                    assert(lines[i] == rest[i]);
                }
            }
        } else {
            let lines = rest.update(rest.len() - 1, rest.last().push(s.last()));
            if rest.len() == 1 {
                assert(lines.len() == 1);
                assert(join_lines(rest) == rest[0]);
                assert(lines[0] == rest[0].push(s.last()));
                assert(s =~= p.push(s.last()));
                assert(join_lines(lines) == lines[0]);
                assert(join_lines(lines) =~= s);
            } else {
                assert(lines.drop_last() =~= rest.drop_last());
                assert(join_lines(rest) == join_lines(rest.drop_last()) + seq!['\n']
                    + rest.last());
                assert(lines.last() == rest.last().push(s.last()));
                assert(join_lines(lines) == join_lines(lines.drop_last()) + seq!['\n']
                    + lines.last());
                assert(s =~= p.push(s.last()));
                assert(join_lines(lines) =~= s);
            }
            assert forall|i: int| 0 <= i < lines.len() implies !(#[trigger] lines[i]).contains(
                '\n',
            ) by {
                if i < rest.len() - 1 {
                    assert(lines[i] == rest[i]);
                } else {
                    let l = rest.last();
                    assert(!rest[rest.len() - 1].contains('\n'));
                    assert forall|k: int| 0 <= k < lines[i].len() implies lines[i][k] != '\n' by {
                        if k < l.len() {
                            assert(lines[i][k] == l[k]);
                            if l[k] == '\n' {
                                assert(l.contains('\n'));
                            }
                        }
                    }
                }
            }
        }
    }
}

/// Explicit, immutable-for-projection text lines. Projection never measures
/// or wraps these strings.
#[derive(Clone, Debug, Default, PartialEq, Eq)]
pub struct TextLines(Vec<String>);

impl TextLines {
    pub closed spec fn view(&self) -> Seq<Seq<char>> {
        views_of(self.0@)
    }

    /// The given lines, as they are.
    pub fn new(lines: Vec<String>) -> (r: Self)
        ensures
            r.view() == views_of(lines@),
    {
        TextLines(lines)
    }

    /// Cut `text` at every newline; a trailing newline keeps a trailing empty line.
    pub fn from_text(text: &str) -> (r: Self)
        ensures
            r.view() == split_lines(text@),
    {
        broadcast use vstd::string::axiom_spec_iter;

        let mut lines: Vec<String> = Vec::new();
        let mut current = String::new();
        for c in iter: text.chars()
            invariant
                iter.seq() == text@,
                views_of(lines@).push(current@) == split_lines(
                    iter.seq().take(iter.index() as int),
                ),
        {
            let ghost prefix = iter.seq().take(iter.index() as int);
            let ghost next = iter.seq().take(iter.index() + 1);
            assert(next.drop_last() =~= prefix);
            if c == '\n' {
                let finished = current;
                lines.push(finished);
                current = String::new();
                assert(views_of(lines@).push(current@) =~= split_lines(prefix).push(
                    Seq::<char>::empty(),
                ));
            } else {
                let ghost before = views_of(lines@).push(current@);
                crate::text_input::push_char_to(&mut current, c);
                assert(views_of(lines@).push(current@) =~= before.update(
                    before.len() - 1,
                    before.last().push(c),
                ));
            }
        }
        assert(text@.take(text@.len() as int) =~= text@);
        lines.push(current);
        assert(views_of(lines@) =~= split_lines(text@));
        TextLines(lines)
    }

    /// The lines, in order.
    pub fn as_slice(&self) -> (r: &[String])
        ensures
            views_of(r@) == self.view(),
    {
        self.0.as_slice()
    }

    /// The number of lines.
    pub fn len(&self) -> (r: usize)
        ensures
            r == self.view().len(),
    {
        self.0.len()
    }

    /// Whether there is no line.
    pub fn is_empty(&self) -> (r: bool)
        ensures
            r == (self.view().len() == 0),
    {
        self.0.len() == 0
    }
}

/// Semantic purpose of an inverse hit region.
#[derive(Clone, Debug, PartialEq, Eq, Hash)]
pub enum HitRole {
    NodeBody,
    Port,
    Control,
    Custom(String),
}

/// Semantic role exposed when a control hit region is projected into the
/// accessibility tree.
#[derive(Clone, Copy, Debug, PartialEq, Eq, Structural)]
pub enum AccessibleControlRole {
    Button,
    TextInput,
    ComboBox,
    Slider,
    SpinButton,
}

impl Default for AccessibleControlRole {
    fn default() -> (r: Self)
        ensures
            r == AccessibleControlRole::Button,
    {
        AccessibleControlRole::Button
    }
}

} // verus!
