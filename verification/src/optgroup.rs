//! Option declarations and their resolved form's names.

use vstd::prelude::*;

use crate::result_error::Opt;
use crate::scan::resolve_group;

verus! {

/// Whether an option takes an argument: always, never, or optionally.
#[derive(Clone, Copy, Debug, PartialEq, Eq, Structural)]
pub enum HasArg {
    Yes,
    No,
    Maybe,
}

/// How often an option may occur: exactly once required, at most once,
/// or any number of times.
#[derive(Clone, Copy, Debug, PartialEq, Eq, Structural)]
pub enum Occur {
    Req,
    Optional,
    Multi,
}

/// Whether free arguments may appear between options, or stop the scan.
#[derive(Clone, Copy, Debug, PartialEq, Eq, Structural)]
pub enum ParsingStyle {
    FloatingFrees,
    StopAtFirstFree,
}

/// An option's identity: a one-character short name or a long name.
#[derive(Debug)]
pub enum Name {
    Long(String),
    Short(char),
}

/// Mathematical model of a [`Name`].
#[verifier::ext_equal]
pub ghost enum NameView {
    Long(Seq<char>),
    Short(char),
}

impl View for Name {
    type V = NameView;

    open spec fn view(&self) -> NameView {
        match self {
            Name::Long(s) => NameView::Long(s@),
            Name::Short(c) => NameView::Short(*c),
        }
    }
}

/// One declared option: names, help text, and its two policies.
#[derive(Debug)]
pub struct OptGroup {
    pub short_name: String,
    pub long_name: String,
    pub hint: String,
    pub desc: String,
    pub hasarg: HasArg,
    pub occur: Occur,
}

/// Mathematical model of an [`OptGroup`].
#[verifier::ext_equal]
pub ghost struct OptGroupView {
    pub short_name: Seq<char>,
    pub long_name: Seq<char>,
    pub hint: Seq<char>,
    pub desc: Seq<char>,
    pub hasarg: HasArg,
    pub occur: Occur,
}

impl View for OptGroup {
    type V = OptGroupView;

    open spec fn view(&self) -> OptGroupView {
        OptGroupView {
            short_name: self.short_name@,
            long_name: self.long_name@,
            hint: self.hint@,
            desc: self.desc@,
            hasarg: self.hasarg,
            occur: self.occur,
        }
    }
}

/// A well-formed declaration: the short name is at most one character,
/// the long name is empty or at least two characters, and at least one
/// of the two is given.
pub open spec fn group_wf(g: OptGroupView) -> bool {
    &&& g.short_name.len() <= 1
    &&& g.long_name.len() == 0 || g.long_name.len() >= 2
    &&& g.short_name.len() + g.long_name.len() > 0
}

impl Name {
    /// A one-character text names a short option; anything else is long.
    pub fn from_str(nm: &str) -> (r: Name)
        ensures
            r@ == name_from_chars(nm@),
    {
        if nm.unicode_len() == 1 {
            Name::Short(nm.get_char(0))
        } else {
            Name::Long(nm.to_owned())
        }
    }

    /// The display text of the name: the long text itself, or the short
    /// character as a one-character text.
    pub fn to_string(&self) -> (r: String)
        ensures
            r@ == name_display(self@),
    {
        match self {
            Name::Short(ch) => char_to_string(*ch),
            Name::Long(s) => s.clone(),
        }
    }
}

impl Clone for Name {
    fn clone(&self) -> (r: Self)
        ensures
            r@ == self@,
    {
        match self {
            Name::Short(ch) => Name::Short(*ch),
            Name::Long(s) => Name::Long(s.clone()),
        }
    }
}

/// The name that a piece of token text denotes: one character is a
/// short name, anything else a long one.
pub open spec fn name_from_chars(s: Seq<char>) -> NameView {
    if s.len() == 1 {
        NameView::Short(s[0])
    } else {
        NameView::Long(s)
    }
}

/// The display text of a name, used in error values and lookups.
pub open spec fn name_display(n: NameView) -> Seq<char> {
    match n {
        NameView::Short(c) => seq![c],
        NameView::Long(s) => s,
    }
}

/// Relies on String::push from std: appends one character.
#[verifier::external_body]
pub(crate) fn string_push(s: &mut String, c: char)
    ensures
        final(s)@ == old(s)@.push(c),
{
    s.push(c);
}

/// A fresh one-character text.
pub fn char_to_string(c: char) -> (r: String)
    ensures
        r@ == seq![c],
{
    let mut s = String::new();
    string_push(&mut s, c);
    proof {
        assert(s@ =~= seq![c]);
    }
    s
}

impl OptGroup {
    /// Resolves this declaration: long-only names become a canonical
    /// long name, short-only a canonical short one; with both names,
    /// the long one is canonical and the short its sole alias.
    pub fn long_to_short(&self) -> (r: Opt)
        requires
            group_wf(self@),
        ensures
            r@ == resolve_group(self@),
    {
        let slen = self.short_name.as_str().unicode_len();
        let llen = self.long_name.as_str().unicode_len();
        if slen == 0 {
            Opt {
                name: Name::Long(self.long_name.clone()),
                hasarg: self.hasarg,
                occur: self.occur,
                alias: None,
            }
        } else if llen == 0 {
            Opt {
                name: Name::Short(self.short_name.as_str().get_char(0)),
                hasarg: self.hasarg,
                occur: self.occur,
                alias: None,
            }
        } else {
            Opt {
                name: Name::Long(self.long_name.clone()),
                hasarg: self.hasarg,
                occur: self.occur,
                alias: Some(Name::Short(self.short_name.as_str().get_char(0))),
            }
        }
    }
}

impl Clone for OptGroup {
    fn clone(&self) -> (r: Self)
        ensures
            r@ == self@,
    {
        OptGroup {
            short_name: self.short_name.clone(),
            long_name: self.long_name.clone(),
            hint: self.hint.clone(),
            desc: self.desc.clone(),
            hasarg: self.hasarg,
            occur: self.occur,
        }
    }
}

} // verus!
