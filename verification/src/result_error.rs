//! Parse outcomes: resolved options, captures, failures, and the
//! queryable match result.

use vstd::prelude::*;

use crate::global_fn::{find_opt, find_opt_spec};
use crate::optgroup::{name_from_chars, HasArg, Name, NameView, Occur};

verus! {

/// A resolved option: its canonical name, policies, and at most one
/// alias name that resolves to the same capture slot.
#[derive(Debug)]
pub struct Opt {
    /// Name of the option
    pub name: Name,
    /// Whether it has an argument
    pub hasarg: HasArg,
    /// How often it can occur
    pub occur: Occur,
    /// The alternate name that resolves to this option, if any
    pub alias: Option<Name>,
}

/// Mathematical model of an [`Opt`].
#[verifier::ext_equal]
pub ghost struct OptView {
    pub name: NameView,
    pub hasarg: HasArg,
    pub occur: Occur,
    pub alias: Option<NameView>,
}

impl View for Opt {
    type V = OptView;

    open spec fn view(&self) -> OptView {
        OptView {
            name: self.name@,
            hasarg: self.hasarg,
            occur: self.occur,
            alias: match &self.alias {
                Some(n) => Some(n@),
                None => None,
            },
        }
    }
}

impl Clone for Opt {
    fn clone(&self) -> (r: Self)
        ensures
            r@ == self@,
    {
        Opt {
            name: self.name.clone(),
            hasarg: self.hasarg,
            occur: self.occur,
            alias: match &self.alias {
                Some(n) => Some(n.clone()),
                None => None,
            },
        }
    }
}

/// One recorded occurrence of an option: a bare `Given`, or a `Val`
/// carrying the option's argument text.
#[derive(Debug)]
pub enum Optval {
    Val(String),
    Given,
}

/// Mathematical model of an [`Optval`].
#[verifier::ext_equal]
pub ghost enum OptvalView {
    Val(Seq<char>),
    Given,
}

impl View for Optval {
    type V = OptvalView;

    open spec fn view(&self) -> OptvalView {
        match self {
            Optval::Val(s) => OptvalView::Val(s@),
            Optval::Given => OptvalView::Given,
        }
    }
}

impl Clone for Optval {
    fn clone(&self) -> (r: Self)
        ensures
            r@ == self@,
    {
        match self {
            Optval::Val(s) => Optval::Val(s.clone()),
            Optval::Given => Optval::Given,
        }
    }
}

/// The closed set of user-input failures. Each variant carries the
/// option's display name or the raw offending text.
#[derive(Debug)]
pub enum Fail {
    ArgumentMissing(String),
    UnrecognizedOption(String),
    OptionMissing(String),
    OptionDuplicated(String),
    UnexpectedArgument(String),
}

/// Mathematical model of a [`Fail`].
#[verifier::ext_equal]
pub ghost enum FailView {
    ArgumentMissing(Seq<char>),
    UnrecognizedOption(Seq<char>),
    OptionMissing(Seq<char>),
    OptionDuplicated(Seq<char>),
    UnexpectedArgument(Seq<char>),
}

impl View for Fail {
    type V = FailView;

    open spec fn view(&self) -> FailView {
        match self {
            Fail::ArgumentMissing(s) => FailView::ArgumentMissing(s@),
            Fail::UnrecognizedOption(s) => FailView::UnrecognizedOption(s@),
            Fail::OptionMissing(s) => FailView::OptionMissing(s@),
            Fail::OptionDuplicated(s) => FailView::OptionDuplicated(s@),
            Fail::UnexpectedArgument(s) => FailView::UnexpectedArgument(s@),
        }
    }
}

impl Clone for Fail {
    fn clone(&self) -> (r: Self)
        ensures
            r@ == self@,
    {
        match self {
            Fail::ArgumentMissing(s) => Fail::ArgumentMissing(s.clone()),
            Fail::UnrecognizedOption(s) => Fail::UnrecognizedOption(s.clone()),
            Fail::OptionMissing(s) => Fail::OptionMissing(s.clone()),
            Fail::OptionDuplicated(s) => Fail::OptionDuplicated(s.clone()),
            Fail::UnexpectedArgument(s) => Fail::UnexpectedArgument(s.clone()),
        }
    }
}

/// The rendered message of a failure.
pub open spec fn fail_message(f: FailView) -> Seq<char> {
    match f {
        FailView::ArgumentMissing(nm) => "Argument to option '"@ + nm + "' missing"@,
        FailView::UnrecognizedOption(nm) => "Unrecognized option: '"@ + nm + "'"@,
        FailView::OptionMissing(nm) => "Required option '"@ + nm + "' missing"@,
        FailView::OptionDuplicated(nm) => "Option '"@ + nm + "' given more than once"@,
        FailView::UnexpectedArgument(nm) => "Option '"@ + nm + "' does not take an argument"@,
    }
}

impl Fail {
    /// The human-readable message for this failure.
    pub fn to_string(&self) -> (r: String)
        ensures
            r@ == fail_message(self@),
    {
        match self {
            Fail::ArgumentMissing(nm) => wrap_name("Argument to option '", nm, "' missing"),
            Fail::UnrecognizedOption(nm) => wrap_name("Unrecognized option: '", nm, "'"),
            Fail::OptionMissing(nm) => wrap_name("Required option '", nm, "' missing"),
            Fail::OptionDuplicated(nm) => wrap_name("Option '", nm, "' given more than once"),
            Fail::UnexpectedArgument(nm) => {
                wrap_name("Option '", nm, "' does not take an argument")
            },
        }
    }
}

/// Surrounds a name with a message prefix and suffix.
fn wrap_name(pre: &str, nm: &String, post: &str) -> (r: String)
    ensures
        r@ == pre@ + nm@ + post@,
{
    let mut s = pre.to_owned();
    s.append(nm.as_str());
    s.append(post);
    s
}

/// The result of a successful parse: the resolved options, the ordered
/// captures of each (parallel to `opts`), the free arguments, and the
/// index in `free` of the first token after a `--` terminator.
#[derive(Debug)]
pub struct Matches {
    /// Options that matched
    pub opts: Vec<Opt>,
    /// Values of the Options that matched and their positions
    pub vals: Vec<Vec<(usize, Optval)>>,
    /// Free string fragments
    pub free: Vec<String>,
    /// Index of first free fragment after "--" separator
    pub args_end: Option<usize>,
}

/// Mathematical model of a [`Matches`].
#[verifier::ext_equal]
pub ghost struct MatchesView {
    pub opts: Seq<OptView>,
    pub vals: Seq<Seq<(int, OptvalView)>>,
    pub free: Seq<Seq<char>>,
    pub args_end: Option<int>,
}

/// The model of one capture list.
pub open spec fn row_view(r: Seq<(usize, Optval)>) -> Seq<(int, OptvalView)> {
    Seq::new(r.len(), |j: int| (r[j].0 as int, r[j].1@))
}

/// The model of all capture lists.
pub open spec fn vals_view(v: Seq<Vec<(usize, Optval)>>) -> Seq<Seq<(int, OptvalView)>> {
    Seq::new(v.len(), |i: int| row_view(v[i]@))
}

/// The models of a list of resolved options.
pub open spec fn opts_view(v: Seq<Opt>) -> Seq<OptView> {
    Seq::new(v.len(), |i: int| v[i]@)
}

/// The models of a list of texts.
pub open spec fn strs_view(v: Seq<String>) -> Seq<Seq<char>> {
    Seq::new(v.len(), |i: int| v[i]@)
}

/// The model of an optional index.
pub open spec fn end_view(e: Option<usize>) -> Option<int> {
    match e {
        Some(i) => Some(i as int),
        None => None,
    }
}

impl View for Matches {
    type V = MatchesView;

    open spec fn view(&self) -> MatchesView {
        MatchesView {
            opts: opts_view(self.opts@),
            vals: vals_view(self.vals@),
            free: strs_view(self.free@),
            args_end: end_view(self.args_end),
        }
    }
}

impl Matches {
    /// The capture lists run parallel to the option list.
    pub open spec fn wf(&self) -> bool {
        self@.vals.len() == self@.opts.len()
    }

    /// The ordered captures of the option that `nm` denotes. Querying a
    /// name that no option carries is a caller error, ruled out here.
    fn opt_vals(&self, nm: &str) -> (r: Vec<(usize, Optval)>)
        requires
            self.wf(),
            find_opt_spec(self@.opts, name_from_chars(nm@)) is Some,
        ensures
            ({
                let id = find_opt_spec(self@.opts, name_from_chars(nm@))->Some_0;
                Seq::new(r@.len(), |j: int| (r@[j].0 as int, r@[j].1@)) == self@.vals[id]
            }),
    {
        let name = Name::from_str(nm);
        let id = match find_opt(&self.opts, &name) {
            Some(id) => id,
            None => {
                proof {
                    assert(false);
                }
                0
            },
        };
        let src = &self.vals[id];
        let mut r: Vec<(usize, Optval)> = Vec::new();
        let n = src.len();
        let mut j: usize = 0;
        while j < n
            invariant
                j <= n,
                n == src@.len(),
                r@.len() == j,
                forall|k: int|
                    0 <= k < j ==> (#[trigger] r@[k]).0 == src@[k].0 && r@[k].1@ == src@[k].1@,
            decreases n - j,
        {
            let v = src[j].1.clone();
            r.push((src[j].0, v));
            j += 1;
        }
        proof {
            let id_s = find_opt_spec(self@.opts, name_from_chars(nm@))->Some_0;
            assert(Seq::new(r@.len(), |jj: int| (r@[jj].0 as int, r@[jj].1@)) =~= self@.vals[id_s]);
        }
        r
    }

    /// True iff the option that `nm` denotes captured at least once.
    pub fn opt_present(&self, name: &str) -> (r: bool)
        requires
            self.wf(),
            find_opt_spec(self@.opts, name_from_chars(name@)) is Some,
        ensures
            r == (self@.vals[find_opt_spec(self@.opts, name_from_chars(name@))->Some_0].len() > 0),
    {
        self.opt_vals(name).len() > 0
    }

    /// The first capture of the option that `nm` denotes, if any.
    fn opt_val(&self, nm: &str) -> (r: Option<Optval>)
        requires
            self.wf(),
            find_opt_spec(self@.opts, name_from_chars(nm@)) is Some,
        ensures
            ({
                let caps = self@.vals[find_opt_spec(self@.opts, name_from_chars(nm@))->Some_0];
                match r {
                    Some(v) => caps.len() > 0 && v@ == caps[0].1,
                    None => caps.len() == 0,
                }
            }),
    {
        let vals = self.opt_vals(nm);
        if vals.len() > 0 {
            Some(vals[0].1.clone())
        } else {
            None
        }
    }

    /// The argument text of the first capture of the option that `nm`
    /// denotes, and only if that first capture carries a value: a first
    /// capture of `Given`, or no capture at all, yields `None`.
    pub fn opt_str(&self, name: &str) -> (r: Option<String>)
        requires
            self.wf(),
            find_opt_spec(self@.opts, name_from_chars(name@)) is Some,
        ensures
            ({
                let caps = self@.vals[find_opt_spec(self@.opts, name_from_chars(name@))->Some_0];
                match r {
                    Some(s) => caps.len() > 0 && caps[0].1 == OptvalView::Val(s@),
                    None => caps.len() == 0 || caps[0].1 is Given,
                }
            }),
    {
        match self.opt_val(name) {
            Some(Optval::Val(s)) => Some(s),
            _ => None,
        }
    }
}

impl Clone for Matches {
    fn clone(&self) -> (r: Self)
        ensures
            r@ == self@,
    {
        let mut opts: Vec<Opt> = Vec::new();
        let mut i: usize = 0;
        while i < self.opts.len()
            invariant
                i <= self.opts@.len(),
                opts@.len() == i,
                forall|k: int| 0 <= k < i ==> #[trigger] opts@[k]@ == self.opts@[k]@,
            decreases self.opts@.len() - i,
        {
            opts.push(self.opts[i].clone());
            i += 1;
        }
        let mut vals: Vec<Vec<(usize, Optval)>> = Vec::new();
        let mut i: usize = 0;
        while i < self.vals.len()
            invariant
                i <= self.vals@.len(),
                vals@.len() == i,
                forall|k: int, j: int|
                    0 <= k < i && 0 <= j < vals@[k]@.len() ==> (#[trigger] vals@[k]@[j]).0
                        == self.vals@[k]@[j].0 && vals@[k]@[j].1@ == self.vals@[k]@[j].1@,
                forall|k: int| 0 <= k < i ==> #[trigger] vals@[k]@.len() == self.vals@[k]@.len(),
            decreases self.vals@.len() - i,
        {
            let src = &self.vals[i];
            let mut row: Vec<(usize, Optval)> = Vec::new();
            let mut j: usize = 0;
            while j < src.len()
                invariant
                    j <= src@.len(),
                    row@.len() == j,
                    forall|k: int|
                        0 <= k < j ==> (#[trigger] row@[k]).0 == src@[k].0 && row@[k].1@
                            == src@[k].1@,
                decreases src@.len() - j,
            {
                row.push((src[j].0, src[j].1.clone()));
                j += 1;
            }
            vals.push(row);
            i += 1;
        }
        let mut free: Vec<String> = Vec::new();
        let mut i: usize = 0;
        while i < self.free.len()
            invariant
                i <= self.free@.len(),
                free@.len() == i,
                forall|k: int| 0 <= k < i ==> #[trigger] free@[k]@ == self.free@[k]@,
            decreases self.free@.len() - i,
        {
            free.push(self.free[i].clone());
            i += 1;
        }
        let r = Matches { opts, vals, free, args_end: self.args_end };
        proof {
            assert(r@.opts =~= self@.opts);
            assert(r@.free =~= self@.free);
            assert forall|k: int| 0 <= k < r@.vals.len() implies #[trigger] r@.vals[k]
                == self@.vals[k] by {
                assert(r@.vals[k] =~= self@.vals[k]);
            }
            assert(r@.vals =~= self@.vals);
            assert(r@ =~= self@);
        }
        r
    }
}

} // verus!
