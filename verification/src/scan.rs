//! The mathematical model of a parse: token scanning, short-option
//! clustering, argument-policy application, cardinality validation, and
//! terminator cleanup. The executable `Options::parse` is proved to
//! return exactly what [`parse_spec`] describes.

use vstd::prelude::*;

use crate::global_fn::find_opt_spec;
use crate::is_arg_spec;
use crate::optgroup::{name_display, name_from_chars, HasArg, NameView, Occur, OptGroupView,
    ParsingStyle};
use crate::result_error::{FailView, MatchesView, OptView, OptvalView};

verus! {

/// The scanner's running state: per-option capture lists (parallel to
/// the option list), the free arguments so far, and the recorded
/// terminator position, if any.
#[verifier::ext_equal]
pub ghost struct ScanState {
    pub vals: Seq<Seq<(int, OptvalView)>>,
    pub free: Seq<Seq<char>>,
    pub args_end: Option<int>,
}

/// The scanner's state before any token is read: one empty capture
/// list per option, no free arguments, no terminator.
pub open spec fn init_state(n: nat) -> ScanState {
    ScanState {
        vals: Seq::new(n, |i: int| Seq::empty()),
        free: Seq::empty(),
        args_end: None,
    }
}

/// True iff the token is exactly the `--` terminator.
pub open spec fn is_terminator(s: Seq<char>) -> bool {
    s.len() == 2 && s[0] == '-' && s[1] == '-'
}

/// The position of the first `=` at or after `i`, if any.
pub open spec fn first_eq(s: Seq<char>, i: int) -> Option<int>
    decreases s.len() - i,
{
    if i < 0 || i >= s.len() {
        None
    } else if s[i] == '=' {
        Some(i)
    } else {
        first_eq(s, i + 1)
    }
}

pub proof fn lemma_first_eq_step(s: Seq<char>, k: int, i: int)
    requires
        0 <= k <= i < s.len(),
        s[i] == '=',
        forall|j: int| k <= j < i ==> s[j] != '=',
    ensures
        first_eq(s, k) == Some(i),
    decreases i - k,
{
    if k < i {
        lemma_first_eq_step(s, k + 1, i);
    }
}

pub proof fn lemma_first_eq_absent(s: Seq<char>, k: int)
    requires
        0 <= k,
        forall|j: int| k <= j < s.len() ==> s[j] != '=',
    ensures
        first_eq(s, k) is None,
    decreases s.len() - k,
{
    if k < s.len() {
        lemma_first_eq_absent(s, k + 1);
    }
}

/// Splits long-option text at the first `=` into a name and an
/// optional inline value.
pub open spec fn split_eq(s: Seq<char>) -> (Seq<char>, Option<Seq<char>>) {
    match first_eq(s, 0) {
        Some(i) => (s.take(i), Some(s.skip(i + 1))),
        None => (s, None),
    }
}

/// Appends one capture to the option's list in slot `id`.
pub open spec fn record(
    vals: Seq<Seq<(int, OptvalView)>>,
    id: int,
    pos: int,
    v: OptvalView,
) -> Seq<Seq<(int, OptvalView)>> {
    vals.update(id, vals[id].push((pos, v)))
}

/// Resolution of a name with an optional inline value against the
/// option list: on success, the new capture lists and how many extra
/// tokens (0 or 1) were consumed from `rest` as a following value.
///
/// An argument-less option refuses an inline value; a required-value
/// option takes the inline value or the next token, whatever it looks
/// like; an optional-value option takes the inline value, or consumes
/// the next token only when written in long form and that token exists
/// and is not itself option-shaped.
pub open spec fn apply_policy(
    opts: Seq<OptView>,
    nmv: NameView,
    iarg: Option<Seq<char>>,
    was_long: bool,
    rest: Seq<Seq<char>>,
    pos: int,
    vals: Seq<Seq<(int, OptvalView)>>,
) -> Result<(Seq<Seq<(int, OptvalView)>>, int), FailView> {
    match find_opt_spec(opts, nmv) {
        None => Err(FailView::UnrecognizedOption(name_display(nmv))),
        Some(id) => match opts[id].hasarg {
            HasArg::No => {
                if iarg is Some {
                    Err(FailView::UnexpectedArgument(name_display(nmv)))
                } else {
                    Ok((record(vals, id, pos, OptvalView::Given), 0))
                }
            },
            HasArg::Maybe => match iarg {
                Some(v) => Ok((record(vals, id, pos, OptvalView::Val(v)), 0)),
                None => {
                    if was_long && rest.len() > 0 && !is_arg_spec(rest[0]) {
                        Ok((record(vals, id, pos, OptvalView::Val(rest[0])), 1))
                    } else {
                        Ok((record(vals, id, pos, OptvalView::Given), 0))
                    }
                },
            },
            HasArg::Yes => match iarg {
                Some(v) => Ok((record(vals, id, pos, OptvalView::Val(v)), 0)),
                None => {
                    if rest.len() > 0 {
                        Ok((record(vals, id, pos, OptvalView::Val(rest[0])), 1))
                    } else {
                        Err(FailView::ArgumentMissing(name_display(nmv)))
                    }
                },
            },
        },
    }
}

/// Scanning a short cluster from character `i` on: argument-less
/// options are recorded `Given` in place; the first argument-taking
/// option stops the cluster, either with the rest of the token as its
/// inline value or with its value deferred to the next token.
pub open spec fn cluster_scan(
    opts: Seq<OptView>,
    cur: Seq<char>,
    i: int,
    pos: int,
    vals: Seq<Seq<(int, OptvalView)>>,
) -> Result<(Seq<Seq<(int, OptvalView)>>, Option<(NameView, Option<Seq<char>>)>), FailView>
    decreases cur.len() - i,
{
    if i < 0 || i >= cur.len() {
        Ok((vals, None))
    } else {
        let ch = cur[i];
        match find_opt_spec(opts, NameView::Short(ch)) {
            None => Err(FailView::UnrecognizedOption(name_display(NameView::Short(ch)))),
            Some(id) => {
                if opts[id].hasarg is No {
                    cluster_scan(opts, cur, i + 1, pos, record(vals, id, pos, OptvalView::Given))
                } else {
                    if i + 1 < cur.len() {
                        Ok((vals, Some((NameView::Short(ch), Some(cur.skip(i + 1))))))
                    } else {
                        Ok((vals, Some((NameView::Short(ch), None))))
                    }
                }
            },
        }
    }
}

/// One whole scan over the tokens, from position counter `pos` and
/// state `st`. Per top-level token, first match wins: a token that is
/// not option-shaped is a free argument (and under `StopAtFirstFree`
/// ends the scan with everything after it copied verbatim); exactly
/// `--` records the terminator and ends the scan likewise; a long-form
/// token is split at its first `=` and resolved; anything else is a
/// short cluster. The position counter grows once per top-level token;
/// a consumed following value does not count.
pub open spec fn scan(
    opts: Seq<OptView>,
    style: ParsingStyle,
    long_only: bool,
    toks: Seq<Seq<char>>,
    pos: int,
    st: ScanState,
) -> Result<ScanState, FailView>
    decreases toks.len(),
{
    if toks.len() == 0 {
        Ok(st)
    } else {
        let cur = toks[0];
        let rest = toks.drop_first();
        if !is_arg_spec(cur) {
            match style {
                ParsingStyle::FloatingFrees => scan(
                    opts,
                    style,
                    long_only,
                    rest,
                    pos + 1,
                    ScanState { vals: st.vals, free: st.free.push(cur), args_end: st.args_end },
                ),
                ParsingStyle::StopAtFirstFree => Ok(
                    ScanState {
                        vals: st.vals,
                        free: st.free.push(cur) + rest,
                        args_end: st.args_end,
                    },
                ),
            }
        } else if is_terminator(cur) {
            Ok(
                ScanState {
                    vals: st.vals,
                    free: st.free + rest,
                    args_end: Some(st.free.len() as int),
                },
            )
        } else if cur[1] == '-' || long_only {
            let tail = if cur[1] == '-' {
                cur.skip(2)
            } else {
                cur.skip(1)
            };
            let (nm_text, iarg) = split_eq(tail);
            match apply_policy(opts, name_from_chars(nm_text), iarg, true, rest, pos, st.vals) {
                Err(f) => Err(f),
                Ok((vals1, consumed)) => scan(
                    opts,
                    style,
                    long_only,
                    rest.skip(consumed),
                    pos + 1,
                    ScanState { vals: vals1, free: st.free, args_end: st.args_end },
                ),
            }
        } else {
            match cluster_scan(opts, cur, 1, pos, st.vals) {
                Err(f) => Err(f),
                Ok((vals1, None)) => scan(
                    opts,
                    style,
                    long_only,
                    rest,
                    pos + 1,
                    ScanState { vals: vals1, free: st.free, args_end: st.args_end },
                ),
                Ok((vals1, Some((nmv, iarg)))) => {
                    match apply_policy(opts, nmv, iarg, false, rest, pos, vals1) {
                        Err(f) => Err(f),
                        Ok((vals2, consumed)) => scan(
                            opts,
                            style,
                            long_only,
                            rest.skip(consumed),
                            pos + 1,
                            ScanState { vals: vals2, free: st.free, args_end: st.args_end },
                        ),
                    }
                },
            }
        }
    }
}

/// The first cardinality violation at or after option `i`, in
/// declaration order: a required option with no capture, then a
/// non-repeatable option with more than one.
pub open spec fn validate_from(
    opts: Seq<OptView>,
    vals: Seq<Seq<(int, OptvalView)>>,
    i: int,
) -> Option<FailView>
    decreases opts.len() - i,
{
    if i < 0 || i >= opts.len() {
        None
    } else if opts[i].occur is Req && vals[i].len() == 0 {
        Some(FailView::OptionMissing(name_display(opts[i].name)))
    } else if !(opts[i].occur is Multi) && vals[i].len() > 1 {
        Some(FailView::OptionDuplicated(name_display(opts[i].name)))
    } else {
        validate_from(opts, vals, i + 1)
    }
}

/// The resolved form of one declaration: long-only gives a canonical
/// long name, short-only a canonical short one; with both, the long
/// name is canonical and the short becomes its sole alias.
pub open spec fn resolve_group(g: OptGroupView) -> OptView {
    if g.short_name.len() == 0 {
        OptView { name: NameView::Long(g.long_name), hasarg: g.hasarg, occur: g.occur, alias: None }
    } else if g.long_name.len() == 0 {
        OptView {
            name: NameView::Short(g.short_name[0]),
            hasarg: g.hasarg,
            occur: g.occur,
            alias: None,
        }
    } else {
        OptView {
            name: NameView::Long(g.long_name),
            hasarg: g.hasarg,
            occur: g.occur,
            alias: Some(NameView::Short(g.short_name[0])),
        }
    }
}

/// The resolved forms of all declarations, in declaration order.
pub open spec fn resolve_all(grps: Seq<OptGroupView>) -> Seq<OptView> {
    Seq::new(grps.len(), |i: int| resolve_group(grps[i]))
}

/// What follows a successful scan: validate the cardinalities, then
/// clear a terminator index that equals the final free-list length (a
/// `--` that was the very last token marks no real split point).
pub open spec fn finish_spec(opts: Seq<OptView>, st: ScanState) -> Result<MatchesView, FailView> {
    match validate_from(opts, st.vals, 0) {
        Some(f) => Err(f),
        None => Ok(
            MatchesView {
                opts: opts,
                vals: st.vals,
                free: st.free,
                args_end: if st.args_end == Some(st.free.len() as int) {
                    None
                } else {
                    st.args_end
                },
            },
        ),
    }
}

/// What a whole parse returns: scan, then validate and clean up.
pub open spec fn parse_spec(
    opts: Seq<OptView>,
    style: ParsingStyle,
    long_only: bool,
    toks: Seq<Seq<char>>,
) -> Result<MatchesView, FailView> {
    match scan(opts, style, long_only, toks, 0, init_state(opts.len())) {
        Err(f) => Err(f),
        Ok(st) => finish_spec(opts, st),
    }
}

} // verus!
