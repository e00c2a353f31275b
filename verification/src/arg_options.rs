//! The option registry and the parse entry point.
//!
//! Construct an [`Options`] value, configure it with `reqopt`, `optopt`
//! and `optflag`, then hand `parse` the raw argument tokens (not
//! including the program name). The outcome is either a [`Matches`] or
//! the first [`Fail`] encountered; scanning failures precede
//! validation failures, and no partial result accompanies a failure.

use vstd::prelude::*;

use crate::global_fn::{each_split_within, find_opt, is_arg, names_valid, split_within_spec,
    validate_names};
use crate::optgroup::{group_wf, name_from_chars, HasArg, Name, NameView, Occur, OptGroup,
    OptGroupView, ParsingStyle};
use crate::result_error::{end_view, opts_view, row_view, strs_view, vals_view, Fail, FailView,
    Matches, MatchesView, Opt, Optval, OptvalView};
use crate::scan::{apply_policy, cluster_scan, finish_spec, init_state, is_terminator,
    lemma_first_eq_absent, lemma_first_eq_step, parse_spec, record, resolve_all, scan, split_eq,
    validate_from, ScanState};
use crate::width::{str_width_checked, str_width_spec};

verus! {

/// The option registry: the declared options in declaration order, the
/// free-argument style, and whether long-only mode is on.
#[derive(Debug)]
pub struct Options {
    /// The declared options, in declaration order.
    pub grps: Vec<OptGroup>,
    parsing_style: ParsingStyle,
    long_only: bool,
}

/// Mathematical model of an [`Options`] registry.
#[verifier::ext_equal]
pub ghost struct OptionsView {
    pub grps: Seq<OptGroupView>,
    pub parsing_style: ParsingStyle,
    pub long_only: bool,
}

/// The models of a list of declarations.
pub open spec fn groups_view(v: Seq<OptGroup>) -> Seq<OptGroupView> {
    Seq::new(v.len(), |i: int| v[i]@)
}

impl View for Options {
    type V = OptionsView;

    closed spec fn view(&self) -> OptionsView {
        OptionsView {
            grps: groups_view(self.grps@),
            parsing_style: self.parsing_style,
            long_only: self.long_only,
        }
    }
}

/// The model of an optional text.
pub open spec fn opt_str_view(o: Option<String>) -> Option<Seq<char>> {
    match o {
        Some(s) => Some(s@),
        None => None,
    }
}

impl Default for Options {
    fn default() -> (r: Options)
        ensures
            r@.grps.len() == 0,
            r@.parsing_style == ParsingStyle::FloatingFrees,
            r@.long_only == false,
            r.wf(),
    {
        Options::new()
    }
}

impl Clone for Options {
    fn clone(&self) -> (r: Self)
        ensures
            r@ == self@,
    {
        let mut grps: Vec<OptGroup> = Vec::new();
        let mut i: usize = 0;
        while i < self.grps.len()
            invariant
                i <= self.grps@.len(),
                grps@.len() == i,
                forall|k: int| 0 <= k < i ==> (#[trigger] grps@[k])@ == self.grps@[k]@,
            decreases self.grps@.len() - i,
        {
            grps.push(self.grps[i].clone());
            i += 1;
        }
        let r = Options { grps, parsing_style: self.parsing_style, long_only: self.long_only };
        proof {
            assert(r@.grps =~= self@.grps);
            assert(r@ =~= self@);
        }
        r
    }
}

impl Options {
    /// Every declaration in the registry is well formed.
    pub open spec fn wf(&self) -> bool {
        forall|i: int| 0 <= i < self@.grps.len() ==> group_wf(#[trigger] self@.grps[i])
    }

    /// True iff every declaration in the registry is well formed, so
    /// that a caller who assembled declarations by hand can test what
    /// `parse` and `usage` presuppose.
    pub fn is_well_formed(&self) -> (r: bool)
        ensures
            r == self.wf(),
    {
        let n = self.grps.len();
        let mut i: usize = 0;
        while i < n
            invariant
                i <= n,
                n == self.grps@.len(),
                forall|k: int| 0 <= k < i ==> group_wf(#[trigger] self@.grps[k]),
            decreases n - i,
        {
            let g = &self.grps[i];
            let ok = validate_names(g.short_name.as_str(), g.long_name.as_str());
            let named = !g.short_name.as_str().is_empty() || !g.long_name.as_str().is_empty();
            if !(ok && named) {
                proof {
                    assert(!group_wf(self@.grps[i as int]));
                }
                return false;
            }
            i += 1;
        }
        true
    }

    /// Creates an empty registry: floating free arguments, long-only
    /// mode off.
    pub fn new() -> (r: Options)
        ensures
            r@.grps.len() == 0,
            r@.parsing_style == ParsingStyle::FloatingFrees,
            r@.long_only == false,
            r.wf(),
    {
        Options { grps: Vec::new(), parsing_style: ParsingStyle::FloatingFrees, long_only: false }
    }

    /// Sets whether free arguments may float between options or stop
    /// the scan.
    pub fn parsing_style(&mut self, style: ParsingStyle)
        ensures
            final(self)@ == (OptionsView { parsing_style: style, ..old(self)@ }),
            old(self).wf() ==> final(self).wf(),
    {
        self.parsing_style = style;
    }

    /// Sets long-only mode: long options may be written with a single
    /// dash, and `-x` names resolve as long names first.
    pub fn long_only(&mut self, long_only: bool)
        ensures
            final(self)@ == (OptionsView { long_only: long_only, ..old(self)@ }),
            old(self).wf() ==> final(self).wf(),
    {
        self.long_only = long_only;
    }

    /// Declares an option that takes an argument and must occur
    /// exactly once. The short name is at most one character, the long
    /// name empty or at least two characters, and one of the two must
    /// be given; violations are caller errors, ruled out here.
    pub fn reqopt(&mut self, short_name: &str, long_name: &str, desc: &str, hint: &str)
        requires
            names_valid(short_name@, long_name@),
            short_name@.len() + long_name@.len() > 0,
        ensures
            ({
                let g = OptGroupView {
                    short_name: short_name@,
                    long_name: long_name@,
                    hint: hint@,
                    desc: desc@,
                    hasarg: HasArg::Yes,
                    occur: Occur::Req,
                };
                final(self)@ == (OptionsView { grps: old(self)@.grps.push(g), ..old(self)@ })
            }),
            old(self).wf() ==> final(self).wf(),
    {
        self.push_group(short_name, long_name, desc, hint, HasArg::Yes, Occur::Req);
    }

    /// Declares an option that takes an argument and may occur at most
    /// once; it may also be absent.
    pub fn optopt(&mut self, short_name: &str, long_name: &str, desc: &str, hint: &str)
        requires
            names_valid(short_name@, long_name@),
            short_name@.len() + long_name@.len() > 0,
        ensures
            ({
                let g = OptGroupView {
                    short_name: short_name@,
                    long_name: long_name@,
                    hint: hint@,
                    desc: desc@,
                    hasarg: HasArg::Yes,
                    occur: Occur::Optional,
                };
                final(self)@ == (OptionsView { grps: old(self)@.grps.push(g), ..old(self)@ })
            }),
            old(self).wf() ==> final(self).wf(),
    {
        self.push_group(short_name, long_name, desc, hint, HasArg::Yes, Occur::Optional);
    }

    /// Declares an argument-less option that may occur at most once.
    pub fn optflag(&mut self, short_name: &str, long_name: &str, desc: &str)
        requires
            names_valid(short_name@, long_name@),
            short_name@.len() + long_name@.len() > 0,
        ensures
            ({
                let g = OptGroupView {
                    short_name: short_name@,
                    long_name: long_name@,
                    hint: Seq::empty(),
                    desc: desc@,
                    hasarg: HasArg::No,
                    occur: Occur::Optional,
                };
                final(self)@ == (OptionsView { grps: old(self)@.grps.push(g), ..old(self)@ })
            }),
            old(self).wf() ==> final(self).wf(),
    {
        proof {
            reveal_strlit("");
            assert(""@ =~= Seq::<char>::empty());
        }
        self.push_group(short_name, long_name, desc, "", HasArg::No, Occur::Optional);
    }

    /// Appends one declaration.
    fn push_group(
        &mut self,
        short_name: &str,
        long_name: &str,
        desc: &str,
        hint: &str,
        hasarg: HasArg,
        occur: Occur,
    )
        requires
            names_valid(short_name@, long_name@),
            short_name@.len() + long_name@.len() > 0,
        ensures
            ({
                let g = OptGroupView {
                    short_name: short_name@,
                    long_name: long_name@,
                    hint: hint@,
                    desc: desc@,
                    hasarg: hasarg,
                    occur: occur,
                };
                final(self)@ == (OptionsView { grps: old(self)@.grps.push(g), ..old(self)@ })
            }),
            old(self).wf() ==> final(self).wf(),
    {
        self.grps.push(
            OptGroup {
                short_name: short_name.to_owned(),
                long_name: long_name.to_owned(),
                hint: hint.to_owned(),
                desc: desc.to_owned(),
                hasarg,
                occur,
            },
        );
        proof {
            let g = OptGroupView {
                short_name: short_name@,
                long_name: long_name@,
                hint: hint@,
                desc: desc@,
                hasarg: hasarg,
                occur: occur,
            };
            assert(self@.grps =~= old(self)@.grps.push(g));
            assert(self@ =~= (OptionsView { grps: old(self)@.grps.push(g), ..old(self)@ }));
            if old(self).wf() {
                assert forall|i: int| 0 <= i < self@.grps.len() implies group_wf(
                    #[trigger] self@.grps[i],
                ) by {
                    if i < old(self)@.grps.len() {
                        assert(group_wf(old(self)@.grps[i]));
                    }
                }
            }
        }
    }
}

impl Options {
    /// Parses the raw argument tokens (not including the program name)
    /// against this registry: the result is exactly what the scanning,
    /// validation and cleanup model describes, either a queryable
    /// [`Matches`] or the first failure encountered, with scanning
    /// failures preceding validation failures.
    #[verifier::rlimit(100)]
    pub fn parse(&self, args: &Vec<String>) -> (r: Result<Matches, Fail>)
        requires
            self.wf(),
        ensures
            ({
                let sp = parse_spec(
                    resolve_all(self@.grps),
                    self@.parsing_style,
                    self@.long_only,
                    strs_view(args@),
                );
                match r {
                    Ok(m) => sp matches Ok(mv) && m@ == mv && m.wf(),
                    Err(f) => sp matches Err(fv) && f@ == fv,
                }
            }),
    {
        let ghost optsv = resolve_all(self@.grps);
        let ghost toks = strs_view(args@);
        let ghost style = self@.parsing_style;
        let ghost lo = self@.long_only;

        // Resolve the declarations, in declaration order.
        let mut opts: Vec<Opt> = Vec::new();
        let ng = self.grps.len();
        let mut gi: usize = 0;
        while gi < ng
            invariant
                gi <= ng,
                ng == self.grps@.len(),
                self.wf(),
                optsv == resolve_all(self@.grps),
                opts@.len() == gi,
                forall|k: int| 0 <= k < gi ==> (#[trigger] opts@[k])@ == optsv[k],
            decreases ng - gi,
        {
            proof {
                assert(self@.grps[gi as int] == self.grps@[gi as int]@);
                assert(group_wf(self@.grps[gi as int]));
            }
            let o = self.grps[gi].long_to_short();
            opts.push(o);
            gi += 1;
        }
        proof {
            assert(opts_view(opts@) =~= optsv);
        }

        // One empty capture list per option.
        let n_opts = opts.len();
        let mut vals: Vec<Vec<(usize, Optval)>> = Vec::new();
        let mut vi: usize = 0;
        while vi < n_opts
            invariant
                vi <= n_opts,
                vals@.len() == vi,
                forall|k: int| 0 <= k < vi ==> (#[trigger] vals@[k])@.len() == 0,
            decreases n_opts - vi,
        {
            vals.push(Vec::new());
            vi += 1;
        }

        let mut free: Vec<String> = Vec::new();
        let mut args_end: Option<usize> = None;
        let n_args = args.len();
        let mut idx: usize = 0;
        let mut arg_pos: usize = 0;
        proof {
            assert forall|k: int| 0 <= k < vals@.len() implies vals_view(vals@)[k] == init_state(
                optsv.len(),
            ).vals[k] by {
                assert(row_view(vals@[k]@) =~= Seq::<(int, OptvalView)>::empty());
            }
            assert(vals_view(vals@) =~= init_state(optsv.len()).vals);
            assert(strs_view(free@) =~= Seq::<Seq<char>>::empty());
            assert(init_state(optsv.len()) =~= (ScanState {
                vals: vals_view(vals@),
                free: strs_view(free@),
                args_end: end_view(args_end),
            }));
            assert(toks.skip(0) =~= toks);
        }
        while idx < n_args
            invariant
                idx <= n_args,
                arg_pos <= idx,
                n_args == args@.len(),
                toks == strs_view(args@),
                optsv == opts_view(opts@),
                optsv == resolve_all(self@.grps),
                style == self@.parsing_style,
                lo == self@.long_only,
                vals@.len() == opts@.len(),
                scan(optsv, style, lo, toks, 0, init_state(optsv.len())) == scan(
                    optsv,
                    style,
                    lo,
                    toks.skip(idx as int),
                    arg_pos as int,
                    (ScanState {
                        vals: vals_view(vals@),
                        free: strs_view(free@),
                        args_end: end_view(args_end),
                    }),
                ),
            decreases n_args - idx,
        {
            let ghost st_pre = ScanState {
                vals: vals_view(vals@),
                free: strs_view(free@),
                args_end: end_view(args_end),
            };
            let ghost tk = toks.skip(idx as int);
            proof {
                assert(tk.len() == n_args - idx);
                assert(tk[0] == toks[idx as int]);
                assert(toks[idx as int] == args@[idx as int]@);
                assert(tk.drop_first() =~= toks.skip(idx as int + 1));
            }
            let cur = &args[idx];
            let shaped = is_arg(cur.as_str());
            if !shaped {
                free.push(cur.clone());
                match self.parsing_style {
                    ParsingStyle::FloatingFrees => {
                        proof {
                            let st2 = ScanState {
                                vals: st_pre.vals,
                                free: st_pre.free.push(cur@),
                                args_end: st_pre.args_end,
                            };
                            assert(scan(optsv, style, lo, tk, arg_pos as int, st_pre) == scan(
                                optsv,
                                style,
                                lo,
                                tk.drop_first(),
                                arg_pos as int + 1,
                                st2,
                            ));
                            assert((ScanState {
                                vals: vals_view(vals@),
                                free: strs_view(free@),
                                args_end: end_view(args_end),
                            }) =~= st2);
                        }
                        idx += 1;
                        arg_pos += 1;
                    },
                    ParsingStyle::StopAtFirstFree => {
                        proof {
                            assert(strs_view(free@) =~= st_pre.free.push(cur@));
                        }
                        extend_from(&mut free, args, idx + 1);
                        proof {
                            let st2 = ScanState {
                                vals: st_pre.vals,
                                free: st_pre.free.push(cur@) + tk.drop_first(),
                                args_end: st_pre.args_end,
                            };
                            assert(scan(optsv, style, lo, tk, arg_pos as int, st_pre) == Ok::<
                                ScanState,
                                FailView,
                            >(st2));
                            assert(strs_view(free@) =~= st_pre.free.push(cur@) + toks.skip(
                                idx as int + 1,
                            ));
                            assert((ScanState {
                                vals: vals_view(vals@),
                                free: strs_view(free@),
                                args_end: end_view(args_end),
                            }) =~= st2);
                        }
                        return finish(opts, vals, free, args_end);
                    },
                }
            } else {
                let clen = cur.as_str().unicode_len();
                let second_dash = cur.as_str().get_char(1) == '-';
                if clen == 2 && second_dash {
                    args_end = Some(free.len());
                    extend_from(&mut free, args, idx + 1);
                    proof {
                        assert(is_terminator(cur@));
                        let st2 = ScanState {
                            vals: st_pre.vals,
                            free: st_pre.free + tk.drop_first(),
                            args_end: Some(st_pre.free.len() as int),
                        };
                        assert(scan(optsv, style, lo, tk, arg_pos as int, st_pre) == Ok::<
                            ScanState,
                            FailView,
                        >(st2));
                        assert((ScanState {
                            vals: vals_view(vals@),
                            free: strs_view(free@),
                            args_end: end_view(args_end),
                        }) =~= st2);
                    }
                    return finish(opts, vals, free, args_end);
                } else if second_dash || self.long_only {
                    let ghost tailv = if cur@[1] == '-' {
                        cur@.skip(2)
                    } else {
                        cur@.skip(1)
                    };
                    let tail_str = if second_dash {
                        cur.as_str().substring_char(2, clen)
                    } else {
                        cur.as_str().substring_char(1, clen)
                    };
                    proof {
                        assert(tail_str@ =~= tailv);
                    }
                    let (nm_text, iarg) = split_eq_exec(tail_str);
                    let name = Name::from_str(nm_text.as_str());
                    let ghost iargv = opt_str_view(iarg);
                    proof {
                        assert(name@ == name_from_chars(split_eq(tailv).0));
                        assert(iargv == split_eq(tailv).1);
                    }
                    match apply_policy_exec(
                        &opts,
                        &name,
                        iarg,
                        true,
                        args,
                        idx + 1,
                        arg_pos,
                        &mut vals,
                    ) {
                        Err(f) => {
                            proof {
                                assert(scan(optsv, style, lo, tk, arg_pos as int, st_pre) == Err::<
                                    ScanState,
                                    FailView,
                                >(f@));
                            }
                            return Err(f);
                        },
                        Ok(c) => {
                            proof {
                                let ap = apply_policy(
                                    optsv,
                                    name@,
                                    iargv,
                                    true,
                                    tk.drop_first(),
                                    arg_pos as int,
                                    st_pre.vals,
                                );
                                assert(ap matches Ok(p) && vals_view(vals@) == p.0 && c as int
                                    == p.1);
                                assert(tk.drop_first().skip(c as int) =~= toks.skip(
                                    idx as int + 1 + c,
                                ));
                                let st2 = ScanState {
                                    vals: vals_view(vals@),
                                    free: st_pre.free,
                                    args_end: st_pre.args_end,
                                };
                                assert(scan(optsv, style, lo, tk, arg_pos as int, st_pre) == scan(
                                    optsv,
                                    style,
                                    lo,
                                    tk.drop_first().skip(c as int),
                                    arg_pos as int + 1,
                                    st2,
                                ));
                                assert((ScanState {
                                    vals: vals_view(vals@),
                                    free: strs_view(free@),
                                    args_end: end_view(args_end),
                                }) =~= st2);
                            }
                            idx = idx + 1 + c;
                            arg_pos += 1;
                        },
                    }
                } else {
                    match cluster_exec(&opts, cur.as_str(), arg_pos, &mut vals) {
                        Err(f) => {
                            proof {
                                assert(scan(optsv, style, lo, tk, arg_pos as int, st_pre) == Err::<
                                    ScanState,
                                    FailView,
                                >(f@));
                            }
                            return Err(f);
                        },
                        Ok(None) => {
                            proof {
                                let st2 = ScanState {
                                    vals: vals_view(vals@),
                                    free: st_pre.free,
                                    args_end: st_pre.args_end,
                                };
                                assert(scan(optsv, style, lo, tk, arg_pos as int, st_pre) == scan(
                                    optsv,
                                    style,
                                    lo,
                                    tk.drop_first(),
                                    arg_pos as int + 1,
                                    st2,
                                ));
                                assert((ScanState {
                                    vals: vals_view(vals@),
                                    free: strs_view(free@),
                                    args_end: end_view(args_end),
                                }) =~= st2);
                            }
                            idx += 1;
                            arg_pos += 1;
                        },
                        Ok(Some((name, iarg))) => {
                            let ghost vals_mid = vals_view(vals@);
                            let ghost nmv = name@;
                            let ghost iargv = opt_str_view(iarg);
                            match apply_policy_exec(
                                &opts,
                                &name,
                                iarg,
                                false,
                                args,
                                idx + 1,
                                arg_pos,
                                &mut vals,
                            ) {
                                Err(f) => {
                                    proof {
                                        assert(scan(optsv, style, lo, tk, arg_pos as int, st_pre)
                                            == Err::<ScanState, FailView>(f@));
                                    }
                                    return Err(f);
                                },
                                Ok(c) => {
                                    proof {
                                        let ap = apply_policy(
                                            optsv,
                                            nmv,
                                            iargv,
                                            false,
                                            tk.drop_first(),
                                            arg_pos as int,
                                            vals_mid,
                                        );
                                        assert(ap matches Ok(p) && vals_view(vals@) == p.0
                                            && c as int == p.1);
                                        assert(tk.drop_first().skip(c as int) =~= toks.skip(
                                            idx as int + 1 + c,
                                        ));
                                        let st2 = ScanState {
                                            vals: vals_view(vals@),
                                            free: st_pre.free,
                                            args_end: st_pre.args_end,
                                        };
                                        assert(scan(optsv, style, lo, tk, arg_pos as int, st_pre)
                                            == scan(
                                            optsv,
                                            style,
                                            lo,
                                            tk.drop_first().skip(c as int),
                                            arg_pos as int + 1,
                                            st2,
                                        ));
                                        assert((ScanState {
                                            vals: vals_view(vals@),
                                            free: strs_view(free@),
                                            args_end: end_view(args_end),
                                        }) =~= st2);
                                    }
                                    idx = idx + 1 + c;
                                    arg_pos += 1;
                                },
                            }
                        },
                    }
                }
            }
        }
        proof {
            assert(toks.skip(idx as int).len() == 0);
            assert(scan(
                optsv,
                style,
                lo,
                toks.skip(idx as int),
                arg_pos as int,
                (ScanState {
                    vals: vals_view(vals@),
                    free: strs_view(free@),
                    args_end: end_view(args_end),
                }),
            ) == Ok::<ScanState, FailView>(
                ScanState {
                    vals: vals_view(vals@),
                    free: strs_view(free@),
                    args_end: end_view(args_end),
                },
            ));
        }
        finish(opts, vals, free, args_end)
    }
}

impl Options {
    /// The usage rows, one per declared option, in declaration order.
    pub fn usage_items(&self) -> (r: Vec<String>)
        requires
            self.wf(),
        ensures
            strs_view(r@) == usage_items_spec(self@.grps, self@.long_only),
    {
        let ghost grpsv = self@.grps;
        let n = self.grps.len();
        let mut any_short = false;
        let mut i: usize = 0;
        while i < n
            invariant
                i <= n,
                n == self.grps@.len(),
                grpsv == self@.grps,
                any_short == exists|k: int|
                    0 <= k < i && (#[trigger] grpsv[k]).short_name.len() > 0,
            decreases n - i,
        {
            if !self.grps[i].short_name.as_str().is_empty() {
                any_short = true;
                proof {
                    assert(grpsv[i as int].short_name.len() > 0);
                }
            }
            i += 1;
        }
        proof {
            assert(any_short == any_short_spec(grpsv));
        }
        let mut items: Vec<String> = Vec::new();
        let mut gi: usize = 0;
        while gi < n
            invariant
                gi <= n,
                n == self.grps@.len(),
                grpsv == self@.grps,
                self.wf(),
                any_short == any_short_spec(grpsv),
                items@.len() == gi,
                forall|k: int|
                    0 <= k < gi ==> (#[trigger] items@[k])@ == usage_row_spec(
                        grpsv[k],
                        any_short_spec(grpsv),
                        self@.long_only,
                    ),
            decreases n - gi,
        {
            let g = &self.grps[gi];
            let ghost gv = grpsv[gi as int];
            proof {
                assert(gv == g@);
                assert(group_wf(gv));
            }
            let mut row = String::from_str("    ");
            if g.short_name.as_str().is_empty() {
                if any_short {
                    row.append("    ");
                }
            } else {
                row.append("-");
                row.append(g.short_name.as_str());
                if !g.long_name.as_str().is_empty() {
                    row.append(", ");
                } else {
                    row.append(" ");
                }
            }
            if !g.long_name.as_str().is_empty() {
                if self.long_only {
                    row.append("-");
                } else {
                    row.append("--");
                }
                row.append(g.long_name.as_str());
                row.append(" ");
            }
            match g.hasarg {
                HasArg::No => {},
                HasArg::Yes => {
                    row.append(g.hint.as_str());
                },
                HasArg::Maybe => {
                    row.append("[");
                    row.append(g.hint.as_str());
                    row.append("]");
                },
            }
            proof {
                reveal_strlit("    ");
                reveal_strlit("-");
                reveal_strlit("--");
                reveal_strlit(", ");
                reveal_strlit(" ");
                reveal_strlit("[");
                reveal_strlit("]");
                assert("    "@ =~= spaces(4));
                assert("-"@ =~= seq!['-']);
                assert("--"@ =~= seq!['-', '-']);
                assert(", "@ =~= seq![',', ' ']);
                assert(" "@ =~= seq![' ']);
                assert("["@ =~= seq!['[']);
                assert("]"@ =~= seq![']']);
                assert(row@ =~= usage_prefix_spec(gv, any_short, self@.long_only));
            }
            let ghost pre = row@;
            let wopt = str_width_checked(row.as_str());
            let under = match wopt {
                Some(w) => w < 24,
                None => false,
            };
            if under {
                let w = match wopt {
                    Some(w) => w,
                    None => 0,
                };
                let mut k: usize = 0;
                proof {
                    assert(spaces(0) =~= Seq::<char>::empty());
                    assert(row@ =~= pre + spaces(0));
                }
                while k < 24 - w
                    invariant
                        w < 24,
                        k <= 24 - w,
                        w == str_width_spec(pre),
                        row@ == pre + spaces(k as nat),
                    decreases 24 - w - k,
                {
                    crate::optgroup::string_push(&mut row, ' ');
                    proof {
                        assert((pre + spaces(k as nat)).push(' ') =~= pre + spaces(
                            (k + 1) as nat,
                        ));
                    }
                    k += 1;
                }
                proof {
                    assert(row@ == pre + spaces((24 - str_width_spec(pre)) as nat));
                }
            } else {
                row.append("\n                        ");
                proof {
                    reveal_strlit("\n                        ");
                    assert("\n                        "@ =~= desc_sep_spec());
                    assert(str_width_spec(pre) >= 24);
                }
            }
            let desc_rows = each_split_within(g.desc.as_str(), 54);
            let sep = String::from_str("\n                        ");
            proof {
                reveal_strlit("\n                        ");
                assert(sep@ =~= desc_sep_spec());
            }
            let joined = join_exec(&desc_rows, sep.as_str());
            row.append(joined.as_str());
            proof {
                assert(row@ =~= usage_row_spec(gv, any_short, self@.long_only));
            }
            items.push(row);
            gi += 1;
        }
        proof {
            assert(strs_view(items@) =~= usage_items_spec(grpsv, self@.long_only));
        }
        items
    }

    /// Renders the whole usage message: the brief line, a blank line,
    /// the `Options:` heading, one row per option, and a final line
    /// break.
    pub fn usage(&self, brief: &str) -> (r: String)
        requires
            self.wf(),
        ensures
            r@ == usage_spec(self@.grps, self@.long_only, brief@),
    {
        let items = self.usage_items();
        let joined = join_exec(&items, "\n");
        let mut out = brief.to_owned();
        out.append("\n\nOptions:\n");
        out.append(joined.as_str());
        out.append("\n");
        proof {
            reveal_strlit("\n");
            assert("\n"@ =~= seq!['\n']);
            assert(out@ =~= usage_spec(self@.grps, self@.long_only, brief@));
        }
        out
    }

    /// Renders through a caller-supplied formatter, which receives the
    /// pre-rendered usage rows and composes the message freely.
    pub fn usage_with_format<F: FnOnce(Vec<String>) -> String>(&self, formatter: F) -> (r: String)
        requires
            self.wf(),
            forall|v: Vec<String>| #[trigger] call_requires(formatter, (v,)),
        ensures
            exists|v: Vec<String>|
                strs_view(v@) == usage_items_spec(self@.grps, self@.long_only) && call_ensures(
                    formatter,
                    (v,),
                    r,
                ),
    {
        let items = self.usage_items();
        let ghost itemsg = items;
        let r = formatter(items);
        proof {
            assert(strs_view(itemsg@) == usage_items_spec(self@.grps, self@.long_only)
                && call_ensures(formatter, (itemsg,), r));
        }
        r
    }
}

/// Appends one capture to slot `id`.
fn push_capture(vals: &mut Vec<Vec<(usize, Optval)>>, id: usize, pos: usize, v: Optval)
    requires
        id < old(vals)@.len(),
    ensures
        vals_view(final(vals)@) == record(vals_view(old(vals)@), id as int, pos as int, v@),
        final(vals)@.len() == old(vals)@.len(),
{
    let ghost vv = v@;
    vals[id].push((pos, v));
    proof {
        assert(row_view(vals@[id as int]@) =~= row_view(old(vals)@[id as int]@).push(
            (pos as int, vv),
        ));
        assert(vals_view(vals@) =~= record(vals_view(old(vals)@), id as int, pos as int, vv));
    }
}

/// Splits long-option text at its first `=` into the name text and the
/// optional inline value.
fn split_eq_exec(tail: &str) -> (r: (String, Option<String>))
    ensures
        r.0@ == split_eq(tail@).0,
        opt_str_view(r.1) == split_eq(tail@).1,
{
    let n = tail.unicode_len();
    let mut i: usize = 0;
    while i < n
        invariant
            i <= n,
            n == tail@.len(),
            forall|j: int| 0 <= j < i ==> tail@[j] != '=',
        decreases n - i,
    {
        if tail.get_char(i) == '=' {
            proof {
                lemma_first_eq_step(tail@, 0, i as int);
            }
            let name = tail.substring_char(0, i).to_owned();
            let value = tail.substring_char(i + 1, n).to_owned();
            return (name, Some(value));
        }
        i += 1;
    }
    proof {
        lemma_first_eq_absent(tail@, 0);
    }
    (tail.to_owned(), None)
}

/// Applies a resolved name's argument policy, possibly consuming the
/// token at `next_idx` as the option's value; hands back how many extra
/// tokens were consumed.
fn apply_policy_exec(
    opts: &Vec<Opt>,
    nm: &Name,
    iarg: Option<String>,
    was_long: bool,
    args: &Vec<String>,
    next_idx: usize,
    pos: usize,
    vals: &mut Vec<Vec<(usize, Optval)>>,
) -> (r: Result<usize, Fail>)
    requires
        old(vals)@.len() == opts@.len(),
        next_idx <= args@.len(),
    ensures
        ({
            let sp = apply_policy(
                opts_view(opts@),
                nm@,
                opt_str_view(iarg),
                was_long,
                strs_view(args@).skip(next_idx as int),
                pos as int,
                vals_view(old(vals)@),
            );
            match r {
                Ok(c) => {
                    &&& sp matches Ok(p)
                    &&& vals_view(final(vals)@) == p.0
                    &&& c as int == p.1
                    &&& next_idx + c <= args@.len()
                    &&& final(vals)@.len() == old(vals)@.len()
                },
                Err(f) => sp matches Err(fv) && f@ == fv && *final(vals) == *old(vals),
            }
        }),
{
    let ghost rest = strs_view(args@).skip(next_idx as int);
    proof {
        assert(rest.len() == args@.len() - next_idx);
        if next_idx < args@.len() {
            assert(rest[0] == strs_view(args@)[next_idx as int]);
        }
    }
    let id = match find_opt(opts, nm) {
        Some(id) => id,
        None => {
            return Err(Fail::UnrecognizedOption(nm.to_string()));
        },
    };
    match opts[id].hasarg {
        HasArg::No => {
            if iarg.is_some() {
                Err(Fail::UnexpectedArgument(nm.to_string()))
            } else {
                push_capture(vals, id, pos, Optval::Given);
                Ok(0)
            }
        },
        HasArg::Maybe => match iarg {
            Some(v) => {
                push_capture(vals, id, pos, Optval::Val(v));
                Ok(0)
            },
            None => {
                if was_long && next_idx < args.len() && !is_arg(args[next_idx].as_str()) {
                    push_capture(vals, id, pos, Optval::Val(args[next_idx].clone()));
                    Ok(1)
                } else {
                    push_capture(vals, id, pos, Optval::Given);
                    Ok(0)
                }
            },
        },
        HasArg::Yes => match iarg {
            Some(v) => {
                push_capture(vals, id, pos, Optval::Val(v));
                Ok(0)
            },
            None => {
                if next_idx < args.len() {
                    push_capture(vals, id, pos, Optval::Val(args[next_idx].clone()));
                    Ok(1)
                } else {
                    Err(Fail::ArgumentMissing(nm.to_string()))
                }
            },
        },
    }
}

/// A run of `n` spaces.
pub open spec fn spaces(n: nat) -> Seq<char> {
    Seq::new(n, |i: int| ' ')
}

/// The separator before a description continuation line: a line break
/// and the indent to the description column.
pub open spec fn desc_sep_spec() -> Seq<char> {
    seq!['\n'] + spaces(24)
}

/// The rows joined by the separator, with nothing before the first
/// row or after the last.
pub open spec fn join(rows: Seq<Seq<char>>, sep: Seq<char>) -> Seq<char>
    decreases rows.len(),
{
    if rows.len() == 0 {
        Seq::empty()
    } else if rows.len() == 1 {
        rows[0]
    } else {
        rows[0] + sep + join(rows.drop_first(), sep)
    }
}

proof fn lemma_join_push(rows: Seq<Seq<char>>, sep: Seq<char>, x: Seq<char>)
    ensures
        join(rows.push(x), sep) == if rows.len() == 0 {
            x
        } else {
            join(rows, sep) + sep + x
        },
    decreases rows.len(),
{
    if rows.len() == 0 {
        assert(rows.push(x)[0] == x);
    } else {
        lemma_join_push(rows.drop_first(), sep, x);
        assert(rows.push(x).drop_first() =~= rows.drop_first().push(x));
        assert(rows.push(x)[0] == rows[0]);
        if rows.len() == 1 {
            assert(rows.drop_first().len() == 0);
        } else {
            assert((rows[0] + sep + (join(rows.drop_first(), sep) + sep + x)) =~= ((rows[0] + sep
                + join(rows.drop_first(), sep)) + sep + x));
        }
    }
}

/// Joins rows with a separator between them.
fn join_exec(rows: &Vec<String>, sep: &str) -> (r: String)
    ensures
        r@ == join(strs_view(rows@), sep@),
{
    let ghost rv = strs_view(rows@);
    let mut s = String::new();
    let n = rows.len();
    let mut i: usize = 0;
    proof {
        assert(rv.take(0) =~= Seq::<Seq<char>>::empty());
        assert(s@ =~= join(rv.take(0), sep@));
    }
    while i < n
        invariant
            i <= n,
            n == rows@.len(),
            rv == strs_view(rows@),
            s@ == join(rv.take(i as int), sep@),
        decreases n - i,
    {
        if i > 0 {
            s.append(sep);
        }
        s.append(rows[i].as_str());
        proof {
            lemma_join_push(rv.take(i as int), sep@, rv[i as int]);
            assert(rv.take(i as int).push(rv[i as int]) =~= rv.take(i as int + 1));
        }
        i += 1;
    }
    proof {
        assert(rv.take(n as int) =~= rv);
    }
    s
}

/// The row prefix for one declaration: the fixed indent, the short
/// form (column-reserved when any option has a short name), the long
/// form (one dash in long-only mode, else two), and the value hint
/// (bare when required, bracketed when optional, absent otherwise).
pub open spec fn usage_prefix_spec(g: OptGroupView, any_short: bool, long_only: bool) -> Seq<
    char,
> {
    let r0 = spaces(4);
    let r1 = if g.short_name.len() == 0 {
        if any_short {
            r0 + spaces(4)
        } else {
            r0
        }
    } else {
        let s = r0 + seq!['-'] + g.short_name;
        if g.long_name.len() > 0 {
            s + seq![',', ' ']
        } else {
            s + seq![' ']
        }
    };
    let r2 = if g.long_name.len() == 0 {
        r1
    } else {
        (if long_only {
            r1 + seq!['-']
        } else {
            r1 + seq!['-', '-']
        }) + g.long_name + seq![' ']
    };
    match g.hasarg {
        HasArg::No => r2,
        HasArg::Yes => r2 + g.hint,
        HasArg::Maybe => r2 + seq!['['] + g.hint + seq![']'],
    }
}

/// One whole usage row: the prefix, padded with spaces to the
/// description column when its display width is under 24, else pushed
/// to a continuation line; then the description's rows, word-wrapped
/// to 54 columns and joined by the continuation separator.
pub open spec fn usage_row_spec(g: OptGroupView, any_short: bool, long_only: bool) -> Seq<char> {
    let pre = usage_prefix_spec(g, any_short, long_only);
    let w = str_width_spec(pre);
    let pre2 = if w < 24 {
        pre + spaces((24 - w) as nat)
    } else {
        pre + desc_sep_spec()
    };
    pre2 + join(split_within_spec(g.desc, 54), desc_sep_spec())
}

/// True iff some declaration carries a short name.
pub open spec fn any_short_spec(grps: Seq<OptGroupView>) -> bool {
    exists|i: int| 0 <= i < grps.len() && grps[i].short_name.len() > 0
}

/// The usage rows of all declarations, in declaration order.
pub open spec fn usage_items_spec(grps: Seq<OptGroupView>, long_only: bool) -> Seq<Seq<char>> {
    Seq::new(grps.len(), |i: int| usage_row_spec(grps[i], any_short_spec(grps), long_only))
}

/// What `usage` renders: the brief line, a blank line, the `Options:`
/// heading, the usage rows joined by line breaks, and a final line
/// break.
pub open spec fn usage_spec(grps: Seq<OptGroupView>, long_only: bool, brief: Seq<char>) -> Seq<
    char,
> {
    brief + "\n\nOptions:\n"@ + join(usage_items_spec(grps, long_only), seq!['\n']) + seq!['\n']
}

/// The model of the cluster scanner's outcome: the deferred name and
/// its optional inline value, if the cluster met an argument-taking
/// option.
pub open spec fn cluster_out_view(o: Option<(Name, Option<String>)>) -> Option<
    (NameView, Option<Seq<char>>),
> {
    match o {
        Some((nm, ia)) => Some((nm@, opt_str_view(ia))),
        None => None,
    }
}

/// Scans a short cluster from its second character on: argument-less
/// options are recorded in place, and the first argument-taking option
/// ends the cluster, with the rest of the token as its inline value if
/// any characters remain.
fn cluster_exec(opts: &Vec<Opt>, cur: &str, pos: usize, vals: &mut Vec<Vec<(usize, Optval)>>) -> (r:
    Result<Option<(Name, Option<String>)>, Fail>)
    requires
        old(vals)@.len() == opts@.len(),
    ensures
        ({
            let sp = cluster_scan(opts_view(opts@), cur@, 1, pos as int, vals_view(old(vals)@));
            match r {
                Ok(out) => {
                    &&& sp matches Ok(p)
                    &&& vals_view(final(vals)@) == p.0
                    &&& cluster_out_view(out) == p.1
                    &&& final(vals)@.len() == old(vals)@.len()
                },
                Err(f) => sp matches Err(fv) && f@ == fv,
            }
        }),
{
    let ghost optsv = opts_view(opts@);
    let ghost vals0 = vals_view(old(vals)@);
    let n = cur.unicode_len();
    let mut i: usize = 1;
    while i < n
        invariant
            1 <= i,
            i <= n || i == 1,
            n == cur@.len(),
            opts_view(opts@) == optsv,
            vals@.len() == opts@.len(),
            old(vals)@.len() == opts@.len(),
            vals0 == vals_view(old(vals)@),
            cluster_scan(optsv, cur@, 1, pos as int, vals0) == cluster_scan(
                optsv,
                cur@,
                i as int,
                pos as int,
                vals_view(vals@),
            ),
        decreases n - i,
    {
        let ch = cur.get_char(i);
        let name = Name::Short(ch);
        match find_opt(opts, &name) {
            None => {
                return Err(Fail::UnrecognizedOption(name.to_string()));
            },
            Some(id) => {
                match opts[id].hasarg {
                    HasArg::No => {
                        push_capture(vals, id, pos, Optval::Given);
                        i += 1;
                    },
                    _ => {
                        if i + 1 < n {
                            let restv = cur.substring_char(i + 1, n).to_owned();
                            proof {
                                assert(restv@ =~= cur@.skip(i as int + 1));
                            }
                            return Ok(Some((name, Some(restv))));
                        } else {
                            return Ok(Some((name, None)));
                        }
                    },
                }
            },
        }
    }
    Ok(None)
}

/// Copies the tokens from `from` on into the free list, verbatim.
fn extend_from(free: &mut Vec<String>, args: &Vec<String>, from: usize)
    requires
        from <= args@.len(),
    ensures
        strs_view(final(free)@) == strs_view(old(free)@) + strs_view(args@).skip(from as int),
{
    let ghost free0 = strs_view(old(free)@);
    let n = args.len();
    let mut j = from;
    while j < n
        invariant
            from <= j,
            j <= n,
            n == args@.len(),
            free0 == strs_view(old(free)@),
            strs_view(free@) =~= free0 + strs_view(args@).subrange(from as int, j as int),
        decreases n - j,
    {
        let ghost before = strs_view(free@);
        free.push(args[j].clone());
        proof {
            let rhs = free0 + strs_view(args@).subrange(from as int, j as int + 1);
            assert(free@.len() == before.len() + 1);
            assert(strs_view(free@).len() == rhs.len());
            assert forall|k: int| 0 <= k < strs_view(free@).len() implies strs_view(free@)[k]
                == rhs[k] by {
                if k < before.len() {
                    assert(strs_view(free@)[k] == before[k]);
                    assert(before[k] == (free0 + strs_view(args@).subrange(
                        from as int,
                        j as int,
                    ))[k]);
                    if k >= free0.len() {
                        assert(strs_view(args@).subrange(from as int, j as int)[k - free0.len()]
                            == strs_view(args@)[from + k - free0.len()]);
                        assert(strs_view(args@).subrange(from as int, j as int + 1)[k
                            - free0.len()] == strs_view(args@)[from + k - free0.len()]);
                    }
                } else {
                    assert(strs_view(free@)[k] == args@[j as int]@);
                    assert(rhs[k] == strs_view(args@).subrange(from as int, j as int + 1)[k
                        - free0.len()]);
                    assert(rhs[k] == strs_view(args@)[j as int]);
                }
            }
            assert(strs_view(free@) =~= rhs);
        }
        j += 1;
    }
    proof {
        assert(strs_view(args@).subrange(from as int, n as int) =~= strs_view(args@).skip(
            from as int,
        ));
        assert(strs_view(free@) =~= free0 + strs_view(args@).skip(from as int));
    }
}

/// Validates the cardinalities in declaration order and, on success,
/// builds the immutable result, clearing a terminator index that
/// equals the final free-list length.
fn finish(
    opts: Vec<Opt>,
    vals: Vec<Vec<(usize, Optval)>>,
    free: Vec<String>,
    args_end: Option<usize>,
) -> (r: Result<Matches, Fail>)
    requires
        vals@.len() == opts@.len(),
    ensures
        ({
            let st = (ScanState {
                vals: vals_view(vals@),
                free: strs_view(free@),
                args_end: end_view(args_end),
            });
            let sp = finish_spec(opts_view(opts@), st);
            match r {
                Ok(m) => sp matches Ok(mv) && m@ == mv && m.wf(),
                Err(f) => sp matches Err(fv) && f@ == fv,
            }
        }),
{
    let ghost optsv = opts_view(opts@);
    let ghost valsv = vals_view(vals@);
    let n = opts.len();
    let mut i: usize = 0;
    while i < n
        invariant
            i <= n,
            n == opts@.len(),
            vals@.len() == opts@.len(),
            optsv == opts_view(opts@),
            valsv == vals_view(vals@),
            validate_from(optsv, valsv, 0) == validate_from(optsv, valsv, i as int),
        decreases n - i,
    {
        let count = vals[i].len();
        let is_req = matches!(opts[i].occur, Occur::Req);
        if is_req && count == 0 {
            return Err(Fail::OptionMissing(opts[i].name.to_string()));
        }
        let is_multi = matches!(opts[i].occur, Occur::Multi);
        if !is_multi && count > 1 {
            return Err(Fail::OptionDuplicated(opts[i].name.to_string()));
        }
        i += 1;
    }
    let args_end = match args_end {
        Some(e) => {
            if e == free.len() {
                None
            } else {
                Some(e)
            }
        },
        None => None,
    };
    let m = Matches { opts, vals, free, args_end };
    proof {
        assert(m@ =~= (MatchesView {
            opts: optsv,
            vals: valsv,
            free: strs_view(m.free@),
            args_end: end_view(m.args_end),
        }));
    }
    Ok(m)
}

} // verus!
