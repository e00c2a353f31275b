//! The library's laws: properties of the parse and wrap models that
//! hold for every input, proved once and for all. The executable
//! functions' contracts tie their results to those models, so each law
//! carries over to every call.

use vstd::prelude::*;

use crate::global_fn::{find_opt_spec, first_ws, index_of_name, is_ws_char,
    lemma_first_ws_range, lemma_index_of_alias_found, lemma_index_of_name_absent,
    lemma_index_of_name_found, split_lines, split_within_spec, split_words, trim_spec, wrap_lines,
    wrap_words};
use crate::is_arg_spec;
use crate::optgroup::{name_display, name_from_chars, HasArg, NameView, Occur, ParsingStyle};
use crate::result_error::{FailView, MatchesView, OptView, OptvalView};
use crate::scan::{apply_policy, cluster_scan, first_eq, init_state, is_terminator,
    lemma_first_eq_absent, lemma_first_eq_step, parse_spec, record, scan, split_eq, validate_from,
    ScanState};
use crate::width::{lemma_width_concat, lemma_width_singleton, str_width_spec};

verus! {

/// Scanning tokens that are all free leaves the captures untouched and
/// appends every token to the free list, in order, under either
/// parsing style.
pub proof fn lemma_scan_all_free(
    opts: Seq<OptView>,
    style: ParsingStyle,
    lo: bool,
    toks: Seq<Seq<char>>,
    pos: int,
    st: ScanState,
)
    requires
        forall|i: int| 0 <= i < toks.len() ==> !is_arg_spec(#[trigger] toks[i]),
    ensures
        scan(opts, style, lo, toks, pos, st) == Ok::<ScanState, FailView>(
            ScanState { vals: st.vals, free: st.free + toks, args_end: st.args_end },
        ),
    decreases toks.len(),
{
    if toks.len() == 0 {
        assert(st.free + toks =~= st.free);
        assert((ScanState { vals: st.vals, free: st.free + toks, args_end: st.args_end }) =~= st);
    } else {
        let cur = toks[0];
        let rest = toks.drop_first();
        assert(!is_arg_spec(cur));
        match style {
            ParsingStyle::FloatingFrees => {
                let st2 = ScanState {
                    vals: st.vals,
                    free: st.free.push(cur),
                    args_end: st.args_end,
                };
                lemma_scan_all_free(opts, style, lo, rest, pos + 1, st2);
                assert(st.free.push(cur) + rest =~= st.free + toks);
            },
            ParsingStyle::StopAtFirstFree => {
                assert(st.free.push(cur) + rest =~= st.free + toks);
            },
        }
    }
}

/// A capture state without violations passes validation: every
/// required option has a capture and no non-repeatable option has more
/// than one.
pub proof fn lemma_validate_clean(opts: Seq<OptView>, vals: Seq<Seq<(int, OptvalView)>>, i: int)
    requires
        forall|k: int|
            0 <= k < opts.len() ==> !((#[trigger] opts[k]).occur is Req && vals[k].len() == 0),
        forall|k: int|
            0 <= k < opts.len() ==> !(!((#[trigger] opts[k]).occur is Multi) && vals[k].len() > 1),
    ensures
        validate_from(opts, vals, i) is None,
    decreases opts.len() - i,
{
    if 0 <= i < opts.len() {
        lemma_validate_clean(opts, vals, i + 1);
    }
}

/// With no option-shaped token anywhere (which also rules out `--`),
/// and no required option in the registry, a parse succeeds, the free
/// list is the input verbatim, the terminator index is absent, and
/// nothing is captured.
pub proof fn lemma_parse_all_free(
    opts: Seq<OptView>,
    style: ParsingStyle,
    lo: bool,
    toks: Seq<Seq<char>>,
)
    requires
        forall|i: int| 0 <= i < toks.len() ==> !is_arg_spec(#[trigger] toks[i]),
        forall|i: int| 0 <= i < opts.len() ==> !((#[trigger] opts[i]).occur is Req),
    ensures
        parse_spec(opts, style, lo, toks) matches Ok(m) && m.free == toks && m.args_end is None
            && m.vals == init_state(opts.len()).vals,
{
    let st0 = init_state(opts.len());
    lemma_scan_all_free(opts, style, lo, toks, 0, st0);
    let st = ScanState { vals: st0.vals, free: st0.free + toks, args_end: st0.args_end };
    assert(st.free =~= toks);
    assert(forall|k: int| 0 <= k < opts.len() ==> (#[trigger] st.vals[k]).len() == 0);
    lemma_validate_clean(opts, st.vals, 0);
}

/// Scanning past a run of free tokens under floating style appends
/// them to the free list and moves the position counter accordingly.
pub proof fn lemma_scan_free_prefix(
    opts: Seq<OptView>,
    lo: bool,
    toks: Seq<Seq<char>>,
    k: int,
    pos: int,
    st: ScanState,
)
    requires
        0 <= k <= toks.len(),
        forall|i: int| 0 <= i < k ==> !is_arg_spec(#[trigger] toks[i]),
    ensures
        scan(opts, ParsingStyle::FloatingFrees, lo, toks, pos, st) == scan(
            opts,
            ParsingStyle::FloatingFrees,
            lo,
            toks.skip(k),
            pos + k,
            ScanState { vals: st.vals, free: st.free + toks.take(k), args_end: st.args_end },
        ),
    decreases k,
{
    if k == 0 {
        assert(toks.skip(0) =~= toks);
        assert(st.free + toks.take(0) =~= st.free);
        assert((ScanState { vals: st.vals, free: st.free + toks.take(0), args_end: st.args_end })
            =~= st);
    } else {
        let cur = toks[0];
        let rest = toks.drop_first();
        let st2 = ScanState { vals: st.vals, free: st.free.push(cur), args_end: st.args_end };
        lemma_scan_free_prefix(opts, lo, rest, k - 1, pos + 1, st2);
        assert(rest.skip(k - 1) =~= toks.skip(k));
        assert(st.free.push(cur) + rest.take(k - 1) =~= st.free + toks.take(k));
    }
}

/// Wherever the scanner meets `--` as a top-level token, whatever its
/// state, it records the terminator at the free list's current length
/// and copies every remaining token into the free list untouched, even
/// option-shaped ones.
pub proof fn lemma_terminator_step(
    opts: Seq<OptView>,
    style: ParsingStyle,
    lo: bool,
    toks: Seq<Seq<char>>,
    pos: int,
    st: ScanState,
)
    requires
        toks.len() > 0,
        is_terminator(toks[0]),
    ensures
        scan(opts, style, lo, toks, pos, st) == Ok::<ScanState, FailView>(
            ScanState {
                vals: st.vals,
                free: st.free + toks.drop_first(),
                args_end: Some(st.free.len() as int),
            },
        ),
{
    assert(is_arg_spec(toks[0]));
}

/// A `--` after only free tokens records the terminator at the free
/// list's length at that point, and everything after it lands in the
/// free list untouched, option-shaped or not. The recorded index
/// survives cleanup exactly when something followed the `--`: a `--`
/// that was the very last token reports no terminator.
pub proof fn lemma_parse_terminator(opts: Seq<OptView>, lo: bool, toks: Seq<Seq<char>>, k: int)
    requires
        0 <= k < toks.len(),
        forall|i: int| 0 <= i < k ==> !is_arg_spec(#[trigger] toks[i]),
        is_terminator(toks[k]),
        forall|i: int| 0 <= i < opts.len() ==> !((#[trigger] opts[i]).occur is Req),
    ensures
        parse_spec(opts, ParsingStyle::FloatingFrees, lo, toks) matches Ok(m) && m.free
            == toks.take(k) + toks.skip(k + 1) && m.args_end == (if k == toks.len() - 1 {
            None::<int>
        } else {
            Some(k)
        }),
{
    let style = ParsingStyle::FloatingFrees;
    let st0 = init_state(opts.len());
    lemma_scan_free_prefix(opts, lo, toks, k, 0, st0);
    let st1 = ScanState { vals: st0.vals, free: st0.free + toks.take(k), args_end: st0.args_end };
    assert(st1.free =~= toks.take(k));
    let tk = toks.skip(k);
    assert(tk[0] == toks[k]);
    assert(is_arg_spec(tk[0]));
    let st2 = ScanState {
        vals: st1.vals,
        free: st1.free + tk.drop_first(),
        args_end: Some(st1.free.len() as int),
    };
    assert(scan(opts, style, lo, tk, k, st1) == Ok::<ScanState, FailView>(st2));
    assert(st2.free =~= toks.take(k) + toks.skip(k + 1));
    assert(st1.free.len() == k);
    assert(forall|j: int| 0 <= j < opts.len() ==> (#[trigger] st2.vals[j]).len() == 0);
    lemma_validate_clean(opts, st2.vals, 0);
    assert(st2.free.len() == toks.len() - 1);
}

/// A required-value long option takes its value attached with `=` or
/// as the whole next token, and both spellings capture the same value
/// at the same position.
pub proof fn lemma_required_value_forms(
    name: Seq<char>,
    value: Seq<char>,
    style: ParsingStyle,
)
    requires
        name.len() >= 2,
        forall|i: int| 0 <= i < name.len() ==> name[i] != '=',
    ensures
        ({
            let opts = seq![
                OptView {
                    name: NameView::Long(name),
                    hasarg: HasArg::Yes,
                    occur: Occur::Req,
                    alias: None,
                },
            ];
            let caps = seq![seq![(0int, OptvalView::Val(value))]];
            &&& parse_spec(opts, style, false, seq![seq!['-', '-'] + name + seq!['='] + value])
                matches Ok(m1) && m1.vals == caps && m1.free.len() == 0
            &&& parse_spec(opts, style, false, seq![seq!['-', '-'] + name, value]) matches Ok(m2)
                && m2.vals == caps && m2.free.len() == 0
        }),
{
    let o = OptView {
        name: NameView::Long(name),
        hasarg: HasArg::Yes,
        occur: Occur::Req,
        alias: None,
    };
    let opts = seq![o];
    let st0 = init_state(1);
    assert(index_of_name(opts, NameView::Long(name)) == Some(0int));
    assert(find_opt_spec(opts, NameView::Long(name)) == Some(0int));
    let caps = seq![seq![(0int, OptvalView::Val(value))]];
    assert(record(st0.vals, 0, 0, OptvalView::Val(value)) =~= caps);
    assert(validate_from(opts, caps, 1) is None);
    assert(validate_from(opts, caps, 0) is None);

    // Attached form: one token `--name=value`.
    {
        let tok = seq!['-', '-'] + name + seq!['='] + value;
        let toks = seq![tok];
        assert(tok[0] == '-');
        assert(tok[1] == '-');
        assert(is_arg_spec(tok));
        assert(tok.len() == name.len() + value.len() + 3);
        assert(!is_terminator(tok));
        let tail = tok.skip(2);
        assert(tail =~= name + seq!['='] + value);
        assert forall|j: int| 0 <= j < name.len() implies tail[j] != '=' by {
            assert(tail[j] == name[j]);
        }
        assert(tail[name.len() as int] == '=');
        lemma_first_eq_step(tail, 0, name.len() as int);
        assert(split_eq(tail).0 =~= name);
        assert(tail.skip(name.len() as int + 1) =~= value);
        assert(split_eq(tail).1 == Some(value));
        assert(name_from_chars(name) == NameView::Long(name));
        let rest = toks.drop_first();
        assert(apply_policy(opts, NameView::Long(name), Some(value), true, rest, 0, st0.vals)
            == Ok::<_, FailView>((caps, 0int)));
        assert(rest.skip(0) =~= Seq::<Seq<char>>::empty());
        let st1 = ScanState { vals: caps, free: st0.free, args_end: st0.args_end };
        assert(scan(opts, style, false, rest.skip(0), 1, st1) == Ok::<ScanState, FailView>(st1));
        assert(scan(opts, style, false, toks, 0, st0) == Ok::<ScanState, FailView>(st1));
        assert(parse_spec(opts, style, false, toks) matches Ok(m1) && m1.vals == caps
            && m1.free.len() == 0);
    }

    // Following form: two tokens `--name` `value`.
    {
        let tok = seq!['-', '-'] + name;
        let toks = seq![tok, value];
        assert(tok[0] == '-');
        assert(tok[1] == '-');
        assert(is_arg_spec(tok));
        assert(tok.len() == name.len() + 2);
        assert(!is_terminator(tok));
        let tail = tok.skip(2);
        assert(tail =~= name);
        lemma_first_eq_absent(tail, 0);
        assert(split_eq(tail).0 == tail);
        assert(split_eq(tail).1 == None::<Seq<char>>);
        assert(name_from_chars(tail) == NameView::Long(name));
        let rest = toks.drop_first();
        assert(rest =~= seq![value]);
        assert(rest[0] == value);
        assert(apply_policy(opts, NameView::Long(name), None, true, rest, 0, st0.vals) == Ok::<
            _,
            FailView,
        >((caps, 1int)));
        assert(rest.skip(1) =~= Seq::<Seq<char>>::empty());
        let st1 = ScanState { vals: caps, free: st0.free, args_end: st0.args_end };
        assert(scan(opts, style, false, rest.skip(1), 1, st1) == Ok::<ScanState, FailView>(st1));
        assert(scan(opts, style, false, toks, 0, st0) == Ok::<ScanState, FailView>(st1));
        assert(parse_spec(opts, style, false, toks) matches Ok(m2) && m2.vals == caps
            && m2.free.len() == 0);
    }
}

/// An optional-value option written in long form consumes a following
/// free-looking token as its value.
pub proof fn lemma_optional_long_consumes_free(
    name: Seq<char>,
    w: Seq<char>,
    style: ParsingStyle,
)
    requires
        name.len() >= 2,
        forall|i: int| 0 <= i < name.len() ==> name[i] != '=',
        !is_arg_spec(w),
    ensures
        ({
            let opts = seq![
                OptView {
                    name: NameView::Long(name),
                    hasarg: HasArg::Maybe,
                    occur: Occur::Optional,
                    alias: None,
                },
            ];
            parse_spec(opts, style, false, seq![seq!['-', '-'] + name, w]) matches Ok(m) && m.vals
                == seq![seq![(0int, OptvalView::Val(w))]] && m.free.len() == 0
        }),
{
    let o = OptView {
        name: NameView::Long(name),
        hasarg: HasArg::Maybe,
        occur: Occur::Optional,
        alias: None,
    };
    let opts = seq![o];
    let st0 = init_state(1);
    assert(index_of_name(opts, NameView::Long(name)) == Some(0int));
    assert(find_opt_spec(opts, NameView::Long(name)) == Some(0int));
    let caps = seq![seq![(0int, OptvalView::Val(w))]];
    assert(record(st0.vals, 0, 0, OptvalView::Val(w)) =~= caps);
    assert(validate_from(opts, caps, 1) is None);
    assert(validate_from(opts, caps, 0) is None);
    let tok = seq!['-', '-'] + name;
    let toks = seq![tok, w];
    assert(tok[0] == '-');
    assert(tok[1] == '-');
    assert(is_arg_spec(tok));
    assert(tok.len() == name.len() + 2);
    assert(!is_terminator(tok));
    let tail = tok.skip(2);
    assert(tail =~= name);
    lemma_first_eq_absent(tail, 0);
    assert(split_eq(tail).0 == tail);
    assert(split_eq(tail).1 == None::<Seq<char>>);
    assert(name_from_chars(tail) == NameView::Long(name));
    let rest = toks.drop_first();
    assert(rest =~= seq![w]);
    assert(rest[0] == w);
    assert(apply_policy(opts, NameView::Long(name), None, true, rest, 0, st0.vals) == Ok::<
        _,
        FailView,
    >((caps, 1int)));
    assert(rest.skip(1) =~= Seq::<Seq<char>>::empty());
    let st1 = ScanState { vals: caps, free: st0.free, args_end: st0.args_end };
    assert(scan(opts, style, false, rest.skip(1), 1, st1) == Ok::<ScanState, FailView>(st1));
    assert(scan(opts, style, false, toks, 0, st0) == Ok::<ScanState, FailView>(st1));
}

/// An optional-value option written in long form does not consume a
/// following option-looking token: it is recorded bare `Given`, and
/// the next token is scanned as a top-level token of its own.
pub proof fn lemma_optional_long_keeps_option(
    name: Seq<char>,
    w: Seq<char>,
    style: ParsingStyle,
    pos: int,
    st: ScanState,
)
    requires
        name.len() >= 2,
        forall|i: int| 0 <= i < name.len() ==> name[i] != '=',
        is_arg_spec(w),
    ensures
        ({
            let opts = seq![
                OptView {
                    name: NameView::Long(name),
                    hasarg: HasArg::Maybe,
                    occur: Occur::Optional,
                    alias: None,
                },
            ];
            scan(opts, style, false, seq![seq!['-', '-'] + name, w], pos, st) == scan(
                opts,
                style,
                false,
                seq![w],
                pos + 1,
                ScanState {
                    vals: record(st.vals, 0, pos, OptvalView::Given),
                    free: st.free,
                    args_end: st.args_end,
                },
            )
        }),
{
    let o = OptView {
        name: NameView::Long(name),
        hasarg: HasArg::Maybe,
        occur: Occur::Optional,
        alias: None,
    };
    let opts = seq![o];
    assert(index_of_name(opts, NameView::Long(name)) == Some(0int));
    assert(find_opt_spec(opts, NameView::Long(name)) == Some(0int));
    let tok = seq!['-', '-'] + name;
    let toks = seq![tok, w];
    assert(tok[0] == '-');
    assert(tok[1] == '-');
    assert(is_arg_spec(tok));
    assert(tok.len() == name.len() + 2);
    assert(!is_terminator(tok));
    let tail = tok.skip(2);
    assert(tail =~= name);
    lemma_first_eq_absent(tail, 0);
    assert(split_eq(tail).0 == tail);
    assert(split_eq(tail).1 == None::<Seq<char>>);
    assert(name_from_chars(tail) == NameView::Long(name));
    let rest = toks.drop_first();
    assert(rest =~= seq![w]);
    assert(rest[0] == w);
    assert(apply_policy(opts, NameView::Long(name), None, true, rest, pos, st.vals) == Ok::<
        _,
        FailView,
    >((record(st.vals, 0, pos, OptvalView::Given), 0int)));
    assert(rest.skip(0) =~= seq![w]);
}

/// An optional-value option written in short form never consumes a
/// following separate token, whatever that token looks like: it is
/// recorded bare `Given`.
pub proof fn lemma_optional_short_never_consumes(
    c: char,
    w: Seq<char>,
    style: ParsingStyle,
    pos: int,
    st: ScanState,
)
    requires
        c != '-',
    ensures
        ({
            let opts = seq![
                OptView {
                    name: NameView::Short(c),
                    hasarg: HasArg::Maybe,
                    occur: Occur::Optional,
                    alias: None,
                },
            ];
            scan(opts, style, false, seq![seq!['-', c], w], pos, st) == scan(
                opts,
                style,
                false,
                seq![w],
                pos + 1,
                ScanState {
                    vals: record(st.vals, 0, pos, OptvalView::Given),
                    free: st.free,
                    args_end: st.args_end,
                },
            )
        }),
{
    let o = OptView {
        name: NameView::Short(c),
        hasarg: HasArg::Maybe,
        occur: Occur::Optional,
        alias: None,
    };
    let opts = seq![o];
    assert(index_of_name(opts, NameView::Short(c)) == Some(0int));
    assert(find_opt_spec(opts, NameView::Short(c)) == Some(0int));
    let tok = seq!['-', c];
    let toks = seq![tok, w];
    assert(tok[0] == '-');
    assert(tok[1] == c);
    assert(is_arg_spec(tok));
    assert(!is_terminator(tok));
    assert(cluster_scan(opts, tok, 1, pos, st.vals) == Ok::<_, FailView>(
        (st.vals, Some((NameView::Short(c), None::<Seq<char>>))),
    ));
    let rest = toks.drop_first();
    assert(rest =~= seq![w]);
    assert(apply_policy(opts, NameView::Short(c), None, false, rest, pos, st.vals) == Ok::<
        _,
        FailView,
    >((record(st.vals, 0, pos, OptvalView::Given), 0int)));
    assert(rest.skip(0) =~= seq![w]);
}

/// The first cardinality violation in declaration order is a required
/// option left without a capture: validation reports it missing.
pub proof fn lemma_validate_missing(
    opts: Seq<OptView>,
    vals: Seq<Seq<(int, OptvalView)>>,
    i: int,
)
    requires
        0 <= i < opts.len(),
        opts[i].occur is Req,
        vals[i].len() == 0,
        forall|k: int|
            0 <= k < i ==> !((#[trigger] opts[k]).occur is Req && vals[k].len() == 0),
        forall|k: int|
            0 <= k < i ==> !(!((#[trigger] opts[k]).occur is Multi) && vals[k].len() > 1),
    ensures
        validate_from(opts, vals, 0) == Some(FailView::OptionMissing(name_display(opts[i].name))),
{
    lemma_validate_from_step(opts, vals, 0, i);
}

/// The first cardinality violation in declaration order is a
/// non-repeatable option captured more than once: validation reports
/// it duplicated.
pub proof fn lemma_validate_duplicated(
    opts: Seq<OptView>,
    vals: Seq<Seq<(int, OptvalView)>>,
    i: int,
)
    requires
        0 <= i < opts.len(),
        !(opts[i].occur is Multi),
        !(opts[i].occur is Req && vals[i].len() == 0),
        vals[i].len() > 1,
        forall|k: int|
            0 <= k < i ==> !((#[trigger] opts[k]).occur is Req && vals[k].len() == 0),
        forall|k: int|
            0 <= k < i ==> !(!((#[trigger] opts[k]).occur is Multi) && vals[k].len() > 1),
    ensures
        validate_from(opts, vals, 0) == Some(
            FailView::OptionDuplicated(name_display(opts[i].name)),
        ),
{
    lemma_validate_from_step(opts, vals, 0, i);
}

proof fn lemma_validate_from_step(
    opts: Seq<OptView>,
    vals: Seq<Seq<(int, OptvalView)>>,
    k: int,
    i: int,
)
    requires
        0 <= k <= i < opts.len(),
        forall|j: int|
            k <= j < i ==> !((#[trigger] opts[j]).occur is Req && vals[j].len() == 0),
        forall|j: int|
            k <= j < i ==> !(!((#[trigger] opts[j]).occur is Multi) && vals[j].len() > 1),
        (opts[i].occur is Req && vals[i].len() == 0) || (!(opts[i].occur is Multi) && vals[i].len()
            > 1),
    ensures
        validate_from(opts, vals, k) == if opts[i].occur is Req && vals[i].len() == 0 {
            Some(FailView::OptionMissing(name_display(opts[i].name)))
        } else {
            Some(FailView::OptionDuplicated(name_display(opts[i].name)))
        },
    decreases i - k,
{
    if k < i {
        lemma_validate_from_step(opts, vals, k + 1, i);
    }
}

/// A required option absent from the input fails the parse with
/// `OptionMissing`, carrying the option's display name.
pub proof fn lemma_missing_required(o: OptView, style: ParsingStyle, lo: bool)
    requires
        o.occur is Req,
    ensures
        parse_spec(seq![o], style, lo, Seq::empty()) == Err::<MatchesView, FailView>(
            FailView::OptionMissing(name_display(o.name)),
        ),
{
    let opts = seq![o];
    let st0 = init_state(1);
    assert(scan(opts, style, lo, Seq::empty(), 0, st0) == Ok::<ScanState, FailView>(st0));
    assert(st0.vals[0].len() == 0);
    lemma_validate_missing(opts, st0.vals, 0);
}

/// An at-most-once flag occurring twice fails the parse with
/// `OptionDuplicated`, carrying the option's display name.
pub proof fn lemma_duplicated_flag(c: char, style: ParsingStyle)
    requires
        c != '-',
    ensures
        ({
            let opts = seq![
                OptView {
                    name: NameView::Short(c),
                    hasarg: HasArg::No,
                    occur: Occur::Optional,
                    alias: None,
                },
            ];
            parse_spec(opts, style, false, seq![seq!['-', c], seq!['-', c]]) == Err::<
                MatchesView,
                FailView,
            >(FailView::OptionDuplicated(seq![c]))
        }),
{
    let o = OptView {
        name: NameView::Short(c),
        hasarg: HasArg::No,
        occur: Occur::Optional,
        alias: None,
    };
    let opts = seq![o];
    let st0 = init_state(1);
    assert(index_of_name(opts, NameView::Short(c)) == Some(0int));
    assert(find_opt_spec(opts, NameView::Short(c)) == Some(0int));
    let tok = seq!['-', c];
    let toks = seq![tok, tok];
    assert(tok[0] == '-');
    assert(tok[1] == c);
    assert(is_arg_spec(tok));
    assert(!is_terminator(tok));
    let vals1 = record(st0.vals, 0, 0, OptvalView::Given);
    assert(cluster_scan(opts, tok, 2, 0, vals1) == Ok::<_, FailView>(
        (vals1, None::<(NameView, Option<Seq<char>>)>),
    ));
    assert(cluster_scan(opts, tok, 1, 0, st0.vals) == Ok::<_, FailView>(
        (vals1, None::<(NameView, Option<Seq<char>>)>),
    ));
    let rest = toks.drop_first();
    assert(rest =~= seq![tok]);
    let st1 = ScanState { vals: vals1, free: st0.free, args_end: st0.args_end };
    let vals2 = record(vals1, 0, 1, OptvalView::Given);
    assert(cluster_scan(opts, tok, 2, 1, vals2) == Ok::<_, FailView>(
        (vals2, None::<(NameView, Option<Seq<char>>)>),
    ));
    assert(cluster_scan(opts, tok, 1, 1, vals1) == Ok::<_, FailView>(
        (vals2, None::<(NameView, Option<Seq<char>>)>),
    ));
    let st2 = ScanState { vals: vals2, free: st1.free, args_end: st1.args_end };
    assert(rest.drop_first() =~= Seq::<Seq<char>>::empty());
    assert(scan(opts, style, false, rest.drop_first(), 2, st2) == Ok::<ScanState, FailView>(st2));
    assert(scan(opts, style, false, rest, 1, st1) == Ok::<ScanState, FailView>(st2));
    assert(scan(opts, style, false, toks, 0, st0) == Ok::<ScanState, FailView>(st2));
    assert(vals2[0].len() == 2);
    lemma_validate_duplicated(opts, vals2, 0);
    assert(name_display(o.name) == seq![c]);
}

/// Two calls of the parse on the same registry, style and tokens have
/// the same outcome: the result is a function of those inputs alone,
/// and no state survives between calls.
pub proof fn lemma_parse_deterministic(
    opts: Seq<OptView>,
    style: ParsingStyle,
    lo: bool,
    toks: Seq<Seq<char>>,
    r1: Result<MatchesView, FailView>,
    r2: Result<MatchesView, FailView>,
)
    requires
        r1 == parse_spec(opts, style, lo, toks),
        r2 == parse_spec(opts, style, lo, toks),
    ensures
        r1 == r2,
{
}

/// A registry with pairwise distinct canonical names, pairwise
/// distinct aliases, and no alias equal to any canonical name.
pub open spec fn distinct_registry(opts: Seq<OptView>) -> bool {
    &&& forall|i: int, j: int|
        0 <= i < j < opts.len() ==> (#[trigger] opts[i]).name != (#[trigger] opts[j]).name
    &&& forall|i: int, j: int|
        0 <= i < opts.len() && 0 <= j < opts.len() && i != j ==> ((#[trigger] opts[i]).alias
            is Some && (#[trigger] opts[j]).alias is Some ==> opts[i].alias != opts[j].alias)
    &&& forall|i: int, j: int|
        0 <= i < opts.len() && 0 <= j < opts.len() ==> Some((#[trigger] opts[i]).name) != (
        #[trigger] opts[j]).alias
}

/// In a distinct registry, an option declared with both names is
/// queryable identically by either: its canonical name and its alias
/// resolve to the same capture slot, so every query through the lookup
/// answers the same for both.
pub proof fn lemma_alias_queryable(opts: Seq<OptView>, i: int)
    requires
        distinct_registry(opts),
        0 <= i < opts.len(),
    ensures
        find_opt_spec(opts, opts[i].name) == Some(i),
        opts[i].alias matches Some(a) ==> find_opt_spec(opts, a) == Some(i),
    decreases opts.len(),
{
    lemma_index_of_name_found(opts, opts[i].name, i);
    if let Some(a) = opts[i].alias {
        assert(forall|j: int| 0 <= j < opts.len() ==> (#[trigger] opts[j]).name != a);
        lemma_index_of_name_absent(opts, a);
        lemma_index_of_alias_found(opts, a, i);
    }
}

/// A single word: text free of whitespace.
pub open spec fn single_word(w: Seq<char>) -> bool {
    forall|i: int| 0 <= i < w.len() ==> !is_ws_char(#[trigger] w[i])
}

/// A row is acceptable when it is within the width limit or consists
/// of one word alone, which may not be split.
pub open spec fn row_fits(r: Seq<char>, lim: int) -> bool {
    str_width_spec(r) <= lim || single_word(r)
}

/// Every word the splitter produces is free of whitespace.
proof fn lemma_split_words_no_ws(s: Seq<char>)
    ensures
        forall|k: int| 0 <= k < split_words(s).len() ==> single_word(#[trigger] split_words(s)[k]),
    decreases s.len(),
{
    if s.len() == 0 {
    } else if is_ws_char(s[0]) {
        lemma_split_words_no_ws(s.drop_first());
        assert(split_words(s) == split_words(s.drop_first()));
    } else {
        lemma_first_ws_range(s, 0);
        match first_ws(s, 0) {
            Some(k) => {
                lemma_split_words_no_ws(s.skip(k));
                assert forall|i: int| 0 <= i < s.take(k).len() implies !is_ws_char(
                    s.take(k)[i],
                ) by {
                    assert(s.take(k)[i] == s[i]);
                }
                assert(single_word(s.take(k)));
                assert(split_words(s) == seq![s.take(k)] + split_words(s.skip(k)));
                assert forall|m: int| 0 <= m < split_words(s).len() implies single_word(
                    #[trigger] split_words(s)[m],
                ) by {
                    if m == 0 {
                        assert(split_words(s)[m] == s.take(k));
                    } else {
                        assert(split_words(s)[m] == split_words(s.skip(k))[m - 1]);
                    }
                }
            },
            None => {
                assert(split_words(s) == seq![s]);
                assert(single_word(s));
                assert(split_words(s)[0] == s);
            },
        }
    }
}

/// Greedy wrapping keeps every emitted row acceptable, as long as the
/// words are whitespace-free and the rows laid out so far and the row
/// in hand are acceptable.
proof fn lemma_wrap_words_fit(words: Seq<Seq<char>>, lim: int, rows: Seq<Seq<char>>, row: Seq<char>)
    requires
        forall|k: int| 0 <= k < words.len() ==> single_word(#[trigger] words[k]),
        forall|k: int| 0 <= k < rows.len() ==> row_fits(#[trigger] rows[k], lim),
        row_fits(row, lim),
    ensures
        forall|k: int|
            0 <= k < wrap_words(words, lim, rows, row).len() ==> row_fits(
                #[trigger] wrap_words(words, lim, rows, row)[k],
                lim,
            ),
    decreases words.len(),
{
    if words.len() == 0 {
    } else {
        let word = words[0];
        assert(single_word(word));
        let sep: int = if row.len() == 0 {
            0
        } else {
            1
        };
        assert(forall|k: int|
            0 <= k < words.drop_first().len() ==> single_word(#[trigger] words.drop_first()[k]));
        if str_width_spec(row) + sep + str_width_spec(word) <= lim {
            let row2 = if row.len() == 0 {
                word
            } else {
                row + seq![' '] + word
            };
            if row.len() == 0 {
                assert(row_fits(row2, lim));
            } else {
                lemma_width_concat(row + seq![' '], word);
                lemma_width_concat(row, seq![' ']);
                lemma_width_singleton(' ');
                assert(str_width_spec(row2) == str_width_spec(row) + 1 + str_width_spec(word));
                assert(row_fits(row2, lim));
            }
            lemma_wrap_words_fit(words.drop_first(), lim, rows, row2);
            assert(wrap_words(words, lim, rows, row) == wrap_words(
                words.drop_first(),
                lim,
                rows,
                row2,
            ));
        } else if row.len() != 0 {
            assert forall|k: int| 0 <= k < rows.push(row).len() implies row_fits(
                #[trigger] rows.push(row)[k],
                lim,
            ) by {
                if k == rows.len() {
                    assert(rows.push(row)[k] == row);
                }
            }
            lemma_wrap_words_fit(words.drop_first(), lim, rows.push(row), word);
            assert(wrap_words(words, lim, rows, row) == wrap_words(
                words.drop_first(),
                lim,
                rows.push(row),
                word,
            ));
        } else {
            lemma_wrap_words_fit(words.drop_first(), lim, rows, word);
            assert(wrap_words(words, lim, rows, row) == wrap_words(
                words.drop_first(),
                lim,
                rows,
                word,
            ));
        }
    }
}

proof fn lemma_wrap_lines_fit(lines: Seq<Seq<char>>, lim: int)
    ensures
        forall|k: int|
            0 <= k < wrap_lines(lines, lim).len() ==> row_fits(
                #[trigger] wrap_lines(lines, lim)[k],
                lim,
            ),
    decreases lines.len(),
{
    if lines.len() > 0 {
        lemma_split_words_no_ws(lines[0]);
        lemma_wrap_words_fit(split_words(lines[0]), lim, Seq::empty(), Seq::empty());
        lemma_wrap_lines_fit(lines.drop_first(), lim);
        let head = wrap_words(split_words(lines[0]), lim, Seq::empty(), Seq::empty());
        let tail = wrap_lines(lines.drop_first(), lim);
        assert(wrap_lines(lines, lim) == head + tail);
        assert forall|k: int| 0 <= k < wrap_lines(lines, lim).len() implies row_fits(
            #[trigger] wrap_lines(lines, lim)[k],
            lim,
        ) by {
            if k < head.len() {
                assert(wrap_lines(lines, lim)[k] == head[k]);
            } else {
                assert(wrap_lines(lines, lim)[k] == tail[k - head.len()]);
            }
        }
    }
}

/// Word wrap never emits a row wider than the limit, unless that row
/// is a single word that alone exceeds it and stands unsplit.
pub proof fn lemma_split_within_fits(desc: Seq<char>, lim: int)
    ensures
        forall|k: int|
            0 <= k < split_within_spec(desc, lim).len() ==> row_fits(
                #[trigger] split_within_spec(desc, lim)[k],
                lim,
            ),
{
    lemma_wrap_lines_fit(split_lines(trim_spec(desc)), lim);
}

} // verus!
