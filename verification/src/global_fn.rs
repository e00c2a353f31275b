//! Free helpers: name-shape validation, option-shape testing, and the
//! linear name-to-slot lookup.

use vstd::prelude::*;

use crate::is_arg_spec;
use crate::optgroup::{Name, NameView};
use crate::result_error::{strs_view, Opt, OptView};
use crate::width::{char_width_spec, lemma_width_concat, lemma_width_singleton, str_width_checked,
    str_width_spec};

verus! {

/// True iff the declared names are well shaped: a short name of at most
/// one character and a long name that is empty or at least two
/// characters long.
pub open spec fn names_valid(short_name: Seq<char>, long_name: Seq<char>) -> bool {
    &&& short_name.len() <= 1
    &&& long_name.len() == 0 || long_name.len() >= 2
}

/// Checks the declared name shapes: the short name must be at most one
/// character, the long name empty or at least two characters.
pub fn validate_names(short_name: &str, long_name: &str) -> (r: bool)
    ensures
        r == names_valid(short_name@, long_name@),
{
    let slen = short_name.unicode_len();
    if slen > 1 {
        return false;
    }
    let llen = long_name.unicode_len();
    llen == 0 || llen >= 2
}

/// True iff the token is option-shaped: it starts with `-` and is more
/// than the bare dash.
pub fn is_arg(arg: &str) -> (r: bool)
    ensures
        r == is_arg_spec(arg@),
{
    arg.unicode_len() > 1 && arg.get_char(0) == '-'
}

/// The first position whose option carries `nm` as its canonical name.
pub open spec fn index_of_name(opts: Seq<OptView>, nm: NameView) -> Option<int>
    decreases opts.len(),
{
    if opts.len() == 0 {
        None
    } else if opts[0].name == nm {
        Some(0int)
    } else {
        match index_of_name(opts.drop_first(), nm) {
            Some(i) => Some(i + 1),
            None => None,
        }
    }
}

/// The first position whose option carries `nm` as its alias.
pub open spec fn index_of_alias(opts: Seq<OptView>, nm: NameView) -> Option<int>
    decreases opts.len(),
{
    if opts.len() == 0 {
        None
    } else if opts[0].alias == Some(nm) {
        Some(0int)
    } else {
        match index_of_alias(opts.drop_first(), nm) {
            Some(i) => Some(i + 1),
            None => None,
        }
    }
}

/// Name-to-slot lookup: an exact canonical match wins; failing that,
/// the first option whose alias matches hands back the position of the
/// first option carrying that owner's canonical name.
pub open spec fn find_opt_spec(opts: Seq<OptView>, nm: NameView) -> Option<int> {
    match index_of_name(opts, nm) {
        Some(i) => Some(i),
        None => match index_of_alias(opts, nm) {
            Some(c) => index_of_name(opts, opts[c].name),
            None => None,
        },
    }
}

pub proof fn lemma_index_of_name_found(opts: Seq<OptView>, nm: NameView, i: int)
    requires
        0 <= i < opts.len(),
        opts[i].name == nm,
        forall|j: int| 0 <= j < i ==> opts[j].name != nm,
    ensures
        index_of_name(opts, nm) == Some(i),
    decreases i,
{
    if i > 0 {
        lemma_index_of_name_found(opts.drop_first(), nm, i - 1);
    }
}

pub proof fn lemma_index_of_name_absent(opts: Seq<OptView>, nm: NameView)
    requires
        forall|j: int| 0 <= j < opts.len() ==> opts[j].name != nm,
    ensures
        index_of_name(opts, nm) is None,
    decreases opts.len(),
{
    if opts.len() > 0 {
        lemma_index_of_name_absent(opts.drop_first(), nm);
    }
}

pub proof fn lemma_index_of_alias_found(opts: Seq<OptView>, nm: NameView, i: int)
    requires
        0 <= i < opts.len(),
        opts[i].alias == Some(nm),
        forall|j: int| 0 <= j < i ==> opts[j].alias != Some(nm),
    ensures
        index_of_alias(opts, nm) == Some(i),
    decreases i,
{
    if i > 0 {
        lemma_index_of_alias_found(opts.drop_first(), nm, i - 1);
    }
}

pub proof fn lemma_index_of_alias_absent(opts: Seq<OptView>, nm: NameView)
    requires
        forall|j: int| 0 <= j < opts.len() ==> opts[j].alias != Some(nm),
    ensures
        index_of_alias(opts, nm) is None,
    decreases opts.len(),
{
    if opts.len() > 0 {
        lemma_index_of_alias_absent(opts.drop_first(), nm);
    }
}

/// True iff the two names are the same identity; equality is
/// structural, never fuzzy.
pub fn name_eq(a: &Name, b: &Name) -> (r: bool)
    ensures
        r == (a@ == b@),
{
    match (a, b) {
        (Name::Short(c1), Name::Short(c2)) => *c1 == *c2,
        (Name::Long(s1), Name::Long(s2)) => s1.eq(s2),
        _ => false,
    }
}

/// Finds the capture slot that `nm` denotes: first by canonical name,
/// then through the aliases, returning the owner's position.
pub fn find_opt(opts: &Vec<Opt>, nm: &Name) -> (r: Option<usize>)
    ensures
        ({
            let optsv = Seq::new(opts@.len(), |i: int| opts@[i]@);
            match r {
                Some(i) => i < opts@.len() && find_opt_spec(optsv, nm@) == Some(i as int),
                None => find_opt_spec(optsv, nm@) is None,
            }
        }),
{
    let ghost optsv = Seq::new(opts@.len(), |i: int| opts@[i]@);
    // Search main options.
    let n = opts.len();
    let mut i: usize = 0;
    while i < n
        invariant
            i <= n,
            n == opts@.len(),
            optsv == Seq::new(opts@.len(), |k: int| opts@[k]@),
            forall|j: int| 0 <= j < i ==> optsv[j].name != nm@,
        decreases n - i,
    {
        if name_eq(&opts[i].name, nm) {
            proof {
                lemma_index_of_name_found(optsv, nm@, i as int);
            }
            return Some(i);
        }
        i += 1;
    }
    proof {
        lemma_index_of_name_absent(optsv, nm@);
    }

    // Search in aliases; hand back the owner's slot.
    let mut c: usize = 0;
    while c < n
        invariant
            c <= n,
            n == opts@.len(),
            optsv == Seq::new(opts@.len(), |k: int| opts@[k]@),
            index_of_name(optsv, nm@) is None,
            forall|j: int| 0 <= j < c ==> optsv[j].alias != Some(nm@),
        decreases n - c,
    {
        let hit = match &opts[c].alias {
            Some(a) => name_eq(a, nm),
            None => false,
        };
        if hit {
            proof {
                lemma_index_of_alias_found(optsv, nm@, c as int);
            }
            let owner = &opts[c].name;
            let mut i: usize = 0;
            while i < n
                invariant
                    i <= n,
                    n == opts@.len(),
                    optsv == Seq::new(opts@.len(), |k: int| opts@[k]@),
                    owner@ == optsv[c as int].name,
                    index_of_name(optsv, nm@) is None,
                    index_of_alias(optsv, nm@) == Some(c as int),
                    forall|j: int| 0 <= j < i ==> optsv[j].name != owner@,
                decreases n - i,
            {
                if name_eq(&opts[i].name, owner) {
                    proof {
                        lemma_index_of_name_found(optsv, owner@, i as int);
                    }
                    return Some(i);
                }
                i += 1;
            }
            proof {
                lemma_index_of_name_absent(optsv, owner@);
            }
            return None;
        }
        c += 1;
    }
    proof {
        lemma_index_of_alias_absent(optsv, nm@);
    }
    None
}

/// True iff the character is whitespace: the Unicode White_Space set.
pub open spec fn is_ws_char(c: char) -> bool {
    let u = c as u32;
    ||| (0x09 <= u && u <= 0x0D)
    ||| u == 0x20
    ||| u == 0x85
    ||| u == 0xA0
    ||| u == 0x1680
    ||| (0x2000 <= u && u <= 0x200A)
    ||| u == 0x2028
    ||| u == 0x2029
    ||| u == 0x202F
    ||| u == 0x205F
    ||| u == 0x3000
}

/// True iff the character is whitespace.
pub fn is_whitespace_char(c: char) -> (r: bool)
    ensures
        r == is_ws_char(c),
{
    let u = c as u32;
    (0x09 <= u && u <= 0x0D) || u == 0x20 || u == 0x85 || u == 0xA0 || u == 0x1680 || (0x2000 <= u
        && u <= 0x200A) || u == 0x2028 || u == 0x2029 || u == 0x202F || u == 0x205F || u == 0x3000
}

/// The text without its leading whitespace.
pub open spec fn trim_front(s: Seq<char>) -> Seq<char>
    decreases s.len(),
{
    if s.len() > 0 && is_ws_char(s[0]) {
        trim_front(s.drop_first())
    } else {
        s
    }
}

/// The text without its trailing whitespace.
pub open spec fn trim_back(s: Seq<char>) -> Seq<char>
    decreases s.len(),
{
    if s.len() > 0 && is_ws_char(s[s.len() - 1]) {
        trim_back(s.drop_last())
    } else {
        s
    }
}

/// The text without leading and trailing whitespace.
pub open spec fn trim_spec(s: Seq<char>) -> Seq<char> {
    trim_back(trim_front(s))
}

proof fn lemma_trim_front(s: Seq<char>, a: int)
    requires
        0 <= a <= s.len(),
        forall|j: int| 0 <= j < a ==> is_ws_char(s[j]),
        a < s.len() ==> !is_ws_char(s[a]),
    ensures
        trim_front(s) == s.skip(a),
    decreases a,
{
    if a == 0 {
        assert(s.skip(0) =~= s);
    } else {
        lemma_trim_front(s.drop_first(), a - 1);
        assert(s.drop_first().skip(a - 1) =~= s.skip(a));
    }
}

proof fn lemma_trim_back(s: Seq<char>, b: int)
    requires
        0 <= b <= s.len(),
        forall|j: int| b <= j < s.len() ==> is_ws_char(s[j]),
        b > 0 ==> !is_ws_char(s[b - 1]),
    ensures
        trim_back(s) == s.take(b),
    decreases s.len() - b,
{
    if b == s.len() {
        assert(s.take(b) =~= s);
    } else {
        lemma_trim_back(s.drop_last(), b);
        assert(s.drop_last().take(b) =~= s.take(b));
    }
}

/// The text without leading and trailing whitespace.
pub fn trim_exec(s: &str) -> (r: String)
    ensures
        r@ == trim_spec(s@),
{
    let n = s.unicode_len();
    let mut a: usize = 0;
    while a < n && is_whitespace_char(s.get_char(a))
        invariant
            a <= n,
            n == s@.len(),
            forall|j: int| 0 <= j < a ==> is_ws_char(s@[j]),
        decreases n - a,
    {
        a += 1;
    }
    proof {
        lemma_trim_front(s@, a as int);
    }
    if a == n {
        proof {
            assert(s@.skip(a as int) =~= Seq::<char>::empty());
            assert(trim_back(Seq::<char>::empty()) =~= Seq::<char>::empty());
        }
        return String::new();
    }
    let mut b: usize = n;
    while b > a && is_whitespace_char(s.get_char(b - 1))
        invariant
            a <= b,
            b <= n,
            a < n,
            n == s@.len(),
            !is_ws_char(s@[a as int]),
            forall|j: int| b <= j < n ==> is_ws_char(s@[j]),
        decreases b,
    {
        b -= 1;
    }
    proof {
        if b == a {
            assert(is_ws_char(s@[a as int]));
        }
        assert(b > a);
        lemma_trim_back(s@.skip(a as int), b - a as int);
        assert(s@.skip(a as int).take(b - a as int) =~= s@.subrange(a as int, b as int));
    }
    let r = s.substring_char(a, b).to_owned();
    r
}

/// The position of the first line break at or after `i`, if any.
pub open spec fn first_nl(s: Seq<char>, i: int) -> Option<int>
    decreases s.len() - i,
{
    if i < 0 || i >= s.len() {
        None
    } else if s[i] == '\n' {
        Some(i)
    } else {
        first_nl(s, i + 1)
    }
}

proof fn lemma_first_nl(s: Seq<char>, k: int, e: int)
    requires
        0 <= k <= e <= s.len(),
        forall|j: int| k <= j < e ==> s[j] != '\n',
        e < s.len() ==> s[e] == '\n',
    ensures
        first_nl(s, k) == if e < s.len() {
            Some(e)
        } else {
            None::<int>
        },
    decreases e - k,
{
    if k < e {
        lemma_first_nl(s, k + 1, e);
    } else if e == s.len() {
        lemma_first_nl_absent(s, k);
    }
}

proof fn lemma_first_nl_absent(s: Seq<char>, k: int)
    requires
        0 <= k,
        forall|j: int| k <= j < s.len() ==> s[j] != '\n',
    ensures
        first_nl(s, k) is None,
    decreases s.len() - k,
{
    if k < s.len() {
        lemma_first_nl_absent(s, k + 1);
    }
}

/// A line without one trailing carriage return.
pub open spec fn strip_cr(s: Seq<char>) -> Seq<char> {
    if s.len() > 0 && s[s.len() - 1] == '\r' {
        s.drop_last()
    } else {
        s
    }
}

/// Wherever the first line feed is found, it lies in range.
pub proof fn lemma_first_nl_range(s: Seq<char>, k: int)
    requires
        0 <= k,
    ensures
        match first_nl(s, k) {
            Some(i) => k <= i < s.len() && s[i] == '\n',
            None => true,
        },
    decreases s.len() - k,
{
    if k < s.len() && s[k] != '\n' {
        lemma_first_nl_range(s, k + 1);
    }
}

/// The lines of a text: split at each line feed, with a carriage
/// return before the line feed stripped; an empty text has no lines,
/// and a final line break opens no further line.
pub open spec fn split_lines(s: Seq<char>) -> Seq<Seq<char>>
    decreases s.len(),
    via split_lines_decreases
{
    if s.len() == 0 {
        Seq::empty()
    } else {
        match first_nl(s, 0) {
            Some(i) => seq![strip_cr(s.take(i))] + split_lines(s.skip(i + 1)),
            None => seq![s],
        }
    }
}

#[via_fn]
proof fn split_lines_decreases(s: Seq<char>) {
    lemma_first_nl_range(s, 0);
}

/// The position of the first line feed at or after `from`, or the
/// text's length if none remains.
fn find_nl(s: &str, from: usize) -> (r: usize)
    requires
        from <= s@.len(),
    ensures
        from <= r <= s@.len(),
        forall|k: int| from <= k < r ==> s@[k] != '\n',
        r < s@.len() ==> s@[r as int] == '\n',
{
    let n = s.unicode_len();
    let mut j = from;
    while j < n && s.get_char(j) != '\n'
        invariant
            from <= j,
            j <= n,
            n == s@.len(),
            forall|k: int| from <= k < j ==> s@[k] != '\n',
        decreases n - j,
    {
        j += 1;
    }
    j
}

/// The lines of a text.
pub fn split_lines_exec(s: &str) -> (r: Vec<String>)
    ensures
        strs_view(r@) == split_lines(s@),
{
    let n = s.unicode_len();
    let mut acc: Vec<String> = Vec::new();
    let mut start: usize = 0;
    proof {
        assert(strs_view(acc@) =~= Seq::<Seq<char>>::empty());
        assert(s@.skip(0) =~= s@);
        assert(strs_view(acc@) + split_lines(s@.skip(0)) =~= split_lines(s@));
    }
    while start < n
        invariant
            start <= n,
            n == s@.len(),
            strs_view(acc@) + split_lines(s@.skip(start as int)) == split_lines(s@),
        decreases n - start,
    {
        let ghost start0 = start as int;
        let ghost t = s@.skip(start0);
        let ghost acc0 = strs_view(acc@);
        let e = find_nl(s, start);
        proof {
            assert forall|j: int| 0 <= j < e - start implies t[j] != '\n' by {
                assert(t[j] == s@[start + j]);
            }
            if e < n {
                assert(t[e - start] == s@[e as int]);
            }
            lemma_first_nl(t, 0, e - start as int);
        }
        if e < n {
            let line_end = if e > start && s.get_char(e - 1) == '\r' {
                e - 1
            } else {
                e
            };
            let line = s.substring_char(start, line_end).to_owned();
            let ghost linev = line@;
            proof {
                assert(t.take(e - start0) =~= s@.subrange(start0, e as int));
                assert(linev =~= strip_cr(t.take(e - start0)));
            }
            acc.push(line);
            start = e + 1;
            proof {
                assert(t.skip(e - start0 + 1) =~= s@.skip(e as int + 1));
                assert(split_lines(t) == seq![linev] + split_lines(s@.skip(start as int)));
                assert(strs_view(acc@) =~= acc0.push(linev));
                assert(acc0.push(linev) + split_lines(s@.skip(start as int)) =~= acc0 + (
                seq![linev] + split_lines(s@.skip(start as int))));
                assert(strs_view(acc@) + split_lines(s@.skip(start as int)) == split_lines(s@));
            }
        } else {
            let line = s.substring_char(start, n).to_owned();
            let ghost linev = line@;
            proof {
                assert(linev =~= t);
            }
            acc.push(line);
            start = n;
            proof {
                assert(s@.skip(start as int) =~= Seq::<char>::empty());
                assert(split_lines(t) == seq![t]);
                assert(strs_view(acc@) =~= acc0.push(linev));
                assert(acc0.push(linev) + split_lines(s@.skip(start as int)) =~= acc0 + seq![t]);
                assert(strs_view(acc@) + split_lines(s@.skip(start as int)) == split_lines(s@));
            }
        }
    }
    proof {
        assert(s@.skip(start as int) =~= Seq::<char>::empty());
        assert(split_lines(Seq::<char>::empty()) =~= Seq::<Seq<char>>::empty());
        assert(strs_view(acc@) + split_lines(s@.skip(start as int)) =~= strs_view(acc@));
    }
    acc
}

/// The position of the first whitespace character at or after `i`, if
/// any.
pub open spec fn first_ws(s: Seq<char>, i: int) -> Option<int>
    decreases s.len() - i,
{
    if i < 0 || i >= s.len() {
        None
    } else if is_ws_char(s[i]) {
        Some(i)
    } else {
        first_ws(s, i + 1)
    }
}

/// Where the first whitespace is found: in range, whitespace itself,
/// with none earlier; where none is found, the rest is whitespace-free.
pub proof fn lemma_first_ws_range(s: Seq<char>, k: int)
    requires
        0 <= k,
    ensures
        match first_ws(s, k) {
            Some(i) => k <= i < s.len() && is_ws_char(s[i]) && forall|j: int|
                k <= j < i ==> !is_ws_char(s[j]),
            None => forall|j: int| k <= j < s.len() ==> !is_ws_char(s[j]),
        },
    decreases s.len() - k,
{
    if k < s.len() && !is_ws_char(s[k]) {
        lemma_first_ws_range(s, k + 1);
    }
}

proof fn lemma_first_ws(s: Seq<char>, k: int, e: int)
    requires
        0 <= k <= e <= s.len(),
        forall|j: int| k <= j < e ==> !is_ws_char(s[j]),
        e < s.len() ==> is_ws_char(s[e]),
    ensures
        first_ws(s, k) == if e < s.len() {
            Some(e)
        } else {
            None::<int>
        },
    decreases e - k,
{
    if k < e {
        lemma_first_ws(s, k + 1, e);
    } else if e == s.len() {
        lemma_first_ws_absent(s, k);
    }
}

proof fn lemma_first_ws_absent(s: Seq<char>, k: int)
    requires
        0 <= k,
        forall|j: int| k <= j < s.len() ==> !is_ws_char(s[j]),
    ensures
        first_ws(s, k) is None,
    decreases s.len() - k,
{
    if k < s.len() {
        lemma_first_ws_absent(s, k + 1);
    }
}

/// The words of a line: the maximal runs of non-whitespace characters,
/// in order.
pub open spec fn split_words(s: Seq<char>) -> Seq<Seq<char>>
    decreases s.len(),
    via split_words_decreases
{
    if s.len() == 0 {
        Seq::empty()
    } else if is_ws_char(s[0]) {
        split_words(s.drop_first())
    } else {
        match first_ws(s, 0) {
            Some(k) => seq![s.take(k)] + split_words(s.skip(k)),
            None => seq![s],
        }
    }
}

#[via_fn]
proof fn split_words_decreases(s: Seq<char>) {
    lemma_first_ws_range(s, 0);
    if s.len() > 0 && !is_ws_char(s[0]) {
        if let Some(k) = first_ws(s, 0) {
            assert(k >= 1);
        }
    }
}

/// The position of the first whitespace at or after `from`, or the
/// text's length if none remains.
fn find_ws(s: &str, from: usize) -> (r: usize)
    requires
        from <= s@.len(),
    ensures
        from <= r <= s@.len(),
        forall|k: int| from <= k < r ==> !is_ws_char(s@[k]),
        r < s@.len() ==> is_ws_char(s@[r as int]),
{
    let n = s.unicode_len();
    let mut j = from;
    while j < n && !is_whitespace_char(s.get_char(j))
        invariant
            from <= j,
            j <= n,
            n == s@.len(),
            forall|k: int| from <= k < j ==> !is_ws_char(s@[k]),
        decreases n - j,
    {
        j += 1;
    }
    j
}

/// The words of a line.
pub fn split_words_exec(line: &str) -> (r: Vec<String>)
    ensures
        strs_view(r@) == split_words(line@),
{
    let n = line.unicode_len();
    let mut acc: Vec<String> = Vec::new();
    let mut i: usize = 0;
    proof {
        assert(strs_view(acc@) =~= Seq::<Seq<char>>::empty());
        assert(line@.skip(0) =~= line@);
        assert(strs_view(acc@) + split_words(line@.skip(0)) =~= split_words(line@));
    }
    while i < n
        invariant
            i <= n,
            n == line@.len(),
            strs_view(acc@) + split_words(line@.skip(i as int)) == split_words(line@),
        decreases n - i,
    {
        let ghost i0 = i as int;
        let ghost t = line@.skip(i0);
        let ghost acc0 = strs_view(acc@);
        if is_whitespace_char(line.get_char(i)) {
            proof {
                assert(t[0] == line@[i0]);
                assert(t.drop_first() =~= line@.skip(i0 + 1));
                assert(split_words(t) == split_words(line@.skip(i0 + 1)));
            }
            i += 1;
        } else {
            let j = find_ws(line, i);
            proof {
                assert(t[0] == line@[i0]);
                assert forall|m: int| 0 <= m < j - i0 implies !is_ws_char(t[m]) by {
                    assert(t[m] == line@[i0 + m]);
                }
                if j < n {
                    assert(t[j - i0] == line@[j as int]);
                }
                lemma_first_ws(t, 0, j - i0);
            }
            let word = line.substring_char(i, j).to_owned();
            let ghost wordv = word@;
            proof {
                assert(wordv =~= t.take(j - i0));
            }
            acc.push(word);
            i = j;
            proof {
                if (j as int) < n {
                    assert(t.skip(j - i0) =~= line@.skip(j as int));
                    assert(split_words(t) == seq![wordv] + split_words(line@.skip(j as int)));
                } else {
                    assert(line@.skip(j as int) =~= Seq::<char>::empty());
                    assert(split_words(Seq::<char>::empty()) =~= Seq::<Seq<char>>::empty());
                    assert(wordv =~= t);
                    assert(split_words(t) == seq![wordv] + split_words(line@.skip(j as int)));
                }
                assert(strs_view(acc@) =~= acc0.push(wordv));
                assert(acc0.push(wordv) + split_words(line@.skip(i as int)) =~= acc0 + (
                seq![wordv] + split_words(line@.skip(i as int))));
                assert(strs_view(acc@) + split_words(line@.skip(i as int)) == split_words(line@));
            }
        }
    }
    proof {
        assert(line@.skip(i as int) =~= Seq::<char>::empty());
        assert(split_words(Seq::<char>::empty()) =~= Seq::<Seq<char>>::empty());
        assert(strs_view(acc@) + split_words(line@.skip(i as int)) =~= strs_view(acc@));
    }
    acc
}

/// Greedy wrap of the words that remain, given the rows already laid
/// out and the row being assembled: a word joins the row when the
/// joined width stays within `lim`, otherwise the row (if any) is
/// emitted and the word opens the next one; a lone word wider than
/// `lim` stands unsplit.
pub open spec fn wrap_words(
    words: Seq<Seq<char>>,
    lim: int,
    rows: Seq<Seq<char>>,
    row: Seq<char>,
) -> Seq<Seq<char>>
    decreases words.len(),
{
    if words.len() == 0 {
        if row.len() == 0 {
            rows
        } else {
            rows.push(row)
        }
    } else {
        let word = words[0];
        let sep: int = if row.len() == 0 {
            0
        } else {
            1
        };
        if str_width_spec(row) + sep + str_width_spec(word) <= lim {
            let row2 = if row.len() == 0 {
                word
            } else {
                row + seq![' '] + word
            };
            wrap_words(words.drop_first(), lim, rows, row2)
        } else if row.len() != 0 {
            wrap_words(words.drop_first(), lim, rows.push(row), word)
        } else {
            wrap_words(words.drop_first(), lim, rows, word)
        }
    }
}

/// The rows of all lines, wrapped line by line and concatenated.
pub open spec fn wrap_lines(lines: Seq<Seq<char>>, lim: int) -> Seq<Seq<char>>
    decreases lines.len(),
{
    if lines.len() == 0 {
        Seq::empty()
    } else {
        wrap_words(split_words(lines[0]), lim, Seq::empty(), Seq::empty()) + wrap_lines(
            lines.drop_first(),
            lim,
        )
    }
}

/// What the description splitter returns: the trimmed text's lines,
/// each greedily word-wrapped to the limit.
pub open spec fn split_within_spec(desc: Seq<char>, lim: int) -> Seq<Seq<char>> {
    wrap_lines(split_lines(trim_spec(desc)), lim)
}

/// Greedy wrap of one line's words.
fn wrap_words_exec(words: &Vec<String>, lim: usize) -> (r: Vec<String>)
    ensures
        strs_view(r@) == wrap_words(
            strs_view(words@),
            lim as int,
            Seq::empty(),
            Seq::empty(),
        ),
{
    let ghost wv = strs_view(words@);
    let mut rows: Vec<String> = Vec::new();
    let mut row: String = String::new();
    let mut row_w: Option<usize> = Some(0);
    let n = words.len();
    let mut wi: usize = 0;
    proof {
        assert(strs_view(rows@) =~= Seq::<Seq<char>>::empty());
        assert(row@ =~= Seq::<char>::empty());
        assert(wv.skip(0) =~= wv);
    }
    while wi < n
        invariant
            wi <= n,
            n == words@.len(),
            wv == strs_view(words@),
            match row_w {
                Some(w) => w == str_width_spec(row@),
                None => str_width_spec(row@) > usize::MAX,
            },
            wrap_words(wv, lim as int, Seq::empty(), Seq::empty()) == wrap_words(
                wv.skip(wi as int),
                lim as int,
                strs_view(rows@),
                row@,
            ),
        decreases n - wi,
    {
        let ghost rows0 = strs_view(rows@);
        let ghost row0 = row@;
        let ghost rem = wv.skip(wi as int);
        proof {
            assert(rem[0] == wv[wi as int]);
            assert(rem.drop_first() =~= wv.skip(wi as int + 1));
        }
        let word = &words[wi];
        let word_w = str_width_checked(word.as_str());
        let row_empty = row.as_str().is_empty();
        let sep: usize = if row_empty {
            0
        } else {
            1
        };
        let fits = match (row_w, word_w) {
            (Some(a), Some(b)) => a <= lim && b <= lim - a && sep <= lim - a - b,
            _ => false,
        };
        proof {
            assert(fits == (str_width_spec(row0) + (if row0.len() == 0 {
                0int
            } else {
                1int
            }) + str_width_spec(word@) <= lim));
        }
        if fits {
            let a = match row_w {
                Some(a) => a,
                None => 0,
            };
            let b = match word_w {
                Some(b) => b,
                None => 0,
            };
            if !row_empty {
                row.append(" ");
            }
            row.append(word.as_str());
            row_w = Some(a + sep + b);
            proof {
                reveal_strlit(" ");
                assert(" "@ =~= seq![' ']);
                assert(char_width_spec(' ') == 1);
                if row0.len() == 0 {
                    assert(row@ =~= word@);
                    lemma_width_concat(Seq::<char>::empty(), word@);
                    assert(Seq::<char>::empty() + word@ =~= word@);
                } else {
                    assert(row@ =~= row0 + seq![' '] + word@);
                    lemma_width_concat(row0 + seq![' '], word@);
                    lemma_width_concat(row0, seq![' ']);
                    lemma_width_singleton(' ');
                }
            }
        } else if !row_empty {
            rows.push(row);
            row = word.clone();
            row_w = word_w;
            proof {
                assert(strs_view(rows@) =~= rows0.push(row0));
            }
        } else {
            row = word.clone();
            row_w = word_w;
            proof {
                assert(row0.len() == 0);
            }
        }
        wi += 1;
        proof {
            assert(wrap_words(wv, lim as int, Seq::empty(), Seq::empty()) == wrap_words(
                wv.skip(wi as int),
                lim as int,
                strs_view(rows@),
                row@,
            ));
        }
    }
    proof {
        assert(wv.skip(wi as int) =~= Seq::<Seq<char>>::empty());
    }
    if !row.as_str().is_empty() {
        rows.push(row);
        proof {
            assert(strs_view(rows@) =~= wrap_words(
                wv,
                lim as int,
                Seq::empty(),
                Seq::empty(),
            ));
        }
    } else {
        proof {
            assert(strs_view(rows@) =~= wrap_words(
                wv,
                lim as int,
                Seq::empty(),
                Seq::empty(),
            ));
        }
    }
    rows
}

/// Splits the description into display rows: each of its lines is
/// word-wrapped to the limit in a pass of its own, so the author's
/// line breaks are preserved.
pub fn each_split_within(desc: &str, lim: usize) -> (r: Vec<String>)
    ensures
        strs_view(r@) == split_within_spec(desc@, lim as int),
{
    let trimmed = trim_exec(desc);
    let lines = split_lines_exec(trimmed.as_str());
    let ghost linesv = strs_view(lines@);
    let mut rows: Vec<String> = Vec::new();
    let nl = lines.len();
    let mut li: usize = 0;
    proof {
        assert(strs_view(rows@) =~= Seq::<Seq<char>>::empty());
        assert(linesv.skip(0) =~= linesv);
        assert(strs_view(rows@) + wrap_lines(linesv.skip(0), lim as int) =~= wrap_lines(
            linesv,
            lim as int,
        ));
    }
    while li < nl
        invariant
            li <= nl,
            nl == lines@.len(),
            linesv == strs_view(lines@),
            strs_view(rows@) + wrap_lines(linesv.skip(li as int), lim as int) == wrap_lines(
                linesv,
                lim as int,
            ),
        decreases nl - li,
    {
        let ghost rows0 = strs_view(rows@);
        let ghost rem = linesv.skip(li as int);
        proof {
            assert(rem[0] == linesv[li as int]);
            assert(rem.drop_first() =~= linesv.skip(li as int + 1));
        }
        let words = split_words_exec(lines[li].as_str());
        let mut line_rows = wrap_words_exec(&words, lim);
        let ghost lrv = strs_view(line_rows@);
        rows.append(&mut line_rows);
        li += 1;
        proof {
            assert(strs_view(rows@) =~= rows0 + lrv);
            assert(wrap_lines(rem, lim as int) == lrv + wrap_lines(
                linesv.skip(li as int),
                lim as int,
            ));
            assert((rows0 + lrv) + wrap_lines(linesv.skip(li as int), lim as int) =~= rows0 + (lrv
                + wrap_lines(linesv.skip(li as int), lim as int)));
            assert(strs_view(rows@) + wrap_lines(linesv.skip(li as int), lim as int) == wrap_lines(
                linesv,
                lim as int,
            ));
        }
    }
    proof {
        assert(linesv.skip(li as int) =~= Seq::<Seq<char>>::empty());
        assert(wrap_lines(Seq::<Seq<char>>::empty(), lim as int) =~= Seq::<Seq<char>>::empty());
        assert(strs_view(rows@) + wrap_lines(linesv.skip(li as int), lim as int) =~= strs_view(
            rows@,
        ));
    }
    rows
}

} // verus!
