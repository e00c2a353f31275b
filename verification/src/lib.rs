//! A small getopt-style command-line option parser.
//!
//! Build an [`Options`] registry with `optopt`, `optflag` and `reqopt`,
//! then call `parse` on the raw argument tokens (not including the
//! program name). The result is either a queryable [`Matches`] or a
//! typed [`Fail`] value. Short options may be clustered (`-abc`), long
//! options take `=`-attached or following values, and `--` terminates
//! option scanning.

use vstd::prelude::*;

pub mod arg_options;
pub mod global_fn;
pub mod laws;
pub mod optgroup;
pub mod result_error;
pub mod scan;
pub mod tail;
pub mod width;

pub use arg_options::Options;
pub use global_fn::find_opt;
pub use global_fn::is_arg;
pub use global_fn::validate_names;
pub use result_error::Fail;
pub use result_error::Matches;
pub use result_error::Opt;
pub use result_error::Optval;
pub use optgroup::HasArg;
pub use optgroup::Name;
pub use optgroup::Occur;
pub use optgroup::OptGroup;
pub use optgroup::ParsingStyle;

verus! {

/// True iff a token is option-shaped: it starts with `-` and is longer
/// than just the dash, so `-` alone and plain words are free arguments.
pub open spec fn is_arg_spec(s: Seq<char>) -> bool {
    s.len() > 1 && s[0] == '-'
}

} // verus!
