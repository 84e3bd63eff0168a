//! Pre-filter atoms and rewrite templates for a regex matching front end.
//!
//! Two independent, stateless text transformations:
//!
//! * atom extraction: a partial scan of a regex-like pattern that collects
//!   literal substrings ("atoms") usable as a cheap pre-filter before the
//!   real matching engine runs (see [`extract`]);
//! * rewrite templating: operations over substitution templates that refer
//!   to capture groups with a single-digit backreference `\N`
//!   (see [`max_backreference`], [`validate`], [`convert_to_host_syntax`]
//!   and [`expand`]).
//!
//! Both operate purely on in-memory text; compiling and running patterns is
//! the concern of the surrounding engine, for which [`Options`] carries the
//! compilation limits.

pub mod atom_set;
pub mod classes;
pub mod extract;
pub mod groups;
pub mod options;
pub mod rewrite;
pub mod substr;

pub use classes::char_class_expansion;
pub use classes::connection;
pub use extract::extract;
pub use extract::extract_lowercased;
pub use extract::ExtractError;
pub use groups::group_multiple_selection;
pub use options::Options;
pub use rewrite::convert_to_host_syntax;
pub use rewrite::expand;
pub use rewrite::max_backreference;
pub use rewrite::rure_max_submatch_internal;
pub use rewrite::validate;
pub use rewrite::RewriteError;
