//! Rewrite templating: substitution templates with single-digit
//! backreferences.
//!
//! A template is a sequence of literal characters interleaved with
//! backreference tokens `\N` (`N` a single ASCII digit) and escaped
//! backslashes `\\`.  Four operations share this scanning discipline:
//!
//! * [`max_backreference`] reports the highest digit that immediately
//!   follows a backslash;
//! * [`validate`] checks a template against a known capture count;
//! * [`convert_to_host_syntax`] rewrites `\N` tokens into the host
//!   placeholder form `${N}`;
//! * [`expand`] substitutes captured texts directly into the template.
//!
//! [`convert_to_host_syntax`] and [`expand`] deliberately diverge on the
//! escaped backslash `\\`: the conversion drops it, the expansion keeps a
//! literal backslash.

use vstd::prelude::*;

verus! {

/// Why a rewrite template was rejected.
#[derive(Clone, Copy, Debug, PartialEq, Eq, Structural)]
pub enum RewriteError {
    /// The template ends with an unresolved `\`.
    TrailingEscape,
    /// A `\` is followed by a character that is neither a digit nor `\`.
    InvalidEscapeChar,
    /// A backreference names an index with no supplied capture.
    BackreferenceOutOfRange,
}

/// Whether `c` is an ASCII decimal digit.
pub open spec fn is_digit(c: char) -> bool {
    48 <= c as int <= 57
}

/// The numeric value of an ASCII decimal digit.
pub open spec fn digit_val(c: char) -> int {
    c as int - 48
}

/// Executable counterpart of [`is_digit`].
fn digit_check(c: char) -> (r: bool)
    ensures
        r == is_digit(c),
{
    let u = c as u32;
    48 <= u && u <= 57
}

/// The largest digit value among the `\N` pairs of `s` at positions at or
/// after `i`, or 0 when there is none.  Every backslash immediately
/// followed by a digit counts, even one that itself follows a backslash.
pub open spec fn max_backref_from(s: Seq<char>, i: int) -> int
    decreases s.len() - i,
{
    if i + 1 >= s.len() {
        0
    } else {
        let here = if s[i] == '\\' && is_digit(s[i + 1]) {
            digit_val(s[i + 1])
        } else {
            0
        };
        let rest = max_backref_from(s, i + 1);
        if here >= rest {
            here
        } else {
            rest
        }
    }
}

/// Every referenced index is a single digit, so the scan stays in 0..=9.
proof fn lemma_max_backref_bounds(s: Seq<char>, i: int)
    ensures
        0 <= max_backref_from(s, i) <= 9,
    decreases s.len() - i,
{
    if i + 1 < s.len() {
        lemma_max_backref_bounds(s, i + 1);
    }
}

/// The highest capture index referenced by a template.
///
/// Scans for a `\` immediately followed by an ASCII digit and reports the
/// maximum digit seen, or 0 when the template references nothing.  Only
/// the character immediately after a backslash is considered; there are no
/// multi-digit indices.
pub fn max_backreference(template: &str) -> (r: i32)
    ensures
        r == max_backref_from(template@, 0),
        0 <= r <= 9,
{
    let ghost s = template@;
    let n = template.unicode_len();
    let mut best: i32 = 0;
    let mut i: usize = 0;
    proof {
        lemma_max_backref_bounds(s, 0);
    }
    while i + 1 < n
        invariant
            n == s.len(),
            template@ == s,
            i + 1 <= n || i == 0,
            0 <= best <= 9,
            max_backref_from(s, 0) == if best >= max_backref_from(s, i as int) {
                best as int
            } else {
                max_backref_from(s, i as int)
            },
        decreases n - i,
    {
        let c = template.get_char(i);
        if c == '\\' {
            let c2 = template.get_char(i + 1);
            if digit_check(c2) {
                let d = (c2 as u32 - 48) as i32;
                if d > best {
                    best = d;
                }
            }
        }
        proof {
            lemma_max_backref_bounds(s, i + 1);
        }
        i += 1;
    }
    best
}

/// The highest capture index referenced by a template; same scan as
/// [`max_backreference`], kept under the name the matching front end uses.
pub fn rure_max_submatch_internal(text: &str) -> (r: i32)
    ensures
        r == max_backref_from(text@, 0),
        0 <= r <= 9,
{
    max_backreference(text)
}

/// The outcome of walking a template for validation: `None` when the
/// template is malformed (a trailing `\`, or `\` before a character that
/// is neither a digit nor `\`), otherwise the largest referenced index,
/// with -1 standing for "no reference at all".  An escaped backslash
/// consumes both characters and counts no digit.
pub open spec fn validate_scan(s: Seq<char>, i: int) -> Option<int>
    decreases s.len() - i,
{
    if i >= s.len() {
        Some(-1)
    } else if s[i] != '\\' {
        validate_scan(s, i + 1)
    } else if i + 1 >= s.len() {
        None
    } else if s[i + 1] == '\\' {
        validate_scan(s, i + 2)
    } else if is_digit(s[i + 1]) {
        match validate_scan(s, i + 2) {
            None => None,
            Some(m) => Some(
                if digit_val(s[i + 1]) >= m {
                    digit_val(s[i + 1])
                } else {
                    m
                },
            ),
        }
    } else {
        None
    }
}

/// A successful validation walk reports either -1 (no reference) or a
/// single digit.
proof fn lemma_validate_scan_bounds(s: Seq<char>, i: int)
    ensures
        match validate_scan(s, i) {
            None => true,
            Some(m) => -1 <= m <= 9,
        },
    decreases s.len() - i,
{
    if i >= s.len() {
    } else if s[i] != '\\' {
        lemma_validate_scan_bounds(s, i + 1);
    } else if i + 1 >= s.len() {
    } else {
        lemma_validate_scan_bounds(s, i + 2);
    }
}

/// Whether a template is usable with `capture_count` capture groups.
///
/// The walk fails on a trailing `\` or on `\` before a character that is
/// neither a digit nor `\`; otherwise the template is accepted if and only
/// if the largest referenced index does not exceed `capture_count`.
/// Referencing fewer captures than available is permitted.
pub fn validate(template: &str, capture_count: i32) -> (r: bool)
    ensures
        r == match validate_scan(template@, 0) {
            None => false,
            Some(m) => m <= capture_count,
        },
{
    let ghost s = template@;
    let n = template.unicode_len();
    let mut max_token: i32 = -1;
    let mut i: usize = 0;
    proof {
        lemma_validate_scan_bounds(s, 0);
    }
    while i < n
        invariant
            i <= n,
            n == s.len(),
            template@ == s,
            -1 <= max_token <= 9,
            validate_scan(s, 0) == match validate_scan(s, i as int) {
                None => None::<int>,
                Some(m) => Some(
                    if max_token >= m {
                        max_token as int
                    } else {
                        m
                    },
                ),
            },
        decreases n - i,
    {
        let c = template.get_char(i);
        if c != '\\' {
            i += 1;
            continue;
        }
        i += 1;
        if i == n {
            return false;
        }
        let c2 = template.get_char(i);
        if c2 == '\\' {
            i += 1;
            continue;
        }
        if !digit_check(c2) {
            return false;
        }
        let d = (c2 as u32 - 48) as i32;
        i += 1;
        if d > max_token {
            max_token = d;
        }
    }
    max_token <= capture_count
}

/// The host-syntax conversion of the template from position `i` on: every
/// `\` + digit pair becomes `${digit}`, any other backslash consumes the
/// following character (if any) and contributes nothing, and every other
/// character is copied.
pub open spec fn convert_from(s: Seq<char>, i: int) -> Seq<char>
    decreases s.len() - i,
{
    if i >= s.len() {
        Seq::empty()
    } else if s[i] != '\\' {
        seq![s[i]] + convert_from(s, i + 1)
    } else if i + 1 >= s.len() {
        Seq::empty()
    } else if is_digit(s[i + 1]) {
        seq!['$', '{', s[i + 1], '}'] + convert_from(s, i + 2)
    } else {
        convert_from(s, i + 2)
    }
}

/// The template rewritten into the host placeholder syntax.
///
/// Every `\` + digit pair becomes `${digit}`.  A `\` not followed by a
/// digit — a trailing one, or one starting an escaped backslash —
/// contributes nothing to the output; in particular `\\` is dropped, not
/// passed through (the deliberate asymmetry with [`expand`]).
pub fn convert_to_host_syntax(template: &str) -> (r: String)
    ensures
        r@ == convert_from(template@, 0),
{
    let ghost s = template@;
    let n = template.unicode_len();
    let mut out = String::new();
    let mut i: usize = 0;
    while i < n
        invariant
            i <= n,
            n == s.len(),
            template@ == s,
            convert_from(s, 0) == out@ + convert_from(s, i as int),
        decreases n - i,
    {
        let c = template.get_char(i);
        if c != '\\' {
            out.append(template.substring_char(i, i + 1));
            proof {
                assert(s.subrange(i as int, i + 1) =~= seq![s[i as int]]);
                assert(out@ + convert_from(s, i + 1) =~= convert_from(s, 0));
            }
            i += 1;
            continue;
        }
        i += 1;
        if i < n {
            let c2 = template.get_char(i);
            if digit_check(c2) {
                out.append("${");
                out.append(template.substring_char(i, i + 1));
                out.append("}");
                proof {
                    reveal_strlit("${");
                    reveal_strlit("}");
                    assert(s.subrange(i as int, i + 1) =~= seq![s[i as int]]);
                    assert(out@ + convert_from(s, i + 1) =~= convert_from(s, 0));
                }
            }
            i += 1;
        }
        proof {
            assert(convert_from(s, 0) == out@ + convert_from(s, i as int));
        }
    }
    proof {
        assert(convert_from(s, n as int) =~= Seq::<char>::empty());
        assert(out@ =~= out@ + convert_from(s, n as int));
    }
    out
}

/// The expansion of the template from position `i` on against the
/// captured texts `caps`, or the first failure in scan order: a literal
/// character is copied, `\` + digit `d` appends `caps[d]` (out-of-range
/// `d` fails), `\\` appends a literal backslash, and any other use of `\`
/// is malformed.
pub open spec fn expand_from(s: Seq<char>, caps: Seq<Seq<char>>, i: int) -> Result<
    Seq<char>,
    RewriteError,
>
    decreases s.len() - i,
{
    if i >= s.len() {
        Ok(Seq::empty())
    } else if s[i] != '\\' {
        match expand_from(s, caps, i + 1) {
            Ok(t) => Ok(seq![s[i]] + t),
            Err(e) => Err(e),
        }
    } else if i + 1 >= s.len() {
        Err(RewriteError::TrailingEscape)
    } else if is_digit(s[i + 1]) {
        if digit_val(s[i + 1]) >= caps.len() {
            Err(RewriteError::BackreferenceOutOfRange)
        } else {
            match expand_from(s, caps, i + 2) {
                Ok(t) => Ok(caps[digit_val(s[i + 1])] + t),
                Err(e) => Err(e),
            }
        }
    } else if s[i + 1] == '\\' {
        match expand_from(s, caps, i + 2) {
            Ok(t) => Ok(seq!['\\'] + t),
            Err(e) => Err(e),
        }
    } else {
        Err(RewriteError::InvalidEscapeChar)
    }
}

/// The template expanded against captured texts.
///
/// Literal characters are copied verbatim; `\` + digit `d` appends the
/// capture at index `d` (an empty capture contributes nothing; a `d` with
/// no supplied capture fails with `BackreferenceOutOfRange`); `\\` appends
/// a literal backslash; a trailing `\` or a `\` before any other
/// character fails.
pub fn expand(template: &str, captures: &Vec<String>) -> (r: Result<String, RewriteError>)
    ensures
        match r {
            Ok(out) => expand_from(template@, captures.deep_view(), 0) == Ok::<
                Seq<char>,
                RewriteError,
            >(out@),
            Err(e) => expand_from(template@, captures.deep_view(), 0) == Err::<
                Seq<char>,
                RewriteError,
            >(e),
        },
{
    let ghost s = template@;
    let ghost caps = captures.deep_view();
    let n = template.unicode_len();
    let mut out = String::new();
    let mut i: usize = 0;
    while i < n
        invariant
            i <= n,
            n == s.len(),
            template@ == s,
            caps == captures.deep_view(),
            expand_from(s, caps, 0) == match expand_from(s, caps, i as int) {
                Ok(t) => Ok::<Seq<char>, RewriteError>(out@ + t),
                Err(e) => Err::<Seq<char>, RewriteError>(e),
            },
        decreases n - i,
    {
        let c = template.get_char(i);
        if c != '\\' {
            out.append(template.substring_char(i, i + 1));
            proof {
                assert(s.subrange(i as int, i + 1) =~= seq![s[i as int]]);
                assert forall|t: Seq<char>| out@ + t =~= (out@ + t) by {}
            }
            i += 1;
            proof {
                if expand_from(s, caps, i as int) is Ok {
                    assert(out@ + expand_from(s, caps, i as int)->Ok_0 =~= expand_from(
                        s,
                        caps,
                        0,
                    )->Ok_0);
                }
            }
            continue;
        }
        if i + 1 == n {
            return Err(RewriteError::TrailingEscape);
        }
        let c2 = template.get_char(i + 1);
        if digit_check(c2) {
            let d = (c2 as u32 - 48) as usize;
            if d >= captures.len() {
                return Err(RewriteError::BackreferenceOutOfRange);
            }
            out.append(captures[d].as_str());
            proof {
                assert(caps[d as int] == captures[d as int]@);
            }
        } else if c2 == '\\' {
            out.append("\\");
            proof {
                reveal_strlit("\\");
                assert("\\"@ =~= seq!['\\']);
            }
        } else {
            return Err(RewriteError::InvalidEscapeChar);
        }
        i += 2;
        proof {
            if expand_from(s, caps, i as int) is Ok {
                assert(out@ + expand_from(s, caps, i as int)->Ok_0 =~= expand_from(
                    s,
                    caps,
                    0,
                )->Ok_0);
            }
        }
    }
    proof {
        assert(out@ + Seq::<char>::empty() =~= out@);
    }
    Ok(out)
}

/// A template that contains no backslash expands to itself, whatever
/// captures are supplied: expansion is the identity on backslash-free
/// templates.
pub proof fn lemma_expand_no_backslash(s: Seq<char>, caps: Seq<Seq<char>>)
    requires
        forall|k: int| 0 <= k < s.len() ==> s[k] != '\\',
    ensures
        expand_from(s, caps, 0) == Ok::<Seq<char>, RewriteError>(s),
{
    lemma_expand_no_backslash_from(s, caps, 0);
    assert(s.subrange(0, s.len() as int) =~= s);
}

/// Helper for [`lemma_expand_no_backslash`]: the suffix claim, by
/// induction over the scan.
proof fn lemma_expand_no_backslash_from(s: Seq<char>, caps: Seq<Seq<char>>, i: int)
    requires
        0 <= i <= s.len(),
        forall|k: int| 0 <= k < s.len() ==> s[k] != '\\',
    ensures
        expand_from(s, caps, i) == Ok::<Seq<char>, RewriteError>(
            s.subrange(i, s.len() as int),
        ),
    decreases s.len() - i,
{
    if i >= s.len() {
        assert(s.subrange(i, s.len() as int) =~= Seq::<char>::empty());
    } else {
        lemma_expand_no_backslash_from(s, caps, i + 1);
        assert(seq![s[i]] + s.subrange(i + 1, s.len() as int) =~= s.subrange(
            i,
            s.len() as int,
        ));
    }
}

} // verus!
