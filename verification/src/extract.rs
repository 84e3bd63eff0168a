//! The atom extractor: a single left-to-right scan of a regex-like
//! pattern that collects literal substrings usable as a cheap pre-filter.
//!
//! The scan keeps three pieces of running state: a pending literal
//! buffer, a pending cross-product list built from character classes, and
//! the output atom collection.  It recognizes only the constructs cheap
//! to reason about locally — concatenation, one-level alternation groups
//! and simple character classes — and disengages on the rest; missed
//! atoms cost the caller speed, never correctness, because the real
//! engine always re-verifies.  Patterns are lower-cased before scanning,
//! so atom matching is case-insensitive.
//!
//! Every forward scan is bounded by the pattern length: an unterminated
//! group, class or repetition span is reported as
//! [`ExtractError::MalformedPattern`] instead of running past the end.

use vstd::prelude::*;

use crate::atom_set::atoms_absorption_free;
use crate::atom_set::atoms_long_enough;
use crate::atom_set::atoms_wf;
use crate::atom_set::insert_all;
use crate::atom_set::insert_atom;
use crate::atom_set::insert_batch;
use crate::atom_set::insert_atom_vec;
use crate::classes::char_class_expansion;
use crate::classes::connection;
use crate::classes::spec_class_chars;
use crate::classes::spec_connection;
use crate::groups::group_multiple_selection;
use crate::groups::spec_group_selection;

verus! {

/// Why a pattern was rejected.
#[derive(Clone, Copy, Debug, PartialEq, Eq, Structural)]
pub enum ExtractError {
    /// A `(`, `[` or `{` span is left unterminated, so the scan would
    /// run past the end of the pattern.
    MalformedPattern,
}

/// The first position at or after `i` holding `c`, if any.
pub open spec fn find_char_from(s: Seq<char>, c: char, i: int) -> Option<int>
    decreases s.len() - i,
{
    if i >= s.len() {
        None
    } else if s[i] == c {
        Some(i)
    } else {
        find_char_from(s, c, i + 1)
    }
}

/// A found position lies in the scanned range and holds the character.
pub proof fn lemma_find_char_from(s: Seq<char>, c: char, i: int)
    ensures
        match find_char_from(s, c, i) {
            Some(j) => i <= j < s.len() && s[j] == c,
            None => true,
        },
    decreases s.len() - i,
{
    if i < s.len() && s[i] != c {
        lemma_find_char_from(s, c, i + 1);
    }
}

/// Each pending cross product extended by the pending literal.
pub open spec fn cross_with_suffix(cross: Seq<Seq<char>>, lit: Seq<char>) -> Seq<Seq<char>> {
    Seq::new(cross.len(), |k: int| cross[k] + lit)
}

/// The scan of pattern `s` from position `i` on, with pending literal
/// `lit`, pending cross products `cross` and the atoms `out` collected so
/// far; `None` when an unterminated construct is found.
///
/// Dispatch on the character at `i`:
///
/// * `(` — the span to the first `)` is handed to the group selection;
///   its candidates are emitted only when the group is followed by the
///   end of the pattern, `.` or `{`.  A `.` after a group that yielded
///   candidates is itself consumed.  The pending state is untouched.
/// * `.` — flushes the pending literal (when long enough and no cross
///   products are pending); pending cross products are emitted with the
///   literal as suffix when both are present.  The literal always
///   clears; the cross products clear only when they were emitted.
/// * `*`, `+` — skipped.
/// * `[` — the span to the first `]`, when followed by `+`, is an
///   unbounded repetition: the pending literal is flushed if long enough
///   and the class is skipped.  Otherwise the class characters combine
///   with the pending literal and cross products into the new pending
///   cross products (a nonempty literal first doubles the pending list
///   with itself as suffix); a class closing the pattern emits them.
/// * `{` — the span to the first `}` is skipped.
/// * `\` — flushes the pending literal if long enough; the escape and
///   the following character are consumed without entering any atom.
/// * anything else extends the pending literal, which is flushed at the
///   end of the pattern when long enough.
pub open spec fn scan(
    s: Seq<char>,
    min: int,
    i: int,
    lit: Seq<char>,
    cross: Seq<Seq<char>>,
    out: Seq<Seq<char>>,
) -> Option<Seq<Seq<char>>>
    decreases s.len() + 1 - i,
    via scan_decreases
{
    if i >= s.len() {
        Some(out)
    } else if s[i] == '(' {
        match find_char_from(s, ')', i) {
            None => None,
            Some(j) => {
                let cands = spec_group_selection(s.subrange(i, j + 1), min);
                let emit = j + 1 >= s.len() || s[j + 1] == '.' || s[j + 1] == '{';
                let out2 = if emit {
                    insert_all(out, cands, min)
                } else {
                    out
                };
                let i2 = if j + 1 < s.len() && s[j + 1] == '.' && cands.len() > 0 {
                    j + 2
                } else {
                    j + 1
                };
                scan(s, min, if i2 <= s.len() { i2 } else { s.len() as int }, lit, cross, out2)
            },
        }
    } else if s[i] == '.' {
        let out2 = if lit.len() >= min && cross.len() == 0 {
            insert_atom(out, lit, min)
        } else {
            out
        };
        let out3 = if cross.len() > 0 && lit.len() > 0 {
            insert_all(out2, cross_with_suffix(cross, lit), min)
        } else {
            out2
        };
        let cross2 = if cross.len() > 0 && lit.len() > 0 {
            Seq::empty()
        } else {
            cross
        };
        scan(s, min, i + 1, Seq::empty(), cross2, out3)
    } else if s[i] == '*' || s[i] == '+' {
        scan(s, min, i + 1, lit, cross, out)
    } else if s[i] == '[' {
        match find_char_from(s, ']', i) {
            None => None,
            Some(j) => {
                if j + 1 < s.len() && s[j + 1] == '+' {
                    let out2 = if lit.len() >= min {
                        insert_atom(out, lit, min)
                    } else {
                        out
                    };
                    let lit2 = if lit.len() >= min {
                        Seq::empty()
                    } else {
                        lit
                    };
                    scan(s, min, j + 2, lit2, cross, out2)
                } else {
                    let cross1 = if lit.len() > 0 && cross.len() > 0 {
                        cross + cross_with_suffix(cross, lit)
                    } else {
                        cross
                    };
                    let lit1 = if lit.len() > 0 && cross.len() > 0 {
                        Seq::empty()
                    } else {
                        lit
                    };
                    let cls = spec_class_chars(s.subrange(i, j + 1));
                    let cross2 = spec_connection(lit1, cross1, cls);
                    let out2 = if j == s.len() - 1 && cross2.len() > 0 {
                        insert_all(out, cross2, min)
                    } else {
                        out
                    };
                    scan(s, min, j + 1, Seq::empty(), cross2, out2)
                }
            },
        }
    } else if s[i] == '{' {
        match find_char_from(s, '}', i) {
            None => None,
            Some(j) => scan(s, min, j + 1, lit, cross, out),
        }
    } else if s[i] == '\\' {
        let out2 = if lit.len() >= min {
            insert_atom(out, lit, min)
        } else {
            out
        };
        let lit2 = if lit.len() >= min {
            Seq::empty()
        } else {
            lit
        };
        scan(s, min, if i + 2 <= s.len() { i + 2 } else { s.len() as int }, lit2, cross, out2)
    } else {
        let lit2 = lit.push(s[i]);
        if i == s.len() - 1 && lit2.len() >= min {
            scan(s, min, i + 1, Seq::empty(), cross, insert_atom(out, lit2, min))
        } else {
            scan(s, min, i + 1, lit2, cross, out)
        }
    }
}

#[via_fn]
proof fn scan_decreases(
    s: Seq<char>,
    min: int,
    i: int,
    lit: Seq<char>,
    cross: Seq<Seq<char>>,
    out: Seq<Seq<char>>,
) {
    lemma_find_char_from(s, ')', i);
    lemma_find_char_from(s, ']', i);
    lemma_find_char_from(s, '}', i);
}

/// What extraction yields on an already lower-cased pattern: the scan
/// from the start with empty pending state.
pub open spec fn spec_extract(s: Seq<char>, min: int) -> Option<Seq<Seq<char>>> {
    scan(s, min, 0, Seq::empty(), Seq::empty(), Seq::empty())
}

/// The first position at or after `from` holding `c`, if any.
#[verifier::loop_isolation(false)]
fn find_char(pattern: &str, from: usize, c: char) -> (r: Option<usize>)
    ensures
        match r {
            Some(j) => find_char_from(pattern@, c, from as int) == Some(j as int) && from <= j
                < pattern@.len(),
            None => find_char_from(pattern@, c, from as int) is None,
        },
{
    let n = pattern.unicode_len();
    let mut i = from;
    while i < n
        invariant
            from <= i,
            i <= n || i == from,
            find_char_from(pattern@, c, from as int) == find_char_from(pattern@, c, i as int),
        decreases n - i,
    {
        if pattern.get_char(i) == c {
            return Some(i);
        }
        i += 1;
    }
    None
}

/// Extracts pre-filter atoms from an already lower-cased pattern.
///
/// The result is exactly what the bounded scan yields; every atom has at
/// least `min_len` characters, and no atom is a substring of a different
/// atom in the result.  The only failure is a `(`, `[` or `{` span left
/// unterminated.
#[verifier::loop_isolation(false)]
pub fn extract_lowercased(pattern: &str, min_len: usize) -> (r: Result<Vec<String>, ExtractError>)
    ensures
        match r {
            Ok(atoms) => spec_extract(pattern@, min_len as int) == Some(atoms.deep_view())
                && atoms_long_enough(atoms.deep_view(), min_len as int) && atoms_absorption_free(
                atoms.deep_view(),
            ),
            Err(e) => spec_extract(pattern@, min_len as int) is None && e
                == ExtractError::MalformedPattern,
        },
{
    let ghost s = pattern@;
    let ghost min = min_len as int;
    let n = pattern.unicode_len();
    let mut lit = String::new();
    let mut cross: Vec<String> = Vec::new();
    let mut out: Vec<String> = Vec::new();
    let mut i: usize = 0;
    proof {
        assert(lit@ =~= Seq::<char>::empty());
        assert(cross.deep_view() =~= Seq::<Seq<char>>::empty());
        assert(out.deep_view() =~= Seq::<Seq<char>>::empty());
    }
    while i < n
        invariant
            i <= n,
            spec_extract(s, min) == scan(s, min, i as int, lit@, cross.deep_view(), out.deep_view()),
            atoms_wf(out.deep_view(), min),
        decreases n - i,
    {
        let c = pattern.get_char(i);
        if c == '(' {
            match find_char(pattern, i, ')') {
                None => {
                    return Err(ExtractError::MalformedPattern);
                },
                Some(j) => {
                    proof {
                        lemma_find_char_from(s, ')', i as int);
                    }
                    let part = pattern.substring_char(i, j + 1);
                    let cands = group_multiple_selection(part, min_len);
                    let mut emit = true;
                    if j + 1 < n {
                        let c2 = pattern.get_char(j + 1);
                        emit = c2 == '.' || c2 == '{';
                    }
                    if emit {
                        insert_batch(&mut out, &cands, min_len);
                    }
                    let mut next = j + 1;
                    if j + 1 < n {
                        if pattern.get_char(j + 1) == '.' && cands.len() > 0 {
                            next = j + 2;
                        }
                    }
                    i = next;
                },
            }
            continue;
        }
        if c == '.' {
            let ghost lit0 = lit@;
            let ghost cross0 = cross.deep_view();
            if lit.as_str().unicode_len() >= min_len && cross.len() == 0 {
                insert_atom_vec(&mut out, lit.clone(), min_len);
            }
            if cross.len() > 0 && !lit.as_str().is_empty() {
                let mut items: Vec<String> = Vec::new();
                let mut k: usize = 0;
                proof {
                    assert(items.deep_view() =~= cross_with_suffix(cross0, lit0).subrange(0, 0));
                }
                while k < cross.len()
                    invariant
                        k <= cross.len(),
                        lit@ == lit0,
                        cross.deep_view() == cross0,
                        items.deep_view() == cross_with_suffix(cross0, lit0).subrange(
                            0,
                            k as int,
                        ),
                    decreases cross.len() - k,
                {
                    let mut item = cross[k].clone();
                    item.append(lit.as_str());
                    items.push(item);
                    proof {
                        assert(items.deep_view() =~= cross_with_suffix(cross0, lit0).subrange(
                            0,
                            k + 1,
                        ));
                    }
                    k += 1;
                }
                proof {
                    assert(cross_with_suffix(cross0, lit0).subrange(
                        0,
                        cross_with_suffix(cross0, lit0).len() as int,
                    ) =~= cross_with_suffix(cross0, lit0));
                }
                insert_batch(&mut out, &items, min_len);
                cross = Vec::new();
                proof {
                    assert(cross.deep_view() =~= Seq::<Seq<char>>::empty());
                }
            }
            lit = String::new();
            proof {
                assert(lit@ =~= Seq::<char>::empty());
            }
            i += 1;
            continue;
        }
        if c == '*' || c == '+' {
            i += 1;
            continue;
        }
        if c == '[' {
            match find_char(pattern, i, ']') {
                None => {
                    return Err(ExtractError::MalformedPattern);
                },
                Some(j) => {
                    proof {
                        lemma_find_char_from(s, ']', i as int);
                    }
                    let mut plus = false;
                    if j + 1 < n {
                        plus = pattern.get_char(j + 1) == '+';
                    }
                    if plus {
                        if lit.as_str().unicode_len() >= min_len {
                            insert_atom_vec(&mut out, lit, min_len);
                            lit = String::new();
                            proof {
                                assert(lit@ =~= Seq::<char>::empty());
                            }
                        }
                        i = j + 2;
                        continue;
                    }
                    let ghost lit0 = lit@;
                    let ghost cross0 = cross.deep_view();
                    if !lit.as_str().is_empty() && cross.len() > 0 {
                        let mut added: Vec<String> = Vec::new();
                        let mut k: usize = 0;
                        proof {
                            assert(added.deep_view() =~= cross_with_suffix(
                                cross0,
                                lit0,
                            ).subrange(0, 0));
                        }
                        while k < cross.len()
                            invariant
                                k <= cross.len(),
                                lit@ == lit0,
                                cross.deep_view() == cross0,
                                added.deep_view() == cross_with_suffix(cross0, lit0).subrange(
                                    0,
                                    k as int,
                                ),
                            decreases cross.len() - k,
                        {
                            let mut item = cross[k].clone();
                            item.append(lit.as_str());
                            added.push(item);
                            proof {
                                assert(added.deep_view() =~= cross_with_suffix(
                                    cross0,
                                    lit0,
                                ).subrange(0, k + 1));
                            }
                            k += 1;
                        }
                        cross.append(&mut added);
                        proof {
                            assert(cross_with_suffix(cross0, lit0).subrange(
                                0,
                                cross_with_suffix(cross0, lit0).len() as int,
                            ) =~= cross_with_suffix(cross0, lit0));
                            assert(cross.deep_view() =~= cross0 + cross_with_suffix(
                                cross0,
                                lit0,
                            ));
                        }
                        lit = String::new();
                        proof {
                            assert(lit@ =~= Seq::<char>::empty());
                        }
                    }
                    let part = pattern.substring_char(i, j + 1);
                    let cls = char_class_expansion(part);
                    cross = connection(lit.as_str(), cross, cls);
                    lit = String::new();
                    proof {
                        assert(lit@ =~= Seq::<char>::empty());
                    }
                    if j + 1 == n && cross.len() > 0 {
                        insert_batch(&mut out, &cross, min_len);
                    }
                    i = j + 1;
                },
            }
            continue;
        }
        if c == '{' {
            match find_char(pattern, i, '}') {
                None => {
                    return Err(ExtractError::MalformedPattern);
                },
                Some(j) => {
                    proof {
                        lemma_find_char_from(s, '}', i as int);
                    }
                    i = j + 1;
                },
            }
            continue;
        }
        if c == '\\' {
            if lit.as_str().unicode_len() >= min_len {
                insert_atom_vec(&mut out, lit, min_len);
                lit = String::new();
                proof {
                    assert(lit@ =~= Seq::<char>::empty());
                }
            }
            i += 1;
            if i < n {
                i += 1;
            }
            continue;
        }
        let ghost lit0 = lit@;
        lit.append(pattern.substring_char(i, i + 1));
        proof {
            assert(s.subrange(i as int, i + 1) =~= seq![s[i as int]]);
            assert(lit@ =~= lit0.push(s[i as int]));
        }
        if i + 1 == n && lit.as_str().unicode_len() >= min_len {
            insert_atom_vec(&mut out, lit, min_len);
            lit = String::new();
            proof {
                assert(lit@ =~= Seq::<char>::empty());
            }
        }
        i += 1;
    }
    Ok(out)
}

/// What lower-casing a piece of text yields; the result depends on the
/// characters alone.
pub uninterp spec fn lower_of(s: Seq<char>) -> Seq<char>;

/// Relies on str::to_lowercase: the lower-case equivalent of the text,
/// a function of its characters alone.
#[verifier::external_body]
fn lowercase(s: &str) -> (r: String)
    ensures
        r@ == lower_of(s@),
{
    s.to_lowercase()
}

/// Extracts pre-filter atoms from a pattern.
///
/// The pattern is lower-cased, then scanned as [`extract_lowercased`]
/// does: every atom of the result has at least `min_len` characters, no
/// atom is a substring of a different atom, and the only failure is an
/// unterminated `(`, `[` or `{` span.
pub fn extract(pattern: &str, min_len: usize) -> (r: Result<Vec<String>, ExtractError>)
    ensures
        match r {
            Ok(atoms) => spec_extract(lower_of(pattern@), min_len as int) == Some(
                atoms.deep_view(),
            ) && atoms_long_enough(atoms.deep_view(), min_len as int) && atoms_absorption_free(
                atoms.deep_view(),
            ),
            Err(e) => spec_extract(lower_of(pattern@), min_len as int) is None && e
                == ExtractError::MalformedPattern,
        },
{
    let lowered = lowercase(pattern);
    extract_lowercased(lowered.as_str(), min_len)
}

} // verus!
