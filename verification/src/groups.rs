//! Parenthesized alternations: `(a|b|c)` yields its branches as candidate
//! atoms, length-filtered and absorption-deduplicated within the group.
//!
//! The branches are sorted by ascending length (stably, keeping scan
//! order among equal lengths), then any branch that occurs inside a
//! later, longer survivor is dropped.

use vstd::prelude::*;

use crate::atom_set::atoms_long_enough;
use crate::atom_set::atoms_wf;
use crate::substr::is_substr;
use crate::substr::lemma_substr_refl;
use crate::substr::lemma_substr_same_len;
use crate::substr::str_contains;

verus! {

/// The branch texts of a group span, from position `i` on, given the
/// pending branch `tmp` and the branches `acc` already closed: `(` is
/// skipped, `|` and `)` close the pending branch (kept when it has at
/// least length `min`), every other character extends it.  A branch left
/// open at the end of the span is discarded.
pub open spec fn group_branches(
    s: Seq<char>,
    i: int,
    min: int,
    tmp: Seq<char>,
    acc: Seq<Seq<char>>,
) -> Seq<Seq<char>>
    decreases s.len() - i,
{
    if i >= s.len() {
        acc
    } else if s[i] == '(' {
        group_branches(s, i + 1, min, tmp, acc)
    } else if s[i] == '|' || s[i] == ')' {
        let acc2 = if tmp.len() >= min {
            acc.push(tmp)
        } else {
            acc
        };
        group_branches(s, i + 1, min, Seq::empty(), acc2)
    } else {
        group_branches(s, i + 1, min, tmp.push(s[i]), acc)
    }
}

/// Stable insertion into a length-sorted sequence: `x` is placed after
/// every entry of no greater length.
pub open spec fn insert_by_len(sorted: Seq<Seq<char>>, x: Seq<char>) -> Seq<Seq<char>>
    decreases sorted.len(),
{
    if sorted.len() == 0 {
        seq![x]
    } else if sorted.last().len() <= x.len() {
        sorted.push(x)
    } else {
        insert_by_len(sorted.drop_last(), x).push(sorted.last())
    }
}

/// Stable sort by ascending length: entries of equal length keep their
/// relative order.
pub open spec fn sort_by_len(s: Seq<Seq<char>>) -> Seq<Seq<char>>
    decreases s.len(),
{
    if s.len() == 0 {
        s
    } else {
        insert_by_len(sort_by_len(s.drop_last()), s.last())
    }
}

/// Ascending by length.
pub open spec fn sorted_by_len(s: Seq<Seq<char>>) -> bool {
    forall|i: int, j: int|
        0 <= i <= j < s.len() ==> (#[trigger] s[i]).len() <= (#[trigger] s[j]).len()
}

/// Absorption within a group, from position `i` on: a candidate that
/// occurs inside a later candidate is dropped, the rest keep their order.
pub open spec fn absorb_from(s: Seq<Seq<char>>, i: int) -> Seq<Seq<char>>
    decreases s.len() - i,
{
    if i >= s.len() {
        Seq::empty()
    } else {
        let rest = absorb_from(s, i + 1);
        if exists|j: int| i < j < s.len() && is_substr(s[i], #[trigger] s[j]) {
            rest
        } else {
            seq![s[i]] + rest
        }
    }
}

/// What a group span yields: its branches of at least the minimum
/// length, sorted by ascending length, with absorbed branches dropped.
pub open spec fn spec_group_selection(s: Seq<char>, min: int) -> Seq<Seq<char>> {
    absorb_from(sort_by_len(group_branches(s, 0, min, Seq::empty(), Seq::empty())), 0)
}

/// Every branch the split keeps has at least the minimum length.
proof fn lemma_branches_long(s: Seq<char>, i: int, min: int, tmp: Seq<char>, acc: Seq<Seq<char>>)
    requires
        atoms_long_enough(acc, min),
    ensures
        atoms_long_enough(group_branches(s, i, min, tmp, acc), min),
    decreases s.len() - i,
{
    if i >= s.len() {
    } else if s[i] == '(' {
        lemma_branches_long(s, i + 1, min, tmp, acc);
    } else if s[i] == '|' || s[i] == ')' {
        let acc2 = if tmp.len() >= min {
            acc.push(tmp)
        } else {
            acc
        };
        assert(atoms_long_enough(acc2, min)) by {
            assert(forall|p: int| 0 <= p < acc.len() ==> acc2[p] == #[trigger] acc[p]);
        }
        lemma_branches_long(s, i + 1, min, Seq::empty(), acc2);
    } else {
        lemma_branches_long(s, i + 1, min, tmp.push(s[i]), acc);
    }
}

/// Stable insertion keeps the sequence sorted, its entries drawn from
/// the old entries plus `x`.
proof fn lemma_insert_by_len_props(sorted: Seq<Seq<char>>, x: Seq<char>)
    requires
        sorted_by_len(sorted),
    ensures
        sorted_by_len(insert_by_len(sorted, x)),
        insert_by_len(sorted, x).len() == sorted.len() + 1,
        forall|p: int|
            0 <= p < insert_by_len(sorted, x).len() ==> #[trigger] insert_by_len(sorted, x)[p]
                == x || sorted.contains(insert_by_len(sorted, x)[p]),
    decreases sorted.len(),
{
    let res = insert_by_len(sorted, x);
    if sorted.len() == 0 {
    } else if sorted.last().len() <= x.len() {
        assert forall|i: int, j: int| 0 <= i <= j < res.len() implies (#[trigger] res[i]).len()
            <= (#[trigger] res[j]).len() by {
            if j == res.len() - 1 && i < j {
                assert(sorted[i].len() <= sorted[sorted.len() - 1].len());
            }
        }
    } else {
        let pre = sorted.drop_last();
        assert(forall|p: int| 0 <= p < pre.len() ==> pre[p] == #[trigger] sorted[p]);
        lemma_insert_by_len_props(pre, x);
        let inner = insert_by_len(pre, x);
        assert forall|p: int|
            0 <= p < res.len() implies #[trigger] res[p] == x || sorted.contains(res[p]) by {
            if p < inner.len() {
                if inner[p] != x {
                    let q = choose|q: int| 0 <= q < pre.len() && #[trigger] pre[q] == inner[p];
                    assert(sorted[q] == res[p]);
                }
            } else {
                assert(sorted[sorted.len() - 1] == res[p]);
            }
        }
        assert forall|i: int, j: int| 0 <= i <= j < res.len() implies (#[trigger] res[i]).len()
            <= (#[trigger] res[j]).len() by {
            if j == res.len() - 1 && i < j {
                if inner[i] == x {
                } else {
                    let q = choose|q: int| 0 <= q < pre.len() && #[trigger] pre[q] == inner[i];
                    assert(sorted[q].len() <= sorted[sorted.len() - 1].len());
                }
            }
        }
    }
}

/// The sort is ascending by length and keeps entries and their lengths.
proof fn lemma_sort_by_len_props(s: Seq<Seq<char>>, min: int)
    ensures
        sorted_by_len(sort_by_len(s)),
        sort_by_len(s).len() == s.len(),
        atoms_long_enough(s, min) ==> atoms_long_enough(sort_by_len(s), min),
        forall|p: int|
            0 <= p < sort_by_len(s).len() ==> s.contains(#[trigger] sort_by_len(s)[p]),
    decreases s.len(),
{
    if s.len() > 0 {
        let pre = s.drop_last();
        assert(forall|p: int| 0 <= p < pre.len() ==> pre[p] == #[trigger] s[p]);
        lemma_sort_by_len_props(pre, min);
        lemma_insert_by_len_props(sort_by_len(pre), s.last());
        let res = sort_by_len(s);
        assert forall|p: int| 0 <= p < res.len() implies s.contains(#[trigger] res[p]) by {
            if res[p] == s.last() {
                assert(s[s.len() - 1] == res[p]);
            } else {
                assert(sort_by_len(pre).contains(res[p]));
                let q0 = choose|q0: int|
                    0 <= q0 < sort_by_len(pre).len() && #[trigger] sort_by_len(pre)[q0] == res[p];
                let q = choose|q: int| 0 <= q < pre.len() && #[trigger] pre[q] == res[p];
                assert(s[q] == res[p]);
            }
        }
        if atoms_long_enough(s, min) {
            assert(atoms_long_enough(pre, min));
            assert forall|p: int| 0 <= p < res.len() implies (#[trigger] res[p]).len() >= min by {
                if res[p] != s.last() {
                    let q = choose|q: int| 0 <= q < s.len() && #[trigger] s[q] == res[p];
                } else {
                    assert(s[s.len() - 1].len() >= min);
                }
            }
        }
    }
}

/// On a length-sorted input, absorption leaves a well-formed collection
/// whose entries all come from the input at or after position `i`.
proof fn lemma_absorb_from_wf(s: Seq<Seq<char>>, i: int, min: int)
    requires
        sorted_by_len(s),
        atoms_long_enough(s, min),
        0 <= i,
    ensures
        atoms_wf(absorb_from(s, i), min),
        forall|p: int|
            0 <= p < absorb_from(s, i).len() ==> exists|j: int|
                i <= j < s.len() && s[j] == #[trigger] absorb_from(s, i)[p],
    decreases s.len() - i,
{
    if i < s.len() {
        lemma_absorb_from_wf(s, i + 1, min);
        let rest = absorb_from(s, i + 1);
        let res = absorb_from(s, i);
        if !(exists|j: int| i < j < s.len() && is_substr(s[i], #[trigger] s[j])) {
            assert(res == seq![s[i]] + rest);
            assert(res[0] == s[i]);
            assert forall|p: int|
                0 <= p < res.len() implies exists|j: int|
                i <= j < s.len() && s[j] == #[trigger] res[p] by {
                if p > 0 {
                    assert(rest[p - 1] == res[p]);
                    let j = choose|j: int|
                        i + 1 <= j < s.len() && #[trigger] s[j] == rest[p - 1];
                    assert(s[j] == res[p]);
                }
            }
            assert forall|p: int, q: int|
                0 <= p < res.len() && 0 <= q < res.len() && p != q implies !is_substr(
                res[p],
                res[q],
            ) by {
                if p > 0 && q > 0 {
                    assert(!is_substr(rest[p - 1], rest[q - 1]));
                } else if p == 0 {
                    let j = choose|j: int|
                        i + 1 <= j < s.len() && #[trigger] s[j] == rest[q - 1];
                    assert(!is_substr(s[i], s[j]));
                    assert(res[q] == s[j]);
                } else {
                    let j = choose|j: int|
                        i + 1 <= j < s.len() && #[trigger] s[j] == rest[p - 1];
                    if is_substr(res[p], res[q]) {
                        assert(is_substr(s[j], s[i]));
                        assert(s[i].len() <= s[j].len());
                        assert(s[j].len() <= s[i].len());
                        lemma_substr_same_len(s[j], s[i]);
                        lemma_substr_refl(s[i]);
                        assert(is_substr(s[i], s[j]));
                        assert(false);
                    }
                }
            }
        }
    }
}

/// The atoms a group yields satisfy the collection invariant: each has
/// at least the minimum length, and none occurs inside another.
pub proof fn lemma_group_selection_wf(s: Seq<char>, min: int)
    ensures
        atoms_wf(spec_group_selection(s, min), min),
{
    let branches = group_branches(s, 0, min, Seq::empty(), Seq::empty());
    lemma_branches_long(s, 0, min, Seq::empty(), Seq::empty());
    lemma_sort_by_len_props(branches, min);
    lemma_absorb_from_wf(sort_by_len(branches), 0, min);
}

/// Splits a group span into its branch texts of at least the minimum
/// length.
#[verifier::loop_isolation(false)]
fn branch_split(part: &str, min: usize) -> (r: Vec<String>)
    ensures
        r.deep_view() == group_branches(part@, 0, min as int, Seq::empty(), Seq::empty()),
{
    let ghost s = part@;
    let n = part.unicode_len();
    let mut acc: Vec<String> = Vec::new();
    let mut tmp = String::new();
    let mut i: usize = 0;
    proof {
        assert(acc.deep_view() =~= Seq::<Seq<char>>::empty());
        assert(tmp@ =~= Seq::<char>::empty());
    }
    while i < n
        invariant
            i <= n,
            group_branches(s, 0, min as int, Seq::empty(), Seq::empty()) == group_branches(
                s,
                i as int,
                min as int,
                tmp@,
                acc.deep_view(),
            ),
        decreases n - i,
    {
        let ghost acc0 = acc.deep_view();
        let ghost t0 = tmp@;
        let c = part.get_char(i);
        if c == '(' {
        } else if c == '|' || c == ')' {
            if tmp.as_str().unicode_len() >= min {
                acc.push(tmp);
                proof {
                    assert(acc.deep_view() =~= acc0.push(t0));
                }
            }
            tmp = String::new();
            proof {
                assert(tmp@ =~= Seq::<char>::empty());
            }
        } else {
            tmp.append(part.substring_char(i, i + 1));
            proof {
                assert(s.subrange(i as int, i + 1) =~= seq![s[i as int]]);
                assert(tmp@ =~= t0.push(s[i as int]));
            }
        }
        i += 1;
    }
    acc
}

/// Inserts `x` into a vector sorted by ascending character length,
/// after every entry of no greater length.
#[verifier::loop_isolation(false)]
fn sorted_insert(sorted: &mut Vec<String>, x: String)
    ensures
        final(sorted).deep_view() == insert_by_len(old(sorted).deep_view(), x@),
{
    let ghost s0 = old(sorted).deep_view();
    let xl = x.as_str().unicode_len();
    let mut p = sorted.len();
    while p > 0 && sorted[p - 1].as_str().unicode_len() > xl
        invariant
            p <= sorted.len(),
            sorted@ == old(sorted)@,
            forall|q: int| p <= q < s0.len() ==> (#[trigger] s0[q]).len() > x@.len(),
        decreases p,
    {
        p -= 1;
    }
    sorted.insert(p, x);
    proof {
        lemma_insert_by_len_at(s0, x@, p as int);
        assert(final(sorted).deep_view() =~= s0.insert(p as int, x@)) by {
            s0.insert_ensures(p as int, x@);
            old(sorted)@.insert_ensures(p as int, x);
        }
    }
}

/// Stable insertion lands exactly where the scan from the rear stops.
proof fn lemma_insert_by_len_at(s: Seq<Seq<char>>, x: Seq<char>, p: int)
    requires
        0 <= p <= s.len(),
        forall|q: int| p <= q < s.len() ==> (#[trigger] s[q]).len() > x.len(),
        p > 0 ==> s[p - 1].len() <= x.len(),
    ensures
        insert_by_len(s, x) == s.insert(p, x),
    decreases s.len(),
{
    if s.len() == 0 {
        assert(insert_by_len(s, x) =~= s.insert(0, x));
    } else if s.last().len() <= x.len() {
        assert(p == s.len());
        assert(s.push(x) =~= s.insert(p, x));
    } else {
        let pre = s.drop_last();
        assert(forall|q: int| 0 <= q < pre.len() ==> pre[q] == #[trigger] s[q]);
        assert(p < s.len());
        lemma_insert_by_len_at(pre, x, p);
        pre.insert_ensures(p, x);
        s.insert_ensures(p, x);
        assert(insert_by_len(s, x) =~= s.insert(p, x));
    }
}

/// Sorts branch texts by ascending character length, stably.
#[verifier::loop_isolation(false)]
fn sort_branches(v: &Vec<String>) -> (r: Vec<String>)
    ensures
        r.deep_view() == sort_by_len(v.deep_view()),
{
    let ghost dv = v.deep_view();
    let mut out: Vec<String> = Vec::new();
    let mut k: usize = 0;
    while k < v.len()
        invariant
            k <= v.len(),
            out.deep_view() == sort_by_len(dv.subrange(0, k as int)),
        decreases v.len() - k,
    {
        sorted_insert(&mut out, v[k].clone());
        proof {
            let s1 = dv.subrange(0, k + 1);
            assert(s1.drop_last() =~= dv.subrange(0, k as int));
            assert(s1.last() == dv[k as int]);
        }
        k += 1;
    }
    proof {
        assert(dv.subrange(0, dv.len() as int) =~= dv);
    }
    out
}

/// Drops every branch that occurs inside a later branch.
#[verifier::loop_isolation(false)]
fn absorb_branches(v: &Vec<String>) -> (r: Vec<String>)
    ensures
        r.deep_view() == absorb_from(v.deep_view(), 0),
{
    let ghost dv = v.deep_view();
    let n = v.len();
    let mut out: Vec<String> = Vec::new();
    let mut i: usize = 0;
    while i < n
        invariant
            i <= n,
            n == dv.len(),
            absorb_from(dv, 0) == out.deep_view() + absorb_from(dv, i as int),
        decreases n - i,
    {
        let ghost out0 = out.deep_view();
        let mut covered = false;
        let mut j = i + 1;
        while j < n
            invariant
                i < j <= n || (i + 1 >= n && j == i + 1),
                covered ==> exists|q: int|
                    i < q < dv.len() && is_substr(dv[i as int], #[trigger] dv[q]),
                !covered ==> forall|q: int|
                    i < q < j ==> !is_substr(dv[i as int], #[trigger] dv[q]),
            decreases n - j,
        {
            if str_contains(v[j].as_str(), v[i].as_str()) {
                covered = true;
                proof {
                    assert(is_substr(dv[i as int], dv[j as int]));
                }
            }
            j += 1;
        }
        if !covered {
            out.push(v[i].clone());
            proof {
                assert(out.deep_view() =~= out0.push(dv[i as int]));
            }
        }
        proof {
            assert((exists|q: int| i < q < dv.len() && is_substr(dv[i as int], #[trigger] dv[q]))
                == covered);
            if covered {
                assert(out.deep_view() + absorb_from(dv, i + 1) =~= out0 + absorb_from(
                    dv,
                    i as int,
                ));
            } else {
                assert(out.deep_view() + absorb_from(dv, i + 1) =~= out0 + absorb_from(
                    dv,
                    i as int,
                ));
            }
        }
        i += 1;
    }
    proof {
        assert(out.deep_view() + absorb_from(dv, n as int) =~= out.deep_view());
    }
    out
}

/// The candidate atoms of one parenthesized alternation span.
///
/// The span's branches are kept when they have at least the minimum
/// length, sorted by ascending length (stably), and any branch that
/// occurs inside a later, longer survivor is dropped.  The result
/// satisfies the atom-collection invariant.
pub fn group_multiple_selection(part: &str, min_atoms_len: usize) -> (r: Vec<String>)
    ensures
        r.deep_view() == spec_group_selection(part@, min_atoms_len as int),
        atoms_wf(r.deep_view(), min_atoms_len as int),
{
    proof {
        lemma_group_selection_wf(part@, min_atoms_len as int);
    }
    let branches = branch_split(part, min_atoms_len);
    let sorted = sort_branches(&branches);
    absorb_branches(&sorted)
}

} // verus!
