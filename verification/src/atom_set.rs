//! The output collection of the atom extractor and its absorption
//! discipline.
//!
//! Atoms are kept in scan order under two invariants: every atom is at
//! least the configured minimum length, and no atom is a substring of a
//! different atom in the collection.  Inserting an atom that is covered
//! by an existing one leaves the collection unchanged; inserting a longer
//! atom removes the entries it covers and appends it.

use vstd::prelude::*;

use crate::substr::is_substr;
use crate::substr::str_contains;

verus! {

/// Every atom has at least the minimum length.
pub open spec fn atoms_long_enough(atoms: Seq<Seq<char>>, min: int) -> bool {
    forall|i: int| 0 <= i < atoms.len() ==> (#[trigger] atoms[i]).len() >= min
}

/// No atom is a substring of a different atom in the collection.
pub open spec fn atoms_absorption_free(atoms: Seq<Seq<char>>) -> bool {
    forall|i: int, j: int|
        0 <= i < atoms.len() && 0 <= j < atoms.len() && i != j ==> !(#[trigger] is_substr(
            atoms[i],
            atoms[j],
        ))
}

/// The atom collection invariant.
pub open spec fn atoms_wf(atoms: Seq<Seq<char>>, min: int) -> bool {
    atoms_long_enough(atoms, min) && atoms_absorption_free(atoms)
}

/// Whether `a` occurs inside some atom already in the collection.
pub open spec fn absorbed(atoms: Seq<Seq<char>>, a: Seq<char>) -> bool {
    exists|i: int| 0 <= i < atoms.len() && is_substr(a, #[trigger] atoms[i])
}

/// The collection with every atom that occurs inside `a` removed, order
/// otherwise kept.
pub open spec fn drop_covered(atoms: Seq<Seq<char>>, a: Seq<char>) -> Seq<Seq<char>>
    decreases atoms.len(),
{
    if atoms.len() == 0 {
        atoms
    } else {
        let rest = drop_covered(atoms.drop_last(), a);
        if is_substr(atoms.last(), a) {
            rest
        } else {
            rest.push(atoms.last())
        }
    }
}

/// The collection after inserting `a`: too-short atoms are refused,
/// covered ones are dropped, and an atom covering existing entries
/// replaces them at the end.
pub open spec fn insert_atom(atoms: Seq<Seq<char>>, a: Seq<char>, min: int) -> Seq<Seq<char>> {
    if a.len() < min {
        atoms
    } else if absorbed(atoms, a) {
        atoms
    } else {
        drop_covered(atoms, a).push(a)
    }
}

/// The collection after inserting each of `items` in order.
pub open spec fn insert_all(atoms: Seq<Seq<char>>, items: Seq<Seq<char>>, min: int) -> Seq<
    Seq<char>,
>
    decreases items.len(),
{
    if items.len() == 0 {
        atoms
    } else {
        insert_all(insert_atom(atoms, items[0], min), items.drop_first(), min)
    }
}

/// Dropping covered atoms keeps only existing entries, none of which
/// occurs inside `a`, and preserves the collection invariant.
proof fn lemma_drop_covered_wf(atoms: Seq<Seq<char>>, a: Seq<char>, min: int)
    requires
        atoms_wf(atoms, min),
    ensures
        atoms_wf(drop_covered(atoms, a), min),
        forall|i: int|
            0 <= i < drop_covered(atoms, a).len() ==> !is_substr(
                #[trigger] drop_covered(atoms, a)[i],
                a,
            ),
        forall|i: int|
            0 <= i < drop_covered(atoms, a).len() ==> atoms.contains(
                #[trigger] drop_covered(atoms, a)[i],
            ),
    decreases atoms.len(),
{
    if atoms.len() > 0 {
        let pre = atoms.drop_last();
        assert(forall|i: int| 0 <= i < pre.len() ==> pre[i] == #[trigger] atoms[i]);
        lemma_drop_covered_wf(pre, a, min);
        let rest = drop_covered(pre, a);
        let res = drop_covered(atoms, a);
        assert forall|i: int| 0 <= i < res.len() implies atoms.contains(#[trigger] res[i]) by {
            if i < rest.len() {
                let j0 = choose|j0: int| 0 <= j0 < pre.len() && #[trigger] pre[j0] == rest[i];
                assert(atoms[j0] == res[i]);
            } else {
                assert(atoms[atoms.len() - 1] == res[i]);
            }
        }
        if !is_substr(atoms.last(), a) {
            assert forall|i: int, j: int|
                0 <= i < res.len() && 0 <= j < res.len() && i != j implies !is_substr(
                res[i],
                res[j],
            ) by {
                if i < rest.len() && j < rest.len() {
                    assert(!is_substr(rest[i], rest[j]));
                } else if i < rest.len() {
                    let j0 = choose|j0: int|
                        0 <= j0 < pre.len() && #[trigger] pre[j0] == rest[i];
                    assert(!is_substr(atoms[j0], atoms[atoms.len() - 1]));
                } else {
                    let j0 = choose|j0: int|
                        0 <= j0 < pre.len() && #[trigger] pre[j0] == rest[j];
                    assert(!is_substr(atoms[atoms.len() - 1], atoms[j0]));
                }
            }
        }
    }
}

/// Inserting any atom preserves the collection invariant.
proof fn lemma_insert_atom_wf(atoms: Seq<Seq<char>>, a: Seq<char>, min: int)
    requires
        atoms_wf(atoms, min),
    ensures
        atoms_wf(insert_atom(atoms, a, min), min),
{
    if a.len() >= min && !absorbed(atoms, a) {
        lemma_drop_covered_wf(atoms, a, min);
        let dropped = drop_covered(atoms, a);
        let res = dropped.push(a);
        assert forall|i: int, j: int|
            0 <= i < res.len() && 0 <= j < res.len() && i != j implies !is_substr(
            res[i],
            res[j],
        ) by {
            if i < dropped.len() && j < dropped.len() {
                assert(!is_substr(dropped[i], dropped[j]));
            } else if i < dropped.len() {
                assert(!is_substr(dropped[i], a));
            } else if j < dropped.len() {
                let j0 = choose|j0: int|
                    0 <= j0 < atoms.len() && #[trigger] atoms[j0] == dropped[j];
                assert(!is_substr(a, atoms[j0]));
            }
        }
    }
}

/// Inserting a batch of atoms preserves the collection invariant.
proof fn lemma_insert_all_wf(atoms: Seq<Seq<char>>, items: Seq<Seq<char>>, min: int)
    requires
        atoms_wf(atoms, min),
    ensures
        atoms_wf(insert_all(atoms, items, min), min),
    decreases items.len(),
{
    if items.len() > 0 {
        lemma_insert_atom_wf(atoms, items[0], min);
        lemma_insert_all_wf(insert_atom(atoms, items[0], min), items.drop_first(), min);
    }
}

/// Inserts `atom` into the collection under the absorption discipline.
#[verifier::loop_isolation(false)]
pub fn insert_atom_vec(out: &mut Vec<String>, atom: String, min: usize)
    ensures
        final(out).deep_view() == insert_atom(old(out).deep_view(), atom@, min as int),
        atoms_wf(old(out).deep_view(), min as int) ==> atoms_wf(
            final(out).deep_view(),
            min as int,
        ),
{
    proof {
        if atoms_wf(old(out).deep_view(), min as int) {
            lemma_insert_atom_wf(old(out).deep_view(), atom@, min as int);
        }
    }
    let ghost atoms0 = old(out).deep_view();
    if atom.unicode_len() < min {
        return ;
    }
    let mut k: usize = 0;
    while k < out.len()
        invariant
            k <= out.len(),
            out@ == old(out)@,
            forall|p: int| 0 <= p < k ==> !is_substr(atom@, #[trigger] out.deep_view()[p]),
        decreases out.len() - k,
    {
        if str_contains(out[k].as_str(), atom.as_str()) {
            proof {
                assert(is_substr(atom@, out.deep_view()[k as int]));
                assert(absorbed(atoms0, atom@));
            }
            return ;
        }
        k += 1;
    }
    proof {
        assert(!absorbed(atoms0, atom@));
    }
    let mut kept: Vec<String> = Vec::new();
    let mut k: usize = 0;
    while k < out.len()
        invariant
            k <= out.len(),
            out@ == old(out)@,
            kept.deep_view() == drop_covered(atoms0.subrange(0, k as int), atom@),
        decreases out.len() - k,
    {
        let ghost kept0 = kept.deep_view();
        if !str_contains(atom.as_str(), out[k].as_str()) {
            kept.push(out[k].clone());
            proof {
                assert(kept.deep_view() =~= kept0.push(atoms0[k as int]));
            }
        }
        proof {
            let s1 = atoms0.subrange(0, k + 1);
            assert(s1.drop_last() =~= atoms0.subrange(0, k as int));
            assert(s1.last() == atoms0[k as int]);
        }
        k += 1;
    }
    proof {
        assert(atoms0.subrange(0, old(out)@.len() as int) =~= atoms0);
    }
    let ghost keptfull = kept.deep_view();
    kept.push(atom);
    proof {
        assert(kept.deep_view() =~= keptfull.push(atom@));
    }
    *out = kept;
}

/// Inserts each of `items`, in order, under the absorption discipline.
#[verifier::loop_isolation(false)]
pub fn insert_batch(out: &mut Vec<String>, items: &Vec<String>, min: usize)
    ensures
        final(out).deep_view() == insert_all(old(out).deep_view(), items.deep_view(), min as int),
        atoms_wf(old(out).deep_view(), min as int) ==> atoms_wf(
            final(out).deep_view(),
            min as int,
        ),
{
    proof {
        if atoms_wf(old(out).deep_view(), min as int) {
            lemma_insert_all_wf(old(out).deep_view(), items.deep_view(), min as int);
        }
    }
    let ghost itv = items.deep_view();
    let mut k: usize = 0;
    proof {
        assert(itv.subrange(0, itv.len() as int) =~= itv);
    }
    while k < items.len()
        invariant
            k <= items.len(),
            insert_all(old(out).deep_view(), itv, min as int) == insert_all(
                out.deep_view(),
                itv.subrange(k as int, itv.len() as int),
                min as int,
            ),
        decreases items.len() - k,
    {
        let ghost suf = itv.subrange(k as int, itv.len() as int);
        insert_atom_vec(out, items[k].clone(), min);
        proof {
            assert(suf[0] == itv[k as int]);
            assert(suf.drop_first() =~= itv.subrange(k + 1, itv.len() as int));
        }
        k += 1;
    }
    proof {
        assert(itv.subrange(itv.len() as int, itv.len() as int) =~= Seq::<Seq<char>>::empty());
    }
}

} // verus!
