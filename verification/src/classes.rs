//! Bracketed character classes and their cross products with pending
//! literal text.

use vstd::prelude::*;

verus! {

/// Whether `c` is an ASCII letter or digit.
pub open spec fn is_alnum(c: char) -> bool {
    (97 <= c as int <= 122) || (65 <= c as int <= 90) || (48 <= c as int <= 57)
}

/// Executable counterpart of [`is_alnum`].
fn alnum_check(c: char) -> (r: bool)
    ensures
        r == is_alnum(c),
{
    let u = c as u32;
    (97 <= u && u <= 122) || (65 <= u && u <= 90) || (48 <= u && u <= 57)
}

/// The ASCII letters and digits of a class span from position `i` on, in
/// order; brackets, dashes and anything else are not members.
pub open spec fn class_members(s: Seq<char>, i: int) -> Seq<char>
    decreases s.len() - i,
{
    if i >= s.len() {
        Seq::empty()
    } else if is_alnum(s[i]) {
        seq![s[i]] + class_members(s, i + 1)
    } else {
        class_members(s, i + 1)
    }
}

/// Whether the span contains a dash, making it a range form.
pub open spec fn class_has_dash(s: Seq<char>) -> bool {
    exists|k: int| 0 <= k < s.len() && s[k] == '-'
}

/// The characters from `x` through `y` inclusive, empty when `x` is
/// beyond `y`.
pub open spec fn char_range(x: char, y: char) -> Seq<char> {
    if x as int <= y as int {
        Seq::new((y as int - x as int + 1) as nat, |i: int| ((x as int + i) as char))
    } else {
        Seq::empty()
    }
}

/// What a bracketed class denotes for atom purposes: its listed members,
/// or, when a dash and at least two members are present, the contiguous
/// range between the first two members.
pub open spec fn spec_class_chars(s: Seq<char>) -> Seq<char> {
    let m = class_members(s, 0);
    if class_has_dash(s) && m.len() >= 2 {
        char_range(m[0], m[1])
    } else {
        m
    }
}

/// Class members are ASCII letters or digits.
proof fn lemma_class_members_alnum(s: Seq<char>, i: int)
    ensures
        forall|p: int|
            0 <= p < class_members(s, i).len() ==> is_alnum(#[trigger] class_members(s, i)[p]),
    decreases s.len() - i,
{
    if i < s.len() {
        lemma_class_members_alnum(s, i + 1);
        if !is_alnum(s[i]) {
            assert(class_members(s, i) == class_members(s, i + 1));
        } else {
            assert forall|p: int|
                0 <= p < class_members(s, i).len() implies is_alnum(
                #[trigger] class_members(s, i)[p],
            ) by {
                if p == 0 {
                    assert(class_members(s, i)[0] == s[i]);
                } else {
                    assert(class_members(s, i)[p] == class_members(s, i + 1)[p - 1]);
                }
            }
        }
    }
}

/// The set of candidate characters a bracketed class span stands for.
///
/// ASCII letters and digits inside the span are collected in order; a
/// dash makes the span a range form, expanding to every character
/// between the first two members (a dash with fewer than two members
/// falls back to the plain enumeration).
pub fn char_class_expansion(class: &str) -> (r: Vec<char>)
    ensures
        r@ == spec_class_chars(class@),
{
    let ghost s = class@;
    let n = class.unicode_len();
    let mut members: Vec<char> = Vec::new();
    let mut dash = false;
    let mut i: usize = 0;
    proof {
        assert(members@ =~= Seq::<char>::empty());
    }
    while i < n
        invariant
            i <= n,
            n == s.len(),
            class@ == s,
            class_members(s, 0) == members@ + class_members(s, i as int),
            dash == exists|k: int| 0 <= k < i && s[k] == '-',
        decreases n - i,
    {
        let c = class.get_char(i);
        if alnum_check(c) {
            members.push(c);
            proof {
                assert(members@ + class_members(s, i + 1) =~= class_members(s, 0));
            }
        } else if c == '-' {
            dash = true;
            proof {
                assert(s[i as int] == '-');
            }
        }
        proof {
            if !(exists|k: int| 0 <= k < i && s[k] == '-') && s[i as int] != '-' {
                assert(forall|k: int| 0 <= k < i + 1 ==> s[k] != '-');
            }
        }
        i += 1;
    }
    proof {
        assert(members@ + class_members(s, n as int) =~= members@);
        lemma_class_members_alnum(s, 0);
    }
    if dash && members.len() >= 2 {
        let x = members[0];
        let y = members[1];
        proof {
            assert(is_alnum(members@[0]) && is_alnum(members@[1]));
        }
        let xv = x as u32;
        let yv = y as u32;
        let mut out: Vec<char> = Vec::new();
        let mut v = xv;
        proof {
            assert(out@ =~= Seq::<char>::empty());
        }
        while v <= yv
            invariant
                xv == x as int,
                yv == y as int,
                48 <= xv < 128,
                48 <= yv < 128,
                xv <= v,
                v <= yv + 1 || v == xv,
                out@.len() == v - xv,
                forall|k: int| 0 <= k < out@.len() ==> out@[k] == ((xv + k) as char),
            decreases yv + 1 - v,
        {
            let b = v as u8;
            out.push(b as char);
            v = v + 1;
        }
        proof {
            assert(out@ =~= char_range(x, y));
        }
        out
    } else {
        members
    }
}

/// One candidate string per class character: each is the prefix extended
/// by that character.
pub open spec fn append_each(prefix: Seq<char>, cls: Seq<char>) -> Seq<Seq<char>>
    decreases cls.len(),
{
    if cls.len() == 0 {
        Seq::empty()
    } else {
        append_each(prefix, cls.drop_last()).push(prefix.push(cls.last()))
    }
}

/// Every combination of a cross-product entry and a class character, in
/// order: entries first, characters within an entry second.
pub open spec fn cross_append(cross: Seq<Seq<char>>, cls: Seq<char>) -> Seq<Seq<char>>
    decreases cross.len(),
{
    if cross.len() == 0 {
        Seq::empty()
    } else {
        cross_append(cross.drop_last(), cls) + append_each(cross.last(), cls)
    }
}

/// What combining the pending literal, the pending cross products and a
/// class yields: a nonempty literal prefixes each class character on its
/// own; with no literal, each pending cross product is extended by each
/// class character, a missing cross-product list acting as one empty
/// entry.
pub open spec fn spec_connection(
    prefix: Seq<char>,
    cross: Seq<Seq<char>>,
    cls: Seq<char>,
) -> Seq<Seq<char>> {
    if prefix.len() > 0 {
        append_each(prefix, cls)
    } else if cross.len() == 0 {
        append_each(Seq::empty(), cls)
    } else {
        cross_append(cross, cls)
    }
}

/// Relies on String::push: appends exactly the given character.
#[verifier::external_body]
fn push_char(s: &mut String, c: char)
    ensures
        final(s)@ == old(s)@.push(c),
{
    s.push(c);
}

/// The prefix extended by each class character in turn.
#[verifier::loop_isolation(false)]
fn append_each_vec(prefix: &str, cls: &Vec<char>) -> (r: Vec<String>)
    ensures
        r.deep_view() == append_each(prefix@, cls@),
{
    let ghost cv = cls@;
    let mut out: Vec<String> = Vec::new();
    let mut k: usize = 0;
    proof {
        assert(out.deep_view() =~= append_each(prefix@, cv.subrange(0, 0)));
    }
    while k < cls.len()
        invariant
            k <= cls.len(),
            out.deep_view() == append_each(prefix@, cv.subrange(0, k as int)),
        decreases cls.len() - k,
    {
        let ghost out0 = out.deep_view();
        let mut item = String::from_str(prefix);
        push_char(&mut item, cls[k]);
        out.push(item);
        proof {
            let c1 = cv.subrange(0, k + 1);
            assert(c1.drop_last() =~= cv.subrange(0, k as int));
            assert(c1.last() == cv[k as int]);
            assert(out.deep_view() =~= out0.push(prefix@.push(cv[k as int])));
        }
        k += 1;
    }
    proof {
        assert(cv.subrange(0, cv.len() as int) =~= cv);
    }
    out
}

/// Combines a pending literal and the pending cross products with the
/// candidate characters of a class.
///
/// A nonempty literal prefixes each class character on its own; with no
/// literal, each pending cross product is extended by each class
/// character; with neither, the class characters stand alone.
pub fn connection(prefix: &str, cross: Vec<String>, class_chars: Vec<char>) -> (r: Vec<String>)
    ensures
        r.deep_view() == spec_connection(prefix@, cross.deep_view(), class_chars@),
{
    if !prefix.is_empty() {
        append_each_vec(prefix, &class_chars)
    } else if cross.len() == 0 {
        let r = append_each_vec(prefix, &class_chars);
        proof {
            assert(prefix@ =~= Seq::<char>::empty());
        }
        r
    } else {
        let ghost crv = cross.deep_view();
        let ghost cv = class_chars@;
        let mut out: Vec<String> = Vec::new();
        let mut k: usize = 0;
        proof {
            assert(out.deep_view() =~= cross_append(crv.subrange(0, 0), cv));
        }
        while k < cross.len()
            invariant
                k <= cross.len(),
                crv == cross.deep_view(),
                cv == class_chars@,
                out.deep_view() == cross_append(crv.subrange(0, k as int), cv),
            decreases cross.len() - k,
        {
            let ghost outk = out.deep_view();
            let mut j: usize = 0;
            proof {
                assert(append_each(crv[k as int], cv.subrange(0, 0)) =~= Seq::<
                    Seq<char>,
                >::empty());
                assert(out.deep_view() =~= outk + append_each(crv[k as int], cv.subrange(0, 0)));
            }
            while j < class_chars.len()
                invariant
                    j <= class_chars.len(),
                    k < cross.len(),
                    crv == cross.deep_view(),
                    cv == class_chars@,
                    out.deep_view() == outk + append_each(crv[k as int], cv.subrange(0, j as int)),
                decreases class_chars.len() - j,
            {
                let ghost out0 = out.deep_view();
                let mut item = cross[k].clone();
                push_char(&mut item, class_chars[j]);
                out.push(item);
                proof {
                    let c1 = cv.subrange(0, j + 1);
                    assert(c1.drop_last() =~= cv.subrange(0, j as int));
                    assert(c1.last() == cv[j as int]);
                    assert(out.deep_view() =~= out0.push(crv[k as int].push(cv[j as int])));
                    assert(out.deep_view() =~= outk + append_each(crv[k as int], c1));
                }
                j += 1;
            }
            proof {
                let s1 = crv.subrange(0, k + 1);
                assert(s1.drop_last() =~= crv.subrange(0, k as int));
                assert(s1.last() == crv[k as int]);
                assert(cv.subrange(0, cv.len() as int) =~= cv);
                assert(out.deep_view() =~= cross_append(s1, cv));
            }
            k += 1;
        }
        proof {
            assert(crv.subrange(0, crv.len() as int) =~= crv);
        }
        out
    }
}

} // verus!
