//! The order of names: character by character, a proper prefix first.
use vstd::prelude::*;
use crate::manifest::strings_view;
use vstd::std_specs::iter::IteratorSpec;

verus! {

/// `a` comes before `b`: at the first position where they differ the
/// character of `a` is smaller, or `a` is a proper prefix of `b`.
pub open spec fn str_less(a: Seq<char>, b: Seq<char>) -> bool
    decreases a.len(),
{
    if a.len() == 0 {
        b.len() > 0
    } else if b.len() == 0 {
        false
    } else if a[0] != b[0] {
        (a[0] as int) < (b[0] as int)
    } else {
        str_less(a.drop_first(), b.drop_first())
    }
}

/// The names are in increasing order.
pub open spec fn names_sorted(s: Seq<Seq<char>>) -> bool {
    forall|i: int, j: int| 0 <= i < j < s.len() ==> str_less(#[trigger] s[i], #[trigger] s[j])
}

/// No name comes before itself.
pub proof fn lemma_str_less_irreflexive(a: Seq<char>)
    ensures
        !str_less(a, a),
    decreases a.len(),
{
    if a.len() > 0 {
        lemma_str_less_irreflexive(a.drop_first());
    }
}

/// The order is transitive.
pub proof fn lemma_str_less_transitive(a: Seq<char>, b: Seq<char>, c: Seq<char>)
    requires
        str_less(a, b),
        str_less(b, c),
    ensures
        str_less(a, c),
    decreases a.len(),
{
    if a.len() > 0 && b.len() > 0 && c.len() > 0 && a[0] == b[0] && b[0] == c[0] {
        lemma_str_less_transitive(a.drop_first(), b.drop_first(), c.drop_first());
    }
}

/// Of two different names, one comes first.
pub proof fn lemma_str_less_total(a: Seq<char>, b: Seq<char>)
    requires
        a != b,
    ensures
        str_less(a, b) || str_less(b, a),
    decreases a.len(),
{
    if a.len() > 0 && b.len() > 0 {
        if a[0] == b[0] {
            if a.drop_first() == b.drop_first() {
                assert(a =~= seq![a[0]] + a.drop_first());
                assert(b =~= seq![b[0]] + b.drop_first());
            }
            lemma_str_less_total(a.drop_first(), b.drop_first());
        } else {
        }
    } else if a.len() == 0 && b.len() == 0 {
        assert(a =~= b);
    }
}

/// Whether `a` comes before `b`.
pub fn name_less(a: &String, b: &String) -> (r: bool)
    ensures
        r == str_less(a@, b@),
{
    broadcast use vstd::string::axiom_spec_iter, vstd::string::next_postcondition;

    let mut ia = a.as_str().chars();
    let mut ib = b.as_str().chars();
    assert(ia.remaining() == a@);
    assert(ib.remaining() == b@);
    loop
        invariant
            str_less(a@, b@) == str_less(ia.remaining(), ib.remaining()),
            ia.obeys_prophetic_iter_laws(),
            ib.obeys_prophetic_iter_laws(),
            ia.decrease() is Some,
        decreases ia.decrease()->0,
    {
        let ghost ra = ia.remaining();
        let ghost rb = ib.remaining();
        let ca = ia.next();
        let cb = ib.next();
        match (ca, cb) {
            (None, None) => {
                return false;
            },
            (None, Some(_)) => {
                return true;
            },
            (Some(_), None) => {
                return false;
            },
            (Some(x), Some(y)) => {
                if x != y {
                    return x < y;
                }
            },
        }
    }
}

/// The names of `v` in increasing order.
pub fn sort_names(v: Vec<String>) -> (r: Vec<String>)
    requires
        strings_view(v@).no_duplicates(),
    ensures
        strings_view(r@).no_duplicates(),
        names_sorted(strings_view(r@)),
        forall|x: Seq<char>| #[trigger] strings_view(r@).contains(x) <==> strings_view(v@).contains(x),
{
    let mut r: Vec<String> = Vec::new();
    let mut k: usize = 0;
    while k < v.len()
        invariant
            k <= v@.len(),
            strings_view(v@).no_duplicates(),
            strings_view(r@).no_duplicates(),
            names_sorted(strings_view(r@)),
            forall|x: Seq<char>| #[trigger] strings_view(r@).contains(x) <==> strings_view(v@).take(k as int).contains(x),
        decreases v@.len() - k,
    {
        let s = &v[k];
        let ghost sv = strings_view(r@);
        let ghost x = s@;
        assert(strings_view(v@)[k as int] == x);
        assert(!sv.contains(x)) by {
            if sv.contains(x) {
                let j = choose|j: int| 0 <= j < k && strings_view(v@).take(k as int)[j] == x;
                assert(strings_view(v@)[j] == strings_view(v@)[k as int]);
            }
        }
        let mut p: usize = 0;
        while p < r.len()
            invariant
                p <= r@.len(),
                sv == strings_view(r@),
                x == s@,
                forall|q: int| 0 <= q < p ==> !str_less(x, #[trigger] sv[q]),
            ensures
                p <= r@.len(),
                forall|q: int| 0 <= q < p ==> !str_less(x, #[trigger] sv[q]),
                p < r@.len() ==> str_less(x, sv[p as int]),
            decreases r@.len() - p,
        {
            assert(sv[p as int] == r@[p as int]@);
            if name_less(s, &r[p]) {
                break;
            }
            p = p + 1;
        }
        proof {
            assert forall|q: int| 0 <= q < p implies str_less(#[trigger] sv[q], x) by {
                assert(sv.contains(sv[q]));
                lemma_str_less_total(sv[q], x);
            }
            assert forall|q: int| p <= q < sv.len() implies str_less(x, #[trigger] sv[q]) by {
                if q > p {
                    lemma_str_less_transitive(x, sv[p as int], sv[q]);
                }
            }
        }
        r.insert(p, s.clone());
        let ghost nv = strings_view(r@);
        assert(nv =~= sv.insert(p as int, x));
        proof {
            assert(strings_view(v@).take(k + 1) =~= strings_view(v@).take(k as int).push(x));
            assert forall|y: Seq<char>| #[trigger] nv.contains(y) <==> strings_view(v@).take(k + 1).contains(y) by {
                crate::model::lemma_push_contains(strings_view(v@).take(k as int), x, y);
                if nv.contains(y) {
                    let j = choose|j: int| 0 <= j < nv.len() && nv[j] == y;
                    if j < p {
                        assert(sv[j] == y);
                        assert(sv.contains(y));
                    } else if j > p {
                        assert(sv[j - 1] == y);
                        assert(sv.contains(y));
                    }
                }
                if sv.contains(y) {
                    let j = choose|j: int| 0 <= j < sv.len() && sv[j] == y;
                    if j < p {
                        assert(nv[j] == y);
                    } else {
                        assert(nv[j + 1] == y);
                    }
                }
                if y == x {
                    assert(nv[p as int] == x);
                }
            }
            assert forall|i: int, j: int| 0 <= i < j < nv.len() implies str_less(#[trigger] nv[i], #[trigger] nv[j]) by {
                if j < p {
                    assert(nv[i] == sv[i] && nv[j] == sv[j]);
                } else if j == p {
                    assert(nv[i] == sv[i]);
                } else if i < p {
                    assert(nv[i] == sv[i] && nv[j] == sv[j - 1]);
                    lemma_str_less_transitive(sv[i], x, sv[j - 1]);
                } else if i == p {
                    assert(nv[j] == sv[j - 1]);
                } else {
                    assert(nv[i] == sv[i - 1] && nv[j] == sv[j - 1]);
                }
            }
            assert forall|i: int, j: int| 0 <= i < nv.len() && 0 <= j < nv.len() && i != j implies nv[i] != nv[j] by {
                if i < j {
                    assert(str_less(nv[i], nv[j]));
                    lemma_str_less_irreflexive(nv[i]);
                } else {
                    assert(str_less(nv[j], nv[i]));
                    lemma_str_less_irreflexive(nv[j]);
                }
            }
        }
        k = k + 1;
    }
    assert(strings_view(v@).take(v@.len() as int) =~= strings_view(v@));
    r
}

} // verus!
