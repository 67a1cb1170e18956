//! The order of `String`s: lexicographic by character, which is the order
//! of their UTF-8 bytes.
use vstd::prelude::*;
use crate::text::chars_of;
use crate::tree::lemma_push_to_set;

verus! {

/// Whether `a` comes strictly before `b`.
pub open spec fn chars_less(a: Seq<char>, b: Seq<char>) -> bool
    decreases a.len(),
{
    if a.len() == 0 {
        b.len() > 0
    } else if b.len() == 0 {
        false
    } else if a[0] != b[0] {
        a[0] < b[0]
    } else {
        chars_less(a.drop_first(), b.drop_first())
    }
}

/// Whether `a` and `b` first differ at position `k`, with `a` smaller there.
pub open spec fn first_difference_smaller(a: Seq<char>, b: Seq<char>, k: int) -> bool {
    &&& 0 <= k < a.len()
    &&& k < b.len()
    &&& a.take(k) == b.take(k)
    &&& a[k] < b[k]
}

/// The order of strings is lexicographic by character: `a` comes before `b`
/// exactly when `a` is a proper beginning of `b`, or at the first position
/// where they differ `a` has the smaller character.
pub proof fn law_order_is_lexicographic(a: Seq<char>, b: Seq<char>)
    ensures
        chars_less(a, b) <==> ((a.len() < b.len() && a == b.take(a.len() as int)) || exists|k: int|
            #[trigger] first_difference_smaller(a, b, k)),
    decreases a.len(),
{
    if a.len() == 0 {
        assert(a =~= b.take(0));
        if exists|k: int| #[trigger] first_difference_smaller(a, b, k) {
            let k = choose|k: int| #[trigger] first_difference_smaller(a, b, k);
        }
    } else if b.len() == 0 {
        if exists|k: int| #[trigger] first_difference_smaller(a, b, k) {
            let k = choose|k: int| #[trigger] first_difference_smaller(a, b, k);
        }
    } else if a[0] != b[0] {
        if a[0] < b[0] {
            assert(a.take(0) =~= b.take(0));
            assert(first_difference_smaller(a, b, 0));
        } else {
            if a.len() < b.len() && a == b.take(a.len() as int) {
                assert(a[0] == b.take(a.len() as int)[0]);
            }
            if exists|k: int| #[trigger] first_difference_smaller(a, b, k) {
                let k = choose|k: int| #[trigger] first_difference_smaller(a, b, k);
                if k > 0 {
                    assert(a.take(k)[0] == b.take(k)[0]);
                }
            }
        }
    } else {
        let a1 = a.drop_first();
        let b1 = b.drop_first();
        law_order_is_lexicographic(a1, b1);
        if a1.len() < b1.len() && a1 == b1.take(a1.len() as int) {
            assert forall|j: int| 0 <= j < a.len() implies a[j] == b.take(a.len() as int)[j] by {
                if j > 0 {
                    assert(a1[j - 1] == b1.take(a1.len() as int)[j - 1]);
                }
            }
            assert(a =~= b.take(a.len() as int));
        }
        if a.len() < b.len() && a == b.take(a.len() as int) {
            assert(a1 =~= b1.take(a1.len() as int)) by {
                assert forall|j: int| 0 <= j < a1.len() implies a1[j] == b1.take(a1.len() as int)[j] by {
                    assert(a[j + 1] == b.take(a.len() as int)[j + 1]);
                }
            }
        }
        if exists|k: int| #[trigger] first_difference_smaller(a1, b1, k) {
            let k = choose|k: int| #[trigger] first_difference_smaller(a1, b1, k);
            assert(a.take(k + 1) =~= seq![a[0]] + a1.take(k));
            assert(b.take(k + 1) =~= seq![b[0]] + b1.take(k));
            assert(first_difference_smaller(a, b, k + 1));
        }
        if exists|k: int| #[trigger] first_difference_smaller(a, b, k) {
            let k = choose|k: int| #[trigger] first_difference_smaller(a, b, k);
            assert(k > 0) by {
                if k == 0 {
                    assert(a[0] < b[0]);
                }
            }
            assert(a1.take(k - 1) =~= a.take(k).drop_first());
            assert(b1.take(k - 1) =~= b.take(k).drop_first());
            assert(first_difference_smaller(a1, b1, k - 1));
        }
    }
}

/// Whether a list is in strictly increasing order.
pub open spec fn strictly_sorted(s: Seq<Seq<char>>) -> bool {
    forall|i: int, j: int| 0 <= i < j < s.len() ==> chars_less(#[trigger] s[i], #[trigger] s[j])
}

/// No string comes before itself.
pub proof fn lemma_less_irreflexive(a: Seq<char>)
    ensures
        !chars_less(a, a),
    decreases a.len(),
{
    if a.len() > 0 {
        lemma_less_irreflexive(a.drop_first());
    }
}

/// Of two different strings, one comes before the other.
pub proof fn lemma_less_total(a: Seq<char>, b: Seq<char>)
    requires
        a != b,
    ensures
        chars_less(a, b) || chars_less(b, a),
    decreases a.len(),
{
    if a.len() > 0 && b.len() > 0 && a[0] == b[0] {
        if a.drop_first() == b.drop_first() {
            assert(a =~= seq![a[0]] + a.drop_first());
            assert(b =~= seq![b[0]] + b.drop_first());
        }
        lemma_less_total(a.drop_first(), b.drop_first());
    } else if a.len() == 0 && b.len() == 0 {
        assert(a =~= b);
    } else if a.len() > 0 && b.len() > 0 {
    }
}

/// The order of strings is transitive.
pub proof fn lemma_less_transitive(a: Seq<char>, b: Seq<char>, c: Seq<char>)
    requires
        chars_less(a, b),
        chars_less(b, c),
    ensures
        chars_less(a, c),
    decreases a.len(),
{
    if a.len() > 0 && b.len() > 0 && c.len() > 0 && a[0] == b[0] && b[0] == c[0] {
        lemma_less_transitive(a.drop_first(), b.drop_first(), c.drop_first());
    }
}

/// No two strings each come before the other.
pub proof fn lemma_less_asymmetric(a: Seq<char>, b: Seq<char>)
    requires
        chars_less(a, b),
    ensures
        !chars_less(b, a),
{
    if chars_less(b, a) {
        lemma_less_transitive(a, b, a);
        lemma_less_irreflexive(a);
    }
}

/// Whether `a` comes strictly before `b`.
pub fn string_less(a: &String, b: &String) -> (r: bool)
    ensures
        r == chars_less(a@, b@),
{
    let x = chars_of(a.as_str());
    let y = chars_of(b.as_str());
    let mut i: usize = 0;
    assert(x@.skip(0) == x@);
    assert(y@.skip(0) == y@);
    while i < x.len() && i < y.len() && x[i] == y[i]
        invariant
            i <= x@.len(),
            i <= y@.len(),
            chars_less(x@, y@) == chars_less(x@.skip(i as int), y@.skip(i as int)),
        decreases x@.len() - i,
    {
        assert(x@.skip(i as int).drop_first() == x@.skip(i + 1));
        assert(y@.skip(i as int).drop_first() == y@.skip(i + 1));
        i += 1;
    }
    if i == x.len() {
        i < y.len()
    } else if i == y.len() {
        false
    } else {
        assert(x@.skip(i as int)[0] == x@[i as int]);
        assert(y@.skip(i as int)[0] == y@[i as int]);
        x[i] < y[i]
    }
}

/// The strings of a list, each once, in increasing order.
pub(crate) fn sort_strings(v: Vec<String>) -> (r: Vec<String>)
    requires
        v.deep_view().no_duplicates(),
    ensures
        strictly_sorted(r.deep_view()),
        r.deep_view().to_set() == v.deep_view().to_set(),
        r@.len() == v@.len(),
{
    let ghost all = v.deep_view();
    let mut v = v;
    let mut r: Vec<String> = Vec::new();
    let n = v.len();
    assert(all.len() == n);
    let mut i: usize = 0;
    while v.len() > 0
        invariant
            all.no_duplicates(),
            all.len() <= usize::MAX,
            i + v@.len() == all.len(),
            v.deep_view() == all.skip(i as int),
            r@.len() == i,
            strictly_sorted(r.deep_view()),
            r.deep_view().to_set() == all.take(i as int).to_set(),
        decreases v@.len(),
    {
        let ghost old_v = v.deep_view();
        let x = v.remove(0);
        assert(x@ == all[i as int]) by {
            assert(old_v[0] == all[i as int]);
        }
        assert(v.deep_view() =~= all.skip(i + 1)) by {
            assert forall|j: int| 0 <= j < v.deep_view().len() implies v.deep_view()[j] == all.skip(i + 1)[j] by {
                assert(v.deep_view()[j] == old_v[j + 1]);
            }
        }
        assert(!r.deep_view().contains(x@)) by {
            if r.deep_view().contains(x@) {
                assert(r.deep_view().to_set().contains(x@));
                let k = choose|k: int| 0 <= k < all.take(i as int).len() && all.take(i as int)[k] == x@;
                assert(all[k] == all[i as int]);
            }
        }
        let mut p: usize = 0;
        while p < r.len() && !string_less(&x, &r[p])
            invariant
                p <= r@.len(),
                forall|q: int| 0 <= q < p ==> !chars_less(x@, #[trigger] r.deep_view()[q]),
            decreases r@.len() - p,
        {
            p += 1;
        }
        let ghost before = r.deep_view();
        proof {
            assert forall|q: int| 0 <= q < p implies chars_less(#[trigger] before[q], x@) by {
                assert(before[q] != x@) by {
                    if before[q] == x@ {
                        assert(before.contains(x@));
                    }
                }
                lemma_less_total(before[q], x@);
            }
            assert forall|q: int| p <= q < before.len() implies chars_less(x@, #[trigger] before[q]) by {
                if q > p {
                    lemma_less_transitive(x@, before[p as int], before[q]);
                }
            }
        }
        let ghost before_exec = r@;
        r.insert(p, x);
        assert(r.deep_view() =~= before.insert(p as int, x@)) by {
            assert forall|j: int| 0 <= j < r.deep_view().len() implies r.deep_view()[j] == before.insert(p as int, x@)[j] by {
                if j < p {
                    assert(r@[j] == before_exec[j]);
                } else if j > p {
                    assert(r@[j] == before_exec[j - 1]);
                }
            }
        }
        proof {
            let after = r.deep_view();
            assert forall|a: int, b: int| 0 <= a < b < after.len() implies chars_less(#[trigger] after[a], #[trigger] after[b]) by {
                if a < p && b < p {
                    assert(after[a] == before[a] && after[b] == before[b]);
                } else if a < p && b == p {
                    assert(after[a] == before[a]);
                } else if a < p {
                    assert(after[a] == before[a] && after[b] == before[b - 1]);
                    lemma_less_transitive(before[a], x@, before[b - 1]);
                } else if a == p {
                    assert(after[b] == before[b - 1]);
                } else {
                    assert(after[a] == before[a - 1] && after[b] == before[b - 1]);
                }
            }
            assert(after.to_set() =~= before.to_set().insert(x@)) by {
                assert forall|s: Seq<char>| after.to_set().contains(s) implies before.to_set().insert(x@).contains(s) by {
                    let j = choose|j: int| 0 <= j < after.len() && after[j] == s;
                    if j < p {
                        assert(before[j] == s);
                    } else if j > p {
                        assert(before[j - 1] == s);
                    }
                }
                assert forall|s: Seq<char>| before.to_set().insert(x@).contains(s) implies after.to_set().contains(s) by {
                    if s == x@ {
                        assert(after[p as int] == s);
                    } else {
                        let j = choose|j: int| 0 <= j < before.len() && before[j] == s;
                        if j < p {
                            assert(after[j] == s);
                        } else {
                            assert(after[j + 1] == s);
                        }
                    }
                }
            }
            assert(all.take(i + 1) == all.take(i as int).push(x@));
            lemma_push_to_set(all.take(i as int), x@);
        }
        i += 1;
    }
    assert(all.take(all.len() as int) == all);
    r
}

} // verus!
