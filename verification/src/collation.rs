//! The order in which texts are listed: `String`'s order, which compares
//! characters by code point, a shorter text first when it is a prefix.

use vstd::prelude::*;
use vstd::relations::{sorted_by, total_ordering};

verus! {

/// First position at or after `i` where `a` and `b` differ or one ends.
pub open spec fn first_difference(a: Seq<char>, b: Seq<char>, i: int) -> int
    decreases a.len() - i,
{
    if i < 0 || i >= a.len() || i >= b.len() || a[i] != b[i] {
        i
    } else {
        first_difference(a, b, i + 1)
    }
}

/// `a` comes strictly before `b`.
pub open spec fn text_lt(a: Seq<char>, b: Seq<char>) -> bool {
    let k = first_difference(a, b, 0);
    if k >= a.len() {
        k < b.len()
    } else if k >= b.len() {
        false
    } else {
        a[k] < b[k]
    }
}

/// `a` comes before `b` or is equal to it.
pub open spec fn text_le(a: Seq<char>, b: Seq<char>) -> bool {
    !text_lt(b, a)
}

pub proof fn lemma_first_difference(a: Seq<char>, b: Seq<char>, i: int)
    requires
        0 <= i <= a.len(),
        i <= b.len(),
    ensures
        i <= first_difference(a, b, i) <= a.len(),
        first_difference(a, b, i) <= b.len(),
        forall|j: int| i <= j < first_difference(a, b, i) ==> a[j] == b[j],
        first_difference(a, b, i) < a.len() && first_difference(a, b, i) < b.len() ==> a[first_difference(a, b, i)] != b[first_difference(a, b, i)],
    decreases a.len() - i,
{
    if i < a.len() && i < b.len() && a[i] == b[i] {
        lemma_first_difference(a, b, i + 1);
    }
}

/// The first difference is determined by its characterising properties.
pub proof fn lemma_first_difference_unique(a: Seq<char>, b: Seq<char>, k: int)
    requires
        0 <= k <= a.len(),
        k <= b.len(),
        forall|j: int| 0 <= j < k ==> a[j] == b[j],
        k == a.len() || k == b.len() || a[k] != b[k],
    ensures
        first_difference(a, b, 0) == k,
{
    lemma_first_difference(a, b, 0);
    let d = first_difference(a, b, 0);
    if d < k {
        assert(a[d] == b[d]);
    } else if d > k {
        assert(a[k] == b[k]);
    }
}

proof fn lemma_first_difference_symmetric(a: Seq<char>, b: Seq<char>)
    ensures
        first_difference(a, b, 0) == first_difference(b, a, 0),
{
    lemma_first_difference(a, b, 0);
    let d = first_difference(a, b, 0);
    lemma_first_difference_unique(b, a, d);
}

/// Exactly one of `a < b`, `a == b`, `b < a` holds.
pub proof fn lemma_text_trichotomy(a: Seq<char>, b: Seq<char>)
    ensures
        a == b || text_lt(a, b) || text_lt(b, a),
        !(text_lt(a, b) && text_lt(b, a)),
        !text_lt(a, a),
{
    lemma_first_difference(a, b, 0);
    lemma_first_difference_symmetric(a, b);
    let k = first_difference(a, b, 0);
    if k >= a.len() && k >= b.len() {
        assert(a =~= b);
    }
    lemma_first_difference(a, a, 0);
}

pub proof fn lemma_text_lt_transitive(a: Seq<char>, b: Seq<char>, c: Seq<char>)
    requires
        text_lt(a, b),
        text_lt(b, c),
    ensures
        text_lt(a, c),
{
    lemma_first_difference(a, b, 0);
    lemma_first_difference(b, c, 0);
    let k1 = first_difference(a, b, 0);
    let k2 = first_difference(b, c, 0);
    if k1 < k2 {
        lemma_first_difference_unique(a, c, k1);
    } else if k1 > k2 {
        lemma_first_difference_unique(a, c, k2);
    } else {
        lemma_first_difference_unique(a, c, k1);
    }
}

/// `text_le` is a total order on texts.
pub proof fn lemma_text_le_total_ordering()
    ensures
        total_ordering(|a: Seq<char>, b: Seq<char>| text_le(a, b)),
{
    let le = |a: Seq<char>, b: Seq<char>| text_le(a, b);
    assert forall|a: Seq<char>| #[trigger] le(a, a) by {
        lemma_text_trichotomy(a, a);
    }
    assert forall|a: Seq<char>, b: Seq<char>| #[trigger] le(a, b) && #[trigger] le(b, a) implies a == b by {
        lemma_text_trichotomy(a, b);
    }
    assert forall|a: Seq<char>, b: Seq<char>, c: Seq<char>|
        #[trigger] le(a, b) && #[trigger] le(b, c) implies le(a, c) by {
        lemma_text_trichotomy(a, b);
        lemma_text_trichotomy(b, c);
        lemma_text_trichotomy(a, c);
        if text_lt(c, a) {
            if a == b {
            } else if b == c {
            } else {
                lemma_text_lt_transitive(a, b, c);
            }
        }
    }
    assert forall|a: Seq<char>, b: Seq<char>| #[trigger] le(a, b) || #[trigger] le(b, a) by {
        lemma_text_trichotomy(a, b);
    }
}

/// Whether `a` comes strictly before `b`.
pub fn text_less(a: &Vec<char>, b: &Vec<char>) -> (less: bool)
    ensures
        less == text_lt(a@, b@),
{
    let mut i: usize = 0;
    while i < a.len() && i < b.len() && a[i] == b[i]
        invariant
            0 <= i <= a.len(),
            i <= b.len(),
            first_difference(a@, b@, i as int) == first_difference(a@, b@, 0),
        decreases a.len() - i,
    {
        i = i + 1;
    }
    if i >= a.len() {
        i < b.len()
    } else if i >= b.len() {
        false
    } else {
        a[i] < b[i]
    }
}

/// Something listed by a text key.
pub trait ListedByText: Sized {
    spec fn sort_key(&self) -> Seq<char>;

    fn key_chars(&self) -> (key: Vec<char>)
        ensures
            key@ == self.sort_key(),
    ;
}

/// `a` may come before `b`: ascending by key, or descending.
pub open spec fn in_order<T: ListedByText>(a: T, b: T, descending: bool) -> bool {
    if descending {
        text_le(b.sort_key(), a.sort_key())
    } else {
        text_le(a.sort_key(), b.sort_key())
    }
}

/// Every item may come before every later one.
pub open spec fn listed<T: ListedByText>(s: Seq<T>, descending: bool) -> bool {
    forall|i: int, j: int| 0 <= i < j < s.len() ==> in_order(#[trigger] s[i], #[trigger] s[j], descending)
}

/// `a` goes strictly before `b`: its key is smaller, or larger when
/// descending.
pub open spec fn strictly_before<T: ListedByText>(a: T, b: T, descending: bool) -> bool {
    if descending {
        text_lt(b.sort_key(), a.sort_key())
    } else {
        text_lt(a.sort_key(), b.sort_key())
    }
}

/// `out` lists the items of `input`, each once, as `pos` maps them: ordered
/// by key, and items with equal keys in their order from `input`.
pub open spec fn stably_listed<T: ListedByText>(
    out: Seq<T>,
    input: Seq<T>,
    pos: Seq<int>,
    descending: bool,
) -> bool {
    &&& out.len() == input.len()
    &&& pos.len() == input.len()
    &&& forall|k: int| 0 <= k < out.len() ==> 0 <= #[trigger] pos[k] < input.len() && out[k] == input[pos[k]]
    &&& forall|k: int, l: int|
        0 <= k < l < out.len() ==> strictly_before(#[trigger] out[k], #[trigger] out[l], descending) || (
        !strictly_before(out[l], out[k], descending) && pos[k] < pos[l])
}

proof fn lemma_strictly_before_weak<T: ListedByText>(a: T, b: T, c: T, descending: bool)
    ensures
        strictly_before(a, b, descending) ==> !strictly_before(b, a, descending),
        strictly_before(a, b, descending) && !strictly_before(c, b, descending) ==> strictly_before(
            a,
            c,
            descending,
        ),
{
    let (ka, kb, kc) = (a.sort_key(), b.sort_key(), c.sort_key());
    lemma_text_trichotomy(ka, kb);
    lemma_text_trichotomy(kc, kb);
    if descending {
        if text_lt(kb, ka) && text_lt(kc, kb) {
            lemma_text_lt_transitive(kc, kb, ka);
        }
    } else {
        if text_lt(ka, kb) && text_lt(kb, kc) {
            lemma_text_lt_transitive(ka, kb, kc);
        }
    }
}

/// Sorts items by their text keys, ascending or descending. The sort is
/// stable: items with equal keys keep their order.
pub fn sort_by_text<T: ListedByText>(items: Vec<T>, descending: bool) -> (sorted: Vec<T>)
    ensures
        sorted@.to_multiset() == items@.to_multiset(),
        sorted@.len() == items@.len(),
        listed(sorted@, descending),
        exists|pos: Seq<int>| stably_listed(sorted@, items@, pos, descending),
{
    broadcast use vstd::seq_lib::group_to_multiset_ensures, vstd::multiset::group_multiset_axioms;
    let ghost initial = items@;
    let mut rest = items;
    let mut sorted: Vec<T> = Vec::new();
    let ghost mut pos: Seq<int> = Seq::empty();
    let ghost mut done: int = 0;
    proof {
        lemma_text_le_total_ordering();
        assert(sorted@.to_multiset() =~= vstd::multiset::Multiset::empty());
        assert(sorted@.to_multiset().add(rest@.to_multiset()) =~= initial.to_multiset());
    }
    while rest.len() > 0
        invariant
            sorted@.to_multiset().add(rest@.to_multiset()) == initial.to_multiset(),
            sorted@.len() + rest@.len() == initial.len(),
            listed(sorted@, descending),
            total_ordering(|a: Seq<char>, b: Seq<char>| text_le(a, b)),
            0 <= done <= initial.len(),
            done == sorted@.len(),
            rest@ == initial.subrange(done, initial.len() as int),
            stably_listed(sorted@, initial.take(done), pos, descending),
        decreases rest.len(),
    {
        let ghost rest_before = rest@;
        let x = rest.remove(0);
        proof {
            vstd::seq_lib::to_multiset_remove(rest_before, 0);
            assert(rest@ == rest_before.remove(0));
            assert(x == rest_before[0]);
        }
        let kx = x.key_chars();
        let mut j: usize = 0;
        while j < sorted.len()
            invariant
                0 <= j <= sorted.len(),
                kx@ == x.sort_key(),
                forall|i: int| 0 <= i < j ==> in_order(#[trigger] sorted@[i], x, descending),
            ensures
                0 <= j <= sorted.len(),
                forall|i: int| 0 <= i < j ==> in_order(#[trigger] sorted@[i], x, descending),
                j < sorted.len() ==> if descending {
                    text_lt(sorted@[j as int].sort_key(), x.sort_key())
                } else {
                    text_lt(x.sort_key(), sorted@[j as int].sort_key())
                },
            decreases sorted.len() - j,
        {
            let ky = sorted[j].key_chars();
            let before = if descending {
                text_less(&ky, &kx)
            } else {
                text_less(&kx, &ky)
            };
            if before {
                break;
            }
            j = j + 1;
        }
        let ghost sorted_before = sorted@;
        proof {
            if j < sorted_before.len() {
                let y = sorted_before[j as int];
                lemma_text_trichotomy(x.sort_key(), y.sort_key());
            }
        }
        sorted.insert(j, x);
        proof {
            assert(sorted@ == sorted_before.insert(j as int, x));
            vstd::seq_lib::to_multiset_insert(sorted_before, j as int, x);
            assert(rest_before.to_multiset().contains(x)) by {
                vstd::seq_lib::to_multiset_contains(rest_before, x);
                assert(rest_before.contains(x)) by { assert(rest_before[0] == x); }
            }
            assert(sorted@.to_multiset().add(rest@.to_multiset()) =~= initial.to_multiset());
            assert forall|a: int, b: int| 0 <= a < b < sorted@.len() implies in_order(
                #[trigger] sorted@[a],
                #[trigger] sorted@[b],
                descending,
            ) by {
                let le = |p: Seq<char>, q: Seq<char>| text_le(p, q);
                if b < j {
                    assert(sorted@[a] == sorted_before[a]);
                    assert(sorted@[b] == sorted_before[b]);
                } else if b == j {
                    assert(sorted@[a] == sorted_before[a]);
                } else if a > j {
                    assert(sorted@[a] == sorted_before[a - 1]);
                    assert(sorted@[b] == sorted_before[b - 1]);
                } else if a == j {
                    assert(sorted@[b] == sorted_before[b - 1]);
                    let first = sorted_before[j as int];
                    assert(in_order(x, first, descending));
                    if b - 1 > j {
                        assert(in_order(first, sorted_before[b - 1], descending));
                        if descending {
                            assert(le(sorted_before[b - 1].sort_key(), first.sort_key()));
                            assert(le(first.sort_key(), x.sort_key()));
                        } else {
                            assert(le(x.sort_key(), first.sort_key()));
                            assert(le(first.sort_key(), sorted_before[b - 1].sort_key()));
                        }
                    }
                } else {
                    assert(sorted@[a] == sorted_before[a]);
                    assert(sorted@[b] == sorted_before[b - 1]);
                }
            }
        }
        proof {
            let old_pos = pos;
            let next = initial.take(done + 1);
            assert(x == initial[done]);
            pos = old_pos.insert(j as int, done);
            assert forall|k: int| 0 <= k < sorted@.len() implies 0 <= #[trigger] pos[k] < next.len()
                && sorted@[k] == next[pos[k]] by {
                if k < j {
                    assert(pos[k] == old_pos[k]);
                    assert(sorted@[k] == sorted_before[k]);
                } else if k == j {
                    assert(pos[k] == done);
                } else {
                    assert(pos[k] == old_pos[k - 1]);
                    assert(sorted@[k] == sorted_before[k - 1]);
                }
            }
            assert forall|k: int, l: int| 0 <= k < l < sorted@.len() implies strictly_before(
                #[trigger] sorted@[k],
                #[trigger] sorted@[l],
                descending,
            ) || (!strictly_before(sorted@[l], sorted@[k], descending) && pos[k] < pos[l]) by {
                if l < j {
                    assert(sorted@[k] == sorted_before[k] && sorted@[l] == sorted_before[l]);
                    assert(pos[k] == old_pos[k] && pos[l] == old_pos[l]);
                } else if l == j {
                    assert(sorted@[k] == sorted_before[k]);
                    assert(pos[k] == old_pos[k] && pos[l] == done);
                    assert(in_order(sorted_before[k], x, descending));
                } else if k > j {
                    assert(sorted@[k] == sorted_before[k - 1] && sorted@[l] == sorted_before[l - 1]);
                    assert(pos[k] == old_pos[k - 1] && pos[l] == old_pos[l - 1]);
                } else if k == j {
                    let y = sorted_before[l - 1];
                    let first = sorted_before[j as int];
                    assert(sorted@[l] == y);
                    assert(strictly_before(x, first, descending));
                    if l - 1 > j {
                        assert(strictly_before(first, y, descending) || !strictly_before(y, first, descending));
                        lemma_strictly_before_weak(first, y, x, descending);
                        lemma_strictly_before_weak(x, first, y, descending);
                    }
                } else {
                    assert(sorted@[k] == sorted_before[k] && sorted@[l] == sorted_before[l - 1]);
                    assert(pos[k] == old_pos[k] && pos[l] == old_pos[l - 1]);
                }
            }
            done = done + 1;
            assert(rest@ =~= initial.subrange(done, initial.len() as int));
        }
    }
    proof {
        assert(initial.take(done) =~= initial);
        assert(rest@.to_multiset() =~= vstd::multiset::Multiset::empty());
        assert(sorted@.to_multiset() =~= sorted@.to_multiset().add(rest@.to_multiset()));
    }
    sorted
}

} // verus!
