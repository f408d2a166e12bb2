//! Listing the locally available mappings: file names with a family's suffix,
//! stripped and sorted.
use vstd::prelude::*;

use crate::text::{chars_of, string_of};

verus! {

broadcast use vstd::seq_lib::to_multiset_insert, vstd::seq_lib::to_multiset_build;

/// The order of strings: character by character, a proper prefix first.
pub open spec fn text_le(a: Seq<char>, b: Seq<char>) -> bool
    decreases a.len(),
{
    if a.len() == 0 {
        true
    } else if b.len() == 0 {
        false
    } else if a[0] != b[0] {
        (a[0] as int) < (b[0] as int)
    } else {
        text_le(a.drop_first(), b.drop_first())
    }
}

pub proof fn lemma_text_le_total(a: Seq<char>, b: Seq<char>)
    ensures
        text_le(a, b) || text_le(b, a),
    decreases a.len(),
{
    if a.len() > 0 && b.len() > 0 && a[0] == b[0] {
        lemma_text_le_total(a.drop_first(), b.drop_first());
    }
}

pub proof fn lemma_text_le_transitive(a: Seq<char>, b: Seq<char>, c: Seq<char>)
    requires
        text_le(a, b),
        text_le(b, c),
    ensures
        text_le(a, c),
    decreases a.len(),
{
    if a.len() > 0 && b.len() > 0 && c.len() > 0 && a[0] == b[0] && b[0] == c[0] {
        lemma_text_le_transitive(a.drop_first(), b.drop_first(), c.drop_first());
    }
}

/// `text_le` on strings.
pub fn text_le_exec(a: &str, b: &str) -> (r: bool)
    ensures
        r == text_le(a@, b@),
{
    let x = chars_of(a);
    let y = chars_of(b);
    let mut i: usize = 0;
    assert(x@.subrange(0, x@.len() as int) =~= x@);
    assert(y@.subrange(0, y@.len() as int) =~= y@);
    while i < x.len() && i < y.len() && x[i] == y[i]
        invariant
            i <= x@.len(),
            i <= y@.len(),
            x@ == a@,
            y@ == b@,
            text_le(a@, b@) == text_le(x@.subrange(i as int, x@.len() as int), y@.subrange(i as int, y@.len() as int)),
        decreases x@.len() - i,
    {
        assert(x@.subrange(i as int, x@.len() as int).drop_first() =~= x@.subrange(i + 1, x@.len() as int));
        assert(y@.subrange(i as int, y@.len() as int).drop_first() =~= y@.subrange(i + 1, y@.len() as int));
        i = i + 1;
    }
    if i == x.len() {
        true
    } else if i == y.len() {
        false
    } else {
        x[i] < y[i]
    }
}

/// Whether a sequence of strings is in `text_le` order.
pub open spec fn sorted_texts(s: Seq<Seq<char>>) -> bool {
    forall|i: int, j: int| 0 <= i < j < s.len() ==> text_le(#[trigger] s[i], #[trigger] s[j])
}

pub open spec fn ends_with(s: Seq<char>, suffix: Seq<char>) -> bool {
    suffix.len() <= s.len() && s.subrange(s.len() - suffix.len(), s.len() as int) == suffix
}

/// The names that end with `suffix`, without it, in order.
pub open spec fn stripped(names: Seq<Seq<char>>, suffix: Seq<char>) -> Seq<Seq<char>>
    decreases names.len(),
{
    if names.len() == 0 {
        Seq::empty()
    } else {
        let n = names.last();
        let rest = stripped(names.drop_last(), suffix);
        if ends_with(n, suffix) {
            rest.push(n.subrange(0, n.len() - suffix.len()))
        } else {
            rest
        }
    }
}

pub open spec fn texts(v: Seq<String>) -> Seq<Seq<char>> {
    v.map_values(|s: String| s@)
}

/// Insert `name` into a sorted list, after every entry not above it.
fn insert_sorted(list: &mut Vec<String>, name: String)
    requires
        sorted_texts(texts(old(list)@)),
    ensures
        sorted_texts(texts(final(list)@)),
        texts(final(list)@).to_multiset() == texts(old(list)@).to_multiset().insert(name@),
{
    let ghost l0 = texts(list@);
    let mut p: usize = 0;
    while p < list.len() && text_le_exec(list[p].as_str(), name.as_str())
        invariant
            p <= list@.len(),
            l0 == texts(list@),
            sorted_texts(l0),
            forall|k: int| 0 <= k < p ==> text_le(#[trigger] l0[k], name@),
        decreases list@.len() - p,
    {
        p = p + 1;
    }
    proof {
        if p < list@.len() {
            lemma_text_le_total(l0[p as int], name@);
        }
    }
    let ghost nm = name@;
    list.insert(p, name);
    proof {
        let l1 = texts(list@);
        assert(l1 =~= l0.insert(p as int, nm));
        assert forall|i: int, j: int| 0 <= i < j < l1.len() implies text_le(#[trigger] l1[i], #[trigger] l1[j]) by {
            if j < p {
            } else if j == p {
                assert(l1[i] == l0[i]);
            } else if i == p {
                assert(l1[j] == l0[j - 1]);
                if j - 1 > p {
                    assert(text_le(l0[p as int], l0[j - 1]));
                    lemma_text_le_transitive(nm, l0[p as int], l0[j - 1]);
                }
            } else if i < p {
                assert(l1[i] == l0[i]);
                assert(l1[j] == l0[j - 1]);
            } else {
                assert(l1[i] == l0[i - 1]);
                assert(l1[j] == l0[j - 1]);
            }
        }
    }
}

/// The versions found in a directory listing for one family: the names that
/// end with the family's suffix, without it, sorted.
pub fn listed_versions(names: &Vec<String>, suffix: &str) -> (r: Vec<String>)
    ensures
        sorted_texts(texts(r@)),
        texts(r@).to_multiset() == stripped(texts(names@), suffix@).to_multiset(),
{
    let suf = chars_of(suffix);
    let mut out: Vec<String> = Vec::new();
    let mut i: usize = 0;
    assert(texts(names@).take(0) =~= Seq::<Seq<char>>::empty());
    assert(texts(out@) =~= Seq::<Seq<char>>::empty());
    while i < names.len()
        invariant
            i <= names@.len(),
            suf@ == suffix@,
            sorted_texts(texts(out@)),
            texts(out@).to_multiset() == stripped(texts(names@).take(i as int), suffix@).to_multiset(),
        decreases names@.len() - i,
    {
        let n = chars_of(names[i].as_str());
        proof {
            assert(texts(names@).take(i + 1).drop_last() =~= texts(names@).take(i as int));
            assert(texts(names@).take(i + 1).last() == n@);
        }
        if suf.len() <= n.len() && ends_at(n.as_slice(), suf.as_slice()) {
            let v = string_of(vstd::slice::slice_subrange(n.as_slice(), 0, n.len() - suf.len()));
            insert_sorted(&mut out, v);
        }
        i = i + 1;
    }
    assert(texts(names@).take(i as int) =~= texts(names@));
    out
}

/// Whether `s` ends with `suffix`.
fn ends_at(s: &[char], suffix: &[char]) -> (r: bool)
    requires
        suffix@.len() <= s@.len(),
    ensures
        r == ends_with(s@, suffix@),
{
    let off = s.len() - suffix.len();
    let mut k: usize = 0;
    while k < suffix.len()
        invariant
            k <= suffix@.len(),
            off + suffix@.len() == s@.len(),
            s@.len() == s.len(),
            forall|t: int| 0 <= t < k ==> s@[off + t] == suffix@[t],
        decreases suffix@.len() - k,
    {
        if s[off + k] != suffix[k] {
            assert(s@.subrange(off as int, s@.len() as int)[k as int] != suffix@[k as int]);
            return false;
        }
        k = k + 1;
    }
    assert(s@.subrange(off as int, s@.len() as int) =~= suffix@);
    true
}

pub proof fn lemma_text_le_antisymmetric(a: Seq<char>, b: Seq<char>)
    requires
        text_le(a, b),
        text_le(b, a),
    ensures
        a == b,
    decreases a.len(),
{
    if a.len() > 0 && b.len() > 0 {
        assert(a[0] == b[0]);
        lemma_text_le_antisymmetric(a.drop_first(), b.drop_first());
        assert(a.len() == b.len());
        assert forall|i: int| 0 <= i < a.len() implies a[i] == b[i] by {
            if i > 0 {
                assert(a[i] == a.drop_first()[i - 1]);
                assert(b[i] == b.drop_first()[i - 1]);
            }
        }
        assert(a =~= b);
    } else {
        assert(a =~= b);
    }
}

/// A listing is determined by the names it holds: two sorted listings with
/// the same names (counted with repetition) are equal, so the answer does not
/// depend on the order in which a directory is read.
pub proof fn law_listing_determined(a: Seq<Seq<char>>, b: Seq<Seq<char>>)
    requires
        sorted_texts(a),
        sorted_texts(b),
        a.to_multiset() == b.to_multiset(),
    ensures
        a == b,
    decreases a.len(),
{
    broadcast use vstd::seq_lib::to_multiset_len, vstd::seq_lib::to_multiset_contains,
        vstd::seq_lib::to_multiset_remove;

    assert(a.to_multiset().len() == b.to_multiset().len());
    if a.len() == 0 {
        assert(a =~= b);
    } else {
        assert(a.contains(a[0]));
        assert(a.to_multiset().count(a[0]) > 0);
        assert(b.to_multiset().count(a[0]) > 0);
        assert(b.contains(a[0]));
        let k = choose|k: int| 0 <= k < b.len() && b[k] == a[0];
        assert(b.contains(b[0]));
        assert(b.to_multiset().count(b[0]) > 0);
        assert(a.contains(b[0]));
        let k2 = choose|k2: int| 0 <= k2 < a.len() && a[k2] == b[0];
        if k == 0 {
            lemma_text_le_refl(b[0]);
        } else {
            assert(text_le(b[0], b[k]));
        }
        if k2 == 0 {
            lemma_text_le_refl(a[0]);
        } else {
            assert(text_le(a[0], a[k2]));
        }
        lemma_text_le_antisymmetric(a[0], b[0]);
        let a1 = a.remove(0);
        let b1 = b.remove(0);
        assert(a1.to_multiset() == a.to_multiset().remove(a[0]));
        assert(b1.to_multiset() == b.to_multiset().remove(b[0]));
        assert(sorted_texts(a1)) by {
            assert forall|i: int, j: int| 0 <= i < j < a1.len() implies text_le(#[trigger] a1[i], #[trigger] a1[j]) by {
                assert(a1[i] == a[i + 1] && a1[j] == a[j + 1]);
            }
        }
        assert(sorted_texts(b1)) by {
            assert forall|i: int, j: int| 0 <= i < j < b1.len() implies text_le(#[trigger] b1[i], #[trigger] b1[j]) by {
                assert(b1[i] == b[i + 1] && b1[j] == b[j + 1]);
            }
        }
        law_listing_determined(a1, b1);
        assert(a =~= b) by {
            assert forall|i: int| 0 <= i < a.len() implies a[i] == b[i] by {
                if i > 0 {
                    assert(a[i] == a1[i - 1] && b[i] == b1[i - 1]);
                }
            }
        }
    }
}

pub proof fn lemma_text_le_refl(a: Seq<char>)
    ensures
        text_le(a, a),
    decreases a.len(),
{
    if a.len() > 0 {
        lemma_text_le_refl(a.drop_first());
    }
}

} // verus!
