use vstd::prelude::*;
use vstd::multiset::Multiset;

verus! {

// Lexicographic order on character sequences, substring search, and a
// first-match helper: the groundwork under sorted command trees and
// first-match name resolution.

/// Strict lexicographic order by code point, the order `str` comparison
/// uses for ASCII names.
pub open spec fn lex_lt(a: Seq<char>, b: Seq<char>) -> bool
    decreases a.len(),
{
    if b.len() == 0 {
        false
    } else if a.len() == 0 {
        true
    } else if a[0] == b[0] {
        lex_lt(a.drop_first(), b.drop_first())
    } else {
        (a[0] as u32) < (b[0] as u32)
    }
}

pub proof fn lemma_lex_lt_irrefl(a: Seq<char>)
    ensures
        !lex_lt(a, a),
    decreases a.len(),
{
    if a.len() > 0 {
        lemma_lex_lt_irrefl(a.drop_first());
    }
}

pub proof fn lemma_lex_lt_trans(a: Seq<char>, b: Seq<char>, c: Seq<char>)
    requires
        lex_lt(a, b),
        lex_lt(b, c),
    ensures
        lex_lt(a, c),
    decreases a.len(),
{
    if c.len() == 0 || a.len() == 0 {
    } else if a[0] == b[0] && b[0] == c[0] {
        lemma_lex_lt_trans(a.drop_first(), b.drop_first(), c.drop_first());
    }
}

/// Strict lexicographic comparison of two strings, character by character.
pub fn str_lex_lt(a: &str, b: &str) -> (r: bool)
    ensures
        r == lex_lt(a@, b@),
    decreases a@.len(),
{
    let na: usize = a.unicode_len();
    let nb: usize = b.unicode_len();
    if nb == 0 {
        false
    } else if na == 0 {
        true
    } else {
        let ca = a.get_char(0);
        let cb = b.get_char(0);
        if ca == cb {
            let ra = a.substring_char(1, na);
            let rb = b.substring_char(1, nb);
            proof {
                assert(ra@ =~= a@.drop_first());
                assert(rb@ =~= b@.drop_first());
            }
            str_lex_lt(ra, rb)
        } else {
            (ca as u32) < (cb as u32)
        }
    }
}

/// `n` occurs in `h` starting at position `i`.
pub open spec fn matches_at(h: Seq<char>, n: Seq<char>, i: int) -> bool {
    0 <= i && i + n.len() <= h.len() && h.subrange(i, i + n.len()) == n
}

/// `n` occurs somewhere in `h`.
pub open spec fn contains_seq(h: Seq<char>, n: Seq<char>) -> bool {
    exists|i: int| matches_at(h, n, i)
}

/// `p` is a prefix of `s`.
pub open spec fn starts_with_seq(s: Seq<char>, p: Seq<char>) -> bool {
    s.len() >= p.len() && s.take(p.len() as int) == p
}

fn eq_at(h: &str, n: &str, i: usize) -> (r: bool)
    requires
        i + n@.len() <= h@.len(),
    ensures
        r == matches_at(h@, n@, i as int),
{
    let nh: usize = h.unicode_len();
    let m: usize = n.unicode_len();
    let mut j: usize = 0;
    while j < m
        invariant
            m == n@.len(),
            nh == h@.len(),
            i + m <= nh,
            j <= m,
            forall|k: int| 0 <= k < j ==> h@[i + k] == n@[k],
        decreases m - j,
    {
        if h.get_char(i + j) != n.get_char(j) {
            proof {
                assert(h@.subrange(i as int, i + m)[j as int] == h@[i + j]);
            }
            return false;
        }
        j += 1;
    }
    proof {
        assert(h@.subrange(i as int, i + m) =~= n@);
    }
    true
}

/// Whether `p` is a prefix of `s`.
pub fn str_starts_with(s: &str, p: &str) -> (r: bool)
    ensures
        r == starts_with_seq(s@, p@),
{
    let ns: usize = s.unicode_len();
    let np: usize = p.unicode_len();
    if np > ns {
        proof {
            assert(!starts_with_seq(s@, p@));
        }
        return false;
    }
    let r = eq_at(s, p, 0);
    proof {
        assert(s@.subrange(0, p@.len() as int) =~= s@.take(p@.len() as int));
    }
    r
}

/// Whether `n` occurs as a substring of `h`.
pub fn str_contains(h: &str, n: &str) -> (r: bool)
    ensures
        r == contains_seq(h@, n@),
{
    let nh: usize = h.unicode_len();
    let nn: usize = n.unicode_len();
    if nn > nh {
        proof {
            assert(forall|i: int| !matches_at(h@, n@, i));
        }
        return false;
    }
    if nn == 0 {
        proof {
            assert(h@.subrange(0, 0) =~= n@);
            assert(matches_at(h@, n@, 0));
        }
        return true;
    }
    let mut i: usize = 0;
    while i <= nh - nn
        invariant
            nh == h@.len(),
            nn == n@.len(),
            1 <= nn <= nh,
            i <= nh - nn + 1,
            forall|k: int| 0 <= k < i ==> !matches_at(h@, n@, k),
        decreases nh - nn + 1 - i,
    {
        if eq_at(h, n, i) {
            return true;
        }
        i += 1;
    }
    proof {
        assert(forall|k: int| matches_at(h@, n@, k) ==> 0 <= k <= nh - nn);
    }
    false
}

/// Whether two strings hold the same characters.
pub fn str_eq(a: &str, b: &str) -> (r: bool)
    ensures
        r == (a@ == b@),
{
    let na: usize = a.unicode_len();
    let nb: usize = b.unicode_len();
    if na != nb {
        return false;
    }
    let r = eq_at(a, b, 0);
    proof {
        assert(a@.subrange(0, nb as int) =~= a@);
    }
    r
}

/// `i` is the first index below `n` satisfying `p`.
pub open spec fn is_first_where(p: spec_fn(int) -> bool, n: int, i: int) -> bool {
    0 <= i < n && p(i) && forall|j: int| 0 <= j < i ==> !(#[trigger] p(j))
}

/// The first index below `n` satisfying `p`, if any.
pub open spec fn first_where(p: spec_fn(int) -> bool, n: int) -> Option<int> {
    if exists|i: int| is_first_where(p, n, i) {
        Option::Some(choose|i: int| is_first_where(p, n, i))
    } else {
        Option::None
    }
}

pub proof fn lemma_first_where_some(p: spec_fn(int) -> bool, n: int, i: int)
    requires
        is_first_where(p, n, i),
    ensures
        first_where(p, n) == Option::<int>::Some(i),
{
    let k = choose|k: int| is_first_where(p, n, k);
    if k < i {
        assert(!p(k));
    } else if i < k {
        assert(!p(i));
    }
}

pub proof fn lemma_first_where_none(p: spec_fn(int) -> bool, n: int)
    requires
        forall|i: int| 0 <= i < n ==> !(#[trigger] p(i)),
    ensures
        first_where(p, n) == Option::<int>::None,
{
    if exists|i: int| is_first_where(p, n, i) {
        let k = choose|k: int| is_first_where(p, n, k);
        assert(!p(k));
    }
}

/// Predicates that agree below `n` have the same first index.
pub proof fn lemma_first_where_congruence(p: spec_fn(int) -> bool, q: spec_fn(int) -> bool, n: int)
    requires
        forall|i: int| #![trigger p(i)] #![trigger q(i)] 0 <= i < n ==> p(i) == q(i),
    ensures
        first_where(p, n) == first_where(q, n),
{
    match first_where(p, n) {
        Option::Some(i) => {
            assert(is_first_where(p, n, i));
            assert(q(i));
            assert(forall|j: int| 0 <= j < i ==> !(#[trigger] q(j)) && !p(j));
            lemma_first_where_some(q, n, i);
        },
        Option::None => {
            assert forall|i: int| 0 <= i < n implies !(#[trigger] q(i)) by {
                if q(i) {
                    assert(p(i));
                    lemma_exists_first(p, n, i);
                    assert(first_where(p, n) matches Option::Some(_));
                }
            }
            lemma_first_where_none(q, n);
        },
    }
}

/// If some index below `n` satisfies `p`, a first such index exists.
pub proof fn lemma_exists_first(p: spec_fn(int) -> bool, n: int, i: int)
    requires
        0 <= i < n,
        p(i),
    ensures
        exists|k: int| is_first_where(p, n, k),
    decreases i,
{
    if forall|j: int| 0 <= j < i ==> !(#[trigger] p(j)) {
        assert(is_first_where(p, n, i));
    } else {
        let j = choose|j: int| 0 <= j < i && #[trigger] p(j);
        lemma_exists_first(p, n, j);
    }
}

/// Inserts `x` into `s` before the first element whose key is strictly
/// greater, so an element with an already-present key lands after its
/// equals, as a stable sort would place it.
pub open spec fn sorted_insert<T>(s: Seq<T>, x: T, key: spec_fn(T) -> Seq<char>) -> Seq<T>
    decreases s.len(),
{
    if s.len() == 0 {
        seq![x]
    } else if lex_lt(key(x), key(s[0])) {
        seq![x] + s
    } else {
        seq![s[0]] + sorted_insert(s.drop_first(), x, key)
    }
}

/// Sorted ascending by key: no later element has a strictly smaller key.
pub open spec fn sorted_by_key<T>(s: Seq<T>, key: spec_fn(T) -> Seq<char>) -> bool {
    forall|i: int, j: int|
        0 <= i < j < s.len() ==> !lex_lt(key(#[trigger] s[j]), key(#[trigger] s[i]))
}

/// Where `sorted_insert` puts the new element: at the first position whose
/// key is strictly greater than the new element's key.
pub proof fn lemma_sorted_insert_at<T>(s: Seq<T>, x: T, key: spec_fn(T) -> Seq<char>, k: int)
    requires
        0 <= k <= s.len(),
        forall|j: int| 0 <= j < k ==> !lex_lt(key(x), key(#[trigger] s[j])),
        k < s.len() ==> lex_lt(key(x), key(s[k])),
    ensures
        sorted_insert(s, x, key) == s.take(k) + seq![x] + s.skip(k),
    decreases s.len(),
{
    if s.len() == 0 {
        assert(s.take(k) + seq![x] + s.skip(k) =~= seq![x]);
    } else if lex_lt(key(x), key(s[0])) {
        assert(k == 0);
        assert(s.take(0) + seq![x] + s.skip(0) =~= seq![x] + s);
    } else {
        assert(k >= 1);
        let t = s.drop_first();
        assert(forall|j: int| 0 <= j < k - 1 ==> t[j] == s[j + 1] && !lex_lt(key(x), key(t[j])));
        assert(k - 1 < t.len() ==> lex_lt(key(x), key(t[k - 1])));
        lemma_sorted_insert_at(t, x, key, k - 1);
        assert(seq![s[0]] + (t.take(k - 1) + seq![x] + t.skip(k - 1)) =~= s.take(k) + seq![x]
            + s.skip(k));
    }
}

/// Inserting into a sorted sequence keeps it sorted.
pub proof fn lemma_sorted_insert_sorted<T>(s: Seq<T>, x: T, key: spec_fn(T) -> Seq<char>, k: int)
    requires
        sorted_by_key(s, key),
        0 <= k <= s.len(),
        forall|j: int| 0 <= j < k ==> !lex_lt(key(x), key(#[trigger] s[j])),
        k < s.len() ==> lex_lt(key(x), key(s[k])),
    ensures
        sorted_by_key(s.take(k) + seq![x] + s.skip(k), key),
{
    let r = s.take(k) + seq![x] + s.skip(k);
    assert forall|i: int, j: int| 0 <= i < j < r.len() implies !lex_lt(
        key(#[trigger] r[j]),
        key(#[trigger] r[i]),
    ) by {
        if i < k {
            assert(r[i] == s[i]);
        } else if i == k {
            assert(r[i] == x);
        } else {
            assert(r[i] == s[i - 1]);
        }
        if j < k {
            assert(r[j] == s[j]);
        } else if j == k {
            assert(r[j] == x);
        } else {
            assert(r[j] == s[j - 1]);
        }
        if i == k && j > k {
            // x stands before s[j-1], where j-1 >= k: if s[j-1] were smaller
            // than x, order through s[k] would contradict s's sortedness.
            if lex_lt(key(s[j - 1]), key(x)) {
                assert(k < s.len());
                if j - 1 > k {
                    assert(!lex_lt(key(s[j - 1]), key(s[k])));
                    lemma_lex_lt_trans(key(s[j - 1]), key(x), key(s[k]));
                } else {
                    lemma_lex_lt_trans(key(s[k]), key(x), key(s[k]));
                    lemma_lex_lt_irrefl(key(s[k]));
                }
            }
        }
    }
}

/// Every element of the result of an insertion is the inserted element or
/// one already present.
pub proof fn lemma_sorted_insert_elem<T>(s: Seq<T>, x: T, key: spec_fn(T) -> Seq<char>, idx: int)
    requires
        0 <= idx < sorted_insert(s, x, key).len(),
    ensures
        sorted_insert(s, x, key)[idx] == x || s.contains(sorted_insert(s, x, key)[idx]),
    decreases s.len(),
{
    let r = sorted_insert(s, x, key);
    if s.len() == 0 {
    } else if lex_lt(key(x), key(s[0])) {
        if idx > 0 {
            assert(r[idx] == s[idx - 1]);
        }
    } else {
        let t = s.drop_first();
        if idx == 0 {
            assert(r[0] == s[0]);
            assert(s.contains(s[0]));
        } else {
            assert(r[idx] == sorted_insert(t, x, key)[idx - 1]);
            lemma_sorted_insert_elem(t, x, key, idx - 1);
            if t.contains(sorted_insert(t, x, key)[idx - 1]) {
                let w = choose|w: int| 0 <= w < t.len() && t[w] == sorted_insert(t, x, key)[idx
                    - 1];
                assert(s[w + 1] == t[w]);
                assert(s.contains(s[w + 1]));
            }
        }
    }
}

/// Inserting into a sequence sorted by key keeps it sorted by that key.
pub proof fn lemma_sorted_insert_preserves<T>(s: Seq<T>, x: T, key: spec_fn(T) -> Seq<char>)
    requires
        sorted_by_key(s, key),
    ensures
        sorted_by_key(sorted_insert(s, x, key), key),
    decreases s.len(),
{
    let r = sorted_insert(s, x, key);
    if s.len() == 0 {
    } else if lex_lt(key(x), key(s[0])) {
        assert forall|i: int, j: int| 0 <= i < j < r.len() implies !lex_lt(
            key(#[trigger] r[j]),
            key(#[trigger] r[i]),
        ) by {
            if i == 0 {
                assert(r[0] == x);
                assert(r[j] == s[j - 1]);
                if lex_lt(key(s[j - 1]), key(x)) {
                    if j - 1 == 0 {
                        lemma_lex_lt_trans(key(s[0]), key(x), key(s[0]));
                        lemma_lex_lt_irrefl(key(s[0]));
                    } else {
                        assert(!lex_lt(key(s[j - 1]), key(s[0])));
                        lemma_lex_lt_trans(key(s[j - 1]), key(x), key(s[0]));
                    }
                }
            } else {
                assert(r[i] == s[i - 1] && r[j] == s[j - 1]);
            }
        }
    } else {
        let t = s.drop_first();
        assert(sorted_by_key(t, key)) by {
            assert(forall|i: int, j: int|
                0 <= i < j < t.len() ==> t[i] == s[i + 1] && t[j] == s[j + 1]);
        }
        lemma_sorted_insert_preserves(t, x, key);
        let rt = sorted_insert(t, x, key);
        assert forall|i: int, j: int| 0 <= i < j < r.len() implies !lex_lt(
            key(#[trigger] r[j]),
            key(#[trigger] r[i]),
        ) by {
            if i == 0 {
                assert(r[0] == s[0]);
                assert(r[j] == rt[j - 1]);
                lemma_sorted_insert_elem(t, x, key, j - 1);
                if rt[j - 1] == x {
                    // the new element's key is not below the head's
                    if lex_lt(key(x), key(s[0])) {
                    }
                } else {
                    let w = choose|w: int| 0 <= w < t.len() && t[w] == rt[j - 1];
                    assert(s[w + 1] == t[w]);
                    assert(!lex_lt(key(s[w + 1]), key(s[0])));
                }
            } else {
                assert(r[i] == rt[i - 1] && r[j] == rt[j - 1]);
            }
        }
    }
}

/// Inserting adds exactly the new element to the sequence's contents.
pub proof fn lemma_sorted_insert_multiset<T>(s: Seq<T>, x: T, key: spec_fn(T) -> Seq<char>)
    ensures
        sorted_insert(s, x, key).to_multiset() == s.to_multiset().insert(x),
    decreases s.len(),
{
    broadcast use vstd::seq_lib::group_to_multiset_ensures;

    if s.len() == 0 {
        assert(seq![x] =~= Seq::<T>::empty().push(x));
        assert(Seq::<T>::empty().push(x).to_multiset() == s.to_multiset().insert(x));
    } else if lex_lt(key(x), key(s[0])) {
        assert(seq![x] + s =~= s.insert(0, x));
        vstd::seq_lib::lemma_multiset_commutative(seq![x], s);
        assert(seq![x].to_multiset() =~= Multiset::<T>::empty().insert(x));
        assert((seq![x] + s).to_multiset() == s.to_multiset().insert(x)) by {
            assert(seq![x].to_multiset().add(s.to_multiset()) =~= s.to_multiset().insert(x));
        }
    } else {
        let t = s.drop_first();
        lemma_sorted_insert_multiset(t, x, key);
        vstd::seq_lib::lemma_multiset_commutative(seq![s[0]], sorted_insert(t, x, key));
        vstd::seq_lib::lemma_multiset_commutative(seq![s[0]], t);
        assert(seq![s[0]] + t =~= s);
        assert(seq![s[0]].to_multiset() =~= Multiset::<T>::empty().insert(s[0]));
        assert((seq![s[0]] + sorted_insert(t, x, key)).to_multiset() =~= s.to_multiset().insert(
            x,
        )) by {
            assert(seq![s[0]].to_multiset().add(t.to_multiset().insert(x))
                =~= seq![s[0]].to_multiset().add(t.to_multiset()).insert(x));
        }
    }
}

} // verus!
