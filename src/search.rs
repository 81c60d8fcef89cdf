use crate::entry::{EntryView, Store};
use vstd::prelude::*;

verus! {

/// `q` occurs in `s` starting at position `i`.
pub open spec fn occurs_at(s: Seq<char>, q: Seq<char>, i: int) -> bool {
    0 <= i && i + q.len() <= s.len() && s.subrange(i, i + q.len()) == q
}

/// `q` is a contiguous part of `s`.
pub open spec fn contains_seq(s: Seq<char>, q: Seq<char>) -> bool {
    exists|i: int| occurs_at(s, q, i)
}

/// The names of a sequence of entries, in order.
pub open spec fn names_of(s: Seq<EntryView>) -> Seq<Seq<char>> {
    s.map_values(|e: EntryView| e.name)
}

/// The names that contain `q`, in their original order.
pub open spec fn filter_names(names: Seq<Seq<char>>, q: Seq<char>) -> Seq<Seq<char>>
    decreases names.len(),
{
    if names.len() == 0 {
        Seq::empty()
    } else {
        let rest = filter_names(names.drop_last(), q);
        if contains_seq(names.last(), q) {
            rest.push(names.last())
        } else {
            rest
        }
    }
}

/// Puts `x` after every element of the sorted `s` that is no longer than it.
pub open spec fn insert_by_len(s: Seq<Seq<char>>, x: Seq<char>) -> Seq<Seq<char>>
    decreases s.len(),
{
    if s.len() == 0 {
        seq![x]
    } else if s.last().len() <= x.len() {
        s.push(x)
    } else {
        insert_by_len(s.drop_last(), x).push(s.last())
    }
}

/// The stable sort of `s` by ascending length: equal lengths keep their order.
pub open spec fn sort_by_len(s: Seq<Seq<char>>) -> Seq<Seq<char>>
    decreases s.len(),
{
    if s.len() == 0 {
        Seq::empty()
    } else {
        insert_by_len(sort_by_len(s.drop_last()), s.last())
    }
}

/// An empty query keeps every name.
pub proof fn lemma_filter_empty_query(names: Seq<Seq<char>>)
    ensures
        filter_names(names, Seq::empty()) == names,
    decreases names.len(),
{
    if names.len() > 0 {
        lemma_filter_empty_query(names.drop_last());
        assert(occurs_at(names.last(), Seq::empty(), 0)) by {
            assert(names.last().subrange(0, 0) =~= Seq::<char>::empty());
        }
        assert(names.drop_last().push(names.last()) =~= names);
    } else {
        assert(names =~= Seq::<Seq<char>>::empty());
    }
}

/// The filter keeps exactly the names that contain the query.
pub proof fn lemma_filter_members(names: Seq<Seq<char>>, q: Seq<char>)
    ensures
        forall|n: Seq<char>| #[trigger] filter_names(names, q).contains(n) <==> names.contains(n) && contains_seq(n, q),
    decreases names.len(),
{
    if names.len() > 0 {
        let init = names.drop_last();
        lemma_filter_members(init, q);
        assert forall|n: Seq<char>| #[trigger] filter_names(names, q).contains(n) <==> names.contains(n) && contains_seq(n, q) by {
            let r0 = filter_names(init, q);
            if names.contains(n) && contains_seq(n, q) {
                let k = choose|k: int| 0 <= k < names.len() && names[k] == n;
                if k < names.len() - 1 {
                    assert(init[k] == n);
                    assert(r0.contains(n));
                    if contains_seq(names.last(), q) {
                        let j = choose|j: int| 0 <= j < r0.len() && r0[j] == n;
                        assert(r0.push(names.last())[j] == n);
                    }
                } else {
                    assert(r0.push(names.last())[r0.len() as int] == n);
                }
            }
            if filter_names(names, q).contains(n) {
                let r = filter_names(names, q);
                let j = choose|j: int| 0 <= j < r.len() && r[j] == n;
                if j < r0.len() {
                    assert(r0[j] == n);
                    assert(r0.contains(n));
                    let k = choose|k: int| 0 <= k < init.len() && init[k] == n;
                    assert(names[k] == n);
                } else {
                    assert(n == names.last());
                    assert(names[names.len() - 1] == n);
                }
            }
        }
    }
}

proof fn lemma_contains_trans(n: Seq<char>, q2: Seq<char>, q: Seq<char>)
    requires
        contains_seq(n, q2),
        contains_seq(q2, q),
    ensures
        contains_seq(n, q),
{
    let i = choose|i: int| occurs_at(n, q2, i);
    let j = choose|j: int| occurs_at(q2, q, j);
    assert(n.subrange(i + j, i + j + q.len()) =~= q2.subrange(j, j + q.len()));
    assert(occurs_at(n, q, i + j));
}

/// A query that contains another matches no name that the other does not:
/// typing more only narrows the matches.
pub proof fn lemma_filter_narrows(names: Seq<Seq<char>>, q: Seq<char>, q2: Seq<char>)
    requires
        contains_seq(q2, q),
    ensures
        forall|n: Seq<char>| #[trigger] filter_names(names, q2).contains(n) ==> filter_names(names, q).contains(n),
{
    lemma_filter_members(names, q);
    lemma_filter_members(names, q2);
    assert forall|n: Seq<char>| #[trigger] filter_names(names, q2).contains(n) implies filter_names(names, q).contains(n) by {
        lemma_contains_trans(n, q2, q);
    }
}

/// Appending a character to a query keeps the old query inside it.
pub proof fn lemma_extended_query_contains(q: Seq<char>, c: char)
    ensures
        contains_seq(q.push(c), q),
{
    assert(q.push(c).subrange(0, q.len() as int) =~= q);
    assert(occurs_at(q.push(c), q, 0));
}

pub open spec fn strings_view(v: Seq<String>) -> Seq<Seq<char>> {
    v.map_values(|s: String| s@)
}

pub open spec fn sorted_by_len(s: Seq<Seq<char>>) -> bool {
    forall|i: int, j: int| 0 <= i <= j < s.len() ==> #[trigger] s[i].len() <= #[trigger] s[j].len()
}

fn occurs_at_exec(s: &str, q: &str, i: usize, m: usize, n: usize) -> (r: bool)
    requires
        m == q@.len(),
        n == s@.len(),
        i + m <= s@.len(),
    ensures
        r == occurs_at(s@, q@, i as int),
{
    let mut j: usize = 0;
    while j < m
        invariant
            m == q@.len(),
            n == s@.len(),
            i + m <= s@.len(),
            j <= m,
            forall|k: int| 0 <= k < j ==> s@[i + k] == q@[k],
        decreases m - j,
    {
        if s.get_char(i + j) != q.get_char(j) {
            assert(s@.subrange(i as int, i + m)[j as int] != q@[j as int]);
            return false;
        }
        j += 1;
    }
    assert(s@.subrange(i as int, i + m) =~= q@);
    true
}

/// Whether `q` occurs in `s` as a contiguous part (case-sensitive).
pub fn contains_str(s: &str, q: &str) -> (r: bool)
    ensures
        r == contains_seq(s@, q@),
{
    let n = s.unicode_len();
    let m = q.unicode_len();
    if m > n {
        return false;
    }
    let mut i: usize = 0;
    loop
        invariant
            n == s@.len(),
            m == q@.len(),
            m <= n,
            i <= n - m,
            forall|k: int| 0 <= k < i ==> !occurs_at(s@, q@, k),
        decreases n - m - i,
    {
        if occurs_at_exec(s, q, i, m, n) {
            return true;
        }
        if i == n - m {
            assert forall|k: int| !occurs_at(s@, q@, k) by {
                if 0 <= k && k + m <= n {
                    assert(k <= i);
                }
            }
            return false;
        }
        i += 1;
    }
}

/// The names of the entries whose name contains `query`, in store order.
pub fn find_entries_containing(store: &Store, query: &str) -> (r: Vec<String>)
    ensures
        strings_view(r@) == filter_names(names_of(store@), query@),
{
    let ghost names = names_of(store@);
    let mut out: Vec<String> = Vec::new();
    let n = store.len();
    let mut i: usize = 0;
    while i < n
        invariant
            n == store@.len(),
            names == names_of(store@),
            i <= n,
            strings_view(out@) == filter_names(names.take(i as int), query@),
        decreases n - i,
    {
        let e = store.get(i);
        proof {
            assert(names.take(i + 1).drop_last() =~= names.take(i as int));
            assert(names.take(i + 1).last() == e@.name);
        }
        if contains_str(e.name.as_str(), query) {
            out.push(e.name.clone());
            assert(strings_view(out@) =~= filter_names(names.take(i as int), query@).push(e@.name));
        }
        i += 1;
    }
    assert(names.take(n as int) =~= names);
    out
}

proof fn lemma_insert_by_len(s: Seq<Seq<char>>, x: Seq<char>, p: int)
    requires
        0 <= p <= s.len(),
        p == 0 || s[p - 1].len() <= x.len(),
        forall|k: int| p <= k < s.len() ==> #[trigger] s[k].len() > x.len(),
    ensures
        insert_by_len(s, x) == s.insert(p, x),
    decreases s.len(),
{
    if s.len() == 0 {
        assert(s.insert(p, x) =~= seq![x]);
    } else if s.last().len() <= x.len() {
        assert(p == s.len());
        assert(s.insert(p, x) =~= s.push(x));
    } else {
        let t = s.drop_last();
        lemma_insert_by_len(t, x, p);
        assert(s.insert(p, x) =~= t.insert(p, x).push(s.last()));
    }
}

/// Where `insert_by_len` puts `x`: after the last element no longer than it.
pub open spec fn insert_pos(s: Seq<Seq<char>>, x: Seq<char>) -> int
    decreases s.len(),
{
    if s.len() == 0 {
        0
    } else if s.last().len() <= x.len() {
        s.len() as int
    } else {
        insert_pos(s.drop_last(), x)
    }
}

proof fn lemma_insert_pos(s: Seq<Seq<char>>, x: Seq<char>)
    ensures
        0 <= insert_pos(s, x) <= s.len(),
        insert_pos(s, x) == 0 || s[insert_pos(s, x) - 1].len() <= x.len(),
        forall|k: int| insert_pos(s, x) <= k < s.len() ==> #[trigger] s[k].len() > x.len(),
        insert_by_len(s, x) == s.insert(insert_pos(s, x), x),
    decreases s.len(),
{
    let p = insert_pos(s, x);
    if s.len() > 0 && s.last().len() > x.len() {
        let t = s.drop_last();
        lemma_insert_pos(t, x);
        assert forall|k: int| p <= k < s.len() implies #[trigger] s[k].len() > x.len() by {
            if k < t.len() {
                assert(s[k] == t[k]);
            }
        }
        if p > 0 {
            assert(s[p - 1] == t[p - 1]);
        }
    }
    lemma_insert_by_len(s, x, p);
}

/// Ranking by length gives the same names, each as often, shortest first.
pub proof fn lemma_sort_by_len(s: Seq<Seq<char>>)
    ensures
        sorted_by_len(sort_by_len(s)),
        sort_by_len(s).to_multiset() == s.to_multiset(),
    decreases s.len(),
{
    if s.len() == 0 {
        assert(s =~= Seq::<Seq<char>>::empty());
    } else {
        let s0 = s.drop_last();
        let x = s.last();
        let t = sort_by_len(s0);
        lemma_sort_by_len(s0);
        lemma_insert_pos(t, x);
        let p = insert_pos(t, x);
        let r = t.insert(p, x);
        assert forall|i: int, j: int| 0 <= i <= j < r.len() implies #[trigger] r[i].len() <= #[trigger] r[j].len() by {
            let i2 = if i < p { i } else { i - 1 };
            let j2 = if j <= p { j } else { j - 1 };
            if i != p && j != p {
                assert(r[i] == t[i2] && r[j] == t[j2]);
                assert(t[i2].len() <= t[j2].len());
            } else if i == p && j != p {
                assert(r[j] == t[j - 1]);
            } else if i != p && j == p {
                assert(r[i] == t[i]);
                assert(t[i].len() <= t[p - 1].len());
            }
        }
        vstd::seq_lib::to_multiset_insert(t, p, x);
        vstd::seq_lib::to_multiset_build(s0, x);
        assert(s0.push(x) =~= s);
    }
}

/// The names sorted by ascending length in characters; names of equal length
/// keep their order.
pub fn sort_names_by_len(v: &Vec<String>) -> (r: Vec<String>)
    ensures
        strings_view(r@) == sort_by_len(strings_view(v@)),
{
    let ghost sv = strings_view(v@);
    let mut out: Vec<String> = Vec::new();
    let mut lens: Vec<usize> = Vec::new();
    let n = v.len();
    let mut i: usize = 0;
    while i < n
        invariant
            n == v@.len(),
            sv == strings_view(v@),
            i <= n,
            lens@.len() == out@.len(),
            forall|k: int| 0 <= k < out@.len() ==> lens@[k] == (#[trigger] out@[k])@.len(),
            strings_view(out@) == sort_by_len(sv.take(i as int)),
        decreases n - i,
    {
        let x = v[i].clone();
        let xl = x.as_str().unicode_len();
        let ghost so = strings_view(out@);
        let mut p: usize = out.len();
        while p > 0 && lens[p - 1] > xl
            invariant
                p <= out@.len(),
                lens@.len() == out@.len(),
                so == strings_view(out@),
                forall|k: int| 0 <= k < out@.len() ==> lens@[k] == (#[trigger] out@[k])@.len(),
                forall|k: int| p <= k < so.len() ==> #[trigger] so[k].len() > xl,
            decreases p,
        {
            p -= 1;
        }
        proof {
            lemma_insert_by_len(so, x@, p as int);
            assert(sv.take(i + 1).drop_last() =~= sv.take(i as int));
            assert(sv.take(i + 1).last() == x@);
        }
        let ghost out_before = out@;
        let ghost lens_before = lens@;
        out.insert(p, x);
        lens.insert(p, xl);
        proof {
            assert(strings_view(out@) =~= so.insert(p as int, x@));
            assert forall|k: int| 0 <= k < out@.len() implies lens@[k] == (#[trigger] out@[k])@.len() by {
                if k > p {
                    assert(out@[k] == out_before[k - 1]);
                    assert(lens@[k] == lens_before[k - 1]);
                } else if k < p {
                    assert(out@[k] == out_before[k]);
                    assert(lens@[k] == lens_before[k]);
                }
            }
        }
        i += 1;
    }
    assert(sv.take(n as int) =~= sv);
    out
}

} // verus!
