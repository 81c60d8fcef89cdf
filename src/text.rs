use vstd::prelude::*;

verus! {

/// Compares two strings character by character.
pub fn str_eq(a: &str, b: &str) -> (r: bool)
    ensures
        r == (a@ == b@),
{
    let n = a.unicode_len();
    if n != b.unicode_len() {
        return false;
    }
    let mut i: usize = 0;
    while i < n
        invariant
            n == a@.len(),
            n == b@.len(),
            i <= n,
            forall|k: int| 0 <= k < i ==> a@[k] == b@[k],
        decreases n - i,
    {
        if a.get_char(i) != b.get_char(i) {
            return false;
        }
        i += 1;
    }
    assert(a@ =~= b@);
    true
}

/// Relies on String::push: appends one character at the end.
#[verifier::external_body]
pub(crate) fn push_char(s: &mut String, c: char)
    ensures
        final(s)@ == old(s)@.push(c),
{
    s.push(c)
}

/// The pieces of `t` between occurrences of `sep`; there is always one more
/// piece than there are separators.
pub open spec fn split_seq(t: Seq<char>, sep: char) -> Seq<Seq<char>>
    decreases t.len(),
{
    if t.len() == 0 {
        seq![Seq::<char>::empty()]
    } else {
        let r = split_seq(t.drop_last(), sep);
        if t.last() == sep {
            r.push(Seq::<char>::empty())
        } else {
            r.update(r.len() - 1, r.last().push(t.last()))
        }
    }
}

pub proof fn lemma_split_len(t: Seq<char>, sep: char)
    ensures
        split_seq(t, sep).len() >= 1,
    decreases t.len(),
{
    if t.len() > 0 {
        lemma_split_len(t.drop_last(), sep);
    }
}

/// Splitting at a separator splits the two sides apart.
pub proof fn lemma_split_concat(a: Seq<char>, b: Seq<char>, sep: char)
    ensures
        split_seq(a + seq![sep] + b, sep) == split_seq(a, sep) + split_seq(b, sep),
    decreases b.len(),
{
    lemma_split_len(a, sep);
    lemma_split_len(b, sep);
    let ab = a + seq![sep] + b;
    if b.len() == 0 {
        assert(ab.drop_last() =~= a);
        assert(split_seq(ab, sep) =~= split_seq(a, sep) + split_seq(b, sep));
    } else {
        let b0 = b.drop_last();
        lemma_split_concat(a, b0, sep);
        lemma_split_len(b0, sep);
        assert(ab.drop_last() =~= a + seq![sep] + b0);
        assert(ab.last() == b.last());
        assert(split_seq(ab, sep) =~= split_seq(a, sep) + split_seq(b, sep));
    }
}

/// A text without the separator is a single piece.
pub proof fn lemma_split_none(t: Seq<char>, sep: char)
    requires
        !t.contains(sep),
    ensures
        split_seq(t, sep) == seq![t],
    decreases t.len(),
{
    if t.len() > 0 {
        let t0 = t.drop_last();
        assert(!t0.contains(sep)) by {
            if t0.contains(sep) {
                let k = choose|k: int| 0 <= k < t0.len() && t0[k] == sep;
                assert(t[k] == sep);
            }
        }
        lemma_split_none(t0, sep);
        assert(t.last() != sep) by {
            assert(t[t.len() - 1] == t.last());
        }
        assert(t0.push(t.last()) =~= t);
        assert(split_seq(t, sep) =~= seq![t]);
    } else {
        assert(t =~= Seq::<char>::empty());
    }
}

/// The pieces joined back together, `sep` between each two.
pub open spec fn join_seq(ps: Seq<Seq<char>>, sep: char) -> Seq<char>
    decreases ps.len(),
{
    if ps.len() <= 1 {
        if ps.len() == 1 {
            ps[0]
        } else {
            Seq::empty()
        }
    } else {
        join_seq(ps.drop_last(), sep) + seq![sep] + ps.last()
    }
}

proof fn lemma_join_extend_last(ps: Seq<Seq<char>>, sep: char, c: char)
    requires
        ps.len() >= 1,
    ensures
        join_seq(ps.update(ps.len() - 1, ps.last().push(c)), sep) == join_seq(ps, sep).push(c),
{
    let qs = ps.update(ps.len() - 1, ps.last().push(c));
    if ps.len() == 1 {
        assert(qs[0] == ps[0].push(c));
    } else {
        assert(qs.drop_last() =~= ps.drop_last());
        assert(join_seq(qs, sep) =~= join_seq(ps, sep).push(c));
    }
}

/// Joining the pieces at the separator gives the text back.
pub proof fn lemma_join_split(t: Seq<char>, sep: char)
    ensures
        join_seq(split_seq(t, sep), sep) == t,
    decreases t.len(),
{
    if t.len() == 0 {
        assert(t =~= Seq::<char>::empty());
    } else {
        let t0 = t.drop_last();
        lemma_join_split(t0, sep);
        lemma_split_len(t0, sep);
        let r = split_seq(t0, sep);
        if t.last() == sep {
            assert(r.push(Seq::<char>::empty()).drop_last() =~= r);
            assert(join_seq(split_seq(t, sep), sep) =~= t);
        } else {
            lemma_join_extend_last(r, sep, t.last());
            assert(t0.push(t.last()) =~= t);
        }
    }
}

/// No piece holds the separator.
pub proof fn lemma_split_pieces(t: Seq<char>, sep: char)
    ensures
        forall|k: int| 0 <= k < split_seq(t, sep).len() ==> !(#[trigger] split_seq(t, sep)[k]).contains(sep),
    decreases t.len(),
{
    if t.len() > 0 {
        let t0 = t.drop_last();
        lemma_split_pieces(t0, sep);
        lemma_split_len(t0, sep);
        let r = split_seq(t0, sep);
        let p = split_seq(t, sep);
        assert forall|k: int| 0 <= k < p.len() implies !(#[trigger] p[k]).contains(sep) by {
            if t.last() != sep && k == r.len() - 1 {
                let x = r.last();
                assert(!x.contains(sep)) by {
                    assert(x == r[r.len() - 1]);
                }
                if p[k].contains(sep) {
                    let j = choose|j: int| 0 <= j < p[k].len() && p[k][j] == sep;
                    assert(p[k] == x.push(t.last()));
                    if j < x.len() {
                        assert(x[j] == sep);
                    }
                }
            } else if k < r.len() {
                assert(p[k] == r[k]);
            } else {
                assert(p[k] =~= Seq::<char>::empty());
            }
        }
    } else {
        assert(split_seq(t, sep) =~= seq![Seq::<char>::empty()]);
    }
}

/// Splits `t` at every `sep`.
pub fn split_fields(t: &str, sep: char) -> (r: Vec<String>)
    ensures
        r@.map_values(|s: String| s@) == split_seq(t@, sep),
{
    let n = t.unicode_len();
    let mut done: Vec<String> = Vec::new();
    let mut cur = String::new();
    let mut i: usize = 0;
    while i < n
        invariant
            n == t@.len(),
            i <= n,
            done@.map_values(|s: String| s@).push(cur@) == split_seq(t@.take(i as int), sep),
        decreases n - i,
    {
        let c = t.get_char(i);
        let ghost pre = done@.map_values(|s: String| s@).push(cur@);
        proof {
            assert(t@.take(i + 1).drop_last() =~= t@.take(i as int));
            assert(t@.take(i + 1).last() == c);
        }
        if c == sep {
            done.push(cur);
            cur = String::new();
            assert(done@.map_values(|s: String| s@).push(cur@) =~= pre.push(Seq::<char>::empty()));
        } else {
            let ghost cur0 = cur@;
            push_char(&mut cur, c);
            assert(done@.map_values(|s: String| s@).push(cur@) =~= pre.update(
                pre.len() - 1,
                cur0.push(c),
            ));
        }
        i += 1;
    }
    assert(t@.take(n as int) =~= t@);
    done.push(cur);
    done
}

} // verus!
