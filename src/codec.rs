use crate::entry::{entries_view, store_wf, EntryView, MapEntry, Store, StoreError};
use crate::text::{
    join_seq, lemma_join_split, lemma_split_concat, lemma_split_len, lemma_split_none, split_fields,
    split_seq,
};
use vstd::prelude::*;
use vstd::string::StringExecFns;

verus! {

/// One record: name, category and identifier joined by `;`.
pub open spec fn encode_line(e: EntryView) -> Seq<char> {
    e.name + seq![';'] + e.category + seq![';'] + e.filehash
}

/// The store file: one record per entry, in store order, each ended by a
/// line break.
pub open spec fn encode(s: Seq<EntryView>) -> Seq<char>
    decreases s.len(),
{
    if s.len() == 0 {
        Seq::empty()
    } else {
        encode(s.drop_last()) + encode_line(s.last()) + seq!['\n']
    }
}

/// The lines of a text; a final line break ends the last line rather than
/// starting an empty one.
pub open spec fn lines_of(t: Seq<char>) -> Seq<Seq<char>> {
    let p = split_seq(t, '\n');
    if p.last().len() == 0 {
        p.drop_last()
    } else {
        p
    }
}

/// A record is three non-empty fields.
pub open spec fn parse_line(l: Seq<char>) -> Option<EntryView> {
    let f = split_seq(l, ';');
    if f.len() == 3 && f[0].len() > 0 && f[1].len() > 0 && f[2].len() > 0 {
        Some(EntryView { name: f[0], category: f[1], filehash: f[2] })
    } else {
        None
    }
}

/// Every line a record, or nothing.
pub open spec fn parse_lines(ls: Seq<Seq<char>>) -> Option<Seq<EntryView>>
    decreases ls.len(),
{
    if ls.len() == 0 {
        Some(Seq::empty())
    } else {
        match (parse_lines(ls.drop_last()), parse_line(ls.last())) {
            (Some(s), Some(e)) => Some(s.push(e)),
            _ => None,
        }
    }
}

/// The entries that a store file holds, if it is well formed and they meet
/// the store's invariant.
pub open spec fn decode(t: Seq<char>) -> Option<Seq<EntryView>> {
    match parse_lines(lines_of(t)) {
        Some(s) => if store_wf(s) {
            Some(s)
        } else {
            None
        },
        None => None,
    }
}

/// A field that the record format can carry unchanged.
pub open spec fn plain_field(f: Seq<char>) -> bool {
    !f.contains(';') && !f.contains('\n')
}

pub open spec fn plain_entries(s: Seq<EntryView>) -> bool {
    forall|i: int|
        0 <= i < s.len() ==> plain_field(#[trigger] s[i].name) && plain_field(s[i].category)
            && plain_field(s[i].filehash)
}

/// Writes the store in its file format.
pub fn save_text(store: &Store) -> (r: String)
    ensures
        r@ == encode(store@),
{
    let mut out = String::new();
    let n = store.len();
    let mut i: usize = 0;
    proof {
        reveal_strlit(";");
        reveal_strlit("\n");
    }
    while i < n
        invariant
            n == store@.len(),
            i <= n,
            out@ == encode(store@.take(i as int)),
            ";"@ == seq![';'],
            "\n"@ == seq!['\n'],
        decreases n - i,
    {
        let e = store.get(i);
        let ghost before = out@;
        out.append(e.name.as_str());
        out.append(";");
        out.append(e.category.as_str());
        out.append(";");
        out.append(e.filehash.as_str());
        out.append("\n");
        proof {
            let t1 = store@.take(i + 1);
            assert(t1.drop_last() =~= store@.take(i as int));
            assert(t1.last() == e@);
            assert(out@ =~= encode(t1));
        }
        i += 1;
    }
    assert(store@.take(n as int) =~= store@);
    out
}

proof fn lemma_parse_prefix_none(ls: Seq<Seq<char>>, k: int)
    requires
        0 <= k <= ls.len(),
        parse_lines(ls.take(k)) is None,
    ensures
        parse_lines(ls) is None,
    decreases ls.len() - k,
{
    if k < ls.len() {
        let t1 = ls.take(k + 1);
        assert(t1.drop_last() =~= ls.take(k));
        lemma_parse_prefix_none(ls, k + 1);
    } else {
        assert(ls.take(k) =~= ls);
    }
}

/// Reads a store file; any line that is not a record, or records that break
/// the store's invariant, fail the whole load.
pub fn load_text(text: &str) -> (r: Result<Store, StoreError>)
    ensures
        decode(text@) is None <==> r is Err,
        r matches Err(e) ==> e == StoreError::Malformed,
        r matches Ok(st) ==> st.wf() && decode(text@) == Some(st@),
{
    let lines = split_fields(text, '\n');
    let ghost pv = lines@.map_values(|s: String| s@);
    proof {
        lemma_split_len(text@, '\n');
    }
    let mut count = lines.len();
    if lines[count - 1].as_str().unicode_len() == 0 {
        count -= 1;
    }
    let ghost ls = lines_of(text@);
    assert(ls =~= pv.take(count as int));
    let mut v: Vec<MapEntry> = Vec::new();
    let mut i: usize = 0;
    while i < count
        invariant
            count <= lines@.len(),
            pv == lines@.map_values(|s: String| s@),
            ls == pv.take(count as int),
            ls == lines_of(text@),
            i <= count,
            parse_lines(ls.take(i as int)) == Some(entries_view(v@)),
        decreases count - i,
    {
        let fields = split_fields(lines[i].as_str(), ';');
        proof {
            assert(ls.take(i + 1).drop_last() =~= ls.take(i as int));
            assert(ls.take(i + 1).last() == lines@[i as int]@);
        }
        if fields.len() != 3 || fields[0].as_str().unicode_len() == 0
            || fields[1].as_str().unicode_len() == 0 || fields[2].as_str().unicode_len() == 0 {
            proof {
                let fv = fields@.map_values(|s: String| s@);
                assert(fv.len() == fields@.len());
                if fields@.len() == 3 {
                    assert(fv[0] == fields@[0]@ && fv[1] == fields@[1]@ && fv[2] == fields@[2]@);
                }
                assert(parse_line(lines@[i as int]@) is None);
                lemma_parse_prefix_none(ls, i + 1);
            }
            return Err(StoreError::Malformed);
        }
        let e = MapEntry {
            name: fields[0].clone(),
            category: fields[1].clone(),
            filehash: fields[2].clone(),
        };
        let ghost before = entries_view(v@);
        proof {
            let fv = fields@.map_values(|s: String| s@);
            assert(fv[0] == fields@[0]@ && fv[1] == fields@[1]@ && fv[2] == fields@[2]@);
        }
        v.push(e);
        assert(entries_view(v@) =~= before.push(e@));
        i += 1;
    }
    assert(ls.take(count as int) =~= ls);
    Store::from_entries(v)
}

proof fn lemma_encode_line_plain(e: EntryView)
    requires
        plain_field(e.name),
        plain_field(e.category),
        plain_field(e.filehash),
    ensures
        !encode_line(e).contains('\n'),
{
    let l = encode_line(e);
    if l.contains('\n') {
        let k = choose|k: int| 0 <= k < l.len() && l[k] == '\n';
        let a = e.name.len();
        let b = a + 1 + e.category.len();
        if k < a {
            assert(e.name[k] == '\n');
        } else if k == a {
        } else if k < b {
            assert(e.category[k - a - 1] == '\n');
        } else if k == b {
        } else {
            assert(e.filehash[k - b - 1] == '\n');
        }
    }
}

proof fn lemma_split_encode(s: Seq<EntryView>, tail: Seq<char>)
    requires
        plain_entries(s),
        !tail.contains('\n'),
    ensures
        split_seq(encode(s) + tail, '\n') == s.map_values(|e: EntryView| encode_line(e)).push(tail),
    decreases s.len(),
{
    if s.len() == 0 {
        assert(encode(s) + tail =~= tail);
        lemma_split_none(tail, '\n');
        assert(s.map_values(|e: EntryView| encode_line(e)).push(tail) =~= seq![tail]);
    } else {
        let s0 = s.drop_last();
        let l = encode_line(s.last());
        assert(plain_entries(s0)) by {
            assert forall|i: int| 0 <= i < s0.len() implies plain_field(#[trigger] s0[i].name)
                && plain_field(s0[i].category) && plain_field(s0[i].filehash) by {
                assert(s0[i] == s[i]);
            }
        }
        assert(plain_field(s.last().name) && plain_field(s.last().category) && plain_field(s.last().filehash)) by {
            assert(s.last() == s[s.len() - 1]);
        }
        lemma_encode_line_plain(s.last());
        lemma_split_encode(s0, l);
        assert(encode(s) + tail =~= (encode(s0) + l) + seq!['\n'] + tail);
        lemma_split_concat(encode(s0) + l, tail, '\n');
        lemma_split_none(tail, '\n');
        assert(s.map_values(|e: EntryView| encode_line(e)) =~= s0.map_values(|e: EntryView| encode_line(e)).push(l));
    }
}

proof fn lemma_parse_encode_line(e: EntryView)
    requires
        plain_field(e.name),
        plain_field(e.category),
        plain_field(e.filehash),
        e.name.len() > 0,
        e.category.len() > 0,
        e.filehash.len() > 0,
    ensures
        parse_line(encode_line(e)) == Some(e),
{
    lemma_split_concat(e.name + seq![';'] + e.category, e.filehash, ';');
    lemma_split_concat(e.name, e.category, ';');
    lemma_split_none(e.name, ';');
    lemma_split_none(e.category, ';');
    lemma_split_none(e.filehash, ';');
    let f = split_seq(encode_line(e), ';');
    assert(f =~= seq![e.name, e.category, e.filehash]);
}

proof fn lemma_parse_lines_encoded(s: Seq<EntryView>)
    requires
        store_wf(s),
        plain_entries(s),
    ensures
        parse_lines(s.map_values(|e: EntryView| encode_line(e))) == Some(s),
    decreases s.len(),
{
    let ls = s.map_values(|e: EntryView| encode_line(e));
    if s.len() > 0 {
        let s0 = s.drop_last();
        assert(store_wf(s0)) by {
            assert forall|i: int| 0 <= i < s0.len() implies s0[i] == s[i] by {}
        }
        assert(plain_entries(s0)) by {
            assert forall|i: int| 0 <= i < s0.len() implies s0[i] == s[i] by {}
        }
        lemma_parse_lines_encoded(s0);
        assert(ls.drop_last() =~= s0.map_values(|e: EntryView| encode_line(e)));
        assert(s.last() == s[s.len() - 1]);
        lemma_parse_encode_line(s.last());
        assert(s0.push(s.last()) =~= s);
    } else {
        assert(s =~= Seq::<EntryView>::empty());
    }
}

/// Writing a store and reading it back gives the same entries, in the same
/// order, for every store whose fields hold no `;` and no line break.
pub proof fn lemma_round_trip(s: Seq<EntryView>)
    requires
        store_wf(s),
        plain_entries(s),
    ensures
        decode(encode(s)) == Some(s),
{
    let ls = s.map_values(|e: EntryView| encode_line(e));
    if s.len() == 0 {
        assert(encode(s) =~= Seq::<char>::empty());
        assert(lines_of(encode(s)) =~= ls);
    } else {
        let s0 = s.drop_last();
        let l = encode_line(s.last());
        assert(plain_entries(s0)) by {
            assert forall|i: int| 0 <= i < s0.len() implies s0[i] == s[i] by {}
        }
        assert(s.last() == s[s.len() - 1]);
        lemma_encode_line_plain(s.last());
        lemma_split_encode(s0, l);
        assert(encode(s) =~= (encode(s0) + l) + seq!['\n'] + Seq::<char>::empty());
        lemma_split_concat(encode(s0) + l, Seq::<char>::empty(), '\n');
        assert(ls =~= s0.map_values(|e: EntryView| encode_line(e)).push(l));
        assert(lines_of(encode(s)) =~= ls);
    }
    lemma_parse_lines_encoded(s);
}

/// A file that loads gives one entry per line, in order, each the fields of
/// its own line.
pub proof fn lemma_parse_lines_elements(ls: Seq<Seq<char>>)
    requires
        parse_lines(ls) is Some,
    ensures
        parse_lines(ls)->0.len() == ls.len(),
        forall|i: int| 0 <= i < ls.len() ==> parse_line(#[trigger] ls[i]) == Some(parse_lines(ls)->0[i]),
    decreases ls.len(),
{
    if ls.len() > 0 {
        let l0 = ls.drop_last();
        lemma_parse_lines_elements(l0);
        let s = parse_lines(ls)->0;
        assert forall|i: int| 0 <= i < ls.len() implies parse_line(#[trigger] ls[i]) == Some(s[i]) by {
            if i < l0.len() {
                assert(ls[i] == l0[i]);
            }
        }
    }
}

proof fn lemma_line_is_encoded(l: Seq<char>)
    requires
        parse_line(l) is Some,
    ensures
        l == encode_line(parse_line(l)->0),
{
    let f = split_seq(l, ';');
    lemma_join_split(l, ';');
    let f1 = f.drop_last();
    let f0 = f1.drop_last();
    assert(f0 =~= seq![f[0]]);
    assert(f1.last() == f[1]);
    assert(join_seq(f0, ';') == f[0]);
    assert(join_seq(f1, ';') == join_seq(f0, ';') + seq![';'] + f[1]);
    assert(join_seq(f, ';') == join_seq(f1, ';') + seq![';'] + f[2]);
    assert(join_seq(f, ';') =~= encode_line(parse_line(l)->0));
}

proof fn lemma_encode_join(s: Seq<EntryView>)
    requires
        s.len() > 0,
    ensures
        encode(s) == join_seq(s.map_values(|e: EntryView| encode_line(e)), '\n').push('\n'),
    decreases s.len(),
{
    let m = s.map_values(|e: EntryView| encode_line(e));
    let s0 = s.drop_last();
    if s.len() == 1 {
        assert(s0 =~= Seq::<EntryView>::empty());
        assert(encode(s0) == Seq::<char>::empty());
        assert(join_seq(m, '\n') == m[0]);
        assert(m[0] == encode_line(s.last()));
        assert(encode(s) =~= join_seq(m, '\n').push('\n'));
    } else {
        lemma_encode_join(s0);
        assert(m.drop_last() =~= s0.map_values(|e: EntryView| encode_line(e)));
        assert(encode(s) =~= join_seq(m, '\n').push('\n'));
    }
}

/// Reading a store file and writing the store back gives the same text, for
/// every file that loads and ends with a line break (or is empty).
pub proof fn lemma_save_after_load(t: Seq<char>)
    requires
        decode(t) is Some,
        t.len() == 0 || t.last() == '\n',
    ensures
        encode(decode(t)->0) == t,
{
    let s = decode(t)->0;
    let ls = lines_of(t);
    lemma_parse_lines_elements(ls);
    if t.len() == 0 {
        assert(t =~= Seq::<char>::empty());
        assert(ls.len() == 0);
        assert(s.len() == 0);
    } else {
        let t0 = t.drop_last();
        lemma_split_len(t0, '\n');
        assert(t0.push('\n') =~= t);
        assert(ls == split_seq(t0, '\n'));
        assert forall|i: int| 0 <= i < ls.len() implies #[trigger] ls[i] == encode_line(s[i]) by {
            lemma_line_is_encoded(ls[i]);
        }
        assert(ls =~= s.map_values(|e: EntryView| encode_line(e)));
        lemma_join_split(t0, '\n');
        lemma_encode_join(s);
    }
}

} // verus!
