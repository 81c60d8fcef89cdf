use crate::text::{split_fields, split_seq, str_eq};
use vstd::prelude::*;
use vstd::string::{StrSliceExecFns, StringExecFns};

verus! {

/// The key and separator that start the editor line.
pub open spec fn editor_prefix() -> Seq<char> {
    seq!['e', 'd', 'i', 't', 'o', 'r', ';']
}

/// The editor that one configuration line names, if it is an editor line.
pub open spec fn line_editor(l: Seq<char>) -> Option<Seq<char>> {
    if l.len() >= 7 && l.take(7) == editor_prefix() {
        Some(l.skip(7))
    } else {
        None
    }
}

/// The editor named by the last editor line among `ls`.
pub open spec fn last_editor(ls: Seq<Seq<char>>) -> Option<Seq<char>>
    decreases ls.len(),
{
    if ls.len() == 0 {
        None
    } else {
        match line_editor(ls.last()) {
            Some(v) => Some(v),
            None => last_editor(ls.drop_last()),
        }
    }
}

/// The editor that a configuration text names: its last `editor;<value>`
/// line, if any; other lines are ignored.
pub fn editor_from_config(text: &str) -> (r: Option<String>)
    ensures
        r is None <==> last_editor(split_seq(text@, '\n')) is None,
        r matches Some(v) ==> last_editor(split_seq(text@, '\n')) == Some(v@),
{
    let lines = split_fields(text, '\n');
    let ghost ls = split_seq(text@, '\n');
    proof {
        reveal_strlit("editor;");
    }
    let mut found: Option<String> = None;
    let mut i: usize = 0;
    while i < lines.len()
        invariant
            ls == lines@.map_values(|s: String| s@),
            i <= lines@.len(),
            "editor;"@ == editor_prefix(),
            found is None <==> last_editor(ls.take(i as int)) is None,
            found matches Some(v) ==> last_editor(ls.take(i as int)) == Some(v@),
        decreases lines.len() - i,
    {
        let l = lines[i].as_str();
        let n = l.unicode_len();
        proof {
            assert(ls.take(i + 1).drop_last() =~= ls.take(i as int));
            assert(ls.take(i + 1).last() == l@);
        }
        if n >= 7 && str_eq(l.substring_char(0, 7), "editor;") {
            let v = String::from_str(l.substring_char(7, n));
            assert(l@.subrange(0, 7) =~= l@.take(7));
            assert(l@.subrange(7, n as int) =~= l@.skip(7));
            found = Some(v);
        } else {
            proof {
                if n >= 7 {
                    assert(l@.subrange(0, 7) =~= l@.take(7));
                }
            }
        }
        i += 1;
    }
    assert(ls.take(lines@.len() as int) =~= ls);
    found
}

} // verus!
