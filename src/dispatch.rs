use crate::entry::{has_name, EntryView, Store, StoreError};
use crate::search::{
    filter_names, find_entries_containing, names_of, sort_by_len, sort_names_by_len, strings_view,
};
use vstd::prelude::*;
use vstd::string::{StrSliceExecFns, StringExecFns};

verus! {

/// Terminal key code of escape.
pub const KEY_ESCAPE: i32 = 27;

/// Terminal key code of backspace.
pub const KEY_BACKSPACE: i32 = 263;

/// Terminal key code of newline.
pub const KEY_ENTER: i32 = 10;

/// A keystroke as the interactive loop sees it.
#[derive(PartialEq, Eq, Structural, Debug, Clone, Copy)]
pub enum Key {
    Printable(char),
    Erase,
    Confirm,
    Cancel,
}

/// A Unicode scalar value.
pub open spec fn is_scalar(c: u32) -> bool {
    c < 0xD800 || (0xDFFF < c && c <= 0x10FFFF)
}

/// Relies on char::from_u32: `Some` exactly for Unicode scalar values, and
/// then the character with that value.
#[verifier::external_body]
fn char_from_u32(c: u32) -> (r: Option<char>)
    ensures
        r is Some <==> is_scalar(c),
        r matches Some(ch) ==> ch as u32 == c,
{
    char::from_u32(c)
}

/// The key that a terminal key code stands for; `None` for a code that is
/// neither a control key nor a character.
pub fn key_from_code(code: i32) -> (r: Option<Key>)
    ensures
        code == KEY_ESCAPE ==> r == Some(Key::Cancel),
        code == KEY_BACKSPACE ==> r == Some(Key::Erase),
        code == KEY_ENTER ==> r == Some(Key::Confirm),
        code != KEY_ESCAPE && code != KEY_BACKSPACE && code != KEY_ENTER ==> (r is Some <==> (code
            >= 0 && is_scalar(code as u32))),
        code != KEY_ESCAPE && code != KEY_BACKSPACE && code != KEY_ENTER ==> (r matches Some(k) ==> (
        k matches Key::Printable(c) && c as u32 == code)),
{
    if code == KEY_ESCAPE {
        Some(Key::Cancel)
    } else if code == KEY_BACKSPACE {
        Some(Key::Erase)
    } else if code == KEY_ENTER {
        Some(Key::Confirm)
    } else if code < 0 {
        None
    } else {
        match char_from_u32(code as u32) {
            Some(c) => Some(Key::Printable(c)),
            None => None,
        }
    }
}

/// The names that match `q`, shortest first.
pub open spec fn ranked_matches(s: Seq<EntryView>, q: Seq<char>) -> Seq<Seq<char>> {
    sort_by_len(filter_names(names_of(s), q))
}

/// What the terminal side does after a keystroke.
pub enum Action {
    /// Show `query`, blank the `clear` rows drawn last time, then draw
    /// `matches` one per row, the first marked as the default.
    Redraw { query: String, matches: Vec<String>, clear: usize },
    /// Leave the loop and run the entry called by this name.
    Execute(String),
    /// Leave the loop and run nothing.
    Exit,
    /// Nothing to do; wait for the next key.
    Stay,
}

/// The interactive loop's state: the query typed so far and how many match
/// rows are on screen.
pub struct Session {
    query: String,
    drawn: usize,
}

/// The query after a key: one character more, or one less.
pub open spec fn next_query(q: Seq<char>, key: Key) -> Seq<char> {
    match key {
        Key::Printable(c) => q.push(c),
        Key::Erase => if q.len() == 0 {
            q
        } else {
            q.drop_last()
        },
        _ => q,
    }
}

impl Session {
    pub closed spec fn query_view(&self) -> Seq<char> {
        self.query@
    }

    pub closed spec fn drawn_view(&self) -> nat {
        self.drawn as nat
    }

    /// An empty query with nothing drawn.
    pub fn new() -> (r: Session)
        ensures
            r.query_view() == Seq::<char>::empty(),
            r.drawn_view() == 0,
    {
        Session { query: String::new(), drawn: 0 }
    }

    /// The query typed so far.
    pub fn query(&self) -> (r: &str)
        ensures
            r@ == self.query_view(),
    {
        self.query.as_str()
    }

    /// How many match rows the last redraw left on screen.
    pub fn drawn(&self) -> (r: usize)
        ensures
            r == self.drawn_view(),
    {
        self.drawn
    }

    /// One keystroke: edit the query and redraw, run the shortest match,
    /// or leave. Confirming with no match does nothing.
    pub fn step(&mut self, store: &Store, key: Key) -> (a: Action)
        ensures
            key matches Key::Cancel ==> a is Exit && *final(self) == *old(self),
            key matches Key::Confirm ==> *final(self) == *old(self),
            key matches Key::Confirm ==> (ranked_matches(store@, old(self).query_view()).len() == 0
                <==> a is Stay),
            key matches Key::Confirm ==> (a matches Action::Execute(n) ==> n@ == ranked_matches(
                store@,
                old(self).query_view(),
            )[0]),
            key matches Key::Confirm ==> (a is Stay || a is Execute),
            (key is Printable || key is Erase) ==> {
                &&& final(self).query_view() == next_query(old(self).query_view(), key)
                &&& a matches Action::Redraw { query, matches, clear } && query@ == final(self).query_view()
                    && strings_view(matches@) == ranked_matches(store@, final(self).query_view())
                    && clear == old(self).drawn_view() && final(self).drawn_view() == matches@.len()
            },
    {
        match key {
            Key::Cancel => Action::Exit,
            Key::Confirm => {
                let found = find_entries_containing(store, self.query.as_str());
                let ranked = sort_names_by_len(&found);
                if ranked.len() == 0 {
                    Action::Stay
                } else {
                    Action::Execute(ranked[0].clone())
                }
            },
            Key::Printable(c) => {
                let mut q = self.query.clone();
                crate::text::push_char(&mut q, c);
                self.redraw(store, q)
            },
            Key::Erase => {
                let n = self.query.as_str().unicode_len();
                if n == 0 {
                    let q = self.query.clone();
                    self.redraw(store, q)
                } else {
                    let q = String::from_str(self.query.as_str().substring_char(0, n - 1));
                    assert(q@ =~= self.query@.drop_last());
                    self.redraw(store, q)
                }
            },
        }
    }

    fn redraw(&mut self, store: &Store, q: String) -> (a: Action)
        ensures
            final(self).query_view() == q@,
            a matches Action::Redraw { query, matches, clear } && query@ == q@ && strings_view(
                matches@,
            ) == ranked_matches(store@, q@) && clear == old(self).drawn_view()
                && final(self).drawn_view() == matches@.len(),
    {
        let found = find_entries_containing(store, q.as_str());
        let ranked = sort_names_by_len(&found);
        let clear = self.drawn;
        self.drawn = ranked.len();
        self.query = q.clone();
        Action::Redraw { query: q, matches: ranked, clear }
    }
}

/// What a typed token resolves to outside the interactive loop.
pub enum Resolution {
    /// An entry has exactly this name.
    Exact(String),
    /// No name contains the token.
    NoMatch,
    /// One name contains the token; it runs once confirmed.
    Single(String),
    /// Several names contain the token, in store order, to be chosen by
    /// number.
    Several(Vec<String>),
}

/// Resolves a token: an exact name first, otherwise the names that contain it.
pub fn resolve(store: &Store, token: &str) -> (r: Resolution)
    ensures
        has_name(store@, token@) ==> (r matches Resolution::Exact(n) && n@ == token@),
        !has_name(store@, token@) ==> {
            let m = filter_names(names_of(store@), token@);
            &&& m.len() == 0 ==> r is NoMatch
            &&& m.len() == 1 ==> (r matches Resolution::Single(n) && n@ == m[0])
            &&& m.len() > 1 ==> (r matches Resolution::Several(v) && strings_view(v@) == m)
        },
{
    if store.check_entry_exists(token) {
        return Resolution::Exact(String::from_str(token));
    }
    let found = find_entries_containing(store, token);
    if found.len() == 0 {
        Resolution::NoMatch
    } else if found.len() == 1 {
        Resolution::Single(found[0].clone())
    } else {
        Resolution::Several(found)
    }
}

pub open spec fn is_digit(c: char) -> bool {
    '0' <= c && c <= '9'
}

pub open spec fn all_digits(s: Seq<char>) -> bool {
    forall|i: int| 0 <= i < s.len() ==> is_digit(#[trigger] s[i])
}

/// The number that a string of decimal digits spells.
pub open spec fn digits_value(s: Seq<char>) -> nat
    decreases s.len(),
{
    if s.len() == 0 {
        0
    } else {
        digits_value(s.drop_last()) * 10 + (s.last() as u32 - '0' as u32) as nat
    }
}

/// The choice that an answer picks: an empty answer confirms a single
/// choice; a decimal number picks that choice, counting from 1.
pub open spec fn selection(choices: Seq<Seq<char>>, input: Seq<char>) -> Option<Seq<char>> {
    if input.len() == 0 {
        if choices.len() == 1 {
            Some(choices[0])
        } else {
            None
        }
    } else if all_digits(input) && 1 <= digits_value(input) <= choices.len() {
        Some(choices[digits_value(input) - 1])
    } else {
        None
    }
}

proof fn lemma_digits_grow(s: Seq<char>, k: int)
    requires
        0 <= k <= s.len(),
        all_digits(s),
    ensures
        digits_value(s.take(k)) <= digits_value(s),
    decreases s.len() - k,
{
    if k < s.len() {
        lemma_digits_grow(s, k + 1);
        let t = s.take(k + 1);
        assert(t.drop_last() =~= s.take(k));
        assert(is_digit(s[k]));
    } else {
        assert(s.take(k) =~= s);
    }
}

/// Picks a choice from a numbered list by the user's answer (already trimmed).
pub fn choose_match(choices: &Vec<String>, input: &str) -> (r: Result<String, StoreError>)
    ensures
        selection(strings_view(choices@), input@) matches Some(n) ==> (r matches Ok(x) && x@ == n),
        selection(strings_view(choices@), input@) is None ==> r == Err::<String, StoreError>(
            StoreError::InvalidSelection,
        ),
{
    let ghost cv = strings_view(choices@);
    let n = input.unicode_len();
    let len = choices.len();
    if n == 0 {
        if len == 1 {
            return Ok(choices[0].clone());
        }
        return Err(StoreError::InvalidSelection);
    }
    let mut v: usize = 0;
    let mut i: usize = 0;
    while i < n
        invariant
            n == input@.len(),
            len == choices@.len(),
            i <= n,
            v <= len,
            v == digits_value(input@.take(i as int)),
            all_digits(input@.take(i as int)),
        decreases n - i,
    {
        let c = input.get_char(i);
        let t = Ghost(input@.take(i + 1));
        proof {
            assert(t@.drop_last() =~= input@.take(i as int));
            assert(t@.last() == c);
        }
        if !('0' <= c && c <= '9') {
            assert(!all_digits(input@)) by {
                assert(input@[i as int] == c);
            }
            return Err(StoreError::InvalidSelection);
        }
        let d = (c as u32) - ('0' as u32);
        let nv: u128 = (v as u128) * 10 + (d as u128);
        assert(all_digits(t@)) by {
            assert forall|k: int| 0 <= k < t@.len() implies is_digit(#[trigger] t@[k]) by {
                if k < i {
                    assert(t@[k] == input@.take(i as int)[k]);
                }
            }
        }
        if nv > len as u128 {
            proof {
                if all_digits(input@) {
                    lemma_digits_grow(input@, i + 1);
                }
            }
            return Err(StoreError::InvalidSelection);
        }
        v = nv as usize;
        i += 1;
    }
    assert(input@.take(n as int) =~= input@);
    if v == 0 {
        return Err(StoreError::InvalidSelection);
    }
    proof {
        assert(cv[v - 1] == choices@[v - 1]@);
    }
    Ok(choices[v - 1].clone())
}

} // verus!
