use crate::entry::{has_filehash, EntryView, Store, StoreError};
use crate::text::push_char;
use rand::Rng;
use vstd::prelude::*;

verus! {

/// How many fresh candidates are drawn before allocation gives up.
pub const MAX_ID_ATTEMPTS: usize = 1000;

/// The number of symbols in an identifier.
pub const ID_LEN: usize = 8;

/// A symbol of the identifier alphabet: `A` to `F` or a decimal digit.
pub open spec fn is_id_char(c: char) -> bool {
    ('A' <= c && c <= 'F') || ('0' <= c && c <= '9')
}

/// Eight symbols of the identifier alphabet.
pub open spec fn valid_identifier(s: Seq<char>) -> bool {
    s.len() == ID_LEN && forall|i: int| 0 <= i < s.len() ==> is_id_char(#[trigger] s[i])
}

/// Relies on rand::thread_rng and Rng::gen_range (rand 0.7): a value drawn
/// from `[0, bound)`; gen_range panics only when the range is empty.
#[verifier::external_body]
fn random_below(bound: usize) -> (r: usize)
    requires
        bound > 0,
    ensures
        r < bound,
{
    rand::thread_rng().gen_range(0, bound)
}

/// The identifier alphabet, in the order in which draws index it.
pub open spec fn id_alphabet() -> Seq<char> {
    seq!['A', 'B', 'C', 'D', 'E', 'F', '0', '1', '2', '3', '4', '5', '6', '7', '8', '9']
}

/// No stored identifier is a valid identifier, so no candidate can collide.
pub open spec fn no_valid_identifiers(s: Seq<EntryView>) -> bool {
    forall|i: int| 0 <= i < s.len() ==> !valid_identifier(#[trigger] s[i].filehash)
}

/// The symbol at position `k` of the alphabet `ABCDEF0123456789`.
pub fn id_symbol(k: usize) -> (c: char)
    requires
        k < 16,
    ensures
        c == id_alphabet()[k as int],
        is_id_char(c),
{
    let table: [char; 16] = [
        'A', 'B', 'C', 'D', 'E', 'F', '0', '1', '2', '3', '4', '5', '6', '7', '8', '9',
    ];
    let c = table[k];
    assert(table@ =~= id_alphabet());
    c
}

/// The identifier spelled by eight draws, each an index into the alphabet.
pub fn identifier_from_draws(draws: &Vec<usize>) -> (r: String)
    requires
        draws@.len() == ID_LEN,
        forall|i: int| 0 <= i < draws@.len() ==> #[trigger] draws@[i] < 16,
    ensures
        r@ == Seq::new(ID_LEN as nat, |i: int| id_alphabet()[draws@[i] as int]),
        valid_identifier(r@),
{
    let mut s = String::new();
    let mut i: usize = 0;
    while i < ID_LEN
        invariant
            draws@.len() == ID_LEN,
            forall|k: int| 0 <= k < draws@.len() ==> #[trigger] draws@[k] < 16,
            i <= ID_LEN,
            s@.len() == i,
            forall|k: int| 0 <= k < i ==> #[trigger] s@[k] == id_alphabet()[draws@[k] as int],
            forall|k: int| 0 <= k < i ==> is_id_char(#[trigger] s@[k]),
        decreases ID_LEN - i,
    {
        let c = id_symbol(draws[i]);
        push_char(&mut s, c);
        i += 1;
    }
    assert(s@ =~= Seq::new(ID_LEN as nat, |i: int| id_alphabet()[draws@[i] as int]));
    s
}

/// A random candidate identifier: eight uniform draws over the alphabet.
pub fn gen_char_sequence() -> (r: String)
    ensures
        valid_identifier(r@),
{
    let mut draws: Vec<usize> = Vec::new();
    let mut i: usize = 0;
    while i < ID_LEN
        invariant
            i <= ID_LEN,
            draws@.len() == i,
            forall|k: int| 0 <= k < draws@.len() ==> #[trigger] draws@[k] < 16,
        decreases ID_LEN - i,
    {
        draws.push(random_below(16));
        i += 1;
    }
    identifier_from_draws(&draws)
}

/// A fresh identifier: drawn at random and retried while some entry already
/// uses it, at most `MAX_ID_ATTEMPTS` times.
pub fn generate_identifier(store: &Store) -> (r: Result<String, StoreError>)
    ensures
        r matches Ok(id) ==> valid_identifier(id@) && !has_filehash(store@, id@),
        r matches Err(e) ==> e == StoreError::IdentifierSpaceExhausted,
        no_valid_identifiers(store@) ==> r is Ok,
{
    let mut attempt: usize = 0;
    while attempt < MAX_ID_ATTEMPTS
        invariant
            no_valid_identifiers(store@) ==> attempt == 0,
        decreases MAX_ID_ATTEMPTS - attempt,
    {
        let candidate = gen_char_sequence();
        if !store.check_sequence_exists(candidate.as_str()) {
            return Ok(candidate);
        }
        proof {
            if no_valid_identifiers(store@) {
                let k = choose|k: int| 0 <= k < store@.len() && (#[trigger] store@[k]).filehash == candidate@;
                assert(!valid_identifier(store@[k].filehash));
            }
        }
        attempt += 1;
    }
    Err(StoreError::IdentifierSpaceExhausted)
}

} // verus!
