//! Persistent hash maps: a clone is cheap and shares structure with the map it
//! was taken from, so a snapshot stays valid while the world moves on.

use vstd::prelude::*;

verus! {

/// `im::HashMap`, a hash array mapped trie; nothing is known of its fields.
#[verifier::external_type_specification]
#[verifier::external_body]
#[verifier::reject_recursive_types(K)]
#[verifier::reject_recursive_types(V)]
#[verifier::reject_recursive_types(S)]
pub struct ExImHashMap<K, V, S>(im::HashMap<K, V, S>);

/// The entries of a map from file ids to strings (texts, or paths).
pub uninterp spec fn text_entries(m: im::HashMap<u32, String>) -> Map<u32, Seq<char>>;

/// The entries of a map from file ids to the numbers of their source roots.
pub uninterp spec fn number_entries(m: im::HashMap<u32, u32>) -> Map<u32, u32>;

/// The entries of a map from paths to file ids.
pub uninterp spec fn id_entries(m: im::HashMap<String, u32>) -> Map<Seq<char>, u32>;

/// `im::HashMap::new`: the map that is made has no entries.
#[verifier::external_body]
pub(crate) fn texts_new() -> (made: im::HashMap<u32, String>)
    ensures
        text_entries(made) == (Map::<u32, Seq<char>>::empty()),
{
    im::HashMap::new()
}

/// `im::HashMap::insert`: afterwards the key maps to the value; an earlier
/// value for the key is overwritten, and no other key is touched.
#[verifier::external_body]
pub(crate) fn texts_insert(m: &mut im::HashMap<u32, String>, key: u32, value: String)
    ensures
        text_entries(*final(m)) == text_entries(*old(m)).insert(key, value@),
{
    m.insert(key, value);
}

/// `im::HashMap::get`: the value stored under the key, if there is one.
#[verifier::external_body]
pub(crate) fn texts_get<'a>(m: &'a im::HashMap<u32, String>, key: u32) -> (found: Option<
    &'a String,
>)
    ensures
        found.is_some() == text_entries(*m).contains_key(key),
        found matches Some(s) ==> s@ == text_entries(*m)[key],
{
    m.get(&key)
}

/// `im::HashMap::remove`: afterwards the key has no entry; no other key is
/// touched, and the result is the value that was stored, if there was one.
#[verifier::external_body]
pub(crate) fn texts_remove(m: &mut im::HashMap<u32, String>, key: u32) -> (removed: Option<String>)
    ensures
        text_entries(*final(m)) == text_entries(*old(m)).remove(key),
        removed.is_some() == text_entries(*old(m)).contains_key(key),
        removed matches Some(s) ==> s@ == text_entries(*old(m))[key],
{
    m.remove(&key)
}

/// `Clone::clone` of an `im::HashMap`: the copy has the entries of the map it
/// was taken from.
#[verifier::external_body]
pub(crate) fn texts_clone(m: &im::HashMap<u32, String>) -> (copy: im::HashMap<u32, String>)
    ensures
        text_entries(copy) == text_entries(*m),
{
    m.clone()
}

/// `im::HashMap::new`: the map that is made has no entries.
#[verifier::external_body]
pub(crate) fn ids_new() -> (made: im::HashMap<String, u32>)
    ensures
        id_entries(made) == (Map::<Seq<char>, u32>::empty()),
{
    im::HashMap::new()
}

/// `im::HashMap::insert`: afterwards the key maps to the value; an earlier
/// value for the key is overwritten, and no other key is touched.
#[verifier::external_body]
pub(crate) fn ids_insert(m: &mut im::HashMap<String, u32>, key: String, value: u32)
    ensures
        id_entries(*final(m)) == id_entries(*old(m)).insert(key@, value),
{
    m.insert(key, value);
}

/// `im::HashMap::get`: the value stored under the key, if there is one.
#[verifier::external_body]
pub(crate) fn ids_get(m: &im::HashMap<String, u32>, key: &str) -> (found: Option<u32>)
    ensures
        found.is_some() == id_entries(*m).contains_key(key@),
        found matches Some(v) ==> v == id_entries(*m)[key@],
{
    m.get(key).copied()
}

/// `Clone::clone` of an `im::HashMap`: the copy has the entries of the map it
/// was taken from.
#[verifier::external_body]
pub(crate) fn ids_clone(m: &im::HashMap<String, u32>) -> (copy: im::HashMap<String, u32>)
    ensures
        id_entries(copy) == id_entries(*m),
{
    m.clone()
}

/// `im::HashMap::new`: the map that is made has no entries.
#[verifier::external_body]
pub(crate) fn numbers_new() -> (made: im::HashMap<u32, u32>)
    ensures
        number_entries(made) == (Map::<u32, u32>::empty()),
{
    im::HashMap::new()
}

/// `im::HashMap::insert`: afterwards the key maps to the value; an earlier
/// value for the key is overwritten, and no other key is touched.
#[verifier::external_body]
pub(crate) fn numbers_insert(m: &mut im::HashMap<u32, u32>, key: u32, value: u32)
    ensures
        number_entries(*final(m)) == number_entries(*old(m)).insert(key, value),
{
    m.insert(key, value);
}

/// `im::HashMap::get`: the value stored under the key, if there is one.
#[verifier::external_body]
pub(crate) fn numbers_get(m: &im::HashMap<u32, u32>, key: u32) -> (found: Option<u32>)
    ensures
        found.is_some() == number_entries(*m).contains_key(key),
        found matches Some(v) ==> v == number_entries(*m)[key],
{
    m.get(&key).copied()
}

/// `im::HashMap::remove`: afterwards the key has no entry; no other key is
/// touched, and the result is the value that was stored, if there was one.
#[verifier::external_body]
pub(crate) fn numbers_remove(m: &mut im::HashMap<u32, u32>, key: u32) -> (removed: Option<u32>)
    ensures
        number_entries(*final(m)) == number_entries(*old(m)).remove(key),
        removed.is_some() == number_entries(*old(m)).contains_key(key),
        removed matches Some(v) ==> v == number_entries(*old(m))[key],
{
    m.remove(&key)
}

/// `Clone::clone` of an `im::HashMap`: the copy has the entries of the map it
/// was taken from.
#[verifier::external_body]
pub(crate) fn numbers_clone(m: &im::HashMap<u32, u32>) -> (copy: im::HashMap<u32, u32>)
    ensures
        number_entries(copy) == number_entries(*m),
{
    m.clone()
}

} // verus!
