use vstd::prelude::*;

verus! {

// The parent-pointer index used by the read-side aggregator: a
// multi-valued map from a parent sort key to the positions of its child
// items, kept in an outside hash-backed multimap. Only the three
// operations below are relied on; their contracts state what the
// multimap's source shows: `insert` appends to the vector held under a
// key, `get_vec` returns that vector in insertion order.

/// Declares multimap::MultiMap, a hash map from a key to the vector of
/// the values inserted under it, so that it can stand in signatures; the
/// type itself is opaque here.
#[verifier::external_type_specification]
#[verifier::external_body]
#[verifier::reject_recursive_types(K)]
#[verifier::reject_recursive_types(V)]
#[verifier::reject_recursive_types(S)]
pub struct ExMultiMap<K, V, S>(multimap::MultiMap<K, V, S>);

/// What a parent index holds: for each key present, the values inserted
/// under it, in insertion order.
pub uninterp spec fn mm_entries(m: multimap::MultiMap<String, usize>) -> Map<Seq<char>, Seq<usize>>;

/// Relies on multimap::MultiMap::new: the created multimap holds no keys.
#[verifier::external_body]
pub(crate) fn mm_new() -> (r: multimap::MultiMap<String, usize>)
    ensures
        (mm_entries(r) == Map::<Seq<char>, Seq<usize>>::empty()),
{
    multimap::MultiMap::new()
}

/// Relies on multimap::MultiMap::insert: the value is appended to the
/// vector held under the key, which is created with that one value when
/// the key is absent; other keys are untouched.
#[verifier::external_body]
pub(crate) fn mm_insert(m: &mut multimap::MultiMap<String, usize>, k: String, v: usize)
    ensures
        mm_entries(*final(m)) == mm_entries(*old(m)).insert(
            k@,
            if mm_entries(*old(m)).contains_key(k@) {
                mm_entries(*old(m))[k@].push(v)
            } else {
                seq![v]
            },
        ),
{
    m.insert(k, v);
}

/// Relies on multimap::MultiMap::get_vec: the vector held under the key,
/// in insertion order, or `None` when the key is absent.
#[verifier::external_body]
pub(crate) fn mm_get<'a>(m: &'a multimap::MultiMap<String, usize>, k: &String) -> (r: Option<
    &'a Vec<usize>,
>)
    ensures
        match r {
            Some(v) => mm_entries(*m).contains_key(k@) && v@ == mm_entries(*m)[k@],
            None => !mm_entries(*m).contains_key(k@),
        },
{
    m.get_vec(k)
}

} // verus!
