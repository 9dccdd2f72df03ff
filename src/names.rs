//! The two-way name tables of a puzzle, kept in `bimap::BiHashMap`.
use bimap::BiHashMap;
use vstd::prelude::*;

verus! {

#[verifier::external_type_specification]
#[verifier::external_body]
#[verifier::reject_recursive_types(L)]
#[verifier::reject_recursive_types(R)]
#[verifier::reject_recursive_types(LS)]
#[verifier::reject_recursive_types(RS)]
pub struct ExBiHashMap<L, R, LS, RS>(BiHashMap<L, R, LS, RS>);

/// The left-to-right pairs held by a table of category names.
pub uninterp spec fn category_pairs(m: BiHashMap<usize, String>) -> Map<usize, Seq<char>>;

/// The left-to-right pairs held by a table of label names.
pub uninterp spec fn label_pairs(m: BiHashMap<(usize, usize), String>) -> Map<(usize, usize), Seq<char>>;

/// What `BiHashMap::insert(k, v)` leaves: every pair whose left is `k` or
/// whose right is `v` is dropped, then `k <> v` is added.
pub open spec fn inserted_pair<K>(m: Map<K, Seq<char>>, k: K, v: Seq<char>) -> Map<K, Seq<char>> {
    Map::new(
        |j: K| j == k || (m.contains_key(j) && m[j] != v),
        |j: K| if j == k { v } else { m[j] },
    )
}

/// Relies on `BiHashMap::new`: the new table holds no pair.
#[verifier::external_body]
pub(crate) fn new_category_table() -> (r: BiHashMap<usize, String>)
    ensures
        category_pairs(r).dom().is_empty(),
        category_pairs(r).dom().finite(),
{
    BiHashMap::new()
}

/// Relies on `BiHashMap::new`: the new table holds no pair.
#[verifier::external_body]
pub(crate) fn new_label_table() -> (r: BiHashMap<(usize, usize), String>)
    ensures
        label_pairs(r).dom().is_empty(),
        label_pairs(r).dom().finite(),
{
    BiHashMap::new()
}

/// Relies on `BiHashMap::insert`: pairs that share the left or the right
/// value are overwritten.
#[verifier::external_body]
pub(crate) fn insert_category(m: &mut BiHashMap<usize, String>, k: usize, v: String)
    ensures
        category_pairs(*final(m)) == inserted_pair(category_pairs(*old(m)), k, v@),
{
    m.insert(k, v);
}

/// Relies on `BiHashMap::insert`: pairs that share the left or the right
/// value are overwritten.
#[verifier::external_body]
pub(crate) fn insert_label(m: &mut BiHashMap<(usize, usize), String>, k: (usize, usize), v: String)
    ensures
        label_pairs(*final(m)) == inserted_pair(label_pairs(*old(m)), k, v@),
{
    m.insert(k, v);
}

/// Relies on `BiHashMap::len`: the number of pairs.
#[verifier::external_body]
pub(crate) fn category_count(m: &BiHashMap<usize, String>) -> (r: usize)
    ensures
        r == category_pairs(*m).len(),
{
    m.len()
}

/// Relies on `BiHashMap::get_by_left`: the right value paired with `k`.
#[verifier::external_body]
pub(crate) fn category_name(m: &BiHashMap<usize, String>, k: usize) -> (r: Option<&String>)
    ensures
        match r {
            Some(s) => category_pairs(*m).contains_key(k) && category_pairs(*m)[k] == s@,
            None => !category_pairs(*m).contains_key(k),
        },
{
    m.get_by_left(&k)
}

/// Relies on `BiHashMap::get_by_left`: the right value paired with `k`.
#[verifier::external_body]
pub(crate) fn label_name(m: &BiHashMap<(usize, usize), String>, k: (usize, usize)) -> (r: Option<&String>)
    ensures
        match r {
            Some(s) => label_pairs(*m).contains_key(k) && label_pairs(*m)[k] == s@,
            None => !label_pairs(*m).contains_key(k),
        },
{
    m.get_by_left(&k)
}

/// Relies on `BiHashMap::get_by_right`: the left value paired with `name`.
#[verifier::external_body]
pub(crate) fn category_named(m: &BiHashMap<usize, String>, name: &str) -> (r: Option<usize>)
    ensures
        match r {
            Some(k) => category_pairs(*m).contains_key(k) && category_pairs(*m)[k] == name@,
            None => forall|k: usize| #[trigger] category_pairs(*m).contains_key(k) ==> category_pairs(*m)[k] != name@,
        },
{
    m.get_by_right(name).copied()
}

/// Relies on `BiHashMap::get_by_right`: the left value paired with `name`.
#[verifier::external_body]
pub(crate) fn label_named(m: &BiHashMap<(usize, usize), String>, name: &str) -> (r: Option<(usize, usize)>)
    ensures
        match r {
            Some(k) => label_pairs(*m).contains_key(k) && label_pairs(*m)[k] == name@,
            None => forall|k: (usize, usize)| #[trigger] label_pairs(*m).contains_key(k) ==> label_pairs(*m)[k] != name@,
        },
{
    m.get_by_right(name).copied()
}

} // verus!
