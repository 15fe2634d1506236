//! The ordered range-to-span map that a checkable chunk carries. The map is
//! an insertion-ordered map of an outside crate; the library reads and fills
//! it through a small set of trusted wrappers, whose contracts speak of the
//! entries the map holds, in insertion order.

use vstd::prelude::*;

use indexmap::IndexMap;

use crate::span::Span;

verus! {

/// A half-open byte range into a rendered content string.
#[derive(Clone, Copy, Debug, PartialEq, Eq, Hash, Structural)]
pub struct ByteRange {
    pub start: usize,
    pub end: usize,
}

#[verifier::external_type_specification]
#[verifier::external_body]
#[verifier::reject_recursive_types(K)]
#[verifier::reject_recursive_types(V)]
#[verifier::reject_recursive_types(S)]
pub struct ExIndexMap<K, V, S>(IndexMap<K, V, S>);

/// The key-value pairs a range-to-span map holds, in insertion order.
pub uninterp spec fn mapping_entries(m: IndexMap<ByteRange, Span>) -> Seq<(ByteRange, Span)>;

/// Relies on IndexMap::new: a freshly created map holds no entries.
#[verifier::external_body]
pub fn mapping_new() -> (m: IndexMap<ByteRange, Span>)
    ensures
        mapping_entries(m) == Seq::<(ByteRange, Span)>::empty(),
{
    IndexMap::new()
}

/// Relies on IndexMap::insert: inserting a key equal to none in the map
/// appends the pair last in order and returns None; inserting an existing
/// key leaves that key in its place, updates its value, and returns the old
/// value.
#[verifier::external_body]
pub fn mapping_insert(m: &mut IndexMap<ByteRange, Span>, key: ByteRange, value: Span) -> (r:
    Option<Span>)
    ensures
        ({
            let old_entries = mapping_entries(*old(m));
            let new_entries = mapping_entries(*final (m));
            if exists|j: int|
                0 <= j < old_entries.len() && (#[trigger] old_entries[j]).0 == key {
                let j = choose|j: int|
                    0 <= j < old_entries.len() && (#[trigger] old_entries[j]).0 == key;
                &&& new_entries == old_entries.update(j, (key, value))
                &&& r == Some(old_entries[j].1)
            } else {
                &&& new_entries == old_entries.push((key, value))
                &&& r == None::<Span>
            }
        }),
{
    m.insert(key, value)
}

/// Relies on IndexMap::len: the number of entries in the map.
#[verifier::external_body]
pub fn mapping_len(m: &IndexMap<ByteRange, Span>) -> (n: usize)
    ensures
        n == mapping_entries(*m).len(),
{
    m.len()
}

/// Relies on IndexMap::get_index: the entry at a position of the insertion
/// order, or None past the end.
#[verifier::external_body]
pub fn mapping_get_index(m: &IndexMap<ByteRange, Span>, i: usize) -> (r: Option<(ByteRange, Span)>)
    ensures
        i < mapping_entries(*m).len() ==> r == Some(mapping_entries(*m)[i as int]),
        i >= mapping_entries(*m).len() ==> r is None,
{
    m.get_index(i).map(|(k, v)| (*k, *v))
}

} // verus!
