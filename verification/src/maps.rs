//! The hash maps of the `hashbrown` crate that requests and routes keep,
//! seen as maps from byte strings.

use hashbrown::HashMap;
use vstd::prelude::*;

verus! {

/// A route node's child table: path segment to node index, in a `hashbrown`
/// map with its default hasher.
#[verifier::external_body]
pub struct ChildTable {
    map: HashMap<Vec<u8>, usize>,
}

/// A request's header table: lower-case name to value, in a `hashbrown` map
/// with its default hasher.
#[verifier::external_body]
pub struct HeaderTable {
    map: HashMap<Vec<u8>, Vec<u8>>,
}

/// The entries of a route node's child table: path segment to node index.
pub uninterp spec fn child_entries(m: ChildTable) -> Map<Seq<u8>, usize>;

/// The entries of a request's header table: lower-case name to value.
pub uninterp spec fn header_entries(m: HeaderTable) -> Map<Seq<u8>, Seq<u8>>;

/// `HashMap::new` for a child table: no entries.
#[verifier::external_body]
pub(crate) fn new_child_table() -> (m: ChildTable)
    ensures
        child_entries(m) =~= Map::empty(),
{
    ChildTable { map: HashMap::new() }
}

/// `HashMap::get` on a child table, the key borrowed as a slice
/// (`Vec<u8>` hashes and compares as its bytes).
#[verifier::external_body]
pub(crate) fn get_child(m: &ChildTable, seg: &[u8]) -> (c: Option<usize>)
    ensures
        match c {
            Some(i) => child_entries(*m).dom().contains(seg@) && child_entries(*m)[seg@] == i,
            None => !child_entries(*m).dom().contains(seg@),
        },
{
    m.map.get(seg).copied()
}

/// `HashMap::insert` on a child table: the key now maps to `c`.
#[verifier::external_body]
pub(crate) fn insert_child(m: &mut ChildTable, seg: Vec<u8>, c: usize)
    ensures
        child_entries(*final(m)) == child_entries(*old(m)).insert(seg@, c),
{
    m.map.insert(seg, c);
}

/// `HashMap::new` for a header table: no entries.
#[verifier::external_body]
pub(crate) fn new_header_table() -> (m: HeaderTable)
    ensures
        header_entries(m) =~= Map::empty(),
{
    HeaderTable { map: HashMap::new() }
}

/// `HashMap::insert` on a header table: the name now maps to `value`.
#[verifier::external_body]
pub(crate) fn insert_header(m: &mut HeaderTable, name: Vec<u8>, value: Vec<u8>)
    ensures
        header_entries(*final(m)) == header_entries(*old(m)).insert(name@, value@),
{
    m.map.insert(name, value);
}

/// `HashMap::clear` on a header table: no entries are left.
#[verifier::external_body]
pub(crate) fn clear_headers(m: &mut HeaderTable)
    ensures
        header_entries(*final(m)) =~= Map::empty(),
{
    m.map.clear();
}

/// `HashMap::capacity` of a header table.  Nothing is stated of the number:
/// it is what the allocator gave.
#[verifier::external_body]
pub(crate) fn header_capacity(m: &HeaderTable) -> usize {
    m.map.capacity()
}

/// `HashMap::reserve` on a header table: room for `additional` more entries;
/// the entries stay as they are.  It panics when computing the size of the
/// table overflows: with entries of 48 bytes plus a control byte in at most
/// `16 / 7` buckets per entry, not below the bound required here.
#[verifier::external_body]
pub(crate) fn reserve_headers(m: &mut HeaderTable, additional: usize)
    requires
        header_entries(*old(m)).dom().len() + additional <= isize::MAX / 128,
    ensures
        header_entries(*final(m)) == header_entries(*old(m)),
{
    m.map.reserve(additional);
}

} // verus!
