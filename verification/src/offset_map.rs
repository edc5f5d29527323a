use vstd::prelude::*;
use std::collections::BTreeMap;

verus! {

broadcast use {vstd::std_specs::btree::group_btree_axioms, vstd::laws_cmp::group_laws_cmp};

/// What a map of paths by offsets is to the contracts: each path as its
/// bytes.
pub open spec fn path_view(m: Map<u64, Vec<u8>>) -> Map<u64, Seq<u8>> {
    Map::new(|k: u64| m.contains_key(k), |k: u64| m[k]@)
}

/// A map without paths.
pub fn empty_paths() -> (r: BTreeMap<u64, Vec<u8>>)
    ensures
        path_view(r@) == Map::<u64, Seq<u8>>::empty(),
{
    let r: BTreeMap<u64, Vec<u8>> = BTreeMap::new();
    assert(path_view(r@) =~= Map::<u64, Seq<u8>>::empty());
    r
}

/// Puts `path` at `offset`, in place of a path that was there.
pub fn put_path(files: &mut BTreeMap<u64, Vec<u8>>, offset: u64, path: Vec<u8>)
    ensures
        path_view(final(files)@) == path_view(old(files)@).insert(offset, path@),
{
    let ghost before = files@;
    files.insert(offset, path);
    assert(files@ == before.insert(offset, path));
    assert(path_view(files@) =~= path_view(before).insert(offset, path@));
}

} // verus!
