//! Choosing the scratch tmpfs.

use vstd::prelude::*;

verus! {

/// What a candidate mount point for the scratch tmpfs looks like.
#[derive(Debug)]
pub struct TmpfsCandidate {
    pub path: String,
    pub exists: bool,
    /// It can be listed and holds no entry.
    pub empty: bool,
}

#[derive(Debug)]
pub enum TempDirError {
    /// No candidate exists and is empty.
    NoneUsable,
}

pub open spec fn tmpfs_candidates_spec() -> Seq<Seq<char>> {
    seq!["/debug_ramdisk"@, "/patch_hw"@, "/oem"@, "/root"@, "/sbin"@]
}

/// The places tried for the scratch tmpfs, in order.
pub fn tmpfs_candidates() -> (r: Vec<String>)
    ensures
        r@.len() == 5,
        forall|i: int| 0 <= i < 5 ==> (#[trigger] r@[i])@ == tmpfs_candidates_spec()[i],
{
    let mut r: Vec<String> = Vec::new();
    r.push(String::from_str("/debug_ramdisk"));
    r.push(String::from_str("/patch_hw"));
    r.push(String::from_str("/oem"));
    r.push(String::from_str("/root"));
    r.push(String::from_str("/sbin"));
    r
}

/// The first candidate that exists and is empty.
pub open spec fn first_usable(cs: Seq<TmpfsCandidate>) -> Option<Seq<char>>
    decreases cs.len(),
{
    if cs.len() == 0 {
        None
    } else if cs[0].exists && cs[0].empty {
        Some(cs[0].path@)
    } else {
        first_usable(cs.drop_first())
    }
}

pub fn select_temp_dir(candidates: &Vec<TmpfsCandidate>) -> (r: Result<String, TempDirError>)
    ensures
        match first_usable(candidates@) {
            Some(p) => r is Ok && r->Ok_0@ == p,
            None => r is Err,
        },
{
    let mut i: usize = 0;
    assert(candidates@.skip(0) =~= candidates@);
    while i < candidates.len()
        invariant
            i <= candidates.len(),
            first_usable(candidates@) == first_usable(candidates@.skip(i as int)),
        decreases candidates.len() - i,
    {
        assert(candidates@.skip(i as int).drop_first() =~= candidates@.skip(i + 1));
        if candidates[i].exists && candidates[i].empty {
            return Ok(candidates[i].path.clone());
        }
        i += 1;
    }
    Err(TempDirError::NoneUsable)
}

} // verus!
