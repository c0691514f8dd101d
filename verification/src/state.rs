//! Shared state of the switcher that is plain data: what the server is busy
//! with, and looking profiles up.
use crate::script_scanner::{Profile, ProfileView};
use vstd::prelude::*;

verus! {

/// Whether the running server is serving a request.
#[derive(Clone, Copy, Debug, PartialEq, Eq, Structural)]
pub enum UsageState {
    Free,
    Busy,
    Unknown,
}

/// The index of the first profile with the given id.
pub open spec fn first_with_id(ps: Seq<ProfileView>, id: Seq<char>, i: int) -> bool {
    0 <= i < ps.len() && ps[i].id == id && forall|j: int| 0 <= j < i ==> ps[j].id != id
}

/// The first profile whose id is `id`, if any.
pub fn find_profile(profiles: &[Profile], id: &str) -> (r: Option<Profile>)
    ensures
        match r {
            Some(p) => exists|i: int|
                first_with_id(profiles@.map_values(|q: Profile| q@), id@, i) && p@ == profiles@[i]@,
            None => forall|i: int| 0 <= i < profiles@.len() ==> profiles@[i].id@ != id@,
        },
{
    let mut i: usize = 0;
    while i < profiles.len()
        invariant
            i <= profiles.len(),
            forall|j: int| 0 <= j < i ==> profiles@[j].id@ != id@,
        decreases profiles.len() - i,
    {
        if crate::text::str_eq(profiles[i].id.as_str(), id) {
            let p = profiles[i].clone();
            assert(first_with_id(profiles@.map_values(|q: Profile| q@), id@, i as int));
            return Some(p);
        }
        i = i + 1;
    }
    None
}

} // verus!
