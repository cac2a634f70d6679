//! Session handling for the voices of nodes.

use vstd::prelude::*;

verus! {

/// Which voices are in use.
pub struct Session {
    /// Lists active voices. Matches the voice indices.
    pub active_voices: Vec<bool>,
}

impl Session {
    /// A session with room for the given number of voices, none of them
    /// active.
    pub fn new(max_voice_count: u16) -> (session: Self)
        ensures
            session.active_voices@ == Seq::new(max_voice_count as nat, |i: int| false),
    {
        let mut active_voices: Vec<bool> = Vec::new();
        let mut i: u16 = 0;
        while i < max_voice_count
            invariant
                i <= max_voice_count,
                active_voices@ == Seq::new(i as nat, |k: int| false),
            decreases max_voice_count - i,
        {
            active_voices.push(false);
            i += 1;
        }
        Session { active_voices }
    }
}

} // verus!
