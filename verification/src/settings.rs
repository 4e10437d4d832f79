use vstd::prelude::*;

verus! {

/// User settings kept across sessions.  Reading and writing them to disk is
/// the shell's concern; the library only fixes the shape and the defaults.
pub struct PersistentSettings {
    pub accent_color: [u8; 3],
    pub vsync: bool,
}

impl Default for PersistentSettings {
    /// The out-of-the-box settings: the accent colour and vertical sync on.
    fn default() -> (r: Self)
        ensures
            r.accent_color@ == seq![255u8, 0u8, 75u8],
            r.vsync == true,
    {
        let r = PersistentSettings { accent_color: [255, 0, 75], vsync: true };
        proof {
            assert(r.accent_color@ =~= seq![255u8, 0u8, 75u8]);
        }
        r
    }
}

} // verus!
