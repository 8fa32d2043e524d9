//! The editor's own settings.

use vstd::prelude::*;

verus! {

/// The editor's settings: whether its preview renders in high dynamic
/// range, and the preview's resolution, width then height.
pub struct EditorSettings {
    pub hdr: bool,
    pub physical_size: (u32, u32),
}

impl Default for EditorSettings {
    /// Standard range, in portrait 9:16 to match the compositions:
    /// 1080 wide by 1920 high.
    fn default() -> (r: EditorSettings)
        ensures
            !r.hdr,
            r.physical_size == (1080u32, 1920u32),
    {
        EditorSettings { hdr: false, physical_size: (1080, 1920) }
    }
}

} // verus!
