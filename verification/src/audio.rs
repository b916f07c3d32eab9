//! The distinct sound cues the game can trigger and where their assets live.

use vstd::prelude::*;

verus! {

/// The distinct audio events the game can trigger.
#[derive(Debug, Clone, Copy, PartialEq, Eq, Hash, Structural)]
pub enum SoundEffect {
    Select,
    Swap,
    Match,
    Invalid,
}

impl SoundEffect {
    pub const ALL: [SoundEffect; 4] = [
        SoundEffect::Select,
        SoundEffect::Swap,
        SoundEffect::Match,
        SoundEffect::Invalid,
    ];

    /// The asset path of the cue's sound file.
    pub open spec fn spec_asset_path(self) -> Seq<char> {
        match self {
            SoundEffect::Select => "audio/select.ogg"@,
            SoundEffect::Swap => "audio/swap.ogg"@,
            SoundEffect::Match => "audio/match.ogg"@,
            SoundEffect::Invalid => "audio/invalid.ogg"@,
        }
    }

    pub fn asset_path(self) -> (path: &'static str)
        ensures
            path@ == self.spec_asset_path(),
    {
        match self {
            SoundEffect::Select => "audio/select.ogg",
            SoundEffect::Swap => "audio/swap.ogg",
            SoundEffect::Match => "audio/match.ogg",
            SoundEffect::Invalid => "audio/invalid.ogg",
        }
    }
}

} // verus!
