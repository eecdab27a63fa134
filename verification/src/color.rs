//! Accent colors for the reply embeds that the chat layer renders.

use vstd::prelude::*;

verus! {

/// The tone of a reply embed: an error notice or an ordinary result.
pub enum EmbedColor {
    Error,
    Okay,
}

impl EmbedColor {
    /// The 24-bit color code that the chat layer renders for this tone.
    pub fn value(&self) -> (r: u32)
        ensures
            r == match self {
                EmbedColor::Error => 0x00FF_3333u32,
                EmbedColor::Okay => 0x0072_A3C3u32,
            },
    {
        match self {
            EmbedColor::Error => 0x00FF_3333,
            EmbedColor::Okay => 0x0072_A3C3,
        }
    }
}

} // verus!
