//! The 21-landmark hand topology.
//!
//! ```text
//!        8   12  16  20      <- tips
//!        |   |   |   |
//!        7   11  15  19
//!        |   |   |   |
//!        6   10  14  18
//!        |   |   |   |
//!    4   5---9---13--17      <- MCP knuckles
//!     \   \  |  /  /
//!      3    \ | /
//!       2    \|/
//!        1----0               <- wrist
//! ```

use vstd::prelude::*;

verus! {

pub const WRIST: usize = 0;
pub const THUMB_CMC: usize = 1;
pub const THUMB_MCP: usize = 2;
pub const THUMB_IP: usize = 3;
pub const THUMB_TIP: usize = 4;
pub const INDEX_MCP: usize = 5;
pub const INDEX_PIP: usize = 6;
pub const INDEX_DIP: usize = 7;
pub const INDEX_TIP: usize = 8;
pub const MIDDLE_MCP: usize = 9;
pub const MIDDLE_PIP: usize = 10;
pub const MIDDLE_DIP: usize = 11;
pub const MIDDLE_TIP: usize = 12;
pub const RING_MCP: usize = 13;
pub const RING_PIP: usize = 14;
pub const RING_DIP: usize = 15;
pub const RING_TIP: usize = 16;
pub const PINKY_MCP: usize = 17;
pub const PINKY_PIP: usize = 18;
pub const PINKY_DIP: usize = 19;
pub const PINKY_TIP: usize = 20;

} // verus!
