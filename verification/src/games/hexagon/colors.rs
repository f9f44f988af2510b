//! The colours in which players are shown.
use vstd::prelude::*;

verus! {

/// The number of colours before they come round again.
pub const PALETTE_SIZE: usize = 8;

/// The colour of the player in a seat. The seats share eight colours in turn.
pub open spec fn color_of(seat: int) -> Seq<char> {
    let place = seat % (PALETTE_SIZE as int);
    if place == 0 {
        "#DC143C"@
    } else if place == 1 {
        "#4169E1"@
    } else if place == 2 {
        "#228B22"@
    } else if place == 3 {
        "#FF8C00"@
    } else if place == 4 {
        "#8A2BE2"@
    } else if place == 5 {
        "#20B2AA"@
    } else if place == 6 {
        "#FFD700"@
    } else {
        "#8B4513"@
    }
}

/// The colour of the player in a seat.
pub fn get_player_color(seat: usize) -> (color: String)
    ensures
        color@ == color_of(seat as int),
{
    let place = seat % PALETTE_SIZE;
    let name = if place == 0 {
        "#DC143C"
    } else if place == 1 {
        "#4169E1"
    } else if place == 2 {
        "#228B22"
    } else if place == 3 {
        "#FF8C00"
    } else if place == 4 {
        "#8A2BE2"
    } else if place == 5 {
        "#20B2AA"
    } else if place == 6 {
        "#FFD700"
    } else {
        "#8B4513"
    };
    name.to_owned()
}

} // verus!
