//! How a status is named and colored on screen.

use vstd::prelude::*;
use egui::Color32;
use crate::group::GroupStatus;

verus! {

#[verifier::external_type_specification]
#[verifier::external_body]
pub struct ExColor32(Color32);

/// What `Color32::from_rgb` returns for the given channels.
pub uninterp spec fn rgb_color(r: u8, g: u8, b: u8) -> Color32;

/// An opaque color of the given red, green and blue channels: calls
/// `egui::Color32::from_rgb`. The contract names the result and states that
/// different channels give different colors (the crate's source stores the
/// channels and an alpha of 255); it says nothing else of the value.
#[verifier::external_body]
fn color_from_rgb(r: u8, g: u8, b: u8) -> (c: Color32)
    ensures
        c == rgb_color(r, g, b),
        forall|r2: u8, g2: u8, b2: u8|
            #[trigger] rgb_color(r2, g2, b2) == c ==> r2 == r && g2 == g && b2 == b,
{
    Color32::from_rgb(r, g, b)
}

/// The label of a status.
pub open spec fn status_text(s: GroupStatus) -> Seq<char> {
    match s {
        GroupStatus::Match => "Match"@,
        GroupStatus::SizeMismatch => "Size mismatch"@,
        GroupStatus::OnlyA => "Only in A"@,
        GroupStatus::OnlyB => "Only in B"@,
    }
}

/// The red, green and blue channels of the color of a status.
pub open spec fn status_rgb(s: GroupStatus) -> (u8, u8, u8) {
    match s {
        GroupStatus::Match => (80, 180, 80),
        GroupStatus::SizeMismatch => (220, 160, 30),
        GroupStatus::OnlyA => (100, 160, 240),
        GroupStatus::OnlyB => (220, 100, 100),
    }
}

/// The label of a status, as shown next to a group's name.
pub fn status_label(s: &GroupStatus) -> (r: &'static str)
    ensures
        r@ == status_text(*s),
{
    match s {
        GroupStatus::Match => "Match",
        GroupStatus::SizeMismatch => "Size mismatch",
        GroupStatus::OnlyA => "Only in A",
        GroupStatus::OnlyB => "Only in B",
    }
}

/// The color of a status.
pub open spec fn status_rgb_color(s: GroupStatus) -> Color32 {
    rgb_color(status_rgb(s).0, status_rgb(s).1, status_rgb(s).2)
}

/// The color in which paths under the first directory are marked.
pub fn side_a_color() -> (c: Color32)
    ensures
        c == rgb_color(100, 160, 240),
{
    color_from_rgb(100, 160, 240)
}

/// The color in which paths under the second directory are marked.
pub fn side_b_color() -> (c: Color32)
    ensures
        c == rgb_color(220, 100, 100),
{
    color_from_rgb(220, 100, 100)
}

/// The color in which duplicates are marked.
pub fn duplicate_color() -> (c: Color32)
    ensures
        c == rgb_color(210, 120, 220),
{
    color_from_rgb(210, 120, 220)
}

/// The color in which a status is shown. Different statuses get different
/// colors; "only in A" and "only in B" get the colors of the two sides.
pub fn status_color(s: &GroupStatus) -> (c: Color32)
    ensures
        c == status_rgb_color(*s),
        forall|t: GroupStatus| t != *s ==> c != #[trigger] status_rgb_color(t),
        *s == GroupStatus::OnlyA ==> c == rgb_color(100, 160, 240),
        *s == GroupStatus::OnlyB ==> c == rgb_color(220, 100, 100),
{
    match s {
        GroupStatus::Match => color_from_rgb(80, 180, 80),
        GroupStatus::SizeMismatch => color_from_rgb(220, 160, 30),
        GroupStatus::OnlyA => color_from_rgb(100, 160, 240),
        GroupStatus::OnlyB => color_from_rgb(220, 100, 100),
    }
}

} // verus!
