//! Colour tokens of the theme and the light/dark mode.

use vstd::prelude::*;
use crate::color::Color;

verus! {

/// Light or dark appearance.
#[derive(Debug, Clone, Copy, PartialEq, Eq, Structural)]
pub enum Mode {
    Light,
    Dark,
}

/// Text colours.
#[derive(Debug, Clone, Copy)]
pub struct TextTokens {
    pub regular_default: Color,
    pub subtle_default: Color,
    pub link_default: Color,
    pub link_hover: Color,
    /// Brand colour for headings and emphasis.
    pub brand_default: Color,
    pub brand_hover: Color,
    /// Text on brand-coloured fills.
    pub on_brand_default: Color,
}

/// Background colours.
#[derive(Debug, Clone, Copy)]
pub struct BackgroundTokens {
    /// Cards and surfaces.
    pub primary_default: Color,
    /// Page background.
    pub secondary_default: Color,
    /// Tracks and wells.
    pub tertiary_default: Color,
    pub brand_default: Color,
    pub brand_hover: Color,
    pub brand_clicked: Color,
    pub disabled_default: Color,
}

/// Border colours.
#[derive(Debug, Clone, Copy)]
pub struct BorderTokens {
    pub default: Color,
    pub strong: Color,
}

/// Status colours and their backgrounds.
#[derive(Debug, Clone, Copy)]
pub struct StatusTokens {
    pub danger: Color,
    pub danger_bg: Color,
    pub success: Color,
    pub success_bg: Color,
    pub warning: Color,
    pub warning_bg: Color,
    pub info: Color,
    pub info_bg: Color,
}

} // verus!
