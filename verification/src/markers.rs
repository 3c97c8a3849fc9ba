//! The marks that the displayed name of a dependency carries.

use vstd::prelude::*;
use console::{style, Emoji};

verus! {

/// The marks put before the name of a dependency to tell how it is
/// declared. What stands here is shown as it is.
#[derive(Debug)]
pub struct NameMarkers {
    /// Before a dependency used for development only.
    pub development: String,
    /// Before a dependency of the build script.
    pub build: String,
    /// Before a dependency of a kind that is not known.
    pub unknown: String,
    /// Before a dependency that inherits from the workspace.
    pub workspace: String,
}

/// `console::Emoji`, displayed: the emoji where the terminal is taken to
/// show it, the fallback where it is not.
#[verifier::external_body]
pub(crate) fn emoji_or(emoji: &str, fallback: &str) -> (text: String)
    ensures
        text@ == emoji@ || text@ == fallback@,
{
    Emoji(emoji, fallback).to_string()
}

/// `console::style` with `color256`, displayed: the text in the colour of
/// that number where the terminal is taken to show colours. Nothing is
/// stated of the result.
#[verifier::external_body]
pub(crate) fn in_color(text: &str, color: u8) -> (styled: String) {
    style(text).color256(color).to_string()
}

/// `console::style` with `red`, displayed: the text in red where the
/// terminal is taken to show colours. Nothing is stated of the result.
#[verifier::external_body]
pub(crate) fn in_red(text: &str) -> (styled: String) {
    style(text).red().to_string()
}

/// `char::to_string`: the string of that one character.
#[verifier::external_body]
pub(crate) fn char_text(c: char) -> (text: String)
    ensures
        text@ == seq![c],
{
    c.to_string()
}

impl NameMarkers {
    /// Marks made of plain words.
    pub fn plain() -> (markers: NameMarkers)
        ensures
            markers.development@ == "dev"@,
            markers.build@ == "build"@,
            markers.unknown@ == "unknown"@,
            markers.workspace@ == "W"@,
    {
        NameMarkers {
            development: "dev".to_owned(),
            build: "build".to_owned(),
            unknown: "unknown".to_owned(),
            workspace: "W".to_owned(),
        }
    }

    /// The marks for the terminal at hand: emoji where it is taken to show
    /// them, greyed words where it is not.
    pub fn for_terminal() -> (markers: NameMarkers)
        ensures
            markers.workspace@ == "🗃️"@ || markers.workspace@ == "W"@,
    {
        let dev = in_color("dev", 8);
        let build = in_color("build", 8);
        let unknown = in_color("unknown", 8);
        NameMarkers {
            development: emoji_or("🧪", dev.as_str()),
            build: emoji_or("🛠️", build.as_str()),
            unknown: emoji_or("❔", unknown.as_str()),
            workspace: emoji_or("🗃️", "W"),
        }
    }
}

} // verus!
