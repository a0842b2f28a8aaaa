use vstd::prelude::*;

// Characters: trimming, integer reading and searching within text.
pub mod text;
// A recognised line: its bounding box, its text, and reading order.
pub mod line;
// Turning recognised lines into one text, with the name-label rule.
pub mod reconstruct;
// Languages, the options a user toggles, and the commands that toggle them.
pub mod options;
// Translations gathered per language.
pub mod translation;
// The bodies of the requests to the cloud services, and what comes back.
pub mod requests;

verus! {

} // verus!
