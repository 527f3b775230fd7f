//! A file forger's library: it concatenates source files into one output
//! file, applying replacement rules (`OLD=NEW[:line|:token]`) to each source
//! line by line.
pub mod cli;
pub mod custom;
pub mod pattern;
pub mod text;
pub mod util;

pub use custom::{apply_replacements, Replacement};
pub use util::normalize_paths;

use vstd::prelude::*;

verus! {

/// The text that the identity subcommand prints.
pub const IDENTITY: &'static str = "
Mbombo, also called Bumba, is the creator god in the religion and mythology of the Kuba people of Central Africa in the area that is now known as Democratic Republic of the Congo

In the Mbombo creation myth, Mbombo was a giant in form and white in color. The myth describes the creation of the universe from nothing

Role: Mbombo is considered a creator god in Bushongo mythology
Creation story: According to legend, in the beginning, there was only darkness and water, and Mbombo was the only being. He was a giant, pale god who eventually felt pain in his stomach and vomited up the sun, moon, stars, and then the Earth itself, including animals and people
Symbolism: His creation of the world through vomiting is unique and symbolic, often interpreted as a metaphor for creative force through suffering or sacrifice
Assistants: After creation, Mbombo delegated tasks to his sons and some of the first humans and animals to help finish shaping the world
";

} // verus!
