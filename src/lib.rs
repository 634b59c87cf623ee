//! Recognition of obscene words in free text, resistant to common
//! distortions: look-alike characters, doubled letters, transliteration
//! and inflectional prefixes.
pub mod text;
pub mod utils;
pub mod mode;
pub mod replacement;
pub mod antiswear;
pub mod laws;

pub use antiswear::{Analyze, Antiswear, AntiswearGroup, Builder};
pub use mode::Mode;
pub use replacement::{DescriptorError, Replacement};
