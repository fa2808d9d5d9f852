//! Detection of configured word patterns (wildcards and character classes)
//! inside free text, resistant to Unicode look-alike obfuscation, with
//! censoring of the matched positions.
pub mod confusables;
pub mod sentence;
pub mod word;
pub mod word_group;
pub mod word_part;
