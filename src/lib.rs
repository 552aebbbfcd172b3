//! Reading, editing and re-writing Bethesda plugin containers and their
//! localization string tables, with a byte-exact round trip for untouched data.

pub mod bytes;
pub mod error;
pub mod subrecord;
pub mod record;
pub mod group;
pub mod string_file;
pub mod string_set;
pub mod table_names;
pub mod string_laws;
pub mod router;
pub mod extracted;
pub mod plugin;
pub mod extract;
pub mod translate;
pub mod localized;
pub mod esl;
pub mod delta;
pub mod files;
pub mod stats;
pub mod debug;
pub mod text;
pub mod raw_string;
pub mod validate;

pub use delta::{RecordChange, RecordId, TranslationDelta};
pub use error::EspError;
pub use extracted::ExtractedString;
pub use files::{is_supported_file, SpecialRecordHandler, VERSION};
pub use group::{Group, GroupChild, GroupType};
pub use plugin::Plugin;
pub use raw_string::RawString;
pub use record::Record;
pub use router::{DefaultStringRouter, StringRouter};
pub use stats::PluginStats;
pub use string_file::{StringEntry, StringFile, StringFileType};
pub use string_set::StringFileSet;
pub use subrecord::Subrecord;
pub use validate::is_valid_string;
