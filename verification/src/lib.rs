//! Full-text search over a personal document library: query language,
//! segmentation into index fragments, dictionaries, import decisions and the
//! rules behind the pages of the desktop program.

pub mod browse_laws;
pub mod chunk;
pub mod chunk_laws;
pub mod cli;
pub mod command_laws;
pub mod dict;
pub mod dict_file_laws;
pub mod dict_laws;
pub mod dict_report_laws;
pub mod division_laws;
pub mod entry_laws;
pub mod exclusion_laws;
pub mod file_dialog;
pub mod filebrowser;
pub mod filter_laws;
pub mod fixtures;
pub mod fragment_laws;
pub mod grammar_laws;
pub mod heading_laws;
pub mod highlight_laws;
pub mod import;
pub mod import_laws;
pub mod lexing_laws;
pub mod library;
pub mod line_laws;
pub mod literal_laws;
pub mod locate;
pub mod locate_laws;
pub mod maintain;
pub mod match_laws;
pub mod normalize;
pub mod number_laws;
pub mod order_laws;
pub mod parse;
pub mod path_laws;
pub mod paths;
pub mod preview;
pub mod query;
pub mod query_laws;
pub mod repo;
pub mod screen;
pub mod screen_laws;
pub mod search;
pub mod search_laws;
pub mod spelling_laws;
pub mod text;
pub mod time;
pub mod token_laws;
pub mod tokenize;
pub mod upkeep_laws;
