pub mod text;
pub mod compose;
pub mod digits;
pub mod table;
pub mod notation;
pub mod snbt;
pub mod notation_laws;
pub mod order;
pub mod picks;
pub mod quest;
pub mod translation;
pub mod path;
pub mod editor;
pub mod graph;
pub mod diagnostics;
pub mod import;
pub mod layout;
pub mod export;
pub mod layout_laws;
pub mod saved_fields;
pub mod saved_entries;
pub mod saved_quests;
pub mod saved_laws;
pub mod naming;
pub mod languages;
pub mod duplicate;
pub mod saving;
pub mod kept_laws;
pub mod autosave;
pub mod book;
pub mod opening;
pub mod letters;
pub mod resources;
pub mod pictures;
pub mod search;
pub mod localize;
pub mod labels;
pub mod choices;
pub mod session;
pub mod cycle_laws;
pub mod captions;
pub mod interactive;
pub mod editing_laws;
pub mod import_laws;
pub mod writing_laws;
pub mod reading_laws;
pub mod search_laws;
pub mod text_laws;
pub mod translation_laws;
pub mod export_laws;
pub mod book_laws;
pub mod resource_laws;
pub mod dialog_laws;
pub mod graph_laws;
pub mod message_laws;
pub mod order_laws;
pub mod figure_laws;
