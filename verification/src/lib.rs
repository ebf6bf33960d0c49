pub mod text;
pub mod utf8_facts;
pub mod keyed;
pub mod undotree;
pub mod prompts;
pub mod events;
pub mod utils;
pub mod responses;
pub mod data;
pub mod memory;
pub mod workers;
pub mod rtf;
pub mod dropbox;
pub mod paths;
pub mod error;
pub mod config;
pub mod import;
pub mod command;
pub mod commands;
pub mod git;
pub mod providers;
pub mod search;
pub mod pdf;
pub mod export;
pub mod export_events;
pub mod docx_out;
pub mod docx_layout;
pub mod indexer;
pub mod fs;
pub mod chunker;
pub mod docx;
pub mod book;
pub mod xml;
pub mod scrivener;
