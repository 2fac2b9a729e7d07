//! Verified rules of a PikPak cloud-drive client: reading server records,
//! download and upload rules, caches with soft caps, the file browser's
//! listing cache and rows, the transfer job tables and history, file
//! classification and the texts the interface shows.

pub mod error;
pub mod text;
pub mod json;
pub mod paths;

pub mod types;
pub mod download;
pub mod upload;
pub mod requests;
pub mod walk;

pub mod filetypes;
pub mod format;
pub mod helpers;
pub mod share_link;
pub mod save_share;

pub mod preview;
pub mod thumbs;
pub mod cache;
pub mod dircache;
pub mod browse;
pub mod pages;
pub mod shares;

pub mod settings;
pub mod jobs;
pub mod table;
pub mod selection;
pub mod reports;
pub mod transfer;
pub mod logrotate;
pub mod msg;
pub mod tasks;
