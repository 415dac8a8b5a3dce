pub mod browser;
pub mod cli;
pub mod db;
pub mod dir_list;
