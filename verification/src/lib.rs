pub mod text;
pub mod alias_formatter;
pub mod benchmark;
pub mod benchmark_catalog;
pub mod benchmark_run;
pub mod benchmark_report;
pub mod grading;
pub mod order;
pub mod settings;
pub mod script_scanner;
pub mod state;
pub mod process_manager;
pub mod process_tree;
pub mod logging;
pub mod security;
pub mod local_api;
pub mod tray;
pub mod hermes_install;
pub mod widget;
pub mod throughput;
pub mod server_control;
pub mod trust;
