//! Space Usage: CPU, RAM, battery and disk figures for every herdr space, with
//! the rules that decide how they are gathered, named, drawn and pushed.
//!
//! Shares and sizes are numbers of double precision, held as whole numbers of the
//! smallest step: every operation on them, and every rounding the surfaces show,
//! is stated over integers.

pub mod text;
pub mod views;
pub mod big;
pub mod double;
pub mod number;
pub mod units;
pub mod proc;
pub mod model;
pub mod names;
pub mod config;
pub mod herdr_config;
pub mod herdr_config_laws;
pub mod config_laws;
pub mod disk;
pub mod battery;
pub mod icons;
pub mod icons_laws;
pub mod proc_linux;
pub mod proc_macos;
pub mod proc_windows;
pub mod collect;
pub mod collect_laws;
pub mod model_laws;
pub mod space_laws;
pub mod family_laws;
pub mod measure_laws;
pub mod double_laws;
pub mod figure_laws;
pub mod report_laws;
pub mod battery_laws;
pub mod cell_laws;
pub mod line_laws;
pub mod setting_laws;
pub mod updater_laws;
pub mod claims_laws;
pub mod host_laws;
pub mod row_laws;
pub mod command_laws;
pub mod text_laws;
pub mod render;
pub mod render_laws;
pub mod claims;
pub mod daemon;
pub mod daemon_laws;
pub mod monitor;
pub mod cli;
