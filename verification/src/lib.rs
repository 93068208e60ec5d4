//! Verified core of a railway timetable and infrastructure editor:
//! day-of-week sets, keyboard shortcut registry, project-format migration
//! chains, track layout helpers and the pure parts of the timetable importers.

pub mod csv_import;
pub mod geojson;
pub mod days_of_week;
pub mod jtraingraph;
pub mod jtraingraph_network;
pub mod junction;
pub mod keyboard_shortcuts;
pub mod line;
pub mod line_graph;
pub mod migrations;
pub mod nimby;
pub mod nimby_runs;
pub mod order;
pub mod parsing;
pub mod project;
pub mod project_file;
pub mod route;
pub mod routing;
pub mod station;
pub mod text;
pub mod track;
pub mod user_settings;
pub mod view;
