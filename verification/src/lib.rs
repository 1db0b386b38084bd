pub mod text;
pub mod paths;
pub mod order;
pub mod numeric;
pub mod deb_version;
pub mod fields;
pub mod stanza;
pub mod control_file;
pub mod apt_config;
pub mod config_parser;
pub mod sources_list;
pub mod dpkg_db;
pub mod triggers;
pub mod rdiff;
pub mod pdiff;
pub mod transport;
pub mod release;
pub mod sandbox;
pub mod maintainer_scripts;
pub mod deb_format;
pub mod deb_diff;
pub mod solver;
pub mod apt_cli;
pub mod keyring;
