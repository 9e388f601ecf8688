//! A permissive parser for `sysctl.conf`-style files: `key = value` lines with
//! `#` and `;` comments, skipped blank and comment lines, a leading `-` that
//! silences a malformed line, and an optional schema of `key -> type` lines
//! that the parsed values are checked against.
pub mod config;
pub mod line;
pub mod literal;

pub use config::{
    check_schema_line, parse, parse_with_options, read_config_line, Config, ErrorKind, ParseError,
    ParseOptions, MAX_VALUE_LENGTH,
};
pub use line::{ignore_error, retrieve_key_value_str, should_skip, trim_str};
pub use literal::validate_type;
