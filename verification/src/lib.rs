//! Squash-epoch headers for migration files and the schema-dump text
//! processing used when migrations are squashed.

pub mod dump_args;
pub mod error;
pub mod hex;
pub mod laws;
pub mod roundtrip;
pub mod schema_dump;
pub mod sql_scan;
pub mod squash;
pub mod text;

pub use dump_args::{
    dump_backend, mysql_dump_args, mysql_dump_args_for_parts, postgres_dump_args, DumpBackend,
    SchemaDumpError, UrlParts,
};
pub use error::{MigrateError, SquashEpochParseError};
pub use schema_dump::{filter_sqlx_migrations_statements, render_sqlite_schema};
pub use squash::{format_squash_epoch_header, parse_squash_epoch};
