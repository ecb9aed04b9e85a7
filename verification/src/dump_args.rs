use vstd::prelude::*;

use crate::schema_dump::strings_view;
use crate::text::{chars_of, find_char, find_in, push_char};

verus! {

#[verifier::external_type_specification]
#[verifier::external_body]
pub struct ExUrlParseError(url::ParseError);

/// Why a schema dump cannot be taken, or its command line cannot be built.
#[derive(Debug)]
pub enum SchemaDumpError {
    /// The database backend has no schema dump; its name is carried.
    UnsupportedBackend(String),
    /// The database URL could not be parsed (MySQL dumps read its parts).
    InvalidDatabaseUrl(url::ParseError),
    /// The database URL names no database (MySQL dumps need one).
    MissingDatabaseName,
}

/// The tool that dumps the schema of a database backend.
#[derive(Debug, Clone, Copy, PartialEq, Eq)]
pub enum DumpBackend {
    /// `pg_dump`.
    Postgres,
    /// `mysqldump`.
    MySql,
    /// A query of `sqlite_master`.
    Sqlite,
}

/// The dump backend for a backend name as the database driver reports it.
pub open spec fn backend_for(name: Seq<char>) -> Option<DumpBackend> {
    if name == "PostgreSQL"@ {
        Some(DumpBackend::Postgres)
    } else if name == "MySQL"@ {
        Some(DumpBackend::MySql)
    } else if name == "SQLite"@ {
        Some(DumpBackend::Sqlite)
    } else {
        None
    }
}

/// Whether two strings are equal.
fn str_equal(a: &str, b: &str) -> (r: bool)
    ensures
        r == (a@ == b@),
{
    let x: String = a.to_owned();
    let y: String = b.to_owned();
    x == y
}

/// Chooses how to dump the schema of the backend named `backend_name`.
pub fn dump_backend(backend_name: &str) -> (r: Result<DumpBackend, SchemaDumpError>)
    ensures
        match backend_for(backend_name@) {
            Some(b) => r matches Ok(x) && x == b,
            None => r matches Err(SchemaDumpError::UnsupportedBackend(n)) && n@ == backend_name@,
        },
{
    if str_equal(backend_name, "PostgreSQL") {
        Ok(DumpBackend::Postgres)
    } else if str_equal(backend_name, "MySQL") {
        Ok(DumpBackend::MySql)
    } else if str_equal(backend_name, "SQLite") {
        Ok(DumpBackend::Sqlite)
    } else {
        Err(SchemaDumpError::UnsupportedBackend(backend_name.to_owned()))
    }
}

/// The arguments of `pg_dump` for a schema-only dump of `url`.
pub open spec fn postgres_args(url: Seq<char>) -> Seq<Seq<char>> {
    seq![
        "--schema-only"@,
        "--no-owner"@,
        "--no-acl"@,
        "--exclude-table=_sqlx_migrations"@,
        url,
    ]
}

/// The arguments with which `pg_dump` dumps the schema of `database_url`,
/// leaving out ownership, privileges and the migrations table.
pub fn postgres_dump_args(database_url: &str) -> (args: Vec<String>)
    ensures
        strings_view(args@) == postgres_args(database_url@),
{
    let args = vec![
        String::from_str("--schema-only"),
        String::from_str("--no-owner"),
        String::from_str("--no-acl"),
        String::from_str("--exclude-table=_sqlx_migrations"),
        String::from_str(database_url),
    ];
    assert(strings_view(args@) =~= postgres_args(database_url@));
    args
}

/// What `url::Url::parse` reads from `input`, when it parses: the host, the
/// port, the user name, the password and the path, in that order, each as the
/// URL's accessor of that name returns it; `None` when parsing fails.
pub uninterp spec fn url_parts(input: Seq<char>) -> Option<
    (Option<Seq<char>>, Option<u16>, Seq<char>, Option<Seq<char>>, Seq<char>),
>;

/// The view of an optional string.
pub open spec fn opt_string_view(o: Option<String>) -> Option<Seq<char>> {
    match o {
        Some(s) => Some(s@),
        None => None,
    }
}

/// The parts of a parsed URL that a MySQL dump reads, as the URL's accessors
/// of the same names return them.
pub struct UrlParts {
    pub host: Option<String>,
    pub port: Option<u16>,
    pub username: String,
    pub password: Option<String>,
    pub path: String,
}

impl View for UrlParts {
    type V = (Option<Seq<char>>, Option<u16>, Seq<char>, Option<Seq<char>>, Seq<char>);

    open spec fn view(&self) -> Self::V {
        (opt_string_view(self.host), self.port, self.username@, opt_string_view(self.password), self.path@)
    }
}

/// Parses `input` with `url::Url::parse` and reads the parsed URL's
/// `host_str`, `port`, `username`, `password` and `path`.
///
/// The contract claims that parsing succeeds exactly when `url_parts` is some
/// value, and that the parts read are that value: the url crate computes them
/// from the input alone. Which `ParseError` comes back on failure is left
/// unsaid.
#[verifier::external_body]
fn parse_url_parts(input: &str) -> (r: Result<UrlParts, url::ParseError>)
    ensures
        r is Ok <==> url_parts(input@) is Some,
        r matches Ok(p) ==> url_parts(input@) == Some(p@),
{
    match url::Url::parse(input) {
        Ok(u) => Ok(
            UrlParts {
                host: u.host_str().map(String::from),
                port: u.port(),
                username: String::from(u.username()),
                password: u.password().map(String::from),
                path: String::from(u.path()),
            },
        ),
        Err(e) => Err(e),
    }
}

/// The digit character for `d < 10`.
pub open spec fn digit_char(d: nat) -> char {
    (0x30 + d) as char
}

/// The decimal representation of `n`, as integers are displayed.
pub open spec fn decimal(n: nat) -> Seq<char>
    decreases n,
{
    if n < 10 {
        seq![digit_char(n)]
    } else {
        decimal(n / 10) + seq![digit_char(n % 10)]
    }
}

/// Appends the decimal representation of `n` to `out`.
fn push_decimal(out: &mut String, n: u16)
    ensures
        final(out)@ == old(out)@ + decimal(n as nat),
    decreases n,
{
    if n >= 10 {
        push_decimal(out, n / 10);
    }
    let d = (n % 10) as u8;
    push_char(out, (0x30 + d) as char);
    assert(final(out)@ =~= old(out)@ + decimal(n as nat));
}

/// The index of the first character of `s[i..]` that is not `c`, or `s.len()`.
pub open spec fn skip_char(s: Seq<char>, i: int, c: char) -> int
    decreases s.len() - i,
{
    if i >= s.len() {
        s.len() as int
    } else if s[i] == c {
        skip_char(s, i + 1, c)
    } else {
        i
    }
}

/// The database named by a URL path: leading `/` removed, cut at the first `?`.
pub open spec fn mysql_database(path: Seq<char>) -> Seq<char> {
    let d = skip_char(path, 0, '/');
    path.subrange(d, find_in(path, d, path.len() as int, '?'))
}

/// The arguments of `mysqldump` for the parsed URL parts `p`: host defaulting
/// to `localhost`, port to 3306, user to `root`, the password given only when
/// it is not empty, and the migrations table ignored.
pub open spec fn mysql_args(
    p: (Option<Seq<char>>, Option<u16>, Seq<char>, Option<Seq<char>>, Seq<char>),
) -> Seq<Seq<char>> {
    let host = match p.0 {
        Some(h) => h,
        None => "localhost"@,
    };
    let port: u16 = match p.1 {
        Some(x) => x,
        None => 3306,
    };
    let user = if p.2.len() == 0 {
        "root"@
    } else {
        p.2
    };
    let password = match p.3 {
        Some(pw) => pw,
        None => seq![],
    };
    let db = mysql_database(p.4);
    seq![
        "--no-data"@,
        "--routines"@,
        "--triggers"@,
        "--skip-comments"@,
        "--set-gtid-purged=OFF"@,
        "-h"@,
        host,
        "-P"@,
        decimal(port as nat),
        "-u"@,
        user,
        "--ignore-table="@ + db + "._sqlx_migrations"@,
        db,
    ] + if password.len() > 0 {
        seq!["--password="@ + password]
    } else {
        seq![]
    }
}

/// A string holding `s[lo..hi)`.
fn string_of_range(s: &Vec<char>, lo: usize, hi: usize) -> (r: String)
    requires
        lo <= hi <= s@.len(),
    ensures
        r@ == s@.subrange(lo as int, hi as int),
{
    let mut out = String::new();
    let mut k = lo;
    while k < hi
        invariant
            lo <= k <= hi <= s@.len(),
            out@ == s@.subrange(lo as int, k as int),
        decreases hi - k,
    {
        push_char(&mut out, s[k]);
        assert(s@.subrange(lo as int, k + 1) =~= s@.subrange(lo as int, k as int).push(s@[k as int]));
        k += 1;
    }
    out
}

/// The database named by the URL path `path`.
fn database_of_path(path: &str) -> (db: String)
    ensures
        db@ == mysql_database(path@),
{
    let s = chars_of(path);
    let n = s.len();
    let mut d: usize = 0;
    while d < n && s[d] == '/'
        invariant
            d <= n,
            n == s@.len(),
            skip_char(s@, 0, '/') == skip_char(s@, d as int, '/'),
        decreases n - d,
    {
        d += 1;
    }
    let e = find_char(&s, d, n, '?');
    proof {
        assert(s@ == path@);
    }
    string_of_range(&s, d, e)
}

/// The arguments with which `mysqldump` dumps the schema of the database at
/// `database_url` (which `mysqldump` cannot take as a URL).
pub fn mysql_dump_args(database_url: &str) -> (r: Result<Vec<String>, SchemaDumpError>)
    ensures
        match url_parts(database_url@) {
            None => r matches Err(SchemaDumpError::InvalidDatabaseUrl(_)),
            Some(p) => if mysql_database(p.4).len() == 0 {
                r matches Err(SchemaDumpError::MissingDatabaseName)
            } else {
                r matches Ok(args) && strings_view(args@) == mysql_args(p)
            },
        },
{
    match parse_url_parts(database_url) {
        Ok(parts) => mysql_dump_args_for_parts(parts),
        Err(e) => Err(SchemaDumpError::InvalidDatabaseUrl(e)),
    }
}

/// The arguments of `mysqldump` for the parts of a parsed database URL.
pub fn mysql_dump_args_for_parts(parts: UrlParts) -> (r: Result<Vec<String>, SchemaDumpError>)
    ensures
        if mysql_database(parts@.4).len() == 0 {
            r matches Err(SchemaDumpError::MissingDatabaseName)
        } else {
            r matches Ok(args) && strings_view(args@) == mysql_args(parts@)
        },
{
    let ghost p = parts@;
    let host = match parts.host {
        Some(h) => h,
        None => String::from_str("localhost"),
    };
    let port: u16 = match parts.port {
        Some(x) => x,
        None => 3306,
    };
    let user = if parts.username.as_str().is_empty() {
        String::from_str("root")
    } else {
        parts.username
    };
    let password = match parts.password {
        Some(pw) => pw,
        None => String::new(),
    };
    let database = database_of_path(parts.path.as_str());
    if database.as_str().is_empty() {
        return Err(SchemaDumpError::MissingDatabaseName);
    }
    let mut port_text = String::new();
    push_decimal(&mut port_text, port);
    let mut ignore_table = String::from_str("--ignore-table=");
    ignore_table.append(database.as_str());
    ignore_table.append("._sqlx_migrations");
    let mut args = vec![
        String::from_str("--no-data"),
        String::from_str("--routines"),
        String::from_str("--triggers"),
        String::from_str("--skip-comments"),
        String::from_str("--set-gtid-purged=OFF"),
        String::from_str("-h"),
        host,
        String::from_str("-P"),
        port_text,
        String::from_str("-u"),
        user,
        ignore_table,
        database,
    ];
    if !password.as_str().is_empty() {
        let mut password_arg = String::from_str("--password=");
        password_arg.append(password.as_str());
        args.push(password_arg);
    }
    assert(strings_view(args@) =~= mysql_args(p));
    Ok(args)
}

} // verus!
