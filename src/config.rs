//! What the server is started with: the database to serve and the size of
//! the reader pool.
use vstd::prelude::*;

verus! {

/// A database file to serve, by format.
#[derive(Debug)]
pub enum DbArg {
    /// A constant database, read through a pool of readers.
    Cdb(String),
    /// A sorted table, read through one shared reader.
    Mtbl(String),
}

/// The database named on the command line: exactly one of the two formats
/// must be given.
pub fn select_db(cdb: Option<String>, mtbl: Option<String>) -> (r: Option<DbArg>)
    ensures
        r == (match (cdb, mtbl) {
            (Some(c), None) => Some(DbArg::Cdb(c)),
            (None, Some(m)) => Some(DbArg::Mtbl(m)),
            _ => None::<DbArg>,
        }),
{
    match (cdb, mtbl) {
        (Some(c), None) => Some(DbArg::Cdb(c)),
        (None, Some(m)) => Some(DbArg::Mtbl(m)),
        _ => None,
    }
}

/// The number of pooled readers: ten, and ten more per CPU.
pub fn pool_capacity(cpu_count: usize) -> (r: usize)
    requires
        10 + 10 * cpu_count <= usize::MAX,
    ensures
        r == 10 + 10 * cpu_count,
{
    10 + 10 * cpu_count
}

} // verus!
