//! Schema versions: which migrations a database needs.

use vstd::prelude::*;

use crate::error::{Error, Result};

verus! {

/// The version of the schema that this library knows.
pub const SCHEMA_VERSION: i64 = 3;

/// The versions that a database at version `found` passes through.
pub open spec fn steps_from(found: int) -> Seq<int> {
    if found < 0 || found >= SCHEMA_VERSION {
        Seq::empty()
    } else {
        Seq::new((SCHEMA_VERSION - found) as nat, |i: int| found + 1 + i)
    }
}

/// Versions as integers.
pub open spec fn as_versions(v: Seq<i64>) -> Seq<int> {
    Seq::new(v.len(), |i: int| v[i] as int)
}

/// The migrations that a database at version `found` needs, each named by the version
/// that it reaches, in order. A database of a newer version is refused.
pub fn migrate(found: i64) -> (r: Result<Vec<i64>>)
    ensures
        match r {
            Ok(steps) => found <= SCHEMA_VERSION && as_versions(steps@) == steps_from(found as int),
            Err(e) => found > SCHEMA_VERSION && e == (Error::SchemaTooNew {
                found,
                supported: SCHEMA_VERSION,
            }),
        },
{
    if found > SCHEMA_VERSION {
        return Err(Error::SchemaTooNew { found, supported: SCHEMA_VERSION });
    }
    let mut steps: Vec<i64> = Vec::new();
    if found < 0 {
        assert(as_versions(steps@) =~= steps_from(found as int));
        return Ok(steps);
    }
    let ghost want = steps_from(found as int);
    let mut v: i64 = found;
    assert(as_versions(steps@) =~= want.take(0));
    while v < SCHEMA_VERSION
        invariant
            0 <= found <= v <= SCHEMA_VERSION,
            want == steps_from(found as int),
            steps@.len() == v - found,
            as_versions(steps@) == want.take(v - found),
        decreases SCHEMA_VERSION - v,
    {
        let ghost before = as_versions(steps@);
        v = v + 1;
        steps.push(v);
        assert(as_versions(steps@) =~= before.push(v as int));
        assert(want.take(v - found) =~= before.push(v as int));
    }
    assert(want.take(want.len() as int) =~= want);
    Ok(steps)
}

/// Migrating reaches the current version, and a database that is there needs nothing
/// more.
pub proof fn migration_reaches_the_current_version(found: int)
    requires
        0 <= found < SCHEMA_VERSION,
    ensures
        steps_from(found).len() > 0,
        steps_from(found).last() == SCHEMA_VERSION,
        steps_from(SCHEMA_VERSION as int).len() == 0,
{
}

} // verus!
