//! The schema versions of the project database and the steps that bring one up to date.
use vstd::prelude::*;

verus! {

/// The schema version this library writes.
pub const CURRENT_SCHEMA_VERSION: i64 = 4;

/// What opening a database at some schema version takes.
pub struct MigrationPlan {
    /// Whether the database is copied aside first: an older, non-empty schema.
    pub backup: bool,
    /// The migrations to apply, in order.
    pub steps: Vec<i64>,
}

/// The migrations to apply from schema `current`: every version above it, up to the current one.
pub open spec fn pending_steps(current: i64) -> Seq<i64> {
    Seq::new((CURRENT_SCHEMA_VERSION - (if current < 0 { 0 } else { current })) as nat, |i: int| (i + 1 + (if current < 0 { 0 } else { current })) as i64)
}

/// The plan for a database at schema `current`; a newer schema than this library knows is
/// refused.
pub fn migration_plan(current: i64) -> (r: Result<MigrationPlan, String>)
    ensures
        r is Err <==> current > CURRENT_SCHEMA_VERSION,
        r matches Err(m) ==> m@ == "This project uses schema version "@ + crate::classification::decimal(current as nat)
            + ", but this app supports up to 4."@,
        r matches Ok(p) ==> {
            &&& p.backup == (0 < current < CURRENT_SCHEMA_VERSION)
            &&& p.steps@ == pending_steps(current)
        },
{
    if current > CURRENT_SCHEMA_VERSION {
        let mut message = crate::text::owned("This project uses schema version ");
        let digits = crate::text::string_of(&crate::classification::decimal_text_u64(current as u64));
        crate::text::push_all(&mut message, digits.as_str());
        crate::text::push_all(&mut message, ", but this app supports up to 4.");
        return Err(message);
    }
    let backup = current > 0 && current < CURRENT_SCHEMA_VERSION;
    let mut steps: Vec<i64> = Vec::new();
    let mut v: i64 = 1;
    let base: i64 = if current < 0 { 0 } else { current };
    while v <= CURRENT_SCHEMA_VERSION
        invariant
            1 <= v <= CURRENT_SCHEMA_VERSION + 1,
            0 <= base <= CURRENT_SCHEMA_VERSION,
            base == if current < 0 { 0 } else { current },
            steps@ == pending_steps(current).take(if v - 1 <= base { 0 } else { (v - 1 - base) as int }),
        decreases CURRENT_SCHEMA_VERSION + 1 - v,
    {
        if base < v {
            let ghost before = steps@;
            steps.push(v);
            assert(steps@ =~= pending_steps(current).take(v - base));
        } else {
            assert(pending_steps(current).take(0) =~= pending_steps(current).take(0));
        }
        v = v + 1;
    }
    assert(pending_steps(current).take((CURRENT_SCHEMA_VERSION - base) as int) =~= pending_steps(current));
    Ok(MigrationPlan { backup, steps })
}

} // verus!
