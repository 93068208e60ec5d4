//! Migration framework for handling project format version changes.
//!
//! Each migration upgrades the serialized project data from one format
//! version to a later one; a chain applies them in sequence.

use vstd::prelude::*;
use crate::text::{decimal_spec, push_decimal};

verus! {

/// A migration between two project format versions.
pub trait Migration {
    /// The version this migration reads.
    spec fn source(&self) -> u32;

    /// The version this migration writes.
    spec fn target(&self) -> u32;

    /// The source version this migration migrates from.
    fn source_version(&self) -> (r: u32)
        ensures
            r == self.source();

    /// The target version this migration migrates to.
    fn target_version(&self) -> (r: u32)
        ensures
            r == self.target();

    /// What the migration makes of the given data: the result `migrate`
    /// returns on it, a function of the data alone.
    spec fn migrated(&self, data: &[u8]) -> Result<Vec<u8>, String>;

    /// Perform the migration on the raw serialized data.
    fn migrate(&self, data: &[u8]) -> (r: Result<Vec<u8>, String>)
        ensures
            r == self.migrated(data);
}

/// A boxed migration of any kind is a migration.
impl Migration for Box<dyn Migration> {
    open spec fn source(&self) -> u32 {
        (**self).source()
    }

    open spec fn target(&self) -> u32 {
        (**self).target()
    }

    open spec fn migrated(&self, data: &[u8]) -> Result<Vec<u8>, String> {
        (**self).migrated(data)
    }

    fn source_version(&self) -> (r: u32) {
        (**self).source_version()
    }

    fn target_version(&self) -> (r: u32) {
        (**self).target_version()
    }

    fn migrate(&self, data: &[u8]) -> Result<Vec<u8>, String> {
        (**self).migrate(data)
    }
}

/// Chain of migrations that can be applied sequentially.
pub struct MigrationChain<M = Box<dyn Migration>> {
    migrations: Vec<M>,
}

/// Where following the chain from a version leads.
pub enum ChainWalk {
    /// The walk arrives at this version, at or beyond the target.
    Reaches(u32),
    /// No migration starts at this version.
    Missing(u32),
    /// The first migration from the first version leads to the second, which is not later.
    Backward(u32, u32),
}

/// Index of the first step at or after `i` that starts at version `v`.
pub open spec fn first_from(steps: Seq<(u32, u32)>, v: u32, i: int) -> Option<int>
    decreases steps.len() - i,
{
    if i < 0 || i >= steps.len() {
        None
    } else if steps[i].0 == v {
        Some(i)
    } else {
        first_from(steps, v, i + 1)
    }
}

/// Follow the steps from version `cur` until version `to` is reached or passed,
/// always taking the first step that starts at the current version.
pub open spec fn chain_walk(steps: Seq<(u32, u32)>, cur: u32, to: u32) -> ChainWalk
    decreases u32::MAX - cur,
{
    if cur >= to {
        ChainWalk::Reaches(cur)
    } else {
        match first_from(steps, cur, 0) {
            None => ChainWalk::Missing(cur),
            Some(i) => if steps[i].1 <= cur {
                ChainWalk::Backward(cur, steps[i].1)
            } else {
                chain_walk(steps, steps[i].1, to)
            },
        }
    }
}

/// Message for a refused downgrade.
pub open spec fn downgrade_message(from: u32, to: u32) -> Seq<char> {
    "Cannot downgrade from version "@ + decimal_spec(from as nat) + " to "@ + decimal_spec(to as nat)
}

impl<M: Migration> MigrationChain<M> {
    /// The (source, target) versions of the migrations, in the order they were added.
    pub closed spec fn steps(&self) -> Seq<(u32, u32)> {
        self.migrations@.map_values(|m: M| (m.source(), m.target()))
    }

    /// The migrations, in the order they were added.
    pub closed spec fn migration_list(&self) -> Seq<M> {
        self.migrations@
    }

    /// Create a new migration chain.
    pub fn new() -> (r: Self)
        ensures
            r.steps().len() == 0,
            r.migration_list().len() == 0,
    {
        MigrationChain { migrations: Vec::new() }
    }

    /// Add a migration to the chain.
    pub fn add_migration(&mut self, migration: M)
        ensures
            final(self).steps() == old(self).steps().push((migration.source(), migration.target())),
            final(self).migration_list() == old(self).migration_list().push(migration),
    {
        let ghost m = (migration.source(), migration.target());
        let ghost g = migration;
        self.migrations.push(migration);
        assert(self.migrations@ == old(self).migrations@.push(g));
        assert(self.steps().len() == self.migrations@.len());
        assert(old(self).steps().len() == old(self).migrations@.len());
        assert forall|i: int| 0 <= i < self.steps().len()
            implies #[trigger] self.steps()[i] == old(self).steps().push(m)[i] by {
            if i < old(self).steps().len() {
                assert(old(self).migrations@.push(g)[i] == old(self).migrations@[i]);
                assert(self.migrations@[i] == old(self).migrations@[i]);
                assert(old(self).steps()[i] == (old(self).migrations@[i].source(), old(self).migrations@[i].target()));
            } else {
                assert(old(self).migrations@.push(g)[i] == g);
                assert(self.migrations@[i] == g);
            }
        }
        assert(self.steps() =~= old(self).steps().push(m));
    }

    /// Position of the first migration from version `v`.
    fn find_from(&self, v: u32) -> (r: Option<usize>)
        ensures
            r matches Some(i) ==> first_from(self.steps(), v, 0) == Some(i as int)
                && i < self.migrations@.len(),
            r is None ==> first_from(self.steps(), v, 0) is None,
    {
        let mut i: usize = self.migrations.len();
        let ghost steps = self.steps();
        assert(first_from(steps, v, i as int) is None);
        let mut found: Option<usize> = None;
        while i > 0
            invariant
                i <= self.migrations@.len() == steps.len(),
                steps == self.steps(),
                found matches Some(f) ==> first_from(steps, v, i as int) == Some(f as int)
                    && f < self.migrations@.len(),
                found is None ==> first_from(steps, v, i as int) is None,
            decreases i,
        {
            i = i - 1;
            let s = self.migrations[i].source_version();
            if s == v {
                found = Some(i);
            }
        }
        found
    }

    /// Apply migrations to upgrade data from `from_version` to `to_version`
    /// (see `chain_result`): the same version gives the data back, a lower
    /// target is a refused downgrade.
    pub fn migrate(&self, data: &[u8], from_version: u32, to_version: u32) -> (r: Result<Vec<u8>, String>)
        ensures
            from_version == to_version ==> (r matches Ok(v) && v@ == data@),
            from_version > to_version ==> (r matches Err(e) && e@ == downgrade_message(from_version, to_version)),
            from_version < to_version ==> result_view(r) == chain_result(self.migration_list(), data@, from_version, to_version),
    {
        broadcast use vstd::slice::group_slice_axioms;
        if from_version == to_version {
            return Ok(vstd::slice::slice_to_vec(data));
        }
        if from_version > to_version {
            let mut msg = String::from_str("Cannot downgrade from version ");
            push_decimal(&mut msg, from_version as u64);
            msg.append(" to ");
            push_decimal(&mut msg, to_version as u64);
            return Err(msg);
        }
        let ghost ms = self.migrations@;
        let mut current_version = from_version;
        let mut current_data = vstd::slice::slice_to_vec(data);
        while current_version < to_version
            invariant
                ms == self.migrations@,
                from_version < to_version,
                current_version <= to_version,
                chain_result(ms, current_data@, current_version, to_version) == chain_result(ms, data@, from_version, to_version),
            decreases u32::MAX - current_version,
        {
            let idx = match self.find_from(current_version) {
                Some(i) => i,
                None => {
                    let mut msg = String::from_str("No migration found from version ");
                    push_decimal(&mut msg, current_version as u64);
                    return Err(msg);
                },
            };
            let next_version = self.migrations[idx].target_version();
            if next_version <= current_version {
                let mut msg = String::from_str("Migration from v");
                push_decimal(&mut msg, current_version as u64);
                msg.append(" goes to v");
                push_decimal(&mut msg, next_version as u64);
                msg.append(", which is not forward progress");
                return Err(msg);
            }
            if next_version > to_version {
                let mut msg = String::from_str("Migration from v");
                push_decimal(&mut msg, current_version as u64);
                msg.append(" goes to v");
                push_decimal(&mut msg, next_version as u64);
                msg.append(", past the target version v");
                push_decimal(&mut msg, to_version as u64);
                return Err(msg);
            }
            let sl = current_data.as_slice();
            let out = self.migrations[idx].migrate(sl);
            proof {
                let chosen = choose|c: &[u8]| c@ == current_data@;
                assert(sl@ == current_data@);
                assert(chosen =~= sl);
                assert(step_result(ms[idx as int], current_data@) == result_view(out));
            }
            current_data = match out {
                Ok(d) => d,
                Err(e) => return Err(e),
            };
            current_version = next_version;
        }
        Ok(current_data)
    }
}

/// A result with its data and message taken as sequences.
pub open spec fn result_view(r: Result<Vec<u8>, String>) -> Result<Seq<u8>, Seq<char>> {
    match r {
        Ok(v) => Ok(v@),
        Err(e) => Err(e@),
    }
}

/// What migration `m` makes of data `d` (see `Migration::migrated`).
pub open spec fn step_result<M: Migration>(m: M, d: Seq<u8>) -> Result<Seq<u8>, Seq<char>> {
    result_view(m.migrated(choose|c: &[u8]| c@ == d))
}

/// Message for a version no migration starts at.
pub open spec fn missing_message(v: u32) -> Seq<char> {
    "No migration found from version "@ + decimal_spec(v as nat)
}

/// Message for a migration that does not lead to a later version.
pub open spec fn backward_message(v: u32, t: u32) -> Seq<char> {
    "Migration from v"@ + decimal_spec(v as nat) + " goes to v"@ + decimal_spec(t as nat) + ", which is not forward progress"@
}

/// Message for a migration that leads past the target version.
pub open spec fn overshoot_message(v: u32, t: u32, to: u32) -> Seq<char> {
    "Migration from v"@ + decimal_spec(v as nat) + " goes to v"@ + decimal_spec(t as nat) + ", past the target version v"@
        + decimal_spec(to as nat)
}

/// Migrating data `d` from version `cur` up to version `to` with the chain's
/// migrations `ms`: at `to` the data is done; otherwise the first migration
/// from `cur` (in the order they were added) is applied and its result is
/// migrated on from its target version. No migration from `cur`, one that
/// does not lead to a later version or one that leads past `to` is an error
/// with its message; a migration's own error is passed on unchanged.
pub open spec fn chain_result<M: Migration>(ms: Seq<M>, d: Seq<u8>, cur: u32, to: u32) -> Result<Seq<u8>, Seq<char>>
    decreases u32::MAX - cur,
{
    if cur >= to {
        Ok(d)
    } else {
        match first_from(ms.map_values(|m: M| (m.source(), m.target())), cur, 0) {
            None => Err(missing_message(cur)),
            Some(i) => {
                let t = ms[i].target();
                if t <= cur {
                    Err(backward_message(cur, t))
                } else if t > to {
                    Err(overshoot_message(cur, t, to))
                } else {
                    match step_result(ms[i], d) {
                        Err(e) => Err(e),
                        Ok(d2) => chain_result(ms, d2, t, to),
                    }
                }
            },
        }
    }
}

/// A step found from position `i` lies at or after it, within the steps, and
/// starts at the version looked for.
proof fn lemma_first_from_bound(steps: Seq<(u32, u32)>, v: u32, i: int)
    requires
        0 <= i,
    ensures
        first_from(steps, v, i) matches Some(k) ==> i <= k < steps.len() && steps[k].0 == v,
    decreases steps.len() - i,
{
    if i < steps.len() && steps[i].0 != v {
        lemma_first_from_bound(steps, v, i + 1);
    }
}

/// A migration chain that succeeds follows the chain's walk all the way to
/// the target version.
pub proof fn law_successful_migration_follows_walk<M: Migration>(ms: Seq<M>, d: Seq<u8>, from: u32, to: u32)
    requires
        from <= to,
        chain_result(ms, d, from, to) is Ok,
    ensures
        chain_walk(ms.map_values(|m: M| (m.source(), m.target())), from, to) == ChainWalk::Reaches(to),
    decreases u32::MAX - from,
{
    if from < to {
        let steps = ms.map_values(|m: M| (m.source(), m.target()));
        let i = first_from(steps, from, 0)->0;
        lemma_first_from_bound(steps, from, 0);
        assert(steps[i] == (ms[i].source(), ms[i].target()));
        let d2 = step_result(ms[i], d)->Ok_0;
        law_successful_migration_follows_walk(ms, d2, ms[i].target(), to);
    }
}

/// A chain in which the first migration from every version between `from`
/// and `to` leads to the next version walks from `from` all the way to `to`.
pub proof fn law_consecutive_chain_reaches(steps: Seq<(u32, u32)>, from: u32, to: u32)
    requires
        from <= to,
        forall|v: u32| from <= v < to ==> match #[trigger] first_from(steps, v, 0) {
            Some(i) => steps[i].1 == v + 1,
            None => false,
        },
    ensures
        chain_walk(steps, from, to) == ChainWalk::Reaches(to),
    decreases to - from,
{
    if from < to {
        let i = first_from(steps, from, 0)->0;
        assert(steps[i].1 == from + 1);
        law_consecutive_chain_reaches(steps, (from + 1) as u32, to);
    }
}


/// Looking for a version among steps with one more step added at the end
/// finds what it found before, or else the new step when it starts there.
proof fn lemma_first_from_push(steps: Seq<(u32, u32)>, x: (u32, u32), v: u32, i: int)
    requires
        0 <= i <= steps.len(),
    ensures
        first_from(steps.push(x), v, i) == (match first_from(steps, v, i) {
            Some(k) => Some(k),
            None => if x.0 == v { Some(steps.len() as int) } else { None },
        }),
    decreases steps.len() - i,
{
    let p = steps.push(x);
    if i < steps.len() {
        assert(p[i] == steps[i]);
        if steps[i].0 != v {
            lemma_first_from_push(steps, x, v, i + 1);
        }
    } else {
        assert(p[i] == x);
        assert(first_from(p, v, i + 1) is None);
    }
}

/// After a migration from `s` to a later `t` is added to a chain that had
/// none from `s`, migrating from `s` to `t` gives what that migration makes
/// of the data; and a migration added later never replaces the first one
/// added from a version.
pub proof fn law_added_migration_is_used<M: Migration>(ms: Seq<M>, m: M, d: Seq<u8>)
    requires
        m.source() < m.target(),
    ensures
        first_from(ms.map_values(|x: M| (x.source(), x.target())), m.source(), 0) is None
            ==> chain_result(ms.push(m), d, m.source(), m.target()) == step_result(m, d),
        first_from(ms.map_values(|x: M| (x.source(), x.target())), m.source(), 0) is Some
            ==> first_from(ms.push(m).map_values(|x: M| (x.source(), x.target())), m.source(), 0)
                == first_from(ms.map_values(|x: M| (x.source(), x.target())), m.source(), 0),
{
    let f = |x: M| (x.source(), x.target());
    let steps = ms.map_values(f);
    assert(ms.push(m).map_values(f) =~= steps.push(f(m)));
    lemma_first_from_push(steps, f(m), m.source(), 0);
    let ms2 = ms.push(m);
    if first_from(steps, m.source(), 0) is None {
        assert(ms2[ms.len() as int] == m);
        match step_result(m, d) {
            Ok(d2) => {
                assert(chain_result(ms2, d2, m.target(), m.target()) == Ok::<Seq<u8>, Seq<char>>(d2));
            },
            Err(e) => {},
        }
    }
}

} // verus!

