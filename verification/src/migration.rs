//! The migration engine: versioned pairs of forward/backward schema-change
//! scripts, generated with strictly increasing version stamps, applied in
//! ascending order and reverted in descending order. The applied record is
//! always a prefix of the full ordered unit list: units are never applied
//! out of order and only rolled back from the tail.
//!
//! The engine decides what to do — which unit comes next, in which order,
//! and how the record moves — while the surrounding program performs the
//! durable work (writing script files, executing scripts on a backend) and
//! reports each outcome back through `mark_applied` / `mark_rolled_back`.

use vstd::prelude::*;

verus! {

use vstd::string::StringExecFns;
use crate::error::MigrationError;
use crate::text::{padded_dec, u64_to_padded_string};

/// One migration unit: a version stamp, a human name, and the pair of
/// scripts that apply and revert it.
#[derive(Debug)]
pub struct MigrationUnit {
    pub version: u64,
    pub name: String,
    pub up: String,
    pub down: String,
}

/// The mathematical model of a migration unit.
pub struct MigrationUnitModel {
    pub version: u64,
    pub name: Seq<char>,
    pub up: Seq<char>,
    pub down: Seq<char>,
}

impl MigrationUnit {
    pub open spec fn model(self) -> MigrationUnitModel {
        MigrationUnitModel {
            version: self.version,
            name: self.name@,
            up: self.up@,
            down: self.down@,
        }
    }
}

/// The models of a sequence of units.
pub open spec fn unit_models(s: Seq<MigrationUnit>) -> Seq<MigrationUnitModel> {
    s.map_values(|u: MigrationUnit| u.model())
}

/// The versions of a sequence of units, in order.
pub open spec fn versions_of(units: Seq<MigrationUnitModel>) -> Seq<u64> {
    units.map_values(|u: MigrationUnitModel| u.version)
}

/// The engine's view of a migration directory: every unit in version
/// order, and how many of them — a prefix — have been applied.
#[derive(Debug)]
pub struct MigrationState {
    pub units: Vec<MigrationUnit>,
    pub applied: usize,
}

/// The mathematical model of the engine state.
pub struct MigrationStateModel {
    pub units: Seq<MigrationUnitModel>,
    pub applied: int,
}

impl MigrationStateModel {
    /// Well-formedness: versions strictly increase and the applied record
    /// is a prefix of the unit list.
    pub open spec fn wf(self) -> bool {
        &&& 0 <= self.applied <= self.units.len()
        &&& forall|i: int, j: int|
            0 <= i < j < self.units.len() ==> self.units[i].version < self.units[j].version
    }

    /// The versions recorded as applied, in the order they were applied.
    pub open spec fn applied_versions(self) -> Seq<u64> {
        versions_of(self.units).subrange(0, self.applied)
    }

    /// The units not yet applied, in ascending version order.
    pub open spec fn pending(self) -> Seq<MigrationUnitModel> {
        self.units.subrange(self.applied, self.units.len() as int)
    }
}

impl MigrationState {
    pub open spec fn model(self) -> MigrationStateModel {
        MigrationStateModel { units: unit_models(self.units@), applied: self.applied as int }
    }
}

/// How many of the first `n` units have a version at or below `to`.
pub open spec fn count_le(units: Seq<MigrationUnitModel>, n: int, to: u64) -> int
    decreases n,
{
    if n <= 0 {
        0
    } else {
        count_le(units, n - 1, to) + if units[n - 1].version <= to {
            1int
        } else {
            0
        }
    }
}

/// The engine state after every pending unit has been applied in order.
pub open spec fn run_all(s: MigrationStateModel) -> MigrationStateModel {
    MigrationStateModel { units: s.units, applied: s.units.len() as int }
}

/// The engine state after rolling back every applied unit with version
/// above `to`.
pub open spec fn rollback_to(s: MigrationStateModel, to: u64) -> MigrationStateModel {
    MigrationStateModel { units: s.units, applied: count_le(s.units, s.applied, to) }
}

/// The units a rollback to `to` reverts: the applied units with version
/// above `to`, in descending version order.
pub open spec fn rollback_seq(s: MigrationStateModel, to: u64) -> Seq<MigrationUnitModel> {
    s.units.subrange(count_le(s.units, s.applied, to), s.applied).reverse()
}

/// An empty migration directory: no units, nothing applied.
pub fn new_state() -> (s: MigrationState)
    ensures
        s.model().units =~= Seq::<MigrationUnitModel>::empty(),
        s.model().applied == 0,
        s.model().wf(),
{
    MigrationState { units: Vec::new(), applied: 0 }
}

/// The deterministic directory name of a unit: the version stamp,
/// zero-padded to fourteen digits, an underscore, then the name.
pub fn dir_name(version: u64, name: &String) -> (r: String)
    ensures
        r@ == padded_dec(version as nat, 14) + "_"@ + name@,
{
    let mut s = u64_to_padded_string(version, 14);
    s.append("_");
    s.append(name.as_str());
    proof {
        assert(s@ =~= padded_dec(version as nat, 14) + "_"@ + name@);
    }
    s
}

impl MigrationState {
    /// The version stamp a generate would allocate: the given stamp if it
    /// already beats every existing version, else one past the latest.
    /// Fails only when the latest version can no longer be exceeded.
    pub fn next_version(&self, stamp: u64) -> (r: Result<u64, MigrationError>)
        requires
            self.model().wf(),
        ensures
            r matches Ok(v) ==> {
                &&& forall|i: int|
                    0 <= i < self.model().units.len() ==> (#[trigger] self.model().units[
                        i
                    ]).version < v
                &&& v >= stamp
                &&& (v == stamp || (self.model().units.len() > 0 && v == self.model().units[
                    self.model().units.len() - 1
                ].version + 1))
            },
            (r is Err) == (self.model().units.len() > 0 && self.model().units[self.model(
            ).units.len() - 1].version == u64::MAX && stamp <= u64::MAX),
            r is Err ==> r matches Err(MigrationError::VersionExhausted),
    {
        if self.units.len() == 0 {
            return Ok(stamp);
        }
        let last = self.units[self.units.len() - 1].version;
        proof {
            assert(self.model().units[self.model().units.len() - 1] == unit_models(self.units@)[
                self.units@.len() - 1
            ]);
        }
        if stamp > last {
            Ok(stamp)
        } else if last == u64::MAX {
            Err(MigrationError::VersionExhausted)
        } else {
            Ok(last + 1)
        }
    }

    /// Computes, without writing anything, the version and directory name
    /// a generate would use: the dry-run form of [`MigrationState::generate`].
    pub fn plan_generate(&self, name: &String, stamp: u64) -> (r: Result<
        (u64, String),
        MigrationError,
    >)
        requires
            self.model().wf(),
        ensures
            (r is Err) == (self.model().units.len() > 0 && self.model().units[self.model(
            ).units.len() - 1].version == u64::MAX),
            r is Err ==> r matches Err(MigrationError::VersionExhausted),
            r matches Ok(p) ==> {
                &&& forall|i: int|
                    0 <= i < self.model().units.len() ==> (#[trigger] self.model().units[
                        i
                    ]).version < p.0
                &&& p.0 >= stamp
                &&& p.1@ == padded_dec(p.0 as nat, 14) + "_"@ + name@
            },
    {
        match self.next_version(stamp) {
            Err(e) => Err(e),
            Ok(v) => Ok((v, dir_name(v, name))),
        }
    }

    /// Allocates a version stamp strictly greater than every existing
    /// unit's, and appends a new pending unit of that version with empty
    /// script stubs. The applied record is untouched, so every previously
    /// applied unit stays applied and the new unit is pending.
    pub fn generate(&mut self, name: String, stamp: u64) -> (r: Result<u64, MigrationError>)
        requires
            old(self).model().wf(),
        ensures
            final(self).model().wf(),
            (r is Err) == (old(self).model().units.len() > 0 && old(self).model().units[old(
                self,
            ).model().units.len() - 1].version == u64::MAX),
            r is Err ==> (r matches Err(MigrationError::VersionExhausted) && final(self).model()
                == old(self).model()),
            r matches Ok(v) ==> {
                &&& forall|i: int|
                    0 <= i < old(self).model().units.len() ==> (#[trigger] old(self).model().units[
                        i
                    ]).version < v
                &&& v >= stamp
                &&& final(self).model().units == old(self).model().units.push(
                    MigrationUnitModel {
                        version: v,
                        name: name@,
                        up: Seq::empty(),
                        down: Seq::empty(),
                    },
                )
                &&& final(self).model().applied == old(self).model().applied
            },
    {
        let v = match self.next_version(stamp) {
            Err(e) => {
                return Err(e);
            },
            Ok(v) => v,
        };
        let unit = MigrationUnit { version: v, name, up: String::new(), down: String::new() };
        let ghost units0 = self.model().units;
        let ghost um = unit.model();
        self.units.push(unit);
        proof {
            assert(um.up =~= Seq::<char>::empty());
            assert(um.down =~= Seq::<char>::empty());
            assert forall|x: int| 0 <= x < self.model().units.len() implies self.model().units[x]
                == units0.push(um)[x] by {
                if x < units0.len() {
                    assert(self.model().units[x] == unit_models(self.units@)[x]);
                    assert(units0[x] == unit_models(old(self).units@)[x]);
                } else {
                    assert(self.model().units[x] == unit_models(self.units@)[x]);
                }
            }
            assert(self.model().units =~= units0.push(um));
        }
        Ok(v)
    }

    /// The units a run will apply: every pending unit, in ascending
    /// version order.
    pub fn run_plan(&self) -> (r: Vec<MigrationUnit>)
        requires
            self.model().wf(),
        ensures
            unit_models(r@) == self.model().pending(),
            forall|i: int, j: int|
                0 <= i < j < r@.len() ==> unit_models(r@)[i].version < unit_models(r@)[j].version,
    {
        let mut out: Vec<MigrationUnit> = Vec::new();
        let mut i: usize = self.applied;
        proof {
            assert(unit_models(out@) =~= self.model().units.subrange(
                self.applied as int,
                self.applied as int,
            ));
        }
        while i < self.units.len()
            invariant
                self.applied <= i <= self.units@.len(),
                unit_models(out@) == self.model().units.subrange(self.applied as int, i as int),
            decreases self.units@.len() - i,
        {
            let ghost before = unit_models(out@);
            out.push(unit_copy(&self.units[i]));
            proof {
                assert forall|x: int| 0 <= x < out@.len() implies unit_models(out@)[x]
                    == self.model().units.subrange(self.applied as int, i as int + 1)[x] by {
                    if x < before.len() {
                        assert(unit_models(out@)[x] == before[x]);
                    } else {
                        assert(unit_models(out@)[x] == out@[x].model());
                        assert(self.model().units[i as int] == unit_models(self.units@)[i as int]);
                    }
                }
                assert(unit_models(out@) =~= self.model().units.subrange(
                    self.applied as int,
                    i as int + 1,
                ));
            }
            i += 1;
        }
        out
    }

    /// Records that the next pending unit was applied. The version must be
    /// exactly that unit's — units cannot be applied out of order — so the
    /// applied record grows by one and stays a prefix.
    pub fn mark_applied(&mut self, version: u64) -> (r: Result<(), MigrationError>)
        requires
            old(self).model().wf(),
        ensures
            final(self).model().wf(),
            (r is Ok) == (old(self).model().applied < old(self).model().units.len() && old(
                self,
            ).model().units[old(self).model().applied].version == version),
            r is Ok ==> final(self).model() == (MigrationStateModel {
                units: old(self).model().units,
                applied: old(self).model().applied + 1,
            }),
            r is Err ==> (r matches Err(MigrationError::NotPending(v)) && v == version
                && final(self).model() == old(self).model()),
    {
        if self.applied < self.units.len() {
            let ok = self.units[self.applied].version == version;
            proof {
                assert(self.model().units[self.applied as int] == unit_models(self.units@)[
                    self.applied as int
                ]);
            }
            if ok {
                self.applied += 1;
                return Ok(());
            }
        }
        Err(MigrationError::NotPending(version))
    }

    /// The units a rollback to `to` will revert: every applied unit with
    /// version above `to`, in descending version order.
    #[verifier::loop_isolation(false)]
    pub fn rollback_plan(&self, to: u64) -> (r: Vec<MigrationUnit>)
        requires
            self.model().wf(),
        ensures
            unit_models(r@) == rollback_seq(self.model(), to),
            forall|i: int, j: int|
                0 <= i < j < r@.len() ==> unit_models(r@)[i].version > unit_models(r@)[j].version,
    {
        let ghost s = self.model();
        let mut out: Vec<MigrationUnit> = Vec::new();
        let mut i: usize = self.applied;
        while i > 0 && self.units[i - 1].version > to
            invariant
                0 <= i <= self.applied,
                unit_models(out@) == s.units.subrange(i as int, s.applied).reverse(),
                forall|x: int| i <= x < s.applied ==> (#[trigger] s.units[x]).version > to,
            decreases i,
        {
            proof {
                assert(s.units[i - 1] == unit_models(self.units@)[i - 1]);
            }
            let ghost before = unit_models(out@);
            out.push(unit_copy(&self.units[i - 1]));
            proof {
                let goal = s.units.subrange(i - 1, s.applied).reverse();
                assert(goal.len() == s.applied - i + 1);
                assert forall|x: int| 0 <= x < out@.len() implies unit_models(out@)[x]
                    == goal[x] by {
                    assert(goal[x] == s.units.subrange(i - 1, s.applied)[s.applied - i - x]);
                    if x < before.len() {
                        assert(unit_models(out@)[x] == before[x]);
                        assert(before[x] == s.units.subrange(i as int, s.applied).reverse()[x]);
                        assert(before[x] == s.units.subrange(i as int, s.applied)[s.applied - i - 1
                            - x]);
                    } else {
                        assert(unit_models(out@)[x] == out@[x].model());
                    }
                }
                assert(unit_models(out@) =~= goal);
            }
            i -= 1;
        }
        proof {
            let k = count_le(s.units, s.applied, to);
            assert forall|x: int| 0 <= x < i implies (#[trigger] s.units[x]).version <= to by {
                if i > 0 && x < i {
                    if s.units[x].version > to {
                        if x < i - 1 {
                            assert(s.units[x].version < s.units[i - 1].version);
                        }
                        assert(s.units[i - 1].version > to);
                        assert(i as int <= s.applied ==> true);
                        if (i as int) < s.applied {
                            assert(s.units[i as int].version > to);
                        }
                    }
                }
            }
            lemma_count_le_split(s.units, s.applied, to, i as int);
            assert(k == i as int);
        }
        out
    }

    /// Records that the most recently applied unit was rolled back. The
    /// version must be exactly that unit's — only the tail of the applied
    /// record can be removed — so the record shrinks by one and stays a
    /// prefix.
    pub fn mark_rolled_back(&mut self, version: u64) -> (r: Result<(), MigrationError>)
        requires
            old(self).model().wf(),
        ensures
            final(self).model().wf(),
            (r is Ok) == (old(self).model().applied > 0 && old(self).model().units[old(
                self,
            ).model().applied - 1].version == version),
            r is Ok ==> final(self).model() == (MigrationStateModel {
                units: old(self).model().units,
                applied: old(self).model().applied - 1,
            }),
            r is Err ==> (r matches Err(MigrationError::NotLastApplied(v)) && v == version
                && final(self).model() == old(self).model()),
    {
        if self.applied > 0 {
            let ok = self.units[self.applied - 1].version == version;
            proof {
                assert(self.model().units[self.applied - 1] == unit_models(self.units@)[
                    self.applied - 1
                ]);
            }
            if ok {
                self.applied -= 1;
                return Ok(());
            }
        }
        Err(MigrationError::NotLastApplied(version))
    }
}

/// A copy of a unit with the same model.
fn unit_copy(u: &MigrationUnit) -> (r: MigrationUnit)
    ensures
        r.model() == u.model(),
{
    MigrationUnit {
        version: u.version,
        name: u.name.clone(),
        up: u.up.clone(),
        down: u.down.clone(),
    }
}

/// Counting at a boundary: when the first `b` of `n` units lie at or below
/// `to` and the rest above, the count is exactly `b`.
proof fn lemma_count_le_split(units: Seq<MigrationUnitModel>, n: int, to: u64, b: int)
    requires
        0 <= b <= n <= units.len(),
        forall|x: int| 0 <= x < b ==> (#[trigger] units[x]).version <= to,
        forall|x: int| b <= x < n ==> (#[trigger] units[x]).version > to,
    ensures
        count_le(units, n, to) == b,
    decreases n,
{
    if n > 0 {
        if b == n {
            lemma_count_le_split(units, n - 1, to, b - 1);
        } else {
            lemma_count_le_split(units, n - 1, to, b);
        }
    }
}

/// Migration ordering: pending units stand in strictly ascending version
/// order — a run applies them exactly as generated — and the applied
/// record is always a prefix of the full ordered unit list.
pub proof fn lemma_migration_ordering(s: MigrationStateModel)
    requires
        s.wf(),
    ensures
        forall|i: int, j: int|
            0 <= i < j < s.pending().len() ==> s.pending()[i].version < s.pending()[j].version,
        s.applied_versions() == versions_of(s.units).subrange(0, s.applied),
        s.applied_versions().len() <= versions_of(s.units).len(),
        forall|i: int|
            0 <= i < s.applied_versions().len() ==> s.applied_versions()[i] == versions_of(
                s.units,
            )[i],
{
    assert forall|i: int|
        0 <= i < s.applied_versions().len() implies s.applied_versions()[i] == versions_of(
        s.units,
    )[i] by {
        assert(s.applied_versions()[i] == versions_of(s.units).subrange(0, s.applied)[i]);
    }
}

/// Rollback inverts run: starting from a record where every applied unit
/// sits at or below `to` and every pending unit above it, running all
/// pending units and then rolling back to `to` reverts exactly the units
/// the run applied, in exactly the reverse order, and leaves the applied
/// record as it was. Whenever each unit's down script inverts its up
/// script, the schema is therefore back where it started.
pub proof fn lemma_rollback_inverts_run(s: MigrationStateModel, to: u64)
    requires
        s.wf(),
        forall|x: int| 0 <= x < s.applied ==> (#[trigger] s.units[x]).version <= to,
        forall|x: int| s.applied <= x < s.units.len() ==> (#[trigger] s.units[x]).version > to,
    ensures
        rollback_seq(run_all(s), to) == s.pending().reverse(),
        rollback_to(run_all(s), to) == s,
{
    let r = run_all(s);
    lemma_count_le_split(s.units, s.units.len() as int, to, s.applied);
    assert(count_le(r.units, r.applied, to) == s.applied);
    assert(rollback_seq(r, to) == s.units.subrange(s.applied, s.units.len() as int).reverse());
    assert(rollback_to(r, to) == MigrationStateModel { units: s.units, applied: s.applied });
    assert(rollback_to(r, to) == s);
}

} // verus!
