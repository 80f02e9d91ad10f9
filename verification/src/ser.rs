//! The registry snapshot exchanged over the control plane: three parallel
//! sequences — serialized unit bodies, the corresponding unit names, and the
//! enabled names — from which a receiver rebuilds a read-only registry
//! without sharing the daemon's lock. Turning a unit into its body text and
//! back is the caller's business; the pairing and the rebuild are checked
//! here.

use vstd::prelude::*;
use crate::names::Name;
use crate::units::{distinct_keys, insert_all, insert_entry, Unit, Units};

verus! {

/// A flattened registry: unit bodies and unit names paired by position, and
/// the enabled names as a separate, shorter sequence.
pub struct UnitsSerialized {
    pub units: Vec<String>,
    pub names: Vec<String>,
    pub enabled: Vec<String>,
}

/// The (name, unit) entries described by a name list and a unit list of the
/// same length, paired by position.
pub open spec fn paired_entries(names: Seq<String>, units: Seq<Unit>) -> Seq<(Seq<char>, Unit)> {
    Seq::new(units.len(), |i: int| (names[i]@, units[i]))
}

impl UnitsSerialized {
    /// Snapshots a registry: the caller supplies the serialized body of each
    /// unit in registry order, and the snapshot pairs them with the unit
    /// names by position — always one name per body — and carries the
    /// enabled names alongside.
    pub fn from_registry(reg: &Units, bodies: Vec<String>) -> (r: UnitsSerialized)
        requires
            reg.wf(),
            bodies@.len() == reg@.units.len(),
        ensures
            r.units@ == bodies@,
            r.names@.len() == r.units@.len(),
            forall|i: int|
                0 <= i < r.names@.len() ==> (#[trigger] r.names@[i])@ == reg@.units[i].0,
            r.enabled@.len() == reg@.enabled.len(),
            forall|i: int|
                0 <= i < r.enabled@.len() ==> (#[trigger] r.enabled@[i])@ == reg@.enabled[i],
    {
        let name_list = reg.names();
        let ghost nv = name_list@;
        let names = strings_of(name_list);
        let enabled_list = reg.enabled_names();
        let ghost ev = enabled_list@;
        let enabled = strings_of(enabled_list);
        proof {
            assert(nv.map_values(|n: Name| n@).len() == nv.len());
            assert(ev.map_values(|n: Name| n@).len() == ev.len());
            assert forall|i: int| 0 <= i < names@.len() implies (#[trigger] names@[i])@ == reg@
                .units[i].0 by {
                assert(nv.map_values(|n: Name| n@)[i] == nv[i]@);
                assert(reg.unit_names()[i] == reg@.units[i].0);
            }
            assert forall|i: int| 0 <= i < enabled@.len() implies (#[trigger] enabled@[i])@ == reg@
                .enabled[i] by {
                assert(ev.map_values(|n: Name| n@)[i] == ev[i]@);
            }
        }
        UnitsSerialized { units: bodies, names, enabled }
    }

    /// Rebuilds a registry from the snapshot's parsed unit bodies, pairing
    /// each with its name by position; a repeated name keeps the unit paired
    /// with its last occurrence, exactly as loading would. The enabled names
    /// in the snapshot are not carried into the rebuilt registry, which
    /// starts with nothing enabled — a documented limitation of snapshot
    /// reconstruction.
    pub fn to_units(&self, parsed: Vec<Unit>) -> (r: Units)
        requires
            parsed@.len() == self.units@.len(),
            self.names@.len() == self.units@.len(),
        ensures
            r.wf(),
            r@.enabled.len() == 0,
            r@.units == insert_all(
                Seq::empty(),
                paired_entries(self.names@, parsed@),
            ),
    {
        let ghost all = paired_entries(self.names@, parsed@);
        let mut rest = parsed;
        let mut r = Units::new();
        let n = self.names.len();
        let mut i: usize = 0;
        proof {
            assert(r@.units =~= insert_all(Seq::empty(), all.take(0)));
            assert(rest@ =~= parsed@.skip(0));
        }
        while i < n
            invariant
                i <= n,
                n == self.names@.len(),
                n == parsed@.len(),
                rest@ == parsed@.skip(i as int),
                r.wf(),
                r@.enabled.len() == 0,
                r@.units == insert_all(Seq::<(Seq<char>, Unit)>::empty(), all.take(i as int)),
                all == paired_entries(self.names@, parsed@),
            decreases n - i,
        {
            let u = rest.remove(0);
            proof {
                assert(u == parsed@[i as int]);
                assert(rest@ =~= parsed@.skip(i + 1 as int));
            }
            let name = Name::new(self.names[i].as_str());
            r.insert_unit(name, u);
            proof {
                assert(all.take(i + 1 as int) =~= all.take(i as int).push(all[i as int]));
                lemma_insert_all_snoc(
                    Seq::<(Seq<char>, Unit)>::empty(),
                    all.take(i as int),
                    all[i as int],
                );
                assert(all[i as int] == (self.names@[i as int]@, parsed@[i as int]));
            }
            i += 1;
        }
        proof {
            assert(all.take(n as int) =~= all);
        }
        r
    }
}

/// The plain texts of a list of names, in the same order.
fn strings_of(names: Vec<Name>) -> (r: Vec<String>)
    ensures
        r@.len() == names@.len(),
        forall|i: int| 0 <= i < names@.len() ==> (#[trigger] r@[i])@ == names@[i]@,
{
    let n = names.len();
    let mut r: Vec<String> = Vec::new();
    let mut i: usize = 0;
    while i < n
        invariant
            i <= n,
            n == names@.len(),
            r@.len() == i,
            forall|j: int| 0 <= j < i ==> (#[trigger] r@[j])@ == names@[j]@,
        decreases n - i,
    {
        r.push(names[i].to_string());
        i += 1;
    }
    r
}

/// Rebuilding from a snapshot loses nothing: when no name repeats among the
/// pairs — as holds for any snapshot of a well-formed registry — storing
/// them one after another into an empty registry reproduces exactly that
/// sequence of entries, in order.
pub proof fn lemma_rebuild_exact(pairs: Seq<(Seq<char>, Unit)>)
    requires
        distinct_keys(pairs),
    ensures
        insert_all(Seq::empty(), pairs) == pairs,
{
    lemma_insert_all_disjoint(Seq::empty(), pairs);
    assert(Seq::<(Seq<char>, Unit)>::empty() + pairs =~= pairs);
}

/// Storing pairs whose names are fresh — none repeats, none is already
/// present — only appends them, in order.
proof fn lemma_insert_all_disjoint(s: Seq<(Seq<char>, Unit)>, ins: Seq<(Seq<char>, Unit)>)
    requires
        distinct_keys(ins),
        forall|i: int, j: int|
            0 <= i < s.len() && 0 <= j < ins.len() ==> s[i].0 != ins[j].0,
    ensures
        insert_all(s, ins) == s + ins,
    decreases ins.len(),
{
    if ins.len() == 0 {
        assert(s + ins =~= s);
    } else {
        assert(!crate::units::seq_has_key(s, ins[0].0)) by {
            assert forall|i: int| 0 <= i < s.len() implies s[i].0 != ins[0].0 by {}
        }
        let s1 = s.push(ins[0]);
        assert(insert_entry(s, ins[0].0, ins[0].1) == s1);
        assert forall|i: int, j: int|
            0 <= i < s1.len() && 0 <= j < ins.drop_first().len() implies s1[i].0 != ins.drop_first(
        )[j].0 by {
            assert(ins.drop_first()[j] == ins[j + 1]);
            if i < s.len() {
                assert(s1[i] == s[i]);
            } else {
                assert(s1[i] == ins[0]);
            }
        }
        assert(distinct_keys(ins.drop_first())) by {
            assert forall|i: int, j: int|
                0 <= i < j < ins.drop_first().len() implies ins.drop_first()[i].0
                != ins.drop_first()[j].0 by {
                assert(ins.drop_first()[i] == ins[i + 1]);
                assert(ins.drop_first()[j] == ins[j + 1]);
            }
        }
        lemma_insert_all_disjoint(s1, ins.drop_first());
        assert(s1 + ins.drop_first() =~= s + ins);
    }
}

/// Storing the pairs one after another is storing them all at once: the
/// last pair lands on whatever the earlier ones built.
proof fn lemma_insert_all_snoc(
    s: Seq<(Seq<char>, Unit)>,
    ins: Seq<(Seq<char>, Unit)>,
    p: (Seq<char>, Unit),
)
    ensures
        insert_all(s, ins.push(p)) == insert_entry(insert_all(s, ins), p.0, p.1),
    decreases ins.len(),
{
    let w = ins.push(p);
    assert(w.len() > 0);
    assert(insert_all(s, w) == insert_all(insert_entry(s, w[0].0, w[0].1), w.drop_first()));
    if ins.len() == 0 {
        assert(w[0] == p);
        assert(w.drop_first() =~= Seq::<(Seq<char>, Unit)>::empty());
        assert(insert_all(insert_entry(s, p.0, p.1), w.drop_first()) == insert_entry(s, p.0, p.1));
        assert(insert_all(s, ins) == s);
    } else {
        assert(w[0] == ins[0]);
        assert(w.drop_first() =~= ins.drop_first().push(p));
        lemma_insert_all_snoc(insert_entry(s, ins[0].0, ins[0].1), ins.drop_first(), p);
        assert(insert_all(s, ins) == insert_all(insert_entry(s, ins[0].0, ins[0].1), ins.drop_first()));
    }
}

} // verus!
