//! The unit registry: the process-wide store of all loaded units and of the
//! enabled subset of their names.

use vstd::prelude::*;
use crate::mount::Mount;
use crate::names::Name;
use crate::services::{Service, Socket};

verus! {

/// A named bundle of zero-or-more service, socket and mount descriptors.
pub struct Unit {
    pub service: Option<Vec<Service>>,
    pub socket: Option<Vec<Socket>>,
    pub mount: Option<Vec<Mount>>,
}

/// Mathematical model of the registry: the loaded units as a sequence of
/// (name, unit) entries in registry order, and the enabled names in the
/// order they were first added.
pub ghost struct UnitsView {
    pub units: Seq<(Seq<char>, Unit)>,
    pub enabled: Seq<Seq<char>>,
}

/// The store of all loaded units and the enabled subset.
///
/// At most one unit is held per name, and the enabled set holds each name at
/// most once; an enabled name with no loaded unit is inert, never an error.
pub struct Units {
    items: Vec<(Name, Unit)>,
    enabled: Vec<Name>,
}

impl View for Units {
    type V = UnitsView;

    closed spec fn view(&self) -> UnitsView {
        UnitsView {
            units: self.items@.map_values(|p: (Name, Unit)| (p.0@, p.1)),
            enabled: self.enabled@.map_values(|n: Name| n@),
        }
    }
}

/// No name occurs twice.
pub open spec fn distinct_seq(s: Seq<Seq<char>>) -> bool {
    forall|i: int, j: int| 0 <= i < j < s.len() ==> s[i] != s[j]
}

/// Some entry carries this name.
pub open spec fn seq_has_key(s: Seq<(Seq<char>, Unit)>, n: Seq<char>) -> bool {
    exists|i: int| 0 <= i < s.len() && s[i].0 == n
}

/// The unit stored under a name: the first entry that carries it, if any.
pub open spec fn lookup_entry(s: Seq<(Seq<char>, Unit)>, n: Seq<char>) -> Option<Unit>
    decreases s.len(),
{
    if s.len() == 0 {
        None
    } else if s[0].0 == n {
        Some(s[0].1)
    } else {
        lookup_entry(s.drop_first(), n)
    }
}

/// The entry sequence after storing a unit under a name: an entry already
/// carrying the name is replaced in place, otherwise the pair is appended.
pub open spec fn insert_entry(s: Seq<(Seq<char>, Unit)>, n: Seq<char>, u: Unit) -> Seq<
    (Seq<char>, Unit),
> {
    if seq_has_key(s, n) {
        Seq::new(s.len(), |i: int| if s[i].0 == n { (n, u) } else { s[i] })
    } else {
        s.push((n, u))
    }
}

impl Units {
    /// The names of the loaded units, in registry order.
    pub open spec fn unit_names(self) -> Seq<Seq<char>> {
        self@.units.map_values(|p: (Seq<char>, Unit)| p.0)
    }

    /// The registry's invariant: unit names are unique, and the enabled list
    /// holds each name once.
    pub open spec fn wf(self) -> bool {
        &&& distinct_seq(self.unit_names())
        &&& distinct_seq(self@.enabled)
    }

    /// The enabled names, as a set.
    pub open spec fn enabled_set(self) -> Set<Seq<char>> {
        self@.enabled.to_set()
    }

    /// An empty registry: no units, nothing enabled.
    pub fn new() -> (r: Units)
        ensures
            r.wf(),
            r@.units == Seq::<(Seq<char>, Unit)>::empty(),
            r@.enabled == Seq::<Seq<char>>::empty(),
    {
        let r = Units { items: Vec::new(), enabled: Vec::new() };
        proof {
            assert(r@.units =~= Seq::<(Seq<char>, Unit)>::empty());
            assert(r@.enabled =~= Seq::<Seq<char>>::empty());
        }
        r
    }

    /// Stores a unit under a name, replacing wholesale any unit already
    /// loaded under it; any prior runtime state of the replaced unit's
    /// services is discarded with it.
    #[verifier::loop_isolation(false)]
    pub fn insert_unit(&mut self, name: Name, unit: Unit)
        requires
            old(self).wf(),
        ensures
            final(self).wf(),
            final(self)@.enabled == old(self)@.enabled,
            final(self)@.units == insert_entry(old(self)@.units, name@, unit),
    {
        let ghost pre = old(self)@.units;
        let n = self.items.len();
        let mut i: usize = 0;
        while i < n
            invariant
                i <= n,
                self == old(self),
                forall|j: int| 0 <= j < i ==> #[trigger] pre[j].0 != name@,
            decreases n - i,
        {
            let hit = self.items[i].0.same(&name);
            if hit {
                proof {
                    assert(pre[i as int].0 == self.items@[i as int].0@);
                    assert(seq_has_key(pre, name@));
                    assert forall|k: int| 0 <= k < pre.len() && k != i implies #[trigger] pre[k].0
                        != name@ by {
                        assert(old(self).unit_names()[k] == pre[k].0);
                        assert(old(self).unit_names()[i as int] == pre[i as int].0);
                    }
                }
                let _ = self.items.remove(i);
                self.items.insert(i, (name, unit));
                proof {
                    assert(self.items@ =~= old(self).items@.update(i as int, (name, unit)));
                    assert(self@.units =~= insert_entry(pre, name@, unit));
                    assert(self.unit_names() =~= old(self).unit_names());
                }
                return ;
            }
            i += 1;
        }
        self.items.push((name, unit));
        proof {
            assert(!seq_has_key(pre, name@)) by {
                assert forall|k: int| 0 <= k < pre.len() implies #[trigger] pre[k].0 != name@ by {}
            }
            assert(self@.units =~= pre.push((name@, unit)));
            assert(self.unit_names() =~= old(self).unit_names().push(name@));
        }
    }

    /// How many units are loaded.
    pub fn unit_count(&self) -> (r: usize)
        ensures
            r == self@.units.len(),
    {
        self.items.len()
    }

    /// The unit at one registry position.
    pub fn unit_at(&self, i: usize) -> (r: &Unit)
        requires
            i < self@.units.len(),
        ensures
            *r == self@.units[i as int].1,
    {
        &self.items[i].1
    }

    /// The name at one registry position.
    pub fn name_at(&self, i: usize) -> (r: &Name)
        requires
            i < self@.units.len(),
        ensures
            r@ == self@.units[i as int].0,
    {
        &self.items[i].0
    }

    /// Whether this name is enabled.
    pub fn is_enabled(&self, name: &str) -> (r: bool)
        ensures
            r == self.enabled_set().contains(name@),
    {
        let n = self.enabled.len();
        let mut i: usize = 0;
        while i < n
            invariant
                i <= n,
                n == self@.enabled.len(),
                forall|j: int| 0 <= j < i ==> self@.enabled[j] != name@,
            decreases n - i,
        {
            if self.enabled[i].same_str(name) {
                proof {
                    assert(self@.enabled[i as int] == name@);
                    assert(self@.enabled.contains(name@));
                }
                return true;
            }
            i += 1;
        }
        proof {
            assert(!self@.enabled.contains(name@));
        }
        false
    }

    /// Whether the unit at one registry position is enabled.
    pub fn enabled_at_index(&self, i: usize) -> (r: bool)
        requires
            i < self@.units.len(),
        ensures
            r == self.enabled_set().contains(self@.units[i as int].0),
    {
        let name = &self.items[i].0;
        let n = self.enabled.len();
        let mut k: usize = 0;
        while k < n
            invariant
                k <= n,
                n == self@.enabled.len(),
                i < self@.units.len(),
                name@ == self@.units[i as int].0,
                forall|j: int| 0 <= j < k ==> self@.enabled[j] != name@,
            decreases n - k,
        {
            if self.enabled[k].same(name) {
                proof {
                    assert(self@.enabled[k as int] == name@);
                    assert(self@.enabled.contains(name@));
                }
                return true;
            }
            k += 1;
        }
        proof {
            assert(!self@.enabled.contains(name@));
        }
        false
    }

    /// Looks a unit up by name.
    pub fn unit(&self, name: &str) -> (r: Option<&Unit>)
        ensures
            match r {
                Some(u) => lookup_entry(self@.units, name@) == Some(*u),
                None => lookup_entry(self@.units, name@) is None,
            },
    {
        let n = self.items.len();
        let mut i: usize = 0;
        while i < n
            invariant
                i <= n,
                n == self@.units.len(),
                forall|j: int| 0 <= j < i ==> self@.units[j].0 != name@,
            decreases n - i,
        {
            let hit = self.items[i].0.same_str(name);
            if hit {
                proof {
                    lemma_lookup_entry_skip(self@.units, name@, i as int);
                }
                return Some(&self.items[i].1);
            }
            i += 1;
        }
        proof {
            lemma_lookup_entry_skip(self@.units, name@, n as int);
        }
        None
    }

    /// The names of all loaded units, in registry order.
    pub fn names(&self) -> (r: Vec<Name>)
        ensures
            r@.map_values(|n: Name| n@) == self.unit_names(),
    {
        let n = self.items.len();
        let mut r: Vec<Name> = Vec::new();
        let mut i: usize = 0;
        while i < n
            invariant
                i <= n,
                n == self@.units.len(),
                r@.len() == i,
                forall|j: int| 0 <= j < i ==> (#[trigger] r@[j])@ == self@.units[j].0,
            decreases n - i,
        {
            r.push(self.items[i].0.clone());
            i += 1;
        }
        proof {
            assert(r@.map_values(|m: Name| m@) =~= self.unit_names());
        }
        r
    }

    /// The enabled names, in the order they were first added.
    pub fn enabled_names(&self) -> (r: Vec<Name>)
        ensures
            r@.map_values(|n: Name| n@) == self@.enabled,
    {
        let n = self.enabled.len();
        let mut r: Vec<Name> = Vec::new();
        let mut i: usize = 0;
        while i < n
            invariant
                i <= n,
                n == self@.enabled.len(),
                r@.len() == i,
                forall|j: int| 0 <= j < i ==> (#[trigger] r@[j])@ == self@.enabled[j],
            decreases n - i,
        {
            r.push(self.enabled[i].clone());
            i += 1;
        }
        proof {
            assert(r@.map_values(|m: Name| m@) =~= self@.enabled);
        }
        r
    }
}

impl Units {
    /// Adds a name to the enabled list unless it is already there.
    fn enable_name(&mut self, n: Name)
        requires
            old(self).wf(),
        ensures
            final(self).wf(),
            final(self)@.units == old(self)@.units,
            old(self)@.enabled.is_prefix_of(final(self)@.enabled),
            final(self).enabled_set() == old(self).enabled_set().insert(n@),
    {
        let present = self.is_enabled(n.as_str());
        if !present {
            self.enabled.push(n);
            proof {
                assert(self@.enabled =~= old(self)@.enabled.push(n@));
                assert(old(self)@.enabled.is_prefix_of(self@.enabled)) by {
                    assert(self@.enabled.subrange(0, old(self)@.enabled.len() as int) =~= old(
                        self,
                    )@.enabled);
                }
                assert(self.enabled_set() =~= old(self).enabled_set().insert(n@)) by {
                    assert forall|t: Seq<char>| self@.enabled.contains(t) implies old(
                        self,
                    )@.enabled.contains(t) || t == n@ by {
                        let k = choose|k: int|
                            0 <= k < self@.enabled.len() && self@.enabled[k] == t;
                        if k < old(self)@.enabled.len() {
                            assert(old(self)@.enabled[k] == t);
                        }
                    }
                    assert(self@.enabled.contains(n@)) by {
                        assert(self@.enabled.last() == n@);
                    }
                    assert forall|t: Seq<char>| old(self)@.enabled.contains(t) implies self@
                        .enabled.contains(t) by {
                        let k = choose|k: int|
                            0 <= k < old(self)@.enabled.len() && old(self)@.enabled[k] == t;
                        assert(self@.enabled[k] == t);
                    }
                }
                assert(distinct_seq(self@.enabled)) by {
                    assert forall|i: int, j: int|
                        0 <= i < j < self@.enabled.len() implies self@.enabled[i] != self@
                        .enabled[j] by {
                        if j == self@.enabled.len() - 1 {
                            assert(!old(self).enabled_set().contains(n@));
                            assert(old(self)@.enabled[i] != n@) by {
                                if old(self)@.enabled[i] == n@ {
                                    assert(old(self)@.enabled.contains(n@));
                                }
                            }
                        }
                    }
                }
            }
        } else {
            proof {
                assert(final(self).enabled_set() =~= old(self).enabled_set().insert(n@));
                assert(old(self)@.enabled.is_prefix_of(final(self)@.enabled)) by {
                    assert(final(self)@.enabled.subrange(0, old(self)@.enabled.len() as int) =~= old(
                        self,
                    )@.enabled);
                }
            }
        }
    }

    /// Trims one line of the text and, when something is left of it, enables
    /// it as a name.
    fn add_line_token(&mut self, content: &str, start: usize, end: usize)
        requires
            old(self).wf(),
            start <= end <= content@.len(),
        ensures
            final(self).wf(),
            final(self)@.units == old(self)@.units,
            old(self)@.enabled.is_prefix_of(final(self)@.enabled),
            final(self).enabled_set() == old(self).enabled_set().union(
                line_token(content@.subrange(start as int, end as int)),
            ),
    {
        let ghost seg = content@.subrange(start as int, end as int);
        let mut lo = start;
        let mut hi = end;
        while lo < hi && is_space_char(content.get_char(lo))
            invariant
                start <= lo <= hi,
                hi == end,
                end <= content@.len(),
                seg == content@.subrange(start as int, end as int),
                trim_front(seg) == trim_front(
                    content@.subrange(lo as int, end as int),
                ),
            decreases hi - lo,
        {
            proof {
                let cur = content@.subrange(lo as int, end as int);
                assert(cur.len() > 0 && is_space(cur[0]));
                assert(cur.drop_first() =~= content@.subrange(lo + 1 as int, end as int));
            }
            lo += 1;
        }
        proof {
            assert(trim_front(seg) == content@.subrange(lo as int, end as int));
        }
        while hi > lo && is_space_char(content.get_char(hi - 1))
            invariant
                lo <= hi <= end,
                end <= content@.len(),
                seg == content@.subrange(start as int, end as int),
                trim_front(seg) == content@.subrange(lo as int, end as int),
                trim_back(trim_front(seg)) == trim_back(
                    content@.subrange(lo as int, hi as int),
                ),
            decreases hi - lo,
        {
            proof {
                let cur = content@.subrange(lo as int, hi as int);
                assert(cur.len() > 0 && is_space(cur.last()));
                assert(cur.drop_last() =~= content@.subrange(lo as int, hi - 1 as int));
            }
            hi -= 1;
        }
        proof {
            assert(spec_trim(seg) == content@.subrange(lo as int, hi as int));
        }
        if lo < hi {
            let tok = content.substring_char(lo, hi);
            proof {
                assert(tok@ == spec_trim(seg));
                assert(line_token(seg) =~= Set::empty().insert(spec_trim(seg)));
            }
            self.enable_name(Name::new(tok));
            proof {
                assert(final(self).enabled_set() =~= old(self).enabled_set().union(
                    line_token(seg),
                ));
            }
        } else {
            proof {
                assert(spec_trim(seg).len() == 0);
                assert(line_token(seg) =~= Set::<Seq<char>>::empty());
                assert(final(self).enabled_set() =~= old(self).enabled_set().union(
                    line_token(seg),
                ));
                assert(old(self)@.enabled.is_prefix_of(final(self)@.enabled)) by {
                    assert(final(self)@.enabled.subrange(0, old(self)@.enabled.len() as int) =~= old(
                        self,
                    )@.enabled);
                }
            }
        }
    }

    /// Additively merges the newline-separated, trimmed, non-empty names in
    /// the text into the enabled set: every name found becomes enabled, each
    /// held once, and no name already enabled is ever removed — the merge is
    /// idempotent.
    #[verifier::loop_isolation(false)]
    pub fn parse_enabled(&mut self, content: &str)
        requires
            old(self).wf(),
        ensures
            final(self).wf(),
            final(self)@.units == old(self)@.units,
            old(self)@.enabled.is_prefix_of(final(self)@.enabled),
            final(self).enabled_set() == old(self).enabled_set().union(token_set(content@)),
    {
        let len = content.unicode_len();
        let mut start: usize = 0;
        let mut i: usize = 0;
        proof {
            assert(self.enabled_set() =~= old(self).enabled_set().union(
                token_set_upto(content@, 0),
            ));
        }
        while i < len
            invariant
                start <= i <= len,
                start == 0 || content@[start - 1] == '\n',
                forall|j: int| start <= j < i ==> content@[j] != '\n',
                self.wf(),
                self@.units == old(self)@.units,
                old(self)@.enabled.is_prefix_of(self@.enabled),
                self.enabled_set() == old(self).enabled_set().union(
                    token_set_upto(content@, start as int),
                ),
            decreases len - i,
        {
            if content.get_char(i) == '\n' {
                proof {
                    lemma_token_step(content@, start as int, i as int, i + 1 as int);
                }
                self.add_line_token(content, start, i);
                proof {
                    assert(self.enabled_set() =~= old(self).enabled_set().union(
                        token_set_upto(content@, i + 1 as int),
                    ));
                    assert(old(self)@.enabled.is_prefix_of(self@.enabled)) by {
                        assert(self@.enabled.subrange(0, old(self)@.enabled.len() as int)
                            =~= old(self)@.enabled);
                    }
                }
                start = i + 1;
            }
            i += 1;
        }
        proof {
            lemma_token_step(content@, start as int, len as int, len + 1 as int);
        }
        self.add_line_token(content, start, len);
        proof {
            assert(token_set(content@) =~= token_set_upto(content@, content@.len() + 1 as int));
            assert(final(self).enabled_set() =~= old(self).enabled_set().union(
                token_set(content@),
            ));
            assert(old(self)@.enabled.is_prefix_of(final(self)@.enabled)) by {
                assert(final(self)@.enabled.subrange(0, old(self)@.enabled.len() as int) =~= old(
                    self,
                )@.enabled);
            }
        }
    }
}

impl Default for Units {
    /// An empty registry.
    fn default() -> (r: Units)
        ensures
            r.wf(),
            r@.units.len() == 0,
            r@.enabled.len() == 0,
    {
        Units::new()
    }
}

/// The enabled names joined into one newline-separated text, the shape the
/// enabled-set file holds.
pub open spec fn joined_lines(s: Seq<Seq<char>>) -> Seq<char>
    decreases s.len(),
{
    if s.len() == 0 {
        Seq::empty()
    } else if s.len() == 1 {
        s[0]
    } else {
        joined_lines(s.drop_last()) + "\n"@ + s.last()
    }
}

impl Units {
    /// The enabled names as the text of the enabled-set file: one name per
    /// line.
    #[verifier::loop_isolation(false)]
    pub fn enabled_text(&self) -> (r: String)
        ensures
            r@ == joined_lines(self@.enabled),
    {
        let mut r = String::new();
        let n = self.enabled.len();
        let mut i: usize = 0;
        while i < n
            invariant
                i <= n,
                r@ == joined_lines(self@.enabled.take(i as int)),
            decreases n - i,
        {
            if i > 0 {
                r.append("\n");
            }
            r.append(self.enabled[i].as_str());
            proof {
                let t = self@.enabled.take(i + 1 as int);
                assert(t.drop_last() =~= self@.enabled.take(i as int));
                assert(t.last() == self@.enabled[i as int]);
                if i == 0 {
                    assert(r@ =~= t[0]);
                }
            }
            i += 1;
        }
        proof {
            assert(self@.enabled.take(n as int) =~= self@.enabled);
        }
        r
    }
}

/// The flattened (unit name, service) pairs of the first `upto` units, in
/// registry order across units and list order within one unit, regardless
/// of enabled status.
pub open spec fn flattened_services(a: UnitsView, upto: int) -> Seq<(Seq<char>, Service)>
    decreases upto,
{
    if upto <= 0 {
        Seq::empty()
    } else {
        flattened_services(a, upto - 1) + unit_services(a.units[upto - 1].1).map_values(
            |s: Service| (a.units[upto - 1].0, s),
        )
    }
}

/// The copied listing matches the flattened pairs entry by entry: same
/// names, and services that agree field by field.
pub open spec fn pairs_like(r: Seq<(Name, Service)>, f: Seq<(Seq<char>, Service)>) -> bool {
    &&& r.len() == f.len()
    &&& forall|k: int|
        0 <= k < r.len() ==> (#[trigger] r[k]).0@ == f[k].0 && crate::services::service_like(
            r[k].1,
            f[k].1,
        )
}

/// The positions of the enabled units among the first `upto`, in registry
/// order.
pub open spec fn enabled_index_list(a: UnitsView, upto: int) -> Seq<int>
    decreases upto,
{
    if upto <= 0 {
        Seq::empty()
    } else {
        let rest = enabled_index_list(a, upto - 1);
        if a.enabled.contains(a.units[upto - 1].0) {
            rest.push(upto - 1)
        } else {
            rest
        }
    }
}

impl Units {
    /// A flattened copy of every service in every unit, enabled or not, as
    /// (unit name, service) pairs: terminated processes must be matched even
    /// if the owning unit was later disabled.
    #[verifier::loop_isolation(false)]
    pub fn services(&self) -> (r: Vec<(Name, Service)>)
        ensures
            pairs_like(r@, flattened_services(self@, self@.units.len() as int)),
    {
        let n = self.items.len();
        let mut r: Vec<(Name, Service)> = Vec::new();
        let mut i: usize = 0;
        while i < n
            invariant
                i <= n,
                pairs_like(r@, flattened_services(self@, i as int)),
            decreases n - i,
        {
            let m = self.service_count(i);
            let mut j: usize = 0;
            while j < m
                invariant
                    j <= m,
                    i < n,
                    m == unit_services(self@.units[i as int].1).len(),
                    pairs_like(
                        r@,
                        flattened_services(self@, i as int) + unit_services(
                            self@.units[i as int].1,
                        ).take(j as int).map_values(
                            |s: Service| (self@.units[i as int].0, s),
                        ),
                    ),
                decreases m - j,
            {
                let name = self.items[i].0.clone();
                let svc = self.service_at(i, j).clone();
                let ghost rpre = r@;
                r.push((name, svc));
                proof {
                    let svcs = unit_services(self@.units[i as int].1);
                    let tag = |s: Service| (self@.units[i as int].0, s);
                    assert(svcs.take(j + 1 as int) =~= svcs.take(j as int).push(svcs[j as int]));
                    assert(svcs.take(j + 1 as int).map_values(tag) =~= svcs.take(
                        j as int,
                    ).map_values(tag).push(tag(svcs[j as int])));
                    let f = flattened_services(self@, i as int) + svcs.take(j + 1 as int).map_values(
                        tag,
                    );
                    assert(r@ == rpre.push((name, svc)));
                    assert forall|k: int| 0 <= k < r@.len() implies (#[trigger] r@[k]).0@ == f[k].0
                        && crate::services::service_like(r@[k].1, f[k].1) by {
                        if k < rpre.len() {
                            let fpre = flattened_services(self@, i as int) + svcs.take(
                                j as int,
                            ).map_values(tag);
                            assert(rpre[k].0@ == fpre[k].0 && crate::services::service_like(
                                rpre[k].1,
                                fpre[k].1,
                            ));
                            assert(f[k] == fpre[k]);
                        } else {
                            assert(f[k] == tag(svcs[j as int]));
                        }
                    }
                    assert(pairs_like(r@, f));
                }
                j += 1;
            }
            proof {
                let svcs = unit_services(self@.units[i as int].1);
                assert(svcs.take(m as int) =~= svcs);
            }
            i += 1;
        }
        r
    }

    /// The registry positions of the enabled units, in registry order: the
    /// units whose mounts and services activation applies to.
    #[verifier::loop_isolation(false)]
    pub fn enabled_indices(&self) -> (r: Vec<usize>)
        ensures
            r@.map_values(|k: usize| k as int) == enabled_index_list(
                self@,
                self@.units.len() as int,
            ),
    {
        let n = self.items.len();
        let mut r: Vec<usize> = Vec::new();
        proof {
            assert(r@.map_values(|k: usize| k as int) =~= enabled_index_list(self@, 0));
        }
        let mut i: usize = 0;
        while i < n
            invariant
                i <= n,
                r@.map_values(|k: usize| k as int) == enabled_index_list(self@, i as int),
            decreases n - i,
        {
            if self.enabled_at_index(i) {
                r.push(i);
                proof {
                    assert(r@.map_values(|k: usize| k as int) =~= enabled_index_list(
                        self@,
                        i as int,
                    ).push(i as int));
                }
            }
            i += 1;
        }
        r
    }
}

/// A kind of component a unit can hold, able to report whether it contains
/// a member of a given name; name lookup resolves against this capability.
pub trait UnitComponent: Sized {
    /// The members of this kind that a unit holds.
    spec fn members(unit: Unit) -> Seq<Self>;

    /// The name a member answers to.
    spec fn member_name(&self) -> Seq<char>;

    /// The first member of this kind in the unit that carries the name.
    fn find_in_unit<'a>(unit: &'a Unit, name: &str) -> (r: Option<&'a Self>)
        ensures
            (match r {
                Some(c) => exists|k: int|
                    0 <= k < Self::members(*unit).len() && *c == Self::members(*unit)[k]
                        && c.member_name() == name@,
                None => forall|k: int|
                    0 <= k < Self::members(*unit).len() ==> (#[trigger] Self::members(
                        *unit,
                    )[k]).member_name() != name@,
            }),
    ;
}

impl UnitComponent for Unit {
    /// A unit holds no unit members; lookup by unit name goes through the
    /// registry instead, so this capability is an inert placeholder.
    open spec fn members(unit: Unit) -> Seq<Unit> {
        Seq::empty()
    }

    open spec fn member_name(&self) -> Seq<char> {
        Seq::empty()
    }

    fn find_in_unit<'a>(unit: &'a Unit, name: &str) -> (r: Option<&'a Unit>) {
        None
    }
}

/// Position of the first qualifier separator in a name, or the name's
/// length when there is none.
pub open spec fn first_sep(s: Seq<char>) -> int
    decreases s.len(),
{
    if s.len() == 0 {
        0
    } else if s[0] == '@' {
        0
    } else {
        1 + first_sep(s.drop_first())
    }
}

/// The first separator lies in the name, everything before it is no
/// separator, and it is one if it lies strictly inside.
proof fn lemma_first_sep(s: Seq<char>)
    ensures
        0 <= first_sep(s) <= s.len(),
        forall|j: int| 0 <= j < first_sep(s) ==> s[j] != '@',
        first_sep(s) < s.len() ==> s[first_sep(s)] == '@',
    decreases s.len(),
{
    if s.len() > 0 && s[0] != '@' {
        lemma_first_sep(s.drop_first());
        assert forall|j: int| 0 <= j < first_sep(s) implies s[j] != '@' by {
            if j > 0 {
                assert(s.drop_first()[j - 1] == s[j]);
            }
        }
        if first_sep(s) < s.len() {
            assert(s.drop_first()[first_sep(s) - 1] == s[first_sep(s)]);
        }
    }
}

impl Units {
    /// Resolves a name of the shape `"unit@member"` against exactly that
    /// unit, or a bare `"member"` against the first unit, in registry order,
    /// that holds a member of the name — generically over any component
    /// kind that can report its members.
    #[verifier::loop_isolation(false)]
    pub fn lookup<'a, T: UnitComponent>(&'a self, name: &str) -> (r: Option<&'a T>)
        requires
            self.wf(),
        ensures
            first_sep(name@) < name@.len() ==> (match lookup_entry(
                self@.units,
                name@.take(first_sep(name@)),
            ) {
                Some(u) => (match r {
                    Some(c) => exists|k: int|
                        0 <= k < T::members(u).len() && *c == T::members(u)[k] && c.member_name()
                            == name@.skip(first_sep(name@) + 1),
                    None => forall|k: int|
                        0 <= k < T::members(u).len() ==> (#[trigger] T::members(u)[k]).member_name()
                            != name@.skip(first_sep(name@) + 1),
                }),
                None => r is None,
            }),
            first_sep(name@) == name@.len() ==> (match r {
                Some(c) => exists|i: int, k: int|
                    0 <= i < self@.units.len() && 0 <= k < T::members(self@.units[i].1).len() && *c
                        == T::members(self@.units[i].1)[k] && c.member_name() == name@,
                None => forall|i: int, k: int|
                    0 <= i < self@.units.len() && 0 <= k < T::members(self@.units[i].1).len() ==> (
                    #[trigger] T::members(self@.units[i].1)[k]).member_name() != name@,
            }),
    {
        proof {
            lemma_first_sep(name@);
        }
        let len = name.unicode_len();
        let mut sep: usize = len;
        let mut i: usize = 0;
        while i < len
            invariant
                i <= len,
                sep == len,
                forall|j: int| 0 <= j < i ==> name@[j] != '@',
            decreases len - i,
        {
            if name.get_char(i) == '@' {
                sep = i;
                break ;
            }
            i += 1;
        }
        proof {
            if sep < len {
                assert(first_sep(name@) == sep) by {
                    assert(name@[sep as int] == '@');
                    if first_sep(name@) < sep {
                        assert(name@[first_sep(name@)] != '@');
                    }
                    if first_sep(name@) > sep {
                        assert(name@[sep as int] != '@');
                    }
                }
            } else {
                assert(first_sep(name@) == name@.len()) by {
                    if first_sep(name@) < name@.len() {
                        assert(name@[first_sep(name@)] != '@');
                    }
                }
            }
        }
        if sep < len {
            let unit_name = name.substring_char(0, sep);
            let member = name.substring_char(sep + 1, len);
            proof {
                assert(unit_name@ == name@.take(first_sep(name@)));
                assert(member@ == name@.skip(first_sep(name@) + 1));
            }
            match self.unit(unit_name) {
                Some(u) => T::find_in_unit(u, member),
                None => None,
            }
        } else {
            let n = self.items.len();
            let mut i: usize = 0;
            while i < n
                invariant
                    i <= n,
                    forall|i0: int, k: int|
                        0 <= i0 < i && 0 <= k < T::members(self@.units[i0].1).len() ==> (
                        #[trigger] T::members(self@.units[i0].1)[k]).member_name() != name@,
                decreases n - i,
            {
                let found = T::find_in_unit(&self.items[i].1, name);
                proof {
                    assert(self@.units[i as int].1 == self.items@[i as int].1);
                }
                if found.is_some() {
                    return found;
                }
                i += 1;
            }
            None
        }
    }
}

/// The whitespace stripped from both ends of an enabled-file entry.
pub open spec fn is_space(c: char) -> bool {
    c == ' ' || c == '\t' || c == '\r'
}

/// Executable twin of `is_space`.
#[verifier::when_used_as_spec(is_space)]
pub fn is_space_char(c: char) -> (r: bool)
    ensures
        r == is_space(c),
{
    c == ' ' || c == '\t' || c == '\r'
}

/// The sequence without its leading whitespace.
pub open spec fn trim_front(s: Seq<char>) -> Seq<char>
    decreases s.len(),
{
    if s.len() > 0 && is_space(s[0]) {
        trim_front(s.drop_first())
    } else {
        s
    }
}

/// The sequence without its trailing whitespace.
pub open spec fn trim_back(s: Seq<char>) -> Seq<char>
    decreases s.len(),
{
    if s.len() > 0 && is_space(s.last()) {
        trim_back(s.drop_last())
    } else {
        s
    }
}

/// The sequence without leading or trailing whitespace.
pub open spec fn spec_trim(s: Seq<char>) -> Seq<char> {
    trim_back(trim_front(s))
}

/// `a..b` delimits one full line of the text: it touches the text's ends or
/// newlines on both sides, and holds no newline itself.
pub open spec fn line_bounds(s: Seq<char>, a: int, b: int) -> bool {
    &&& 0 <= a <= b <= s.len()
    &&& a == 0 || s[a - 1] == '\n'
    &&& b == s.len() || s[b] == '\n'
    &&& forall|j: int| a <= j < b ==> s[j] != '\n'
}

/// What one line contributes to the enabled set: its trimmed text, or
/// nothing when only whitespace is left.
pub open spec fn line_token(seg: Seq<char>) -> Set<Seq<char>> {
    if spec_trim(seg).len() > 0 {
        Set::empty().insert(spec_trim(seg))
    } else {
        Set::empty()
    }
}

/// The names carried by the text: every line, trimmed, that is not empty.
pub open spec fn token_set(s: Seq<char>) -> Set<Seq<char>> {
    Set::new(
        |t: Seq<char>|
            t.len() > 0 && exists|a: int, b: int|
                #[trigger] line_bounds(s, a, b) && spec_trim(s.subrange(a, b)) == t,
    )
}

/// The names carried by the lines that end before the given position.
spec fn token_set_upto(s: Seq<char>, limit: int) -> Set<Seq<char>> {
    Set::new(
        |t: Seq<char>|
            t.len() > 0 && exists|a: int, b: int|
                #[trigger] line_bounds(s, a, b) && b < limit && spec_trim(s.subrange(a, b)) == t,
    )
}

/// Taking in one more full line extends the collected names by exactly that
/// line's token: a line ending at `end` is delimited on both sides, and no
/// other line ends between `start` and `end`.
proof fn lemma_token_step(s: Seq<char>, start: int, end: int, limit: int)
    requires
        0 <= start <= end <= s.len(),
        start == 0 || s[start - 1] == '\n',
        forall|j: int| start <= j < end ==> s[j] != '\n',
        end == s.len() || s[end] == '\n',
        limit == end + 1,
    ensures
        token_set_upto(s, limit) == token_set_upto(s, start).union(
            line_token(s.subrange(start, end)),
        ),
{
    let seg = s.subrange(start, end);
    assert(line_bounds(s, start, end));
    assert forall|t: Seq<char>| token_set_upto(s, limit).contains(t) implies token_set_upto(
        s,
        start,
    ).union(line_token(seg)).contains(t) by {
        let (a, b) = choose|a: int, b: int|
            #[trigger] line_bounds(s, a, b) && b < limit && spec_trim(s.subrange(a, b)) == t;
        if b < start {
        } else {
            assert(b == end);
            assert(a == start) by {
                if a < start {
                    assert(s[start - 1] == '\n');
                } else if a > start {
                    assert(s[a - 1] == '\n');
                }
            }
        }
    }
    assert forall|t: Seq<char>| token_set_upto(s, start).union(line_token(seg)).contains(t)
        implies token_set_upto(s, limit).contains(t) by {
        if token_set_upto(s, start).contains(t) {
            let (a, b) = choose|a: int, b: int|
                #[trigger] line_bounds(s, a, b) && b < start && spec_trim(s.subrange(a, b)) == t;
            assert(line_bounds(s, a, b) && b < limit && spec_trim(s.subrange(a, b)) == t);
        } else {
            assert(t == spec_trim(seg) && t.len() > 0);
            assert(line_bounds(s, start, end) && end < limit && spec_trim(s.subrange(start, end))
                == t);
        }
    }
    assert(token_set_upto(s, limit) =~= token_set_upto(s, start).union(line_token(seg)));
}

/// The services declared by a unit, an absent list reading as empty.
pub open spec fn unit_services(u: Unit) -> Seq<Service> {
    match u.service {
        Some(v) => v@,
        None => Seq::empty(),
    }
}

/// Exactly one service of one unit may differ between the two registry
/// states; every name, the enabled set, and everything else is the same.
pub open spec fn only_service_changed(a: UnitsView, b: UnitsView, i: int, j: int) -> bool {
    &&& b.enabled == a.enabled
    &&& b.units.len() == a.units.len()
    &&& 0 <= i < a.units.len()
    &&& 0 <= j < unit_services(a.units[i].1).len()
    &&& forall|k: int| 0 <= k < a.units.len() && k != i ==> #[trigger] b.units[k] == a.units[k]
    &&& b.units[i].0 == a.units[i].0
    &&& b.units[i].1.socket == a.units[i].1.socket
    &&& b.units[i].1.mount == a.units[i].1.mount
    &&& (a.units[i].1.service is Some <==> b.units[i].1.service is Some)
    &&& unit_services(b.units[i].1).len() == unit_services(a.units[i].1).len()
    &&& forall|l: int|
        0 <= l < unit_services(a.units[i].1).len() && l != j ==> #[trigger] unit_services(
            b.units[i].1,
        )[l] == unit_services(a.units[i].1)[l]
}

impl Units {
    /// How many services the unit at one registry position declares.
    pub fn service_count(&self, i: usize) -> (r: usize)
        requires
            i < self@.units.len(),
        ensures
            r == unit_services(self@.units[i as int].1).len(),
    {
        match &self.items[i].1.service {
            Some(v) => v.len(),
            None => 0,
        }
    }

    /// One service of one unit.
    pub fn service_at(&self, i: usize, j: usize) -> (r: &Service)
        requires
            i < self@.units.len(),
            j < unit_services(self@.units[i as int].1).len(),
        ensures
            *r == unit_services(self@.units[i as int].1)[j as int],
    {
        match &self.items[i].1.service {
            Some(v) => &v[j],
            None => {
                proof {
                    assert(false);
                }
                vstd::pervasive::unreached()
            },
        }
    }

    /// Runs a start attempt's outcome into one service of one unit; nothing
    /// else changes.
    pub fn start_service_at(&mut self, i: usize, j: usize, outcome: crate::services::SpawnOutcome)
        requires
            old(self).wf(),
            i < old(self)@.units.len(),
            j < unit_services(old(self)@.units[i as int].1).len(),
        ensures
            final(self).wf(),
            only_service_changed(old(self)@, final(self)@, i as int, j as int),
            crate::services::start_post(
                unit_services(old(self)@.units[i as int].1)[j as int],
                outcome,
                unit_services(final(self)@.units[i as int].1)[j as int],
            ),
    {
        match &mut self.items[i].1.service {
            Some(v) => {
                let sref = &mut v[j];
                crate::services::start_service(sref, outcome);
            },
            None => {
                proof {
                    assert(false);
                }
            },
        }
        proof {
            self.lemma_same_names(*old(self));
        }
    }

    /// Stops one service of one unit; nothing else changes.
    pub fn stop_service_at(&mut self, i: usize, j: usize, force: bool)
        requires
            old(self).wf(),
            i < old(self)@.units.len(),
            j < unit_services(old(self)@.units[i as int].1).len(),
        ensures
            final(self).wf(),
            only_service_changed(old(self)@, final(self)@, i as int, j as int),
            crate::services::stop_post(
                unit_services(old(self)@.units[i as int].1)[j as int],
                unit_services(final(self)@.units[i as int].1)[j as int],
            ),
    {
        match &mut self.items[i].1.service {
            Some(v) => {
                let sref = &mut v[j];
                crate::services::stop_service(sref, force);
            },
            None => {
                proof {
                    assert(false);
                }
            },
        }
        proof {
            self.lemma_same_names(*old(self));
        }
    }

    /// Records the reaped exit of one service of one unit: the exit code is
    /// kept, the tracked handle dropped; nothing else changes.
    pub fn reap_service_at(&mut self, i: usize, j: usize, code: i32)
        requires
            old(self).wf(),
            i < old(self)@.units.len(),
            j < unit_services(old(self)@.units[i as int].1).len(),
        ensures
            final(self).wf(),
            only_service_changed(old(self)@, final(self)@, i as int, j as int),
            crate::services::reaped_post(
                unit_services(old(self)@.units[i as int].1)[j as int],
                code,
                unit_services(final(self)@.units[i as int].1)[j as int],
            ),
    {
        match &mut self.items[i].1.service {
            Some(v) => {
                let sref = &mut v[j];
                sref.child = None;
                sref.last_state = crate::services::ServiceState::Exited(code);
            },
            None => {
                proof {
                    assert(false);
                }
            },
        }
        proof {
            self.lemma_same_names(*old(self));
        }
    }

    /// Two registry states whose entries carry equal names pointwise have
    /// the same name sequence, so well-formedness carries over.
    proof fn lemma_same_names(self, other: Units)
        requires
            other.wf(),
            self@.enabled == other@.enabled,
            self@.units.len() == other@.units.len(),
            forall|k: int|
                0 <= k < other@.units.len() ==> #[trigger] self@.units[k].0 == other@.units[k].0,
        ensures
            self.wf(),
    {
        assert(self.unit_names() =~= other.unit_names());
    }
}

/// No two entries carry the same name.
pub open spec fn distinct_keys(s: Seq<(Seq<char>, Unit)>) -> bool {
    forall|i: int, j: int| 0 <= i < j < s.len() ==> s[i].0 != s[j].0
}

/// The names carried by a sequence of entries.
pub open spec fn entry_keys(s: Seq<(Seq<char>, Unit)>) -> Set<Seq<char>> {
    Set::new(|n: Seq<char>| seq_has_key(s, n))
}

/// The entry sequence after storing every pair in turn, first to last.
pub open spec fn insert_all(
    s: Seq<(Seq<char>, Unit)>,
    ins: Seq<(Seq<char>, Unit)>,
) -> Seq<(Seq<char>, Unit)>
    decreases ins.len(),
{
    if ins.len() == 0 {
        s
    } else {
        insert_all(insert_entry(s, ins[0].0, ins[0].1), ins.drop_first())
    }
}

/// The unit most recently inserted under a name, if any: a later pair wins
/// over an earlier one.
pub open spec fn last_insert(ins: Seq<(Seq<char>, Unit)>, n: Seq<char>) -> Option<Unit>
    decreases ins.len(),
{
    if ins.len() == 0 {
        None
    } else {
        match last_insert(ins.drop_first(), n) {
            Some(u) => Some(u),
            None => if ins[0].0 == n {
                Some(ins[0].1)
            } else {
                None
            },
        }
    }
}

/// What one store does to the entries: the stored name now carries the new
/// unit, every other name is untouched, the length grows only for a fresh
/// name, and names stay unique.
proof fn lemma_insert_entry_props(s: Seq<(Seq<char>, Unit)>, n: Seq<char>, u: Unit)
    requires
        distinct_keys(s),
    ensures
        distinct_keys(insert_entry(s, n, u)),
        lookup_entry(insert_entry(s, n, u), n) == Some(u),
        forall|m: Seq<char>| m != n ==> #[trigger] lookup_entry(insert_entry(s, n, u), m)
            == lookup_entry(s, m),
        insert_entry(s, n, u).len() == s.len() + if seq_has_key(s, n) {
            0int
        } else {
            1int
        },
        entry_keys(insert_entry(s, n, u)) == entry_keys(s).insert(n),
{
    let r = insert_entry(s, n, u);
    if seq_has_key(s, n) {
        let i = choose|i: int| 0 <= i < s.len() && s[i].0 == n;
        assert forall|j: int| 0 <= j < s.len() && j != i implies #[trigger] s[j].0 != n by {}
        assert(forall|j: int| 0 <= j < r.len() ==> #[trigger] r[j].0 == s[j].0);
        assert(distinct_keys(r));
        lemma_lookup_entry_skip(r, n, i);
        assert(lookup_entry(r, n) == Some(u));
        assert forall|m: Seq<char>| m != n implies #[trigger] lookup_entry(r, m) == lookup_entry(
            s,
            m,
        ) by {
            if seq_has_key(s, m) {
                let k = choose|k: int| 0 <= k < s.len() && s[k].0 == m;
                assert forall|j: int| 0 <= j < k implies #[trigger] s[j].0 != m by {}
                lemma_lookup_entry_skip(s, m, k);
                lemma_lookup_entry_skip(r, m, k);
                assert(r[k] == s[k]);
            } else {
                assert forall|j: int| 0 <= j < s.len() implies #[trigger] s[j].0 != m by {}
                lemma_lookup_entry_skip(s, m, s.len() as int);
                lemma_lookup_entry_skip(r, m, r.len() as int);
            }
        }
        assert(entry_keys(r) =~= entry_keys(s).insert(n)) by {
            assert forall|m: Seq<char>| seq_has_key(r, m) implies seq_has_key(s, m) || m == n by {
                let k = choose|k: int| 0 <= k < r.len() && r[k].0 == m;
                assert(s[k].0 == m);
            }
            assert forall|m: Seq<char>| seq_has_key(s, m) implies seq_has_key(r, m) by {
                let k = choose|k: int| 0 <= k < s.len() && s[k].0 == m;
                assert(r[k].0 == m);
            }
            assert(seq_has_key(r, n)) by {
                assert(r[i].0 == n);
            }
        }
    } else {
        assert(r == s.push((n, u)));
        assert(forall|j: int| 0 <= j < s.len() ==> #[trigger] r[j] == s[j]);
        assert(r[s.len() as int] == (n, u));
        assert forall|j: int| 0 <= j < s.len() implies #[trigger] s[j].0 != n by {}
        assert(distinct_keys(r));
        lemma_lookup_entry_skip(r, n, s.len() as int);
        assert forall|m: Seq<char>| m != n implies #[trigger] lookup_entry(r, m) == lookup_entry(
            s,
            m,
        ) by {
            if seq_has_key(s, m) {
                let k = choose|k: int| 0 <= k < s.len() && s[k].0 == m;
                assert forall|j: int| 0 <= j < k implies #[trigger] s[j].0 != m by {}
                lemma_lookup_entry_skip(s, m, k);
                lemma_lookup_entry_skip(r, m, k);
            } else {
                assert forall|j: int| 0 <= j < s.len() implies #[trigger] s[j].0 != m by {}
                lemma_lookup_entry_skip(s, m, s.len() as int);
                lemma_lookup_entry_skip(r, m, r.len() as int);
            }
        }
        assert(entry_keys(r) =~= entry_keys(s).insert(n)) by {
            assert forall|m: Seq<char>| seq_has_key(r, m) implies seq_has_key(s, m) || m == n by {
                let k = choose|k: int| 0 <= k < r.len() && r[k].0 == m;
                if k < s.len() {
                    assert(s[k].0 == m);
                } else {
                    assert(m == n);
                }
            }
            assert forall|m: Seq<char>| seq_has_key(s, m) implies seq_has_key(r, m) by {
                let k = choose|k: int| 0 <= k < s.len() && s[k].0 == m;
                assert(r[k].0 == m);
            }
            assert(seq_has_key(r, n)) by {
                assert(r[s.len() as int].0 == n);
            }
        }
    }
}

/// After a whole sequence of stores, a name carries the unit most recently
/// stored under it, or what it carried before if none was; names stay
/// unique, and the final names are the initial ones joined with every
/// stored name.
proof fn lemma_insert_all_props(s: Seq<(Seq<char>, Unit)>, ins: Seq<(Seq<char>, Unit)>)
    requires
        distinct_keys(s),
    ensures
        distinct_keys(insert_all(s, ins)),
        forall|n: Seq<char>| #[trigger] lookup_entry(insert_all(s, ins), n) == match last_insert(
            ins,
            n,
        ) {
            Some(u) => Some(u),
            None => lookup_entry(s, n),
        },
        entry_keys(insert_all(s, ins)) == entry_keys(s).union(
            ins.map_values(|p: (Seq<char>, Unit)| p.0).to_set(),
        ),
    decreases ins.len(),
{
    let keys = ins.map_values(|p: (Seq<char>, Unit)| p.0);
    if ins.len() == 0 {
        assert(entry_keys(s) =~= entry_keys(s).union(keys.to_set()));
    } else {
        let s1 = insert_entry(s, ins[0].0, ins[0].1);
        lemma_insert_entry_props(s, ins[0].0, ins[0].1);
        lemma_insert_all_props(s1, ins.drop_first());
        assert forall|n: Seq<char>| #[trigger] lookup_entry(insert_all(s, ins), n) == match
            last_insert(ins, n) {
            Some(u) => Some(u),
            None => lookup_entry(s, n),
        } by {
            if last_insert(ins.drop_first(), n) is None && ins[0].0 != n {
                assert(lookup_entry(s1, n) == lookup_entry(s, n));
            }
        }
        assert(entry_keys(insert_all(s, ins)) =~= entry_keys(s).union(keys.to_set())) by {
            let rest_keys = ins.drop_first().map_values(|p: (Seq<char>, Unit)| p.0);
            assert(entry_keys(insert_all(s, ins)) == entry_keys(s1).union(rest_keys.to_set()));
            assert forall|m: Seq<char>| keys.to_set().contains(m) implies m == ins[0].0
                || rest_keys.to_set().contains(m) by {
                let k = choose|k: int| 0 <= k < keys.len() && keys[k] == m;
                if k > 0 {
                    assert(rest_keys[k - 1] == m);
                    assert(rest_keys.contains(m));
                }
            }
            assert forall|m: Seq<char>| rest_keys.to_set().contains(m) implies keys.to_set()
                .contains(m) by {
                let k = choose|k: int| 0 <= k < rest_keys.len() && rest_keys[k] == m;
                assert(keys[k + 1] == m);
            }
            assert(keys.to_set().contains(ins[0].0)) by {
                assert(keys[0] == ins[0].0);
            }
        }
    }
}

/// For any sequence of stores into an empty registry, each name carries
/// exactly the unit most recently stored under it, and the entry count is
/// the number of distinct names stored. This is what a run of `insert_unit`
/// calls leaves behind, since each call turns the entries into
/// `insert_entry` of what they were.
pub proof fn lemma_insert_last_write_wins(ins: Seq<(Seq<char>, Unit)>)
    ensures
        forall|n: Seq<char>| #[trigger] lookup_entry(
            insert_all(Seq::empty(), ins),
            n,
        ) == last_insert(ins, n),
        insert_all(Seq::empty(), ins).len() == ins.map_values(
            |p: (Seq<char>, Unit)| p.0,
        ).to_set().len(),
{
    let e = Seq::<(Seq<char>, Unit)>::empty();
    lemma_insert_all_props(e, ins);
    let r = insert_all(e, ins);
    let rkeys = r.map_values(|p: (Seq<char>, Unit)| p.0);
    assert(rkeys.no_duplicates()) by {
        assert forall|i: int, j: int|
            0 <= i < rkeys.len() && 0 <= j < rkeys.len() && i != j implies rkeys[i] != rkeys[j] by {
            assert(rkeys[i] == r[i].0);
            assert(rkeys[j] == r[j].0);
        }
    }
    rkeys.unique_seq_to_set();
    assert(entry_keys(r) =~= rkeys.to_set()) by {
        assert forall|m: Seq<char>| rkeys.to_set().contains(m) implies seq_has_key(r, m) by {
            let k = choose|k: int| 0 <= k < rkeys.len() && rkeys[k] == m;
            assert(r[k].0 == m);
        }
        assert forall|m: Seq<char>| seq_has_key(r, m) implies rkeys.to_set().contains(m) by {
            let k = choose|k: int| 0 <= k < r.len() && r[k].0 == m;
            assert(rkeys[k] == m);
        }
    }
    assert(entry_keys(e) =~= Set::<Seq<char>>::empty());
    assert(entry_keys(r) =~= ins.map_values(|p: (Seq<char>, Unit)| p.0).to_set());
}

/// Merging enabled names from two texts in turn adds exactly the union of
/// both texts' names, and merging the same text twice adds nothing new: the
/// merge is additive and idempotent.
pub proof fn lemma_enabled_merge_additive(e: Set<Seq<char>>, a: Seq<char>, b: Seq<char>)
    ensures
        e.union(token_set(a)).union(token_set(b)) == e.union(token_set(a).union(token_set(b))),
        e.union(token_set(a)).union(token_set(a)) == e.union(token_set(a)),
{
    assert(e.union(token_set(a)).union(token_set(b)) =~= e.union(
        token_set(a).union(token_set(b)),
    ));
    assert(e.union(token_set(a)).union(token_set(a)) =~= e.union(token_set(a)));
}

/// A lookup skips any prefix of entries that do not carry the name.
proof fn lemma_lookup_entry_skip(s: Seq<(Seq<char>, Unit)>, n: Seq<char>, i: int)
    requires
        0 <= i <= s.len(),
        forall|j: int| 0 <= j < i ==> s[j].0 != n,
    ensures
        i < s.len() && s[i].0 == n ==> lookup_entry(s, n) == Some(s[i].1),
        i == s.len() ==> lookup_entry(s, n) is None,
    decreases i,
{
    if i == 0 {
    } else {
        lemma_lookup_entry_skip(s.drop_first(), n, i - 1);
    }
}

} // verus!
