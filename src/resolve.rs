use vstd::prelude::*;

use crate::pkg::{RelationsResult, RequiredPackage};
use crate::text::str_eq;
use crate::versions::{index_of, is_first_index, lemma_index_of, list_contains};

verus! {

/// A package that the resolver can see, with the relations its evaluation produced
pub struct PackageEntry {
    /// The package id
    pub id: String,
    /// The evaluated relations of the package
    pub relations: RelationsResult,
}

/// A package of an install plan
#[derive(Debug, Clone, PartialEq, Eq)]
pub struct ResolvedPackage {
    /// The package id
    pub id: String,
    /// Whether the user requested the package
    pub explicit: bool,
}

/// Why a resolution failed
#[derive(Debug, Clone, PartialEq, Eq)]
pub enum ResolveError {
    /// A package that no repository offers; the requester is absent for a user request
    Unresolved { id: String, requester: Option<String> },
    /// The first package declares a conflict with the second, and both would be installed
    Conflict(String, String),
    /// The dependencies of the package cannot be ordered before it
    Cycle(String),
    /// The package was requested more than once
    DuplicateRequest(String),
}

/// The ids of the visible packages
pub open spec fn entry_ids(db: Seq<PackageEntry>) -> Seq<Seq<char>> {
    db.map_values(|e: PackageEntry| e.id@)
}

/// The position of the entry that a package id selects: the first with that id
pub open spec fn locate(db: Seq<PackageEntry>, id: Seq<char>) -> Option<int> {
    index_of(entry_ids(db), id)
}

/// Whether a position is the one that its own id selects
pub open spec fn canonical(db: Seq<PackageEntry>, j: int) -> bool {
    0 <= j < db.len() && locate(db, db[j].id@) == Some(j)
}

/// The texts of a list of strings
pub open spec fn ids_of(v: Seq<String>) -> Seq<Seq<char>> {
    v.map_values(|s: String| s@)
}

/// Whether the relations name a package as one that comes along with the package that
/// declares them: a member of a dependency group, a bundled package, an extension, or, when
/// recommendations are followed, a package recommended for it
pub open spec fn declares(rel: RelationsResult, id: Seq<char>, with_recs: bool) -> bool {
    ||| exists|g: int, m: int|
        0 <= g < rel.deps@.len() && 0 <= m < rel.deps@[g]@.len() && #[trigger] rel.deps@[g]@[m].value@
            == id
    ||| list_contains(ids_of(rel.bundled@), id)
    ||| list_contains(ids_of(rel.extensions@), id)
    ||| with_recs && exists|m: int|
        0 <= m < rel.recommendations@.len() && !rel.recommendations@[m].invert
            && #[trigger] rel.recommendations@[m].value@ == id
}

/// Finds the entry that a package id selects
pub fn find_entry(db: &Vec<PackageEntry>, id: &str) -> (r: Option<usize>)
    ensures
        match r {
            Some(j) => locate(db@, id@) == Some(j as int) && canonical(db@, j as int) && db@[j as int].id@
                == id@,
            None => locate(db@, id@) is None && forall|j: int|
                0 <= j < db@.len() ==> db@[j].id@ != id@,
        },
{
    let ghost vs = entry_ids(db@);
    let mut i: usize = 0;
    while i < db.len()
        invariant
            vs == entry_ids(db@),
            vs.len() == db@.len(),
            i <= db@.len(),
            forall|j: int| 0 <= j < i ==> vs[j] != id@,
        decreases db@.len() - i,
    {
        if str_eq(db[i].id.as_str(), id) {
            assert(is_first_index(vs, id@, i as int));
            assert(list_contains(vs, id@));
            let ghost k = choose|k: int| is_first_index(vs, id@, k);
            assert(k == i as int) by {
                if k > i {
                    assert(vs[i as int] == id@);
                }
            }
            return Some(i);
        }
        i = i + 1;
    }
    assert forall|j: int| 0 <= j < db@.len() implies db@[j].id@ != id@ by {
        assert(vs[j] == db@[j].id@);
    }
    None
}

/// The number of positions not yet taken
pub open spec fn count_free(s: Seq<bool>) -> nat
    decreases s.len(),
{
    if s.len() == 0 {
        0
    } else {
        count_free(s.drop_last()) + if s.last() {
            0nat
        } else {
            1nat
        }
    }
}

/// Taking a free position lowers the count of free ones by one
proof fn lemma_take_free(s: Seq<bool>, j: int)
    requires
        0 <= j < s.len(),
        !s[j],
    ensures
        count_free(s.update(j, true)) + 1 == count_free(s),
    decreases s.len(),
{
    let t = s.update(j, true);
    if j == s.len() - 1 {
        assert(t.drop_last() =~= s.drop_last());
    } else {
        assert(t.drop_last() =~= s.drop_last().update(j, true));
        lemma_take_free(s.drop_last(), j);
    }
}

/// There are never more free positions than positions
proof fn lemma_count_free_bound(s: Seq<bool>)
    ensures
        count_free(s) <= s.len(),
    decreases s.len(),
{
    if s.len() > 0 {
        lemma_count_free_bound(s.drop_last());
    }
}

/// The working state of a resolution: the packages found so far, in discovery order
struct Frontier {
    /// Entry positions, in the order the packages were found
    order: Vec<usize>,
    /// Whether each package of `order` was requested by the user
    explicit: Vec<bool>,
    /// Whether each entry position is in `order`
    seen: Vec<bool>,
}

impl Frontier {
    /// The state is consistent for a list of `n` entries
    spec fn wf(&self, db: Seq<PackageEntry>) -> bool {
        &&& self.seen@.len() == db.len()
        &&& self.explicit@.len() == self.order@.len()
        &&& forall|k: int| 0 <= k < self.order@.len() ==> canonical(db, #[trigger] self.order@[k] as int)
        &&& forall|k: int| 0 <= k < self.order@.len() ==> self.seen@[#[trigger] self.order@[k] as int]
        &&& forall|j: int|
            0 <= j < db.len() && #[trigger] self.seen@[j] ==> exists|k: int|
                0 <= k < self.order@.len() && self.order@[k] == j
        &&& forall|k1: int, k2: int|
            0 <= k1 < k2 < self.order@.len() ==> self.order@[k1] != self.order@[k2]
        &&& self.order@.len() + count_free(self.seen@) == db.len()
    }

    /// Adds an entry position that has not been found yet
    fn push(&mut self, Ghost(db): Ghost<Seq<PackageEntry>>, j: usize, explicit: bool)
        requires
            old(self).wf(db),
            canonical(db, j as int),
            !old(self).seen@[j as int],
        ensures
            final(self).wf(db),
            final(self).order@ == old(self).order@.push(j),
            final(self).explicit@ == old(self).explicit@.push(explicit),
            final(self).seen@ == old(self).seen@.update(j as int, true),
    {
        proof {
            lemma_take_free(self.seen@, j as int);
        }
        self.order.push(j);
        self.explicit.push(explicit);
        self.seen.set(j, true);
        proof {
            let n = self.order@.len() - 1;
            assert forall|jj: int| 0 <= jj < db.len() && #[trigger] self.seen@[jj] implies exists|
                k: int,
            |
                0 <= k < self.order@.len() && self.order@[k] == jj by {
                if jj == j {
                    assert(self.order@[n] == jj);
                } else {
                    assert(old(self).seen@[jj]);
                    let k = choose|k: int| 0 <= k < old(self).order@.len() && old(self).order@[k] == jj;
                    assert(self.order@[k] == jj);
                }
            }
            assert forall|k1: int, k2: int|
                0 <= k1 < k2 < self.order@.len() implies self.order@[k1] != self.order@[k2] by {
                if k2 == n {
                    assert(old(self).seen@[old(self).order@[k1] as int]);
                }
            }
        }
    }
}

/// Whether the package that an id selects is marked in `seen`
pub open spec fn has_seen(db: Seq<PackageEntry>, seen: Seq<bool>, id: Seq<char>) -> bool {
    locate(db, id) matches Some(j) && 0 <= j < seen.len() && seen[j]
}

/// Whether a dependency group is met: it is empty, or one of its members is marked
pub open spec fn group_met(db: Seq<PackageEntry>, seen: Seq<bool>, g: Seq<RequiredPackage>) -> bool {
    g.len() == 0 || exists|m: int| 0 <= m < g.len() && has_seen(db, seen, #[trigger] g[m].value@)
}

/// Whether everything that the relations bring along is marked
pub open spec fn closed(
    db: Seq<PackageEntry>,
    seen: Seq<bool>,
    rel: RelationsResult,
    with_recs: bool,
) -> bool {
    &&& forall|g: int| 0 <= g < rel.deps@.len() ==> group_met(db, seen, #[trigger] rel.deps@[g]@)
    &&& forall|b: int| 0 <= b < rel.bundled@.len() ==> has_seen(db, seen, #[trigger] rel.bundled@[b]@)
    &&& forall|x: int|
        0 <= x < rel.extensions@.len() ==> has_seen(db, seen, #[trigger] rel.extensions@[x]@)
    &&& with_recs ==> forall|m: int|
        0 <= m < rel.recommendations@.len() && !rel.recommendations@[m].invert && locate(
            db,
            #[trigger] rel.recommendations@[m].value@,
        ) is Some ==> has_seen(db, seen, rel.recommendations@[m].value@)
}

/// Whether the user requested a package id
pub open spec fn requested(requests: Seq<String>, id: Seq<char>) -> bool {
    list_contains(ids_of(requests), id)
}

/// Whether every mark of `s1` is also a mark of `s2`
pub open spec fn grows(s1: Seq<bool>, s2: Seq<bool>) -> bool {
    s1.len() == s2.len() && forall|j: int| 0 <= j < s1.len() && #[trigger] s1[j] ==> s2[j]
}

proof fn lemma_closed_grows(
    db: Seq<PackageEntry>,
    s1: Seq<bool>,
    s2: Seq<bool>,
    rel: RelationsResult,
    with_recs: bool,
)
    requires
        s1.len() == db.len(),
        grows(s1, s2),
        closed(db, s1, rel, with_recs),
    ensures
        closed(db, s2, rel, with_recs),
{
    assert forall|g: int| 0 <= g < rel.deps@.len() implies group_met(
        db,
        s2,
        #[trigger] rel.deps@[g]@,
    ) by {
        let grp = rel.deps@[g]@;
        if grp.len() > 0 {
            assert(group_met(db, s1, grp));
            let m = choose|m: int| 0 <= m < grp.len() && has_seen(db, s1, #[trigger] grp[m].value@);
            assert(has_seen(db, s2, grp[m].value@));
        }
    }
    assert forall|b: int| 0 <= b < rel.bundled@.len() implies has_seen(
        db,
        s2,
        #[trigger] rel.bundled@[b]@,
    ) by {
        assert(has_seen(db, s1, rel.bundled@[b]@));
    }
    assert forall|x: int| 0 <= x < rel.extensions@.len() implies has_seen(
        db,
        s2,
        #[trigger] rel.extensions@[x]@,
    ) by {
        assert(has_seen(db, s1, rel.extensions@[x]@));
    }
    if with_recs {
        assert forall|m: int|
            0 <= m < rel.recommendations@.len() && !rel.recommendations@[m].invert && locate(
                db,
                #[trigger] rel.recommendations@[m].value@,
            ) is Some implies has_seen(db, s2, rel.recommendations@[m].value@) by {
            assert(has_seen(db, s1, rel.recommendations@[m].value@));
        }
    }
}

impl Frontier {
    /// The invariant of the expansion: the state is consistent, every request is found,
    /// exactly the requested packages are marked explicit, every other package was brought
    /// along by an earlier one, and the first `i` packages are closed
    spec fn inv(
        &self,
        db: Seq<PackageEntry>,
        requests: Seq<String>,
        with_recs: bool,
        i: int,
    ) -> bool {
        &&& self.wf(db)
        &&& 0 <= i <= self.order@.len()
        &&& forall|t: int| 0 <= t < requests.len() ==> has_seen(db, self.seen@, #[trigger] requests[t]@)
        &&& forall|k: int|
            0 <= k < self.order@.len() ==> #[trigger] self.explicit@[k] == requested(
                requests,
                db[self.order@[k] as int].id@,
            )
        &&& forall|k: int|
            0 <= k < self.order@.len() && !#[trigger] self.explicit@[k] ==> exists|k2: int|
                0 <= k2 < k && declares(
                    db[self.order@[k2] as int].relations,
                    db[self.order@[k] as int].id@,
                    with_recs,
                )
        &&& forall|k: int|
            0 <= k < i ==> closed(
                db,
                self.seen@,
                db[#[trigger] self.order@[k] as int].relations,
                with_recs,
            )
    }

    /// Brings along a package that the package at position `i` declares
    fn bring(
        &mut self,
        db: &Vec<PackageEntry>,
        Ghost(requests): Ghost<Seq<String>>,
        with_recs: bool,
        i: usize,
        id: &String,
    ) -> (r: Result<(), ResolveError>)
        requires
            old(self).inv(db@, requests, with_recs, i as int),
            i < old(self).order@.len(),
            declares(db@[old(self).order@[i as int] as int].relations, id@, with_recs),
        ensures
            grows(old(self).seen@, final(self).seen@),
            final(self).order@.len() >= old(self).order@.len(),
            final(self).order@.subrange(0, old(self).order@.len() as int) == old(self).order@,
            match r {
                Ok(()) => final(self).inv(db@, requests, with_recs, i as int) && has_seen(
                    db@,
                    final(self).seen@,
                    id@,
                ),
                Err(e) => locate(db@, id@) is None && e == ResolveError::Unresolved {
                    id: *id,
                    requester: Some(db@[old(self).order@[i as int] as int].id),
                },
            },
    {
        let ghost o = self.order@;
        let ghost sn = self.seen@;
        let ghost ex = self.explicit@;
        match find_entry(db, id.as_str()) {
            None => Err(
                ResolveError::Unresolved {
                    id: id.clone(),
                    requester: Some(db[self.order[i]].id.clone()),
                },
            ),
            Some(j) => {
                if !self.seen[j] {
                    self.push(Ghost(db@), j, false);
                    proof {
                        let n = o.len() as int;
                        assert(self.order@.subrange(0, n) =~= o);
                        assert forall|t: int| 0 <= t < requests.len() implies has_seen(
                            db@,
                            self.seen@,
                            #[trigger] requests[t]@,
                        ) by {
                            assert(has_seen(db@, sn, requests[t]@));
                        }
                        assert(!requested(requests, db@[j as int].id@)) by {
                            if requested(requests, db@[j as int].id@) {
                                let t = choose|t: int|
                                    0 <= t < ids_of(requests).len() && ids_of(requests)[t]
                                        == db@[j as int].id@;
                                assert(has_seen(db@, sn, requests[t]@));
                            }
                        }
                        assert forall|k: int| 0 <= k < self.order@.len() implies #[trigger] self.explicit@[k]
                            == requested(requests, db@[self.order@[k] as int].id@) by {
                            if k < n {
                                assert(ex[k] == requested(requests, db@[o[k] as int].id@));
                            }
                        }
                        assert forall|k: int|
                            0 <= k < self.order@.len() && !#[trigger] self.explicit@[k] implies exists|
                                k2: int,
                            |
                                0 <= k2 < k && declares(
                                    db@[self.order@[k2] as int].relations,
                                    db@[self.order@[k] as int].id@,
                                    with_recs,
                                ) by {
                            if k < n {
                                assert(!ex[k]);
                                let k2 = choose|k2: int|
                                    0 <= k2 < k && declares(
                                        db@[o[k2] as int].relations,
                                        db@[o[k] as int].id@,
                                        with_recs,
                                    );
                                assert(self.order@[k2] == o[k2]);
                            } else {
                                assert(self.order@[i as int] == o[i as int]);
                            }
                        }
                        assert forall|k: int| 0 <= k < i implies closed(
                            db@,
                            self.seen@,
                            db@[#[trigger] self.order@[k] as int].relations,
                            with_recs,
                        ) by {
                            assert(self.order@[k] == o[k]);
                            lemma_closed_grows(
                                db@,
                                sn,
                                self.seen@,
                                db@[o[k] as int].relations,
                                with_recs,
                            );
                        }
                    }
                } else {
                    assert(self.order@.subrange(0, o.len() as int) =~= o);
                }
                Ok(())
            },
        }
    }
}

/// Marks only grow, so a met group stays met
proof fn lemma_group_met_grows(
    db: Seq<PackageEntry>,
    s1: Seq<bool>,
    s2: Seq<bool>,
    g: Seq<RequiredPackage>,
)
    requires
        grows(s1, s2),
        group_met(db, s1, g),
    ensures
        group_met(db, s2, g),
{
    if g.len() > 0 {
        let m = choose|m: int| 0 <= m < g.len() && has_seen(db, s1, #[trigger] g[m].value@);
        assert(has_seen(db, s2, g[m].value@));
    }
}

/// Whether an error names a package that no entry offers, brought along by the package at
/// entry position `j`
pub open spec fn unresolved_from(
    db: Seq<PackageEntry>,
    e: ResolveError,
    j: int,
    with_recs: bool,
) -> bool {
    match e {
        ResolveError::Unresolved { id, requester } => locate(db, id@) is None && requester == Some(
            db[j].id,
        ) && declares(db[j].relations, id@, with_recs),
        _ => false,
    }
}

impl Frontier {
    /// Brings along everything that the package at position `i` declares
    fn expand(
        &mut self,
        db: &Vec<PackageEntry>,
        Ghost(requests): Ghost<Seq<String>>,
        with_recs: bool,
        i: usize,
    ) -> (r: Result<(), ResolveError>)
        requires
            old(self).inv(db@, requests, with_recs, i as int),
            i < old(self).order@.len(),
        ensures
            match r {
                Ok(()) => final(self).inv(db@, requests, with_recs, i + 1) && final(self).order@.len()
                    >= old(self).order@.len() && final(self).order@.subrange(
                    0,
                    old(self).order@.len() as int,
                ) == old(self).order@,
                Err(e) => unresolved_from(db@, e, old(self).order@[i as int] as int, with_recs),
            },
    {
        let ghost o = self.order@;
        let ghost s0 = self.seen@;
        let ghost start = self.order@.len();
        let ghost pi = self.order@[i as int] as int;
        let rel = &db[self.order[i]].relations;
        let mut g: usize = 0;
        while g < rel.deps.len()
            invariant
                self.inv(db@, requests, with_recs, i as int),
                i < start <= self.order@.len(),
                self.order@.subrange(0, start as int) == o,
                pi == o[i as int],
                old(self).order@ == o,
                *rel == db@[pi].relations,
                grows(s0, self.seen@),
                g <= rel.deps@.len(),
                forall|h: int| 0 <= h < g ==> group_met(db@, self.seen@, #[trigger] rel.deps@[h]@),
            decreases rel.deps@.len() - g,
        {
            let group = &rel.deps[g];
            if group.len() > 0 {
                let mut found = false;
                let mut m: usize = 0;
                while m < group.len()
                    invariant
                        self.wf(db@),
                        m <= group@.len(),
                        found ==> group_met(db@, self.seen@, group@),
                    decreases group@.len() - m,
                {
                    if let Some(j) = find_entry(db, group[m].value.as_str()) {
                        if self.seen[j] {
                            found = true;
                            assert(has_seen(db@, self.seen@, group@[m as int].value@));
                        }
                    }
                    m = m + 1;
                }
                if !found {
                    let ghost sb = self.seen@;
                    let ghost ob = self.order@;
                    assert(rel.deps@[g as int]@[0].value@ == group@[0].value@);
                    assert(declares(db@[pi].relations, group@[0].value@, with_recs));
                    assert(self.order@[i as int] == o[i as int]);
                    match self.bring(db, Ghost(requests), with_recs, i, &group[0].value) {
                        Ok(()) => {},
                        Err(e) => {
                            return Err(e);
                        },
                    }
                    proof {
                        assert(self.order@.subrange(0, start as int) =~= o) by {
                            assert(self.order@.subrange(0, ob.len() as int) == ob);
                            assert forall|k: int| 0 <= k < start implies self.order@[k] == o[k] by {
                                assert(self.order@[k] == ob[k]);
                                assert(ob.subrange(0, start as int)[k] == ob[k]);
                            }
                        }
                        assert(has_seen(db@, self.seen@, group@[0].value@));
                        assert(group_met(db@, self.seen@, group@));
                        assert forall|h: int| 0 <= h < g implies group_met(
                            db@,
                            self.seen@,
                            #[trigger] rel.deps@[h]@,
                        ) by {
                            lemma_group_met_grows(db@, sb, self.seen@, rel.deps@[h]@);
                        }
                    }
                }
            }
            g = g + 1;
        }
        let ghost s1 = self.seen@;
        let mut b: usize = 0;
        while b < rel.bundled.len()
            invariant
                self.inv(db@, requests, with_recs, i as int),
                i < start <= self.order@.len(),
                self.order@.subrange(0, start as int) == o,
                pi == o[i as int],
                old(self).order@ == o,
                *rel == db@[pi].relations,
                grows(s0, self.seen@),
                grows(s1, self.seen@),
                b <= rel.bundled@.len(),
                forall|h: int| 0 <= h < rel.deps@.len() ==> group_met(db@, s1, #[trigger] rel.deps@[h]@),
                forall|h: int| 0 <= h < b ==> has_seen(db@, self.seen@, #[trigger] rel.bundled@[h]@),
            decreases rel.bundled@.len() - b,
        {
            let ghost ob = self.order@;
            assert(ids_of(rel.bundled@)[b as int] == rel.bundled@[b as int]@);
            assert(self.order@[i as int] == o[i as int]);
            match self.bring(db, Ghost(requests), with_recs, i, &rel.bundled[b]) {
                Ok(()) => {},
                Err(e) => {
                    return Err(e);
                },
            }
            proof {
                assert forall|k: int| 0 <= k < start implies self.order@[k] == o[k] by {
                    assert(self.order@[k] == ob[k]);
                    assert(ob.subrange(0, start as int)[k] == ob[k]);
                }
                assert(self.order@.subrange(0, start as int) =~= o);
            }
            b = b + 1;
        }
        let mut x: usize = 0;
        while x < rel.extensions.len()
            invariant
                self.inv(db@, requests, with_recs, i as int),
                i < start <= self.order@.len(),
                self.order@.subrange(0, start as int) == o,
                pi == o[i as int],
                old(self).order@ == o,
                *rel == db@[pi].relations,
                grows(s0, self.seen@),
                grows(s1, self.seen@),
                x <= rel.extensions@.len(),
                forall|h: int| 0 <= h < rel.deps@.len() ==> group_met(db@, s1, #[trigger] rel.deps@[h]@),
                forall|h: int|
                    0 <= h < rel.bundled@.len() ==> has_seen(db@, self.seen@, #[trigger] rel.bundled@[h]@),
                forall|h: int|
                    0 <= h < x ==> has_seen(db@, self.seen@, #[trigger] rel.extensions@[h]@),
            decreases rel.extensions@.len() - x,
        {
            let ghost ob = self.order@;
            assert(ids_of(rel.extensions@)[x as int] == rel.extensions@[x as int]@);
            assert(self.order@[i as int] == o[i as int]);
            match self.bring(db, Ghost(requests), with_recs, i, &rel.extensions[x]) {
                Ok(()) => {},
                Err(e) => {
                    return Err(e);
                },
            }
            proof {
                assert forall|k: int| 0 <= k < start implies self.order@[k] == o[k] by {
                    assert(self.order@[k] == ob[k]);
                    assert(ob.subrange(0, start as int)[k] == ob[k]);
                }
                assert(self.order@.subrange(0, start as int) =~= o);
            }
            x = x + 1;
        }
        let mut m: usize = 0;
        while with_recs && m < rel.recommendations.len()
            invariant
                self.inv(db@, requests, with_recs, i as int),
                i < start <= self.order@.len(),
                self.order@.subrange(0, start as int) == o,
                pi == o[i as int],
                old(self).order@ == o,
                *rel == db@[pi].relations,
                grows(s0, self.seen@),
                grows(s1, self.seen@),
                m <= rel.recommendations@.len(),
                forall|h: int| 0 <= h < rel.deps@.len() ==> group_met(db@, s1, #[trigger] rel.deps@[h]@),
                forall|h: int|
                    0 <= h < rel.bundled@.len() ==> has_seen(db@, self.seen@, #[trigger] rel.bundled@[h]@),
                forall|h: int|
                    0 <= h < rel.extensions@.len() ==> has_seen(
                        db@,
                        self.seen@,
                        #[trigger] rel.extensions@[h]@,
                    ),
                with_recs ==> forall|h: int|
                    0 <= h < m && !rel.recommendations@[h].invert && locate(
                        db@,
                        #[trigger] rel.recommendations@[h].value@,
                    ) is Some ==> has_seen(db@, self.seen@, rel.recommendations@[h].value@),
            decreases rel.recommendations@.len() - m,
        {
            let rec = &rel.recommendations[m];
            if !rec.invert && find_entry(db, rec.value.as_str()).is_some() {
                let ghost ob = self.order@;
                assert(self.order@[i as int] == o[i as int]);
                assert(rel.recommendations@[m as int].value@ == rec.value@);
                match self.bring(db, Ghost(requests), with_recs, i, &rec.value) {
                    Ok(()) => {},
                    Err(e) => {
                        return Err(e);
                    },
                }
                proof {
                    assert forall|k: int| 0 <= k < start implies self.order@[k] == o[k] by {
                        assert(self.order@[k] == ob[k]);
                        assert(ob.subrange(0, start as int)[k] == ob[k]);
                    }
                    assert(self.order@.subrange(0, start as int) =~= o);
                }
            }
            m = m + 1;
        }
        proof {
            assert forall|h: int| 0 <= h < rel.deps@.len() implies group_met(
                db@,
                self.seen@,
                #[trigger] rel.deps@[h]@,
            ) by {
                lemma_group_met_grows(db@, s1, self.seen@, rel.deps@[h]@);
            }
            assert(self.order@[i as int] == o[i as int]);
            assert(closed(db@, self.seen@, db@[self.order@[i as int] as int].relations, with_recs));
            assert forall|k: int| 0 <= k < i + 1 implies closed(
                db@,
                self.seen@,
                db@[#[trigger] self.order@[k] as int].relations,
                with_recs,
            ) by {
                if k < i {
                }
            }
        }
        Ok(())
    }
}

/// A list of only free positions
proof fn lemma_all_free(s: Seq<bool>)
    requires
        forall|j: int| 0 <= j < s.len() ==> !s[j],
    ensures
        count_free(s) == s.len(),
    decreases s.len(),
{
    if s.len() > 0 {
        lemma_all_free(s.drop_last());
    }
}

/// More marks leave fewer free positions, and as many only when the marks are the same
proof fn lemma_grows_count(s1: Seq<bool>, s2: Seq<bool>)
    requires
        grows(s1, s2),
    ensures
        count_free(s2) <= count_free(s1),
        count_free(s2) == count_free(s1) ==> s1 == s2,
    decreases s1.len(),
{
    if s1.len() > 0 {
        let a = s1.drop_last();
        let b = s2.drop_last();
        assert(grows(a, b));
        lemma_grows_count(a, b);
        if count_free(s2) == count_free(s1) {
            assert(s1.last() == s2.last());
            assert(a == b);
            assert(s1 =~= a.push(s1.last()));
            assert(s2 =~= b.push(s2.last()));
        }
    }
}

/// A list of `n` unmarked positions
fn unmarked(n: usize) -> (r: Vec<bool>)
    ensures
        r@.len() == n,
        forall|j: int| 0 <= j < n ==> !r@[j],
        count_free(r@) == n,
{
    let mut v: Vec<bool> = Vec::new();
    let mut i: usize = 0;
    while i < n
        invariant
            i <= n,
            v@.len() == i,
            forall|j: int| 0 <= j < i ==> !v@[j],
        decreases n - i,
    {
        v.push(false);
        i = i + 1;
    }
    proof {
        lemma_all_free(v@);
    }
    v
}

/// Whether the id was requested more than once
pub open spec fn duplicated(requests: Seq<String>, id: Seq<char>) -> bool {
    exists|t1: int, t2: int|
        0 <= t1 < t2 < requests.len() && #[trigger] requests[t1]@ == id && #[trigger] requests[t2]@
            == id
}

/// Whether the requests are all different
pub open spec fn distinct_requests(requests: Seq<String>) -> bool {
    forall|t1: int, t2: int|
        0 <= t1 < t2 < requests.len() ==> #[trigger] requests[t1]@ != #[trigger] requests[t2]@
}

/// Finds a request that repeats an earlier one
fn find_duplicate(requests: &Vec<String>) -> (r: Option<usize>)
    ensures
        match r {
            Some(t) => t < requests@.len() && duplicated(requests@, requests@[t as int]@),
            None => distinct_requests(requests@),
        },
{
    let mut t: usize = 0;
    while t < requests.len()
        invariant
            t <= requests@.len(),
            forall|t1: int, t2: int|
                0 <= t1 < t2 < t ==> #[trigger] requests@[t1]@ != #[trigger] requests@[t2]@,
        decreases requests@.len() - t,
    {
        let mut u: usize = 0;
        while u < t
            invariant
                u <= t < requests@.len(),
                forall|t1: int| 0 <= t1 < u ==> requests@[t1]@ != requests@[t as int]@,
            decreases t - u,
        {
            if str_eq(requests[u].as_str(), requests[t].as_str()) {
                assert(requests@[u as int]@ == requests@[t as int]@);
                return Some(t);
            }
            u = u + 1;
        }
        t = t + 1;
    }
    None
}

/// Checks whether the user requested a package id
fn is_requested(requests: &Vec<String>, id: &str) -> (r: bool)
    ensures
        r == requested(requests@, id@),
{
    let mut t: usize = 0;
    while t < requests.len()
        invariant
            t <= requests@.len(),
            forall|u: int| 0 <= u < t ==> requests@[u]@ != id@,
        decreases requests@.len() - t,
    {
        if str_eq(requests[t].as_str(), id) {
            assert(ids_of(requests@)[t as int] == id@);
            return true;
        }
        t = t + 1;
    }
    proof {
        if requested(requests@, id@) {
            let u = choose|u: int| 0 <= u < ids_of(requests@).len() && ids_of(requests@)[u] == id@;
            assert(requests@[u]@ == id@);
        }
    }
    false
}

/// Whether an error reports a request that no entry offers
pub open spec fn unresolved_request(db: Seq<PackageEntry>, requests: Seq<String>, e: ResolveError) -> bool {
    match e {
        ResolveError::Unresolved { id, requester } => requester is None && locate(db, id@) is None
            && requested(requests, id@),
        _ => false,
    }
}

/// Starts a resolution from the requests
fn seed(db: &Vec<PackageEntry>, requests: &Vec<String>, with_recs: bool) -> (r: Result<
    Frontier,
    ResolveError,
>)
    requires
        distinct_requests(requests@),
    ensures
        match r {
            Ok(f) => f.inv(db@, requests@, with_recs, 0) && seeded(db@, requests@, f.order@),
            Err(e) => unresolved_request(db@, requests@, e),
        },
{
    let mut f = Frontier { order: Vec::new(), explicit: Vec::new(), seen: unmarked(db.len()) };
    let mut t: usize = 0;
    while t < requests.len()
        invariant
            f.wf(db@),
            t <= requests@.len(),
            forall|u: int| 0 <= u < t ==> has_seen(db@, f.seen@, #[trigger] requests@[u]@),
            forall|k: int| 0 <= k < f.order@.len() ==> #[trigger] f.explicit@[k],
            forall|k: int|
                0 <= k < f.order@.len() ==> requested(requests@, #[trigger] db@[f.order@[k] as int].id@),
            distinct_requests(requests@),
            f.order@.len() == t,
            forall|u: int| 0 <= u < t ==> locate(db@, #[trigger] requests@[u]@) == Some(f.order@[u] as int),
        decreases requests@.len() - t,
    {
        match find_entry(db, requests[t].as_str()) {
            None => {
                assert(ids_of(requests@)[t as int] == requests@[t as int]@);
                return Err(ResolveError::Unresolved { id: requests[t].clone(), requester: None });
            },
            Some(j) => {
                if f.seen[j] {
                    proof {
                        let k = choose|k: int| 0 <= k < f.order@.len() && f.order@[k] == j;
                        assert(locate(db@, requests@[k]@) == Some(j as int));
                        lemma_index_of(entry_ids(db@), requests@[k]@);
                        lemma_index_of(entry_ids(db@), requests@[t as int]@);
                        assert(requests@[k]@ == requests@[t as int]@);
                    }
                } else {
                    let ghost sn = f.seen@;
                    f.push(Ghost(db@), j, true);
                    assert(ids_of(requests@)[t as int] == requests@[t as int]@);
                    assert forall|u: int| 0 <= u < t implies has_seen(
                        db@,
                        f.seen@,
                        #[trigger] requests@[u]@,
                    ) by {
                        assert(has_seen(db@, sn, requests@[u]@));
                    }
                }
            },
        }
        t = t + 1;
    }
    Ok(f)
}

/// Whether the discovery order starts with the entries of the requests, in request order
pub open spec fn seeded(db: Seq<PackageEntry>, requests: Seq<String>, order: Seq<usize>) -> bool {
    requests.len() <= order.len() && forall|u: int|
        0 <= u < requests.len() ==> locate(db, #[trigger] requests[u]@) == Some(order[u] as int)
}

/// Checks whether a dependency group is met by the marked positions
fn group_is_met(db: &Vec<PackageEntry>, g: &Vec<RequiredPackage>, marks: &Vec<bool>) -> (r: bool)
    requires
        marks@.len() == db@.len(),
    ensures
        r == group_met(db@, marks@, g@),
{
    if g.len() == 0 {
        return true;
    }
    let mut m: usize = 0;
    while m < g.len()
        invariant
            marks@.len() == db@.len(),
            m <= g@.len(),
            forall|h: int| 0 <= h < m ==> !has_seen(db@, marks@, #[trigger] g@[h].value@),
        decreases g@.len() - m,
    {
        if let Some(j) = find_entry(db, g[m].value.as_str()) {
            if marks[j] {
                assert(has_seen(db@, marks@, g@[m as int].value@));
                return true;
            }
        }
        m = m + 1;
    }
    false
}

/// Checks whether every dependency group of the relations is met by the marked positions
fn deps_met(db: &Vec<PackageEntry>, rel: &RelationsResult, marks: &Vec<bool>) -> (r: bool)
    requires
        marks@.len() == db@.len(),
    ensures
        r == forall|g: int| 0 <= g < rel.deps@.len() ==> group_met(db@, marks@, #[trigger] rel.deps@[g]@),
{
    let mut g: usize = 0;
    while g < rel.deps.len()
        invariant
            marks@.len() == db@.len(),
            g <= rel.deps@.len(),
            forall|h: int| 0 <= h < g ==> group_met(db@, marks@, #[trigger] rel.deps@[h]@),
        decreases rel.deps@.len() - g,
    {
        if !group_is_met(db, &rel.deps[g], marks) {
            return false;
        }
        g = g + 1;
    }
    true
}

/// Whether a list of entry positions puts, for every package, a member of each of its
/// dependency groups before it
pub open spec fn deps_before(db: Seq<PackageEntry>, pl: Seq<usize>) -> bool {
    forall|p: int, g: int|
        0 <= p < pl.len() && 0 <= g < db[pl[p] as int].relations.deps@.len() && db[pl[p] as int].relations.deps@[g]@.len()
            > 0 ==> exists|m: int, pz: int|
            0 <= m < db[pl[p] as int].relations.deps@[g]@.len() && 0 <= pz < p && locate(
                db,
                #[trigger] db[pl[p] as int].relations.deps@[g]@[m].value@,
            ) == Some(#[trigger] pl[pz] as int)
}

/// Whether a set of package ids holds, for every package in it, a member of each of its
/// dependency groups, its bundled packages and its extensions
pub open spec fn closed_set(db: Seq<PackageEntry>, reached: Set<Seq<char>>, rel: RelationsResult) -> bool {
    &&& forall|g: int|
        0 <= g < rel.deps@.len() && rel.deps@[g]@.len() > 0 ==> exists|m: int|
            0 <= m < rel.deps@[g]@.len() && reached.contains(#[trigger] rel.deps@[g]@[m].value@)
    &&& forall|b: int| 0 <= b < rel.bundled@.len() ==> reached.contains(#[trigger] rel.bundled@[b]@)
    &&& forall|x: int|
        0 <= x < rel.extensions@.len() ==> reached.contains(#[trigger] rel.extensions@[x]@)
}

/// Whether the package has a non-empty dependency group whose members in `reached` all lie
/// in `stuck`
pub open spec fn waits_within(
    rel: RelationsResult,
    reached: Set<Seq<char>>,
    stuck: Set<Seq<char>>,
) -> bool {
    exists|g: int|
        0 <= g < rel.deps@.len() && (#[trigger] rel.deps@[g])@.len() > 0 && forall|m: int|
            0 <= m < rel.deps@[g]@.len() && reached.contains(#[trigger] rel.deps@[g]@[m].value@)
                ==> stuck.contains(rel.deps@[g]@[m].value@)
}

/// The packages a resolution reached, and among them those that cannot be ordered: every
/// request is reached; every reached package is offered, brings its dependencies, bundled
/// packages and extensions into the reached set, and conflicts with no reached package; every
/// stuck package waits on a dependency group whose reached members are all stuck. Since every
/// such group has a reached member, the stuck packages depend on each other in a cycle.
pub open spec fn cycle_witness(
    db: Seq<PackageEntry>,
    requests: Seq<String>,
    reached: Set<Seq<char>>,
    stuck: Set<Seq<char>>,
) -> bool {
    &&& stuck.subset_of(reached)
    &&& forall|t: int| 0 <= t < requests.len() ==> reached.contains(#[trigger] requests[t]@)
    &&& forall|s: Seq<char>| #[trigger]
        reached.contains(s) ==> locate(db, s) is Some && closed_set(db, reached, relations_of(db, s))
            && forall|c: int|
            0 <= c < relations_of(db, s).conflicts@.len() ==> !reached.contains(
                #[trigger] relations_of(db, s).conflicts@[c]@,
            )
    &&& forall|s: Seq<char>| #[trigger]
        stuck.contains(s) ==> waits_within(relations_of(db, s), reached, stuck)
}

/// Whether the package id lies on a dependency cycle among the packages a resolution reached
pub open spec fn dependency_cycle(db: Seq<PackageEntry>, requests: Seq<String>, id: Seq<char>) -> bool {
    exists|reached: Set<Seq<char>>, stuck: Set<Seq<char>>|
        #[trigger] cycle_witness(db, requests, reached, stuck) && stuck.contains(id)
}

/// When no found package can be placed next, the found packages and the unplaced ones form a
/// cycle witness
proof fn lemma_stuck_is_cycle(
    f: Frontier,
    db: Seq<PackageEntry>,
    requests: Seq<String>,
    with_recs: bool,
    placed: Seq<bool>,
    reached: Set<Seq<char>>,
    stuck: Set<Seq<char>>,
)
    requires
        f.inv(db, requests, with_recs, f.order@.len() as int),
        forall|k: int, c: int|
            0 <= k < f.order@.len() && 0 <= c < db[f.order@[k] as int].relations.conflicts@.len()
                ==> !has_seen(db, f.seen@, #[trigger] db[f.order@[k] as int].relations.conflicts@[c]@),
        placed.len() == db.len(),
        grows(placed, f.seen@),
        forall|k2: int|
            0 <= k2 < f.order@.len() ==> placed[f.order@[k2] as int] || !(forall|g: int|
                0 <= g < db[f.order@[k2] as int].relations.deps@.len() ==> group_met(
                    db,
                    placed,
                    #[trigger] db[f.order@[k2] as int].relations.deps@[g]@,
                )),
        reached == Set::new(|s: Seq<char>| has_seen(db, f.seen@, s)),
        stuck == Set::new(|s: Seq<char>| has_seen(db, f.seen@, s) && !has_seen(db, placed, s)),
    ensures
        cycle_witness(db, requests, reached, stuck),
{
    let seen = f.seen@;
    assert forall|t: int| 0 <= t < requests.len() implies reached.contains(#[trigger] requests[t]@) by {
        assert(has_seen(db, seen, requests[t]@));
    }
    assert forall|s: Seq<char>| #[trigger] reached.contains(s) implies locate(db, s) is Some && closed_set(
        db,
        reached,
        relations_of(db, s),
    ) && forall|c: int|
        0 <= c < relations_of(db, s).conflicts@.len() ==> !reached.contains(
            #[trigger] relations_of(db, s).conflicts@[c]@,
        ) by {
        let j = locate(db, s)->Some_0;
        let k = choose|k: int| 0 <= k < f.order@.len() && f.order@[k] == j;
        let rel = db[j].relations;
        assert(closed(db, seen, db[f.order@[k] as int].relations, with_recs));
        assert forall|g: int| 0 <= g < rel.deps@.len() && rel.deps@[g]@.len() > 0 implies exists|m: int|
            0 <= m < rel.deps@[g]@.len() && reached.contains(#[trigger] rel.deps@[g]@[m].value@) by {
            assert(group_met(db, seen, rel.deps@[g]@));
            let m = choose|m: int|
                0 <= m < rel.deps@[g]@.len() && has_seen(db, seen, #[trigger] rel.deps@[g]@[m].value@);
            assert(reached.contains(rel.deps@[g]@[m].value@));
        }
        assert forall|b: int| 0 <= b < rel.bundled@.len() implies reached.contains(#[trigger] rel.bundled@[b]@) by {
            assert(has_seen(db, seen, rel.bundled@[b]@));
        }
        assert forall|x: int| 0 <= x < rel.extensions@.len() implies reached.contains(
            #[trigger] rel.extensions@[x]@,
        ) by {
            assert(has_seen(db, seen, rel.extensions@[x]@));
        }
        assert forall|c: int| 0 <= c < rel.conflicts@.len() implies !reached.contains(
            #[trigger] rel.conflicts@[c]@,
        ) by {
            assert(!has_seen(db, seen, db[f.order@[k] as int].relations.conflicts@[c]@));
        }
    }
    assert forall|s: Seq<char>| #[trigger] stuck.contains(s) implies waits_within(
        relations_of(db, s),
        reached,
        stuck,
    ) by {
        let j = locate(db, s)->Some_0;
        let k = choose|k: int| 0 <= k < f.order@.len() && f.order@[k] == j;
        let rel = db[j].relations;
        assert(!placed[f.order@[k] as int]);
        let g = choose|g: int|
            !(0 <= g < db[f.order@[k] as int].relations.deps@.len() ==> group_met(
                db,
                placed,
                #[trigger] db[f.order@[k] as int].relations.deps@[g]@,
            ));
        assert forall|m: int|
            0 <= m < rel.deps@[g]@.len() && reached.contains(#[trigger] rel.deps@[g]@[m].value@) implies stuck.contains(
            rel.deps@[g]@[m].value@,
        ) by {
            assert(!has_seen(db, placed, rel.deps@[g]@[m].value@));
        }
        assert(waits_within(rel, reached, stuck));
    }
}

/// Whether the entry position is among the first `p` positions of a placement order
pub open spec fn placed_before(pl: Seq<usize>, p: int, x: int) -> bool {
    exists|q: int| 0 <= q < p && pl[q] as int == x
}

/// Whether every dependency group of the entry at `j` has a member placed among the first `p`
/// positions of a placement order
pub open spec fn ready_before(db: Seq<PackageEntry>, pl: Seq<usize>, p: int, j: int) -> bool {
    forall|g: int|
        0 <= g < db[j].relations.deps@.len() && db[j].relations.deps@[g]@.len() > 0 ==> exists|m: int|
            0 <= m < db[j].relations.deps@[g]@.len() && locate(
                db,
                #[trigger] db[j].relations.deps@[g]@[m].value@,
            ) is Some && placed_before(pl, p, locate(db, db[j].relations.deps@[g]@[m].value@)->Some_0)
}

/// Whether every dependency group of the entry at `j` is met by the marked positions
pub open spec fn deps_ready(db: Seq<PackageEntry>, marks: Seq<bool>, j: int) -> bool {
    forall|g: int|
        0 <= g < db[j].relations.deps@.len() ==> group_met(db, marks, #[trigger] db[j].relations.deps@[g]@)
}

/// Every entry that comes before position `kp` of the discovery order was already placed, or
/// was not ready, when position `p` of the placement order was filled
pub open spec fn earlier_blocked(
    db: Seq<PackageEntry>,
    order: Seq<usize>,
    pl: Seq<usize>,
    p: int,
    kp: int,
) -> bool {
    forall|k2: int|
        0 <= k2 < kp ==> placed_before(pl, p, #[trigger] order[k2] as int) || !ready_before(
            db,
            pl,
            p,
            order[k2] as int,
        )
}

/// Position `p` of the placement order holds the first entry in discovery order that was not
/// placed yet and whose dependency groups were met
pub open spec fn picked_first(db: Seq<PackageEntry>, order: Seq<usize>, pl: Seq<usize>, p: int) -> bool {
    exists|kp: int|
        0 <= kp < order.len() && order[kp] == pl[p] && #[trigger] earlier_blocked(db, order, pl, p, kp)
}

/// Marks that are exactly the first `p` positions of a placement order meet the dependency
/// groups of an entry exactly when the entry is ready at `p`
proof fn lemma_ready_iff(db: Seq<PackageEntry>, marks: Seq<bool>, pl: Seq<usize>, p: int, j: int)
    requires
        marks.len() == db.len(),
        0 <= j < db.len(),
        forall|x: int| 0 <= x < db.len() ==> (marks[x] <==> placed_before(pl, p, x)),
    ensures
        deps_ready(db, marks, j) <==> ready_before(db, pl, p, j),
{
    let rel = db[j].relations;
    if deps_ready(db, marks, j) {
        assert forall|g: int| 0 <= g < rel.deps@.len() && rel.deps@[g]@.len() > 0 implies exists|m: int|
            0 <= m < rel.deps@[g]@.len() && locate(db, #[trigger] rel.deps@[g]@[m].value@) is Some
                && placed_before(pl, p, locate(db, rel.deps@[g]@[m].value@)->Some_0) by {
            assert(group_met(db, marks, rel.deps@[g]@));
            let m = choose|m: int|
                0 <= m < rel.deps@[g]@.len() && has_seen(db, marks, #[trigger] rel.deps@[g]@[m].value@);
            assert(placed_before(pl, p, locate(db, rel.deps@[g]@[m].value@)->Some_0));
        }
    }
    if ready_before(db, pl, p, j) {
        assert forall|g: int| 0 <= g < rel.deps@.len() implies group_met(
            db,
            marks,
            #[trigger] rel.deps@[g]@,
        ) by {
            if rel.deps@[g]@.len() > 0 {
                let m = choose|m: int|
                    0 <= m < rel.deps@[g]@.len() && locate(db, #[trigger] rel.deps@[g]@[m].value@)
                        is Some && placed_before(
                        pl,
                        p,
                        locate(db, rel.deps@[g]@[m].value@)->Some_0,
                    );
                let id = rel.deps@[g]@[m].value@;
                lemma_index_of(entry_ids(db), id);
                assert(has_seen(db, marks, id));
            }
        }
    }
}

/// Placement facts about the first `p` positions do not change when the order grows
proof fn lemma_prefix_stable(db: Seq<PackageEntry>, pl: Seq<usize>, pl2: Seq<usize>, p: int)
    requires
        0 <= p <= pl.len() <= pl2.len(),
        forall|q: int| 0 <= q < pl.len() ==> pl2[q] == pl[q],
    ensures
        forall|x: int| placed_before(pl2, p, x) == placed_before(pl, p, x),
        forall|j: int| ready_before(db, pl2, p, j) == ready_before(db, pl, p, j),
{
    assert forall|x: int| placed_before(pl2, p, x) == placed_before(pl, p, x) by {
        if placed_before(pl2, p, x) {
            let q = choose|q: int| 0 <= q < p && pl2[q] as int == x;
            assert(pl[q] as int == x);
        }
        if placed_before(pl, p, x) {
            let q = choose|q: int| 0 <= q < p && pl[q] as int == x;
            assert(pl2[q] as int == x);
        }
    }
}

/// Orders the found packages so that dependencies come first, trying them in discovery order
fn order_plan(
    f: &Frontier,
    db: &Vec<PackageEntry>,
    Ghost(requests): Ghost<Seq<String>>,
    with_recs: bool,
) -> (r: Result<Vec<usize>, ResolveError>)
    requires
        f.inv(db@, requests, with_recs, f.order@.len() as int),
        forall|k: int, c: int|
            0 <= k < f.order@.len() && 0 <= c < db@[f.order@[k] as int].relations.conflicts@.len()
                ==> !has_seen(
                db@,
                f.seen@,
                #[trigger] db@[f.order@[k] as int].relations.conflicts@[c]@,
            ),
    ensures
        r matches Ok(pl) ==> forall|p: int| 0 <= p < pl@.len() ==> canonical(db@, #[trigger] pl@[p] as int),
        r matches Ok(pl) ==> forall|pa: int, pz: int| 0 <= pa < pz < pl@.len() ==> pl@[pa] != pl@[pz],
        r matches Ok(pl) ==> forall|p: int| 0 <= p < pl@.len() ==> f.seen@[#[trigger] pl@[p] as int],
        r matches Ok(pl) ==> forall|j: int|
            0 <= j < db@.len() && #[trigger] f.seen@[j] ==> exists|p: int| 0 <= p < pl@.len() && pl@[p] == j,
        r matches Ok(pl) ==> deps_before(db@, pl@),
        r matches Ok(pl) ==> pl@.len() == f.order@.len(),
        r matches Ok(pl) ==> forall|p: int| 0 <= p < pl@.len() ==> #[trigger] picked_first(
            db@,
            f.order@,
            pl@,
            p,
        ),
        r matches Err(e) ==> e matches ResolveError::Cycle(id) && dependency_cycle(db@, requests, id@),
{
    let n = f.order.len();
    let mut placed = unmarked(db.len());
    let mut pl: Vec<usize> = Vec::new();
    while pl.len() < n
        invariant
            f.inv(db@, requests, with_recs, f.order@.len() as int),
            forall|k: int, c: int|
                0 <= k < f.order@.len() && 0 <= c < db@[f.order@[k] as int].relations.conflicts@.len()
                    ==> !has_seen(
                    db@,
                    f.seen@,
                    #[trigger] db@[f.order@[k] as int].relations.conflicts@[c]@,
                ),
            n == f.order@.len(),
            placed@.len() == db@.len(),
            pl@.len() + count_free(placed@) == db@.len(),
            grows(placed@, f.seen@),
            forall|p: int| 0 <= p < pl@.len() ==> canonical(db@, #[trigger] pl@[p] as int),
            forall|p: int| 0 <= p < pl@.len() ==> placed@[#[trigger] pl@[p] as int],
            forall|j: int|
                0 <= j < db@.len() && #[trigger] placed@[j] ==> exists|p: int|
                    0 <= p < pl@.len() && pl@[p] == j,
            forall|pa: int, pz: int| 0 <= pa < pz < pl@.len() ==> pl@[pa] != pl@[pz],
            deps_before(db@, pl@),
            forall|p: int| 0 <= p < pl@.len() ==> #[trigger] picked_first(db@, f.order@, pl@, p),
        decreases n - pl@.len(),
    {
        proof {
            lemma_grows_count(placed@, f.seen@);
        }
        let mut k: usize = 0;
        let mut pick: Option<usize> = None;
        let mut stuck_first: Option<usize> = None;
        let ghost mut pick_k: int = 0;
        while k < n && pick.is_none()
            invariant
                n == f.order@.len(),
                pick is Some ==> 0 <= pick_k < n && f.order@[pick_k] == pick->Some_0 && forall|k2: int|
                    0 <= k2 < pick_k ==> placed@[#[trigger] f.order@[k2] as int] || !deps_ready(
                        db@,
                        placed@,
                        f.order@[k2] as int,
                    ),
                placed@.len() == db@.len(),
                f.wf(db@),
                k <= n,
                match pick {
                    Some(j) => j < db@.len() && !placed@[j as int] && f.seen@[j as int] && canonical(
                        db@,
                        j as int,
                    ) && forall|g: int|
                        0 <= g < db@[j as int].relations.deps@.len() ==> group_met(
                            db@,
                            placed@,
                            #[trigger] db@[j as int].relations.deps@[g]@,
                        ),
                    None => forall|k2: int|
                        0 <= k2 < k ==> placed@[f.order@[k2] as int] || !(forall|g: int|
                            0 <= g < db@[f.order@[k2] as int].relations.deps@.len() ==> group_met(
                                db@,
                                placed@,
                                #[trigger] db@[f.order@[k2] as int].relations.deps@[g]@,
                            )),
                },
                match stuck_first {
                    Some(j) => j < db@.len() && !placed@[j as int] && f.seen@[j as int] && canonical(
                        db@,
                        j as int,
                    ),
                    None => forall|k2: int| 0 <= k2 < k ==> placed@[#[trigger] f.order@[k2] as int],
                },
            decreases n - k,
        {
            let j = f.order[k];
            if !placed[j] {
                if stuck_first.is_none() {
                    stuck_first = Some(j);
                }
                if deps_met(db, &db[j].relations, &placed) {
                    pick = Some(j);
                    proof {
                        pick_k = k as int;
                        assert forall|k2: int| 0 <= k2 < pick_k implies placed@[#[trigger] f.order@[
                            k2
                        ] as int] || !deps_ready(db@, placed@, f.order@[k2] as int) by {}
                    }
                }
            }
            k = k + 1;
        }
        match pick {
            None => {
                let ghost seen = f.seen@;
                let ghost reached = Set::new(|s: Seq<char>| has_seen(db@, seen, s));
                let ghost stuck = Set::new(
                    |s: Seq<char>| has_seen(db@, seen, s) && !has_seen(db@, placed@, s),
                );
                proof {
                    lemma_stuck_is_cycle(*f, db@, requests, with_recs, placed@, reached, stuck);
                }
                match stuck_first {
                    Some(j) => {
                        proof {
                            assert(stuck.contains(db@[j as int].id@));
                        }
                        return Err(ResolveError::Cycle(db[j].id.clone()));
                    },
                    None => {
                        proof {
                            assert forall|jj: int| 0 <= jj < db@.len() && #[trigger] f.seen@[jj] implies placed@[jj] by {
                                let k2 = choose|k2: int| 0 <= k2 < f.order@.len() && f.order@[k2] == jj;
                                assert(placed@[f.order@[k2] as int]);
                            }
                            assert(placed@ =~= f.seen@);
                        }
                        return Err(ResolveError::Cycle(db[f.order[0]].id.clone()));
                    },
                }
            },
            Some(j) => {
                let ghost pb = placed@;
                let ghost plb = pl@;
                proof {
                    lemma_take_free(placed@, j as int);
                }
                pl.push(j);
                placed.set(j, true);
                proof {
                    let q = plb.len() as int;
                    lemma_prefix_stable(db@, plb, pl@, q);
                    assert forall|p: int| 0 <= p < pl@.len() implies #[trigger] picked_first(
                        db@,
                        f.order@,
                        pl@,
                        p,
                    ) by {
                        lemma_prefix_stable(db@, plb, pl@, p);
                        if p < q {
                            assert(picked_first(db@, f.order@, plb, p));
                            let kp = choose|kp: int|
                                0 <= kp < f.order@.len() && f.order@[kp] == plb[p]
                                    && #[trigger] earlier_blocked(db@, f.order@, plb, p, kp);
                            assert(earlier_blocked(db@, f.order@, pl@, p, kp));
                        } else {
                            assert forall|x: int| 0 <= x < db@.len() implies (pb[x] <==> placed_before(
                                plb,
                                q,
                                x,
                            )) by {
                                if pb[x] {
                                    let pp = choose|pp: int| 0 <= pp < plb.len() && plb[pp] == x;
                                }
                            }
                            assert forall|k2: int| 0 <= k2 < pick_k implies placed_before(
                                pl@,
                                p,
                                #[trigger] f.order@[k2] as int,
                            ) || !ready_before(db@, pl@, p, f.order@[k2] as int) by {
                                lemma_ready_iff(db@, pb, plb, q, f.order@[k2] as int);
                            }
                            assert(earlier_blocked(db@, f.order@, pl@, p, pick_k));
                        }
                    }
                    assert forall|jj: int| 0 <= jj < db@.len() && #[trigger] placed@[jj] implies exists|
                        p: int,
                    |
                        0 <= p < pl@.len() && pl@[p] == jj by {
                        if jj == j {
                            assert(pl@[q] == jj);
                        } else {
                            assert(pb[jj]);
                            let p = choose|p: int| 0 <= p < plb.len() && plb[p] == jj;
                            assert(pl@[p] == jj);
                        }
                    }
                    assert forall|pa: int, pz: int| 0 <= pa < pz < pl@.len() implies pl@[pa]
                        != pl@[pz] by {
                        if pz == q {
                            assert(pb[plb[pa] as int]);
                        }
                    }
                    assert forall|p: int, g: int|
                        0 <= p < pl@.len() && 0 <= g < db@[pl@[p] as int].relations.deps@.len()
                            && db@[pl@[p] as int].relations.deps@[g]@.len() > 0 implies exists|
                            m: int,
                            pz: int,
                        |
                            0 <= m < db@[pl@[p] as int].relations.deps@[g]@.len() && 0 <= pz < p
                                && locate(
                                db@,
                                #[trigger] db@[pl@[p] as int].relations.deps@[g]@[m].value@,
                            ) == Some(#[trigger] pl@[pz] as int) by {
                        if p < q {
                            assert(pl@[p] == plb[p]);
                            let (m, pz) = choose|m: int, pz: int|
                                0 <= m < db@[plb[p] as int].relations.deps@[g]@.len() && 0 <= pz < p
                                    && locate(
                                    db@,
                                    #[trigger] db@[plb[p] as int].relations.deps@[g]@[m].value@,
                                ) == Some(#[trigger] plb[pz] as int);
                            assert(pl@[pz] == plb[pz]);
                        } else {
                            let grp = db@[j as int].relations.deps@[g]@;
                            assert(group_met(db@, pb, grp));
                            let m = choose|m: int|
                                0 <= m < grp.len() && has_seen(db@, pb, #[trigger] grp[m].value@);
                            let jj = locate(db@, grp[m].value@)->Some_0;
                            assert(pb[jj]);
                            let pz = choose|pz: int| 0 <= pz < plb.len() && plb[pz] == jj;
                            assert(pl@[pz] == plb[pz]);
                        }
                    }
                }
            },
        }
    }
    proof {
        lemma_grows_count(placed@, f.seen@);
        assert(count_free(placed@) == count_free(f.seen@));
        assert(placed@ == f.seen@);
        assert forall|p: int| 0 <= p < pl@.len() implies f.seen@[#[trigger] pl@[p] as int] by {
            assert(placed@[pl@[p] as int]);
        }
        assert forall|j: int| 0 <= j < db@.len() && #[trigger] f.seen@[j] implies exists|p: int|
            0 <= p < pl@.len() && pl@[p] == j by {
            assert(placed@[j]);
        }
        assert(deps_before(db@, pl@));
        assert(forall|p: int| 0 <= p < pl@.len() ==> canonical(db@, #[trigger] pl@[p] as int));
        assert(forall|pa: int, pz: int| 0 <= pa < pz < pl@.len() ==> pl@[pa] != pl@[pz]);
    }
    let r: Result<Vec<usize>, ResolveError> = Ok(pl);
    assert(r matches Ok(pl2) && pl2@ == pl@);
    r
}

/// Whether an error reports two found packages of which the first declares a conflict with
/// the second
pub open spec fn conflict_between(db: Seq<PackageEntry>, e: ResolveError) -> bool {
    match e {
        ResolveError::Conflict(a, b) => locate(db, a@) matches Some(j) && list_contains(
            ids_of(db[j].relations.conflicts@),
            b@,
        ) && locate(db, b@) is Some,
        _ => false,
    }
}

/// Checks that no found package declares a conflict with another found package
fn check_conflicts(f: &Frontier, db: &Vec<PackageEntry>) -> (r: Result<(), ResolveError>)
    requires
        f.wf(db@),
    ensures
        r is Ok ==> forall|k: int, c: int|
            0 <= k < f.order@.len() && 0 <= c < db@[f.order@[k] as int].relations.conflicts@.len()
                ==> !has_seen(
                db@,
                f.seen@,
                #[trigger] db@[f.order@[k] as int].relations.conflicts@[c]@,
            ),
        r matches Err(e) ==> conflict_between(db@, e) && (e matches ResolveError::Conflict(a, b)
            && has_seen(db@, f.seen@, a@) && has_seen(db@, f.seen@, b@)),
{
    let mut k: usize = 0;
    while k < f.order.len()
        invariant
            f.wf(db@),
            k <= f.order@.len(),
            forall|k2: int, c: int|
                0 <= k2 < k && 0 <= c < db@[f.order@[k2] as int].relations.conflicts@.len() ==> !has_seen(
                    db@,
                    f.seen@,
                    #[trigger] db@[f.order@[k2] as int].relations.conflicts@[c]@,
                ),
        decreases f.order@.len() - k,
    {
        let j = f.order[k];
        let conflicts = &db[j].relations.conflicts;
        let mut c: usize = 0;
        while c < conflicts.len()
            invariant
                f.wf(db@),
                k < f.order@.len(),
                j == f.order@[k as int],
                *conflicts == db@[j as int].relations.conflicts,
                c <= conflicts@.len(),
                forall|k2: int, c2: int|
                    0 <= k2 < k && 0 <= c2 < db@[f.order@[k2] as int].relations.conflicts@.len()
                        ==> !has_seen(
                        db@,
                        f.seen@,
                        #[trigger] db@[f.order@[k2] as int].relations.conflicts@[c2]@,
                    ),
                forall|c2: int| 0 <= c2 < c ==> !has_seen(db@, f.seen@, #[trigger] conflicts@[c2]@),
            decreases conflicts@.len() - c,
        {
            if let Some(other) = find_entry(db, conflicts[c].as_str()) {
                if f.seen[other] {
                    assert(ids_of(conflicts@)[c as int] == conflicts@[c as int]@);
                    assert(canonical(db@, j as int));
                    assert(f.seen@[j as int]);
                    return Err(ResolveError::Conflict(db[j].id.clone(), conflicts[c].clone()));
                }
            }
            c = c + 1;
        }
        k = k + 1;
    }
    Ok(())
}

/// Whether a package id is in a plan
pub open spec fn in_plan(plan: Seq<ResolvedPackage>, id: Seq<char>) -> bool {
    exists|p: int| 0 <= p < plan.len() && #[trigger] plan[p].id@ == id
}

/// The relations of the entry that a package id selects
pub open spec fn relations_of(db: Seq<PackageEntry>, id: Seq<char>) -> RelationsResult {
    db[locate(db, id)->Some_0].relations
}

/// Whether a package id is in a plan, marked explicit
pub open spec fn explicit_in_plan(plan: Seq<ResolvedPackage>, id: Seq<char>) -> bool {
    exists|p: int| 0 <= p < plan.len() && #[trigger] plan[p].id@ == id && plan[p].explicit
}

/// Every request is in the plan, marked explicit, and exactly the requested packages are
pub open spec fn plan_explicit(requests: Seq<String>, plan: Seq<ResolvedPackage>) -> bool {
    &&& forall|t: int| 0 <= t < requests.len() ==> explicit_in_plan(plan, #[trigger] requests[t]@)
    &&& forall|p: int|
        0 <= p < plan.len() ==> #[trigger] plan[p].explicit == requested(requests, plan[p].id@)
}

/// Every package of the plan is offered, and none appears twice
pub open spec fn plan_known(db: Seq<PackageEntry>, plan: Seq<ResolvedPackage>) -> bool {
    &&& forall|p: int| 0 <= p < plan.len() ==> locate(db, #[trigger] plan[p].id@) is Some
    &&& forall|pa: int, pz: int|
        0 <= pa < pz < plan.len() ==> #[trigger] plan[pa].id@ != #[trigger] plan[pz].id@
}

/// Every dependency group of a package of the plan has a member earlier in the plan
pub open spec fn plan_ordered(db: Seq<PackageEntry>, plan: Seq<ResolvedPackage>) -> bool {
    forall|p: int, g: int|
        0 <= p < plan.len() && 0 <= g < relations_of(db, plan[p].id@).deps@.len() && relations_of(
            db,
            plan[p].id@,
        ).deps@[g]@.len() > 0 ==> exists|m: int, pz: int|
            0 <= m < relations_of(db, plan[p].id@).deps@[g]@.len() && 0 <= pz < p && #[trigger] plan[pz].id@
                == #[trigger] relations_of(db, plan[p].id@).deps@[g]@[m].value@
}

/// The bundled packages and extensions of every package of the plan are in the plan, and so
/// are its recommendations that are offered, when recommendations are followed
pub open spec fn plan_complete(db: Seq<PackageEntry>, plan: Seq<ResolvedPackage>, with_recs: bool) -> bool {
    &&& forall|p: int, b: int|
        0 <= p < plan.len() && 0 <= b < relations_of(db, plan[p].id@).bundled@.len() ==> in_plan(
            plan,
            #[trigger] relations_of(db, plan[p].id@).bundled@[b]@,
        )
    &&& forall|p: int, x: int|
        0 <= p < plan.len() && 0 <= x < relations_of(db, plan[p].id@).extensions@.len() ==> in_plan(
            plan,
            #[trigger] relations_of(db, plan[p].id@).extensions@[x]@,
        )
    &&& with_recs ==> forall|p: int, m: int|
        0 <= p < plan.len() && 0 <= m < relations_of(db, plan[p].id@).recommendations@.len()
            && !relations_of(db, plan[p].id@).recommendations@[m].invert && locate(
            db,
            #[trigger] relations_of(db, plan[p].id@).recommendations@[m].value@,
        ) is Some ==> in_plan(plan, relations_of(db, plan[p].id@).recommendations@[m].value@)
}

/// No package of the plan declares a conflict with a package of the plan
pub open spec fn plan_conflict_free(db: Seq<PackageEntry>, plan: Seq<ResolvedPackage>) -> bool {
    forall|p: int, c: int|
        0 <= p < plan.len() && 0 <= c < relations_of(db, plan[p].id@).conflicts@.len() ==> !in_plan(
            plan,
            #[trigger] relations_of(db, plan[p].id@).conflicts@[c]@,
        )
}

/// Every package of the plan that the user did not request is brought along by a package of
/// the plan
pub open spec fn plan_justified(db: Seq<PackageEntry>, plan: Seq<ResolvedPackage>, with_recs: bool) -> bool {
    forall|p: int|
        0 <= p < plan.len() && !#[trigger] plan[p].explicit ==> exists|pz: int|
            0 <= pz < plan.len() && declares(relations_of(db, plan[pz].id@), plan[p].id@, with_recs)
}

/// Everything that a successful resolution guarantees of its plan
pub open spec fn valid_plan(
    db: Seq<PackageEntry>,
    requests: Seq<String>,
    with_recs: bool,
    plan: Seq<ResolvedPackage>,
) -> bool {
    &&& plan_explicit(requests, plan)
    &&& plan_known(db, plan)
    &&& plan_ordered(db, plan)
    &&& plan_complete(db, plan, with_recs)
    &&& plan_conflict_free(db, plan)
    &&& plan_justified(db, plan, with_recs)
}

/// Whether every package of the sequence is offered, and is requested or brought along by an
/// earlier package of the sequence
pub open spec fn reach_seq(
    db: Seq<PackageEntry>,
    requests: Seq<String>,
    with_recs: bool,
    disc: Seq<Seq<char>>,
) -> bool {
    forall|k: int|
        0 <= k < disc.len() ==> locate(db, #[trigger] disc[k]) is Some && (requested(
            requests,
            disc[k],
        ) || exists|k2: int|
            0 <= k2 < k && #[trigger] declares(relations_of(db, disc[k2]), disc[k], with_recs))
}

/// Whether the resolution of the requests reaches the package: it is requested, or brought
/// along, step by step, from a requested package
pub open spec fn reachable(
    db: Seq<PackageEntry>,
    requests: Seq<String>,
    with_recs: bool,
    id: Seq<char>,
) -> bool {
    exists|disc: Seq<Seq<char>>| #[trigger] reach_seq(db, requests, with_recs, disc) && disc.contains(id)
}

/// Every package that the frontier has found is reached from the requests
proof fn lemma_frontier_reach(
    f: Frontier,
    db: Seq<PackageEntry>,
    requests: Seq<String>,
    with_recs: bool,
    i: int,
    id: Seq<char>,
)
    requires
        f.inv(db, requests, with_recs, i),
        has_seen(db, f.seen@, id),
    ensures
        reachable(db, requests, with_recs, id),
{
    let order = f.order@;
    let disc = order.map_values(|j: usize| db[j as int].id@);
    assert forall|k: int| 0 <= k < disc.len() implies locate(db, #[trigger] disc[k]) is Some && (
    requested(requests, disc[k]) || exists|k2: int|
        0 <= k2 < k && #[trigger] declares(relations_of(db, disc[k2]), disc[k], with_recs)) by {
        assert(canonical(db, order[k] as int));
        if !f.explicit@[k] {
            let k2 = choose|k2: int|
                0 <= k2 < k && declares(
                    db[order[k2] as int].relations,
                    db[order[k] as int].id@,
                    with_recs,
                );
            assert(canonical(db, order[k2] as int));
            assert(relations_of(db, disc[k2]) == db[order[k2] as int].relations);
        }
    }
    let j = locate(db, id)->Some_0;
    let k = choose|k: int| 0 <= k < order.len() && order[k] == j;
    lemma_index_of(entry_ids(db), id);
    assert(entry_ids(db)[j] == db[j].id@);
    assert(disc[k] == id);
    assert(reach_seq(db, requests, with_recs, disc));
}

/// A requested, offered package is reached
proof fn lemma_requested_reach(
    db: Seq<PackageEntry>,
    requests: Seq<String>,
    with_recs: bool,
    id: Seq<char>,
)
    requires
        requested(requests, id),
        locate(db, id) is Some,
    ensures
        reachable(db, requests, with_recs, id),
{
    let disc = seq![id];
    assert(disc[0] == id);
    assert(reach_seq(db, requests, with_recs, disc));
}

/// Whether a requested package declares a conflict with another requested package
pub open spec fn request_conflict(db: Seq<PackageEntry>, requests: Seq<String>) -> bool {
    exists|t: int, c: int|
        0 <= t < requests.len() && 0 <= c < relations_of(db, requests[t]@).conflicts@.len()
            && requested(requests, #[trigger] relations_of(db, requests[t]@).conflicts@[c]@)
}

/// Checks that no requested package declares a conflict with another requested package
fn check_request_conflicts(db: &Vec<PackageEntry>, requests: &Vec<String>) -> (r: Result<
    (),
    ResolveError,
>)
    requires
        forall|t: int| 0 <= t < requests@.len() ==> locate(db@, #[trigger] requests@[t]@) is Some,
    ensures
        r is Ok <==> !request_conflict(db@, requests@),
        r matches Err(e) ==> conflict_between(db@, e) && (e matches ResolveError::Conflict(a, b)
            && requested(requests@, a@) && requested(requests@, b@)),
{
    let mut t: usize = 0;
    while t < requests.len()
        invariant
            t <= requests@.len(),
            forall|u: int| 0 <= u < requests@.len() ==> locate(db@, #[trigger] requests@[u]@) is Some,
            forall|u: int, c: int|
                0 <= u < t && 0 <= c < relations_of(db@, requests@[u]@).conflicts@.len()
                    ==> !requested(requests@, #[trigger] relations_of(db@, requests@[u]@).conflicts@[c]@),
        decreases requests@.len() - t,
    {
        let j = match find_entry(db, requests[t].as_str()) {
            Some(j) => j,
            None => {
                return Ok(());
            },
        };
        assert(relations_of(db@, requests@[t as int]@) == db@[j as int].relations);
        let conflicts = &db[j].relations.conflicts;
        let mut c: usize = 0;
        while c < conflicts.len()
            invariant
                t < requests@.len(),
                forall|u: int| 0 <= u < requests@.len() ==> locate(db@, #[trigger] requests@[u]@) is Some,
                *conflicts == relations_of(db@, requests@[t as int]@).conflicts,
                locate(db@, requests@[t as int]@) == Some(j as int),
                c <= conflicts@.len(),
                forall|c2: int| 0 <= c2 < c ==> !requested(requests@, #[trigger] conflicts@[c2]@),
            decreases conflicts@.len() - c,
        {
            if is_requested(requests, conflicts[c].as_str()) {
                let e = ResolveError::Conflict(requests[t].clone(), conflicts[c].clone());
                proof {
                    assert(ids_of(requests@)[t as int] == requests@[t as int]@);
                    assert(ids_of(conflicts@)[c as int] == conflicts@[c as int]@);
                    assert(request_conflict(db@, requests@)) by {
                        assert(requested(requests@, relations_of(db@, requests@[t as int]@).conflicts@[c as int]@));
                    }
                    let u = choose|u: int| 0 <= u < ids_of(requests@).len() && ids_of(requests@)[u] == conflicts@[c as int]@;
                    assert(locate(db@, requests@[u]@) is Some);
                }
                return Err(e);
            }
            c = c + 1;
        }
        t = t + 1;
    }
    Ok(())
}

/// What a failed resolution reports
pub open spec fn resolve_failure(
    db: Seq<PackageEntry>,
    requests: Seq<String>,
    with_recs: bool,
    e: ResolveError,
) -> bool {
    match e {
        ResolveError::DuplicateRequest(id) => duplicated(requests, id@),
        ResolveError::Unresolved { id, requester } => locate(db, id@) is None && match requester {
            None => requested(requests, id@),
            Some(rq) => (locate(db, rq@) matches Some(j) && declares(
                db[j].relations,
                id@,
                with_recs,
            )) && reachable(db, requests, with_recs, rq@),
        },
        ResolveError::Conflict(a, b) => conflict_between(db, e) && reachable(
            db,
            requests,
            with_recs,
            a@,
        ) && reachable(db, requests, with_recs, b@),
        ResolveError::Cycle(id) => dependency_cycle(db, requests, id@),
    }
}

/// A package id whose selected entry is marked is in a plan that lists every marked entry
proof fn lemma_seen_in_plan(
    db: Seq<PackageEntry>,
    seen: Seq<bool>,
    pl: Seq<usize>,
    plan: Seq<ResolvedPackage>,
    id: Seq<char>,
)
    requires
        has_seen(db, seen, id),
        seen.len() == db.len(),
        forall|j: int| 0 <= j < db.len() && #[trigger] seen[j] ==> exists|p: int|
            0 <= p < pl.len() && pl[p] == j,
        plan.len() == pl.len(),
        forall|p: int| 0 <= p < pl.len() ==> (#[trigger] plan[p]).id@ == db[pl[p] as int].id@,
    ensures
        in_plan(plan, id),
{
    lemma_index_of(entry_ids(db), id);
    let j = locate(db, id)->Some_0;
    let p = choose|p: int| 0 <= p < pl.len() && pl[p] == j;
    assert(entry_ids(db)[j] == db[j].id@);
    assert(plan[p].id@ == id);
}

/// The facts that the phases of a resolution establish make a valid plan
proof fn lemma_plan_valid(
    db: Seq<PackageEntry>,
    requests: Seq<String>,
    with_recs: bool,
    f: Frontier,
    pl: Seq<usize>,
    plan: Seq<ResolvedPackage>,
)
    requires
        f.inv(db, requests, with_recs, f.order@.len() as int),
        forall|k: int, c: int|
            0 <= k < f.order@.len() && 0 <= c < db[f.order@[k] as int].relations.conflicts@.len()
                ==> !has_seen(db, f.seen@, #[trigger] db[f.order@[k] as int].relations.conflicts@[c]@),
        forall|p: int| 0 <= p < pl.len() ==> canonical(db, #[trigger] pl[p] as int),
        forall|pa: int, pz: int| 0 <= pa < pz < pl.len() ==> pl[pa] != pl[pz],
        forall|p: int| 0 <= p < pl.len() ==> f.seen@[#[trigger] pl[p] as int],
        forall|j: int| 0 <= j < db.len() && #[trigger] f.seen@[j] ==> exists|p: int|
            0 <= p < pl.len() && pl[p] == j,
        deps_before(db, pl),
        plan.len() == pl.len(),
        forall|p: int|
            0 <= p < pl.len() ==> (#[trigger] plan[p]).id@ == db[pl[p] as int].id@
                && plan[p].explicit == requested(requests, plan[p].id@),
    ensures
        valid_plan(db, requests, with_recs, plan),
{
    let seen = f.seen@;
    assert forall|p: int| 0 <= p < plan.len() implies locate(db, #[trigger] plan[p].id@) == Some(
        pl[p] as int,
    ) && relations_of(db, plan[p].id@) == db[pl[p] as int].relations by {
        assert(canonical(db, pl[p] as int));
    }
    // In the plan exactly when marked
    assert forall|id: Seq<char>| #[trigger] in_plan(plan, id) implies has_seen(db, seen, id) by {
        let p = choose|p: int| 0 <= p < plan.len() && #[trigger] plan[p].id@ == id;
        assert(locate(db, plan[p].id@) == Some(pl[p] as int));
    }
    assert forall|id: Seq<char>| has_seen(db, seen, id) implies #[trigger] in_plan(plan, id) by {
        lemma_seen_in_plan(db, seen, pl, plan, id);
    }
    // Explicit
    assert forall|t: int| 0 <= t < requests.len() implies explicit_in_plan(
        plan,
        #[trigger] requests[t]@,
    ) by {
        assert(has_seen(db, seen, requests[t]@));
        assert(in_plan(plan, requests[t]@));
        let p = choose|p: int| 0 <= p < plan.len() && #[trigger] plan[p].id@ == requests[t]@;
        assert(ids_of(requests)[t] == requests[t]@);
    }
    // Known and distinct
    assert forall|pa: int, pz: int| 0 <= pa < pz < plan.len() implies #[trigger] plan[pa].id@
        != #[trigger] plan[pz].id@ by {
        assert(locate(db, plan[pa].id@) == Some(pl[pa] as int));
        assert(locate(db, plan[pz].id@) == Some(pl[pz] as int));
    }
    // Ordered
    assert forall|p: int, g: int|
        0 <= p < plan.len() && 0 <= g < relations_of(db, plan[p].id@).deps@.len() && relations_of(
            db,
            plan[p].id@,
        ).deps@[g]@.len() > 0 implies exists|m: int, pz: int|
        0 <= m < relations_of(db, plan[p].id@).deps@[g]@.len() && 0 <= pz < p && #[trigger] plan[pz].id@
            == #[trigger] relations_of(db, plan[p].id@).deps@[g]@[m].value@ by {
        let rel = db[pl[p] as int].relations;
        assert(relations_of(db, plan[p].id@) == rel);
        let (m, pz) = choose|m: int, pz: int|
            0 <= m < db[pl[p] as int].relations.deps@[g]@.len() && 0 <= pz < p && locate(
                db,
                #[trigger] db[pl[p] as int].relations.deps@[g]@[m].value@,
            ) == Some(#[trigger] pl[pz] as int);
        let id = rel.deps@[g]@[m].value@;
        lemma_index_of(entry_ids(db), id);
        assert(entry_ids(db)[pl[pz] as int] == db[pl[pz] as int].id@);
        assert(plan[pz].id@ == id);
    }
    // Complete and conflict free, from the closure of every found package
    assert forall|p: int| 0 <= p < plan.len() implies closed(
        db,
        seen,
        #[trigger] relations_of(db, plan[p].id@),
        with_recs,
    ) && forall|c: int|
        0 <= c < relations_of(db, plan[p].id@).conflicts@.len() ==> !has_seen(
            db,
            seen,
            #[trigger] relations_of(db, plan[p].id@).conflicts@[c]@,
        ) by {
        let j = pl[p];
        assert(seen[j as int]);
        let k = choose|k: int| 0 <= k < f.order@.len() && f.order@[k] == j;
        assert(closed(db, seen, db[f.order@[k] as int].relations, with_recs));
        assert forall|c: int|
            0 <= c < relations_of(db, plan[p].id@).conflicts@.len() implies !has_seen(
            db,
            seen,
            #[trigger] relations_of(db, plan[p].id@).conflicts@[c]@,
        ) by {
            assert(!has_seen(db, seen, db[f.order@[k] as int].relations.conflicts@[c]@));
        }
    }
    assert forall|p: int, b: int|
        0 <= p < plan.len() && 0 <= b < relations_of(db, plan[p].id@).bundled@.len() implies in_plan(
        plan,
        #[trigger] relations_of(db, plan[p].id@).bundled@[b]@,
    ) by {
        assert(closed(db, seen, relations_of(db, plan[p].id@), with_recs));
        assert(has_seen(db, seen, relations_of(db, plan[p].id@).bundled@[b]@));
    }
    assert forall|p: int, x: int|
        0 <= p < plan.len() && 0 <= x < relations_of(db, plan[p].id@).extensions@.len() implies in_plan(
        plan,
        #[trigger] relations_of(db, plan[p].id@).extensions@[x]@,
    ) by {
        assert(closed(db, seen, relations_of(db, plan[p].id@), with_recs));
        assert(has_seen(db, seen, relations_of(db, plan[p].id@).extensions@[x]@));
    }
    if with_recs {
        assert forall|p: int, m: int|
            0 <= p < plan.len() && 0 <= m < relations_of(db, plan[p].id@).recommendations@.len()
                && !relations_of(db, plan[p].id@).recommendations@[m].invert && locate(
                db,
                #[trigger] relations_of(db, plan[p].id@).recommendations@[m].value@,
            ) is Some implies in_plan(plan, relations_of(db, plan[p].id@).recommendations@[m].value@) by {
            assert(closed(db, seen, relations_of(db, plan[p].id@), with_recs));
            assert(has_seen(db, seen, relations_of(db, plan[p].id@).recommendations@[m].value@));
        }
    }
    assert forall|p: int, c: int|
        0 <= p < plan.len() && 0 <= c < relations_of(db, plan[p].id@).conflicts@.len() implies !in_plan(
        plan,
        #[trigger] relations_of(db, plan[p].id@).conflicts@[c]@,
    ) by {
        assert(!has_seen(db, seen, relations_of(db, plan[p].id@).conflicts@[c]@));
    }
    // Justified
    assert forall|p: int| 0 <= p < plan.len() && !#[trigger] plan[p].explicit implies exists|pz: int|
        0 <= pz < plan.len() && declares(relations_of(db, plan[pz].id@), plan[p].id@, with_recs) by {
        let j = pl[p];
        let k = choose|k: int| 0 <= k < f.order@.len() && f.order@[k] == j;
        assert(!f.explicit@[k]);
        let k2 = choose|k2: int|
            0 <= k2 < k && declares(
                db[f.order@[k2] as int].relations,
                db[f.order@[k] as int].id@,
                with_recs,
            );
        let j2 = f.order@[k2];
        assert(seen[j2 as int]);
        let pz = choose|pz: int| 0 <= pz < pl.len() && pl[pz] == j2;
        assert(relations_of(db, plan[pz].id@) == db[j2 as int].relations);
    }
    assert forall|p: int| 0 <= p < plan.len() implies #[trigger] plan[p].explicit == requested(
        requests,
        plan[p].id@,
    ) by {
        assert(plan[p].explicit == requested(requests, plan[p].id@));
    }
    assert(plan_explicit(requests, plan));
    assert(plan_known(db, plan));
    assert(plan_ordered(db, plan));
    assert(plan_complete(db, plan, with_recs));
    assert(plan_conflict_free(db, plan));
    assert(plan_justified(db, plan, with_recs));
}
/// Whether every dependency group of the package has a member among the first `p` packages of
/// the plan
pub open spec fn ids_ready(db: Seq<PackageEntry>, plan: Seq<ResolvedPackage>, p: int, id: Seq<char>) -> bool {
    forall|g: int|
        0 <= g < relations_of(db, id).deps@.len() && relations_of(db, id).deps@[g]@.len() > 0
            ==> exists|m: int, q: int|
            0 <= m < relations_of(db, id).deps@[g]@.len() && 0 <= q < p && #[trigger] plan[q].id@
                == #[trigger] relations_of(db, id).deps@[g]@[m].value@
}

/// Every package before position `kp` of the discovery order was already among the first `p`
/// packages of the plan, or was not ready there
pub open spec fn ids_blocked(
    db: Seq<PackageEntry>,
    disc: Seq<Seq<char>>,
    plan: Seq<ResolvedPackage>,
    p: int,
    kp: int,
) -> bool {
    forall|k2: int|
        0 <= k2 < kp ==> (exists|q: int| 0 <= q < p && plan[q].id@ == #[trigger] disc[k2])
            || !ids_ready(db, plan, p, disc[k2])
}

/// Whether `disc` is the order in which the resolution discovered the packages of the plan: it
/// starts with the requests, in request order, lists each package of the plan, and each plan
/// position holds the first package in that order that was not placed yet and was ready
pub open spec fn discovery_order(
    db: Seq<PackageEntry>,
    requests: Seq<String>,
    plan: Seq<ResolvedPackage>,
    disc: Seq<Seq<char>>,
) -> bool {
    &&& disc.len() == plan.len()
    &&& requests.len() <= disc.len()
    &&& forall|t: int| 0 <= t < requests.len() ==> disc[t] == #[trigger] requests[t]@
    &&& forall|k: int| 0 <= k < disc.len() ==> in_plan(plan, #[trigger] disc[k])
    &&& forall|p: int| 0 <= p < plan.len() ==> #[trigger] first_ready(db, disc, plan, p)
}

/// Position `p` of the plan holds the first package in discovery order that was not placed yet
/// and was ready
pub open spec fn first_ready(
    db: Seq<PackageEntry>,
    disc: Seq<Seq<char>>,
    plan: Seq<ResolvedPackage>,
    p: int,
) -> bool {
    exists|kp: int|
        0 <= kp < disc.len() && disc[kp] == plan[p].id@ && #[trigger] ids_blocked(db, disc, plan, p, kp)
}

/// Ties in the install order are broken by discovery order
pub open spec fn plan_tie_break(db: Seq<PackageEntry>, requests: Seq<String>, plan: Seq<ResolvedPackage>) -> bool {
    exists|disc: Seq<Seq<char>>| #[trigger] discovery_order(db, requests, plan, disc)
}

/// The placement order that follows the discovery order gives a plan with the tie-break
proof fn lemma_tie_break(
    db: Seq<PackageEntry>,
    requests: Seq<String>,
    with_recs: bool,
    f: Frontier,
    pl: Seq<usize>,
    plan: Seq<ResolvedPackage>,
)
    requires
        f.wf(db),
        seeded(db, requests, f.order@),
        pl.len() == f.order@.len(),
        forall|p: int| 0 <= p < pl.len() ==> canonical(db, #[trigger] pl[p] as int),
        forall|j: int| 0 <= j < db.len() && #[trigger] f.seen@[j] ==> exists|p: int|
            0 <= p < pl.len() && pl[p] == j,
        forall|p: int| 0 <= p < pl.len() ==> #[trigger] picked_first(db, f.order@, pl, p),
        plan.len() == pl.len(),
        forall|p: int| 0 <= p < pl.len() ==> (#[trigger] plan[p]).id@ == db[pl[p] as int].id@,
    ensures
        plan_tie_break(db, requests, plan),
{
    let order = f.order@;
    let disc = order.map_values(|j: usize| db[j as int].id@);
    assert forall|t: int| 0 <= t < requests.len() implies disc[t] == #[trigger] requests[t]@ by {
        lemma_index_of(entry_ids(db), requests[t]@);
        assert(entry_ids(db)[order[t] as int] == db[order[t] as int].id@);
    }
    assert forall|k: int| 0 <= k < disc.len() implies in_plan(plan, #[trigger] disc[k]) by {
        assert(f.seen@[order[k] as int]);
        let p = choose|p: int| 0 <= p < pl.len() && pl[p] == order[k];
        assert(plan[p].id@ == disc[k]);
    }
    assert forall|p: int| 0 <= p < plan.len() implies #[trigger] first_ready(db, disc, plan, p) by {
        assert(picked_first(db, order, pl, p));
        let kp = choose|kp: int|
            0 <= kp < order.len() && order[kp] == pl[p] && #[trigger] earlier_blocked(db, order, pl, p, kp);
        assert forall|k2: int| 0 <= k2 < kp implies (exists|q: int|
            0 <= q < p && plan[q].id@ == #[trigger] disc[k2]) || !ids_ready(db, plan, p, disc[k2]) by {
            let x = order[k2] as int;
            assert(canonical(db, x));
            if placed_before(pl, p, x) {
                let q = choose|q: int| 0 <= q < p && pl[q] as int == x;
                assert(plan[q].id@ == disc[k2]);
            } else {
                assert(!ready_before(db, pl, p, x));
                if ids_ready(db, plan, p, disc[k2]) {
                    assert(relations_of(db, disc[k2]) == db[x].relations);
                    assert forall|g: int|
                        0 <= g < db[x].relations.deps@.len() && db[x].relations.deps@[g]@.len() > 0 implies exists|
                            m: int,
                        |
                            0 <= m < db[x].relations.deps@[g]@.len() && locate(
                                db,
                                #[trigger] db[x].relations.deps@[g]@[m].value@,
                            ) is Some && placed_before(
                                pl,
                                p,
                                locate(db, db[x].relations.deps@[g]@[m].value@)->Some_0,
                            ) by {
                        let (m, q) = choose|m: int, q: int|
                            0 <= m < relations_of(db, disc[k2]).deps@[g]@.len() && 0 <= q < p
                                && #[trigger] plan[q].id@ == #[trigger] relations_of(
                                db,
                                disc[k2],
                            ).deps@[g]@[m].value@;
                        assert(canonical(db, pl[q] as int));
                        assert(locate(db, db[x].relations.deps@[g]@[m].value@) == Some(pl[q] as int));
                    }
                    assert(false);
                }
            }
        }
        assert(disc[kp] == plan[p].id@);
        assert(ids_blocked(db, disc, plan, p, kp));
    }
    assert(discovery_order(db, requests, plan, disc));
}

/// Resolves the requested packages against the visible packages into an install plan, in
/// an order where dependencies come first. Recommendations are followed when `with_recs` is
/// set.
pub fn resolve(requests: &Vec<String>, db: &Vec<PackageEntry>, with_recs: bool) -> (r: Result<
    Vec<ResolvedPackage>,
    ResolveError,
>)
    ensures
        r matches Ok(plan) ==> valid_plan(db@, requests@, with_recs, plan@),
        r matches Ok(plan) ==> plan_tie_break(db@, requests@, plan@),
        r matches Err(e) ==> resolve_failure(db@, requests@, with_recs, e),
        !distinct_requests(requests@) ==> r matches Err(ResolveError::DuplicateRequest(..)),
        distinct_requests(requests@) && (forall|t: int|
            0 <= t < requests@.len() ==> locate(db@, #[trigger] requests@[t]@) is Some)
            && request_conflict(db@, requests@) ==> (r matches Err(ResolveError::Conflict(a, b))
            && requested(requests@, a@) && requested(requests@, b@)),
{
    if let Some(t) = find_duplicate(requests) {
        return Err(ResolveError::DuplicateRequest(requests[t].clone()));
    }
    let mut f = match seed(db, requests, with_recs) {
        Ok(f) => f,
        Err(e) => {
            proof {
                if let ResolveError::Unresolved { id, .. } = &e {
                    if requested(requests@, id@) {
                        let t = choose|t: int|
                            0 <= t < ids_of(requests@).len() && ids_of(requests@)[t] == id@;
                        assert(requests@[t]@ == id@);
                    }
                }
            }
            return Err(e);
        },
    };
    assert forall|t: int| 0 <= t < requests@.len() implies locate(db@, #[trigger] requests@[t]@) is Some by {
        assert(has_seen(db@, f.seen@, requests@[t]@));
    }
    match check_request_conflicts(db, requests) {
        Ok(()) => {},
        Err(e) => {
            proof {
                if let ResolveError::Conflict(a, b) = &e {
                    lemma_index_of(entry_ids(db@), a@);
                    lemma_requested_reach(db@, requests@, with_recs, a@);
                    lemma_requested_reach(db@, requests@, with_recs, b@);
                }
            }
            return Err(e);
        },
    }
    let mut i: usize = 0;
    while i < f.order.len()
        invariant
            f.inv(db@, requests@, with_recs, i as int),
            distinct_requests(requests@),
            seeded(db@, requests@, f.order@),
            !request_conflict(db@, requests@),
        decreases db@.len() - i,
    {
        proof {
            lemma_count_free_bound(f.seen@);
        }
        let ghost pi = f.order@[i as int] as int;
        let ghost ob = f.order@;
        let ghost fb = f;
        match f.expand(db, Ghost(requests@), with_recs, i) {
            Ok(()) => {
                assert forall|u: int| 0 <= u < requests@.len() implies locate(
                    db@,
                    #[trigger] requests@[u]@,
                ) == Some(f.order@[u] as int) by {
                    assert(f.order@.subrange(0, ob.len() as int)[u] == f.order@[u]);
                }
            },
            Err(e) => {
                proof {
                    assert(canonical(db@, pi));
                    assert(fb.seen@[pi]);
                    lemma_frontier_reach(fb, db@, requests@, with_recs, i as int, db@[pi].id@);
                }
                return Err(e);
            },
        }
        i = i + 1;
    }
    match check_conflicts(&f, db) {
        Ok(()) => {},
        Err(e) => {
            proof {
                if let ResolveError::Conflict(a, b) = &e {
                    lemma_frontier_reach(f, db@, requests@, with_recs, i as int, a@);
                    lemma_frontier_reach(f, db@, requests@, with_recs, i as int, b@);
                }
            }
            return Err(e);
        },
    }
    let pl = match order_plan(&f, db, Ghost(requests@), with_recs) {
        Ok(pl) => pl,
        Err(e) => {
            return Err(e);
        },
    };
    let mut plan: Vec<ResolvedPackage> = Vec::new();
    let mut p: usize = 0;
    while p < pl.len()
        invariant
            p <= pl@.len(),
            plan@.len() == p,
            forall|pz: int| 0 <= pz < pl@.len() ==> (#[trigger] pl@[pz] as int) < db@.len(),
            forall|pz: int|
                0 <= pz < p ==> (#[trigger] plan@[pz]).id@ == db@[pl@[pz] as int].id@
                    && plan@[pz].explicit == requested(requests@, plan@[pz].id@),
        decreases pl@.len() - p,
    {
        let j = pl[p];
        let explicit = is_requested(requests, db[j].id.as_str());
        plan.push(ResolvedPackage { id: db[j].id.clone(), explicit });
        p = p + 1;
    }
    proof {
        lemma_plan_valid(db@, requests@, with_recs, f, pl@, plan@);
        lemma_tie_break(db@, requests@, with_recs, f, pl@, plan@);
    }
    Ok(plan)
}

/// A package that the user requests is marked explicit in every successful plan, also when
/// another requested package depends on it.
pub proof fn lemma_requested_stays_explicit(
    db: Seq<PackageEntry>,
    requests: Seq<String>,
    with_recs: bool,
    plan: Seq<ResolvedPackage>,
    x: Seq<char>,
)
    requires
        valid_plan(db, requests, with_recs, plan),
        requested(requests, x),
    ensures
        explicit_in_plan(plan, x),
        forall|p: int| 0 <= p < plan.len() && #[trigger] plan[p].id@ == x ==> plan[p].explicit,
{
    let t = choose|t: int| 0 <= t < ids_of(requests).len() && ids_of(requests)[t] == x;
    assert(requests[t]@ == x);
    assert(explicit_in_plan(plan, requests[t]@));
}

/// Two packages of which one declares a conflict with the other never both appear in a
/// successful plan.
pub proof fn lemma_conflicting_never_both_planned(
    db: Seq<PackageEntry>,
    requests: Seq<String>,
    with_recs: bool,
    plan: Seq<ResolvedPackage>,
    a: Seq<char>,
    b: Seq<char>,
)
    requires
        valid_plan(db, requests, with_recs, plan),
        locate(db, a) is Some,
        list_contains(ids_of(relations_of(db, a).conflicts@), b),
    ensures
        !(in_plan(plan, a) && in_plan(plan, b)),
{
    if in_plan(plan, a) && in_plan(plan, b) {
        let p = choose|p: int| 0 <= p < plan.len() && #[trigger] plan[p].id@ == a;
        let c = choose|c: int|
            0 <= c < ids_of(relations_of(db, a).conflicts@).len() && ids_of(
                relations_of(db, a).conflicts@,
            )[c] == b;
        assert(relations_of(db, a).conflicts@[c]@ == b);
        assert(!in_plan(plan, relations_of(db, plan[p].id@).conflicts@[c]@));
    }
}

/// Requesting two packages of which one declares a conflict with the other leaves no valid
/// plan and no dependency cycle: the resolution fails with an error other than a cycle.
pub proof fn lemma_conflicting_requests_fail(
    db: Seq<PackageEntry>,
    requests: Seq<String>,
    with_recs: bool,
    plan: Seq<ResolvedPackage>,
    a: Seq<char>,
    b: Seq<char>,
    id: Seq<char>,
)
    requires
        requested(requests, a),
        requested(requests, b),
        locate(db, a) is Some,
        list_contains(ids_of(relations_of(db, a).conflicts@), b),
    ensures
        !valid_plan(db, requests, with_recs, plan),
        !dependency_cycle(db, requests, id),
{
    if valid_plan(db, requests, with_recs, plan) {
        lemma_requested_stays_explicit(db, requests, with_recs, plan, a);
        lemma_requested_stays_explicit(db, requests, with_recs, plan, b);
        lemma_conflicting_never_both_planned(db, requests, with_recs, plan, a, b);
    }
    if dependency_cycle(db, requests, id) {
        let (reached, stuck) = choose|reached: Set<Seq<char>>, stuck: Set<Seq<char>>|
            #[trigger] cycle_witness(db, requests, reached, stuck) && stuck.contains(id);
        let ta = choose|t: int| 0 <= t < ids_of(requests).len() && ids_of(requests)[t] == a;
        let tb = choose|t: int| 0 <= t < ids_of(requests).len() && ids_of(requests)[t] == b;
        assert(requests[ta]@ == a);
        assert(requests[tb]@ == b);
        assert(reached.contains(requests[ta]@));
        assert(reached.contains(requests[tb]@));
        let c = choose|c: int|
            0 <= c < ids_of(relations_of(db, a).conflicts@).len() && ids_of(
                relations_of(db, a).conflicts@,
            )[c] == b;
        assert(relations_of(db, a).conflicts@[c]@ == b);
        assert(reached.contains(a));
    }
}

/// An extension that a planned package declares is in the plan too.
pub proof fn lemma_extension_follows_base(
    db: Seq<PackageEntry>,
    requests: Seq<String>,
    with_recs: bool,
    plan: Seq<ResolvedPackage>,
    base: Seq<char>,
    ext: Seq<char>,
)
    requires
        valid_plan(db, requests, with_recs, plan),
        in_plan(plan, base),
        list_contains(ids_of(relations_of(db, base).extensions@), ext),
    ensures
        in_plan(plan, ext),
{
    let p = choose|p: int| 0 <= p < plan.len() && #[trigger] plan[p].id@ == base;
    let x = choose|x: int|
        0 <= x < ids_of(relations_of(db, base).extensions@).len() && ids_of(
            relations_of(db, base).extensions@,
        )[x] == ext;
    assert(relations_of(db, base).extensions@[x]@ == ext);
    assert(in_plan(plan, relations_of(db, plan[p].id@).extensions@[x]@));
}

/// A package that nobody requests, and that only the base package brings along, stays out
/// of every plan that lacks the base package.
pub proof fn lemma_extension_needs_base(
    db: Seq<PackageEntry>,
    requests: Seq<String>,
    with_recs: bool,
    plan: Seq<ResolvedPackage>,
    base: Seq<char>,
    ext: Seq<char>,
)
    requires
        valid_plan(db, requests, with_recs, plan),
        !requested(requests, ext),
        forall|q: int|
            0 <= q < db.len() && declares(#[trigger] db[q].relations, ext, with_recs) ==> db[q].id@
                == base,
        !in_plan(plan, base),
    ensures
        !in_plan(plan, ext),
{
    if in_plan(plan, ext) {
        let p = choose|p: int| 0 <= p < plan.len() && #[trigger] plan[p].id@ == ext;
        assert(!plan[p].explicit);
        let pz = choose|pz: int|
            0 <= pz < plan.len() && declares(relations_of(db, plan[pz].id@), plan[p].id@, with_recs);
        let id2 = plan[pz].id@;
        lemma_index_of(entry_ids(db), id2);
        let q = locate(db, id2)->Some_0;
        assert(entry_ids(db)[q] == db[q].id@);
        assert(declares(db[q].relations, ext, with_recs));
        assert(db[q].id@ == base);
        assert(in_plan(plan, base));
    }
}

/// The compatibility pairs of a list whose two packages are both in the plan, in order
pub open spec fn active_of(pairs: Seq<(String, String)>, plan: Seq<ResolvedPackage>) -> Seq<
    (Seq<char>, Seq<char>),
>
    decreases pairs.len(),
{
    if pairs.len() == 0 {
        Seq::empty()
    } else {
        let rest = active_of(pairs.drop_last(), plan);
        let last = pairs.last();
        if in_plan(plan, last.0@) && in_plan(plan, last.1@) {
            rest.push((last.0@, last.1@))
        } else {
            rest
        }
    }
}

/// The active compatibility pairs that the first `n` packages of a plan declare
pub open spec fn active_compats_upto(
    db: Seq<PackageEntry>,
    plan: Seq<ResolvedPackage>,
    n: int,
) -> Seq<(Seq<char>, Seq<char>)>
    decreases n,
{
    if n <= 0 {
        Seq::empty()
    } else {
        active_compats_upto(db, plan, n - 1) + active_of(
            relations_of(db, plan[n - 1].id@).compats@,
            plan,
        )
    }
}

/// Checks whether a package id is in a plan
fn plan_contains(plan: &Vec<ResolvedPackage>, id: &str) -> (r: bool)
    ensures
        r == in_plan(plan@, id@),
{
    let mut p: usize = 0;
    while p < plan.len()
        invariant
            p <= plan@.len(),
            forall|q: int| 0 <= q < p ==> plan@[q].id@ != id@,
        decreases plan@.len() - p,
    {
        if str_eq(plan[p].id.as_str(), id) {
            return true;
        }
        p = p + 1;
    }
    false
}

/// The compatibility pairs that become active after a resolution: those declared by planned
/// packages whose two packages are both in the plan
pub fn active_compats(db: &Vec<PackageEntry>, plan: &Vec<ResolvedPackage>) -> (r: Vec<(String, String)>)
    requires
        plan_known(db@, plan@),
    ensures
        r@.map_values(|c: (String, String)| (c.0@, c.1@)) == active_compats_upto(
            db@,
            plan@,
            plan@.len() as int,
        ),
{
    let mut out: Vec<(String, String)> = Vec::new();
    let mut p: usize = 0;
    while p < plan.len()
        invariant
            p <= plan@.len(),
            plan_known(db@, plan@),
            out@.map_values(|c: (String, String)| (c.0@, c.1@)) == active_compats_upto(
                db@,
                plan@,
                p as int,
            ),
        decreases plan@.len() - p,
    {
        let j = match find_entry(db, plan[p].id.as_str()) {
            Some(j) => j,
            None => {
                assert(locate(db@, plan@[p as int].id@) is Some);
                0
            },
        };
        let pairs = &db[j].relations.compats;
        let ghost start = out@.map_values(|c: (String, String)| (c.0@, c.1@));
        let mut c: usize = 0;
        while c < pairs.len()
            invariant
                c <= pairs@.len(),
                out@.map_values(|c: (String, String)| (c.0@, c.1@)) == start + active_of(
                    pairs@.subrange(0, c as int),
                    plan@,
                ),
            decreases pairs@.len() - c,
        {
            assert(pairs@.subrange(0, c + 1).drop_last() =~= pairs@.subrange(0, c as int));
            if plan_contains(plan, pairs[c].0.as_str()) && plan_contains(plan, pairs[c].1.as_str()) {
                let ghost prev = out@.map_values(|c: (String, String)| (c.0@, c.1@));
                out.push((pairs[c].0.clone(), pairs[c].1.clone()));
                assert(out@.map_values(|c: (String, String)| (c.0@, c.1@)) =~= prev.push(
                    (pairs@[c as int].0@, pairs@[c as int].1@),
                ));
            }
            c = c + 1;
        }
        assert(pairs@.subrange(0, c as int) =~= pairs@);
        assert(relations_of(db@, plan@[p as int].id@) == db@[j as int].relations);
        p = p + 1;
    }
    out
}

} // verus!
