//! Properties of the index that relate several operations.
use vstd::prelude::*;

use crate::index::{
    accepted, advanced, collision_map, deleted_ids, ids_of, in_walk, kept, needs_scan, paths_with,
    reps_consistent, stale, Found, IndexEntry, RESOURCE_UPDATED_THRESHOLD,
};
use crate::resource::ResourceId;

verus! {

/// Two distinct paths with the same content make one resource held twice:
/// its collision count is 2, the index has two paths and one identifier.
/// Once one of the two paths is gone the count disappears, and the
/// representative of the identifier can only be the surviving path.
pub proof fn lemma_collision_accounting(
    p1: Seq<char>,
    p2: Seq<char>,
    e1: IndexEntry,
    e2: IndexEntry,
    reps: Map<ResourceId, Seq<char>>,
)
    requires
        p1 != p2,
        e1.id == e2.id,
    ensures
        ({
            let m = Map::<Seq<char>, IndexEntry>::empty().insert(p1, e1).insert(p2, e2);
            &&& collision_map(m).contains_key(e1.id)
            &&& collision_map(m)[e1.id] == 2
            &&& m.dom().len() == 2
            &&& ids_of(m) == set![e1.id]
            &&& !collision_map(m.remove(p1)).contains_key(e1.id)
            &&& reps_consistent(m.remove(p1), reps) ==> reps.dom() == set![e1.id] && reps[e1.id] == p2
        }),
{
    let m = Map::<Seq<char>, IndexEntry>::empty().insert(p1, e1).insert(p2, e2);
    let id = e1.id;
    assert(m.dom() =~= set![p1, p2]);
    assert(paths_with(m, id) =~= set![p1, p2]);
    assert(set![p1, p2].len() == 2) by {
        assert(set![p1].insert(p2).len() == set![p1].len() + 1);
    }
    assert(ids_of(m) =~= set![id]) by {
        assert(m.contains_key(p1) && m[p1].id == id);
    }
    let m2 = m.remove(p1);
    assert(m2 =~= Map::<Seq<char>, IndexEntry>::empty().insert(p2, e2));
    assert(paths_with(m2, id) =~= set![p2]);
    assert(set![p2].len() == 1);
    assert(ids_of(m2) =~= set![id]) by {
        assert(m2.contains_key(p2) && m2[p2].id == id);
    }
    assert(set![p2].len() == 1) by {
        assert(Set::<Seq<char>>::empty().insert(p2).len() == Set::<Seq<char>>::empty().len() + 1);
    }
    assert(set![p1].len() == 1) by {
        assert(Set::<Seq<char>>::empty().insert(p1).len() == Set::<Seq<char>>::empty().len() + 1);
    }
    assert(collision_map(m)[id] == 2);
    assert(m.dom().len() == 2);
    assert(!collision_map(m2).contains_key(id));
    if reps_consistent(m2, reps) {
        assert(reps.contains_key(id));
        assert(m2.contains_key(reps[id]));
    }
}

/// Renaming the only file of a resource: the walk shows the old path gone
/// and a new one, whose scan finds the same identifier. The identifier is
/// reported deleted and, with the new path, added; neither the number of
/// paths nor the set of resources changes, and the representative can only
/// be the new path.
pub proof fn lemma_rename(
    m: Map<Seq<char>, IndexEntry>,
    d: Seq<Found>,
    a: Seq<char>,
    b: String,
    e: IndexEntry,
    reps: Map<ResourceId, Seq<char>>,
)
    requires
        m.dom().finite(),
        m.contains_key(a),
        m[a].id == e.id,
        forall|q: Seq<char>| m.contains_key(q) && q != a ==> m[q].id != e.id,
        !m.contains_key(b@),
        in_walk(d, b@),
        !in_walk(d, a),
        forall|q: Seq<char>|
            m.contains_key(q) && q != a ==> in_walk(d, q) && !advanced(d, q, m[q].modified),
    ensures
        deleted_ids(m, d) == set![e.id],
        accepted(m, d, seq![(b, e)]) == map![b@ => e],
        kept(m, d).union_prefer_right(accepted(m, d, seq![(b, e)])).dom().len() == m.dom().len(),
        ids_of(kept(m, d).union_prefer_right(accepted(m, d, seq![(b, e)]))) == ids_of(m),
        reps_consistent(kept(m, d).union_prefer_right(accepted(m, d, seq![(b, e)])), reps)
            ==> reps[e.id] == b@,
{
    let k = kept(m, d);
    assert(k =~= m.remove(a));
    assert(!ids_of(k).contains(e.id));
    assert(deleted_ids(m, d) =~= set![e.id]) by {
        assert(crate::index::stale(m, d, a));
    }
    let s = seq![(b, e)];
    assert(s.drop_last() =~= Seq::<(String, IndexEntry)>::empty());
    assert(accepted(m, d, s.drop_last()) == Map::<Seq<char>, IndexEntry>::empty());
    assert(accepted(m, d, s) =~= map![b@ => e]);
    let m2 = k.union_prefer_right(map![b@ => e]);
    assert(m2 =~= m.remove(a).insert(b@, e));
    assert(m2.dom() =~= m.dom().remove(a).insert(b@));
    assert forall|id: ResourceId| ids_of(m2).contains(id) == ids_of(m).contains(id) by {
        if ids_of(m).contains(id) {
            let q = choose|q: Seq<char>| m.contains_key(q) && m[q].id == id;
            if q == a {
                assert(m2.contains_key(b@) && m2[b@].id == id);
            } else {
                assert(m2.contains_key(q) && m2[q].id == id);
            }
        }
        if ids_of(m2).contains(id) {
            let q = choose|q: Seq<char>| m2.contains_key(q) && m2[q].id == id;
            if q == b@ {
                assert(m.contains_key(a) && m[a].id == id);
            } else {
                assert(m.contains_key(q) && m[q].id == id);
            }
        }
    }
    assert(ids_of(m2) =~= ids_of(m));
    if reps_consistent(m2, reps) {
        assert(ids_of(m2).contains(e.id)) by {
            assert(m2.contains_key(b@) && m2[b@].id == e.id);
        }
        assert(reps.contains_key(e.id));
    }
}

/// Every accepted entry comes from the scan and was due a scan.
proof fn lemma_accepted_from_scan(m: Map<Seq<char>, IndexEntry>, d: Seq<Found>, s: Seq<(String, IndexEntry)>)
    ensures
        forall|p: Seq<char>| #[trigger] accepted(m, d, s).contains_key(p) ==> needs_scan(m, d, p)
            && exists|k: int| 0 <= k < s.len() && s[k].0@ == p && s[k].1 == accepted(m, d, s)[p],
    decreases s.len(),
{
    if s.len() > 0 {
        let r = s.drop_last();
        lemma_accepted_from_scan(m, d, r);
        assert forall|p: Seq<char>| #[trigger] accepted(m, d, s).contains_key(p) implies needs_scan(m, d, p)
            && exists|k: int| 0 <= k < s.len() && s[k].0@ == p && s[k].1 == accepted(m, d, s)[p] by {
            if accepted(m, d, r).contains_key(p) && accepted(m, d, s)[p] == accepted(m, d, r)[p] {
                let k = choose|k: int| 0 <= k < r.len() && r[k].0@ == p && r[k].1 == accepted(m, d, r)[p];
                assert(s[k] == r[k]);
            } else {
                assert(s[s.len() - 1].0@ == p);
            }
        }
    }
}

/// What a prefix of the scan accepts, the whole scan keeps.
proof fn lemma_accepted_prefix(m: Map<Seq<char>, IndexEntry>, d: Seq<Found>, s: Seq<(String, IndexEntry)>, t: int)
    requires
        0 <= t <= s.len(),
    ensures
        forall|p: Seq<char>| #[trigger] accepted(m, d, s.take(t)).contains_key(p) ==> accepted(m, d, s).contains_key(p),
    decreases s.len(),
{
    if t == s.len() {
        assert(s.take(t) =~= s);
    } else {
        let r = s.drop_last();
        assert(s.take(t) =~= r.take(t));
        lemma_accepted_prefix(m, d, r, t);
    }
}

/// Updating twice from the same walk and the same scan leaves the second
/// update empty: nothing is deleted, nothing is added, and every path stays.
/// It needs that each scanned entry records a modification time no earlier
/// than the walk saw for its path, less the threshold.
pub proof fn lemma_update_idempotent(
    m: Map<Seq<char>, IndexEntry>,
    d: Seq<Found>,
    s: Seq<(String, IndexEntry)>,
)
    requires
        forall|k: int, i: int|
            0 <= k < s.len() && 0 <= i < d.len() && d[i].path@ == s[k].0@ && d[i].modified.is_some()
                ==> d[i].modified.unwrap() < s[k].1.modified + RESOURCE_UPDATED_THRESHOLD,
    ensures
        ({
            let m2 = kept(m, d).union_prefer_right(accepted(m, d, s));
            &&& deleted_ids(m2, d) == Set::<ResourceId>::empty()
            &&& accepted(m2, d, s) == Map::<Seq<char>, IndexEntry>::empty()
            &&& kept(m2, d) == m2
        }),
{
    let k0 = kept(m, d);
    let a = accepted(m, d, s);
    let m2 = k0.union_prefer_right(a);
    lemma_accepted_from_scan(m, d, s);
    assert forall|p: Seq<char>| m2.contains_key(p) implies !stale(m2, d, p) by {
        if a.contains_key(p) {
            let k = choose|k: int| 0 <= k < s.len() && s[k].0@ == p && s[k].1 == a[p];
            if advanced(d, p, m2[p].modified) {
                let i = choose|i: int|
                    0 <= i < d.len() && d[i].path@ == p && d[i].modified.is_some()
                        && d[i].modified.unwrap() >= m2[p].modified + RESOURCE_UPDATED_THRESHOLD;
                assert(d[i].modified.unwrap() < s[k].1.modified + RESOURCE_UPDATED_THRESHOLD);
            }
        } else {
            assert(k0.contains_key(p));
            assert(!stale(m, d, p));
        }
    }
    assert(kept(m2, d) =~= m2);
    assert(deleted_ids(m2, d) =~= Set::<ResourceId>::empty());
    assert forall|id: ResourceId| ids_of(k0).contains(id) implies ids_of(m2).contains(id) by {
        let q = choose|q: Seq<char>| k0.contains_key(q) && k0[q].id == id;
        if a.contains_key(q) {
            assert(needs_scan(m, d, q));
        }
        assert(m2.contains_key(q) && m2[q].id == id);
    }
    lemma_second_pass_empty(m, d, s, s.len() as int);
    assert(s.take(s.len() as int) =~= s);
}

proof fn lemma_second_pass_empty(
    m: Map<Seq<char>, IndexEntry>,
    d: Seq<Found>,
    s: Seq<(String, IndexEntry)>,
    t: int,
)
    requires
        0 <= t <= s.len(),
        kept(kept(m, d).union_prefer_right(accepted(m, d, s)), d) == kept(m, d).union_prefer_right(
            accepted(m, d, s),
        ),
        forall|id: ResourceId| ids_of(kept(m, d)).contains(id) ==> ids_of(
            kept(m, d).union_prefer_right(accepted(m, d, s)),
        ).contains(id),
        forall|p: Seq<char>| #[trigger] accepted(m, d, s).contains_key(p) ==> needs_scan(m, d, p),
    ensures
        accepted(kept(m, d).union_prefer_right(accepted(m, d, s)), d, s.take(t)) == Map::<
            Seq<char>,
            IndexEntry,
        >::empty(),
    decreases t,
{
    let m2 = kept(m, d).union_prefer_right(accepted(m, d, s));
    if t == 0 {
        assert(s.take(0) =~= Seq::<(String, IndexEntry)>::empty());
    } else {
        lemma_second_pass_empty(m, d, s, t - 1);
        let st = s.take(t);
        assert(st.drop_last() =~= s.take(t - 1));
        let p = st.last().0@;
        let e = st.last().1;
        if needs_scan(m2, d, p) && !ids_of(kept(m2, d)).contains(e.id) {
            assert(!m2.contains_key(p)) by {
                if m2.contains_key(p) {
                    assert(!stale(m2, d, p));
                }
            }
            lemma_accepted_prefix(m, d, s, t);
            assert(needs_scan(m, d, p));
            assert(!accepted(m, d, s.take(t - 1)).contains_key(p)) by {
                lemma_accepted_prefix(m, d, s, t - 1);
            }
            assert(!ids_of(kept(m, d)).contains(e.id));
            assert(accepted(m, d, st).contains_key(p));
            assert(false);
        }
    }
}

} // verus!
