//! The resource index: which path holds which resource, with the
//! bookkeeping of identifiers that several paths share.
use vstd::prelude::*;
use vstd::set_lib::*;

use crate::errors::ArklibError;
use crate::resource::ResourceId;

verus! {

/// A resource identifier with the time its file was last modified, in
/// milliseconds since the Unix epoch.
///
/// Ordering compares `modified` first, then `id`.
#[derive(Clone, Copy, Debug, PartialEq, Eq, Structural, PartialOrd, Ord, Hash)]
pub struct IndexEntry {
    pub modified: u64,
    pub id: ResourceId,
}

/// The paths of `m` that hold the resource `id`.
pub open spec fn paths_with(m: Map<Seq<char>, IndexEntry>, id: ResourceId) -> Set<Seq<char>> {
    m.dom().filter(|p: Seq<char>| m[p].id == id)
}

/// The identifiers that some path of `m` holds.
pub open spec fn ids_of(m: Map<Seq<char>, IndexEntry>) -> Set<ResourceId> {
    Set::new(|id: ResourceId| exists|p: Seq<char>| m.contains_key(p) && m[p].id == id)
}

/// For each identifier held by two paths or more, how many paths hold it.
pub open spec fn collision_map(m: Map<Seq<char>, IndexEntry>) -> Map<ResourceId, nat> {
    Map::new(|id: ResourceId| paths_with(m, id).len() >= 2, |id: ResourceId| paths_with(m, id).len())
}

/// `reps` names, for each identifier of `m` and no other, one path of `m`
/// that holds it.
pub open spec fn reps_consistent(
    m: Map<Seq<char>, IndexEntry>,
    reps: Map<ResourceId, Seq<char>>,
) -> bool {
    &&& reps.dom() == ids_of(m)
    &&& forall|id: ResourceId| #[trigger]
        reps.contains_key(id) ==> m.contains_key(reps[id]) && m[reps[id]].id == id
}

proof fn lemma_paths_with_insert(
    m: Map<Seq<char>, IndexEntry>,
    p: Seq<char>,
    e: IndexEntry,
    id: ResourceId,
)
    requires
        m.dom().finite(),
        !m.contains_key(p),
    ensures
        paths_with(m, id).finite(),
        !paths_with(m, id).contains(p),
        e.id == id ==> paths_with(m.insert(p, e), id) == paths_with(m, id).insert(p),
        e.id != id ==> paths_with(m.insert(p, e), id) == paths_with(m, id),
        e.id == id ==> paths_with(m.insert(p, e), id).len() == paths_with(m, id).len() + 1,
{
    m.dom().lemma_len_filter(|q: Seq<char>| m[q].id == id);
    if e.id == id {
        assert(paths_with(m.insert(p, e), id) =~= paths_with(m, id).insert(p));
    } else {
        assert(paths_with(m.insert(p, e), id) =~= paths_with(m, id));
    }
}

proof fn lemma_paths_with_remove(m: Map<Seq<char>, IndexEntry>, p: Seq<char>, id: ResourceId)
    requires
        m.dom().finite(),
        m.contains_key(p),
    ensures
        paths_with(m, id).finite(),
        m[p].id == id ==> paths_with(m.remove(p), id) == paths_with(m, id).remove(p),
        m[p].id == id ==> paths_with(m.remove(p), id).len() + 1 == paths_with(m, id).len(),
        m[p].id != id ==> paths_with(m.remove(p), id) == paths_with(m, id),
{
    m.dom().lemma_len_filter(|q: Seq<char>| m[q].id == id);
    if m[p].id == id {
        assert(paths_with(m.remove(p), id) =~= paths_with(m, id).remove(p));
    } else {
        assert(paths_with(m.remove(p), id) =~= paths_with(m, id));
    }
}

proof fn lemma_paths_with_bound(m: Map<Seq<char>, IndexEntry>, id: ResourceId)
    requires
        m.dom().finite(),
    ensures
        paths_with(m, id).finite(),
        paths_with(m, id).len() <= m.dom().len(),
{
    m.dom().lemma_len_filter(|q: Seq<char>| m[q].id == id);
}

/// The mutations of an index, as a set of resources that left it and the
/// paths that were added with their resources.
///
/// A modified resource shows in both; a renamed one too, unless another path
/// still holds its identifier.
#[derive(Debug)]
pub struct IndexUpdate {
    pub deleted: Vec<ResourceId>,
    pub added: Vec<(String, ResourceId)>,
}

impl IndexUpdate {
    pub fn empty() -> (r: Self)
        ensures
            r.deleted@.len() == 0,
            r.added@.len() == 0,
    {
        IndexUpdate { deleted: Vec::new(), added: Vec::new() }
    }
}

/// The path vectors agree with the model `m`: distinct paths, each with its
/// entry, and every path of `m` among them.
#[verifier::opaque]
pub closed spec fn files_ok(fp: Seq<String>, fe: Seq<IndexEntry>, m: Map<Seq<char>, IndexEntry>) -> bool {
    &&& fp.len() == fe.len()
    &&& m.dom().finite()
    &&& m.dom().len() == fp.len()
    &&& forall|i: int, j: int| 0 <= i < j < fp.len() ==> fp[i]@ != fp[j]@
    &&& forall|i: int| 0 <= i < fp.len() ==> m.contains_key(#[trigger] fp[i]@) && m[fp[i]@] == fe[i]
    &&& forall|p: Seq<char>| #[trigger] m.contains_key(p) ==> exists|i: int| 0 <= i < fp.len() && fp[i]@ == p
}

/// The identifier vectors agree with the model `m`: distinct identifiers,
/// each with the number of its paths and a path that holds it, and every
/// identifier of `m` among them.
#[verifier::opaque]
pub closed spec fn ids_ok(
    ik: Seq<ResourceId>,
    ip: Seq<String>,
    ic: Seq<usize>,
    m: Map<Seq<char>, IndexEntry>,
) -> bool {
    &&& ik.len() == ip.len()
    &&& ik.len() == ic.len()
    &&& forall|i: int, j: int| 0 <= i < j < ik.len() ==> ik[i] != ik[j]
    &&& forall|i: int|
        0 <= i < ik.len() ==> {
            &&& ic[i] == paths_with(m, #[trigger] ik[i]).len()
            &&& ic[i] >= 1
            &&& m.contains_key(ip[i]@)
            &&& m[ip[i]@].id == ik[i]
        }
    &&& forall|p: Seq<char>| #[trigger] m.contains_key(p) ==> exists|i: int| 0 <= i < ik.len() && ik[i] == m[p].id
}

pub closed spec fn reps_of(ik: Seq<ResourceId>, ip: Seq<String>) -> Map<ResourceId, Seq<char>> {
    Map::new(
        |id: ResourceId| exists|i: int| 0 <= i < ik.len() && ik[i] == id,
        |id: ResourceId| ip[choose|i: int| 0 <= i < ik.len() && ik[i] == id]@,
    )
}


proof fn lemma_files_facts(fp: Seq<String>, fe: Seq<IndexEntry>, m: Map<Seq<char>, IndexEntry>)
    requires
        files_ok(fp, fe, m),
    ensures
        fp.len() == fe.len(),
        m.dom().finite(),
        m.dom().len() == fp.len(),
        forall|i: int, j: int| 0 <= i < j < fp.len() ==> fp[i]@ != fp[j]@,
        forall|i: int|
            0 <= i < fp.len() ==> m.contains_key(#[trigger] fp[i]@) && m[fp[i]@] == fe[i],
        forall|p: Seq<char>| #[trigger]
            m.contains_key(p) ==> exists|i: int| 0 <= i < fp.len() && fp[i]@ == p,
{
    reveal(files_ok);
}

proof fn lemma_ids_facts(
    ik: Seq<ResourceId>,
    ip: Seq<String>,
    ic: Seq<usize>,
    m: Map<Seq<char>, IndexEntry>,
)
    requires
        ids_ok(ik, ip, ic, m),
    ensures
        ik.len() == ip.len(),
        ik.len() == ic.len(),
        forall|i: int, j: int| 0 <= i < j < ik.len() ==> ik[i] != ik[j],
        forall|i: int|
            0 <= i < ik.len() ==> {
                &&& ic[i] == paths_with(m, #[trigger] ik[i]).len()
                &&& ic[i] >= 1
                &&& m.contains_key(ip[i]@)
                &&& m[ip[i]@].id == ik[i]
            },
        forall|p: Seq<char>| #[trigger]
            m.contains_key(p) ==> exists|i: int| 0 <= i < ik.len() && ik[i] == m[p].id,
{
    reveal(ids_ok);
}

proof fn lemma_reps_at(ik: Seq<ResourceId>, ip: Seq<String>, k: int)
    requires
        0 <= k < ik.len(),
        forall|i: int, j: int| 0 <= i < j < ik.len() ==> ik[i] != ik[j],
    ensures
        reps_of(ik, ip).contains_key(ik[k]),
        reps_of(ik, ip)[ik[k]] == ip[k]@,
{
    let id = ik[k];
    let i = choose|i: int| 0 <= i < ik.len() && ik[i] == id;
    assert(i == k) by {
        if i < k {
            assert(ik[i] != ik[k]);
        }
        if k < i {
            assert(ik[k] != ik[i]);
        }
    }
}

proof fn lemma_files_push(
    fp: Seq<String>,
    fe: Seq<IndexEntry>,
    m: Map<Seq<char>, IndexEntry>,
    s: String,
    e: IndexEntry,
)
    requires
        files_ok(fp, fe, m),
        !m.contains_key(s@),
    ensures
        files_ok(fp.push(s), fe.push(e), m.insert(s@, e)),
{
    reveal(files_ok);
    reveal(ids_ok);
    let fp2 = fp.push(s);
    let m2 = m.insert(s@, e);
    assert(m2.dom() =~= m.dom().insert(s@));
    assert forall|i: int, j: int| 0 <= i < j < fp2.len() implies fp2[i]@ != fp2[j]@ by {
        if j == fp.len() {
            assert(m.contains_key(fp[i]@));
        }
    }
    assert forall|q: Seq<char>| #[trigger] m2.contains_key(q) implies exists|i: int|
        0 <= i < fp2.len() && fp2[i]@ == q by {
        if q != s@ {
            let i = choose|i: int| 0 <= i < fp.len() && fp[i]@ == q;
            assert(fp2[i]@ == q);
        } else {
            assert(fp2[fp.len() as int]@ == q);
        }
    }
}

proof fn lemma_ids_bump(
    ik: Seq<ResourceId>,
    ip: Seq<String>,
    ic: Seq<usize>,
    m: Map<Seq<char>, IndexEntry>,
    k: int,
    p: Seq<char>,
    e: IndexEntry,
)
    requires
        ids_ok(ik, ip, ic, m),
        m.dom().finite(),
        0 <= k < ik.len(),
        ik[k] == e.id,
        !m.contains_key(p),
        ic[k] + 1 <= usize::MAX,
    ensures
        ids_ok(ik, ip, ic.update(k, (ic[k] + 1) as usize), m.insert(p, e)),
{
    reveal(files_ok);
    reveal(ids_ok);
    let m2 = m.insert(p, e);
    let ic2 = ic.update(k, (ic[k] + 1) as usize);
    assert forall|i: int| 0 <= i < ik.len() implies {
        &&& ic2[i] == paths_with(m2, #[trigger] ik[i]).len()
        &&& ic2[i] >= 1
        &&& m2.contains_key(ip[i]@)
        &&& m2[ip[i]@].id == ik[i]
    } by {
        lemma_paths_with_insert(m, p, e, ik[i]);
    }
    assert forall|q: Seq<char>| #[trigger] m2.contains_key(q) implies exists|i: int|
        0 <= i < ik.len() && ik[i] == m2[q].id by {
        if q != p {
            let i = choose|i: int| 0 <= i < ik.len() && ik[i] == m[q].id;
            assert(ik[i] == m2[q].id);
        } else {
            assert(ik[k] == m2[q].id);
        }
    }
}

proof fn lemma_ids_new(
    ik: Seq<ResourceId>,
    ip: Seq<String>,
    ic: Seq<usize>,
    m: Map<Seq<char>, IndexEntry>,
    s: String,
    e: IndexEntry,
)
    requires
        ids_ok(ik, ip, ic, m),
        m.dom().finite(),
        forall|j: int| 0 <= j < ik.len() ==> ik[j] != e.id,
        !m.contains_key(s@),
    ensures
        ids_ok(ik.push(e.id), ip.push(s), ic.push(1usize), m.insert(s@, e)),
{
    reveal(files_ok);
    reveal(ids_ok);
    let p = s@;
    let m2 = m.insert(p, e);
    let ik2 = ik.push(e.id);
    let ip2 = ip.push(s);
    let ic2 = ic.push(1usize);
    assert(paths_with(m, e.id) =~= Set::<Seq<char>>::empty()) by {
        assert forall|q: Seq<char>| !paths_with(m, e.id).contains(q) by {
            if m.contains_key(q) && m[q].id == e.id {
                let i = choose|i: int| 0 <= i < ik.len() && ik[i] == m[q].id;
            }
        }
    }
    assert forall|i: int| 0 <= i < ik2.len() implies {
        &&& ic2[i] == paths_with(m2, #[trigger] ik2[i]).len()
        &&& ic2[i] >= 1
        &&& m2.contains_key(ip2[i]@)
        &&& m2[ip2[i]@].id == ik2[i]
    } by {
        lemma_paths_with_insert(m, p, e, ik2[i]);
    }
    assert forall|q: Seq<char>| #[trigger] m2.contains_key(q) implies exists|i: int|
        0 <= i < ik2.len() && ik2[i] == m2[q].id by {
        if q != p {
            let i = choose|i: int| 0 <= i < ik.len() && ik[i] == m[q].id;
            assert(ik2[i] == m2[q].id);
        } else {
            assert(ik2[ik.len() as int] == m2[q].id);
        }
    }
}


proof fn lemma_reps_push(ik: Seq<ResourceId>, ip: Seq<String>, s: String, e: IndexEntry)
    requires
        ik.len() == ip.len(),
        forall|i: int, j: int| 0 <= i < j < ik.len() ==> ik[i] != ik[j],
        forall|j: int| 0 <= j < ik.len() ==> ik[j] != e.id,
    ensures
        reps_of(ik.push(e.id), ip.push(s)) == reps_of(ik, ip).insert(e.id, s@),
{
    let p = s@;
    let ik2 = ik.push(e.id);
    let ip2 = ip.push(s);
    assert forall|i: int, j: int| 0 <= i < j < ik2.len() implies ik2[i] != ik2[j] by {
        if j < ik.len() {
            assert(ik[i] != ik[j]);
        }
    }
    let r1 = reps_of(ik2, ip2);
    let r0 = reps_of(ik, ip).insert(e.id, p);
    assert forall|id: ResourceId| r1.contains_key(id) == r0.contains_key(id) by {
        if exists|i: int| 0 <= i < ik2.len() && ik2[i] == id {
            let i = choose|i: int| 0 <= i < ik2.len() && ik2[i] == id;
            if i < ik.len() {
                assert(ik[i] == id);
            }
        }
        if id == e.id {
            assert(ik2[ik.len() as int] == id);
        }
        if exists|i: int| 0 <= i < ik.len() && ik[i] == id {
            let i = choose|i: int| 0 <= i < ik.len() && ik[i] == id;
            assert(ik2[i] == id);
        }
    }
    assert forall|id: ResourceId| #[trigger] r1.contains_key(id) implies r1[id] == r0[id] by {
        let i = choose|i: int| 0 <= i < ik2.len() && ik2[i] == id;
        lemma_reps_at(ik2, ip2, i);
        if i < ik.len() {
            lemma_reps_at(ik, ip, i);
        }
    }
    assert(r1 =~= r0);
}

/// `s` with its element `i` replaced by the last one, which is dropped: what
/// `Vec::swap_remove` leaves.
pub open spec fn swap_out<T>(s: Seq<T>, i: int) -> Seq<T> {
    s.update(i, s.last()).drop_last()
}

proof fn lemma_files_swap(fp: Seq<String>, fe: Seq<IndexEntry>, m: Map<Seq<char>, IndexEntry>, i: int)
    requires
        files_ok(fp, fe, m),
        0 <= i < fp.len(),
    ensures
        files_ok(swap_out(fp, i), swap_out(fe, i), m.remove(fp[i]@)),
{
    reveal(files_ok);
    let n = fp.len() as int;
    let p = fp[i]@;
    let fp2 = swap_out(fp, i);
    let fe2 = swap_out(fe, i);
    let m2 = m.remove(p);
    assert(m2.dom() =~= m.dom().remove(p));
    assert forall|a: int, b: int| 0 <= a < b < fp2.len() implies fp2[a]@ != fp2[b]@ by {
        let a0 = if a == i { n - 1 } else { a };
        let b0 = if b == i { n - 1 } else { b };
        assert(fp2[a] == fp[a0]);
        assert(fp2[b] == fp[b0]);
        if a0 < b0 {
            assert(fp[a0]@ != fp[b0]@);
        } else {
            assert(fp[b0]@ != fp[a0]@);
        }
    }
    assert forall|j: int| 0 <= j < fp2.len() implies m2.contains_key(#[trigger] fp2[j]@) && m2[fp2[j]@] == fe2[j] by {
        let j0 = if j == i { n - 1 } else { j };
        assert(fp2[j] == fp[j0]);
        assert(fe2[j] == fe[j0]);
        if j0 < i {
            assert(fp[j0]@ != fp[i]@);
        } else {
            assert(fp[i]@ != fp[j0]@);
        }
    }
    assert forall|q: Seq<char>| #[trigger] m2.contains_key(q) implies exists|j: int| 0 <= j < fp2.len() && fp2[j]@ == q by {
        let j = choose|j: int| 0 <= j < n && fp[j]@ == q;
        if j == n - 1 {
            assert(fp2[i]@ == q);
        } else {
            assert(fp2[j]@ == q);
        }
    }
}

proof fn lemma_ids_dec_counts(
    ik: Seq<ResourceId>,
    ip: Seq<String>,
    ic: Seq<usize>,
    m: Map<Seq<char>, IndexEntry>,
    k: int,
    p: Seq<char>,
    rep: String,
)
    requires
        forall|i: int, j: int| 0 <= i < j < ik.len() ==> ik[i] != ik[j],
        ik.len() == ip.len(),
        ik.len() == ic.len(),
        forall|i: int|
            0 <= i < ik.len() ==> {
                &&& ic[i] == paths_with(m, #[trigger] ik[i]).len()
                &&& ic[i] >= 1
                &&& m.contains_key(ip[i]@)
                &&& m[ip[i]@].id == ik[i]
            },
        m.dom().finite(),
        0 <= k < ik.len(),
        m.contains_key(p),
        m[p].id == ik[k],
        ic[k] >= 2,
        m.remove(p).contains_key(rep@),
        m.remove(p)[rep@].id == ik[k],
    ensures
        forall|i: int|
            0 <= i < ik.len() ==> {
                &&& ic.update(k, (ic[k] - 1) as usize)[i] == paths_with(m.remove(p), #[trigger] ik[i]).len()
                &&& ic.update(k, (ic[k] - 1) as usize)[i] >= 1
                &&& m.remove(p).contains_key(ip.update(k, rep)[i]@)
                &&& m.remove(p)[ip.update(k, rep)[i]@].id == ik[i]
            },
{
    let m2 = m.remove(p);
    let ip2 = ip.update(k, rep);
    let ic2 = ic.update(k, (ic[k] - 1) as usize);
    assert forall|i: int| 0 <= i < ik.len() implies {
        &&& ic2[i] == paths_with(m2, #[trigger] ik[i]).len()
        &&& ic2[i] >= 1
        &&& m2.contains_key(ip2[i]@)
        &&& m2[ip2[i]@].id == ik[i]
    } by {
        lemma_paths_with_remove(m, p, ik[i]);
        if i != k {
            assert(ik[i] != ik[k]);
            assert(ip[i]@ != p);
        }
    }
}

proof fn lemma_ids_dec(
    ik: Seq<ResourceId>,
    ip: Seq<String>,
    ic: Seq<usize>,
    m: Map<Seq<char>, IndexEntry>,
    k: int,
    p: Seq<char>,
    rep: String,
)
    requires
        ids_ok(ik, ip, ic, m),
        m.dom().finite(),
        0 <= k < ik.len(),
        m.contains_key(p),
        m[p].id == ik[k],
        ic[k] >= 2,
        m.remove(p).contains_key(rep@),
        m.remove(p)[rep@].id == ik[k],
    ensures
        ids_ok(ik, ip.update(k, rep), ic.update(k, (ic[k] - 1) as usize), m.remove(p)),
{
    lemma_ids_facts(ik, ip, ic, m);
    lemma_ids_dec_counts(ik, ip, ic, m, k, p, rep);
    let m2 = m.remove(p);
    assert forall|q: Seq<char>| #[trigger] m2.contains_key(q) implies exists|i: int| 0 <= i < ik.len() && ik[i] == m2[q].id by {
        assert(m.contains_key(q));
        let i = choose|i: int| 0 <= i < ik.len() && ik[i] == m[q].id;
        assert(ik[i] == m2[q].id);
    }
    reveal(ids_ok);
}

proof fn lemma_reps_update(ik: Seq<ResourceId>, ip: Seq<String>, k: int, rep: String)
    requires
        ik.len() == ip.len(),
        0 <= k < ik.len(),
        forall|i: int, j: int| 0 <= i < j < ik.len() ==> ik[i] != ik[j],
    ensures
        reps_of(ik, ip.update(k, rep)) == reps_of(ik, ip).insert(ik[k], rep@),
{
    let ip2 = ip.update(k, rep);
    let r1 = reps_of(ik, ip2);
    let r0 = reps_of(ik, ip).insert(ik[k], rep@);
    assert forall|id: ResourceId| #[trigger] r1.contains_key(id) implies r1[id] == r0[id] by {
        let i = choose|i: int| 0 <= i < ik.len() && ik[i] == id;
        lemma_reps_at(ik, ip2, i);
        lemma_reps_at(ik, ip, i);
    }
    lemma_reps_at(ik, ip, k);
    assert(r1 =~= r0);
}

proof fn lemma_last_path(m: Map<Seq<char>, IndexEntry>, p: Seq<char>, id: ResourceId)
    requires
        m.dom().finite(),
        m.contains_key(p),
        m[p].id == id,
        paths_with(m, id).len() == 1,
    ensures
        forall|q: Seq<char>| m.remove(p).contains_key(q) ==> m.remove(p)[q].id != id,
        !ids_of(m.remove(p)).contains(id),
{
    let m2 = m.remove(p);
    lemma_paths_with_remove(m, p, id);
    assert(paths_with(m, id).contains(p));
    paths_with(m2, id).lemma_len0_is_empty();
    assert forall|q: Seq<char>| m2.contains_key(q) implies m2[q].id != id by {
        if m2[q].id == id {
            assert(paths_with(m2, id).contains(q));
        }
    }
}

proof fn lemma_swap_distinct(ik: Seq<ResourceId>, k: int)
    requires
        0 <= k < ik.len(),
        forall|i: int, j: int| 0 <= i < j < ik.len() ==> ik[i] != ik[j],
    ensures
        forall|a: int, b: int|
            0 <= a < b < swap_out(ik, k).len() ==> swap_out(ik, k)[a] != swap_out(ik, k)[b],
        forall|a: int|
            0 <= a < swap_out(ik, k).len() ==> swap_out(ik, k)[a] != ik[k],
{
    let n = ik.len() as int;
    let ik2 = swap_out(ik, k);
    assert forall|a: int, b: int| 0 <= a < b < ik2.len() implies ik2[a] != ik2[b] by {
        let a0 = if a == k { n - 1 } else { a };
        let b0 = if b == k { n - 1 } else { b };
        assert(ik2[a] == ik[a0]);
        assert(ik2[b] == ik[b0]);
        if a0 < b0 {
            assert(ik[a0] != ik[b0]);
        } else {
            assert(ik[b0] != ik[a0]);
        }
    }
    assert forall|a: int| 0 <= a < ik2.len() implies ik2[a] != ik[k] by {
        let a0 = if a == k { n - 1 } else { a };
        assert(ik2[a] == ik[a0]);
        if a0 < k {
            assert(ik[a0] != ik[k]);
        } else {
            assert(ik[k] != ik[a0]);
        }
    }
}

proof fn lemma_ids_intro(
    ik: Seq<ResourceId>,
    ip: Seq<String>,
    ic: Seq<usize>,
    m: Map<Seq<char>, IndexEntry>,
)
    requires
        ik.len() == ip.len(),
        ik.len() == ic.len(),
        forall|i: int, j: int| 0 <= i < j < ik.len() ==> ik[i] != ik[j],
        forall|i: int|
            0 <= i < ik.len() ==> {
                &&& ic[i] == paths_with(m, #[trigger] ik[i]).len()
                &&& ic[i] >= 1
                &&& m.contains_key(ip[i]@)
                &&& m[ip[i]@].id == ik[i]
            },
        forall|p: Seq<char>| #[trigger] m.contains_key(p) ==> exists|i: int| 0 <= i < ik.len() && ik[i] == m[p].id,
    ensures
        ids_ok(ik, ip, ic, m),
{
    reveal(ids_ok);
}

proof fn lemma_ids_drop_counts(
    ik: Seq<ResourceId>,
    ip: Seq<String>,
    ic: Seq<usize>,
    m: Map<Seq<char>, IndexEntry>,
    k: int,
    p: Seq<char>,
)
    requires
        ik.len() == ip.len(),
        ik.len() == ic.len(),
        forall|i: int, j: int| 0 <= i < j < ik.len() ==> ik[i] != ik[j],
        forall|i: int|
            0 <= i < ik.len() ==> {
                &&& ic[i] == paths_with(m, #[trigger] ik[i]).len()
                &&& ic[i] >= 1
                &&& m.contains_key(ip[i]@)
                &&& m[ip[i]@].id == ik[i]
            },
        m.dom().finite(),
        0 <= k < ik.len(),
        m.contains_key(p),
        m[p].id == ik[k],
    ensures
        forall|i: int|
            0 <= i < swap_out(ik, k).len() ==> {
                &&& swap_out(ic, k)[i] == paths_with(m.remove(p), #[trigger] swap_out(ik, k)[i]).len()
                &&& swap_out(ic, k)[i] >= 1
                &&& m.remove(p).contains_key(swap_out(ip, k)[i]@)
                &&& m.remove(p)[swap_out(ip, k)[i]@].id == swap_out(ik, k)[i]
            },
{
    let n = ik.len() as int;
    let m2 = m.remove(p);
    let ik2 = swap_out(ik, k);
    let ip2 = swap_out(ip, k);
    let ic2 = swap_out(ic, k);
    lemma_swap_distinct(ik, k);
    assert forall|i: int| 0 <= i < ik2.len() implies {
        &&& ic2[i] == paths_with(m2, #[trigger] ik2[i]).len()
        &&& ic2[i] >= 1
        &&& m2.contains_key(ip2[i]@)
        &&& m2[ip2[i]@].id == ik2[i]
    } by {
        let i0 = if i == k { n - 1 } else { i };
        assert(ik2[i] == ik[i0]);
        assert(ip2[i] == ip[i0]);
        assert(ic2[i] == ic[i0]);
        assert(ik2[i] != ik[k]);
        lemma_paths_with_remove(m, p, ik[i0]);
    }
}

proof fn lemma_ids_drop(
    ik: Seq<ResourceId>,
    ip: Seq<String>,
    ic: Seq<usize>,
    m: Map<Seq<char>, IndexEntry>,
    k: int,
    p: Seq<char>,
)
    requires
        ids_ok(ik, ip, ic, m),
        m.dom().finite(),
        0 <= k < ik.len(),
        m.contains_key(p),
        m[p].id == ik[k],
        ic[k] == 1,
    ensures
        ids_ok(swap_out(ik, k), swap_out(ip, k), swap_out(ic, k), m.remove(p)),
        !ids_of(m.remove(p)).contains(ik[k]),
{
    lemma_ids_facts(ik, ip, ic, m);
    let n = ik.len() as int;
    let id = ik[k];
    let m2 = m.remove(p);
    let ik2 = swap_out(ik, k);
    assert(ic[k] == paths_with(m, ik[k]).len());
    lemma_last_path(m, p, id);
    lemma_swap_distinct(ik, k);
    lemma_ids_drop_counts(ik, ip, ic, m, k, p);
    assert forall|q: Seq<char>| #[trigger] m2.contains_key(q) implies exists|i: int| 0 <= i < ik2.len() && ik2[i] == m2[q].id by {
        assert(m.contains_key(q));
        let i = choose|i: int| 0 <= i < n && ik[i] == m[q].id;
        assert(i != k);
        if i == n - 1 {
            assert(ik2[k] == m2[q].id);
        } else {
            assert(ik2[i] == m2[q].id);
        }
    }
    lemma_ids_intro(ik2, swap_out(ip, k), swap_out(ic, k), m2);
}

proof fn lemma_reps_drop(ik: Seq<ResourceId>, ip: Seq<String>, k: int)
    requires
        ik.len() == ip.len(),
        0 <= k < ik.len(),
        forall|i: int, j: int| 0 <= i < j < ik.len() ==> ik[i] != ik[j],
    ensures
        reps_of(swap_out(ik, k), swap_out(ip, k)) == reps_of(ik, ip).remove(ik[k]),
{
    let n = ik.len() as int;
    let ik2 = swap_out(ik, k);
    let ip2 = swap_out(ip, k);
    assert forall|a: int, b: int| 0 <= a < b < ik2.len() implies ik2[a] != ik2[b] by {
        let a0 = if a == k { n - 1 } else { a };
        let b0 = if b == k { n - 1 } else { b };
        assert(ik2[a] == ik[a0]);
        assert(ik2[b] == ik[b0]);
        if a0 < b0 {
            assert(ik[a0] != ik[b0]);
        } else {
            assert(ik[b0] != ik[a0]);
        }
    }
    let r1 = reps_of(ik2, ip2);
    let r0 = reps_of(ik, ip).remove(ik[k]);
    assert forall|id: ResourceId| r1.contains_key(id) == r0.contains_key(id) by {
        if exists|i: int| 0 <= i < ik2.len() && ik2[i] == id {
            let i = choose|i: int| 0 <= i < ik2.len() && ik2[i] == id;
            let i0 = if i == k { n - 1 } else { i };
            assert(ik2[i] == ik[i0]);
            if i0 < k {
                assert(ik[i0] != ik[k]);
            } else if i0 > k {
                assert(ik[k] != ik[i0]);
            }
        }
        if r0.contains_key(id) {
            let i = choose|i: int| 0 <= i < n && ik[i] == id;
            assert(i != k);
            if i == n - 1 {
                assert(ik2[k] == id);
            } else {
                assert(ik2[i] == id);
            }
        }
    }
    assert forall|id: ResourceId| #[trigger] r1.contains_key(id) implies r1[id] == r0[id] by {
        let i = choose|i: int| 0 <= i < ik2.len() && ik2[i] == id;
        let i0 = if i == k { n - 1 } else { i };
        lemma_reps_at(ik2, ip2, i);
        lemma_reps_at(ik, ip, i0);
    }
    assert(r1 =~= r0);
}

proof fn lemma_some_path(m: Map<Seq<char>, IndexEntry>, id: ResourceId)
    requires
        m.dom().finite(),
        paths_with(m, id).len() >= 1,
    ensures
        exists|q: Seq<char>| m.contains_key(q) && m[q].id == id,
        ids_of(m).contains(id),
{
    lemma_paths_with_bound(m, id);
    let q = paths_with(m, id).choose();
    assert(paths_with(m, id).contains(q));
}

/// The position of the first entry holding `id`, or the length if none does.
fn first_with_id(entries: &Vec<IndexEntry>, id: ResourceId) -> (r: usize)
    ensures
        r <= entries@.len(),
        r < entries@.len() ==> entries@[r as int].id == id,
        forall|j: int| 0 <= j < r ==> entries@[j].id != id,
{
    let mut j: usize = 0;
    while j < entries.len() && entries[j].id != id
        invariant
            j <= entries@.len(),
            forall|jj: int| 0 <= jj < j ==> entries@[jj].id != id,
        decreases entries@.len() - j,
    {
        j = j + 1;
    }
    j
}

/// How far, in milliseconds, a file's modification time must have moved
/// past the recorded one for the file to count as updated.
pub const RESOURCE_UPDATED_THRESHOLD: u64 = 1;

/// Whether a directory entry is hidden from the index: its name starts with
/// a dot. The walk skips hidden files and whole hidden directories.
pub fn is_hidden(name: &str) -> (r: bool)
    ensures
        r == (name@.len() > 0 && name@[0] == '.'),
{
    name.unicode_len() > 0 && name.get_char(0) == '.'
}

/// Whether a path can be indexed: a directory or an empty file is not a
/// resource.
pub fn check_candidate(is_dir: bool, size: u64) -> (r: Result<(), ArklibError>)
    ensures
        is_dir ==> r matches Err(ArklibError::Path(_)),
        !is_dir && size == 0 ==> r matches Err(ArklibError::Path(_)),
        !is_dir && size > 0 ==> r is Ok,
{
    if is_dir {
        return Err(ArklibError::Path("the path is expected to be a file".to_string()));
    }
    if size == 0 {
        return Err(ArklibError::Path("the file is empty".to_string()));
    }
    Ok(())
}

/// A path found by a walk of the root, with its modification time in
/// milliseconds when it could be read.
#[derive(Debug, Clone)]
pub struct Found {
    pub path: String,
    pub modified: Option<u64>,
}

/// The walk found `p`.
pub open spec fn in_walk(d: Seq<Found>, p: Seq<char>) -> bool {
    exists|i: int| 0 <= i < d.len() && d[i].path@ == p
}

/// The walk saw `p` modified at least the threshold after `prev`.
pub open spec fn advanced(d: Seq<Found>, p: Seq<char>, prev: u64) -> bool {
    exists|i: int|
        0 <= i < d.len() && d[i].path@ == p && d[i].modified.is_some()
            && d[i].modified.unwrap() >= prev + RESOURCE_UPDATED_THRESHOLD
}

/// An indexed path that is gone or was updated, and so leaves the index.
pub open spec fn stale(m: Map<Seq<char>, IndexEntry>, d: Seq<Found>, p: Seq<char>) -> bool {
    m.contains_key(p) && (!in_walk(d, p) || advanced(d, p, m[p].modified))
}

/// A path of the walk that is new or was updated, and so must be scanned.
pub open spec fn needs_scan(m: Map<Seq<char>, IndexEntry>, d: Seq<Found>, p: Seq<char>) -> bool {
    in_walk(d, p) && (!m.contains_key(p) || advanced(d, p, m[p].modified))
}

/// The indexed paths that stay.
pub open spec fn kept(m: Map<Seq<char>, IndexEntry>, d: Seq<Found>) -> Map<Seq<char>, IndexEntry> {
    m.remove_keys(m.dom().filter(|p: Seq<char>| stale(m, d, p)))
}

/// The identifiers whose every path leaves the index.
pub open spec fn deleted_ids(m: Map<Seq<char>, IndexEntry>, d: Seq<Found>) -> Set<ResourceId> {
    Set::new(
        |id: ResourceId|
            (exists|p: Seq<char>| stale(m, d, p) && m[p].id == id) && !ids_of(kept(m, d)).contains(id),
    )
}

/// The scanned entries that enter the index: the first one of each path that
/// needed a scan, unless a path that stays already holds its identifier.
pub open spec fn accepted(
    m: Map<Seq<char>, IndexEntry>,
    d: Seq<Found>,
    s: Seq<(String, IndexEntry)>,
) -> Map<Seq<char>, IndexEntry>
    decreases s.len(),
{
    if s.len() == 0 {
        Map::empty()
    } else {
        let a = accepted(m, d, s.drop_last());
        let p = s.last().0@;
        let e = s.last().1;
        if needs_scan(m, d, p) && !a.contains_key(p) && !ids_of(kept(m, d)).contains(e.id) {
            a.insert(p, e)
        } else {
            a
        }
    }
}

/// The entries of a scan, the first one of each path winning.
pub open spec fn first_wins(s: Seq<(String, IndexEntry)>) -> Map<Seq<char>, IndexEntry>
    decreases s.len(),
{
    if s.len() == 0 {
        Map::empty()
    } else {
        let a = first_wins(s.drop_last());
        if a.contains_key(s.last().0@) {
            a
        } else {
            a.insert(s.last().0@, s.last().1)
        }
    }
}

/// The map of path and identifier pairs.
pub open spec fn pairs_map(s: Seq<(String, ResourceId)>) -> Map<Seq<char>, ResourceId>
    decreases s.len(),
{
    if s.len() == 0 {
        Map::empty()
    } else {
        pairs_map(s.drop_last()).insert(s.last().0@, s.last().1)
    }
}

pub open spec fn ids_only(m: Map<Seq<char>, IndexEntry>) -> Map<Seq<char>, ResourceId> {
    m.map_values(|e: IndexEntry| e.id)
}

fn walk_has(d: &Vec<Found>, p: &String) -> (r: bool)
    ensures
        r == in_walk(d@, p@),
{
    let mut i: usize = 0;
    while i < d.len()
        invariant
            i <= d@.len(),
            forall|j: int| 0 <= j < i ==> d@[j].path@ != p@,
        decreases d@.len() - i,
    {
        if d[i].path == *p {
            return true;
        }
        i = i + 1;
    }
    false
}

fn walk_advanced(d: &Vec<Found>, p: &String, prev: u64) -> (r: bool)
    ensures
        r == advanced(d@, p@, prev),
{
    let mut i: usize = 0;
    while i < d.len()
        invariant
            i <= d@.len(),
            forall|j: int|
                0 <= j < i ==> !(d@[j].path@ == p@ && d@[j].modified.is_some()
                    && d@[j].modified.unwrap() >= prev + RESOURCE_UPDATED_THRESHOLD),
        decreases d@.len() - i,
    {
        if d[i].path == *p {
            match d[i].modified {
                Some(t) => {
                    if t >= prev && t - prev >= RESOURCE_UPDATED_THRESHOLD {
                        return true;
                    }
                },
                None => {},
            }
        }
        i = i + 1;
    }
    false
}

fn contains_id(v: &Vec<ResourceId>, id: ResourceId) -> (r: bool)
    ensures
        r == v@.contains(id),
{
    let mut i: usize = 0;
    while i < v.len()
        invariant
            i <= v@.len(),
            forall|j: int| 0 <= j < i ==> v@[j] != id,
        decreases v@.len() - i,
    {
        if v[i] == id {
            return true;
        }
        i = i + 1;
    }
    false
}

/// The paths of a list of path texts.
pub open spec fn seq_paths(s: Seq<String>) -> Set<Seq<char>> {
    Set::new(|p: Seq<char>| exists|k: int| 0 <= k < s.len() && s[k]@ == p)
}

/// The identifiers held in `m` by a path of `ks` that no path of `c` holds.
pub open spec fn gone_ids(
    m: Map<Seq<char>, IndexEntry>,
    ks: Set<Seq<char>>,
    c: Map<Seq<char>, IndexEntry>,
) -> Set<ResourceId> {
    Set::new(
        |id: ResourceId| (exists|q: Seq<char>| ks.contains(q) && m[q].id == id) && !ids_of(c).contains(id),
    )
}

proof fn lemma_gone_step(
    m: Map<Seq<char>, IndexEntry>,
    ks: Set<Seq<char>>,
    p: Seq<char>,
    gone: bool,
)
    requires
        m.contains_key(p),
        !ks.contains(p),
        gone == !ids_of(m.remove_keys(ks).remove(p)).contains(m[p].id),
    ensures
        m.remove_keys(ks.insert(p)) == m.remove_keys(ks).remove(p),
        gone ==> gone_ids(m, ks.insert(p), m.remove_keys(ks).remove(p)) == gone_ids(
            m,
            ks,
            m.remove_keys(ks),
        ).insert(m[p].id),
        !gone ==> gone_ids(m, ks.insert(p), m.remove_keys(ks).remove(p)) == gone_ids(
            m,
            ks,
            m.remove_keys(ks),
        ),
        !gone_ids(m, ks, m.remove_keys(ks)).contains(m[p].id),
{
    let c = m.remove_keys(ks);
    let c2 = c.remove(p);
    let x = m[p].id;
    assert(m.remove_keys(ks.insert(p)) =~= c2);
    assert(c.contains_key(p) && c[p].id == x);
    assert(ids_of(c).contains(x));
    assert forall|id: ResourceId| id != x implies (ids_of(c2).contains(id) == ids_of(c).contains(id)) by {
        if ids_of(c).contains(id) {
            let q = choose|q: Seq<char>| c.contains_key(q) && c[q].id == id;
            assert(c2.contains_key(q) && c2[q].id == id);
        }
        if ids_of(c2).contains(id) {
            let q = choose|q: Seq<char>| c2.contains_key(q) && c2[q].id == id;
            assert(c.contains_key(q) && c[q].id == id);
        }
    }
    let lhs = gone_ids(m, ks.insert(p), c2);
    let old_set = gone_ids(m, ks, c);
    assert forall|id: ResourceId| id != x implies (lhs.contains(id) == old_set.contains(id)) by {
        assert(ids_of(c2).contains(id) == ids_of(c).contains(id));
        if exists|q: Seq<char>| ks.insert(p).contains(q) && m[q].id == id {
            let q = choose|q: Seq<char>| ks.insert(p).contains(q) && m[q].id == id;
            assert(q != p);
            assert(ks.contains(q));
        }
        if exists|q: Seq<char>| ks.contains(q) && m[q].id == id {
            let q = choose|q: Seq<char>| ks.contains(q) && m[q].id == id;
            assert(ks.insert(p).contains(q));
        }
    }
    assert(ks.insert(p).contains(p) && m[p].id == x);
    if gone {
        assert(lhs =~= old_set.insert(x));
    } else {
        assert(lhs =~= old_set);
    }
}

proof fn lemma_needs_scan(m: Map<Seq<char>, IndexEntry>, d: Seq<Found>, p: Seq<char>)
    ensures
        needs_scan(m, d, p) == (in_walk(d, p) && !kept(m, d).contains_key(p)),
{
}

proof fn lemma_push_to_set<T>(s: Seq<T>, x: T)
    ensures
        s.push(x).to_set() == s.to_set().insert(x),
{
    assert forall|y: T| s.push(x).to_set().contains(y) == s.to_set().insert(x).contains(y) by {
        if s.push(x).contains(y) && y != x {
            let i = choose|i: int| 0 <= i < s.push(x).len() && s.push(x)[i] == y;
            assert(s[i] == y);
        }
        if s.contains(y) {
            let i = choose|i: int| 0 <= i < s.len() && s[i] == y;
            assert(s.push(x)[i] == y);
        }
        if y == x {
            assert(s.push(x)[s.len() as int] == y);
        }
    }
    assert(s.push(x).to_set() =~= s.to_set().insert(x));
}

/// The order of entries: by modification time, then size, then checksum.
pub open spec fn entry_le(a: IndexEntry, b: IndexEntry) -> bool {
    a.modified < b.modified || (a.modified == b.modified && (a.id.data_size < b.id.data_size || (
    a.id.data_size == b.id.data_size && a.id.hash <= b.id.hash)))
}

pub fn entry_le_exec(a: &IndexEntry, b: &IndexEntry) -> (r: bool)
    ensures
        r == entry_le(*a, *b),
{
    a.modified < b.modified || (a.modified == b.modified && (a.id.data_size < b.id.data_size || (
    a.id.data_size == b.id.data_size && a.id.hash <= b.id.hash)))
}

/// An index of the resources stored as files under a root.
///
/// It maps each indexed path to its entry, each identifier to one
/// representative path, and counts the identifiers that several paths share.
pub struct ResourceIndex {
    file_paths: Vec<String>,
    file_entries: Vec<IndexEntry>,
    id_keys: Vec<ResourceId>,
    id_paths: Vec<String>,
    id_counts: Vec<usize>,
    paths: Ghost<Map<Seq<char>, IndexEntry>>,
    root: String,
}

impl ResourceIndex {
    /// Each indexed path with its entry.
    pub closed spec fn path2id(&self) -> Map<Seq<char>, IndexEntry> {
        self.paths@
    }

    /// The representative path of each indexed identifier.
    pub closed spec fn id2path(&self) -> Map<ResourceId, Seq<char>> {
        reps_of(self.id_keys@, self.id_paths@)
    }

    pub closed spec fn root_path(&self) -> Seq<char> {
        self.root@
    }

    /// The identifiers shared by several paths, with their number of paths.
    pub open spec fn collisions(&self) -> Map<ResourceId, nat> {
        collision_map(self.path2id())
    }

    pub closed spec fn wf(&self) -> bool {
        &&& files_ok(self.file_paths@, self.file_entries@, self.paths@)
        &&& ids_ok(self.id_keys@, self.id_paths@, self.id_counts@, self.paths@)
    }

    /// The representative paths agree with the indexed paths.
    pub proof fn lemma_consistent(&self)
        requires
            self.wf(),
        ensures
            reps_consistent(self.path2id(), self.id2path()),
            self.path2id().dom().finite(),
    {
        let m = self.paths@;
        let ik = self.id_keys@;
        let ip = self.id_paths@;
        let reps = self.id2path();
        lemma_files_facts(self.file_paths@, self.file_entries@, m);
        lemma_ids_facts(ik, ip, self.id_counts@, m);
        assert forall|id: ResourceId| reps.contains_key(id) implies ids_of(m).contains(id) by {
            let i = choose|i: int| 0 <= i < ik.len() && ik[i] == id;
            assert(m.contains_key(ip[i]@));
        }
        assert forall|id: ResourceId| ids_of(m).contains(id) implies reps.contains_key(id) by {
            let p = choose|p: Seq<char>| m.contains_key(p) && m[p].id == id;
            assert(m.contains_key(p));
        }
        assert(reps.dom() =~= ids_of(m));
        assert forall|id: ResourceId| #[trigger]
            reps.contains_key(id) implies m.contains_key(reps[id]) && m[reps[id]].id == id by {
            let i = choose|i: int| 0 <= i < ik.len() && ik[i] == id;
            lemma_reps_at(ik, ip, i);
        }
    }

    /// An empty index over `root`.
    pub fn new(root: String) -> (r: Self)
        ensures
            r.wf(),
            r.path2id() == Map::<Seq<char>, IndexEntry>::empty(),
            r.id2path() == Map::<ResourceId, Seq<char>>::empty(),
            r.root_path() == root@,
    {
        let r = ResourceIndex {
            file_paths: Vec::new(),
            file_entries: Vec::new(),
            id_keys: Vec::new(),
            id_paths: Vec::new(),
            id_counts: Vec::new(),
            paths: Ghost(Map::empty()),
            root,
        };
        assert(r.paths@.dom() =~= Set::<Seq<char>>::empty());
        assert(r.id2path() =~= Map::<ResourceId, Seq<char>>::empty());
        proof {
            reveal(files_ok);
            reveal(ids_ok);
        }
        r
    }

    fn find_file(&self, path: &String) -> (r: Option<usize>)
        requires
            self.wf(),
        ensures
            match r {
                Some(i) => i < self.file_paths@.len() && self.file_paths@[i as int]@ == path@
                    && self.path2id().contains_key(path@),
                None => !self.path2id().contains_key(path@),
            },
    {
        proof {
            lemma_files_facts(self.file_paths@, self.file_entries@, self.paths@);
        }
        let mut i: usize = 0;
        while i < self.file_paths.len()
            invariant
                self.wf(),
                i <= self.file_paths@.len(),
                forall|j: int| 0 <= j < i ==> self.file_paths@[j]@ != path@,
            decreases self.file_paths@.len() - i,
        {
            if self.file_paths[i] == *path {
                proof {
                    lemma_files_facts(self.file_paths@, self.file_entries@, self.paths@);
                    assert(self.paths@.contains_key(self.file_paths@[i as int]@));
                }
                return Some(i);
            }
            i = i + 1;
        }
        None
    }

    fn find_id(&self, id: ResourceId) -> (r: Option<usize>)
        requires
            self.wf(),
        ensures
            match r {
                Some(i) => i < self.id_keys@.len() && self.id_keys@[i as int] == id,
                None => forall|j: int| 0 <= j < self.id_keys@.len() ==> self.id_keys@[j] != id,
            },
    {
        proof {
            lemma_ids_facts(self.id_keys@, self.id_paths@, self.id_counts@, self.paths@);
        }
        let mut i: usize = 0;
        while i < self.id_keys.len()
            invariant
                self.wf(),
                i <= self.id_keys@.len(),
                forall|j: int| 0 <= j < i ==> self.id_keys@[j] != id,
            decreases self.id_keys@.len() - i,
        {
            if self.id_keys[i] == id {
                return Some(i);
            }
            i = i + 1;
        }
        None
    }

    /// Adds a path that is not indexed yet. The first path of an identifier
    /// becomes its representative; a later one only adds to its count.
    fn insert_entry(&mut self, path: String, entry: IndexEntry)
        requires
            old(self).wf(),
            !old(self).path2id().contains_key(path@),
            old(self).path2id().dom().len() < usize::MAX,
        ensures
            final(self).wf(),
            final(self).path2id() == old(self).path2id().insert(path@, entry),
            old(self).id2path().contains_key(entry.id) ==> final(self).id2path() == old(
                self,
            ).id2path(),
            !old(self).id2path().contains_key(entry.id) ==> final(self).id2path() == old(
                self,
            ).id2path().insert(entry.id, path@),
            final(self).root_path() == old(self).root_path(),
    {
        let ghost m = self.paths@;
        proof {
            lemma_files_facts(self.file_paths@, self.file_entries@, m);
            lemma_ids_facts(self.id_keys@, self.id_paths@, self.id_counts@, m);
            lemma_paths_with_insert(m, path@, entry, entry.id);
            lemma_paths_with_bound(m.insert(path@, entry), entry.id);
            assert(m.insert(path@, entry).dom() =~= m.dom().insert(path@));
            lemma_files_push(self.file_paths@, self.file_entries@, m, path, entry);
        }
        match self.find_id(entry.id) {
            Some(k) => {
                proof {
                    lemma_ids_bump(
                        self.id_keys@,
                        self.id_paths@,
                        self.id_counts@,
                        m,
                        k as int,
                        path@,
                        entry,
                    );
                    lemma_reps_at(self.id_keys@, self.id_paths@, k as int);
                }
                let c = self.id_counts[k];
                self.id_counts.set(k, c + 1);
            },
            None => {
                proof {
                    lemma_ids_new(self.id_keys@, self.id_paths@, self.id_counts@, m, path, entry);
                    lemma_reps_push(self.id_keys@, self.id_paths@, path, entry);
                }
                self.id_keys.push(entry.id);
                self.id_paths.push(path.clone());
                self.id_counts.push(1);
            },
        }
        self.file_paths.push(path);
        self.file_entries.push(entry);
        self.paths = Ghost(m.insert(path@, entry));
    }

    /// Removes `path` with the collision protocol: the count of its
    /// identifier drops, the identifier leaves with its last path, and a
    /// representative that was removed is replaced by a surviving path.
    /// Returns the entry the path held and whether its identifier left.
    #[verifier::rlimit(50)]
    fn remove_path(&mut self, path: &String) -> (r: Option<(IndexEntry, bool)>)
        requires
            old(self).wf(),
        ensures
            final(self).wf(),
            final(self).root_path() == old(self).root_path(),
            match r {
                None => {
                    &&& !old(self).path2id().contains_key(path@)
                    &&& final(self).path2id() == old(self).path2id()
                    &&& final(self).id2path() == old(self).id2path()
                },
                Some((e, gone)) => {
                    &&& old(self).path2id().contains_key(path@)
                    &&& e == old(self).path2id()[path@]
                    &&& final(self).path2id() == old(self).path2id().remove(path@)
                    &&& gone == !ids_of(final(self).path2id()).contains(e.id)
                    &&& gone ==> final(self).id2path() == old(self).id2path().remove(e.id)
                    &&& !gone ==> final(self).id2path() == old(self).id2path().insert(
                        e.id,
                        final(self).id2path()[e.id],
                    )
                    &&& !gone && old(self).id2path()[e.id] != path@ ==> final(self).id2path()
                        == old(self).id2path()
                },
            },
    {
        let i = match self.find_file(path) {
            None => return None,
            Some(i) => i,
        };
        let ghost m = self.paths@;
        let ghost m2 = m.remove(path@);
        let ghost fp = self.file_paths@;
        let ghost fe = self.file_entries@;
        let ghost ik = self.id_keys@;
        let ghost ip = self.id_paths@;
        let ghost ic = self.id_counts@;
        proof {
            lemma_files_facts(fp, fe, m);
            lemma_ids_facts(ik, ip, ic, m);
        }
        let e = self.file_entries[i];
        proof {
            assert(m[path@] == e);
        }
        let k = match self.find_id(e.id) {
            Some(k) => k,
            None => {
                proof {
                    let j = choose|j: int| 0 <= j < ik.len() && ik[j] == m[path@].id;
                    assert(false);
                }
                return None;
            },
        };
        proof {
            lemma_reps_at(ik, ip, k as int);
            lemma_paths_with_remove(m, path@, e.id);
            lemma_files_swap(fp, fe, m, i as int);
        }
        self.file_paths.swap_remove(i);
        self.file_entries.swap_remove(i);
        self.paths = Ghost(m2);
        let c = self.id_counts[k];
        if c == 1 {
            self.id_keys.swap_remove(k);
            self.id_paths.swap_remove(k);
            self.id_counts.swap_remove(k);
            proof {
                lemma_ids_drop(ik, ip, ic, m, k as int, path@);
                lemma_reps_drop(ik, ip, k as int);
            }
            Some((e, true))
        } else {
            proof {
                lemma_some_path(m2, e.id);
                lemma_files_facts(self.file_paths@, self.file_entries@, m2);
            }
            if self.id_paths[k] == *path {
                let j = first_with_id(&self.file_entries, e.id);
                if j == self.file_entries.len() {
                    proof {
                        let q = choose|q: Seq<char>| m2.contains_key(q) && m2[q].id == e.id;
                        let jj = choose|jj: int|
                            0 <= jj < self.file_paths@.len() && self.file_paths@[jj]@ == q;
                        assert(self.file_entries@[jj].id == e.id);
                    }
                    return None;
                }
                let rep = self.file_paths[j].clone();
                proof {
                    lemma_ids_dec(ik, ip, ic, m, k as int, path@, rep);
                    lemma_reps_update(ik, ip, k as int, rep);
                }
                self.id_paths.set(k, rep);
            } else {
                proof {
                    lemma_ids_dec(ik, ip, ic, m, k as int, path@, ip[k as int]);
                    lemma_reps_update(ik, ip, k as int, ip[k as int]);
                    assert(ip.update(k as int, ip[k as int]) == ip);
                    assert(reps_of(ik, ip).insert(ik[k as int], ip[k as int]@) == reps_of(ik, ip));
                }
            }
            self.id_counts.set(k, c - 1);
            Some((e, false))
        }
    }

    /// Whether `path` is indexed.
    pub fn contains_path(&self, path: &String) -> (r: bool)
        requires
            self.wf(),
        ensures
            r == self.path2id().contains_key(path@),
    {
        self.find_file(path).is_some()
    }

    /// An index over `root` holding the scanned entries; where a path comes
    /// twice, its first entry is kept.
    pub fn build(root: String, scanned: Vec<(String, IndexEntry)>) -> (r: Self)
        ensures
            r.wf(),
            r.path2id() == first_wins(scanned@),
            r.root_path() == root@,
    {
        let ghost root_view = root@;
        let mut index = ResourceIndex::new(root);
        let mut i: usize = 0;
        while i < scanned.len()
            invariant
                index.wf(),
                i <= scanned@.len(),
                index.path2id() == first_wins(scanned@.take(i as int)),
                index.path2id().dom().len() <= i,
                index.root_path() == root_view,
            decreases scanned@.len() - i,
        {
            proof {
                assert(scanned@.take(i + 1).drop_last() =~= scanned@.take(i as int));
                lemma_files_facts(index.file_paths@, index.file_entries@, index.paths@);
            }
            let path = &scanned[i].0;
            let entry = scanned[i].1;
            if !index.contains_path(path) {
                proof {
                    assert(index.path2id().insert(path@, entry).dom() =~= index.path2id().dom().insert(path@));
                }
                index.insert_entry(path.clone(), entry);
            }
            i = i + 1;
        }
        proof {
            assert(scanned@.take(scanned@.len() as int) =~= scanned@);
        }
        index
    }

    /// The indexed paths that a walk shows gone or updated.
    fn stale_paths(&self, d: &Vec<Found>) -> (r: Vec<String>)
        requires
            self.wf(),
        ensures
            forall|a: int, b: int| 0 <= a < b < r@.len() ==> r@[a]@ != r@[b]@,
            forall|k: int| 0 <= k < r@.len() ==> stale(self.path2id(), d@, #[trigger] r@[k]@),
            forall|p: Seq<char>|
                stale(self.path2id(), d@, p) ==> exists|k: int| 0 <= k < r@.len() && r@[k]@ == p,
    {
        let ghost m = self.paths@;
        proof {
            lemma_files_facts(self.file_paths@, self.file_entries@, m);
        }
        let mut r: Vec<String> = Vec::new();
        let mut i: usize = 0;
        while i < self.file_paths.len()
            invariant
                files_ok(self.file_paths@, self.file_entries@, m),
                self.file_paths@.len() == self.file_entries@.len(),
                m == self.paths@,
                i <= self.file_paths@.len(),
                forall|a: int, b: int| 0 <= a < b < r@.len() ==> r@[a]@ != r@[b]@,
                forall|k: int| 0 <= k < r@.len() ==> stale(m, d@, #[trigger] r@[k]@),
                forall|k: int|
                    0 <= k < r@.len() ==> exists|j: int| 0 <= j < i && self.file_paths@[j]@ == #[trigger] r@[k]@,
                forall|j: int|
                    0 <= j < i && stale(m, d@, #[trigger] self.file_paths@[j]@) ==> exists|k: int|
                        0 <= k < r@.len() && r@[k]@ == self.file_paths@[j]@,
            decreases self.file_paths@.len() - i,
        {
            proof {
                lemma_files_facts(self.file_paths@, self.file_entries@, m);
            }
            let path = &self.file_paths[i];
            let prev = self.file_entries[i].modified;
            let gone = !walk_has(d, path);
            let doomed = gone || walk_advanced(d, path, prev);
            let ghost r0 = r@;
            if doomed {
                proof {
                    assert forall|k: int| 0 <= k < r@.len() implies r@[k]@ != path@ by {
                        let j = choose|j: int| 0 <= j < i && self.file_paths@[j]@ == r@[k]@;
                    }
                }
                r.push(path.clone());
                proof {
                    let n = r@.len() - 1;
                    assert(r@[n]@ == self.file_paths@[i as int]@);
                }
            }
            proof {
                assert(m[self.file_paths@[i as int]@] == self.file_entries@[i as int]);
                assert forall|j: int|
                    0 <= j < i + 1 && stale(m, d@, #[trigger] self.file_paths@[j]@) implies exists|k: int|
                        0 <= k < r@.len() && r@[k]@ == self.file_paths@[j]@ by {
                    if j == i {
                        assert(doomed);
                        assert(r@[r@.len() - 1]@ == self.file_paths@[j]@);
                    } else {
                        let k = choose|k: int| 0 <= k < r0.len() && r0[k]@ == self.file_paths@[j]@;
                        assert(r@[k] == r0[k]);
                    }
                }
            }
            i = i + 1;
        }
        proof {
            assert forall|p: Seq<char>| stale(m, d@, p) implies exists|k: int| 0 <= k < r@.len() && r@[k]@ == p by {
                let j = choose|j: int| 0 <= j < self.file_paths@.len() && self.file_paths@[j]@ == p;
                assert(stale(m, d@, self.file_paths@[j]@));
            }
        }
        r
    }

    fn id_list(&self) -> (r: Vec<ResourceId>)
        ensures
            r@ == self.id_keys@,
    {
        let mut base: Vec<ResourceId> = Vec::new();
        let mut j: usize = 0;
        while j < self.id_keys.len()
            invariant
                j <= self.id_keys@.len(),
                base@ == self.id_keys@.take(j as int),
            decreases self.id_keys@.len() - j,
        {
            base.push(self.id_keys[j]);
            proof {
                assert(self.id_keys@.take(j + 1) =~= self.id_keys@.take(j as int).push(self.id_keys@[j as int]));
            }
            j = j + 1;
        }
        proof {
            assert(self.id_keys@.take(self.id_keys@.len() as int) =~= self.id_keys@);
        }
        base
    }

    /// Removes the given distinct indexed paths, collecting the identifiers
    /// that left with them.
    fn drop_paths(&mut self, doomed: &Vec<String>) -> (deleted: Vec<ResourceId>)
        requires
            old(self).wf(),
            forall|a: int, b: int| 0 <= a < b < doomed@.len() ==> doomed@[a]@ != doomed@[b]@,
            forall|k: int| 0 <= k < doomed@.len() ==> old(self).path2id().contains_key(#[trigger] doomed@[k]@),
        ensures
            final(self).wf(),
            final(self).root_path() == old(self).root_path(),
            final(self).path2id() == old(self).path2id().remove_keys(seq_paths(doomed@)),
            deleted@.to_set() == gone_ids(old(self).path2id(), seq_paths(doomed@), final(self).path2id()),
            forall|a: int, b: int| 0 <= a < b < deleted@.len() ==> deleted@[a] != deleted@[b],
    {
        let ghost m = self.paths@;
        let ghost root_view = self.root@;
        let mut deleted: Vec<ResourceId> = Vec::new();
        let mut t: usize = 0;
        proof {
            assert(seq_paths(doomed@.take(0)) =~= Set::<Seq<char>>::empty());
            assert(m.remove_keys(Set::<Seq<char>>::empty()) =~= m);
            assert(deleted@.to_set() =~= gone_ids(m, Set::<Seq<char>>::empty(), m));
        }
        while t < doomed.len()
            invariant
                self.wf(),
                self.root@ == root_view,
                t <= doomed@.len(),
                forall|a: int, b: int| 0 <= a < b < doomed@.len() ==> doomed@[a]@ != doomed@[b]@,
                forall|k: int| 0 <= k < doomed@.len() ==> m.contains_key(#[trigger] doomed@[k]@),
                self.path2id() == m.remove_keys(seq_paths(doomed@.take(t as int))),
                deleted@.to_set() == gone_ids(m, seq_paths(doomed@.take(t as int)), self.path2id()),
                forall|a: int, b: int| 0 <= a < b < deleted@.len() ==> deleted@[a] != deleted@[b],
            decreases doomed@.len() - t,
        {
            let ghost ks = seq_paths(doomed@.take(t as int));
            let ghost p = doomed@[t as int]@;
            proof {
                let s1 = doomed@.take(t + 1);
                let s0 = doomed@.take(t as int);
                assert forall|q: Seq<char>| seq_paths(s1).contains(q) == ks.insert(p).contains(q) by {
                    if seq_paths(s1).contains(q) {
                        let k = choose|k: int| 0 <= k < s1.len() && s1[k]@ == q;
                        if k < t {
                            assert(s0[k]@ == q);
                        }
                    }
                    if ks.contains(q) {
                        let k = choose|k: int| 0 <= k < s0.len() && s0[k]@ == q;
                        assert(s1[k]@ == q);
                    }
                    if q == p {
                        assert(s1[t as int]@ == q);
                    }
                }
                assert(seq_paths(doomed@.take(t + 1)) =~= ks.insert(p));
                assert(!ks.contains(p)) by {
                    if ks.contains(p) {
                        let k = choose|k: int| 0 <= k < doomed@.take(t as int).len() && doomed@.take(t as int)[k]@ == p;
                        assert(doomed@[k]@ != doomed@[t as int]@);
                    }
                }
                assert(m.contains_key(p));
            }
            let removed = self.remove_path(&doomed[t]);
            match removed {
                Some((e, gone)) => {
                    proof {
                        lemma_gone_step(m, ks, p, gone);
                    }
                    if gone {
                        proof {
                            assert forall|a: int| 0 <= a < deleted@.len() implies deleted@[a] != e.id by {
                                assert(deleted@.to_set().contains(deleted@[a]));
                            }
                        }
                        let ghost d0 = deleted@;
                        deleted.push(e.id);
                        proof {
                            lemma_push_to_set(d0, e.id);
                        }
                    }
                },
                None => {
                    proof {
                        assert(false);
                    }
                },
            }
            t = t + 1;
        }
        proof {
            assert(doomed@.take(doomed@.len() as int) =~= doomed@);
        }
        deleted
    }

    /// Inserts the scanned entries that `accepted` lets in, over an index
    /// that holds the kept paths of `m0`.
    #[verifier::rlimit(60)]
    fn insert_scanned(
        &mut self,
        d: &Vec<Found>,
        scanned: &Vec<(String, IndexEntry)>,
        Ghost(m0): Ghost<Map<Seq<char>, IndexEntry>>,
    ) -> (added: Vec<(String, ResourceId)>)
        requires
            old(self).wf(),
            old(self).path2id() == kept(m0, d@),
            old(self).path2id().dom().len() + scanned@.len() < usize::MAX,
        ensures
            final(self).wf(),
            final(self).root_path() == old(self).root_path(),
            final(self).path2id() == kept(m0, d@).union_prefer_right(accepted(m0, d@, scanned@)),
            pairs_map(added@) == ids_only(accepted(m0, d@, scanned@)),
            forall|a: int, b: int| 0 <= a < b < added@.len() ==> added@[a].0@ != added@[b].0@,
    {
        let ghost k0 = kept(m0, d@);
        let ghost root_view = self.root@;
        let base = self.id_list();
        proof {
            self.lemma_consistent();
            assert forall|id: ResourceId| base@.contains(id) == ids_of(k0).contains(id) by {
                if base@.contains(id) {
                    let i = choose|i: int| 0 <= i < base@.len() && base@[i] == id;
                    assert(self.id2path().contains_key(id));
                }
                if ids_of(k0).contains(id) {
                    assert(self.id2path().contains_key(id));
                    let i = choose|i: int| 0 <= i < self.id_keys@.len() && self.id_keys@[i] == id;
                    assert(base@[i] == id);
                }
            }
            assert(accepted(m0, d@, scanned@.take(0)) =~= Map::<Seq<char>, IndexEntry>::empty());
            assert(k0.union_prefer_right(Map::<Seq<char>, IndexEntry>::empty()) =~= k0);
            assert(ids_only(Map::<Seq<char>, IndexEntry>::empty()) =~= Map::<Seq<char>, ResourceId>::empty());
        }
        let mut added: Vec<(String, ResourceId)> = Vec::new();
        let mut t: usize = 0;
        while t < scanned.len()
            invariant
                self.wf(),
                self.root@ == root_view,
                t <= scanned@.len(),
                k0 == kept(m0, d@),
                k0.dom().len() + scanned@.len() < usize::MAX,
                forall|id: ResourceId| base@.contains(id) == ids_of(k0).contains(id),
                self.path2id() == k0.union_prefer_right(accepted(m0, d@, scanned@.take(t as int))),
                forall|q: Seq<char>| accepted(m0, d@, scanned@.take(t as int)).contains_key(q) ==> !k0.contains_key(q),
                self.path2id().dom().len() <= k0.dom().len() + t,
                pairs_map(added@) == ids_only(accepted(m0, d@, scanned@.take(t as int))),
                forall|k: int| 0 <= k < added@.len() ==> accepted(m0, d@, scanned@.take(t as int)).contains_key(#[trigger] added@[k].0@),
                forall|a: int, b: int| 0 <= a < b < added@.len() ==> added@[a].0@ != added@[b].0@,
            decreases scanned@.len() - t,
        {
            let ghost a = accepted(m0, d@, scanned@.take(t as int));
            let path = &scanned[t].0;
            let entry = scanned[t].1;
            proof {
                assert(scanned@.take(t + 1).drop_last() =~= scanned@.take(t as int));
                lemma_needs_scan(m0, d@, path@);
                lemma_files_facts(self.file_paths@, self.file_entries@, self.paths@);
            }
            if walk_has(d, path) && !self.contains_path(path) && !contains_id(&base, entry.id) {
                proof {
                    assert(self.path2id().insert(path@, entry).dom() =~= self.path2id().dom().insert(path@));
                    assert(k0.union_prefer_right(a.insert(path@, entry)) =~= self.path2id().insert(path@, entry));
                    assert(ids_only(a.insert(path@, entry)) =~= ids_only(a).insert(path@, entry.id));
                }
                self.insert_entry(path.clone(), entry);
                let ghost a0 = added@;
                added.push((path.clone(), entry.id));
                proof {
                    assert(added@.drop_last() =~= a0);
                    assert(accepted(m0, d@, scanned@.take(t + 1)) == a.insert(path@, entry));
                    assert forall|k: int| 0 <= k < added@.len() - 1 implies added@[k].0@ != path@ by {
                        assert(a.contains_key(added@[k].0@));
                    }
                }
            } else {
                proof {
                    assert(accepted(m0, d@, scanned@.take(t + 1)) == a);
                }
            }
            t = t + 1;
        }
        proof {
            assert(scanned@.take(scanned@.len() as int) =~= scanned@);
        }
        added
    }

    /// Brings the index up to date with a walk of its root.
    ///
    /// `discovered` holds the paths the walk found. `scanned` holds fresh
    /// entries for the paths that `paths_to_scan` named, those that could be
    /// read. Paths gone from the walk and paths modified since they were
    /// indexed leave the index; their identifiers are reported deleted when
    /// no path keeps them. Scanned entries then enter, unless a path that
    /// stayed already holds their identifier, and are reported added.
    pub fn update_all(&mut self, discovered: &Vec<Found>, scanned: &Vec<(String, IndexEntry)>) -> (r: IndexUpdate)
        requires
            old(self).wf(),
            old(self).path2id().dom().len() + scanned@.len() < usize::MAX,
        ensures
            final(self).wf(),
            final(self).root_path() == old(self).root_path(),
            final(self).path2id() == kept(old(self).path2id(), discovered@).union_prefer_right(
                accepted(old(self).path2id(), discovered@, scanned@),
            ),
            r.deleted@.to_set() == deleted_ids(old(self).path2id(), discovered@),
            forall|a: int, b: int| 0 <= a < b < r.deleted@.len() ==> r.deleted@[a] != r.deleted@[b],
            pairs_map(r.added@) == ids_only(accepted(old(self).path2id(), discovered@, scanned@)),
            forall|a: int, b: int| 0 <= a < b < r.added@.len() ==> r.added@[a].0@ != r.added@[b].0@,
    {
        let ghost m = self.paths@;
        proof {
            lemma_files_facts(self.file_paths@, self.file_entries@, self.paths@);
        }
        let doomed = self.stale_paths(discovered);
        proof {
            assert forall|k: int| 0 <= k < doomed@.len() implies m.contains_key(#[trigger] doomed@[k]@) by {
                assert(stale(m, discovered@, doomed@[k]@));
            }
        }
        let deleted = self.drop_paths(&doomed);
        proof {
            let ks = m.dom().filter(|p: Seq<char>| stale(m, discovered@, p));
            assert(seq_paths(doomed@) =~= ks) by {
                assert forall|p: Seq<char>| seq_paths(doomed@).contains(p) implies ks.contains(p) by {
                    let k = choose|k: int| 0 <= k < doomed@.len() && doomed@[k]@ == p;
                    assert(stale(m, discovered@, doomed@[k]@));
                }
            }
            assert(gone_ids(m, ks, kept(m, discovered@)) =~= deleted_ids(m, discovered@)) by {
                assert forall|id: ResourceId| gone_ids(m, ks, kept(m, discovered@)).contains(id) implies deleted_ids(m, discovered@).contains(id) by {
                    let q = choose|q: Seq<char>| ks.contains(q) && m[q].id == id;
                    assert(stale(m, discovered@, q));
                }
                assert forall|id: ResourceId| deleted_ids(m, discovered@).contains(id) implies gone_ids(m, ks, kept(m, discovered@)).contains(id) by {
                    let q = choose|q: Seq<char>| stale(m, discovered@, q) && m[q].id == id;
                    assert(ks.contains(q));
                }
            }
            lemma_len_subset(kept(m, discovered@).dom(), m.dom());
        }
        let added = self.insert_scanned(discovered, scanned, Ghost(m));
        IndexUpdate { deleted, added }
    }

    /// The paths of a walk that are new or modified, which need a scan
    /// before `update_all`.
    pub fn paths_to_scan(&self, discovered: &Vec<Found>) -> (r: Vec<String>)
        requires
            self.wf(),
        ensures
            forall|k: int| 0 <= k < r@.len() ==> needs_scan(self.path2id(), discovered@, #[trigger] r@[k]@),
            forall|p: Seq<char>|
                needs_scan(self.path2id(), discovered@, p) ==> exists|k: int| 0 <= k < r@.len() && r@[k]@ == p,
    {
        let mut r: Vec<String> = Vec::new();
        let mut i: usize = 0;
        while i < discovered.len()
            invariant
                self.wf(),
                i <= discovered@.len(),
                forall|k: int| 0 <= k < r@.len() ==> needs_scan(self.path2id(), discovered@, #[trigger] r@[k]@),
                forall|j: int|
                    0 <= j < i && needs_scan(self.path2id(), discovered@, #[trigger] discovered@[j].path@)
                        ==> exists|k: int| 0 <= k < r@.len() && r@[k]@ == discovered@[j].path@,
            decreases discovered@.len() - i,
        {
            let path = &discovered[i].path;
            let ghost r0 = r@;
            proof {
                assert(in_walk(discovered@, path@));
            }
            let wanted = match self.get_entry(path) {
                None => true,
                Some(e) => walk_advanced(discovered, path, e.modified),
            };
            if wanted {
                r.push(path.clone());
            }
            proof {
                assert forall|j: int|
                    0 <= j < i + 1 && needs_scan(self.path2id(), discovered@, #[trigger] discovered@[j].path@)
                        implies exists|k: int| 0 <= k < r@.len() && r@[k]@ == discovered@[j].path@ by {
                    if j == i {
                        assert(wanted);
                        assert(r@[r@.len() - 1]@ == discovered@[j].path@);
                    } else {
                        let k = choose|k: int| 0 <= k < r0.len() && r0[k]@ == discovered@[j].path@;
                        assert(r@[k] == r0[k]);
                    }
                }
            }
            i = i + 1;
        }
        proof {
            assert forall|p: Seq<char>| needs_scan(self.path2id(), discovered@, p) implies exists|k: int|
                0 <= k < r@.len() && r@[k]@ == p by {
                let j = choose|j: int| 0 <= j < discovered@.len() && discovered@[j].path@ == p;
                assert(needs_scan(self.path2id(), discovered@, discovered@[j].path@));
            }
        }
        r
    }

    /// The entry of `path`, if it is indexed.
    pub fn get_entry(&self, path: &String) -> (r: Option<IndexEntry>)
        requires
            self.wf(),
        ensures
            r == self.path2id().get(path@),
    {
        proof {
            lemma_files_facts(self.file_paths@, self.file_entries@, self.paths@);
        }
        match self.find_file(path) {
            Some(i) => Some(self.file_entries[i]),
            None => None,
        }
    }

    /// The representative path of `id`, if it is indexed.
    pub fn get_path(&self, id: ResourceId) -> (r: Option<String>)
        requires
            self.wf(),
        ensures
            match r {
                Some(p) => self.id2path().contains_key(id) && p@ == self.id2path()[id],
                None => !self.id2path().contains_key(id),
            },
    {
        proof {
            lemma_ids_facts(self.id_keys@, self.id_paths@, self.id_counts@, self.paths@);
        }
        match self.find_id(id) {
            Some(k) => {
                proof {
                    lemma_reps_at(self.id_keys@, self.id_paths@, k as int);
                }
                Some(self.id_paths[k].clone())
            },
            None => None,
        }
    }

    /// Whether some path holds `id`.
    pub fn contains(&self, id: ResourceId) -> (r: bool)
        requires
            self.wf(),
        ensures
            r == ids_of(self.path2id()).contains(id),
    {
        proof {
            self.lemma_consistent();
        }
        self.get_path(id).is_some()
    }

    /// How many paths hold `id`, where that is two or more.
    pub fn collision_count(&self, id: ResourceId) -> (r: Option<usize>)
        requires
            self.wf(),
        ensures
            match r {
                Some(c) => self.collisions().contains_key(id) && c == self.collisions()[id],
                None => !self.collisions().contains_key(id),
            },
    {
        proof {
            lemma_ids_facts(self.id_keys@, self.id_paths@, self.id_counts@, self.paths@);
            self.lemma_consistent();
        }
        match self.find_id(id) {
            Some(k) => {
                if self.id_counts[k] >= 2 {
                    Some(self.id_counts[k])
                } else {
                    None
                }
            },
            None => {
                proof {
                    if paths_with(self.paths@, id).len() >= 1 {
                        lemma_some_path(self.paths@, id);
                        assert(self.id2path().contains_key(id));
                    }
                }
                None
            },
        }
    }

    /// The number of indexed paths; several may hold one resource.
    pub fn count_files(&self) -> (r: usize)
        requires
            self.wf(),
        ensures
            r == self.path2id().dom().len(),
    {
        proof {
            lemma_files_facts(self.file_paths@, self.file_entries@, self.paths@);
        }
        self.file_paths.len()
    }

    /// The number of indexed paths.
    pub fn size(&self) -> (r: usize)
        requires
            self.wf(),
        ensures
            r == self.path2id().dom().len(),
    {
        self.count_files()
    }

    /// The number of distinct resources.
    pub fn count_resources(&self) -> (r: usize)
        requires
            self.wf(),
        ensures
            r == self.id2path().dom().len(),
    {
        proof {
            lemma_ids_facts(self.id_keys@, self.id_paths@, self.id_counts@, self.paths@);
            let ik = self.id_keys@;
            assert(self.id2path().dom() =~= ik.to_set()) by {
                assert forall|id: ResourceId| self.id2path().dom().contains(id) == ik.to_set().contains(id) by {
                    if ik.contains(id) {
                        let i = choose|i: int| 0 <= i < ik.len() && ik[i] == id;
                    }
                }
            }
            assert(ik.no_duplicates());
            ik.unique_seq_to_set();
        }
        self.id_keys.len()
    }

    pub fn root(&self) -> (r: &String)
        ensures
            r@ == self.root_path(),
    {
        &self.root
    }

    /// Indexes a path that was just created, given its fresh entry. A path
    /// that is already indexed is a `Path` error and changes nothing.
    pub fn index_new(&mut self, path: String, entry: IndexEntry) -> (r: Result<IndexUpdate, ArklibError>)
        requires
            old(self).wf(),
            old(self).path2id().dom().len() < usize::MAX,
        ensures
            final(self).wf(),
            final(self).root_path() == old(self).root_path(),
            old(self).path2id().contains_key(path@) ==> (r matches Err(ArklibError::Path(_)))
                && final(self).path2id() == old(self).path2id() && final(self).id2path() == old(
                self,
            ).id2path(),
            !old(self).path2id().contains_key(path@) ==> (r matches Ok(u) && u.deleted@.len() == 0
                && u.added@.len() == 1 && u.added@[0].0@ == path@ && u.added@[0].1 == entry.id)
                && final(self).path2id() == old(self).path2id().insert(path@, entry),
            !old(self).path2id().contains_key(path@) && old(self).id2path().contains_key(entry.id)
                ==> final(self).id2path() == old(self).id2path(),
            !old(self).path2id().contains_key(path@) && !old(self).id2path().contains_key(entry.id)
                ==> final(self).id2path() == old(self).id2path().insert(entry.id, path@),
    {
        if self.contains_path(&path) {
            return Err(ArklibError::Path("the path is indexed already".to_string()));
        }
        let mut u = IndexUpdate::empty();
        u.added.push((path.clone(), entry.id));
        self.insert_entry(path, entry);
        Ok(u)
    }

    /// Re-indexes a path whose content changed from `old_id` to what the
    /// fresh entry says. Unchanged content gives an empty update. The old
    /// identifier is reported deleted when no other path holds it.
    pub fn update_one(&mut self, path: String, old_id: ResourceId, fresh: IndexEntry) -> (r: Result<
        IndexUpdate,
        ArklibError,
    >)
        requires
            old(self).wf(),
        ensures
            final(self).wf(),
            final(self).root_path() == old(self).root_path(),
            !old(self).path2id().contains_key(path@) ==> r matches Err(ArklibError::Path(_)),
            old(self).path2id().contains_key(path@) && old(self).path2id()[path@].id != old_id
                ==> r matches Err(ArklibError::Collision(_)),
            r is Err ==> final(self).path2id() == old(self).path2id() && final(self).id2path() == old(
                self,
            ).id2path(),
            old(self).path2id().contains_key(path@) && old(self).path2id()[path@].id == old_id ==> {
                &&& r is Ok
                &&& fresh.id == old_id ==> r.unwrap().deleted@.len() == 0 && r.unwrap().added@.len() == 0
                    && final(self).path2id() == old(self).path2id() && final(self).id2path() == old(
                    self,
                ).id2path()
                &&& fresh.id != old_id ==> {
                    &&& final(self).path2id() == old(self).path2id().insert(path@, fresh)
                    &&& r.unwrap().added@.len() == 1
                    &&& r.unwrap().added@[0].0@ == path@
                    &&& r.unwrap().added@[0].1 == fresh.id
                    &&& r.unwrap().deleted@.to_set() == (if ids_of(old(self).path2id().remove(path@)).contains(old_id) {
                        Set::<ResourceId>::empty()
                    } else {
                        set![old_id]
                    })
                }
            },
    {
        let current = match self.get_entry(&path) {
            None => return Err(ArklibError::Path("the path is not indexed".to_string())),
            Some(e) => e,
        };
        if current.id != old_id {
            return Err(ArklibError::Collision("the path holds another identifier".to_string()));
        }
        let mut u = IndexUpdate::empty();
        if fresh.id == old_id {
            return Ok(u);
        }
        let ghost m = self.paths@;
        let n = self.file_paths.len();
        proof {
            lemma_files_facts(self.file_paths@, self.file_entries@, self.paths@);
            assert(m.remove(path@).dom() =~= m.dom().remove(path@));
        }
        match self.remove_path(&path) {
            Some((e, gone)) => {
                if gone {
                    u.deleted.push(e.id);
                }
                proof {
                    assert(m.remove(path@).insert(path@, fresh) =~= m.insert(path@, fresh));
                    assert(m.dom().contains(path@));
                    assert(self.path2id().dom().len() == m.dom().len() - 1);
                    if gone {
                        assert(u.deleted@.to_set() =~= set![old_id]) by {
                            assert(u.deleted@[0] == old_id);
                        }
                    } else {
                        assert(u.deleted@.to_set() =~= Set::<ResourceId>::empty());
                    }
                }
                u.added.push((path.clone(), fresh.id));
                self.insert_entry(path, fresh);
                Ok(u)
            },
            None => Err(ArklibError::Path("the path is not indexed".to_string())),
        }
    }

    /// Forgets every path of a resource known to be gone. An identifier that
    /// is not indexed is a `Path` error and changes nothing.
    pub fn forget_id(&mut self, id: ResourceId) -> (r: Result<IndexUpdate, ArklibError>)
        requires
            old(self).wf(),
        ensures
            final(self).wf(),
            final(self).root_path() == old(self).root_path(),
            !ids_of(old(self).path2id()).contains(id) ==> (r matches Err(ArklibError::Path(_)))
                && final(self).path2id() == old(self).path2id() && final(self).id2path() == old(
                self,
            ).id2path(),
            ids_of(old(self).path2id()).contains(id) ==> {
                &&& r matches Ok(u) && u.deleted@ == seq![id] && u.added@.len() == 0
                &&& final(self).path2id() == old(self).path2id().remove_keys(paths_with(old(self).path2id(), id))
                &&& final(self).id2path() == old(self).id2path().remove(id)
            },
    {
        if !self.contains(id) {
            return Err(ArklibError::Path("the resource is not indexed".to_string()));
        }
        let ghost m = self.paths@;
        let ghost reps0 = self.id2path();
        let ghost root_view = self.root@;
        let mut j = first_with_id(&self.file_entries, id);
        while j < self.file_entries.len()
            invariant
                self.wf(),
                self.root@ == root_view,
                j <= self.file_entries@.len(),
                j < self.file_entries@.len() ==> self.file_entries@[j as int].id == id,
                forall|k: int| 0 <= k < j ==> self.file_entries@[k].id != id,
                forall|p: Seq<char>| #[trigger] self.path2id().contains_key(p) ==> m.contains_key(p) && self.path2id()[p] == m[p],
                forall|p: Seq<char>| #[trigger] m.contains_key(p) && m[p].id != id ==> self.path2id().contains_key(p),
                forall|x: ResourceId| x != id ==> (#[trigger] self.id2path().contains_key(x) == reps0.contains_key(x)),
                forall|x: ResourceId| x != id && #[trigger] self.id2path().contains_key(x) ==> self.id2path()[x] == reps0[x],
            decreases self.path2id().dom().len(),
        {
            proof {
                lemma_files_facts(self.file_paths@, self.file_entries@, self.paths@);
            }
            let p = self.file_paths[j].clone();
            let ghost before = self.path2id();
            let ghost reps_before = self.id2path();
            proof {
                assert(before.contains_key(p@) && before[p@].id == id);
                assert(before.dom().len() > 0) by {
                    if before.dom().len() == 0 {
                        before.dom().lemma_len0_is_empty();
                        assert(before.dom().contains(p@));
                    }
                }
            }
            let removed = self.remove_path(&p);
            proof {
                assert(before.remove(p@).dom() =~= before.dom().remove(p@));
                assert forall|x: ResourceId| x != id implies (#[trigger] self.id2path().contains_key(x) == reps_before.contains_key(x)) by {
                    if let Some((e, gone)) = removed {
                        assert(e.id == id);
                    }
                }
            }
            j = first_with_id(&self.file_entries, id);
        }
        proof {
            lemma_files_facts(self.file_paths@, self.file_entries@, self.paths@);
            let cur = self.path2id();
            assert forall|p: Seq<char>| cur.contains_key(p) implies cur[p].id != id by {
                let k = choose|k: int| 0 <= k < self.file_paths@.len() && self.file_paths@[k]@ == p;
            }
            assert(cur =~= m.remove_keys(paths_with(m, id)));
            self.lemma_consistent();
            assert(!ids_of(cur).contains(id));
            assert(self.id2path() =~= reps0.remove(id));
        }
        let mut u = IndexUpdate::empty();
        u.deleted.push(id);
        proof {
            assert(u.deleted@ =~= seq![id]);
        }
        Ok(u)
    }

    /// Every indexed path with its entry, ordered by entry.
    pub fn records(&self) -> (r: Vec<(String, IndexEntry)>)
        requires
            self.wf(),
        ensures
            r@.len() == self.path2id().dom().len(),
            forall|k: int| 0 <= k < r@.len() ==> self.path2id().contains_key(#[trigger] r@[k].0@)
                && self.path2id()[r@[k].0@] == r@[k].1,
            forall|k: int| 0 <= k < r@.len() - 1 ==> entry_le(#[trigger] r@[k].1, r@[k + 1].1),
            forall|a: int, b: int| 0 <= a < b < r@.len() ==> r@[a].0@ != r@[b].0@,
    {
        proof {
            lemma_files_facts(self.file_paths@, self.file_entries@, self.paths@);
        }
        let mut out: Vec<(String, IndexEntry)> = Vec::new();
        let mut i: usize = 0;
        while i < self.file_paths.len()
            invariant
                files_ok(self.file_paths@, self.file_entries@, self.paths@),
                self.file_paths@.len() == self.file_entries@.len(),
                i <= self.file_paths@.len(),
                out@.len() == i,
                forall|k: int| 0 <= k < out@.len() ==> self.paths@.contains_key(#[trigger] out@[k].0@)
                    && self.paths@[out@[k].0@] == out@[k].1,
                forall|k: int| 0 <= k < out@.len() - 1 ==> entry_le(#[trigger] out@[k].1, out@[k + 1].1),
                forall|k: int| 0 <= k < out@.len() ==> exists|j: int| 0 <= j < i && self.file_paths@[j]@ == #[trigger] out@[k].0@,
                forall|a: int, b: int| 0 <= a < b < out@.len() ==> out@[a].0@ != out@[b].0@,
            decreases self.file_paths@.len() - i,
        {
            proof {
                lemma_files_facts(self.file_paths@, self.file_entries@, self.paths@);
            }
            let x = (self.file_paths[i].clone(), self.file_entries[i]);
            let mut p: usize = 0;
            while p < out.len() && entry_le_exec(&out[p].1, &x.1)
                invariant
                    p <= out@.len(),
                    forall|k: int| 0 <= k < p ==> entry_le(#[trigger] out@[k].1, x.1),
                decreases out@.len() - p,
            {
                p = p + 1;
            }
            let ghost o = out@;
            proof {
                assert forall|k: int| 0 <= k < o.len() implies o[k].0@ != x.0@ by {
                    let j = choose|j: int| 0 <= j < i && self.file_paths@[j]@ == o[k].0@;
                    assert(self.file_paths@[j]@ != self.file_paths@[i as int]@);
                }
            }
            out.insert(p, x);
            proof {
                assert forall|k: int| 0 <= k < out@.len() implies exists|j: int| 0 <= j < i + 1 && self.file_paths@[j]@ == #[trigger] out@[k].0@ by {
                    if k < p {
                        assert(out@[k] == o[k]);
                        let j = choose|j: int| 0 <= j < i && self.file_paths@[j]@ == o[k].0@;
                    } else if k > p {
                        assert(out@[k] == o[k - 1]);
                        let j = choose|j: int| 0 <= j < i && self.file_paths@[j]@ == o[k - 1].0@;
                    } else {
                        assert(self.file_paths@[i as int]@ == out@[k].0@);
                    }
                }
                assert forall|a: int, b: int| 0 <= a < b < out@.len() implies out@[a].0@ != out@[b].0@ by {
                    let a0 = if a < p { a } else { a - 1 };
                    let b0 = if b < p { b } else { b - 1 };
                    if a != p && b != p {
                        assert(out@[a] == o[a0]);
                        assert(out@[b] == o[b0]);
                    } else if a == p {
                        assert(out@[b] == o[b0]);
                    } else {
                        assert(out@[a] == o[a0]);
                    }
                }
                assert forall|k: int| 0 <= k < out@.len() implies self.paths@.contains_key(#[trigger] out@[k].0@)
                    && self.paths@[out@[k].0@] == out@[k].1 by {
                    if k < p {
                        assert(out@[k] == o[k]);
                    } else if k > p {
                        assert(out@[k] == o[k - 1]);
                    }
                }
                assert forall|k: int| 0 <= k < out@.len() - 1 implies entry_le(#[trigger] out@[k].1, out@[k + 1].1) by {
                    if k + 1 < p {
                        assert(out@[k] == o[k]);
                        assert(out@[k + 1] == o[k + 1]);
                    } else if k + 1 == p {
                        assert(out@[k] == o[k]);
                    } else if k == p {
                        assert(out@[k + 1] == o[k]);
                    } else {
                        assert(out@[k] == o[k - 1]);
                        assert(out@[k + 1] == o[k]);
                    }
                }
            }
            i = i + 1;
        }
        out
    }

    /// The distinct indexed identifiers.
    pub fn list_ids(&self) -> (r: Vec<ResourceId>)
        requires
            self.wf(),
        ensures
            r@.to_set() == ids_of(self.path2id()),
            r@.no_duplicates(),
    {
        let r = self.id_list();
        proof {
            lemma_ids_facts(self.id_keys@, self.id_paths@, self.id_counts@, self.paths@);
            self.lemma_consistent();
            assert forall|id: ResourceId| r@.to_set().contains(id) == ids_of(self.path2id()).contains(id) by {
                if r@.contains(id) {
                    let i = choose|i: int| 0 <= i < r@.len() && r@[i] == id;
                    assert(self.id2path().contains_key(id));
                }
                if ids_of(self.path2id()).contains(id) {
                    assert(self.id2path().contains_key(id));
                    let i = choose|i: int| 0 <= i < self.id_keys@.len() && self.id_keys@[i] == id;
                    assert(r@[i] == id);
                }
            }
            assert(r@.to_set() =~= ids_of(self.path2id()));
        }
        r
    }
}

} // verus!
