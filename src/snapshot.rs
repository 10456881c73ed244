//! The line format of the index snapshot: `{modified} {identifier} {path}`,
//! with the modification time in milliseconds and the path relative to the
//! root.
use vstd::prelude::*;

use crate::errors::ArklibError;
use crate::index::{entry_le, IndexEntry, ResourceIndex};
use crate::resource::crc32::{id_text, lemma_text_round_trip, parse_id};
use crate::resource::ResourceId;
use crate::text::{decimal, lemma_decimal, parse_u64, split_first, split_once, u64_of, u64_text};

verus! {

/// The snapshot line of an entry at the relative path `rel`.
pub open spec fn record_text(entry: IndexEntry, rel: Seq<char>) -> Seq<char> {
    decimal(entry.modified as nat) + seq![' '] + id_text(entry.id) + seq![' '] + rel
}

/// What `parse_snapshot_record` reads from a line: a `u64` time before the
/// first space, then an identifier before the next space, then the path.
pub open spec fn parse_record(line: Seq<char>) -> Option<(IndexEntry, Seq<char>)> {
    match split_first(line, ' ') {
        None => None,
        Some(p1) => match u64_of(p1.0) {
            None => None,
            Some(modified) => match split_first(p1.1, ' ') {
                None => None,
                Some(p2) => match parse_id(p2.0) {
                    None => None,
                    Some(id) => Some((IndexEntry { modified, id }, p2.1)),
                },
            },
        },
    }
}

/// The snapshot line of `entry` at the relative path `rel`.
pub fn snapshot_record(entry: &IndexEntry, rel: &str) -> (r: String)
    ensures
        r@ == record_text(*entry, rel@),
{
    let mut s = u64_text(entry.modified);
    s.append(" ");
    let id = entry.id.to_string();
    s.append(id.as_str());
    s.append(" ");
    s.append(rel);
    proof {
        reveal_strlit(" ");
    }
    s
}

proof fn lemma_no_space_in_id(id: ResourceId)
    ensures
        forall|i: int| 0 <= i < id_text(id).len() ==> id_text(id)[i] != ' ',
{
    lemma_decimal(id.data_size as nat);
    lemma_decimal(id.hash as nat);
    let a = decimal(id.data_size as nat);
    let b = decimal(id.hash as nat);
    assert forall|i: int| 0 <= i < id_text(id).len() implies id_text(id)[i] != ' ' by {
        if i < a.len() {
            assert(id_text(id)[i] == a[i]);
            assert(crate::text::is_digit(a[i]));
        } else if i > a.len() {
            assert(id_text(id)[i] == b[i - a.len() - 1]);
            assert(crate::text::is_digit(b[i - a.len() - 1]));
        }
    }
}

/// Splitting `x + " " + rest` at its first space, where `x` has none, gives
/// `x` and `rest`.
proof fn lemma_split_at_space(s: Seq<char>, x: Seq<char>, rest: Seq<char>, l: Seq<char>, t: Seq<char>)
    requires
        s == x + seq![' '] + rest,
        forall|i: int| 0 <= i < x.len() ==> x[i] != ' ',
        exists|i: int|
            0 <= i < s.len() && s[i] == ' ' && (forall|j: int| 0 <= j < i ==> s[j] != ' ') && l
                == s.subrange(0, i) && t == s.subrange(i + 1, s.len() as int),
    ensures
        l == x,
        t == rest,
{
    let i = choose|i: int|
        0 <= i < s.len() && s[i] == ' ' && (forall|j: int| 0 <= j < i ==> s[j] != ' ') && l
            == s.subrange(0, i) && t == s.subrange(i + 1, s.len() as int);
    let k = x.len() as int;
    assert(s[k] == ' ');
    assert(i == k) by {
        if i < k {
            assert(s[i] == x[i]);
        }
        if k < i {
            assert(s[k] != ' ');
        }
    }
    assert(l =~= x);
    assert(t =~= rest);
}

/// Reads a snapshot line: the line of an entry at a path gives that entry
/// and path; a line without two spaces, or with a malformed time or
/// identifier, is a `Parse` error.
pub fn parse_snapshot_record(line: &str) -> (r: Result<(IndexEntry, String), ArklibError>)
    ensures
        forall|e: IndexEntry, rel: Seq<char>| #[trigger] record_text(e, rel) == line@ ==> (r matches Ok(
            x,
        ) && x.0 == e && x.1@ == rel),
        match parse_record(line@) {
            Some(p) => r matches Ok(x) && x.0 == p.0 && x.1@ == p.1,
            None => r matches Err(ArklibError::Parse),
        },
{
    let (l, rest) = match split_once(line, ' ') {
        None => {
            proof {
                assert forall|e: IndexEntry, rel: Seq<char>| #[trigger] record_text(e, rel) != line@ by {
                    let k = decimal(e.modified as nat).len() as int;
                    assert(record_text(e, rel)[k] == ' ');
                }
            }
            return Err(ArklibError::Parse);
        },
        Some(parts) => parts,
    };
    proof {
        assert forall|e: IndexEntry, rel: Seq<char>| #[trigger] record_text(e, rel) == line@ implies l@
            == decimal(e.modified as nat) && rest@ == id_text(e.id) + seq![' '] + rel by {
            lemma_decimal(e.modified as nat);
            assert forall|i: int| 0 <= i < decimal(e.modified as nat).len() implies decimal(
                e.modified as nat,
            )[i] != ' ' by {
                assert(crate::text::is_digit(decimal(e.modified as nat)[i]));
            }
            assert(record_text(e, rel) =~= decimal(e.modified as nat) + seq![' '] + (id_text(e.id)
                + seq![' '] + rel));
            lemma_split_at_space(
                line@,
                decimal(e.modified as nat),
                id_text(e.id) + seq![' '] + rel,
                l@,
                rest@,
            );
        }
    }
    let modified = match parse_u64(l.as_str()) {
        None => {
            proof {
                assert forall|e: IndexEntry, rel: Seq<char>| #[trigger] record_text(e, rel) != line@ by {
                    if record_text(e, rel) == line@ {
                        lemma_decimal(e.modified as nat);
                    }
                }
            }
            return Err(ArklibError::Parse);
        },
        Some(m) => m,
    };
    let (id_part, path) = match split_once(rest.as_str(), ' ') {
        None => {
            proof {
                assert forall|e: IndexEntry, rel: Seq<char>| #[trigger] record_text(e, rel) != line@ by {
                    if record_text(e, rel) == line@ {
                        let k = id_text(e.id).len() as int;
                        assert(rest@[k] == ' ');
                    }
                }
            }
            return Err(ArklibError::Parse);
        },
        Some(parts) => parts,
    };
    proof {
        assert forall|e: IndexEntry, rel: Seq<char>| #[trigger] record_text(e, rel) == line@ implies id_part@
            == id_text(e.id) && path@ == rel by {
            lemma_no_space_in_id(e.id);
            lemma_split_at_space(rest@, id_text(e.id), rel, id_part@, path@);
        }
    }
    let id = match ResourceId::from_str(id_part.as_str()) {
        Err(_) => {
            proof {
                assert forall|e: IndexEntry, rel: Seq<char>| #[trigger] record_text(e, rel) != line@ by {
                    if record_text(e, rel) == line@ {
                        lemma_text_round_trip(e.id);
                    }
                }
            }
            return Err(ArklibError::Parse);
        },
        Ok(id) => id,
    };
    proof {
        assert forall|e: IndexEntry, rel: Seq<char>| #[trigger] record_text(e, rel) == line@ implies modified
            == e.modified && id == e.id by {
            lemma_decimal(e.modified as nat);
            lemma_text_round_trip(e.id);
        }
    }
    Ok((IndexEntry { modified, id }, path))
}

/// Name for the text `pathdiff::diff_paths` gives for `path` relative to
/// `base`, if it can express it; the result depends on the two texts alone.
pub uninterp spec fn relative_of(path: Seq<char>, base: Seq<char>) -> Option<Seq<char>>;

/// Relies on `pathdiff::diff_paths`: `path` expressed relative to `base`,
/// when that can be done, as text.
#[verifier::external_body]
fn relative_path(path: &str, base: &str) -> (r: Option<String>)
    ensures
        r.is_some() == relative_of(path@, base@).is_some(),
        r.is_some() ==> r.unwrap()@ == relative_of(path@, base@).unwrap(),
{
    pathdiff::diff_paths(path, base).map(|p| p.to_string_lossy().into_owned())
}

/// `lines` is the snapshot of the index `m` under `root`, its paths taken in
/// the order `ps`: each indexed path once, ordered by entry, each line the
/// record of that path's entry at the path made relative to the root.
pub open spec fn is_snapshot(
    m: Map<Seq<char>, IndexEntry>,
    root: Seq<char>,
    ps: Seq<Seq<char>>,
    lines: Seq<Seq<char>>,
) -> bool {
    &&& ps.no_duplicates()
    &&& ps.to_set() == m.dom()
    &&& lines.len() == ps.len()
    &&& forall|k: int| 0 <= k < ps.len() - 1 ==> entry_le(m[#[trigger] ps[k]], m[ps[k + 1]])
    &&& forall|k: int|
        0 <= k < ps.len() ==> relative_of(#[trigger] ps[k], root).is_some() && lines[k]
            == record_text(m[ps[k]], relative_of(ps[k], root).unwrap())
}

/// The texts of a list of strings.
pub open spec fn text_views(v: Seq<String>) -> Seq<Seq<char>> {
    v.map_values(|l: String| l@)
}

/// Every path of the index can be made relative to the root.
pub open spec fn all_relative(m: Map<Seq<char>, IndexEntry>, root: Seq<char>) -> bool {
    forall|p: Seq<char>| m.contains_key(p) ==> (#[trigger] relative_of(p, root)).is_some()
}

/// The parts of `x + [c] + rest`, where `x` has no `c`, around the first `c`.
proof fn lemma_split_first_at(s: Seq<char>, x: Seq<char>, rest: Seq<char>, c: char)
    requires
        s == x + seq![c] + rest,
        forall|i: int| 0 <= i < x.len() ==> x[i] != c,
    ensures
        split_first(s, c) == Some((x, rest)),
{
    let k = x.len() as int;
    assert(s[k] == c);
    let i = choose|i: int| 0 <= i < s.len() && s[i] == c && forall|j: int| 0 <= j < i ==> s[j] != c;
    assert(i == k) by {
        if i < k {
            assert(s[i] == x[i]);
        }
        if k < i {
            assert(s[k] != c);
        }
    }
    assert(s.subrange(0, k) =~= x);
    assert(s.subrange(k + 1, s.len() as int) =~= rest);
}

/// The snapshot line of an entry at a path reads back as that entry and path.
pub proof fn lemma_record_round_trip(e: IndexEntry, rel: Seq<char>)
    ensures
        parse_record(record_text(e, rel)) == Some((e, rel)),
{
    let a = decimal(e.modified as nat);
    let t = id_text(e.id);
    lemma_decimal(e.modified as nat);
    lemma_no_space_in_id(e.id);
    lemma_text_round_trip(e.id);
    assert forall|i: int| 0 <= i < a.len() implies a[i] != ' ' by {
        assert(crate::text::is_digit(a[i]));
    }
    assert(record_text(e, rel) =~= a + seq![' '] + (t + seq![' '] + rel));
    lemma_split_first_at(record_text(e, rel), a, t + seq![' '] + rel, ' ');
    lemma_split_first_at(t + seq![' '] + rel, t, rel, ' ');
}

/// Every line of a snapshot reads back as the entry of its path, at that
/// path made relative to the root.
pub proof fn lemma_snapshot_reads_back(
    m: Map<Seq<char>, IndexEntry>,
    root: Seq<char>,
    ps: Seq<Seq<char>>,
    lines: Seq<Seq<char>>,
)
    requires
        is_snapshot(m, root, ps, lines),
    ensures
        forall|k: int|
            0 <= k < lines.len() ==> parse_record(#[trigger] lines[k]) == Some(
                (m[ps[k]], relative_of(ps[k], root).unwrap()),
            ),
{
    assert forall|k: int| 0 <= k < lines.len() implies parse_record(#[trigger] lines[k]) == Some(
        (m[ps[k]], relative_of(ps[k], root).unwrap()),
    ) by {
        assert(relative_of(ps[k], root).is_some());
        lemma_record_round_trip(m[ps[k]], relative_of(ps[k], root).unwrap());
    }
}

impl ResourceIndex {
    /// The snapshot lines of the index: one per indexed path, ordered by
    /// entry, each the record of the path's entry at the path made relative
    /// to the root. It fails with a `Path` error exactly when some indexed
    /// path cannot be made relative to the root.
    pub fn snapshot_lines(&self) -> (r: Result<Vec<String>, ArklibError>)
        requires
            self.wf(),
        ensures
            r is Ok <==> all_relative(self.path2id(), self.root_path()),
            r is Err ==> (r matches Err(ArklibError::Path(_))),
            r matches Ok(lines) ==> exists|ps: Seq<Seq<char>>|
                #[trigger] is_snapshot(
                    self.path2id(),
                    self.root_path(),
                    ps,
                    text_views(lines@),
                ),
    {
        let records = self.records();
        let root = self.root();
        let ghost m = self.path2id();
        let ghost rt = self.root_path();
        let mut lines: Vec<String> = Vec::new();
        let mut i: usize = 0;
        while i < records.len()
            invariant
                i <= records@.len(),
                lines@.len() == i,
                root@ == rt,
                m == self.path2id(),
                rt == self.root_path(),
                records@.len() == m.dom().len(),
                forall|k: int| 0 <= k < records@.len() ==> m.contains_key(#[trigger] records@[k].0@)
                    && m[records@[k].0@] == records@[k].1,
                forall|k: int| 0 <= k < records@.len() - 1 ==> entry_le(#[trigger] records@[k].1, records@[k + 1].1),
                forall|a: int, b: int| 0 <= a < b < records@.len() ==> records@[a].0@ != records@[b].0@,
                forall|k: int|
                    0 <= k < i ==> relative_of(#[trigger] records@[k].0@, rt).is_some() && lines@[k]@
                        == record_text(records@[k].1, relative_of(records@[k].0@, rt).unwrap()),
            decreases records@.len() - i,
        {
            let rel = match relative_path(records[i].0.as_str(), root.as_str()) {
                Some(rel) => rel,
                None => {
                    proof {
                        assert(m.contains_key(records@[i as int].0@));
                        assert(relative_of(records@[i as int].0@, rt).is_none());
                        assert(!all_relative(m, rt));
                    }
                    return Err(ArklibError::Path("the path is not under the root".to_string()));
                },
            };
            let line = snapshot_record(&records[i].1, rel.as_str());
            let ghost l0 = lines@;
            lines.push(line);
            proof {
                assert forall|k: int|
                    0 <= k < i + 1 implies relative_of(#[trigger] records@[k].0@, rt).is_some()
                        && lines@[k]@ == record_text(records@[k].1, relative_of(records@[k].0@, rt).unwrap()) by {
                    if k < i {
                        assert(lines@[k] == l0[k]);
                    }
                }
            }
            i = i + 1;
        }
        proof {
            self.lemma_consistent();
            let n = records@.len() as int;
            let ps = Seq::new(records@.len(), |k: int| records@[k].0@);
            let ls = text_views(lines@);
            assert(ps.no_duplicates()) by {
                assert forall|a: int, b: int| 0 <= a < ps.len() && 0 <= b < ps.len() && a != b implies ps[a] != ps[b] by {
                    if a < b {
                        assert(records@[a].0@ != records@[b].0@);
                    } else {
                        assert(records@[b].0@ != records@[a].0@);
                    }
                }
            }
            assert forall|q: Seq<char>| ps.to_set().contains(q) implies m.dom().contains(q) by {
                let k = choose|k: int| 0 <= k < ps.len() && ps[k] == q;
                assert(m.contains_key(records@[k].0@));
            }
            assert(ps.to_set() =~= m.dom()) by {
                ps.unique_seq_to_set();
                assert forall|q: Seq<char>| m.dom().contains(q) implies ps.to_set().contains(q) by {
                    if !ps.to_set().contains(q) {
                        assert(ps.to_set().subset_of(m.dom().remove(q)));
                        vstd::set_lib::lemma_len_subset(ps.to_set(), m.dom().remove(q));
                    }
                }
            }
            assert forall|k: int| 0 <= k < ps.len() - 1 implies entry_le(m[#[trigger] ps[k]], m[ps[k + 1]]) by {
                assert(entry_le(records@[k].1, records@[k + 1].1));
            }
            assert forall|k: int| 0 <= k < ps.len() implies relative_of(#[trigger] ps[k], rt).is_some()
                && ls[k] == record_text(m[ps[k]], relative_of(ps[k], rt).unwrap()) by {
                assert(relative_of(records@[k].0@, rt).is_some());
            }
            assert(is_snapshot(m, rt, ps, ls));
            assert(is_snapshot(self.path2id(), self.root_path(), ps, text_views(lines@)));
            assert forall|p: Seq<char>| m.contains_key(p) implies (#[trigger] relative_of(p, rt)).is_some() by {
                assert(ps.to_set().contains(p));
                let k = choose|k: int| 0 <= k < ps.len() && ps[k] == p;
                assert(relative_of(records@[k].0@, rt).is_some());
            }
        }
        let r: Result<Vec<String>, ArklibError> = Ok(lines);
        proof {
            let ps = Seq::new(records@.len(), |k: int| records@[k].0@);
            assert(r matches Ok(ls) && is_snapshot(self.path2id(), self.root_path(), ps, text_views(ls@)));
        }
        r
    }
}

} // verus!
