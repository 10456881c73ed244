use vstd::prelude::*;

use crate::errors::ArklibError;
use crate::text::{decimal, parse_usize, u64_text, unsigned_text_value};
use vstd::utf8::{decode_utf8, valid_utf8};

verus! {

/// How many of the latest versions survive a commit.
pub const MAX_VERSION_FILES: usize = 10;

/// Whether `i` is the position of the last `c` in `s`.
pub open spec fn is_last_index(s: Seq<char>, c: char, i: int) -> bool {
    0 <= i < s.len() && s[i] == c && forall|j: int| i < j < s.len() ==> s[j] != c
}

/// The version a file name carries: the unsigned number after its last `.`.
pub open spec fn version_of(name: Seq<char>) -> Option<nat> {
    if exists|i: int| is_last_index(name, '.', i) {
        let i = choose|i: int| is_last_index(name, '.', i);
        match unsigned_text_value(name.subrange(i + 1, name.len() as int)) {
            Some(v) => if v <= usize::MAX { Some(v) } else { None },
            None => None,
        }
    } else {
        None
    }
}

/// The highest version among the names, 0 when none carries one.
pub open spec fn max_version(names: Seq<String>) -> nat
    decreases names.len(),
{
    if names.len() == 0 {
        0
    } else {
        let rest = max_version(names.drop_last());
        match version_of(names.last()@) {
            Some(v) => if v > rest { v } else { rest },
            None => rest,
        }
    }
}

/// Reads the version from a file name, as `rsplit_once('.')` followed by
/// unsigned parsing does.
pub fn parse_version(filename: Option<&str>) -> (r: Option<usize>)
    ensures
        match filename {
            None => r is None,
            Some(f) => match version_of(f@) {
                Some(v) => r == Some(v as usize),
                None => r is None,
            },
        },
{
    match filename {
        None => None,
        Some(f) => version_in(f),
    }
}

fn version_in(f: &str) -> (r: Option<usize>)
    ensures
        match version_of(f@) {
            Some(v) => r == Some(v as usize),
            None => r is None,
        },
{
    let n = f.unicode_len();
    let mut i: usize = n;
    while i > 0
        invariant
            n == f@.len(),
            i <= n,
            forall|j: int| i <= j < n ==> f@[j] != '.',
        decreases i,
    {
        if f.get_char(i - 1) == '.' {
            let tail = f.substring_char(i, n);
            proof {
                let k = (i - 1) as int;
                assert(is_last_index(f@, '.', k));
                let c = choose|c: int| is_last_index(f@, '.', c);
                assert(c == k) by {
                    if c < k {
                        assert(f@[k] != '.');
                    }
                    if k < c {
                        assert(f@[c] != '.');
                    }
                }
                assert(tail@ == f@.subrange(k + 1, f@.len() as int));
                assert(version_of(f@) == (match unsigned_text_value(tail@) {
                    Some(v) => if v <= usize::MAX { Some(v) } else { None },
                    None => None,
                }));
            }
            return parse_usize(tail);
        }
        i = i - 1;
    }
    None
}

/// `max_version` bounds every version among the names and is one of them,
/// unless it is 0.
pub proof fn lemma_max_version(names: Seq<String>)
    ensures
        forall|k: int|
            0 <= k < names.len() && (#[trigger] version_of(names[k]@)).is_some()
                ==> version_of(names[k]@).unwrap() <= max_version(names),
        max_version(names) == 0 || exists|k: int|
            0 <= k < names.len() && version_of(names[k]@) == Some(max_version(names)),
        max_version(names) <= usize::MAX,
    decreases names.len(),
{
    if names.len() > 0 {
        let rest = names.drop_last();
        lemma_max_version(rest);
        assert forall|k: int|
            0 <= k < names.len() && (#[trigger] version_of(names[k]@)).is_some()
                implies version_of(names[k]@).unwrap() <= max_version(names) by {
            if k < names.len() - 1 {
                assert(names[k] == rest[k]);
            }
        }
        if max_version(names) != 0 && max_version(names) == max_version(rest) {
            let k = choose|k: int| 0 <= k < rest.len() && version_of(rest[k]@) == Some(max_version(rest));
            assert(names[k] == rest[k]);
        }
        if max_version(names) != max_version(rest) {
            assert(version_of(names[names.len() - 1]@) == Some(max_version(names)));
        }
    }
}

/// The names among `names` that carry version `v`, in listing order.
pub open spec fn at_version(names: Seq<String>, v: nat) -> Seq<String>
    decreases names.len(),
{
    if names.len() == 0 {
        Seq::empty()
    } else {
        let rest = at_version(names.drop_last(), v);
        if version_of(names.last()@) == Some(v) {
            rest.push(names.last())
        } else {
            rest
        }
    }
}

/// A version file `file_version` falls out of the retention window once
/// `latest` is reached.
pub open spec fn prunable(file_version: nat, latest: nat) -> bool {
    file_version + MAX_VERSION_FILES - 1 <= latest
}

/// A version file name that falls out of the retention window at `latest`.
pub open spec fn out_of_window(name: Seq<char>, latest: nat) -> bool {
    match version_of(name) {
        Some(fv) => prunable(fv, latest),
        None => false,
    }
}

/// What a commit attempt came to, as the caller observed it.
#[derive(Debug, Clone)]
pub enum CasOutcome {
    /// The new version was linked; this many old files were pruned.
    Committed(usize),
    /// A newer version was there first.
    Conflict,
    /// Another failure, passed on as it came.
    Failed(ArklibError),
}

/// What a `modify` loop does next.
#[derive(Debug, Clone)]
pub enum ModifyStep {
    /// Reload the latest version, transform it again and retry.
    Retry,
    /// Done; this many old files were pruned.
    Done(usize),
    Fail(ArklibError),
}

/// How often a `modify` loop may lose the race before it gives up.
#[derive(Debug, Clone, Copy)]
pub struct RetryPolicy {
    pub max_attempts: Option<u64>,
}

/// The decision of a `modify` loop after its attempt number `attempt`
/// (counting from 1) came to `outcome`: a conflict means reload and retry,
/// until the policy's attempts are spent.
pub fn modify(policy: &RetryPolicy, attempt: u64, outcome: CasOutcome) -> (r: ModifyStep)
    ensures
        outcome matches CasOutcome::Committed(n) ==> r == ModifyStep::Done(n),
        outcome matches CasOutcome::Failed(e) ==> r == ModifyStep::Fail(e),
        outcome is Conflict ==> match policy.max_attempts {
            Some(limit) => if attempt >= limit {
                r == ModifyStep::Fail(ArklibError::Contention)
            } else {
                r is Retry
            },
            None => r is Retry,
        },
{
    match outcome {
        CasOutcome::Committed(n) => ModifyStep::Done(n),
        CasOutcome::Failed(e) => ModifyStep::Fail(e),
        CasOutcome::Conflict => match policy.max_attempts {
            Some(limit) => {
                if attempt >= limit {
                    ModifyStep::Fail(ArklibError::Contention)
                } else {
                    ModifyStep::Retry
                }
            },
            None => ModifyStep::Retry,
        },
    }
}

/// Whether a hard link attempt committed: the link call succeeded, or it
/// reported an error while the scratch file's link count shows two links.
pub fn committed(link_ok: bool, link_count: Option<u64>) -> (r: bool)
    ensures
        r == (link_ok || link_count == Some(2u64)),
{
    link_ok || link_count == Some(2u64)
}

pub open spec fn is_alphanumeric(c: char) -> bool {
    ('a' <= c && c <= 'z') || ('A' <= c && c <= 'Z') || ('0' <= c && c <= '9')
}

/// Relies on `fastrand::alphanumeric`: a random character in a-z, A-Z or
/// 0-9.
#[verifier::external_body]
fn random_alphanumeric() -> (r: String)
    ensures
        r@.len() == 1,
        is_alphanumeric(r@[0]),
{
    fastrand::alphanumeric().to_string()
}

/// A random name of ten letters and digits for a scratch file.
pub fn scratch_name() -> (r: String)
    ensures
        r@.len() == 10,
        forall|i: int| 0 <= i < 10 ==> is_alphanumeric(#[trigger] r@[i]),
{
    let mut name = String::new();
    let mut i: usize = 0;
    while i < 10
        invariant
            i <= 10,
            name@.len() == i,
            forall|j: int| 0 <= j < i ==> is_alphanumeric(#[trigger] name@[j]),
        decreases 10 - i,
    {
        let c = random_alphanumeric();
        let ghost before = name@;
        name.append(c.as_str());
        proof {
            assert forall|j: int| 0 <= j < i + 1 implies is_alphanumeric(#[trigger] name@[j]) by {
                if j < i {
                    assert(name@[j] == before[j]);
                } else {
                    assert(name@[j] == c@[0]);
                }
            }
        }
        i = i + 1;
    }
    name
}

/// Once some file carries a version above `v`, every writer that loaded
/// version `v` finds the latest version beyond its own, so its commit is
/// refused.
pub proof fn lemma_cas_exclusive(names: Seq<String>, k: int, v: nat)
    requires
        0 <= k < names.len(),
        version_of(names[k]@) == Some(v + 1),
    ensures
        max_version(names) > v,
{
    lemma_max_version(names);
    assert(version_of(names[k]@).is_some());
}

/// After versions 1 to `v` were committed one by one, pruning against the
/// version seen before the last commit leaves exactly `min(v, W)` of them,
/// `W` being `MAX_VERSION_FILES`.
pub proof fn lemma_pruning_bound(v: nat)
    requires
        v >= 1,
    ensures
        Set::new(|x: int| 1 <= x <= v && !prunable(x as nat, (v - 1) as nat)).len() == if v
            < MAX_VERSION_FILES {
            v
        } else {
            MAX_VERSION_FILES as nat
        },
{
    let lo: int = if v < MAX_VERSION_FILES { 1 } else { v - MAX_VERSION_FILES + 1 };
    let kept = Set::new(|x: int| 1 <= x <= v && !prunable(x as nat, (v - 1) as nat));
    assert(kept =~= vstd::set_lib::set_int_range(lo, v as int + 1));
    vstd::set_lib::lemma_int_range(lo, v as int + 1);
}

/// One version of the file as it was found: its version number and the
/// name of its file in the directory. Version 0 stands for "nothing
/// committed yet".
#[derive(Debug, Clone)]
pub struct ReadOnlyFile {
    version: usize,
    name: String,
}

impl ReadOnlyFile {
    pub closed spec fn spec_version(&self) -> nat {
        self.version as nat
    }

    pub closed spec fn spec_name(&self) -> Seq<char> {
        self.name@
    }

    pub fn version(&self) -> (r: usize)
        ensures
            r == self.spec_version(),
    {
        self.version
    }

    /// The name of the version file to read, or `None` when nothing was
    /// committed yet.
    pub fn open(&self) -> (r: Option<&String>)
        ensures
            self.spec_version() == 0 ==> r is None,
            self.spec_version() != 0 ==> (r matches Some(n) && n@ == self.spec_name()),
    {
        if self.version != 0 {
            Some(&self.name)
        } else {
            None
        }
    }

    /// The content of this version from the bytes read from its file, as
    /// text. Nothing committed yet is `NotFound`; bytes that are not UTF-8
    /// are a `Parse` error.
    pub fn read_to_string(&self, content: Vec<u8>) -> (r: Result<String, ArklibError>)
        ensures
            self.spec_version() == 0 ==> r == Err::<String, ArklibError>(ArklibError::NotFound),
            self.spec_version() != 0 && valid_utf8(content@) ==> (r matches Ok(s) && s@ == decode_utf8(
                content@,
            )),
            self.spec_version() != 0 && !valid_utf8(content@) ==> r == Err::<String, ArklibError>(
                ArklibError::Parse,
            ),
    {
        if self.version == 0 {
            return Err(ArklibError::NotFound);
        }
        match utf8_text(content) {
            Some(s) => Ok(s),
            None => Err(ArklibError::Parse),
        }
    }

    /// The content of this version from the bytes read from its file.
    /// Nothing committed yet is `NotFound`.
    pub fn read_content(&self, content: Vec<u8>) -> (r: Result<Vec<u8>, ArklibError>)
        ensures
            self.spec_version() == 0 ==> r == Err::<Vec<u8>, ArklibError>(ArklibError::NotFound),
            self.spec_version() != 0 ==> r == Ok::<Vec<u8>, ArklibError>(content),
    {
        if self.version == 0 {
            return Err(ArklibError::NotFound);
        }
        Ok(content)
    }
}

/// Relies on `String::from_utf8`: the text the bytes encode when they are
/// valid UTF-8, nothing otherwise.
#[verifier::external_body]
fn utf8_text(bytes: Vec<u8>) -> (r: Option<String>)
    ensures
        valid_utf8(bytes@) ==> r.is_some() && r.unwrap()@ == decode_utf8(bytes@),
        !valid_utf8(bytes@) ==> r is None,
{
    String::from_utf8(bytes).ok()
}

/// A value kept as a chain of version files `{prefix}{version}` in one
/// directory. The prefix names the directory and the machine, so writers on
/// different machines never produce the same file name.
#[derive(Debug, Clone)]
pub struct AtomicFile {
    directory: String,
    prefix: String,
}

impl AtomicFile {
    pub closed spec fn spec_prefix(&self) -> Seq<char> {
        self.prefix@
    }

    pub closed spec fn spec_directory(&self) -> Seq<char> {
        self.directory@
    }

    /// The file name of `version` for this writer.
    pub open spec fn spec_file_name(&self, version: nat) -> Seq<char> {
        self.spec_prefix() + decimal(version)
    }

    /// A versioned file kept in `directory`, whose last component is
    /// `dir_name`, written from the machine `machine_id`.
    pub fn new(directory: String, dir_name: &str, machine_id: &str) -> (r: Self)
        ensures
            r.spec_directory() == directory@,
            r.spec_prefix() == dir_name@ + seq!['_'] + machine_id@ + seq!['.'],
    {
        let mut prefix = dir_name.to_string();
        prefix.append("_");
        prefix.append(machine_id);
        prefix.append(".");
        proof {
            reveal_strlit("_");
            reveal_strlit(".");
        }
        AtomicFile { directory, prefix }
    }

    pub fn directory(&self) -> (r: &String)
        ensures
            r@ == self.spec_directory(),
    {
        &self.directory
    }

    /// The name of this writer's file for `version`.
    pub fn path(&self, version: usize) -> (r: String)
        ensures
            r@ == self.spec_file_name(version as nat),
    {
        let mut s = self.prefix.clone();
        let v = u64_text(version as u64);
        s.append(v.as_str());
        s
    }

    /// The highest version in the directory listing `names`, with the names
    /// that carry it.
    fn latest_version(&self, names: &Vec<String>) -> (r: (Vec<String>, usize))
        ensures
            r.1 == max_version(names@),
            r.0@ == at_version(names@, max_version(names@)),
    {
        let mut max: usize = 0;
        let mut i: usize = 0;
        while i < names.len()
            invariant
                i <= names@.len(),
                max == max_version(names@.take(i as int)),
            decreases names@.len() - i,
        {
            proof {
                assert(names@.take(i + 1).drop_last() =~= names@.take(i as int));
            }
            match parse_version(Some(names[i].as_str())) {
                Some(v) => {
                    if v > max {
                        max = v;
                    }
                },
                None => {},
            }
            i = i + 1;
        }
        proof {
            assert(names@.take(names@.len() as int) =~= names@);
        }
        let mut files: Vec<String> = Vec::new();
        let mut j: usize = 0;
        while j < names.len()
            invariant
                j <= names@.len(),
                max == max_version(names@),
                files@ == at_version(names@.take(j as int), max as nat),
            decreases names@.len() - j,
        {
            proof {
                assert(names@.take(j + 1).drop_last() =~= names@.take(j as int));
            }
            if parse_version(Some(names[j].as_str())) == Some(max) {
                files.push(names[j].clone());
            }
            j = j + 1;
        }
        proof {
            assert(names@.take(names@.len() as int) =~= names@);
        }
        (files, max)
    }

    /// The latest version in the directory listing `names`, across every
    /// writer's prefix. Where several files carry it, this writer's own
    /// wins; failing that, the first in the listing (pass it sorted by name
    /// to make the choice the same everywhere). With no version file at all,
    /// version 0 stands for "nothing committed yet".
    pub fn load(&self, names: &Vec<String>) -> (r: ReadOnlyFile)
        ensures
            r.spec_version() == max_version(names@),
            at_version(names@, max_version(names@)).len() == 0 ==> r.spec_name() == self.spec_file_name(r.spec_version()),
            at_version(names@, max_version(names@)).len() == 1 ==> r.spec_name() == at_version(names@, max_version(names@))[0]@,
            at_version(names@, max_version(names@)).len() > 1 ==> {
                let c = at_version(names@, max_version(names@));
                if exists|k: int| 0 <= k < c.len() && c[k]@ == self.spec_file_name(r.spec_version()) {
                    r.spec_name() == self.spec_file_name(r.spec_version())
                } else {
                    r.spec_name() == c[0]@
                }
            },
    {
        let (files, version) = self.latest_version(names);
        if files.len() == 0 {
            return ReadOnlyFile { version, name: self.path(version) };
        }
        if files.len() == 1 {
            return ReadOnlyFile { version, name: files[0].clone() };
        }
        let own = self.path(version);
        let mut k: usize = 0;
        while k < files.len()
            invariant
                k <= files@.len(),
                forall|j: int| 0 <= j < k ==> files@[j]@ != own@,
                version == max_version(names@),
                files@ == at_version(names@, max_version(names@)),
                files@.len() > 1,
                own@ == self.spec_file_name(version as nat),
            decreases files@.len() - k,
        {
            if files[k] == own {
                return ReadOnlyFile { version, name: own };
            }
            k = k + 1;
        }
        proof {
            let c = files@;
            assert(!exists|j: int| 0 <= j < c.len() && c[j]@ == self.spec_file_name(version as nat));
        }
        ReadOnlyFile { version, name: files[0].clone() }
    }

    /// Where to link the scratch file to commit over `current`, given the
    /// directory listing `names`: a newer version there is `AlreadyExists`,
    /// the expected signal to reload and retry.
    pub fn commit_target(&self, current: &ReadOnlyFile, names: &Vec<String>) -> (r: Result<String, ArklibError>)
        ensures
            max_version(names@) > current.spec_version() ==> r == Err::<String, ArklibError>(ArklibError::AlreadyExists),
            max_version(names@) <= current.spec_version() && current.spec_version() < usize::MAX ==> (r matches Ok(t)
                && t@ == self.spec_file_name(current.spec_version() + 1)),
            max_version(names@) <= current.spec_version() && current.spec_version() == usize::MAX ==> r is Err,
    {
        let (_, latest) = self.latest_version(names);
        if latest > current.version {
            return Err(ArklibError::AlreadyExists);
        }
        if current.version == usize::MAX {
            return Err(ArklibError::Other("version overflow".to_string()));
        }
        Ok(self.path(current.version + 1))
    }

    /// The files of the listing `names` to delete after a commit made over
    /// version `latest`: those of every writer that fell out of the
    /// retention window.
    pub fn prune_candidates(&self, names: &Vec<String>, latest: usize) -> (r: Vec<String>)
        ensures
            forall|k: int| 0 <= k < r@.len() ==> out_of_window(#[trigger] r@[k]@, latest as nat),
            forall|k: int| 0 <= k < names@.len() && out_of_window(#[trigger] names@[k]@, latest as nat)
                ==> exists|j: int| 0 <= j < r@.len() && r@[j] == names@[k],
    {
        let mut r: Vec<String> = Vec::new();
        let mut i: usize = 0;
        while i < names.len()
            invariant
                i <= names@.len(),
                forall|k: int| 0 <= k < r@.len() ==> out_of_window(#[trigger] r@[k]@, latest as nat),
                forall|k: int| 0 <= k < i && out_of_window(#[trigger] names@[k]@, latest as nat)
                    ==> exists|j: int| 0 <= j < r@.len() && r@[j] == names@[k],
            decreases names@.len() - i,
        {
            let ghost r0 = r@;
            match parse_version(Some(names[i].as_str())) {
                Some(fv) => {
                    if latest >= MAX_VERSION_FILES - 1 && fv <= latest - (MAX_VERSION_FILES - 1) {
                        r.push(names[i].clone());
                    }
                },
                None => {},
            }
            proof {
                assert forall|k: int| 0 <= k < i + 1 && out_of_window(#[trigger] names@[k]@, latest as nat)
                    implies exists|j: int| 0 <= j < r@.len() && r@[j] == names@[k] by {
                    if k == i {
                        assert(r@[r@.len() - 1] == names@[k]);
                    } else {
                        let j = choose|j: int| 0 <= j < r0.len() && r0[j] == names@[k];
                        assert(r@[j] == r0[j]);
                    }
                }
            }
            i = i + 1;
        }
        r
    }
}

} // verus!
