//! The store locator's decisions. Walking the filesystem is left to the
//! caller: it probes each ancestor directory for the marker directory and the
//! per-format store files, and the functions here decide, from those plain
//! probe results, where the store is. The search stops at the first ancestor
//! holding a marker directory: a marker without a recognized store file means
//! no store is found, never a fall-through to a store further up.
use vstd::prelude::*;
use vstd::string::StrSliceExecFns;
use vstd::string::StringExecFns;
use crate::paths::{split_slash, join_slash, split_path, join_components};
use crate::db::{Format, spec_format_file_name};
use crate::text::str_eq;

verus! {

/// The absolute path with the given pieces under the root.
pub open spec fn abs_of(cs: Seq<Seq<char>>) -> Seq<char> {
    seq!['/'] + join_slash(cs)
}

/// The ancestor directories of an absolute path, nearest first, ending with
/// the filesystem root.
pub open spec fn spec_ancestors(s: Seq<char>) -> Seq<Seq<char>> {
    if s == seq!['/'] {
        seq![seq!['/']]
    } else {
        let cs = split_slash(s).skip(1);
        Seq::new(cs.len() + 1, |i: int| abs_of(cs.take(cs.len() - i)))
    }
}

/// Lists the ancestor directories of an absolute path, nearest first.
pub fn ancestor_paths(path: &str) -> (r: Vec<String>)
    ensures
        r.deep_view() == spec_ancestors(path@),
        r@.len() >= 1,
{
    proof {
        reveal_strlit("/");
    }
    if str_eq(path, "/") {
        let mut r: Vec<String> = Vec::new();
        r.push(String::from_str("/"));
        proof {
            assert("/"@ =~= seq!['/']);
            assert(path@ == seq!['/']);
            assert(r.deep_view() =~= spec_ancestors(path@));
        }
        return r;
    }
    assert(path@ != seq!['/']) by {
        assert("/"@ =~= seq!['/']);
    }
    let pieces = split_path(path);
    let ghost cs = split_slash(path@).skip(1);
    let n = pieces.len();
    assert(n >= 1);
    let mut r: Vec<String> = Vec::new();
    let mut i: usize = 0;
    // the i-th ancestor keeps the first n - 1 - i pieces after the root
    while i < n
        invariant
            i <= n,
            n == pieces@.len(),
            pieces.deep_view() == split_slash(path@),
            n >= 1,
            cs == split_slash(path@).skip(1),
            cs.len() == n - 1,
            r@.len() == i,
            forall|j: int| 0 <= j < i ==> (#[trigger] r.deep_view()[j]) == abs_of(
                cs.take(cs.len() - j)),
        decreases n - i,
    {
        let keep = n - 1 - i;
        let mut prefix: Vec<String> = Vec::new();
        let mut j: usize = 0;
        while j < keep
            invariant
                j <= keep,
                keep < n,
                n == pieces@.len(),
                pieces.deep_view() == split_slash(path@),
                cs == split_slash(path@).skip(1),
                cs.len() == n - 1,
                prefix.deep_view() == cs.take(keep as int).take(j as int),
            decreases keep - j,
        {
            proof {
                assert(cs[j as int] == pieces.deep_view()[j + 1]);
                assert(cs.take(keep as int).take(j as int + 1) =~= cs.take(keep as int).take(
                    j as int).push(cs[j as int]));
            }
            prefix.push(pieces[j + 1].clone());
            proof {
                assert(prefix.deep_view() =~= cs.take(keep as int).take(j as int + 1));
            }
            j = j + 1;
        }
        proof {
            assert(cs.take(keep as int).take(keep as int) =~= cs.take(keep as int));
        }
        let joined = join_components(&prefix);
        let mut anc = String::from_str("/");
        anc.append(joined.as_str());
        proof {
            reveal_strlit("/");
            assert("/"@ =~= seq!['/']);
            assert(anc@ =~= abs_of(cs.take(keep as int)));
        }
        let ghost old_r = r.deep_view();
        r.push(anc);
        proof {
            assert(r.deep_view() =~= old_r.push(abs_of(cs.take(keep as int))));
        }
        i = i + 1;
    }
    proof {
        assert(r.deep_view() =~= spec_ancestors(path@));
    }
    r
}

/// What probing one ancestor directory found: whether the marker
/// subdirectory exists as a directory, and which format files exist as
/// regular files inside it.
#[derive(Debug, Clone, Copy, PartialEq, Eq, Structural)]
pub struct DirProbe {
    pub has_marker: bool,
    pub pretty: bool,
    pub json: bool,
    pub binary: bool,
}

/// The nearest ancestor holding a marker directory.
pub open spec fn spec_first_marker(probes: Seq<DirProbe>) -> Option<int>
    decreases probes.len(),
{
    if probes.len() == 0 {
        None
    } else if probes[0].has_marker {
        Some(0int)
    } else {
        match spec_first_marker(probes.skip(1)) {
            Some(i) => Some(i + 1),
            None => None,
        }
    }
}

pub proof fn lemma_first_marker_at(probes: Seq<DirProbe>, i: int)
    requires
        0 <= i < probes.len(),
        probes[i].has_marker,
        forall|j: int| 0 <= j < i ==> !(#[trigger] probes[j]).has_marker,
    ensures
        spec_first_marker(probes) == Some(i),
    decreases i,
{
    if i > 0 {
        let t = probes.skip(1);
        assert(forall|j: int| 0 <= j < t.len() ==> #[trigger] t[j] == probes[j + 1]);
        lemma_first_marker_at(t, i - 1);
    }
}

pub proof fn lemma_first_marker_none(probes: Seq<DirProbe>)
    requires
        forall|j: int| 0 <= j < probes.len() ==> !(#[trigger] probes[j]).has_marker,
    ensures
        spec_first_marker(probes) is None,
    decreases probes.len(),
{
    if probes.len() > 0 {
        let t = probes.skip(1);
        assert(forall|j: int| 0 <= j < t.len() ==> #[trigger] t[j] == probes[j + 1]);
        lemma_first_marker_none(t);
    }
}

/// A found marker index lies inside the probe list.
pub proof fn lemma_first_marker_range(probes: Seq<DirProbe>)
    ensures
        match spec_first_marker(probes) {
            Some(i) => 0 <= i < probes.len() && probes[i].has_marker,
            None => true,
        },
    decreases probes.len(),
{
    if probes.len() > 0 && !probes[0].has_marker {
        lemma_first_marker_range(probes.skip(1));
    }
}

/// The first format whose file the probe found, in priority order.
pub open spec fn spec_probe_format(p: DirProbe) -> Option<Format> {
    if p.pretty {
        Some(Format::JsonPretty)
    } else if p.json {
        Some(Format::Json)
    } else if p.binary {
        Some(Format::Binary)
    } else {
        None
    }
}

/// Where the store is, given the probe of each ancestor, nearest first: the
/// nearest marker directory decides, and only a recognized file inside it
/// counts. A marker without one means no store at all.
pub open spec fn spec_find_store(probes: Seq<DirProbe>) -> Option<(int, Format)> {
    match spec_first_marker(probes) {
        None => None,
        Some(i) => match spec_probe_format(probes[i]) {
            Some(f) => Some((i, f)),
            None => None,
        },
    }
}

/// Decides where the store is from the ancestors' probe results; the result
/// pairs the index of the deciding ancestor with the discovered format.
pub fn find_store(probes: &Vec<DirProbe>) -> (r: Option<(usize, Format)>)
    ensures
        match r {
            Some(p) => spec_find_store(probes@) == Some((p.0 as int, p.1)),
            None => spec_find_store(probes@) is None,
        },
{
    let n = probes.len();
    let mut i: usize = 0;
    while i < n
        invariant
            i <= n,
            n == probes@.len(),
            forall|j: int| 0 <= j < i ==> !(#[trigger] probes@[j]).has_marker,
        decreases n - i,
    {
        let p = probes[i];
        if p.has_marker {
            proof {
                lemma_first_marker_at(probes@, i as int);
            }
            if p.pretty {
                return Some((i, Format::JsonPretty));
            }
            if p.json {
                return Some((i, Format::Json));
            }
            if p.binary {
                return Some((i, Format::Binary));
            }
            return None;
        }
        i = i + 1;
    }
    proof {
        lemma_first_marker_none(probes@);
    }
    None
}

/// What probing found for one filesystem name.
#[derive(Debug, Clone, Copy, PartialEq, Eq, Structural)]
pub enum EntryState {
    /// Nothing exists under the name.
    Missing,
    /// A regular file exists.
    File,
    /// A directory exists.
    Dir,
    /// Something else exists.
    Other,
}

/// What initialization should do, given what probing the marker directory
/// and the three format files found.
#[derive(Debug, Clone, Copy, PartialEq, Eq, Structural)]
pub enum InitDecision {
    /// Create the marker directory, then the store file.
    CreateAll,
    /// The marker directory exists and is empty of store files: create the
    /// store file only.
    CreateFileOnly,
    /// A store file already exists; initialization is a no-op.
    AlreadyExists,
    /// The marker name exists but is not a directory.
    MarkerNotDir,
    /// A store file name is taken by something that is not a regular file.
    OccupiedName,
}

pub open spec fn spec_init_decision(
    marker: EntryState,
    pretty: EntryState,
    json: EntryState,
    binary: EntryState,
) -> InitDecision {
    if marker == EntryState::Missing {
        InitDecision::CreateAll
    } else if marker != EntryState::Dir {
        InitDecision::MarkerNotDir
    } else if pretty != EntryState::Missing {
        if pretty == EntryState::File {
            InitDecision::AlreadyExists
        } else {
            InitDecision::OccupiedName
        }
    } else if json != EntryState::Missing {
        if json == EntryState::File {
            InitDecision::AlreadyExists
        } else {
            InitDecision::OccupiedName
        }
    } else if binary != EntryState::Missing {
        if binary == EntryState::File {
            InitDecision::AlreadyExists
        } else {
            InitDecision::OccupiedName
        }
    } else {
        InitDecision::CreateFileOnly
    }
}

/// Decides what initializing a store at a directory should do, from the
/// probe of the marker directory and of the three format files inside it,
/// in priority order.
pub fn init_decision(
    marker: EntryState,
    pretty: EntryState,
    json: EntryState,
    binary: EntryState,
) -> (r: InitDecision)
    ensures
        r == spec_init_decision(marker, pretty, json, binary),
{
    if matches!(marker, EntryState::Missing) {
        return InitDecision::CreateAll;
    }
    if !matches!(marker, EntryState::Dir) {
        return InitDecision::MarkerNotDir;
    }
    if !matches!(pretty, EntryState::Missing) {
        if matches!(pretty, EntryState::File) {
            return InitDecision::AlreadyExists;
        }
        return InitDecision::OccupiedName;
    }
    if !matches!(json, EntryState::Missing) {
        if matches!(json, EntryState::File) {
            return InitDecision::AlreadyExists;
        }
        return InitDecision::OccupiedName;
    }
    if !matches!(binary, EntryState::Missing) {
        if matches!(binary, EntryState::File) {
            return InitDecision::AlreadyExists;
        }
        return InitDecision::OccupiedName;
    }
    InitDecision::CreateFileOnly
}

/// The marker directory's path under an ancestor directory.
pub open spec fn spec_marker_dir(d: Seq<char>) -> Seq<char> {
    if d.len() > 0 && d.last() == '/' {
        d + ".fsm"@
    } else {
        d + "/.fsm"@
    }
}

/// The store file's path for a format, inside the marker directory.
pub open spec fn spec_store_file(d: Seq<char>, f: Format) -> Seq<char> {
    spec_marker_dir(d) + seq!['/'] + spec_format_file_name(f)
}

/// The path of the marker directory under `dir`.
pub fn marker_dir(dir: &str) -> (r: String)
    ensures
        r@ == spec_marker_dir(dir@),
{
    let n = dir.unicode_len();
    let mut r = dir.to_owned();
    if n > 0 && dir.get_char(n - 1) == '/' {
        r.append(".fsm");
    } else {
        r.append("/.fsm");
    }
    r
}

/// The path of the store file for `format`, inside the marker directory
/// under `dir`.
pub fn store_file_path(dir: &str, format: &Format) -> (r: String)
    ensures
        r@ == spec_store_file(dir@, *format),
{
    let mut r = marker_dir(dir);
    r.append("/");
    r.append(format.file_name());
    proof {
        reveal_strlit("/");
        assert("/"@ =~= seq!['/']);
        assert(r@ =~= spec_store_file(dir@, *format));
    }
    r
}

} // verus!
