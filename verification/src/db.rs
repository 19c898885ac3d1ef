//! The in-memory store model: the root aggregate with its file entries,
//! collections and store-level metadata, and the shared metadata-container
//! interface the store and each file entry expose alike.
use vstd::prelude::*;
use vstd::string::StrSliceExecFns;
use vstd::string::StringExecFns;
use crate::omap::{OrderedMap, KeySet, map_sorted, set_sorted};
use crate::tags::{TagsMap, TagValueV, tags_dup};

verus! {

/// The three interchangeable on-disk formats, in discovery priority order.
#[derive(Debug, Clone, Copy, PartialEq, Eq, Structural)]
pub enum Format {
    JsonPretty,
    Json,
    Binary,
}

pub open spec fn spec_format_file_name(f: Format) -> Seq<char> {
    match f {
        Format::JsonPretty => "db.pretty.json"@,
        Format::Json => "db.json"@,
        Format::Binary => "db.bincode"@,
    }
}

impl Format {
    /// The well-known file name that stores a body in this format.
    pub fn file_name(&self) -> (r: &'static str)
        ensures
            r@ == spec_format_file_name(*self),
    {
        match self {
            Format::JsonPretty => "db.pretty.json",
            Format::Json => "db.json",
            Format::Binary => "db.bincode",
        }
    }
}

/// The formats in the fixed priority order the locator probes them.
pub fn format_list() -> (r: Vec<Format>)
    ensures
        r@ == seq![Format::JsonPretty, Format::Json, Format::Binary],
{
    let mut r: Vec<Format> = Vec::new();
    r.push(Format::JsonPretty);
    r.push(Format::Json);
    r.push(Format::Binary);
    proof {
        assert(r@ =~= seq![Format::JsonPretty, Format::Json, Format::Binary]);
    }
    r
}

/// Relies on `chrono::Utc::now` and `DateTime::timestamp`: the current time
/// as seconds since the Unix epoch. Nothing is assumed of the value.
#[verifier::external_body]
pub fn now_timestamp() -> i64 {
    chrono::Utc::now().timestamp()
}

/// The uniform metadata surface the store itself and each file entry share:
/// tags, a comment, and the created/updated timestamps.
pub trait MetaContainer: Sized {
    /// The ordered tag entries of the container.
    spec fn meta_tags(&self) -> Seq<(Seq<char>, Option<TagValueV>)>;

    spec fn meta_comment(&self) -> Option<Seq<char>>;

    spec fn meta_created(&self) -> int;

    spec fn meta_updated(&self) -> Option<int>;

    /// The effective modified time: `updated` when stamped, else `created`.
    open spec fn spec_modified(&self) -> int {
        match self.meta_updated() {
            Some(u) => u,
            None => self.meta_created(),
        }
    }

    open spec fn meta_wf(&self) -> bool {
        map_sorted(self.meta_tags())
    }

    fn created(&self) -> (r: i64)
        ensures
            r as int == self.meta_created(),
    ;

    fn updated(&self) -> (r: Option<i64>)
        ensures
            match r {
                Some(u) => self.meta_updated() == Some(u as int),
                None => self.meta_updated() is None,
            },
    ;

    fn modified(&self) -> (r: i64)
        ensures
            r as int == self.spec_modified(),
    ;

    fn tags(&self) -> (r: &TagsMap)
        ensures
            r@ == self.meta_tags(),
    ;

    fn comment(&self) -> (r: Option<&str>)
        ensures
            match r {
                Some(c) => self.meta_comment() == Some(c@),
                None => self.meta_comment() is None,
            },
    ;

    /// Stamps the updated timestamp, leaving everything else alone.
    fn update_ts(&mut self, now: i64)
        ensures
            final(self).meta_tags() == old(self).meta_tags(),
            final(self).meta_comment() == old(self).meta_comment(),
            final(self).meta_created() == old(self).meta_created(),
            final(self).meta_updated() == Some(now as int),
    ;

    /// Moves the tags out, leaving the container's tag map empty.
    fn take_tags(&mut self) -> (r: TagsMap)
        ensures
            r@ == old(self).meta_tags(),
            final(self).meta_tags() == Seq::<(Seq<char>, Option<TagValueV>)>::empty(),
            final(self).meta_comment() == old(self).meta_comment(),
            final(self).meta_created() == old(self).meta_created(),
            final(self).meta_updated() == old(self).meta_updated(),
    ;

    /// Moves the comment out, leaving the container without one.
    fn take_comment(&mut self) -> (r: Option<String>)
        ensures
            match r {
                Some(c) => old(self).meta_comment() == Some(c@),
                None => old(self).meta_comment() is None,
            },
            final(self).meta_comment() is None,
            final(self).meta_tags() == old(self).meta_tags(),
            final(self).meta_created() == old(self).meta_created(),
            final(self).meta_updated() == old(self).meta_updated(),
    ;

    /// Moves both the tags and the comment out.
    fn take_tags_comment(&mut self) -> (r: (TagsMap, Option<String>))
        ensures
            r.0@ == old(self).meta_tags(),
            match r.1 {
                Some(c) => old(self).meta_comment() == Some(c@),
                None => old(self).meta_comment() is None,
            },
            final(self).meta_tags() == Seq::<(Seq<char>, Option<TagValueV>)>::empty(),
            final(self).meta_comment() is None,
            final(self).meta_created() == old(self).meta_created(),
            final(self).meta_updated() == old(self).meta_updated(),
    ;
}

/// The per-path metadata record.
#[derive(Debug)]
pub struct FileData {
    pub tags: TagsMap,
    pub comment: Option<String>,
    pub created: i64,
    pub updated: Option<i64>,
}

/// The mathematical shape of a file entry.
pub struct FileDataV {
    pub tags: Seq<(Seq<char>, Option<TagValueV>)>,
    pub comment: Option<Seq<char>>,
    pub created: int,
    pub updated: Option<int>,
}

impl DeepView for FileData {
    type V = FileDataV;

    open spec fn deep_view(&self) -> FileDataV {
        FileDataV {
            tags: self.tags@,
            comment: match self.comment {
                Some(c) => Some(c@),
                None => None,
            },
            created: self.created as int,
            updated: match self.updated {
                Some(u) => Some(u as int),
                None => None,
            },
        }
    }
}

impl FileData {
    pub open spec fn wf(&self) -> bool {
        self.tags.wf()
    }

    /// A fresh entry created at `now`: no tags, no comment, never updated.
    pub fn new(now: i64) -> (r: FileData)
        ensures
            r.tags@ == Seq::<(Seq<char>, Option<TagValueV>)>::empty(),
            r.comment is None,
            r.created == now,
            r.updated is None,
            r.wf(),
    {
        FileData { tags: TagsMap::new(), comment: None, created: now, updated: None }
    }
}

impl Default for FileData {
    /// A fresh entry created at the current time.
    fn default() -> (r: Self)
        ensures
            r.tags@ == Seq::<(Seq<char>, Option<TagValueV>)>::empty(),
            r.comment is None,
            r.updated is None,
            r.wf(),
    {
        FileData::new(now_timestamp())
    }
}

impl MetaContainer for FileData {
    open spec fn meta_tags(&self) -> Seq<(Seq<char>, Option<TagValueV>)> {
        self.tags@
    }

    open spec fn meta_comment(&self) -> Option<Seq<char>> {
        match self.comment {
            Some(c) => Some(c@),
            None => None,
        }
    }

    open spec fn meta_created(&self) -> int {
        self.created as int
    }

    open spec fn meta_updated(&self) -> Option<int> {
        match self.updated {
            Some(u) => Some(u as int),
            None => None,
        }
    }

    fn created(&self) -> i64 {
        self.created
    }

    fn updated(&self) -> Option<i64> {
        self.updated
    }

    fn modified(&self) -> i64 {
        match self.updated {
            Some(u) => u,
            None => self.created,
        }
    }

    fn tags(&self) -> &TagsMap {
        &self.tags
    }

    fn comment(&self) -> Option<&str> {
        match &self.comment {
            Some(c) => Some(c.as_str()),
            None => None,
        }
    }

    fn update_ts(&mut self, now: i64) {
        self.updated = Some(now);
    }

    fn take_tags(&mut self) -> TagsMap {
        let mut t = TagsMap::new();
        core::mem::swap(&mut self.tags, &mut t);
        t
    }

    fn take_comment(&mut self) -> Option<String> {
        let mut c: Option<String> = None;
        core::mem::swap(&mut self.comment, &mut c);
        c
    }

    fn take_tags_comment(&mut self) -> (TagsMap, Option<String>) {
        let mut t = TagsMap::new();
        core::mem::swap(&mut self.tags, &mut t);
        let mut c: Option<String> = None;
        core::mem::swap(&mut self.comment, &mut c);
        (t, c)
    }
}

/// The root aggregate: file entries, collections, and store-level metadata.
#[derive(Debug)]
pub struct Db {
    pub files: OrderedMap<FileData>,
    pub collections: OrderedMap<KeySet>,
    pub tags: TagsMap,
    pub comment: Option<String>,
    pub created: i64,
    pub updated: Option<i64>,
}

/// The mathematical shape of a store body.
pub struct DbV {
    pub files: Seq<(Seq<char>, FileDataV)>,
    pub collections: Seq<(Seq<char>, Seq<Seq<char>>)>,
    pub tags: Seq<(Seq<char>, Option<TagValueV>)>,
    pub comment: Option<Seq<char>>,
    pub created: int,
    pub updated: Option<int>,
}

impl Db {
    pub open spec fn view(&self) -> DbV {
        DbV {
            files: self.files@,
            collections: self.collections@,
            tags: self.tags@,
            comment: match self.comment {
                Some(c) => Some(c@),
                None => None,
            },
            created: self.created as int,
            updated: match self.updated {
                Some(u) => Some(u as int),
                None => None,
            },
        }
    }

    /// Every map is sorted, including those inside entries and collections.
    pub open spec fn wf(&self) -> bool {
        &&& self.files.wf()
        &&& self.collections.wf()
        &&& self.tags.wf()
        &&& forall|i: int|
            0 <= i < self.files@.len() ==> map_sorted((#[trigger] self.files@[i]).1.tags)
        &&& forall|i: int|
            0 <= i < self.collections@.len() ==> set_sorted((#[trigger] self.collections@[i]).1)
    }

    /// An empty store created at `now`.
    pub fn new(now: i64) -> (r: Db)
        ensures
            r@.files == Seq::<(Seq<char>, FileDataV)>::empty(),
            r@.collections == Seq::<(Seq<char>, Seq<Seq<char>>)>::empty(),
            r@.tags == Seq::<(Seq<char>, Option<TagValueV>)>::empty(),
            r@.comment is None,
            r@.created == now as int,
            r@.updated is None,
            r.wf(),
    {
        Db {
            files: OrderedMap::new(),
            collections: OrderedMap::new(),
            tags: TagsMap::new(),
            comment: None,
            created: now,
            updated: None,
        }
    }
}

impl Default for Db {
    /// An empty store created at the current time.
    fn default() -> (r: Self)
        ensures
            r@.files == Seq::<(Seq<char>, FileDataV)>::empty(),
            r@.collections == Seq::<(Seq<char>, Seq<Seq<char>>)>::empty(),
            r@.tags == Seq::<(Seq<char>, Option<TagValueV>)>::empty(),
            r@.comment is None,
            r@.updated is None,
            r.wf(),
    {
        Db::new(now_timestamp())
    }
}

impl MetaContainer for Db {
    open spec fn meta_tags(&self) -> Seq<(Seq<char>, Option<TagValueV>)> {
        self.tags@
    }

    open spec fn meta_comment(&self) -> Option<Seq<char>> {
        match self.comment {
            Some(c) => Some(c@),
            None => None,
        }
    }

    open spec fn meta_created(&self) -> int {
        self.created as int
    }

    open spec fn meta_updated(&self) -> Option<int> {
        match self.updated {
            Some(u) => Some(u as int),
            None => None,
        }
    }

    fn created(&self) -> i64 {
        self.created
    }

    fn updated(&self) -> Option<i64> {
        self.updated
    }

    fn modified(&self) -> i64 {
        match self.updated {
            Some(u) => u,
            None => self.created,
        }
    }

    fn tags(&self) -> &TagsMap {
        &self.tags
    }

    fn comment(&self) -> Option<&str> {
        match &self.comment {
            Some(c) => Some(c.as_str()),
            None => None,
        }
    }

    fn update_ts(&mut self, now: i64) {
        self.updated = Some(now);
    }

    fn take_tags(&mut self) -> TagsMap {
        let mut t = TagsMap::new();
        core::mem::swap(&mut self.tags, &mut t);
        t
    }

    fn take_comment(&mut self) -> Option<String> {
        let mut c: Option<String> = None;
        core::mem::swap(&mut self.comment, &mut c);
        c
    }

    fn take_tags_comment(&mut self) -> (TagsMap, Option<String>) {
        let mut t = TagsMap::new();
        core::mem::swap(&mut self.tags, &mut t);
        let mut c: Option<String> = None;
        core::mem::swap(&mut self.comment, &mut c);
        (t, c)
    }
}

/// A loaded store: the body, the discovered format, where it lives on disk,
/// the store root, and the working directory resolution runs against.
#[derive(Debug)]
pub struct Context {
    pub format: Format,
    pub db: Db,
    pub path: String,
    pub root: String,
    pub cwd: String,
}

impl Context {
    pub open spec fn spec_format(&self) -> Format {
        self.format
    }

    pub open spec fn spec_path(&self) -> Seq<char> {
        self.path@
    }

    pub open spec fn spec_root(&self) -> Seq<char> {
        self.root@
    }

    pub open spec fn spec_cwd(&self) -> Seq<char> {
        self.cwd@
    }

    pub open spec fn wf(&self) -> bool {
        self.db.wf()
    }

    /// A fresh, empty store rooted at `root` in the chosen format; the
    /// caller persists it.
    pub fn create(root: String, format: Format, cwd: String, now: i64) -> (r: Context)
        ensures
            r.spec_format() == format,
            r.spec_root() == root@,
            r.spec_cwd() == cwd@,
            r.spec_path() == crate::locate::spec_store_file(root@, format),
            r.db@.files == Seq::<(Seq<char>, FileDataV)>::empty(),
            r.db@.collections == Seq::<(Seq<char>, Seq<Seq<char>>)>::empty(),
            r.db@.tags == Seq::<(Seq<char>, Option<TagValueV>)>::empty(),
            r.db@.comment is None,
            r.db@.created == now as int,
            r.db@.updated is None,
            r.wf(),
    {
        let path = crate::locate::store_file_path(root.as_str(), &format);
        Context { format, db: Db::new(now), path, root, cwd }
    }

    /// A store decoded from an existing file, with resolution state.
    pub fn from_parts(db: Db, format: Format, root: String, cwd: String) -> (r: Context)
        ensures
            r.spec_format() == format,
            r.spec_root() == root@,
            r.spec_cwd() == cwd@,
            r.spec_path() == crate::locate::spec_store_file(root@, format),
            r.db == db,
            r.wf() == db.wf(),
    {
        let path = crate::locate::store_file_path(root.as_str(), &format);
        Context { format, db, path, root, cwd }
    }

    /// Decides from the ancestors' probes where the store file is. The
    /// probes describe the ancestors of `start`, nearest first.
    pub fn find_file(start: &str, probes: &Vec<crate::locate::DirProbe>) -> (r: Option<
        (String, Format),
    >)
        requires
            probes@.len() == crate::locate::spec_ancestors(start@).len(),
        ensures
            match r {
                Some(p) => {
                    &&& crate::locate::spec_find_store(probes@) matches Some(found)
                    &&& found.1 == p.1
                    &&& p.0@ == crate::locate::spec_store_file(
                        crate::locate::spec_ancestors(start@)[found.0],
                        found.1,
                    )
                },
                None => crate::locate::spec_find_store(probes@) is None,
            },
    {
        let ancs = crate::locate::ancestor_paths(start);
        match crate::locate::find_store(probes) {
            Some(found) => {
                proof {
                    crate::locate::lemma_first_marker_range(probes@);
                }
                assert(found.0 < ancs@.len());
                let path = crate::locate::store_file_path(ancs[found.0].as_str(), &found.1);
                Some((path, found.1))
            },
            None => None,
        }
    }

    pub fn path(&self) -> (r: &str)
        ensures
            r@ == self.spec_path(),
    {
        self.path.as_str()
    }

    pub fn root(&self) -> (r: &str)
        ensures
            r@ == self.spec_root(),
    {
        self.root.as_str()
    }

    pub fn root_copy(&self) -> (r: String)
        ensures
            r@ == self.spec_root(),
    {
        self.root.clone()
    }

    pub fn format(&self) -> (r: Format)
        ensures
            r == self.spec_format(),
    {
        self.format
    }

    /// Resolves one path to its store key, against this store's root and
    /// working directory.
    pub fn rel_to_db(&self, path: &str) -> (r: Result<
        crate::paths::RelativePath,
        crate::paths::PathError,
    >)
        ensures
            match r {
                Ok(rp) => {
                    &&& rp.spec_full() == crate::paths::spec_absolutize(self.spec_cwd(), path@)
                    &&& crate::paths::spec_strip_prefix(self.spec_root(), rp.spec_full())
                        == Some(rp.spec_entry())
                },
                Err(e) => {
                    &&& crate::paths::spec_strip_prefix(
                        self.spec_root(),
                        crate::paths::spec_absolutize(self.spec_cwd(), path@),
                    ) is None
                    &&& e matches crate::paths::PathError::InvalidPrefix(p) && p@
                        == crate::paths::spec_absolutize(self.spec_cwd(), path@)
                },
            },
    {
        crate::paths::RelativePath::from_root(self.root.as_str(), self.cwd.as_str(), path)
    }

    /// A resolver over a whole path list, for batch operations.
    pub fn rel_to_db_list(&self, path_list: Vec<String>) -> (r: crate::paths::RelativePathList)
        ensures
            r.spec_root() == self.spec_root(),
            r.spec_cwd() == self.spec_cwd(),
            r.spec_list() == path_list.deep_view(),
            r.spec_pos() == 0,
    {
        crate::paths::RelativePathList::new(self.root.clone(), self.cwd.clone(), path_list)
    }
}

/// Inserting a file entry whose tag map is sorted keeps every entry's tag
/// map sorted.
pub proof fn lemma_files_wf_insert(files: Seq<(Seq<char>, FileDataV)>, k: Seq<char>, v: FileDataV)
    requires
        forall|i: int| 0 <= i < files.len() ==> map_sorted((#[trigger] files[i]).1.tags),
        map_sorted(v.tags),
    ensures
        forall|i: int|
            0 <= i < crate::omap::map_insert(files, k, v).len() ==> map_sorted(
                (#[trigger] crate::omap::map_insert(files, k, v)[i]).1.tags),
{
    let out = crate::omap::map_insert(files, k, v);
    crate::omap::lemma_map_insert_elems(files, k, v);
    assert forall|i: int| 0 <= i < out.len() implies map_sorted((#[trigger] out[i]).1.tags) by {
        if out[i] == (k, v) {
        } else {
            let j = choose|j: int| 0 <= j < files.len() && out[i] == files[j];
        }
    }
}

/// Dropping a file entry keeps every remaining entry's tag map sorted.
pub proof fn lemma_files_wf_remove(files: Seq<(Seq<char>, FileDataV)>, k: Seq<char>)
    requires
        forall|i: int| 0 <= i < files.len() ==> map_sorted((#[trigger] files[i]).1.tags),
    ensures
        forall|i: int|
            0 <= i < crate::omap::map_remove(files, k).len() ==> map_sorted(
                (#[trigger] crate::omap::map_remove(files, k)[i]).1.tags),
{
    let out = crate::omap::map_remove(files, k);
    crate::omap::lemma_map_remove_elems(files, k);
    assert forall|i: int| 0 <= i < out.len() implies map_sorted((#[trigger] out[i]).1.tags) by {
        let j = choose|j: int| 0 <= j < files.len() && out[i] == files[j];
    }
}

/// Inserting a sorted member list keeps every collection's members sorted.
pub proof fn lemma_colls_wf_insert(
    colls: Seq<(Seq<char>, Seq<Seq<char>>)>,
    k: Seq<char>,
    v: Seq<Seq<char>>,
)
    requires
        forall|i: int| 0 <= i < colls.len() ==> set_sorted((#[trigger] colls[i]).1),
        set_sorted(v),
    ensures
        forall|i: int|
            0 <= i < crate::omap::map_insert(colls, k, v).len() ==> set_sorted(
                (#[trigger] crate::omap::map_insert(colls, k, v)[i]).1),
{
    let out = crate::omap::map_insert(colls, k, v);
    crate::omap::lemma_map_insert_elems(colls, k, v);
    assert forall|i: int| 0 <= i < out.len() implies set_sorted((#[trigger] out[i]).1) by {
        if out[i] == (k, v) {
        } else {
            let j = choose|j: int| 0 <= j < colls.len() && out[i] == colls[j];
        }
    }
}

/// Dropping a collection keeps every remaining collection's members sorted.
pub proof fn lemma_colls_wf_remove(colls: Seq<(Seq<char>, Seq<Seq<char>>)>, k: Seq<char>)
    requires
        forall|i: int| 0 <= i < colls.len() ==> set_sorted((#[trigger] colls[i]).1),
    ensures
        forall|i: int|
            0 <= i < crate::omap::map_remove(colls, k).len() ==> set_sorted(
                (#[trigger] crate::omap::map_remove(colls, k)[i]).1),
{
    let out = crate::omap::map_remove(colls, k);
    crate::omap::lemma_map_remove_elems(colls, k);
    assert forall|i: int| 0 <= i < out.len() implies set_sorted((#[trigger] out[i]).1) by {
        let j = choose|j: int| 0 <= j < colls.len() && out[i] == colls[j];
    }
}

} // verus!
