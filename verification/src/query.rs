//! The query path: selecting entries (all of them, the store itself, or an
//! explicit path list), filtering by tag presence, and producing a
//! deterministically ordered result list with a composite comparator that is
//! stable: ties keep insertion order.
use vstd::prelude::*;
use crate::db::{Db, Context, MetaContainer, FileData, FileDataV};
use crate::tags::{TagsMap, TagKey, TagValueV, tags_dup};
use crate::omap::{map_has, map_get, map_sorted};
use crate::text::{lex_lt, str_lt, str_eq, lemma_lex_lt_strict, lemma_lex_lt_trans};
use crate::paths::{spec_absolutize, spec_strip_prefix, PathError};

verus! {

/// The sort criteria, evaluated left to right until one breaks the tie.
#[derive(Debug, Clone, Copy, PartialEq, Eq, Structural)]
pub enum SortBy {
    Name,
    Date,
    Created,
    Updated,
}

/// The query arguments: selection mode, tag filters, and the sort criteria.
#[derive(Debug)]
pub struct GetArgs {
    /// Do not output tags.
    pub no_tags: bool,
    /// Do not output comments.
    pub no_comment: bool,
    /// Select every entry in the store.
    pub all: bool,
    /// Select the store itself.
    pub self_: bool,
    /// The sort criteria, leftmost first.
    pub sort_by: Vec<SortBy>,
    /// An entry passes only if it has every one of these tags.
    pub includes_tags: Vec<TagKey>,
    /// An entry passes only if it has none of these tags.
    pub excludes_tags: Vec<TagKey>,
    /// The paths to select when neither `all` nor `self_` is set alone.
    pub files: Vec<String>,
}

pub open spec fn tag_keys_view(ks: Seq<TagKey>) -> Seq<Seq<char>> {
    Seq::new(ks.len(), |i: int| ks[i]@)
}

/// The conjunctive filter: every include tag present, no exclude tag
/// present.
pub open spec fn spec_passes_filter(
    tags: Seq<(Seq<char>, Option<TagValueV>)>,
    inc: Seq<Seq<char>>,
    exc: Seq<Seq<char>>,
) -> bool {
    (forall|i: int| 0 <= i < inc.len() ==> map_has(tags, #[trigger] inc[i])) && (forall|i: int|
        0 <= i < exc.len() ==> !map_has(tags, #[trigger] exc[i]))
}

/// Decides whether a container passes the include/exclude tag filter.
pub fn check_filter<M: MetaContainer>(meta: &M, args: &GetArgs) -> (r: bool)
    requires
        map_sorted(meta.meta_tags()),
    ensures
        r == spec_passes_filter(
            meta.meta_tags(),
            tag_keys_view(args.includes_tags@),
            tag_keys_view(args.excludes_tags@),
        ),
{
    let tags = meta.tags();
    let n_inc = args.includes_tags.len();
    let mut i: usize = 0;
    while i < n_inc
        invariant
            i <= n_inc,
            n_inc == args.includes_tags@.len(),
            tags@ == meta.meta_tags(),
            tags.wf(),
            forall|j: int|
                0 <= j < i ==> map_has(meta.meta_tags(), #[trigger] tag_keys_view(
                    args.includes_tags@)[j]),
        decreases n_inc - i,
    {
        let check = &args.includes_tags[i];
        if !tags.contains_key(check.inner()) {
            assert(!map_has(meta.meta_tags(), tag_keys_view(args.includes_tags@)[i as int]));
            return false;
        }
        i = i + 1;
    }
    let n_exc = args.excludes_tags.len();
    let mut i2: usize = 0;
    while i2 < n_exc
        invariant
            i2 <= n_exc,
            n_exc == args.excludes_tags@.len(),
            tags@ == meta.meta_tags(),
            tags.wf(),
            forall|j: int|
                0 <= j < i2 ==> !map_has(meta.meta_tags(), #[trigger] tag_keys_view(
                    args.excludes_tags@)[j]),
        decreases n_exc - i2,
    {
        let check = &args.excludes_tags[i2];
        if tags.contains_key(check.inner()) {
            assert(map_has(meta.meta_tags(), tag_keys_view(args.excludes_tags@)[i2 as int]));
            return false;
        }
        i2 = i2 + 1;
    }
    true
}

/// One row of a query result: the display key and a snapshot of the
/// container's metadata.
#[derive(Debug)]
pub struct QueryItem {
    pub key: String,
    pub tags: TagsMap,
    pub comment: Option<String>,
    pub created: i64,
    pub updated: Option<i64>,
}

/// The mathematical shape of a result row.
pub struct QueryItemV {
    pub key: Seq<char>,
    pub meta: FileDataV,
}

impl DeepView for QueryItem {
    type V = QueryItemV;

    open spec fn deep_view(&self) -> QueryItemV {
        QueryItemV {
            key: self.key@,
            meta: FileDataV {
                tags: self.tags@,
                comment: match self.comment {
                    Some(c) => Some(c@),
                    None => None,
                },
                created: self.created as int,
                updated: match self.updated {
                    Some(u) => Some(u as int),
                    None => None,
                },
            },
        }
    }
}

pub open spec fn spec_modified_v(m: FileDataV) -> int {
    match m.updated {
        Some(u) => u,
        None => m.created,
    }
}

pub open spec fn cmp_int(x: int, y: int) -> int {
    if x < y {
        -1
    } else if x == y {
        0
    } else {
        1
    }
}

/// One criterion compared: negative puts `a` before `b`, zero is a tie. An
/// entry without an updated timestamp sorts after any entry with one.
pub open spec fn spec_cmp_by(by: SortBy, a: QueryItemV, b: QueryItemV) -> int {
    match by {
        SortBy::Name => if lex_lt(a.key, b.key) {
            -1
        } else if a.key == b.key {
            0
        } else {
            1
        },
        SortBy::Date => cmp_int(spec_modified_v(a.meta), spec_modified_v(b.meta)),
        SortBy::Created => cmp_int(a.meta.created, b.meta.created),
        SortBy::Updated => match a.meta.updated {
            Some(x) => match b.meta.updated {
                Some(y) => cmp_int(x, y),
                None => -1,
            },
            None => match b.meta.updated {
                Some(_) => 1,
                None => 0,
            },
        },
    }
}

/// The composite comparator: criteria left to right, moving on only on an
/// exact tie.
pub open spec fn spec_cmp(sort_by: Seq<SortBy>, a: QueryItemV, b: QueryItemV) -> int
    decreases sort_by.len(),
{
    if sort_by.len() == 0 {
        0
    } else {
        let c = spec_cmp_by(sort_by[0], a, b);
        if c != 0 {
            c
        } else {
            spec_cmp(sort_by.skip(1), a, b)
        }
    }
}

pub proof fn lemma_cmp_by_antisym(by: SortBy, a: QueryItemV, b: QueryItemV)
    ensures
        spec_cmp_by(by, a, b) == -spec_cmp_by(by, b, a),
{
    if by == SortBy::Name {
        lemma_lex_lt_strict(a.key, b.key);
        lemma_lex_lt_strict(b.key, a.key);
    }
}

pub proof fn lemma_cmp_antisym(sort_by: Seq<SortBy>, a: QueryItemV, b: QueryItemV)
    ensures
        spec_cmp(sort_by, a, b) == -spec_cmp(sort_by, b, a),
    decreases sort_by.len(),
{
    if sort_by.len() > 0 {
        lemma_cmp_by_antisym(sort_by[0], a, b);
        lemma_cmp_antisym(sort_by.skip(1), a, b);
    }
}

pub proof fn lemma_cmp_by_trans(by: SortBy, a: QueryItemV, b: QueryItemV, c: QueryItemV)
    requires
        spec_cmp_by(by, a, b) <= 0,
        spec_cmp_by(by, b, c) <= 0,
    ensures
        spec_cmp_by(by, a, c) <= 0,
        spec_cmp_by(by, a, b) == 0 && spec_cmp_by(by, b, c) == 0 ==> spec_cmp_by(by, a, c) == 0,
        spec_cmp_by(by, a, b) < 0 || spec_cmp_by(by, b, c) < 0 ==> spec_cmp_by(by, a, c) < 0,
{
    if by == SortBy::Name {
        lemma_lex_lt_strict(a.key, b.key);
        lemma_lex_lt_strict(b.key, c.key);
        lemma_lex_lt_strict(a.key, c.key);
        if lex_lt(a.key, b.key) && lex_lt(b.key, c.key) {
            lemma_lex_lt_trans(a.key, b.key, c.key);
        }
    }
}

pub proof fn lemma_cmp_trans(sort_by: Seq<SortBy>, a: QueryItemV, b: QueryItemV, c: QueryItemV)
    requires
        spec_cmp(sort_by, a, b) <= 0,
        spec_cmp(sort_by, b, c) <= 0,
    ensures
        spec_cmp(sort_by, a, c) <= 0,
    decreases sort_by.len(),
{
    if sort_by.len() > 0 {
        let by = sort_by[0];
        lemma_cmp_by_antisym(by, a, b);
        lemma_cmp_by_antisym(by, b, c);
        lemma_cmp_by_antisym(by, a, c);
        if spec_cmp_by(by, a, b) <= 0 && spec_cmp_by(by, b, c) <= 0 {
            lemma_cmp_by_trans(by, a, b, c);
            if spec_cmp_by(by, a, b) == 0 && spec_cmp_by(by, b, c) == 0 {
                lemma_cmp_trans(sort_by.skip(1), a, b, c);
            }
        }
    }
}

/// The stable ordered insertion: the new row goes after every present row
/// that does not compare strictly greater, so ties keep insertion order.
pub open spec fn spec_sorted_insert(
    items: Seq<QueryItemV>,
    sort_by: Seq<SortBy>,
    x: QueryItemV,
) -> Seq<QueryItemV>
    decreases items.len(),
{
    if items.len() == 0 {
        seq![x]
    } else if spec_cmp(sort_by, items[0], x) > 0 {
        seq![x] + items
    } else {
        seq![items[0]] + spec_sorted_insert(items.skip(1), sort_by, x)
    }
}

/// Every row of an insertion result is the new row or one of the old rows.
pub proof fn lemma_sorted_insert_elems(items: Seq<QueryItemV>, sort_by: Seq<SortBy>, x: QueryItemV)
    ensures
        spec_sorted_insert(items, sort_by, x).len() == items.len() + 1,
        forall|m: int|
            0 <= m < spec_sorted_insert(items, sort_by, x).len() ==> (#[trigger] spec_sorted_insert(
                items,
                sort_by,
                x,
            )[m]) == x || exists|j: int|
                0 <= j < items.len() && spec_sorted_insert(items, sort_by, x)[m] == items[j],
    decreases items.len(),
{
    let out = spec_sorted_insert(items, sort_by, x);
    if items.len() == 0 {
    } else if spec_cmp(sort_by, items[0], x) > 0 {
        assert forall|m: int| 0 <= m < out.len() implies (#[trigger] out[m]) == x || exists|j: int|
            0 <= j < items.len() && out[m] == items[j] by {
            if m > 0 {
                assert(out[m] == items[m - 1]);
            }
        }
    } else {
        let t = items.skip(1);
        lemma_sorted_insert_elems(t, sort_by, x);
        let sub = spec_sorted_insert(t, sort_by, x);
        assert forall|m: int| 0 <= m < out.len() implies (#[trigger] out[m]) == x || exists|j: int|
            0 <= j < items.len() && out[m] == items[j] by {
            if m == 0 {
                assert(out[0] == items[0]);
            } else {
                assert(out[m] == sub[m - 1]);
                if sub[m - 1] == x {
                } else {
                    let j = choose|j: int| 0 <= j < t.len() && sub[m - 1] == t[j];
                    assert(t[j] == items[j + 1]);
                }
            }
        }
    }
}

/// The rows are ordered: no row compares strictly greater than a later one.
pub open spec fn spec_items_sorted(items: Seq<QueryItemV>, sort_by: Seq<SortBy>) -> bool {
    forall|i: int, j: int|
        0 <= i < j < items.len() ==> spec_cmp(sort_by, #[trigger] items[i], #[trigger] items[j])
            <= 0
}

/// Insertion keeps the rows ordered.
pub proof fn lemma_sorted_insert_sorted(items: Seq<QueryItemV>, sort_by: Seq<SortBy>, x: QueryItemV)
    requires
        spec_items_sorted(items, sort_by),
    ensures
        spec_items_sorted(spec_sorted_insert(items, sort_by, x), sort_by),
    decreases items.len(),
{
    let out = spec_sorted_insert(items, sort_by, x);
    if items.len() == 0 {
    } else if spec_cmp(sort_by, items[0], x) > 0 {
        lemma_cmp_antisym(sort_by, items[0], x);
        assert forall|i: int, j: int| 0 <= i < j < out.len() implies spec_cmp(
            sort_by, #[trigger] out[i], #[trigger] out[j]) <= 0 by {
            assert(forall|m: int| 1 <= m < out.len() ==> (#[trigger] out[m]) == items[m - 1]);
            if i == 0 {
                if j == 1 {
                } else {
                    lemma_cmp_trans(sort_by, x, items[0], items[j - 1]);
                }
            }
        }
    } else {
        let t = items.skip(1);
        assert(spec_items_sorted(t, sort_by)) by {
            assert(forall|m: int| 0 <= m < t.len() ==> #[trigger] t[m] == items[m + 1]);
        }
        lemma_sorted_insert_sorted(t, sort_by, x);
        lemma_sorted_insert_elems(t, sort_by, x);
        let sub = spec_sorted_insert(t, sort_by, x);
        assert forall|i: int, j: int| 0 <= i < j < out.len() implies spec_cmp(
            sort_by, #[trigger] out[i], #[trigger] out[j]) <= 0 by {
            assert(forall|m: int| 1 <= m < out.len() ==> (#[trigger] out[m]) == sub[m - 1]);
            if i == 0 {
                assert(out[0] == items[0]);
                if sub[j - 1] == x {
                } else {
                    let m = choose|m: int| 0 <= m < t.len() && sub[j - 1] == t[m];
                    assert(t[m] == items[m + 1]);
                    assert(spec_cmp(sort_by, items[0], items[m + 1]) <= 0);
                }
            }
        }
    }
}

/// `spec_sorted_insert` as the splice at the scan position.
pub proof fn lemma_sorted_insert_splice(
    items: Seq<QueryItemV>,
    sort_by: Seq<SortBy>,
    x: QueryItemV,
    idx: int,
)
    requires
        0 <= idx <= items.len(),
        forall|j: int| 0 <= j < idx ==> spec_cmp(sort_by, #[trigger] items[j], x) <= 0,
        idx < items.len() ==> spec_cmp(sort_by, items[idx], x) > 0,
    ensures
        spec_sorted_insert(items, sort_by, x) == items.take(idx) + seq![x] + items.skip(idx),
    decreases idx,
{
    if idx == 0 {
        if items.len() == 0 {
            assert(spec_sorted_insert(items, sort_by, x) =~= items.take(0) + seq![x] + items.skip(
                0));
        } else {
            assert(spec_sorted_insert(items, sort_by, x) =~= items.take(0) + seq![x] + items.skip(
                0));
        }
    } else {
        let t = items.skip(1);
        assert(forall|j: int| 0 <= j < t.len() ==> #[trigger] t[j] == items[j + 1]);
        lemma_sorted_insert_splice(t, sort_by, x, idx - 1);
        assert(spec_sorted_insert(items, sort_by, x) == seq![items[0]] + spec_sorted_insert(
            t, sort_by, x));
        assert(spec_sorted_insert(items, sort_by, x) =~= items.take(idx) + seq![x] + items.skip(
            idx));
    }
}

/// Applies the composite comparator to two rows.
pub fn cmp_items(sort_by: &Vec<SortBy>, a: &QueryItem, b: &QueryItem) -> (r: i32)
    ensures
        r as int == spec_cmp(sort_by@, a.deep_view(), b.deep_view()),
{
    let n = sort_by.len();
    let mut i: usize = 0;
    let ghost av = a.deep_view();
    let ghost bv = b.deep_view();
    proof {
        assert(sort_by@.skip(0) =~= sort_by@);
    }
    while i < n
        invariant
            i <= n,
            n == sort_by@.len(),
            av == a.deep_view(),
            bv == b.deep_view(),
            spec_cmp(sort_by@, av, bv) == spec_cmp(sort_by@.skip(i as int), av, bv),
        decreases n - i,
    {
        let ghost tail = sort_by@.skip(i as int);
        proof {
            assert(tail.len() > 0);
            assert(tail[0] == sort_by@[i as int]);
            assert(tail.skip(1) =~= sort_by@.skip(i as int + 1));
        }
        let c: i32 = match sort_by[i] {
            SortBy::Name => {
                if str_lt(a.key.as_str(), b.key.as_str()) {
                    -1
                } else if str_eq(a.key.as_str(), b.key.as_str()) {
                    0
                } else {
                    1
                }
            },
            SortBy::Date => {
                let am = match a.updated {
                    Some(u) => u,
                    None => a.created,
                };
                let bm = match b.updated {
                    Some(u) => u,
                    None => b.created,
                };
                if am < bm {
                    -1
                } else if am == bm {
                    0
                } else {
                    1
                }
            },
            SortBy::Created => {
                if a.created < b.created {
                    -1
                } else if a.created == b.created {
                    0
                } else {
                    1
                }
            },
            SortBy::Updated => {
                match a.updated {
                    Some(x) => match b.updated {
                        Some(y) => if x < y {
                            -1
                        } else if x == y {
                            0
                        } else {
                            1
                        },
                        None => -1,
                    },
                    None => match b.updated {
                        Some(_) => 1,
                        None => 0,
                    },
                }
            },
        };
        assert(c as int == spec_cmp_by(sort_by@[i as int], av, bv));
        if c != 0 {
            return c;
        }
        i = i + 1;
    }
    assert(sort_by@.skip(n as int).len() == 0);
    0
}

/// Inserts a row at its ordered position, after every row it ties with.
pub fn sorted_insert(item: QueryItem, filtered_items: &mut Vec<QueryItem>, sort_by: &Vec<SortBy>)
    ensures
        final(filtered_items).deep_view() == spec_sorted_insert(
            old(filtered_items).deep_view(),
            sort_by@,
            item.deep_view(),
        ),
{
    let ghost s = filtered_items.deep_view();
    let ghost xv = item.deep_view();
    let n = filtered_items.len();
    let mut idx: usize = 0;
    loop
        invariant
            idx <= n,
            n == filtered_items@.len(),
            s == filtered_items.deep_view(),
            xv == item.deep_view(),
            forall|j: int| 0 <= j < idx ==> spec_cmp(sort_by@, #[trigger] s[j], xv) <= 0,
        ensures
            idx <= n,
            n == filtered_items@.len(),
            s == filtered_items.deep_view(),
            xv == item.deep_view(),
            forall|j: int| 0 <= j < idx ==> spec_cmp(sort_by@, #[trigger] s[j], xv) <= 0,
            idx < n ==> spec_cmp(sort_by@, s[idx as int], xv) > 0,
        decreases n - idx,
    {
        if idx == n {
            break;
        }
        let c = cmp_items(sort_by, &filtered_items[idx], &item);
        assert(filtered_items@[idx as int].deep_view() == s[idx as int]);
        if c > 0 {
            break;
        }
        idx = idx + 1;
    }
    proof {
        lemma_sorted_insert_splice(s, sort_by@, xv, idx as int);
    }
    filtered_items.insert(idx, item);
    proof {
        assert(filtered_items.deep_view() =~= s.take(idx as int) + seq![xv] + s.skip(idx as int));
    }
}

/// The store's own metadata, shaped like a file entry's.
pub open spec fn spec_db_meta(d: crate::db::DbV) -> FileDataV {
    FileDataV { tags: d.tags, comment: d.comment, created: d.created, updated: d.updated }
}

/// The rows selected before any entry is visited: the store itself, under
/// the sentinel key, when it is selected and passes the filter.
pub open spec fn spec_query_init(
    d: crate::db::DbV,
    all: bool,
    self_: bool,
    inc: Seq<Seq<char>>,
    exc: Seq<Seq<char>>,
) -> Seq<QueryItemV> {
    if (self_ || all) && spec_passes_filter(d.tags, inc, exc) {
        seq![QueryItemV { key: "!SELF"@, meta: spec_db_meta(d) }]
    } else {
        Seq::empty()
    }
}

/// The rows after visiting every entry in key order: each passing entry is
/// inserted at its ordered position.
pub open spec fn spec_query_all(
    files: Seq<(Seq<char>, FileDataV)>,
    inc: Seq<Seq<char>>,
    exc: Seq<Seq<char>>,
    sort_by: Seq<SortBy>,
    init: Seq<QueryItemV>,
) -> Seq<QueryItemV>
    decreases files.len(),
{
    if files.len() == 0 {
        init
    } else {
        let rest = spec_query_all(files.drop_last(), inc, exc, sort_by, init);
        let f = files.last();
        if spec_passes_filter(f.1.tags, inc, exc) {
            spec_sorted_insert(rest, sort_by, QueryItemV { key: f.0, meta: f.1 })
        } else {
            rest
        }
    }
}

/// What one requested path contributes: a row when it resolves to a present,
/// passing entry, or a message naming the failure; a present entry that
/// fails the filter contributes nothing.
pub open spec fn spec_path_outcome(
    files: Seq<(Seq<char>, FileDataV)>,
    root: Seq<char>,
    cwd: Seq<char>,
    p: Seq<char>,
    inc: Seq<Seq<char>>,
    exc: Seq<Seq<char>>,
) -> (Option<QueryItemV>, Seq<Seq<char>>) {
    match spec_strip_prefix(root, spec_absolutize(cwd, p)) {
        None => (
            None,
            seq!["file and db do not share a common root: "@ + spec_absolutize(cwd, p)],
        ),
        Some(k) => {
            if !map_has(files, k) {
                (None, seq!["\""@ + k + "\" not found"@])
            } else if spec_passes_filter(map_get(files, k).tags, inc, exc) {
                (Some(QueryItemV { key: k, meta: map_get(files, k) }), Seq::empty())
            } else {
                (None, Seq::empty())
            }
        },
    }
}

/// The rows and messages after visiting a path list in order; a failure
/// never stops the batch.
pub open spec fn spec_query_paths(
    files: Seq<(Seq<char>, FileDataV)>,
    root: Seq<char>,
    cwd: Seq<char>,
    paths: Seq<Seq<char>>,
    inc: Seq<Seq<char>>,
    exc: Seq<Seq<char>>,
    sort_by: Seq<SortBy>,
    init: Seq<QueryItemV>,
) -> (Seq<QueryItemV>, Seq<Seq<char>>)
    decreases paths.len(),
{
    if paths.len() == 0 {
        (init, Seq::empty())
    } else {
        let rest = spec_query_paths(files, root, cwd, paths.drop_last(), inc, exc, sort_by, init);
        let step = spec_path_outcome(files, root, cwd, paths.last(), inc, exc);
        let items = match step.0 {
            Some(x) => spec_sorted_insert(rest.0, sort_by, x),
            None => rest.0,
        };
        (items, rest.1 + step.1)
    }
}

/// The whole query: rows in their deterministic order, and the per-path
/// messages of the explicit selection mode.
pub open spec fn spec_get_data(
    d: crate::db::DbV,
    root: Seq<char>,
    cwd: Seq<char>,
    all: bool,
    self_: bool,
    paths: Seq<Seq<char>>,
    inc: Seq<Seq<char>>,
    exc: Seq<Seq<char>>,
    sort_by: Seq<SortBy>,
) -> (Seq<QueryItemV>, Seq<Seq<char>>) {
    let init = spec_query_init(d, all, self_, inc, exc);
    if all {
        (spec_query_all(d.files, inc, exc, sort_by, init), Seq::empty())
    } else {
        spec_query_paths(d.files, root, cwd, paths, inc, exc, sort_by, init)
    }
}

/// A query's result: the ordered rows, and the messages its path resolution
/// produced on the way.
#[derive(Debug)]
pub struct QueryOutput {
    pub items: Vec<QueryItem>,
    pub messages: Vec<String>,
}

/// Builds a result row for a container snapshot under a display key.
fn snapshot_item(key: String, tags: &TagsMap, comment: &Option<String>, created: i64, updated: Option<i64>) -> (r: QueryItem)
    requires
        tags.wf(),
    ensures
        r.deep_view() == (QueryItemV {
            key: key@,
            meta: FileDataV {
                tags: tags@,
                comment: match *comment {
                    Some(c) => Some(c@),
                    None => None,
                },
                created: created as int,
                updated: match updated {
                    Some(u) => Some(u as int),
                    None => None,
                },
            },
        }),
{
    let c: Option<String> = match comment {
        Some(c) => Some(c.clone()),
        None => None,
    };
    QueryItem { key, tags: tags_dup(tags), comment: c, created, updated }
}

/// Runs a query against a loaded store: selects the store itself, all
/// entries, or the requested paths; filters by tag presence; and returns the
/// rows in the deterministic composite order, stable under ties.
pub fn get_data(context: &Context, args: &GetArgs) -> (r: QueryOutput)
    requires
        context.wf(),
    ensures
        ({
            let expect = spec_get_data(
                context.db@,
                context.spec_root(),
                context.spec_cwd(),
                args.all,
                args.self_,
                args.files.deep_view(),
                tag_keys_view(args.includes_tags@),
                tag_keys_view(args.excludes_tags@),
                args.sort_by@,
            );
            r.items.deep_view() == expect.0 && r.messages.deep_view() == expect.1
        }),
{
    let ghost inc = tag_keys_view(args.includes_tags@);
    let ghost exc = tag_keys_view(args.excludes_tags@);
    let ghost dv = context.db@;
    let mut items: Vec<QueryItem> = Vec::new();
    let mut messages: Vec<String> = Vec::new();
    if (args.self_ || args.all) && check_filter(&context.db, args) {
        let row = snapshot_item(
            String::from_str("!SELF"),
            &context.db.tags,
            &context.db.comment,
            context.db.created,
            context.db.updated,
        );
        items.push(row);
        proof {
            assert(items.deep_view() =~= spec_query_init(dv, args.all, args.self_, inc, exc));
        }
    } else {
        proof {
            assert(items.deep_view() =~= spec_query_init(dv, args.all, args.self_, inc, exc));
        }
    }
    let ghost init = spec_query_init(dv, args.all, args.self_, inc, exc);
    if args.all {
        let n = context.db.files.len();
        let mut i: usize = 0;
        while i < n
            invariant
                i <= n,
                n == dv.files.len(),
                context.wf(),
                dv == context.db@,
                inc == tag_keys_view(args.includes_tags@),
                exc == tag_keys_view(args.excludes_tags@),
                items.deep_view() == spec_query_all(
                    dv.files.take(i as int), inc, exc, args.sort_by@, init),
            decreases n - i,
        {
            let ghost pre = dv.files.take(i as int);
            let ghost pre1 = dv.files.take(i as int + 1);
            proof {
                assert(pre1.drop_last() =~= pre);
                assert(pre1.last() == dv.files[i as int]);
            }
            let pair = context.db.files.get_index(i);
            assert(pair.1.deep_view() == dv.files[i as int].1);
            assert(map_sorted(pair.1.deep_view().tags));
            if check_filter(&pair.1, args) {
                let row = snapshot_item(
                    pair.0.clone(),
                    &pair.1.tags,
                    &pair.1.comment,
                    pair.1.created,
                    pair.1.updated,
                );
                let ghost before = items.deep_view();
                sorted_insert(row, &mut items, &args.sort_by);
                proof {
                    assert(row.deep_view() == (QueryItemV {
                        key: dv.files[i as int].0,
                        meta: dv.files[i as int].1,
                    }));
                }
            }
            i = i + 1;
        }
        proof {
            assert(dv.files.take(n as int) =~= dv.files);
        }
        QueryOutput { items, messages }
    } else {
        let n = args.files.len();
        let mut i: usize = 0;
        while i < n
            invariant
                i <= n,
                n == args.files@.len(),
                context.wf(),
                dv == context.db@,
                inc == tag_keys_view(args.includes_tags@),
                exc == tag_keys_view(args.excludes_tags@),
                ({
                    let so_far = spec_query_paths(
                        dv.files,
                        context.spec_root(),
                        context.spec_cwd(),
                        args.files.deep_view().take(i as int),
                        inc,
                        exc,
                        args.sort_by@,
                        init,
                    );
                    items.deep_view() == so_far.0 && messages.deep_view() == so_far.1
                }),
            decreases n - i,
        {
            let ghost ps = args.files.deep_view();
            let ghost pre = ps.take(i as int);
            let ghost pre1 = ps.take(i as int + 1);
            proof {
                assert(pre1.drop_last() =~= pre);
                assert(pre1.last() == ps[i as int]);
            }
            let ghost step = spec_path_outcome(
                dv.files, context.spec_root(), context.spec_cwd(), ps[i as int], inc, exc);
            let given = &args.files[i];
            assert(given@ == ps[i as int]);
            match context.rel_to_db(given.as_str()) {
                Err(e) => {
                    let ghost old_msgs = messages.deep_view();
                    messages.push(e.message());
                    proof {
                        assert(messages.deep_view() =~= old_msgs + step.1);
                    }
                },
                Ok(rp) => {
                    let parts = rp.into_parts();
                    let entry = parts.1;
                    match context.db.files.get(entry.as_str()) {
                        None => {
                            let mut msg = String::from_str("\"");
                            msg.append(entry.as_str());
                            msg.append("\" not found");
                            let ghost old_msgs = messages.deep_view();
                            proof {
                                assert(msg@ =~= "\""@ + entry@ + "\" not found"@);
                            }
                            messages.push(msg);
                            proof {
                                assert(messages.deep_view() =~= old_msgs + step.1);
                            }
                        },
                        Some(fd) => {
                            proof {
                                let k = entry@;
                                let idx = crate::omap::map_idx(dv.files, k);
                                assert(0 <= idx < dv.files.len() && dv.files[idx].0 == k);
                                assert(map_sorted(dv.files[idx].1.tags));
                                assert(map_get(dv.files, k) == dv.files[idx].1);
                            }
                            assert(fd.deep_view() == map_get(dv.files, entry@));
                            assert(map_sorted(fd.deep_view().tags));
                            if check_filter(fd, args) {
                                let row = snapshot_item(
                                    entry,
                                    &fd.tags,
                                    &fd.comment,
                                    fd.created,
                                    fd.updated,
                                );
                                sorted_insert(row, &mut items, &args.sort_by);
                            }
                        },
                    }
                },
            }
            i = i + 1;
        }
        proof {
            assert(args.files.deep_view().take(n as int) =~= args.files.deep_view());
        }
        QueryOutput { items, messages }
    }
}

} // verus!
