//! The command cores that mutate a loaded store: setting tags and comments,
//! deleting entries, renaming an entry's key, and moving metadata between
//! containers. Each works on the store in memory with plain inputs; loading,
//! filesystem probing and saving happen around them, and a per-path failure
//! never aborts a batch.
use vstd::prelude::*;
use vstd::string::StrSliceExecFns;
use crate::db::{
    Db, DbV, Context, FileData, FileDataV, MetaContainer, lemma_files_wf_insert,
    lemma_files_wf_remove,
};
use crate::tags::{Tag, TagsMap, TagValue, TagValueV, tags_dup};
use crate::omap::{map_insert, map_remove, map_has, map_get, map_sorted};
use crate::paths::{RelativePath, PathError, spec_absolutize, spec_strip_prefix};

verus! {

/// The arguments of the set command: tag edits, a comment edit, and the
/// targets.
#[derive(Debug)]
pub struct SetArgs {
    /// Replace the present tags instead of merging into them.
    pub replace: bool,
    /// Untyped tags to set, already sniffed.
    pub tag: Vec<Tag>,
    /// Tags whose value had to be a URL.
    pub tag_url: Vec<Tag>,
    /// Tags whose value had to be an integer.
    pub tag_num: Vec<Tag>,
    /// Tags whose value had to be a boolean.
    pub tag_bool: Vec<Tag>,
    /// Tag names to drop.
    pub drop: Vec<String>,
    /// Drop every tag.
    pub drop_all: bool,
    /// A comment to set.
    pub comment: Option<String>,
    /// Drop the comment.
    pub drop_comment: bool,
    /// Apply the edits to the store itself.
    pub self_: bool,
    /// The paths whose entries the edits apply to.
    pub files: Vec<String>,
}

pub open spec fn spec_set_has_tags(args: SetArgs) -> bool {
    args.tag@.len() > 0 || args.tag_url@.len() > 0 || args.tag_num@.len() > 0
        || args.tag_bool@.len() > 0
}

/// Whether any tag list of the arguments is non-empty.
pub fn has_tags(args: &SetArgs) -> (r: bool)
    ensures
        r == spec_set_has_tags(*args),
{
    args.tag.len() > 0 || args.tag_url.len() > 0 || args.tag_num.len() > 0 || args.tag_bool.len()
        > 0
}

/// The tag map after removing each named key in order.
pub open spec fn spec_remove_all(
    tags: Seq<(Seq<char>, Option<TagValueV>)>,
    ks: Seq<Seq<char>>,
) -> Seq<(Seq<char>, Option<TagValueV>)>
    decreases ks.len(),
{
    if ks.len() == 0 {
        tags
    } else {
        map_remove(spec_remove_all(tags, ks.drop_last()), ks.last())
    }
}

/// The tag map after merging each pair in order, later pairs replacing
/// earlier ones of the same name.
pub open spec fn spec_extend(
    tags: Seq<(Seq<char>, Option<TagValueV>)>,
    ps: Seq<(Seq<char>, Option<TagValueV>)>,
) -> Seq<(Seq<char>, Option<TagValueV>)>
    decreases ps.len(),
{
    if ps.len() == 0 {
        tags
    } else {
        map_insert(spec_extend(tags, ps.drop_last()), ps.last().0, ps.last().1)
    }
}

/// The tag-update policy: drop everything on `drop_all`; when tags are
/// supplied or dropped, clear first under `replace` or remove the drop list,
/// then merge the four tag lists in order; otherwise leave the map alone.
pub open spec fn spec_update_tags(
    args: SetArgs,
    tags: Seq<(Seq<char>, Option<TagValueV>)>,
) -> Seq<(Seq<char>, Option<TagValueV>)> {
    if args.drop_all {
        Seq::empty()
    } else if spec_set_has_tags(args) || args.drop@.len() > 0 {
        let base = if args.replace {
            Seq::empty()
        } else {
            spec_remove_all(tags, args.drop.deep_view())
        };
        spec_extend(
            spec_extend(
                spec_extend(spec_extend(base, args.tag.deep_view()), args.tag_url.deep_view()),
                args.tag_num.deep_view(),
            ),
            args.tag_bool.deep_view(),
        )
    } else {
        tags
    }
}

fn dup_opt_tag(v: &Option<TagValue>) -> (r: Option<TagValue>)
    ensures
        r.deep_view() == v.deep_view(),
{
    match v {
        Some(t) => Some(t.duplicate()),
        None => None,
    }
}

/// Merges a tag list into the map, later pairs replacing earlier ones.
fn extend_tags(tags: &mut TagsMap, ps: &Vec<Tag>)
    requires
        old(tags).wf(),
    ensures
        final(tags)@ == spec_extend(old(tags)@, ps.deep_view()),
        final(tags).wf(),
{
    let ghost base = tags@;
    let n = ps.len();
    let mut i: usize = 0;
    proof {
        assert(ps.deep_view().take(0) =~= Seq::<(Seq<char>, Option<TagValueV>)>::empty());
    }
    while i < n
        invariant
            i <= n,
            n == ps@.len(),
            tags@ == spec_extend(base, ps.deep_view().take(i as int)),
            tags.wf(),
        decreases n - i,
    {
        let ghost pre = ps.deep_view().take(i as int);
        let ghost pre1 = ps.deep_view().take(i as int + 1);
        proof {
            assert(pre1.drop_last() =~= pre);
            assert(pre1.last() == ps.deep_view()[i as int]);
            assert(ps.deep_view()[i as int] == (ps@[i as int].0@, ps@[i as int].1.deep_view()));
        }
        let p = &ps[i];
        let v = dup_opt_tag(&p.1);
        tags.insert(p.0.clone(), v);
        i = i + 1;
    }
    proof {
        assert(ps.deep_view().take(n as int) =~= ps.deep_view());
    }
}

/// Applies the tag-update policy to one tag map.
pub fn update_tags(args: &SetArgs, tags: &mut TagsMap)
    requires
        old(tags).wf(),
    ensures
        final(tags)@ == spec_update_tags(*args, old(tags)@),
        final(tags).wf(),
{
    let ghost t0 = tags@;
    if args.drop_all {
        tags.clear();
        return;
    }
    let ht = has_tags(args);
    if ht || args.drop.len() > 0 {
        if args.replace {
            tags.clear();
        } else {
            let n = args.drop.len();
            let mut i: usize = 0;
            proof {
                assert(args.drop.deep_view().take(0) =~= Seq::<Seq<char>>::empty());
            }
            while i < n
                invariant
                    i <= n,
                    n == args.drop@.len(),
                    tags@ == spec_remove_all(t0, args.drop.deep_view().take(i as int)),
                    tags.wf(),
                decreases n - i,
            {
                let ghost pre = args.drop.deep_view().take(i as int);
                let ghost pre1 = args.drop.deep_view().take(i as int + 1);
                proof {
                    assert(pre1.drop_last() =~= pre);
                    assert(pre1.last() == args.drop.deep_view()[i as int]);
                    assert(args.drop.deep_view()[i as int] == args.drop@[i as int]@);
                }
                let name = &args.drop[i];
                tags.remove(name.as_str());
                i = i + 1;
            }
            proof {
                assert(args.drop.deep_view().take(n as int) =~= args.drop.deep_view());
            }
        }
        extend_tags(tags, &args.tag);
        extend_tags(tags, &args.tag_url);
        extend_tags(tags, &args.tag_num);
        extend_tags(tags, &args.tag_bool);
    }
}

/// The comment after one edit: dropped, replaced, or kept.
pub open spec fn spec_set_comment(c_old: Option<Seq<char>>, args: SetArgs) -> Option<Seq<char>> {
    if args.drop_comment {
        None
    } else {
        match args.comment {
            Some(c) => Some(c@),
            None => c_old,
        }
    }
}

fn set_comment_exec(c_old: &Option<String>, args: &SetArgs) -> (r: Option<String>)
    ensures
        (match r {
            Some(c) => Some(c@),
            None => None,
        }) == spec_set_comment(
            match *c_old {
                Some(c) => Some(c@),
                None => None,
            },
            *args,
        ),
{
    if args.drop_comment {
        None
    } else {
        match &args.comment {
            Some(c) => Some(c.clone()),
            None => match c_old {
                Some(c) => Some(c.clone()),
                None => None,
            },
        }
    }
}

/// An existing entry after one set command: tags and comment edited, the
/// updated timestamp stamped.
pub open spec fn spec_set_entry(e: FileDataV, args: SetArgs, now: int) -> FileDataV {
    FileDataV {
        tags: spec_update_tags(args, e.tags),
        comment: spec_set_comment(e.comment, args),
        created: e.created,
        updated: Some(now),
    }
}

/// A fresh entry written by one set command: created now, never updated.
pub open spec fn spec_new_entry(args: SetArgs, now: int) -> FileDataV {
    FileDataV {
        tags: spec_update_tags(args, Seq::empty()),
        comment: spec_set_comment(None, args),
        created: now,
        updated: None,
    }
}

/// The file table and messages after applying one set command to each path
/// in order: a path outside the root is reported and skipped, a present
/// entry is edited and stamped, an absent one is created.
pub open spec fn spec_set_paths(
    files: Seq<(Seq<char>, FileDataV)>,
    root: Seq<char>,
    cwd: Seq<char>,
    paths: Seq<Seq<char>>,
    args: SetArgs,
    now: int,
) -> (Seq<(Seq<char>, FileDataV)>, Seq<Seq<char>>)
    decreases paths.len(),
{
    if paths.len() == 0 {
        (files, Seq::empty())
    } else {
        let rest = spec_set_paths(files, root, cwd, paths.drop_last(), args, now);
        match spec_strip_prefix(root, spec_absolutize(cwd, paths.last())) {
            None => (
                rest.0,
                rest.1 + seq![
                    "file and db do not share a common root: "@ + spec_absolutize(
                        cwd,
                        paths.last(),
                    )
                ],
            ),
            Some(k) => {
                if map_has(rest.0, k) {
                    (map_insert(rest.0, k, spec_set_entry(map_get(rest.0, k), args, now)), rest.1)
                } else {
                    (map_insert(rest.0, k, spec_new_entry(args, now)), rest.1)
                }
            },
        }
    }
}

/// The whole store after one set command.
pub open spec fn spec_set_data(
    d: DbV,
    args: SetArgs,
    root: Seq<char>,
    cwd: Seq<char>,
    now: int,
) -> (DbV, Seq<Seq<char>>) {
    let tags1 = if args.self_ {
        spec_update_tags(args, d.tags)
    } else {
        d.tags
    };
    let comment1 = if args.self_ {
        spec_set_comment(d.comment, args)
    } else {
        d.comment
    };
    let fp = spec_set_paths(d.files, root, cwd, args.files.deep_view(), args, now);
    (
        DbV {
            files: fp.0,
            collections: d.collections,
            tags: tags1,
            comment: comment1,
            created: d.created,
            updated: d.updated,
        },
        fp.1,
    )
}

/// Applies one set command to the loaded store: edits the store's own
/// metadata when requested, then each path's entry, creating entries for
/// paths not seen before. Paths outside the root are reported and skipped.
pub fn set_data(context: &mut Context, args: &SetArgs, now: i64) -> (msgs: Vec<String>)
    requires
        old(context).wf(),
    ensures
        final(context).db@ == spec_set_data(
            old(context).db@,
            *args,
            old(context).spec_root(),
            old(context).spec_cwd(),
            now as int,
        ).0,
        msgs.deep_view() == spec_set_data(
            old(context).db@,
            *args,
            old(context).spec_root(),
            old(context).spec_cwd(),
            now as int,
        ).1,
        final(context).wf(),
        final(context).spec_format() == old(context).spec_format(),
        final(context).spec_path() == old(context).spec_path(),
        final(context).spec_root() == old(context).spec_root(),
        final(context).spec_cwd() == old(context).spec_cwd(),
{
    let ghost d0 = context.db@;
    if args.self_ {
        update_tags(args, &mut context.db.tags);
        let c = set_comment_exec(&context.db.comment, args);
        context.db.comment = c;
    }
    let ghost tags1 = context.db@.tags;
    let ghost comment1 = context.db@.comment;
    let root = context.root_copy();
    let cwd = context.cwd.clone();
    let mut msgs: Vec<String> = Vec::new();
    let n = args.files.len();
    let mut i: usize = 0;
    proof {
        assert(args.files.deep_view().take(0) =~= Seq::<Seq<char>>::empty());
    }
    while i < n
        invariant
            i <= n,
            n == args.files@.len(),
            root@ == old(context).spec_root(),
            cwd@ == old(context).spec_cwd(),
            d0 == old(context).db@,
            tags1 == (if args.self_ {
                spec_update_tags(*args, d0.tags)
            } else {
                d0.tags
            }),
            comment1 == (if args.self_ {
                spec_set_comment(d0.comment, *args)
            } else {
                d0.comment
            }),
            context.db@.tags == tags1,
            context.db@.comment == comment1,
            context.db@.collections == d0.collections,
            context.db@.created == d0.created,
            context.db@.updated == d0.updated,
            ({
                let so_far = spec_set_paths(
                    d0.files,
                    root@,
                    cwd@,
                    args.files.deep_view().take(i as int),
                    *args,
                    now as int,
                );
                context.db@.files == so_far.0 && msgs.deep_view() == so_far.1
            }),
            context.wf(),
            context.spec_format() == old(context).spec_format(),
            context.spec_path() == old(context).spec_path(),
            context.spec_root() == old(context).spec_root(),
            context.spec_cwd() == old(context).spec_cwd(),
        decreases n - i,
    {
        let ghost ps = args.files.deep_view();
        let ghost pre = ps.take(i as int);
        let ghost pre1 = ps.take(i as int + 1);
        proof {
            assert(pre1.drop_last() =~= pre);
            assert(pre1.last() == ps[i as int]);
        }
        let given = &args.files[i];
        assert(given@ == ps[i as int]);
        match RelativePath::from_root(root.as_str(), cwd.as_str(), given.as_str()) {
            Err(e) => {
                let ghost old_msgs = msgs.deep_view();
                msgs.push(e.message());
                proof {
                    let step = spec_set_paths(d0.files, root@, cwd@, pre1, *args, now as int);
                    assert(msgs.deep_view() =~= step.1);
                }
            },
            Ok(rp) => {
                let parts = rp.into_parts();
                let entry = parts.1;
                let ghost files_before = context.db@.files;
                let new_fd = match context.db.files.get(entry.as_str()) {
                    Some(fd) => {
                        let mut t = tags_dup(&fd.tags);
                        proof {
                            let idx = crate::omap::map_idx(files_before, entry@);
                            assert(0 <= idx < files_before.len() && files_before[idx].0 == entry@);
                            assert(map_sorted(files_before[idx].1.tags));
                            assert(map_get(files_before, entry@) == files_before[idx].1);
                        }
                        update_tags(args, &mut t);
                        let c = set_comment_exec(&fd.comment, args);
                        let created = fd.created;
                        FileData { tags: t, comment: c, created, updated: Some(now) }
                    },
                    None => {
                        let mut t = TagsMap::new();
                        update_tags(args, &mut t);
                        let c = set_comment_exec(&None, args);
                        FileData { tags: t, comment: c, created: now, updated: None }
                    },
                };
                proof {
                    lemma_files_wf_insert(files_before, entry@, new_fd.deep_view());
                }
                context.db.files.insert(entry, new_fd);
            },
        }
        i = i + 1;
    }
    proof {
        assert(args.files.deep_view().take(n as int) =~= args.files.deep_view());
    }
    msgs
}

/// The arguments of the delete command.
#[derive(Debug)]
pub struct DeleteArgs {
    /// Also drop every entry whose file no longer exists.
    pub not_exists: bool,
    /// The paths whose entries to drop.
    pub files: Vec<String>,
}

/// The file table keeping exactly the entries marked present.
pub open spec fn spec_filter_files(
    files: Seq<(Seq<char>, FileDataV)>,
    present: Seq<bool>,
) -> Seq<(Seq<char>, FileDataV)>
    decreases files.len(),
{
    if files.len() == 0 {
        Seq::empty()
    } else {
        let rest = spec_filter_files(files.drop_last(), present.drop_last());
        if present.len() > 0 && present.last() {
            rest.push(files.last())
        } else {
            rest
        }
    }
}

/// The file table and messages after deleting each path's entry in order;
/// an absent entry is a quiet no-op.
pub open spec fn spec_delete_paths(
    files: Seq<(Seq<char>, FileDataV)>,
    root: Seq<char>,
    cwd: Seq<char>,
    paths: Seq<Seq<char>>,
) -> (Seq<(Seq<char>, FileDataV)>, Seq<Seq<char>>)
    decreases paths.len(),
{
    if paths.len() == 0 {
        (files, Seq::empty())
    } else {
        let rest = spec_delete_paths(files, root, cwd, paths.drop_last());
        match spec_strip_prefix(root, spec_absolutize(cwd, paths.last())) {
            None => (
                rest.0,
                rest.1 + seq![
                    "file and db do not share a common root: "@ + spec_absolutize(
                        cwd,
                        paths.last(),
                    )
                ],
            ),
            Some(k) => (map_remove(rest.0, k), rest.1),
        }
    }
}

/// The whole store after one delete command: optionally the entries whose
/// files are gone, then each requested path's entry.
pub open spec fn spec_delete_data(
    d: DbV,
    args: DeleteArgs,
    present: Seq<bool>,
    root: Seq<char>,
    cwd: Seq<char>,
) -> (DbV, Seq<Seq<char>>) {
    let base = if args.not_exists {
        spec_filter_files(d.files, present)
    } else {
        d.files
    };
    let fp = spec_delete_paths(base, root, cwd, args.files.deep_view());
    (
        DbV {
            files: fp.0,
            collections: d.collections,
            tags: d.tags,
            comment: d.comment,
            created: d.created,
            updated: d.updated,
        },
        fp.1,
    )
}

/// A filtered table is a subsequence, so sortedness and entry shape carry
/// over.
proof fn lemma_filter_files_wf(files: Seq<(Seq<char>, FileDataV)>, present: Seq<bool>)
    requires
        map_sorted(files),
        forall|i: int| 0 <= i < files.len() ==> map_sorted((#[trigger] files[i]).1.tags),
    ensures
        forall|m: int|
            0 <= m < spec_filter_files(files, present).len() ==> exists|j: int|
                0 <= j < files.len() && (#[trigger] spec_filter_files(files, present)[m])
                    == files[j],
        forall|i: int|
            0 <= i < spec_filter_files(files, present).len() ==> map_sorted(
                (#[trigger] spec_filter_files(files, present)[i]).1.tags),
    decreases files.len(),
{
    let out = spec_filter_files(files, present);
    if files.len() > 0 {
        assert(map_sorted(files.drop_last())) by {
            assert(forall|i: int|
                0 <= i < files.len() - 1 ==> #[trigger] files.drop_last()[i] == files[i]);
        }
        assert(forall|i: int|
            0 <= i < files.drop_last().len() ==> map_sorted(
                (#[trigger] files.drop_last()[i]).1.tags)) by {
            assert(forall|i: int|
                0 <= i < files.len() - 1 ==> #[trigger] files.drop_last()[i] == files[i]);
        }
        lemma_filter_files_wf(files.drop_last(), present.drop_last());
        let rest = spec_filter_files(files.drop_last(), present.drop_last());
        assert forall|m: int| 0 <= m < out.len() implies exists|j: int|
            0 <= j < files.len() && (#[trigger] out[m]) == files[j] by {
            if present.len() > 0 && present.last() && m == out.len() - 1 {
                assert(out[m] == files[files.len() - 1]);
            } else {
                assert(out[m] == rest[m]);
                let j = choose|j: int|
                    0 <= j < files.drop_last().len() && rest[m] == files.drop_last()[j];
                assert(files.drop_last()[j] == files[j]);
            }
        }
        assert forall|i: int| 0 <= i < out.len() implies map_sorted(
            (#[trigger] out[i]).1.tags) by {
            let j = choose|j: int| 0 <= j < files.len() && out[i] == files[j];
        }
    }
}

/// Applies one delete command to the loaded store. With `not_exists` set,
/// `present` says for each entry, in table order, whether its file still
/// exists; entries marked absent are dropped first. Then each requested
/// path's entry is dropped; paths outside the root are reported and skipped.
pub fn delete_data(context: &mut Context, args: &DeleteArgs, present: &Vec<bool>) -> (msgs: Vec<
    String,
>)
    requires
        old(context).wf(),
        args.not_exists ==> present@.len() == old(context).db@.files.len(),
    ensures
        final(context).db@ == spec_delete_data(
            old(context).db@,
            *args,
            present@,
            old(context).spec_root(),
            old(context).spec_cwd(),
        ).0,
        msgs.deep_view() == spec_delete_data(
            old(context).db@,
            *args,
            present@,
            old(context).spec_root(),
            old(context).spec_cwd(),
        ).1,
        final(context).wf(),
        final(context).spec_format() == old(context).spec_format(),
        final(context).spec_path() == old(context).spec_path(),
        final(context).spec_root() == old(context).spec_root(),
        final(context).spec_cwd() == old(context).spec_cwd(),
{
    let ghost d0 = context.db@;
    if args.not_exists {
        let n = context.db.files.len();
        let mut kept: crate::omap::OrderedMap<FileData> = crate::omap::OrderedMap::new();
        let mut i: usize = 0;
        let ghost mut last_j: int = 0;
        proof {
            assert(spec_filter_files(d0.files.take(0), present@.take(0)) =~= Seq::<
                (Seq<char>, FileDataV),
            >::empty());
            assert(kept@ =~= spec_filter_files(d0.files.take(0), present@.take(0)));
        }
        while i < n
            invariant
                i <= n,
                n == d0.files.len(),
                n == present@.len(),
                d0 == context.db@,
                context.wf(),
                kept.wf(),
                kept@ == spec_filter_files(d0.files.take(i as int), present@.take(i as int)),
                kept@.len() > 0 ==> 0 <= last_j < i && kept@.last() == d0.files[last_j],
            decreases n - i,
        {
            let ghost fpre = d0.files.take(i as int);
            let ghost fpre1 = d0.files.take(i as int + 1);
            let ghost ppre = present@.take(i as int);
            let ghost ppre1 = present@.take(i as int + 1);
            proof {
                assert(fpre1.drop_last() =~= fpre);
                assert(ppre1.drop_last() =~= ppre);
                assert(fpre1.last() == d0.files[i as int]);
                assert(ppre1.len() > 0 && ppre1.last() == present@[i as int]);
            }
            if present[i] {
                let pair = context.db.files.get_index(i);
                proof {
                    if kept@.len() > 0 {
                        assert(crate::text::lex_lt(d0.files[last_j].0, d0.files[i as int].0));
                    }
                }
                kept.push_monotone(pair.0.clone(), duplicate_entry(&pair.1));
                proof {
                    last_j = i as int;
                    assert(kept@ =~= spec_filter_files(fpre1, ppre1));
                }
            }
            i = i + 1;
        }
        proof {
            assert(d0.files.take(n as int) =~= d0.files);
            assert(present@.take(n as int) =~= present@);
            lemma_filter_files_wf(d0.files, present@);
        }
        context.db.files = kept;
    }
    let ghost base = context.db@.files;
    let root = context.root_copy();
    let cwd = context.cwd.clone();
    let mut msgs: Vec<String> = Vec::new();
    let n2 = args.files.len();
    let mut i2: usize = 0;
    proof {
        assert(args.files.deep_view().take(0) =~= Seq::<Seq<char>>::empty());
    }
    while i2 < n2
        invariant
            i2 <= n2,
            n2 == args.files@.len(),
            root@ == old(context).spec_root(),
            cwd@ == old(context).spec_cwd(),
            d0 == old(context).db@,
            base == (if args.not_exists {
                spec_filter_files(d0.files, present@)
            } else {
                d0.files
            }),
            context.db@.tags == d0.tags,
            context.db@.comment == d0.comment,
            context.db@.collections == d0.collections,
            context.db@.created == d0.created,
            context.db@.updated == d0.updated,
            ({
                let so_far = spec_delete_paths(
                    base,
                    root@,
                    cwd@,
                    args.files.deep_view().take(i2 as int),
                );
                context.db@.files == so_far.0 && msgs.deep_view() == so_far.1
            }),
            context.wf(),
            context.spec_format() == old(context).spec_format(),
            context.spec_path() == old(context).spec_path(),
            context.spec_root() == old(context).spec_root(),
            context.spec_cwd() == old(context).spec_cwd(),
        decreases n2 - i2,
    {
        let ghost ps = args.files.deep_view();
        let ghost pre = ps.take(i2 as int);
        let ghost pre1 = ps.take(i2 as int + 1);
        proof {
            assert(pre1.drop_last() =~= pre);
            assert(pre1.last() == ps[i2 as int]);
        }
        let given = &args.files[i2];
        assert(given@ == ps[i2 as int]);
        match RelativePath::from_root(root.as_str(), cwd.as_str(), given.as_str()) {
            Err(e) => {
                let ghost old_msgs = msgs.deep_view();
                msgs.push(e.message());
                proof {
                    let step = spec_delete_paths(base, root@, cwd@, pre1);
                    assert(msgs.deep_view() =~= step.1);
                }
            },
            Ok(rp) => {
                let parts = rp.into_parts();
                let entry = parts.1;
                proof {
                    lemma_files_wf_remove(context.db@.files, entry@);
                }
                context.db.files.remove(entry.as_str());
            },
        }
        i2 = i2 + 1;
    }
    proof {
        assert(args.files.deep_view().take(n2 as int) =~= args.files.deep_view());
    }
    msgs
}

/// A fresh entry equal to this one.
pub fn duplicate_entry(e: &FileData) -> (r: FileData)
    requires
        e.wf(),
    ensures
        r.deep_view() == e.deep_view(),
        r.wf(),
{
    let c: Option<String> = match &e.comment {
        Some(c) => Some(c.clone()),
        None => None,
    };
    FileData { tags: tags_dup(&e.tags), comment: c, created: e.created, updated: e.updated }
}

/// The arguments of the rename command.
#[derive(Debug)]
pub struct RenameArgs {
    /// Require the renamed path to exist on disk.
    pub exists: bool,
    /// The entry's current path.
    pub current: String,
    /// The entry's new path.
    pub renamed: String,
}

/// How one rename command ended.
#[derive(Debug)]
pub enum RenameOutcome {
    /// The entry now sits under the new key.
    Renamed,
    /// A path did not resolve to a store key.
    PathFailed(PathError),
    /// No entry sits under the current key; the message names the resolved
    /// path.
    CurrentNotFound(String),
    /// The renamed path does not exist on disk; the message names it.
    TargetMissing(String),
    /// The new key already has an entry; both entries are left unchanged.
    AlreadyExists(String),
}

/// Moves an entry from one key to another. The store changes only when the
/// rename goes through: a missing source, a missing target file, an already
/// occupied key, or a path outside the root all leave it untouched, the
/// occupied-key case deliberately keeping both entries.
pub fn rename_data(context: &mut Context, args: &RenameArgs, renamed_present: bool) -> (r:
    RenameOutcome)
    requires
        old(context).wf(),
    ensures
        ({
            let root = old(context).spec_root();
            let cwd = old(context).spec_cwd();
            let cur = spec_strip_prefix(root, spec_absolutize(cwd, args.current@));
            let ren = spec_strip_prefix(root, spec_absolutize(cwd, args.renamed@));
            match r {
                RenameOutcome::PathFailed(_) => (cur is None || ren is None) && final(context).db@
                    == old(context).db@,
                RenameOutcome::CurrentNotFound(p) => cur matches Some(k1) && ren is Some
                    && !map_has(old(context).db@.files, k1) && p@ == spec_absolutize(
                    cwd,
                    args.current@,
                ) && final(context).db@ == old(context).db@,
                RenameOutcome::TargetMissing(p) => cur matches Some(k1) && ren is Some && map_has(
                    old(context).db@.files,
                    k1,
                ) && args.exists && !renamed_present && p@ == spec_absolutize(cwd, args.renamed@)
                    && final(context).db@ == old(context).db@,
                RenameOutcome::AlreadyExists(p) => cur matches Some(k1) && ren matches Some(k2)
                    && map_has(old(context).db@.files, k1) && (!args.exists || renamed_present)
                    && map_has(map_remove(old(context).db@.files, k1), k2) && p@ == k2
                    && final(context).db@ == old(context).db@,
                RenameOutcome::Renamed => cur matches Some(k1) && ren matches Some(k2) && map_has(
                    old(context).db@.files,
                    k1,
                ) && (!args.exists || renamed_present) && !map_has(
                    map_remove(old(context).db@.files, k1),
                    k2,
                ) && final(context).db@ == (DbV {
                    files: map_insert(
                        map_remove(old(context).db@.files, k1),
                        k2,
                        map_get(old(context).db@.files, k1),
                    ),
                    ..old(context).db@
                }),
            }
        }),
        final(context).wf(),
        final(context).spec_format() == old(context).spec_format(),
        final(context).spec_path() == old(context).spec_path(),
        final(context).spec_root() == old(context).spec_root(),
        final(context).spec_cwd() == old(context).spec_cwd(),
{
    let ghost d0 = context.db@;
    let curr = match context.rel_to_db(args.current.as_str()) {
        Ok(rp) => rp,
        Err(e) => {
            return RenameOutcome::PathFailed(e);
        },
    };
    let renamed = match context.rel_to_db(args.renamed.as_str()) {
        Ok(rp) => rp,
        Err(e) => {
            return RenameOutcome::PathFailed(e);
        },
    };
    let curr_parts = curr.into_parts();
    let renamed_parts = renamed.into_parts();
    if !context.db.files.contains_key(curr_parts.1.as_str()) {
        return RenameOutcome::CurrentNotFound(curr_parts.0);
    }
    if args.exists && !renamed_present {
        return RenameOutcome::TargetMissing(renamed_parts.0);
    }
    let found = match context.db.files.remove(curr_parts.1.as_str()) {
        Some(fd) => fd,
        None => {
            proof {
                assert(false);
            }
            FileData::new(0)
        },
    };
    if context.db.files.contains_key(renamed_parts.1.as_str()) {
        proof {
            let idx = crate::omap::map_idx(d0.files, curr_parts.1@);
            assert(0 <= idx < d0.files.len() && d0.files[idx].0 == curr_parts.1@);
            crate::omap::lemma_sorted_key_at(d0.files, curr_parts.1@, idx);
            assert(map_sorted(found.deep_view().tags));
            lemma_files_wf_remove(d0.files, curr_parts.1@);
            lemma_files_wf_insert(
                map_remove(d0.files, curr_parts.1@),
                curr_parts.1@,
                found.deep_view(),
            );
        }
        context.db.files.insert(curr_parts.1, found);
        proof {
            lemma_reinsert_removed(d0.files, curr_parts.1@);
        }
        return RenameOutcome::AlreadyExists(renamed_parts.1);
    }
    proof {
        let idx = crate::omap::map_idx(d0.files, curr_parts.1@);
        assert(0 <= idx < d0.files.len() && d0.files[idx].0 == curr_parts.1@);
        crate::omap::lemma_sorted_key_at(d0.files, curr_parts.1@, idx);
        assert(map_sorted(found.deep_view().tags));
        lemma_files_wf_remove(d0.files, curr_parts.1@);
        lemma_files_wf_insert(
            map_remove(d0.files, curr_parts.1@),
            renamed_parts.1@,
            found.deep_view(),
        );
    }
    context.db.files.insert(renamed_parts.1, found);
    RenameOutcome::Renamed
}

/// Putting an entry back under the key it was just removed from restores
/// the table.
proof fn lemma_reinsert_removed(files: Seq<(Seq<char>, FileDataV)>, k: Seq<char>)
    requires
        map_sorted(files),
        map_has(files, k),
    ensures
        map_insert(map_remove(files, k), k, map_get(files, k)) == files,
    decreases files.len(),
{
    let idx = crate::omap::map_idx(files, k);
    assert(0 <= idx < files.len() && files[idx].0 == k);
    crate::omap::lemma_sorted_key_at(files, k, idx);
    crate::omap::lemma_map_remove_splice(files, k, idx);
    let removed = files.take(idx) + files.skip(idx + 1);
    assert(forall|j: int| 0 <= j < idx ==> #[trigger] removed[j] == files[j]);
    assert(forall|j: int| idx <= j < removed.len() ==> #[trigger] removed[j] == files[j + 1]);
    assert(map_sorted(removed)) by {
        crate::omap::lemma_map_remove_sorted(files, idx);
    }
    assert(forall|j: int| 0 <= j < idx ==> crate::text::lex_lt(#[trigger] removed[j].0, k));
    assert(idx < removed.len() ==> !crate::text::lex_lt(removed[idx].0, k)) by {
        if idx < removed.len() {
            crate::text::lemma_lex_lt_strict(k, removed[idx].0);
        }
    }
    crate::omap::lemma_map_insert_splice(removed, k, map_get(files, k), idx);
    assert(removed[idx].0 != k ==> map_insert(removed, k, map_get(files, k)) == removed.take(idx)
        + seq![(k, map_get(files, k))] + removed.skip(idx));
    if idx < removed.len() && removed[idx].0 == k {
        assert(crate::text::lex_lt(files[idx].0, files[idx + 1].0));
        crate::text::lemma_lex_lt_strict(files[idx].0, files[idx + 1].0);
        assert(false);
    }
    assert(map_insert(removed, k, map_get(files, k)) =~= files);
}

/// The arguments of the move command.
#[derive(Debug)]
pub struct MoveArgs {
    /// Move only the tags.
    pub tags: bool,
    /// Move only the comment.
    pub comment: bool,
    /// Take the metadata from the store itself.
    pub from_self: bool,
    /// The source entry's path; absent means the store itself.
    pub from: Option<String>,
    /// Require the destination path to exist on disk.
    pub exists: bool,
    /// Give the metadata to the store itself.
    pub to_self: bool,
    /// The destination entry's path; absent means the store itself.
    pub to: Option<String>,
}

/// Why one move command ended without moving anything; the store is then
/// left untouched.
#[derive(Debug)]
pub enum MoveError {
    /// A path did not resolve to a store key.
    PathFailed(PathError),
    /// No entry sits under the source key; the message names the resolved
    /// path.
    SrcNotFound(String),
    /// The destination path does not exist on disk; the message names it.
    DstMissing(String),
}

/// The mathematical shape of a move failure.
pub enum MoveErrV {
    Path,
    SrcNotFound(Seq<char>),
    DstMissing(Seq<char>),
}

pub open spec fn move_err_view(e: MoveError) -> MoveErrV {
    match e {
        MoveError::PathFailed(_) => MoveErrV::Path,
        MoveError::SrcNotFound(p) => MoveErrV::SrcNotFound(p@),
        MoveError::DstMissing(p) => MoveErrV::DstMissing(p@),
    }
}

pub open spec fn spec_resolve(root: Seq<char>, cwd: Seq<char>, p: Seq<char>) -> Option<Seq<char>> {
    spec_strip_prefix(root, spec_absolutize(cwd, p))
}

/// Taking the source: an entry leaves the table whole; the store itself
/// gives up only what the mode moves.
pub open spec fn spec_take_src(
    d: DbV,
    args: MoveArgs,
    mt: bool,
    mc: bool,
    root: Seq<char>,
    cwd: Seq<char>,
) -> Result<(DbV, Seq<(Seq<char>, Option<TagValueV>)>, Option<Seq<char>>), MoveErrV> {
    match args.from {
        Some(p) => match spec_resolve(root, cwd, p@) {
            None => Err(MoveErrV::Path),
            Some(k) => {
                if !map_has(d.files, k) {
                    Err(MoveErrV::SrcNotFound(spec_absolutize(cwd, p@)))
                } else {
                    let e = map_get(d.files, k);
                    Ok((DbV { files: map_remove(d.files, k), ..d }, e.tags, e.comment))
                }
            },
        },
        None => Ok(
            (
                DbV {
                    tags: if mt {
                        Seq::empty()
                    } else {
                        d.tags
                    },
                    comment: if mc {
                        None
                    } else {
                        d.comment
                    },
                    ..d
                },
                d.tags,
                d.comment,
            ),
        ),
    }
}

/// Giving to the destination: an existing entry is merged into and stamped,
/// a missing one is created; the store itself merges and is stamped only
/// when tags move.
pub open spec fn spec_give_dst(
    d: DbV,
    args: MoveArgs,
    mt: bool,
    mc: bool,
    src_tags: Seq<(Seq<char>, Option<TagValueV>)>,
    src_comment: Option<Seq<char>>,
    dst_present: bool,
    now: int,
    root: Seq<char>,
    cwd: Seq<char>,
) -> Result<DbV, MoveErrV> {
    match args.to {
        Some(p) => match spec_resolve(root, cwd, p@) {
            None => Err(MoveErrV::Path),
            Some(k) => {
                if args.exists && !dst_present {
                    Err(MoveErrV::DstMissing(spec_absolutize(cwd, p@)))
                } else {
                    let e1 = if map_has(d.files, k) {
                        let e = map_get(d.files, k);
                        FileDataV {
                            tags: if mt {
                                spec_extend(e.tags, src_tags)
                            } else {
                                e.tags
                            },
                            comment: if mc {
                                match src_comment {
                                    Some(c) => Some(c),
                                    None => e.comment,
                                }
                            } else {
                                e.comment
                            },
                            created: e.created,
                            updated: Some(now),
                        }
                    } else {
                        FileDataV {
                            tags: if mt {
                                spec_extend(Seq::empty(), src_tags)
                            } else {
                                Seq::empty()
                            },
                            comment: if mc {
                                src_comment
                            } else {
                                None
                            },
                            created: now,
                            updated: None,
                        }
                    };
                    Ok(DbV { files: map_insert(d.files, k, e1), ..d })
                }
            },
        },
        None => Ok(
            DbV {
                tags: if mt {
                    spec_extend(d.tags, src_tags)
                } else {
                    d.tags
                },
                comment: if mc {
                    match src_comment {
                        Some(c) => Some(c),
                        None => d.comment,
                    }
                } else {
                    d.comment
                },
                updated: if mt {
                    Some(now)
                } else {
                    d.updated
                },
                ..d
            },
        ),
    }
}

/// The whole store after one move command: the mode picks what moves (tags,
/// the comment, or both), the source is taken, the destination receives.
pub open spec fn spec_move_data(
    d: DbV,
    args: MoveArgs,
    dst_present: bool,
    now: int,
    root: Seq<char>,
    cwd: Seq<char>,
) -> Result<DbV, MoveErrV> {
    let mt = args.tags || (!args.tags && !args.comment);
    let mc = args.comment || (!args.tags && !args.comment);
    match spec_take_src(d, args, mt, mc, root, cwd) {
        Err(e) => Err(e),
        Ok(t) => spec_give_dst(t.0, args, mt, mc, t.1, t.2, dst_present, now, root, cwd),
    }
}

/// Merges a tag map's entries into another, later entries replacing earlier
/// ones of the same name.
pub fn merge_tags(dst: &mut TagsMap, src: &TagsMap)
    requires
        old(dst).wf(),
    ensures
        final(dst)@ == spec_extend(old(dst)@, src@),
        final(dst).wf(),
{
    let ghost base = dst@;
    let n = src.len();
    let mut i: usize = 0;
    proof {
        assert(src@.take(0) =~= Seq::<(Seq<char>, Option<TagValueV>)>::empty());
    }
    while i < n
        invariant
            i <= n,
            n == src@.len(),
            dst@ == spec_extend(base, src@.take(i as int)),
            dst.wf(),
        decreases n - i,
    {
        let ghost pre = src@.take(i as int);
        let ghost pre1 = src@.take(i as int + 1);
        proof {
            assert(pre1.drop_last() =~= pre);
            assert(pre1.last() == src@[i as int]);
        }
        let pair = src.get_index(i);
        let v = dup_opt_tag(&pair.1);
        dst.insert(pair.0.clone(), v);
        i = i + 1;
    }
    proof {
        assert(src@.take(n as int) =~= src@);
    }
}

/// Moves metadata from one container to another: from an entry or the store
/// itself, to an entry or the store itself, the mode picking tags, the
/// comment, or both. Any failure leaves the store untouched.
pub fn move_data(context: &mut Context, args: &MoveArgs, dst_present: bool, now: i64) -> (r:
    Result<(), MoveError>)
    requires
        old(context).wf(),
    ensures
        ({
            let spec = spec_move_data(
                old(context).db@,
                *args,
                dst_present,
                now as int,
                old(context).spec_root(),
                old(context).spec_cwd(),
            );
            match r {
                Ok(_) => spec matches Ok(dv) && final(context).db@ == dv,
                Err(e) => spec == Err::<DbV, MoveErrV>(move_err_view(e)) && final(context).db@
                    == old(context).db@,
            }
        }),
        final(context).wf(),
        final(context).spec_format() == old(context).spec_format(),
        final(context).spec_path() == old(context).spec_path(),
        final(context).spec_root() == old(context).spec_root(),
        final(context).spec_cwd() == old(context).spec_cwd(),
{
    let ghost d0 = context.db@;
    let mt = args.tags || (!args.tags && !args.comment);
    let mc = args.comment || (!args.tags && !args.comment);
    let src_key: Option<String>;
    let src_tags: TagsMap;
    let src_comment: Option<String>;
    match &args.from {
        Some(p) => {
            match context.rel_to_db(p.as_str()) {
                Err(e) => {
                    return Err(MoveError::PathFailed(e));
                },
                Ok(rp) => {
                    let parts = rp.into_parts();
                    match context.db.files.get(parts.1.as_str()) {
                        None => {
                            return Err(MoveError::SrcNotFound(parts.0));
                        },
                        Some(fd) => {
                            proof {
                                let idx = crate::omap::map_idx(d0.files, parts.1@);
                                assert(0 <= idx < d0.files.len() && d0.files[idx].0 == parts.1@);
                                assert(map_sorted(d0.files[idx].1.tags));
                                assert(map_get(d0.files, parts.1@) == d0.files[idx].1);
                            }
                            src_tags = tags_dup(&fd.tags);
                            src_comment = match &fd.comment {
                                Some(c) => Some(c.clone()),
                                None => None,
                            };
                            src_key = Some(parts.1);
                        },
                    }
                },
            }
        },
        None => {
            src_tags = tags_dup(&context.db.tags);
            src_comment = match &context.db.comment {
                Some(c) => Some(c.clone()),
                None => None,
            };
            src_key = None;
        },
    }
    let dst_key: Option<String>;
    match &args.to {
        Some(p) => {
            match context.rel_to_db(p.as_str()) {
                Err(e) => {
                    return Err(MoveError::PathFailed(e));
                },
                Ok(rp) => {
                    let parts = rp.into_parts();
                    if args.exists && !dst_present {
                        return Err(MoveError::DstMissing(parts.0));
                    }
                    dst_key = Some(parts.1);
                },
            }
        },
        None => {
            dst_key = None;
        },
    }
    // commit: take the source, then give to the destination
    match &src_key {
        Some(k) => {
            proof {
                lemma_files_wf_remove(d0.files, k@);
            }
            context.db.files.remove(k.as_str());
        },
        None => {
            if mt {
                context.db.tags.clear();
            }
            if mc {
                context.db.comment = None;
            }
        },
    }
    let ghost d1 = context.db@;
    match dst_key {
        Some(k) => {
            let new_e = match context.db.files.get(k.as_str()) {
                Some(e) => {
                    proof {
                        let idx = crate::omap::map_idx(d1.files, k@);
                        assert(0 <= idx < d1.files.len() && d1.files[idx].0 == k@);
                        assert(map_sorted(d1.files[idx].1.tags));
                        assert(map_get(d1.files, k@) == d1.files[idx].1);
                    }
                    let mut t = tags_dup(&e.tags);
                    if mt {
                        merge_tags(&mut t, &src_tags);
                    }
                    let c: Option<String> = if mc {
                        match &src_comment {
                            Some(c) => Some(c.clone()),
                            None => match &e.comment {
                                Some(c) => Some(c.clone()),
                                None => None,
                            },
                        }
                    } else {
                        match &e.comment {
                            Some(c) => Some(c.clone()),
                            None => None,
                        }
                    };
                    let created = e.created;
                    FileData { tags: t, comment: c, created, updated: Some(now) }
                },
                None => {
                    let mut t = TagsMap::new();
                    if mt {
                        merge_tags(&mut t, &src_tags);
                    }
                    let c: Option<String> = if mc {
                        match &src_comment {
                            Some(c) => Some(c.clone()),
                            None => None,
                        }
                    } else {
                        None
                    };
                    FileData { tags: t, comment: c, created: now, updated: None }
                },
            };
            proof {
                lemma_files_wf_insert(d1.files, k@, new_e.deep_view());
            }
            context.db.files.insert(k, new_e);
        },
        None => {
            if mt {
                context.db.updated = Some(now);
                merge_tags(&mut context.db.tags, &src_tags);
            }
            if mc {
                match &src_comment {
                    Some(c) => {
                        context.db.comment = Some(c.clone());
                    },
                    None => {},
                }
            }
        },
    }
    Ok(())
}

} // verus!
