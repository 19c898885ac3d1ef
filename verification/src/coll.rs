//! The collection commands' cores: creating, viewing, updating, pushing to,
//! popping from and deleting named collections of store keys. A collection
//! may hold keys with no file entry; that is a normal state, never an error.
use vstd::prelude::*;
use vstd::string::StrSliceExecFns;
use vstd::string::StringExecFns;
use crate::db::{Db, DbV, Context, lemma_colls_wf_insert, lemma_colls_wf_remove};
use crate::omap::{
    KeySet, map_insert, map_remove, map_has, map_get, map_sorted, set_sorted, set_insert,
    set_remove, lemma_map_reinsert,
};
use crate::paths::{RelativePath, PathError, spec_absolutize, spec_strip_prefix};
use crate::text::{lex_lt, dec_of_nat, push_dec_u64, chars_to_string, string_to_chars};

verus! {

/// The arguments for creating a collection.
#[derive(Debug)]
pub struct CreateArgs {
    /// The new collection's name.
    pub name: String,
}

/// The arguments for deleting a collection.
#[derive(Debug)]
pub struct DeleteArgs {
    /// The collection to delete.
    pub name: String,
    /// Also list the keys it held.
    pub files: bool,
}

/// The arguments for adding keys to a collection.
#[derive(Debug)]
pub struct PushArgs {
    /// The collection to push to.
    pub name: String,
    /// The paths whose keys join the collection.
    pub files: Vec<String>,
}

/// The arguments for removing keys from a collection.
#[derive(Debug)]
pub struct PopArgs {
    /// The collection to pop from.
    pub name: String,
    /// Also drop members whose files no longer exist.
    pub no_exists: bool,
    /// The paths whose keys leave the collection.
    pub files: Vec<String>,
}

/// The arguments for updating a collection with new keys.
#[derive(Debug)]
pub struct UpdateArgs {
    /// The collection to update.
    pub name: String,
    /// The paths whose keys join the collection.
    pub files: Vec<String>,
}

/// The arguments for viewing collections.
#[derive(Debug)]
pub struct ViewArgs {
    /// One collection to view; absent means all of them.
    pub name: Option<String>,
    /// Also list each collection's keys.
    pub files: bool,
}

/// Creates an empty collection; a present name is left alone.
pub fn create_coll(db: &mut Db, name: String) -> (created: bool)
    requires
        old(db).wf(),
    ensures
        created == !map_has(old(db)@.collections, name@),
        created ==> final(db)@ == (DbV {
            collections: map_insert(old(db)@.collections, name@, Seq::empty()),
            ..old(db)@
        }),
        !created ==> final(db)@ == old(db)@,
        final(db).wf(),
{
    if db.collections.contains_key(name.as_str()) {
        false
    } else {
        proof {
            lemma_colls_wf_insert(db@.collections, name@, Seq::empty());
        }
        let empty = KeySet::new();
        db.collections.insert(name, empty);
        true
    }
}

/// Deletes a collection, handing back its members for reporting.
pub fn delete_coll(db: &mut Db, name: &str) -> (r: Option<KeySet>)
    requires
        old(db).wf(),
    ensures
        map_has(old(db)@.collections, name@) ==> r is Some && r->Some_0.view() == map_get(
            old(db)@.collections,
            name@,
        ) && final(db)@ == (DbV {
            collections: map_remove(old(db)@.collections, name@),
            ..old(db)@
        }),
        !map_has(old(db)@.collections, name@) ==> r is None && final(db)@ == old(db)@,
        final(db).wf(),
{
    proof {
        lemma_colls_wf_remove(db@.collections, name@);
    }
    db.collections.remove(name)
}

/// The members and messages after pushing each path's key in order.
pub open spec fn spec_push_paths(
    members: Seq<Seq<char>>,
    root: Seq<char>,
    cwd: Seq<char>,
    paths: Seq<Seq<char>>,
) -> (Seq<Seq<char>>, Seq<Seq<char>>)
    decreases paths.len(),
{
    if paths.len() == 0 {
        (members, Seq::empty())
    } else {
        let rest = spec_push_paths(members, root, cwd, paths.drop_last());
        match spec_strip_prefix(root, spec_absolutize(cwd, paths.last())) {
            None => (
                rest.0,
                rest.1 + seq![
                    "file and db do not share a common root: "@ + spec_absolutize(
                        cwd,
                        paths.last(),
                    )
                ],
            ),
            Some(k) => (set_insert(rest.0, k), rest.1),
        }
    }
}

/// Adds each path's key to a collection; a missing collection leaves the
/// store untouched and is signalled by `None`.
pub fn push_coll(context: &mut Context, name: &str, files: &Vec<String>) -> (r: Option<Vec<String>>)
    requires
        old(context).wf(),
    ensures
        !map_has(old(context).db@.collections, name@) ==> r is None && final(context).db@ == old(
            context,
        ).db@,
        map_has(old(context).db@.collections, name@) ==> r is Some && ({
            let fold = spec_push_paths(
                map_get(old(context).db@.collections, name@),
                old(context).spec_root(),
                old(context).spec_cwd(),
                files.deep_view(),
            );
            final(context).db@ == (DbV {
                collections: map_insert(old(context).db@.collections, name@, fold.0),
                ..old(context).db@
            }) && r->Some_0.deep_view() == fold.1
        }),
        final(context).wf(),
        final(context).spec_format() == old(context).spec_format(),
        final(context).spec_path() == old(context).spec_path(),
        final(context).spec_root() == old(context).spec_root(),
        final(context).spec_cwd() == old(context).spec_cwd(),
{
    let ghost d0 = context.db@;
    let mut ks = match context.db.collections.remove(name) {
        Some(ks) => ks,
        None => {
            proof {
                crate::omap::lemma_map_remove_absent(d0.collections, name@);
            }
            return None;
        },
    };
    proof {
        let idx = crate::omap::map_idx(d0.collections, name@);
        assert(0 <= idx < d0.collections.len() && d0.collections[idx].0 == name@);
        assert(set_sorted(d0.collections[idx].1));
        assert(map_get(d0.collections, name@) == d0.collections[idx].1);
    }
    let ghost m0 = ks.view();
    let root = context.root_copy();
    let cwd = context.cwd.clone();
    let mut msgs: Vec<String> = Vec::new();
    let n = files.len();
    let mut i: usize = 0;
    proof {
        assert(files.deep_view().take(0) =~= Seq::<Seq<char>>::empty());
    }
    while i < n
        invariant
            i <= n,
            n == files@.len(),
            root@ == old(context).spec_root(),
            cwd@ == old(context).spec_cwd(),
            m0 == map_get(d0.collections, name@),
            ({
                let so_far = spec_push_paths(m0, root@, cwd@, files.deep_view().take(i as int));
                ks.view() == so_far.0 && msgs.deep_view() == so_far.1
            }),
            ks.wf(),
        decreases n - i,
    {
        let ghost ps = files.deep_view();
        let ghost pre1 = ps.take(i as int + 1);
        proof {
            assert(pre1.drop_last() =~= ps.take(i as int));
            assert(pre1.last() == ps[i as int]);
        }
        let given = &files[i];
        assert(given@ == ps[i as int]);
        match RelativePath::from_root(root.as_str(), cwd.as_str(), given.as_str()) {
            Err(e) => {
                let ghost old_msgs = msgs.deep_view();
                msgs.push(e.message());
                proof {
                    let step = spec_push_paths(m0, root@, cwd@, pre1);
                    assert(msgs.deep_view() =~= step.1);
                }
            },
            Ok(rp) => {
                let parts = rp.into_parts();
                ks.insert(parts.1);
            },
        }
        i = i + 1;
    }
    proof {
        assert(files.deep_view().take(n as int) =~= files.deep_view());
        lemma_colls_wf_remove(d0.collections, name@);
        lemma_colls_wf_insert(map_remove(d0.collections, name@), name@, ks.view());
        lemma_map_reinsert(d0.collections, name@, ks.view());
    }
    context.db.collections.insert(name_to_string(name), ks);
    Some(msgs)
}

/// An owned copy of a borrowed name.
fn name_to_string(name: &str) -> (r: String)
    ensures
        r@ == name@,
{
    name.to_owned()
}

/// Updates a collection by adding each path's key, like a push.
pub fn update_coll(context: &mut Context, name: &str, files: &Vec<String>) -> (r: Option<
    Vec<String>,
>)
    requires
        old(context).wf(),
    ensures
        !map_has(old(context).db@.collections, name@) ==> r is None && final(context).db@ == old(
            context,
        ).db@,
        map_has(old(context).db@.collections, name@) ==> r is Some && ({
            let fold = spec_push_paths(
                map_get(old(context).db@.collections, name@),
                old(context).spec_root(),
                old(context).spec_cwd(),
                files.deep_view(),
            );
            final(context).db@ == (DbV {
                collections: map_insert(old(context).db@.collections, name@, fold.0),
                ..old(context).db@
            }) && r->Some_0.deep_view() == fold.1
        }),
        final(context).wf(),
        final(context).spec_format() == old(context).spec_format(),
        final(context).spec_path() == old(context).spec_path(),
        final(context).spec_root() == old(context).spec_root(),
        final(context).spec_cwd() == old(context).spec_cwd(),
{
    push_coll(context, name, files)
}

/// The members keeping exactly those marked present.
pub open spec fn spec_filter_keys(members: Seq<Seq<char>>, present: Seq<bool>) -> Seq<Seq<char>>
    decreases members.len(),
{
    if members.len() == 0 {
        Seq::empty()
    } else {
        let rest = spec_filter_keys(members.drop_last(), present.drop_last());
        if present.len() > 0 && present.last() {
            rest.push(members.last())
        } else {
            rest
        }
    }
}

/// A filtered member list is a subsequence, so it stays sorted.
proof fn lemma_filter_keys_sorted(members: Seq<Seq<char>>, present: Seq<bool>)
    requires
        set_sorted(members),
    ensures
        forall|m: int|
            0 <= m < spec_filter_keys(members, present).len() ==> exists|j: int|
                0 <= j < members.len() && (#[trigger] spec_filter_keys(members, present)[m])
                    == members[j],
        set_sorted(spec_filter_keys(members, present)),
    decreases members.len(),
{
    let out = spec_filter_keys(members, present);
    if members.len() > 0 {
        assert(set_sorted(members.drop_last())) by {
            assert(forall|i: int|
                0 <= i < members.len() - 1 ==> #[trigger] members.drop_last()[i] == members[i]);
        }
        lemma_filter_keys_sorted(members.drop_last(), present.drop_last());
        let rest = spec_filter_keys(members.drop_last(), present.drop_last());
        assert forall|m: int| 0 <= m < out.len() implies exists|j: int|
            0 <= j < members.len() && (#[trigger] out[m]) == members[j] by {
            if present.len() > 0 && present.last() && m == out.len() - 1 {
                assert(out[m] == members[members.len() - 1]);
            } else {
                assert(out[m] == rest[m]);
                let j = choose|j: int|
                    0 <= j < members.drop_last().len() && rest[m] == members.drop_last()[j];
                assert(members.drop_last()[j] == members[j]);
            }
        }
        assert(set_sorted(out)) by {
            assert forall|i: int, j: int| 0 <= i < j < out.len() implies lex_lt(
                #[trigger] out[i], #[trigger] out[j]) by {
                if present.len() > 0 && present.last() && j == out.len() - 1 {
                    assert(out[i] == rest[i]);
                    let a = choose|a: int|
                        0 <= a < members.drop_last().len() && rest[i] == members.drop_last()[a];
                    assert(members.drop_last()[a] == members[a]);
                    assert(out[j] == members[members.len() - 1]);
                }
            }
        }
    }
}

/// The members and messages after popping each path's key in order.
pub open spec fn spec_pop_paths(
    members: Seq<Seq<char>>,
    root: Seq<char>,
    cwd: Seq<char>,
    paths: Seq<Seq<char>>,
) -> (Seq<Seq<char>>, Seq<Seq<char>>)
    decreases paths.len(),
{
    if paths.len() == 0 {
        (members, Seq::empty())
    } else {
        let rest = spec_pop_paths(members, root, cwd, paths.drop_last());
        match spec_strip_prefix(root, spec_absolutize(cwd, paths.last())) {
            None => (
                rest.0,
                rest.1 + seq![
                    "file and db do not share a common root: "@ + spec_absolutize(
                        cwd,
                        paths.last(),
                    )
                ],
            ),
            Some(k) => (set_remove(rest.0, k), rest.1),
        }
    }
}

/// Removes each path's key from a collection; with `no_exists`, members
/// whose files are gone go first, as the presence flags say. A missing
/// collection leaves the store untouched and is signalled by `None`.
pub fn pop_coll(
    context: &mut Context,
    name: &str,
    no_exists: bool,
    present: &Vec<bool>,
    files: &Vec<String>,
) -> (r: Option<Vec<String>>)
    requires
        old(context).wf(),
        no_exists && map_has(old(context).db@.collections, name@) ==> present@.len() == map_get(
            old(context).db@.collections,
            name@,
        ).len(),
    ensures
        !map_has(old(context).db@.collections, name@) ==> r is None && final(context).db@ == old(
            context,
        ).db@,
        map_has(old(context).db@.collections, name@) ==> r is Some && ({
            let base = if no_exists {
                spec_filter_keys(map_get(old(context).db@.collections, name@), present@)
            } else {
                map_get(old(context).db@.collections, name@)
            };
            let fold = spec_pop_paths(
                base,
                old(context).spec_root(),
                old(context).spec_cwd(),
                files.deep_view(),
            );
            final(context).db@ == (DbV {
                collections: map_insert(old(context).db@.collections, name@, fold.0),
                ..old(context).db@
            }) && r->Some_0.deep_view() == fold.1
        }),
        final(context).wf(),
        final(context).spec_format() == old(context).spec_format(),
        final(context).spec_path() == old(context).spec_path(),
        final(context).spec_root() == old(context).spec_root(),
        final(context).spec_cwd() == old(context).spec_cwd(),
{
    let ghost d0 = context.db@;
    let mut ks = match context.db.collections.remove(name) {
        Some(ks) => ks,
        None => {
            proof {
                crate::omap::lemma_map_remove_absent(d0.collections, name@);
            }
            return None;
        },
    };
    proof {
        let idx = crate::omap::map_idx(d0.collections, name@);
        assert(0 <= idx < d0.collections.len() && d0.collections[idx].0 == name@);
        assert(set_sorted(d0.collections[idx].1));
        assert(map_get(d0.collections, name@) == d0.collections[idx].1);
    }
    let ghost m0 = ks.view();
    if no_exists {
        let n = ks.len();
        let mut kept = KeySet::new();
        let mut i: usize = 0;
        let ghost mut last_j: int = 0;
        proof {
            assert(kept.view() =~= spec_filter_keys(m0.take(0), present@.take(0)));
        }
        while i < n
            invariant
                i <= n,
                n == m0.len(),
                n == present@.len(),
                m0 == ks.view(),
                ks.wf(),
                kept.wf(),
                kept.view() == spec_filter_keys(m0.take(i as int), present@.take(i as int)),
                kept.view().len() > 0 ==> 0 <= last_j < i && kept.view().last() == m0[last_j],
            decreases n - i,
        {
            let ghost mpre1 = m0.take(i as int + 1);
            let ghost ppre1 = present@.take(i as int + 1);
            proof {
                assert(mpre1.drop_last() =~= m0.take(i as int));
                assert(ppre1.drop_last() =~= present@.take(i as int));
                assert(mpre1.last() == m0[i as int]);
                assert(ppre1.len() > 0 && ppre1.last() == present@[i as int]);
            }
            if present[i] {
                let member = ks.get_index(i);
                proof {
                    if kept.view().len() > 0 {
                        assert(lex_lt(m0[last_j], m0[i as int]));
                    }
                }
                kept.push_monotone(member.clone());
                proof {
                    last_j = i as int;
                    assert(kept.view() =~= spec_filter_keys(mpre1, ppre1));
                }
            }
            i = i + 1;
        }
        proof {
            assert(m0.take(n as int) =~= m0);
            assert(present@.take(n as int) =~= present@);
        }
        ks = kept;
    }
    let ghost base = ks.view();
    let root = context.root_copy();
    let cwd = context.cwd.clone();
    let mut msgs: Vec<String> = Vec::new();
    let n2 = files.len();
    let mut i2: usize = 0;
    proof {
        assert(files.deep_view().take(0) =~= Seq::<Seq<char>>::empty());
    }
    while i2 < n2
        invariant
            i2 <= n2,
            n2 == files@.len(),
            root@ == old(context).spec_root(),
            cwd@ == old(context).spec_cwd(),
            ({
                let so_far = spec_pop_paths(base, root@, cwd@, files.deep_view().take(i2 as int));
                ks.view() == so_far.0 && msgs.deep_view() == so_far.1
            }),
            ks.wf(),
        decreases n2 - i2,
    {
        let ghost ps = files.deep_view();
        let ghost pre1 = ps.take(i2 as int + 1);
        proof {
            assert(pre1.drop_last() =~= ps.take(i2 as int));
            assert(pre1.last() == ps[i2 as int]);
        }
        let given = &files[i2];
        assert(given@ == ps[i2 as int]);
        match RelativePath::from_root(root.as_str(), cwd.as_str(), given.as_str()) {
            Err(e) => {
                let ghost old_msgs = msgs.deep_view();
                msgs.push(e.message());
                proof {
                    let step = spec_pop_paths(base, root@, cwd@, pre1);
                    assert(msgs.deep_view() =~= step.1);
                }
            },
            Ok(rp) => {
                let parts = rp.into_parts();
                ks.remove(parts.1.as_str());
            },
        }
        i2 = i2 + 1;
    }
    proof {
        assert(files.deep_view().take(n2 as int) =~= files.deep_view());
        lemma_colls_wf_remove(d0.collections, name@);
        lemma_colls_wf_insert(map_remove(d0.collections, name@), name@, ks.view());
        lemma_map_reinsert(d0.collections, name@, ks.view());
    }
    context.db.collections.insert(name_to_string(name), ks);
    Some(msgs)
}

/// The heading line of one collection: its name and how many keys it holds.
pub open spec fn spec_coll_line(name: Seq<char>, n: nat) -> Seq<char> {
    name + ": "@ + dec_of_nat(n) + " files"@
}

fn coll_line(name: &str, n: usize) -> (r: String)
    ensures
        r@ == spec_coll_line(name@, n as nat),
{
    let mut chars = string_to_chars(name);
    let mut sep = string_to_chars(": ");
    chars.append(&mut sep);
    push_dec_u64(&mut chars, n as u64);
    let mut tail = string_to_chars(" files");
    chars.append(&mut tail);
    let r = chars_to_string(&chars);
    proof {
        assert(r@ =~= spec_coll_line(name@, n as nat));
    }
    r
}

/// The lines for one collection: its heading, then its keys when asked.
pub open spec fn spec_view_lines(name: Seq<char>, members: Seq<Seq<char>>, show: bool) -> Seq<
    Seq<char>,
> {
    if show {
        seq![spec_coll_line(name, members.len())] + members
    } else {
        seq![spec_coll_line(name, members.len())]
    }
}

/// The lines of the whole view: each collection in name order.
pub open spec fn spec_view_all(
    colls: Seq<(Seq<char>, Seq<Seq<char>>)>,
    show: bool,
) -> Seq<Seq<char>>
    decreases colls.len(),
{
    if colls.len() == 0 {
        Seq::empty()
    } else {
        spec_view_all(colls.drop_last(), show) + spec_view_lines(
            colls.last().0,
            colls.last().1,
            show,
        )
    }
}

fn push_view_lines(out: &mut Vec<String>, name: &str, ks: &KeySet, show: bool)
    ensures
        final(out).deep_view() == old(out).deep_view() + spec_view_lines(name@, ks.view(), show),
{
    let ghost before = out.deep_view();
    let line = coll_line(name, ks.len());
    out.push(line);
    if show {
        let n = ks.len();
        let mut i: usize = 0;
        proof {
            assert(out.deep_view() =~= before + seq![spec_coll_line(name@, ks.view().len())]
                + ks.view().take(0));
        }
        while i < n
            invariant
                i <= n,
                n == ks.view().len(),
                out.deep_view() == before + seq![spec_coll_line(name@, ks.view().len())]
                    + ks.view().take(i as int),
            decreases n - i,
        {
            let ghost pre1 = ks.view().take(i as int + 1);
            proof {
                assert(pre1.drop_last() =~= ks.view().take(i as int));
                assert(pre1.last() == ks.view()[i as int]);
            }
            let member = ks.get_index(i);
            let ghost old_dv = out.deep_view();
            out.push(member.clone());
            proof {
                assert(out.deep_view() =~= old_dv.push(ks.view()[i as int]));
                assert(out.deep_view() =~= before + seq![spec_coll_line(name@, ks.view().len())]
                    + pre1);
            }
            i = i + 1;
        }
        proof {
            assert(ks.view().take(n as int) =~= ks.view());
            assert(out.deep_view() =~= before + spec_view_lines(name@, ks.view(), show));
        }
    } else {
        proof {
            assert(out.deep_view() =~= before + spec_view_lines(name@, ks.view(), show));
        }
    }
}

/// Lists one collection or all of them: a heading per collection and,
/// when asked, its keys; a missing name yields the not-found line.
pub fn view_coll(db: &Db, args: &ViewArgs) -> (r: Vec<String>)
    requires
        db.wf(),
    ensures
        ({
            match args.name {
                Some(n) => {
                    if map_has(db@.collections, n@) {
                        r.deep_view() == spec_view_lines(
                            n@,
                            map_get(db@.collections, n@),
                            args.files,
                        )
                    } else {
                        r.deep_view() == seq!["collection not found"@]
                    }
                },
                None => r.deep_view() == spec_view_all(db@.collections, args.files),
            }
        }),
{
    let mut out: Vec<String> = Vec::new();
    match &args.name {
        Some(n) => {
            match db.collections.get(n.as_str()) {
                Some(ks) => {
                    proof {
                        let idx = crate::omap::map_idx(db@.collections, n@);
                        assert(0 <= idx < db@.collections.len() && db@.collections[idx].0 == n@);
                    }
                    push_view_lines(&mut out, n.as_str(), ks, args.files);
                    proof {
                        assert(out.deep_view() =~= spec_view_lines(
                            n@,
                            map_get(db@.collections, n@),
                            args.files,
                        ));
                    }
                },
                None => {
                    out.push(String::from_str("collection not found"));
                    proof {
                        assert(out.deep_view() =~= seq!["collection not found"@]);
                    }
                },
            }
        },
        None => {
            let n = db.collections.len();
            let mut i: usize = 0;
            proof {
                assert(out.deep_view() =~= spec_view_all(db@.collections.take(0), args.files));
            }
            while i < n
                invariant
                    i <= n,
                    n == db@.collections.len(),
                    db.wf(),
                    out.deep_view() == spec_view_all(db@.collections.take(i as int), args.files),
                decreases n - i,
            {
                let ghost pre1 = db@.collections.take(i as int + 1);
                proof {
                    assert(pre1.drop_last() =~= db@.collections.take(i as int));
                    assert(pre1.last() == db@.collections[i as int]);
                }
                let pair = db.collections.get_index(i);
                push_view_lines(&mut out, pair.0.as_str(), &pair.1, args.files);
                proof {
                    assert(out.deep_view() =~= spec_view_all(pre1, args.files));
                }
                i = i + 1;
            }
            proof {
                assert(db@.collections.take(n as int) =~= db@.collections);
            }
        },
    }
    out
}

} // verus!
