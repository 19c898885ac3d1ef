//! The path resolver: lexical absolutization of user-supplied paths against
//! the working directory, and stripping of the store root to obtain a store
//! key. Resolution is lexical on purpose: it must work for paths that do not
//! exist yet or no longer exist, so nothing here follows symlinks or touches
//! the filesystem. Paths are `/`-separated strings throughout.
use vstd::prelude::*;
use vstd::string::StrSliceExecFns;
use vstd::string::StringExecFns;
use crate::text::{str_eq, chars_to_string, string_to_chars};

verus! {

pub open spec fn is_abs(s: Seq<char>) -> bool {
    s.len() > 0 && s[0] == '/'
}

/// The pieces of `s` between `/` separators; a path without a separator is
/// one piece, and each separator adds one.
pub open spec fn split_slash(s: Seq<char>) -> Seq<Seq<char>>
    decreases s.len(),
{
    if s.len() == 0 {
        seq![Seq::<char>::empty()]
    } else if s[0] == '/' {
        seq![Seq::<char>::empty()] + split_slash(s.skip(1))
    } else {
        let rest = split_slash(s.skip(1));
        seq![seq![s[0]] + rest[0]] + rest.skip(1)
    }
}

pub proof fn lemma_split_slash_len(s: Seq<char>)
    ensures
        split_slash(s).len() >= 1,
    decreases s.len(),
{
    if s.len() > 0 {
        lemma_split_slash_len(s.skip(1));
    }
}

/// Lexical normalization of a piece list: empty and `.` pieces vanish, `..`
/// drops the piece before it and vanishes at the top.
pub open spec fn norm_stack(cs: Seq<Seq<char>>) -> Seq<Seq<char>>
    decreases cs.len(),
{
    if cs.len() == 0 {
        Seq::empty()
    } else {
        let init = norm_stack(cs.drop_last());
        let c = cs.last();
        if c.len() == 0 || c == "."@ {
            init
        } else if c == ".."@ {
            if init.len() > 0 {
                init.drop_last()
            } else {
                init
            }
        } else {
            init.push(c)
        }
    }
}

/// The pieces joined with `/` separators.
pub open spec fn join_slash(cs: Seq<Seq<char>>) -> Seq<char>
    decreases cs.len(),
{
    if cs.len() == 0 {
        Seq::empty()
    } else if cs.len() == 1 {
        cs[0]
    } else {
        join_slash(cs.drop_last()) + seq!['/'] + cs.last()
    }
}

/// Lexical absolutization: an absolute path is kept as given; a relative one
/// is resolved against the working directory and normalized.
pub open spec fn spec_absolutize(cwd: Seq<char>, p: Seq<char>) -> Seq<char> {
    if is_abs(p) {
        p
    } else {
        seq!['/'] + join_slash(norm_stack(split_slash(cwd + seq!['/'] + p)))
    }
}

/// The store key of `full` under `root`: the remainder behind the root
/// prefix, cut at a piece boundary; `None` when `full` is not under `root`.
pub open spec fn spec_strip_prefix(root: Seq<char>, full: Seq<char>) -> Option<Seq<char>> {
    if full == root {
        Some(Seq::<char>::empty())
    } else if full.len() > root.len() && full.take(root.len() as int) == root && full[root.len() as int]
        == '/' {
        Some(full.skip(root.len() as int + 1))
    } else if root.len() > 0 && root.last() == '/' && full.len() >= root.len() && full.take(
        root.len() as int,
    ) == root {
        Some(full.skip(root.len() as int))
    } else {
        None
    }
}

/// A piece list with a designated open first piece, used to relate the
/// splitting loop to `split_slash`.
pub open spec fn shift_first(pre: Seq<char>, cs: Seq<Seq<char>>) -> Seq<Seq<char>> {
    seq![pre + cs[0]] + cs.skip(1)
}

/// Splits a path into its pieces between `/` separators.
pub fn split_path(s: &str) -> (r: Vec<String>)
    ensures
        r.deep_view() == split_slash(s@),
{
    let n = s.unicode_len();
    let mut out: Vec<String> = Vec::new();
    let mut cur: Vec<char> = Vec::new();
    let mut i: usize = 0;
    proof {
        assert(s@.skip(0) =~= s@);
        lemma_split_slash_len(s@);
        assert(out.deep_view() + shift_first(cur@, split_slash(s@.skip(0))) =~= split_slash(s@));
    }
    while i < n
        invariant
            i <= n,
            n == s@.len(),
            out.deep_view() + shift_first(cur@, split_slash(s@.skip(i as int))) == split_slash(s@),
        decreases n - i,
    {
        let ghost tail = s@.skip(i as int);
        let ghost tail1 = s@.skip(i as int + 1);
        proof {
            lemma_split_slash_len(tail1);
            assert(tail.len() > 0);
            assert(tail[0] == s@[i as int]);
            assert(tail.skip(1) =~= tail1);
        }
        let c = s.get_char(i);
        let ghost old_out = out.deep_view();
        let ghost old_cur = cur@;
        if c == '/' {
            proof {
                assert(split_slash(tail) == seq![Seq::<char>::empty()] + split_slash(tail1));
                assert(shift_first(old_cur, split_slash(tail)) =~= seq![old_cur] + split_slash(
                    tail1));
            }
            out.push(chars_to_string(&cur));
            cur = Vec::new();
            proof {
                assert(out.deep_view() =~= old_out.push(old_cur));
                assert(cur@ =~= Seq::<char>::empty());
                assert(shift_first(cur@, split_slash(tail1)) =~= split_slash(tail1)) by {
                    lemma_split_slash_len(tail1);
                    assert(Seq::<char>::empty() + split_slash(tail1)[0] =~= split_slash(tail1)[0]);
                }
                assert(out.deep_view() + shift_first(cur@, split_slash(tail1)) =~= split_slash(
                    s@));
            }
        } else {
            proof {
                let rest = split_slash(tail1);
                assert(split_slash(tail) == seq![seq![tail[0]] + rest[0]] + rest.skip(1));
                assert(shift_first(old_cur, split_slash(tail)) =~= seq![old_cur + (seq![tail[0]]
                    + rest[0])] + rest.skip(1));
                assert(old_cur + (seq![tail[0]] + rest[0]) =~= (old_cur + seq![tail[0]]) + rest[0]);
            }
            cur.push(c);
            proof {
                assert(cur@ =~= old_cur + seq![c]);
                assert(shift_first(cur@, split_slash(tail1)) =~= seq![cur@ + split_slash(tail1)[0]]
                    + split_slash(tail1).skip(1));
                assert(out.deep_view() + shift_first(cur@, split_slash(tail1)) =~= split_slash(
                    s@));
            }
        }
        i = i + 1;
    }
    let ghost old_out = out.deep_view();
    let ghost old_cur = cur@;
    proof {
        assert(s@.skip(n as int).len() == 0);
        assert(split_slash(s@.skip(n as int)) == seq![Seq::<char>::empty()]);
        assert(shift_first(old_cur, seq![Seq::<char>::empty()]) =~= seq![old_cur]) by {
            assert(old_cur + Seq::<char>::empty() =~= old_cur);
        }
    }
    out.push(chars_to_string(&cur));
    proof {
        assert(out.deep_view() =~= old_out.push(old_cur));
        assert(out.deep_view() =~= split_slash(s@));
    }
    out
}

/// Applies the `.`/`..`/empty-piece rules to a piece list.
pub fn normalize_components(cs: &Vec<String>) -> (r: Vec<String>)
    ensures
        r.deep_view() == norm_stack(cs.deep_view()),
{
    let n = cs.len();
    let mut out: Vec<String> = Vec::new();
    let mut i: usize = 0;
    proof {
        assert(cs.deep_view().take(0) =~= Seq::<Seq<char>>::empty());
        assert(out.deep_view() =~= norm_stack(cs.deep_view().take(0)));
    }
    while i < n
        invariant
            i <= n,
            n == cs@.len(),
            cs.deep_view().len() == n,
            out.deep_view() == norm_stack(cs.deep_view().take(i as int)),
        decreases n - i,
    {
        let ghost prefix = cs.deep_view().take(i as int);
        let ghost prefix1 = cs.deep_view().take(i as int + 1);
        proof {
            assert(prefix1.drop_last() =~= prefix);
            assert(prefix1.last() == cs.deep_view()[i as int]);
            assert(cs.deep_view()[i as int] == cs@[i as int]@);
        }
        let c = &cs[i];
        let ghost old_out = out.deep_view();
        if c.unicode_len() == 0 || str_eq(c.as_str(), ".") {
        } else if str_eq(c.as_str(), "..") {
            if out.len() > 0 {
                out.pop();
                proof {
                    assert(out.deep_view() =~= old_out.drop_last());
                }
            }
        } else {
            out.push(c.clone());
            proof {
                assert(out.deep_view() =~= old_out.push(c@));
            }
        }
        i = i + 1;
    }
    proof {
        assert(cs.deep_view().take(n as int) =~= cs.deep_view());
    }
    out
}

/// Joins a piece list with `/` separators.
pub fn join_components(cs: &Vec<String>) -> (r: String)
    ensures
        r@ == join_slash(cs.deep_view()),
{
    let n = cs.len();
    let mut out: Vec<char> = Vec::new();
    let mut i: usize = 0;
    while i < n
        invariant
            i <= n,
            n == cs@.len(),
            cs.deep_view().len() == n,
            out@ == join_slash(cs.deep_view().take(i as int)),
        decreases n - i,
    {
        let ghost prefix = cs.deep_view().take(i as int);
        let ghost prefix1 = cs.deep_view().take(i as int + 1);
        proof {
            assert(prefix1.drop_last() =~= prefix);
            assert(prefix1.last() == cs.deep_view()[i as int]);
            assert(cs.deep_view()[i as int] == cs@[i as int]@);
        }
        if i > 0 {
            out.push('/');
        }
        let mut piece = string_to_chars(cs[i].as_str());
        out.append(&mut piece);
        proof {
            if i == 0 {
                assert(join_slash(prefix1) == prefix1[0]);
                assert(out@ =~= join_slash(prefix1));
            } else {
                assert(join_slash(prefix1) == join_slash(prefix) + seq!['/'] + prefix1.last());
                assert(out@ =~= join_slash(prefix1));
            }
        }
        i = i + 1;
    }
    proof {
        assert(cs.deep_view().take(n as int) =~= cs.deep_view());
    }
    chars_to_string(&out)
}

/// Resolves `p` against `cwd` lexically, per `spec_absolutize`.
pub fn absolutize(cwd: &str, p: &str) -> (r: String)
    ensures
        r@ == spec_absolutize(cwd@, p@),
{
    proof {
        reveal_strlit("/");
    }
    if p.unicode_len() > 0 && p.get_char(0) == '/' {
        assert(is_abs(p@));
        p.to_owned()
    } else {
        assert(!is_abs(p@));
        let mut combined = cwd.to_owned();
        combined.append("/");
        combined.append(p);
        assert(combined@ =~= cwd@ + seq!['/'] + p@) by {
            assert("/"@ =~= seq!['/']);
        }
        let pieces = split_path(combined.as_str());
        let normed = normalize_components(&pieces);
        let joined = join_components(&normed);
        let mut r = String::new();
        r.append("/");
        r.append(joined.as_str());
        assert(r@ =~= seq!['/'] + join_slash(norm_stack(split_slash(cwd@ + seq!['/'] + p@)))) by {
            assert("/"@ =~= seq!['/']);
        }
        r
    }
}

/// Strips the store root from an absolute path, per `spec_strip_prefix`.
pub fn strip_root(root: &str, full: &str) -> (r: Option<String>)
    ensures
        match r {
            Some(k) => spec_strip_prefix(root@, full@) == Some(k@),
            None => spec_strip_prefix(root@, full@) is None,
        },
{
    let rn = root.unicode_len();
    let fln = full.unicode_len();
    if str_eq(root, full) {
        return Some(String::new());
    }
    if fln > rn {
        let pre = full.substring_char(0, rn);
        assert(pre@ =~= full@.take(rn as int));
        if str_eq(pre, root) && full.get_char(rn) == '/' {
            let rest = full.substring_char(rn + 1, fln);
            assert(rest@ =~= full@.skip(rn as int + 1));
            return Some(rest.to_owned());
        }
    }
    if rn > 0 && root.get_char(rn - 1) == '/' && fln >= rn {
        let pre = full.substring_char(0, rn);
        assert(pre@ =~= full@.take(rn as int));
        if str_eq(pre, root) {
            let rest = full.substring_char(rn, fln);
            assert(rest@ =~= full@.skip(rn as int));
            return Some(rest.to_owned());
        }
    }
    None
}

/// Why a path could not be turned into a store key. A failure is recoverable
/// per item: batch operations report it and continue with the other paths.
#[derive(Debug)]
pub enum PathError {
    /// The resolved path does not lie under the store root.
    InvalidPrefix(String),
    /// The path was not valid UTF-8.
    InvalidChars(String),
    /// Reading the path or the working directory failed.
    Io(String),
}

impl PathError {
    /// The message a batch operation logs for this failure.
    pub fn message(&self) -> (r: String)
        ensures
            match self {
                PathError::InvalidPrefix(p) => r@ == "file and db do not share a common root: "@
                    + p@,
                PathError::InvalidChars(p) => r@ == "file path contains non-UTF-8 characters: "@
                    + p@,
                PathError::Io(p) => r@ == "io error when resolving path "@ + p@,
            },
    {
        match self {
            PathError::InvalidPrefix(p) => {
                let mut r = String::from_str("file and db do not share a common root: ");
                r.append(p.as_str());
                r
            },
            PathError::InvalidChars(p) => {
                let mut r = String::from_str("file path contains non-UTF-8 characters: ");
                r.append(p.as_str());
                r
            },
            PathError::Io(p) => {
                let mut r = String::from_str("io error when resolving path ");
                r.append(p.as_str());
                r
            },
        }
    }
}

/// A user path resolved to its absolute form together with its store key.
#[derive(Debug)]
pub struct RelativePath {
    full: String,
    db_entry: String,
}

impl RelativePath {
    /// The resolved absolute path.
    pub closed spec fn spec_full(&self) -> Seq<char> {
        self.full@
    }

    /// The store key: the path relative to the store root.
    pub closed spec fn spec_entry(&self) -> Seq<char> {
        self.db_entry@
    }

    /// Resolves `given` against `cwd` and strips the store root; the one
    /// failure is a resolved path outside the root.
    pub fn from_root(root: &str, cwd: &str, given: &str) -> (r: Result<RelativePath, PathError>)
        ensures
            match r {
                Ok(rp) => {
                    &&& rp.spec_full() == spec_absolutize(cwd@, given@)
                    &&& spec_strip_prefix(root@, spec_absolutize(cwd@, given@)) == Some(
                        rp.spec_entry())
                },
                Err(e) => {
                    &&& spec_strip_prefix(root@, spec_absolutize(cwd@, given@)) is None
                    &&& e matches PathError::InvalidPrefix(p) && p@ == spec_absolutize(
                        cwd@, given@)
                },
            },
    {
        let full = absolutize(cwd, given);
        match strip_root(root, full.as_str()) {
            Some(db_entry) => Ok(RelativePath { full, db_entry }),
            None => Err(PathError::InvalidPrefix(full)),
        }
    }

    pub fn full_path(&self) -> (r: &str)
        ensures
            r@ == self.spec_full(),
    {
        self.full.as_str()
    }

    pub fn db_entry(&self) -> (r: &str)
        ensures
            r@ == self.spec_entry(),
    {
        self.db_entry.as_str()
    }

    /// The resolved path as text for messages.
    pub fn display(&self) -> (r: String)
        ensures
            r@ == self.spec_full(),
    {
        self.full.clone()
    }

    /// The pair of resolved path and store key, consuming the value.
    pub fn into_parts(self) -> (r: (String, String))
        ensures
            r.0@ == self.spec_full(),
            r.1@ == self.spec_entry(),
    {
        (self.full, self.db_entry)
    }
}

/// Resolution is idempotent: a relative path and the canonical absolute form
/// it resolves to yield the same store key under any root.
pub proof fn lemma_resolution_idempotent(root: Seq<char>, cwd: Seq<char>, p: Seq<char>)
    requires
        !is_abs(p),
    ensures
        spec_absolutize(cwd, spec_absolutize(cwd, p)) == spec_absolutize(cwd, p),
        spec_strip_prefix(root, spec_absolutize(cwd, spec_absolutize(cwd, p)))
            == spec_strip_prefix(root, spec_absolutize(cwd, p)),
{
    let a = spec_absolutize(cwd, p);
    assert(a[0] == '/');
    assert(is_abs(a));
}

/// Walks a path list, resolving each entry against one root and working
/// directory; failures stay per-item results so a batch can continue.
pub struct RelativePathList {
    root: String,
    cwd: String,
    list: Vec<String>,
    pos: usize,
}

impl RelativePathList {
    pub closed spec fn spec_root(&self) -> Seq<char> {
        self.root@
    }

    pub closed spec fn spec_cwd(&self) -> Seq<char> {
        self.cwd@
    }

    pub closed spec fn spec_list(&self) -> Seq<Seq<char>> {
        self.list.deep_view()
    }

    pub closed spec fn spec_pos(&self) -> int {
        self.pos as int
    }

    pub fn new(root: String, cwd: String, list: Vec<String>) -> (r: RelativePathList)
        ensures
            r.spec_root() == root@,
            r.spec_cwd() == cwd@,
            r.spec_list() == list.deep_view(),
            r.spec_pos() == 0,
    {
        RelativePathList { root, cwd, list, pos: 0 }
    }

    /// Resolves the next path of the list, or `None` when it is exhausted.
    pub fn next_path(&mut self) -> (r: Option<Result<RelativePath, PathError>>)
        ensures
            final(self).spec_root() == old(self).spec_root(),
            final(self).spec_cwd() == old(self).spec_cwd(),
            final(self).spec_list() == old(self).spec_list(),
            old(self).spec_pos() >= old(self).spec_list().len() ==> r is None && final(self).spec_pos()
                == old(self).spec_pos(),
            old(self).spec_pos() < old(self).spec_list().len() ==> {
                &&& final(self).spec_pos() == old(self).spec_pos() + 1
                &&& match r {
                    Some(Ok(rp)) => {
                        &&& rp.spec_full() == spec_absolutize(
                            old(self).spec_cwd(),
                            old(self).spec_list()[old(self).spec_pos()],
                        )
                        &&& spec_strip_prefix(old(self).spec_root(), rp.spec_full()) == Some(
                            rp.spec_entry())
                    },
                    Some(Err(e)) => {
                        &&& spec_strip_prefix(
                            old(self).spec_root(),
                            spec_absolutize(
                                old(self).spec_cwd(),
                                old(self).spec_list()[old(self).spec_pos()],
                            ),
                        ) is None
                        &&& e matches PathError::InvalidPrefix(p)
                    },
                    None => false,
                }
            },
    {
        if self.pos >= self.list.len() {
            return None;
        }
        let given = &self.list[self.pos];
        let r = RelativePath::from_root(self.root.as_str(), self.cwd.as_str(), given.as_str());
        self.pos = self.pos + 1;
        Some(r)
    }
}

} // verus!
