//! The path model of the rendering pipeline.
//!
//! Every asset is addressed by a [`SrcPath`]: a slash-separated, normalized,
//! preferably absolute path, so that one asset included as `images/pic.png`,
//! `../images/pic.png` and `/images/pic.png` resolves to a single identity.
//! [`normalize_path`] collapses `.` and `..` components without touching any
//! file system and never fails on paths that do not exist;
//! [`soft_cannonicalize`] additionally resolves relative paths against a
//! given working directory.

use vstd::prelude::*;
use vstd::string::StrSliceExecFns;
use vstd::string::StringExecFns;

verus! {

/// The components of a slash-separated path, in order. Consecutive slashes
/// and leading or trailing slashes yield empty components, which
/// normalization drops.
pub open spec fn split_comps(s: Seq<char>) -> Seq<Seq<char>>
    decreases s.len(),
{
    if s.len() == 0 {
        seq![Seq::empty()]
    } else if s.last() == '/' {
        split_comps(s.drop_last()).push(Seq::empty())
    } else {
        let t = split_comps(s.drop_last());
        t.update(t.len() - 1, t.last().push(s.last()))
    }
}

/// Splitting never yields an empty component list.
pub proof fn lemma_split_nonempty(s: Seq<char>)
    ensures
        split_comps(s).len() >= 1,
    decreases s.len(),
{
    if s.len() > 0 {
        lemma_split_nonempty(s.drop_last());
    }
}

/// One step of normalization: empty components and `.` vanish, `..` pops the
/// last real component — except at the top, where it stays on a relative path
/// and vanishes on an absolute one — and anything else is kept.
pub open spec fn norm_step(acc: Seq<Seq<char>>, c: Seq<char>, absolute: bool) -> Seq<Seq<char>> {
    if c == Seq::<char>::empty() || c == seq!['.'] {
        acc
    } else if c == seq!['.', '.'] {
        if acc.len() > 0 && acc.last() == seq!['.', '.'] {
            acc.push(c)
        } else if acc.len() > 0 {
            acc.drop_last()
        } else if !absolute {
            acc.push(c)
        } else {
            acc
        }
    } else {
        acc.push(c)
    }
}

/// The surviving components of a path, after every `.` and `..` is resolved,
/// in order.
pub open spec fn norm_comps(comps: Seq<Seq<char>>, absolute: bool) -> Seq<Seq<char>>
    decreases comps.len(),
{
    if comps.len() == 0 {
        Seq::empty()
    } else {
        norm_step(norm_comps(comps.drop_last(), absolute), comps.last(), absolute)
    }
}

/// Components joined with `/` between them, without a leading slash.
pub open spec fn join_comps(comps: Seq<Seq<char>>) -> Seq<char>
    decreases comps.len(),
{
    if comps.len() == 0 {
        Seq::empty()
    } else if comps.len() == 1 {
        comps[0]
    } else {
        join_comps(comps.drop_last()) + seq!['/'] + comps.last()
    }
}

/// Whether the path is absolute: it names its components from the root.
pub open spec fn is_absolute(s: Seq<char>) -> bool {
    s.len() > 0 && s[0] == '/'
}

/// The normalized form of a path: its components with `.` and `..` collapsed,
/// joined back together, keeping the leading slash of an absolute path. Pure
/// text processing: symlinks are not resolved, nothing touches a file system,
/// and non-existent paths are fine.
pub open spec fn normalize_spec(s: Seq<char>) -> Seq<char> {
    let stack = norm_comps(split_comps(s), is_absolute(s));
    if is_absolute(s) {
        seq!['/'] + join_comps(stack)
    } else {
        join_comps(stack)
    }
}

/// Resolution against a working directory: an absolute path stands on its
/// own, a relative one is read from `pwd`, and either way the result is
/// normalized.
pub open spec fn soft_canon_spec(p: Seq<char>, pwd: Seq<char>) -> Seq<char> {
    if is_absolute(p) {
        normalize_spec(p)
    } else {
        normalize_spec(pwd + seq!['/'] + p)
    }
}

/// Splits a path into its slash-separated components.
#[verifier::loop_isolation(false)]
fn split_path(s: &str) -> (comps: Vec<String>)
    ensures
        comps@.map_values(|c: String| c@) == split_comps(s@),
{
    let ghost m = |c: String| c@;
    let n = s.unicode_len();
    let mut comps: Vec<String> = Vec::new();
    let mut start: usize = 0;
    let mut i: usize = 0;
    proof {
        assert(s@.subrange(0, 0) =~= Seq::<char>::empty());
        assert(comps@.map_values(m).push(s@.subrange(0, 0)) =~= split_comps(s@.subrange(0, 0)));
    }
    while i < n
        invariant
            0 <= start <= i <= n,
            comps@.map_values(m).push(s@.subrange(start as int, i as int)) == split_comps(
                s@.subrange(0, i as int),
            ),
        decreases n - i,
    {
        proof {
            assert(s@.subrange(0, i + 1).drop_last() =~= s@.subrange(0, i as int));
            assert(s@.subrange(0, i + 1).last() == s@[i as int]);
        }
        if s.get_char(i) == '/' {
            let piece = s.substring_char(start, i).to_owned();
            let ghost pre = comps@;
            comps.push(piece);
            proof {
                assert(comps@.map_values(m) =~= pre.map_values(m).push(s@.subrange(
                    start as int,
                    i as int,
                )));
            }
            start = i + 1;
            proof {
                assert(s@.subrange(start as int, i + 1) =~= Seq::<char>::empty());
                assert(comps@.map_values(m).push(s@.subrange(start as int, i + 1)) =~= split_comps(
                    s@.subrange(0, i + 1),
                ));
            }
        } else {
            proof {
                let t = split_comps(s@.subrange(0, i as int));
                lemma_split_nonempty(s@.subrange(0, i as int));
                assert(s@.subrange(start as int, i + 1) =~= s@.subrange(
                    start as int,
                    i as int,
                ).push(s@[i as int]));
                assert(comps@.map_values(m).push(s@.subrange(start as int, i + 1)) =~= t.update(
                    t.len() - 1,
                    t.last().push(s@[i as int]),
                ));
            }
        }
        i += 1;
    }
    proof {
        assert(s@.subrange(0, n as int) =~= s@);
    }
    let piece = s.substring_char(start, n).to_owned();
    let ghost pre = comps@;
    comps.push(piece);
    proof {
        assert(comps@.map_values(m) =~= pre.map_values(m).push(s@.subrange(start as int, n as int)));
    }
    comps
}

/// Collapses a component list: `.` and empty components vanish, `..` pops.
#[verifier::loop_isolation(false)]
fn resolve_comps(comps: &Vec<String>, absolute: bool) -> (stack: Vec<String>)
    ensures
        stack@.map_values(|c: String| c@) == norm_comps(
            comps@.map_values(|c: String| c@),
            absolute,
        ),
{
    let ghost m = |c: String| c@;
    let dot = String::from_str(".");
    let dotdot = String::from_str("..");
    let empty = String::new();
    proof {
        reveal_strlit(".");
        reveal_strlit("..");
        assert(dot@ =~= seq!['.']);
        assert(dotdot@ =~= seq!['.', '.']);
    }
    let mut stack: Vec<String> = Vec::new();
    let mut i: usize = 0;
    proof {
        assert(comps@.map_values(m).subrange(0, 0) =~= Seq::<Seq<char>>::empty());
        assert(stack@.map_values(m) =~= norm_comps(comps@.map_values(m).subrange(0, 0), absolute));
    }
    while i < comps.len()
        invariant
            0 <= i <= comps@.len(),
            stack@.map_values(m) == norm_comps(comps@.map_values(m).subrange(0, i as int), absolute),
        decreases comps@.len() - i,
    {
        proof {
            let pfx = comps@.map_values(m).subrange(0, i + 1);
            assert(pfx.drop_last() =~= comps@.map_values(m).subrange(0, i as int));
            assert(pfx.last() == comps@[i as int]@);
        }
        let c = &comps[i];
        let ghost pre = stack@;
        if c.eq(&empty) || c.eq(&dot) {
            // dropped: the component names nothing
        } else if c.eq(&dotdot) {
            let top_is_up = stack.len() > 0 && stack[stack.len() - 1].eq(&dotdot);
            if top_is_up {
                stack.push(c.clone());
                proof {
                    assert(pre.map_values(m).last() == seq!['.', '.']);
                    assert(stack@.map_values(m) =~= pre.map_values(m).push(c@));
                }
            } else if stack.len() > 0 {
                let _ = stack.pop();
                proof {
                    assert(pre.map_values(m).last() != seq!['.', '.']);
                    assert(stack@.map_values(m) =~= pre.map_values(m).drop_last());
                }
            } else if !absolute {
                stack.push(c.clone());
                proof {
                    assert(stack@.map_values(m) =~= pre.map_values(m).push(c@));
                }
            }
        } else {
            stack.push(c.clone());
            proof {
                assert(stack@.map_values(m) =~= pre.map_values(m).push(c@));
            }
        }
        i += 1;
    }
    proof {
        assert(comps@.map_values(m).subrange(0, comps@.len() as int) =~= comps@.map_values(m));
    }
    stack
}

/// Joins components with `/`, prefixing the leading slash of an absolute
/// path.
#[verifier::loop_isolation(false)]
fn join_path(stack: &Vec<String>, absolute: bool) -> (out: String)
    ensures
        out@ == if absolute {
            seq!['/'] + join_comps(stack@.map_values(|c: String| c@))
        } else {
            join_comps(stack@.map_values(|c: String| c@))
        },
{
    let ghost m = |c: String| c@;
    let ghost lead: Seq<char> = if absolute {
        seq!['/']
    } else {
        Seq::empty()
    };
    let mut out = String::new();
    if absolute {
        out.append("/");
    }
    proof {
        reveal_strlit("/");
        assert("/"@ =~= seq!['/']);
        assert(out@ =~= lead);
        assert(stack@.map_values(m).subrange(0, 0) =~= Seq::<Seq<char>>::empty());
        assert(out@ =~= lead + join_comps(stack@.map_values(m).subrange(0, 0)));
    }
    let mut i: usize = 0;
    while i < stack.len()
        invariant
            0 <= i <= stack@.len(),
            out@ == lead + join_comps(stack@.map_values(m).subrange(0, i as int)),
        decreases stack@.len() - i,
    {
        proof {
            let pfx = stack@.map_values(m).subrange(0, i + 1);
            assert(pfx.drop_last() =~= stack@.map_values(m).subrange(0, i as int));
            assert(pfx.last() == stack@[i as int]@);
        }
        if i > 0 {
            out.append("/");
        }
        out.append(stack[i].as_str());
        proof {
            reveal_strlit("/");
            let pfx = stack@.map_values(m).subrange(0, i + 1);
            if i == 0 {
                assert(join_comps(pfx) == stack@[0]@);
                assert(out@ =~= lead + join_comps(pfx));
            } else {
                assert(out@ =~= lead + join_comps(pfx));
            }
        }
        i += 1;
    }
    proof {
        assert(stack@.map_values(m).subrange(0, stack@.len() as int) =~= stack@.map_values(m));
    }
    out
}

/// Collapses `.` and `..` components of a slash-separated path, purely as
/// text. Unlike a true canonicalization it does not fail on paths that do not
/// exist, does not resolve symlinks, and never touches the file system.
pub fn normalize_path(path: &str) -> (r: String)
    ensures
        r@ == normalize_spec(path@),
{
    let absolute = path.unicode_len() > 0 && path.get_char(0) == '/';
    let comps = split_path(path);
    let stack = resolve_comps(&comps, absolute);
    join_path(&stack, absolute)
}

/// Canonicalizes a path relative to a given working directory without
/// touching the file system: a relative path is read from `pwd`, `.` and
/// `..` are collapsed, symlinks stay unresolved, and paths that do not exist
/// are fine.
pub fn soft_cannonicalize(path: &str, pwd: &str) -> (r: String)
    ensures
        r@ == soft_canon_spec(path@, pwd@),
{
    let absolute = path.unicode_len() > 0 && path.get_char(0) == '/';
    if absolute {
        normalize_path(path)
    } else {
        let mut joined = pwd.to_owned();
        joined.append("/");
        joined.append(path);
        proof {
            reveal_strlit("/");
            assert(joined@ =~= pwd@ + seq!['/'] + path@);
        }
        normalize_path(joined.as_str())
    }
}

/// The index after the last `/` of the path: where the file name starts, or
/// the path's length if it ends in a slash.
pub open spec fn filename_start(s: Seq<char>) -> int
    decreases s.len(),
{
    if s.len() == 0 {
        0
    } else if s.last() == '/' {
        s.len() as int
    } else {
        filename_start(s.drop_last())
    }
}

/// The position of the last `.` of the path with no `/` after it, or the
/// path's length if there is none.
pub open spec fn last_dot(s: Seq<char>) -> int
    decreases s.len(),
{
    if s.len() == 0 {
        0
    } else if s.last() == '.' {
        s.len() - 1
    } else if s.last() == '/' {
        s.len() as int
    } else {
        let d = last_dot(s.drop_last());
        if d == s.len() - 1 {
            s.len() as int
        } else {
            d
        }
    }
}

/// Where the extension starts — the last `.` of the file name, kept in the
/// extension — or the path's length where the file name has none. A file name
/// that is nothing but a leading dot has no extension.
pub open spec fn ext_start(s: Seq<char>) -> int {
    if last_dot(s) < s.len() && last_dot(s) > filename_start(s) {
        last_dot(s)
    } else {
        s.len() as int
    }
}

/// The file-name start lies within the path.
pub proof fn lemma_filename_start_bounds(s: Seq<char>)
    ensures
        0 <= filename_start(s) <= s.len(),
    decreases s.len(),
{
    if s.len() > 0 && s.last() != '/' {
        lemma_filename_start_bounds(s.drop_last());
    }
}

/// The last dot lies within the path.
pub proof fn lemma_last_dot_bounds(s: Seq<char>)
    ensures
        0 <= last_dot(s) <= s.len(),
    decreases s.len(),
{
    if s.len() > 0 && s.last() != '.' && s.last() != '/' {
        lemma_last_dot_bounds(s.drop_last());
    }
}

/// Checks that a path holds a file name: it is not empty and does not end in
/// a slash.
pub fn has_filename(s: &str) -> (r: bool)
    ensures
        r == (filename_start(s@) < s@.len()),
{
    let n = s.unicode_len();
    if n == 0 {
        return false;
    }
    let last = s.get_char(n - 1);
    proof {
        assert(s@.last() == s@[n - 1]);
        if s@.last() != '/' {
            lemma_filename_start_bounds(s@.drop_last());
        }
    }
    !(last == '/')
}

/// A source path: a slash-separated path together with the precomputed
/// boundaries of its file name and extension. To keep one asset under one
/// identity, build it from a canonical absolute path — see
/// [`SrcPath::from_relaxed_path`].
#[derive(Debug, PartialEq, Eq, Clone, Hash)]
pub struct SrcPath {
    path: String,
    filename_i: usize,
    ext_index: usize,
}

impl SrcPath {
    /// The path text this source path stands for.
    pub closed spec fn path_spec(&self) -> Seq<char> {
        self.path@
    }

    /// The boundaries cached in the fields agree with the path text.
    pub closed spec fn wf(&self) -> bool {
        &&& self.filename_i == filename_start(self.path@)
        &&& self.ext_index == ext_start(self.path@)
    }

    /// Builds a source path from path text, locating its file name and
    /// extension. The path must have a file name: it must not be empty or end
    /// in a slash.
    pub fn new(path: String) -> (r: SrcPath)
        requires
            filename_start(path@) < path@.len(),
        ensures
            r.wf(),
            r.path_spec() == path@,
    {
        let n = path.as_str().unicode_len();
        let mut fs: usize = 0;
        let mut has_dot: bool = false;
        let mut dpos: usize = 0;
        let mut i: usize = 0;
        proof {
            assert(path@.subrange(0, 0) =~= Seq::<char>::empty());
        }
        while i < n
            invariant
                0 <= i <= n,
                n == path@.len(),
                fs == filename_start(path@.subrange(0, i as int)),
                fs <= i,
                has_dot ==> dpos == last_dot(path@.subrange(0, i as int)) && dpos < i,
                !has_dot ==> last_dot(path@.subrange(0, i as int)) == i,
            decreases n - i,
        {
            proof {
                assert(path@.subrange(0, i + 1).drop_last() =~= path@.subrange(0, i as int));
                assert(path@.subrange(0, i + 1).last() == path@[i as int]);
            }
            let c = path.as_str().get_char(i);
            if c == '/' {
                fs = i + 1;
                has_dot = false;
            } else if c == '.' {
                has_dot = true;
                dpos = i;
            }
            i += 1;
        }
        proof {
            assert(path@.subrange(0, n as int) =~= path@);
            lemma_filename_start_bounds(path@);
            lemma_last_dot_bounds(path@);
        }
        let ei = if has_dot && dpos > fs {
            dpos
        } else {
            n
        };
        SrcPath { path, filename_i: fs, ext_index: ei }
    }

    /// Builds a source path from possibly relaxed path text — relative, or
    /// holding `.` and `..` components — by canonicalizing it against the
    /// given working directory first. The canonical path must keep a file
    /// name.
    pub fn from_relaxed_path(path: &str, pwd: &str) -> (r: SrcPath)
        requires
            filename_start(soft_canon_spec(path@, pwd@)) < soft_canon_spec(path@, pwd@).len(),
        ensures
            r.wf(),
            r.path_spec() == soft_canon_spec(path@, pwd@),
    {
        let canonical = soft_cannonicalize(path, pwd);
        SrcPath::new(canonical)
    }

    /// The whole path text.
    pub fn as_text(&self) -> (r: String)
        ensures
            r@ == self.path_spec(),
    {
        self.path.clone()
    }

    /// The file name: everything after the last slash, extension included.
    pub fn filename(&self) -> (r: String)
        requires
            self.wf(),
        ensures
            r@ == self.path_spec().subrange(
                filename_start(self.path_spec()),
                self.path_spec().len() as int,
            ),
    {
        proof {
            lemma_filename_start_bounds(self.path@);
        }
        let n = self.path.as_str().unicode_len();
        self.path.as_str().substring_char(self.filename_i, n).to_owned()
    }

    /// The file name without its extension.
    pub fn filename_no_ext(&self) -> (r: String)
        requires
            self.wf(),
        ensures
            r@ == self.path_spec().subrange(
                filename_start(self.path_spec()),
                ext_start(self.path_spec()),
            ),
    {
        proof {
            lemma_filename_start_bounds(self.path@);
            lemma_last_dot_bounds(self.path@);
        }
        self.path.as_str().substring_char(self.filename_i, self.ext_index).to_owned()
    }

    /// The extension, dot included; empty where the file name has none.
    pub fn ext(&self) -> (r: String)
        requires
            self.wf(),
        ensures
            r@ == self.path_spec().subrange(
                ext_start(self.path_spec()),
                self.path_spec().len() as int,
            ),
    {
        proof {
            lemma_last_dot_bounds(self.path@);
            lemma_filename_start_bounds(self.path@);
        }
        let n = self.path.as_str().unicode_len();
        self.path.as_str().substring_char(self.ext_index, n).to_owned()
    }
}

} // verus!
