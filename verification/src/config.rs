//! Runtime configuration shared with every collector.
//!
//! Mirrors `node_exporter`'s `--path.procfs`, `--path.sysfs`, `--path.rootfs`
//! flags so collectors can be exercised against fixture trees in tests and
//! against bind-mounted host filesystems inside containers.

use vstd::prelude::*;
use vstd::slice::slice_subrange;

use crate::text;
use crate::text::{chars_of, push_chars, strip_prefix};

verus! {

#[derive(Debug, Clone)]
pub struct Config {
    pub procfs: String,
    pub sysfs: String,
    pub rootfs: String,
    /// Directory scanned by the `textfile` collector for `*.prom` files.
    /// `None` disables the collector, matching upstream's behaviour when
    /// `--collector.textfile.directory` is unset.
    pub textfile_directory: Option<String>,
}

/// Holds of `/` alone.
pub open spec fn slash() -> spec_fn(char) -> bool {
    |c: char| c == '/'
}

/// Whether `rel` is `/proc` or a path beneath it.
pub open spec fn is_under_proc(rel: Seq<char>) -> bool {
    text::starts(rel, "/proc"@) && (rel.len() == "/proc"@.len() || rel["/proc"@.len() as int]
        == '/')
}

/// What a path names beneath `/proc`: a leading `/proc` is dropped where it is a
/// component of its own, then every leading `/`.
pub open spec fn beneath_proc(rel: Seq<char>) -> Seq<char> {
    let t = if is_under_proc(rel) {
        rel.skip("/proc"@.len() as int)
    } else {
        rel
    };
    t.skip(text::run(t, slash()))
}

/// `s` without the copies of `p` at its start.
pub open spec fn trim_start_matches(s: Seq<char>, p: Seq<char>) -> Seq<char>
    decreases s.len(),
{
    if p.len() > 0 && text::starts(s, p) {
        trim_start_matches(s.skip(p.len() as int), p)
    } else {
        s
    }
}

/// What a path names beneath `/sys`: every leading `/sys` is dropped, whatever
/// follows it, then every leading `/`.
pub open spec fn beneath_sys(rel: Seq<char>) -> Seq<char> {
    let t = trim_start_matches(rel, "/sys"@);
    t.skip(text::run(t, slash()))
}

/// `rel` beneath `root`: `root` itself where `rel` is empty, otherwise the two
/// with one `/` between them, unless `root` is empty or has it already.
pub open spec fn joined(root: Seq<char>, rel: Seq<char>) -> Seq<char> {
    if rel.len() == 0 {
        root
    } else if root.len() == 0 || root.last() == '/' {
        root + rel
    } else {
        root.push('/') + rel
    }
}

/// An absolute `path` of the host, whose root is at `root`. A path that is not
/// absolute stays as it is.
pub open spec fn rooted(root: Seq<char>, path: Seq<char>) -> Seq<char> {
    if path.len() > 0 && path[0] == '/' {
        joined(root, path.skip(text::run(path, slash())))
    } else {
        path
    }
}

impl Config {
    pub fn new(procfs: String, sysfs: String, rootfs: String) -> (r: Self)
        ensures
            r.procfs == procfs,
            r.sysfs == sysfs,
            r.rootfs == rootfs,
            r.textfile_directory is None,
    {
        Config { procfs, sysfs, rootfs, textfile_directory: None }
    }

    #[must_use]
    pub fn with_textfile_directory(self, dir: Option<String>) -> (r: Self)
        ensures
            r == (Config { textfile_directory: dir, ..self }),
    {
        let mut c = self;
        c.textfile_directory = dir;
        c
    }

    pub open spec fn proc_path_of(&self, rel: Seq<char>) -> Seq<char> {
        joined(self.procfs@, beneath_proc(rel))
    }

    pub open spec fn sys_path_of(&self, rel: Seq<char>) -> Seq<char> {
        joined(self.sysfs@, beneath_sys(rel))
    }

    pub open spec fn root_path_of(&self, path: Seq<char>) -> Seq<char> {
        rooted(self.rootfs@, path)
    }

    /// Resolve a path beneath `procfs`. Accepts both `meminfo` and
    /// `/proc/meminfo`: a leading `/proc` is stripped so callers can use the
    /// upstream-style path.
    pub fn proc_path(&self, rel: &str) -> (r: String)
        ensures
            r@ == self.proc_path_of(rel@),
    {
        let chars = chars_of(rel);
        let all = chars.as_slice();
        let t = match strip_prefix(all, "/proc") {
            Some(rest) => if rest.len() == 0 || rest[0] == '/' {
                rest
            } else {
                all
            },
            None => all,
        };
        join_root(self.procfs.as_str(), without_slashes(t))
    }

    /// Resolve a path beneath `sysfs`, with every leading `/sys` stripped.
    pub fn sys_path(&self, rel: &str) -> (r: String)
        ensures
            r@ == self.sys_path_of(rel@),
    {
        proof {
            reveal_strlit("/sys");
        }
        let chars = chars_of(rel);
        let mut t: &[char] = chars.as_slice();
        loop
            invariant
                "/sys"@.len() == 4,
                trim_start_matches(t@, "/sys"@) == trim_start_matches(rel@, "/sys"@),
            ensures
                t@ == trim_start_matches(rel@, "/sys"@),
            decreases t@.len(),
        {
            match strip_prefix(t, "/sys") {
                Some(rest) => {
                    t = rest;
                },
                None => {
                    break;
                },
            }
        }
        join_root(self.sysfs.as_str(), without_slashes(t))
    }

    /// Resolve an absolute path of the host beneath `rootfs`.
    pub fn root_path(&self, path: &str) -> (r: String)
        ensures
            r@ == self.root_path_of(path@),
    {
        let chars = chars_of(path);
        if chars.len() > 0 && chars[0] == '/' {
            join_root(self.rootfs.as_str(), without_slashes(chars.as_slice()))
        } else {
            path.to_owned()
        }
    }
}

impl Default for Config {
    fn default() -> (r: Self)
        ensures
            r.procfs@ == "/proc"@,
            r.sysfs@ == "/sys"@,
            r.rootfs@ == "/"@,
            r.textfile_directory is None,
    {
        Config::new("/proc".to_owned(), "/sys".to_owned(), "/".to_owned())
    }
}

/// Drops every leading `/`.
fn without_slashes(t: &[char]) -> (r: &[char])
    ensures
        r@ == t@.skip(text::run(t@, slash())),
{
    let mut i: usize = 0;
    while i < t.len() && t[i] == '/'
        invariant
            i <= t@.len(),
            forall|j: int| 0 <= j < i ==> t@[j] == '/',
        decreases t@.len() - i,
    {
        i = i + 1;
    }
    proof {
        text::lemma_run(t@, slash(), i as int);
    }
    slice_subrange(t, i, t.len())
}

fn join_root(root: &str, rel: &[char]) -> (r: String)
    ensures
        r@ == joined(root@, rel@),
{
    let mut out = root.to_owned();
    if rel.len() == 0 {
        return out;
    }
    let chars = chars_of(root);
    if chars.len() > 0 && chars[chars.len() - 1] != '/' {
        out.push('/');
    }
    push_chars(&mut out, rel);
    out
}

/// Only slashes are dropped from a name that has no mount point before it.
proof fn lemma_slashes(rel: Seq<char>)
    requires
        rel.len() > 0,
        rel[0] != '/',
    ensures
        rel.skip(text::run(rel, slash())) == rel,
        (seq!['/'] + rel).skip(text::run(seq!['/'] + rel, slash())) == rel,
{
    let t = seq!['/'] + rel;
    text::lemma_run(t, slash(), 1);
    assert(t.skip(1) =~= rel);
    text::lemma_run(rel, slash(), 0);
    assert(rel.skip(0) =~= rel);
}

/// A file beneath `procfs` may be named with `/proc/` before it or without:
/// both are the file of that name beneath the mount point.
pub proof fn proc_prefix_is_optional(cfg: Config, rel: Seq<char>)
    requires
        rel.len() > 0,
        rel[0] != '/',
    ensures
        cfg.proc_path_of("/proc/"@ + rel) == cfg.proc_path_of(rel),
        cfg.proc_path_of(rel) == joined(cfg.procfs@, rel),
{
    reveal_strlit("/proc");
    reveal_strlit("/proc/");
    let long = "/proc/"@ + rel;
    assert(long.take(5) =~= "/proc"@);
    assert(long.skip(5) =~= seq!['/'] + rel);
    lemma_slashes(rel);
    if text::starts(rel, "/proc"@) {
        assert(rel[0] == rel.take(5)[0]);
    }
}

/// A file beneath `sysfs` may be named with `/sys/` before it or without, unless
/// its name starts with `sys`.
pub proof fn sys_prefix_is_optional(cfg: Config, rel: Seq<char>)
    requires
        rel.len() > 0,
        rel[0] != '/',
        !text::starts(rel, "sys"@),
    ensures
        cfg.sys_path_of("/sys/"@ + rel) == cfg.sys_path_of(rel),
        cfg.sys_path_of(rel) == joined(cfg.sysfs@, rel),
{
    reveal_strlit("/sys");
    reveal_strlit("/sys/");
    reveal_strlit("sys");
    let long = "/sys/"@ + rel;
    let t = seq!['/'] + rel;
    assert(long.take(4) =~= "/sys"@);
    assert(long.skip(4) =~= t);
    if text::starts(t, "/sys"@) {
        assert(rel.take(3) =~= t.take(4).skip(1));
        assert("/sys"@.skip(1) =~= "sys"@);
        assert(text::starts(rel, "sys"@));
    }
    assert(trim_start_matches(t, "/sys"@) == t);
    assert(trim_start_matches(long, "/sys"@) == t);
    if text::starts(rel, "/sys"@) {
        assert(rel[0] == rel.take(4)[0]);
    }
    lemma_slashes(rel);
}

/// Where the host's root is the exporter's own, a path names itself, unless it
/// has slashes to spare at its start.
pub proof fn own_root_is_no_prefix(path: Seq<char>)
    requires
        path.len() > 1 && path[0] == '/' ==> path[1] != '/',
    ensures
        rooted("/"@, path) == path,
{
    reveal_strlit("/");
    if path.len() > 0 && path[0] == '/' {
        text::lemma_run(path, slash(), 1);
        assert("/"@ + path.skip(1) =~= path);
        assert("/"@ =~= path.take(1));
    }
}

/// A path beneath a root is the two with one slash between them, whether the root
/// ends in one or not. No path beneath it is the root itself.
pub proof fn roots_are_joined_by_one_slash(root: Seq<char>, rel: Seq<char>)
    requires
        root.len() > 0,
        root.last() != '/',
        rel.len() > 0,
    ensures
        joined(root, rel) == root + seq!['/'] + rel,
        joined(root + seq!['/'], rel) == root + seq!['/'] + rel,
        joined(root, seq![]) == root,
        joined(seq![], rel) == rel,
{
    assert(root.push('/') + rel =~= root + seq!['/'] + rel);
    assert(Seq::<char>::empty() + rel =~= rel);
}

/// An absolute path of the host is looked up beneath the host's root, however
/// many slashes it starts with; the host's root itself is that root. A path that
/// is not absolute stays as it is.
pub proof fn host_paths_are_beneath_the_root(
    root: Seq<char>,
    slashes: Seq<char>,
    rest: Seq<char>,
)
    requires
        root.len() > 0,
        root.last() != '/',
        slashes.len() > 0,
        forall|i: int| 0 <= i < slashes.len() ==> #[trigger] slashes[i] == '/',
        rest.len() == 0 || rest[0] != '/',
    ensures
        rest.len() > 0 ==> rooted(root, slashes + rest) == root + seq!['/'] + rest,
        rest.len() == 0 ==> rooted(root, slashes + rest) == root,
        rooted(root, rest) == rest,
{
    let path = slashes + rest;
    let n = slashes.len() as int;
    assert(path[0] == slashes[0]);
    assert forall|j: int| 0 <= j < n implies slash()(#[trigger] path[j]) by {
        assert(path[j] == slashes[j]);
    }
    if rest.len() > 0 {
        assert(path[n] == rest[0]);
        roots_are_joined_by_one_slash(root, rest);
    }
    text::lemma_run(path, slash(), n);
    assert(path.skip(n) =~= rest);
}

/// `/proc` alone is the mount point itself, and a name that merely starts like it
/// is a name beneath the mount point like any other.
pub proof fn proc_is_a_component_of_its_own(cfg: Config, rest: Seq<char>)
    requires
        rest.len() > 0,
        rest[0] != '/',
    ensures
        cfg.proc_path_of("/proc"@) == cfg.procfs@,
        cfg.proc_path_of("/proc"@ + rest) == joined(cfg.procfs@, "proc"@ + rest),
{
    reveal_strlit("/proc");
    reveal_strlit("proc");
    let whole = "/proc"@;
    let none = whole.skip(5);
    assert(whole.take(5) =~= whole);
    assert(none =~= seq![]);
    text::lemma_run(none, slash(), 0);
    assert(none.skip(0) =~= none);
    let name = "/proc"@ + rest;
    assert(name[5] == rest[0]);
    assert(!is_under_proc(name));
    assert(name[0] == '/' && name[1] == 'p');
    text::lemma_run(name, slash(), 1);
    assert(name.skip(1) =~= "proc"@ + rest);
}

} // verus!
