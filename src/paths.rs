use vstd::prelude::*;
use vstd::string::StrSliceExecFns;

verus! {

/// `p` lies under `base` (or is `base`), component by component: `base` is a
/// prefix of `p` that ends at a separator of `p` or at its end. (For paths
/// without doubled or trailing separators, as canonical paths are.)
pub open spec fn path_under(p: Seq<char>, base: Seq<char>) -> bool {
    &&& base.len() <= p.len()
    &&& p.subrange(0, base.len() as int) == base
    &&& (p.len() == base.len() || (base.len() > 0 && base.last() == '/') || p[base.len() as int]
        == '/')
}

/// The root of the process-information pseudo filesystem.
pub open spec fn proc_root() -> Seq<char> {
    seq!['/', 'p', 'r', 'o', 'c']
}

/// Whether `p` lies under `base`, in the sense of `path_under`.
pub fn path_starts_with(p: &str, base: &str) -> (r: bool)
    ensures
        r == path_under(p@, base@),
{
    let pl = p.unicode_len();
    let bl = base.unicode_len();
    if bl > pl {
        return false;
    }
    let mut i: usize = 0;
    while i < bl
        invariant
            bl == base@.len(),
            pl == p@.len(),
            bl <= pl,
            i <= bl,
            forall|k: int| 0 <= k < i ==> p@[k] == base@[k],
        decreases bl - i,
    {
        if p.get_char(i) != base.get_char(i) {
            proof {
                assert(p@.subrange(0, bl as int)[i as int] != base@[i as int]);
            }
            return false;
        }
        i = i + 1;
    }
    assert(p@.subrange(0, bl as int) =~= base@);
    if pl == bl {
        return true;
    }
    if bl > 0 && base.get_char(bl - 1) == '/' {
        return true;
    }
    p.get_char(bl) == '/'
}

/// Whether two paths are the same text.
pub fn same_path(a: &str, b: &str) -> (r: bool)
    ensures
        r == (a@ == b@),
{
    if a.unicode_len() != b.unicode_len() {
        return false;
    }
    let r = path_starts_with(a, b);
    proof {
        if r {
            assert(a@ =~= b@);
        }
        if a@ == b@ {
            assert(a@.subrange(0, b@.len() as int) =~= b@);
        }
    }
    r
}

/// Whether `p` lies under `/proc`, which no scan enters.
pub fn is_proc_path(p: &str) -> (r: bool)
    ensures
        r == path_under(p@, proc_root()),
{
    let root = "/proc";
    proof {
        reveal_strlit("/proc");
        assert(root@ =~= proc_root());
    }
    path_starts_with(p, root)
}

/// Position of the last `/` of `p` before position `i`, or -1.
pub open spec fn last_slash(p: Seq<char>, i: int) -> int
    decreases i,
{
    if i <= 0 {
        -1
    } else if p[i - 1] == '/' {
        i - 1
    } else {
        last_slash(p, i - 1)
    }
}

/// The parent directory of `p` (for paths without a trailing separator):
/// none for the root and the empty path, the root for a top-level entry,
/// the empty path for a relative name of one component.
pub open spec fn parent_of(p: Seq<char>) -> Option<Seq<char>> {
    let k = last_slash(p, p.len() as int);
    if p.len() == 0 || p == seq!['/'] {
        None
    } else if k < 0 {
        Some(Seq::empty())
    } else if k == 0 {
        Some(seq!['/'])
    } else {
        Some(p.subrange(0, k))
    }
}

/// The parent directory of `p`, in the sense of `parent_of`.
pub fn parent_path(p: &str) -> (r: Option<String>)
    ensures
        match r {
            Some(s) => parent_of(p@) == Some(s@),
            None => parent_of(p@).is_none(),
        },
{
    let n = p.unicode_len();
    let root = "/";
    proof {
        reveal_strlit("/");
    }
    if n == 0 {
        return None;
    }
    if n == 1 && p.get_char(0) == '/' {
        assert(p@ =~= seq!['/']);
        return None;
    }
    assert(p@ != seq!['/']) by {
        if p@ == seq!['/'] {
            assert(p@[0] == '/');
        }
    }
    let mut i: usize = n;
    while i > 0 && p.get_char(i - 1) != '/'
        invariant
            n == p@.len(),
            i <= n,
            last_slash(p@, n as int) == last_slash(p@, i as int),
        decreases i,
    {
        i = i - 1;
    }
    if i == 0 {
        return Some(String::new());
    }
    if i == 1 {
        let r = String::from_str(root);
        assert(r@ =~= seq!['/']);
        return Some(r);
    }
    Some(String::from_str(p.substring_char(0, i - 1)))
}

/// The mount point of entry `i` (a `(device, mount point)` pair) holds `p`.
pub open spec fn mount_holds(mounts: Seq<(String, String)>, p: Seq<char>, i: int) -> bool {
    path_under(p, mounts[i].1@)
}

/// Entry `i` has the longest mount point that holds `p` (the first such, on
/// equal lengths).
pub open spec fn is_best_mount(mounts: Seq<(String, String)>, p: Seq<char>, i: int) -> bool {
    &&& 0 <= i < mounts.len()
    &&& mount_holds(mounts, p, i)
    &&& forall|j: int|
        0 <= j < mounts.len() && #[trigger] mount_holds(mounts, p, j) ==> mounts[j].1@.len() <= mounts[i].1@.len()
    &&& forall|j: int|
        0 <= j < i && #[trigger] mount_holds(mounts, p, j) ==> mounts[j].1@.len() < mounts[i].1@.len()
}

/// The device whose mount point is the longest one that holds `p`, among
/// `(device, mount point)` entries; none if no mount point holds it.
pub fn device_for_path(mounts: &Vec<(String, String)>, p: &str) -> (r: Option<String>)
    ensures
        match r {
            Some(d) => exists|i: int| is_best_mount(mounts@, p@, i) && d@ == #[trigger] mounts@[i].0@,
            None => forall|i: int| 0 <= i < mounts@.len() ==> !#[trigger] mount_holds(mounts@, p@, i),
        },
{
    let mut best: Option<usize> = None;
    let mut k: usize = 0;
    while k < mounts.len()
        invariant
            k <= mounts@.len(),
            match best {
                Some(b) => b < k && mount_holds(mounts@, p@, b as int) && (forall|j: int|
                    0 <= j < k && #[trigger] mount_holds(mounts@, p@, j) ==> mounts@[j].1@.len()
                        <= mounts@[b as int].1@.len()) && (forall|j: int|
                    0 <= j < b && #[trigger] mount_holds(mounts@, p@, j) ==> mounts@[j].1@.len()
                        < mounts@[b as int].1@.len()),
                None => forall|j: int| 0 <= j < k ==> !#[trigger] mount_holds(mounts@, p@, j),
            },
        decreases mounts@.len() - k,
    {
        let mnt = mounts[k].1.as_str();
        if path_starts_with(p, mnt) {
            let len = mnt.unicode_len();
            match best {
                Some(b) => {
                    if len > mounts[b].1.as_str().unicode_len() {
                        best = Some(k);
                    }
                },
                None => {
                    best = Some(k);
                },
            }
        }
        k = k + 1;
    }
    match best {
        Some(b) => {
            let d = mounts[b].0.clone();
            assert(is_best_mount(mounts@, p@, b as int));
            assert(d@ == mounts@[b as int].0@);
            Some(d)
        },
        None => None,
    }
}

} // verus!
