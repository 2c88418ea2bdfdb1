use vstd::prelude::*;
use vstd::multiset::Multiset;
use vstd::seq_lib::{to_multiset_insert, to_multiset_remove, to_multiset_len};
use vstd::string::StringExecFns;
use crate::paths::{is_proc_path, path_under, proc_root};

verus! {

/// What an entry of a scan result stands for.
#[derive(Debug, Clone, Copy, PartialEq, Eq, Structural)]
pub enum ItemKind {
    Dir,
    File,
    FilesAggregate,
}

/// One entry of a scan result.
#[derive(Debug, Clone)]
pub struct Item {
    pub name: String,
    pub path: String,
    pub size: u64,
    pub kind: ItemKind,
    pub count: u64,
}

/// Directory-aggregate (subdirectories sized one by one, files folded into
/// one entry) or file listing (the regular files one by one).
#[derive(Debug, Clone, Copy, PartialEq, Eq, Structural, Hash)]
pub enum ViewMode {
    Dirs,
    Files,
}

/// What a scan reports while it runs, and once at its end.
#[derive(Debug)]
pub enum ScanMsg {
    Progress { scanned: u64, errors: u64 },
    Done { items: Vec<Item>, total: u64, errors: u64 },
    Error(String),
}

/// One directory entry as the enumeration saw it.
#[derive(Debug)]
pub enum Entry {
    /// The entry could not be read.
    Unreadable,
    /// The entry at `path` was read but its type could not be: an error,
    /// unless it lies under `/proc`, which is skipped first.
    Untyped { path: String },
    /// A symbolic link: never followed, sized or listed.
    Symlink,
    /// Neither a regular file nor a directory.
    Other,
    /// A regular file; `size` is `None` when its metadata could not be read.
    File { name: String, path: String, size: Option<u64> },
    Dir { name: String, path: String },
}

/// Entries counted between two progress messages.
pub const PROGRESS_EVERY: u64 = 2000;

/// Adds one, staying at the largest value.
pub open spec fn inc(x: u64) -> u64 {
    if x < u64::MAX {
        (x + 1) as u64
    } else {
        x
    }
}

/// Sum, staying at the largest value.
pub open spec fn sat_add(a: u64, b: u64) -> u64 {
    if a + b <= u64::MAX {
        (a + b) as u64
    } else {
        u64::MAX
    }
}

/// The character of decimal digit `d`.
pub open spec fn digit_char(d: int) -> char {
    if d == 0 {
        '0'
    } else if d == 1 {
        '1'
    } else if d == 2 {
        '2'
    } else if d == 3 {
        '3'
    } else if d == 4 {
        '4'
    } else if d == 5 {
        '5'
    } else if d == 6 {
        '6'
    } else if d == 7 {
        '7'
    } else if d == 8 {
        '8'
    } else {
        '9'
    }
}

/// Decimal digits of `n`, without leading zeros.
pub open spec fn decimal(n: nat) -> Seq<char>
    decreases n,
{
    if n < 10 {
        seq![digit_char(n as int)]
    } else {
        decimal(n / 10) + seq![digit_char((n % 10) as int)]
    }
}

/// Sum of the sizes of `items`.
pub open spec fn size_sum(items: Seq<Item>) -> int
    decreases items.len(),
{
    if items.len() == 0 {
        0
    } else {
        size_sum(items.drop_last()) + items.last().size
    }
}

/// Sizes never grow along `items`.
pub open spec fn sorted_by_size(items: Seq<Item>) -> bool {
    forall|i: int, j: int| 0 <= i < j < items.len() ==> items[i].size >= items[j].size
}

/// The name of the entry that stands for `count` files.
pub open spec fn files_label(count: u64) -> Seq<char> {
    seq!['(', 'F', 'i', 'l', 'e', 's', ':', ' '] + decimal(count as nat) + seq![')']
}

fn digit_str(d: u64) -> (s: &'static str)
    requires
        d < 10,
    ensures
        s@ == seq![digit_char(d as int)],
{
    proof {
        reveal_strlit("0");
        reveal_strlit("1");
        reveal_strlit("2");
        reveal_strlit("3");
        reveal_strlit("4");
        reveal_strlit("5");
        reveal_strlit("6");
        reveal_strlit("7");
        reveal_strlit("8");
        reveal_strlit("9");
    }
    let s = if d == 0 {
        "0"
    } else if d == 1 {
        "1"
    } else if d == 2 {
        "2"
    } else if d == 3 {
        "3"
    } else if d == 4 {
        "4"
    } else if d == 5 {
        "5"
    } else if d == 6 {
        "6"
    } else if d == 7 {
        "7"
    } else if d == 8 {
        "8"
    } else {
        "9"
    };
    assert(s@ =~= seq![digit_char(d as int)]);
    s
}

/// `n` written in decimal.
pub fn decimal_string(n: u64) -> (s: String)
    ensures
        s@ == decimal(n as nat),
{
    let mut m = n;
    let mut s = String::new();
    loop
        invariant
            decimal(n as nat) == decimal(m as nat) + s@,
        decreases m,
    {
        if m < 10 {
            let d = String::from_str(digit_str(m));
            let r = d.concat(s.as_str());
            assert(r@ =~= decimal(n as nat));
            return r;
        }
        let d = String::from_str(digit_str(m % 10));
        s = d.concat(s.as_str());
        assert(decimal(m as nat) == decimal((m / 10) as nat) + seq![digit_char((m % 10) as int)]);
        assert(decimal(n as nat) =~= decimal((m / 10) as nat) + s@);
        m = m / 10;
    }
}

/// `"(Files: N)"` for `N` files.
pub fn files_label_string(count: u64) -> (s: String)
    ensures
        s@ == files_label(count),
{
    proof {
        reveal_strlit("(Files: ");
        reveal_strlit(")");
    }
    let s = String::from_str("(Files: ");
    let d = decimal_string(count);
    let s = s.concat(d.as_str());
    let s = s.concat(")");
    assert(s@ =~= files_label(count));
    s
}

/// The items ordered by size, largest first; items of equal size keep their
/// order.
pub fn sort_by_size(items: Vec<Item>) -> (out: Vec<Item>)
    ensures
        out@.to_multiset() == items@.to_multiset(),
        sorted_by_size(out@),
{
    broadcast use vstd::multiset::group_multiset_axioms;

    let ghost orig = items@;
    let mut rest = items;
    let mut out: Vec<Item> = Vec::new();
    proof {
        to_multiset_len(out@);
        assert(out@.to_multiset() =~= Multiset::empty());
        assert(out@.to_multiset().add(rest@.to_multiset()) =~= orig.to_multiset());
    }
    while rest.len() > 0
        invariant
            out@.to_multiset().add(rest@.to_multiset()) == orig.to_multiset(),
            sorted_by_size(out@),
        decreases rest@.len(),
    {
        let ghost before_rest = rest@;
        let it = rest.remove(0);
        proof {
            to_multiset_remove(before_rest, 0);
        }
        let mut i: usize = 0;
        while i < out.len() && out[i].size >= it.size
            invariant
                i <= out@.len(),
                forall|k: int| 0 <= k < i ==> out@[k].size >= it.size,
            decreases out@.len() - i,
        {
            i = i + 1;
        }
        let ghost before = out@;
        proof {
            to_multiset_insert(before, i as int, it);
        }
        out.insert(i, it);
        proof {
            assert(before_rest.to_multiset().count(before_rest[0]) > 0) by {
                to_multiset_len(before_rest);
                assert(before_rest.contains(before_rest[0]));
                before_rest.to_multiset_ensures();
            }
            assert(out@.to_multiset().add(rest@.to_multiset()) =~= orig.to_multiset());
            assert forall|a: int, b: int| 0 <= a < b < out@.len() implies out@[a].size >= out@[b].size by {
                if b < i {
                    assert(out@[a] == before[a] && out@[b] == before[b]);
                } else if b == i {
                    assert(out@[a] == before[a]);
                } else if a == i {
                    assert(out@[b] == before[b - 1]);
                    assert(before[i as int].size < out@[i as int].size);
                } else if a < i {
                    assert(out@[a] == before[a] && out@[b] == before[b - 1]);
                } else {
                    assert(out@[a] == before[a - 1] && out@[b] == before[b - 1]);
                }
            }
        }
    }
    proof {
        to_multiset_len(rest@);
        assert(rest@.to_multiset() =~= Multiset::empty());
        assert(out@.to_multiset() =~= out@.to_multiset().add(rest@.to_multiset()));
    }
    out
}

/// Sum of the sizes, staying at the largest value on overflow.
pub fn total_size(items: &Vec<Item>) -> (total: u64)
    ensures
        total == (if size_sum(items@) <= u64::MAX { size_sum(items@) } else { u64::MAX as int }),
{
    let mut total: u64 = 0;
    let mut i: usize = 0;
    while i < items.len()
        invariant
            i <= items@.len(),
            total == (if size_sum(items@.subrange(0, i as int)) <= u64::MAX {
                size_sum(items@.subrange(0, i as int))
            } else {
                u64::MAX as int
            }),
            size_sum(items@.subrange(0, i as int)) >= 0,
        decreases items@.len() - i,
    {
        assert(items@.subrange(0, i + 1).drop_last() =~= items@.subrange(0, i as int));
        total = total.saturating_add(items[i].size);
        i = i + 1;
    }
    assert(items@.subrange(0, i as int) =~= items@);
    total
}

/// The end of a scan: the items largest first, with their total.
pub fn finish_items(items: Vec<Item>, errors: u64) -> (msg: ScanMsg)
    ensures
        match msg {
            ScanMsg::Done { items: out, total, errors: e } => {
                &&& out@.to_multiset() == items@.to_multiset()
                &&& sorted_by_size(out@)
                &&& total == (if size_sum(items@) <= u64::MAX { size_sum(items@) } else { u64::MAX as int })
                &&& e == errors
            },
            _ => false,
        },
{
    let total = total_size(&items);
    let sorted = sort_by_size(items);
    ScanMsg::Done { items: sorted, total, errors }
}

/// The error with which a scan of `path` ends at once, if it lies under
/// `/proc`.
pub fn excluded_root_error(path: &str) -> (r: Option<String>)
    ensures
        match r {
            Some(m) => path_under(path@, proc_root()) && m@ == "/proc is excluded"@,
            None => !path_under(path@, proc_root()),
        },
{
    if is_proc_path(path) {
        Some(String::from_str("/proc is excluded"))
    } else {
        None
    }
}

} // verus!
