use vstd::prelude::*;
use vstd::string::{StrSliceExecFns, StringExecFns};

verus! {

/// The escape of a mount-table field that starts at a backslash followed by
/// `a`, `b`, `c`: the octal codes of space, tab, newline and backslash stand
/// for those characters; any other three characters stay as they are.
pub open spec fn unescaped_triple(a: char, b: char, c: char) -> Seq<char> {
    if a == '0' && b == '4' && c == '0' {
        seq![' ']
    } else if a == '0' && b == '1' && c == '1' {
        seq!['\t']
    } else if a == '0' && b == '1' && c == '2' {
        seq!['\n']
    } else if a == '1' && b == '3' && c == '4' {
        seq!['\\']
    } else {
        seq!['\\', a, b, c]
    }
}

/// A field of the mount table with its octal escapes decoded. A backslash
/// followed by fewer than three characters ends the field as a lone
/// backslash.
pub open spec fn unescaped(s: Seq<char>) -> Seq<char>
    decreases s.len(),
{
    if s.len() == 0 {
        Seq::empty()
    } else if s[0] == '\\' {
        if s.len() >= 4 {
            unescaped_triple(s[1], s[2], s[3]) + unescaped(s.subrange(4, s.len() as int))
        } else {
            seq!['\\']
        }
    } else {
        seq![s[0]] + unescaped(s.subrange(1, s.len() as int))
    }
}

fn triple_str(a: char, b: char, c: char) -> (r: Option<&'static str>)
    ensures
        match r {
            Some(t) => t@ == unescaped_triple(a, b, c),
            None => unescaped_triple(a, b, c) == seq!['\\', a, b, c],
        },
{
    proof {
        reveal_strlit(" ");
        reveal_strlit("\t");
        reveal_strlit("\n");
        reveal_strlit("\\");
    }
    if a == '0' && b == '4' && c == '0' {
        let t = " ";
        assert(t@ =~= seq![' ']);
        Some(t)
    } else if a == '0' && b == '1' && c == '1' {
        let t = "\t";
        assert(t@ =~= seq!['\t']);
        Some(t)
    } else if a == '0' && b == '1' && c == '2' {
        let t = "\n";
        assert(t@ =~= seq!['\n']);
        Some(t)
    } else if a == '1' && b == '3' && c == '4' {
        let t = "\\";
        assert(t@ =~= seq!['\\']);
        Some(t)
    } else {
        None
    }
}

/// Decodes the octal escapes (`\040`, `\011`, `\012`, `\134`) of a field of
/// the mount table.
pub fn unescape_mount_field(s: &str) -> (out: String)
    ensures
        out@ == unescaped(s@),
{
    let n = s.unicode_len();
    let mut out = String::new();
    let mut i: usize = 0;
    proof {
        reveal_strlit("\\");
        assert(s@.subrange(0, n as int) =~= s@);
        assert(out@ + unescaped(s@) =~= unescaped(s@));
    }
    while i < n
        invariant
            n == s@.len(),
            i <= n,
            unescaped(s@) == out@ + unescaped(s@.subrange(i as int, n as int)),
        decreases n - i,
    {
        let ghost rest = s@.subrange(i as int, n as int);
        let ch = s.get_char(i);
        if ch == '\\' {
            if n - i >= 4 {
                let a = s.get_char(i + 1);
                let b = s.get_char(i + 2);
                let c = s.get_char(i + 3);
                assert(rest.subrange(4, rest.len() as int) =~= s@.subrange(i + 4, n as int));
                match triple_str(a, b, c) {
                    Some(t) => {
                        out.append(t);
                    },
                    None => {
                        out.append(s.substring_char(i, i + 4));
                        assert(s@.subrange(i as int, i + 4) =~= seq!['\\', a, b, c]);
                    },
                }
                i = i + 4;
                assert(unescaped(s@) =~= out@ + unescaped(s@.subrange(i as int, n as int)));
            } else {
                let bs = "\\";
                proof {
                    reveal_strlit("\\");
                }
                assert(bs@ =~= seq!['\\']);
                assert(unescaped(rest) == seq!['\\']);
                out.append(bs);
                assert(unescaped(s@) =~= out@);
                return out;
            }
        } else {
            out.append(s.substring_char(i, i + 1));
            assert(rest.subrange(1, rest.len() as int) =~= s@.subrange(i + 1, n as int));
            assert(s@.subrange(i as int, i + 1) =~= seq![ch]);
            i = i + 1;
            assert(unescaped(s@) =~= out@ + unescaped(s@.subrange(i as int, n as int)));
        }
    }
    assert(s@.subrange(i as int, n as int) =~= Seq::<char>::empty());
    assert(out@ + Seq::<char>::empty() =~= out@);
    out
}

/// `s` shortened to at most `max` characters by replacing its middle with
/// `...` (kept whole when it fits; just `...` when `max` leaves no room).
pub open spec fn truncated_middle(s: Seq<char>, max: int) -> Seq<char> {
    if s.len() <= max {
        s
    } else if max <= 3 {
        seq!['.', '.', '.']
    } else {
        let keep = (max - 3) / 2;
        s.subrange(0, keep) + seq!['.', '.', '.'] + s.subrange(s.len() - keep, s.len() as int)
    }
}

/// Shortens `s` to at most `max` characters by cutting out its middle.
pub fn truncate_middle(s: &str, max: usize) -> (out: String)
    ensures
        out@ == truncated_middle(s@, max as int),
{
    let n = s.unicode_len();
    let dots = "...";
    proof {
        reveal_strlit("...");
        assert(dots@ =~= seq!['.', '.', '.']);
    }
    if n <= max {
        return String::from_str(s);
    }
    if max <= 3 {
        return String::from_str(dots);
    }
    let keep = (max - 3) / 2;
    let head = String::from_str(s.substring_char(0, keep));
    let out = head.concat(dots);
    let out = out.concat(s.substring_char(n - keep, n));
    out
}

/// The label of a block `width` columns wide and `height` lines high: the
/// name, cut to fit with a trailing `...` if need be, a space and the size;
/// none when the block is too small for the size and three characters of
/// name.
pub open spec fn rect_label(name: Seq<char>, size: Seq<char>, width: int, height: int) -> Option<Seq<char>> {
    if height < 1 || width < 4 || size.len() + 1 >= width {
        None
    } else {
        let name_max = width - size.len() - 1;
        if name_max < 3 {
            None
        } else if name.len() <= name_max {
            Some(name + seq![' '] + size)
        } else if name_max == 3 {
            None
        } else {
            Some(name.subrange(0, name_max - 3) + seq!['.', '.', '.', ' '] + size)
        }
    }
}

/// The label for a block of `width` by `height` cells (see `rect_label`).
pub fn label_for_rect(name: &str, size: &str, width: u16, height: u16) -> (r: Option<String>)
    ensures
        match r {
            Some(l) => rect_label(name@, size@, width as int, height as int) == Some(l@),
            None => rect_label(name@, size@, width as int, height as int).is_none(),
        },
{
    let max = width as usize;
    let size_len = size.unicode_len();
    if height < 1 || width < 4 || size_len >= max - 1 {
        return None;
    }
    let name_max = max - size_len - 1;
    if name_max < 3 {
        return None;
    }
    let name_len = name.unicode_len();
    let sep = " ";
    let cut = "... ";
    proof {
        reveal_strlit(" ");
        reveal_strlit("... ");
        assert(sep@ =~= seq![' ']);
        assert(cut@ =~= seq!['.', '.', '.', ' ']);
    }
    if name_len <= name_max {
        let l = String::from_str(name).concat(sep).concat(size);
        return Some(l);
    }
    if name_max == 3 {
        return None;
    }
    let l = String::from_str(name.substring_char(0, name_max - 3)).concat(cut).concat(size);
    Some(l)
}

} // verus!
