use vstd::prelude::*;
use vstd::string::StrSliceExecFns;

verus! {

/// A decimal digit.
pub open spec fn is_digit(c: char) -> bool {
    '0' <= c <= '9'
}

/// An ASCII white-space character. (Only these are trimmed around the
/// number; `du` prints no other white space.)
pub open spec fn is_blank(c: char) -> bool {
    c == ' ' || c == '\t' || c == '\n' || c == '\r' || c == '\x0b' || c == '\x0c'
}

/// Value of a string of decimal digits.
pub open spec fn digits_value(s: Seq<char>) -> nat
    decreases s.len(),
{
    if s.len() == 0 {
        0
    } else {
        digits_value(s.drop_last()) * 10 + (s.last() as nat - '0' as nat) as nat
    }
}

/// Length of the first field of `du` output: up to the first tab or line
/// break.
pub open spec fn field_end(s: Seq<char>, i: int) -> int
    decreases s.len() - i,
{
    if i >= s.len() || i < 0 {
        s.len() as int
    } else if s[i] == '\t' || s[i] == '\n' {
        i
    } else {
        field_end(s, i + 1)
    }
}

/// First position from `i` on that is not blank (or `hi`).
pub open spec fn skip_blank(s: Seq<char>, i: int, hi: int) -> int
    decreases hi - i,
{
    if i >= hi {
        hi
    } else if is_blank(s[i]) {
        skip_blank(s, i + 1, hi)
    } else {
        i
    }
}

/// Position after the last non-blank character before `hi` (or `lo`).
pub open spec fn trim_end(s: Seq<char>, lo: int, hi: int) -> int
    decreases hi - lo,
{
    if hi <= lo {
        lo
    } else if is_blank(s[hi - 1]) {
        trim_end(s, lo, hi - 1)
    } else {
        hi
    }
}

/// An unsigned decimal number, with an optional leading `+`, that fits in
/// 64 bits.
pub open spec fn parsed_u64(t: Seq<char>) -> Option<u64> {
    parsed_digits(unsigned_part(t))
}

/// `t` without its leading `+`, if any.
pub open spec fn unsigned_part(t: Seq<char>) -> Seq<char> {
    if t.len() > 0 && t[0] == '+' {
        t.subrange(1, t.len() as int)
    } else {
        t
    }
}

/// A non-empty string of decimal digits whose value fits in 64 bits.
pub open spec fn parsed_digits(d: Seq<char>) -> Option<u64> {
    if d.len() > 0 && (forall|k: int| 0 <= k < d.len() ==> is_digit(#[trigger] d[k])) && digits_value(d)
        <= u64::MAX {
        Some(digits_value(d) as u64)
    } else {
        None
    }
}

/// Bytes reported by `du -k -s` output `s`: the first field (kibibytes,
/// blanks trimmed) times 1024, staying at the largest value; zero when the
/// field is not a number.
pub open spec fn du_bytes(s: Seq<char>) -> u64 {
    let e = field_end(s, 0);
    let a = skip_blank(s, 0, e);
    let b = trim_end(s, a, e);
    match parsed_u64(s.subrange(a, b)) {
        Some(v) => if v * 1024 <= u64::MAX {
            (v * 1024) as u64
        } else {
            u64::MAX
        },
        None => 0,
    }
}

fn blank(c: char) -> (r: bool)
    ensures
        r == is_blank(c),
{
    c == ' ' || c == '\t' || c == '\n' || c == '\r' || c == '\x0b' || c == '\x0c'
}

/// The number in `s[lo..hi]`, in the sense of `parsed_u64`.
fn parse_u64(s: &str, lo: usize, hi: usize) -> (r: Option<u64>)
    requires
        lo <= hi <= s@.len(),
    ensures
        r == parsed_u64(s@.subrange(lo as int, hi as int)),
{
    let ghost t = s@.subrange(lo as int, hi as int);
    let mut i = lo;
    if i < hi && s.get_char(i) == '+' {
        i = i + 1;
    }
    let ghost d = s@.subrange(i as int, hi as int);
    assert(d =~= unsigned_part(t));
    if i == hi {
        return None;
    }
    let start = i;
    let mut v: u64 = 0;
    while i < hi
        invariant
            lo <= start <= i <= hi <= s@.len(),
            start < hi,
            d == s@.subrange(start as int, hi as int),
            t == s@.subrange(lo as int, hi as int),
            d == unsigned_part(t),
            forall|k: int| start <= k < i ==> is_digit(#[trigger] s@[k]),
            v == digits_value(s@.subrange(start as int, i as int)),
        decreases hi - i,
    {
        let c = s.get_char(i);
        let ghost pre = s@.subrange(start as int, i as int);
        let ghost next = s@.subrange(start as int, i + 1);
        assert(next.drop_last() =~= pre);
        if !('0' <= c && c <= '9') {
            assert(d[i - start] == c);
            assert(!is_digit(d[i - start]));
            assert(!(forall|k: int| 0 <= k < d.len() ==> is_digit(#[trigger] d[k])));
            assert(parsed_u64(t).is_none());
            return None;
        }
        let dv = (c as u32 - '0' as u32) as u64;
        if v > (u64::MAX - dv) / 10 {
            proof {
                assert(digits_value(next) == v * 10 + dv);
                assert(v * 10 + dv > u64::MAX) by (nonlinear_arith)
                    requires
                        v > (u64::MAX - dv) / 10,
                        dv <= 9,
                ;
                assert(d.subrange(0, (i + 1 - start) as int) =~= next);
                if forall|j: int| 0 <= j < d.len() ==> is_digit(#[trigger] d[j]) {
                    lemma_digits_value_prefix(d, (i + 1 - start) as int);
                    assert(digits_value(d) > u64::MAX);
                }
                assert(parsed_u64(t).is_none());
            }
            return None;
        }
        assert(v * 10 + dv <= u64::MAX) by (nonlinear_arith)
            requires
                v <= (u64::MAX - dv) / 10,
                dv <= 9,
        ;
        v = v * 10 + dv;
        i = i + 1;
    }
    assert(s@.subrange(start as int, i as int) =~= d);
    Some(v)
}

/// A prefix of a digit string is worth no more than the whole.
proof fn lemma_digits_value_prefix(d: Seq<char>, k: int)
    requires
        0 <= k <= d.len(),
        forall|j: int| 0 <= j < d.len() ==> is_digit(#[trigger] d[j]),
    ensures
        digits_value(d.subrange(0, k)) <= digits_value(d),
    decreases d.len() - k,
{
    if k < d.len() {
        lemma_digits_value_prefix(d, k + 1);
        assert(d.subrange(0, k + 1).drop_last() =~= d.subrange(0, k));
        assert(is_digit(d[k]));
        let p = digits_value(d.subrange(0, k));
        let q = digits_value(d.subrange(0, k + 1));
        assert(q == p * 10 + (d[k] as nat - '0' as nat));
        assert(p <= q) by (nonlinear_arith)
            requires
                q == p * 10 + (d[k] as nat - '0' as nat),
                p >= 0,
                d[k] as nat >= '0' as nat,
        ;
    } else {
        assert(d.subrange(0, k) =~= d);
    }
}

/// The size in bytes that `du -k -s` printed (see `du_bytes`).
pub fn parse_du_output(s: &str) -> (bytes: u64)
    ensures
        bytes == du_bytes(s@),
{
    let n = s.unicode_len();
    let mut e: usize = 0;
    while e < n && s.get_char(e) != '\t' && s.get_char(e) != '\n'
        invariant
            n == s@.len(),
            e <= n,
            field_end(s@, 0) == field_end(s@, e as int),
        decreases n - e,
    {
        e = e + 1;
    }
    let mut a: usize = 0;
    while a < e && blank(s.get_char(a))
        invariant
            n == s@.len(),
            e <= n,
            a <= e,
            skip_blank(s@, 0, e as int) == skip_blank(s@, a as int, e as int),
        decreases e - a,
    {
        a = a + 1;
    }
    let mut b: usize = e;
    while b > a && blank(s.get_char(b - 1))
        invariant
            n == s@.len(),
            a <= b <= e <= n,
            trim_end(s@, a as int, e as int) == trim_end(s@, a as int, b as int),
        decreases b,
    {
        b = b - 1;
    }
    match parse_u64(s, a, b) {
        Some(v) => if v <= u64::MAX / 1024 {
            v * 1024
        } else {
            u64::MAX
        },
        None => 0,
    }
}

} // verus!
