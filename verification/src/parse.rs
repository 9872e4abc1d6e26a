//! Parsing of the `"X,Y WxH"` region string into a rectangle, with the exact
//! acceptance rule: one space splits coordinates from dimensions, one comma
//! splits the signed coordinates, one `x` splits the unsigned dimensions, and
//! every field must be a decimal number in range for its type.

use vstd::prelude::*;
use vstd::string::StringSliceAdditionalSpecFns;

verus! {

pub const SPACE: u8 = 32;

pub const COMMA: u8 = 44;

pub const SEP_X: u8 = 120;

pub const PLUS: u8 = 43;

pub const MINUS: u8 = 45;

pub open spec fn is_ascii_digit(b: u8) -> bool {
    48 <= b <= 57
}

pub open spec fn all_digits(s: Seq<u8>) -> bool {
    forall|i: int| 0 <= i < s.len() ==> is_ascii_digit(#[trigger] s[i])
}

/// Value of a digit string read in base 10.
pub open spec fn digits_val(s: Seq<u8>) -> int
    decreases s.len(),
{
    if s.len() == 0 {
        0
    } else {
        digits_val(s.drop_last()) * 10 + (s.last() - 48)
    }
}

/// How many times byte `b` occurs in `s`.
pub open spec fn count_byte(s: Seq<u8>, b: u8) -> int
    decreases s.len(),
{
    if s.len() == 0 {
        0
    } else {
        count_byte(s.drop_last(), b) + if s.last() == b {
            1int
        } else {
            0int
        }
    }
}

/// Index of the first occurrence of `b` in `s` (meaningful only when one exists).
pub open spec fn first_byte_at(s: Seq<u8>, b: u8) -> int
    decreases s.len(),
{
    if s.len() == 0 {
        0
    } else if s[0] == b {
        0
    } else {
        1 + first_byte_at(s.drop_first(), b)
    }
}

/// The digits of an unsigned field, with an optional leading `+` removed.
pub open spec fn unsigned_body(s: Seq<u8>) -> Seq<u8> {
    if s.len() > 0 && s[0] == PLUS {
        s.drop_first()
    } else {
        s
    }
}

/// Does `s` parse as a `u32` (optional `+`, then digits, value in range)?
pub open spec fn parses_as_u32(s: Seq<u8>) -> bool {
    let t = unsigned_body(s);
    t.len() > 0 && all_digits(t) && digits_val(t) <= u32::MAX
}

pub open spec fn u32_value(s: Seq<u8>) -> int {
    digits_val(unsigned_body(s))
}

pub open spec fn signed_sign(s: Seq<u8>) -> int {
    if s.len() > 0 && s[0] == MINUS {
        -1
    } else {
        1
    }
}

/// The digits of a signed field, with an optional leading sign removed.
pub open spec fn signed_body(s: Seq<u8>) -> Seq<u8> {
    if s.len() > 0 && (s[0] == PLUS || s[0] == MINUS) {
        s.drop_first()
    } else {
        s
    }
}

/// Does `s` parse as an `i32` (optional sign, then digits, value in range)?
pub open spec fn parses_as_i32(s: Seq<u8>) -> bool {
    let t = signed_body(s);
    t.len() > 0 && all_digits(t) && i32::MIN <= signed_sign(s) * digits_val(t) <= i32::MAX
}

pub open spec fn i32_value(s: Seq<u8>) -> int {
    signed_sign(s) * digits_val(signed_body(s))
}

/// The four fields of a region string, split at the first space, comma and `x`.
pub open spec fn geometry_fields(s: Seq<u8>) -> (Seq<u8>, Seq<u8>, Seq<u8>, Seq<u8>) {
    let i = first_byte_at(s, SPACE);
    let coords = s.subrange(0, i);
    let dims = s.subrange(i + 1, s.len() as int);
    let j = first_byte_at(coords, COMMA);
    let k = first_byte_at(dims, SEP_X);
    (
        coords.subrange(0, j),
        coords.subrange(j + 1, coords.len() as int),
        dims.subrange(0, k),
        dims.subrange(k + 1, dims.len() as int),
    )
}

/// Is `s` a well-formed region string?
pub open spec fn geometry_parses(s: Seq<u8>) -> bool {
    count_byte(s, SPACE) == 1 && {
        let i = first_byte_at(s, SPACE);
        let coords = s.subrange(0, i);
        let dims = s.subrange(i + 1, s.len() as int);
        count_byte(coords, COMMA) == 1 && count_byte(dims, SEP_X) == 1 && {
            let (fx, fy, fw, fh) = geometry_fields(s);
            parses_as_i32(fx) && parses_as_i32(fy) && parses_as_u32(fw) && parses_as_u32(fh)
        }
    }
}

/// What a well-formed region string denotes.
pub open spec fn spec_parse_geometry(s: Seq<u8>) -> Option<(int, int, int, int)> {
    if geometry_parses(s) {
        let (fx, fy, fw, fh) = geometry_fields(s);
        Some((i32_value(fx), i32_value(fy), u32_value(fw), u32_value(fh)))
    } else {
        None
    }
}

proof fn lemma_count_zero(s: Seq<u8>, b: u8)
    requires
        forall|j: int| 0 <= j < s.len() ==> s[j] != b,
    ensures
        count_byte(s, b) == 0,
    decreases s.len(),
{
    if s.len() > 0 {
        lemma_count_zero(s.drop_last(), b);
    }
}

proof fn lemma_first_byte_at(s: Seq<u8>, b: u8, i: int)
    requires
        0 <= i < s.len(),
        s[i] == b,
        forall|j: int| 0 <= j < i ==> s[j] != b,
    ensures
        first_byte_at(s, b) == i,
    decreases i,
{
    if i > 0 {
        lemma_first_byte_at(s.drop_first(), b, i - 1);
    }
}

proof fn lemma_digits_val_nonneg(s: Seq<u8>)
    requires
        all_digits(s),
    ensures
        digits_val(s) >= 0,
    decreases s.len(),
{
    if s.len() > 0 {
        lemma_digits_val_nonneg(s.drop_last());
    }
}

/// How many times `b` occurs in `s`.
fn count_occ(s: &[u8], b: u8) -> (n: usize)
    ensures
        n == count_byte(s@, b),
{
    let mut n: usize = 0;
    let mut i: usize = 0;
    while i < s.len()
        invariant
            0 <= i <= s@.len(),
            n == count_byte(s@.take(i as int), b),
            n <= i,
        decreases s@.len() - i,
    {
        if s[i] == b {
            n = n + 1;
        }
        proof {
            assert(s@.take(i + 1).drop_last() =~= s@.take(i as int));
            assert(s@.take(i + 1).last() == s@[i as int]);
        }
        i = i + 1;
    }
    proof {
        assert(s@.take(s@.len() as int) =~= s@);
    }
    n
}

/// Index of the first occurrence of `b` in `s`, if any.
fn find_byte(s: &[u8], b: u8) -> (r: Option<usize>)
    ensures
        match r {
            Some(i) => i < s@.len() && s@[i as int] == b && i == first_byte_at(s@, b) && (forall|
                j: int,
            |
                0 <= j < i ==> s@[j] != b),
            None => forall|j: int| 0 <= j < s@.len() ==> s@[j] != b,
        },
{
    let mut i: usize = 0;
    while i < s.len()
        invariant
            0 <= i <= s@.len(),
            forall|j: int| 0 <= j < i ==> s@[j] != b,
        decreases s@.len() - i,
    {
        if s[i] == b {
            proof {
                lemma_first_byte_at(s@, b, i as int);
            }
            return Some(i);
        }
        i = i + 1;
    }
    None
}

/// The bytes of `s` from `a` (inclusive) to `b` (exclusive), as an owned vector.
fn subslice_vec(s: &[u8], a: usize, b: usize) -> (v: Vec<u8>)
    requires
        a <= b <= s@.len(),
    ensures
        v@ == s@.subrange(a as int, b as int),
{
    let mut v: Vec<u8> = Vec::new();
    let mut i: usize = a;
    while i < b
        invariant
            a <= i <= b <= s@.len(),
            v@ == s@.subrange(a as int, i as int),
        decreases b - i,
    {
        v.push(s[i]);
        proof {
            assert(s@.subrange(a as int, i + 1) =~= s@.subrange(a as int, i as int).push(
                s@[i as int],
            ));
        }
        i = i + 1;
    }
    v
}

/// Parse an unsigned decimal field exactly as `u32::from_str` accepts it.
fn parse_u32_bytes(v: &[u8]) -> (r: Option<u32>)
    ensures
        r.is_some() == parses_as_u32(v@),
        r matches Some(n) ==> n == u32_value(v@),
{
    let mut start: usize = 0;
    if v.len() > 0 && v[0] == PLUS {
        start = 1;
    }
    proof {
        assert(unsigned_body(v@) =~= v@.subrange(start as int, v@.len() as int));
    }
    if start == v.len() {
        return None;
    }
    let ghost body = unsigned_body(v@);
    let mut acc: u64 = 0;
    let mut k: usize = start;
    while k < v.len()
        invariant
            start <= k <= v@.len(),
            start < v@.len(),
            body == unsigned_body(v@),
            body =~= v@.subrange(start as int, v@.len() as int),
            forall|j: int| start <= j < k ==> is_ascii_digit(#[trigger] v@[j]),
            ({
                let dv = digits_val(v@.subrange(start as int, k as int));
                &&& (dv <= u32::MAX ==> acc == dv)
                &&& (dv > u32::MAX ==> acc > u32::MAX)
            }),
            acc <= 0xFFFF_FFFF * 10 + 9,
        decreases v@.len() - k,
    {
        let ch = v[k];
        if ch < 48 || ch > 57 {
            proof {
                assert(body[k - start] == v@[k as int]);
                assert(!all_digits(body));
            }
            return None;
        }
        let d = (ch - 48) as u64;
        let ghost dv_old = digits_val(v@.subrange(start as int, k as int));
        proof {
            assert(v@.subrange(start as int, k + 1).drop_last() =~= v@.subrange(
                start as int,
                k as int,
            ));
            assert(v@.subrange(start as int, k + 1).last() == v@[k as int]);
            assert(all_digits(v@.subrange(start as int, k as int)));
            lemma_digits_val_nonneg(v@.subrange(start as int, k as int));
            assert(digits_val(v@.subrange(start as int, k + 1)) == dv_old * 10 + (v@[k as int]
                - 48));
        }
        if acc <= 0xFFFF_FFFF {
            acc = acc * 10 + d;
        }
        // Otherwise the value is already beyond range; further digits keep it there.
        k = k + 1;
    }
    proof {
        assert(v@.subrange(start as int, v@.len() as int) =~= body);
        assert(all_digits(body));
    }
    if acc > 0xFFFF_FFFF {
        return None;
    }
    Some(acc as u32)
}

/// Parse a signed decimal field exactly as `i32::from_str` accepts it.
fn parse_i32_bytes(v: &[u8]) -> (r: Option<i32>)
    ensures
        r.is_some() == parses_as_i32(v@),
        r matches Some(n) ==> n == i32_value(v@),
{
    let mut start: usize = 0;
    let mut negative: bool = false;
    if v.len() > 0 && v[0] == PLUS {
        start = 1;
    } else if v.len() > 0 && v[0] == MINUS {
        start = 1;
        negative = true;
    }
    proof {
        assert(signed_body(v@) =~= v@.subrange(start as int, v@.len() as int));
        assert(negative == (signed_sign(v@) == -1));
    }
    if start == v.len() {
        return None;
    }
    let ghost body = signed_body(v@);
    let mut acc: u64 = 0;
    let mut k: usize = start;
    while k < v.len()
        invariant
            start <= k <= v@.len(),
            start < v@.len(),
            body == signed_body(v@),
            body =~= v@.subrange(start as int, v@.len() as int),
            forall|j: int| start <= j < k ==> is_ascii_digit(#[trigger] v@[j]),
            ({
                let dv = digits_val(v@.subrange(start as int, k as int));
                &&& (dv <= 0x8000_0000 ==> acc == dv)
                &&& (dv > 0x8000_0000 ==> acc > 0x8000_0000)
            }),
            acc <= 0x8000_0000 * 10 + 9,
        decreases v@.len() - k,
    {
        let ch = v[k];
        if ch < 48 || ch > 57 {
            proof {
                assert(body[k - start] == v@[k as int]);
                assert(!all_digits(body));
            }
            return None;
        }
        let d = (ch - 48) as u64;
        let ghost dv_old = digits_val(v@.subrange(start as int, k as int));
        proof {
            assert(v@.subrange(start as int, k + 1).drop_last() =~= v@.subrange(
                start as int,
                k as int,
            ));
            assert(v@.subrange(start as int, k + 1).last() == v@[k as int]);
            assert(all_digits(v@.subrange(start as int, k as int)));
            lemma_digits_val_nonneg(v@.subrange(start as int, k as int));
            assert(digits_val(v@.subrange(start as int, k + 1)) == dv_old * 10 + (v@[k as int]
                - 48));
        }
        if acc <= 0x8000_0000 {
            acc = acc * 10 + d;
        }
        // Otherwise the magnitude is already beyond range; further digits keep it there.
        k = k + 1;
    }
    proof {
        assert(v@.subrange(start as int, v@.len() as int) =~= body);
        assert(all_digits(body));
        lemma_digits_val_nonneg(body);
    }
    if negative {
        if acc > 0x8000_0000 {
            return None;
        }
        let n: i64 = -(acc as i64);
        Some(n as i32)
    } else {
        if acc > 0x7FFF_FFFF {
            return None;
        }
        Some(acc as u32 as i32)
    }
}

/// Parse a `"X,Y WxH"` region string.
///
/// Returns the region exactly when the string is well formed; any other token
/// count or a non-numeric or out-of-range field yields `None`, never a panic.
pub fn parse_geometry(s: &str) -> (r: Option<(i32, i32, u32, u32)>)
    ensures
        ({
            let p = spec_parse_geometry(s.spec_bytes());
            match r {
                Some(t) => p matches Some(q) && t.0 == q.0 && t.1 == q.1 && t.2 == q.2 && t.3
                    == q.3,
                None => p is None,
            }
        }),
{
    let bytes = s.as_bytes();
    let cnt = count_occ(bytes, SPACE);
    if cnt != 1 {
        return None;
    }
    let i = match find_byte(bytes, SPACE) {
        Some(i) => i,
        None => {
            proof {
                lemma_count_zero(bytes@, SPACE);
            }
            return None;
        },
    };
    let total = bytes.len();
    let coords = subslice_vec(bytes, 0, i);
    let dims = subslice_vec(bytes, i + 1, total);
    let ccnt = count_occ(coords.as_slice(), COMMA);
    if ccnt != 1 {
        return None;
    }
    let j = match find_byte(coords.as_slice(), COMMA) {
        Some(j) => j,
        None => {
            proof {
                lemma_count_zero(coords@, COMMA);
            }
            return None;
        },
    };
    let dcnt = count_occ(dims.as_slice(), SEP_X);
    if dcnt != 1 {
        return None;
    }
    let k = match find_byte(dims.as_slice(), SEP_X) {
        Some(k) => k,
        None => {
            proof {
                lemma_count_zero(dims@, SEP_X);
            }
            return None;
        },
    };
    let fx = subslice_vec(coords.as_slice(), 0, j);
    let fy = subslice_vec(coords.as_slice(), j + 1, coords.len());
    let fw = subslice_vec(dims.as_slice(), 0, k);
    let fh = subslice_vec(dims.as_slice(), k + 1, dims.len());
    let x = match parse_i32_bytes(fx.as_slice()) {
        Some(x) => x,
        None => {
            return None;
        },
    };
    let y = match parse_i32_bytes(fy.as_slice()) {
        Some(y) => y,
        None => {
            return None;
        },
    };
    let w = match parse_u32_bytes(fw.as_slice()) {
        Some(w) => w,
        None => {
            return None;
        },
    };
    let h = match parse_u32_bytes(fh.as_slice()) {
        Some(h) => h,
        None => {
            return None;
        },
    };
    Some((x, y, w, h))
}

} // verus!
