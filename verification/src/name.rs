//! Name validation and normalization.
//!
//! A name travels as a fixed 32-byte buffer. Its logical content is the run of
//! bytes before the first zero; normalization checks that run against the
//! permitted charset, folds uppercase to lowercase, and forces everything after
//! the first zero to zero. The top-level suffix of a dotted name is the run
//! strictly after the last dot.

use vstd::prelude::*;

use crate::types::Error;

verus! {

/// The permitted charset: `.` (only where dots are allowed), `0`-`9`,
/// `A`-`Z`, `a`-`z`.
pub open spec fn valid_byte(b: u8, allow_dot: bool) -> bool {
    ||| (allow_dot && b == 46)
    ||| (48 <= b && b <= 57)
    ||| (65 <= b && b <= 90)
    ||| (97 <= b && b <= 122)
}

/// Uppercase letters fold to lowercase; everything else is unchanged.
pub open spec fn fold_byte(b: u8) -> u8 {
    if 65 <= b && b <= 90 {
        (b + 32) as u8
    } else {
        b
    }
}

/// The logical length of a buffer: the index of its first zero byte, or its
/// whole length when no byte is zero.
pub open spec fn buf_len(s: Seq<u8>) -> int
    decreases s.len(),
{
    if s.len() == 0 || s[0] == 0 {
        0
    } else {
        1 + buf_len(s.drop_first())
    }
}

/// Every byte of the logical content is in the permitted charset.
pub open spec fn buf_ok(s: Seq<u8>, allow_dot: bool) -> bool {
    forall|i: int| 0 <= i < buf_len(s) ==> valid_byte(#[trigger] s[i], allow_dot)
}

/// The canonical form: logical content folded to lowercase, the rest zero.
pub open spec fn canon(s: Seq<u8>) -> Seq<u8> {
    Seq::new(s.len(), |i: int| if i < buf_len(s) { fold_byte(s[i]) } else { 0 })
}

/// The index of the last dot strictly below `n`, or -1 when there is none.
pub open spec fn last_dot(s: Seq<u8>, n: int) -> int
    decreases n,
{
    if n <= 0 {
        -1
    } else if s[n - 1] == 46 {
        n - 1
    } else {
        last_dot(s, n - 1)
    }
}

/// Where the top-level suffix starts: just after the last dot.
pub open spec fn top_start(s: Seq<u8>) -> int {
    last_dot(s, buf_len(s)) + 1
}

/// The logical length of the top-level suffix.
pub open spec fn top_len(s: Seq<u8>) -> int {
    buf_len(s) - top_start(s)
}

/// The top-level suffix, repacked as a canonical 32-byte buffer.
pub open spec fn top_of(s: Seq<u8>) -> Seq<u8> {
    Seq::new(32, |i: int| if i < top_len(s) { s[top_start(s) + i] } else { 0 })
}

pub proof fn lemma_buf_len_bounds(s: Seq<u8>)
    ensures
        0 <= buf_len(s) <= s.len(),
        forall|i: int| 0 <= i < buf_len(s) ==> #[trigger] s[i] != 0,
        buf_len(s) < s.len() ==> s[buf_len(s)] == 0,
    decreases s.len(),
{
    if s.len() == 0 || s[0] == 0 {
    } else {
        lemma_buf_len_bounds(s.drop_first());
        assert forall|i: int| 0 <= i < buf_len(s) implies #[trigger] s[i] != 0 by {
            if i >= 1 {
                assert(s.drop_first()[i - 1] == s[i]);
            }
        }
        if buf_len(s) < s.len() {
            assert(s.drop_first()[buf_len(s) - 1] == s[buf_len(s)]);
        }
    }
}

pub proof fn lemma_buf_len_is(s: Seq<u8>, n: int)
    requires
        0 <= n <= s.len(),
        forall|i: int| 0 <= i < n ==> #[trigger] s[i] != 0,
        n < s.len() ==> s[n] == 0,
    ensures
        buf_len(s) == n,
    decreases s.len(),
{
    if s.len() == 0 {
    } else if s[0] == 0 {
        if n > 0 {
            assert(s[0] != 0);
        }
    } else {
        assert(s[0] != 0);
        let t = s.drop_first();
        assert forall|i: int| 0 <= i < n - 1 implies #[trigger] t[i] != 0 by {
            assert(s[i + 1] != 0);
        }
        if n - 1 < t.len() {
            assert(t[n - 1] == s[n]);
        }
        lemma_buf_len_is(t, n - 1);
    }
}

pub proof fn lemma_last_dot_bounds(s: Seq<u8>, n: int)
    requires
        n >= 0,
    ensures
        -1 <= last_dot(s, n) < n,
        last_dot(s, n) >= 0 ==> s[last_dot(s, n)] == 46,
        forall|i: int| last_dot(s, n) < i < n ==> #[trigger] s[i] != 46,
    decreases n,
{
    if n <= 0 {
    } else if s[n - 1] == 46 {
    } else {
        lemma_last_dot_bounds(s, n - 1);
    }
}

pub proof fn lemma_no_dot_means_none(s: Seq<u8>, n: int)
    requires
        forall|i: int| 0 <= i < n ==> #[trigger] s[i] != 46,
    ensures
        last_dot(s, n) == -1,
    decreases n,
{
    if n > 0 {
        lemma_no_dot_means_none(s, n - 1);
    }
}

/// The top-level suffix of a normalized name is itself a well-formed 32-byte
/// buffer: its logical length is `top_len`, it holds no dot, its bytes stay in
/// the charset, and taking the suffix again gives it back unchanged.
pub proof fn lemma_top_props(s: Seq<u8>)
    requires
        s.len() == 32,
    ensures
        0 <= top_len(s) <= buf_len(s),
        buf_len(top_of(s)) == top_len(s),
        top_of(s).len() == 32,
        forall|i: int| 0 <= i < top_len(s) ==> top_of(s)[i] == s[top_start(s) + i],
        forall|i: int| 0 <= i < top_len(s) ==> #[trigger] top_of(s)[i] != 46,
        top_of(top_of(s)) == top_of(s),
        buf_ok(s, true) ==> buf_ok(top_of(s), false),
{
    let t = top_of(s);
    let n = buf_len(s);
    let p = top_start(s);
    lemma_buf_len_bounds(s);
    lemma_last_dot_bounds(s, n);
    assert forall|i: int| 0 <= i < top_len(s) implies #[trigger] t[i] != 0 && t[i] != 46 by {
        assert(t[i] == s[p + i]);
        assert(s[p + i] != 0);
        assert(s[p + i] != 46);
    }
    lemma_buf_len_is(t, top_len(s));
    assert forall|i: int| 0 <= i < buf_len(t) implies #[trigger] t[i] != 46 by {}
    lemma_no_dot_means_none(t, buf_len(t));
    assert(top_start(t) == 0);
    assert(top_len(t) == buf_len(t));
    assert(top_of(t) =~= t);
    if buf_ok(s, true) {
        assert forall|i: int| 0 <= i < buf_len(t) implies valid_byte(#[trigger] t[i], false) by {
            assert(t[i] == s[p + i]);
            assert(valid_byte(s[p + i], true));
        }
    }
}

/// A canonical buffer normalizes to itself: its charset stays valid, its
/// logical length is unchanged, and canonicalizing again is the identity.
pub proof fn lemma_canon_idempotent(s: Seq<u8>, allow_dot: bool)
    requires
        buf_ok(s, allow_dot),
    ensures
        buf_len(canon(s)) == buf_len(s),
        buf_ok(canon(s), allow_dot),
        canon(canon(s)) == canon(s),
{
    let c = canon(s);
    lemma_buf_len_bounds(s);
    assert forall|i: int| 0 <= i < buf_len(s) implies #[trigger] c[i] != 0 by {
        assert(valid_byte(s[i], allow_dot));
    }
    lemma_buf_len_is(c, buf_len(s));
    assert forall|i: int| 0 <= i < buf_len(c) implies valid_byte(#[trigger] c[i], allow_dot) by {
        assert(c[i] == fold_byte(s[i]));
        assert(valid_byte(s[i], allow_dot));
    }
    assert(canon(c) =~= c);
}

/// Byte-for-byte equality of two buffers.
pub fn bytes_eq(a: &Vec<u8>, b: &Vec<u8>) -> (r: bool)
    ensures
        r == (a@ == b@),
{
    if a.len() != b.len() {
        return false;
    }
    let n = a.len();
    let mut i: usize = 0;
    while i < n
        invariant
            n == a@.len() && n == b@.len(),
            0 <= i <= n,
            forall|j: int| 0 <= j < i ==> a@[j] == b@[j],
        decreases n - i,
    {
        if a[i] != b[i] {
            return false;
        }
        i = i + 1;
    }
    proof {
        assert(a@ =~= b@);
    }
    true
}

/// Makes an owned copy of a name buffer.
pub fn copy_name(v: &Vec<u8>) -> (r: Vec<u8>)
    ensures
        r@ == v@,
{
    let mut out: Vec<u8> = Vec::new();
    let mut i: usize = 0;
    while i < v.len()
        invariant
            0 <= i <= v@.len(),
            out@.len() == i,
            forall|j: int| 0 <= j < i ==> out@[j] == v@[j],
        decreases v@.len() - i,
    {
        out.push(v[i]);
        i = i + 1;
    }
    proof {
        assert(out@ =~= v@);
    }
    out
}

/// Parses a 32-byte buffer into its canonical form and logical length.
/// Scans left to right: a zero byte ends the content and everything after it
/// is forced to zero; before that, each byte must be in the permitted charset
/// (dot only if `allow_dot`) and uppercase folds to lowercase. Any other byte
/// aborts with `Error::ErrorData` and no partial result.
pub fn normalize(buffer: &Vec<u8>, allow_dot: bool) -> (r: Result<(Vec<u8>, usize), Error>)
    requires
        buffer@.len() == 32,
    ensures
        match r {
            Ok(p) => {
                &&& buf_ok(buffer@, allow_dot)
                &&& p.0@ == canon(buffer@)
                &&& p.1 == buf_len(buffer@)
            },
            Err(e) => e == Error::ErrorData && !buf_ok(buffer@, allow_dot),
        },
{
    let mut out: Vec<u8> = Vec::new();
    let mut i: usize = 0;
    while i < 32 && buffer[i] != 0
        invariant
            buffer@.len() == 32,
            0 <= i <= 32,
            out@.len() == i,
            forall|j: int| 0 <= j < i ==> #[trigger] buffer@[j] != 0,
            forall|j: int| 0 <= j < i ==> valid_byte(#[trigger] buffer@[j], allow_dot),
            forall|j: int| 0 <= j < i ==> out@[j] == fold_byte(buffer@[j]),
        decreases 32 - i,
    {
        let b = buffer[i];
        let dot_ok = allow_dot && b == 46;
        let digit = 48 <= b && b <= 57;
        let upper = 65 <= b && b <= 90;
        let lower = 97 <= b && b <= 122;
        if !(dot_ok || digit || upper || lower) {
            proof {
                lemma_buf_len_bounds(buffer@);
                if buf_len(buffer@) <= i {
                    assert(buffer@[buf_len(buffer@)] == 0);
                }
                assert(i < buf_len(buffer@));
                assert(!valid_byte(buffer@[i as int], allow_dot));
            }
            return Err(Error::ErrorData);
        }
        if upper {
            out.push(b + 32);
        } else {
            out.push(b);
        }
        i = i + 1;
    }
    let n = i;
    proof {
        lemma_buf_len_is(buffer@, n as int);
    }
    let mut k: usize = n;
    while k < 32
        invariant
            buffer@.len() == 32,
            n == buf_len(buffer@),
            0 <= n <= k <= 32,
            out@.len() == k,
            forall|j: int| 0 <= j < n ==> out@[j] == fold_byte(buffer@[j]),
            forall|j: int| n <= j < k ==> out@[j] == 0,
        decreases 32 - k,
    {
        out.push(0);
        k = k + 1;
    }
    proof {
        assert(out@ =~= canon(buffer@));
    }
    Ok((out, n))
}

/// The logical length of a buffer: the index of its first zero byte.
pub fn logical_len(v: &Vec<u8>) -> (n: usize)
    requires
        v@.len() == 32,
    ensures
        n == buf_len(v@),
{
    let mut i: usize = 0;
    while i < 32 && v[i] != 0
        invariant
            v@.len() == 32,
            0 <= i <= 32,
            forall|j: int| 0 <= j < i ==> #[trigger] v@[j] != 0,
        decreases 32 - i,
    {
        i = i + 1;
    }
    proof {
        lemma_buf_len_is(v@, i as int);
    }
    i
}

/// Extracts the top-level suffix: the bytes strictly after the last dot of the
/// logical content (the whole content when there is no dot), repacked as a
/// canonical 32-byte buffer.
pub fn get_top(domain: &Vec<u8>, len: usize) -> (r: Vec<u8>)
    requires
        domain@.len() == 32,
        len == buf_len(domain@),
    ensures
        r@ == top_of(domain@),
        r@.len() == 32,
{
    proof {
        lemma_buf_len_bounds(domain@);
        lemma_last_dot_bounds(domain@, len as int);
    }
    let mut i: usize = len;
    while i > 0 && domain[i - 1] != 46
        invariant
            domain@.len() == 32,
            len == buf_len(domain@),
            len <= 32,
            0 <= i <= len,
            last_dot(domain@, len as int) == last_dot(domain@, i as int),
        decreases i,
    {
        i = i - 1;
    }
    let pos = i;
    proof {
        assert(pos == top_start(domain@));
    }
    let mut top: Vec<u8> = Vec::new();
    let mut j: usize = pos;
    while j < len
        invariant
            domain@.len() == 32,
            len == buf_len(domain@),
            len <= 32,
            pos == top_start(domain@),
            pos <= j <= len,
            top@.len() == j - pos,
            forall|t: int| 0 <= t < j - pos ==> top@[t] == domain@[pos + t],
        decreases len - j,
    {
        top.push(domain[j]);
        j = j + 1;
    }
    while top.len() < 32
        invariant
            domain@.len() == 32,
            len == buf_len(domain@),
            len <= 32,
            pos == top_start(domain@),
            0 <= top_len(domain@) <= top@.len() <= 32,
            forall|t: int| 0 <= t < top_len(domain@) ==> top@[t] == domain@[pos + t],
            forall|t: int| top_len(domain@) <= t < top@.len() ==> top@[t] == 0,
        decreases 32 - top@.len(),
    {
        top.push(0);
    }
    proof {
        assert(top@ =~= top_of(domain@));
    }
    top
}

} // verus!
