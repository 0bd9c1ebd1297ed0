//! Classification of the bytes of one line into escape spans and literal
//! tokens.
//!
//! An escape span starts with the marker `ESC [` and ends with the first `m`
//! after the marker. A marker with no `m` after it starts no span: its bytes
//! are literal.
use vstd::prelude::*;

verus! {

/// The escape byte, first byte of a marker.
pub const ESC: u8 = 0x1b;

/// `[`, second byte of a marker.
pub const OPEN_BRACKET: u8 = 0x5b;

/// `m`, the byte that closes an escape span.
pub const TERMINATOR: u8 = 0x6d;

/// The index of the first `t` in `b`, or `b.len()` when `t` does not occur.
pub open spec fn first_index(b: Seq<u8>, t: u8) -> nat
    decreases b.len(),
{
    if b.len() == 0 {
        0
    } else if b[0] == t {
        0
    } else {
        1 + first_index(b.drop_first(), t)
    }
}

/// `first_index` is the smallest index holding `t`, or the length.
pub proof fn lemma_first_index(b: Seq<u8>, t: u8)
    ensures
        first_index(b, t) <= b.len(),
        forall|j: int| 0 <= j < first_index(b, t) ==> b[j] != t,
        first_index(b, t) < b.len() ==> b[first_index(b, t) as int] == t,
    decreases b.len(),
{
    if b.len() > 0 && b[0] != t {
        lemma_first_index(b.drop_first(), t);
        assert forall|j: int| 0 <= j < first_index(b, t) implies b[j] != t by {
            if j > 0 {
                assert(b[j] == b.drop_first()[j - 1]);
            }
        }
    }
}

/// Any index that holds `t` and has no `t` before it is `first_index`.
pub proof fn lemma_first_index_unique(b: Seq<u8>, t: u8, i: int)
    requires
        0 <= i <= b.len(),
        i < b.len() ==> b[i] == t,
        forall|j: int| 0 <= j < i ==> b[j] != t,
    ensures
        first_index(b, t) == i,
{
    lemma_first_index(b, t);
}

/// The position of the first `target` in `buf`, if there is one.
pub fn index_of(buf: &[u8], target: u8) -> (r: Option<usize>)
    ensures
        match r {
            Some(i) => i < buf@.len() && buf@[i as int] == target && forall|j: int|
                0 <= j < i ==> buf@[j] != target,
            None => forall|j: int| 0 <= j < buf@.len() ==> buf@[j] != target,
        },
        match r {
            Some(i) => i == first_index(buf@, target),
            None => first_index(buf@, target) == buf@.len(),
        },
{
    let mut i: usize = 0;
    while i < buf.len()
        invariant
            i <= buf@.len(),
            forall|j: int| 0 <= j < i ==> buf@[j] != target,
        decreases buf@.len() - i,
    {
        if buf[i] == target {
            proof {
                lemma_first_index_unique(buf@, target, i as int);
            }
            return Some(i);
        }
        i += 1;
    }
    proof {
        lemma_first_index_unique(buf@, target, i as int);
    }
    None
}

/// Whether a marker `ESC [` starts at index `i` of `b`.
pub open spec fn marker_at(b: Seq<u8>, i: int) -> bool {
    0 <= i && i + 1 < b.len() && b[i] == ESC && b[i + 1] == OPEN_BRACKET
}

/// The length of the one escape span that starts `b`, or 0 when `b` does not
/// start with one: the marker, the bytes up to the first `m` after it, and
/// that `m`.
pub open spec fn escape_len(b: Seq<u8>) -> nat {
    if marker_at(b, 0) && first_index(b.skip(2), TERMINATOR) < b.len() - 2 {
        first_index(b.skip(2), TERMINATOR) + 3
    } else {
        0
    }
}

/// An escape span fits in the bytes it was found in, and ends with `m`.
pub proof fn lemma_escape_len(b: Seq<u8>)
    ensures
        escape_len(b) <= b.len(),
        escape_len(b) > 0 ==> escape_len(b) >= 3 && b[escape_len(b) - 1] == TERMINATOR,
{
    lemma_first_index(b.skip(2), TERMINATOR);
}

#[via_fn]
proof fn escape_run_len_decreases(b: Seq<u8>) {
    lemma_escape_len(b);
}

/// The length of the run of back-to-back escape spans that starts `b`.
pub open spec fn escape_run_len(b: Seq<u8>) -> nat
    decreases b.len(),
    via escape_run_len_decreases
{
    let n = escape_len(b);
    if n == 0 {
        0
    } else {
        n + escape_run_len(b.skip(n as int))
    }
}

/// An escape run fits in the bytes it was found in.
pub proof fn lemma_escape_run_len(b: Seq<u8>)
    ensures
        escape_run_len(b) <= b.len(),
    decreases b.len(),
{
    lemma_escape_len(b);
    let n = escape_len(b);
    if n > 0 {
        lemma_escape_run_len(b.skip(n as int));
    }
}

/// A non-empty escape run ends with `m`.
pub proof fn lemma_escape_run_last(b: Seq<u8>)
    ensures
        escape_run_len(b) > 0 ==> b[escape_run_len(b) - 1] == TERMINATOR,
    decreases b.len(),
{
    lemma_escape_len(b);
    let n = escape_len(b);
    if n > 0 {
        let r = b.skip(n as int);
        lemma_escape_run_last(r);
        lemma_escape_run_len(r);
        if escape_run_len(r) > 0 {
            assert(r[escape_run_len(r) - 1] == b[n + escape_run_len(r) - 1]);
        }
    }
}

/// The length of the escape span that starts `buf`, if `buf` starts with one.
pub fn skip_escape_code(buf: &[u8]) -> (r: Option<usize>)
    ensures
        match r {
            Some(n) => n > 0 && n == escape_len(buf@),
            None => escape_len(buf@) == 0,
        },
{
    let len = buf.len();
    if 2 <= len && buf[0] == ESC && buf[1] == OPEN_BRACKET {
        let body = &buf[2..len];
        assert(body@ =~= buf@.skip(2));
        match index_of(body, TERMINATOR) {
            Some(i) => Some(i + 3),
            None => None,
        }
    } else {
        None
    }
}

/// The number of bytes of back-to-back escape spans that start `buf`.
pub fn skip_all_escape_code(buf: &[u8]) -> (r: usize)
    ensures
        r == escape_run_len(buf@),
        r <= buf@.len(),
{
    let len = buf.len();
    let mut sum: usize = 0;
    proof {
        assert(buf@.skip(0) =~= buf@);
    }
    loop
        invariant
            sum <= len == buf@.len(),
            sum + escape_run_len(buf@.skip(sum as int)) == escape_run_len(buf@),
        decreases len - sum,
    {
        let rest = &buf[sum..len];
        assert(rest@ =~= buf@.skip(sum as int));
        match skip_escape_code(rest) {
            Some(n) => {
                proof {
                    lemma_escape_len(rest@);
                    assert(rest@.skip(n as int) =~= buf@.skip(sum + n));
                }
                sum = sum + n;
            },
            None => {
                return sum;
            },
        }
    }
}

/// The index of the first marker in `b`, or `b.len()` when there is none.
pub open spec fn first_marker(b: Seq<u8>) -> nat
    decreases b.len(),
{
    if b.len() == 0 {
        0
    } else if marker_at(b, 0) {
        0
    } else {
        1 + first_marker(b.drop_first())
    }
}

/// The length of the literal token that starts `b`: every byte up to the
/// next marker, or to the end. Its first byte is literal whatever it is, so
/// that a marker which starts no escape span is passed on as literal bytes.
pub open spec fn literal_len(b: Seq<u8>) -> nat {
    if b.len() == 0 {
        0
    } else {
        1 + first_marker(b.drop_first())
    }
}

/// `first_marker` is the smallest index where a marker starts, or the length.
pub proof fn lemma_first_marker(b: Seq<u8>)
    ensures
        first_marker(b) <= b.len(),
        forall|j: int| 0 <= j < first_marker(b) ==> !marker_at(b, j),
        first_marker(b) < b.len() ==> marker_at(b, first_marker(b) as int),
    decreases b.len(),
{
    if b.len() > 0 && !marker_at(b, 0) {
        lemma_first_marker(b.drop_first());
        assert forall|j: int| 0 <= j < first_marker(b) implies !marker_at(b, j) by {
            if j > 0 {
                assert(marker_at(b, j) == marker_at(b.drop_first(), j - 1));
            }
        }
        if first_marker(b) < b.len() {
            assert(marker_at(b.drop_first(), first_marker(b) - 1));
        }
    }
}

/// A literal token of a non-empty buffer holds at least one byte, stops at
/// the first marker after its first byte, and fits in the buffer.
pub proof fn lemma_literal_len(b: Seq<u8>)
    ensures
        literal_len(b) <= b.len(),
        b.len() > 0 ==> literal_len(b) >= 1,
        forall|j: int| 1 <= j < literal_len(b) ==> !marker_at(b, j),
        literal_len(b) < b.len() ==> marker_at(b, literal_len(b) as int),
{
    if b.len() > 0 {
        let t = b.drop_first();
        lemma_first_marker(t);
        assert forall|j: int| 1 <= j < literal_len(b) implies !marker_at(b, j) by {
            assert(marker_at(b, j) == marker_at(t, j - 1));
        }
        if literal_len(b) < b.len() {
            assert(marker_at(t, first_marker(t) as int));
        }
    }
}

/// The number of bytes of `buf` up to the next marker after its first byte,
/// or to its end.
pub fn skip_token(buf: &[u8]) -> (r: usize)
    ensures
        r == literal_len(buf@),
        r <= buf@.len(),
        buf@.len() > 0 ==> r >= 1,
        forall|j: int| 1 <= j < r ==> !marker_at(buf@, j),
        r < buf@.len() ==> marker_at(buf@, r as int),
{
    let len = buf.len();
    if len == 0 {
        return 0;
    }
    let mut i: usize = 1;
    while i < len - 1
        invariant
            1 <= i <= len == buf@.len(),
            forall|j: int| 1 <= j < i ==> !marker_at(buf@, j),
        decreases len - i,
    {
        if buf[i] == ESC && buf[i + 1] == OPEN_BRACKET {
            proof {
                lemma_literal_len(buf@);
                assert(marker_at(buf@, i as int));
                if literal_len(buf@) < i {
                    assert(marker_at(buf@, literal_len(buf@) as int));
                }
            }
            return i;
        }
        i += 1;
    }
    proof {
        lemma_literal_len(buf@);
        assert(!marker_at(buf@, len - 1));
        if literal_len(buf@) < len {
            assert(marker_at(buf@, literal_len(buf@) as int));
        }
    }
    len
}

} // verus!
