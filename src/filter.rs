//! Removal of escape spans from a line: the scanner is run over the line
//! from start to end, and only the literal tokens are kept.
use vstd::prelude::*;

use crate::scanner::{
    escape_run_len, lemma_escape_run_len, lemma_first_marker, lemma_literal_len, literal_len,
    marker_at, skip_all_escape_code, skip_token, ESC,
};

verus! {

#[via_fn]
proof fn classify_decreases(b: Seq<u8>) {
    lemma_escape_run_len(b);
    lemma_literal_len(b.skip(escape_run_len(b) as int));
}

/// The classification of a line: from its start, pairs of an escape run
/// (possibly empty) and the literal token that follows it, until the end of
/// the line.
pub open spec fn classify(b: Seq<u8>) -> Seq<(Seq<u8>, Seq<u8>)>
    decreases b.len(),
    via classify_decreases
{
    if b.len() == 0 {
        Seq::empty()
    } else {
        let e = escape_run_len(b);
        let rest = b.skip(e as int);
        let t = literal_len(rest);
        seq![(b.take(e as int), rest.take(t as int))] + classify(rest.skip(t as int))
    }
}

/// The escape runs and literal tokens of `s`, concatenated in order.
pub open spec fn join_all(s: Seq<(Seq<u8>, Seq<u8>)>) -> Seq<u8>
    decreases s.len(),
{
    if s.len() == 0 {
        Seq::empty()
    } else {
        s[0].0 + s[0].1 + join_all(s.drop_first())
    }
}

/// The literal tokens of `s`, concatenated in order.
pub open spec fn join_literals(s: Seq<(Seq<u8>, Seq<u8>)>) -> Seq<u8>
    decreases s.len(),
{
    if s.len() == 0 {
        Seq::empty()
    } else {
        s[0].1 + join_literals(s.drop_first())
    }
}

/// What is left of a line once its escape spans are removed.
pub open spec fn filter_line(b: Seq<u8>) -> Seq<u8> {
    join_literals(classify(b))
}

/// One step of the classification of a non-empty line: its first escape
/// run and literal token together hold at least one byte, and the rest is
/// classified on its own.
pub proof fn lemma_classify_step(b: Seq<u8>)
    requires
        b.len() > 0,
    ensures
        ({
            let e = escape_run_len(b);
            let rest = b.skip(e as int);
            let t = literal_len(rest);
            &&& 0 < e + t <= b.len()
            &&& classify(b)[0] == (b.take(e as int), rest.take(t as int))
            &&& classify(b).drop_first() == classify(rest.skip(t as int))
            &&& rest.skip(t as int) == b.skip((e + t) as int)
            &&& filter_line(b) == rest.take(t as int) + filter_line(b.skip((e + t) as int))
        }),
{
    let e = escape_run_len(b);
    let rest = b.skip(e as int);
    let t = literal_len(rest);
    lemma_escape_run_len(b);
    lemma_literal_len(rest);
    let tail = classify(rest.skip(t as int));
    assert((seq![(b.take(e as int), rest.take(t as int))] + tail).drop_first() =~= tail);
    assert(rest.skip(t as int) =~= b.skip((e + t) as int));
}

/// Classifying a line partitions it: its escape runs and literal tokens,
/// concatenated in order, give back the line exactly.
pub proof fn partition_reconstructs_line(b: Seq<u8>)
    ensures
        join_all(classify(b)) == b,
    decreases b.len(),
{
    if b.len() > 0 {
        lemma_classify_step(b);
        let e = escape_run_len(b);
        let rest = b.skip(e as int);
        let t = literal_len(rest);
        partition_reconstructs_line(b.skip((e + t) as int));
        assert(b.take(e as int) + rest.take(t as int) + b.skip((e + t) as int) =~= b);
    }
}

/// A line that holds no escape byte is left unchanged.
pub proof fn clean_line_unchanged(b: Seq<u8>)
    requires
        forall|j: int| 0 <= j < b.len() ==> b[j] != ESC,
    ensures
        filter_line(b) == b,
{
    if b.len() > 0 {
        lemma_classify_step(b);
        assert(!marker_at(b, 0));
        assert(escape_run_len(b) == 0);
        assert(b.skip(0) =~= b);
        let t = b.drop_first();
        lemma_first_marker(t);
        if literal_len(b) < b.len() {
            assert(marker_at(t, literal_len(b) - 1));
        }
        assert(b.take(b.len() as int) =~= b);
        assert(b.skip(b.len() as int) =~= Seq::<u8>::empty());
        assert(filter_line(Seq::<u8>::empty()) =~= Seq::<u8>::empty());
        assert(b + Seq::<u8>::empty() =~= b);
    }
}

/// Appends to `out` what is left of `line` once its escape spans are removed.
pub fn process_line(out: &mut Vec<u8>, line: &[u8])
    ensures
        final(out)@ == old(out)@ + filter_line(line@),
{
    let len = line.len();
    let mut i: usize = 0;
    proof {
        assert(line@.skip(0) =~= line@);
        assert(old(out)@ + filter_line(line@) =~= out@ + filter_line(line@.skip(0)));
    }
    while i < len
        invariant
            i <= len == line@.len(),
            out@ + filter_line(line@.skip(i as int)) == old(out)@ + filter_line(line@),
        decreases len - i,
    {
        let rest = &line[i..len];
        assert(rest@ =~= line@.skip(i as int));
        let e = skip_all_escape_code(rest);
        let j = i + e;
        let tail = &line[j..len];
        assert(tail@ =~= rest@.skip(e as int));
        let t = skip_token(tail);
        proof {
            lemma_classify_step(rest@);
            assert(rest@.skip((e + t) as int) =~= line@.skip((j + t) as int));
        }
        let ghost before = out@;
        let mut k: usize = j;
        while k < j + t
            invariant
                j <= k <= j + t <= len == line@.len(),
                out@ == before + line@.subrange(j as int, k as int),
            decreases j + t - k,
        {
            out.push(line[k]);
            assert(line@.subrange(j as int, k + 1) =~= line@.subrange(j as int, k as int).push(
                line@[k as int],
            ));
            k += 1;
        }
        proof {
            assert(line@.subrange(j as int, (j + t) as int) =~= tail@.take(t as int));
            assert(before + tail@.take(t as int) + filter_line(line@.skip((j + t) as int)) =~= before + (
            tail@.take(t as int) + filter_line(line@.skip((j + t) as int))));
        }
        i = j + t;
    }
    proof {
        assert(line@.skip(len as int) =~= Seq::<u8>::empty());
        assert(filter_line(Seq::<u8>::empty()) =~= Seq::<u8>::empty());
        assert(out@ + Seq::<u8>::empty() =~= out@);
    }
}

} // verus!
