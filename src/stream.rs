//! The input as a stream of lines: each line, terminator included, is
//! filtered on its own, so that nothing of one line bears on the next.
use vstd::prelude::*;

use crate::filter::{filter_line, lemma_classify_step, process_line};
use crate::scanner::{
    escape_run_len, first_index, index_of, lemma_escape_run_last, lemma_escape_run_len,
    lemma_first_index, lemma_first_index_unique, lemma_literal_len, literal_len,
};

verus! {

/// The line feed, which ends a line.
pub const LINE_FEED: u8 = 0x0a;

/// The length of the first line of `b`: up to and including the first line
/// feed, or all of `b` when it holds none.
pub open spec fn line_len(b: Seq<u8>) -> nat {
    if first_index(b, LINE_FEED) < b.len() {
        first_index(b, LINE_FEED) + 1
    } else {
        b.len()
    }
}

#[via_fn]
proof fn filtered_stream_decreases(b: Seq<u8>) {
    lemma_first_index(b, LINE_FEED);
}

/// The output for input `b`: each line filtered on its own, in order.
pub open spec fn filtered_stream(b: Seq<u8>) -> Seq<u8>
    decreases b.len(),
    via filtered_stream_decreases
{
    if b.len() == 0 {
        Seq::empty()
    } else {
        let n = line_len(b);
        filter_line(b.take(n as int)) + filtered_stream(b.skip(n as int))
    }
}

/// Each of the lines `ls` filtered on its own.
pub open spec fn filter_each(ls: Seq<Seq<u8>>) -> Seq<Seq<u8>> {
    ls.map_values(|l: Seq<u8>| filter_line(l))
}

/// Whether `l` is one whole line: bytes without a line feed, then a line
/// feed.
pub open spec fn terminated_line(l: Seq<u8>) -> bool {
    &&& l.len() > 0
    &&& l.last() == LINE_FEED
    &&& forall|j: int| 0 <= j < l.len() - 1 ==> l[j] != LINE_FEED
}

/// Filtering a whole line gives a whole line: the terminator is kept and no
/// other line feed appears.
pub proof fn lemma_filter_keeps_line(b: Seq<u8>)
    requires
        terminated_line(b),
    ensures
        terminated_line(filter_line(b)),
    decreases b.len(),
{
    lemma_classify_step(b);
    lemma_escape_run_len(b);
    lemma_escape_run_last(b);
    let e = escape_run_len(b);
    let rest = b.skip(e as int);
    let t = literal_len(rest);
    lemma_literal_len(rest);
    let next = b.skip((e + t) as int);
    let tok = rest.take(t as int);
    if next.len() == 0 {
        assert(next =~= Seq::<u8>::empty());
        assert(filter_line(next) =~= Seq::<u8>::empty());
        assert(tok + filter_line(next) =~= tok);
        assert(tok.last() == b.last());
    } else {
        assert(next.last() == b.last());
        assert forall|j: int| 0 <= j < next.len() - 1 implies next[j] != LINE_FEED by {
            assert(next[j] == b[e + t + j]);
        }
        lemma_filter_keeps_line(next);
        let f = filter_line(next);
        assert forall|j: int| 0 <= j < tok.len() implies tok[j] != LINE_FEED by {
            assert(tok[j] == b[e + j]);
        }
        let out = tok + f;
        assert(out.last() == f.last());
        assert forall|j: int| 0 <= j < out.len() - 1 implies out[j] != LINE_FEED by {
            if j >= tok.len() {
                assert(out[j] == f[j - tok.len()]);
            }
        }
    }
}

/// Input made of whole lines is filtered line by line: the output is the
/// filtered lines in order, each again a whole line, so there are as many
/// output lines as input lines and none depends on its neighbours.
pub proof fn lines_filtered_independently(ls: Seq<Seq<u8>>)
    requires
        forall|k: int| 0 <= k < ls.len() ==> terminated_line(#[trigger] ls[k]),
    ensures
        filtered_stream(ls.flatten()) == filter_each(ls).flatten(),
        forall|k: int|
            0 <= k < ls.len() ==> terminated_line(
                #[trigger] filter_each(ls)[k],
            ),
    decreases ls.len(),
{
    let f = filter_each(ls);
    assert forall|k: int| 0 <= k < ls.len() implies terminated_line(#[trigger] f[k]) by {
        lemma_filter_keeps_line(ls[k]);
    }
    if ls.len() > 0 {
        let first = ls[0];
        let tail = ls.drop_first();
        let b = ls.flatten();
        assert(b == first + tail.flatten());
        assert forall|k: int| 0 <= k < tail.len() implies terminated_line(#[trigger] tail[k]) by {
            assert(tail[k] == ls[k + 1]);
        }
        lines_filtered_independently(tail);
        let i = first.len() - 1;
        assert(terminated_line(first));
        assert forall|j: int| 0 <= j < i implies b[j] != LINE_FEED by {
            assert(b[j] == first[j]);
        }
        lemma_first_index_unique(b, LINE_FEED, i);
        assert(b.take(first.len() as int) =~= first);
        assert(b.skip(first.len() as int) =~= tail.flatten());
        assert(f.drop_first() =~= filter_each(tail));
    }
}

/// The filtered output for all of `input`: lines are taken one at a time,
/// each up to and including its line feed, and filtered in turn.
pub fn process_stream(input: &[u8]) -> (r: Vec<u8>)
    ensures
        r@ == filtered_stream(input@),
{
    let len = input.len();
    let mut out: Vec<u8> = Vec::new();
    let mut i: usize = 0;
    proof {
        assert(input@.skip(0) =~= input@);
        assert(filtered_stream(input@) =~= out@ + filtered_stream(input@.skip(0)));
    }
    while i < len
        invariant
            i <= len == input@.len(),
            out@ + filtered_stream(input@.skip(i as int)) == filtered_stream(input@),
        decreases len - i,
    {
        let rest = &input[i..len];
        assert(rest@ =~= input@.skip(i as int));
        let n = match index_of(rest, LINE_FEED) {
            Some(k) => k + 1,
            None => len - i,
        };
        assert(n == line_len(rest@));
        let line = &input[i..i + n];
        assert(line@ =~= rest@.take(n as int));
        let ghost before = out@;
        process_line(&mut out, line);
        proof {
            assert(rest@.skip(n as int) =~= input@.skip(i + n));
            assert(before + filter_line(line@) + filtered_stream(input@.skip(i + n)) =~= before + (
            filter_line(line@) + filtered_stream(input@.skip(i + n))));
        }
        i = i + n;
    }
    proof {
        assert(input@.skip(len as int) =~= Seq::<u8>::empty());
        assert(out@ + Seq::<u8>::empty() =~= out@);
    }
    out
}

} // verus!
