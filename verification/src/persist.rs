//! The byte format in which a peer persists its term and its log.
//!
//! A state is the term, the vote cast in that term (0 for none, otherwise
//! the candidate's index plus one), the number of entries, then each entry:
//! its term, the length of its command, and the command's bytes. Every
//! number is eight bytes, least significant first.

use vstd::prelude::*;
use crate::peer::log_view;

verus! {

/// The eight bytes of `x`, least significant first.
pub open spec fn u64_bytes(x: u64) -> Seq<u8> {
    seq![
        x as u8,
        (x >> 8u64) as u8,
        (x >> 16u64) as u8,
        (x >> 24u64) as u8,
        (x >> 32u64) as u8,
        (x >> 40u64) as u8,
        (x >> 48u64) as u8,
        (x >> 56u64) as u8,
    ]
}

/// The number whose eight bytes, least significant first, begin `b`.
pub open spec fn bytes_u64(b: Seq<u8>) -> u64 {
    (b[0] as u64) | ((b[1] as u64) << 8u64) | ((b[2] as u64) << 16u64) | ((b[3] as u64) << 24u64)
        | ((b[4] as u64) << 32u64) | ((b[5] as u64) << 40u64) | ((b[6] as u64) << 48u64) | ((b[7]
        as u64) << 56u64)
}

/// The bytes of one log entry.
pub open spec fn entry_bytes(e: (u64, Seq<u8>)) -> Seq<u8> {
    u64_bytes(e.0) + u64_bytes(e.1.len() as u64) + e.1
}

/// The bytes of a sequence of log entries, one after the other.
pub open spec fn entries_bytes(log: Seq<(u64, Seq<u8>)>) -> Seq<u8>
    decreases log.len(),
{
    if log.len() == 0 {
        Seq::empty()
    } else {
        entries_bytes(log.drop_last()) + entry_bytes(log.last())
    }
}

/// The number that records a vote: 0 for none, the candidate plus one
/// otherwise.
pub open spec fn vote_code(vote: Option<u32>) -> u64 {
    match vote {
        None => 0,
        Some(c) => (c + 1) as u64,
    }
}

/// The vote a number records; `None` when it records none that a peer can
/// have cast.
pub open spec fn decode_vote(x: u64) -> Option<Option<u32>> {
    if x == 0 {
        Some(None)
    } else if x - 1 <= u32::MAX {
        Some(Some((x - 1) as u32))
    } else {
        None
    }
}

/// The bytes of a persisted state.
pub open spec fn state_bytes(term: u64, vote: Option<u32>, log: Seq<(u64, Seq<u8>)>) -> Seq<u8> {
    u64_bytes(term) + u64_bytes(vote_code(vote)) + u64_bytes(log.len() as u64) + entries_bytes(log)
}

/// The entry at the front of `b`, and the bytes after it; `None` when `b`
/// is too short to hold one.
pub open spec fn parse_entry(b: Seq<u8>) -> Option<((u64, Seq<u8>), Seq<u8>)> {
    if b.len() < 16 {
        None
    } else {
        let term = bytes_u64(b.subrange(0, 8));
        let len = bytes_u64(b.subrange(8, 16));
        if b.len() - 16 < len {
            None
        } else {
            Some(((term, b.subrange(16, 16 + len)), b.skip(16 + len)))
        }
    }
}

/// The first `n` entries of `b`, and the bytes after them; `None` when `b`
/// does not hold that many.
pub open spec fn parse_entries(b: Seq<u8>, n: nat) -> Option<(Seq<(u64, Seq<u8>)>, Seq<u8>)>
    decreases n,
{
    if n == 0 {
        Some((Seq::empty(), b))
    } else {
        match parse_entries(b, (n - 1) as nat) {
            None => None,
            Some((es, rest)) => match parse_entry(rest) {
                None => None,
                Some((e, after)) => Some((es.push(e), after)),
            },
        }
    }
}

/// The term, vote and log that `b` holds; `None` unless `b` is exactly a
/// persisted state whose log holds at least one entry.
pub open spec fn decode_state(b: Seq<u8>) -> Option<(u64, Option<u32>, Seq<(u64, Seq<u8>)>)> {
    if b.len() < 24 {
        None
    } else {
        let term = bytes_u64(b.subrange(0, 8));
        let vote = decode_vote(bytes_u64(b.subrange(8, 16)));
        let n = bytes_u64(b.subrange(16, 24));
        if n == 0 || vote is None {
            None
        } else {
            match parse_entries(b.skip(24), n as nat) {
                Some((log, rest)) => if rest.len() == 0 {
                    Some((term, vote.unwrap(), log))
                } else {
                    None
                },
                None => None,
            }
        }
    }
}

/// Every length in the log fits in eight bytes.
pub open spec fn lengths_fit(log: Seq<(u64, Seq<u8>)>) -> bool {
    &&& log.len() <= u64::MAX
    &&& forall|i: int| 0 <= i < log.len() ==> (#[trigger] log[i]).1.len() <= u64::MAX
}

/// Reading back the eight bytes of `x` gives `x`.
pub proof fn lemma_u64_round_trip(x: u64)
    ensures
        bytes_u64(u64_bytes(x)) == x,
{
    let b = u64_bytes(x);
    let (b0, b1, b2, b3, b4, b5, b6, b7) = (b[0], b[1], b[2], b[3], b[4], b[5], b[6], b[7]);
    assert((b0 as u64) | ((b1 as u64) << 8u64) | ((b2 as u64) << 16u64) | ((b3 as u64) << 24u64)
        | ((b4 as u64) << 32u64) | ((b5 as u64) << 40u64) | ((b6 as u64) << 48u64) | ((b7 as u64)
        << 56u64) == x) by (bit_vector)
        requires
            b0 == x as u8,
            b1 == (x >> 8u64) as u8,
            b2 == (x >> 16u64) as u8,
            b3 == (x >> 24u64) as u8,
            b4 == (x >> 32u64) as u8,
            b5 == (x >> 40u64) as u8,
            b6 == (x >> 48u64) as u8,
            b7 == (x >> 56u64) as u8,
    ;
}

/// Parsing the bytes of an entry followed by `rest` gives the entry and `rest`.
pub proof fn lemma_entry_round_trip(e: (u64, Seq<u8>), rest: Seq<u8>)
    requires
        e.1.len() <= u64::MAX,
    ensures
        parse_entry(entry_bytes(e) + rest) == Some((e, rest)),
{
    let b = entry_bytes(e) + rest;
    lemma_u64_round_trip(e.0);
    lemma_u64_round_trip(e.1.len() as u64);
    assert(b.subrange(0, 8) =~= u64_bytes(e.0));
    assert(b.subrange(8, 16) =~= u64_bytes(e.1.len() as u64));
    assert(b.subrange(16, 16 + e.1.len() as int) =~= e.1);
    assert(b.skip(16 + e.1.len() as int) =~= rest);
}

/// Parsing the bytes of a sequence of entries followed by `rest` gives the
/// entries and `rest`.
pub proof fn lemma_entries_round_trip(log: Seq<(u64, Seq<u8>)>, rest: Seq<u8>)
    requires
        lengths_fit(log),
    ensures
        parse_entries(entries_bytes(log) + rest, log.len()) == Some((log, rest)),
    decreases log.len(),
{
    if log.len() > 0 {
        let init = log.drop_last();
        let last = log.last();
        assert(lengths_fit(init)) by {
            assert forall|i: int| 0 <= i < init.len() implies (#[trigger] init[i]).1.len() <= u64::MAX by {
                assert(init[i] == log[i]);
            }
        }
        assert(log[log.len() - 1] == last);
        assert(entries_bytes(log) + rest =~= entries_bytes(init) + (entry_bytes(last) + rest));
        lemma_entries_round_trip(init, entry_bytes(last) + rest);
        lemma_entry_round_trip(last, rest);
        assert(init.push(last) =~= log);
    }
}

/// A persisted state reads back as the term, vote and log it was made from.
pub proof fn lemma_state_round_trip(term: u64, vote: Option<u32>, log: Seq<(u64, Seq<u8>)>)
    requires
        log.len() >= 1,
        lengths_fit(log),
    ensures
        decode_state(state_bytes(term, vote, log)) == Some((term, vote, log)),
{
    let b = state_bytes(term, vote, log);
    lemma_u64_round_trip(term);
    lemma_u64_round_trip(vote_code(vote));
    lemma_u64_round_trip(log.len() as u64);
    assert(b.subrange(0, 8) =~= u64_bytes(term));
    assert(b.subrange(8, 16) =~= u64_bytes(vote_code(vote)));
    assert(b.subrange(16, 24) =~= u64_bytes(log.len() as u64));
    assert(b.skip(24) =~= entries_bytes(log) + Seq::<u8>::empty());
    lemma_entries_round_trip(log, Seq::empty());
}

/// Appends the eight bytes of `x` to `out`.
fn push_u64(out: &mut Vec<u8>, x: u64)
    ensures
        final(out)@ == old(out)@ + u64_bytes(x),
{
    out.push(x as u8);
    out.push((x >> 8u64) as u8);
    out.push((x >> 16u64) as u8);
    out.push((x >> 24u64) as u8);
    out.push((x >> 32u64) as u8);
    out.push((x >> 40u64) as u8);
    out.push((x >> 48u64) as u8);
    out.push((x >> 56u64) as u8);
    assert(final(out)@ =~= old(out)@ + u64_bytes(x));
}

/// Reads the number whose eight bytes begin at `pos`.
fn read_u64(b: &[u8], pos: usize) -> (x: u64)
    requires
        pos + 8 <= b@.len(),
    ensures
        x == bytes_u64(b@.subrange(pos as int, pos + 8)),
{
    let s = Ghost(b@.subrange(pos as int, pos + 8));
    assert(s@[0] == b@[pos as int] && s@[1] == b@[pos + 1] && s@[2] == b@[pos + 2] && s@[3] == b@[pos
        + 3] && s@[4] == b@[pos + 4] && s@[5] == b@[pos + 5] && s@[6] == b@[pos + 6] && s@[7] == b@[pos
        + 7]);
    (b[pos] as u64) | ((b[pos + 1] as u64) << 8u64) | ((b[pos + 2] as u64) << 16u64) | ((b[pos + 3]
        as u64) << 24u64) | ((b[pos + 4] as u64) << 32u64) | ((b[pos + 5] as u64) << 40u64) | ((b[pos
        + 6] as u64) << 48u64) | ((b[pos + 7] as u64) << 56u64)
}

/// The bytes that persist `term`, `vote` and `log`.
pub fn encode_state(term: u64, vote: Option<u32>, log: &Vec<(u64, Vec<u8>)>) -> (out: Vec<u8>)
    ensures
        out@ == state_bytes(term, vote, log_view(log@)),
{
    let mut out: Vec<u8> = Vec::new();
    push_u64(&mut out, term);
    let code: u64 = match vote {
        None => 0,
        Some(c) => c as u64 + 1,
    };
    push_u64(&mut out, code);
    push_u64(&mut out, log.len() as u64);
    let ghost head = u64_bytes(term) + u64_bytes(vote_code(vote)) + u64_bytes(log.len() as u64);
    assert(out@ =~= head + entries_bytes(log_view(log@).take(0)));
    let mut i: usize = 0;
    while i < log.len()
        invariant
            i <= log.len(),
            head == u64_bytes(term) + u64_bytes(vote_code(vote)) + u64_bytes(log@.len() as u64),
            out@ == head + entries_bytes(log_view(log@).take(i as int)),
        decreases log.len() - i,
    {
        let entry = &log[i];
        let ghost before = out@;
        push_u64(&mut out, entry.0);
        push_u64(&mut out, entry.1.len() as u64);
        let mut j: usize = 0;
        while j < entry.1.len()
            invariant
                j <= entry.1.len(),
                out@ == before + u64_bytes(entry.0) + u64_bytes(entry.1@.len() as u64) + entry.1@.take(
                    j as int,
                ),
            decreases entry.1.len() - j,
        {
            out.push(entry.1[j]);
            j = j + 1;
            assert(out@ =~= before + u64_bytes(entry.0) + u64_bytes(entry.1@.len() as u64)
                + entry.1@.take(j as int));
        }
        proof {
            let v = log_view(log@);
            assert(v.take(i + 1).drop_last() =~= v.take(i as int));
            assert(v.take(i + 1).last() == (entry.0, entry.1@));
            assert(entry.1@.take(j as int) =~= entry.1@);
            assert(out@ =~= head + entries_bytes(v.take(i + 1)));
        }
        i = i + 1;
    }
    assert(log_view(log@).take(i as int) =~= log_view(log@));
    out
}

/// The term, vote and log that `data` holds, as [`decode_state`] reads them.
pub fn decode(data: &[u8]) -> (state: Option<(u64, Option<u32>, Vec<(u64, Vec<u8>)>)>)
    ensures
        state is None <==> decode_state(data@) is None,
        state matches Some((term, vote, log)) ==> decode_state(data@) == Some(
            (term, vote, log_view(log@)),
        ),
{
    if data.len() < 24 {
        return None;
    }
    let term = read_u64(data, 0);
    let code = read_u64(data, 8);
    let n = read_u64(data, 16);
    if n == 0 {
        return None;
    }
    let vote: Option<u32> = if code == 0 {
        None
    } else if code - 1 <= u32::MAX as u64 {
        Some((code - 1) as u32)
    } else {
        return None;
    };
    let ghost b = data@.skip(24);
    let mut log: Vec<(u64, Vec<u8>)> = Vec::new();
    let mut pos: usize = 24;
    let mut k: u64 = 0;
    assert(log_view(log@) =~= Seq::<(u64, Seq<u8>)>::empty());
    assert(data@.skip(pos as int) =~= b);
    while k < n
        invariant
            k <= n,
            24 <= pos <= data@.len(),
            b == data@.skip(24),
            data@.len() >= 24,
            n == bytes_u64(data@.subrange(16, 24)),
            term == bytes_u64(data@.subrange(0, 8)),
            decode_vote(bytes_u64(data@.subrange(8, 16))) == Some(vote),
            n != 0,
            parse_entries(b, k as nat) == Some((log_view(log@), data@.skip(pos as int))),
        decreases n - k,
    {
        let ghost rest = data@.skip(pos as int);
        if data.len() - pos < 16 {
            assert(parse_entry(rest) is None);
            assert(parse_entries(b, (k + 1) as nat) is None);
            proof {
                lemma_parse_entries_none_beyond(b, (k + 1) as nat, n as nat);
            }
            return None;
        }
        let t = read_u64(data, pos);
        let len = read_u64(data, pos + 8);
        assert(rest.subrange(0, 8) =~= data@.subrange(pos as int, pos + 8));
        assert(rest.subrange(8, 16) =~= data@.subrange(pos + 8, pos + 16));
        if ((data.len() - pos - 16) as u64) < len {
            assert(parse_entry(rest) is None);
            assert(parse_entries(b, (k + 1) as nat) is None);
            proof {
                lemma_parse_entries_none_beyond(b, (k + 1) as nat, n as nat);
            }
            return None;
        }
        let start = pos + 16;
        let end = start + len as usize;
        let mut command: Vec<u8> = Vec::new();
        let mut j: usize = start;
        while j < end
            invariant
                start <= j <= end,
                end <= data@.len(),
                command@ == data@.subrange(start as int, j as int),
            decreases end - j,
        {
            command.push(data[j]);
            j = j + 1;
            assert(command@ =~= data@.subrange(start as int, j as int));
        }
        let ghost before = log@;
        log.push((t, command));
        proof {
            assert(rest.subrange(16, 16 + len) =~= data@.subrange(start as int, end as int));
            assert(rest.skip(16 + len) =~= data@.skip(end as int));
            assert(log_view(log@) =~= log_view(before).push((t, command@)));
        }
        pos = end;
        k = k + 1;
    }
    if pos != data.len() {
        return None;
    }
    assert(data@.skip(pos as int).len() == 0);
    Some((term, vote, log))
}

/// Once `b` runs out before entry `m`, it holds no `n >= m` entries either.
proof fn lemma_parse_entries_none_beyond(b: Seq<u8>, m: nat, n: nat)
    requires
        m <= n,
        parse_entries(b, m) is None,
    ensures
        parse_entries(b, n) is None,
    decreases n - m,
{
    if m < n {
        assert(parse_entries(b, m + 1) is None);
        lemma_parse_entries_none_beyond(b, m + 1, n);
    }
}

} // verus!
