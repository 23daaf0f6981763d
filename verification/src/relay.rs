//! The byte relay: one direction of a proxied connection.
//!
//! A connection runs two directions concurrently, each a loop of "read a
//! chunk, write it to the far side". The loop's decision logic lives here:
//! [`RelayDirection::on_read`] takes what one read returned and yields the
//! exact bytes to write, ending the direction on a zero-length read (peer
//! half-close); [`RelayDirection::on_error`] ends it on an I/O error. The
//! direction forwards bytes unchanged and in order — never transformed.
//!
//! A connection task completes as soon as either direction ends; the
//! opposite direction may still be running as an independent unit of work
//! at that point.

use vstd::prelude::*;

verus! {

/// The bytes a direction forwards, given the chunks its reads return, in
/// order: everything up to (not including) the first empty read.
pub open spec fn relayed(reads: Seq<Seq<u8>>) -> Seq<u8>
    decreases reads.len(),
{
    if reads.len() == 0 {
        Seq::empty()
    } else if reads[0].len() == 0 {
        Seq::empty()
    } else {
        reads[0] + relayed(reads.skip(1))
    }
}

/// One direction of a relayed connection.
pub struct RelayDirection {
    /// Whether the direction has ended (half-close seen or I/O error).
    pub done: bool,
    /// The bytes forwarded so far.
    pub forwarded: Ghost<Seq<u8>>,
}

impl RelayDirection {
    pub fn new() -> (r: RelayDirection)
        ensures
            !r.done,
            r.forwarded@ == Seq::<u8>::empty(),
    {
        RelayDirection { done: false, forwarded: Ghost(Seq::empty()) }
    }

    /// Takes the outcome of one read — `n` bytes at the front of `buf` —
    /// and returns exactly those bytes to write to the far side, or `None`
    /// on a zero-length read, which ends the direction.
    pub fn on_read(&mut self, buf: &[u8], n: usize) -> (chunk: Option<Vec<u8>>)
        requires
            !old(self).done,
            n <= buf.len(),
        ensures
            match chunk {
                Some(v) => n > 0 && v@ == buf@.take(n as int) && !final(self).done
                    && final(self).forwarded@ == old(self).forwarded@ + v@,
                None => n == 0 && final(self).done
                    && final(self).forwarded@ == old(self).forwarded@,
            },
    {
        if n == 0 {
            self.done = true;
            return None;
        }
        let mut v: Vec<u8> = Vec::new();
        let mut i: usize = 0;
        while i < n
            invariant
                i <= n <= buf.len(),
                v@ == buf@.take(i as int),
            decreases n - i,
        {
            v.push(buf[i]);
            proof {
                assert(v@ =~= buf@.take(i + 1));
            }
            i += 1;
        }
        proof {
            self.forwarded@ = self.forwarded@ + v@;
        }
        Some(v)
    }

    /// Ends the direction on a read or write error; nothing more is
    /// forwarded.
    pub fn on_error(&mut self)
        ensures
            final(self).done,
            final(self).forwarded@ == old(self).forwarded@,
    {
        self.done = true;
    }
}

/// The relay loop of one direction over a full transcript of reads: feeds
/// each chunk through [`RelayDirection::on_read`] until the direction ends,
/// collecting the bytes written to the far side.
pub fn run_relay(reads: &Vec<Vec<u8>>) -> (out: Vec<u8>)
    ensures
        out@ == relayed(reads.deep_view()),
{
    let ghost rs = reads.deep_view();
    let mut dir = RelayDirection::new();
    let mut out: Vec<u8> = Vec::new();
    let mut i: usize = 0;
    proof {
        assert(rs.skip(0) =~= rs);
        assert(out@ + relayed(rs) =~= relayed(rs));
    }
    while i < reads.len()
        invariant
            i <= reads.len(),
            rs == reads.deep_view(),
            !dir.done,
            relayed(rs) == out@ + relayed(rs.skip(i as int)),
        decreases reads.len() - i,
    {
        let chunk = reads[i].as_slice();
        proof {
            assert(rs.skip(i as int)[0] == rs[i as int]);
            assert(rs.skip(i as int).skip(1) =~= rs.skip(i + 1));
            assert(chunk@ == rs[i as int]);
        }
        match dir.on_read(chunk, chunk.len()) {
            Some(v) => {
                let ghost old_out = out@;
                proof {
                    assert(v@ =~= rs[i as int]);
                }
                let mut v = v;
                out.append(&mut v);
                proof {
                    assert(out@ + relayed(rs.skip(i + 1)) =~= old_out + relayed(rs.skip(i as int)));
                }
            },
            None => {
                proof {
                    assert(relayed(rs.skip(i as int)) =~= Seq::<u8>::empty());
                    assert(out@ + relayed(rs.skip(i as int)) =~= out@);
                }
                return out;
            },
        }
        i += 1;
    }
    proof {
        assert(rs.skip(rs.len() as int) =~= Seq::<Seq<u8>>::empty());
        assert(out@ + relayed(rs.skip(rs.len() as int)) =~= out@);
    }
    out
}

/// Relay transparency: while neither side half-closes mid-transcript (no
/// read returns empty), the bytes forwarded are exactly the bytes read —
/// unmodified and in order. This holds of each direction alike, so it holds
/// client-to-upstream and upstream-to-client.
pub proof fn lemma_relay_transparent(reads: Seq<Seq<u8>>)
    requires
        forall|i: int| 0 <= i < reads.len() ==> (#[trigger] reads[i]).len() > 0,
    ensures
        relayed(reads) == reads.flatten(),
    decreases reads.len(),
{
    if reads.len() > 0 {
        assert(forall|i: int|
            0 <= i < reads.skip(1).len() ==> (#[trigger] reads.skip(1)[i]).len() > 0);
        lemma_relay_transparent(reads.skip(1));
        assert(reads.drop_first() =~= reads.skip(1));
        assert(reads.flatten() == reads.first() + reads.drop_first().flatten());
    }
}

} // verus!
