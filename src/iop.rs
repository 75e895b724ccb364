//! The proof transcript: a linear stream of 32-bit words that the prover
//! writes and the verifier reads back in the same order, together with the
//! log of digests committed to it.
use crate::field::{Fp, P};
use crate::sha::{Digest, DIGEST_WORDS};
use crate::VerifyError;
use vstd::prelude::*;

verus! {

/// The words that carry a row of field elements.
pub open spec fn fps_words(row: Seq<Fp>) -> Seq<u32> {
    row.map_values(|f: Fp| f.val)
}

/// The field elements that a run of words stands for.
pub open spec fn words_fps(ws: Seq<u32>) -> Seq<Fp> {
    ws.map_values(|w: u32| Fp { val: (w % P) as u32 })
}

/// The words that carry a sequence of digests, one after the other.
pub open spec fn digests_words(ds: Seq<Seq<u32>>) -> Seq<u32>
    decreases ds.len(),
{
    if ds.len() == 0 {
        Seq::empty()
    } else {
        ds[0] + digests_words(ds.drop_first())
    }
}

/// The `n` digests carried by the words from `start` on.
pub open spec fn words_digests(ws: Seq<u32>, start: int, n: nat) -> Seq<Seq<u32>> {
    Seq::new(n, |k: int| ws.subrange(start + 8 * k, start + 8 * k + 8))
}

/// The transcript as the verifier reads it.
pub struct ReadIOP {
    /// The words of the proof.
    pub proof: Vec<u32>,
    /// How many words have been read.
    pub pos: usize,
    /// The digests committed so far, in order.
    pub commits: Vec<Digest>,
}

impl ReadIOP {
    /// A reader at the start of `proof`, with nothing committed.
    pub fn new(proof: Vec<u32>) -> (r: ReadIOP)
        ensures
            r.proof@ == proof@,
            r.pos == 0,
            r.commits@.len() == 0,
    {
        ReadIOP { proof, pos: 0, commits: Vec::new() }
    }

    /// Words still to be read.
    pub open spec fn remaining(self) -> int {
        self.proof@.len() - self.pos
    }

    /// Reads the next digest.
    pub fn read_digest(&mut self) -> (r: Result<Digest, VerifyError>)
        ensures
            final(self).proof@ == old(self).proof@,
            final(self).commits@ == old(self).commits@,
            old(self).remaining() >= 8 ==> r.is_ok() && r.unwrap()@ == old(self).proof@.subrange(
                old(self).pos as int,
                old(self).pos + 8,
            ) && final(self).pos == old(self).pos + 8,
            old(self).remaining() < 8 ==> r == Err::<Digest, VerifyError>(
                VerifyError::TranscriptUnderflow,
            ) && final(self).pos == old(self).pos,
    {
        if self.pos > self.proof.len() || self.proof.len() - self.pos < DIGEST_WORDS {
            return Err(VerifyError::TranscriptUnderflow);
        }
        let p = self.pos;
        let w = &self.proof;
        let d = Digest {
            words: [w[p], w[p + 1], w[p + 2], w[p + 3], w[p + 4], w[p + 5], w[p + 6], w[p + 7]],
        };
        self.pos = p + DIGEST_WORDS;
        assert(d@ =~= old(self).proof@.subrange(p as int, p + 8));
        Ok(d)
    }

    /// Reads the next `n` field elements.
    pub fn read_fps(&mut self, n: usize) -> (r: Result<Vec<Fp>, VerifyError>)
        ensures
            final(self).proof@ == old(self).proof@,
            final(self).commits@ == old(self).commits@,
            old(self).remaining() >= n ==> r.is_ok() && r.unwrap()@ == words_fps(
                old(self).proof@.subrange(old(self).pos as int, old(self).pos + n),
            ) && final(self).pos == old(self).pos + n,
            old(self).remaining() < n ==> r == Err::<Vec<Fp>, VerifyError>(
                VerifyError::TranscriptUnderflow,
            ) && final(self).pos == old(self).pos,
    {
        if self.pos > self.proof.len() || self.proof.len() - self.pos < n {
            return Err(VerifyError::TranscriptUnderflow);
        }
        let p = self.pos;
        let w = &self.proof;
        let mut out: Vec<Fp> = Vec::new();
        let mut i: usize = 0;
        while i < n
            invariant
                i <= n,
                p + n <= w.len(),
                out@ == words_fps(w@.subrange(p as int, p + i)),
            decreases n - i,
        {
            out.push(Fp::new(w[p + i]));
            i = i + 1;
            assert(out@ =~= words_fps(w@.subrange(p as int, p + i)));
        }
        self.pos = p + n;
        Ok(out)
    }

    /// Binds `d` into the transcript, so that later challenges depend on it.
    pub fn commit(&mut self, d: &Digest)
        ensures
            final(self).proof@ == old(self).proof@,
            final(self).pos == old(self).pos,
            final(self).commits@ == old(self).commits@.push(*d),
    {
        self.commits.push(*d);
    }
}

/// The transcript as the prover writes it.
pub struct WriteIOP {
    /// The words written so far.
    pub proof: Vec<u32>,
    /// The digests committed so far, in order.
    pub commits: Vec<Digest>,
}

impl WriteIOP {
    /// An empty transcript.
    pub fn new() -> (r: WriteIOP)
        ensures
            r.proof@.len() == 0,
            r.commits@.len() == 0,
    {
        WriteIOP { proof: Vec::new(), commits: Vec::new() }
    }

    /// Appends the words of a digest.
    pub fn write_digest(&mut self, d: &Digest)
        ensures
            final(self).proof@ == old(self).proof@ + d@,
            final(self).commits@ == old(self).commits@,
    {
        let mut i: usize = 0;
        while i < DIGEST_WORDS
            invariant
                i <= DIGEST_WORDS,
                self.commits@ == old(self).commits@,
                self.proof@ == old(self).proof@ + d@.subrange(0, i as int),
            decreases DIGEST_WORDS - i,
        {
            self.proof.push(d.words[i]);
            i = i + 1;
            assert(self.proof@ =~= old(self).proof@ + d@.subrange(0, i as int));
        }
        assert(d@.subrange(0, 8) =~= d@);
    }

    /// Appends the words of a row of field elements.
    pub fn write_fps(&mut self, row: &Vec<Fp>)
        ensures
            final(self).proof@ == old(self).proof@ + fps_words(row@),
            final(self).commits@ == old(self).commits@,
    {
        let mut i: usize = 0;
        while i < row.len()
            invariant
                i <= row@.len(),
                self.commits@ == old(self).commits@,
                self.proof@ == old(self).proof@ + fps_words(row@.subrange(0, i as int)),
            decreases row@.len() - i,
        {
            self.proof.push(row[i].val);
            i = i + 1;
            assert(self.proof@ =~= old(self).proof@ + fps_words(row@.subrange(0, i as int)));
        }
        assert(row@.subrange(0, row@.len() as int) =~= row@);
    }

    /// Binds `d` into the transcript, so that later challenges depend on it.
    pub fn commit(&mut self, d: &Digest)
        ensures
            final(self).proof@ == old(self).proof@,
            final(self).commits@ == old(self).commits@.push(*d),
    {
        self.commits.push(*d);
    }
}

} // verus!
