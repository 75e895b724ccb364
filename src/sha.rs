//! SHA-256 digests of rows of field elements and of digest pairs.
use crate::field::Fp;
use vstd::prelude::*;

verus! {

/// Number of 32-bit words in a digest.
pub const DIGEST_WORDS: usize = 8;

/// A SHA-256 digest, held as eight 32-bit words.
#[derive(Clone, Copy, Debug)]
pub struct Digest {
    pub words: [u32; 8],
}

impl PartialEq for Digest {
    fn eq(&self, o: &Digest) -> (r: bool) {
        let mut i: usize = 0;
        while i < DIGEST_WORDS
            invariant
                i <= DIGEST_WORDS,
                forall|j: int| 0 <= j < i ==> self.words[j] == o.words[j],
            decreases DIGEST_WORDS - i,
        {
            if self.words[i] != o.words[i] {
                return false;
            }
            i = i + 1;
        }
        proof {
            assert(self@ =~= o@);
        }
        true
    }
}

impl vstd::std_specs::cmp::PartialEqSpecImpl for Digest {
    open spec fn obeys_eq_spec() -> bool {
        true
    }

    open spec fn eq_spec(&self, o: &Digest) -> bool {
        self@ == o@
    }
}

impl Eq for Digest {
}

impl View for Digest {
    type V = Seq<u32>;

    open spec fn view(&self) -> Seq<u32> {
        self.words@
    }
}

impl Digest {
    /// The all-zero digest.
    pub fn zero() -> (r: Digest)
        ensures
            r@ == seq![0u32; 8],
    {
        let r = Digest { words: [0u32; 8] };
        assert(r@ =~= seq![0u32; 8]);
        r
    }
}

/// The digest of a row of field elements.
pub uninterp spec fn hash_fps_of(row: Seq<Fp>) -> Seq<u32>;

/// The digest of an ordered pair of digests.
pub uninterp spec fn hash_pair_of(a: Seq<u32>, b: Seq<u32>) -> Seq<u32>;

/// Relies on risc0_zkp_core's CPU `Sha::hash_fps`: the SHA-256 compression of
/// the row's words, a function of the row alone.
#[verifier::external_body]
pub(crate) fn hash_fps(row: &Vec<Fp>) -> (r: Digest)
    ensures
        r@ == hash_fps_of(row@),
{
    let fps: Vec<risc0_zkp_core::fp::Fp> =
        row.iter().map(|x| risc0_zkp_core::fp::Fp::new(x.val)).collect();
    let d = risc0_zkp_core::sha::Sha::hash_fps(&risc0_zkp_core::sha_cpu::Impl {}, &fps);
    Digest { words: *d.get() }
}

/// Relies on risc0_zkp_core's CPU `Sha::hash_pair`: the SHA-256 compression of
/// the two digests' sixteen words, a function of the pair alone.
#[verifier::external_body]
pub(crate) fn hash_pair(a: &Digest, b: &Digest) -> (r: Digest)
    ensures
        r@ == hash_pair_of(a@, b@),
{
    let x = risc0_zkp_core::sha::Digest::new(a.words);
    let y = risc0_zkp_core::sha::Digest::new(b.words);
    let d = risc0_zkp_core::sha::Sha::hash_pair(&risc0_zkp_core::sha_cpu::Impl {}, &x, &y);
    Digest { words: *d.get() }
}

} // verus!
