//! Merkle commitments to a matrix of field elements: the tree parameters, the
//! prover that builds and opens the tree, and the verifier that checks
//! openings against the committed top layer.
use crate::field::{Fp, P, all_wf};
use crate::iop::{ReadIOP, WriteIOP, words_fps, words_digests, fps_words, digests_words};
use crate::sha::{Digest, hash_fps, hash_pair, hash_fps_of, hash_pair_of};
use crate::VerifyError;
use vstd::arithmetic::power2::{pow2, lemma_pow2_unfold, lemma_pow2_strictly_increases, lemma2_to64};
use vstd::prelude::*;

verus! {

/// `t` is the top layer of a tree with `layers` layers opened `queries`
/// times: the largest layer below `layers` whose width is at most
/// `queries`, or layer zero when no layer from one on qualifies.
pub open spec fn is_top_layer(t: nat, layers: nat, queries: nat) -> bool {
    &&& (t == 0 || (t < layers && pow2(t) <= queries))
    &&& forall|j: nat| t < j < layers ==> pow2(j) > queries
}

/// `n` is a power of two that fits in 32 bits.
pub open spec fn is_row_size(n: nat) -> bool {
    n <= 0xffff_ffff && exists|k: nat| pow2(k) == n
}

/// The top layer of a tree with `2^layers` rows opened `queries` times.
pub open spec fn choose_top_layer(row_size: nat, queries: nat) -> nat {
    let layers = choose|l: nat| pow2(l) == row_size;
    choose|t: nat| is_top_layer(t, layers, queries)
}

proof fn lemma_top_layer_unique(p: MerkleTreeParams, row_size: nat, queries: nat)
    requires
        p.wf(),
        p.row_size == row_size,
        p.queries == queries,
    ensures
        choose_top_layer(row_size, queries) == p.top_layer,
{
    let layers = choose|l: nat| pow2(l) == row_size;
    assert(pow2(p.layers as nat) == row_size);
    if layers != p.layers {
        if layers < p.layers {
            lemma_pow2_strictly_increases(layers, p.layers as nat);
        } else {
            lemma_pow2_strictly_increases(p.layers as nat, layers);
        }
    }
    assert(is_top_layer(p.top_layer as nat, layers, queries));
    let t = choose|t: nat| is_top_layer(t, layers, queries);
    if t < p.top_layer {
        assert(pow2(p.top_layer as nat) > queries);
    } else if t > p.top_layer {
        assert(pow2(t) > queries);
    }
}

proof fn lemma_level_step(p: MerkleTreeParams, pos: nat, k: nat)
    requires
        p.wf(),
        k <= p.levels(),
        pos >= 2 * p.top_size,
        pow2((p.layers - k) as nat) <= pos < pow2((p.layers - k + 1) as nat),
    ensures
        k < p.levels(),
        pow2((p.layers - (k + 1)) as nat) <= pos / 2 < pow2((p.layers - (k + 1) + 1) as nat),
{
    lemma_pow2_unfold((p.top_layer + 1) as nat);
    if p.top_layer + 1 >= p.layers - k + 1 {
        if p.top_layer + 1 > p.layers - k + 1 {
            lemma_pow2_strictly_increases((p.layers - k + 1) as nat, (p.top_layer + 1) as nat);
        }
        assert(false);
    }
    lemma_pow2_unfold((p.layers - k) as nat);
    lemma_pow2_unfold((p.layers - k + 1) as nat);
}

proof fn lemma_level_exit(p: MerkleTreeParams, pos: nat, k: nat)
    requires
        p.wf(),
        k <= p.levels(),
        pos < 2 * p.top_size,
        pow2((p.layers - k) as nat) <= pos,
    ensures
        k == p.levels(),
{
    lemma_pow2_unfold((p.top_layer + 1) as nat);
    if k < p.levels() {
        lemma_pow2_strictly_increases((p.top_layer + 1) as nat, (p.layers - k) as nat);
        if p.top_layer + 1 == p.layers - k {
        }
    }
}

pub(crate) proof fn lemma_matrix_index(rows: int, cols: int, i: int, j: int)
    requires
        0 <= i < rows,
        0 <= j < cols,
    ensures
        0 <= j * rows + i < rows * cols,
{
    assert(0 <= j * rows + i < rows * cols) by (nonlinear_arith)
        requires
            0 <= i < rows,
            0 <= j < cols,
    {
        assert((j + 1) * rows <= cols * rows) by (nonlinear_arith)
            requires
                0 <= j < cols,
                0 < rows,
        ;
    }
}

proof fn lemma_top_below_rows(p: MerkleTreeParams)
    requires
        p.wf(),
    ensures
        p.top_size <= p.row_size,
        p.top_layer <= p.layers,
{
    if p.top_layer < p.layers {
        lemma_pow2_strictly_increases(p.top_layer as nat, p.layers as nat);
    }
}

proof fn lemma_digests_words_push(ds: Seq<Seq<u32>>, d: Seq<u32>)
    ensures
        digests_words(ds.push(d)) == digests_words(ds) + d,
    decreases ds.len(),
{
    if ds.len() == 0 {
        assert(ds.push(d).drop_first() =~= Seq::<Seq<u32>>::empty());
        assert(digests_words(ds.push(d).drop_first()) == Seq::<u32>::empty());
        assert(digests_words(ds.push(d)) =~= d);
    } else {
        assert(ds.push(d).drop_first() =~= ds.drop_first().push(d));
        lemma_digests_words_push(ds.drop_first(), d);
        assert(digests_words(ds.push(d)) =~= digests_words(ds) + d);
    }
}

/// Relies on risc0_zkp_core::to_po2: the floor of the base two logarithm of
/// a nonzero 32-bit value (`31 - leading_zeros`).
#[verifier::external_body]
fn to_po2(x: usize) -> (r: usize)
    requires
        1 <= x <= 0xffff_ffff,
    ensures
        r < 32,
        pow2(r as nat) <= x < pow2((r + 1) as nat),
{
    risc0_zkp_core::to_po2(x)
}

/// The shape of a Merkle tree over field-element rows.
#[derive(Clone, Copy, Debug, PartialEq, Eq, Structural)]
pub struct MerkleTreeParams {
    /// Number of leaves (rows).
    pub row_size: usize,
    /// Number of field elements in each row.
    pub col_size: usize,
    /// Number of openings that will be checked against the tree.
    pub queries: usize,
    /// Number of layers below the root: `row_size == 2^layers`.
    pub layers: usize,
    /// The layer above which digests are checked only once.
    pub top_layer: usize,
    /// Number of digests in the top layer: `2^top_layer`.
    pub top_size: usize,
}

impl MerkleTreeParams {
    /// The sizes are consistent with one another.
    pub open spec fn wf(self) -> bool {
        &&& self.layers < 32
        &&& self.row_size == pow2(self.layers as nat)
        &&& self.top_size == pow2(self.top_layer as nat)
        &&& is_top_layer(self.top_layer as nat, self.layers as nat, self.queries as nat)
    }

    /// Number of sibling digests sent with each opening.
    pub open spec fn levels(self) -> nat {
        (self.layers - self.top_layer) as nat
    }

    /// The parameters of a tree with `row_size` rows of `col_size` elements
    /// that will be opened `queries` times. Fails when `row_size` is not a
    /// power of two that fits in 32 bits.
    pub fn new(row_size: usize, col_size: usize, queries: usize) -> (r: Result<
        MerkleTreeParams,
        VerifyError,
    >)
        ensures
            r.is_ok() <==> is_row_size(row_size as nat),
            r.is_err() ==> r == Err::<MerkleTreeParams, VerifyError>(
                VerifyError::ConfigurationError,
            ),
            r.is_ok() ==> {
                let p = r.unwrap();
                &&& p.wf()
                &&& p.row_size == row_size
                &&& p.col_size == col_size
                &&& p.queries == queries
            },
    {
        if row_size == 0 || row_size > 0xffff_ffff {
            proof {
                if row_size == 0 {
                    assert forall|k: nat| pow2(k) != row_size by {
                        vstd::arithmetic::power2::lemma_pow2_pos(k);
                    }
                }
            }
            return Err(VerifyError::ConfigurationError);
        }
        let layers = to_po2(row_size);
        let mut row_pow: u64 = 1;
        let mut l: usize = 0;
        proof {
            lemma2_to64();
        }
        while l < layers
            invariant
                l <= layers < 32,
                row_pow == pow2(l as nat),
            decreases layers - l,
        {
            proof {
                lemma_pow2_unfold((l + 1) as nat);
                lemma2_to64();
                if l + 1 < 32 {
                    lemma_pow2_strictly_increases((l + 1) as nat, 32);
                }
            }
            row_pow = row_pow * 2;
            l = l + 1;
        }
        if row_pow != row_size as u64 {
            proof {
                assert forall|k: nat| pow2(k) != row_size by {
                    if k < layers {
                        lemma_pow2_strictly_increases(k, layers as nat);
                    } else if k > layers {
                        if k > layers + 1 {
                            lemma_pow2_strictly_increases((layers + 1) as nat, k);
                        }
                    }
                }
            }
            return Err(VerifyError::ConfigurationError);
        }
        let mut top_layer: usize = 0;
        let mut top_size: u64 = 1;
        let mut i: usize = 1;
        let mut pow: u64 = 2;
        proof {
            lemma_pow2_unfold(1);
        }
        while i < layers
            invariant
                1 <= i,
                i <= layers || layers == 0,
                layers < 32,
                pow == pow2(i as nat),
                top_size == pow2(top_layer as nat),
                top_layer == i - 1,
                top_layer == 0 || (top_layer < layers && pow2(top_layer as nat) <= queries),
            ensures
                i >= layers || pow > queries,
                top_size == pow2(top_layer as nat),
                top_layer == i - 1,
                top_layer == 0 || (top_layer < layers && pow2(top_layer as nat) <= queries),
                pow == pow2(i as nat),
            decreases layers - i,
        {
            if pow > queries as u64 {
                break;
            }
            top_layer = i;
            top_size = pow;
            proof {
                lemma_pow2_unfold((i + 1) as nat);
                lemma2_to64();
                if i + 1 < 32 {
                    lemma_pow2_strictly_increases((i + 1) as nat, 32);
                }
            }
            pow = pow * 2;
            i = i + 1;
        }
        proof {
            assert forall|j: nat| top_layer < j < layers implies pow2(j) > queries by {
                if j > i {
                    lemma_pow2_strictly_increases(i as nat, j);
                }
            }
        }
        Ok(
            MerkleTreeParams {
                row_size,
                col_size,
                queries,
                layers,
                top_layer,
                top_size: top_size as usize,
            },
        )
    }
}

/// Digest of node `i` of the complete binary tree with the given leaf
/// digests: node `i` has children `2i` and `2i + 1`, and the leaves are the
/// nodes `n .. 2n` for `n` leaves. The root is node one.
pub open spec fn tree_node(leaves: Seq<Seq<u32>>, i: nat) -> Seq<u32>
    decreases 2 * leaves.len() - i,
{
    if i >= leaves.len() {
        if i < 2 * leaves.len() {
            leaves[i - leaves.len()]
        } else {
            Seq::empty()
        }
    } else if i == 0 {
        Seq::empty()
    } else {
        hash_pair_of(tree_node(leaves, 2 * i), tree_node(leaves, 2 * i + 1))
    }
}

/// The digest reached from `cur` at node `pos` by hashing with each sibling
/// in turn, leaf side first.
pub open spec fn path_digest(cur: Seq<u32>, pos: nat, sibs: Seq<Seq<u32>>) -> Seq<u32>
    decreases sibs.len(),
{
    if sibs.len() == 0 {
        cur
    } else {
        let next = if pos % 2 == 0 {
            hash_pair_of(cur, sibs[0])
        } else {
            hash_pair_of(sibs[0], cur)
        };
        path_digest(next, pos / 2, sibs.drop_first())
    }
}

/// The top of a verifier's tree: index `i` holds node `i` of the tree over
/// the `n` committed digests, for `1 <= i < 2n`.
pub open spec fn top_matches(top: Seq<Seq<u32>>, leaves: Seq<Seq<u32>>) -> bool {
    &&& top.len() == 2 * leaves.len()
    &&& forall|i: int| 1 <= i < top.len() ==> #[trigger] top[i] == tree_node(leaves, i as nat)
}

/// What checking the opening of row `idx` that starts at word `start` of
/// `ws` against the top layer `top` gives.
pub open spec fn verify_outcome(
    params: MerkleTreeParams,
    top: Seq<Seq<u32>>,
    ws: Seq<u32>,
    start: int,
    idx: nat,
) -> Result<Seq<Fp>, VerifyError> {
    let col = params.col_size as int;
    let levels = params.levels();
    if idx >= params.row_size {
        Err(VerifyError::IndexOutOfRange)
    } else if ws.len() - start < col + 8 * levels {
        Err(VerifyError::TranscriptUnderflow)
    } else {
        let row = words_fps(ws.subrange(start, start + col));
        let sibs = words_digests(ws, start + col, levels);
        let leaf_pos = (idx + params.row_size) as nat;
        let pos = leaf_pos / pow2(levels);
        if top[pos as int] == path_digest(hash_fps_of(row), leaf_pos, sibs) {
            Ok(row)
        } else {
            Err(VerifyError::MerkleMismatch)
        }
    }
}

/// The views of a sequence of digests.
pub open spec fn digest_views(ds: Seq<Digest>) -> Seq<Seq<u32>> {
    ds.map_values(|d: Digest| d@)
}

/// Row `i` of a matrix stored column after column: element `j` of the row
/// is element `j * rows + i` of the matrix.
pub open spec fn row_of(matrix: Seq<Fp>, rows: nat, cols: nat, i: int) -> Seq<Fp> {
    Seq::new(cols, |j: int| matrix[j * rows + i])
}

/// The leaf digests of a matrix: the digest of each row.
pub open spec fn leaf_digests(matrix: Seq<Fp>, rows: nat, cols: nat) -> Seq<Seq<u32>> {
    Seq::new(rows, |i: int| hash_fps_of(row_of(matrix, rows, cols, i)))
}

/// The other child of node `p`'s parent.
pub open spec fn sibling(p: nat) -> nat {
    if p % 2 == 0 {
        p + 1
    } else {
        (p - 1) as nat
    }
}

/// The `n` sibling digests on the path up from node `leaf_pos`.
pub open spec fn path_siblings(leaves: Seq<Seq<u32>>, leaf_pos: nat, n: nat) -> Seq<Seq<u32>> {
    Seq::new(n, |k: int| tree_node(leaves, sibling(leaf_pos / pow2(k as nat))))
}

/// The digests of the nodes `n .. 2n` of the tree over `leaves`.
pub open spec fn layer_digests(leaves: Seq<Seq<u32>>, n: nat) -> Seq<Seq<u32>> {
    Seq::new(n, |k: int| tree_node(leaves, (n + k) as nat))
}

/// The prover's side of a commitment: the matrix and every node of the tree
/// over its rows.
pub struct MerkleTreeProver {
    pub params: MerkleTreeParams,
    /// The committed matrix, column after column.
    pub matrix: Vec<Fp>,
    /// Node `i` of the tree at index `i`, for `1 <= i < 2 * row_size`.
    pub tree: Vec<Digest>,
}

impl MerkleTreeProver {
    /// The leaf digests of the committed matrix.
    pub open spec fn leaves(self) -> Seq<Seq<u32>> {
        leaf_digests(self.matrix@, self.params.row_size as nat, self.params.col_size as nat)
    }

    /// The tree holds the digests of the matrix's rows and of every node
    /// above them.
    pub open spec fn wf(self) -> bool {
        &&& self.params.wf()
        &&& self.matrix@.len() == self.params.row_size * self.params.col_size
        &&& all_wf(self.matrix@)
        &&& self.tree@.len() == 2 * self.params.row_size
        &&& top_matches(digest_views(self.tree@), self.leaves())
    }

    /// Builds the tree over `matrix`, which holds `col_size` columns of
    /// `row_size` elements each, one column after the other. Fails when
    /// `row_size` is not a power of two that fits in 32 bits or the matrix
    /// does not have `row_size * col_size` elements.
    pub fn new(matrix: &Vec<Fp>, row_size: usize, col_size: usize, queries: usize) -> (r: Result<
        MerkleTreeProver,
        VerifyError,
    >)
        requires
            all_wf(matrix@),
        ensures
            r.is_ok() <==> is_row_size(row_size as nat) && matrix@.len() == row_size * col_size,
            r.is_err() ==> r == Err::<MerkleTreeProver, VerifyError>(
                VerifyError::ConfigurationError,
            ),
            r.is_ok() ==> {
                let t = r.unwrap();
                &&& t.wf()
                &&& t.matrix@ == matrix@
                &&& t.params.row_size == row_size
                &&& t.params.col_size == col_size
                &&& t.params.queries == queries
            },
    {
        let params = match MerkleTreeParams::new(row_size, col_size, queries) {
            Ok(p) => p,
            Err(e) => {
                return Err(e);
            },
        };
        let len_ok = if col_size == 0 {
            matrix.len() == 0
        } else {
            matrix.len() % col_size == 0 && matrix.len() / col_size == row_size
        };
        if !len_ok {
            proof {
                if matrix@.len() == row_size * col_size {
                    vstd::arithmetic::div_mod::lemma_div_multiples_vanish(row_size as int, col_size as int);
                    vstd::arithmetic::div_mod::lemma_mod_multiples_basic(row_size as int, col_size as int);
                    vstd::arithmetic::mul::lemma_mul_is_commutative(row_size as int, col_size as int);
                }
            }
            return Err(VerifyError::ConfigurationError);
        }
        proof {
            vstd::arithmetic::power2::lemma_pow2_pos(params.layers as nat);
            if col_size != 0 {
                vstd::arithmetic::div_mod::lemma_fundamental_div_mod(matrix@.len() as int, col_size as int);
                vstd::arithmetic::mul::lemma_mul_is_commutative(row_size as int, col_size as int);
            }
        }
        let ghost leaves = leaf_digests(matrix@, row_size as nat, col_size as nat);
        let mut data: Vec<Fp> = Vec::new();
        let mut i: usize = 0;
        while i < matrix.len()
            invariant
                i <= matrix@.len(),
                data@ == matrix@.subrange(0, i as int),
            decreases matrix@.len() - i,
        {
            data.push(matrix[i]);
            i = i + 1;
            assert(data@ =~= matrix@.subrange(0, i as int));
        }
        assert(data@ =~= matrix@);
        let mut tree: Vec<Digest> = Vec::new();
        let mut i: usize = 0;
        while i < row_size
            invariant
                i <= row_size,
                tree@.len() == i,
            decreases row_size - i,
        {
            tree.push(Digest::zero());
            i = i + 1;
        }
        let mut i: usize = 0;
        while i < row_size
            invariant
                i <= row_size,
                row_size > 0,
                matrix.len() == row_size * col_size,
                leaves == leaf_digests(matrix@, row_size as nat, col_size as nat),
                tree@.len() == row_size + i,
                forall|j: int| row_size <= j < row_size + i ==> #[trigger] tree@[j]@ == leaves[j - row_size],
            decreases row_size - i,
        {
            let mut row: Vec<Fp> = Vec::new();
            let mut j: usize = 0;
            while j < col_size
                invariant
                    i < row_size,
                    j <= col_size,
                    matrix.len() == row_size * col_size,
                    row@ == row_of(matrix@, row_size as nat, col_size as nat, i as int).subrange(0, j as int),
                decreases col_size - j,
            {
                proof {
                    lemma_matrix_index(row_size as int, col_size as int, i as int, j as int);
                }
                row.push(matrix[j * row_size + i]);
                j = j + 1;
                assert(row@ =~= row_of(matrix@, row_size as nat, col_size as nat, i as int).subrange(
                    0,
                    j as int,
                ));
            }
            assert(row@ =~= row_of(matrix@, row_size as nat, col_size as nat, i as int));
            tree.push(hash_fps(&row));
            i = i + 1;
        }
        let mut i: usize = row_size;
        while i > 1
            invariant
                1 <= i <= row_size,
                tree.len() == 2 * row_size,
                leaves.len() == row_size,
                forall|j: int| row_size <= j < 2 * row_size ==> #[trigger] tree@[j]@ == leaves[j - row_size],
                forall|j: int| i <= j < 2 * row_size ==> #[trigger] tree@[j]@ == tree_node(leaves, j as nat),
            decreases i,
        {
            i = i - 1;
            let h = hash_pair(&tree[2 * i], &tree[2 * i + 1]);
            tree.set(i, h);
        }
        Ok(MerkleTreeProver { params, matrix: data, tree })
    }

    /// The root of the tree.
    pub fn root(&self) -> (r: &Digest)
        requires
            self.wf(),
        ensures
            r@ == tree_node(self.leaves(), 1),
    {
        proof {
            vstd::arithmetic::power2::lemma_pow2_pos(self.params.layers as nat);
            assert(digest_views(self.tree@)[1] == self.tree@[1]@);
        }
        &self.tree[1]
    }

    /// Writes the top layer of the tree to `iop` in index order, then
    /// commits to the root.
    pub fn commit_top(&self, iop: &mut WriteIOP)
        requires
            self.wf(),
        ensures
            final(iop).proof@ == old(iop).proof@ + digests_words(
                layer_digests(self.leaves(), self.params.top_size as nat),
            ),
            final(iop).commits@.len() == old(iop).commits@.len() + 1,
            final(iop).commits@ == old(iop).commits@.push(final(iop).commits@.last()),
            final(iop).commits@.last()@ == tree_node(self.leaves(), 1),
    {
        let top_size = self.params.top_size;
        let ghost leaves = self.leaves();
        let ghost layer = layer_digests(leaves, top_size as nat);
        proof {
            lemma_top_below_rows(self.params);
            vstd::arithmetic::power2::lemma_pow2_pos(self.params.layers as nat);
        }
        let mut k: usize = 0;
        while k < top_size
            invariant
                self.wf(),
                leaves == self.leaves(),
                layer == layer_digests(leaves, top_size as nat),
                top_size == self.params.top_size,
                top_size <= self.params.row_size,
                self.tree.len() == 2 * self.params.row_size,
                k <= top_size,
                iop.commits@ == old(iop).commits@,
                iop.proof@ == old(iop).proof@ + digests_words(layer.subrange(0, k as int)),
            decreases top_size - k,
        {
            let d = &self.tree[top_size + k];
            iop.write_digest(d);
            proof {
                assert(digest_views(self.tree@)[top_size + k] == d@);
                assert(layer[k as int] == d@);
                lemma_digests_words_push(layer.subrange(0, k as int), layer[k as int]);
                assert(layer.subrange(0, k as int).push(layer[k as int]) =~= layer.subrange(0, k + 1));
            }
            k = k + 1;
        }
        assert(layer.subrange(0, top_size as int) =~= layer);
        assert(digest_views(self.tree@)[1] == self.tree@[1]@);
        iop.commit(&self.tree[1]);
    }

    /// Writes the opening of row `idx` to `iop`: the row's elements, then the
    /// sibling digests from the leaf up to the top layer. Returns the row.
    pub fn open(&self, iop: &mut WriteIOP, idx: usize) -> (r: Vec<Fp>)
        requires
            self.wf(),
            idx < self.params.row_size,
        ensures
            r@ == row_of(
                self.matrix@,
                self.params.row_size as nat,
                self.params.col_size as nat,
                idx as int,
            ),
            final(iop).commits@ == old(iop).commits@,
            final(iop).proof@ == old(iop).proof@ + fps_words(r@) + digests_words(
                path_siblings(
                    self.leaves(),
                    (idx + self.params.row_size) as nat,
                    self.params.levels(),
                ),
            ),
    {
        let row_size = self.params.row_size;
        let col_size = self.params.col_size;
        let top_size = self.params.top_size;
        let mut row: Vec<Fp> = Vec::new();
        let mut j: usize = 0;
        while j < col_size
            invariant
                self.wf(),
                idx < row_size,
                row_size == self.params.row_size,
                col_size == self.params.col_size,
                self.matrix.len() == row_size * col_size,
                j <= col_size,
                row@ == row_of(self.matrix@, row_size as nat, col_size as nat, idx as int).subrange(
                    0,
                    j as int,
                ),
            decreases col_size - j,
        {
            proof {
                lemma_matrix_index(row_size as int, col_size as int, idx as int, j as int);
            }
            row.push(self.matrix[j * row_size + idx]);
            j = j + 1;
            assert(row@ =~= row_of(self.matrix@, row_size as nat, col_size as nat, idx as int).subrange(
                0,
                j as int,
            ));
        }
        assert(row@ =~= row_of(self.matrix@, row_size as nat, col_size as nat, idx as int));
        iop.write_fps(&row);
        let ghost leaves = self.leaves();
        let ghost levels = self.params.levels();
        let ghost leaf_pos = (idx + row_size) as nat;
        let ghost sibs = path_siblings(leaves, leaf_pos, levels);
        let ghost base = iop.proof@;
        proof {
            lemma_pow2_unfold((self.params.layers + 1) as nat);
            lemma2_to64();
            if self.params.layers + 1 < 32 {
                lemma_pow2_strictly_increases((self.params.layers + 1) as nat, 32);
            }
            vstd::arithmetic::power2::lemma_pow2_pos(self.params.top_layer as nat);
            vstd::arithmetic::power2::lemma_pow2_pos(0);
            if self.params.top_layer < 31 {
                lemma_pow2_strictly_increases(self.params.top_layer as nat, 31);
            }
            assert(leaf_pos / pow2(0) == leaf_pos);
        }
        let mut pos: usize = idx + row_size;
        let mut k: usize = 0;
        while pos / 2 >= top_size
            invariant
                self.wf(),
                leaves == self.leaves(),
                top_size == self.params.top_size,
                top_size <= 0x8000_0000,
                top_size >= 1,
                self.tree.len() == 2 * row_size,
                levels == self.params.levels(),
                sibs == path_siblings(leaves, leaf_pos, levels),
                k <= levels,
                1 <= pos < 2 * row_size,
                row_size == self.params.row_size,
                pow2((self.params.layers - k) as nat) <= pos < pow2((self.params.layers - k + 1) as nat),
                pos == leaf_pos / pow2(k as nat),
                iop.commits@ == old(iop).commits@,
                iop.proof@ == base + digests_words(sibs.subrange(0, k as int)),
            decreases pos,
        {
            proof {
                lemma_level_step(self.params, pos as nat, k as nat);
                vstd::arithmetic::power2::lemma_pow2_pos(k as nat);
                vstd::arithmetic::div_mod::lemma_div_denominator(leaf_pos as int, pow2(k as nat) as int, 2);
                lemma_pow2_unfold((k + 1) as nat);
                vstd::arithmetic::mul::lemma_mul_is_commutative(pow2(k as nat) as int, 2);
            }
            let other = if pos % 2 == 0 { pos + 1 } else { pos - 1 };
            iop.write_digest(&self.tree[other]);
            proof {
                assert(sibling(pos as nat) == other);
                assert(digest_views(self.tree@)[other as int] == self.tree@[other as int]@);
                assert(sibs[k as int] == tree_node(leaves, sibling(pos as nat)));
                lemma_digests_words_push(sibs.subrange(0, k as int), sibs[k as int]);
                assert(sibs.subrange(0, k as int).push(sibs[k as int]) =~= sibs.subrange(0, k + 1));
            }
            pos = pos / 2;
            k = k + 1;
        }
        proof {
            lemma_level_exit(self.params, pos as nat, k as nat);
            assert(sibs.subrange(0, levels as int) =~= sibs);
        }
        row
    }
}

/// The verifier's side of a commitment: the parameters and the digests of
/// the top of the tree, checked once when the commitment is read.
pub struct MerkleTreeVerifier {
    pub params: MerkleTreeParams,
    /// Node `i` of the tree at index `i`, for `1 <= i < 2 * top_size`.
    pub top: Vec<Digest>,
}

impl MerkleTreeVerifier {
    /// The verifier is consistent with its parameters.
    pub open spec fn wf(self) -> bool {
        &&& self.params.wf()
        &&& self.top@.len() == 2 * self.params.top_size
    }

    /// Reads the top layer of a commitment from `iop`, rebuilds the nodes
    /// above it, and commits to the root.
    pub fn new(iop: &mut ReadIOP, row_size: usize, col_size: usize, queries: usize) -> (r: Result<
        MerkleTreeVerifier,
        VerifyError,
    >)
        ensures
            final(iop).proof@ == old(iop).proof@,
            !is_row_size(row_size as nat) ==> r == Err::<
                MerkleTreeVerifier,
                VerifyError,
            >(VerifyError::ConfigurationError),
            r.is_ok() ==> {
                let v = r.unwrap();
                let leaves = words_digests(
                    old(iop).proof@,
                    old(iop).pos as int,
                    v.params.top_size as nat,
                );
                &&& v.wf()
                &&& v.params.row_size == row_size
                &&& v.params.col_size == col_size
                &&& v.params.queries == queries
                &&& old(iop).remaining() >= 8 * v.params.top_size
                &&& final(iop).pos == old(iop).pos + 8 * v.params.top_size
                &&& top_matches(digest_views(v.top@), leaves)
                &&& final(iop).commits@ == old(iop).commits@.push(v.top@[1])
            },
            is_row_size(row_size as nat) ==> (r.is_err()
                <==> old(iop).remaining() < 8 * pow2(
                choose_top_layer(row_size as nat, queries as nat),
            )),
            r.is_err() && is_row_size(row_size as nat)
                ==> r == Err::<MerkleTreeVerifier, VerifyError>(VerifyError::TranscriptUnderflow),
    {
        let params = match MerkleTreeParams::new(row_size, col_size, queries) {
            Ok(p) => p,
            Err(e) => {
                return Err(e);
            },
        };
        proof {
            lemma_top_layer_unique(params, row_size as nat, queries as nat);
            vstd::arithmetic::power2::lemma_pow2_pos(params.top_layer as nat);
            if params.top_layer < params.layers {
                lemma_pow2_strictly_increases(params.top_layer as nat, params.layers as nat);
            }
        }
        let top_size = params.top_size;
        let ghost ws = iop.proof@;
        let ghost start = iop.pos as int;
        let ghost leaves = words_digests(ws, start, top_size as nat);
        proof {
            lemma2_to64();
            if params.top_layer < 31 {
                lemma_pow2_strictly_increases(params.top_layer as nat, 31);
            }
            assert(pow2(params.layers as nat) == row_size);
            assert(is_row_size(row_size as nat));
            assert(ws == old(iop).proof@);
        }
        let mut top: Vec<Digest> = Vec::new();
        let mut i: usize = 0;
        while i < top_size
            invariant
                i <= top_size,
                top@.len() == i,
                top_size <= 0x8000_0000,
            decreases top_size - i,
        {
            top.push(Digest::zero());
            i = i + 1;
        }
        let mut k: usize = 0;
        while k < top_size
            invariant
                k <= top_size,
                top_size <= 0x8000_0000,
                iop.proof@ == ws,
                leaves == words_digests(ws, start, top_size as nat),
                ws == old(iop).proof@,
                start == old(iop).pos,
                iop.commits@ == old(iop).commits@,
                iop.pos == start + 8 * k,
                k == 0 || old(iop).remaining() >= 8 * k,
                params.wf(),
                params.row_size == row_size,
                params.col_size == col_size,
                params.queries == queries,
                params.top_size == top_size,
                choose_top_layer(row_size as nat, queries as nat) == params.top_layer,
                is_row_size(row_size as nat),
                top@.len() == top_size + k,
                forall|j: int| top_size <= j < top_size + k ==> #[trigger] top@[j]@ == leaves[j - top_size],
            decreases top_size - k,
        {
            let d = match iop.read_digest() {
                Ok(d) => d,
                Err(e) => {
                    return Err(e);
                },
            };
            assert(leaves[k as int] == ws.subrange(start + 8 * k, start + 8 * k + 8));
            top.push(d);
            k = k + 1;
        }
        let mut i: usize = top_size;
        while i > 1
            invariant
                1 <= i <= top_size,
                top_size <= 0x8000_0000,
                top@.len() == 2 * top_size,
                forall|j: int| top_size <= j < 2 * top_size ==> #[trigger] top@[j]@ == leaves[j - top_size],
                forall|j: int| i <= j < 2 * top_size ==> #[trigger] top@[j]@ == tree_node(leaves, j as nat),
            decreases i,
        {
            i = i - 1;
            let h = hash_pair(&top[2 * i], &top[2 * i + 1]);
            top.set(i, h);
        }
        iop.commit(&top[1]);
        proof {
            assert(top_matches(digest_views(top@), leaves));
        }
        Ok(MerkleTreeVerifier { params, top })
    }

    /// The root of the committed tree.
    pub fn root(&self) -> (r: &Digest)
        requires
            self.wf(),
        ensures
            *r == self.top@[1],
    {
        proof {
            vstd::arithmetic::power2::lemma_pow2_pos(self.params.top_layer as nat);
        }
        &self.top[1]
    }

    /// Reads the opening of row `idx` from `iop` and checks it against the
    /// top of the tree; returns the opened row.
    pub fn verify(&self, iop: &mut ReadIOP, idx: usize) -> (r: Result<Vec<Fp>, VerifyError>)
        requires
            self.wf(),
        ensures
            final(iop).proof@ == old(iop).proof@,
            final(iop).commits@ == old(iop).commits@,
            match verify_outcome(
                self.params,
                digest_views(self.top@),
                old(iop).proof@,
                old(iop).pos as int,
                idx as nat,
            ) {
                Ok(row) => r.is_ok() && r.unwrap()@ == row && final(iop).pos == old(iop).pos
                    + self.params.col_size + 8 * self.params.levels(),
                Err(e) => r == Err::<Vec<Fp>, VerifyError>(e),
            },
    {
        let col_size = self.params.col_size;
        let row_size = self.params.row_size;
        let top_size = self.params.top_size;
        let ghost ws = iop.proof@;
        let ghost start = iop.pos as int;
        let ghost levels = self.params.levels();
        let ghost sibs = words_digests(ws, start + col_size, levels);
        if idx >= row_size {
            return Err(VerifyError::IndexOutOfRange);
        }
        let out = match iop.read_fps(col_size) {
            Ok(v) => v,
            Err(e) => {
                return Err(e);
            },
        };
        let ghost row = out@;
        let mut cur = hash_fps(&out);
        proof {
            lemma_pow2_unfold((self.params.layers + 1) as nat);
            lemma2_to64();
            if self.params.layers + 1 < 32 {
                lemma_pow2_strictly_increases((self.params.layers + 1) as nat, 32);
            }
            vstd::arithmetic::power2::lemma_pow2_pos(self.params.top_layer as nat);
            lemma_pow2_unfold((self.params.top_layer + 1) as nat);
            assert(sibs.subrange(0, levels as int) =~= sibs);
            if self.params.top_layer < 31 {
                lemma_pow2_strictly_increases(self.params.top_layer as nat, 31);
            }
        }
        let mut pos: usize = idx + row_size;
        let ghost leaf_pos = pos as nat;
        let mut k: usize = 0;
        while pos / 2 >= top_size
            invariant
                self.wf(),
                iop.proof@ == ws,
                ws == old(iop).proof@,
                iop.commits@ == old(iop).commits@,
                start == old(iop).pos,
                ws.len() - start >= col_size,
                iop.pos == start + col_size + 8 * k,
                k == 0 || ws.len() - start >= col_size + 8 * k,
                col_size == self.params.col_size,
                top_size == self.params.top_size,
                top_size <= 0x8000_0000,
                idx < self.params.row_size,
                levels == self.params.levels(),
                sibs == words_digests(ws, start + col_size, levels),
                k <= levels,
                pow2((self.params.layers - k) as nat) <= pos < pow2((self.params.layers - k + 1) as nat),
                pos == leaf_pos / pow2(k as nat),
                path_digest(cur@, pos as nat, sibs.subrange(k as int, levels as int)) == path_digest(
                    hash_fps_of(row),
                    leaf_pos,
                    sibs,
                ),
            decreases pos,
        {
            proof {
                lemma_level_step(self.params, pos as nat, k as nat);
            }
            let low_bit = pos % 2;
            let other = match iop.read_digest() {
                Ok(d) => d,
                Err(e) => {
                    return Err(e);
                },
            };
            proof {
                vstd::arithmetic::power2::lemma_pow2_pos(k as nat);
                vstd::arithmetic::div_mod::lemma_div_denominator(leaf_pos as int, pow2(k as nat) as int, 2);
                lemma_pow2_unfold((k + 1) as nat);
                vstd::arithmetic::mul::lemma_mul_is_commutative(pow2(k as nat) as int, 2);
                let rest = sibs.subrange(k as int, levels as int);
                assert(rest[0] == other@);
                assert(rest.drop_first() =~= sibs.subrange(k + 1, levels as int));
            }
            let ghost old_cur = cur@;
            if low_bit == 1 {
                cur = hash_pair(&other, &cur);
            } else {
                cur = hash_pair(&cur, &other);
            }
            pos = pos / 2;
            k = k + 1;
        }
        proof {
            lemma_level_exit(self.params, pos as nat, k as nat);
            assert(sibs.subrange(k as int, levels as int) =~= Seq::<Seq<u32>>::empty());
        }
        if self.top[pos] == cur {
            Ok(out)
        } else {
            Err(VerifyError::MerkleMismatch)
        }
    }
}

} // verus!

verus! {

/// The row-to-digest hash or the pair hash takes two different inputs to one
/// digest.
pub open spec fn hash_collision_exists() -> bool {
    (exists|r1: Seq<Fp>, r2: Seq<Fp>| r1 != r2 && hash_fps_of(r1) == hash_fps_of(r2)) || (exists|
        a: Seq<u32>,
        b: Seq<u32>,
        c: Seq<u32>,
        d: Seq<u32>,
    | (a != c || b != d) && hash_pair_of(a, b) == hash_pair_of(c, d))
}

/// For a tree of `2^k` rows, `1 <= k <= 20`: the tree has `k` layers, its top
/// layer is below the leaves, and the top layer is `2^top_layer` wide, at
/// most the number of queries (or one).
pub proof fn lemma_params_shape(p: MerkleTreeParams, k: nat)
    requires
        p.wf(),
        1 <= k <= 20,
        p.row_size == pow2(k),
    ensures
        p.layers == k,
        p.top_size == pow2(p.top_layer as nat),
        p.top_size <= if p.queries >= 1 { p.queries } else { 1 },
        p.top_layer < p.layers,
{
    if p.layers < k {
        lemma_pow2_strictly_increases(p.layers as nat, k);
    } else if p.layers > k {
        lemma_pow2_strictly_increases(k, p.layers as nat);
    }
    if p.top_layer == 0 {
        lemma2_to64();
    }
}

/// Parameters are determined by the row size, column size and number of
/// queries they were made from.
pub proof fn lemma_params_determined(p: MerkleTreeParams, q: MerkleTreeParams)
    requires
        p.wf(),
        q.wf(),
        p.row_size == q.row_size,
        p.col_size == q.col_size,
        p.queries == q.queries,
    ensures
        p == q,
{
    if p.layers < q.layers {
        lemma_pow2_strictly_increases(p.layers as nat, q.layers as nat);
    } else if p.layers > q.layers {
        lemma_pow2_strictly_increases(q.layers as nat, p.layers as nat);
    }
    if p.top_layer < q.top_layer {
        assert(pow2(q.top_layer as nat) > p.queries);
    } else if p.top_layer > q.top_layer {
        assert(pow2(p.top_layer as nat) > q.queries);
    }
}

proof fn lemma_digests_words_decode(ds: Seq<Seq<u32>>, ws: Seq<u32>, s: int)
    requires
        forall|i: int| 0 <= i < ds.len() ==> (#[trigger] ds[i]).len() == 8,
        0 <= s,
        s + digests_words(ds).len() <= ws.len(),
        ws.subrange(s, s + digests_words(ds).len()) == digests_words(ds),
    ensures
        digests_words(ds).len() == 8 * ds.len(),
        words_digests(ws, s, ds.len()) == ds,
    decreases ds.len(),
{
    if ds.len() > 0 {
        let rest = ds.drop_first();
        let n = digests_words(rest).len() as int;
        assert(ws.subrange(s + 8, s + 8 + n) =~= ws.subrange(s, s + 8 + n).subrange(8, 8 + n));
        assert(ws.subrange(s + 8, s + 8 + n) =~= digests_words(rest));
        lemma_digests_words_decode(rest, ws, s + 8);
        assert(ws.subrange(s, s + 8) =~= ws.subrange(s, s + 8 + n).subrange(0, 8));
        assert(ws.subrange(s, s + 8) =~= ds[0]);
        assert(words_digests(ws, s, ds.len()) =~= ds) by {
            assert forall|k: int| 0 <= k < ds.len() implies #[trigger] words_digests(
                ws,
                s,
                ds.len(),
            )[k] == ds[k] by {
                if k > 0 {
                    assert(words_digests(ws, s + 8, rest.len())[k - 1] == rest[k - 1]);
                }
            }
        }
    } else {
        assert(words_digests(ws, s, 0) =~= ds);
    }
}

proof fn lemma_fps_words_decode(row: Seq<Fp>)
    requires
        all_wf(row),
    ensures
        words_fps(fps_words(row)) == row,
        fps_words(row).len() == row.len(),
{
    assert forall|i: int| 0 <= i < row.len() implies #[trigger] words_fps(fps_words(row))[i]
        == row[i] by {
        assert(row[i].wf());
        vstd::arithmetic::div_mod::lemma_small_mod(row[i].val as nat, P as nat);
    }
    assert(words_fps(fps_words(row)) =~= row);
}

proof fn lemma_subtree(leaves: Seq<Seq<u32>>, m: nat, j: nat)
    requires
        1 <= j < 2 * m,
        m <= leaves.len(),
    ensures
        tree_node(layer_digests(leaves, m), j) == tree_node(leaves, j),
    decreases 2 * m - j,
{
    if j < m {
        lemma_subtree(leaves, m, 2 * j);
        lemma_subtree(leaves, m, 2 * j + 1);
    }
}

proof fn lemma_path_honest(leaves: Seq<Seq<u32>>, pos: nat, n: nat)
    requires
        pos < 2 * leaves.len(),
        n == 0 || pos / pow2((n - 1) as nat) >= 2,
    ensures
        path_digest(tree_node(leaves, pos), pos, path_siblings(leaves, pos, n)) == tree_node(
            leaves,
            pos / pow2(n),
        ),
    decreases n,
{
    lemma2_to64();
    assert(pos / pow2(0) == pos);
    if n > 0 {
        let sibs = path_siblings(leaves, pos, n);
        lemma_sibs_step(leaves, pos, n);
        if n > 1 {
            lemma_div_pow2_step(pos, (n - 2) as nat);
        }
        lemma_pos_at_least_two(pos, n);
        lemma_parent(leaves, pos);
        lemma_path_honest(leaves, pos / 2, (n - 1) as nat);
        lemma_div_pow2_step(pos, (n - 1) as nat);
        assert(sibs[0] == tree_node(leaves, sibling(pos)));
    }
}

proof fn lemma_parent(leaves: Seq<Seq<u32>>, pos: nat)
    requires
        2 <= pos < 2 * leaves.len(),
    ensures
        tree_node(leaves, pos / 2) == if pos % 2 == 0 {
            hash_pair_of(tree_node(leaves, pos), tree_node(leaves, sibling(pos)))
        } else {
            hash_pair_of(tree_node(leaves, sibling(pos)), tree_node(leaves, pos))
        },
{
    let q = pos / 2;
    assert(1 <= q < leaves.len());
    assert(tree_node(leaves, q) == hash_pair_of(tree_node(leaves, 2 * q), tree_node(leaves, 2 * q + 1)));
}

proof fn lemma_pos_at_least_two(pos: nat, n: nat)
    requires
        n > 0,
        pos / pow2((n - 1) as nat) >= 2,
    ensures
        pos >= 2,
{
    vstd::arithmetic::power2::lemma_pow2_pos((n - 1) as nat);
    vstd::arithmetic::div_mod::lemma_div_is_ordered_by_denominator(
        pos as int,
        1,
        pow2((n - 1) as nat) as int,
    );
}

proof fn lemma_div_pow2_step(pos: nat, k: nat)
    ensures
        pos / pow2(k + 1) == (pos / 2) / pow2(k),
{
    vstd::arithmetic::power2::lemma_pow2_pos(k);
    lemma_pow2_unfold(k + 1);
    vstd::arithmetic::div_mod::lemma_div_denominator(pos as int, 2, pow2(k) as int);
}

proof fn lemma_sibs_step(leaves: Seq<Seq<u32>>, pos: nat, n: nat)
    requires
        n > 0,
    ensures
        path_siblings(leaves, pos, n).drop_first() == path_siblings(leaves, pos / 2, (n - 1) as nat),
        path_siblings(leaves, pos, n)[0] == tree_node(leaves, sibling(pos)),
{
    lemma2_to64();
    assert(pos / pow2(0) == pos);
    assert forall|k: int| 0 <= k < n - 1 implies #[trigger] path_siblings(leaves, pos, n).drop_first()[k]
        == path_siblings(leaves, pos / 2, (n - 1) as nat)[k] by {
        lemma_div_pow2_step(pos, k as nat);
    }
    assert(path_siblings(leaves, pos, n).drop_first() =~= path_siblings(
        leaves,
        pos / 2,
        (n - 1) as nat,
    ));
}

proof fn lemma_path_binding(
    leaves: Seq<Seq<u32>>,
    pos: nat,
    n: nat,
    cur: Seq<u32>,
    sibs: Seq<Seq<u32>>,
)
    requires
        pos < 2 * leaves.len(),
        n == 0 || pos / pow2((n - 1) as nat) >= 2,
        sibs.len() == n,
        path_digest(cur, pos, sibs) == tree_node(leaves, pos / pow2(n)),
        cur != tree_node(leaves, pos) || sibs != path_siblings(leaves, pos, n),
    ensures
        hash_collision_exists(),
    decreases n,
{
    lemma2_to64();
    if n == 0 {
        assert(pos / pow2(0) == pos);
        assert(sibs =~= path_siblings(leaves, pos, n));
    } else {
        let honest = path_siblings(leaves, pos, n);
        lemma_sibs_step(leaves, pos, n);
        if n > 1 {
            lemma_div_pow2_step(pos, (n - 2) as nat);
        }
        lemma_div_pow2_step(pos, (n - 1) as nat);
        let h_cur = tree_node(leaves, pos);
        let h_sib = tree_node(leaves, sibling(pos));
        let next = if pos % 2 == 0 {
            hash_pair_of(cur, sibs[0])
        } else {
            hash_pair_of(sibs[0], cur)
        };
        let h_next = tree_node(leaves, pos / 2);
        lemma_pos_at_least_two(pos, n);
        lemma_parent(leaves, pos);
        assert(h_next == if pos % 2 == 0 {
            hash_pair_of(h_cur, h_sib)
        } else {
            hash_pair_of(h_sib, h_cur)
        });
        if cur == h_cur && sibs[0] == h_sib {
            assert(sibs.drop_first() != honest.drop_first()) by {
                if sibs.drop_first() == honest.drop_first() {
                    assert forall|k: int| 0 <= k < n implies sibs[k] == honest[k] by {
                        if k > 0 {
                            assert(sibs[k] == sibs.drop_first()[k - 1]);
                            assert(honest[k] == honest.drop_first()[k - 1]);
                        }
                    }
                    assert(sibs =~= honest);
                }
            }
            lemma_path_binding(leaves, pos / 2, (n - 1) as nat, next, sibs.drop_first());
        } else if next == h_next {
            if pos % 2 == 0 {
                assert((cur != h_cur || sibs[0] != h_sib) && hash_pair_of(cur, sibs[0])
                    == hash_pair_of(h_cur, h_sib));
            } else {
                assert((sibs[0] != h_sib || cur != h_cur) && hash_pair_of(sibs[0], cur)
                    == hash_pair_of(h_sib, h_cur));
            }
        } else {
            lemma_path_binding(leaves, pos / 2, (n - 1) as nat, next, sibs.drop_first());
        }
    }
}

proof fn lemma_pos_range(x: nat, l: nat, k: nat)
    requires
        pow2(l) <= x < pow2(l + 1),
        k <= l,
    ensures
        pow2((l - k) as nat) <= x / pow2(k) < pow2((l - k + 1) as nat),
    decreases k,
{
    lemma2_to64();
    if k > 0 {
        lemma_pos_range(x, l, (k - 1) as nat);
        let y = x / pow2((k - 1) as nat);
        lemma_div_pow2_step(x, (k - 1) as nat);
        vstd::arithmetic::power2::lemma_pow2_pos((k - 1) as nat);
        vstd::arithmetic::div_mod::lemma_div_denominator(x as int, pow2((k - 1) as nat) as int, 2);
        lemma_pow2_unfold((k - 1) as nat + 1);
        vstd::arithmetic::mul::lemma_mul_is_commutative(pow2((k - 1) as nat) as int, 2);
        lemma_pow2_unfold((l - k + 1) as nat);
        lemma_pow2_unfold((l - k + 2) as nat);
    } else {
        assert(x / pow2(0) == x);
    }
}

/// The words a prover writes to commit: the digests of the top layer.
pub open spec fn commit_words(t: MerkleTreeProver) -> Seq<u32> {
    digests_words(layer_digests(t.leaves(), t.params.top_size as nat))
}

/// The words a prover writes to open row `idx`: the row, then the sibling
/// digests from the leaf up to the top layer.
pub open spec fn opening_words(t: MerkleTreeProver, idx: nat) -> Seq<u32> {
    fps_words(row_of(t.matrix@, t.params.row_size as nat, t.params.col_size as nat, idx as int))
        + digests_words(
        path_siblings(t.leaves(), (idx + t.params.row_size) as nat, t.params.levels()),
    )
}

proof fn lemma_opening_facts(t: MerkleTreeProver, idx: nat)
    requires
        t.wf(),
        idx < t.params.row_size,
    ensures
        all_wf(row_of(t.matrix@, t.params.row_size as nat, t.params.col_size as nat, idx as int)),
        forall|i: int|
            0 <= i < t.params.levels() ==> (#[trigger] path_siblings(
                t.leaves(),
                (idx + t.params.row_size) as nat,
                t.params.levels(),
            )[i]).len() == 8,
        forall|i: int|
            0 <= i < t.params.top_size ==> (#[trigger] layer_digests(
                t.leaves(),
                t.params.top_size as nat,
            )[i]).len() == 8,
        t.params.top_size <= t.params.row_size,
        t.params.levels() == 0 || ((idx + t.params.row_size) as nat) / pow2((t.params.levels() - 1) as nat)
            >= 2,
        pow2(t.params.top_layer as nat) <= ((idx + t.params.row_size) as nat) / pow2(t.params.levels()) < 2
            * t.params.top_size,
{
    let p = t.params;
    let rows = p.row_size as nat;
    let cols = p.col_size as nat;
    let leaf_pos = (idx + rows) as nat;
    let views = digest_views(t.tree@);
    lemma_top_below_rows(p);
    lemma2_to64();
    lemma_pow2_unfold(p.layers as nat + 1);
    assert forall|j: int| 0 <= j < cols implies (#[trigger] row_of(
        t.matrix@,
        rows,
        cols,
        idx as int,
    )[j]).wf() by {
        lemma_matrix_index(rows as int, cols as int, idx as int, j);
    }
    assert forall|i: int| 0 <= i < p.levels() implies (#[trigger] path_siblings(
        t.leaves(),
        leaf_pos,
        p.levels(),
    )[i]).len() == 8 by {
        lemma_pos_range(leaf_pos, p.layers as nat, i as nat);
        lemma_pow2_unfold((p.top_layer + 1) as nat);
        if p.top_layer + 1 < p.layers - i {
            lemma_pow2_strictly_increases((p.top_layer + 1) as nat, (p.layers - i) as nat);
        }
        if p.layers - i + 1 < p.layers + 1 {
            lemma_pow2_strictly_increases((p.layers - i + 1) as nat, (p.layers + 1) as nat);
        }
        let q = sibling(leaf_pos / pow2(i as nat));
        assert(1 <= q < 2 * rows);
        assert(views[q as int] == t.tree@[q as int]@);
    }
    assert forall|i: int| 0 <= i < p.top_size implies (#[trigger] layer_digests(
        t.leaves(),
        p.top_size as nat,
    )[i]).len() == 8 by {
        assert(views[p.top_size + i] == t.tree@[p.top_size + i]@);
    }
    lemma_pos_range(leaf_pos, p.layers as nat, p.levels());
    lemma_pow2_unfold((p.top_layer + 1) as nat);
    if p.levels() > 0 {
        lemma_pos_range(leaf_pos, p.layers as nat, (p.levels() - 1) as nat);
        lemma_pow2_unfold((p.top_layer + 1) as nat);
    }
}

/// Round trip: the opening of any row that an honest prover writes after
/// its commitment is accepted by a verifier that read that commitment, and
/// the verifier returns exactly the committed row.
pub proof fn lemma_round_trip(t: MerkleTreeProver, idx: nat, top: Seq<Seq<u32>>)
    requires
        t.wf(),
        idx < t.params.row_size,
        top_matches(
            top,
            words_digests(commit_words(t) + opening_words(t, idx), 0, t.params.top_size as nat),
        ),
    ensures
        verify_outcome(
            t.params,
            top,
            commit_words(t) + opening_words(t, idx),
            commit_words(t).len() as int,
            idx,
        ) == Ok::<Seq<Fp>, VerifyError>(
            row_of(t.matrix@, t.params.row_size as nat, t.params.col_size as nat, idx as int),
        ),
{
    let p = t.params;
    let rows = p.row_size as nat;
    let cols = p.col_size as nat;
    let leaves = t.leaves();
    let leaf_pos = (idx + rows) as nat;
    let row = row_of(t.matrix@, rows, cols, idx as int);
    let layer = layer_digests(leaves, p.top_size as nat);
    let sibs = path_siblings(leaves, leaf_pos, p.levels());
    let cw = commit_words(t);
    let ow = opening_words(t, idx);
    let ws = cw + ow;
    lemma_opening_facts(t, idx);
    lemma_fps_words_decode(row);
    assert(ws.subrange(0, cw.len() as int) =~= cw);
    lemma_digests_words_decode(layer, ws, 0);
    let start = cw.len() as int;
    let fw = fps_words(row);
    assert(ws.subrange(start, start + cols) =~= fw);
    assert(ws.subrange(start + cols, start + cols + digests_words(sibs).len()) =~= digests_words(
        sibs,
    ));
    lemma_digests_words_decode(sibs, ws, start + cols);
    let pos = leaf_pos / pow2(p.levels());
    lemma_path_honest(leaves, leaf_pos, p.levels());
    lemma_subtree(leaves, p.top_size as nat, pos);
    assert(tree_node(leaves, leaf_pos) == hash_fps_of(row));
}

/// Tamper evidence: if the verifier, checking against an honest commitment,
/// accepts an opening of row `idx` whose row or sibling digests differ from
/// what the honest prover sends, then the hash function has a collision.
pub proof fn lemma_tamper_detected(
    t: MerkleTreeProver,
    idx: nat,
    top: Seq<Seq<u32>>,
    ws: Seq<u32>,
    start: int,
)
    requires
        t.wf(),
        idx < t.params.row_size,
        0 <= start,
        top_matches(top, layer_digests(t.leaves(), t.params.top_size as nat)),
        verify_outcome(t.params, top, ws, start, idx) is Ok,
        words_fps(ws.subrange(start, start + t.params.col_size)) != row_of(
            t.matrix@,
            t.params.row_size as nat,
            t.params.col_size as nat,
            idx as int,
        ) || words_digests(ws, start + t.params.col_size, t.params.levels()) != path_siblings(
            t.leaves(),
            (idx + t.params.row_size) as nat,
            t.params.levels(),
        ),
    ensures
        hash_collision_exists(),
{
    let p = t.params;
    let rows = p.row_size as nat;
    let cols = p.col_size as nat;
    let leaves = t.leaves();
    let leaf_pos = (idx + rows) as nat;
    let honest_row = row_of(t.matrix@, rows, cols, idx as int);
    let row = words_fps(ws.subrange(start, start + cols));
    let sibs = words_digests(ws, start + cols, p.levels());
    lemma_opening_facts(t, idx);
    let pos = leaf_pos / pow2(p.levels());
    lemma_subtree(leaves, p.top_size as nat, pos);
    assert(tree_node(leaves, leaf_pos) == hash_fps_of(honest_row));
    let cur = hash_fps_of(row);
    if row != honest_row && cur == hash_fps_of(honest_row) {
        assert(row != honest_row && hash_fps_of(row) == hash_fps_of(honest_row));
    } else {
        lemma_path_binding(leaves, leaf_pos, p.levels(), cur, sibs);
    }
}

} // verus!
