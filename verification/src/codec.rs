use crate::container::{
    container_entry_name, container_input_ok, container_open, container_pack, unzip_of, zip_of,
};
use crate::ecc::{codeword, rs_encode_parity, rs_parity, rs_verify, valid_shard_config};
use crate::errors::CodecError;
use crate::vote::{has_plurality, lemma_swap_preserves_vote, lemma_unanimous_wins, plurality_of, vote_column};
use vstd::arithmetic::div_mod::{
    lemma_div_is_ordered, lemma_div_multiples_vanish, lemma_div_pos_is_pos,
    lemma_fundamental_div_mod, lemma_mod_multiples_basic,
};
use vstd::arithmetic::mul::{lemma_mul_inequality, lemma_mul_upper_bound};
use vstd::prelude::*;
use vstd::slice::slice_to_vec;

verus! {

/// Parity budget for a container of `zip_len` bytes replicated
/// `num_duplications` extra times: the `len * d / (d + 1)` split ties
/// the parity capacity of each block to the replication factor.
pub open spec fn parity_size_for(zip_len: int, num_duplications: int) -> int {
    zip_len * num_duplications / (num_duplications + 1)
}

/// One protected block: a reserved marker byte, then the container
/// bytes as data shard, then the Reed-Solomon parity over them.
pub open spec fn block_of(z: Seq<u8>, parity_size: int) -> Seq<u8> {
    seq![0u8] + codeword(z, parity_size)
}

/// `k` copies of `blk`, concatenated in creation order.
pub open spec fn repeat_blocks(blk: Seq<u8>, k: int) -> Seq<u8>
    decreases k,
{
    if k <= 0 {
        Seq::empty()
    } else {
        repeat_blocks(blk, k - 1) + blk
    }
}

/// Whether encoding `b` with `num_duplications` extra copies is
/// accepted: at least one copy, and a shard split the Reed-Solomon code
/// can carry.
pub open spec fn encode_ok(b: Seq<u8>, num_duplications: int) -> bool {
    &&& num_duplications >= 1
    &&& valid_shard_config(
        zip_of(b).len() as int,
        parity_size_for(zip_of(b).len() as int, num_duplications),
    )
}

/// The stored artifact for payload `b`: a two-byte header persisting the
/// data-shard and parity-shard sizes, then `num_duplications + 1`
/// protected blocks of fixed stride.
pub open spec fn artifact_of(b: Seq<u8>, num_duplications: int) -> Seq<u8> {
    let z = zip_of(b);
    let p = parity_size_for(z.len() as int, num_duplications);
    seq![z.len() as u8, p as u8] + repeat_blocks(block_of(z, p), num_duplications + 1)
}

/// The parity budget never exceeds the container length.
proof fn lemma_parity_bound(zip_len: int, num_duplications: int)
    requires
        zip_len >= 0,
        num_duplications >= 0,
    ensures
        0 <= parity_size_for(zip_len, num_duplications) <= zip_len,
{
    let d = num_duplications;
    lemma_div_pos_is_pos(zip_len * d, d + 1);
    lemma_mul_inequality(d, d + 1, zip_len);
    lemma_div_is_ordered(zip_len * d, zip_len * (d + 1), d + 1);
    lemma_div_multiples_vanish(zip_len, d + 1);
}

/// Appends one freshly encoded protected block for the container `zv`.
fn push_block(art: &mut Vec<u8>, zv: &Vec<u8>, parity_size: usize)
    requires
        valid_shard_config(zv@.len() as int, parity_size as int),
    ensures
        final(art)@ == old(art)@ + block_of(zv@, parity_size as int),
{
    let ghost entry = art@;
    art.push(0u8);
    let mut i: usize = 0;
    while i < zv.len()
        invariant
            i <= zv@.len(),
            art@ == entry + seq![0u8] + zv@.take(i as int),
        decreases zv@.len() - i,
    {
        art.push(zv[i]);
        proof {
            assert(entry + seq![0u8] + zv@.take(i as int) + seq![zv@[i as int]] =~= entry
                + seq![0u8] + zv@.take(i as int + 1));
            assert((entry + seq![0u8] + zv@.take(i as int)).push(zv@[i as int]) =~= entry
                + seq![0u8] + zv@.take(i as int) + seq![zv@[i as int]]);
        }
        i = i + 1;
    }
    proof {
        assert(zv@.take(zv@.len() as int) =~= zv@);
    }
    let parity = rs_encode_parity(zv, parity_size);
    let mut k: usize = 0;
    while k < parity.len()
        invariant
            k <= parity@.len(),
            parity@ == crate::ecc::rs_parity(zv@, parity_size as int),
            art@ == entry + seq![0u8] + zv@ + parity@.take(k as int),
        decreases parity@.len() - k,
    {
        art.push(parity[k]);
        proof {
            assert((entry + seq![0u8] + zv@ + parity@.take(k as int)).push(parity@[k as int])
                =~= entry + seq![0u8] + zv@ + parity@.take(k as int + 1));
        }
        k = k + 1;
    }
    proof {
        assert(parity@.take(parity@.len() as int) =~= parity@);
        assert(entry + seq![0u8] + zv@ + parity@ =~= entry + block_of(
            zv@,
            parity_size as int,
        ));
    }
}

/// Encoding pipeline: compress the payload into a single-entry
/// container, choose the shard split from the container length and the
/// duplication factor, then store a two-byte size header followed by
/// `num_duplications + 1` independently Reed-Solomon-encoded copies of
/// the protected block.
pub fn zip_and_expand_data(data: &[u8], num_duplications: usize) -> (r: Result<
    Vec<u8>,
    CodecError,
>)
    ensures
        r matches Ok(a) ==> encode_ok(data@, num_duplications as int) && a@ == artifact_of(
            data@,
            num_duplications as int,
        ),
        container_input_ok(data@.len() as int) && encode_ok(data@, num_duplications as int) ==> (
        r matches Ok(a) && a@ == artifact_of(data@, num_duplications as int)),
        container_input_ok(data@.len() as int) && !encode_ok(data@, num_duplications as int)
            ==> (r matches Err(CodecError::CodecConfigError(ds, ps)) && ds == zip_of(data@).len()
            && ps as int == parity_size_for(ds as int, num_duplications as int)),
        data@.len() > u32::MAX as int ==> (r matches Err(e) && e == CodecError::IoError),
        r matches Err(CodecError::CodecConfigError(ds, ps)) ==> ds == zip_of(data@).len() && ps
            as int == parity_size_for(ds as int, num_duplications as int) && !encode_ok(
            data@,
            num_duplications as int,
        ),
        r matches Err(e) ==> (e matches CodecError::CodecConfigError(_, _) || e
            == CodecError::IoError),
        num_duplications == 0 ==> r is Err,
        num_duplications == 0 && container_input_ok(data@.len() as int) ==> (r matches Err(
        CodecError::CodecConfigError(ds, ps)) && ps == 0),
{
    let zv = match container_pack(data) {
        Ok(z) => z,
        Err(_) => {
            return Err(CodecError::IoError);
        },
    };
    let zl = zv.len();
    let d = num_duplications;
    proof {
        lemma_mul_upper_bound(zl as int, usize::MAX as int, d as int, usize::MAX as int);
        assert((usize::MAX as int) * (usize::MAX as int) < u128::MAX as int) by (nonlinear_arith);
        lemma_parity_bound(zl as int, d as int);
    }
    let p128: u128 = (zl as u128 * d as u128) / (d as u128 + 1);
    let p = p128 as usize;
    if d == 0 || zl == 0 || p == 0 || zl > 256 || zl + p > 256 {
        proof {
            if d == 0 {
                assert((zl as int) * 0 == 0) by (nonlinear_arith);
            }
        }
        return Err(CodecError::CodecConfigError(zl, p));
    }
    let mut art: Vec<u8> = Vec::new();
    art.push(zl as u8);
    art.push(p as u8);
    let ghost hdr = seq![zl as u8, p as u8];
    let ghost blk = block_of(zv@, p as int);
    proof {
        assert(art@ =~= hdr + repeat_blocks(blk, 0));
    }
    let mut j: usize = 0;
    loop
        invariant_except_break
            j <= d,
            zl == zv@.len(),
            valid_shard_config(zl as int, p as int),
            art@ == hdr + repeat_blocks(blk, j as int),
            blk == block_of(zv@, p as int),
        ensures
            art@ == hdr + repeat_blocks(blk, d as int + 1),
        decreases d - j,
    {
        push_block(&mut art, &zv, p);
        proof {
            assert(hdr + repeat_blocks(blk, j as int) + blk =~= hdr + repeat_blocks(
                blk,
                j as int + 1,
            ));
        }
        if j == d {
            break ;
        }
        j = j + 1;
    }
    proof {
        assert(art@ =~= artifact_of(data@, d as int));
    }
    Ok(art)
}

/// The data-shard size persisted in an artifact's header.
pub open spec fn art_data_size(art: Seq<u8>) -> int {
    art[0] as int
}

/// The parity-shard size persisted in an artifact's header.
pub open spec fn art_parity_size(art: Seq<u8>) -> int {
    art[1] as int
}

/// The fixed stride of a protected block: marker, data shard, parity.
pub open spec fn art_stride(art: Seq<u8>) -> int {
    1 + art_data_size(art) + art_parity_size(art)
}

/// A well-formed artifact for `num_duplications` extra copies: a header
/// with a usable shard split, followed by exactly `num_duplications + 1`
/// fixed-stride blocks.
pub open spec fn wf_artifact(art: Seq<u8>, num_duplications: int) -> bool {
    &&& num_duplications >= 1
    &&& art.len() >= 2
    &&& valid_shard_config(art_data_size(art), art_parity_size(art))
    &&& art.len() == 2 + (num_duplications + 1) * art_stride(art)
}

/// The bytes stored at content offset `i` (within a block, after the
/// marker byte) across all blocks of the artifact.
pub open spec fn block_column(art: Seq<u8>, num_duplications: int, i: int) -> Seq<u8> {
    Seq::new((num_duplications + 1) as nat, |j: int| art[2 + j * art_stride(art) + 1 + i])
}

/// Every content offset below `n` has a vote winner.
pub open spec fn votes_ok_upto(art: Seq<u8>, num_duplications: int, n: int) -> bool {
    forall|i: int| 0 <= i < n ==> has_plurality(#[trigger] block_column(art, num_duplications, i))
}

/// Every content offset of the artifact has a vote winner.
pub open spec fn votes_ok(art: Seq<u8>, num_duplications: int) -> bool {
    votes_ok_upto(art, num_duplications, art_data_size(art) + art_parity_size(art))
}

/// The block content that majority vote selects, offset by offset.
pub open spec fn voted(art: Seq<u8>, num_duplications: int) -> Seq<u8> {
    Seq::new(
        (art_data_size(art) + art_parity_size(art)) as nat,
        |i: int| plurality_of(block_column(art, num_duplications, i)),
    )
}

/// Whether the voted block is a Reed-Solomon codeword: its parity
/// region equals the parity recomputed from its data region.
pub open spec fn voted_parity_checks(art: Seq<u8>, num_duplications: int) -> bool {
    voted(art, num_duplications).skip(art_data_size(art)) == rs_parity(
        voted(art, num_duplications).take(art_data_size(art)),
        art_parity_size(art),
    )
}

proof fn lemma_repeat_blocks_len(blk: Seq<u8>, k: int)
    requires
        k >= 0,
    ensures
        repeat_blocks(blk, k).len() == k * blk.len(),
    decreases k,
{
    if k == 0 {
        assert(0 * blk.len() == 0) by (nonlinear_arith);
    } else {
        lemma_repeat_blocks_len(blk, k - 1);
        assert((k - 1) * blk.len() + blk.len() == k * blk.len()) by (nonlinear_arith);
    }
}

proof fn lemma_repeat_blocks_index(blk: Seq<u8>, k: int, j: int, i: int)
    requires
        0 <= j < k,
        0 <= i < blk.len(),
    ensures
        repeat_blocks(blk, k).len() == k * blk.len(),
        repeat_blocks(blk, k)[j * blk.len() + i] == blk[i],
    decreases k,
{
    lemma_repeat_blocks_len(blk, k);
    let l = blk.len() as int;
    if j == k - 1 {
        lemma_repeat_blocks_len(blk, k - 1);
        assert(j * l + i - (k - 1) * l == i);
    } else {
        lemma_repeat_blocks_index(blk, k - 1, j, i);
        assert(j * l + i < (k - 1) * l) by (nonlinear_arith)
            requires
                0 <= i < l,
                0 <= j < k - 1,
        ;
    }
}

/// The decodability of a pristine artifact: whatever payload and
/// duplication factor the encoder accepted, the stored artifact is
/// well-formed, each column is unanimous so the vote returns the
/// encoded codeword intact, its parity verifies, and its data region is
/// exactly the compressed container of the payload.
pub proof fn lemma_artifact_decodes(b: Seq<u8>, num_duplications: int)
    requires
        encode_ok(b, num_duplications),
    ensures
        wf_artifact(artifact_of(b, num_duplications), num_duplications),
        votes_ok(artifact_of(b, num_duplications), num_duplications),
        voted(artifact_of(b, num_duplications), num_duplications) == codeword(
            zip_of(b),
            parity_size_for(zip_of(b).len() as int, num_duplications),
        ),
        voted(artifact_of(b, num_duplications), num_duplications).take(
            art_data_size(artifact_of(b, num_duplications)),
        ) == zip_of(b),
        voted_parity_checks(artifact_of(b, num_duplications), num_duplications),
{
    let d = num_duplications;
    let z = zip_of(b);
    let zl = z.len() as int;
    let p = parity_size_for(zl, d);
    let cw = codeword(z, p);
    let blk = block_of(z, p);
    let art = artifact_of(b, d);
    lemma_parity_bound(zl, d);
    lemma_repeat_blocks_len(blk, d + 1);
    assert(blk.len() == 1 + zl + p);
    assert(art[0] == zl as u8 && art[1] == p as u8);
    assert(art_data_size(art) == zl && art_parity_size(art) == p);
    assert(art_stride(art) == blk.len());
    assert(wf_artifact(art, d));
    assert forall|i: int| 0 <= i < zl + p implies block_column(art, d, i) == Seq::new(
        (d + 1) as nat,
        |j: int| cw[i],
    ) by {
        assert forall|j: int| 0 <= j < d + 1 implies #[trigger] block_column(art, d, i)[j] == cw[i] by {
            lemma_repeat_blocks_index(blk, d + 1, j, 1 + i);
            assert(0 <= j * blk.len() + (1 + i) && j * blk.len() + (1 + i) < (d + 1)
                * blk.len()) by (nonlinear_arith)
                requires
                    0 <= j < d + 1,
                    0 <= 1 + i < blk.len(),
            ;
            assert(art[2 + j * art_stride(art) + 1 + i] == repeat_blocks(blk, d + 1)[j * blk.len()
                + (1 + i)]);
            assert(blk[1 + i] == cw[i]);
        }
        assert(block_column(art, d, i) =~= Seq::new((d + 1) as nat, |j: int| cw[i]));
    }
    assert forall|i: int| 0 <= i < zl + p implies has_plurality(#[trigger] block_column(art, d, i))
        && plurality_of(block_column(art, d, i)) == cw[i] by {
        let col = block_column(art, d, i);
        assert(col == Seq::new((d + 1) as nat, |j: int| cw[i]));
        lemma_unanimous_wins(col, cw[i]);
    }
    assert(voted(art, d) =~= cw);
    assert(voted(art, d).take(zl) =~= z);
    assert(voted(art, d).skip(zl) =~= rs_parity(z, p));
}

/// `art2` is `art` with protected blocks `j1` and `j2` exchanged: the
/// same header and length, and each block of `art2` is the
/// correspondingly exchanged block of `art`.
pub open spec fn blocks_exchanged(art: Seq<u8>, art2: Seq<u8>, j1: int, j2: int, d: int) -> bool {
    &&& art.len() >= 2
    &&& art2.len() == art.len()
    &&& art2[0] == art[0]
    &&& art2[1] == art[1]
    &&& 0 <= j1 < d + 1
    &&& 0 <= j2 < d + 1
    &&& forall|j: int, t: int|
        0 <= j < d + 1 && 0 <= t < art_stride(art) ==> #[trigger] art2[2 + j * art_stride(art)
            + t] == art[2 + (if j == j1 {
            j2
        } else if j == j2 {
            j1
        } else {
            j
        }) * art_stride(art) + t]
}

/// Block order carries no meaning beyond membership in the replication
/// set: exchanging two whole protected blocks leaves every stage of
/// decoding unchanged — well-formedness, each offset's vote, and (where
/// the vote succeeds) the voted block and its parity check. Any
/// reordering of the blocks is a chain of such exchanges, so all copies
/// are interchangeable inputs to reconstruction.
pub proof fn lemma_block_order_immaterial(art: Seq<u8>, art2: Seq<u8>, j1: int, j2: int, d: int)
    requires
        wf_artifact(art, d),
        blocks_exchanged(art, art2, j1, j2, d),
    ensures
        wf_artifact(art2, d),
        forall|i: int|
            0 <= i < art_data_size(art) + art_parity_size(art) ==> has_plurality(
                #[trigger] block_column(art2, d, i),
            ) == has_plurality(block_column(art, d, i)),
        votes_ok(art2, d) == votes_ok(art, d),
        votes_ok(art, d) ==> voted(art2, d) == voted(art, d),
        votes_ok(art, d) ==> voted_parity_checks(art2, d) == voted_parity_checks(art, d),
{
    let ds = art_data_size(art);
    let p = art_parity_size(art);
    let s = art_stride(art);
    assert(art_stride(art2) == s);
    assert(wf_artifact(art2, d));
    assert forall|i: int| 0 <= i < ds + p implies #[trigger] block_column(art2, d, i)
        == block_column(art, d, i).update(j1, block_column(art, d, i)[j2]).update(
        j2,
        block_column(art, d, i)[j1],
    ) by {
        let col = block_column(art, d, i);
        let col2 = block_column(art2, d, i);
        let swapped = col.update(j1, col[j2]).update(j2, col[j1]);
        assert forall|j: int| 0 <= j < d + 1 implies #[trigger] col2[j] == swapped[j] by {
            assert(art2[2 + j * s + (1 + i)] == art[2 + (if j == j1 {
                j2
            } else if j == j2 {
                j1
            } else {
                j
            }) * s + (1 + i)]);
        }
        assert(col2 =~= swapped);
    }
    assert forall|i: int| 0 <= i < ds + p implies has_plurality(
        #[trigger] block_column(art2, d, i),
    ) == has_plurality(block_column(art, d, i)) && (has_plurality(block_column(art, d, i))
        ==> plurality_of(block_column(art2, d, i)) == plurality_of(block_column(art, d, i))) by {
        lemma_swap_preserves_vote(block_column(art, d, i), j1, j2);
    }
    assert(art_data_size(art2) == ds && art_parity_size(art2) == p);
    if votes_ok(art, d) {
        assert forall|i: int| 0 <= i < ds + p implies has_plurality(
            #[trigger] block_column(art2, d, i),
        ) by {
            assert(has_plurality(block_column(art, d, i)));
        }
        assert(votes_ok(art2, d));
    }
    if votes_ok(art2, d) {
        assert forall|i: int| 0 <= i < ds + p implies has_plurality(
            #[trigger] block_column(art, d, i),
        ) by {
            assert(has_plurality(block_column(art2, d, i)));
        }
        assert(votes_ok(art, d));
    }
    if votes_ok(art, d) {
        assert(voted(art2, d) =~= voted(art, d));
    }
}

/// Decoding pipeline, the inverse of `zip_and_expand_data`: read the
/// shard split from the header, cut the artifact into its fixed-stride
/// blocks, vote every content offset across the blocks, check the voted
/// block against its Reed-Solomon parity, and decompress the voted data
/// shard. A pristine artifact always yields its original payload; each
/// failure names the stage that rejected the input.
#[verifier::loop_isolation(false)]
#[verifier::rlimit(30)]
pub fn unzip_and_unexpand_data(data: &[u8], num_duplications: usize) -> (r: Result<
    Vec<u8>,
    CodecError,
>)
    ensures
        ({
            let d = num_duplications as int;
            &&& forall|b: Seq<u8>|
                encode_ok(b, d) && data@ == #[trigger] artifact_of(b, d) ==> (r matches Ok(v)
                    && v@ == b)
            &&& !wf_artifact(data@, d) ==> (r matches Err(e) && e == CodecError::CodecConfigError(
                (if data@.len() < 2 {
                    0
                } else {
                    data@[0] as usize
                }),
                (if data@.len() < 2 {
                    0
                } else {
                    data@[1] as usize
                }),
            ))
            &&& wf_artifact(data@, d) && !votes_ok(data@, d) ==> (r matches Err(
                CodecError::ReconstructionError(off),
            ) && off < art_data_size(data@) + art_parity_size(data@) && !has_plurality(
                block_column(data@, d, off as int),
            ) && votes_ok_upto(data@, d, off as int))
            &&& wf_artifact(data@, d) && votes_ok(data@, d) && !voted_parity_checks(data@, d)
                ==> (r matches Err(e) && e == CodecError::EccDecodeError)
            &&& wf_artifact(data@, d) && votes_ok(data@, d) && voted_parity_checks(data@, d) ==> ({
                let zd = voted(data@, d).take(art_data_size(data@));
                &&& (r matches Err(e) ==> e == CodecError::MalformedContainer)
                &&& (r matches Ok(v) ==> (unzip_of(zd) matches Some(t) && t.0 == 1 && t.1
                    == container_entry_name() && v@ == t.2))
                &&& ((unzip_of(zd) matches Some(t) && t.0 == 1 && t.1 == container_entry_name())
                    ==> r is Ok)
                &&& forall|b: Seq<u8>|
                    zd == #[trigger] zip_of(b) ==> (r matches Ok(v) && v@ == b)
            })
            &&& (r matches Err(e) ==> e != CodecError::IoError)
        }),
{
    let ghost d_int = num_duplications as int;
    proof {
        assert forall|b: Seq<u8>|
            encode_ok(b, d_int) && data@ == #[trigger] artifact_of(b, d_int) implies wf_artifact(
            data@,
            d_int,
        ) && votes_ok(data@, d_int) && voted_parity_checks(data@, d_int) && voted(
            data@,
            d_int,
        ).take(art_data_size(data@)) == zip_of(b) by {
            lemma_artifact_decodes(b, d_int);
        }
    }
    let n = data.len();
    if n < 2 {
        return Err(CodecError::CodecConfigError(0, 0));
    }
    let dv = slice_to_vec(data);
    let ds = dv[0] as usize;
    let p = dv[1] as usize;
    if num_duplications == 0 || ds == 0 || p == 0 || ds + p > 256 {
        proof {
            assert(dv@ == data@);
            assert(ds == data@[0] as usize && p == data@[1] as usize);
            assert(!wf_artifact(data@, d_int));
        }
        return Err(CodecError::CodecConfigError(ds, p));
    }
    let stride = 1 + ds + p;
    let body = n - 2;
    let blocks = body / stride;
    let rem = body % stride;
    proof {
        lemma_fundamental_div_mod(body as int, stride as int);
    }
    if rem != 0 || blocks == 0 || blocks - 1 != num_duplications {
        proof {
            assert(dv@ == data@);
            if wf_artifact(data@, d_int) {
                assert(art_stride(data@) == stride as int);
                assert(body as int == (d_int + 1) * (stride as int));
                assert((d_int + 1) * (stride as int) == (stride as int) * (d_int + 1))
                    by (nonlinear_arith);
                lemma_div_multiples_vanish(d_int + 1, stride as int);
                lemma_mod_multiples_basic(d_int + 1, stride as int);
                assert(body as int % (stride as int) == 0);
                assert(body as int / (stride as int) == d_int + 1);
                assert(false);
            }
            assert(!wf_artifact(data@, d_int));
        }
        return Err(CodecError::CodecConfigError(ds, p));
    }
    proof {
        assert(blocks as int == d_int + 1);
        lemma_fundamental_div_mod(body as int, stride as int);
        assert(body as int == (stride as int) * (blocks as int));
        assert((stride as int) * (d_int + 1) == (d_int + 1) * (stride as int))
            by (nonlinear_arith);
        assert(body as int == (d_int + 1) * (stride as int));
        assert(wf_artifact(data@, d_int));
    }
    let content = ds + p;
    let mut voted_v: Vec<u8> = Vec::new();
    let mut i: usize = 0;
    while i < content
        invariant
            i <= content,
            voted_v@.len() == i,
            votes_ok_upto(data@, d_int, i as int),
            forall|ii: int|
                0 <= ii < i ==> voted_v@[ii] == plurality_of(block_column(data@, d_int, ii)),
        decreases content - i,
    {
        let mut col: Vec<u8> = Vec::new();
        let mut j: usize = 0;
        let mut base: usize = 2;
        while j < blocks
            invariant
                j <= blocks,
                base == 2 + j * stride,
                col@.len() == j,
                forall|jj: int|
                    0 <= jj < j ==> col@[jj] == data@[2 + jj * (stride as int) + 1 + i],
            decreases blocks - j,
        {
            proof {
                assert((j as int + 1) * (stride as int) == j as int * (stride as int)
                    + stride as int) by (nonlinear_arith);
                assert((j as int + 1) * (stride as int) <= (d_int + 1) * (stride as int))
                    by (nonlinear_arith)
                    requires
                        0 <= j as int + 1 <= d_int + 1,
                        stride as int >= 0,
                ;
            }
            col.push(dv[base + 1 + i]);
            base = base + stride;
            j = j + 1;
        }
        proof {
            assert(col@ =~= block_column(data@, d_int, i as int));
        }
        match vote_column(&col) {
            Some(v) => {
                voted_v.push(v);
            },
            None => {
                proof {
                    assert(!has_plurality(block_column(data@, d_int, i as int)));
                }
                return Err(CodecError::ReconstructionError(i));
            },
        }
        i = i + 1;
    }
    proof {
        assert(votes_ok(data@, d_int));
        assert(voted_v@ =~= voted(data@, d_int));
    }
    let mut zdata: Vec<u8> = Vec::new();
    let mut k: usize = 0;
    while k < ds
        invariant
            k <= ds,
            zdata@ == voted_v@.take(k as int),
        decreases ds - k,
    {
        proof {
            assert(voted_v@.take(k as int + 1) =~= voted_v@.take(k as int).push(
                voted_v@[k as int],
            ));
        }
        zdata.push(voted_v[k]);
        k = k + 1;
    }
    let mut par: Vec<u8> = Vec::new();
    let mut m: usize = ds;
    while m < content
        invariant
            ds <= m <= content,
            par@ == voted_v@.subrange(ds as int, m as int),
        decreases content - m,
    {
        proof {
            assert(voted_v@.subrange(ds as int, m as int + 1) =~= voted_v@.subrange(
                ds as int,
                m as int,
            ).push(voted_v@[m as int]));
        }
        par.push(voted_v[m]);
        m = m + 1;
    }
    proof {
        assert(zdata@ =~= voted(data@, d_int).take(art_data_size(data@)));
        assert(par@ =~= voted(data@, d_int).skip(art_data_size(data@)));
    }
    if !rs_verify(&zdata, &par) {
        return Err(CodecError::EccDecodeError);
    }
    match container_open(zdata.as_slice()) {
        Ok((count, name, bytes)) => {
            if count != 1 {
                return Err(CodecError::MalformedContainer);
            }
            if !is_entry_name(&name) {
                return Err(CodecError::MalformedContainer);
            }
            Ok(bytes)
        },
        Err(_) => Err(CodecError::MalformedContainer),
    }
}

/// Whether `name` is the fixed entry name that decode expects.
fn is_entry_name(name: &Vec<u8>) -> (r: bool)
    ensures
        r <==> name@ == container_entry_name(),
{
    if name.len() != 4 {
        return false;
    }
    let r = name[0] == 100 && name[1] == 97 && name[2] == 116 && name[3] == 97;
    proof {
        if r {
            assert(name@ =~= container_entry_name());
        }
    }
    r
}

/// The artifact after `layers` nested applications of the encoding
/// pipeline, each layer fed the previous layer's artifact. A count
/// below one means a single application, as the command-line driver
/// treats it.
pub open spec fn layered_artifact_of(b: Seq<u8>, layers: int, num_duplications: int) -> Seq<u8>
    decreases layers,
{
    if layers <= 1 {
        artifact_of(b, num_duplications)
    } else {
        artifact_of(layered_artifact_of(b, layers - 1, num_duplications), num_duplications)
    }
}

/// Every one of the `layers` nested encodings is accepted.
pub open spec fn layers_ok(b: Seq<u8>, layers: int, num_duplications: int) -> bool
    decreases layers,
{
    if layers <= 1 {
        encode_ok(b, num_duplications)
    } else {
        layers_ok(b, layers - 1, num_duplications) && encode_ok(
            layered_artifact_of(b, layers - 1, num_duplications),
            num_duplications,
        )
    }
}

/// What is left after peeling all but `m` layers off a nested
/// encoding: the payload itself once every layer is gone.
pub open spec fn peeled_layers(b: Seq<u8>, m: int, num_duplications: int) -> Seq<u8> {
    if m <= 0 {
        b
    } else {
        layered_artifact_of(b, m, num_duplications)
    }
}

/// Every one of the `layers` nested encodings hands the container
/// writer a payload it is sure to accept.
pub open spec fn layers_fit(b: Seq<u8>, layers: int, num_duplications: int) -> bool
    decreases layers,
{
    if layers <= 1 {
        container_input_ok(b.len() as int)
    } else {
        layers_fit(b, layers - 1, num_duplications) && container_input_ok(
            layered_artifact_of(b, layers - 1, num_duplications).len() as int,
        )
    }
}

proof fn lemma_layers_ok_prefix(b: Seq<u8>, k: int, j: int, d: int)
    requires
        1 <= j <= k,
        layers_ok(b, k, d),
    ensures
        layers_ok(b, j, d),
    decreases k,
{
    if j < k {
        lemma_layers_ok_prefix(b, k - 1, j, d);
    }
}

proof fn lemma_layers_fit_prefix(b: Seq<u8>, k: int, j: int, d: int)
    requires
        1 <= j <= k,
        layers_fit(b, k, d),
    ensures
        layers_fit(b, j, d),
    decreases k,
{
    if j < k {
        lemma_layers_fit_prefix(b, k - 1, j, d);
    }
}

proof fn lemma_layer_fit_step(b: Seq<u8>, lay: int, total: int, m: int, d: int)
    requires
        total == (if lay <= 1 {
            1int
        } else {
            lay
        }),
        1 <= m <= total,
        layers_fit(b, lay, d),
    ensures
        container_input_ok(peeled_layers(b, m - 1, d).len() as int),
{
    if m == 1 {
        if lay > 1 {
            lemma_layers_fit_prefix(b, lay, 1, d);
        }
    } else {
        lemma_layers_fit_prefix(b, lay, m, d);
    }
}

proof fn lemma_layer_step(b: Seq<u8>, lay: int, total: int, m: int, d: int)
    requires
        total == (if lay <= 1 {
            1int
        } else {
            lay
        }),
        1 <= m <= total,
        layers_ok(b, lay, d),
    ensures
        layered_artifact_of(b, total, d) == layered_artifact_of(b, lay, d),
        peeled_layers(b, m, d) == artifact_of(peeled_layers(b, m - 1, d), d),
        encode_ok(peeled_layers(b, m - 1, d), d),
{
    if m == 1 {
        if lay > 1 {
            lemma_layers_ok_prefix(b, lay, 1, d);
        }
    } else {
        lemma_layers_ok_prefix(b, lay, m, d);
    }
}

/// Nested-layer driver, encoding side: applies the encoding pipeline
/// once, then `layers - 1` further times over its own artifact, exactly
/// as the decoding side unwinds it.
#[verifier::loop_isolation(false)]
pub fn encode_layers(data: &[u8], layers: usize, num_duplications: usize) -> (r: Result<
    Vec<u8>,
    CodecError,
>)
    ensures
        r matches Ok(a) ==> layers_ok(data@, layers as int, num_duplications as int) && a@
            == layered_artifact_of(data@, layers as int, num_duplications as int),
        layers_ok(data@, layers as int, num_duplications as int) && layers_fit(
            data@,
            layers as int,
            num_duplications as int,
        ) ==> (r matches Ok(a) && a@ == layered_artifact_of(
            data@,
            layers as int,
            num_duplications as int,
        )),
        r matches Err(e) ==> (e matches CodecError::CodecConfigError(_, _) || e
            == CodecError::IoError),
{
    let ghost d_int = num_duplications as int;
    let ghost lay = layers as int;
    let total: usize = if layers <= 1 {
        1
    } else {
        layers
    };
    let mut cur = match zip_and_expand_data(data, num_duplications) {
        Ok(v) => v,
        Err(e) => {
            proof {
                if layers_ok(data@, lay, d_int) && layers_fit(data@, lay, d_int) {
                    lemma_layer_step(data@, lay, total as int, 1, d_int);
                    lemma_layer_fit_step(data@, lay, total as int, 1, d_int);
                }
            }
            return Err(e);
        },
    };
    let mut j: usize = 1;
    while j < total
        invariant
            1 <= j <= total,
            cur@ == layered_artifact_of(data@, j as int, d_int),
            layers_ok(data@, j as int, d_int),
        decreases total - j,
    {
        cur = match zip_and_expand_data(cur.as_slice(), num_duplications) {
            Ok(v) => v,
            Err(e) => {
                proof {
                    if layers_ok(data@, lay, d_int) && layers_fit(data@, lay, d_int) {
                        lemma_layer_step(data@, lay, total as int, j as int + 1, d_int);
                        lemma_layer_fit_step(data@, lay, total as int, j as int + 1, d_int);
                    }
                }
                return Err(e);
            },
        };
        j = j + 1;
    }
    Ok(cur)
}

/// Nested-layer driver, decoding side: unwinds exactly as many layers
/// as the encoding side applied, in reverse order. Whatever payload and
/// layer count the encoder accepted, the layered round trip returns the
/// payload.
#[verifier::loop_isolation(false)]
pub fn decode_layers(data: &[u8], layers: usize, num_duplications: usize) -> (r: Result<
    Vec<u8>,
    CodecError,
>)
    ensures
        forall|b: Seq<u8>|
            layers_ok(b, layers as int, num_duplications as int) && data@
                == #[trigger] layered_artifact_of(b, layers as int, num_duplications as int) ==> (
            r matches Ok(v) && v@ == b),
        !wf_artifact(data@, num_duplications as int) ==> r is Err,
        r matches Err(e) ==> e != CodecError::IoError,
{
    let ghost d_int = num_duplications as int;
    let ghost lay = layers as int;
    let total: usize = if layers <= 1 {
        1
    } else {
        layers
    };
    let mut cur = match unzip_and_unexpand_data(data, num_duplications) {
        Ok(v) => v,
        Err(e) => {
            proof {
                assert forall|b: Seq<u8>|
                    layers_ok(b, lay, d_int) && data@ == #[trigger] layered_artifact_of(
                        b,
                        lay,
                        d_int,
                    ) implies false by {
                    lemma_layer_step(b, lay, total as int, total as int, d_int);
                    assert(data@ == artifact_of(peeled_layers(b, total as int - 1, d_int), d_int));
                }
            }
            return Err(e);
        },
    };
    proof {
        assert forall|b: Seq<u8>|
            layers_ok(b, lay, d_int) && data@ == #[trigger] layered_artifact_of(
                b,
                lay,
                d_int,
            ) implies cur@ == peeled_layers(b, total as int - 1, d_int) by {
            lemma_layer_step(b, lay, total as int, total as int, d_int);
            assert(data@ == artifact_of(peeled_layers(b, total as int - 1, d_int), d_int));
        }
    }
    let mut j: usize = 1;
    while j < total
        invariant
            1 <= j <= total,
            forall|b: Seq<u8>|
                layers_ok(b, lay, d_int) && data@ == #[trigger] layered_artifact_of(
                    b,
                    lay,
                    d_int,
                ) ==> cur@ == peeled_layers(b, total as int - j, d_int),
        decreases total - j,
    {
        let ghost prev = cur@;
        cur = match unzip_and_unexpand_data(cur.as_slice(), num_duplications) {
            Ok(v) => v,
            Err(e) => {
                proof {
                    assert forall|b: Seq<u8>|
                        layers_ok(b, lay, d_int) && data@ == #[trigger] layered_artifact_of(
                            b,
                            lay,
                            d_int,
                        ) implies false by {
                        lemma_layer_step(b, lay, total as int, total as int - j as int, d_int);
                        assert(prev == artifact_of(
                            peeled_layers(b, total as int - j - 1, d_int),
                            d_int,
                        ));
                    }
                }
                return Err(e);
            },
        };
        proof {
            assert forall|b: Seq<u8>|
                layers_ok(b, lay, d_int) && data@ == #[trigger] layered_artifact_of(
                    b,
                    lay,
                    d_int,
                ) implies cur@ == peeled_layers(b, total as int - j - 1, d_int) by {
                lemma_layer_step(b, lay, total as int, total as int - j as int, d_int);
                assert(prev == artifact_of(peeled_layers(b, total as int - j - 1, d_int), d_int));
            }
        }
        j = j + 1;
    }
    Ok(cur)
}

} // verus!
