use crate::errors::CodecError;
use vstd::prelude::*;

verus! {

/// Byte `i` of the parity that the Reed-Solomon code derives from the
/// data shard `data` when asked for `parity_len` one-byte parity shards.
pub uninterp spec fn rs_parity_byte(data: Seq<u8>, parity_len: int, i: int) -> u8;

/// The whole parity shard for `data`.
pub open spec fn rs_parity(data: Seq<u8>, parity_len: int) -> Seq<u8> {
    Seq::new(parity_len as nat, |i: int| rs_parity_byte(data, parity_len, i))
}

/// A data shard followed by its parity: what a protected block stores
/// after the marker byte.
pub open spec fn codeword(data: Seq<u8>, parity_len: int) -> Seq<u8> {
    data + rs_parity(data, parity_len)
}

/// The shard split the Reed-Solomon code accepts: at least one data and
/// one parity shard, and no more one-byte shards than the GF(2^8) field
/// has elements.
pub open spec fn valid_shard_config(data_size: int, parity_size: int) -> bool {
    &&& 1 <= data_size
    &&& 1 <= parity_size
    &&& data_size + parity_size <= 256
}

/// How many positions of a partially erased codeword survive.
pub open spec fn count_present(s: Seq<Option<u8>>) -> nat
    decreases s.len(),
{
    if s.len() == 0 {
        0
    } else {
        count_present(s.drop_last()) + (if s.last() is Some {
            1nat
        } else {
            0nat
        })
    }
}

/// How many positions of a partially erased codeword were lost.
pub open spec fn count_absent(s: Seq<Option<u8>>) -> nat
    decreases s.len(),
{
    if s.len() == 0 {
        0
    } else {
        count_absent(s.drop_last()) + (if s.last() is None {
            1nat
        } else {
            0nat
        })
    }
}

/// Every surviving position of `s` holds the byte of `w` at that index.
pub open spec fn agrees_with(s: Seq<Option<u8>>, w: Seq<u8>) -> bool {
    forall|i: int| 0 <= i < s.len() ==> (#[trigger] s[i] matches Some(b) ==> b == w[i])
}

proof fn lemma_present_absent_partition(s: Seq<Option<u8>>)
    ensures
        count_present(s) + count_absent(s) == s.len(),
    decreases s.len(),
{
    if s.len() > 0 {
        lemma_present_absent_partition(s.drop_last());
    }
}

/// Corruption tolerance, counting side: a protected block that lost at
/// most `parity_size` of its positions still has a full data shard's
/// worth of survivors, so erasure correction (`recover_data_shard`) is
/// owed an exact recovery of the data shard whenever the survivors come
/// from a real codeword.
pub proof fn lemma_losses_within_parity_budget(
    s: Seq<Option<u8>>,
    data_size: int,
    parity_size: int,
)
    requires
        s.len() == data_size + parity_size,
        count_absent(s) <= parity_size,
    ensures
        count_present(s) >= data_size,
{
    lemma_present_absent_partition(s);
}

/// Relies on reed_solomon_erasure's ReedSolomon::encode over one-byte
/// shards: with a shard split admitted by `valid_shard_config`,
/// construction succeeds and the parity shards are computed from the
/// data shards alone.
#[verifier::external_body]
pub(crate) fn rs_encode_parity(data: &Vec<u8>, parity_len: usize) -> (r: Vec<u8>)
    requires
        valid_shard_config(data@.len() as int, parity_len as int),
    ensures
        r@ == rs_parity(data@, parity_len as int),
        forall|i: int| 0 <= i < parity_len ==> r@[i] == rs_parity_byte(data@, parity_len as int, i),
{
    let rs = reed_solomon_erasure::galois_8::ReedSolomon::new(data.len(), parity_len).unwrap();
    let mut shards: Vec<Vec<u8>> = data.iter().map(|b| vec![*b]).collect();
    shards.resize(data.len() + parity_len, vec![0u8]);
    rs.encode(&mut shards).unwrap();
    shards[data.len()..].iter().map(|s| s[0]).collect()
}

/// Relies on reed_solomon_erasure's ReedSolomon::verify: it recomputes
/// the parity shards from the data shards and reports whether the given
/// parity equals that recomputation.
#[verifier::external_body]
pub(crate) fn rs_verify(data: &Vec<u8>, parity: &Vec<u8>) -> (r: bool)
    requires
        valid_shard_config(data@.len() as int, parity@.len() as int),
    ensures
        r <==> parity@ == rs_parity(data@, parity@.len() as int),
{
    let rs = reed_solomon_erasure::galois_8::ReedSolomon::new(data.len(), parity.len()).unwrap();
    let mut shards: Vec<Vec<u8>> = data.iter().map(|b| vec![*b]).collect();
    shards.extend(parity.iter().map(|b| vec![*b]));
    rs.verify(&shards).unwrap()
}

/// Relies on reed_solomon_erasure's ReedSolomon::reconstruct over
/// one-byte shards: when at least `data_len` positions are present it
/// fills every missing shard and leaves present ones untouched, and the
/// filled values restore the original codeword whenever the present
/// shards come from one; with fewer positions present it fails and
/// touches nothing.
#[verifier::external_body]
pub(crate) fn rs_reconstruct(
    data_len: usize,
    parity_len: usize,
    shards: &mut Vec<Option<u8>>,
) -> (r: Result<(), CodecError>)
    requires
        valid_shard_config(data_len as int, parity_len as int),
        old(shards)@.len() == data_len + parity_len,
    ensures
        r is Ok <==> count_present(old(shards)@) >= data_len,
        r matches Err(e) ==> e == CodecError::EccDecodeError && final(shards)@ == old(shards)@,
        r is Ok ==> final(shards)@.len() == old(shards)@.len(),
        r is Ok ==> forall|i: int| 0 <= i < old(shards)@.len() ==> #[trigger] final(shards)@[i] is Some,
        r is Ok ==> forall|i: int|
            0 <= i < old(shards)@.len() && #[trigger] old(shards)@[i] is Some ==> final(shards)@[i]
                == old(shards)@[i],
        r is Ok ==> forall|dat: Seq<u8>|
            dat.len() == data_len && agrees_with(old(shards)@, #[trigger] codeword(dat, parity_len as int))
                ==> final(shards)@ =~= codeword(dat, parity_len as int).map_values(|b: u8| Some(b)),
{
    let mut s: Vec<Option<Vec<u8>>> = shards.iter().map(|o| o.map(|b| vec![b])).collect();
    let rs = reed_solomon_erasure::galois_8::ReedSolomon::new(data_len, parity_len).unwrap();
    match rs.reconstruct(&mut s) {
        Ok(()) => {
            *shards = s.into_iter().map(|o| o.map(|v| v[0])).collect();
            Ok(())
        },
        Err(_) => Err(CodecError::EccDecodeError),
    }
}

/// The codeword of a protected block for an explicit data shard: the
/// shard's bytes followed by their Reed-Solomon parity.
pub fn build_codeword(data: &Vec<u8>, parity_size: usize) -> (r: Result<Vec<u8>, CodecError>)
    ensures
        valid_shard_config(data@.len() as int, parity_size as int) ==> (r matches Ok(v) && v@
            == codeword(data@, parity_size as int)),
        !valid_shard_config(data@.len() as int, parity_size as int) ==> (r matches Err(e) && e
            == CodecError::CodecConfigError(data@.len() as usize, parity_size)),
{
    let dl = data.len();
    if dl == 0 || parity_size == 0 || dl > 256 || parity_size > 256 || dl + parity_size > 256 {
        return Err(CodecError::CodecConfigError(dl, parity_size));
    }
    let parity = rs_encode_parity(data, parity_size);
    let mut out: Vec<u8> = Vec::new();
    let mut i: usize = 0;
    while i < dl
        invariant
            i <= dl,
            dl == data@.len(),
            out@ == data@.take(i as int),
        decreases dl - i,
    {
        proof {
            assert(data@.take(i as int + 1) =~= data@.take(i as int).push(data@[i as int]));
        }
        out.push(data[i]);
        i = i + 1;
    }
    proof {
        assert(data@.take(dl as int) =~= data@);
    }
    let mut k: usize = 0;
    while k < parity.len()
        invariant
            k <= parity@.len(),
            parity@ == rs_parity(data@, parity_size as int),
            out@ == data@ + parity@.take(k as int),
        decreases parity@.len() - k,
    {
        proof {
            assert(data@ + parity@.take(k as int + 1) =~= (data@ + parity@.take(k as int)).push(
                parity@[k as int],
            ));
        }
        out.push(parity[k]);
        k = k + 1;
    }
    proof {
        assert(parity@.take(parity@.len() as int) =~= parity@);
        assert(out@ =~= codeword(data@, parity_size as int));
    }
    Ok(out)
}

/// Recovers the data shard of a protected block from whatever codeword
/// positions survive. `shards` holds one entry per codeword position
/// (data shard first, then parity), `None` where the byte was lost.
/// With at least `data_size` survivors that all come from one codeword,
/// the data shard is restored exactly; with fewer survivors the loss is
/// beyond the parity budget and is reported as such.
pub fn recover_data_shard(
    shards: &Vec<Option<u8>>,
    data_size: usize,
    parity_size: usize,
) -> (r: Result<Vec<u8>, CodecError>)
    ensures
        !(shards@.len() == data_size + parity_size && valid_shard_config(
            data_size as int,
            parity_size as int,
        )) ==> (r matches Err(e) && e == CodecError::CodecConfigError(data_size, parity_size)),
        shards@.len() == data_size + parity_size && valid_shard_config(
            data_size as int,
            parity_size as int,
        ) ==> {
            &&& count_present(shards@) < data_size ==> (r matches Err(e) && e
                == CodecError::EccDecodeError)
            &&& forall|dat: Seq<u8>|
                dat.len() == data_size && count_present(shards@) >= data_size && agrees_with(
                    shards@,
                    #[trigger] codeword(dat, parity_size as int),
                ) ==> (r matches Ok(v) && v@ == dat)
        },
{
    if data_size == 0 || parity_size == 0 || data_size > 256 || parity_size > 256 || data_size
        + parity_size > 256 {
        return Err(CodecError::CodecConfigError(data_size, parity_size));
    }
    if shards.len() != data_size + parity_size {
        return Err(CodecError::CodecConfigError(data_size, parity_size));
    }
    let total = data_size + parity_size;
    let mut present: usize = 0;
    let mut i: usize = 0;
    let mut work: Vec<Option<u8>> = Vec::new();
    while i < total
        invariant
            i <= total,
            total == shards@.len(),
            present <= i,
            work@ == shards@.take(i as int),
            present == count_present(shards@.take(i as int)),
        decreases total - i,
    {
        proof {
            assert(shards@.take(i as int + 1).drop_last() =~= shards@.take(i as int));
            assert(shards@.take(i as int + 1).last() == shards@[i as int]);
        }
        let s = shards[i];
        if s.is_some() {
            present = present + 1;
        }
        work.push(s);
        i = i + 1;
    }
    proof {
        assert(shards@.take(total as int) =~= shards@);
    }
    if present < data_size {
        return Err(CodecError::EccDecodeError);
    }
    match rs_reconstruct(data_size, parity_size, &mut work) {
        Ok(()) => {},
        Err(_) => {
            proof {
                assert(false);
            }
            return Err(CodecError::EccDecodeError);
        },
    }
    let mut out: Vec<u8> = Vec::new();
    let mut j: usize = 0;
    while j < data_size
        invariant
            j <= data_size,
            data_size <= work@.len(),
            forall|k: int| 0 <= k < work@.len() ==> #[trigger] work@[k] is Some,
            out@.len() == j,
            forall|k: int| 0 <= k < j ==> Some(#[trigger] out@[k]) == work@[k],
        decreases data_size - j,
    {
        match work[j] {
            Some(b) => {
                out.push(b);
            },
            None => {
                proof {
                    assert(false);
                }
                return Err(CodecError::EccDecodeError);
            },
        }
        j = j + 1;
    }
    proof {
        assert forall|dat: Seq<u8>|
            dat.len() == data_size && count_present(shards@) >= data_size && agrees_with(
                shards@,
                #[trigger] codeword(dat, parity_size as int),
            ) implies out@ == dat by {
            let cw = codeword(dat, parity_size as int);
            assert(work@ =~= cw.map_values(|b: u8| Some(b)));
            assert forall|k: int| 0 <= k < data_size implies out@[k] == dat[k] by {
                assert(Some(out@[k]) == work@[k]);
                assert(work@[k] == cw.map_values(|b: u8| Some(b))[k]);
                assert(cw[k] == dat[k]);
            }
            assert(out@ =~= dat);
        }
    }
    Ok(out)
}

} // verus!
