use arf::{
    build_codeword, decode_layers, encode_layers, recover_data_shard, unzip_and_unexpand_data,
    vote_column, zip_and_expand_data, CodecError,
};
use std::io::Write;

fn stride_of(art: &[u8]) -> usize {
    1 + art[0] as usize + art[1] as usize
}

#[test]
fn round_trip_small_blob() {
    let b: &[u8] = b"The quick brown fox jumps over the lazy dog";
    let art = zip_and_expand_data(b, 1).unwrap();
    let back = unzip_and_unexpand_data(&art, 1).unwrap();
    assert_eq!(back, b.to_vec());
}

#[test]
fn round_trip_empty_blob() {
    let b: &[u8] = b"";
    let art = zip_and_expand_data(b, 5).unwrap();
    let back = unzip_and_unexpand_data(&art, 5).unwrap();
    assert_eq!(back, Vec::<u8>::new());
}

#[test]
fn round_trip_several_factors() {
    let b: &[u8] = b"hello world";
    for d in 1..=4usize {
        let art = zip_and_expand_data(b, d).unwrap();
        let back = unzip_and_unexpand_data(&art, d).unwrap();
        assert_eq!(back, b.to_vec(), "duplication factor {}", d);
    }
}

#[test]
fn hello_world_three_blocks() {
    let b: &[u8] = b"hello world";
    let art = zip_and_expand_data(b, 2).unwrap();
    let ds = art[0] as usize;
    let p = art[1] as usize;
    // The container carries an envelope around the 11 payload bytes.
    assert!(ds > b.len());
    assert!(p >= 1);
    assert!(ds + p <= 256);
    let stride = stride_of(&art);
    assert_eq!(stride, 1 + ds + p);
    // Exactly three fixed-stride blocks after the header.
    assert_eq!(art.len(), 2 + 3 * stride);
    // All three blocks are identical and start with the reserved marker.
    let b0 = &art[2..2 + stride];
    let b1 = &art[2 + stride..2 + 2 * stride];
    let b2 = &art[2 + 2 * stride..2 + 3 * stride];
    assert_eq!(b0, b1);
    assert_eq!(b1, b2);
    assert_eq!(b0[0], 0);
    let back = unzip_and_unexpand_data(&art, 2).unwrap();
    assert_eq!(back, b.to_vec());
}

#[test]
fn zero_duplications_rejected() {
    let r = zip_and_expand_data(b"hello world", 0);
    assert!(matches!(r, Err(CodecError::CodecConfigError(_, 0))));
    let art = zip_and_expand_data(b"hello world", 2).unwrap();
    let r2 = unzip_and_unexpand_data(&art, 0);
    assert!(matches!(r2, Err(CodecError::CodecConfigError(_, _))));
}

#[test]
fn tie_vote_reports_first_offset() {
    let b: &[u8] = b"hello world";
    let mut art = zip_and_expand_data(b, 1).unwrap();
    let stride = stride_of(&art);
    // Flip one content byte of the second block: the two copies now
    // disagree there, and with two voters that is a tie.
    let idx = 2 + stride + 1 + 5;
    art[idx] ^= 0xAA;
    let r = unzip_and_unexpand_data(&art, 1);
    assert_eq!(r, Err(CodecError::ReconstructionError(5)));
}

#[test]
fn majority_outvotes_one_corrupt_block() {
    let b: &[u8] = b"hello world";
    let mut art = zip_and_expand_data(b, 2).unwrap();
    let stride = stride_of(&art);
    // Wreck the entire content of the third block; the other two still
    // agree at every offset, so the vote repairs everything.
    for i in 0..stride - 1 {
        art[2 + 2 * stride + 1 + i] ^= 0x5A;
    }
    let back = unzip_and_unexpand_data(&art, 2).unwrap();
    assert_eq!(back, b.to_vec());
}

#[test]
fn unanimous_corruption_fails_parity() {
    let b: &[u8] = b"hello world";
    let mut art = zip_and_expand_data(b, 1).unwrap();
    let stride = stride_of(&art);
    // Flip the same content byte in both copies: the vote is unanimous
    // on the corrupt value, and only the parity check can notice.
    for j in 0..2 {
        art[2 + j * stride + 1 + 7] ^= 0x3C;
    }
    let r = unzip_and_unexpand_data(&art, 1);
    assert_eq!(r, Err(CodecError::EccDecodeError));
}

#[test]
fn erasure_recovery_within_budget() {
    let b: &[u8] = b"hello world";
    let art = zip_and_expand_data(b, 1).unwrap();
    let ds = art[0] as usize;
    let p = art[1] as usize;
    let content = &art[3..3 + ds + p];
    let mut shards: Vec<Option<u8>> = content.iter().copied().map(Some).collect();
    // Lose as many positions as there are parity shards.
    for k in 0..p {
        shards[2 * k % (ds + p)] = None;
    }
    let lost = shards.iter().filter(|s| s.is_none()).count();
    assert!(lost <= p);
    let recovered = recover_data_shard(&shards, ds, p).unwrap();
    assert_eq!(recovered, art[3..3 + ds].to_vec());
}

#[test]
fn erasure_beyond_budget_fails() {
    let b: &[u8] = b"hello world";
    let art = zip_and_expand_data(b, 1).unwrap();
    let ds = art[0] as usize;
    let p = art[1] as usize;
    let content = &art[3..3 + ds + p];
    let mut shards: Vec<Option<u8>> = content.iter().copied().map(Some).collect();
    for k in 0..p + 1 {
        shards[k] = None;
    }
    let r = recover_data_shard(&shards, ds, p);
    assert_eq!(r, Err(CodecError::EccDecodeError));
}

#[test]
fn recover_rejects_bad_config() {
    let r = recover_data_shard(&vec![Some(1)], 1, 0);
    assert_eq!(r, Err(CodecError::CodecConfigError(1, 0)));
    let r2 = recover_data_shard(&vec![Some(1), Some(2)], 2, 1);
    assert_eq!(r2, Err(CodecError::CodecConfigError(2, 1)));
}

#[test]
fn build_codeword_structure() {
    let cw = build_codeword(&vec![1, 2, 3, 4], 2).unwrap();
    assert_eq!(cw.len(), 6);
    assert_eq!(&cw[..4], &[1, 2, 3, 4]);
    let r = build_codeword(&Vec::new(), 1);
    assert_eq!(r, Err(CodecError::CodecConfigError(0, 1)));
}

#[test]
fn malformed_container_reported() {
    // A structurally valid artifact whose voted block is a true
    // codeword, but whose data shard is no compressed container.
    let cw = build_codeword(&vec![9, 9, 9, 9], 2).unwrap();
    let mut art: Vec<u8> = vec![4, 2];
    for _ in 0..2 {
        art.push(0);
        art.extend_from_slice(&cw);
    }
    let r = unzip_and_unexpand_data(&art, 1);
    assert_eq!(r, Err(CodecError::MalformedContainer));
}

#[test]
fn truncated_artifact_rejected() {
    let art = zip_and_expand_data(b"hello world", 1).unwrap();
    let cut = &art[..art.len() - 1];
    let r = unzip_and_unexpand_data(cut, 1);
    assert!(matches!(r, Err(CodecError::CodecConfigError(_, _))));
    let r2 = unzip_and_unexpand_data(b"", 1);
    assert_eq!(r2, Err(CodecError::CodecConfigError(0, 0)));
}

#[test]
fn wrong_duplication_factor_rejected() {
    let art = zip_and_expand_data(b"hello world", 2).unwrap();
    let r = unzip_and_unexpand_data(&art, 1);
    assert!(matches!(r, Err(CodecError::CodecConfigError(_, _))));
}

#[test]
fn vote_column_picks_strict_plurality() {
    assert_eq!(vote_column(&vec![3, 3, 2]), Some(3));
    assert_eq!(vote_column(&vec![7, 7, 7]), Some(7));
    assert_eq!(vote_column(&vec![5]), Some(5));
    assert_eq!(vote_column(&vec![1, 2]), None);
    assert_eq!(vote_column(&vec![1, 1, 2, 2, 3]), None);
    assert_eq!(vote_column(&Vec::new()), None);
}

#[test]
fn single_layer_driver_round_trip() {
    let b: &[u8] = b"hello world";
    let art = encode_layers(b, 1, 2).unwrap();
    // The driver's single layer is exactly one application of encode.
    assert_eq!(art, zip_and_expand_data(b, 2).unwrap());
    let back = decode_layers(&art, 1, 2).unwrap();
    assert_eq!(back, b.to_vec());
}

#[test]
fn zero_layers_treated_as_one() {
    let b: &[u8] = b"hello world";
    let art0 = encode_layers(b, 0, 2).unwrap();
    let art1 = encode_layers(b, 1, 2).unwrap();
    assert_eq!(art0, art1);
    assert_eq!(decode_layers(&art0, 0, 2).unwrap(), b.to_vec());
}

#[test]
fn second_layer_exceeds_shard_ceiling() {
    let b: &[u8] = b"hello world";
    let r = encode_layers(b, 2, 1);
    assert!(matches!(r, Err(CodecError::CodecConfigError(_, _))));
}

#[test]
fn nested_layers_need_two_decodes() {
    let b: &[u8] = b"";
    let inner = zip_and_expand_data(b, 1).unwrap();
    // A single decode of a layered encoding peels exactly one layer: it
    // returns the inner artifact, never the payload. Within the GF(2^8)
    // shard ceiling a second layer cannot actually be built, because
    // even the smallest artifact compresses to a container of more than
    // 256 bytes; the attempt must be rejected, not mis-stacked.
    let again = zip_and_expand_data(&inner, 1);
    assert!(matches!(again, Err(CodecError::CodecConfigError(_, _))));
    let back = unzip_and_unexpand_data(&inner, 1).unwrap();
    assert_eq!(back, b.to_vec());
}

fn foreign_container(names: &[&str]) -> Vec<u8> {
    let mut w = zip::ZipWriter::new(std::io::Cursor::new(Vec::new()));
    for n in names {
        let opts = zip::write::FileOptions::default()
            .compression_method(zip::CompressionMethod::Deflated);
        w.start_file(*n, opts).unwrap();
        w.write_all(b"x").unwrap();
    }
    w.finish().unwrap().into_inner()
}

fn artifact_around(shard: &[u8], parity: usize) -> Vec<u8> {
    let cw = build_codeword(&shard.to_vec(), parity).unwrap();
    let mut art: Vec<u8> = vec![shard.len() as u8, parity as u8];
    for _ in 0..2 {
        art.push(0);
        art.extend_from_slice(&cw);
    }
    art
}

#[test]
fn foreign_entry_name_rejected() {
    // A parity-consistent artifact whose data shard is a real container,
    // but with its one entry under the wrong name.
    let z = foreign_container(&["other"]);
    let art = artifact_around(&z, 30);
    let r = unzip_and_unexpand_data(&art, 1);
    assert_eq!(r, Err(CodecError::MalformedContainer));
}

#[test]
fn multi_entry_container_rejected() {
    // Same, with a correct first entry name but a bad entry count.
    let z = foreign_container(&["data", "extra"]);
    let art = artifact_around(&z, 30);
    let r = unzip_and_unexpand_data(&art, 1);
    assert_eq!(r, Err(CodecError::MalformedContainer));
}

#[test]
fn encode_is_deterministic() {
    let b: &[u8] = b"hello world";
    let a1 = zip_and_expand_data(b, 2).unwrap();
    let a2 = zip_and_expand_data(b, 2).unwrap();
    assert_eq!(a1, a2);
    let l1 = encode_layers(b, 1, 3).unwrap();
    let l2 = encode_layers(b, 1, 3).unwrap();
    assert_eq!(l1, l2);
}

#[test]
fn block_order_is_immaterial() {
    let b: &[u8] = b"hello world";
    let mut art = zip_and_expand_data(b, 2).unwrap();
    let stride = stride_of(&art);
    // Corrupt one block so the copies are not all identical, then
    // exchange the first and last whole blocks: decode must not care.
    art[2 + 1 + 3] ^= 0x11;
    let mut swapped = art.clone();
    for t in 0..stride {
        swapped[2 + t] = art[2 + 2 * stride + t];
        swapped[2 + 2 * stride + t] = art[2 + t];
    }
    assert_eq!(
        unzip_and_unexpand_data(&art, 2),
        unzip_and_unexpand_data(&swapped, 2)
    );
    assert_eq!(unzip_and_unexpand_data(&art, 2), Ok(b.to_vec()));
}

#[test]
fn forged_encryption_field_rejected() {
    // A container whose central directory plants an AES extra field on
    // a plaintext deflated entry: decode must report it as malformed,
    // never panic, even though the entry's encrypted flag is clear.
    let mut z: Vec<u8> = Vec::new();
    // Local file header: plaintext, deflated, empty payload.
    z.extend_from_slice(b"PK\x03\x04");
    z.extend_from_slice(&[20, 0, 0, 0, 8, 0, 0, 0, 0, 0]);
    z.extend_from_slice(&[0, 0, 0, 0]); // crc32 of the empty payload
    z.extend_from_slice(&[2, 0, 0, 0]); // compressed size
    z.extend_from_slice(&[0, 0, 0, 0]); // uncompressed size
    z.extend_from_slice(&[4, 0, 0, 0]); // name and extra lengths
    z.extend_from_slice(b"data");
    z.extend_from_slice(&[3, 0]); // deflate stream of the empty payload
    // Central directory entry, extra field kind 0x9901 (AES, AE-1,
    // 128-bit strength, inner method deflate) on the plaintext entry.
    z.extend_from_slice(b"PK\x01\x02");
    z.extend_from_slice(&[20, 0, 20, 0, 0, 0, 8, 0, 0, 0, 0, 0]);
    z.extend_from_slice(&[0, 0, 0, 0]);
    z.extend_from_slice(&[2, 0, 0, 0]);
    z.extend_from_slice(&[0, 0, 0, 0]);
    z.extend_from_slice(&[4, 0, 11, 0, 0, 0, 0, 0, 0, 0]);
    z.extend_from_slice(&[0, 0, 0, 0]); // external attributes
    z.extend_from_slice(&[0, 0, 0, 0]); // local header offset
    z.extend_from_slice(b"data");
    z.extend_from_slice(&[0x01, 0x99, 7, 0, 1, 0, 0x41, 0x45, 1, 8, 0]);
    // End of central directory.
    z.extend_from_slice(b"PK\x05\x06");
    z.extend_from_slice(&[0, 0, 0, 0, 1, 0, 1, 0]);
    z.extend_from_slice(&[61, 0, 0, 0]); // central directory size
    z.extend_from_slice(&[36, 0, 0, 0]); // central directory offset
    z.extend_from_slice(&[0, 0]);
    // The zip crate itself accepts this directory.
    assert!(zip::ZipArchive::new(std::io::Cursor::new(z.clone())).is_ok());
    let art = artifact_around(&z, 30);
    let r = unzip_and_unexpand_data(&art, 1);
    assert_eq!(r, Err(CodecError::MalformedContainer));
}
