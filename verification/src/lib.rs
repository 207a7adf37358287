mod codec;
mod container;
mod ecc;
mod errors;
mod vote;

pub use codec::{
    art_data_size, art_parity_size, art_stride, artifact_of, block_column, block_of,
    blocks_exchanged, encode_ok, lemma_block_order_immaterial,
    decode_layers, encode_layers, layered_artifact_of, layers_fit, layers_ok,
    lemma_artifact_decodes,
    parity_size_for, peeled_layers, repeat_blocks, unzip_and_unexpand_data, voted,
    voted_parity_checks, votes_ok, votes_ok_upto, wf_artifact, zip_and_expand_data,
};
pub use container::{container_entry_name, container_input_ok, unzip_of, zip_of};
pub use ecc::{
    agrees_with, build_codeword, codeword, count_absent, count_present,
    lemma_losses_within_parity_budget, recover_data_shard, rs_parity, rs_parity_byte,
    valid_shard_config,
};
pub use errors::CodecError;
pub use vote::{
    count_eq, has_plurality, is_plurality, lemma_majority_wins, lemma_swap_preserves_vote,
    lemma_unanimous_wins, plurality_of,
    vote_column,
};
