//! Coefficient coding engine of a lossless JPEG recompressor: an adaptive
//! binary arithmetic coder, the context model that drives it, and the codec
//! for 8x8 blocks of DCT coefficients, with the proofs that what is encoded
//! is decoded again.

pub mod band_laws;
pub mod bit_laws;
pub mod block_based_image;
pub mod block_context;
pub mod branch;
pub mod codec_laws;
pub mod coder_laws;
pub mod consts;
pub mod enabled_features;
pub mod helpers;
pub mod idct;
pub mod jpeg_header;
pub mod lanes;
pub mod lepton_decoder;
pub mod lepton_encoder;
pub mod lepton_error;
pub mod metrics;
pub mod model;
pub mod neighbor_summary;
pub mod order_laws;
pub mod probability_tables;
pub mod probability_tables_set;
pub mod quantization_tables;
pub mod row_laws;
pub mod row_spec;
pub mod truncate_components;
pub mod vpx_bool_reader;
pub mod vpx_bool_writer;
