use p3_baby_bear::{
    default_babybear_poseidon2_16, BabyBear as PF, BABYBEAR_RC16_EXTERNAL_FINAL,
    BABYBEAR_RC16_EXTERNAL_INITIAL, BABYBEAR_RC16_INTERNAL,
};
use p3_challenger::{CanObserve, CanSample, DuplexChallenger};
use p3_field::{PrimeCharacteristicRing, PrimeField32};
use p3_symmetric::{
    CryptographicHasher, PaddingFreeSponge, Permutation, PseudoCompressionFunction,
    TruncatedPermutation,
};
use stark_backend::codec::{
    decode_base_field, decode_digest, decode_extension_field, encode_base_field, encode_digest,
    encode_extension_field, DecodeError,
};
use stark_backend::config::{
    default_duplex_sponge, poseidon2_compress_with_capacity, poseidon2_perm,
    BabyBearPoseidon2Config, BabyBearPoseidon2CpuEngine, BabyBearPoseidon2RefEngine, D_EF,
};
use stark_backend::cpu_transcript::CpuTranscript;
use stark_backend::digest_layers::build_digest_layers_scalar;
use stark_backend::field::{BabyBear, BabyBearExt4};
use stark_backend::hasher::{Hasher, MerkleHasher};
use stark_backend::multi_field::MultiFieldHasher;
use stark_backend::packed::{
    build_digest_layers_packed_babybear, hash_rows_in_packs, hash_rows_packed_babybear,
};
use stark_backend::params::{
    LogupConfig, StarkProtocolConfig, SystemParams, WhirConfig, WhirRoundConfig,
};
use stark_backend::poseidon2::{Compress, Digest, Perm, Sponge, CHUNK, DIGEST_SIZE, RATE, WIDTH};
use stark_backend::transcript::{
    check_witness, observe_exts, sample_bits, sample_ext, FiatShamirTranscript,
};
use zkhash::ark_ff::PrimeField;
use zkhash::fields::babybear::FpBabyBear as HorizenBabyBear;
use zkhash::poseidon2::poseidon2_instance_babybear::RC16;

fn horizen_to_p3(horizen_babybear: HorizenBabyBear) -> PF {
    PF::from_u64(horizen_babybear.into_bigint().0[0])
}

fn horizen_round_consts_16() -> ((Vec<[PF; 16]>, Vec<[PF; 16]>), Vec<PF>) {
    let p3_rc16: Vec<Vec<PF>> = RC16
        .iter()
        .map(|round| round.iter().map(|babybear| horizen_to_p3(*babybear)).collect())
        .collect();

    let rounds_f = 8;
    let rounds_p = 13;
    let rounds_f_beginning = rounds_f / 2;
    let p_end = rounds_f_beginning + rounds_p;
    let initial: Vec<[PF; 16]> = p3_rc16[..rounds_f_beginning]
        .iter()
        .cloned()
        .map(|round| round.try_into().unwrap())
        .collect();
    let terminal: Vec<[PF; 16]> =
        p3_rc16[p_end..].iter().cloned().map(|round| round.try_into().unwrap()).collect();
    let internal_round_constants: Vec<PF> =
        p3_rc16[rounds_f_beginning..p_end].iter().map(|round| round[0]).collect();
    ((initial, terminal), internal_round_constants)
}

#[test]
fn test_horizen_p3_rc_equality() {
    let ((external_initial, external_terminal), internal_constants) = horizen_round_consts_16();
    assert_eq!(external_initial, BABYBEAR_RC16_EXTERNAL_INITIAL.to_vec());
    assert_eq!(external_terminal, BABYBEAR_RC16_EXTERNAL_FINAL.to_vec());
    assert_eq!(internal_constants, BABYBEAR_RC16_INTERNAL.to_vec());
}

fn elements(n: u32) -> Vec<BabyBear> {
    (0..n).map(|i| BabyBear::new(1000 * i + 7)).collect()
}

fn to_p3(s: &[BabyBear]) -> Vec<PF> {
    s.iter().map(|x| PF::from_u32(x.value)).collect()
}

fn from_p3<const N: usize>(s: [PF; N]) -> [BabyBear; N] {
    s.map(|x| BabyBear::new(x.as_canonical_u32()))
}

fn hasher() -> Hasher<BabyBear, Digest, Sponge, Compress> {
    Hasher::new(Sponge { perm: Perm }, Compress { perm: Perm })
}

fn params() -> SystemParams {
    SystemParams {
        l_skip: 1,
        n_stack: 4,
        log_blowup: 1,
        max_constraint_degree: 3,
        logup: LogupConfig { pow_bits: 0 },
        whir: WhirConfig {
            k: 2,
            rounds: vec![WhirRoundConfig { num_queries: 5 }; 2],
            mu_pow_bits: 0,
            query_phase_pow_bits: 0,
            folding_pow_bits: 0,
        },
    }
}

#[test]
fn constants_fit_together() {
    assert_eq!((RATE, WIDTH, CHUNK, DIGEST_SIZE, D_EF), (8, 16, 8, 8, 4));
}

#[test]
fn config_keeps_its_parameters() {
    let config = BabyBearPoseidon2Config::new_from_perm(params(), poseidon2_perm());
    assert!(config.params().is_same(&params()));
    let p = config.params();
    assert_eq!((p.k_whir(), p.num_whir_rounds()), (2, 2));
    assert_eq!((p.num_whir_sumcheck_rounds(), p.log_final_poly_len()), (4, 1));
    let mut other = params();
    other.whir.rounds[1].num_queries = 6;
    assert!(!config.params().is_same(&other));
    let same = BabyBearPoseidon2Config::default_from_params(params());
    let vals = elements(3);
    assert_eq!(config.hasher().hash_slice(&vals), same.hasher().hash_slice(&vals));
    let third = BabyBearPoseidon2Config::new(params(), hasher());
    assert_eq!(third.hasher.hash_slice(&vals), same.hasher.hash_slice(&vals));
}

#[test]
fn engines_start_from_the_same_transcript() {
    let (a, b) = (
        BabyBearPoseidon2RefEngine::new(params()),
        BabyBearPoseidon2CpuEngine::new(params()),
    );
    assert!(a.config().params().is_same(b.config().params()));
    let (mut s, mut t) = (a.initial_transcript(), b.initial_transcript());
    assert_eq!(
        FiatShamirTranscript::<Digest>::sample(&mut s),
        FiatShamirTranscript::<Digest>::sample(&mut t)
    );
}

#[test]
fn leaves_are_hashed_by_the_sponge() {
    let sponge = PaddingFreeSponge::<_, 16, 8, 8>::new(default_babybear_poseidon2_16());
    for n in [0, 1, 7, 8, 9, 16, 29] {
        let vals = elements(n);
        let expected: [PF; 8] = sponge.hash_slice(&to_p3(&vals));
        assert_eq!(hasher().hash_slice(&vals).limbs, from_p3(expected));
    }
    assert_eq!(hasher().hash_slice(&[]).limbs, [BabyBear::zero(); 8]);
}

#[test]
fn nodes_are_compressed_by_the_permutation() {
    let (left, right) = (hasher().hash_slice(&elements(1)), hasher().hash_slice(&elements(2)));
    let compress = TruncatedPermutation::<_, 2, 8, 16>::new(default_babybear_poseidon2_16());
    let input = [left, right].map(|d| d.limbs.map(|x| PF::from_u32(x.value)));
    let expected: [PF; 8] = compress.compress(input);
    assert_eq!(hasher().compress(left, right).limbs, from_p3(expected));
    assert_ne!(hasher().compress(left, right), hasher().compress(right, left));

    let (first, second) = poseidon2_compress_with_capacity(left.limbs, right.limbs);
    assert_eq!(first, from_p3(expected));
    let mut state: [PF; 16] = [PF::ZERO; 16];
    state[..8].copy_from_slice(&to_p3(&left.limbs));
    state[8..].copy_from_slice(&to_p3(&right.limbs));
    default_babybear_poseidon2_16().permute_mut(&mut state);
    let upper: [PF; 8] = state[8..].try_into().unwrap();
    assert_eq!(second, from_p3(upper));
}

#[test]
fn tree_compression_is_repeated() {
    let h = hasher();
    let d: Vec<Digest> = (1..5).map(|i| h.hash_slice(&elements(i))).collect();
    let expected = h.compress(h.compress(d[0], d[1]), h.compress(d[2], d[3]));
    assert_eq!(h.tree_compress(d.clone()), expected);
    assert_eq!(h.tree_compress(vec![d[0]]), d[0]);
}

#[test]
fn transcript_is_the_duplex_challenger() {
    let mut t = default_duplex_sponge();
    let mut c =
        DuplexChallenger::<PF, _, 16, 8>::new(default_babybear_poseidon2_16());
    let sample = |t: &mut CpuTranscript| FiatShamirTranscript::<Digest>::sample(t).value;
    let expect = |c: &mut DuplexChallenger<PF, _, 16, 8>| {
        let x: PF = c.sample();
        x.as_canonical_u32()
    };
    assert_eq!(sample(&mut t), expect(&mut c));
    for n in [1usize, 7, 8, 9, 20] {
        for x in elements(n as u32) {
            FiatShamirTranscript::<Digest>::observe(&mut t, x);
            c.observe(PF::from_u32(x.value));
        }
        for _ in 0..n {
            assert_eq!(sample(&mut t), expect(&mut c));
        }
    }
    let digest = hasher().hash_slice(&elements(3));
    t.observe_commit(digest);
    for x in digest.limbs {
        c.observe(PF::from_u32(x.value));
    }
    assert_eq!(sample(&mut t), expect(&mut c));
    assert_eq!(t.output_buffer().len(), 7);
    assert_eq!(t.input_buffer().len(), 0);
    assert_eq!(t.sponge_state().len(), 16);
}

#[test]
fn clones_give_the_same_challenges() {
    let mut t = default_duplex_sponge();
    observe_exts::<Digest, CpuTranscript>(&mut t, &[BabyBearExt4::one(), BabyBearExt4::from_usize(5)]);
    let mut u = t.clone();
    assert_eq!(
        sample_ext::<Digest, CpuTranscript>(&mut t),
        sample_ext::<Digest, CpuTranscript>(&mut u)
    );
    let bits = sample_bits::<Digest, CpuTranscript>(&mut t.clone(), 5);
    assert_eq!(bits, FiatShamirTranscript::<Digest>::sample(&mut u).value as u64 % 32);
    assert!(check_witness::<Digest, CpuTranscript>(&mut t, 0, BabyBear::new(3)));
}

#[test]
fn packs_of_any_width_give_the_same_digests() {
    let h = hasher();
    let vals = elements(12);
    let rows: Vec<Digest> = vals.chunks(3).map(|row| h.hash_slice(row)).collect();
    assert_eq!(hash_rows_packed_babybear(&vals, 3, 4, 4), rows);
    for pack in 1..6 {
        assert_eq!(hash_rows_in_packs(&vals, 3, 4, 4, pack), rows);
    }
}

#[test]
fn padding_rows_depend_on_whether_the_pack_is_full() {
    let h = hasher();
    let vals = elements(3);
    let zeros = h.hash_slice(&[BabyBear::zero(); 1]);
    let none = Digest { limbs: [BabyBear::zero(); 8] };
    // three rows of one cell, padded to four
    assert_eq!(hash_rows_in_packs(&vals, 1, 3, 4, 4)[3], zeros);
    assert_eq!(hash_rows_in_packs(&vals, 1, 3, 4, 1)[3], zeros);
    assert_eq!(hash_rows_in_packs(&vals, 1, 3, 4, 8)[3], none);
    assert_eq!(hash_rows_in_packs(&vals, 1, 3, 4, 3)[3], none);
}

#[test]
fn packed_layers_are_the_scalar_layers() {
    let h = hasher();
    for (n, rows_per_query) in [(1, 1), (2, 2), (8, 1), (8, 2), (16, 4), (64, 8)] {
        let leaves: Vec<Digest> = (0..n).map(|i| h.hash_slice(&elements(i + 1))).collect();
        let packed = build_digest_layers_packed_babybear(leaves.clone(), rows_per_query);
        assert_eq!(packed, build_digest_layers_scalar(leaves, rows_per_query, &h));
    }
}

#[test]
fn multi_field_hasher_over_the_field_itself_is_the_sponge() {
    let m = MultiFieldHasher::<BabyBear, BabyBear, Perm, 16, 8, 8>::new(Perm);
    assert_eq!(m.num_f_elms, 1);
    for n in [0, 1, 8, 9, 20] {
        let vals = elements(n);
        assert_eq!(m.hash_slice(&vals), hasher().hash_slice(&vals).limbs.to_vec());
    }
}

#[test]
fn encoding_is_little_endian() {
    let mut out = vec![];
    encode_base_field(&BabyBear::new(0x01020304), &mut out);
    assert_eq!(out, vec![4, 3, 2, 1]);
    let x = BabyBearExt4::new(
        BabyBear::new(1),
        BabyBear::new(2),
        BabyBear::new(3),
        BabyBear::new(0x78000000),
    );
    encode_extension_field(&x, &mut out);
    assert_eq!(out.len(), 20);
    assert_eq!(out[16..], [0, 0, 0, 0x78]);
    let d = hasher().hash_slice(&elements(5));
    encode_digest(&d, &mut out);
    assert_eq!(decode_base_field(&out, 0), Ok(BabyBear::new(0x01020304)));
    assert_eq!(decode_extension_field(&out, 4), Ok(x));
    assert_eq!(decode_digest(&out, 20), Ok(d));
}

#[test]
fn decoding_errors() {
    assert_eq!(decode_base_field(&[1, 2, 3], 0), Err(DecodeError::UnexpectedEof));
    assert_eq!(decode_base_field(&[1, 2, 3, 4], 1), Err(DecodeError::UnexpectedEof));
    assert_eq!(
        decode_base_field(&[1, 0, 0, 0x78], 0),
        Err(DecodeError::NotCanonical { value: 0x78000001 })
    );
    // the first element that fails decides
    let mut bytes = vec![0u8; 32];
    bytes[7] = 0xff;
    assert_eq!(
        decode_digest(&bytes, 0),
        Err(DecodeError::NotCanonical { value: 0xff000000 })
    );
    assert_eq!(decode_extension_field(&bytes[..12], 8), Err(DecodeError::UnexpectedEof));
    assert_eq!(decode_digest(&[0; 32], 0), Ok(Digest { limbs: [BabyBear::zero(); 8] }));
}
