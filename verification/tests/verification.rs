//! A prover for small parameters, and what the verifier makes of its proofs.

use std::cell::RefCell;

use p3_baby_bear::BabyBear as PF;
use p3_field::extension::BinomialExtensionField;
use p3_field::{BasedVectorSpace, Field, PrimeCharacteristicRing, PrimeField32, TwoAdicField};
use stark_backend::config::{default_duplex_sponge, BabyBearPoseidon2Config};
use stark_backend::cpu_transcript::CpuTranscript;
use stark_backend::field::{BabyBear, BabyBearExt4};
use stark_backend::keys::{
    LinearConstraint, MultiStarkVerifyingKey, MultiStarkVerifyingKey0, StarkVerifyingKey,
    StarkVerifyingParams, SymbolicConstraintsDag, SymbolicExpressionDag, SymbolicInteraction,
    TraceWidth, VerifierSinglePreprocessedData,
};
use stark_backend::matrix::ColMajorMatrix;
use stark_backend::merkle_tree::MerkleTree;
use stark_backend::params::{LogupConfig, SystemParams, WhirConfig, WhirRoundConfig};
use stark_backend::poseidon2::Digest;
use stark_backend::proofs::{
    BatchConstraintProof, GkrProof, Proof, StackingProof, TraceVData, WhirProof,
};
use stark_backend::reed_solomon::encode_messages;
use stark_backend::transcript::{
    check_witness, observe_ext, sample_bits, sample_ext, FiatShamirTranscript,
};
use stark_backend::stacked_layout::StackedLayout;
use stark_backend::verification::batch_constraints::{
    verify_zerocheck_and_logup, BatchConstraintError,
};
use stark_backend::verification::batch_sumcheck::{run_sumcheck, SumcheckError};
use stark_backend::verification::proof_shape::ProofShapeError;
use stark_backend::verification::protocol::{verify, VerifierError};
use stark_backend::verification::subprotocols::{
    GkrVerificationError, SubProtocols, TraceOpenings,
};
use stark_backend::verification::whir::{
    binary_k_fold, merkle_verify, verify_whir, VerifyWhirError,
};

type PE = BinomialExtensionField<PF, 4>;

fn f(x: PF) -> BabyBear {
    BabyBear::new(x.as_canonical_u32())
}

fn e(x: PE) -> BabyBearExt4 {
    let c: &[PF] = x.as_basis_coefficients_slice();
    BabyBearExt4::new(f(c[0]), f(c[1]), f(c[2]), f(c[3]))
}

fn pe(x: BabyBearExt4) -> PE {
    PE::new([x.c0, x.c1, x.c2, x.c3].map(|c| PF::from_u32(c.value)))
}

fn params(k: usize, num_rounds: usize, pow_bits: usize) -> SystemParams {
    SystemParams {
        l_skip: 2,
        n_stack: 3,
        log_blowup: 1,
        max_constraint_degree: 3,
        logup: LogupConfig { pow_bits: 0 },
        whir: WhirConfig {
            k,
            rounds: vec![WhirRoundConfig { num_queries: 3 }; num_rounds],
            mu_pow_bits: pow_bits,
            query_phase_pow_bits: pow_bits,
            folding_pow_bits: pow_bits,
        },
    }
}

/// Finds the least witness for `bits` bits of work, and observes it.
fn grind(transcript: &mut CpuTranscript, bits: usize) -> BabyBear {
    for w in 0..1_000_000 {
        let w = BabyBear::new(w);
        if check_witness::<Digest, CpuTranscript>(&mut transcript.clone(), bits, w) {
            assert!(check_witness::<Digest, CpuTranscript>(transcript, bits, w));
            return w;
        }
    }
    panic!("no witness");
}

/// The values on the hypercube of the multilinear polynomial with coefficients `c`.
fn cube_values(c: &[PE]) -> Vec<PE> {
    let mut v = c.to_vec();
    let mut bit = 1;
    while bit < v.len() {
        for i in 0..v.len() {
            if i & bit != 0 {
                v[i] = v[i] + v[i ^ bit];
            }
        }
        bit *= 2;
    }
    v
}

fn horner(c: &[PE], x: PE) -> PE {
    c.iter().rev().fold(PE::ZERO, |acc, a| acc * x + *a)
}

/// The value at `u` of the multilinear extension of the table.
fn mle(table: &[PE], u: &[PE]) -> PE {
    let mut t = table.to_vec();
    for x in u.iter().rev() {
        let h = t.len() / 2;
        t = (0..h).map(|i| t[i] + (t[h + i] - t[i]) * *x).collect();
    }
    t[0]
}

/// For each point of the hypercube the product over the coordinates.
fn kernel(coords: &[(PE, PE)]) -> Vec<PE> {
    (0..1usize << coords.len())
        .map(|b| {
            coords
                .iter()
                .enumerate()
                .map(|(i, (at0, at1))| if b >> i & 1 == 0 { *at0 } else { *at1 })
                .fold(PE::ONE, |x, y| x * y)
        })
        .collect()
}

/// The Merkle trees over the codewords of the columns of each commitment.
fn commit(
    config: &BabyBearPoseidon2Config,
    columns: &[Vec<Vec<PF>>],
) -> Vec<MerkleTree<BabyBear, Digest>> {
    let p = &config.params;
    let rs_height = 1 << (p.l_skip + p.n_stack + p.log_blowup);
    columns
        .iter()
        .map(|cols| {
            let messages = cols.iter().map(|c| c.iter().map(|x| f(*x)).collect()).collect();
            let code = encode_messages(messages, rs_height);
            MerkleTree::new(&config.hasher, code, 1 << p.whir.k).unwrap()
        })
        .collect()
}

/// The values of the columns at `u`.
fn open(columns: &[Vec<Vec<PF>>], u: &[PE]) -> Vec<Vec<BabyBearExt4>> {
    let in_ext = |c: &Vec<PF>| c.iter().map(|x| PE::from(*x)).collect::<Vec<PE>>();
    columns.iter().map(|cols| cols.iter().map(|c| e(mle(&in_ext(c), u))).collect()).collect()
}

struct Instance {
    config: BabyBearPoseidon2Config,
    proof: WhirProof<Digest>,
    openings: Vec<Vec<BabyBearExt4>>,
    commitments: Vec<Digest>,
    u: Vec<BabyBearExt4>,
}

/// A stream of field elements.
fn elements(seed: u32) -> impl FnMut() -> PF {
    let mut seed = seed;
    move || {
        seed = seed.wrapping_mul(1664525).wrapping_add(1013904223);
        PF::from_u32(seed % 0x78000001)
    }
}

/// Commits to one and to two columns and opens them.
fn prove(params: SystemParams) -> Instance {
    let config = BabyBearPoseidon2Config::default_from_params(params);
    let m = config.params.l_skip + config.params.n_stack;
    let mut next = elements(1);
    let columns: Vec<Vec<Vec<PF>>> = [1, 2]
        .iter()
        .map(|w| (0..*w).map(|_| (0..1 << m).map(|_| next()).collect()).collect())
        .collect();
    let u: Vec<PE> = (0..m).map(|_| PE::new([next(), next(), next(), next()])).collect();
    let trees = commit(&config, &columns);
    let proof = prove_openings(&config, &columns, &trees, &u, default_duplex_sponge());
    Instance {
        proof,
        openings: open(&columns, &u),
        commitments: trees.iter().map(|t| t.root().unwrap()).collect(),
        u: u.iter().map(|x| e(*x)).collect(),
        config,
    }
}

/// Proves the values of the columns at `u`.
fn prove_openings(
    config: &BabyBearPoseidon2Config,
    columns: &[Vec<Vec<PF>>],
    trees: &[MerkleTree<BabyBear, Digest>],
    u: &[PE],
    transcript: CpuTranscript,
) -> WhirProof<Digest> {
    let mut t = transcript;
    let p = &config.params;
    let hasher = &config.hasher;
    let m = p.l_skip + p.n_stack;
    let k = p.whir.k;
    let rounds = p.whir.rounds.len();
    let mut log_domain = m + p.log_blowup;

    let mu_pow_witness = grind(&mut t, p.whir.mu_pow_bits);
    let mu = pe(sample_ext::<Digest, CpuTranscript>(&mut t));

    let mut coeffs = vec![PE::ZERO; 1 << m];
    let mut mu_pow = PE::ONE;
    for c in columns.iter().flatten() {
        for (a, x) in coeffs.iter_mut().zip(c) {
            *a += mu_pow * *x;
        }
        mu_pow *= mu;
    }
    let mut weights =
        kernel(&u.iter().map(|x| (PE::ONE - x.double(), *x)).collect::<Vec<_>>());

    let mut proof = WhirProof {
        mu_pow_witness,
        whir_sumcheck_polys: vec![],
        codeword_commits: vec![],
        ood_values: vec![],
        folding_pow_witnesses: vec![],
        query_phase_pow_witnesses: vec![],
        initial_round_opened_rows: vec![],
        initial_round_merkle_proofs: vec![],
        codeword_opened_values: vec![],
        codeword_merkle_proofs: vec![],
        final_poly: vec![],
    };
    let mut tree: Option<MerkleTree<BabyBearExt4, Digest>> = None;
    for round in 0..rounds {
        for _ in 0..k {
            let vals = cube_values(&coeffs);
            let half = vals.len() / 2;
            let (mut s1, mut s2) = (PE::ZERO, PE::ZERO);
            for i in 0..half {
                let (f0, f1) = (vals[2 * i], vals[2 * i + 1]);
                let (w0, w1) = (weights[2 * i], weights[2 * i + 1]);
                s1 += f1 * w1;
                s2 += (f1.double() - f0) * (w1.double() - w0);
            }
            proof.whir_sumcheck_polys.push([e(s1), e(s2)]);
            observe_ext::<Digest, CpuTranscript>(&mut t, e(s1));
            observe_ext::<Digest, CpuTranscript>(&mut t, e(s2));
            proof.folding_pow_witnesses.push(grind(&mut t, p.whir.folding_pow_bits));
            let alpha = pe(sample_ext::<Digest, CpuTranscript>(&mut t));
            coeffs = (0..half).map(|i| coeffs[2 * i] + alpha * coeffs[2 * i + 1]).collect();
            weights = (0..half)
                .map(|i| weights[2 * i] + alpha * (weights[2 * i + 1] - weights[2 * i]))
                .collect();
        }
        let last = round == rounds - 1;
        let mut next_tree = None;
        let mut z0 = PE::ZERO;
        if last {
            proof.final_poly = coeffs.iter().map(|c| e(*c)).collect();
            for c in &proof.final_poly {
                observe_ext::<Digest, CpuTranscript>(&mut t, *c);
            }
        } else {
            let g = PF::two_adic_generator(log_domain - 1);
            let code: Vec<BabyBearExt4> = (0..1u64 << (log_domain - 1))
                .map(|i| e(horner(&coeffs, PE::from(g.exp_u64(i)))))
                .collect();
            let new = MerkleTree::new(hasher, ColMajorMatrix::new(code, 1), 1 << k).unwrap();
            proof.codeword_commits.push(new.root().unwrap());
            t.observe_commit(new.root().unwrap());
            next_tree = Some(new);
            z0 = pe(sample_ext::<Digest, CpuTranscript>(&mut t));
            let y0 = e(horner(&coeffs, z0));
            proof.ood_values.push(y0);
            observe_ext::<Digest, CpuTranscript>(&mut t, y0);
        }
        proof.query_phase_pow_witnesses.push(grind(&mut t, p.whir.query_phase_pow_bits));
        let indices: Vec<usize> = (0..p.whir.rounds[round].num_queries)
            .map(|_| sample_bits::<Digest, CpuTranscript>(&mut t, log_domain - k) as usize)
            .collect();
        if round == 0 {
            for tree in trees {
                let rows = indices.iter().map(|i| tree.get_opened_rows(*i).unwrap()).collect();
                proof.initial_round_opened_rows.push(rows);
                let paths = indices.iter().map(|i| tree.query_merkle_proof(*i).unwrap()).collect();
                proof.initial_round_merkle_proofs.push(paths);
            }
        } else {
            let tree = tree.as_ref().unwrap();
            let rows = indices
                .iter()
                .map(|i| tree.get_opened_rows(*i).unwrap().into_iter().flatten().collect())
                .collect();
            proof.codeword_opened_values.push(rows);
            let paths = indices.iter().map(|i| tree.query_merkle_proof(*i).unwrap()).collect();
            proof.codeword_merkle_proofs.push(paths);
        }
        let gamma = pe(sample_ext::<Digest, CpuTranscript>(&mut t));
        let vars = m - k * (round + 1);
        let add_point = |weights: &mut Vec<PE>, z: PE, weight: PE| {
            let squares: Vec<PE> = (0..vars).map(|i| z.exp_power_of_2(i)).collect();
            let eq = kernel(&squares.iter().map(|x| (PE::ONE - *x, *x)).collect::<Vec<_>>());
            for (w, q) in weights.iter_mut().zip(eq) {
                *w += weight * q;
            }
        };
        if !last {
            add_point(&mut weights, z0, gamma);
        }
        let g = PF::two_adic_generator(log_domain);
        for (j, i) in indices.iter().enumerate() {
            let z = g.exp_u64(*i as u64).exp_power_of_2(k);
            add_point(&mut weights, PE::from(z), gamma.exp_u64(j as u64 + 2));
        }
        tree = next_tree;
        log_domain -= 1;
    }
    proof
}

fn check(i: &Instance) -> Result<(), VerifyWhirError> {
    let mut t = default_duplex_sponge();
    verify_whir(&mut t, &i.config, &i.proof, &i.openings, &i.commitments, &i.u)
}

#[test]
fn honest_proofs_are_accepted() {
    assert_eq!(check(&prove(params(1, 1, 0))), Ok(()));
    assert_eq!(check(&prove(params(2, 2, 0))), Ok(()));
    assert_eq!(check(&prove(params(1, 4, 0))), Ok(()));
    assert_eq!(check(&prove(params(1, 5, 0))), Ok(()));
}

#[test]
fn honest_proofs_of_work_are_accepted() {
    assert_eq!(check(&prove(params(2, 2, 3))), Ok(()));
}

#[test]
fn wrong_openings_are_refused() {
    let mut i = prove(params(2, 2, 0));
    i.openings[1][0] = BabyBearExt4::one();
    assert_eq!(check(&i), Err(VerifyWhirError::FinalPolyConstraint));
}

#[test]
fn wrong_opening_point_is_refused() {
    let mut i = prove(params(2, 2, 0));
    i.u[0] = BabyBearExt4::one();
    assert_eq!(check(&i), Err(VerifyWhirError::FinalPolyConstraint));
}

#[test]
fn wrong_rows_are_refused() {
    let mut i = prove(params(2, 2, 0));
    let cell = &mut i.proof.initial_round_opened_rows[0][1][2][0];
    *cell = BabyBear::new(cell.value + 1);
    assert_eq!(check(&i), Err(VerifyWhirError::MerkleVerify));
}

#[test]
fn wrong_values_of_later_rounds_are_refused() {
    let mut i = prove(params(2, 2, 0));
    i.proof.codeword_opened_values[0][0][1] = BabyBearExt4::one();
    assert_eq!(check(&i), Err(VerifyWhirError::MerkleVerify));
}

#[test]
fn wrong_final_degree_is_refused() {
    // without folding work or queries the final polynomial is only looked at in the end
    let mut p = params(1, 1, 0);
    p.whir.rounds = vec![WhirRoundConfig { num_queries: 0 }];
    let mut i = prove(p);
    assert_eq!(check(&i), Ok(()));
    i.proof.final_poly.pop();
    assert_eq!(check(&i), Err(VerifyWhirError::FinalPolyDegree));
}

#[test]
fn missing_work_is_refused() {
    let bump = |w: &mut BabyBear| *w = BabyBear::new(w.value + 1);
    let mut i = prove(params(2, 2, 12));
    bump(&mut i.proof.mu_pow_witness);
    assert_eq!(check(&i), Err(VerifyWhirError::MuPoWInvalid));
    let mut i = prove(params(2, 2, 12));
    bump(&mut i.proof.folding_pow_witnesses[0]);
    assert_eq!(check(&i), Err(VerifyWhirError::FoldingPoWInvalid));
    let mut i = prove(params(2, 2, 12));
    bump(&mut i.proof.query_phase_pow_witnesses[0]);
    assert_eq!(check(&i), Err(VerifyWhirError::QueryPhasePoWInvalid));
}

#[test]
fn transcript_after_verification_is_that_of_the_prover() {
    let i = prove(params(1, 2, 0));
    let (mut t1, mut t2) = (default_duplex_sponge(), default_duplex_sponge());
    assert_eq!(
        verify_whir(&mut t1, &i.config, &i.proof, &i.openings, &i.commitments, &i.u),
        Ok(())
    );
    assert_eq!(
        verify_whir(&mut t2, &i.config, &i.proof, &i.openings, &i.commitments, &i.u),
        Ok(())
    );
    let (a, b) = (
        FiatShamirTranscript::<Digest>::sample(&mut t1),
        FiatShamirTranscript::<Digest>::sample(&mut t2),
    );
    assert_eq!(a, b);
}

/// The fold by its definition: `h(X) + (a - X) (h(X) - h(-X)) / (2X)` at the square of `X`.
fn fold_once(values: &[PE], alpha: PE, x: PF) -> Vec<PE> {
    let m = values.len() / 2;
    let w = PF::two_adic_generator(values.len().trailing_zeros() as usize);
    (0..m)
        .map(|i| {
            let t = PE::from(x * w.exp_u64(i as u64));
            values[i] + (alpha - t) * (values[i] - values[m + i]) * t.double().inverse()
        })
        .collect()
}

#[test]
fn binary_fold_follows_its_definition() {
    let values: Vec<PE> = (1..9u32).map(|i| PE::new([i, 2 * i, 5, i * i].map(PF::from_u32))).collect();
    let alphas: Vec<PE> = (3..6u32).map(|i| PE::new([i, 1, i, 0].map(PF::from_u32))).collect();
    let x = PF::from_u32(77);
    let mut v = values.clone();
    let mut p = x;
    for a in &alphas {
        v = fold_once(&v, *a, p);
        p = p * p;
    }
    let folded = binary_k_fold(
        values.iter().map(|x| e(*x)).collect(),
        &alphas.iter().map(|x| e(*x)).collect::<Vec<_>>(),
        f(x),
    );
    assert_eq!(folded, e(v[0]));
}

#[test]
fn folding_a_codeword_sets_variables() {
    // f(X) = 1 + 2X + 3X^2 + 4X^3 folded at a and b is (1 + 2a) + (3 + 4a) b
    let c = [1u32, 2, 3, 4].map(|x| PE::from(PF::from_u32(x)));
    let x = PF::from_u32(5);
    let w = PF::two_adic_generator(2);
    let values: Vec<BabyBearExt4> =
        (0..4).map(|i| e(horner(&c, PE::from(x * w.exp_u64(i))))).collect();
    let (a, b) = (PE::from(PF::from_u32(10)), PE::from(PF::from_u32(100)));
    let folded = binary_k_fold(values, &[e(a), e(b)], f(x));
    assert_eq!(folded, e(PE::from(PF::from_u32(21 + 43 * 100))));
}

#[test]
fn merkle_paths_are_walked_from_the_leaf() {
    let i = prove(params(2, 1, 0));
    let hasher = &i.config.hasher;
    let mut path = i.proof.initial_round_merkle_proofs[0][0].clone();
    let leaf = path[0];
    assert_eq!(merkle_verify(hasher, leaf, 0, leaf, &[]), Ok(()));
    path[0] = Digest { limbs: [BabyBear::zero(); 8] };
    assert_eq!(
        merkle_verify(hasher, i.commitments[0], 0, leaf, &path),
        Err(VerifyWhirError::MerkleVerify)
    );
}

/// Sub-protocols that accept everything they are not told to refuse.
struct Mock {
    n_logup: usize,
    gkr: Result<(BabyBearExt4, BabyBearExt4), u8>,
    node_value: BabyBearExt4,
    stacking: Result<Vec<BabyBearExt4>, u8>,
    /// The transcript that the reduction to stacked columns was handed.
    seen: RefCell<Option<CpuTranscript>>,
}

impl SubProtocols<CpuTranscript> for Mock {
    type Node = ();
    type Layers = ();
    type GkrRejection = u8;
    type Rounds = ();
    type StackingRejection = u8;

    fn calculate_n_logup(&self, _l_skip: usize, _total_interactions: u64) -> usize {
        self.n_logup
    }

    fn verify_gkr(
        &self,
        _proof: &GkrProof<()>,
        transcript: CpuTranscript,
        total_rounds: usize,
    ) -> (
        CpuTranscript,
        Result<(BabyBearExt4, BabyBearExt4, Vec<BabyBearExt4>), GkrVerificationError<u8>>,
    ) {
        let r = match self.gkr {
            Ok((p, q)) => Ok((p, q, vec![BabyBearExt4::one(); total_rounds])),
            Err(e) => Err(GkrVerificationError::Rejected(e)),
        };
        (transcript, r)
    }

    fn eval_eq_uni(&self, _l_skip: usize, _x: BabyBearExt4, _y: BabyBearExt4) -> BabyBearExt4 {
        BabyBearExt4::one()
    }

    fn eval_eq_sharp_uni(
        &self,
        _omega_skip_pows: &Vec<BabyBear>,
        _xi: &Vec<BabyBearExt4>,
        _z: BabyBearExt4,
    ) -> BabyBearExt4 {
        BabyBearExt4::one()
    }

    fn eval_nodes(
        &self,
        _openings: &TraceOpenings,
        _public_values: &Vec<BabyBear>,
        nodes: &Vec<()>,
    ) -> Vec<BabyBearExt4> {
        vec![self.node_value; nodes.len()]
    }

    fn verify_stacked_reduction(
        &self,
        transcript: CpuTranscript,
        _proof: &StackingProof<()>,
        layouts: &Vec<StackedLayout>,
        need_rot_per_commit: &Vec<Vec<bool>>,
        l_skip: usize,
        n_stack: usize,
        _column_openings: &Vec<Vec<Vec<BabyBearExt4>>>,
        r: &Vec<BabyBearExt4>,
        omega_skip_pows: &Vec<BabyBear>,
    ) -> (CpuTranscript, Result<Vec<BabyBearExt4>, u8>) {
        assert_eq!((l_skip, n_stack), (2, 3));
        assert_eq!((layouts.len(), layouts[0].width(), layouts[0].height()), (1, 1, 32));
        assert_eq!(*need_rot_per_commit, vec![vec![false]]);
        assert_eq!(r.len(), 4);
        // the powers of the generator of order four
        assert_eq!(
            *omega_skip_pows,
            [1, 0x67055c21, 0x78000000, 0x10faa3e0].map(BabyBear::new).to_vec()
        );
        *self.seen.borrow_mut() = Some(transcript.clone());
        (transcript, self.stacking.clone())
    }
}

struct Case {
    config: BabyBearPoseidon2Config,
    mock: Mock,
    mvk: MultiStarkVerifyingKey<Digest, ()>,
    proof: Proof<Digest, (), ()>,
}

/// An AIR of one column without constraints.
fn air(is_required: bool) -> StarkVerifyingKey<Digest, ()> {
    StarkVerifyingKey {
        preprocessed_data: None,
        params: StarkVerifyingParams {
            width: TraceWidth { preprocessed: None, cached_mains: vec![], common_main: 1 },
            num_public_values: 1,
            need_rot: false,
        },
        symbolic_constraints: SymbolicConstraintsDag {
            constraints: SymbolicExpressionDag { nodes: vec![()], constraint_idx: vec![] },
            interactions: vec![],
        },
        is_required,
    }
}

/// A valid proof of one AIR that is required and one that has no trace.
fn valid_case(logup_pow_bits: usize) -> Case {
    let system = || {
        let mut p = params(2, 2, 0);
        p.logup.pow_bits = logup_pow_bits;
        p
    };
    let config = BabyBearPoseidon2Config::default_from_params(system());
    let mut next = elements(7);
    let columns = vec![vec![(0..32).map(|_| next()).collect::<Vec<PF>>()]];
    let trees = commit(&config, &columns);
    let prism: Vec<PE> = (0..4).map(|_| PE::new([next(), next(), next(), next()])).collect();
    let mut u = vec![prism[0], prism[0].square()];
    u.extend_from_slice(&prism[1..]);
    let zero = BabyBearExt4::new(f(PF::ZERO), f(PF::ZERO), f(PF::ZERO), f(PF::ZERO));
    let mvk = MultiStarkVerifyingKey {
        inner: MultiStarkVerifyingKey0 {
            params: system(),
            per_air: vec![air(true), air(false)],
            trace_height_constraints: vec![LinearConstraint {
                coefficients: vec![1, 1],
                threshold: 33,
            }],
        },
        pre_hash: Digest { limbs: [BabyBear::new(9); 8] },
    };
    let mock = Mock {
        n_logup: 0,
        gkr: Err(0),
        node_value: zero,
        stacking: Ok(prism.iter().map(|x| e(*x)).collect()),
        seen: RefCell::new(None),
    };
    let mut case = Case {
        mock,
        mvk,
        proof: Proof {
            common_main_commit: trees[0].root().unwrap(),
            trace_vdata: vec![
                Some(TraceVData { log_height: 5, cached_commitments: vec![] }),
                None,
            ],
            public_values: vec![vec![BabyBear::new(4)], vec![]],
            gkr_proof: GkrProof {
                logup_pow_witness: BabyBear::zero(),
                q0_claim: BabyBearExt4::one(),
                layers: (),
            },
            batch_constraint_proof: BatchConstraintProof {
                numerator_term_per_air: vec![zero],
                denominator_term_per_air: vec![zero],
                univariate_round_coeffs: vec![zero; 13],
                sumcheck_round_polys: vec![vec![zero; 4]; 3],
                column_openings: vec![vec![vec![BabyBearExt4::one()]]],
            },
            stacking_proof: StackingProof { stacking_openings: open(&columns, &u), rounds: () },
            whir_proof: prove_openings(&config, &columns, &trees, &u, default_duplex_sponge()),
        },
        config,
    };
    if logup_pow_bits == 0 {
        // the opening proof belongs to the transcript that the reduction is handed
        let refused = outcome(&case);
        assert!(matches!(refused, Err(VerifierError::WhirError(_))));
        let transcript = case.mock.seen.borrow_mut().take().unwrap();
        case.proof.whir_proof = prove_openings(&case.config, &columns, &trees, &u, transcript);
    }
    case
}

fn outcome(c: &Case) -> Result<(), VerifierError<u8, u8>> {
    verify(&c.config, &c.mock, &c.mvk, &c.proof, default_duplex_sponge()).1
}

#[test]
fn valid_proof_is_verified() {
    assert!(outcome(&valid_case(0)).is_ok());
}

#[test]
fn commitments_and_public_values_are_bound() {
    let mut c = valid_case(0);
    c.proof.public_values[0][0] = BabyBear::new(5);
    assert!(matches!(outcome(&c), Err(VerifierError::WhirError(_))));
    let mut c = valid_case(0);
    c.mvk.pre_hash = Digest { limbs: [BabyBear::new(8); 8] };
    assert!(matches!(outcome(&c), Err(VerifierError::WhirError(_))));
    let mut c = valid_case(0);
    c.proof.common_main_commit = c.mvk.pre_hash;
    assert!(matches!(outcome(&c), Err(VerifierError::WhirError(_))));
}

#[test]
fn other_parameters_are_refused() {
    let mut c = valid_case(0);
    c.mvk.inner.params.whir.rounds[1].num_queries = 4;
    assert!(matches!(outcome(&c), Err(VerifierError::SystemParamsMismatch)));
}

#[test]
fn proofs_without_traces_are_refused() {
    let mut c = valid_case(0);
    c.proof.trace_vdata[0] = None;
    assert!(matches!(outcome(&c), Err(VerifierError::EmptyTraces)));
}

#[test]
fn proofs_without_traces_are_refused_whatever_the_parameters() {
    let mut c = valid_case(0);
    c.proof.trace_vdata[0] = None;
    c.config.params.l_skip = 0;
    assert!(matches!(outcome(&c), Err(VerifierError::SystemParamsMismatch)));
    // now there is no variable to check constraints in, and no weight for the second AIR
    c.mvk.inner.params.l_skip = 0;
    c.mvk.inner.trace_height_constraints[0].coefficients.truncate(1);
    assert!(matches!(outcome(&c), Err(VerifierError::EmptyTraces)));
}

#[test]
fn weights_of_further_airs_do_not_count() {
    let mut c = valid_case(0);
    c.mvk.inner.trace_height_constraints[0].coefficients.push(1000);
    assert!(outcome(&c).is_ok());
}

#[test]
fn configurations_can_be_cloned() {
    let mut c = valid_case(0);
    let other = c.config.clone();
    assert_eq!(format!("{:?}", other), format!("{:?}", c.config));
    c.config = other;
    assert!(outcome(&c).is_ok());
}

#[test]
fn high_traces_are_refused() {
    let mut c = valid_case(0);
    c.mvk.inner.trace_height_constraints[0].threshold = 32;
    assert!(matches!(outcome(&c), Err(VerifierError::TraceHeightsTooLarge)));
}

fn shape_error_of(change: impl Fn(&mut Case)) -> ProofShapeError {
    let mut c = valid_case(0);
    change(&mut c);
    match outcome(&c) {
        Err(VerifierError::ProofShapeError(e)) => e,
        _ => panic!("no shape error"),
    }
}

#[test]
fn wrong_shapes_are_refused() {
    use_shape(|c| c.proof.trace_vdata[0].as_mut().unwrap().log_height = 6, "vdata");
    use_shape(|c| c.mvk.inner.per_air[1].is_required = true, "vdata");
    use_shape(|c| c.proof.public_values[0].clear(), "public");
    use_shape(|c| c.proof.batch_constraint_proof.univariate_round_coeffs.truncate(12), "batch");
    use_shape(|c| c.proof.batch_constraint_proof.sumcheck_round_polys.truncate(2), "batch");
    use_shape(|c| c.proof.batch_constraint_proof.column_openings[0][0].clear(), "batch");
    use_shape(|c| c.proof.stacking_proof.stacking_openings[0].clear(), "stacking");
    use_shape(|c| c.proof.whir_proof.ood_values.clear(), "whir");
}

#[test]
fn wrong_path_lengths_are_refused() {
    // of the 2^6 values of the code, four are hashed into each leaf
    let c = valid_case(0);
    assert_eq!(c.proof.whir_proof.initial_round_merkle_proofs[0][0].len(), 4);
    assert_eq!(c.proof.whir_proof.codeword_merkle_proofs[0][0].len(), 3);
    let digest = c.mvk.pre_hash;
    use_shape(|c| c.proof.whir_proof.initial_round_merkle_proofs[0][0].truncate(3), "whir");
    use_shape(|c| c.proof.whir_proof.initial_round_merkle_proofs[0][0].push(digest), "whir");
    use_shape(|c| c.proof.whir_proof.initial_round_merkle_proofs[0][2].clear(), "whir");
    use_shape(|c| c.proof.whir_proof.codeword_merkle_proofs[0][1].truncate(2), "whir");
    use_shape(|c| c.proof.whir_proof.codeword_merkle_proofs[0][1].push(digest), "whir");
    use_shape(|c| c.proof.whir_proof.codeword_merkle_proofs[0][2].clear(), "whir");
}

#[test]
fn surplus_openings_are_refused() {
    use_shape(
        |c| {
            let values = c.proof.whir_proof.codeword_opened_values[0].clone();
            c.proof.whir_proof.codeword_opened_values.push(values);
        },
        "whir",
    );
    use_shape(
        |c| {
            let paths = c.proof.whir_proof.codeword_merkle_proofs[0].clone();
            c.proof.whir_proof.codeword_merkle_proofs.push(paths);
        },
        "whir",
    );
    use_shape(
        |c| {
            let values = c.proof.whir_proof.codeword_opened_values[0].clone();
            let paths = c.proof.whir_proof.codeword_merkle_proofs[0].clone();
            c.proof.whir_proof.codeword_opened_values.push(values);
            c.proof.whir_proof.codeword_merkle_proofs.push(paths);
        },
        "whir",
    );
    use_shape(
        |c| {
            c.proof.whir_proof.codeword_opened_values.clear();
            c.proof.whir_proof.codeword_merkle_proofs.clear();
        },
        "whir",
    );
}

/// A digest is the root of a tree without siblings, and a node of a tree opens as a leaf of a
/// shorter one: without the length of the path an index is not bound.
#[test]
fn paths_of_other_lengths_lead_elsewhere() {
    let i = prove(params(2, 1, 0));
    let hasher = &i.config.hasher;
    let root = i.commitments[0];
    assert_eq!(merkle_verify(hasher, root, 0, root, &[]), Ok(()));
    let path = &i.proof.initial_round_merkle_proofs[0][0];
    assert_eq!(path.len(), 4);
    assert_eq!(
        merkle_verify(hasher, root, 0, root, path),
        Err(VerifyWhirError::MerkleVerify)
    );
}

fn is_refused_by_path(c: &Case) -> bool {
    matches!(outcome(c), Err(VerifierError::WhirError(VerifyWhirError::MerkleVerify)))
}

#[test]
fn opened_rows_and_values_are_bound() {
    let mut c = valid_case(0);
    for q in 0..3 {
        for row in 0..4 {
            let cell = &mut c.proof.whir_proof.initial_round_opened_rows[0][q][row][0];
            let honest = std::mem::replace(cell, BabyBear::new(12345));
            assert!(is_refused_by_path(&c));
            c.proof.whir_proof.initial_round_opened_rows[0][q][row][0] = honest;
            let cell = &mut c.proof.whir_proof.codeword_opened_values[0][q][row];
            let honest = std::mem::replace(cell, BabyBearExt4::from_usize(12345));
            assert!(is_refused_by_path(&c));
            c.proof.whir_proof.codeword_opened_values[0][q][row] = honest;
        }
    }
    assert!(outcome(&c).is_ok());
}

#[test]
fn public_values_of_absent_airs_do_not_count() {
    let c = valid_case(0);
    let run = |public_values: Vec<Vec<BabyBear>>| {
        let (mut transcript, r) = verify_zerocheck_and_logup(
            default_duplex_sponge(),
            &c.mock,
            &c.mvk.inner,
            &public_values,
            &c.proof.gkr_proof,
            &c.proof.batch_constraint_proof,
            &vec![0],
            &vec![3],
            &[1, 0x67055c21, 0x78000000, 0x10faa3e0].map(BabyBear::new).to_vec(),
        );
        let next = sample_ext::<Digest, CpuTranscript>(&mut transcript);
        (r.unwrap(), next)
    };
    let present = vec![BabyBear::new(4)];
    let without = run(vec![present.clone(), vec![]]);
    let with = run(vec![present, vec![BabyBear::new(17), BabyBear::new(3)]]);
    assert_eq!(without, with);
    assert_eq!(without.0.len(), 4);
}

fn use_shape(change: impl Fn(&mut Case), part: &str) {
    let named = match shape_error_of(change) {
        ProofShapeError::TraceVData => "vdata",
        ProofShapeError::PublicValues => "public",
        ProofShapeError::BatchConstraints => "batch",
        ProofShapeError::Stacking => "stacking",
        ProofShapeError::Whir => "whir",
    };
    assert_eq!(named, part);
}

#[test]
fn other_preprocessed_height_is_refused() {
    let mut c = valid_case(0);
    let vk = &mut c.mvk.inner.per_air[0];
    vk.preprocessed_data = Some(VerifierSinglePreprocessedData {
        commit: c.proof.common_main_commit,
        hypercube_dim: 2,
    });
    vk.params.width.preprocessed = Some(1);
    c.proof.batch_constraint_proof.column_openings[0].push(vec![BabyBearExt4::one()]);
    c.proof.stacking_proof.stacking_openings.push(vec![BabyBearExt4::one()]);
    let rows = c.proof.whir_proof.initial_round_opened_rows[0].clone();
    c.proof.whir_proof.initial_round_opened_rows.push(rows);
    let paths = c.proof.whir_proof.initial_round_merkle_proofs[0].clone();
    c.proof.whir_proof.initial_round_merkle_proofs.push(paths);
    assert!(matches!(outcome(&c), Err(VerifierError::PreprocessedTraceHeightMismatch)));
}

fn batch_error_of(c: &Case) -> BatchConstraintError<u8> {
    match outcome(c) {
        Err(VerifierError::BatchConstraintError(e)) => e,
        _ => panic!("no batch constraint error"),
    }
}

#[test]
fn missing_logup_work_is_refused() {
    let c = valid_case(20);
    assert!(matches!(batch_error_of(&c), BatchConstraintError::InvalidLogupPowWitness));
}

#[test]
fn nothing_to_sum_needs_a_claim_of_one() {
    let mut c = valid_case(0);
    let zero = c.mock.node_value;
    c.proof.gkr_proof.q0_claim = zero;
    match batch_error_of(&c) {
        BatchConstraintError::GkrVerificationFailed(
            GkrVerificationError::InvalidZeroRoundValue { actual },
        ) => assert_eq!(actual, zero),
        _ => panic!("another error"),
    }
}

#[test]
fn terms_that_do_not_add_up_are_refused() {
    let one = BabyBearExt4::one();
    let mut c = valid_case(0);
    c.proof.batch_constraint_proof.numerator_term_per_air[0] = one;
    match batch_error_of(&c) {
        // what is left of the claim zero
        BatchConstraintError::GkrNumeratorMismatch { claim } => assert_eq!(claim, e(-PE::ONE)),
        _ => panic!("another error"),
    }
    let mut c = valid_case(0);
    c.proof.batch_constraint_proof.denominator_term_per_air[0] = one;
    assert!(matches!(batch_error_of(&c), BatchConstraintError::GkrDenominatorMismatch { .. }));
}

#[test]
fn univariate_round_is_summed_over_the_domain() {
    let mut c = valid_case(0);
    let coeffs = &mut c.proof.batch_constraint_proof.univariate_round_coeffs;
    // of the powers 0, 1 and 4 only the multiples of four count
    coeffs[0] = BabyBearExt4::from_usize(3);
    coeffs[1] = BabyBearExt4::from_usize(100);
    coeffs[4] = BabyBearExt4::from_usize(5);
    match batch_error_of(&c) {
        BatchConstraintError::SumClaimMismatch { sum_claim, sum_univ_domain_s_0 } => {
            assert_eq!(sum_claim, c.mock.node_value);
            assert_eq!(sum_univ_domain_s_0, BabyBearExt4::from_usize(32));
        }
        _ => panic!("another error"),
    }
    let g = PF::two_adic_generator(2);
    let total: PF = (0..4)
        .map(|i| g.exp_u64(i))
        .map(|x| PF::from_u32(3) + PF::from_u32(100) * x + PF::from_u32(5) * x.exp_u64(4))
        .fold(PF::ZERO, |a, b| a + b);
    assert_eq!(total, PF::from_u32(32));
}

#[test]
fn constraints_that_do_not_vanish_are_refused() {
    let mut c = valid_case(0);
    c.mvk.inner.per_air[0].symbolic_constraints.constraints.constraint_idx.push(0);
    assert!(outcome(&c).is_ok());
    c.mock.node_value = BabyBearExt4::one();
    assert!(matches!(batch_error_of(&c), BatchConstraintError::InconsistentClaims));
}

#[test]
fn interactions_go_through_the_sub_protocol() {
    let with_interaction = || {
        let mut c = valid_case(0);
        c.mvk.inner.per_air[0].symbolic_constraints.interactions.push(SymbolicInteraction {
            message: vec![0],
            count: 0,
            bus_index: 1,
        });
        c.mock.n_logup = 3;
        c
    };
    let mut c = with_interaction();
    c.mock.gkr = Err(7);
    assert!(matches!(
        batch_error_of(&c),
        BatchConstraintError::GkrVerificationFailed(GkrVerificationError::Rejected(7))
    ));
    let mut c = with_interaction();
    c.mock.gkr = Ok((BabyBearExt4::one(), BabyBearExt4::one()));
    match batch_error_of(&c) {
        BatchConstraintError::GkrNumeratorMismatch { claim } => {
            assert_eq!(claim, BabyBearExt4::one())
        }
        _ => panic!("another error"),
    }
}

#[test]
fn refused_reductions_are_reported() {
    let mut c = valid_case(0);
    c.mock.stacking = Err(3);
    assert!(matches!(outcome(&c), Err(VerifierError::StackedReductionError(3))));
}

/// A polynomial of degree two in each variable.
fn summand(z: PE, x: PE, y: PE) -> PE {
    let three = PE::from_u32(3);
    (PE::ONE + z + three * x + y * z) * (PE::TWO + x * y + z)
}

#[test]
fn honest_sumcheck_reaches_the_value_at_its_point() {
    let bits = [PE::ZERO, PE::ONE];
    let over_cube = |z: PE| -> PE {
        bits.iter().flat_map(|x| bits.iter().map(move |y| summand(z, *x, *y))).sum()
    };
    let whole = over_cube(PE::ONE) + over_cube(-PE::ONE);
    let (p, q) = (PE::from_u32(20), PE::new([1, 2, 3, 4].map(PF::from_u32)));
    let mut t = default_duplex_sponge();
    // The point gets two coordinates, and lambda is sampled.
    for _ in 0..3 {
        sample_ext::<Digest, _>(&mut t);
    }
    observe_ext::<Digest, _>(&mut t, e(p));
    observe_ext::<Digest, _>(&mut t, e(q));
    let mu = pe(sample_ext::<Digest, _>(&mut t));
    let scale = (p + q * mu) * whole.inverse();
    let s = |z: u32| scale * over_cube(PE::from_u32(z));
    let c2 = (s(2) - s(1).double() + s(0)).halve();
    let coeffs = vec![s(0), s(1) - s(0) - c2, c2];
    for c in &coeffs {
        observe_ext::<Digest, _>(&mut t, e(*c));
    }
    let r0 = pe(sample_ext::<Digest, _>(&mut t));
    let first: Vec<PE> = [PE::ONE, PE::TWO]
        .map(|x| scale * (summand(r0, x, PE::ZERO) + summand(r0, x, PE::ONE)))
        .to_vec();
    for v in &first {
        observe_ext::<Digest, _>(&mut t, e(*v));
    }
    let r1 = pe(sample_ext::<Digest, _>(&mut t));
    let second: Vec<PE> = [PE::ONE, PE::TWO].map(|y| scale * summand(r0, r1, y)).to_vec();
    for v in &second {
        observe_ext::<Digest, _>(&mut t, e(*v));
    }
    let r2 = pe(sample_ext::<Digest, _>(&mut t));

    let all = |v: &[PE]| v.iter().map(|x| e(*x)).collect::<Vec<_>>();
    let mut proof = BatchConstraintProof {
        numerator_term_per_air: all(&[p]),
        denominator_term_per_air: all(&[q]),
        univariate_round_coeffs: all(&coeffs),
        sumcheck_round_polys: vec![all(&first), all(&second)],
        column_openings: vec![],
    };
    let alpha = PE::from_u32(77);
    let run = |proof: &BatchConstraintProof, p: PE, q: PE| {
        let mut t = default_duplex_sponge();
        let (p, q, alpha) = (e(p), e(q + alpha), e(alpha));
        run_sumcheck::<Digest, _>(&mut t, proof, 1, 2, 2, vec![], 2, p, q, alpha)
    };
    let out = match run(&proof, p, q) {
        Ok(out) => out,
        Err(_) => panic!("refused"),
    };
    assert_eq!(out.xi.len(), 2);
    assert_eq!(out.mu, e(mu));
    assert_eq!(out.rs, all(&[r0, r1, r2]));
    assert_eq!(out.cur_sum, e(scale * summand(r0, r1, r2)));

    match run(&proof, p + PE::ONE, q) {
        Err(SumcheckError::Numerator { claim }) => assert_eq!(claim, e(PE::ONE)),
        _ => panic!("accepted"),
    }
    match run(&proof, p, q + PE::ONE) {
        Err(SumcheckError::Denominator { claim }) => assert_eq!(claim, e(alpha + PE::ONE)),
        _ => panic!("accepted"),
    }
    proof.univariate_round_coeffs[0] = e(coeffs[0] + PE::ONE);
    match run(&proof, p, q) {
        Err(SumcheckError::SumClaim { sum_claim, sum_univ_domain_s_0 }) => {
            assert_eq!(sum_claim, e(p + q * mu));
            assert_eq!(sum_univ_domain_s_0, e(p + q * mu + PE::TWO));
        }
        _ => panic!("accepted"),
    }
}
