//! Reed-Solomon codes over two-adic subgroups.

use p3_baby_bear::BabyBear as P3BabyBear;
use p3_dft::{Radix2DitParallel, TwoAdicSubgroupDft};
use p3_field::{PrimeCharacteristicRing, PrimeField32};
use p3_matrix::dense::RowMajorMatrix as P3RowMajorMatrix;
use p3_matrix::Matrix;
use vstd::arithmetic::power2::*;
use vstd::prelude::*;
use vstd::slice::slice_to_vec;

use crate::bits::{lemma_log2_pow2, lemma_pow2_log2, lemma_usize_bits, log2, pow2_usize};
use crate::digest_layers::views;
use crate::error::StackedPcsError;
use crate::field::{bb, f_generator, f_pow, BabyBear};
use crate::matrix::{ColMajorMatrix, RowMajorMatrix};
use crate::poly::poly_eval;

verus! {

/// The values of the polynomial with the given coefficients on the subgroup whose order is the
/// number of coefficients, in the order of the powers of its generator.
pub open spec fn codeword(coeffs: Seq<BabyBear>) -> Seq<BabyBear> {
    Seq::new(
        coeffs.len(),
        |i: int| poly_eval(coeffs, f_pow(f_generator(log2(coeffs.len())), i as nat)),
    )
}

/// The first `n` elements of `s`, with zeros behind it where it is shorter.
pub open spec fn resized(s: Seq<BabyBear>, n: nat) -> Seq<BabyBear> {
    Seq::new(
        n,
        |i: int|
            if i < s.len() {
                s[i]
            } else {
                bb(0)
            },
    )
}

/// Calls `dft` of `p3_dft::Radix2DitParallel`, which evaluates the polynomial with the given
/// coefficients on the two-adic subgroup of as many elements. It panics where their number is
/// not a power of two or where there is no such subgroup.
#[verifier::external_body]
pub(crate) fn dft(coeffs: Vec<BabyBear>) -> (r: Vec<BabyBear>)
    requires
        is_pow2(coeffs@.len() as int),
        coeffs@.len() <= pow2(27),
    ensures
        r@ == codeword(coeffs@),
{
    let coeffs: Vec<P3BabyBear> = coeffs.iter().map(|x| P3BabyBear::from_u32(x.value)).collect();
    let r = Radix2DitParallel::default().dft(coeffs);
    r.iter().map(|x| BabyBear { value: x.as_canonical_u32() }).collect()
}

/// Calls `dft_batch` of `p3_dft::Radix2DitParallel` and puts the rows of its result in order by
/// `to_row_major_matrix`. Each column is transformed as by `dft`, which gives the conditions
/// too.
#[verifier::external_body]
pub(crate) fn dft_batch(matrix: RowMajorMatrix<BabyBear>) -> (r: RowMajorMatrix<BabyBear>)
    requires
        matrix.wf(),
        is_pow2(matrix.spec_height() as int),
        matrix.spec_height() <= pow2(27),
    ensures
        r.wf(),
        r.width == matrix.width,
        r.values@.len() == matrix.values@.len(),
        forall|c: int| 0 <= c < matrix.width ==> #[trigger] r.col(c) == codeword(matrix.col(c)),
{
    let values = matrix.values.iter().map(|x| P3BabyBear::from_u32(x.value)).collect();
    let m = P3RowMajorMatrix::new(values, matrix.width);
    let r = Radix2DitParallel::default().dft_batch(m).to_row_major_matrix();
    let values = r.values.iter().map(|x| BabyBear { value: x.as_canonical_u32() }).collect();
    RowMajorMatrix { values, width: r.width }
}

/// Whether `evals` are encoded by `message` as the polynomial with coefficients `m`.
pub open spec fn is_message<M: Fn(usize, Vec<BabyBear>) -> Vec<BabyBear>>(
    message: M,
    l_skip: usize,
    evals: Seq<BabyBear>,
    m: Seq<BabyBear>,
) -> bool {
    exists|a: Vec<BabyBear>, r: Vec<BabyBear>|
        a@ == evals && r@ == m && #[trigger] call_ensures(message, (l_skip, a), r)
}

/// Whether the columns of `matrix` are the codewords of length `rs_height` of the messages.
pub open spec fn is_code_matrix(
    matrix: ColMajorMatrix<BabyBear>,
    messages: Seq<Seq<BabyBear>>,
    rs_height: nat,
) -> bool {
    &&& matrix.wf()
    &&& matrix.width == messages.len()
    &&& matrix.height == rs_height
    &&& forall|j: int|
        0 <= j < messages.len() ==> #[trigger] matrix.col(j) == codeword(
            resized(messages[j], rs_height),
        )
}

/// Cuts off or fills up with zeros to length `n`.
pub(crate) fn resize(s: Vec<BabyBear>, n: usize) -> (r: Vec<BabyBear>)
    ensures
        r@ == resized(s@, n as nat),
{
    let mut s = s;
    if s.len() > n {
        s.truncate(n);
    }
    let ghost start = s@;
    while s.len() < n
        invariant
            start.len() <= s@.len() <= n,
            forall|i: int|
                0 <= i < s@.len() ==> #[trigger] s@[i] == resized(start, n as nat)[i],
        decreases n - s@.len(),
    {
        s.push(BabyBear::zero());
    }
    assert(s@ =~= resized(start, n as nat));
    s
}

/// Encodes each message into a column of `rs_height` field elements.
pub fn encode_messages(messages: Vec<Vec<BabyBear>>, rs_height: usize) -> (r: ColMajorMatrix<
    BabyBear,
>)
    requires
        messages@.len() > 0,
        is_pow2(rs_height as int),
        rs_height <= pow2(27),
        messages@.len() * rs_height <= usize::MAX,
    ensures
        is_code_matrix(r, views(messages@), rs_height as nat),
{
    let ghost all = views(messages@);
    let ghost h = rs_height as int;
    let width = messages.len();
    let mut values: Vec<BabyBear> = Vec::new();
    let mut j: usize = 0;
    while j < width
        invariant
            j <= width == messages@.len(),
            all == views(messages@),
            h == rs_height,
            is_pow2(h),
            h <= pow2(27),
            values@.len() == j * h,
            forall|c: int, i: int|
                0 <= c < j && 0 <= i < h ==> #[trigger] values@[c * h + i] == codeword(
                    resized(all[c], h as nat),
                )[i],
        decreases width - j,
    {
        let message = messages[j].clone();
        assert(message@ =~= all[j as int]);
        let mut column = dft(resize(message, rs_height));
        let ghost before = values@;
        let ghost word = column@;
        values.append(&mut column);
        proof {
            assert((j + 1) * h == j * h + h) by (nonlinear_arith);
            assert forall|c: int, i: int| 0 <= c < j + 1 && 0 <= i < h implies #[trigger] values@[c
                * h + i] == codeword(resized(all[c], h as nat))[i] by {
                if c < j {
                    assert(0 <= c * h && c * h + i < j * h) by (nonlinear_arith)
                        requires
                            0 <= c < j,
                            0 <= i < h,
                    ;
                    assert(values@[c * h + i] == before[c * h + i]);
                } else {
                    assert(values@[c * h + i] == word[i]);
                }
            }
        }
        j = j + 1;
    }
    proof {
        assert(is_pow2(h));
        reveal(is_pow2);
        assert(width * h == h * width) by (nonlinear_arith);
        vstd::arithmetic::div_mod::lemma_div_by_multiple(h, width as int);
        vstd::arithmetic::div_mod::lemma_mod_multiples_basic(h, width as int);
    }
    let r = ColMajorMatrix::new(values, width);
    proof {
        assert(r.height == h);
        assert forall|c: int| 0 <= c < all.len() implies #[trigger] r.col(c) == codeword(
            resized(all[c], h as nat),
        ) by {
            assert(r.col(c) =~= codeword(resized(all[c], h as nat)));
        }
    }
    r
}

/// The length of a codeword whose message has `height` coefficients.
pub open spec fn rs_height_of(height: nat, log_blowup: usize) -> nat {
    height * pow2(log_blowup as nat)
}

/// What [`rs_code_matrix`] makes of the matrix: the columns are encoded as messages, and those
/// become codewords.
pub open spec fn is_encoding<M: Fn(usize, Vec<BabyBear>) -> Vec<BabyBear>>(
    message: M,
    l_skip: usize,
    log_blowup: usize,
    matrix: ColMajorMatrix<BabyBear>,
    code: ColMajorMatrix<BabyBear>,
) -> bool {
    exists|messages: Seq<Seq<BabyBear>>|
        {
            &&& messages.len() == matrix.width
            &&& forall|j: int|
                0 <= j < matrix.width ==> is_message(
                    message,
                    l_skip,
                    #[trigger] matrix.col(j),
                    messages[j],
                )
            &&& #[trigger] is_code_matrix(
                code,
                messages,
                rs_height_of(matrix.height as nat, log_blowup),
            )
        }
}

/// The length of the codewords, or `None` where `log_blowup` is the width of the machine word
/// or more.
pub fn rs_height(height: usize, log_blowup: usize) -> (r: Option<usize>)
    requires
        log_blowup < usize::BITS ==> rs_height_of(height as nat, log_blowup) <= usize::MAX,
    ensures
        r == (if log_blowup >= usize::BITS {
            None::<usize>
        } else {
            Some(rs_height_of(height as nat, log_blowup) as usize)
        }),
{
    proof {
        lemma_usize_bits();
    }
    if log_blowup >= usize::BITS as usize {
        return None;
    }
    let factor = pow2_usize(log_blowup);
    Some(height * factor)
}

/// The message of each column.
pub(crate) fn encode_columns<M: Fn(usize, Vec<BabyBear>) -> Vec<BabyBear>>(
    l_skip: usize,
    eval_matrix: &ColMajorMatrix<BabyBear>,
    message: &M,
) -> (messages: Vec<Vec<BabyBear>>)
    requires
        eval_matrix.wf(),
        forall|a: Vec<BabyBear>|
            a@.len() == eval_matrix.height ==> #[trigger] call_requires(*message, (l_skip, a)),
    ensures
        messages@.len() == eval_matrix.width,
        forall|c: int|
            0 <= c < eval_matrix.width ==> is_message(
                *message,
                l_skip,
                #[trigger] eval_matrix.col(c),
                messages@[c]@,
            ),
{
    let mut messages: Vec<Vec<BabyBear>> = Vec::new();
    let mut j: usize = 0;
    while j < eval_matrix.width
        invariant
            j <= eval_matrix.width,
            eval_matrix.wf(),
            forall|a: Vec<BabyBear>|
                a@.len() == eval_matrix.height ==> #[trigger] call_requires(*message, (l_skip, a)),
            messages@.len() == j,
            forall|c: int|
                0 <= c < j ==> is_message(
                    *message,
                    l_skip,
                    #[trigger] eval_matrix.col(c),
                    messages@[c]@,
                ),
        decreases eval_matrix.width - j,
    {
        let evals = slice_to_vec(eval_matrix.column(j));
        assert(evals@ =~= eval_matrix.col(j as int));
        let m = message(l_skip, evals);
        let ghost before = messages@;
        messages.push(m);
        proof {
            assert(is_message(*message, l_skip, eval_matrix.col(j as int), m@));
            assert forall|c: int| 0 <= c < j + 1 implies is_message(
                *message,
                l_skip,
                #[trigger] eval_matrix.col(c),
                messages@[c]@,
            ) by {
                if c < j {
                    assert(messages@[c] == before[c]);
                }
            }
        }
        j = j + 1;
    }
    messages
}

/// Encodes each column of `eval_matrix`, whose values are those of a function on a hyperprism,
/// as a Reed-Solomon codeword of rate `2^-log_blowup`.
///
/// `message` gives the coefficients of the polynomial that stands for a column.
pub fn rs_code_matrix<M: Fn(usize, Vec<BabyBear>) -> Vec<BabyBear>>(
    l_skip: usize,
    log_blowup: usize,
    eval_matrix: &ColMajorMatrix<BabyBear>,
    message: &M,
) -> (r: Result<ColMajorMatrix<BabyBear>, StackedPcsError>)
    requires
        eval_matrix.wf(),
        is_pow2(eval_matrix.height as int),
        log_blowup < usize::BITS ==> {
            &&& rs_height_of(eval_matrix.height as nat, log_blowup) <= pow2(27)
            &&& eval_matrix.width * rs_height_of(eval_matrix.height as nat, log_blowup)
                <= usize::MAX
        },
        forall|a: Vec<BabyBear>|
            a@.len() == eval_matrix.height ==> #[trigger] call_requires(*message, (l_skip, a)),
    ensures
        match r {
            Ok(code) => log_blowup < usize::BITS && is_encoding(
                *message,
                l_skip,
                log_blowup,
                *eval_matrix,
                code,
            ),
            Err(e) => log_blowup >= usize::BITS && e
                == StackedPcsError::RsCodeShiftOverflow { height: eval_matrix.height, log_blowup },
        },
{
    let height = eval_matrix.height();
    proof {
        reveal(is_pow2);
        if log_blowup < usize::BITS {
            let h = rs_height_of(height as nat, log_blowup) as int;
            assert(h <= eval_matrix.width * h) by (nonlinear_arith)
                requires
                    eval_matrix.width >= 1,
                    h >= 0,
            ;
        }
    }
    let rs_height = match rs_height(height, log_blowup) {
        Some(h) => h,
        None => return Err(StackedPcsError::RsCodeShiftOverflow { height, log_blowup }),
    };
    let messages = encode_columns(l_skip, eval_matrix, message);
    proof {
        lemma_height_is_pow2(height as nat, log_blowup);
    }
    let code = encode_messages(messages, rs_height);
    proof {
        assert(views(messages@).len() == eval_matrix.width);
        assert(is_code_matrix(code, views(messages@), rs_height_of(height as nat, log_blowup)));
    }
    Ok(code)
}

/// A power of two stays one when it is shifted.
pub proof fn lemma_height_is_pow2(height: nat, log_blowup: usize)
    requires
        is_pow2(height as int),
    ensures
        is_pow2(rs_height_of(height, log_blowup) as int),
{
    lemma_pow2_log2(height);
    let k = log2(height);
    let s = log_blowup as nat;
    lemma_pow2_adds(k, s);
    assert(rs_height_of(height, log_blowup) == pow2(k + s));
    lemma_log2_pow2(k + s);
}

/// Without blowup a codeword is as long as its message, and each step of the blowup doubles it.
pub proof fn blowup_doubles_codewords(height: nat, log_blowup: usize)
    ensures
        rs_height_of(height, 0) == height,
        log_blowup < usize::MAX ==> rs_height_of(height, (log_blowup + 1) as usize) == 2
            * rs_height_of(height, log_blowup),
{
    lemma2_to64();
    lemma_pow2_unfold((log_blowup + 1) as nat);
    let p = pow2(log_blowup as nat);
    assert(height * (2 * p) == 2 * (height * p)) by (nonlinear_arith);
    assert(height * 1 == height);
}

} // verus!
