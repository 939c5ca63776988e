//! What holds of codes and of the trees over them, whatever polynomial stands for a column.

use vstd::arithmetic::power2::*;
use vstd::prelude::*;

use crate::algebra::{lemma_bb_add, lemma_bb_mul};
use crate::bits::{lemma_next_pow2_fixed, log2};
use crate::cpu_merkle::{
    is_codeword_tree, is_row_major_code, layouts_have_same_tree, CpuMerkleTree,
};
use crate::error::StackedPcsError;
use crate::field::{bb, f_add, f_generator, f_mul, f_pow, BabyBear};
use crate::hasher::MerkleHasher;
use crate::matrix::{ColMajorMatrix, RowMajorMatrix};
use crate::merkle_tree::{is_tree_over, MerkleTree};
use crate::poly::poly_eval;
use crate::reed_solomon::{
    codeword, is_code_matrix, is_encoding, is_message, lemma_height_is_pow2, resized,
    rs_height_of,
};

verus! {

/// Whether `message` is a function: it gives one message for each column.
pub open spec fn is_message_function<M: Fn(usize, Vec<BabyBear>) -> Vec<BabyBear>>(
    message: M,
    l_skip: usize,
) -> bool {
    forall|evals: Seq<BabyBear>, m: Seq<BabyBear>, n: Seq<BabyBear>|
        #[trigger] is_message(message, l_skip, evals, m) && #[trigger] is_message(
            message,
            l_skip,
            evals,
            n,
        ) ==> m == n
}

/// The messages that `code` holds the codewords of.
spec fn are_messages<M: Fn(usize, Vec<BabyBear>) -> Vec<BabyBear>>(
    message: M,
    l_skip: usize,
    log_blowup: usize,
    matrix: ColMajorMatrix<BabyBear>,
    code: ColMajorMatrix<BabyBear>,
    messages: Seq<Seq<BabyBear>>,
) -> bool {
    &&& messages.len() == matrix.width
    &&& forall|j: int|
        0 <= j < matrix.width ==> is_message(
            message,
            l_skip,
            #[trigger] matrix.col(j),
            messages[j],
        )
    &&& is_code_matrix(code, messages, rs_height_of(matrix.height as nat, log_blowup))
}

proof fn lemma_messages<M: Fn(usize, Vec<BabyBear>) -> Vec<BabyBear>>(
    message: M,
    l_skip: usize,
    log_blowup: usize,
    matrix: ColMajorMatrix<BabyBear>,
    code: ColMajorMatrix<BabyBear>,
) -> (messages: Seq<Seq<BabyBear>>)
    requires
        is_encoding(message, l_skip, log_blowup, matrix, code),
    ensures
        are_messages(message, l_skip, log_blowup, matrix, code, messages),
{
    choose|messages: Seq<Seq<BabyBear>>|
        {
            &&& messages.len() == matrix.width
            &&& forall|j: int|
                0 <= j < matrix.width ==> is_message(
                    message,
                    l_skip,
                    #[trigger] matrix.col(j),
                    messages[j],
                )
            &&& #[trigger] is_code_matrix(
                code,
                messages,
                rs_height_of(matrix.height as nat, log_blowup),
            )
        }
}

/// Whether a row-major and a column-major matrix have the same cells.
pub open spec fn same_cells(a: RowMajorMatrix<BabyBear>, b: ColMajorMatrix<BabyBear>) -> bool {
    &&& a.width == b.width
    &&& a.spec_height() == b.height
    &&& forall|r: int, c: int|
        0 <= r < b.height && 0 <= c < b.width ==> a.row(r)[c] == #[trigger] b.at(r, c)
}

proof fn lemma_same_columns(a: RowMajorMatrix<BabyBear>, b: ColMajorMatrix<BabyBear>, c: int)
    requires
        a.wf(),
        same_cells(a, b),
        0 <= c < b.width,
    ensures
        a.col(c) == b.col(c),
{
    assert forall|r: int| 0 <= r < b.height implies #[trigger] a.col(c)[r] == b.col(c)[r] by {
        a.lemma_row_in_bounds(r);
        assert(a.row(r)[c] == b.at(r, c));
    }
    assert(a.col(c) =~= b.col(c));
}

/// The order in which the codewords are laid out makes no difference, whatever `message` is: a
/// tree over rows is one that a matrix may be committed to by where its rows, put into columns,
/// are a code of the matrix and the tree over that code can be built and has the same digests, and
/// only there.
pub proof fn codeword_trees_are_trees_of_codes<
    H: MerkleHasher<F = BabyBear>,
    M: Fn(usize, Vec<BabyBear>) -> Vec<BabyBear>,
>(
    hasher: &H,
    l_skip: usize,
    log_blowup: usize,
    eval_matrix: ColMajorMatrix<BabyBear>,
    rows_per_query: usize,
    message: M,
    row_major: CpuMerkleTree<BabyBear, H::Digest>,
    code: ColMajorMatrix<BabyBear>,
    r: Result<MerkleTree<BabyBear, H::Digest>, StackedPcsError>,
)
    requires
        is_pow2(eval_matrix.height as int),
        is_pow2(rows_per_query as int),
        rows_per_query <= rs_height_of(eval_matrix.height as nat, log_blowup),
        row_major.backing_matrix.wf(),
        row_major.rows_per_query == rows_per_query,
        code.wf(),
        same_cells(row_major.backing_matrix, code),
        is_tree_over(hasher, code, rows_per_query, r),
    ensures
        is_codeword_tree(
            hasher,
            l_skip,
            log_blowup,
            eval_matrix,
            rows_per_query,
            message,
            row_major,
        ) <==> {
            &&& is_encoding(message, l_skip, log_blowup, eval_matrix, code)
            &&& r matches Ok(tree) && tree.layers() == row_major.layers()
        },
{
    let h = rs_height_of(eval_matrix.height as nat, log_blowup);
    let rows = row_major.backing_matrix;
    lemma_height_is_pow2(eval_matrix.height as nat, log_blowup);
    assert(h > 0) by {
        reveal(is_pow2);
    }
    lemma_next_pow2_fixed(h);
    assert forall|j: int| 0 <= j < code.width implies rows.col(j) == #[trigger] code.col(j) by {
        lemma_same_columns(rows, code, j);
    }
    if is_codeword_tree(
        hasher,
        l_skip,
        log_blowup,
        eval_matrix,
        rows_per_query,
        message,
        row_major,
    ) {
        let messages = choose|messages: Seq<Seq<BabyBear>>|
            {
                &&& messages.len() == eval_matrix.width
                &&& forall|j: int|
                    0 <= j < eval_matrix.width ==> is_message(
                        message,
                        l_skip,
                        #[trigger] eval_matrix.col(j),
                        messages[j],
                    )
                &&& #[trigger] is_row_major_code(rows, messages, h)
            };
        assert forall|j: int| 0 <= j < messages.len() implies #[trigger] code.col(j) == codeword(
            resized(messages[j], h),
        ) by {
            assert(rows.col(j) == codeword(resized(messages[j], h)));
        }
        assert(is_code_matrix(code, messages, h));
        layouts_have_same_tree(hasher, rows, code, messages, h, rows_per_query as nat);
    }
    if is_encoding(message, l_skip, log_blowup, eval_matrix, code) {
        let messages = lemma_messages(message, l_skip, log_blowup, eval_matrix, code);
        assert forall|j: int| 0 <= j < messages.len() implies #[trigger] rows.col(j) == codeword(
            resized(messages[j], h),
        ) by {
            assert(code.col(j) == codeword(resized(messages[j], h)));
        }
        assert(is_row_major_code(rows, messages, h));
        layouts_have_same_tree(hasher, rows, code, messages, h, rows_per_query as nat);
    }
}

/// A matrix has one code: where `message` is a function, encoding row by row and encoding column
/// by column commit to the same rows by the same tree, and building the tree does not fail.
pub proof fn row_major_tree_is_tree_of_code<
    H: MerkleHasher<F = BabyBear>,
    M: Fn(usize, Vec<BabyBear>) -> Vec<BabyBear>,
>(
    hasher: &H,
    l_skip: usize,
    log_blowup: usize,
    eval_matrix: ColMajorMatrix<BabyBear>,
    rows_per_query: usize,
    message: M,
    row_major: CpuMerkleTree<BabyBear, H::Digest>,
    code: ColMajorMatrix<BabyBear>,
    r: Result<MerkleTree<BabyBear, H::Digest>, StackedPcsError>,
)
    requires
        is_message_function(message, l_skip),
        is_pow2(eval_matrix.height as int),
        is_pow2(rows_per_query as int),
        rows_per_query <= rs_height_of(eval_matrix.height as nat, log_blowup),
        is_codeword_tree(
            hasher,
            l_skip,
            log_blowup,
            eval_matrix,
            rows_per_query,
            message,
            row_major,
        ),
        is_encoding(message, l_skip, log_blowup, eval_matrix, code),
        is_tree_over(hasher, code, rows_per_query, r),
    ensures
        r matches Ok(tree) && {
            &&& tree.layers() == row_major.layers()
            &&& tree.rows_per_query == row_major.rows_per_query
            &&& tree.backing_matrix == code
            &&& code.width == row_major.backing_matrix.width
            &&& code.height == row_major.backing_matrix.spec_height()
            &&& forall|row: int, c: int|
                0 <= row < code.height && 0 <= c < code.width ==> #[trigger] code.at(row, c)
                    == row_major.backing_matrix.row(row)[c]
        },
{
    let h = rs_height_of(eval_matrix.height as nat, log_blowup);
    let messages = lemma_messages(message, l_skip, log_blowup, eval_matrix, code);
    let others = choose|others: Seq<Seq<BabyBear>>|
        {
            &&& others.len() == eval_matrix.width
            &&& forall|j: int|
                0 <= j < eval_matrix.width ==> is_message(
                    message,
                    l_skip,
                    #[trigger] eval_matrix.col(j),
                    others[j],
                )
            &&& #[trigger] is_row_major_code(row_major.backing_matrix, others, h)
        };
    assert forall|j: int| 0 <= j < messages.len() implies #[trigger] messages[j] == others[j] by {
        assert(is_message(message, l_skip, eval_matrix.col(j), messages[j]));
        assert(is_message(message, l_skip, eval_matrix.col(j), others[j]));
    }
    assert(messages =~= others);
    lemma_height_is_pow2(eval_matrix.height as nat, log_blowup);
    reveal(is_pow2);
    lemma_next_pow2_fixed(h);
    let rows = row_major.backing_matrix;
    layouts_have_same_tree(hasher, rows, code, messages, h, rows_per_query as nat);
    assert forall|row: int, c: int|
        0 <= row < code.height && 0 <= c < code.width implies #[trigger] code.at(row, c)
        == rows.row(row)[c] by {
        rows.lemma_row_in_bounds(row);
        assert(rows.col(c) == code.col(c));
        assert(rows.col(c)[row] == code.col(c)[row]);
    }
}

/// Whether `word` is a codeword of length `rs_height` that the column `evals` may be encoded as.
pub open spec fn is_codeword_of<M: Fn(usize, Vec<BabyBear>) -> Vec<BabyBear>>(
    message: M,
    l_skip: usize,
    rs_height: nat,
    evals: Seq<BabyBear>,
    word: Seq<BabyBear>,
) -> bool {
    exists|m: Seq<BabyBear>| #[trigger]
        is_message(message, l_skip, evals, m) && word == codeword(resized(m, rs_height))
}

/// Codes are made column by column, whatever `message` is: a matrix of the right size is a code of
/// `matrix` where each of its columns is a codeword of the column at the same place, and only
/// there.
pub proof fn columns_decide_encoding<M: Fn(usize, Vec<BabyBear>) -> Vec<BabyBear>>(
    message: M,
    l_skip: usize,
    log_blowup: usize,
    matrix: ColMajorMatrix<BabyBear>,
    code: ColMajorMatrix<BabyBear>,
)
    ensures
        is_encoding(message, l_skip, log_blowup, matrix, code) <==> {
            let h = rs_height_of(matrix.height as nat, log_blowup);
            &&& code.wf()
            &&& code.width == matrix.width
            &&& code.height == h
            &&& forall|j: int|
                0 <= j < matrix.width ==> is_codeword_of(
                    message,
                    l_skip,
                    h,
                    matrix.col(j),
                    #[trigger] code.col(j),
                )
        },
{
    let h = rs_height_of(matrix.height as nat, log_blowup);
    if is_encoding(message, l_skip, log_blowup, matrix, code) {
        let m = lemma_messages(message, l_skip, log_blowup, matrix, code);
        assert forall|j: int| 0 <= j < matrix.width implies is_codeword_of(
            message,
            l_skip,
            h,
            matrix.col(j),
            #[trigger] code.col(j),
        ) by {
            assert(is_message(message, l_skip, matrix.col(j), m[j]));
        }
    }
    if code.wf() && code.width == matrix.width && code.height == h && (forall|j: int|
        0 <= j < matrix.width ==> is_codeword_of(
            message,
            l_skip,
            h,
            matrix.col(j),
            #[trigger] code.col(j),
        )) {
        let messages = Seq::new(
            matrix.width as nat,
            |j: int|
                choose|m: Seq<BabyBear>| #[trigger]
                    is_message(message, l_skip, matrix.col(j), m) && code.col(j) == codeword(
                        resized(m, h),
                    ),
        );
        assert forall|j: int| 0 <= j < matrix.width implies {
            &&& is_message(message, l_skip, #[trigger] matrix.col(j), messages[j])
            &&& code.col(j) == codeword(resized(messages[j], h))
        } by {
            assert(is_codeword_of(message, l_skip, h, matrix.col(j), code.col(j)));
        }
        assert forall|j: int| 0 <= j < messages.len() implies #[trigger] code.col(j) == codeword(
            resized(messages[j], h),
        ) by {
            assert(is_message(message, l_skip, matrix.col(j), messages[j]));
        }
        assert(is_code_matrix(code, messages, h));
    }
}

/// Codes are made column by column: where `message` is a function, equal columns have equal
/// codewords, whatever stands in the columns beside them.
pub proof fn columns_are_encoded_apart<M: Fn(usize, Vec<BabyBear>) -> Vec<BabyBear>>(
    message: M,
    l_skip: usize,
    log_blowup: usize,
    a: ColMajorMatrix<BabyBear>,
    b: ColMajorMatrix<BabyBear>,
    code_a: ColMajorMatrix<BabyBear>,
    code_b: ColMajorMatrix<BabyBear>,
    i: int,
    j: int,
)
    requires
        is_message_function(message, l_skip),
        is_encoding(message, l_skip, log_blowup, a, code_a),
        is_encoding(message, l_skip, log_blowup, b, code_b),
        0 <= i < a.width,
        0 <= j < b.width,
        a.col(i) == b.col(j),
    ensures
        code_a.col(i) == code_b.col(j),
{
    let m = lemma_messages(message, l_skip, log_blowup, a, code_a);
    let n = lemma_messages(message, l_skip, log_blowup, b, code_b);
    assert(a.col(i).len() == a.height && b.col(j).len() == b.height);
    assert(is_message(message, l_skip, a.col(i), m[i]));
    assert(is_message(message, l_skip, b.col(j), n[j]));
    let h = rs_height_of(a.height as nat, log_blowup);
    assert(code_a.col(i) == codeword(resized(m[i], h)));
    assert(code_b.col(j) == codeword(resized(n[j], h)));
}

/// Codewords are those of short polynomials: where no message is longer than its column, each
/// column of the code holds the values of a polynomial whose coefficients from the height of the
/// matrix on are zero.
pub proof fn codewords_have_low_degree<M: Fn(usize, Vec<BabyBear>) -> Vec<BabyBear>>(
    message: M,
    l_skip: usize,
    log_blowup: usize,
    matrix: ColMajorMatrix<BabyBear>,
    code: ColMajorMatrix<BabyBear>,
    j: int,
)
    requires
        is_encoding(message, l_skip, log_blowup, matrix, code),
        forall|m: Seq<BabyBear>| #[trigger]
            is_message(message, l_skip, matrix.col(j), m) ==> m.len() <= matrix.height,
        0 <= j < matrix.width,
    ensures
        exists|coeffs: Seq<BabyBear>|
            {
                &&& code.col(j) == #[trigger] codeword(coeffs)
                &&& coeffs.len() == rs_height_of(matrix.height as nat, log_blowup)
                &&& forall|i: int|
                    matrix.height <= i < coeffs.len() ==> #[trigger] coeffs[i] == bb(0)
            },
{
    let m = lemma_messages(message, l_skip, log_blowup, matrix, code);
    assert(is_message(message, l_skip, matrix.col(j), m[j]));
    let coeffs = resized(m[j], rs_height_of(matrix.height as nat, log_blowup));
    assert(code.col(j) == codeword(coeffs));
}

/// `c` times the first sequence, plus the second.
pub open spec fn combination(c: BabyBear, a: Seq<BabyBear>, b: Seq<BabyBear>) -> Seq<BabyBear> {
    Seq::new(a.len(), |i: int| f_add(f_mul(c, a[i]), b[i]))
}

/// Whether `message` is linear: the message of a combination of columns is that combination of
/// their messages.
pub open spec fn is_linear_message<M: Fn(usize, Vec<BabyBear>) -> Vec<BabyBear>>(
    message: M,
    l_skip: usize,
) -> bool {
    forall|
        c: BabyBear,
        a: Seq<BabyBear>,
        b: Seq<BabyBear>,
        m: Seq<BabyBear>,
        n: Seq<BabyBear>,
        s: Seq<BabyBear>,
    |
        {
            &&& a.len() == b.len()
            &&& #[trigger] is_message(message, l_skip, a, m)
            &&& #[trigger] is_message(message, l_skip, b, n)
            &&& #[trigger] is_message(message, l_skip, combination(c, a, b), s)
        } ==> m.len() == n.len() && s == combination(c, m, n)
}

/// `(c a + b) + x (c p + q) == c (a + x p) + (b + x q)`.
proof fn lemma_step(
    c: BabyBear,
    a: BabyBear,
    b: BabyBear,
    x: BabyBear,
    p: BabyBear,
    q: BabyBear,
)
    ensures
        f_add(f_add(f_mul(c, a), b), f_mul(x, f_add(f_mul(c, p), q))) == f_add(
            f_mul(c, f_add(a, f_mul(x, p))),
            f_add(b, f_mul(x, q)),
        ),
{
    reveal(f_add);
    reveal(f_mul);
    let (cv, av, bv) = (c.value as int, a.value as int, b.value as int);
    let (xv, pv, qv) = (x.value as int, p.value as int, q.value as int);
    // the left side
    lemma_bb_add(cv * av, bv);
    lemma_bb_add(cv * pv, qv);
    lemma_bb_mul(xv, cv * pv + qv);
    lemma_bb_add(cv * av + bv, xv * (cv * pv + qv));
    // the right side
    lemma_bb_add(av, xv * pv);
    lemma_bb_mul(cv, av + xv * pv);
    lemma_bb_add(bv, xv * qv);
    lemma_bb_add(cv * (av + xv * pv), bv + xv * qv);
    assert((cv * av + bv) + xv * (cv * pv + qv) == cv * (av + xv * pv) + (bv + xv * qv))
        by (nonlinear_arith);
}

proof fn lemma_eval_combines(c: BabyBear, a: Seq<BabyBear>, b: Seq<BabyBear>, x: BabyBear)
    requires
        a.len() == b.len(),
    ensures
        poly_eval(combination(c, a, b), x) == f_add(
            f_mul(c, poly_eval(a, x)),
            poly_eval(b, x),
        ),
    decreases a.len(),
{
    if a.len() == 0 {
        lemma_zero(c);
    } else {
        lemma_eval_combines(c, a.skip(1), b.skip(1), x);
        assert(combination(c, a, b).skip(1) =~= combination(c, a.skip(1), b.skip(1)));
        lemma_step(c, a[0], b[0], x, poly_eval(a.skip(1), x), poly_eval(b.skip(1), x));
    }
}

proof fn lemma_zero(c: BabyBear)
    ensures
        f_add(f_mul(c, bb(0)), bb(0)) == bb(0),
{
    reveal(f_add);
    reveal(f_mul);
    assert(bb(0).value == 0);
    assert(c.value * 0 == 0);
}

/// Encoding messages is linear: the codeword of a combination of two messages of one length is
/// that combination of their codewords.
pub proof fn codewords_combine(
    c: BabyBear,
    m: Seq<BabyBear>,
    n: Seq<BabyBear>,
    rs_height: nat,
)
    requires
        m.len() == n.len(),
    ensures
        codeword(resized(combination(c, m, n), rs_height)) == combination(
            c,
            codeword(resized(m, rs_height)),
            codeword(resized(n, rs_height)),
        ),
{
    let (mm, nn) = (resized(m, rs_height), resized(n, rs_height));
    lemma_zero(c);
    assert(resized(combination(c, m, n), rs_height) =~= combination(c, mm, nn));
    assert forall|i: int| 0 <= i < rs_height implies #[trigger] codeword(
        combination(c, mm, nn),
    )[i] == combination(c, codeword(mm), codeword(nn))[i] by {
        lemma_eval_combines(c, mm, nn, f_pow(f_generator(log2(rs_height)), i as nat));
    }
    assert(codeword(combination(c, mm, nn)) =~= combination(c, codeword(mm), codeword(nn)));
}

/// Encoding is linear: where `message` is, the code of a combination of two matrices of one shape
/// is that combination of their codes.
pub proof fn encoding_is_linear<M: Fn(usize, Vec<BabyBear>) -> Vec<BabyBear>>(
    message: M,
    l_skip: usize,
    log_blowup: usize,
    c: BabyBear,
    a: ColMajorMatrix<BabyBear>,
    b: ColMajorMatrix<BabyBear>,
    combined: ColMajorMatrix<BabyBear>,
    code_a: ColMajorMatrix<BabyBear>,
    code_b: ColMajorMatrix<BabyBear>,
    code: ColMajorMatrix<BabyBear>,
    j: int,
)
    requires
        is_linear_message(message, l_skip),
        is_encoding(message, l_skip, log_blowup, a, code_a),
        is_encoding(message, l_skip, log_blowup, b, code_b),
        is_encoding(message, l_skip, log_blowup, combined, code),
        a.width == b.width == combined.width,
        a.height == b.height == combined.height,
        0 <= j < a.width,
        combined.col(j) == combination(c, a.col(j), b.col(j)),
    ensures
        code.col(j) == combination(c, code_a.col(j), code_b.col(j)),
{
    let h = rs_height_of(a.height as nat, log_blowup);
    let of_a = lemma_messages(message, l_skip, log_blowup, a, code_a);
    let of_b = lemma_messages(message, l_skip, log_blowup, b, code_b);
    let of_combined = lemma_messages(message, l_skip, log_blowup, combined, code);
    let (m, n, s) = (of_a[j], of_b[j], of_combined[j]);
    assert(is_message(message, l_skip, a.col(j), m));
    assert(is_message(message, l_skip, b.col(j), n));
    assert(is_message(message, l_skip, combination(c, a.col(j), b.col(j)), s));
    assert(s == combination(c, m, n));
    codewords_combine(c, m, n, h);
    assert(code_a.col(j) == codeword(resized(m, h)));
    assert(code_b.col(j) == codeword(resized(n, h)));
    assert(code.col(j) == codeword(resized(s, h)));
}

/// The code of a sum of two matrices of one shape is the sum of their codes, where `message` is
/// linear.
pub proof fn code_of_sum_is_sum_of_codes<M: Fn(usize, Vec<BabyBear>) -> Vec<BabyBear>>(
    message: M,
    l_skip: usize,
    log_blowup: usize,
    a: ColMajorMatrix<BabyBear>,
    b: ColMajorMatrix<BabyBear>,
    sum: ColMajorMatrix<BabyBear>,
    code_a: ColMajorMatrix<BabyBear>,
    code_b: ColMajorMatrix<BabyBear>,
    code: ColMajorMatrix<BabyBear>,
)
    requires
        is_linear_message(message, l_skip),
        is_encoding(message, l_skip, log_blowup, a, code_a),
        is_encoding(message, l_skip, log_blowup, b, code_b),
        is_encoding(message, l_skip, log_blowup, sum, code),
        a.width == b.width == sum.width,
        a.height == b.height == sum.height,
        forall|i: int, j: int|
            0 <= i < sum.height && 0 <= j < sum.width ==> #[trigger] sum.at(i, j) == f_add(
                a.at(i, j),
                b.at(i, j),
            ),
    ensures
        code.width == code_a.width == code_b.width,
        code.height == code_a.height == code_b.height,
        forall|i: int, j: int|
            0 <= i < code.height && 0 <= j < code.width ==> #[trigger] code.at(i, j) == f_add(
                code_a.at(i, j),
                code_b.at(i, j),
            ),
{
    let one = bb(1);
    let m = lemma_messages(message, l_skip, log_blowup, a, code_a);
    let n = lemma_messages(message, l_skip, log_blowup, b, code_b);
    let s = lemma_messages(message, l_skip, log_blowup, sum, code);
    assert forall|i: int, j: int|
        0 <= i < code.height && 0 <= j < code.width implies #[trigger] code.at(i, j) == f_add(
        code_a.at(i, j),
        code_b.at(i, j),
    ) by {
        assert forall|k: int| 0 <= k < sum.height implies #[trigger] sum.col(j)[k] == combination(
            one,
            a.col(j),
            b.col(j),
        )[k] by {
            lemma_one(a.at(k, j), b.at(k, j));
            assert(sum.at(k, j) == f_add(a.at(k, j), b.at(k, j)));
        }
        assert(sum.col(j) =~= combination(one, a.col(j), b.col(j)));
        encoding_is_linear(
            message,
            l_skip,
            log_blowup,
            one,
            a,
            b,
            sum,
            code_a,
            code_b,
            code,
            j,
        );
        assert(code.col(j)[i] == combination(one, code_a.col(j), code_b.col(j))[i]);
        lemma_one(code_a.at(i, j), code_b.at(i, j));
    }
}

proof fn lemma_one(a: BabyBear, b: BabyBear)
    ensures
        f_add(f_mul(bb(1), a), b) == f_add(a, b),
{
    reveal(f_add);
    reveal(f_mul);
    assert(bb(1).value == 1);
    assert(1 * a.value == a.value);
    lemma_bb_add(a.value as int, b.value as int);
}

} // verus!
