//! What holds of the library as a whole: statements that relate several of its
//! functions, over the specifications that their contracts are written in.
use crate::arith::{
    degree_ok, gcd, is_prime, lemma_euclid, lemma_prime_divisor, lemma_prime_gcd, modulus_ok,
    mul_mod, power_of_two, reduced,
};
use crate::array::{flat_of_rows, rows_of_flat};
use crate::context::{
    all_feasible, is_level_of, last_invertible, level_view, local_error, max_entries, new_error,
    ContextView,
};
use crate::convert::{column, convert_words, residue_rows, scaled_view};
use crate::evaluation::{lemma_constant_sum, lemma_forward_evaluates, point};
use crate::error::Error;
use crate::ntt::{lemma_ntt_roundtrip, lemma_ntt_roundtrip_back, ntt_feasible, ntt_forward};
use crate::poly::{
    change_view, map_rows, rows_reduced, table_shape, view_ok, PolyView, Representation, RowOp,
};
use crate::ring::{lemma_transform_multiplies, ring_product};
use crate::rns::{
    chain_coprime, lemma_product_positive, lemma_residues_of_remainder, lemma_residues_unique,
    moduli_ok, product_of, residues_of, RnsContext,
};
use crate::wire::{
    decode_record, encode_table, record_chunk, record_decodable, record_words, wire_tag,
};
use crate::zq::{decodable, decode_word, decode_words, encode_words, lemma_decode_encode};
use vstd::arithmetic::div_mod::*;
use vstd::prelude::*;

verus! {

/// The context `i` levels below a context is found `i` iterations away from
/// it, and no iteration away from itself.
pub proof fn law_level_iterations(top: ContextView, i: int)
    requires
        0 <= i < top.moduli.len(),
    ensures
        is_level_of(level_view(top, i), top),
        top.moduli.len() - level_view(top, i).moduli.len() == i,
        is_level_of(level_view(top, i), level_view(top, i)),
{
    let level = level_view(top, i);
    assert(level.moduli =~= top.moduli.take(level.moduli.len() as int));
    assert(level.moduli =~= level.moduli.take(level.moduli.len() as int));
}

/// A polynomial in `PowerBasis` that is brought to `Ntt` and back is the same
/// polynomial.
pub proof fn law_representation_roundtrip(v: PolyView)
    requires
        view_ok(v),
        rows_reduced(v.coefficients, v.ctx.moduli),
        all_feasible(v.ctx.moduli, v.ctx.degree as int),
        v.representation == Representation::PowerBasis,
    ensures
        change_view(change_view(v, Representation::Ntt), Representation::PowerBasis) == v,
{
    let there = change_view(v, Representation::Ntt);
    let back = change_view(there, Representation::PowerBasis);
    assert forall|i: int| 0 <= i < v.coefficients.len() implies #[trigger] back.coefficients[i]
        == v.coefficients[i] by {
        assert(reduced(v.coefficients[i], v.ctx.moduli[i] as int));
        assert(ntt_feasible(v.ctx.moduli[i] as int, v.ctx.degree as int));
        lemma_ntt_roundtrip(v.coefficients[i], v.ctx.moduli[i] as int);
    }
    assert(back.coefficients =~= v.coefficients);
}

/// A polynomial in `Ntt` that is brought to `PowerBasis` and back is the same
/// polynomial.
pub proof fn law_representation_roundtrip_back(v: PolyView)
    requires
        view_ok(v),
        rows_reduced(v.coefficients, v.ctx.moduli),
        all_feasible(v.ctx.moduli, v.ctx.degree as int),
        v.representation == Representation::Ntt,
    ensures
        change_view(change_view(v, Representation::PowerBasis), Representation::Ntt) == v,
{
    let there = change_view(v, Representation::PowerBasis);
    let back = change_view(there, Representation::Ntt);
    assert forall|i: int| 0 <= i < v.coefficients.len() implies #[trigger] back.coefficients[i]
        == v.coefficients[i] by {
        assert(reduced(v.coefficients[i], v.ctx.moduli[i] as int));
        assert(ntt_feasible(v.ctx.moduli[i] as int, v.ctx.degree as int));
        lemma_ntt_roundtrip_back(v.coefficients[i], v.ctx.moduli[i] as int);
    }
    assert(back.coefficients =~= v.coefficients);
}

/// The integers that a polynomial is lifted to have the residues of the
/// polynomial: converting them gives the table of the polynomial again.
pub proof fn law_lift_then_project(rows: Seq<Seq<u64>>, ctx: ContextView, lifted: Seq<int>)
    requires
        table_shape(rows, ctx),
        lifted.len() == ctx.degree,
        forall|j: int|
            0 <= j < lifted.len() ==> lifted[j] >= 0 && residues_of(
                #[trigger] lifted[j] as nat,
                ctx.moduli,
                column(rows, j),
            ),
    ensures
        residue_rows(lifted, ctx) == rows,
{
    let again = residue_rows(lifted, ctx);
    assert forall|i: int| 0 <= i < rows.len() implies #[trigger] again[i] =~= rows[i] by {
        assert forall|j: int| 0 <= j < ctx.degree implies again[i][j] == rows[i][j] by {
            assert(residues_of(lifted[j] as nat, ctx.moduli, column(rows, j)));
            assert(column(rows, j)[i] == rows[i][j]);
        }
    }
    assert(again =~= rows);
}

/// What one operation of the arithmetic modulo `p` makes of two residues.
pub open spec fn residue_op(op: RowOp, a: int, b: int, p: int) -> int {
    match op {
        RowOp::Add => (a + b) % p,
        RowOp::Sub => (a - b) % p,
        RowOp::Mul => (a * b) % p,
        _ => (-a) % p,
    }
}

/// The words of two tables, read row after row, combined word by word: word
/// `k` belongs to the modulus of row `k / degree`.
pub open spec fn reference_words(
    op: RowOp,
    a: Seq<u64>,
    b: Seq<u64>,
    ctx: ContextView,
) -> Seq<u64> {
    Seq::new(
        a.len(),
        |k: int|
            residue_op(
                op,
                a[k] as int,
                b[k] as int,
                ctx.moduli[k / (ctx.degree as int)] as int,
            ) as u64,
    )
}

/// Sum, difference, product and opposite of polynomials agree with the
/// arithmetic modulo each modulus: the table that the operation makes of the
/// tables of two vectors of words is the table of the vector that the
/// arithmetic makes of them, word by word.
pub proof fn law_arithmetic_agrees(op: RowOp, a: Seq<u64>, b: Seq<u64>, ctx: ContextView)
    requires
        op is Add || op is Sub || op is Mul || op is Neg,
        ctx.degree >= 1,
        a.len() == ctx.moduli.len() * ctx.degree,
        b.len() == a.len(),
    ensures
        map_rows(
            op,
            rows_of_flat(a, ctx.moduli.len(), ctx.degree),
            rows_of_flat(b, ctx.moduli.len(), ctx.degree),
            ctx.moduli,
        ) == rows_of_flat(reference_words(op, a, b, ctx), ctx.moduli.len(), ctx.degree),
{
    let m = ctx.moduli.len();
    let n = ctx.degree;
    let left = map_rows(op, rows_of_flat(a, m, n), rows_of_flat(b, m, n), ctx.moduli);
    let right = rows_of_flat(reference_words(op, a, b, ctx), m, n);
    assert forall|i: int| 0 <= i < m implies #[trigger] left[i] =~= right[i] by {
        assert(0 <= i * n && i * n + n <= m * n) by (nonlinear_arith)
            requires
                0 <= i < m,
                n >= 0,
        ;
        assert forall|j: int| 0 <= j < n implies left[i][j] == right[i][j] by {
            lemma_fundamental_div_mod_converse(i * n + j, n as int, i, j);
        }
    }
    assert(left =~= right);
}

/// Projecting a number onto its residues and lifting them gives the remainder
/// of the number modulo the product of the moduli: what is lifted is below
/// the product and has the residues of the number, and only one number has.
pub proof fn law_project_then_lift(moduli: Seq<u64>, x: nat, rests: Seq<u64>, lifted: nat)
    requires
        moduli_ok(moduli),
        chain_coprime(moduli),
        residues_of(x, moduli, rests),
        lifted < product_of(moduli, moduli.len()),
        residues_of(lifted, moduli, rests),
    ensures
        lifted == x % product_of(moduli, moduli.len()),
{
    let total = product_of(moduli, moduli.len());
    lemma_product_positive(moduli, moduli.len());
    lemma_mod_bound(x as int, total as int);
    assert forall|i: int| 0 <= i < moduli.len() implies lifted % (#[trigger] moduli[i] as nat) == (x
        % total) % (moduli[i] as nat) by {
        lemma_residues_of_remainder(moduli, x, i);
        assert(rests[i] == x % (moduli[i] as nat));
        assert(rests[i] == lifted % (moduli[i] as nat));
    }
    lemma_residues_unique(moduli, lifted, x % total);
}

/// The product in `Ntt` representation is the product of the polynomials:
/// bringing two polynomials from `PowerBasis` to `Ntt`, multiplying them there
/// and bringing the product back gives, for each modulus `q`, their product
/// in `Z_q[X] / (X^n + 1)`.
pub proof fn law_product_in_ntt(a: PolyView, b: PolyView)
    requires
        view_ok(a),
        view_ok(b),
        a.ctx == b.ctx,
        rows_reduced(a.coefficients, a.ctx.moduli),
        rows_reduced(b.coefficients, a.ctx.moduli),
        all_feasible(a.ctx.moduli, a.ctx.degree as int),
        a.representation == Representation::PowerBasis,
        b.representation == Representation::PowerBasis,
    ensures
        ({
            let product = map_rows(
                RowOp::Mul,
                change_view(a, Representation::Ntt).coefficients,
                change_view(b, Representation::Ntt).coefficients,
                a.ctx.moduli,
            );
            map_rows(RowOp::Backward, product, product, a.ctx.moduli) == Seq::new(
                a.ctx.moduli.len(),
                |i: int| ring_product(a.coefficients[i], b.coefficients[i], a.ctx.moduli[i] as int),
            )
        }),
{
    let moduli = a.ctx.moduli;
    let product = map_rows(
        RowOp::Mul,
        change_view(a, Representation::Ntt).coefficients,
        change_view(b, Representation::Ntt).coefficients,
        moduli,
    );
    let back = map_rows(RowOp::Backward, product, product, moduli);
    let expected = Seq::new(
        moduli.len(),
        |i: int| ring_product(a.coefficients[i], b.coefficients[i], moduli[i] as int),
    );
    assert forall|i: int| 0 <= i < moduli.len() implies #[trigger] back[i] == expected[i] by {
        let q = moduli[i] as int;
        assert(reduced(a.coefficients[i], q));
        assert(reduced(b.coefficients[i], q));
        assert(ntt_feasible(q, a.ctx.degree as int));
        lemma_transform_multiplies(a.coefficients[i], b.coefficients[i], q);
        lemma_ntt_roundtrip(a.coefficients[i], q);
        assert(product[i] =~= Seq::new(
            a.coefficients[i].len(),
            |j: int|
                mul_mod(
                    ntt_forward(a.coefficients[i], q)[j] as int,
                    ntt_forward(b.coefficients[i], q)[j] as int,
                    q,
                ) as u64,
        ));
    }
    assert(back =~= expected);
}

/// The product of a polynomial in `PowerBasis` and an integer is the
/// polynomial with every coefficient multiplied by the integer: the transform
/// of a constant polynomial holds the constant in every entry.
pub proof fn law_scalar_product(v: PolyView, value: int)
    requires
        view_ok(v),
        all_feasible(v.ctx.moduli, v.ctx.degree as int),
        v.ctx.degree >= 1,
        v.representation == Representation::PowerBasis,
    ensures
        scaled_view(v, value).coefficients == Seq::new(
            v.ctx.moduli.len(),
            |i: int|
                Seq::new(
                    v.ctx.degree,
                    |j: int|
                        mul_mod(
                            v.coefficients[i][j] as int,
                            value % (v.ctx.moduli[i] as int),
                            v.ctx.moduli[i] as int,
                        ) as u64,
                ),
        ),
{
    let moduli = v.ctx.moduli;
    let n = v.ctx.degree;
    let got = scaled_view(v, value).coefficients;
    let constant = residue_rows(seq![value], v.ctx);
    let expected = Seq::new(
        moduli.len(),
        |i: int|
            Seq::new(
                n,
                |j: int|
                    mul_mod(
                        v.coefficients[i][j] as int,
                        value % (moduli[i] as int),
                        moduli[i] as int,
                    ) as u64,
            ),
    );
    assert forall|i: int| 0 <= i < moduli.len() implies #[trigger] got[i] =~= expected[i] by {
        let q = moduli[i] as int;
        assert(ntt_feasible(q, n as int));
        let row = constant[i];
        lemma_mod_bound(value, q);
        assert(row[0] == value % q);
        assert(reduced(row, q));
        assert forall|j: int| 0 <= j < n implies got[i][j] == expected[i][j] by {
            lemma_forward_evaluates(row, q, j);
            lemma_constant_sum(row, point(q, n as int, j), n);
            lemma_small_mod((value % q) as nat, q as nat);
        }
    }
    assert(got =~= expected);
}

/// The product by a polynomial in `NttShoup` is the product by the same
/// polynomial in `Ntt`: the Shoup encoding changes how the product is
/// computed, and not what it is.
pub proof fn law_shoup_same_product(a: Seq<Seq<u64>>, p: PolyView)
    requires
        p.representation == Representation::Ntt,
    ensures
        map_rows(
            RowOp::Mul,
            a,
            change_view(p, Representation::NttShoup).coefficients,
            p.ctx.moduli,
        ) == map_rows(RowOp::Mul, a, p.coefficients, p.ctx.moduli),
{
}

/// Converting words at the edges: as many words as the degree make a
/// polynomial in `PowerBasis`, one word more makes none, and in `Ntt` only as
/// many words as the whole table has entries make one.
pub proof fn law_conversion_bounds(v: Seq<u64>, ctx: ContextView)
    requires
        ctx.moduli.len() >= 1,
        degree_ok(ctx.degree as int),
    ensures
        v.len() == ctx.degree ==> convert_words(v, ctx, Some(Representation::PowerBasis)) is Ok,
        v.len() == ctx.degree + 1 ==> convert_words(
            v,
            ctx,
            Some(Representation::PowerBasis),
        ) is Err,
        convert_words(v, ctx, Some(Representation::Ntt)) is Ok <==> v.len() == ctx.moduli.len()
            * ctx.degree,
{
    let m = ctx.moduli.len() as int;
    let n = ctx.degree as int;
    assert(m * n != n + 1) by (nonlinear_arith)
        requires
            m >= 1,
            n >= 8,
    ;
}

/// A valid degree is a multiple of 8.
pub proof fn lemma_degree_multiple_of_8(n: int)
    requires
        degree_ok(n),
    ensures
        n % 8 == 0,
{
    assert(power_of_two(n / 2));
    assert(power_of_two(n / 2 / 2));
}

/// The run of bytes of a row in the bytes of a table is the bytes of the row.
pub proof fn lemma_chunk_of_table(rows: Seq<Seq<u64>>, n: nat, i: int)
    requires
        n >= 1,
        0 <= i < rows.len(),
        rows[i].len() == n,
    ensures
        record_chunk(encode_table(rows, n), n, i) == encode_words(rows[i]),
{
    let size = 8 * n as int;
    let bytes = encode_table(rows, n);
    let chunk = record_chunk(bytes, n, i);
    assert(0 <= i * size && i * size + size <= rows.len() * size) by (nonlinear_arith)
        requires
            0 <= i < rows.len(),
            size >= 0,
    ;
    assert forall|t: int| 0 <= t < size implies #[trigger] chunk[t] == encode_words(rows[i])[t] by {
        lemma_fundamental_div_mod_converse(i * size + t, size, i, t);
    }
    assert(chunk =~= encode_words(rows[i]));
}

/// Reading a table row after row and cutting the result into rows gives the
/// table again.
pub proof fn lemma_rows_of_flat(rows: Seq<Seq<u64>>, n: nat)
    requires
        n >= 1,
        forall|i: int| 0 <= i < rows.len() ==> (#[trigger] rows[i]).len() == n,
    ensures
        rows_of_flat(flat_of_rows(rows, n), rows.len(), n) == rows,
{
    let flat = flat_of_rows(rows, n);
    let again = rows_of_flat(flat, rows.len(), n);
    assert forall|i: int| 0 <= i < rows.len() implies #[trigger] again[i] =~= rows[i] by {
        assert(0 <= i * n && i * n + n <= rows.len() * n) by (nonlinear_arith)
            requires
                0 <= i < rows.len(),
                n >= 0,
        ;
        assert forall|j: int| 0 <= j < n implies again[i][j] == rows[i][j] by {
            lemma_fundamental_div_mod_converse(i * n + j, n as int, i, j);
        }
    }
    assert(again =~= rows);
}

/// A polynomial that is encoded and decoded, with no representation asked for,
/// is the same polynomial, on the constant time path; with another
/// representation asked for than its own, decoding fails on that; and for a
/// context with another number of moduli, decoding fails on the length of the
/// bytes.
pub proof fn law_wire_roundtrip(v: PolyView, asked: Representation, other: ContextView)
    requires
        view_ok(v),
        rows_reduced(v.coefficients, v.ctx.moduli),
        degree_ok(v.ctx.degree as int),
    ensures
        decode_record(
            wire_tag(v.representation),
            v.ctx.degree,
            encode_table(v.coefficients, v.ctx.degree),
            v.ctx,
            None,
        ) == Ok::<PolyView, Error>(PolyView { variable_time: false, ..v }),
        asked != v.representation ==> decode_record(
            wire_tag(v.representation),
            v.ctx.degree,
            encode_table(v.coefficients, v.ctx.degree),
            v.ctx,
            Some(asked),
        ) == Err::<PolyView, Error>(Error::RepresentationMismatch),
        other.moduli.len() != v.ctx.moduli.len() ==> decode_record(
            wire_tag(v.representation),
            v.ctx.degree,
            encode_table(v.coefficients, v.ctx.degree),
            other,
            None,
        ) == Err::<PolyView, Error>(Error::InvalidCoefficients),
{
    let rows = v.coefficients;
    let n = v.ctx.degree;
    let m = v.ctx.moduli.len();
    let bytes = encode_table(rows, n);
    lemma_degree_multiple_of_8(n as int);
    assert forall|i: int| 0 <= i < m implies decodable(
        #[trigger] record_chunk(bytes, n, i),
        v.ctx.moduli[i] as int,
    ) && decode_words(record_chunk(bytes, n, i)) == rows[i] by {
        lemma_chunk_of_table(rows, n, i);
        lemma_decode_encode(rows[i]);
        let chunk = record_chunk(bytes, n, i);
        assert(reduced(rows[i], v.ctx.moduli[i] as int));
        assert forall|k: int| 0 <= k < chunk.len() / 8 implies (#[trigger] decode_word(chunk, k))
            < v.ctx.moduli[i] by {
            assert(decode_words(chunk)[k] == rows[i][k]);
        }
    }
    assert(record_decodable(bytes, v.ctx.moduli, n));
    let words = record_words(bytes, m, n);
    assert forall|k: int| 0 <= k < m * n implies #[trigger] words[k] == flat_of_rows(rows, n)[k] by {
        lemma_fundamental_div_mod(k, n as int);
        lemma_mod_bound(k, n as int);
        let i = k / (n as int);
        assert(0 <= i < m) by (nonlinear_arith)
            requires
                0 <= k < m * n,
                n >= 1,
                k == n * i + k % (n as int),
                0 <= k % (n as int) < n,
        ;
        assert(decode_words(record_chunk(bytes, n, i)) == rows[i]);
    }
    assert(words =~= flat_of_rows(rows, n));
    lemma_rows_of_flat(rows, n);
    if other.moduli.len() != m {
        assert(other.moduli.len() * (8 * n) != m * (8 * n)) by (nonlinear_arith)
            requires
                other.moduli.len() != m,
                n >= 8,
        ;
    }
}

/// No two moduli of the list are the same.
pub open spec fn distinct(moduli: Seq<u64>) -> bool {
    forall|i: int, j: int| 0 <= i < j < moduli.len() ==> moduli[i] != moduli[j]
}

/// A prime divides no product of primes other than itself.
pub proof fn lemma_prime_outside_product(moduli: Seq<u64>, k: nat, q: int)
    requires
        is_prime(q),
        k <= moduli.len(),
        forall|j: int| 0 <= j < k ==> is_prime(#[trigger] moduli[j] as int) && moduli[j] != q,
    ensures
        product_of(moduli, k) % (q as nat) != 0,
    decreases k,
{
    if k == 0 {
        lemma_small_mod(1, q as nat);
    } else {
        lemma_prime_outside_product(moduli, (k - 1) as nat, q);
        let before = product_of(moduli, (k - 1) as nat) as int;
        let last = moduli[k - 1] as int;
        if (before * last) % q == 0 {
            lemma_euclid(q, before, last);
            assert(is_prime(last));
            lemma_prime_divisor(last, q);
        }
    }
}

/// A list of distinct primes below `2^62` has what a residue number system
/// needs, and its last modulus has an inverse modulo each of the others.
pub proof fn lemma_distinct_primes_coprime(moduli: Seq<u64>)
    requires
        distinct(moduli),
        forall|i: int|
            0 <= i < moduli.len() ==> is_prime(#[trigger] moduli[i] as int) && modulus_ok(
                moduli[i] as int,
            ),
    ensures
        chain_coprime(moduli),
        last_invertible(moduli),
{
    assert forall|i: int| 0 <= i < moduli.len() implies gcd(
        #[trigger] moduli[i] as nat,
        product_of(moduli, i as nat) % (moduli[i] as nat),
    ) == 1 by {
        let q = moduli[i] as int;
        lemma_prime_outside_product(moduli, i as nat, q);
        lemma_mod_bound(product_of(moduli, i as nat) as int, q);
        lemma_prime_gcd(q as nat, product_of(moduli, i as nat) % (q as nat));
    }
    assert forall|j: int| 0 <= j < moduli.len() - 1 implies gcd(
        #[trigger] moduli[j] as nat,
        (moduli.last() as nat) % (moduli[j] as nat),
    ) == 1 by {
        let q = moduli[j] as int;
        let last = moduli.last() as int;
        assert(is_prime(last));
        if last % q == 0 {
            lemma_prime_divisor(last, q);
        }
        lemma_mod_bound(last, q);
        lemma_prime_gcd(q as nat, (last % q) as nat);
    }
}

/// For a list of distinct moduli and a valid degree that fit the address
/// space, a context is built exactly when every modulus admits a transform of
/// that degree.
pub proof fn law_context_exists(moduli: Seq<u64>, degree: int)
    requires
        moduli.len() >= 1,
        distinct(moduli),
        degree_ok(degree),
        moduli.len() * degree <= max_entries(),
    ensures
        new_error(moduli, degree) is None <==> all_feasible(moduli, degree),
    decreases moduli.len(),
{
    if all_feasible(moduli, degree) {
        assert forall|i: int| 0 <= i < moduli.len() implies is_prime(#[trigger] moduli[i] as int)
            && modulus_ok(moduli[i] as int) by {
            assert(ntt_feasible(moduli[i] as int, degree));
        }
        lemma_distinct_primes_coprime(moduli);
        assert(moduli_ok(moduli));
        assert(RnsContext::new_spec(moduli) is None);
        assert(local_error(moduli, degree) is None);
        if moduli.len() >= 2 {
            let shorter = moduli.drop_last();
            assert(shorter.len() * degree <= moduli.len() * degree) by (nonlinear_arith)
                requires
                    shorter.len() <= moduli.len(),
                    degree >= 0,
            ;
            assert forall|i: int| 0 <= i < shorter.len() implies ntt_feasible(
                #[trigger] shorter[i] as int,
                degree,
            ) by {
                assert(shorter[i] == moduli[i]);
                assert(ntt_feasible(moduli[i] as int, degree));
            }
            assert forall|i: int, j: int| 0 <= i < j < shorter.len() implies shorter[i]
                != shorter[j] by {
                assert(shorter[i] == moduli[i] && shorter[j] == moduli[j]);
            }
            law_context_exists(shorter, degree);
        }
    }
}

} // verus!
