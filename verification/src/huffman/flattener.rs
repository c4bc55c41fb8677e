//! The table flattener: turns the canonical code table into a translation
//! matrix that decodes a Huffman bitstream `S` bits at a time.
//!
//! Every symbol's code is split into `ceil(len / S)` chunks of `S` bits, the
//! last chunk padded with every possible pattern of its missing low bits.
//! Walking the chunks from row `0` allocates and links intermediate rows;
//! the final chunk's entries hold the symbol and the number of padding bits
//! that must be pushed back into the input.

use vstd::prelude::*;

verus! {

use vstd::arithmetic::power2::pow2;
use vstd::arithmetic::power2::lemma2_to64;
use vstd::pervasive::VecAdditionalExecFns;
use vstd::slice::slice_index_get;
use crate::wire::pow2_u64;
use crate::huffman::speed::DecoderSpeed;
use crate::huffman::speed::speed_bits;

/// One cell of the translation matrix: the row a longer code continues in,
/// the symbol a code ends in, and how many of the chunk's bits were padding.
/// On a valid path exactly one of the first two is present.
pub type Transition = (Option<usize>, Option<u16>, u8);

/// The number of `S`-bit chunks a code of `len` bits splits into.
pub open spec fn spec_chunks_len(len: nat, s: nat) -> nat {
    ((len + s - 1) as int / (s as int)) as nat
}

/// The number of low bits missing from the last chunk.
pub open spec fn spec_leftover(len: nat, s: nat) -> nat {
    (spec_chunks_len(len, s) * s - len) as nat
}

/// The `i`-th `S`-bit chunk of a code, counted from the most significant
/// end, after the code is left-shifted over its leftover bits.
pub open spec fn spec_chunk(len: nat, code: nat, s: nat, i: int) -> nat {
    ((code * pow2(spec_leftover(len, s))) / pow2(
        ((spec_chunks_len(len, s) - 1 - i) * s) as nat,
    )) % pow2(s)
}

/// The key path of variant `v` of a coding: the chunks in order, with `v`
/// added to the last chunk's padding bits.
pub open spec fn spec_path(len: nat, code: nat, s: nat, v: nat) -> Seq<usize> {
    Seq::new(
        spec_chunks_len(len, s),
        |i: int|
            if i == spec_chunks_len(len, s) - 1 {
                (spec_chunk(len, code, s, i) + v) as usize
            } else {
                spec_chunk(len, code, s, i) as usize
            },
    )
}

/// Bounds on the chunks of a path: every key fits the row width, and the
/// last chunk leaves room for all its padding variants.
pub proof fn lemma_path_elems(len: nat, code: nat, s: nat)
    requires
        1 <= len <= 30,
        1 <= s <= 5,
    ensures
        1 <= spec_chunks_len(len, s) <= 30,
        spec_leftover(len, s) < s,
        spec_chunk(len, code, s, spec_chunks_len(len, s) - 1) + pow2(spec_leftover(len, s))
            <= pow2(s),
        forall|i: int| 0 <= i < spec_chunks_len(len, s) ==> spec_chunk(len, code, s, i) < pow2(s),
{
    lemma2_to64();
    let k = spec_chunks_len(len, s);
    let l = spec_leftover(len, s);
    assert(k * s >= len && k * s < len + s && 1 <= k <= 30) by (nonlinear_arith)
        requires
            k == ((len + s - 1) as int / (s as int)) as nat,
            1 <= s <= 5,
            1 <= len <= 30,
    ;
    assert forall|i: int| 0 <= i < k implies spec_chunk(len, code, s, i) < pow2(s) by {
        vstd::arithmetic::power2::lemma_pow2_pos(s);
        vstd::arithmetic::div_mod::lemma_mod_bound(
            ((code * pow2(l)) / pow2(((k - 1 - i) * s) as nat)) as int,
            pow2(s) as int,
        );
    }
    // the last chunk is the low S bits of code * pow2(l); its low l bits are 0
    let bits = code * pow2(l);
    let q = code / pow2((s - l) as nat);
    let r = code % pow2((s - l) as nat);
    vstd::arithmetic::power2::lemma_pow2_pos(s);
    vstd::arithmetic::power2::lemma_pow2_pos(l);
    vstd::arithmetic::power2::lemma_pow2_pos((s - l) as nat);
    assert(pow2(s) == pow2((s - l) as nat) * pow2(l)) by {
        vstd::arithmetic::power2::lemma_pow2_adds((s - l) as nat, l);
    }
    assert(code == q * pow2((s - l) as nat) + r) by {
        vstd::arithmetic::div_mod::lemma_fundamental_div_mod(
            code as int,
            pow2((s - l) as nat) as int,
        );
    }
    vstd::arithmetic::div_mod::lemma_mod_bound(code as int, pow2((s - l) as nat) as int);
    assert(bits == q * pow2(s) + r * pow2(l)) by (nonlinear_arith)
        requires
            bits == code * pow2(l),
            code == q * pow2((s - l) as nat) + r,
            pow2(s) == pow2((s - l) as nat) * pow2(l),
    ;
    assert(r * pow2(l) + pow2(l) <= pow2(s)) by (nonlinear_arith)
        requires
            r < pow2((s - l) as nat),
            pow2(s) == pow2((s - l) as nat) * pow2(l),
    ;
    assert(bits % pow2(s) == r * pow2(l)) by {
        vstd::arithmetic::div_mod::lemma_mod_multiples_vanish(
            q as int,
            (r * pow2(l)) as int,
            pow2(s) as int,
        );
        vstd::arithmetic::div_mod::lemma_small_mod(r * pow2(l), pow2(s));
    }
    assert(spec_chunk(len, code, s, k - 1) == bits % pow2(s)) by {
        assert(((k - 1 - (k - 1)) * s) as nat == 0);
        assert(pow2(0) == 1);
        assert(bits / pow2(0) == bits) by (nonlinear_arith)
            requires
                pow2(0) == 1,
        ;
    }
}

/// The matrix rows as mathematical sequences.
pub open spec fn rows_view(m: Seq<Vec<Transition>>) -> Seq<Seq<Transition>> {
    Seq::new(m.len() as nat, |i: int| m[i]@)
}

/// A well formed entry: a link, if present, stays inside the matrix.
pub open spec fn entry_ok(e: Transition, rows: nat) -> bool {
    match e.0 {
        Some(n) => n < rows,
        None => true,
    }
}

/// A well formed matrix for width `s`: at least the root row, all rows
/// `pow2(s)` wide, all links in range, and every cell's leftover count below
/// the read width.
pub open spec fn matrix_wf(m: Seq<Seq<Transition>>, s: nat) -> bool {
    &&& 1 <= s
    &&& 1 <= m.len()
    &&& forall|r: int| 0 <= r < m.len() ==> (#[trigger] m[r]).len() == pow2(s)
    &&& forall|r: int, k: int|
        0 <= r < m.len() && 0 <= k < m[r].len() ==> entry_ok(#[trigger] m[r][k], m.len() as nat)
    &&& forall|r: int, k: int|
        0 <= r < m.len() && 0 <= k < m[r].len() ==> (#[trigger] m[r][k]).2 < s
}

/// A row of `pow2(s)` empty cells.
pub open spec fn blank_row(s: nat) -> Seq<Transition> {
    Seq::new(pow2(s), |i: int| (None::<usize>, None::<u16>, 0u8))
}

/// The matrix and row after walking the non-final chunks of `path` from row
/// `id`, allocating and linking a fresh row wherever the path leaves the
/// matrix.
pub open spec fn spec_walk(m: Seq<Seq<Transition>>, id: int, path: Seq<usize>, j: int, s: nat) -> (
    Seq<Seq<Transition>>,
    int,
)
    decreases path.len() - j,
{
    if j < 0 || j >= path.len() - 1 {
        (m, id)
    } else {
        let key = path[j] as int;
        match m[id][key].0 {
            Some(next) => spec_walk(m, next as int, path, j + 1, s),
            None => {
                let fresh = m.len() as int;
                let m2 = m.push(blank_row(s));
                let m3 = m2.update(
                    id,
                    m2[id].update(key, (Some(fresh as usize), m2[id][key].1, m2[id][key].2)),
                );
                spec_walk(m3, fresh, path, j + 1, s)
            },
        }
    }
}

/// The matrix after writing symbol `sym` with `left` leftover bits into the
/// cells `base` .. `base + count` of row `id`, in increasing order.
pub open spec fn spec_write_variants(
    m: Seq<Seq<Transition>>,
    id: int,
    base: int,
    count: nat,
    sym: u16,
    left: u8,
) -> Seq<Seq<Transition>>
    decreases count,
{
    if count == 0 {
        m
    } else {
        let m2 = spec_write_variants(m, id, base, (count - 1) as nat, sym, left);
        let key = base + count - 1;
        m2.update(id, m2[id].update(key, (m2[id][key].0, Some(sym), left)))
    }
}

/// The matrix after adding one symbol's coding.
pub open spec fn spec_add_symbol(
    m: Seq<Seq<Transition>>,
    sym: u16,
    coding: (u8, u32),
    s: nat,
) -> Seq<Seq<Transition>> {
    let len = coding.0 as nat;
    let code = coding.1 as nat;
    let path = spec_path(len, code, s, 0);
    let walked = spec_walk(m, 0, path, 0, s);
    spec_write_variants(
        walked.0,
        walked.1,
        path[path.len() - 1] as int,
        pow2(spec_leftover(len, s)),
        sym,
        spec_leftover(len, s) as u8,
    )
}

/// The matrix after adding the first `k` codings to the blank root.
pub open spec fn spec_flatten(codings: Seq<(u8, u32)>, s: nat, k: int) -> Seq<Seq<Transition>>
    decreases k,
{
    if k <= 0 {
        seq![blank_row(s)]
    } else {
        spec_add_symbol(spec_flatten(codings, s, k - 1), (k - 1) as u16, codings[k - 1], s)
    }
}

/// Walking preserves well-formedness, only appends rows, and lands inside
/// the matrix.
pub proof fn lemma_walk_wf(m: Seq<Seq<Transition>>, id: int, path: Seq<usize>, j: int, s: nat)
    requires
        matrix_wf(m, s),
        0 <= id < m.len(),
        forall|i: int| 0 <= i < path.len() ==> path[i] < pow2(s),
    ensures
        ({
            let (m2, id2) = spec_walk(m, id, path, j, s);
            &&& matrix_wf(m2, s)
            &&& 0 <= id2 < m2.len()
            &&& m2.len() >= m.len()
        }),
    decreases path.len() - j,
{
    if j < 0 || j >= path.len() - 1 {
    } else {
        let key = path[j] as int;
        match m[id][key].0 {
            Some(next) => {
                assert(entry_ok(m[id][key], m.len() as nat));
                lemma_walk_wf(m, next as int, path, j + 1, s);
            },
            None => {
                let fresh = m.len() as int;
                let m2 = m.push(blank_row(s));
                let m3 = m2.update(
                    id,
                    m2[id].update(key, (Some(fresh as usize), m2[id][key].1, m2[id][key].2)),
                );
                assert(matrix_wf(m3, s)) by {
                    assert forall|r: int| 0 <= r < m3.len() implies (#[trigger] m3[r]).len()
                        == pow2(s) by {
                        if r == fresh {
                            assert(m3[r] == blank_row(s));
                        } else if r != id {
                            assert(m3[r] == m[r]);
                        }
                    }
                    assert forall|r: int, k2: int|
                        0 <= r < m3.len() && 0 <= k2 < m3[r].len() implies entry_ok(
                        #[trigger] m3[r][k2],
                        m3.len() as nat,
                    ) && (#[trigger] m3[r][k2]).2 < s by {
                        if r == id && k2 == key {
                            assert(m3[r][k2].2 == m[r][k2].2);
                        } else if r == fresh {
                            assert(m3[r][k2] == blank_row(s)[k2]);
                        } else {
                            assert(m3[r][k2] == m[r][k2]);
                            assert(entry_ok(m[r][k2], m.len() as nat));
                        }
                    }
                }
                lemma_walk_wf(m3, fresh, path, j + 1, s);
            },
        }
    }
}

/// Writing symbols preserves well-formedness and the matrix shape.
pub proof fn lemma_write_wf(
    m: Seq<Seq<Transition>>,
    id: int,
    base: int,
    count: nat,
    sym: u16,
    left: u8,
    s: nat,
)
    requires
        matrix_wf(m, s),
        0 <= id < m.len(),
        0 <= base,
        base + count <= pow2(s),
        left < s,
    ensures
        ({
            let m2 = spec_write_variants(m, id, base, count, sym, left);
            &&& matrix_wf(m2, s)
            &&& m2.len() == m.len()
        }),
    decreases count,
{
    if count > 0 {
        lemma_write_wf(m, id, base, (count - 1) as nat, sym, left, s);
        let m2 = spec_write_variants(m, id, base, (count - 1) as nat, sym, left);
        let key = base + count - 1;
        let m3 = m2.update(id, m2[id].update(key, (m2[id][key].0, Some(sym), left)));
        assert(matrix_wf(m3, s)) by {
            assert forall|r: int| 0 <= r < m3.len() implies (#[trigger] m3[r]).len() == pow2(
                s,
            ) by {
                if r != id {
                    assert(m3[r] == m2[r]);
                }
            }
            assert forall|r: int, k2: int|
                0 <= r < m3.len() && 0 <= k2 < m3[r].len() implies entry_ok(
                #[trigger] m3[r][k2],
                m3.len() as nat,
            ) && (#[trigger] m3[r][k2]).2 < s by {
                if r == id && k2 == key {
                    assert(entry_ok(m2[id][key], m2.len() as nat));
                } else if r == id {
                    assert(m3[r][k2] == m2[r][k2]);
                    assert(entry_ok(m2[r][k2], m2.len() as nat));
                } else {
                    assert(m3[r][k2] == m2[r][k2]);
                    assert(entry_ok(m2[r][k2], m2.len() as nat));
                }
            }
        }
    }
}

/// Generates a blank transition row for the given read width.
#[verifier::loop_isolation(false)]
pub fn generate_blank_transition(speed: usize) -> (r: Vec<Transition>)
    requires
        1 <= speed <= 5,
    ensures
        r@ == blank_row(speed as nat),
{
    proof {
        lemma2_to64();
    }
    let width: u64 = pow2_u64(speed as u64);
    let mut transition: Vec<Transition> = Vec::new();
    let mut i: u64 = 0;
    while i < width
        invariant
            0 <= i <= width,
            width == pow2(speed as nat),
            width <= 32,
            transition@.len() == i,
            forall|k: int|
                0 <= k < i ==> transition@[k] == (None::<usize>, None::<u16>, 0u8),
        decreases width - i,
    {
        transition.push((None, None, 0));
        i = i + 1;
    }
    proof {
        assert(transition@ =~= blank_row(speed as nat));
    }
    transition
}

/// Generates all key paths for the particular coding. If the code does not
/// fill its last chunk, the gap is padded with every possible bit pattern,
/// one path per variant.
#[verifier::loop_isolation(false)]
pub fn generate_coding_paths(coding: &(u8, u32), speed: usize) -> (r: Vec<Vec<usize>>)
    requires
        1 <= coding.0 <= 30,
        1 <= speed <= 5,
    ensures
        r@.len() == pow2(spec_leftover(coding.0 as nat, speed as nat)),
        forall|v: int|
            0 <= v < r@.len() ==> (#[trigger] r@[v])@ == spec_path(
                coding.0 as nat,
                coding.1 as nat,
                speed as nat,
                v as nat,
            ),
{
    proof {
        lemma2_to64();
        lemma_path_elems(coding.0 as nat, coding.1 as nat, speed as nat);
    }
    let len: usize = coding.0 as usize;
    let chunks_len: usize = (len + speed - 1) / speed;
    let ghost slen = speed as nat;
    let ghost clen = spec_chunks_len(coding.0 as nat, slen);
    proof {
        assert(chunks_len * speed >= len && chunks_len * speed < len + speed && 1 <= chunks_len
            <= 30) by (nonlinear_arith)
            requires
                chunks_len == (len + speed - 1) as int / (speed as int),
                1 <= speed <= 5,
                1 <= len <= 30,
        ;
        assert(chunks_len == clen);
    }
    let leftover: usize = chunks_len * speed - len;
    proof {
        assert(leftover == spec_leftover(coding.0 as nat, slen));
        assert(pow2(leftover as nat) <= 16) by {
            if (leftover as nat) < 4 {
                vstd::arithmetic::power2::lemma_pow2_strictly_increases(leftover as nat, 4);
            }
        }
    }
    proof {
        assert((coding.1 as nat) * pow2(leftover as nat) < 0x10_0000_0000) by (nonlinear_arith)
            requires
                (coding.1 as nat) < 0x1_0000_0000,
                pow2(leftover as nat) <= 16,
        ;
    }
    let bits: u64 = (coding.1 as u64) * pow2_u64(leftover as u64);
    let variants_len: u64 = pow2_u64(leftover as u64);
    let mut variants: Vec<Vec<usize>> = Vec::new();
    let mut v: u64 = 0;
    while v < variants_len
        invariant
            0 <= v <= variants_len,
            variants@.len() == v,
            forall|w: int|
                0 <= w < v ==> (#[trigger] variants@[w])@ == spec_path(
                    coding.0 as nat,
                    coding.1 as nat,
                    slen,
                    w as nat,
                ),
        decreases variants_len - v,
    {
        let mut chunks: Vec<usize> = Vec::new();
        let mut i: usize = 0;
        while i < chunks_len
            invariant
                0 <= i <= chunks_len,
                chunks@.len() == i,
                forall|x: int|
                    0 <= x < i ==> chunks@[x] == spec_path(
                        coding.0 as nat,
                        coding.1 as nat,
                        slen,
                        v as nat,
                    )[x],
            decreases chunks_len - i,
        {
            proof {
                assert((chunks_len - 1 - i) * speed <= chunks_len * speed) by (nonlinear_arith)
                    requires
                        0 <= i < chunks_len,
                        1 <= speed,
                ;
            }
            let denom: u64 = pow2_u64(((chunks_len - 1 - i) * speed) as u64);
            let width: u64 = pow2_u64(speed as u64);
            proof {
                vstd::arithmetic::power2::lemma_pow2_pos(((chunks_len - 1 - i) * speed) as nat);
                vstd::arithmetic::power2::lemma_pow2_pos(speed as nat);
            }
            let mut chunk: u64 = (bits / denom) % width;
            if i == chunks_len - 1 {
                chunk = chunk + v;
            }
            chunks.push(chunk as usize);
            proof {
                assert(chunks@[i as int] == spec_path(
                    coding.0 as nat,
                    coding.1 as nat,
                    slen,
                    v as nat,
                )[i as int]);
            }
            i = i + 1;
        }
        variants.push(chunks);
        proof {
            assert(variants@[v as int]@ =~= spec_path(
                coding.0 as nat,
                coding.1 as nat,
                slen,
                v as nat,
            ));
        }
        v = v + 1;
    }
    variants
}

/// Generates a translation matrix that can be used to decode an encoded
/// content. The `speed` attribute selects how many bits the decoder will
/// read at a time: a higher number helps performance but grows the matrix.
///
/// The result is exactly the matrix built by walking and writing every
/// coding in order into an initially blank root row.
#[verifier::loop_isolation(false)]
#[verifier::rlimit(100)]
#[verifier::spinoff_prover]
pub fn flatten(codings: &[(u8, u32)], speed: DecoderSpeed) -> (r: Vec<Vec<Transition>>)
    requires
        forall|i: int| 0 <= i < codings@.len() ==> 1 <= (#[trigger] codings@[i]).0 <= 30,
        codings@.len() <= 0x1_0000,
    ensures
        rows_view(r@) == spec_flatten(codings@, speed_bits(speed), codings@.len() as int),
        matrix_wf(rows_view(r@), speed_bits(speed)),
{
    proof {
        lemma2_to64();
    }
    let sbits: usize = speed.bits();
    let mut table: Vec<Vec<Transition>> = Vec::new();
    table.push(generate_blank_transition(sbits));
    proof {
        assert(rows_view(table@) =~= seq![blank_row(sbits as nat)]);
        assert(matrix_wf(rows_view(table@), sbits as nat));
    }
    let mut sym: usize = 0;
    while sym < codings.len()
        invariant
            0 <= sym <= codings@.len(),
            rows_view(table@) == spec_flatten(codings@, sbits as nat, sym as int),
            matrix_wf(rows_view(table@), sbits as nat),
        decreases codings@.len() - sym,
    {
        let ghost m_entry = rows_view(table@);
        let coding: (u8, u32) = *slice_index_get(codings, sym);
        proof {
            lemma_path_elems(coding.0 as nat, coding.1 as nat, sbits as nat);
        }
        let paths: Vec<Vec<usize>> = generate_coding_paths(&coding, sbits);
        let ghost path0 = spec_path(coding.0 as nat, coding.1 as nat, sbits as nat, 0);
        proof {
            vstd::arithmetic::power2::lemma_pow2_pos(
                spec_leftover(coding.0 as nat, sbits as nat),
            );
        }
        let p0: &Vec<usize> = &paths[0];
        proof {
            assert(p0@ == path0);
            assert(path0.len() == spec_chunks_len(coding.0 as nat, sbits as nat));
            assert(forall|x: int| 0 <= x < path0.len() ==> #[trigger] path0[x] < pow2(
                sbits as nat)) by {
                assert forall|x: int| 0 <= x < path0.len() implies #[trigger] path0[x] < pow2(
                    sbits as nat) by {
                    if x == path0.len() - 1 {
                        assert(path0[x] == (spec_chunk(
                            coding.0 as nat,
                            coding.1 as nat,
                            sbits as nat,
                            x,
                        ) + 0) as usize);
                    }
                }
            }
        }
        let plen: usize = p0.len();
        let mut id: usize = 0;
        let mut j: usize = 0;
        while j + 1 < plen
            invariant
                0 <= j <= plen - 1,
                matrix_wf(rows_view(table@), sbits as nat),
                0 <= id < table@.len(),
                spec_walk(m_entry, 0, path0, 0, sbits as nat) == spec_walk(
                    rows_view(table@),
                    id as int,
                    path0,
                    j as int,
                    sbits as nat,
                ),
            decreases plen - j,
        {
            let key: usize = p0[j];
            let ghost m_iter = rows_view(table@);
            proof {
                assert(path0[j as int] < pow2(sbits as nat));
                assert(m_iter[id as int] == table@[id as int]@);
            }
            let cur: Transition = table[id][key];
            proof {
                assert(cur == m_iter[id as int][key as int]);
            }
            match cur.0 {
                Some(next) => {
                    proof {
                        assert(entry_ok(m_iter[id as int][key as int], m_iter.len() as nat));
                        assert(spec_walk(m_iter, id as int, path0, j as int, sbits as nat)
                            == spec_walk(m_iter, next as int, path0, j + 1, sbits as nat));
                    }
                    id = next;
                },
                None => {
                    table.push(generate_blank_transition(sbits));
                    let next: usize = table.len() - 1;
                    let ghost m_pushed = rows_view(table@);
                    proof {
                        assert(m_pushed =~= m_iter.push(blank_row(sbits as nat)));
                    }
                    let cur2: Transition = table[id][key];
                    proof {
                        assert(cur2 == m_pushed[id as int][key as int]);
                        assert(cur2 == cur);
                    }
                    let row: &mut Vec<Transition> = vstd::std_specs::vec::vec_index_mut(
                        &mut table,
                        id,
                    );
                    row.set(key, (Some(next), cur.1, cur.2));
                    let ghost m3 = m_pushed.update(
                        id as int,
                        m_pushed[id as int].update(key as int, (Some(next), cur.1, cur.2)),
                    );
                    proof {
                        assert(rows_view(table@) =~= m3);
                        assert(spec_walk(m_iter, id as int, path0, j as int, sbits as nat)
                            == spec_walk(m3, next as int, path0, j + 1, sbits as nat));
                        assert(matrix_wf(m3, sbits as nat)) by {
                            assert forall|r: int| 0 <= r < m3.len() implies (
                            #[trigger] m3[r]).len() == pow2(sbits as nat) by {
                                if r == next {
                                    assert(m3[r] == blank_row(sbits as nat));
                                } else if r != id {
                                    assert(m3[r] == m_iter[r]);
                                }
                            }
                            assert forall|r: int, k2: int|
                                0 <= r < m3.len() && 0 <= k2 < m3[r].len() implies entry_ok(
                                #[trigger] m3[r][k2],
                                m3.len() as nat,
                            ) && (#[trigger] m3[r][k2]).2 < sbits as nat by {
                                if r == next {
                                    assert(m3[r][k2] == blank_row(sbits as nat)[k2]);
                                } else if r == id && k2 == key {
                                    assert(m3[r][k2].2 == m_iter[r][k2].2);
                                } else {
                                    assert(m3[r][k2] == m_iter[r][k2]);
                                    assert(entry_ok(m_iter[r][k2], m_iter.len() as nat));
                                }
                            }
                        }
                    }
                    id = next;
                },
            }
            j = j + 1;
        }
        // write the symbol into every padding variant of the last chunk
        let base: usize = p0[plen - 1];
        let leftover: usize = chunks_leftover(coding.0 as usize, sbits);
        let ghost walked = spec_walk(m_entry, 0, path0, 0, sbits as nat);
        proof {
            lemma_walk_wf(m_entry, 0, path0, 0, sbits as nat);
            assert(walked.0 == rows_view(table@) && walked.1 == id as int);
        }
        let mut v: usize = 0;
        while v < paths.len()
            invariant
                0 <= v <= paths@.len(),
                matrix_wf(rows_view(table@), sbits as nat),
                0 <= id < table@.len(),
                table@.len() == walked.0.len(),
                rows_view(table@) == spec_write_variants(
                    walked.0,
                    id as int,
                    base as int,
                    v as nat,
                    sym as u16,
                    leftover as u8,
                ),
            decreases paths@.len() - v,
        {
            let key: usize = base + v;
            let ghost m_prev = rows_view(table@);
            proof {
                assert(base + paths@.len() <= pow2(sbits as nat));
                assert(m_prev[id as int] == table@[id as int]@);
            }
            let cur: Transition = table[id][key];
            proof {
                assert(cur == m_prev[id as int][key as int]);
            }
            let row: &mut Vec<Transition> = vstd::std_specs::vec::vec_index_mut(&mut table, id);
            row.set(key, (cur.0, Some(sym as u16), leftover as u8));
            proof {
                assert(rows_view(table@) =~= m_prev.update(
                    id as int,
                    m_prev[id as int].update(
                        key as int,
                        (cur.0, Some(sym as u16), leftover as u8),
                    ),
                ));
                lemma_write_wf(
                    walked.0,
                    id as int,
                    base as int,
                    (v + 1) as nat,
                    sym as u16,
                    leftover as u8,
                    sbits as nat,
                );
            }
            v = v + 1;
        }
        proof {
            assert(rows_view(table@) == spec_add_symbol(
                m_entry,
                sym as u16,
                coding,
                sbits as nat,
            ));
        }
        sym = sym + 1;
    }
    table
}

/// The number of padding bits in the last chunk of a code.
fn chunks_leftover(len: usize, speed: usize) -> (r: usize)
    requires
        1 <= len <= 30,
        1 <= speed <= 5,
    ensures
        r == spec_leftover(len as nat, speed as nat),
{
    let chunks_len: usize = (len + speed - 1) / speed;
    proof {
        assert(chunks_len * speed >= len && chunks_len * speed < len + speed)
            by (nonlinear_arith)
            requires
                chunks_len == (len + speed - 1) as int / (speed as int),
                1 <= speed <= 5,
                1 <= len <= 30,
        ;
    }
    chunks_len * speed - len
}


/// Row `r` is linked from some strictly earlier row.
pub open spec fn row_linked(m: Seq<Seq<Transition>>, r: int) -> bool {
    exists|r2: int, k: int|
        0 <= r2 < r && 0 <= k < m[r2].len() && (#[trigger] m[r2][k]).0 == Some(r as usize)
}

/// Every allocated row but the root is linked from some strictly earlier
/// row.
pub open spec fn back_linked(m: Seq<Seq<Transition>>) -> bool {
    forall|r: int| 1 <= r < m.len() ==> #[trigger] row_linked(m, r)
}

/// A row is reachable from the root within `fuel` link steps, always
/// through strictly smaller rows.
pub open spec fn reachable_within(m: Seq<Seq<Transition>>, r: int, fuel: int) -> bool
    decreases fuel,
{
    if r == 0 {
        true
    } else if fuel <= 0 {
        false
    } else {
        exists|r2: int, k: int|
            0 <= r2 < r && 0 <= k < m[r2].len() && (#[trigger] m[r2][k]).0 == Some(r as usize)
                && reachable_within(m, r2, fuel - 1)
    }
}

/// In a back-linked matrix every row is reachable from the root.
pub proof fn lemma_back_linked_reachable(m: Seq<Seq<Transition>>, r: int)
    requires
        back_linked(m),
        0 <= r < m.len(),
    ensures
        reachable_within(m, r, r),
    decreases r,
{
    if r > 0 {
        assert(row_linked(m, r));
        let (r2, k) = choose|r2: int, k: int|
            0 <= r2 < r && 0 <= k < m[r2].len() && (#[trigger] m[r2][k]).0 == Some(r as usize);
        lemma_back_linked_reachable(m, r2);
        lemma_reachable_monotonic(m, r2, r2, r - 1);
    }
}

/// More fuel keeps a row reachable.
proof fn lemma_reachable_monotonic(m: Seq<Seq<Transition>>, r: int, f1: int, f2: int)
    requires
        reachable_within(m, r, f1),
        f1 <= f2,
    ensures
        reachable_within(m, r, f2),
    decreases f1,
{
    if r != 0 {
        let (r2, k) = choose|r2: int, k: int|
            0 <= r2 < r && 0 <= k < m[r2].len() && (#[trigger] m[r2][k]).0 == Some(r as usize)
                && reachable_within(m, r2, f1 - 1);
        lemma_reachable_monotonic(m, r2, f1 - 1, f2 - 1);
    }
}

/// Walking preserves back-linkedness: a fresh row is linked from the row
/// the walk stood in when it was allocated.
proof fn lemma_walk_back_linked(
    m: Seq<Seq<Transition>>,
    id: int,
    path: Seq<usize>,
    j: int,
    s: nat,
)
    requires
        matrix_wf(m, s),
        back_linked(m),
        0 <= id < m.len(),
        forall|i: int| 0 <= i < path.len() ==> path[i] < pow2(s),
    ensures
        back_linked(spec_walk(m, id, path, j, s).0),
    decreases path.len() - j,
{
    if j < 0 || j >= path.len() - 1 {
    } else {
        let key = path[j] as int;
        match m[id][key].0 {
            Some(next) => {
                lemma_walk_wf(m, id, path, j, s);
                lemma_walk_back_linked(m, next as int, path, j + 1, s);
            },
            None => {
                let fresh = m.len() as int;
                let m2 = m.push(blank_row(s));
                let m3 = m2.update(
                    id,
                    m2[id].update(key, (Some(fresh as usize), m2[id][key].1, m2[id][key].2)),
                );
                lemma_walk_wf(m, id, path, j, s);
                assert(matrix_wf(m3, s)) by {
                    assert(spec_walk(m, id, path, j, s) == spec_walk(m3, fresh, path, j + 1, s));
                }
                assert(back_linked(m3)) by {
                    assert forall|r: int| 1 <= r < m3.len() implies #[trigger] row_linked(
                        m3,
                        r,
                    ) by {
                        if r == fresh {
                            assert(m3[id][key].0 == Some(r as usize));
                        } else {
                            assert(row_linked(m, r));
                            let (r2, k2) = choose|r2: int, k2: int|
                                0 <= r2 < r && 0 <= k2 < m[r2].len() && (#[trigger] m[r2][k2]).0
                                    == Some(r as usize);
                            if r2 == id && k2 == key {
                                assert(m[id][key].0 is None);
                            } else {
                                assert(m3[r2][k2] == m[r2][k2]);
                            }
                        }
                    }
                }
                assert(matrix_wf(m3, s)) by {
                    lemma_walk_wf_update(m, id, path, j, s);
                }
                lemma_walk_back_linked(m3, fresh, path, j + 1, s);
            },
        }
    }
}

/// The matrix after the allocation step of a walk stays well formed.
proof fn lemma_walk_wf_update(
    m: Seq<Seq<Transition>>,
    id: int,
    path: Seq<usize>,
    j: int,
    s: nat,
)
    requires
        matrix_wf(m, s),
        0 <= id < m.len(),
        0 <= j < path.len() - 1,
        path[j] < pow2(s),
        m[id][path[j] as int].0 is None,
    ensures
        ({
            let key = path[j] as int;
            let fresh = m.len() as int;
            let m2 = m.push(blank_row(s));
            let m3 = m2.update(
                id,
                m2[id].update(key, (Some(fresh as usize), m2[id][key].1, m2[id][key].2)),
            );
            matrix_wf(m3, s)
        }),
{
    let key = path[j] as int;
    let fresh = m.len() as int;
    let m2 = m.push(blank_row(s));
    let m3 = m2.update(
        id,
        m2[id].update(key, (Some(fresh as usize), m2[id][key].1, m2[id][key].2)),
    );
    assert forall|r: int| 0 <= r < m3.len() implies (#[trigger] m3[r]).len() == pow2(s) by {
        if r == fresh {
            assert(m3[r] == blank_row(s));
        } else if r != id {
            assert(m3[r] == m[r]);
        }
    }
    assert forall|r: int, k2: int|
        0 <= r < m3.len() && 0 <= k2 < m3[r].len() implies entry_ok(
        #[trigger] m3[r][k2],
        m3.len() as nat,
    ) && (#[trigger] m3[r][k2]).2 < s by {
        if r == fresh {
            assert(m3[r][k2] == blank_row(s)[k2]);
        } else if r == id && k2 == key {
            assert(m3[r][k2].2 == m[r][k2].2);
        } else {
            assert(m3[r][k2] == m[r][k2]);
            assert(entry_ok(m[r][k2], m.len() as nat));
        }
    }
}

/// Writing symbols preserves back-linkedness: no link is removed.
proof fn lemma_write_back_linked(
    m: Seq<Seq<Transition>>,
    id: int,
    base: int,
    count: nat,
    sym: u16,
    left: u8,
    s: nat,
)
    requires
        matrix_wf(m, s),
        back_linked(m),
        0 <= id < m.len(),
        0 <= base,
        base + count <= pow2(s),
        left < s,
    ensures
        back_linked(spec_write_variants(m, id, base, count, sym, left)),
    decreases count,
{
    if count > 0 {
        lemma_write_back_linked(m, id, base, (count - 1) as nat, sym, left, s);
        lemma_write_wf(m, id, base, (count - 1) as nat, sym, left, s);
        let m2 = spec_write_variants(m, id, base, (count - 1) as nat, sym, left);
        let key = base + count - 1;
        let m3 = m2.update(id, m2[id].update(key, (m2[id][key].0, Some(sym), left)));
        assert(back_linked(m3)) by {
            assert forall|r: int| 1 <= r < m3.len() implies #[trigger] row_linked(m3, r) by {
                assert(row_linked(m2, r));
                let (r2, k2) = choose|r2: int, k2: int|
                    0 <= r2 < r && 0 <= k2 < m2[r2].len() && (#[trigger] m2[r2][k2]).0 == Some(
                        r as usize,
                    );
                if r2 == id && k2 == key {
                    assert(m3[r2][k2].0 == m2[r2][k2].0);
                } else {
                    assert(m3[r2][k2] == m2[r2][k2]);
                }
            }
        }
    }
}

/// Every row of a flattened matrix is reachable from the root row: each
/// fresh row is linked, at its creation, from the row the walk stood in.
pub proof fn lemma_flatten_reachable(codings: Seq<(u8, u32)>, s: nat, k: int)
    requires
        1 <= s <= 5,
        forall|i: int| 0 <= i < codings.len() ==> 1 <= (#[trigger] codings[i]).0 <= 30,
        0 <= k <= codings.len(),
    ensures
        back_linked(spec_flatten(codings, s, k)),
        matrix_wf(spec_flatten(codings, s, k), s),
        forall|r: int|
            0 <= r < spec_flatten(codings, s, k).len() ==> reachable_within(
                spec_flatten(codings, s, k),
                r,
                r,
            ),
    decreases k,
{
    vstd::arithmetic::power2::lemma2_to64();
    if k <= 0 {
        let m = spec_flatten(codings, s, k);
        assert(m.len() == 1);
        assert(m[0] == blank_row(s));
        assert(matrix_wf(m, s)) by {
            assert forall|r: int, k2: int|
                0 <= r < m.len() && 0 <= k2 < m[r].len() implies entry_ok(
                #[trigger] m[r][k2],
                m.len() as nat,
            ) && (#[trigger] m[r][k2]).2 < s by {
                assert(m[r][k2] == blank_row(s)[k2]);
            }
        }
    } else {
        lemma_flatten_reachable(codings, s, k - 1);
        let m = spec_flatten(codings, s, k - 1);
        let coding = codings[k - 1];
        lemma_path_elems(coding.0 as nat, coding.1 as nat, s);
        let path = spec_path(coding.0 as nat, coding.1 as nat, s, 0);
        assert(forall|i: int| 0 <= i < path.len() ==> #[trigger] path[i] < pow2(s)) by {
            assert forall|i: int| 0 <= i < path.len() implies #[trigger] path[i] < pow2(s) by {
                if i == path.len() - 1 {
                    assert(path[i] == (spec_chunk(coding.0 as nat, coding.1 as nat, s, i)
                        + 0) as usize);
                }
            }
        }
        lemma_walk_back_linked(m, 0, path, 0, s);
        lemma_walk_wf(m, 0, path, 0, s);
        let walked = spec_walk(m, 0, path, 0, s);
        lemma_write_back_linked(
            walked.0,
            walked.1,
            path[path.len() - 1] as int,
            pow2(spec_leftover(coding.0 as nat, s)),
            (k - 1) as u16,
            spec_leftover(coding.0 as nat, s) as u8,
            s,
        );
        lemma_write_wf(
            walked.0,
            walked.1,
            path[path.len() - 1] as int,
            pow2(spec_leftover(coding.0 as nat, s)),
            (k - 1) as u16,
            spec_leftover(coding.0 as nat, s) as u8,
            s,
        );
        let mfin = spec_flatten(codings, s, k);
        assert forall|r: int| 0 <= r < mfin.len() implies reachable_within(mfin, r, r) by {
            lemma_back_linked_reachable(mfin, r);
        }
    }
}

} // verus!
