//! The MD5 compression pipeline and the first-block conditions used by the
//! collision search: the four round functions, the step transform and its
//! inverse, bit-mask constraints on intermediate states, and the block
//! digest.  The word-level helpers carry exact contracts; the block routines
//! are the algorithm itself, exercised by the digest tests.

use vstd::prelude::*;

verus! {

/// Addition on 32-bit words, wrapping modulo 2^32.
pub open spec fn wadd_spec(a: u32, b: u32) -> u32 {
    ((a + b) % 0x1_0000_0000) as u32
}

/// Left rotation of a 32-bit word by `s` places, `0 < s < 32`.
pub open spec fn rotl_spec(x: u32, s: u32) -> u32 {
    (x << s) | (x >> ((32 - s) as u32))
}

/// The four MD5 round functions.
#[derive(Debug)]
pub enum Md5Fn {
    F,
    G,
    H,
    I,
}

/// `F(x,y,z) = (x & y) | (!x & z)`.
pub open spec fn tr_f_spec(x: u32, y: u32, z: u32) -> u32 {
    (x & y) | (!x & z)
}

/// `G(x,y,z) = (x & z) | (y & !z)`.
pub open spec fn tr_g_spec(x: u32, y: u32, z: u32) -> u32 {
    (x & z) | (y & !z)
}

/// `H(x,y,z) = x ^ y ^ z`.
pub open spec fn tr_h_spec(x: u32, y: u32, z: u32) -> u32 {
    x ^ y ^ z
}

/// `I(x,y,z) = y ^ (x | !z)`.
pub open spec fn tr_i_spec(x: u32, y: u32, z: u32) -> u32 {
    y ^ (x | !z)
}

/// The selected round function.
pub open spec fn md5_apply_spec(f: Md5Fn, x: u32, y: u32, z: u32) -> u32 {
    match f {
        Md5Fn::F => tr_f_spec(x, y, z),
        Md5Fn::G => tr_g_spec(x, y, z),
        Md5Fn::H => tr_h_spec(x, y, z),
        Md5Fn::I => tr_i_spec(x, y, z),
    }
}

/// One MD5 step: add the round function, message word and constant into the
/// state word, rotate, and add the second state word.
#[verifier::opaque]
pub open spec fn transform_spec(
    f: Md5Fn,
    a: u32,
    b: u32,
    c: u32,
    d: u32,
    word: u32,
    k: u32,
    s: u32,
) -> u32 {
    wadd_spec(rotl_spec(wadd_spec(wadd_spec(wadd_spec(a, md5_apply_spec(f, b, c, d)), word), k), s), b)
}

/// Wrapping 32-bit addition.
pub fn wadd(a: u32, b: u32) -> (r: u32)
    ensures
        r == wadd_spec(a, b),
{
    (((a as u64) + (b as u64)) % 0x1_0000_0000) as u32
}

/// Left rotation of a 32-bit word.
pub fn rotl(x: u32, s: u32) -> (r: u32)
    requires
        0 < s < 32,
    ensures
        r == rotl_spec(x, s),
{
    (x << s) | (x >> (32 - s))
}

/// Round function F.
pub fn tr_f(x: u32, y: u32, z: u32) -> (r: u32)
    ensures
        r == tr_f_spec(x, y, z),
{
    (x & y) | (!x & z)
}

/// Round function G.
pub fn tr_g(x: u32, y: u32, z: u32) -> (r: u32)
    ensures
        r == tr_g_spec(x, y, z),
{
    (x & z) | (y & !z)
}

/// Round function H.
pub fn tr_h(x: u32, y: u32, z: u32) -> (r: u32)
    ensures
        r == tr_h_spec(x, y, z),
{
    x ^ y ^ z
}

/// Round function I.
pub fn tr_i(x: u32, y: u32, z: u32) -> (r: u32)
    ensures
        r == tr_i_spec(x, y, z),
{
    y ^ (x | !z)
}

/// Applies the selected round function.
pub fn md5_apply(f: Md5Fn, x: u32, y: u32, z: u32) -> (r: u32)
    ensures
        r == md5_apply_spec(f, x, y, z),
{
    match f {
        Md5Fn::F => tr_f(x, y, z),
        Md5Fn::G => tr_g(x, y, z),
        Md5Fn::H => tr_h(x, y, z),
        Md5Fn::I => tr_i(x, y, z),
    }
}

/// One MD5 step.
pub fn transform(func: Md5Fn, a: u32, b: u32, c: u32, d: u32, word: u32, k: u32, s: u32) -> (r:
    u32)
    requires
        0 < s < 32,
    ensures
        r == transform_spec(func, a, b, c, d, word, k, s),
{
    proof {
        reveal(transform_spec);
    }
    let f = wadd(a, md5_apply(func, b, c, d));
    let temp = wadd(wadd(f, word), k);
    wadd(rotl(temp, s), b)
}

/// Forces the masked bits of `v` to one.
pub fn apply_one_bits(v: u32, mask: u32) -> (r: u32)
    ensures
        r == (v | mask),
{
    v | mask
}

/// Forces the masked bits of `v` to zero.
pub fn apply_zero_bits(v: u32, mask: u32) -> (r: u32)
    ensures
        r == (v & !mask),
{
    v & (!mask)
}

/// Copies the masked bits of `u` into `v`.
pub fn apply_same_bits(v: u32, u: u32, mask: u32) -> (r: u32)
    ensures
        r == ((v | (u & mask)) & (u | !mask)),
{
    (v | (u & mask)) & (u | (!mask))
}

/// The message word that makes one forward step produce `a` from the state
/// `(orig, b, c, d)` under round function F.
#[verifier::opaque]
pub open spec fn reverse_transfrom_spec(
    a: u32,
    b: u32,
    c: u32,
    d: u32,
    t: u32,
    s: u32,
    orig: u32,
) -> u32 {
    sub32(sub32(sub32(rotr_spec(sub32(a, b), s), tr_f_spec(b, c, d)), t), orig)
}

/// Wrapping 32-bit subtraction.
pub open spec fn sub32(a: u32, b: u32) -> u32 {
    ((a - b) % 0x1_0000_0000) as u32
}

/// Right rotation of a 32-bit word by `s` places, `0 < s < 32`.
pub open spec fn rotr_spec(x: u32, s: u32) -> u32 {
    (x >> s) | (x << ((32 - s) as u32))
}

/// Inverts one round-1 step: recovers the message word from the step's
/// output and the preceding state.
pub fn reverse_transfrom(a: u32, b: u32, c: u32, d: u32, t: u32, s: u32, orig: u32) -> (r: u32)
    requires
        0 < s < 32,
    ensures
        r == reverse_transfrom_spec(a, b, c, d, t, s, orig),
{
    proof {
        reveal(reverse_transfrom_spec);
    }
    let d1 = wsub(a, b);
    let rot = (d1 >> s) | (d1 << (32 - s));
    let d2 = wsub(rot, tr_f(b, c, d));
    let d3 = wsub(d2, t);
    wsub(d3, orig)
}

/// Wrapping 32-bit subtraction.
fn wsub(a: u32, b: u32) -> (r: u32)
    ensures
        r == sub32(a, b),
{
    let r = (((a as u64) + 0x1_0000_0000 - (b as u64)) % 0x1_0000_0000) as u32;
    proof {
        let ai = a as int;
        let bi = b as int;
        let m = 0x1_0000_0000int;
        assert(r == (ai + m - bi) % m);
        vstd::arithmetic::div_mod::lemma_mod_multiples_vanish(1, ai - bi, m);
        assert((m * 1 + (ai - bi)) % m == (ai - bi) % m);
    }
    r
}


/// The sixteen little-endian message words of a 64-byte block.
pub open spec fn words_of(buf: Seq<u8>) -> Seq<u32> {
    Seq::new(
        16,
        |i: int|
            (buf[4 * i] + buf[4 * i + 1] * 0x100 + buf[4 * i + 2] * 0x1_0000 + buf[4 * i + 3]
                * 0x100_0000) as u32,
    )
}

/// The 64 MD5 steps over one message block, from the given chaining state.
pub open spec fn md5_rounds(w: Seq<u32>, a0: u32, b0: u32, c0: u32, d0: u32) -> (u32, u32, u32, u32)
    recommends
        w.len() == 16,
{
    let v0 = transform_spec(Md5Fn::F, a0, b0, c0, d0, w[0], 0xD76AA478, 7);
    let v1 = transform_spec(Md5Fn::F, d0, v0, b0, c0, w[1], 0xE8C7B756, 12);
    let v2 = transform_spec(Md5Fn::F, c0, v1, v0, b0, w[2], 0x242070DB, 17);
    let v3 = transform_spec(Md5Fn::F, b0, v2, v1, v0, w[3], 0xC1BDCEEE, 22);
    let v4 = transform_spec(Md5Fn::F, v0, v3, v2, v1, w[4], 0xF57C0FAF, 7);
    let v5 = transform_spec(Md5Fn::F, v1, v4, v3, v2, w[5], 0x4787C62A, 12);
    let v6 = transform_spec(Md5Fn::F, v2, v5, v4, v3, w[6], 0xA8304613, 17);
    let v7 = transform_spec(Md5Fn::F, v3, v6, v5, v4, w[7], 0xFD469501, 22);
    let v8 = transform_spec(Md5Fn::F, v4, v7, v6, v5, w[8], 0x698098D8, 7);
    let v9 = transform_spec(Md5Fn::F, v5, v8, v7, v6, w[9], 0x8B44F7AF, 12);
    let v10 = transform_spec(Md5Fn::F, v6, v9, v8, v7, w[10], 0xFFFF5BB1, 17);
    let v11 = transform_spec(Md5Fn::F, v7, v10, v9, v8, w[11], 0x895CD7BE, 22);
    let v12 = transform_spec(Md5Fn::F, v8, v11, v10, v9, w[12], 0x6B901122, 7);
    let v13 = transform_spec(Md5Fn::F, v9, v12, v11, v10, w[13], 0xFD987193, 12);
    let v14 = transform_spec(Md5Fn::F, v10, v13, v12, v11, w[14], 0xA679438E, 17);
    let v15 = transform_spec(Md5Fn::F, v11, v14, v13, v12, w[15], 0x49B40821, 22);
    let v16 = transform_spec(Md5Fn::G, v12, v15, v14, v13, w[1], 0xF61E2562, 5);
    let v17 = transform_spec(Md5Fn::G, v13, v16, v15, v14, w[6], 0xC040B340, 9);
    let v18 = transform_spec(Md5Fn::G, v14, v17, v16, v15, w[11], 0x265E5A51, 14);
    let v19 = transform_spec(Md5Fn::G, v15, v18, v17, v16, w[0], 0xE9B6C7AA, 20);
    let v20 = transform_spec(Md5Fn::G, v16, v19, v18, v17, w[5], 0xD62F105D, 5);
    let v21 = transform_spec(Md5Fn::G, v17, v20, v19, v18, w[10], 0x02441453, 9);
    let v22 = transform_spec(Md5Fn::G, v18, v21, v20, v19, w[15], 0xD8A1E681, 14);
    let v23 = transform_spec(Md5Fn::G, v19, v22, v21, v20, w[4], 0xE7D3FBC8, 20);
    let v24 = transform_spec(Md5Fn::G, v20, v23, v22, v21, w[9], 0x21E1CDE6, 5);
    let v25 = transform_spec(Md5Fn::G, v21, v24, v23, v22, w[14], 0xC33707D6, 9);
    let v26 = transform_spec(Md5Fn::G, v22, v25, v24, v23, w[3], 0xF4D50D87, 14);
    let v27 = transform_spec(Md5Fn::G, v23, v26, v25, v24, w[8], 0x455A14ED, 20);
    let v28 = transform_spec(Md5Fn::G, v24, v27, v26, v25, w[13], 0xA9E3E905, 5);
    let v29 = transform_spec(Md5Fn::G, v25, v28, v27, v26, w[2], 0xFCEFA3F8, 9);
    let v30 = transform_spec(Md5Fn::G, v26, v29, v28, v27, w[7], 0x676F02D9, 14);
    let v31 = transform_spec(Md5Fn::G, v27, v30, v29, v28, w[12], 0x8D2A4C8A, 20);
    let v32 = transform_spec(Md5Fn::H, v28, v31, v30, v29, w[5], 0xFFFA3942, 4);
    let v33 = transform_spec(Md5Fn::H, v29, v32, v31, v30, w[8], 0x8771F681, 11);
    let v34 = transform_spec(Md5Fn::H, v30, v33, v32, v31, w[11], 0x6D9D6122, 16);
    let v35 = transform_spec(Md5Fn::H, v31, v34, v33, v32, w[14], 0xFDE5380C, 23);
    let v36 = transform_spec(Md5Fn::H, v32, v35, v34, v33, w[1], 0xA4BEEA44, 4);
    let v37 = transform_spec(Md5Fn::H, v33, v36, v35, v34, w[4], 0x4BDECFA9, 11);
    let v38 = transform_spec(Md5Fn::H, v34, v37, v36, v35, w[7], 0xF6BB4B60, 16);
    let v39 = transform_spec(Md5Fn::H, v35, v38, v37, v36, w[10], 0xBEBFBC70, 23);
    let v40 = transform_spec(Md5Fn::H, v36, v39, v38, v37, w[13], 0x289B7EC6, 4);
    let v41 = transform_spec(Md5Fn::H, v37, v40, v39, v38, w[0], 0xEAA127FA, 11);
    let v42 = transform_spec(Md5Fn::H, v38, v41, v40, v39, w[3], 0xD4EF3085, 16);
    let v43 = transform_spec(Md5Fn::H, v39, v42, v41, v40, w[6], 0x04881D05, 23);
    let v44 = transform_spec(Md5Fn::H, v40, v43, v42, v41, w[9], 0xD9D4D039, 4);
    let v45 = transform_spec(Md5Fn::H, v41, v44, v43, v42, w[12], 0xE6DB99E5, 11);
    let v46 = transform_spec(Md5Fn::H, v42, v45, v44, v43, w[15], 0x1FA27CF8, 16);
    let v47 = transform_spec(Md5Fn::H, v43, v46, v45, v44, w[2], 0xC4AC5665, 23);
    let v48 = transform_spec(Md5Fn::I, v44, v47, v46, v45, w[0], 0xF4292244, 6);
    let v49 = transform_spec(Md5Fn::I, v45, v48, v47, v46, w[7], 0x432AFF97, 10);
    let v50 = transform_spec(Md5Fn::I, v46, v49, v48, v47, w[14], 0xAB9423A7, 15);
    let v51 = transform_spec(Md5Fn::I, v47, v50, v49, v48, w[5], 0xFC93A039, 21);
    let v52 = transform_spec(Md5Fn::I, v48, v51, v50, v49, w[12], 0x655B59C3, 6);
    let v53 = transform_spec(Md5Fn::I, v49, v52, v51, v50, w[3], 0x8F0CCC92, 10);
    let v54 = transform_spec(Md5Fn::I, v50, v53, v52, v51, w[10], 0xFFEFF47D, 15);
    let v55 = transform_spec(Md5Fn::I, v51, v54, v53, v52, w[1], 0x85845DD1, 21);
    let v56 = transform_spec(Md5Fn::I, v52, v55, v54, v53, w[8], 0x6FA87E4F, 6);
    let v57 = transform_spec(Md5Fn::I, v53, v56, v55, v54, w[15], 0xFE2CE6E0, 10);
    let v58 = transform_spec(Md5Fn::I, v54, v57, v56, v55, w[6], 0xA3014314, 15);
    let v59 = transform_spec(Md5Fn::I, v55, v58, v57, v56, w[13], 0x4E0811A1, 21);
    let v60 = transform_spec(Md5Fn::I, v56, v59, v58, v57, w[4], 0xF7537E82, 6);
    let v61 = transform_spec(Md5Fn::I, v57, v60, v59, v58, w[11], 0xBD3AF235, 10);
    let v62 = transform_spec(Md5Fn::I, v58, v61, v60, v59, w[2], 0x2AD7D2BB, 15);
    let v63 = transform_spec(Md5Fn::I, v59, v62, v61, v60, w[9], 0xEB86D391, 21);
    (v60, v63, v62, v61)
}

/// Digests one 64-byte block into the chaining state: the 64 steps followed
/// by the feed-forward addition.
#[verifier::rlimit(100)]
pub fn process_block(buf: &[u8], state: &[u32; 4]) -> (r: [u32; 4])
    requires
        buf@.len() >= 64,
    ensures
        ({
            let (ra, rb, rc, rd) = md5_rounds(
                words_of(buf@),
                state@[0],
                state@[1],
                state@[2],
                state@[3],
            );
            &&& r@[0] == wadd_spec(state@[0], ra)
            &&& r@[1] == wadd_spec(state@[1], rb)
            &&& r@[2] == wadd_spec(state@[2], rc)
            &&& r@[3] == wadd_spec(state@[3], rd)
        }),
{
    let mut words: Vec<u32> = Vec::new();
    let mut i: usize = 0;
    while i < 16
        invariant
            buf@.len() >= 64,
            i <= 16,
            words@.len() == i as nat,
            forall|j: int| 0 <= j < i as int ==> words@[j] == words_of(buf@)[j],
        decreases 16 - i,
    {
        let w: u32 = (buf[4 * i] as u32) + (buf[4 * i + 1] as u32) * 0x100 + (buf[4 * i + 2]
            as u32) * 0x1_0000 + (buf[4 * i + 3] as u32) * 0x100_0000;
        words.push(w);
        i += 1;
    }
    let mut a = state[0];
    let mut b = state[1];
    let mut c = state[2];
    let mut d = state[3];
    a = transform(Md5Fn::F, a, b, c, d, words[0], 0xD76AA478, 7);
    d = transform(Md5Fn::F, d, a, b, c, words[1], 0xE8C7B756, 12);
    c = transform(Md5Fn::F, c, d, a, b, words[2], 0x242070DB, 17);
    b = transform(Md5Fn::F, b, c, d, a, words[3], 0xC1BDCEEE, 22);
    a = transform(Md5Fn::F, a, b, c, d, words[4], 0xF57C0FAF, 7);
    d = transform(Md5Fn::F, d, a, b, c, words[5], 0x4787C62A, 12);
    c = transform(Md5Fn::F, c, d, a, b, words[6], 0xA8304613, 17);
    b = transform(Md5Fn::F, b, c, d, a, words[7], 0xFD469501, 22);
    a = transform(Md5Fn::F, a, b, c, d, words[8], 0x698098D8, 7);
    d = transform(Md5Fn::F, d, a, b, c, words[9], 0x8B44F7AF, 12);
    c = transform(Md5Fn::F, c, d, a, b, words[10], 0xFFFF5BB1, 17);
    b = transform(Md5Fn::F, b, c, d, a, words[11], 0x895CD7BE, 22);
    a = transform(Md5Fn::F, a, b, c, d, words[12], 0x6B901122, 7);
    d = transform(Md5Fn::F, d, a, b, c, words[13], 0xFD987193, 12);
    c = transform(Md5Fn::F, c, d, a, b, words[14], 0xA679438E, 17);
    b = transform(Md5Fn::F, b, c, d, a, words[15], 0x49B40821, 22);
    a = transform(Md5Fn::G, a, b, c, d, words[1], 0xF61E2562, 5);
    d = transform(Md5Fn::G, d, a, b, c, words[6], 0xC040B340, 9);
    c = transform(Md5Fn::G, c, d, a, b, words[11], 0x265E5A51, 14);
    b = transform(Md5Fn::G, b, c, d, a, words[0], 0xE9B6C7AA, 20);
    a = transform(Md5Fn::G, a, b, c, d, words[5], 0xD62F105D, 5);
    d = transform(Md5Fn::G, d, a, b, c, words[10], 0x02441453, 9);
    c = transform(Md5Fn::G, c, d, a, b, words[15], 0xD8A1E681, 14);
    b = transform(Md5Fn::G, b, c, d, a, words[4], 0xE7D3FBC8, 20);
    a = transform(Md5Fn::G, a, b, c, d, words[9], 0x21E1CDE6, 5);
    d = transform(Md5Fn::G, d, a, b, c, words[14], 0xC33707D6, 9);
    c = transform(Md5Fn::G, c, d, a, b, words[3], 0xF4D50D87, 14);
    b = transform(Md5Fn::G, b, c, d, a, words[8], 0x455A14ED, 20);
    a = transform(Md5Fn::G, a, b, c, d, words[13], 0xA9E3E905, 5);
    d = transform(Md5Fn::G, d, a, b, c, words[2], 0xFCEFA3F8, 9);
    c = transform(Md5Fn::G, c, d, a, b, words[7], 0x676F02D9, 14);
    b = transform(Md5Fn::G, b, c, d, a, words[12], 0x8D2A4C8A, 20);
    a = transform(Md5Fn::H, a, b, c, d, words[5], 0xFFFA3942, 4);
    d = transform(Md5Fn::H, d, a, b, c, words[8], 0x8771F681, 11);
    c = transform(Md5Fn::H, c, d, a, b, words[11], 0x6D9D6122, 16);
    b = transform(Md5Fn::H, b, c, d, a, words[14], 0xFDE5380C, 23);
    a = transform(Md5Fn::H, a, b, c, d, words[1], 0xA4BEEA44, 4);
    d = transform(Md5Fn::H, d, a, b, c, words[4], 0x4BDECFA9, 11);
    c = transform(Md5Fn::H, c, d, a, b, words[7], 0xF6BB4B60, 16);
    b = transform(Md5Fn::H, b, c, d, a, words[10], 0xBEBFBC70, 23);
    a = transform(Md5Fn::H, a, b, c, d, words[13], 0x289B7EC6, 4);
    d = transform(Md5Fn::H, d, a, b, c, words[0], 0xEAA127FA, 11);
    c = transform(Md5Fn::H, c, d, a, b, words[3], 0xD4EF3085, 16);
    b = transform(Md5Fn::H, b, c, d, a, words[6], 0x04881D05, 23);
    a = transform(Md5Fn::H, a, b, c, d, words[9], 0xD9D4D039, 4);
    d = transform(Md5Fn::H, d, a, b, c, words[12], 0xE6DB99E5, 11);
    c = transform(Md5Fn::H, c, d, a, b, words[15], 0x1FA27CF8, 16);
    b = transform(Md5Fn::H, b, c, d, a, words[2], 0xC4AC5665, 23);
    a = transform(Md5Fn::I, a, b, c, d, words[0], 0xF4292244, 6);
    d = transform(Md5Fn::I, d, a, b, c, words[7], 0x432AFF97, 10);
    c = transform(Md5Fn::I, c, d, a, b, words[14], 0xAB9423A7, 15);
    b = transform(Md5Fn::I, b, c, d, a, words[5], 0xFC93A039, 21);
    a = transform(Md5Fn::I, a, b, c, d, words[12], 0x655B59C3, 6);
    d = transform(Md5Fn::I, d, a, b, c, words[3], 0x8F0CCC92, 10);
    c = transform(Md5Fn::I, c, d, a, b, words[10], 0xFFEFF47D, 15);
    b = transform(Md5Fn::I, b, c, d, a, words[1], 0x85845DD1, 21);
    a = transform(Md5Fn::I, a, b, c, d, words[8], 0x6FA87E4F, 6);
    d = transform(Md5Fn::I, d, a, b, c, words[15], 0xFE2CE6E0, 10);
    c = transform(Md5Fn::I, c, d, a, b, words[6], 0xA3014314, 15);
    b = transform(Md5Fn::I, b, c, d, a, words[13], 0x4E0811A1, 21);
    a = transform(Md5Fn::I, a, b, c, d, words[4], 0xF7537E82, 6);
    d = transform(Md5Fn::I, d, a, b, c, words[11], 0xBD3AF235, 10);
    c = transform(Md5Fn::I, c, d, a, b, words[2], 0x2AD7D2BB, 15);
    b = transform(Md5Fn::I, b, c, d, a, words[9], 0xEB86D391, 21);
    let r = [wadd(state[0], a), wadd(state[1], b), wadd(state[2], c), wadd(state[3], d)];
    r
}


pub const A1_ONE_BITS: u32 = 0x84200000;
pub const A1_ZERO_BITS: u32 = 0x0A000820;
pub const D1_ONE_BITS: u32 = 0x8C000800;
pub const D1_ZERO_BITS: u32 = 0x02208026;
pub const D1_A1_SAME_BITS: u32 = 0x701F10C0;
pub const C1_ONE_BITS: u32 = 0xBE1F0966;
pub const C1_ZERO_BITS: u32 = 0x40201080;
pub const C1_D1_SAME_BITS: u32 = 0x00000018;
pub const B1_ONE_BITS: u32 = 0xBA040010;
pub const B1_ZERO_BITS: u32 = 0x443B19EE;
pub const B1_C1_SAME_BITS: u32 = 0x00000601;
pub const A2_ONE_BITS: u32 = 0x482F0E50;
pub const A2_ZERO_BITS: u32 = 0xB41011AF;
pub const D2_ONE_BITS: u32 = 0x04220C56;
pub const D2_ZERO_BITS: u32 = 0x9A1113A9;
pub const C2_ONE_BITS: u32 = 0x96011E01;
pub const C2_ZERO_BITS: u32 = 0x083201C0;
pub const C2_D2_SAME_BITS: u32 = 0x01808000;
pub const B2_ONE_BITS: u32 = 0x843283C0;
pub const B2_ZERO_BITS: u32 = 0x1B810001;
pub const B2_C2_SAME_BITS: u32 = 0x00000002;
pub const A3_ONE_BITS: u32 = 0x9C0101C1;
pub const A3_ZERO_BITS: u32 = 0x03828202;
pub const A3_B2_SAME_BITS: u32 = 0x00001000;
pub const D3_ONE_BITS: u32 = 0x878383C0;
pub const D3_ZERO_BITS: u32 = 0x00041003;
pub const C3_ONE_BITS: u32 = 0x800583C3;
pub const C3_ZERO_BITS: u32 = 0x00021000;
pub const C3_D3_SAME_BITS: u32 = 0x00086000;
pub const B3_ONE_BITS: u32 = 0x80081080;
pub const B3_ZERO_BITS: u32 = 0x0007E000;
pub const B3_C3_SAME_BITS: u32 = 0x7F000000;
pub const A4_ONE_BITS: u32 = 0x3F0FE008;
pub const A4_ZERO_BITS: u32 = 0xC0000080;
pub const D4_ONE_BITS: u32 = 0x400BE088;
pub const D4_ZERO_BITS: u32 = 0xBF040000;
pub const C4_ONE_BITS: u32 = 0x7D000000;
pub const C4_ZERO_BITS: u32 = 0x82008008;
pub const B4_ONE_BITS: u32 = 0x20000000;
pub const B4_ZERO_BITS: u32 = 0x80000000;
pub const A5_ZERO_BITS: u32 = 0x80020000;
pub const A5_B4_SAME_BITS: u32 = 0x00008008;
pub const D5_ONE_BITS: u32 = 0x00020000;
pub const D5_ZERO_BITS: u32 = 0x80000000;
pub const D5_A5_SAME_BITS: u32 = 0x20000000;
pub const C5_ZERO_BITS: u32 = 0x80020000;
pub const B5_ZERO_BITS: u32 = 0x80000000;
pub const A6_ZERO_BITS: u32 = 0x80000000;
pub const A6_B5_SAME_BITS: u32 = 0x00020000;
pub const D6_ZERO_BITS: u32 = 0x80000000;
pub const C6_ZERO_BITS: u32 = 0x80000000;
pub const B6_C6_DIFFERENT_BITS: u32 = 0x80000000;
pub const PHI34_ONE_BITS: u32 = 0x80000000;
pub const B12_D12_SAME_BITS: u32 = 0x80000000;
pub const A13_C12_SAME_BITS: u32 = 0x80000000;
pub const D13_B12_DIFFERENT_BITS: u32 = 0x80000000;
pub const C13_A13_SAME_BITS: u32 = 0x80000000;
pub const B13_D13_SAME_BITS: u32 = 0x80000000;
pub const A14_C13_SAME_BITS: u32 = 0x80000000;
pub const D14_B13_SAME_BITS: u32 = 0x80000000;
pub const C14_A14_SAME_BITS: u32 = 0x80000000;
pub const B14_D14_SAME_BITS: u32 = 0x80000000;
pub const A15_C14_SAME_BITS: u32 = 0x80000000;
pub const D15_B14_SAME_BITS: u32 = 0x80000000;
pub const C15_A15_SAME_BITS: u32 = 0x80000000;
pub const B15_D15_DIFFERENT_BITS: u32 = 0x80000000;
pub const A16_ONE_BITS: u32 = 0x02000000;
pub const A16_C15_SAME_BITS: u32 = 0x80000000;
pub const D16_ONE_BITS: u32 = 0x02000000;
pub const D16_B15_SAME_BITS: u32 = 0x80000000;
pub const C16_ONE_BITS: u32 = 0x02000000;
pub const C16_A16_SAME_BITS: u32 = 0x80000000;
pub const B16_ONE_BITS: u32 = 0x02000000;

/// The initial MD5 chaining state.
pub const INITIAL_STATE: [u32; 4] = [0x67452301, 0xefcdab89, 0x98badcfe, 0x10325476];

/// The word-difference pattern of the first collision block pair.
pub const M0_DELTA: [u32; 16] = [
    0,
    0,
    0,
    0,
    0x80000000,
    0,
    0,
    0,
    0,
    0,
    0,
    0x8000,
    0,
    0,
    0x80000000,
    0,
];

/// A full two-block collision: the two message halves, their counterparts,
/// and the shared chaining value.
#[derive(Debug, Clone, Copy)]
pub struct Collision {
    pub m0: [u32; 16],
    pub m1: [u32; 16],
    pub m0_prim: [u32; 16],
    pub m1_prim: [u32; 16],
    pub hash: [u32; 4],
}

/// The round-1 message rewrite of the candidate screen: each of the sixteen
/// steps runs the forward transform, forces the prescribed bits of the state
/// word, and recovers the message word that produces the forced state.
pub open spec fn vc_round1_words(st: Seq<u32>, cand: Seq<u32>) -> Seq<u32>
    recommends
        st.len() == 4,
        cand.len() == 16,
{
    let a0 = st[0];
    let b0 = st[1];
    let c0 = st[2];
    let d0 = st[3];
    let v0 = transform_spec(Md5Fn::F, a0, b0, c0, d0, cand[0], 0xD76AA478, 7);
    let v1 = v0 | A1_ONE_BITS;
    let v2 = v1 & !A1_ZERO_BITS;
    let w0 = reverse_transfrom_spec(v2, b0, c0, d0, 0xD76AA478, 7, a0);
    let v3 = transform_spec(Md5Fn::F, d0, v2, b0, c0, cand[1], 0xE8C7B756, 12);
    let v4 = v3 | D1_ONE_BITS;
    let v5 = v4 & !D1_ZERO_BITS;
    let v6 = (v5 | (v2 & D1_A1_SAME_BITS)) & (v2 | !D1_A1_SAME_BITS);
    let w1 = reverse_transfrom_spec(v6, v2, b0, c0, 0xE8C7B756, 12, d0);
    let v7 = transform_spec(Md5Fn::F, c0, v6, v2, b0, cand[2], 0x242070DB, 17);
    let v8 = v7 | C1_ONE_BITS;
    let v9 = v8 & !C1_ZERO_BITS;
    let v10 = (v9 | (v6 & C1_D1_SAME_BITS)) & (v6 | !C1_D1_SAME_BITS);
    let w2 = reverse_transfrom_spec(v10, v6, v2, b0, 0x242070DB, 17, c0);
    let v11 = transform_spec(Md5Fn::F, b0, v10, v6, v2, cand[3], 0xC1BDCEEE, 22);
    let v12 = v11 | B1_ONE_BITS;
    let v13 = v12 & !B1_ZERO_BITS;
    let v14 = (v13 | (v10 & B1_C1_SAME_BITS)) & (v10 | !B1_C1_SAME_BITS);
    let w3 = reverse_transfrom_spec(v14, v10, v6, v2, 0xC1BDCEEE, 22, b0);
    let v15 = transform_spec(Md5Fn::F, v2, v14, v10, v6, cand[4], 0xF57C0FAF, 7);
    let v16 = v15 | A2_ONE_BITS;
    let v17 = v16 & !A2_ZERO_BITS;
    let w4 = reverse_transfrom_spec(v17, v14, v10, v6, 0xF57C0FAF, 7, v2);
    let v18 = transform_spec(Md5Fn::F, v6, v17, v14, v10, cand[5], 0x4787C62A, 12);
    let v19 = v18 | D2_ONE_BITS;
    let v20 = v19 & !D2_ZERO_BITS;
    let w5 = reverse_transfrom_spec(v20, v17, v14, v10, 0x4787C62A, 12, v6);
    let v21 = transform_spec(Md5Fn::F, v10, v20, v17, v14, cand[6], 0xA8304613, 17);
    let v22 = v21 | C2_ONE_BITS;
    let v23 = v22 & !C2_ZERO_BITS;
    let v24 = (v23 | (v20 & C2_D2_SAME_BITS)) & (v20 | !C2_D2_SAME_BITS);
    let w6 = reverse_transfrom_spec(v24, v20, v17, v14, 0xA8304613, 17, v10);
    let v25 = transform_spec(Md5Fn::F, v14, v24, v20, v17, cand[7], 0xFD469501, 22);
    let v26 = v25 | B2_ONE_BITS;
    let v27 = v26 & !B2_ZERO_BITS;
    let v28 = (v27 | (v24 & B2_C2_SAME_BITS)) & (v24 | !B2_C2_SAME_BITS);
    let w7 = reverse_transfrom_spec(v28, v24, v20, v17, 0xFD469501, 22, v14);
    let v29 = transform_spec(Md5Fn::F, v17, v28, v24, v20, cand[8], 0x698098D8, 7);
    let v30 = v29 | A3_ONE_BITS;
    let v31 = v30 & !A3_ZERO_BITS;
    let v32 = (v31 | (v28 & A3_B2_SAME_BITS)) & (v28 | !A3_B2_SAME_BITS);
    let w8 = reverse_transfrom_spec(v32, v28, v24, v20, 0x698098D8, 7, v17);
    let v33 = transform_spec(Md5Fn::F, v20, v32, v28, v24, cand[9], 0x8B44F7AF, 12);
    let v34 = v33 | D3_ONE_BITS;
    let v35 = v34 & !D3_ZERO_BITS;
    let w9 = reverse_transfrom_spec(v35, v32, v28, v24, 0x8B44F7AF, 12, v20);
    let v36 = transform_spec(Md5Fn::F, v24, v35, v32, v28, cand[10], 0xFFFF5BB1, 17);
    let v37 = v36 | C3_ONE_BITS;
    let v38 = v37 & !C3_ZERO_BITS;
    let v39 = (v38 | (v35 & C3_D3_SAME_BITS)) & (v35 | !C3_D3_SAME_BITS);
    let w10 = reverse_transfrom_spec(v39, v35, v32, v28, 0xFFFF5BB1, 17, v24);
    let v40 = transform_spec(Md5Fn::F, v28, v39, v35, v32, cand[11], 0x895CD7BE, 22);
    let v41 = v40 | B3_ONE_BITS;
    let v42 = v41 & !B3_ZERO_BITS;
    let v43 = (v42 | (v39 & B3_C3_SAME_BITS)) & (v39 | !B3_C3_SAME_BITS);
    let w11 = reverse_transfrom_spec(v43, v39, v35, v32, 0x895CD7BE, 22, v28);
    let v44 = transform_spec(Md5Fn::F, v32, v43, v39, v35, cand[12], 0x6B901122, 7);
    let v45 = v44 | A4_ONE_BITS;
    let v46 = v45 & !A4_ZERO_BITS;
    let w12 = reverse_transfrom_spec(v46, v43, v39, v35, 0x6B901122, 7, v32);
    let v47 = transform_spec(Md5Fn::F, v35, v46, v43, v39, cand[13], 0xFD987193, 12);
    let v48 = v47 | D4_ONE_BITS;
    let v49 = v48 & !D4_ZERO_BITS;
    let w13 = reverse_transfrom_spec(v49, v46, v43, v39, 0xFD987193, 12, v35);
    let v50 = transform_spec(Md5Fn::F, v39, v49, v46, v43, cand[14], 0xA679438E, 17);
    let v51 = v50 | C4_ONE_BITS;
    let v52 = v51 & !C4_ZERO_BITS;
    let w14 = reverse_transfrom_spec(v52, v49, v46, v43, 0xA679438E, 17, v39);
    let v53 = transform_spec(Md5Fn::F, v43, v52, v49, v46, cand[15], 0x49B40821, 22);
    let v54 = v53 | B4_ONE_BITS;
    let v55 = v54 & !B4_ZERO_BITS;
    let w15 = reverse_transfrom_spec(v55, v52, v49, v46, 0x49B40821, 22, v43);
    seq![w0, w1, w2, w3, w4, w5, w6, w7, w8, w9, w10, w11, w12, w13, w14, w15]
}

/// Whether the candidate screen accepts: the four-round state chain runs
/// over the candidate with the round-1 bit forcing and word rewriting
/// applied, and every differential bit condition of rounds 2 to 4 must hold
/// on the resulting chaining values.
pub open spec fn vc_accepts(st: Seq<u32>, cand: Seq<u32>) -> bool
    recommends
        st.len() == 4,
        cand.len() == 16,
{
    let w = vc_round1_words(st, cand);
    let a0 = st[0];
    let b0 = st[1];
    let c0 = st[2];
    let d0 = st[3];
    let s0 = transform_spec(Md5Fn::F, a0, b0, c0, d0, cand[0], 0xD76AA478, 7);
    let s1 = s0 | A1_ONE_BITS;
    let s2 = s1 & !A1_ZERO_BITS;
    let s3 = transform_spec(Md5Fn::F, d0, s2, b0, c0, cand[1], 0xE8C7B756, 12);
    let s4 = s3 | D1_ONE_BITS;
    let s5 = s4 & !D1_ZERO_BITS;
    let s6 = (s5 | (s2 & D1_A1_SAME_BITS)) & (s2 | !D1_A1_SAME_BITS);
    let s7 = transform_spec(Md5Fn::F, c0, s6, s2, b0, cand[2], 0x242070DB, 17);
    let s8 = s7 | C1_ONE_BITS;
    let s9 = s8 & !C1_ZERO_BITS;
    let s10 = (s9 | (s6 & C1_D1_SAME_BITS)) & (s6 | !C1_D1_SAME_BITS);
    let s11 = transform_spec(Md5Fn::F, b0, s10, s6, s2, cand[3], 0xC1BDCEEE, 22);
    let s12 = s11 | B1_ONE_BITS;
    let s13 = s12 & !B1_ZERO_BITS;
    let s14 = (s13 | (s10 & B1_C1_SAME_BITS)) & (s10 | !B1_C1_SAME_BITS);
    let s15 = transform_spec(Md5Fn::F, s2, s14, s10, s6, cand[4], 0xF57C0FAF, 7);
    let s16 = s15 | A2_ONE_BITS;
    let s17 = s16 & !A2_ZERO_BITS;
    let s18 = transform_spec(Md5Fn::F, s6, s17, s14, s10, cand[5], 0x4787C62A, 12);
    let s19 = s18 | D2_ONE_BITS;
    let s20 = s19 & !D2_ZERO_BITS;
    let s21 = transform_spec(Md5Fn::F, s10, s20, s17, s14, cand[6], 0xA8304613, 17);
    let s22 = s21 | C2_ONE_BITS;
    let s23 = s22 & !C2_ZERO_BITS;
    let s24 = (s23 | (s20 & C2_D2_SAME_BITS)) & (s20 | !C2_D2_SAME_BITS);
    let s25 = transform_spec(Md5Fn::F, s14, s24, s20, s17, cand[7], 0xFD469501, 22);
    let s26 = s25 | B2_ONE_BITS;
    let s27 = s26 & !B2_ZERO_BITS;
    let s28 = (s27 | (s24 & B2_C2_SAME_BITS)) & (s24 | !B2_C2_SAME_BITS);
    let s29 = transform_spec(Md5Fn::F, s17, s28, s24, s20, cand[8], 0x698098D8, 7);
    let s30 = s29 | A3_ONE_BITS;
    let s31 = s30 & !A3_ZERO_BITS;
    let s32 = (s31 | (s28 & A3_B2_SAME_BITS)) & (s28 | !A3_B2_SAME_BITS);
    let s33 = transform_spec(Md5Fn::F, s20, s32, s28, s24, cand[9], 0x8B44F7AF, 12);
    let s34 = s33 | D3_ONE_BITS;
    let s35 = s34 & !D3_ZERO_BITS;
    let s36 = transform_spec(Md5Fn::F, s24, s35, s32, s28, cand[10], 0xFFFF5BB1, 17);
    let s37 = s36 | C3_ONE_BITS;
    let s38 = s37 & !C3_ZERO_BITS;
    let s39 = (s38 | (s35 & C3_D3_SAME_BITS)) & (s35 | !C3_D3_SAME_BITS);
    let s40 = transform_spec(Md5Fn::F, s28, s39, s35, s32, cand[11], 0x895CD7BE, 22);
    let s41 = s40 | B3_ONE_BITS;
    let s42 = s41 & !B3_ZERO_BITS;
    let s43 = (s42 | (s39 & B3_C3_SAME_BITS)) & (s39 | !B3_C3_SAME_BITS);
    let s44 = transform_spec(Md5Fn::F, s32, s43, s39, s35, cand[12], 0x6B901122, 7);
    let s45 = s44 | A4_ONE_BITS;
    let s46 = s45 & !A4_ZERO_BITS;
    let s47 = transform_spec(Md5Fn::F, s35, s46, s43, s39, cand[13], 0xFD987193, 12);
    let s48 = s47 | D4_ONE_BITS;
    let s49 = s48 & !D4_ZERO_BITS;
    let s50 = transform_spec(Md5Fn::F, s39, s49, s46, s43, cand[14], 0xA679438E, 17);
    let s51 = s50 | C4_ONE_BITS;
    let s52 = s51 & !C4_ZERO_BITS;
    let s53 = transform_spec(Md5Fn::F, s43, s52, s49, s46, cand[15], 0x49B40821, 22);
    let s54 = s53 | B4_ONE_BITS;
    let s55 = s54 & !B4_ZERO_BITS;
    let s56 = transform_spec(Md5Fn::G, s46, s55, s52, s49, w[1], 0xF61E2562, 5);
    let s57 = transform_spec(Md5Fn::G, s49, s56, s55, s52, w[6], 0xC040B340, 9);
    let s58 = transform_spec(Md5Fn::G, s52, s57, s56, s55, w[11], 0x265E5A51, 14);
    let s59 = transform_spec(Md5Fn::G, s55, s58, s57, s56, w[0], 0xE9B6C7AA, 20);
    let s60 = transform_spec(Md5Fn::G, s56, s59, s58, s57, w[5], 0xD62F105D, 5);
    let s61 = transform_spec(Md5Fn::G, s57, s60, s59, s58, w[10], 0x02441453, 9);
    let s62 = transform_spec(Md5Fn::G, s58, s61, s60, s59, w[15], 0xD8A1E681, 14);
    let s63 = transform_spec(Md5Fn::G, s59, s62, s61, s60, w[4], 0xE7D3FBC8, 20);
    let s64 = transform_spec(Md5Fn::G, s60, s63, s62, s61, w[9], 0x21E1CDE6, 5);
    let s65 = transform_spec(Md5Fn::G, s61, s64, s63, s62, w[14], 0xC33707D6, 9);
    let s66 = transform_spec(Md5Fn::G, s62, s65, s64, s63, w[3], 0xF4D50D87, 14);
    let s67 = transform_spec(Md5Fn::G, s63, s66, s65, s64, w[8], 0x455A14ED, 20);
    let s68 = transform_spec(Md5Fn::G, s64, s67, s66, s65, w[13], 0xA9E3E905, 5);
    let s69 = transform_spec(Md5Fn::G, s65, s68, s67, s66, w[2], 0xFCEFA3F8, 9);
    let s70 = transform_spec(Md5Fn::G, s66, s69, s68, s67, w[7], 0x676F02D9, 14);
    let s71 = transform_spec(Md5Fn::G, s67, s70, s69, s68, w[12], 0x8D2A4C8A, 20);
    let s72 = transform_spec(Md5Fn::H, s68, s71, s70, s69, w[5], 0xFFFA3942, 4);
    let s73 = transform_spec(Md5Fn::H, s69, s72, s71, s70, w[8], 0x8771F681, 11);
    let s74 = transform_spec(Md5Fn::H, s70, s73, s72, s71, w[11], 0x6D9D6122, 16);
    let s75 = transform_spec(Md5Fn::H, s71, s74, s73, s72, w[14], 0xFDE5380C, 23);
    let s76 = transform_spec(Md5Fn::H, s72, s75, s74, s73, w[1], 0xA4BEEA44, 4);
    let s77 = transform_spec(Md5Fn::H, s73, s76, s75, s74, w[4], 0x4BDECFA9, 11);
    let s78 = transform_spec(Md5Fn::H, s74, s77, s76, s75, w[7], 0xF6BB4B60, 16);
    let s79 = transform_spec(Md5Fn::H, s75, s78, s77, s76, w[10], 0xBEBFBC70, 23);
    let s80 = transform_spec(Md5Fn::H, s76, s79, s78, s77, w[13], 0x289B7EC6, 4);
    let s81 = transform_spec(Md5Fn::H, s77, s80, s79, s78, w[0], 0xEAA127FA, 11);
    let s82 = transform_spec(Md5Fn::H, s78, s81, s80, s79, w[3], 0xD4EF3085, 16);
    let s83 = transform_spec(Md5Fn::H, s79, s82, s81, s80, w[6], 0x04881D05, 23);
    let s84 = transform_spec(Md5Fn::H, s80, s83, s82, s81, w[9], 0xD9D4D039, 4);
    let s85 = transform_spec(Md5Fn::H, s81, s84, s83, s82, w[12], 0xE6DB99E5, 11);
    let s86 = transform_spec(Md5Fn::H, s82, s85, s84, s83, w[15], 0x1FA27CF8, 16);
    let s87 = transform_spec(Md5Fn::H, s83, s86, s85, s84, w[2], 0xC4AC5665, 23);
    let s88 = transform_spec(Md5Fn::I, s84, s87, s86, s85, w[0], 0xF4292244, 6);
    let s89 = transform_spec(Md5Fn::I, s85, s88, s87, s86, w[7], 0x432AFF97, 10);
    let s90 = transform_spec(Md5Fn::I, s86, s89, s88, s87, w[14], 0xAB9423A7, 15);
    let s91 = transform_spec(Md5Fn::I, s87, s90, s89, s88, w[5], 0xFC93A039, 21);
    let s92 = transform_spec(Md5Fn::I, s88, s91, s90, s89, w[12], 0x655B59C3, 6);
    let s93 = transform_spec(Md5Fn::I, s89, s92, s91, s90, w[3], 0x8F0CCC92, 10);
    let s94 = transform_spec(Md5Fn::I, s90, s93, s92, s91, w[10], 0xFFEFF47D, 15);
    let s95 = transform_spec(Md5Fn::I, s91, s94, s93, s92, w[1], 0x85845DD1, 21);
    let s96 = transform_spec(Md5Fn::I, s92, s95, s94, s93, w[8], 0x6FA87E4F, 6);
    let s97 = transform_spec(Md5Fn::I, s93, s96, s95, s94, w[15], 0xFE2CE6E0, 10);
    let s98 = transform_spec(Md5Fn::I, s94, s97, s96, s95, w[6], 0xA3014314, 15);
    let s99 = transform_spec(Md5Fn::I, s95, s98, s97, s96, w[13], 0x4E0811A1, 21);
    let s100 = transform_spec(Md5Fn::I, s96, s99, s98, s97, w[4], 0xF7537E82, 6);
    let s101 = transform_spec(Md5Fn::I, s97, s100, s99, s98, w[11], 0xBD3AF235, 10);
    &&& (s56 & A5_ZERO_BITS) == 0
    &&& (s56 & A5_B4_SAME_BITS) == (s55 & A5_B4_SAME_BITS)
    &&& (s57 & D5_ZERO_BITS) == 0
    &&& (s57 & D5_ONE_BITS) == D5_ONE_BITS
    &&& (s57 & D5_A5_SAME_BITS) == (s56 & D5_A5_SAME_BITS)
    &&& (s58 & C5_ZERO_BITS) == 0
    &&& (s59 & B5_ZERO_BITS) == 0
    &&& (s60 & A6_ZERO_BITS) == 0
    &&& (s60 & A6_B5_SAME_BITS) == (s59 & A6_B5_SAME_BITS)
    &&& (s61 & D6_ZERO_BITS) == 0
    &&& (s62 & C6_ZERO_BITS) == 0
    &&& (s63 & B6_C6_DIFFERENT_BITS) != (s62 & B6_C6_DIFFERENT_BITS)
    &&& (s85 & B12_D12_SAME_BITS) == (s87 & B12_D12_SAME_BITS)
    &&& (s88 & A13_C12_SAME_BITS) == (s86 & A13_C12_SAME_BITS)
    &&& (s89 & D13_B12_DIFFERENT_BITS) != (s87 & D13_B12_DIFFERENT_BITS)
    &&& (s90 & C13_A13_SAME_BITS) == (s88 & C13_A13_SAME_BITS)
    &&& (s91 & B13_D13_SAME_BITS) == (s89 & B13_D13_SAME_BITS)
    &&& (s92 & A14_C13_SAME_BITS) == (s90 & A14_C13_SAME_BITS)
    &&& (s93 & D14_B13_SAME_BITS) == (s91 & D14_B13_SAME_BITS)
    &&& (s94 & C14_A14_SAME_BITS) == (s92 & C14_A14_SAME_BITS)
    &&& (s95 & B14_D14_SAME_BITS) == (s93 & B14_D14_SAME_BITS)
    &&& (s96 & A15_C14_SAME_BITS) == (s94 & A15_C14_SAME_BITS)
    &&& (s97 & D15_B14_SAME_BITS) == (s95 & D15_B14_SAME_BITS)
    &&& (s98 & C15_A15_SAME_BITS) == (s96 & C15_A15_SAME_BITS)
    &&& (s99 & B15_D15_DIFFERENT_BITS) != (s97 & B15_D15_DIFFERENT_BITS)
    &&& (s100 & A16_ONE_BITS) == A16_ONE_BITS
    &&& (s100 & A16_C15_SAME_BITS) == (s98 & A16_C15_SAME_BITS)
    &&& (s101 & D16_ONE_BITS) == D16_ONE_BITS
    &&& (s101 & D16_B15_SAME_BITS) == (s99 & D16_B15_SAME_BITS)
}

/// Screens a candidate second block: rewrites the round-1 message words so
/// the prescribed bit conditions hold, then checks the remaining conditions
/// on rounds 2 to 4 and returns the rewritten words when they all pass.
#[verifier::rlimit(100)]
pub fn validate_candiate(state: &[u32; 4], candidate: [u32; 16]) -> (r: Option<[u32; 16]>)
    ensures
        r is Some <==> vc_accepts(state@, candidate@),
        r is Some ==> r->0@ == vc_round1_words(state@, candidate@),
{
    let mut words: Vec<u32> = Vec::new();
    let mut ci: usize = 0;
    while ci < 16
        invariant
            ci <= 16,
            words@.len() == ci as nat,
            forall|j: int| 0 <= j < ci as int ==> words@[j] == candidate@[j],
        decreases 16 - ci,
    {
        words.push(candidate[ci]);
        ci += 1;
    }

    let mut a = state[0];
    let mut b = state[1];
    let mut c = state[2];
    let mut d = state[3];

    //  round 1

    //  a1
    let mut orig = a;
    a = transform(Md5Fn::F, a, b, c, d, words[0], 0xD76AA478, 7);
    a = apply_one_bits(a, A1_ONE_BITS);
    a = apply_zero_bits(a, A1_ZERO_BITS);
    words[0] = reverse_transfrom(a, b, c, d, 0xD76AA478, 7, orig);

    // d1
    orig = d;
    d = transform(Md5Fn::F, d, a, b, c, words[1], 0xE8C7B756, 12);
    d = apply_one_bits(d, D1_ONE_BITS);
    d = apply_zero_bits(d, D1_ZERO_BITS);
    d = apply_same_bits(d, a, D1_A1_SAME_BITS);
    words[1] = reverse_transfrom(d, a, b, c, 0xE8C7B756, 12, orig);

    // c1
    orig = c;
    c = transform(Md5Fn::F, c, d, a, b, words[2], 0x242070DB, 17);
    c = apply_one_bits(c, C1_ONE_BITS);
    c = apply_zero_bits(c, C1_ZERO_BITS);
    c = apply_same_bits(c, d, C1_D1_SAME_BITS);
    words[2] = reverse_transfrom(c, d, a, b, 0x242070DB, 17, orig);

    // b1
    orig = b;
    b = transform(Md5Fn::F, b, c, d, a, words[3], 0xC1BDCEEE, 22);
    b = apply_one_bits(b, B1_ONE_BITS);
    b = apply_zero_bits(b, B1_ZERO_BITS);
    b = apply_same_bits(b, c, B1_C1_SAME_BITS);
    words[3] = reverse_transfrom(b, c, d, a, 0xC1BDCEEE, 22, orig);

    // a2
    orig = a;
    a = transform(Md5Fn::F, a, b, c, d, words[4], 0xF57C0FAF, 7);
    a = apply_one_bits(a, A2_ONE_BITS);
    a = apply_zero_bits(a, A2_ZERO_BITS);
    words[4] = reverse_transfrom(a, b, c, d, 0xF57C0FAF, 7, orig);

    // d2
    orig = d;
    d = transform(Md5Fn::F, d, a, b, c, words[5], 0x4787C62A, 12);
    d = apply_one_bits(d, D2_ONE_BITS);
    d = apply_zero_bits(d, D2_ZERO_BITS);
    words[5] = reverse_transfrom(d, a, b, c, 0x4787C62A, 12, orig);

    // c2
    orig = c;
    c = transform(Md5Fn::F, c, d, a, b, words[6], 0xA8304613, 17);
    c = apply_one_bits(c, C2_ONE_BITS);
    c = apply_zero_bits(c, C2_ZERO_BITS);
    c = apply_same_bits(c, d, C2_D2_SAME_BITS);
    words[6] = reverse_transfrom(c, d, a, b, 0xA8304613, 17, orig);

    // b2
    orig = b;
    b = transform(Md5Fn::F, b, c, d, a, words[7], 0xFD469501, 22);
    b = apply_one_bits(b, B2_ONE_BITS);
    b = apply_zero_bits(b, B2_ZERO_BITS);
    b = apply_same_bits(b, c, B2_C2_SAME_BITS);
    words[7] = reverse_transfrom(b, c, d, a, 0xFD469501, 22, orig);

    // a3
    orig = a;
    a = transform(Md5Fn::F, a, b, c, d, words[8], 0x698098D8, 7);
    a = apply_one_bits(a, A3_ONE_BITS);
    a = apply_zero_bits(a, A3_ZERO_BITS);
    a = apply_same_bits(a, b, A3_B2_SAME_BITS);
    words[8] = reverse_transfrom(a, b, c, d, 0x698098D8, 7, orig);

    // d3
    orig = d;
    d = transform(Md5Fn::F, d, a, b, c, words[9], 0x8B44F7AF, 12);
    d = apply_one_bits(d, D3_ONE_BITS);
    d = apply_zero_bits(d, D3_ZERO_BITS);
    words[9] = reverse_transfrom(d, a, b, c, 0x8B44F7AF, 12, orig);

    // c3
    orig = c;
    c = transform(Md5Fn::F, c, d, a, b, words[10], 0xFFFF5BB1, 17);
    c = apply_one_bits(c, C3_ONE_BITS);
    c = apply_zero_bits(c, C3_ZERO_BITS);
    c = apply_same_bits(c, d, C3_D3_SAME_BITS);
    words[10] = reverse_transfrom(c, d, a, b, 0xFFFF5BB1, 17, orig);

    // b3
    orig = b;
    b = transform(Md5Fn::F, b, c, d, a, words[11], 0x895CD7BE, 22);
    b = apply_one_bits(b, B3_ONE_BITS);
    b = apply_zero_bits(b, B3_ZERO_BITS);
    b = apply_same_bits(b, c, B3_C3_SAME_BITS);
    words[11] = reverse_transfrom(b, c, d, a, 0x895CD7BE, 22, orig);

    // a4
    orig = a;
    a = transform(Md5Fn::F, a, b, c, d, words[12], 0x6B901122, 7);
    a = apply_one_bits(a, A4_ONE_BITS);
    a = apply_zero_bits(a, A4_ZERO_BITS);
    words[12] = reverse_transfrom(a, b, c, d, 0x6B901122, 7, orig);

    // d4
    orig = d;
    d = transform(Md5Fn::F, d, a, b, c, words[13], 0xFD987193, 12);
    d = apply_one_bits(d, D4_ONE_BITS);
    d = apply_zero_bits(d, D4_ZERO_BITS);
    words[13] = reverse_transfrom(d, a, b, c, 0xFD987193, 12, orig);

    // c4
    orig = c;
    c = transform(Md5Fn::F, c, d, a, b, words[14], 0xA679438E, 17);
    c = apply_one_bits(c, C4_ONE_BITS);
    c = apply_zero_bits(c, C4_ZERO_BITS);
    words[14] = reverse_transfrom(c, d, a, b, 0xA679438E, 17, orig);

    // b4
    orig = b;
    b = transform(Md5Fn::F, b, c, d, a, words[15], 0x49B40821, 22);
    b = apply_one_bits(b, B4_ONE_BITS);
    b = apply_zero_bits(b, B4_ZERO_BITS);
    words[15] = reverse_transfrom(b, c, d, a, 0x49B40821, 22, orig);

    // round 2

    // a5
    a = transform(Md5Fn::G, a, b, c, d, words[1], 0xF61E2562, 5);
    if a & A5_ZERO_BITS != 0 {
        return None;
    }
    if a & A5_B4_SAME_BITS != b & A5_B4_SAME_BITS {
        return None;
    }

    // d5
    d = transform(Md5Fn::G, d, a, b, c, words[6], 0xC040B340, 9);
    if d & D5_ZERO_BITS != 0 {
        return None;
    }
    if d & D5_ONE_BITS != D5_ONE_BITS {
        return None;
    }
    if d & D5_A5_SAME_BITS != a & D5_A5_SAME_BITS {
        return None;
    }

    // c5
    c = transform(Md5Fn::G, c, d, a, b, words[11], 0x265E5A51, 14);
    if c & C5_ZERO_BITS != 0 {
        return None;
    }

    // b5
    b = transform(Md5Fn::G, b, c, d, a, words[0], 0xE9B6C7AA, 20);
    if b & B5_ZERO_BITS != 0 {
        return None;
    }

    // a6
    a = transform(Md5Fn::G, a, b, c, d, words[5], 0xD62F105D, 5);
    if a & A6_ZERO_BITS != 0 {
        return None;
    }
    if a & A6_B5_SAME_BITS != b & A6_B5_SAME_BITS {
        return None;
    }

    // d6
    d = transform(Md5Fn::G, d, a, b, c, words[10], 0x02441453, 9);
    if d & D6_ZERO_BITS != 0 {
        return None;
    }

    // c6
    c = transform(Md5Fn::G, c, d, a, b, words[15], 0xD8A1E681, 14);
    if c & C6_ZERO_BITS != 0 {
        return None;
    }

    // b6
    b = transform(Md5Fn::G, b, c, d, a, words[4], 0xE7D3FBC8, 20);
    if b & B6_C6_DIFFERENT_BITS == c & B6_C6_DIFFERENT_BITS {
        return None;
    }

    a = transform(Md5Fn::G, a, b, c, d, words[9], 0x21E1CDE6, 5);
    d = transform(Md5Fn::G, d, a, b, c, words[14], 0xC33707D6, 9);
    c = transform(Md5Fn::G, c, d, a, b, words[3], 0xF4D50D87, 14);
    b = transform(Md5Fn::G, b, c, d, a, words[8], 0x455A14ED, 20);

    a = transform(Md5Fn::G, a, b, c, d, words[13], 0xA9E3E905, 5);
    d = transform(Md5Fn::G, d, a, b, c, words[2], 0xFCEFA3F8, 9);
    c = transform(Md5Fn::G, c, d, a, b, words[7], 0x676F02D9, 14);
    b = transform(Md5Fn::G, b, c, d, a, words[12], 0x8D2A4C8A, 20);

    // round 3
    a = transform(Md5Fn::H, a, b, c, d, words[5], 0xFFFA3942, 4);
    d = transform(Md5Fn::H, d, a, b, c, words[8], 0x8771F681, 11);
    c = transform(Md5Fn::H, c, d, a, b, words[11], 0x6D9D6122, 16);
    b = transform(Md5Fn::H, b, c, d, a, words[14], 0xFDE5380C, 23);

    a = transform(Md5Fn::H, a, b, c, d, words[1], 0xA4BEEA44, 4);
    d = transform(Md5Fn::H, d, a, b, c, words[4], 0x4BDECFA9, 11);
    c = transform(Md5Fn::H, c, d, a, b, words[7], 0xF6BB4B60, 16);
    b = transform(Md5Fn::H, b, c, d, a, words[10], 0xBEBFBC70, 23);

    a = transform(Md5Fn::H, a, b, c, d, words[13], 0x289B7EC6, 4);
    d = transform(Md5Fn::H, d, a, b, c, words[0], 0xEAA127FA, 11);
    c = transform(Md5Fn::H, c, d, a, b, words[3], 0xD4EF3085, 16);
    b = transform(Md5Fn::H, b, c, d, a, words[6], 0x04881D05, 23);

    a = transform(Md5Fn::H, a, b, c, d, words[9], 0xD9D4D039, 4);
    d = transform(Md5Fn::H, d, a, b, c, words[12], 0xE6DB99E5, 11);
    c = transform(Md5Fn::H, c, d, a, b, words[15], 0x1FA27CF8, 16);
    // b12
    b = transform(Md5Fn::H, b, c, d, a, words[2], 0xC4AC5665, 23);
    if d & B12_D12_SAME_BITS != b & B12_D12_SAME_BITS {
        return None;
    }

    // round 4

    // a13
    a = transform(Md5Fn::I, a, b, c, d, words[0], 0xF4292244, 6);
    if a & A13_C12_SAME_BITS != c & A13_C12_SAME_BITS {
        return None;
    }

    // d13
    d = transform(Md5Fn::I, d, a, b, c, words[7], 0x432AFF97, 10);
    if d & D13_B12_DIFFERENT_BITS == b & D13_B12_DIFFERENT_BITS {
        return None;
    }

    // c13
    c = transform(Md5Fn::I, c, d, a, b, words[14], 0xAB9423A7, 15);
    if c & C13_A13_SAME_BITS != a & C13_A13_SAME_BITS {
        return None;
    }

    // b13
    b = transform(Md5Fn::I, b, c, d, a, words[5], 0xFC93A039, 21);
    if b & B13_D13_SAME_BITS != d & B13_D13_SAME_BITS {
        return None;
    }

    // a14
    a = transform(Md5Fn::I, a, b, c, d, words[12], 0x655B59C3, 6);
    if a & A14_C13_SAME_BITS != c & A14_C13_SAME_BITS {
        return None;
    }

    // d14
    d = transform(Md5Fn::I, d, a, b, c, words[3], 0x8F0CCC92, 10);
    if d & D14_B13_SAME_BITS != b & D14_B13_SAME_BITS {
        return None;
    }

    // c14
    c = transform(Md5Fn::I, c, d, a, b, words[10], 0xFFEFF47D, 15);
    if c & C14_A14_SAME_BITS != a & C14_A14_SAME_BITS {
        return None;
    }

    // b14
    b = transform(Md5Fn::I, b, c, d, a, words[1], 0x85845DD1, 21);
    if b & B14_D14_SAME_BITS != d & B14_D14_SAME_BITS {
        return None;
    }

    // a15
    a = transform(Md5Fn::I, a, b, c, d, words[8], 0x6FA87E4F, 6);
    if a & A15_C14_SAME_BITS != c & A15_C14_SAME_BITS {
        return None;
    }

    // d15
    d = transform(Md5Fn::I, d, a, b, c, words[15], 0xFE2CE6E0, 10);
    if d & D15_B14_SAME_BITS != b & D15_B14_SAME_BITS {
        return None;
    }

    // c15
    c = transform(Md5Fn::I, c, d, a, b, words[6], 0xA3014314, 15);
    if c & C15_A15_SAME_BITS != a & C15_A15_SAME_BITS {
        return None;
    }

    // b15
    b = transform(Md5Fn::I, b, c, d, a, words[13], 0x4E0811A1, 21);
    if b & B15_D15_DIFFERENT_BITS == d & B15_D15_DIFFERENT_BITS {
        return None;
    }

    // a16
    a = transform(Md5Fn::I, a, b, c, d, words[4], 0xF7537E82, 6);
    if a & A16_ONE_BITS != A16_ONE_BITS {
        return None;
    }
    if a & A16_C15_SAME_BITS != c & A16_C15_SAME_BITS {
        return None;
    }

    // d16
    d = transform(Md5Fn::I, d, a, b, c, words[11], 0xBD3AF235, 10);
    if d & D16_ONE_BITS != D16_ONE_BITS {
        return None;
    }
    if d & D16_B15_SAME_BITS != b & D16_B15_SAME_BITS {
        return None;
    }

    proof {
        assert(words@ =~= vc_round1_words(state@, candidate@));
    }
    Some(
        [
            words[0],
            words[1],
            words[2],
            words[3],
            words[4],
            words[5],
            words[6],
            words[7],
            words[8],
            words[9],
            words[10],
            words[11],
            words[12],
            words[13],
            words[14],
            words[15],
        ],
    )
}


/// Digests a sequence of 32-bit words with the block pipeline: the words are
/// serialized little-endian, split into 512-byte chunks whose first 64 bytes
/// each form one block, and the trailing chunk is padded with a marker byte,
/// zeros, and the bit length before its first 64 bytes are digested.
pub fn hash(state: &[u32; 4], input: &[u32]) -> (r: [u32; 4])
    requires
        input@.len() * 4 <= usize::MAX,
        input@.len() * 32 <= u64::MAX,
    ensures
        // For a single-block input the digest is exactly one compression of
        // its sixteen words.
        input@.len() == 16 ==> ({
            let (ra, rb, rc, rd) = md5_rounds(
                input@,
                state@[0],
                state@[1],
                state@[2],
                state@[3],
            );
            &&& r@[0] == wadd_spec(state@[0], ra)
            &&& r@[1] == wadd_spec(state@[1], rb)
            &&& r@[2] == wadd_spec(state@[2], rc)
            &&& r@[3] == wadd_spec(state@[3], rd)
        }),
{
    let mut bytes: Vec<u8> = Vec::new();
    let mut i: usize = 0;
    while i < input.len()
        invariant
            input@.len() * 4 <= usize::MAX,
            i <= input@.len(),
            bytes@.len() == 4 * i as nat,
            forall|j: int|
                0 <= j < i as int ==> {
                    &&& #[trigger] bytes@[4 * j] == (input@[j] & 0xFF) as u8
                    &&& bytes@[4 * j + 1] == ((input@[j] >> 8) & 0xFF) as u8
                    &&& bytes@[4 * j + 2] == ((input@[j] >> 16) & 0xFF) as u8
                    &&& bytes@[4 * j + 3] == ((input@[j] >> 24) & 0xFF) as u8
                },
        decreases input@.len() - i,
    {
        let w = input[i];
        bytes.push((w & 0xFF) as u8);
        bytes.push(((w >> 8) & 0xFF) as u8);
        bytes.push(((w >> 16) & 0xFF) as u8);
        bytes.push(((w >> 24) & 0xFF) as u8);
        i += 1;
    }
    let mut st: [u32; 4] = [state[0], state[1], state[2], state[3]];
    let total = bytes.len();
    let mut pos: usize = 0;
    let mut count: usize = 0;
    while pos < total
        invariant
            total == bytes@.len(),
            total * 8 <= u64::MAX,
            pos <= total,
            count == pos,
            input@.len() == 16 ==> total == 64,
            input@.len() == 16 ==> forall|j: int|
                0 <= j < 16 ==> {
                    &&& #[trigger] bytes@[4 * j] == (input@[j] & 0xFF) as u8
                    &&& bytes@[4 * j + 1] == ((input@[j] >> 8) & 0xFF) as u8
                    &&& bytes@[4 * j + 2] == ((input@[j] >> 16) & 0xFF) as u8
                    &&& bytes@[4 * j + 3] == ((input@[j] >> 24) & 0xFF) as u8
                },
            input@.len() == 16 ==> ((pos == 0 && st@ =~= state@) || (pos == 64 && ({
                let (ra, rb, rc, rd) = md5_rounds(
                    input@,
                    state@[0],
                    state@[1],
                    state@[2],
                    state@[3],
                );
                &&& st@[0] == wadd_spec(state@[0], ra)
                &&& st@[1] == wadd_spec(state@[1], rb)
                &&& st@[2] == wadd_spec(state@[2], rc)
                &&& st@[3] == wadd_spec(state@[3], rd)
            }))),
        decreases total - pos,
    {
        let res = if total - pos >= 512 {
            512
        } else {
            total - pos
        };
        count = count + res;
        if res != 512 {
            // The last chunk: append the padding marker, zeros up to eight
            // bytes short of a block multiple, and the bit length.
            let size: usize = 64 - (res % 64);
            let padding_to_add: usize = if size < 8 {
                size + 56
            } else {
                size - 8
            };
            let mut buf2: Vec<u8> = Vec::new();
            let mut j: usize = 0;
            while j < res
                invariant
                    total == bytes@.len(),
                    pos + res <= total,
                    j <= res,
                    buf2@.len() == j as nat,
                    forall|j2: int| 0 <= j2 < j as int ==> buf2@[j2] == bytes@[pos + j2],
                decreases res - j,
            {
                buf2.push(bytes[pos + j]);
                j += 1;
            }
            buf2.push(0x80);
            let mut z: usize = 1;
            while z < padding_to_add
                invariant
                    1 <= z,
                    z <= padding_to_add || z == 1,
                    total == bytes@.len(),
                    pos + res <= total,
                    buf2@.len() == res as nat + z as nat,
                    forall|j2: int| 0 <= j2 < res as int ==> buf2@[j2] == bytes@[pos + j2],
                decreases padding_to_add - z,
            {
                buf2.push(0);
                z += 1;
            }
            let ghost zdone = buf2@.len();
            let bitsize: u64 = (count as u64) * 8;
            let mut bi: usize = 0;
            while bi < 8
                invariant
                    bi <= 8,
                    total == bytes@.len(),
                    pos + res <= total,
                    buf2@.len() == zdone + bi as nat,
                    zdone >= res as nat + 1,
                    zdone >= res as nat + padding_to_add as nat,
                    forall|j2: int| 0 <= j2 < res as int ==> buf2@[j2] == bytes@[pos + j2],
                decreases 8 - bi,
            {
                buf2.push(((bitsize >> ((8 * bi) as u64)) & 0xFF) as u8);
                bi += 1;
            }
            proof {
                assert(res % 64 <= res);
                if padding_to_add >= 1 {
                    assert(buf2@.len() >= res as nat + padding_to_add as nat + 8);
                } else {
                    assert(res % 64 == 56);
                    assert(buf2@.len() >= res as nat + 9);
                }
                assert(buf2@.len() >= 64);
                if input@.len() == 16 {
                    // The block's sixteen words recompose the input words.
                    assert forall|j: int| 0 <= j < 16 implies #[trigger] words_of(buf2@)[j]
                        == input@[j] by {
                        let w = input@[j];
                        assert(pos == 0);
                        assert(buf2@[4 * j] == bytes@[pos + 4 * j]);
                        assert(buf2@[4 * j + 1] == bytes@[pos + (4 * j + 1)]);
                        assert(buf2@[4 * j + 2] == bytes@[pos + (4 * j + 2)]);
                        assert(buf2@[4 * j + 3] == bytes@[pos + (4 * j + 3)]);
                        assert(bytes@[4 * j] == (w & 0xFF) as u8);
                        assert(bytes@[4 * j + 1] == ((w >> 8) & 0xFF) as u8);
                        assert(bytes@[4 * j + 2] == ((w >> 16) & 0xFF) as u8);
                        assert(bytes@[4 * j + 3] == ((w >> 24) & 0xFF) as u8);
                        assert(buf2@[4 * j] == (w & 0xFF) as u8);
                        assert(buf2@[4 * j + 1] == ((w >> 8) & 0xFF) as u8);
                        assert(buf2@[4 * j + 2] == ((w >> 16) & 0xFF) as u8);
                        assert(buf2@[4 * j + 3] == ((w >> 24) & 0xFF) as u8);
                        assert((w & 0xFF) < 256 && ((w >> 8) & 0xFF) < 256 && ((w >> 16) & 0xFF)
                            < 256 && ((w >> 24) & 0xFF) < 256) by (bit_vector);
                        assert(w == (w & 0xFF) + ((w >> 8) & 0xFF) * 0x100 + ((w >> 16) & 0xFF)
                            * 0x1_0000 + ((w >> 24) & 0xFF) * 0x100_0000) by (bit_vector);
                    }
                    assert(words_of(buf2@) =~= input@);
                }
            }
            st = process_block(buf2.as_slice(), &st);
            pos = pos + res;
        } else {
            let mut chunk: Vec<u8> = Vec::new();
            let mut j: usize = 0;
            while j < 64
                invariant
                    total == bytes@.len(),
                    pos + 512 <= total,
                    j <= 64,
                    chunk@.len() == j as nat,
                decreases 64 - j,
            {
                chunk.push(bytes[pos + j]);
                j += 1;
            }
            st = process_block(chunk.as_slice(), &st);
            pos = pos + 512;
        }
    }
    st
}

} // verus!
