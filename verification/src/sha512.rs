//! SHA-512 (FIPS 180-4) over byte strings, and its lowercase hexadecimal digest.
use vstd::prelude::*;
use crate::hex::{pad_hex, push_hex_padded};

verus! {

/// Addition modulo 2^64.
pub open spec fn add64(x: u64, y: u64) -> u64 {
    ((x as nat + y as nat) % 0x1_0000_0000_0000_0000) as u64
}

/// Rotation right by `n`, for `0 < n < 64`.
pub open spec fn rotr64(x: u64, n: u32) -> u64 {
    (x >> n) | (x << ((64 - n) as u32))
}

pub open spec fn ch(x: u64, y: u64, z: u64) -> u64 {
    (x & y) ^ (!x & z)
}

pub open spec fn maj(x: u64, y: u64, z: u64) -> u64 {
    (x & y) ^ (x & z) ^ (y & z)
}

pub open spec fn big_sigma0(x: u64) -> u64 {
    rotr64(x, 28) ^ rotr64(x, 34) ^ rotr64(x, 39)
}

pub open spec fn big_sigma1(x: u64) -> u64 {
    rotr64(x, 14) ^ rotr64(x, 18) ^ rotr64(x, 41)
}

pub open spec fn small_sigma0(x: u64) -> u64 {
    rotr64(x, 1) ^ rotr64(x, 8) ^ (x >> 7u32)
}

pub open spec fn small_sigma1(x: u64) -> u64 {
    rotr64(x, 19) ^ rotr64(x, 61) ^ (x >> 6u32)
}

/// The round constants.
#[verifier::opaque]
pub open spec fn sha512_k() -> Seq<u64> {
    seq![
        0x428a_2f98_d728_ae22, 0x7137_4491_23ef_65cd, 0xb5c0_fbcf_ec4d_3b2f, 0xe9b5_dba5_8189_dbbc,
        0x3956_c25b_f348_b538, 0x59f1_11f1_b605_d019, 0x923f_82a4_af19_4f9b, 0xab1c_5ed5_da6d_8118,
        0xd807_aa98_a303_0242, 0x1283_5b01_4570_6fbe, 0x2431_85be_4ee4_b28c, 0x550c_7dc3_d5ff_b4e2,
        0x72be_5d74_f27b_896f, 0x80de_b1fe_3b16_96b1, 0x9bdc_06a7_25c7_1235, 0xc19b_f174_cf69_2694,
        0xe49b_69c1_9ef1_4ad2, 0xefbe_4786_384f_25e3, 0x0fc1_9dc6_8b8c_d5b5, 0x240c_a1cc_77ac_9c65,
        0x2de9_2c6f_592b_0275, 0x4a74_84aa_6ea6_e483, 0x5cb0_a9dc_bd41_fbd4, 0x76f9_88da_8311_53b5,
        0x983e_5152_ee66_dfab, 0xa831_c66d_2db4_3210, 0xb003_27c8_98fb_213f, 0xbf59_7fc7_beef_0ee4,
        0xc6e0_0bf3_3da8_8fc2, 0xd5a7_9147_930a_a725, 0x06ca_6351_e003_826f, 0x1429_2967_0a0e_6e70,
        0x27b7_0a85_46d2_2ffc, 0x2e1b_2138_5c26_c926, 0x4d2c_6dfc_5ac4_2aed, 0x5338_0d13_9d95_b3df,
        0x650a_7354_8baf_63de, 0x766a_0abb_3c77_b2a8, 0x81c2_c92e_47ed_aee6, 0x9272_2c85_1482_353b,
        0xa2bf_e8a1_4cf1_0364, 0xa81a_664b_bc42_3001, 0xc24b_8b70_d0f8_9791, 0xc76c_51a3_0654_be30,
        0xd192_e819_d6ef_5218, 0xd699_0624_5565_a910, 0xf40e_3585_5771_202a, 0x106a_a070_32bb_d1b8,
        0x19a4_c116_b8d2_d0c8, 0x1e37_6c08_5141_ab53, 0x2748_774c_df8e_eb99, 0x34b0_bcb5_e19b_48a8,
        0x391c_0cb3_c5c9_5a63, 0x4ed8_aa4a_e341_8acb, 0x5b9c_ca4f_7763_e373, 0x682e_6ff3_d6b2_b8a3,
        0x748f_82ee_5def_b2fc, 0x78a5_636f_4317_2f60, 0x84c8_7814_a1f0_ab72, 0x8cc7_0208_1a64_39ec,
        0x90be_fffa_2363_1e28, 0xa450_6ceb_de82_bde9, 0xbef9_a3f7_b2c6_7915, 0xc671_78f2_e372_532b,
        0xca27_3ece_ea26_619c, 0xd186_b8c7_21c0_c207, 0xeada_7dd6_cde0_eb1e, 0xf57d_4f7f_ee6e_d178,
        0x06f0_67aa_7217_6fba, 0x0a63_7dc5_a2c8_98a6, 0x113f_9804_bef9_0dae, 0x1b71_0b35_131c_471b,
        0x28db_77f5_2304_7d84, 0x32ca_ab7b_40c7_2493, 0x3c9e_be0a_15c9_bebc, 0x431d_67c4_9c10_0d4c,
        0x4cc5_d4be_cb3e_42b6, 0x597f_299c_fc65_7e2a, 0x5fcb_6fab_3ad6_faec, 0x6c44_198c_4a47_5817,
    ]
}

/// The initial hash value.
pub open spec fn sha512_h0() -> Seq<u64> {
    seq![
        0x6a09_e667_f3bc_c908, 0xbb67_ae85_84ca_a73b, 0x3c6e_f372_fe94_f82b, 0xa54f_f53a_5f1d_36f1,
        0x510e_527f_ade6_82d1, 0x9b05_688c_2b3e_6c1f, 0x1f83_d9ab_fb41_bd6b, 0x5be0_cd19_137e_2179,
    ]
}

/// How many zero bytes follow the `0x80` byte when padding a message of `len` bytes.
pub open spec fn pad_zeros(len: nat) -> nat {
    ((240 - (len + 1) % 128) % 128) as nat
}

/// The 16 big-endian bytes of `v`.
pub open spec fn be_bytes128(v: u128) -> Seq<u8> {
    Seq::new(16, |i: int| (v >> ((120 - 8 * i) as u32)) as u8)
}

/// The padded message: the message, `0x80`, zero bytes up to 112 modulo 128,
/// then the message length in bits as a 128-bit big-endian number.
pub open spec fn sha512_padded(msg: Seq<u8>) -> Seq<u8> {
    msg + seq![0x80u8] + Seq::new(pad_zeros(msg.len()), |i: int| 0u8) + be_bytes128(
        (msg.len() * 8) as u128,
    )
}

/// The number that a big-endian byte string spells.
pub open spec fn be_value(b: Seq<u8>) -> nat
    decreases b.len(),
{
    if b.len() == 0 {
        0
    } else {
        be_value(b.drop_last()) * 256 + b.last() as nat
    }
}

proof fn lemma_be_bytes128_prefix(v: u128, k: nat)
    requires
        1 <= k <= 16,
    ensures
        be_value(be_bytes128(v).take(k as int)) == (v >> ((128 - 8 * k) as u32)) as nat,
    decreases k,
{
    let b = be_bytes128(v);
    if k == 1 {
        assert(b.take(1).drop_last() =~= Seq::<u8>::empty());
        assert(b.take(1).last() == b[0]);
        assert(b[0] == (v >> 120u32) as u8);
        assert(be_value(b.take(1)) == be_value(Seq::<u8>::empty()) * 256 + b[0] as nat);
        assert(((v >> 120u32) as u8) as u128 == v >> 120u32) by (bit_vector);
    } else {
        lemma_be_bytes128_prefix(v, (k - 1) as nat);
        assert(b.take(k as int).drop_last() =~= b.take(k - 1));
        assert(b.take(k as int).last() == b[k - 1]);
        let sh: u32 = (128 - 8 * k) as u32;
        assert(b[k - 1] == (v >> sh) as u8);
        assert((128 - 8 * (k - 1)) as u32 == sh + 8);
        assert((v >> ((sh + 8) as u32)) * 256 + ((v >> sh) as u8) as u128 == v >> sh) by (bit_vector)
            requires
                sh <= 112,
        ;
    }
}

/// SHA-512 padding (FIPS 180-4, 5.1.2): the message is followed by the byte
/// `0x80`, then the fewest zero bytes (fewer than 128) that bring the length
/// to 112 modulo 128, then 16 bytes whose big-endian value is the message
/// length in bits; the whole is a whole number of 128-byte blocks.
pub proof fn law_sha512_padding(msg: Seq<u8>)
    requires
        msg.len() * 8 < 0x1_0000_0000_0000_0000_0000_0000_0000_0000,
    ensures
        ({
            let p = sha512_padded(msg);
            let n = msg.len();
            &&& p.len() % 128 == 0
            &&& n + 17 <= p.len() < n + 17 + 128
            &&& p.take(n as int) == msg
            &&& p[n as int] == 0x80
            &&& forall|j: int| n + 1 <= j < p.len() - 16 ==> p[j] == 0
            &&& be_value(p.skip(p.len() - 16)) == n * 8
        }),
{
    let p = sha512_padded(msg);
    let n = msg.len();
    let z = pad_zeros(n);
    assert(p.len() == n + 1 + z + 16);
    assert((n + 1 + z + 16) % 128 == 0);
    assert(p.take(n as int) =~= msg);
    assert(p[n as int] == 0x80);
    assert forall|j: int| n + 1 <= j < p.len() - 16 implies p[j] == 0 by {
        assert(p[j] == Seq::new(z, |i: int| 0u8)[j - n - 1]);
    }
    let v = (n * 8) as u128;
    assert(p.skip(p.len() - 16) =~= be_bytes128(v));
    lemma_be_bytes128_prefix(v, 16);
    assert(be_bytes128(v).take(16) =~= be_bytes128(v));
    assert(v >> 0u32 == v) by (bit_vector);
}

/// The big-endian 64-bit word at byte `j` of `m`.
pub open spec fn load_be64(m: Seq<u8>, j: int) -> u64 {
    ((m[j] as u64) << 56u64) | ((m[j + 1] as u64) << 48u64) | ((m[j + 2] as u64) << 40u64) | ((m[j
        + 3] as u64) << 32u64) | ((m[j + 4] as u64) << 24u64) | ((m[j + 5] as u64) << 16u64) | ((m[j
        + 6] as u64) << 8u64) | (m[j + 7] as u64)
}

/// Word `t` of the message schedule of the block at byte `base` of `m`.
pub open spec fn schedule(m: Seq<u8>, base: int, t: nat) -> u64
    decreases t,
{
    if t < 16 {
        load_be64(m, base + 8 * t)
    } else {
        add64(
            add64(
                add64(schedule(m, base, (t - 16) as nat), small_sigma0(schedule(m, base, (t - 15) as nat))),
                schedule(m, base, (t - 7) as nat),
            ),
            small_sigma1(schedule(m, base, (t - 2) as nat)),
        )
    }
}

/// One compression round on the working variables `a..h`.
pub open spec fn round(s: Seq<u64>, kt: u64, wt: u64) -> Seq<u64> {
    let t1 = add64(add64(add64(add64(s[7], big_sigma1(s[4])), ch(s[4], s[5], s[6])), kt), wt);
    let t2 = add64(big_sigma0(s[0]), maj(s[0], s[1], s[2]));
    seq![add64(t1, t2), s[0], s[1], s[2], add64(s[3], t1), s[4], s[5], s[6]]
}

/// The working variables after `t` rounds on the block at byte `base`, starting from `h`.
pub open spec fn rounds(h: Seq<u64>, m: Seq<u8>, base: int, t: nat) -> Seq<u64>
    decreases t,
{
    if t == 0 {
        h
    } else {
        round(rounds(h, m, base, (t - 1) as nat), sha512_k()[t - 1], schedule(m, base, (t - 1) as nat))
    }
}

/// The hash value after the block at byte `base`.
#[verifier::opaque]
pub open spec fn compress(h: Seq<u64>, m: Seq<u8>, base: int) -> Seq<u64> {
    Seq::new(8, |i: int| add64(h[i], rounds(h, m, base, 80)[i]))
}

/// The hash value after the first `n` blocks of `m`.
pub open spec fn hash_blocks(m: Seq<u8>, n: nat) -> Seq<u64>
    decreases n,
{
    if n == 0 {
        sha512_h0()
    } else {
        compress(hash_blocks(m, (n - 1) as nat), m, 128 * (n - 1))
    }
}

/// The SHA-512 hash value of `msg`, as eight 64-bit words.
pub open spec fn sha512(msg: Seq<u8>) -> Seq<u64> {
    hash_blocks(sha512_padded(msg), sha512_padded(msg).len() / 128)
}

/// The digest as 128 lowercase hexadecimal digits.
pub open spec fn digest_hex(h: Seq<u64>) -> Seq<char>
    decreases h.len(),
{
    if h.len() == 0 {
        Seq::empty()
    } else {
        digest_hex(h.drop_last()) + pad_hex(h.last() as nat, 16)
    }
}

fn add64_exec(x: u64, y: u64) -> (r: u64)
    ensures
        r == add64(x, y),
{
    x.wrapping_add(y)
}

fn rotr(x: u64, n: u32) -> (r: u64)
    requires
        0 < n < 64,
    ensures
        r == rotr64(x, n),
{
    (x >> n) | (x << (64 - n))
}

fn big_s0(x: u64) -> (r: u64)
    ensures
        r == big_sigma0(x),
{
    rotr(x, 28) ^ rotr(x, 34) ^ rotr(x, 39)
}

fn big_s1(x: u64) -> (r: u64)
    ensures
        r == big_sigma1(x),
{
    rotr(x, 14) ^ rotr(x, 18) ^ rotr(x, 41)
}

fn sml_s0(x: u64) -> (r: u64)
    ensures
        r == small_sigma0(x),
{
    rotr(x, 1) ^ rotr(x, 8) ^ (x >> 7u32)
}

fn sml_s1(x: u64) -> (r: u64)
    ensures
        r == small_sigma1(x),
{
    rotr(x, 19) ^ rotr(x, 61) ^ (x >> 6u32)
}

fn k_table() -> (k: Vec<u64>)
    ensures
        k@ == sha512_k(),
        k.len() == 80,
{
    let k = vec![
        0x428a_2f98_d728_ae22, 0x7137_4491_23ef_65cd, 0xb5c0_fbcf_ec4d_3b2f, 0xe9b5_dba5_8189_dbbc,
        0x3956_c25b_f348_b538, 0x59f1_11f1_b605_d019, 0x923f_82a4_af19_4f9b, 0xab1c_5ed5_da6d_8118,
        0xd807_aa98_a303_0242, 0x1283_5b01_4570_6fbe, 0x2431_85be_4ee4_b28c, 0x550c_7dc3_d5ff_b4e2,
        0x72be_5d74_f27b_896f, 0x80de_b1fe_3b16_96b1, 0x9bdc_06a7_25c7_1235, 0xc19b_f174_cf69_2694,
        0xe49b_69c1_9ef1_4ad2, 0xefbe_4786_384f_25e3, 0x0fc1_9dc6_8b8c_d5b5, 0x240c_a1cc_77ac_9c65,
        0x2de9_2c6f_592b_0275, 0x4a74_84aa_6ea6_e483, 0x5cb0_a9dc_bd41_fbd4, 0x76f9_88da_8311_53b5,
        0x983e_5152_ee66_dfab, 0xa831_c66d_2db4_3210, 0xb003_27c8_98fb_213f, 0xbf59_7fc7_beef_0ee4,
        0xc6e0_0bf3_3da8_8fc2, 0xd5a7_9147_930a_a725, 0x06ca_6351_e003_826f, 0x1429_2967_0a0e_6e70,
        0x27b7_0a85_46d2_2ffc, 0x2e1b_2138_5c26_c926, 0x4d2c_6dfc_5ac4_2aed, 0x5338_0d13_9d95_b3df,
        0x650a_7354_8baf_63de, 0x766a_0abb_3c77_b2a8, 0x81c2_c92e_47ed_aee6, 0x9272_2c85_1482_353b,
        0xa2bf_e8a1_4cf1_0364, 0xa81a_664b_bc42_3001, 0xc24b_8b70_d0f8_9791, 0xc76c_51a3_0654_be30,
        0xd192_e819_d6ef_5218, 0xd699_0624_5565_a910, 0xf40e_3585_5771_202a, 0x106a_a070_32bb_d1b8,
        0x19a4_c116_b8d2_d0c8, 0x1e37_6c08_5141_ab53, 0x2748_774c_df8e_eb99, 0x34b0_bcb5_e19b_48a8,
        0x391c_0cb3_c5c9_5a63, 0x4ed8_aa4a_e341_8acb, 0x5b9c_ca4f_7763_e373, 0x682e_6ff3_d6b2_b8a3,
        0x748f_82ee_5def_b2fc, 0x78a5_636f_4317_2f60, 0x84c8_7814_a1f0_ab72, 0x8cc7_0208_1a64_39ec,
        0x90be_fffa_2363_1e28, 0xa450_6ceb_de82_bde9, 0xbef9_a3f7_b2c6_7915, 0xc671_78f2_e372_532b,
        0xca27_3ece_ea26_619c, 0xd186_b8c7_21c0_c207, 0xeada_7dd6_cde0_eb1e, 0xf57d_4f7f_ee6e_d178,
        0x06f0_67aa_7217_6fba, 0x0a63_7dc5_a2c8_98a6, 0x113f_9804_bef9_0dae, 0x1b71_0b35_131c_471b,
        0x28db_77f5_2304_7d84, 0x32ca_ab7b_40c7_2493, 0x3c9e_be0a_15c9_bebc, 0x431d_67c4_9c10_0d4c,
        0x4cc5_d4be_cb3e_42b6, 0x597f_299c_fc65_7e2a, 0x5fcb_6fab_3ad6_faec, 0x6c44_198c_4a47_5817,
    ];
    proof {
        reveal(sha512_k);
    }
    assert(k@ =~= sha512_k());
    k
}


fn load_word(m: &Vec<u8>, j: usize) -> (r: u64)
    requires
        j + 8 <= m.len(),
    ensures
        r == load_be64(m@, j as int),
{
    ((m[j] as u64) << 56u64) | ((m[j + 1] as u64) << 48u64) | ((m[j + 2] as u64) << 40u64) | ((m[j
        + 3] as u64) << 32u64) | ((m[j + 4] as u64) << 24u64) | ((m[j + 5] as u64) << 16u64) | ((m[j
        + 6] as u64) << 8u64) | (m[j + 7] as u64)
}

/// The message followed by its SHA-512 padding.
fn pad_message(msg: &[u8]) -> (m: Vec<u8>)
    requires
        msg.len() + 256 <= usize::MAX,
    ensures
        m@ == sha512_padded(msg@),
        m.len() % 128 == 0,
{
    let mut m: Vec<u8> = Vec::new();
    let mut i: usize = 0;
    while i < msg.len()
        invariant
            i <= msg.len(),
            m@ == msg@.take(i as int),
        decreases msg.len() - i,
    {
        m.push(msg[i]);
        assert(m@ =~= msg@.take(i + 1));
        i += 1;
    }
    assert(msg@.take(msg.len() as int) =~= msg@);
    let bit_len: u128 = (msg.len() as u128) * 8;
    m.push(0x80);
    let ghost len = msg.len() as nat;
    while m.len() % 128 != 112
        invariant
            msg.len() + 256 <= usize::MAX,
            len == msg.len(),
            len + 1 <= m.len() <= len + 1 + pad_zeros(len),
            m@ == msg@ + seq![0x80u8] + Seq::new((m.len() - len - 1) as nat, |i: int| 0u8),
        decreases len + 1 + pad_zeros(len) - m.len(),
    {
        m.push(0);
        assert(m@ =~= msg@ + seq![0x80u8] + Seq::new((m.len() - len - 1) as nat, |i: int| 0u8));
    }
    assert(m.len() == len + 1 + pad_zeros(len));
    let ghost pre = m@;
    let mut j: u32 = 0;
    while j < 16
        invariant
            j <= 16,
            bit_len == (len * 8) as u128,
            m.len() == pre.len() + j,
            m@ == pre + be_bytes128(bit_len).take(j as int),
            pre.len() + 16 <= usize::MAX,
        decreases 16 - j,
    {
        m.push((bit_len >> (120 - 8 * j)) as u8);
        assert(m@ =~= pre + be_bytes128(bit_len).take(j + 1));
        j += 1;
    }
    assert(be_bytes128(bit_len).take(16) =~= be_bytes128(bit_len));
    m
}

/// Fills `w` with the message schedule of the block at byte `i` of `m`.
fn fill_schedule(w: &mut Vec<u64>, m: &Vec<u8>, i: usize)
    requires
        old(w).len() == 80,
        i + 128 <= m.len(),
    ensures
        final(w).len() == 80,
        forall|s: int| 0 <= s < 80 ==> final(w)@[s] == schedule(m@, i as int, s as nat),
{
    let mut t: usize = 0;
    while t < 16
        invariant
            t <= 16,
            i + 128 <= m.len(),
            w.len() == 80,
            forall|s: int| 0 <= s < t ==> w@[s] == schedule(m@, i as int, s as nat),
        decreases 16 - t,
    {
        let word = load_word(m, i + t * 8);
        w.set(t, word);
        t += 1;
    }
    while t < 80
        invariant
            16 <= t <= 80,
            w.len() == 80,
            forall|s: int| 0 <= s < t ==> w@[s] == schedule(m@, i as int, s as nat),
        decreases 80 - t,
    {
        let x = add64_exec(
            add64_exec(add64_exec(w[t - 16], sml_s0(w[t - 15])), w[t - 7]),
            sml_s1(w[t - 2]),
        );
        w.set(t, x);
        t += 1;
    }
}

/// One round on the working variables `st`, with constant `kt` and schedule word `wt`.
fn do_round(st: &mut Vec<u64>, kt: u64, wt: u64)
    requires
        old(st).len() == 8,
    ensures
        final(st)@ == round(old(st)@, kt, wt),
{
    let a = st[0];
    let b = st[1];
    let c = st[2];
    let d = st[3];
    let e = st[4];
    let f = st[5];
    let g = st[6];
    let hh = st[7];
    let t1 = add64_exec(add64_exec(add64_exec(add64_exec(hh, big_s1(e)), (e & f) ^ (!e & g)), kt), wt);
    let t2 = add64_exec(big_s0(a), (a & b) ^ (a & c) ^ (b & c));
    st.set(7, g);
    st.set(6, f);
    st.set(5, e);
    st.set(4, add64_exec(d, t1));
    st.set(3, c);
    st.set(2, b);
    st.set(1, a);
    st.set(0, add64_exec(t1, t2));
    assert(st@ =~= round(seq![a, b, c, d, e, f, g, hh], kt, wt));
    assert(old(st)@ =~= seq![a, b, c, d, e, f, g, hh]);
}

/// Runs the 80 rounds on `h` with the schedule `w` of the block at byte `i`
/// of `m`, and adds the result into `h`.
fn compress_block(h: &mut Vec<u64>, w: &Vec<u64>, k: &Vec<u64>, m: &Vec<u8>, i: usize)
    requires
        old(h).len() == 8,
        w.len() == 80,
        k@ == sha512_k(),
        k.len() == 80,
        forall|s: int| 0 <= s < 80 ==> w@[s] == schedule(m@, i as int, s as nat),
    ensures
        final(h)@ == compress(old(h)@, m@, i as int),
        final(h).len() == 8,
{
    let mut st: Vec<u64> = Vec::new();
    let mut j: usize = 0;
    while j < 8
        invariant
            j <= 8,
            h.len() == 8,
            st@ == h@.take(j as int),
        decreases 8 - j,
    {
        st.push(h[j]);
        assert(st@ =~= h@.take(j + 1));
        j += 1;
    }
    assert(st@ =~= rounds(h@, m@, i as int, 0));
    let mut t: usize = 0;
    while t < 80
        invariant
            t <= 80,
            w.len() == 80,
            k@ == sha512_k(),
            k.len() == 80,
            st.len() == 8,
            forall|s: int| 0 <= s < 80 ==> w@[s] == schedule(m@, i as int, s as nat),
            st@ == rounds(h@, m@, i as int, t as nat),
        decreases 80 - t,
    {
        do_round(&mut st, k[t], w[t]);
        t += 1;
    }
    let ghost prev = h@;
    let mut j: usize = 0;
    while j < 8
        invariant
            j <= 8,
            h.len() == 8,
            st.len() == 8,
            st@ == rounds(prev, m@, i as int, 80),
            forall|q: int| 0 <= q < j ==> h@[q] == add64(prev[q], st@[q]),
            forall|q: int| j <= q < 8 ==> h@[q] == prev[q],
        decreases 8 - j,
    {
        let v = add64_exec(h[j], st[j]);
        h.set(j, v);
        j += 1;
    }
    proof {
        reveal(compress);
    }
    assert(h@ =~= compress(prev, m@, i as int));
}

/// The SHA-512 hash value of `msg` as eight 64-bit words (FIPS 180-4).
pub fn sha512_digest(msg: &[u8]) -> (h: Vec<u64>)
    requires
        msg.len() + 256 <= usize::MAX,
    ensures
        h@ == sha512(msg@),
{
    let m = pad_message(msg);
    let k = k_table();
    let mut h: Vec<u64> = vec![
        0x6a09_e667_f3bc_c908, 0xbb67_ae85_84ca_a73b, 0x3c6e_f372_fe94_f82b, 0xa54f_f53a_5f1d_36f1,
        0x510e_527f_ade6_82d1, 0x9b05_688c_2b3e_6c1f, 0x1f83_d9ab_fb41_bd6b, 0x5be0_cd19_137e_2179,
    ];
    assert(h@ =~= sha512_h0());
    let mut w: Vec<u64> = Vec::new();
    while w.len() < 80
        invariant
            w.len() <= 80,
        decreases 80 - w.len(),
    {
        w.push(0);
    }
    let mut i: usize = 0;
    while i < m.len()
        invariant
            i % 128 == 0,
            i <= m.len(),
            m.len() % 128 == 0,
            m@ == sha512_padded(msg@),
            k@ == sha512_k(),
            k.len() == 80,
            h.len() == 8,
            w.len() == 80,
            h@ == hash_blocks(m@, (i / 128) as nat),
        decreases m.len() - i,
    {
        let ghost n = (i / 128) as nat;
        assert(128 * n == i && (i + 128) / 128 == n + 1) by (nonlinear_arith)
            requires i % 128 == 0, n == i / 128;
        fill_schedule(&mut w, &m, i);
        compress_block(&mut h, &w, &k, &m, i);
        assert(hash_blocks(m@, n + 1) == compress(hash_blocks(m@, n), m@, (128 * n) as int));
        i += 128;
    }
    h
}

/// The SHA-512 digest of `msg` as 128 lowercase hexadecimal digits, each word
/// written as 16 zero-padded digits.
pub fn sha512_hex(msg: &[u8]) -> (s: String)
    requires
        msg.len() + 256 <= usize::MAX,
    ensures
        s@ == digest_hex(sha512(msg@)),
{
    let h = sha512_digest(msg);
    let mut s = String::new();
    let mut i: usize = 0;
    assert(h@.take(0) =~= Seq::<u64>::empty());
    while i < h.len()
        invariant
            i <= h.len(),
            s@ == digest_hex(h@.take(i as int)),
        decreases h.len() - i,
    {
        push_hex_padded(&mut s, h[i], 16);
        assert(h@.take(i + 1).drop_last() =~= h@.take(i as int));
        i += 1;
    }
    assert(h@.take(h.len() as int) =~= h@);
    s
}

} // verus!
