use vstd::prelude::*;
use crate::params::{N, Q};
use crate::reduce::{mont, montgomery_reduce};

verus! {

/// Powers of the 512-th root of unity 1753 in Montgomery form, centered,
/// in bit-reversed order.
pub const ZETAS: [i32; 256] = [
    0, 25847, -2608894, -518909, 237124, -777960, -876248, 466468,
    1826347, 2353451, -359251, -2091905, 3119733, -2884855, 3111497, 2680103,
    2725464, 1024112, -1079900, 3585928, -549488, -1119584, 2619752, -2108549,
    -2118186, -3859737, -1399561, -3277672, 1757237, -19422, 4010497, 280005,
    2706023, 95776, 3077325, 3530437, -1661693, -3592148, -2537516, 3915439,
    -3861115, -3043716, 3574422, -2867647, 3539968, -300467, 2348700, -539299,
    -1699267, -1643818, 3505694, -3821735, 3507263, -2140649, -1600420, 3699596,
    811944, 531354, 954230, 3881043, 3900724, -2556880, 2071892, -2797779,
    -3930395, -1528703, -3677745, -3041255, -1452451, 3475950, 2176455, -1585221,
    -1257611, 1939314, -4083598, -1000202, -3190144, -3157330, -3632928, 126922,
    3412210, -983419, 2147896, 2715295, -2967645, -3693493, -411027, -2477047,
    -671102, -1228525, -22981, -1308169, -381987, 1349076, 1852771, -1430430,
    -3343383, 264944, 508951, 3097992, 44288, -1100098, 904516, 3958618,
    -3724342, -8578, 1653064, -3249728, 2389356, -210977, 759969, -1316856,
    189548, -3553272, 3159746, -1851402, -2409325, -177440, 1315589, 1341330,
    1285669, -1584928, -812732, -1439742, -3019102, -3881060, -3628969, 3839961,
    2091667, 3407706, 2316500, 3817976, -3342478, 2244091, -2446433, -3562462,
    266997, 2434439, -1235728, 3513181, -3520352, -3759364, -1197226, -3193378,
    900702, 1859098, 909542, 819034, 495491, -1613174, -43260, -522500,
    -655327, -3122442, 2031748, 3207046, -3556995, -525098, -768622, -3595838,
    342297, 286988, -2437823, 4108315, 3437287, -3342277, 1735879, 203044,
    2842341, 2691481, -2590150, 1265009, 4055324, 1247620, 2486353, 1595974,
    -3767016, 1250494, 2635921, -3548272, -2994039, 1869119, 1903435, -1050970,
    -1333058, 1237275, -3318210, -1430225, -451100, 1312455, 3306115, -1962642,
    -1279661, 1917081, -2546312, -1374803, 1500165, 777191, 2235880, 3406031,
    -542412, -2831860, -1671176, -1846953, -2584293, -3724270, 594136, -3776993,
    -2013608, 2432395, 2454455, -164721, 1957272, 3369112, 185531, -1207385,
    -3183426, 162844, 1616392, 3014001, 810149, 1652634, -3694233, -1799107,
    -3038916, 3523897, 3866901, 269760, 2213111, -975884, 1717735, 472078,
    -426683, 1723600, -1803090, 1910376, -1667432, -1104333, -260646, -3833893,
    -2939036, -2235985, -420899, -2286327, 183443, -976891, 1612842, -3545687,
    -554416, 3919660, -48306, -1362209, 3937738, 1400424, -846154, 1976782
];

/// `2^{64} / 256 mod Q`: rescales after the inverse transform.
pub const INVNTT_F: i32 = 41978;

/// Every entry of `s` lies strictly between `-b` and `b`.
pub open spec fn abs_lt(s: Seq<i32>, b: int) -> bool {
    forall|i: int| 0 <= i < s.len() ==> -b < #[trigger] s[i] < b
}

/// Half-width of the butterflies of forward layer `l` (0 after the last).
pub open spec fn len_at(l: int) -> int {
    if l == 0 { 128 }
    else if l == 1 { 64 }
    else if l == 2 { 32 }
    else if l == 3 { 16 }
    else if l == 4 { 8 }
    else if l == 5 { 4 }
    else if l == 6 { 2 }
    else if l == 7 { 1 }
    else { 0 }
}

/// One layer of the forward transform: Cooley-Tukey butterflies of
/// half-width `len`, block `k` using `ZETAS[128 / len + k]`.
pub open spec fn ntt_layer(b: Seq<i32>, len: int) -> Seq<i32> {
    Seq::new(256, |i: int| {
        let zeta = ZETAS@[(128 as int) / len + i / (2 * len)] as int;
        if i % (2 * len) < len {
            (b[i] + mont(zeta * b[i + len])) as i32
        } else {
            (b[i - len] - mont(zeta * b[i])) as i32
        }
    })
}

/// The first `l` forward layers.
pub open spec fn ntt_layers(a: Seq<i32>, l: nat) -> Seq<i32>
    decreases l,
{
    if l == 0 {
        a
    } else {
        ntt_layer(ntt_layers(a, (l - 1) as nat), len_at(l - 1))
    }
}

/// The forward number-theoretic transform (output in bit-reversed order).
pub open spec fn ntt_spec(a: Seq<i32>) -> Seq<i32> {
    ntt_layers(a, 8)
}

/// One layer of the inverse transform: Gentleman-Sande butterflies of
/// half-width `len`, block `k` using `-ZETAS[256 / len - 1 - k]`.
pub open spec fn invntt_layer(b: Seq<i32>, len: int) -> Seq<i32> {
    Seq::new(256, |i: int| {
        let zeta = -(ZETAS@[(256 as int) / len - 1 - i / (2 * len)] as int);
        if i % (2 * len) < len {
            (b[i] + b[i + len]) as i32
        } else {
            mont(zeta * (b[i - len] - b[i])) as i32
        }
    })
}

/// Half-width of the butterflies of inverse layer `l`.
pub open spec fn inv_len_at(l: int) -> int {
    len_at(7 - l)
}

/// The first `l` inverse layers.
pub open spec fn invntt_layers(a: Seq<i32>, l: nat) -> Seq<i32>
    decreases l,
{
    if l == 0 {
        a
    } else {
        invntt_layer(invntt_layers(a, (l - 1) as nat), inv_len_at(l - 1))
    }
}

/// The inverse transform followed by multiplication by `2^32`.
pub open spec fn invntt_tomont_spec(a: Seq<i32>) -> Seq<i32> {
    let b = invntt_layers(a, 8);
    Seq::new(256, |i: int| mont(INVNTT_F as int * b[i]) as i32)
}

/// Index `i` lies in the block of width `w` that begins at `start`.
proof fn lemma_block(i: int, start: int, w: int)
    requires
        w > 0,
        (start as int) % w == 0,
        start <= i < start + w,
    ensures
        i / w == start / w,
        i % w == i - start,
{
    vstd::arithmetic::div_mod::lemma_fundamental_div_mod(start, w);
    assert(i == (start / w) * w + (i - start)) by (nonlinear_arith)
        requires
            start == w * (start / w) + start % w,
            start % w == 0,
    ;
    vstd::arithmetic::div_mod::lemma_fundamental_div_mod_converse(i, w, start / w, i - start);
}

/// Every zeta is smaller than `Q / 2` in absolute value.
proof fn lemma_zetas_bound()
    ensures
        forall|k: int| 0 <= k < 256 ==> -4194304 < #[trigger] ZETAS@[k] < 4194304,
{
}

/// The next block also begins at a multiple of `w`.
proof fn lemma_next_block(start: int, w: int)
    requires
        w > 0,
        start % w == 0,
    ensures
        (start + w) % w == 0,
{
    vstd::arithmetic::div_mod::lemma_mod_add_multiples_vanish(start, w);
}

/// The zeta indices of a layer of half-width `len` stay within the table.
proof fn lemma_zeta_index(len: int, start: int)
    requires
        len == 1 || len == 2 || len == 4 || len == 8 || len == 16 || len == 32 || len == 64 || len == 128,
        (start as int) % (2 * (len as int)) == 0,
        0 <= start < 256,
    ensures
        0 <= (128 as int) / len + start / (2 * len) < 256,
        0 <= (256 as int) / len - 1 - start / (2 * len) < 256,
        start + 2 * len <= 256,
{
}

/// In-place forward transform. Output coefficients grow by less than `8 * Q`.
pub fn ntt(a: &mut [i32; N])
    requires
        abs_lt(old(a)@, Q as int),
    ensures
        final(a)@ == ntt_spec(old(a)@),
        abs_lt(final(a)@, 9 * Q as int),
{
    let mut len: usize = 128;
    let ghost mut l: int = 0;
    while len > 0
        invariant
            0 <= l <= 8,
            len == len_at(l),
            a@ == ntt_layers(old(a)@, l as nat),
            abs_lt(a@, (l + 1) * Q),
        decreases len,
    {
        let b: [i32; N] = *a;
        let first: usize = 128 / len;
        let mut start: usize = 0;
        while start < N
            invariant
                0 <= l < 8,
                len == len_at(l),
                first as int == (128 as int) / (len as int),
                start <= N,
                (start as int) % (2 * (len as int)) == 0,
                b@ == ntt_layers(old(a)@, l as nat),
                abs_lt(b@, (l + 1) * Q),
                abs_lt(a@, (l + 2) * Q),
                forall|i: int| 0 <= i < start ==> #[trigger] a@[i] == ntt_layer(b@, len as int)[i],
                forall|i: int| start <= i < N ==> #[trigger] a@[i] == b@[i],
            decreases N - start,
        {
            proof {
                lemma_zeta_index(len as int, start as int);
                lemma_zetas_bound();
            }
            let zeta: i32 = ZETAS[first + start / (2 * len)];
            let mut j: usize = start;
            while j < start + len
                invariant
                    0 <= l < 8,
                    len == len_at(l),
                    first as int == (128 as int) / (len as int),
                    (start as int) % (2 * (len as int)) == 0,
                    start + 2 * len <= N,
                    start <= j <= start + len,
                    zeta == ZETAS@[(128 as int) / (len as int) + (start as int) / (2 * (len as int))],
                    -4194304 < zeta < 4194304,
                    b@ == ntt_layers(old(a)@, l as nat),
                    abs_lt(b@, (l + 1) * Q),
                    abs_lt(a@, (l + 2) * Q),
                    forall|i: int| 0 <= i < start ==> #[trigger] a@[i] == ntt_layer(b@, len as int)[i],
                    forall|i: int| start <= i < j ==> #[trigger] a@[i] == ntt_layer(b@, len as int)[i],
                    forall|i: int| start + len <= i < j + len ==> #[trigger] a@[i] == ntt_layer(b@, len as int)[i],
                    forall|i: int| j <= i < start + len ==> #[trigger] a@[i] == b@[i],
                    forall|i: int| j + len <= i < N ==> #[trigger] a@[i] == b@[i],
                decreases start + len - j,
            {
                proof {
                    lemma_block(j as int, start as int, 2 * len);
                    lemma_block(j + len, start as int, 2 * len);
                }
                let v: i32 = b[j + len];
                assert(-(2147483648 * (Q as int)) < (zeta as int) * (v as int) < 2147483648 * (Q as int)) by (nonlinear_arith)
                    requires
                        -4194304 < zeta < 4194304,
                        -(8 * Q as int) < v < 8 * Q as int,
                ;
                let t: i32 = montgomery_reduce((zeta as i64) * (v as i64));
                a[j + len] = b[j] - t;
                a[j] = b[j] + t;
                j = j + 1;
            }
            proof {
                lemma_next_block(start as int, 2 * len);
            }
            start = start + 2 * len;
        }
        assert(a@ =~= ntt_layer(b@, len as int));
        len = len / 2;
        proof {
            l = l + 1;
        }
    }
}

/// In-place inverse transform and multiplication by `2^32`. Output
/// coefficients are smaller than `Q` in absolute value.
pub fn invntt_tomont(a: &mut [i32; N])
    requires
        abs_lt(old(a)@, Q as int),
    ensures
        final(a)@ == invntt_tomont_spec(old(a)@),
        abs_lt(final(a)@, Q as int),
{
    let mut len: usize = 1;
    let ghost mut l: int = 0;
    while len < N
        invariant
            0 <= l <= 8,
            l < 8 ==> len == inv_len_at(l),
            l == 8 <==> len == 256,
            a@ == invntt_layers(old(a)@, l as nat),
            abs_lt(a@, len * Q),
        decreases N - len,
    {
        let b: [i32; N] = *a;
        let top: usize = 256 / len;
        let mut start: usize = 0;
        while start < N
            invariant
                0 <= l < 8,
                len == inv_len_at(l),
                top as int == (256 as int) / (len as int),
                start <= N,
                (start as int) % (2 * (len as int)) == 0,
                b@ == invntt_layers(old(a)@, l as nat),
                abs_lt(b@, len * Q),
                abs_lt(a@, 2 * len * Q),
                forall|i: int| 0 <= i < start ==> #[trigger] a@[i] == invntt_layer(b@, len as int)[i],
                forall|i: int| start <= i < N ==> #[trigger] a@[i] == b@[i],
            decreases N - start,
        {
            proof {
                lemma_zeta_index(len as int, start as int);
                lemma_zetas_bound();
            }
            let zeta: i32 = -ZETAS[top - 1 - start / (2 * len)];
            let mut j: usize = start;
            while j < start + len
                invariant
                    0 <= l < 8,
                    len == inv_len_at(l),
                    top as int == (256 as int) / (len as int),
                    (start as int) % (2 * (len as int)) == 0,
                    start + 2 * len <= N,
                    start <= j <= start + len,
                    zeta == -ZETAS@[(256 as int) / (len as int) - 1 - (start as int) / (2 * (len as int))],
                    -4194304 < zeta < 4194304,
                    b@ == invntt_layers(old(a)@, l as nat),
                    abs_lt(b@, len * Q),
                    abs_lt(a@, 2 * len * Q),
                    forall|i: int| 0 <= i < start ==> #[trigger] a@[i] == invntt_layer(b@, len as int)[i],
                    forall|i: int| start <= i < j ==> #[trigger] a@[i] == invntt_layer(b@, len as int)[i],
                    forall|i: int| start + len <= i < j + len ==> #[trigger] a@[i] == invntt_layer(b@, len as int)[i],
                    forall|i: int| j <= i < start + len ==> #[trigger] a@[i] == b@[i],
                    forall|i: int| j + len <= i < N ==> #[trigger] a@[i] == b@[i],
                decreases start + len - j,
            {
                proof {
                    lemma_block(j as int, start as int, 2 * len);
                    lemma_block(j + len, start as int, 2 * len);
                }
                let u: i32 = b[j];
                let v: i32 = b[j + len];
                assert(-(2 * len * Q) < u - v < 2 * len * Q);
                assert(-(2147483648 * (Q as int)) < (zeta as int) * (u - v) < 2147483648 * (Q as int)) by (nonlinear_arith)
                    requires
                        -4194304 < zeta < 4194304,
                        -(2 * len * Q) < u - v < 2 * len * Q,
                        len <= 128,
                ;
                a[j] = u + v;
                a[j + len] = montgomery_reduce((zeta as i64) * ((u - v) as i64));
                j = j + 1;
            }
            proof {
                lemma_next_block(start as int, 2 * len);
            }
            start = start + 2 * len;
        }
        assert(a@ =~= invntt_layer(b@, len as int));
        len = len * 2;
        proof {
            l = l + 1;
        }
    }
    let ghost b = a@;
    let mut j: usize = 0;
    while j < N
        invariant
            j <= N,
            b == invntt_layers(old(a)@, 8),
            abs_lt(b, 256 * Q),
            forall|i: int| 0 <= i < j ==> #[trigger] a@[i] == mont(INVNTT_F as int * b[i]) as i32,
            forall|i: int| 0 <= i < j ==> -Q < #[trigger] a@[i] < Q,
            forall|i: int| j <= i < N ==> #[trigger] a@[i] == b[i],
        decreases N - j,
    {
        assert(-(2147483648 * (Q as int)) < (INVNTT_F as int) * (a[j as int] as int) < 2147483648 * (Q as int)) by (nonlinear_arith)
            requires
                -(256 * (Q as int)) < a[j as int] < 256 * (Q as int),
        ;
        a[j] = montgomery_reduce((INVNTT_F as i64) * (a[j] as i64));
        j = j + 1;
    }
    assert(a@ =~= invntt_tomont_spec(old(a)@));
}

} // verus!
