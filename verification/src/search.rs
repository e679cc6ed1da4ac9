//! The search space of the base layout optimiser: binomial coefficients, the enumeration of
//! index combinations in lexicographic order, and the number of layouts a search evaluates.
use vstd::prelude::*;
use vstd::arithmetic::power2::pow2;

verus! {

/// `C(n, k)`, by Pascal's rule.
pub open spec fn binom(n: nat, k: nat) -> nat
    decreases n,
{
    if k == 0 {
        1
    } else if n == 0 {
        0
    } else {
        binom((n - 1) as nat, (k - 1) as nat) + binom((n - 1) as nat, k)
    }
}

/// `C(n, k) == 0` when `k > n`.
pub proof fn lemma_binom_zero(n: nat, k: nat)
    requires
        k > n,
    ensures
        binom(n, k) == 0,
    decreases n,
{
    if n > 0 {
        lemma_binom_zero((n - 1) as nat, (k - 1) as nat);
        lemma_binom_zero((n - 1) as nat, k);
    }
}

/// `C(n, n) == 1`.
pub proof fn lemma_binom_all(n: nat)
    ensures
        binom(n, n) == 1,
    decreases n,
{
    if n > 0 {
        lemma_binom_all((n - 1) as nat);
        lemma_binom_zero((n - 1) as nat, n);
    }
}

/// `C(n, k) >= 1` when `k <= n`.
pub proof fn lemma_binom_pos(n: nat, k: nat)
    requires
        k <= n,
    ensures
        binom(n, k) >= 1,
    decreases n,
{
    if k > 0 && k < n {
        lemma_binom_pos((n - 1) as nat, k);
    } else if k == n {
        lemma_binom_all(n);
    }
}

/// Absorption: `k * C(n, k) == n * C(n - 1, k - 1)`.
pub proof fn lemma_binom_absorb(n: nat, k: nat)
    requires
        n >= 1,
        k >= 1,
    ensures
        k * binom(n, k) == n * binom((n - 1) as nat, (k - 1) as nat),
    decreases n,
{
    let a = binom((n - 1) as nat, (k - 1) as nat);
    let b = binom((n - 1) as nat, k);
    assert(binom(n, k) == a + b);
    if n == 1 {
        if k == 1 {
            assert(binom(0, 0) == 1);
            assert(binom(0, 1) == 0);
        } else {
            lemma_binom_zero(1, k);
            lemma_binom_zero(0, (k - 1) as nat);
        }
    } else {
        // k * b == (n - 1) * C(n - 2, k - 1)
        lemma_binom_absorb((n - 1) as nat, k);
        let c = binom((n - 2) as nat, (k - 1) as nat);
        assert(k * b == (n - 1) * c);
        if k == 1 {
            assert(a == 1);
            assert(c == 1);
            assert(k * binom(n, k) == a + b) by (nonlinear_arith)
                requires
                    k == 1,
                    binom(n, k) == a + b,
            ;
            assert(b == (n - 1) * c) by (nonlinear_arith)
                requires
                    k == 1,
                    k * b == (n - 1) * c,
            ;
            assert(n * a == n) by (nonlinear_arith)
                requires
                    a == 1,
            ;
        } else {
            // (k - 1) * a == (n - 1) * C(n - 2, k - 2)
            lemma_binom_absorb((n - 1) as nat, (k - 1) as nat);
            let d = binom((n - 2) as nat, (k - 2) as nat);
            assert((k - 1) * a == (n - 1) * d);
            assert(a == d + c);
            assert(k * binom(n, k) == k * a + k * b) by (nonlinear_arith)
                requires
                    binom(n, k) == a + b,
            ;
            assert(k * a == (k - 1) * a + a) by (nonlinear_arith);
            assert((n - 1) * d + (n - 1) * c == (n - 1) * a) by (nonlinear_arith)
                requires
                    a == d + c,
            ;
            assert(n * a == (n - 1) * a + a) by (nonlinear_arith);
        }
    }
}

/// The step of the multiplicative formula: `C(n, i) * (n - i) == C(n, i + 1) * (i + 1)`.
pub proof fn lemma_binom_step(n: nat, i: nat)
    requires
        i < n,
    ensures
        binom(n, i) * (n - i) == binom(n, i + 1) * (i + 1),
{
    lemma_binom_absorb(n, i + 1);
    let x = binom((n - 1) as nat, i);
    assert((i + 1) * binom(n, i + 1) == n * x);
    if i == 0 {
        assert(binom(n, 0) == 1);
        assert(binom((n - 1) as nat, 0) == 1);
        assert(binom(n, 0) * (n - 0) == n) by (nonlinear_arith)
            requires
                binom(n, 0) == 1,
        ;
        assert(binom(n, 1) * 1 == n) by (nonlinear_arith)
            requires
                (0 + 1) * binom(n, 0 + 1) == n * x,
                x == 1,
        ;
    } else {
        lemma_binom_absorb(n, i);
        let y = binom((n - 1) as nat, (i - 1) as nat);
        assert(i * binom(n, i) == n * y);
        assert(binom(n, i) == y + x);
        assert(binom(n, i) * (n - i) == n * binom(n, i) - i * binom(n, i)) by (nonlinear_arith)
            requires
                i < n,
        ;
        assert(n * binom(n, i) == n * y + n * x) by (nonlinear_arith)
            requires
                binom(n, i) == y + x,
        ;
        assert(binom(n, i + 1) * (i + 1) == (i + 1) * binom(n, i + 1)) by (nonlinear_arith);
    }
}

/// Symmetry: `C(n, k) == C(n, n - k)`.
pub proof fn lemma_binom_symmetric(n: nat, k: nat)
    requires
        k <= n,
    ensures
        binom(n, k) == binom(n, (n - k) as nat),
    decreases n,
{
    if k == 0 {
        lemma_binom_all(n);
    } else if k == n {
        lemma_binom_all(n);
    } else {
        lemma_binom_symmetric((n - 1) as nat, (k - 1) as nat);
        lemma_binom_symmetric((n - 1) as nat, k);
        assert(binom(n, (n - k) as nat) == binom((n - 1) as nat, (n - k - 1) as nat) + binom(
            (n - 1) as nat,
            (n - k) as nat,
        ));
    }
}

/// The multiplications of the running product in `comb` stay within `u64`: each partial
/// product `C(n, i) * (n - i)` below the smaller of `k` and `n - k`.
pub open spec fn comb_fits(n: u64, k: u64) -> bool {
    let m: nat = if k <= n - k { k as nat } else { (n - k) as nat };
    k <= n ==> forall|i: nat| i < m ==> #[trigger] binom(n as nat, i) * (n - i) <= u64::MAX
}

/// `C(n, k)`, computed by the multiplicative formula over the smaller of `k` and `n - k`;
/// 0 when `k > n`.
pub fn comb(n: u64, k: u64) -> (r: u64)
    requires
        comb_fits(n, k),
    ensures
        r == binom(n as nat, k as nat),
{
    if k > n {
        proof {
            lemma_binom_zero(n as nat, k as nat);
        }
        return 0;
    }
    let m: u64 = if k <= n - k { k } else { n - k };
    proof {
        lemma_binom_symmetric(n as nat, k as nat);
        assert((n - (n - k)) as nat == k as nat);
    }
    let mut acc: u64 = 1;
    let mut i: u64 = 0;
    while i < m
        invariant
            k <= n,
            m <= n,
            comb_fits(n, k),
            m == (if k <= n - k { k } else { (n - k) as u64 }),
            i <= m,
            acc == binom(n as nat, i as nat),
        decreases m - i,
    {
        proof {
            assert(binom(n as nat, i as nat) * (n - i) <= u64::MAX);
            lemma_binom_step(n as nat, i as nat);
        }
        let p: u64 = acc * (n - i);
        proof {
            let b = binom(n as nat, (i + 1) as nat);
            assert(p == b * (i + 1));
            vstd::arithmetic::div_mod::lemma_div_by_multiple(b as int, (i + 1) as int);
        }
        acc = p / (i + 1);
        i = i + 1;
    }
    proof {
        if m != k {
            assert(binom(n as nat, m as nat) == binom(n as nat, k as nat));
        }
    }
    acc
}


/// The plain values of a list of index lists.
pub open spec fn lists(v: Seq<Vec<usize>>) -> Seq<Seq<usize>> {
    v.map_values(|x: Vec<usize>| x@)
}

/// Each list of `s` with `p` put in front.
pub open spec fn prefixed(p: Seq<usize>, s: Seq<Seq<usize>>) -> Seq<Seq<usize>> {
    s.map_values(|c: Seq<usize>| p + c)
}

/// The strictly increasing `k`-element lists drawn from `start..n`, in lexicographic order.
pub open spec fn combs(n: nat, k: nat, start: nat) -> Seq<Seq<usize>>
    decreases k, 1nat, 0nat,
{
    if k == 0 {
        seq![Seq::empty()]
    } else {
        blocks(n, k, start, n)
    }
}

/// The `k`-element lists of `combs(n, k, lo)` whose first index lies in `lo..hi`.
pub open spec fn blocks(n: nat, k: nat, lo: nat, hi: nat) -> Seq<Seq<usize>>
    decreases k, 0nat, hi,
{
    if k == 0 || hi <= lo {
        Seq::empty()
    } else {
        blocks(n, k, lo, (hi - 1) as nat) + prefixed(
            seq![(hi - 1) as usize],
            combs(n, (k - 1) as nat, hi),
        )
    }
}

proof fn lemma_prefixed_add(p: Seq<usize>, a: Seq<Seq<usize>>, b: Seq<Seq<usize>>)
    ensures
        prefixed(p, a + b) == prefixed(p, a) + prefixed(p, b),
{
    assert(prefixed(p, a + b) =~= prefixed(p, a) + prefixed(p, b));
}

proof fn lemma_prefixed_twice(p: Seq<usize>, i: usize, c: Seq<Seq<usize>>)
    ensures
        prefixed(p, prefixed(seq![i], c)) == prefixed(p.push(i), c),
{
    assert forall|j: int| 0 <= j < c.len() implies #[trigger] prefixed(p, prefixed(seq![i], c))[j]
        == prefixed(p.push(i), c)[j] by {
        assert(p + (seq![i] + c[j]) =~= p.push(i) + c[j]);
    }
    assert(prefixed(p, prefixed(seq![i], c)) =~= prefixed(p.push(i), c));
}

fn combinations_helper(
    n: usize,
    k: usize,
    start: usize,
    current: &mut Vec<usize>,
    result: &mut Vec<Vec<usize>>,
)
    requires
        old(current)@.len() <= k,
        start <= n,
    ensures
        final(current)@ == old(current)@,
        lists(final(result)@) == lists(old(result)@) + prefixed(
            old(current)@,
            combs(n as nat, (k - old(current)@.len()) as nat, start as nat),
        ),
    decreases k - old(current)@.len(),
{
    let ghost cur0 = current@;
    let ghost res0 = lists(result@);
    if current.len() == k {
        let mut copy: Vec<usize> = Vec::new();
        let mut j: usize = 0;
        while j < current.len()
            invariant
                j <= current@.len(),
                copy@ == current@.take(j as int),
            decreases current@.len() - j,
        {
            copy.push(current[j]);
            j = j + 1;
            assert(copy@ =~= current@.take(j as int));
        }
        assert(copy@ =~= current@);
        result.push(copy);
        assert(prefixed(cur0, seq![Seq::empty()]) =~= seq![cur0]) by {
            assert(cur0 + Seq::<usize>::empty() =~= cur0);
        }
        assert(lists(result@) =~= res0 + seq![cur0]);
        return;
    }
    let ghost kk: nat = (k - cur0.len()) as nat;
    let mut i: usize = start;
    while i < n
        invariant
            current@ == cur0,
            cur0 == old(current)@,
            cur0.len() < k,
            kk == k - cur0.len(),
            start <= i <= n,
            lists(result@) == res0 + prefixed(cur0, blocks(n as nat, kk, start as nat, i as nat)),
        decreases n - i,
    {
        current.push(i);
        combinations_helper(n, k, i + 1, current, result);
        current.pop();
        proof {
            assert(current@ =~= cur0);
            let c = combs(n as nat, (kk - 1) as nat, (i + 1) as nat);
            assert(blocks(n as nat, kk, start as nat, (i + 1) as nat) == blocks(
                n as nat,
                kk,
                start as nat,
                i as nat,
            ) + prefixed(seq![i], c));
            lemma_prefixed_add(cur0, blocks(n as nat, kk, start as nat, i as nat), prefixed(seq![i], c));
            lemma_prefixed_twice(cur0, i, c);
            assert((k - cur0.push(i).len()) as nat == (kk - 1) as nat);
        }
        i = i + 1;
    }
}

/// All `k`-element combinations of the indices `0..n`, each in increasing order, the
/// combinations in lexicographic order.
pub fn combinations(n: usize, k: usize) -> (r: Vec<Vec<usize>>)
    ensures
        lists(r@) == combs(n as nat, k as nat, 0),
{
    let mut result: Vec<Vec<usize>> = Vec::new();
    let mut current: Vec<usize> = Vec::new();
    combinations_helper(n, k, 0, &mut current, &mut result);
    proof {
        assert(lists(Seq::<Vec<usize>>::empty()) =~= Seq::<Seq<usize>>::empty());
        let c = combs(n as nat, k as nat, 0);
        assert(prefixed(Seq::<usize>::empty(), c) =~= c) by {
            assert forall|j: int| 0 <= j < c.len() implies #[trigger] prefixed(Seq::<usize>::empty(), c)[j] == c[j] by {
                assert(Seq::<usize>::empty() + c[j] =~= c[j]);
            }
        }
        assert(Seq::<Seq<usize>>::empty() + c =~= c);
    }
    result
}

/// `c` is a strictly increasing list of `k` indices drawn from `start..n`.
pub open spec fn is_combination(c: Seq<usize>, n: nat, k: nat, start: nat) -> bool {
    &&& c.len() == k
    &&& forall|i: int| 0 <= i < c.len() ==> start <= #[trigger] c[i] < n
    &&& forall|i: int, j: int| 0 <= i < j < c.len() ==> c[i] < c[j]
}

/// No list occurs twice in `s`.
pub open spec fn all_distinct(s: Seq<Seq<usize>>) -> bool {
    forall|a: int, b: int| 0 <= a < b < s.len() ==> s[a] != s[b]
}

proof fn lemma_combs_facts(n: nat, k: nat, start: nat)
    requires
        start <= n <= usize::MAX,
    ensures
        combs(n, k, start).len() == binom((n - start) as nat, k),
        forall|j: int| 0 <= j < combs(n, k, start).len() ==> is_combination(
            #[trigger] combs(n, k, start)[j],
            n,
            k,
            start,
        ),
        all_distinct(combs(n, k, start)),
    decreases k, 1nat, 0nat,
{
    if k > 0 {
        lemma_blocks_facts(n, k, start, n);
        lemma_binom_zero(0, k);
    }
}

proof fn lemma_blocks_facts(n: nat, k: nat, lo: nat, hi: nat)
    requires
        k >= 1,
        lo <= hi <= n <= usize::MAX,
    ensures
        blocks(n, k, lo, hi).len() + binom((n - hi) as nat, k) == binom((n - lo) as nat, k),
        forall|j: int| 0 <= j < blocks(n, k, lo, hi).len() ==> is_combination(
            #[trigger] blocks(n, k, lo, hi)[j],
            n,
            k,
            lo,
        ) && blocks(n, k, lo, hi)[j][0] < hi,
        all_distinct(blocks(n, k, lo, hi)),
    decreases k, 0nat, hi,
{
    if hi > lo {
        let h1 = (hi - 1) as nat;
        lemma_blocks_facts(n, k, lo, h1);
        lemma_combs_facts(n, (k - 1) as nat, hi);
        let b = blocks(n, k, lo, h1);
        let c = combs(n, (k - 1) as nat, hi);
        let p = prefixed(seq![h1 as usize], c);
        let all = blocks(n, k, lo, hi);
        assert(all == b + p);
        assert(binom((n - h1) as nat, k) == binom((n - hi) as nat, (k - 1) as nat) + binom(
            (n - hi) as nat,
            k,
        ));
        assert forall|j: int| 0 <= j < p.len() implies is_combination(#[trigger] p[j], n, k, lo)
            && p[j][0] == h1 by {
            let cj = c[j];
            assert(is_combination(cj, n, (k - 1) as nat, hi));
            assert(p[j] == seq![h1 as usize] + cj);
            assert forall|x: int, y: int| 0 <= x < y < p[j].len() implies p[j][x] < p[j][y] by {
                if x > 0 {
                    assert(p[j][x] == cj[x - 1]);
                }
                assert(p[j][y] == cj[y - 1]);
            }
            assert forall|x: int| 0 <= x < p[j].len() implies lo <= #[trigger] p[j][x] < n by {
                if x == 0 {
                    assert(p[j][0] == h1);
                } else {
                    assert(p[j][x] == cj[x - 1]);
                }
            }
        }
        assert forall|j: int| 0 <= j < all.len() implies is_combination(#[trigger] all[j], n, k, lo)
            && all[j][0] < hi by {
            if j < b.len() {
                assert(all[j] == b[j]);
            } else {
                assert(all[j] == p[j - b.len()]);
            }
        }
        assert forall|x: int, y: int| 0 <= x < y < all.len() implies all[x] != all[y] by {
            if y < b.len() {
                assert(all[x] == b[x] && all[y] == b[y]);
            } else if x < b.len() {
                assert(all[x] == b[x] && all[y] == p[y - b.len()]);
                assert(b[x][0] < h1);
                assert(p[y - b.len()][0] == h1);
            } else {
                let xi = x - b.len();
                let yi = y - b.len();
                assert(all[x] == p[xi] && all[y] == p[yi]);
                assert(p[xi] == seq![h1 as usize] + c[xi]);
                assert(p[yi] == seq![h1 as usize] + c[yi]);
                assert(c[xi] != c[yi]);
                if p[xi] == p[yi] {
                    assert(c[xi] =~= p[xi].drop_first());
                    assert(c[yi] =~= p[yi].drop_first());
                }
            }
        }
    }
}

/// The combinations of `k` indices out of `n` are exactly `C(n, k)` lists, each a strictly
/// increasing list of `k` indices below `n`, none twice; and every such list is among them.
pub proof fn law_combinations_count(n: usize, k: usize)
    ensures
        combs(n as nat, k as nat, 0).len() == binom(n as nat, k as nat),
        forall|j: int| 0 <= j < combs(n as nat, k as nat, 0).len() ==> is_combination(
            #[trigger] combs(n as nat, k as nat, 0)[j],
            n as nat,
            k as nat,
            0,
        ),
        all_distinct(combs(n as nat, k as nat, 0)),
        forall|c: Seq<usize>| is_combination(c, n as nat, k as nat, 0) ==> #[trigger] combs(
            n as nat,
            k as nat,
            0,
        ).contains(c),
{
    lemma_combs_facts(n as nat, k as nat, 0);
    assert forall|c: Seq<usize>| is_combination(c, n as nat, k as nat, 0) implies #[trigger] combs(
        n as nat,
        k as nat,
        0,
    ).contains(c) by {
        lemma_combs_complete(n as nat, k as nat, 0, c);
    }
}

/// What the optimiser maximises, with the producer counts it fixes.
pub enum SearchType {
    /// Each usable tile is a materials producer or a booster.
    Materials,
    /// A fixed number of materials and parts producers; the other tiles are boosters or drain
    /// reducers.
    Parts(PartSearchParams),
    /// A fixed number of materials, parts and components producers; the other tiles are boosters
    /// or drain reducers.
    Components(ComponentSearchParams),
}

/// The producer counts of a parts search.
pub struct PartSearchParams {
    pub mat_tiles: usize,
    pub parts_tiles: usize,
}

/// The producer counts of a components search.
pub struct ComponentSearchParams {
    pub mat_tiles: usize,
    pub parts_tiles: usize,
    pub comp_tiles: usize,
}

/// The number of layouts a search evaluates on `n` usable tiles: every booster/drain
/// assignment of the free tiles for every placement of the producers.
pub open spec fn evaluations(search: SearchType, n: nat) -> nat {
    match search {
        SearchType::Materials => pow2(n),
        SearchType::Parts(p) => {
            let m = p.mat_tiles as nat;
            let pt = p.parts_tiles as nat;
            binom(n, m) * binom((n - m) as nat, pt) * pow2((n - m - pt) as nat)
        },
        SearchType::Components(p) => {
            let m = p.mat_tiles as nat;
            let pt = p.parts_tiles as nat;
            let ct = p.comp_tiles as nat;
            binom(n, m) * binom((n - m) as nat, pt) * binom((n - m - pt) as nat, ct) * pow2(
                (n - m - pt - ct) as nat,
            )
        },
    }
}

/// The count of a search fits in `u64`, and so does every intermediate product of computing it;
/// the producer counts fit on the tiles.
pub open spec fn evaluations_fit(search: SearchType, n: nat) -> bool {
    match search {
        SearchType::Materials => n < 64,
        SearchType::Parts(p) => {
            let m = p.mat_tiles as nat;
            let pt = p.parts_tiles as nat;
            let rest = n - m - pt;
            &&& m + pt <= n
            &&& rest < 64
            &&& comb_fits(n as u64, m as u64)
            &&& comb_fits((n - m) as u64, pt as u64)
            &&& binom(n, m) * binom((n - m) as nat, pt) * pow2(rest as nat) <= u64::MAX
        },
        SearchType::Components(p) => {
            let m = p.mat_tiles as nat;
            let pt = p.parts_tiles as nat;
            let ct = p.comp_tiles as nat;
            let rest = n - m - pt - ct;
            &&& m + pt + ct <= n
            &&& rest < 64
            &&& comb_fits(n as u64, m as u64)
            &&& comb_fits((n - m) as u64, pt as u64)
            &&& comb_fits((n - m - pt) as u64, ct as u64)
            &&& binom(n, m) * binom((n - m) as nat, pt) * binom((n - m - pt) as nat, ct) * pow2(
                rest as nat,
            ) <= u64::MAX
        },
    }
}

proof fn lemma_product_bounds(a: nat, b: nat, c: nat, d: nat)
    requires
        a * b * c * d <= u64::MAX,
        d >= 1,
        c >= 1,
    ensures
        a * b <= u64::MAX,
        a * b * c <= u64::MAX,
{
    assert(a * b * c <= a * b * c * d) by (nonlinear_arith)
        requires
            d >= 1,
    ;
    assert(a * b <= a * b * c) by (nonlinear_arith)
        requires
            c >= 1,
    ;
}

fn shift_pow2(e: u64) -> (r: u64)
    requires
        e < 64,
    ensures
        r == pow2(e as nat),
{
    proof {
        vstd::bits::lemma_u64_pow2_no_overflow(e as nat);
        vstd::bits::lemma_u64_shl_is_mul(1, e);
    }
    1u64 << e
}

/// The number of layouts the search evaluates on `n` usable tiles.
pub fn total_evaluations(search: &SearchType, n: usize) -> (r: u64)
    requires
        evaluations_fit(*search, n as nat),
    ensures
        r == evaluations(*search, n as nat),
{
    let n: u64 = n as u64;
    match search {
        SearchType::Materials => shift_pow2(n),
        SearchType::Parts(p) => {
            let m: u64 = p.mat_tiles as u64;
            let pt: u64 = p.parts_tiles as u64;
            let a = comb(n, m);
            let b = comb(n - m, pt);
            let e = shift_pow2(n - m - pt);
            proof {
                vstd::arithmetic::power2::lemma_pow2_pos((n - m - pt) as nat);
                assert(a * b <= a * b * e) by (nonlinear_arith)
                    requires
                        e >= 1,
                ;
            }
            a * b * e
        },
        SearchType::Components(p) => {
            let m: u64 = p.mat_tiles as u64;
            let pt: u64 = p.parts_tiles as u64;
            let ct: u64 = p.comp_tiles as u64;
            let a = comb(n, m);
            let b = comb(n - m, pt);
            let c = comb(n - m - pt, ct);
            let e = shift_pow2(n - m - pt - ct);
            proof {
                vstd::arithmetic::power2::lemma_pow2_pos((n - m - pt - ct) as nat);
                lemma_binom_pos((n - m - pt) as nat, ct as nat);
                lemma_product_bounds(a as nat, b as nat, c as nat, e as nat);
            }
            a * b * c * e
        },
    }
}

/// `C(n, 0) + C(n, 1) + ... + C(n, m - 1)`.
pub open spec fn sum_binom(n: nat, m: nat) -> nat
    decreases m,
{
    if m == 0 {
        0
    } else {
        sum_binom(n, (m - 1) as nat) + binom(n, (m - 1) as nat)
    }
}

proof fn lemma_sum_binom_split(n: nat, m: nat)
    requires
        n >= 1,
        m >= 1,
    ensures
        sum_binom(n, m) == sum_binom((n - 1) as nat, (m - 1) as nat) + sum_binom((n - 1) as nat, m),
    decreases m,
{
    let n1 = (n - 1) as nat;
    let m1 = (m - 1) as nat;
    assert(binom(n, m1) == binom(n1, (m1 - 1) as nat) + binom(n1, m1) || m1 == 0);
    assert(sum_binom(n1, m) == sum_binom(n1, m1) + binom(n1, m1));
    if m > 1 {
        lemma_sum_binom_split(n, m1);
        assert(sum_binom(n1, m1) == sum_binom(n1, (m1 - 1) as nat) + binom(n1, (m1 - 1) as nat));
    } else {
        assert(sum_binom(n, 0) == 0);
        assert(sum_binom(n1, 0) == 0);
        assert(binom(n, 0) == 1);
        assert(binom(n1, 0) == 1);
    }
}

proof fn lemma_sum_binom_all(n: nat)
    ensures
        sum_binom(n, n + 1) == pow2(n),
    decreases n,
{
    if n == 0 {
        assert(sum_binom(0, 0) == 0);
        assert(binom(0, 0) == 1);
        assert(sum_binom(0, 1) == 1);
        vstd::arithmetic::power2::lemma2_to64();
    } else {
        let n1 = (n - 1) as nat;
        lemma_sum_binom_all(n1);
        lemma_sum_binom_split(n, n + 1);
        lemma_binom_zero(n1, n);
        assert(sum_binom(n1, n + 1) == sum_binom(n1, n));
        vstd::arithmetic::power2::lemma_pow2_unfold(n);
    }
}

/// The number of layouts with `b` boosters among `n` tiles, summed over `b < m`.
pub open spec fn layouts_by_boosters(n: nat, m: nat) -> nat
    decreases m,
{
    if m == 0 {
        0
    } else {
        layouts_by_boosters(n, (m - 1) as nat) + combs(n, (m - 1) as nat, 0).len()
    }
}

proof fn lemma_layouts_by_boosters(n: nat, m: nat)
    requires
        n <= usize::MAX,
    ensures
        layouts_by_boosters(n, m) == sum_binom(n, m),
    decreases m,
{
    if m > 0 {
        lemma_layouts_by_boosters(n, (m - 1) as nat);
        lemma_combs_facts(n, (m - 1) as nat, 0);
    }
}

/// A materials search places every number of boosters from none to all `n` tiles, each in every
/// combination of positions; together these are as many layouts as `total_evaluations` counts
/// for it, `2^n`.
pub proof fn law_materials_space(n: usize)
    ensures
        layouts_by_boosters(n as nat, n as nat + 1) == evaluations(SearchType::Materials, n as nat),
{
    lemma_layouts_by_boosters(n as nat, n as nat + 1);
    lemma_sum_binom_all(n as nat);
}

/// `x` comes before `y` in lexicographic order: they agree up to some position, where `x` holds
/// the smaller index.
pub open spec fn lex_before(x: Seq<usize>, y: Seq<usize>) -> bool {
    exists|i: int| 0 <= i < x.len() && i < y.len() && x.take(i) == y.take(i) && x[i] < y[i]
}

proof fn lemma_lex_prefix(f: usize, x: Seq<usize>, y: Seq<usize>)
    requires
        lex_before(x, y),
    ensures
        lex_before(seq![f] + x, seq![f] + y),
{
    let i = choose|i: int| 0 <= i < x.len() && i < y.len() && x.take(i) == y.take(i) && x[i] < y[i];
    let a = seq![f] + x;
    let b = seq![f] + y;
    assert(a.take(i + 1) =~= seq![f] + x.take(i));
    assert(b.take(i + 1) =~= seq![f] + y.take(i));
    assert(a[i + 1] == x[i] && b[i + 1] == y[i]);
}

proof fn lemma_combs_sorted(n: nat, k: nat, start: nat)
    requires
        start <= n <= usize::MAX,
    ensures
        forall|a: int, b: int| 0 <= a < b < combs(n, k, start).len() ==> lex_before(
            combs(n, k, start)[a],
            combs(n, k, start)[b],
        ),
    decreases k, 1nat, 0nat,
{
    if k > 0 {
        lemma_blocks_sorted(n, k, start, n);
        assert(combs(n, k, start) == blocks(n, k, start, n));
    } else {
        assert(combs(n, k, start).len() == 1);
    }
}

proof fn lemma_blocks_sorted(n: nat, k: nat, lo: nat, hi: nat)
    requires
        k >= 1,
        lo <= hi <= n <= usize::MAX,
    ensures
        forall|a: int, b: int| 0 <= a < b < blocks(n, k, lo, hi).len() ==> lex_before(
            blocks(n, k, lo, hi)[a],
            blocks(n, k, lo, hi)[b],
        ),
    decreases k, 0nat, hi,
{
    if hi > lo {
        let h1 = (hi - 1) as nat;
        lemma_blocks_sorted(n, k, lo, h1);
        lemma_blocks_facts(n, k, lo, h1);
        lemma_combs_sorted(n, (k - 1) as nat, hi);
        let b = blocks(n, k, lo, h1);
        let c = combs(n, (k - 1) as nat, hi);
        let p = prefixed(seq![h1 as usize], c);
        let all = blocks(n, k, lo, hi);
        assert(all == b + p);
        assert forall|x: int, y: int| 0 <= x < y < all.len() implies lex_before(all[x], all[y]) by {
            if y < b.len() {
                assert(all[x] == b[x] && all[y] == b[y]);
            } else if x < b.len() {
                let yi = y - b.len();
                assert(all[x] == b[x] && all[y] == p[yi]);
                assert(p[yi] == seq![h1 as usize] + c[yi]);
                assert(b[x][0] < h1);
                assert(b[x].len() == k);
                assert(b[x].take(0) =~= p[yi].take(0));
                assert(p[yi][0] == h1);
            } else {
                let xi = x - b.len();
                let yi = y - b.len();
                assert(all[x] == p[xi] && all[y] == p[yi]);
                assert(p[xi] == seq![h1 as usize] + c[xi]);
                assert(p[yi] == seq![h1 as usize] + c[yi]);
                lemma_lex_prefix(h1 as usize, c[xi], c[yi]);
            }
        }
    }
}

/// The combinations come in strictly increasing lexicographic order.
pub proof fn law_combinations_sorted(n: usize, k: usize)
    ensures
        forall|a: int, b: int| 0 <= a < b < combs(n as nat, k as nat, 0).len() ==> lex_before(
            combs(n as nat, k as nat, 0)[a],
            combs(n as nat, k as nat, 0)[b],
        ),
{
    lemma_combs_sorted(n as nat, k as nat, 0);
}

proof fn lemma_blocks_grow(n: nat, k: nat, lo: nat, a: nat, b: nat, x: Seq<usize>)
    requires
        a <= b,
        blocks(n, k, lo, a).contains(x),
    ensures
        blocks(n, k, lo, b).contains(x),
    decreases b - a,
{
    if a < b {
        let b1 = (b - 1) as nat;
        lemma_blocks_grow(n, k, lo, a, b1, x);
        let prev = blocks(n, k, lo, b1);
        let w = choose|w: int| 0 <= w < prev.len() && prev[w] == x;
        if k != 0 && b > lo {
            let p = prefixed(seq![b1 as usize], combs(n, (k - 1) as nat, b));
            assert(blocks(n, k, lo, b) == prev + p);
            assert((prev + p)[w] == x);
        } else {
            assert(prev.len() == 0);
        }
    }
}

proof fn lemma_combs_complete(n: nat, k: nat, start: nat, c: Seq<usize>)
    requires
        start <= n <= usize::MAX,
        is_combination(c, n, k, start),
    ensures
        combs(n, k, start).contains(c),
    decreases k,
{
    if k == 0 {
        assert(c =~= Seq::<usize>::empty());
        assert(combs(n, k, start)[0] == c);
    } else {
        let f = c[0];
        let rest = c.drop_first();
        assert forall|i: int| 0 <= i < rest.len() implies (f + 1) as nat <= #[trigger] rest[i] < n by {
            assert(rest[i] == c[i + 1]);
            assert(c[0] < c[i + 1]);
        }
        assert forall|i: int, j: int| 0 <= i < j < rest.len() implies rest[i] < rest[j] by {
            assert(rest[i] == c[i + 1] && rest[j] == c[j + 1]);
        }
        lemma_combs_complete(n, (k - 1) as nat, (f + 1) as nat, rest);
        let cs = combs(n, (k - 1) as nat, (f + 1) as nat);
        let j = choose|j: int| 0 <= j < cs.len() && cs[j] == rest;
        let hi = (f + 1) as nat;
        let prev = blocks(n, k, start, f as nat);
        let p = prefixed(seq![f], cs);
        assert(blocks(n, k, start, hi) == prev + p);
        assert(p[j] == seq![f] + rest);
        assert(seq![f] + rest =~= c);
        assert((prev + p)[prev.len() + j] == c);
        lemma_blocks_grow(n, k, start, hi, n, c);
        assert(combs(n, k, start) == blocks(n, k, start, n));
    }
}

} // verus!
