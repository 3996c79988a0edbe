use vstd::prelude::*;

use vstd::arithmetic::div_mod::lemma_fundamental_div_mod;

verus! {

/// Arbitrary-precision naturals as little-endian base-2^64 limb vectors.
/// Classification scores are products of many word-sized counts; comparing
/// them exactly needs products that no machine word can hold.
pub open spec fn big_val(s: Seq<u64>) -> int
    decreases s.len(),
{
    if s.len() == 0 {
        0
    } else {
        s[0] + 0x1_0000_0000_0000_0000 * big_val(s.drop_first())
    }
}

/// 2^64 to the power `n`: the weight of the limb at index `n`.
pub open spec fn pow_base(n: nat) -> int
    decreases n,
{
    if n == 0 {
        1
    } else {
        0x1_0000_0000_0000_0000 * pow_base((n - 1) as nat)
    }
}

/// The product of all entries of a factor list.
pub open spec fn prod_seq(s: Seq<u64>) -> int
    decreases s.len(),
{
    if s.len() == 0 {
        1
    } else {
        s[0] * prod_seq(s.drop_first())
    }
}

pub proof fn lemma_pow_base_pos(n: nat)
    ensures
        pow_base(n) >= 1,
    decreases n,
{
    if n > 0 {
        lemma_pow_base_pos((n - 1) as nat);
    }
}

pub proof fn lemma_big_val_nonneg(s: Seq<u64>)
    ensures
        big_val(s) >= 0,
    decreases s.len(),
{
    if s.len() > 0 {
        lemma_big_val_nonneg(s.drop_first());
    }
}

pub proof fn lemma_prod_push(s: Seq<u64>, x: u64)
    ensures
        prod_seq(s.push(x)) == prod_seq(s) * x,
    decreases s.len(),
{
    if s.len() == 0 {
        assert(s.push(x).drop_first() =~= Seq::<u64>::empty());
        assert(prod_seq(s.push(x).drop_first()) == 1);
        assert(prod_seq(s.push(x)) == x * 1);
        assert(1 * x == x) by (nonlinear_arith);
        assert(x * 1 == x) by (nonlinear_arith);
    } else {
        assert(s.push(x).drop_first() =~= s.drop_first().push(x));
        lemma_prod_push(s.drop_first(), x);
        assert(prod_seq(s.push(x)) == s[0] * (prod_seq(s.drop_first()) * x));
        assert(s[0] * (prod_seq(s.drop_first()) * x) == (s[0] * prod_seq(s.drop_first())) * x)
            by (nonlinear_arith);
    }
}

pub proof fn lemma_big_val_push(s: Seq<u64>, x: u64)
    ensures
        big_val(s.push(x)) == big_val(s) + x * pow_base(s.len()),
    decreases s.len(),
{
    if s.len() == 0 {
        assert(s.push(x).drop_first() =~= Seq::<u64>::empty());
        assert(big_val(Seq::<u64>::empty()) == 0);
        assert(s.push(x)[0] == x);
        assert(big_val(s.push(x)) == x + 0x1_0000_0000_0000_0000 * big_val(
            s.push(x).drop_first(),
        ));
        assert(x * pow_base(0) == x) by (nonlinear_arith)
            requires
                pow_base(0) == 1,
        ;
    } else {
        assert(s.push(x).drop_first() =~= s.drop_first().push(x));
        lemma_big_val_push(s.drop_first(), x);
        let b: int = 0x1_0000_0000_0000_0000;
        let n = s.len();
        assert(big_val(s.push(x)) == s[0] + b * (big_val(s.drop_first()) + x * pow_base(
            (n - 1) as nat,
        )));
        assert(pow_base(n) == b * pow_base((n - 1) as nat));
        assert(s[0] + b * (big_val(s.drop_first()) + x * pow_base((n - 1) as nat)) == (s[0] + b
            * big_val(s.drop_first())) + x * (b * pow_base((n - 1) as nat))) by (nonlinear_arith);
    }
}

pub proof fn lemma_big_val_bound(s: Seq<u64>)
    ensures
        big_val(s) < pow_base(s.len()),
    decreases s.len(),
{
    if s.len() > 0 {
        lemma_big_val_bound(s.drop_first());
        let b: int = 0x1_0000_0000_0000_0000;
        let p = pow_base((s.len() - 1) as nat);
        lemma_pow_base_pos((s.len() - 1) as nat);
        assert(s[0] + b * big_val(s.drop_first()) < b * p) by (nonlinear_arith)
            requires
                s[0] < b,
                big_val(s.drop_first()) <= p - 1,
                p >= 1,
        ;
    }
}

/// The value splits at any index into the low limbs plus the weighted high
/// limbs.
pub proof fn lemma_big_val_split(s: Seq<u64>, i: int)
    requires
        0 <= i <= s.len(),
    ensures
        big_val(s) == big_val(s.take(i)) + pow_base(i as nat) * big_val(s.skip(i)),
    decreases i,
{
    let b: int = 0x1_0000_0000_0000_0000;
    if i == 0 {
        assert(s.take(0) =~= Seq::<u64>::empty());
        assert(s.skip(0) =~= s);
        assert(1 * big_val(s) == big_val(s)) by (nonlinear_arith);
    } else {
        lemma_big_val_split(s.drop_first(), i - 1);
        assert(s.drop_first().take(i - 1) =~= s.take(i).drop_first());
        assert(s.drop_first().skip(i - 1) =~= s.skip(i));
        assert(s.take(i)[0] == s[0]);
        assert(big_val(s.take(i)) == s[0] + b * big_val(s.take(i).drop_first()));
        assert(pow_base(i as nat) == b * pow_base((i - 1) as nat));
        let lowrest = big_val(s.take(i).drop_first());
        let high = big_val(s.skip(i));
        let p = pow_base((i - 1) as nat);
        assert(big_val(s) == s[0] + b * (lowrest + p * high));
        assert(s[0] + b * (lowrest + p * high) == (s[0] + b * lowrest) + (b * p) * high)
            by (nonlinear_arith);
    }
}

/// Two equally long limb vectors that agree above index `i` are ordered as
/// their limbs at `i` when those differ.
proof fn lemma_limb_compare(p: Seq<u64>, q: Seq<u64>, i: int)
    requires
        p.len() == q.len(),
        0 <= i < p.len(),
        forall|j: int| i < j < p.len() ==> p[j] == q[j],
        p[i] > q[i],
    ensures
        big_val(p) > big_val(q),
{
    let b: int = 0x1_0000_0000_0000_0000;
    lemma_big_val_split(p, i);
    lemma_big_val_split(q, i);
    assert(p.skip(i).drop_first() =~= q.skip(i).drop_first());
    assert(big_val(p.skip(i)) == p[i] + b * big_val(p.skip(i).drop_first()));
    assert(big_val(q.skip(i)) == q[i] + b * big_val(q.skip(i).drop_first()));
    lemma_big_val_bound(p.take(i));
    lemma_big_val_bound(q.take(i));
    lemma_big_val_nonneg(p.take(i));
    lemma_big_val_nonneg(q.take(i));
    assert(p.take(i).len() == i);
    assert(q.take(i).len() == i);
    let w = pow_base(i as nat);
    lemma_pow_base_pos(i as nat);
    assert(big_val(p) > big_val(q)) by (nonlinear_arith)
        requires
            big_val(p) == big_val(p.take(i)) + w * big_val(p.skip(i)),
            big_val(q) == big_val(q.take(i)) + w * big_val(q.skip(i)),
            big_val(p.skip(i)) >= big_val(q.skip(i)) + 1,
            big_val(p.take(i)) >= 0,
            big_val(q.take(i)) < w,
            big_val(p.take(i)) < w,
            big_val(q.take(i)) >= 0,
            w >= 1,
    ;
}

/// Multiplies a limb vector by a word, with carry.
fn mul_small(a: &Vec<u64>, m: u64) -> (r: Vec<u64>)
    ensures
        big_val(r@) == big_val(a@) * m,
{
    let b_u128: u128 = 0x1_0000_0000_0000_0000u128;
    let mut out: Vec<u64> = Vec::new();
    let mut carry: u64 = 0;
    let mut i: usize = 0;
    proof {
        assert(a@.take(0) =~= Seq::<u64>::empty());
        lemma_pow_base_pos(0);
        assert(0 + pow_base(0) * 0 == big_val(a@.take(0)) * m) by (nonlinear_arith)
            requires
                big_val(a@.take(0)) == 0,
        ;
    }
    while i < a.len()
        invariant
            i <= a@.len(),
            out@.len() == i,
            b_u128 == 0x1_0000_0000_0000_0000u128,
            big_val(out@) + pow_base(i as nat) * (carry as int) == big_val(a@.take(i as int)) * m,
        decreases a@.len() - i,
    {
        let ghost out_before = out@;
        let ghost carry_before = carry as int;
        let ai: u64 = a[i];
        proof {
            assert((ai as int) * (m as int) <= 0xFFFF_FFFF_FFFF_FFFF * 0xFFFF_FFFF_FFFF_FFFF)
                by (nonlinear_arith)
                requires
                    0 <= ai as int <= 0xFFFF_FFFF_FFFF_FFFF,
                    0 <= m as int <= 0xFFFF_FFFF_FFFF_FFFF,
            ;
            assert((ai as int) * (m as int) >= 0) by (nonlinear_arith)
                requires
                    ai as int >= 0,
                    m as int >= 0,
            ;
        }
        let w: u128 = (ai as u128) * (m as u128) + (carry as u128);
        let lo: u64 = (w % b_u128) as u64;
        let hi: u64 = (w / b_u128) as u64;
        proof {
            lemma_fundamental_div_mod(w as int, b_u128 as int);
            assert((w as int) / (b_u128 as int) < 0x1_0000_0000_0000_0000) by (nonlinear_arith)
                requires
                    0 <= w as int <= 0xFFFF_FFFF_FFFF_FFFF * 0xFFFF_FFFF_FFFF_FFFF
                        + 0xFFFF_FFFF_FFFF_FFFF,
                    (w as int) == (b_u128 as int) * ((w as int) / (b_u128 as int)) + (w as int) % (
                    b_u128 as int),
                    0 <= (w as int) % (b_u128 as int) < b_u128 as int,
                    b_u128 as int == 0x1_0000_0000_0000_0000,
            ;
        }
        out.push(lo);
        proof {
            lemma_big_val_push(out_before, lo);
            assert(a@.take(i + 1) =~= a@.take(i as int).push(ai));
            lemma_big_val_push(a@.take(i as int), ai);
            assert(pow_base((i + 1) as nat) == 0x1_0000_0000_0000_0000 * pow_base(i as nat));
            assert(lo as int + 0x1_0000_0000_0000_0000 * (hi as int) == (ai as int) * (m as int)
                + carry_before) by {
                lemma_fundamental_div_mod(w as int, b_u128 as int);
            }
            assert(big_val(out@) + pow_base((i + 1) as nat) * (hi as int) == big_val(
                a@.take(i + 1),
            ) * m) by (nonlinear_arith)
                requires
                    big_val(out@) == big_val(out_before) + (lo as int) * pow_base(i as nat),
                    big_val(out_before) + pow_base(i as nat) * carry_before == big_val(
                        a@.take(i as int),
                    ) * m,
                    big_val(a@.take(i + 1)) == big_val(a@.take(i as int)) + (ai as int) * pow_base(
                        i as nat,
                    ),
                    pow_base((i + 1) as nat) == 0x1_0000_0000_0000_0000 * pow_base(i as nat),
                    lo as int + 0x1_0000_0000_0000_0000 * (hi as int) == (ai as int) * (m as int)
                        + carry_before,
            ;
        }
        carry = hi;
        i += 1;
    }
    proof {
        assert(a@.take(i as int) =~= a@);
    }
    if carry > 0 {
        let ghost out_before = out@;
        let c = carry;
        out.push(carry);
        proof {
            lemma_big_val_push(out_before, c);
            assert(out_before.len() == i as nat);
            assert((c as int) * pow_base(i as nat) == pow_base(i as nat) * (c as int))
                by (nonlinear_arith);
        }
    } else {
        proof {
            assert(pow_base(i as nat) * 0 == 0) by (nonlinear_arith);
        }
    }
    out
}

/// Multiplies the accumulator by every factor in the list.
fn mul_all(acc: Vec<u64>, fs: &Vec<u64>) -> (r: Vec<u64>)
    ensures
        big_val(r@) == big_val(acc@) * prod_seq(fs@),
{
    let ghost acc0 = acc@;
    let mut cur = acc;
    let mut i: usize = 0;
    proof {
        assert(fs@.take(0) =~= Seq::<u64>::empty());
        assert(big_val(acc0) * 1 == big_val(acc0)) by (nonlinear_arith);
    }
    while i < fs.len()
        invariant
            i <= fs@.len(),
            big_val(cur@) == big_val(acc0) * prod_seq(fs@.take(i as int)),
        decreases fs@.len() - i,
    {
        let ghost cur_before = cur@;
        let f: u64 = fs[i];
        cur = mul_small(&cur, f);
        proof {
            assert(fs@.take(i + 1) =~= fs@.take(i as int).push(f));
            lemma_prod_push(fs@.take(i as int), f);
            assert(big_val(cur@) == big_val(acc0) * prod_seq(fs@.take(i + 1))) by (nonlinear_arith)
                requires
                    big_val(cur@) == big_val(cur_before) * (f as int),
                    big_val(cur_before) == big_val(acc0) * prod_seq(fs@.take(i as int)),
                    prod_seq(fs@.take(i + 1)) == prod_seq(fs@.take(i as int)) * (f as int),
            ;
        }
        i += 1;
    }
    proof {
        assert(fs@.take(i as int) =~= fs@);
    }
    cur
}

/// The product of the two factor lists, as a limb vector.
fn product_pair(a: &Vec<u64>, b: &Vec<u64>) -> (r: Vec<u64>)
    ensures
        big_val(r@) == prod_seq(a@) * prod_seq(b@),
{
    let mut one: Vec<u64> = Vec::new();
    one.push(1);
    proof {
        assert(one@.drop_first() =~= Seq::<u64>::empty());
        assert(big_val(Seq::<u64>::empty()) == 0);
        assert(one@[0] == 1u64);
        assert(big_val(one@) == 1 + 0x1_0000_0000_0000_0000 * big_val(one@.drop_first()));
    }
    let p = mul_all(one, a);
    let r = mul_all(p, b);
    proof {
        assert(big_val(r@) == prod_seq(a@) * prod_seq(b@)) by (nonlinear_arith)
            requires
                big_val(r@) == big_val(p@) * prod_seq(b@),
                big_val(p@) == 1 * prod_seq(a@),
        ;
    }
    r
}

/// Whether the first limb vector's value is at least the second's.
fn big_ge(a: &Vec<u64>, b: &Vec<u64>) -> (r: bool)
    ensures
        r == (big_val(a@) >= big_val(b@)),
{
    let n: usize = if a.len() >= b.len() {
        a.len()
    } else {
        b.len()
    };
    let ghost pa = a@ + Seq::new((n - a@.len()) as nat, |k: int| 0u64);
    let ghost pb = b@ + Seq::new((n - b@.len()) as nat, |k: int| 0u64);
    proof {
        lemma_pad(a@, (n - a@.len()) as nat);
        lemma_pad(b@, (n - b@.len()) as nat);
    }
    let mut i: usize = n;
    while i > 0
        invariant
            i <= n,
            pa.len() == n,
            pb.len() == n,
            pa == a@ + Seq::new((n - a@.len()) as nat, |k: int| 0u64),
            pb == b@ + Seq::new((n - b@.len()) as nat, |k: int| 0u64),
            big_val(pa) == big_val(a@),
            big_val(pb) == big_val(b@),
            a@.len() <= n,
            b@.len() <= n,
            forall|j: int| i <= j < n ==> pa[j] == pb[j],
        decreases i,
    {
        i -= 1;
        let x: u64 = if i < a.len() {
            a[i]
        } else {
            0
        };
        let y: u64 = if i < b.len() {
            b[i]
        } else {
            0
        };
        proof {
            assert(x == pa[i as int]);
            assert(y == pb[i as int]);
        }
        if x > y {
            proof {
                lemma_limb_compare(pa, pb, i as int);
            }
            return true;
        }
        if x < y {
            proof {
                lemma_limb_compare(pb, pa, i as int);
            }
            return false;
        }
    }
    proof {
        assert(pa =~= pb);
    }
    true
}

/// Appending zero limbs does not change the value.
proof fn lemma_pad(s: Seq<u64>, k: nat)
    ensures
        big_val(s + Seq::new(k, |j: int| 0u64)) == big_val(s),
    decreases k,
{
    if k == 0 {
        assert(s + Seq::new(0, |j: int| 0u64) =~= s);
    } else {
        lemma_pad(s, (k - 1) as nat);
        let prev = s + Seq::new((k - 1) as nat, |j: int| 0u64);
        assert(s + Seq::new(k, |j: int| 0u64) =~= prev.push(0u64));
        lemma_big_val_push(prev, 0u64);
        assert((0u64 as int) * pow_base(prev.len()) == 0) by (nonlinear_arith);
    }
}

/// Whether `prod_seq(a) * prod_seq(b) >= prod_seq(c) * prod_seq(d)`, computed
/// exactly over arbitrary-precision products.
pub(crate) fn ge_products(a: &Vec<u64>, b: &Vec<u64>, c: &Vec<u64>, d: &Vec<u64>) -> (r: bool)
    ensures
        r == (prod_seq(a@) * prod_seq(b@) >= prod_seq(c@) * prod_seq(d@)),
{
    let p = product_pair(a, b);
    let q = product_pair(c, d);
    big_ge(&p, &q)
}

} // verus!
