use vstd::prelude::*;

verus! {

/// The base of a digit.
pub open spec fn base() -> nat {
    0x1_0000_0000
}

/// `base()` to the power `k`.
pub open spec fn base_pow(k: nat) -> nat
    decreases k,
{
    if k == 0 {
        1
    } else {
        base() * base_pow((k - 1) as nat)
    }
}

/// Digit `k` of `s` (least significant first), zero past its end.
pub open spec fn digit(s: Seq<u32>, k: int) -> nat {
    if 0 <= k < s.len() {
        s[k] as nat
    } else {
        0
    }
}

/// The value of the first `k` digits of `s`.
pub open spec fn val_upto(s: Seq<u32>, k: nat) -> nat
    decreases k,
{
    if k == 0 {
        0
    } else {
        val_upto(s, (k - 1) as nat) + digit(s, k - 1) * base_pow((k - 1) as nat)
    }
}

/// The number the digits of `s` stand for.
pub open spec fn val(s: Seq<u32>) -> nat {
    val_upto(s, s.len())
}

proof fn lemma_base_pow_pos(k: nat)
    ensures
        base_pow(k) >= 1,
    decreases k,
{
    if k > 0 {
        lemma_base_pow_pos((k - 1) as nat);
        assert(base() * base_pow((k - 1) as nat) >= 1) by (nonlinear_arith)
            requires
                base_pow((k - 1) as nat) >= 1,
                base() == 0x1_0000_0000,
        ;
    }
}

/// The first `k` digits are worth less than `base_pow(k)`.
proof fn lemma_val_upto_bound(s: Seq<u32>, k: nat)
    ensures
        val_upto(s, k) < base_pow(k),
    decreases k,
{
    if k > 0 {
        let k1 = (k - 1) as nat;
        lemma_val_upto_bound(s, k1);
        let d = digit(s, k - 1);
        assert(d < base());
        assert(val_upto(s, k1) + d * base_pow(k1) < base() * base_pow(k1)) by (nonlinear_arith)
            requires
                val_upto(s, k1) < base_pow(k1),
                d < base(),
                d >= 0,
        ;
    }
}

/// Past its end, a number has no more digits.
proof fn lemma_val_upto_past(s: Seq<u32>, k: nat)
    requires
        k >= s.len(),
    ensures
        val_upto(s, k) == val(s),
    decreases k,
{
    if k > s.len() {
        lemma_val_upto_past(s, (k - 1) as nat);
    }
}

/// Digits below `k` alone fix the value of the first `k`.
proof fn lemma_val_upto_prefix(s: Seq<u32>, t: Seq<u32>, k: nat)
    requires
        forall|i: int| 0 <= i < k ==> digit(s, i) == digit(t, i),
    ensures
        val_upto(s, k) == val_upto(t, k),
    decreases k,
{
    if k > 0 {
        lemma_val_upto_prefix(s, t, (k - 1) as nat);
    }
}

/// The sum of two numbers.
pub fn big_add(a: &Vec<u32>, b: &Vec<u32>) -> (r: Vec<u32>)
    ensures
        val(r@) == val(a@) + val(b@),
{
    let la = a.len();
    let lb = b.len();
    let l = if la > lb {
        la
    } else {
        lb
    };
    let mut r: Vec<u32> = Vec::new();
    let mut carry: u64 = 0;
    let mut k: usize = 0;
    while k < l
        invariant
            k <= l,
            l == if la > lb {
                la
            } else {
                lb
            },
            la == a@.len(),
            lb == b@.len(),
            r@.len() == k,
            carry <= 1,
            val_upto(r@, k as nat) + carry * base_pow(k as nat) == val_upto(a@, k as nat) + val_upto(b@, k as nat),
        decreases l - k,
    {
        let da: u64 = if k < la {
            a[k] as u64
        } else {
            0
        };
        let db: u64 = if k < lb {
            b[k] as u64
        } else {
            0
        };
        let x: u64 = da + db + carry;
        let lo: u64 = x % 0x1_0000_0000;
        let hi: u64 = x / 0x1_0000_0000;
        let ghost r0 = r@;
        let ghost c0 = carry;
        r.push(lo as u32);
        proof {
            assert(digit(a@, k as int) == da);
            assert(digit(b@, k as int) == db);
            assert forall|i: int| 0 <= i < k implies digit(r@, i) == digit(r0, i) by {
                assert(r@[i] == r0[i]);
            }
            lemma_val_upto_prefix(r@, r0, k as nat);
            assert(digit(r@, k as int) == lo);
            let p = base_pow(k as nat);
            assert(base_pow((k + 1) as nat) == base() * p);
            assert(lo * p + hi * (base() * p) == x * p) by (nonlinear_arith)
                requires
                    x == hi * base() + lo,
            ;
            assert(x * p == da * p + db * p + c0 * p) by (nonlinear_arith)
                requires
                    x == da + db + c0,
            ;
            assert(val_upto(r@, (k + 1) as nat) == val_upto(r@, k as nat) + lo * p);
            assert(val_upto(a@, (k + 1) as nat) == val_upto(a@, k as nat) + da * p);
            assert(val_upto(b@, (k + 1) as nat) == val_upto(b@, k as nat) + db * p);
        }
        carry = hi;
        k = k + 1;
    }
    if carry > 0 {
        let ghost r0 = r@;
        r.push(carry as u32);
        proof {
            assert forall|i: int| 0 <= i < k implies digit(r@, i) == digit(r0, i) by {
                assert(r@[i] == r0[i]);
            }
            lemma_val_upto_prefix(r@, r0, k as nat);
        }
    }
    proof {
        lemma_val_upto_past(a@, l as nat);
        lemma_val_upto_past(b@, l as nat);
    }
    r
}

/// Whether `a` stands for a smaller number than `b`.
pub fn big_lt(a: &Vec<u32>, b: &Vec<u32>) -> (r: bool)
    ensures
        r == (val(a@) < val(b@)),
{
    let la = a.len();
    let lb = b.len();
    let l = if la > lb {
        la
    } else {
        lb
    };
    proof {
        lemma_val_upto_past(a@, l as nat);
        lemma_val_upto_past(b@, l as nat);
    }
    let mut k: usize = l;
    while k > 0
        invariant
            k <= l,
            la == a@.len(),
            lb == b@.len(),
            l >= la && l >= lb,
            val(a@) - val_upto(a@, k as nat) == val(b@) - val_upto(b@, k as nat),
            val_upto(a@, k as nat) <= val(a@),
            val_upto(b@, k as nat) <= val(b@),
        decreases k,
    {
        let i = k - 1;
        let da: u32 = if i < la {
            a[i]
        } else {
            0
        };
        let db: u32 = if i < lb {
            b[i]
        } else {
            0
        };
        proof {
            assert(digit(a@, i as int) == da);
            assert(digit(b@, i as int) == db);
            lemma_val_upto_bound(a@, i as nat);
            lemma_val_upto_bound(b@, i as nat);
        }
        if da < db {
            proof {
                let p = base_pow(i as nat);
                assert(val_upto(a@, i as nat) + da * p < db * p) by (nonlinear_arith)
                    requires
                        val_upto(a@, i as nat) < p,
                        da < db,
                ;
            }
            return true;
        }
        if da > db {
            proof {
                let p = base_pow(i as nat);
                assert(val_upto(b@, i as nat) + db * p < da * p) by (nonlinear_arith)
                    requires
                        val_upto(b@, i as nat) < p,
                        db < da,
                ;
            }
            return false;
        }
        k = i;
    }
    false
}

/// A number with one digit.
pub fn big_from(x: u32) -> (r: Vec<u32>)
    ensures
        val(r@) == x,
{
    let mut r: Vec<u32> = Vec::new();
    r.push(x);
    proof {
        assert(digit(r@, 0) == x);
        assert(base_pow(0) == 1);
        assert(val_upto(r@, 1) == val_upto(r@, 0) + digit(r@, 0) * base_pow(0));
    }
    r
}


/// The binomial coefficient: the ways to choose `k` of `n` things.
pub open spec fn binom(n: nat, k: nat) -> nat
    decreases n,
{
    if k == 0 {
        1
    } else if n == 0 {
        0
    } else {
        binom((n - 1) as nat, (k - 1) as nat) + binom((n - 1) as nat, k)
    }
}

proof fn lemma_binom_past(n: nat, k: nat)
    requires
        k > n,
    ensures
        binom(n, k) == 0,
    decreases n,
{
    if n > 0 {
        lemma_binom_past((n - 1) as nat, (k - 1) as nat);
        lemma_binom_past((n - 1) as nat, k);
    }
}

/// Row `n` of Pascal's triangle: `binom(n, k)` for `k` up to `n`.
pub fn binom_row(n: usize) -> (r: Vec<Vec<u32>>)
    requires
        n < usize::MAX,
    ensures
        r@.len() == n + 1,
        forall|k: int| 0 <= k <= n ==> val((#[trigger] r@[k])@) == binom(n as nat, k as nat),
{
    let mut row: Vec<Vec<u32>> = Vec::new();
    row.push(big_from(1));
    let mut m: usize = 0;
    while m < n
        invariant
            m <= n,
            n < usize::MAX,
            row@.len() == m + 1,
            forall|k: int| 0 <= k <= m ==> val((#[trigger] row@[k])@) == binom(m as nat, k as nat),
        decreases n - m,
    {
        let mut next: Vec<Vec<u32>> = Vec::new();
        next.push(big_from(1));
        let mut k: usize = 1;
        while k <= m + 1
            invariant
                1 <= k <= m + 2,
                m < n,
                n < usize::MAX,
                row@.len() == m + 1,
                forall|t: int| 0 <= t <= m ==> val((#[trigger] row@[t])@) == binom(m as nat, t as nat),
                next@.len() == k,
                forall|t: int| 0 <= t < k ==> val((#[trigger] next@[t])@) == binom((m + 1) as nat, t as nat),
            decreases m + 2 - k,
        {
            let e = if k <= m {
                big_add(&row[k - 1], &row[k])
            } else {
                big_add(&row[k - 1], &Vec::new())
            };
            proof {
                assert(val(row@[k - 1]@) == binom(m as nat, (k - 1) as nat));
                if k > m {
                    lemma_binom_past(m as nat, k as nat);
                    assert(val(Seq::<u32>::empty()) == 0);
                }
                assert(binom((m + 1) as nat, k as nat) == binom(m as nat, (k - 1) as nat) + binom(m as nat, k as nat));
            }
            next.push(e);
            k = k + 1;
        }
        proof {
            assert(binom((m + 1) as nat, 0) == 1);
        }
        row = next;
        m = m + 1;
    }
    row
}

} // verus!
