//! The AMM ledger engine.
//!
//! [`AmmContract`] owns two logical tables — user token balances and
//! liquidity pools (plus the liquidity-share holdings that pools mint) —
//! and applies each operation as one atomic, validate-then-mutate
//! transition. Every failed operation returns a typed error and leaves the
//! state untouched.

use vstd::prelude::*;
use crate::math::spec_sqrt;
use crate::math::integer_sqrt;
use crate::math::spec_swap_output;
use crate::math::lemma_swap_output_bounds;
use crate::math::lemma_ratio_preserved;
use crate::math::lemma_share_le_reserve;
use crate::math::lemma_share_lt_reserve;
use crate::math::FEE_DENOMINATOR;
use vstd::arithmetic::div_mod::lemma_div_by_multiple;
use vstd::arithmetic::mul::lemma_mul_is_commutative;
use crate::order::token_le;
use crate::order::token_lt;
use crate::order::canon_first;
use crate::order::canon_second;
use crate::order::lemma_canonical_pair_symmetric;
use crate::order::lemma_canonical_pair_sorted;
use crate::order::str_le;

verus! {

/// The recoverable, caller-facing failures of the engine. Arithmetic
/// overflow is not among them: quantities are assumed bounded at the system
/// boundary, and the operations require the bounds that keep them inside
/// 128 bits.
#[derive(Debug, Clone, PartialEq, Eq)]
pub enum AmmError {
    /// The caller's balance of the named token is below the requested amount.
    InsufficientBalance(String),
    /// The caller holds too few liquidity shares, or the pool cannot cover them.
    InsufficientLiquidity,
    /// A deposit does not match the pool's reserve ratio, pairs a token
    /// with itself, or would found a pool with an empty side.
    InvalidRatio,
    /// No pool exists for the requested token pair.
    PoolNotFound,
    /// The swap would pay out less than the caller's stated minimum.
    SlippageExceeded,
}

/// The structured success payload of one engine operation.
#[derive(Debug, Clone, PartialEq, Eq, Structural)]
pub enum AmmOutput {
    /// New balance of the minted token.
    Minted(u128),
    /// Balance returned by a balance query.
    Balance(u128),
    /// Liquidity shares minted by a deposit.
    LiquidityAdded(u128),
    /// Token amounts paid out by a withdrawal, in caller token order.
    LiquidityRemoved(u128, u128),
    /// Output amount paid by a swap.
    Swapped(u128),
    /// Canonical reserves and total liquidity of a pool.
    Reserves(u128, u128, u128),
}

/// One pool of a canonical token pair: its two reserves and the liquidity
/// shares outstanding against them.
#[derive(Debug, Clone)]
pub struct LiquidityPool {
    /// First token of the pair, in canonical order.
    pub token_a: String,
    /// Second token of the pair, in canonical order.
    pub token_b: String,
    /// Reserve of `token_a`.
    pub reserve_a: u128,
    /// Reserve of `token_b`.
    pub reserve_b: u128,
    /// Sum of all outstanding liquidity shares of this pool.
    pub total_liquidity: u128,
}

/// The numeric state of one pool, as the contracts speak of it.
#[derive(Debug, Clone, Copy, PartialEq, Eq, Structural)]
pub struct PoolView {
    /// Reserve of the canonically first token.
    pub reserve_a: u128,
    /// Reserve of the canonically second token.
    pub reserve_b: u128,
    /// Sum of all outstanding liquidity shares.
    pub total_liquidity: u128,
}

struct TokenBalance {
    user: String,
    token: String,
    amount: u128,
}

struct LpBalance {
    user: String,
    token_a: String,
    token_b: String,
    amount: u128,
}

// ---------------------------------------------------------------------------
// Token balance table
// ---------------------------------------------------------------------------

spec fn bal_key_eq(e: TokenBalance, u: Seq<char>, t: Seq<char>) -> bool {
    e.user@ == u && e.token@ == t
}

spec fn bal_lookup(s: Seq<TokenBalance>, u: Seq<char>, t: Seq<char>) -> u128
    decreases s.len(),
{
    if s.len() == 0 {
        0
    } else if bal_key_eq(s[0], u, t) {
        s[0].amount
    } else {
        bal_lookup(s.drop_first(), u, t)
    }
}

spec fn bal_has(s: Seq<TokenBalance>, u: Seq<char>, t: Seq<char>) -> bool {
    exists|i: int| 0 <= i < s.len() && bal_key_eq(#[trigger] s[i], u, t)
}

spec fn bal_unique(s: Seq<TokenBalance>) -> bool {
    forall|i: int, j: int|
        0 <= i < j < s.len() ==> !(#[trigger] s[i].user@ == #[trigger] s[j].user@ && s[i].token@
            == s[j].token@)
}

proof fn lemma_bal_lookup_at(s: Seq<TokenBalance>, i: int)
    requires
        bal_unique(s),
        0 <= i < s.len(),
    ensures
        bal_lookup(s, s[i].user@, s[i].token@) == s[i].amount,
    decreases s.len(),
{
    if i > 0 {
        assert(!(s[0].user@ == s[i].user@ && s[0].token@ == s[i].token@));
        assert forall|x: int, y: int| 0 <= x < y < s.drop_first().len() implies !(
        #[trigger] s.drop_first()[x].user@ == #[trigger] s.drop_first()[y].user@
            && s.drop_first()[x].token@ == s.drop_first()[y].token@) by {
            assert(s.drop_first()[x] == s[x + 1]);
            assert(s.drop_first()[y] == s[y + 1]);
        }
        assert(s.drop_first()[i - 1] == s[i]);
        lemma_bal_lookup_at(s.drop_first(), i - 1);
    }
}

proof fn lemma_bal_absent(s: Seq<TokenBalance>, u: Seq<char>, t: Seq<char>)
    requires
        !bal_has(s, u, t),
    ensures
        bal_lookup(s, u, t) == 0,
    decreases s.len(),
{
    if s.len() > 0 {
        assert(!bal_key_eq(s[0], u, t));
        assert(!bal_has(s.drop_first(), u, t)) by {
            if bal_has(s.drop_first(), u, t) {
                let j = choose|j: int|
                    0 <= j < s.drop_first().len() && bal_key_eq(#[trigger] s.drop_first()[j], u, t);
                assert(s.drop_first()[j] == s[j + 1]);
                assert(bal_key_eq(s[j + 1], u, t));
            }
        }
        lemma_bal_absent(s.drop_first(), u, t);
    }
}

proof fn lemma_bal_update(s: Seq<TokenBalance>, i: int, e: TokenBalance, u: Seq<char>, t: Seq<char>)
    requires
        bal_unique(s),
        0 <= i < s.len(),
        s[i].user@ == e.user@,
        s[i].token@ == e.token@,
    ensures
        bal_lookup(s.update(i, e), u, t) == if bal_key_eq(e, u, t) {
            e.amount
        } else {
            bal_lookup(s, u, t)
        },
    decreases s.len(),
{
    let s2 = s.update(i, e);
    if i == 0 {
        assert(s2[0] == e);
        assert(s2.drop_first() =~= s.drop_first());
    } else {
        assert(s2[0] == s[0]);
        assert(!(s[0].user@ == s[i].user@ && s[0].token@ == s[i].token@));
        if bal_key_eq(s[0], u, t) {
            assert(!bal_key_eq(e, u, t));
        } else {
            assert forall|x: int, y: int| 0 <= x < y < s.drop_first().len() implies !(
            #[trigger] s.drop_first()[x].user@ == #[trigger] s.drop_first()[y].user@
                && s.drop_first()[x].token@ == s.drop_first()[y].token@) by {
                assert(s.drop_first()[x] == s[x + 1]);
                assert(s.drop_first()[y] == s[y + 1]);
            }
            assert(s.drop_first()[i - 1] == s[i]);
            lemma_bal_update(s.drop_first(), i - 1, e, u, t);
            assert(s2.drop_first() =~= s.drop_first().update(i - 1, e));
        }
    }
}

proof fn lemma_bal_update_all(s: Seq<TokenBalance>, i: int, e: TokenBalance)
    requires
        bal_unique(s),
        0 <= i < s.len(),
        s[i].user@ == e.user@,
        s[i].token@ == e.token@,
    ensures
        bal_unique(s.update(i, e)),
        forall|u: Seq<char>, t: Seq<char>|
            #[trigger] bal_lookup(s.update(i, e), u, t) == if bal_key_eq(e, u, t) {
                e.amount
            } else {
                bal_lookup(s, u, t)
            },
{
    let s2 = s.update(i, e);
    assert forall|x: int, y: int| 0 <= x < y < s2.len() implies !(#[trigger] s2[x].user@
        == #[trigger] s2[y].user@ && s2[x].token@ == s2[y].token@) by {
        assert(s2[x] == if x == i {
            e
        } else {
            s[x]
        });
        assert(s2[y] == if y == i {
            e
        } else {
            s[y]
        });
        assert(!(s[x].user@ == s[y].user@ && s[x].token@ == s[y].token@));
    }
    assert forall|u: Seq<char>, t: Seq<char>|
        #[trigger] bal_lookup(s2, u, t) == if bal_key_eq(e, u, t) {
            e.amount
        } else {
            bal_lookup(s, u, t)
        } by {
        lemma_bal_update(s, i, e, u, t);
    }
}

proof fn lemma_bal_push(s: Seq<TokenBalance>, e: TokenBalance, u: Seq<char>, t: Seq<char>)
    requires
        bal_unique(s),
        !bal_has(s, e.user@, e.token@),
    ensures
        bal_lookup(s.push(e), u, t) == if bal_key_eq(e, u, t) {
            e.amount
        } else {
            bal_lookup(s, u, t)
        },
    decreases s.len(),
{
    let s2 = s.push(e);
    if s.len() == 0 {
        assert(s2[0] == e);
        assert(s2.drop_first() =~= Seq::<TokenBalance>::empty());
        if bal_key_eq(e, u, t) {
            assert(bal_lookup(s2, u, t) == e.amount);
        } else {
            assert(bal_lookup(s2, u, t) == bal_lookup(s2.drop_first(), u, t));
            assert(bal_lookup(s2.drop_first(), u, t) == 0);
            assert(bal_lookup(s, u, t) == 0);
        }
    } else {
        assert(s2[0] == s[0]);
        if bal_key_eq(s[0], u, t) {
            if bal_key_eq(e, u, t) {
                assert(bal_key_eq(s[0], e.user@, e.token@));
                assert(bal_has(s, e.user@, e.token@));
            } else {
                assert(bal_lookup(s2, u, t) == s[0].amount);
                assert(bal_lookup(s, u, t) == s[0].amount);
            }
        } else {
            assert forall|x: int, y: int| 0 <= x < y < s.drop_first().len() implies !(
            #[trigger] s.drop_first()[x].user@ == #[trigger] s.drop_first()[y].user@
                && s.drop_first()[x].token@ == s.drop_first()[y].token@) by {
                assert(s.drop_first()[x] == s[x + 1]);
                assert(s.drop_first()[y] == s[y + 1]);
            }
            assert(!bal_has(s.drop_first(), e.user@, e.token@)) by {
                if bal_has(s.drop_first(), e.user@, e.token@) {
                    let j = choose|j: int|
                        0 <= j < s.drop_first().len() && bal_key_eq(
                            #[trigger] s.drop_first()[j],
                            e.user@,
                            e.token@,
                        );
                    assert(s.drop_first()[j] == s[j + 1]);
                    assert(bal_key_eq(s[j + 1], e.user@, e.token@));
                }
            }
            lemma_bal_push(s.drop_first(), e, u, t);
            assert(s2.drop_first() =~= s.drop_first().push(e));
            assert(bal_lookup(s2, u, t) == bal_lookup(s.drop_first().push(e), u, t));
            assert(bal_lookup(s, u, t) == bal_lookup(s.drop_first(), u, t));
        }
    }
}

proof fn lemma_bal_push_all(s: Seq<TokenBalance>, e: TokenBalance)
    requires
        bal_unique(s),
        !bal_has(s, e.user@, e.token@),
    ensures
        bal_unique(s.push(e)),
        forall|u: Seq<char>, t: Seq<char>|
            #[trigger] bal_lookup(s.push(e), u, t) == if bal_key_eq(e, u, t) {
                e.amount
            } else {
                bal_lookup(s, u, t)
            },
{
    let s2 = s.push(e);
    assert forall|x: int, y: int| 0 <= x < y < s2.len() implies !(#[trigger] s2[x].user@
        == #[trigger] s2[y].user@ && s2[x].token@ == s2[y].token@) by {
        if y == s.len() {
            assert(s2[x] == s[x]);
            assert(s2[y] == e);
            if s[x].user@ == e.user@ && s[x].token@ == e.token@ {
                assert(bal_key_eq(s[x], e.user@, e.token@));
                assert(bal_has(s, e.user@, e.token@));
            }
        } else {
            assert(s2[x] == s[x]);
            assert(s2[y] == s[y]);
            assert(!(s[x].user@ == s[y].user@ && s[x].token@ == s[y].token@));
        }
    }
    assert forall|u: Seq<char>, t: Seq<char>|
        #[trigger] bal_lookup(s2, u, t) == if bal_key_eq(e, u, t) {
            e.amount
        } else {
            bal_lookup(s, u, t)
        } by {
        lemma_bal_push(s, e, u, t);
    }
}

// ---------------------------------------------------------------------------
// Liquidity-share table
// ---------------------------------------------------------------------------

spec fn lp_key_eq(e: LpBalance, u: Seq<char>, a: Seq<char>, b: Seq<char>) -> bool {
    e.user@ == u && e.token_a@ == a && e.token_b@ == b
}

spec fn lp_lookup(s: Seq<LpBalance>, u: Seq<char>, a: Seq<char>, b: Seq<char>) -> u128
    decreases s.len(),
{
    if s.len() == 0 {
        0
    } else if lp_key_eq(s[0], u, a, b) {
        s[0].amount
    } else {
        lp_lookup(s.drop_first(), u, a, b)
    }
}

spec fn lp_has(s: Seq<LpBalance>, u: Seq<char>, a: Seq<char>, b: Seq<char>) -> bool {
    exists|i: int| 0 <= i < s.len() && lp_key_eq(#[trigger] s[i], u, a, b)
}

spec fn lp_unique(s: Seq<LpBalance>) -> bool {
    forall|i: int, j: int|
        0 <= i < j < s.len() ==> !(#[trigger] s[i].user@ == #[trigger] s[j].user@ && s[i].token_a@
            == s[j].token_a@ && s[i].token_b@ == s[j].token_b@)
}

spec fn lp_canonical(s: Seq<LpBalance>) -> bool {
    forall|i: int| 0 <= i < s.len() ==> token_lt(#[trigger] s[i].token_a@, s[i].token_b@)
}

proof fn lemma_lp_lookup_at(s: Seq<LpBalance>, i: int)
    requires
        lp_unique(s),
        0 <= i < s.len(),
    ensures
        lp_lookup(s, s[i].user@, s[i].token_a@, s[i].token_b@) == s[i].amount,
    decreases s.len(),
{
    if i > 0 {
        assert(!(s[0].user@ == s[i].user@ && s[0].token_a@ == s[i].token_a@ && s[0].token_b@
            == s[i].token_b@));
        assert forall|x: int, y: int| 0 <= x < y < s.drop_first().len() implies !(
        #[trigger] s.drop_first()[x].user@ == #[trigger] s.drop_first()[y].user@
            && s.drop_first()[x].token_a@ == s.drop_first()[y].token_a@
            && s.drop_first()[x].token_b@ == s.drop_first()[y].token_b@) by {
            assert(s.drop_first()[x] == s[x + 1]);
            assert(s.drop_first()[y] == s[y + 1]);
        }
        assert(s.drop_first()[i - 1] == s[i]);
        lemma_lp_lookup_at(s.drop_first(), i - 1);
    }
}

proof fn lemma_lp_absent(s: Seq<LpBalance>, u: Seq<char>, a: Seq<char>, b: Seq<char>)
    requires
        !lp_has(s, u, a, b),
    ensures
        lp_lookup(s, u, a, b) == 0,
    decreases s.len(),
{
    if s.len() > 0 {
        assert(!lp_key_eq(s[0], u, a, b));
        assert(!lp_has(s.drop_first(), u, a, b)) by {
            if lp_has(s.drop_first(), u, a, b) {
                let j = choose|j: int|
                    0 <= j < s.drop_first().len() && lp_key_eq(
                        #[trigger] s.drop_first()[j],
                        u,
                        a,
                        b,
                    );
                assert(s.drop_first()[j] == s[j + 1]);
                assert(lp_key_eq(s[j + 1], u, a, b));
            }
        }
        lemma_lp_absent(s.drop_first(), u, a, b);
    }
}

proof fn lemma_lp_update(
    s: Seq<LpBalance>,
    i: int,
    e: LpBalance,
    u: Seq<char>,
    a: Seq<char>,
    b: Seq<char>,
)
    requires
        lp_unique(s),
        0 <= i < s.len(),
        s[i].user@ == e.user@,
        s[i].token_a@ == e.token_a@,
        s[i].token_b@ == e.token_b@,
    ensures
        lp_lookup(s.update(i, e), u, a, b) == if lp_key_eq(e, u, a, b) {
            e.amount
        } else {
            lp_lookup(s, u, a, b)
        },
    decreases s.len(),
{
    let s2 = s.update(i, e);
    if i == 0 {
        assert(s2[0] == e);
        assert(s2.drop_first() =~= s.drop_first());
    } else {
        assert(s2[0] == s[0]);
        assert(!(s[0].user@ == s[i].user@ && s[0].token_a@ == s[i].token_a@ && s[0].token_b@
            == s[i].token_b@));
        if lp_key_eq(s[0], u, a, b) {
            assert(!lp_key_eq(e, u, a, b));
        } else {
            assert forall|x: int, y: int| 0 <= x < y < s.drop_first().len() implies !(
            #[trigger] s.drop_first()[x].user@ == #[trigger] s.drop_first()[y].user@
                && s.drop_first()[x].token_a@ == s.drop_first()[y].token_a@
                && s.drop_first()[x].token_b@ == s.drop_first()[y].token_b@) by {
                assert(s.drop_first()[x] == s[x + 1]);
                assert(s.drop_first()[y] == s[y + 1]);
            }
            assert(s.drop_first()[i - 1] == s[i]);
            lemma_lp_update(s.drop_first(), i - 1, e, u, a, b);
            assert(s2.drop_first() =~= s.drop_first().update(i - 1, e));
        }
    }
}

proof fn lemma_lp_update_all(s: Seq<LpBalance>, i: int, e: LpBalance)
    requires
        lp_unique(s),
        lp_canonical(s),
        0 <= i < s.len(),
        s[i].user@ == e.user@,
        s[i].token_a@ == e.token_a@,
        s[i].token_b@ == e.token_b@,
    ensures
        lp_unique(s.update(i, e)),
        lp_canonical(s.update(i, e)),
        forall|u: Seq<char>, a: Seq<char>, b: Seq<char>|
            #[trigger] lp_lookup(s.update(i, e), u, a, b) == if lp_key_eq(e, u, a, b) {
                e.amount
            } else {
                lp_lookup(s, u, a, b)
            },
{
    let s2 = s.update(i, e);
    assert forall|x: int, y: int| 0 <= x < y < s2.len() implies !(#[trigger] s2[x].user@
        == #[trigger] s2[y].user@ && s2[x].token_a@ == s2[y].token_a@ && s2[x].token_b@
        == s2[y].token_b@) by {
        assert(s2[x] == if x == i {
            e
        } else {
            s[x]
        });
        assert(s2[y] == if y == i {
            e
        } else {
            s[y]
        });
        assert(!(s[x].user@ == s[y].user@ && s[x].token_a@ == s[y].token_a@ && s[x].token_b@
            == s[y].token_b@));
    }
    assert forall|x: int| 0 <= x < s2.len() implies token_lt(
        #[trigger] s2[x].token_a@,
        s2[x].token_b@,
    ) by {
        assert(token_lt(s[x].token_a@, s[x].token_b@));
        assert(s2[x] == if x == i {
            e
        } else {
            s[x]
        });
    }
    assert forall|u: Seq<char>, a: Seq<char>, b: Seq<char>|
        #[trigger] lp_lookup(s2, u, a, b) == if lp_key_eq(e, u, a, b) {
            e.amount
        } else {
            lp_lookup(s, u, a, b)
        } by {
        lemma_lp_update(s, i, e, u, a, b);
    }
}

proof fn lemma_lp_push(s: Seq<LpBalance>, e: LpBalance, u: Seq<char>, a: Seq<char>, b: Seq<char>)
    requires
        lp_unique(s),
        !lp_has(s, e.user@, e.token_a@, e.token_b@),
    ensures
        lp_lookup(s.push(e), u, a, b) == if lp_key_eq(e, u, a, b) {
            e.amount
        } else {
            lp_lookup(s, u, a, b)
        },
    decreases s.len(),
{
    let s2 = s.push(e);
    if s.len() == 0 {
        assert(s2[0] == e);
        assert(s2.drop_first() =~= Seq::<LpBalance>::empty());
        if lp_key_eq(e, u, a, b) {
            assert(lp_lookup(s2, u, a, b) == e.amount);
        } else {
            assert(lp_lookup(s2, u, a, b) == lp_lookup(s2.drop_first(), u, a, b));
            assert(lp_lookup(s2.drop_first(), u, a, b) == 0);
            assert(lp_lookup(s, u, a, b) == 0);
        }
    } else {
        assert(s2[0] == s[0]);
        if lp_key_eq(s[0], u, a, b) {
            if lp_key_eq(e, u, a, b) {
                assert(lp_key_eq(s[0], e.user@, e.token_a@, e.token_b@));
                assert(lp_has(s, e.user@, e.token_a@, e.token_b@));
            } else {
                assert(lp_lookup(s2, u, a, b) == s[0].amount);
                assert(lp_lookup(s, u, a, b) == s[0].amount);
            }
        } else {
            assert forall|x: int, y: int| 0 <= x < y < s.drop_first().len() implies !(
            #[trigger] s.drop_first()[x].user@ == #[trigger] s.drop_first()[y].user@
                && s.drop_first()[x].token_a@ == s.drop_first()[y].token_a@
                && s.drop_first()[x].token_b@ == s.drop_first()[y].token_b@) by {
                assert(s.drop_first()[x] == s[x + 1]);
                assert(s.drop_first()[y] == s[y + 1]);
            }
            assert(!lp_has(s.drop_first(), e.user@, e.token_a@, e.token_b@)) by {
                if lp_has(s.drop_first(), e.user@, e.token_a@, e.token_b@) {
                    let j = choose|j: int|
                        0 <= j < s.drop_first().len() && lp_key_eq(
                            #[trigger] s.drop_first()[j],
                            e.user@,
                            e.token_a@,
                            e.token_b@,
                        );
                    assert(s.drop_first()[j] == s[j + 1]);
                    assert(lp_key_eq(s[j + 1], e.user@, e.token_a@, e.token_b@));
                }
            }
            lemma_lp_push(s.drop_first(), e, u, a, b);
            assert(s2.drop_first() =~= s.drop_first().push(e));
            assert(lp_lookup(s2, u, a, b) == lp_lookup(s.drop_first().push(e), u, a, b));
            assert(lp_lookup(s, u, a, b) == lp_lookup(s.drop_first(), u, a, b));
        }
    }
}

proof fn lemma_lp_push_all(s: Seq<LpBalance>, e: LpBalance)
    requires
        lp_unique(s),
        lp_canonical(s),
        token_lt(e.token_a@, e.token_b@),
        !lp_has(s, e.user@, e.token_a@, e.token_b@),
    ensures
        lp_unique(s.push(e)),
        lp_canonical(s.push(e)),
        forall|u: Seq<char>, a: Seq<char>, b: Seq<char>|
            #[trigger] lp_lookup(s.push(e), u, a, b) == if lp_key_eq(e, u, a, b) {
                e.amount
            } else {
                lp_lookup(s, u, a, b)
            },
{
    let s2 = s.push(e);
    assert forall|x: int, y: int| 0 <= x < y < s2.len() implies !(#[trigger] s2[x].user@
        == #[trigger] s2[y].user@ && s2[x].token_a@ == s2[y].token_a@ && s2[x].token_b@
        == s2[y].token_b@) by {
        if y == s.len() {
            assert(s2[x] == s[x]);
            assert(s2[y] == e);
            if s[x].user@ == e.user@ && s[x].token_a@ == e.token_a@ && s[x].token_b@
                == e.token_b@ {
                assert(lp_key_eq(s[x], e.user@, e.token_a@, e.token_b@));
                assert(lp_has(s, e.user@, e.token_a@, e.token_b@));
            }
        } else {
            assert(s2[x] == s[x]);
            assert(s2[y] == s[y]);
            assert(!(s[x].user@ == s[y].user@ && s[x].token_a@ == s[y].token_a@ && s[x].token_b@
                == s[y].token_b@));
        }
    }
    assert forall|x: int| 0 <= x < s2.len() implies token_lt(
        #[trigger] s2[x].token_a@,
        s2[x].token_b@,
    ) by {
        if x < s.len() {
            assert(token_lt(s[x].token_a@, s[x].token_b@));
            assert(s2[x] == s[x]);
        } else {
            assert(s2[x] == e);
        }
    }
    assert forall|u: Seq<char>, a: Seq<char>, b: Seq<char>|
        #[trigger] lp_lookup(s2, u, a, b) == if lp_key_eq(e, u, a, b) {
            e.amount
        } else {
            lp_lookup(s, u, a, b)
        } by {
        lemma_lp_push(s, e, u, a, b);
    }
}

spec fn lp_pair_sum(s: Seq<LpBalance>, a: Seq<char>, b: Seq<char>) -> int
    decreases s.len(),
{
    if s.len() == 0 {
        0
    } else {
        (if s[0].token_a@ == a && s[0].token_b@ == b {
            s[0].amount as int
        } else {
            0
        }) + lp_pair_sum(s.drop_first(), a, b)
    }
}

proof fn lemma_lp_sum_update(s: Seq<LpBalance>, i: int, e: LpBalance, a: Seq<char>, b: Seq<char>)
    requires
        0 <= i < s.len(),
        s[i].token_a@ == e.token_a@,
        s[i].token_b@ == e.token_b@,
    ensures
        lp_pair_sum(s.update(i, e), a, b) == lp_pair_sum(s, a, b) + (if e.token_a@ == a
            && e.token_b@ == b {
            e.amount - s[i].amount
        } else {
            0
        }),
    decreases s.len(),
{
    let s2 = s.update(i, e);
    if i == 0 {
        assert(s2[0] == e);
        assert(s2.drop_first() =~= s.drop_first());
    } else {
        assert(s2[0] == s[0]);
        assert(s.drop_first()[i - 1] == s[i]);
        lemma_lp_sum_update(s.drop_first(), i - 1, e, a, b);
        assert(s2.drop_first() =~= s.drop_first().update(i - 1, e));
    }
}

proof fn lemma_lp_sum_push(s: Seq<LpBalance>, e: LpBalance, a: Seq<char>, b: Seq<char>)
    ensures
        lp_pair_sum(s.push(e), a, b) == lp_pair_sum(s, a, b) + (if e.token_a@ == a && e.token_b@
            == b {
            e.amount as int
        } else {
            0
        }),
    decreases s.len(),
{
    let s2 = s.push(e);
    if s.len() == 0 {
        assert(s2[0] == e);
        assert(s2.drop_first() =~= Seq::<LpBalance>::empty());
        assert(lp_pair_sum(s2.drop_first(), a, b) == 0);
    } else {
        assert(s2[0] == s[0]);
        lemma_lp_sum_push(s.drop_first(), e, a, b);
        assert(s2.drop_first() =~= s.drop_first().push(e));
        assert(lp_pair_sum(s2, a, b) == (if s[0].token_a@ == a && s[0].token_b@ == b {
            s[0].amount as int
        } else {
            0
        }) + lp_pair_sum(s.drop_first().push(e), a, b));
    }
}

// ---------------------------------------------------------------------------
// Pool table
// ---------------------------------------------------------------------------

spec fn pool_key_eq(e: LiquidityPool, a: Seq<char>, b: Seq<char>) -> bool {
    e.token_a@ == a && e.token_b@ == b
}

spec fn pool_as_view(e: LiquidityPool) -> PoolView {
    PoolView {
        reserve_a: e.reserve_a,
        reserve_b: e.reserve_b,
        total_liquidity: e.total_liquidity,
    }
}

spec fn pool_lookup(s: Seq<LiquidityPool>, a: Seq<char>, b: Seq<char>) -> Option<PoolView>
    decreases s.len(),
{
    if s.len() == 0 {
        None
    } else if pool_key_eq(s[0], a, b) {
        Some(pool_as_view(s[0]))
    } else {
        pool_lookup(s.drop_first(), a, b)
    }
}

spec fn pool_has(s: Seq<LiquidityPool>, a: Seq<char>, b: Seq<char>) -> bool {
    exists|i: int| 0 <= i < s.len() && pool_key_eq(#[trigger] s[i], a, b)
}

spec fn pools_unique(s: Seq<LiquidityPool>) -> bool {
    forall|i: int, j: int|
        0 <= i < j < s.len() ==> !(#[trigger] s[i].token_a@ == #[trigger] s[j].token_a@
            && s[i].token_b@ == s[j].token_b@)
}

spec fn pools_canonical(s: Seq<LiquidityPool>) -> bool {
    forall|i: int| 0 <= i < s.len() ==> token_lt(#[trigger] s[i].token_a@, s[i].token_b@)
}

/// A pool is drained exactly when it has no outstanding shares: zero total
/// liquidity goes with zero reserves, and positive total liquidity with two
/// positive reserves.
pub open spec fn pool_healthy(p: PoolView) -> bool {
    &&& (p.total_liquidity == 0 ==> p.reserve_a == 0 && p.reserve_b == 0)
    &&& (p.total_liquidity > 0 ==> p.reserve_a > 0 && p.reserve_b > 0)
}

spec fn pools_healthy(s: Seq<LiquidityPool>) -> bool {
    forall|i: int| 0 <= i < s.len() ==> pool_healthy(pool_as_view(#[trigger] s[i]))
}

proof fn lemma_pool_lookup_at(s: Seq<LiquidityPool>, i: int)
    requires
        pools_unique(s),
        0 <= i < s.len(),
    ensures
        pool_lookup(s, s[i].token_a@, s[i].token_b@) == Some(pool_as_view(s[i])),
    decreases s.len(),
{
    if i > 0 {
        assert(!(s[0].token_a@ == s[i].token_a@ && s[0].token_b@ == s[i].token_b@));
        assert forall|x: int, y: int| 0 <= x < y < s.drop_first().len() implies !(
        #[trigger] s.drop_first()[x].token_a@ == #[trigger] s.drop_first()[y].token_a@
            && s.drop_first()[x].token_b@ == s.drop_first()[y].token_b@) by {
            assert(s.drop_first()[x] == s[x + 1]);
            assert(s.drop_first()[y] == s[y + 1]);
        }
        assert(s.drop_first()[i - 1] == s[i]);
        lemma_pool_lookup_at(s.drop_first(), i - 1);
    }
}

proof fn lemma_pool_absent(s: Seq<LiquidityPool>, a: Seq<char>, b: Seq<char>)
    requires
        !pool_has(s, a, b),
    ensures
        pool_lookup(s, a, b) is None,
    decreases s.len(),
{
    if s.len() > 0 {
        assert(!pool_key_eq(s[0], a, b));
        assert(!pool_has(s.drop_first(), a, b)) by {
            if pool_has(s.drop_first(), a, b) {
                let j = choose|j: int|
                    0 <= j < s.drop_first().len() && pool_key_eq(#[trigger] s.drop_first()[j], a, b);
                assert(s.drop_first()[j] == s[j + 1]);
                assert(pool_key_eq(s[j + 1], a, b));
            }
        }
        lemma_pool_absent(s.drop_first(), a, b);
    }
}

proof fn lemma_pool_update(
    s: Seq<LiquidityPool>,
    i: int,
    e: LiquidityPool,
    a: Seq<char>,
    b: Seq<char>,
)
    requires
        pools_unique(s),
        0 <= i < s.len(),
        s[i].token_a@ == e.token_a@,
        s[i].token_b@ == e.token_b@,
    ensures
        pool_lookup(s.update(i, e), a, b) == if pool_key_eq(e, a, b) {
            Some(pool_as_view(e))
        } else {
            pool_lookup(s, a, b)
        },
    decreases s.len(),
{
    let s2 = s.update(i, e);
    if i == 0 {
        assert(s2[0] == e);
        assert(s2.drop_first() =~= s.drop_first());
    } else {
        assert(s2[0] == s[0]);
        assert(!(s[0].token_a@ == s[i].token_a@ && s[0].token_b@ == s[i].token_b@));
        if pool_key_eq(s[0], a, b) {
            assert(!pool_key_eq(e, a, b));
        } else {
            assert forall|x: int, y: int| 0 <= x < y < s.drop_first().len() implies !(
            #[trigger] s.drop_first()[x].token_a@ == #[trigger] s.drop_first()[y].token_a@
                && s.drop_first()[x].token_b@ == s.drop_first()[y].token_b@) by {
                assert(s.drop_first()[x] == s[x + 1]);
                assert(s.drop_first()[y] == s[y + 1]);
            }
            assert(s.drop_first()[i - 1] == s[i]);
            lemma_pool_update(s.drop_first(), i - 1, e, a, b);
            assert(s2.drop_first() =~= s.drop_first().update(i - 1, e));
        }
    }
}

proof fn lemma_pool_update_all(s: Seq<LiquidityPool>, i: int, e: LiquidityPool)
    requires
        pools_unique(s),
        pools_canonical(s),
        pools_healthy(s),
        0 <= i < s.len(),
        s[i].token_a@ == e.token_a@,
        s[i].token_b@ == e.token_b@,
        pool_healthy(pool_as_view(e)),
    ensures
        pools_unique(s.update(i, e)),
        pools_canonical(s.update(i, e)),
        pools_healthy(s.update(i, e)),
        forall|a: Seq<char>, b: Seq<char>|
            #[trigger] pool_lookup(s.update(i, e), a, b) == if pool_key_eq(e, a, b) {
                Some(pool_as_view(e))
            } else {
                pool_lookup(s, a, b)
            },
{
    let s2 = s.update(i, e);
    assert forall|x: int, y: int| 0 <= x < y < s2.len() implies !(#[trigger] s2[x].token_a@
        == #[trigger] s2[y].token_a@ && s2[x].token_b@ == s2[y].token_b@) by {
        assert(s2[x] == if x == i {
            e
        } else {
            s[x]
        });
        assert(s2[y] == if y == i {
            e
        } else {
            s[y]
        });
        assert(!(s[x].token_a@ == s[y].token_a@ && s[x].token_b@ == s[y].token_b@));
    }
    assert forall|x: int| 0 <= x < s2.len() implies token_lt(
        #[trigger] s2[x].token_a@,
        s2[x].token_b@,
    ) && pool_healthy(pool_as_view(s2[x])) by {
        assert(token_lt(s[x].token_a@, s[x].token_b@));
        assert(pool_healthy(pool_as_view(s[x])));
        assert(s2[x] == if x == i {
            e
        } else {
            s[x]
        });
    }
    assert forall|a: Seq<char>, b: Seq<char>|
        #[trigger] pool_lookup(s2, a, b) == if pool_key_eq(e, a, b) {
            Some(pool_as_view(e))
        } else {
            pool_lookup(s, a, b)
        } by {
        lemma_pool_update(s, i, e, a, b);
    }
}

proof fn lemma_pool_push(s: Seq<LiquidityPool>, e: LiquidityPool, a: Seq<char>, b: Seq<char>)
    requires
        pools_unique(s),
        !pool_has(s, e.token_a@, e.token_b@),
    ensures
        pool_lookup(s.push(e), a, b) == if pool_key_eq(e, a, b) {
            Some(pool_as_view(e))
        } else {
            pool_lookup(s, a, b)
        },
    decreases s.len(),
{
    let s2 = s.push(e);
    if s.len() == 0 {
        assert(s2[0] == e);
        assert(s2.drop_first() =~= Seq::<LiquidityPool>::empty());
        if pool_key_eq(e, a, b) {
            assert(pool_lookup(s2, a, b) == Some(pool_as_view(e)));
        } else {
            assert(pool_lookup(s2, a, b) == pool_lookup(s2.drop_first(), a, b));
            assert(pool_lookup(s2.drop_first(), a, b) is None);
            assert(pool_lookup(s, a, b) is None);
        }
    } else {
        assert(s2[0] == s[0]);
        if pool_key_eq(s[0], a, b) {
            if pool_key_eq(e, a, b) {
                assert(pool_key_eq(s[0], e.token_a@, e.token_b@));
                assert(pool_has(s, e.token_a@, e.token_b@));
            } else {
                assert(pool_lookup(s2, a, b) == Some(pool_as_view(s[0])));
                assert(pool_lookup(s, a, b) == Some(pool_as_view(s[0])));
            }
        } else {
            assert forall|x: int, y: int| 0 <= x < y < s.drop_first().len() implies !(
            #[trigger] s.drop_first()[x].token_a@ == #[trigger] s.drop_first()[y].token_a@
                && s.drop_first()[x].token_b@ == s.drop_first()[y].token_b@) by {
                assert(s.drop_first()[x] == s[x + 1]);
                assert(s.drop_first()[y] == s[y + 1]);
            }
            assert(!pool_has(s.drop_first(), e.token_a@, e.token_b@)) by {
                if pool_has(s.drop_first(), e.token_a@, e.token_b@) {
                    let j = choose|j: int|
                        0 <= j < s.drop_first().len() && pool_key_eq(
                            #[trigger] s.drop_first()[j],
                            e.token_a@,
                            e.token_b@,
                        );
                    assert(s.drop_first()[j] == s[j + 1]);
                    assert(pool_key_eq(s[j + 1], e.token_a@, e.token_b@));
                }
            }
            lemma_pool_push(s.drop_first(), e, a, b);
            assert(s2.drop_first() =~= s.drop_first().push(e));
            assert(pool_lookup(s2, a, b) == pool_lookup(s.drop_first().push(e), a, b));
            assert(pool_lookup(s, a, b) == pool_lookup(s.drop_first(), a, b));
        }
    }
}

proof fn lemma_pool_push_all(s: Seq<LiquidityPool>, e: LiquidityPool)
    requires
        pools_unique(s),
        pools_canonical(s),
        pools_healthy(s),
        token_lt(e.token_a@, e.token_b@),
        pool_healthy(pool_as_view(e)),
        !pool_has(s, e.token_a@, e.token_b@),
    ensures
        pools_unique(s.push(e)),
        pools_canonical(s.push(e)),
        pools_healthy(s.push(e)),
        forall|a: Seq<char>, b: Seq<char>|
            #[trigger] pool_lookup(s.push(e), a, b) == if pool_key_eq(e, a, b) {
                Some(pool_as_view(e))
            } else {
                pool_lookup(s, a, b)
            },
{
    let s2 = s.push(e);
    assert forall|x: int, y: int| 0 <= x < y < s2.len() implies !(#[trigger] s2[x].token_a@
        == #[trigger] s2[y].token_a@ && s2[x].token_b@ == s2[y].token_b@) by {
        if y == s.len() {
            assert(s2[x] == s[x]);
            assert(s2[y] == e);
            if s[x].token_a@ == e.token_a@ && s[x].token_b@ == e.token_b@ {
                assert(pool_key_eq(s[x], e.token_a@, e.token_b@));
                assert(pool_has(s, e.token_a@, e.token_b@));
            }
        } else {
            assert(s2[x] == s[x]);
            assert(s2[y] == s[y]);
            assert(!(s[x].token_a@ == s[y].token_a@ && s[x].token_b@ == s[y].token_b@));
        }
    }
    assert forall|x: int| 0 <= x < s2.len() implies token_lt(
        #[trigger] s2[x].token_a@,
        s2[x].token_b@,
    ) && pool_healthy(pool_as_view(s2[x])) by {
        if x < s.len() {
            assert(token_lt(s[x].token_a@, s[x].token_b@));
            assert(pool_healthy(pool_as_view(s[x])));
            assert(s2[x] == s[x]);
        } else {
            assert(s2[x] == e);
        }
    }
    assert forall|a: Seq<char>, b: Seq<char>|
        #[trigger] pool_lookup(s2, a, b) == if pool_key_eq(e, a, b) {
            Some(pool_as_view(e))
        } else {
            pool_lookup(s, a, b)
        } by {
        lemma_pool_push(s, e, a, b);
    }
}

// ---------------------------------------------------------------------------
// The engine
// ---------------------------------------------------------------------------

/// The AMM ledger: balances, liquidity-share holdings, pools, and the
/// configured swap fee in basis points.
pub struct AmmContract {
    fee_bps: u64,
    balances: Vec<TokenBalance>,
    lp_balances: Vec<LpBalance>,
    pools: Vec<LiquidityPool>,
}

impl AmmContract {
    /// The configured swap fee in basis points.
    pub closed spec fn spec_fee(&self) -> u64 {
        self.fee_bps
    }

    /// The balance of `token` held by `user`; unknown keys hold zero.
    pub closed spec fn spec_balance(&self, user: Seq<char>, token: Seq<char>) -> u128 {
        bal_lookup(self.balances@, user, token)
    }

    /// The liquidity shares of the canonical pair `(a, b)` held by `user`.
    pub closed spec fn spec_lp(&self, user: Seq<char>, a: Seq<char>, b: Seq<char>) -> u128 {
        lp_lookup(self.lp_balances@, user, a, b)
    }

    /// The pool of the canonical pair `(a, b)`, if one has been created.
    pub closed spec fn spec_pool(&self, a: Seq<char>, b: Seq<char>) -> Option<PoolView> {
        pool_lookup(self.pools@, a, b)
    }

    /// The sum of all users' liquidity shares of the canonical pair
    /// `(a, b)`.
    pub closed spec fn spec_lp_sum(&self, a: Seq<char>, b: Seq<char>) -> int {
        lp_pair_sum(self.lp_balances@, a, b)
    }

    /// Every outstanding share is accounted for by its pool: for every
    /// pair, the users' share holdings sum to exactly the pool's total
    /// liquidity (and to zero where no pool exists). Constructors
    /// establish this and every operation preserves it.
    pub open spec fn shares_accounted(self) -> bool {
        forall|a: Seq<char>, b: Seq<char>|
            #[trigger] self.spec_lp_sum(a, b) == self.spec_total_liquidity(a, b)
    }

    /// The engine's internal invariant: keys of all tables are unique, pool
    /// and share keys are canonically ordered pairs of distinct tokens,
    /// every pool is [`pool_healthy`], and the fee is a basis-point value.
    pub closed spec fn wf(&self) -> bool {
        &&& self.fee_bps <= 10000
        &&& bal_unique(self.balances@)
        &&& lp_unique(self.lp_balances@)
        &&& lp_canonical(self.lp_balances@)
        &&& pools_unique(self.pools@)
        &&& pools_canonical(self.pools@)
        &&& pools_healthy(self.pools@)
    }

    /// Every pool the engine reports is healthy; stated as a lemma so that
    /// callers can rely on it through the closed invariant.
    pub proof fn lemma_pools_healthy(&self, a: Seq<char>, b: Seq<char>)
        requires
            self.wf(),
            self.spec_pool(a, b) is Some,
        ensures
            pool_healthy(self.spec_pool(a, b)->Some_0),
            token_lt(a, b),
    {
        lemma_pool_lookup_props(self.pools@, a, b);
    }

    /// An empty ledger with the given fee configuration.
    pub fn new(fee_bps: u64) -> (r: Self)
        requires
            fee_bps <= 10000,
        ensures
            r.wf(),
            r.spec_fee() == fee_bps,
            forall|u: Seq<char>, t: Seq<char>| #[trigger] r.spec_balance(u, t) == 0,
            forall|u: Seq<char>, a: Seq<char>, b: Seq<char>| #[trigger] r.spec_lp(u, a, b) == 0,
            forall|a: Seq<char>, b: Seq<char>| #[trigger] r.spec_pool(a, b) is None,
            r.shares_accounted(),
    {
        let r = AmmContract {
            fee_bps,
            balances: Vec::new(),
            lp_balances: Vec::new(),
            pools: Vec::new(),
        };
        proof {
            assert forall|a: Seq<char>, b: Seq<char>| #[trigger] r.spec_lp_sum(a, b)
                == r.spec_total_liquidity(a, b) by {
                assert(r.spec_lp_sum(a, b) == 0);
                assert(r.spec_pool(a, b) is None);
            }
        }
        r
    }

    /// The configured fee in basis points.
    pub fn fee_bps(&self) -> (r: u64)
        ensures
            r == self.spec_fee(),
    {
        self.fee_bps
    }

    fn find_balance(&self, user: &String, token: &String) -> (r: Option<usize>)
        ensures
            match r {
                Some(i) => i < self.balances@.len() && self.balances@[i as int].user@ == user@
                    && self.balances@[i as int].token@ == token@,
                None => !bal_has(self.balances@, user@, token@),
            },
    {
        let n = self.balances.len();
        let mut i: usize = 0;
        while i < n
            invariant
                n == self.balances@.len(),
                i <= n,
                forall|j: int|
                    0 <= j < i ==> !bal_key_eq(#[trigger] self.balances@[j], user@, token@),
            decreases n - i,
        {
            let e = &self.balances[i];
            if e.user == *user && e.token == *token {
                return Some(i);
            }
            i = i + 1;
        }
        None
    }

    fn balance_of(&self, user: &String, token: &String) -> (r: u128)
        requires
            self.wf(),
        ensures
            r == self.spec_balance(user@, token@),
    {
        match self.find_balance(user, token) {
            Some(i) => {
                proof {
                    lemma_bal_lookup_at(self.balances@, i as int);
                }
                self.balances[i].amount
            },
            None => {
                proof {
                    lemma_bal_absent(self.balances@, user@, token@);
                }
                0
            },
        }
    }

    fn set_balance(&mut self, user: &String, token: &String, amount: u128)
        requires
            old(self).wf(),
        ensures
            final(self).wf(),
            final(self).spec_balance(user@, token@) == amount,
            forall|u: Seq<char>, t: Seq<char>|
                !(u == user@ && t == token@) ==> #[trigger] final(self).spec_balance(u, t) == old(
                    self,
                ).spec_balance(u, t),
            final(self).lp_balances == old(self).lp_balances,
            final(self).pools == old(self).pools,
            final(self).fee_bps == old(self).fee_bps,
    {
        let e = TokenBalance { user: user.clone(), token: token.clone(), amount };
        match self.find_balance(user, token) {
            Some(i) => {
                proof {
                    lemma_bal_update_all(self.balances@, i as int, e);
                }
                self.balances.set(i, e);
            },
            None => {
                proof {
                    lemma_bal_push_all(self.balances@, e);
                }
                self.balances.push(e);
            },
        }
    }

    fn find_lp(&self, user: &String, a: &String, b: &String) -> (r: Option<usize>)
        ensures
            match r {
                Some(i) => i < self.lp_balances@.len() && self.lp_balances@[i as int].user@ == user@
                    && self.lp_balances@[i as int].token_a@ == a@
                    && self.lp_balances@[i as int].token_b@ == b@,
                None => !lp_has(self.lp_balances@, user@, a@, b@),
            },
    {
        let n = self.lp_balances.len();
        let mut i: usize = 0;
        while i < n
            invariant
                n == self.lp_balances@.len(),
                i <= n,
                forall|j: int|
                    0 <= j < i ==> !lp_key_eq(#[trigger] self.lp_balances@[j], user@, a@, b@),
            decreases n - i,
        {
            let e = &self.lp_balances[i];
            if e.user == *user && e.token_a == *a && e.token_b == *b {
                return Some(i);
            }
            i = i + 1;
        }
        None
    }

    fn lp_of(&self, user: &String, a: &String, b: &String) -> (r: u128)
        requires
            self.wf(),
        ensures
            r == self.spec_lp(user@, a@, b@),
    {
        match self.find_lp(user, a, b) {
            Some(i) => {
                proof {
                    lemma_lp_lookup_at(self.lp_balances@, i as int);
                }
                self.lp_balances[i].amount
            },
            None => {
                proof {
                    lemma_lp_absent(self.lp_balances@, user@, a@, b@);
                }
                0
            },
        }
    }

    fn set_lp(&mut self, user: &String, a: &String, b: &String, amount: u128)
        requires
            old(self).wf(),
            token_lt(a@, b@),
        ensures
            final(self).wf(),
            final(self).spec_lp(user@, a@, b@) == amount,
            forall|u: Seq<char>, x: Seq<char>, y: Seq<char>|
                !(u == user@ && x == a@ && y == b@) ==> #[trigger] final(self).spec_lp(u, x, y)
                    == old(self).spec_lp(u, x, y),
            forall|x: Seq<char>, y: Seq<char>|
                #[trigger] final(self).spec_lp_sum(x, y) == old(self).spec_lp_sum(x, y) + (if x
                    == a@ && y == b@ {
                    amount - old(self).spec_lp(user@, a@, b@)
                } else {
                    0
                }),
            final(self).balances == old(self).balances,
            final(self).pools == old(self).pools,
            final(self).fee_bps == old(self).fee_bps,
    {
        let e = LpBalance { user: user.clone(), token_a: a.clone(), token_b: b.clone(), amount };
        match self.find_lp(user, a, b) {
            Some(i) => {
                proof {
                    lemma_lp_lookup_at(self.lp_balances@, i as int);
                    lemma_lp_update_all(self.lp_balances@, i as int, e);
                    assert forall|x: Seq<char>, y: Seq<char>|
                        #[trigger] lp_pair_sum(self.lp_balances@.update(i as int, e), x, y)
                        == lp_pair_sum(self.lp_balances@, x, y) + (if x == a@ && y == b@ {
                        amount - self.spec_lp(user@, a@, b@)
                    } else {
                        0
                    }) by {
                        lemma_lp_sum_update(self.lp_balances@, i as int, e, x, y);
                    }
                }
                self.lp_balances.set(i, e);
            },
            None => {
                proof {
                    lemma_lp_absent(self.lp_balances@, user@, a@, b@);
                    lemma_lp_push_all(self.lp_balances@, e);
                    assert forall|x: Seq<char>, y: Seq<char>|
                        #[trigger] lp_pair_sum(self.lp_balances@.push(e), x, y) == lp_pair_sum(
                        self.lp_balances@,
                        x,
                        y,
                    ) + (if x == a@ && y == b@ {
                        amount as int
                    } else {
                        0
                    }) by {
                        lemma_lp_sum_push(self.lp_balances@, e, x, y);
                    }
                }
                self.lp_balances.push(e);
            },
        }
    }

    fn find_pool(&self, a: &String, b: &String) -> (r: Option<usize>)
        ensures
            match r {
                Some(i) => i < self.pools@.len() && self.pools@[i as int].token_a@ == a@
                    && self.pools@[i as int].token_b@ == b@,
                None => !pool_has(self.pools@, a@, b@),
            },
    {
        let n = self.pools.len();
        let mut i: usize = 0;
        while i < n
            invariant
                n == self.pools@.len(),
                i <= n,
                forall|j: int| 0 <= j < i ==> !pool_key_eq(#[trigger] self.pools@[j], a@, b@),
            decreases n - i,
        {
            let e = &self.pools[i];
            if e.token_a == *a && e.token_b == *b {
                return Some(i);
            }
            i = i + 1;
        }
        None
    }

    fn pool_view_of(&self, a: &String, b: &String) -> (r: Option<PoolView>)
        requires
            self.wf(),
        ensures
            r == self.spec_pool(a@, b@),
    {
        match self.find_pool(a, b) {
            Some(i) => {
                proof {
                    lemma_pool_lookup_at(self.pools@, i as int);
                }
                let e = &self.pools[i];
                Some(
                    PoolView {
                        reserve_a: e.reserve_a,
                        reserve_b: e.reserve_b,
                        total_liquidity: e.total_liquidity,
                    },
                )
            },
            None => {
                proof {
                    lemma_pool_absent(self.pools@, a@, b@);
                }
                None
            },
        }
    }

    fn set_pool(&mut self, a: &String, b: &String, v: PoolView)
        requires
            old(self).wf(),
            token_lt(a@, b@),
            pool_healthy(v),
        ensures
            final(self).wf(),
            final(self).spec_pool(a@, b@) == Some(v),
            forall|x: Seq<char>, y: Seq<char>|
                !(x == a@ && y == b@) ==> #[trigger] final(self).spec_pool(x, y) == old(
                    self,
                ).spec_pool(x, y),
            final(self).balances == old(self).balances,
            final(self).lp_balances == old(self).lp_balances,
            final(self).fee_bps == old(self).fee_bps,
    {
        let e = LiquidityPool {
            token_a: a.clone(),
            token_b: b.clone(),
            reserve_a: v.reserve_a,
            reserve_b: v.reserve_b,
            total_liquidity: v.total_liquidity,
        };
        match self.find_pool(a, b) {
            Some(i) => {
                proof {
                    lemma_pool_update_all(self.pools@, i as int, e);
                }
                self.pools.set(i, e);
            },
            None => {
                proof {
                    lemma_pool_push_all(self.pools@, e);
                }
                self.pools.push(e);
            },
        }
    }

    /// What [`Self::mint_tokens`] guarantees: the minted amount lands on the
    /// caller's balance of that token and nothing else moves.
    pub open spec fn mint_post(
        pre: Self,
        post: Self,
        user: Seq<char>,
        token: Seq<char>,
        amount: u128,
        r: Result<u128, AmmError>,
    ) -> bool {
        &&& (r matches Ok(nb) && nb == pre.spec_balance(user, token) + amount)
        &&& post.spec_balance(user, token) == pre.spec_balance(user, token) + amount
        &&& forall|u: Seq<char>, t: Seq<char>|
            !(u == user && t == token) ==> #[trigger] post.spec_balance(u, t) == pre.spec_balance(
                u,
                t,
            )
        &&& forall|u: Seq<char>, a: Seq<char>, b: Seq<char>|
            #[trigger] post.spec_lp(u, a, b) == pre.spec_lp(u, a, b)
        &&& forall|a: Seq<char>, b: Seq<char>|
            #[trigger] post.spec_pool(a, b) == pre.spec_pool(a, b)
        &&& post.spec_fee() == pre.spec_fee()
    }

    /// Credit `amount` of `token` to `user` unconditionally.
    ///
    /// This is a test-faucet stand-in for an external minting authority, not
    /// a production issuance policy; it is the only way tokens enter the
    /// ledger.
    pub fn mint_tokens(&mut self, user: String, token: String, amount: u128) -> (r: Result<
        u128,
        AmmError,
    >)
        requires
            old(self).wf(),
            old(self).spec_balance(user@, token@) + amount <= u128::MAX,
        ensures
            final(self).wf(),
            Self::mint_post(*old(self), *final(self), user@, token@, amount, r),
            old(self).shares_accounted() ==> final(self).shares_accounted(),
    {
        let current = self.balance_of(&user, &token);
        let updated = current + amount;
        self.set_balance(&user, &token, updated);
        proof {
            if old(self).shares_accounted() {
                assert forall|a: Seq<char>, b: Seq<char>| #[trigger] self.spec_lp_sum(a, b)
                    == self.spec_total_liquidity(a, b) by {
                    assert(self.spec_lp_sum(a, b) == old(self).spec_lp_sum(a, b));
                    assert(self.spec_pool(a, b) == old(self).spec_pool(a, b));
                    assert(old(self).spec_lp_sum(a, b) == old(self).spec_total_liquidity(a, b));
                }
            }
        }
        Ok(updated)
    }

    /// The balance of `token` held by `user`; unknown keys read as zero.
    ///
    /// A pure query: it takes `&self`, so no call to it can change the
    /// state, and its result is a function of the state alone.
    pub fn get_user_balance(&self, user: String, token: String) -> (r: u128)
        requires
            self.wf(),
        ensures
            r == self.spec_balance(user@, token@),
    {
        self.balance_of(&user, &token)
    }

    /// The canonical key of the unordered pair `{token_a, token_b}`: the two
    /// identifiers sorted into byte-lexicographic order. Every operation
    /// that touches a pool resolves it through this key, so `(A, B)` and
    /// `(B, A)` always reach the same pool.
    pub fn get_pair_key(&self, token_a: &str, token_b: &str) -> (r: (String, String))
        ensures
            r.0@ == canon_first(token_a@, token_b@),
            r.1@ == canon_second(token_a@, token_b@),
    {
        if str_le(token_a, token_b) {
            (token_a.to_owned(), token_b.to_owned())
        } else {
            (token_b.to_owned(), token_a.to_owned())
        }
    }
}

/// The amount that lands in the canonically first reserve slot when a caller
/// supplies `amount_a` of `ta` and `amount_b` of `tb`.
pub open spec fn canon_amount_first(ta: Seq<char>, tb: Seq<char>, amount_a: u128, amount_b: u128) -> u128 {
    if token_le(ta, tb) {
        amount_a
    } else {
        amount_b
    }
}

/// The amount that lands in the canonically second reserve slot.
pub open spec fn canon_amount_second(
    ta: Seq<char>,
    tb: Seq<char>,
    amount_a: u128,
    amount_b: u128,
) -> u128 {
    if token_le(ta, tb) {
        amount_b
    } else {
        amount_a
    }
}

impl AmmContract {
    /// Commit one operation's writes: the caller's two token balances, the
    /// caller's share holding of the canonical pair, and the pair's pool.
    /// All other table entries stay as they were.
    fn apply_update(
        &mut self,
        user: &String,
        token_a: &String,
        token_b: &String,
        ca: &String,
        cb: &String,
        new_bal_a: u128,
        new_bal_b: u128,
        new_lp: u128,
        v: PoolView,
    )
        requires
            old(self).wf(),
            token_lt(ca@, cb@),
            pool_healthy(v),
            token_a@ != token_b@,
        ensures
            final(self).wf(),
            final(self).spec_balance(user@, token_a@) == new_bal_a,
            final(self).spec_balance(user@, token_b@) == new_bal_b,
            final(self).spec_lp(user@, ca@, cb@) == new_lp,
            final(self).spec_pool(ca@, cb@) == Some(v),
            forall|u: Seq<char>, t: Seq<char>|
                !(u == user@ && (t == token_a@ || t == token_b@))
                    ==> #[trigger] final(self).spec_balance(u, t) == old(self).spec_balance(u, t),
            forall|u: Seq<char>, x: Seq<char>, y: Seq<char>|
                !(u == user@ && x == ca@ && y == cb@) ==> #[trigger] final(self).spec_lp(u, x, y)
                    == old(self).spec_lp(u, x, y),
            forall|x: Seq<char>, y: Seq<char>|
                !(x == ca@ && y == cb@)
                    ==> #[trigger] final(self).spec_pool(x, y) == old(self).spec_pool(x, y),
            forall|x: Seq<char>, y: Seq<char>|
                #[trigger] final(self).spec_lp_sum(x, y) == old(self).spec_lp_sum(x, y) + (if x
                    == ca@ && y == cb@ {
                    new_lp - old(self).spec_lp(user@, ca@, cb@)
                } else {
                    0
                }),
            final(self).spec_fee() == old(self).spec_fee(),
    {
        self.set_pool(ca, cb, v);
        let ghost s1 = *self;
        self.set_balance(user, token_a, new_bal_a);
        let ghost s2 = *self;
        self.set_balance(user, token_b, new_bal_b);
        let ghost s3 = *self;
        self.set_lp(user, ca, cb, new_lp);
        proof {
            assert(self.spec_balance(user@, token_a@) == s3.spec_balance(user@, token_a@));
            assert(s3.spec_balance(user@, token_a@) == s2.spec_balance(user@, token_a@));
            assert(self.spec_balance(user@, token_b@) == s3.spec_balance(user@, token_b@));
            assert(self.spec_pool(ca@, cb@) == s1.spec_pool(ca@, cb@));
            assert forall|u: Seq<char>, t: Seq<char>|
                !(u == user@ && (t == token_a@ || t == token_b@)) implies #[trigger] self
                .spec_balance(u, t) == old(self).spec_balance(u, t) by {
                assert(self.spec_balance(u, t) == s3.spec_balance(u, t));
                assert(s3.spec_balance(u, t) == s2.spec_balance(u, t));
                assert(s2.spec_balance(u, t) == s1.spec_balance(u, t));
                assert(s1.spec_balance(u, t) == old(self).spec_balance(u, t));
            }
            assert forall|u: Seq<char>, x: Seq<char>, y: Seq<char>|
                !(u == user@ && x == ca@ && y == cb@) implies #[trigger] self.spec_lp(u, x, y)
                == old(self).spec_lp(u, x, y) by {
                assert(self.spec_lp(u, x, y) == s3.spec_lp(u, x, y));
                assert(s3.spec_lp(u, x, y) == old(self).spec_lp(u, x, y));
            }
            assert forall|x: Seq<char>, y: Seq<char>|
                !(x == ca@ && y == cb@) implies #[trigger] self.spec_pool(x, y) == old(
                self,
            ).spec_pool(x, y) by {
                assert(self.spec_pool(x, y) == s1.spec_pool(x, y));
                assert(s1.spec_pool(x, y) == old(self).spec_pool(x, y));
            }
            assert(s3.spec_lp(user@, ca@, cb@) == old(self).spec_lp(user@, ca@, cb@));
            assert forall|x: Seq<char>, y: Seq<char>|
                #[trigger] self.spec_lp_sum(x, y) == old(self).spec_lp_sum(x, y) + (if x == ca@
                    && y == cb@ {
                    new_lp - old(self).spec_lp(user@, ca@, cb@)
                } else {
                    0
                }) by {
                assert(s3.spec_lp_sum(x, y) == old(self).spec_lp_sum(x, y));
                assert(self.spec_lp_sum(x, y) == s3.spec_lp_sum(x, y) + (if x == ca@ && y == cb@ {
                    new_lp - s3.spec_lp(user@, ca@, cb@)
                } else {
                    0
                }));
            }
        }
    }

    /// What a successful deposit changes: both caller balances are debited,
    /// the caller's share holding and the pool absorb exactly the deposit,
    /// and every other balance, holding and pool is untouched.
    pub open spec fn add_effects(
        pre: Self,
        post: Self,
        user: Seq<char>,
        ta: Seq<char>,
        tb: Seq<char>,
        amount_a: u128,
        amount_b: u128,
        minted: u128,
        newpool: PoolView,
    ) -> bool {
        let ca = canon_first(ta, tb);
        let cb = canon_second(ta, tb);
        &&& post.spec_balance(user, ta) == pre.spec_balance(user, ta) - amount_a
        &&& post.spec_balance(user, tb) == pre.spec_balance(user, tb) - amount_b
        &&& forall|u: Seq<char>, t: Seq<char>|
            !(u == user && (t == ta || t == tb)) ==> #[trigger] post.spec_balance(u, t)
                == pre.spec_balance(u, t)
        &&& post.spec_lp(user, ca, cb) == pre.spec_lp(user, ca, cb) + minted
        &&& forall|u: Seq<char>, x: Seq<char>, y: Seq<char>|
            !(u == user && x == ca && y == cb) ==> #[trigger] post.spec_lp(u, x, y) == pre.spec_lp(
                u,
                x,
                y,
            )
        &&& post.spec_pool(ca, cb) == Some(newpool)
        &&& forall|x: Seq<char>, y: Seq<char>|
            !(x == ca && y == cb) ==> #[trigger] post.spec_pool(x, y) == pre.spec_pool(x, y)
        &&& post.spec_fee() == pre.spec_fee()
    }

    /// What [`Self::add_liquidity`] guarantees, for every allowed input: when
    /// and with which error it fails (leaving the state untouched), and the
    /// exact minted shares and post-state when it succeeds.
    pub open spec fn add_liquidity_post(
        pre: Self,
        post: Self,
        user: Seq<char>,
        ta: Seq<char>,
        tb: Seq<char>,
        amount_a: u128,
        amount_b: u128,
        r: Result<u128, AmmError>,
    ) -> bool {
        let ca = canon_first(ta, tb);
        let cb = canon_second(ta, tb);
        let da = canon_amount_first(ta, tb, amount_a, amount_b);
        let db = canon_amount_second(ta, tb, amount_a, amount_b);
        if pre.spec_balance(user, ta) < amount_a {
            &&& (r matches Err(AmmError::InsufficientBalance(tk)) && tk@ == ta)
            &&& post == pre
        } else if pre.spec_balance(user, tb) < amount_b {
            &&& (r matches Err(AmmError::InsufficientBalance(tk)) && tk@ == tb)
            &&& post == pre
        } else if ta == tb {
            &&& r matches Err(AmmError::InvalidRatio)
            &&& post == pre
        } else {
            let pool = pre.spec_pool(ca, cb);
            let bootstrap = pool is None || pool->Some_0.total_liquidity == 0;
            if bootstrap {
                if da == 0 || db == 0 {
                    &&& r matches Err(AmmError::InvalidRatio)
                    &&& post == pre
                } else {
                    &&& (r matches Ok(minted) && minted as int == spec_sqrt(
                        da as int * db as int,
                    ) && Self::add_effects(
                        pre,
                        post,
                        user,
                        ta,
                        tb,
                        amount_a,
                        amount_b,
                        minted,
                        (PoolView { reserve_a: da, reserve_b: db, total_liquidity: minted }),
                    ))
                }
            } else {
                let p = pool->Some_0;
                if da as int * p.reserve_b as int != db as int * p.reserve_a as int {
                    &&& r matches Err(AmmError::InvalidRatio)
                    &&& post == pre
                } else {
                    &&& (r matches Ok(minted) && minted as int == (da as int
                        * p.total_liquidity as int) / (p.reserve_a as int) && Self::add_effects(
                        pre,
                        post,
                        user,
                        ta,
                        tb,
                        amount_a,
                        amount_b,
                        minted,
                        (PoolView {
                            reserve_a: (p.reserve_a + da) as u128,
                            reserve_b: (p.reserve_b + db) as u128,
                            total_liquidity: (p.total_liquidity + minted) as u128,
                        }),
                    ))
                }
            }
        }
    }

    /// The machine bounds under which a deposit stays inside 128-bit
    /// arithmetic. Quantities are assumed bounded at the system boundary;
    /// an input outside these bounds would be an overflow, which the engine
    /// treats as a contract violation rather than a recoverable error.
    pub open spec fn add_liquidity_fits(
        pre: Self,
        user: Seq<char>,
        ta: Seq<char>,
        tb: Seq<char>,
        amount_a: u128,
        amount_b: u128,
    ) -> bool {
        let ca = canon_first(ta, tb);
        let cb = canon_second(ta, tb);
        let da = canon_amount_first(ta, tb, amount_a, amount_b);
        let db = canon_amount_second(ta, tb, amount_a, amount_b);
        (pre.spec_balance(user, ta) >= amount_a && pre.spec_balance(user, tb) >= amount_b && ta
            != tb) ==> {
            let pool = pre.spec_pool(ca, cb);
            let bootstrap = pool is None || pool->Some_0.total_liquidity == 0;
            if bootstrap {
                &&& da as int * db as int <= u128::MAX
                &&& pre.spec_lp(user, ca, cb) as int + spec_sqrt(da as int * db as int)
                    <= u128::MAX
            } else {
                let p = pool->Some_0;
                let minted = (da as int * p.total_liquidity as int) / (p.reserve_a as int);
                &&& da as int * p.reserve_b as int <= u128::MAX
                &&& db as int * p.reserve_a as int <= u128::MAX
                &&& (da as int * p.reserve_b as int == db as int * p.reserve_a as int ==> {
                    &&& p.reserve_a as int + da as int <= u128::MAX
                    &&& p.reserve_b as int + db as int <= u128::MAX
                    &&& da as int * p.total_liquidity as int <= u128::MAX
                    &&& p.total_liquidity as int + minted <= u128::MAX
                    &&& pre.spec_lp(user, ca, cb) as int + minted <= u128::MAX
                })
            }
        }
    }

    /// Deposit `amount_a` of `token_a` and `amount_b` of `token_b` into the
    /// pool of the pair, minting liquidity shares to the caller.
    ///
    /// The first deposit of a pair founds its pool: it must fund both
    /// sides, sets the reserves to the deposit, and mints shares equal to
    /// the integer square root of the deposits' product. A later deposit
    /// must match the pool's reserve ratio exactly and mints shares
    /// proportionally against the pre-deposit reserve, rounding down.
    /// Nothing changes unless every check has passed.
    pub fn add_liquidity(
        &mut self,
        user: String,
        token_a: String,
        token_b: String,
        amount_a: u128,
        amount_b: u128,
    ) -> (r: Result<u128, AmmError>)
        requires
            old(self).wf(),
            Self::add_liquidity_fits(
                *old(self),
                user@,
                token_a@,
                token_b@,
                amount_a,
                amount_b,
            ),
        ensures
            final(self).wf(),
            Self::add_liquidity_post(
                *old(self),
                *final(self),
                user@,
                token_a@,
                token_b@,
                amount_a,
                amount_b,
                r,
            ),
            old(self).shares_accounted() ==> final(self).shares_accounted(),
    {
        let bal_a = self.balance_of(&user, &token_a);
        if bal_a < amount_a {
            return Err(AmmError::InsufficientBalance(token_a));
        }
        let bal_b = self.balance_of(&user, &token_b);
        if bal_b < amount_b {
            return Err(AmmError::InsufficientBalance(token_b));
        }
        if crate::order::str_eq(token_a.as_str(), token_b.as_str()) {
            return Err(AmmError::InvalidRatio);
        }
        let le = str_le(token_a.as_str(), token_b.as_str());
        let (ca, cb) = if le {
            (&token_a, &token_b)
        } else {
            (&token_b, &token_a)
        };
        let (da, db) = if le {
            (amount_a, amount_b)
        } else {
            (amount_b, amount_a)
        };
        proof {
            lemma_canonical_pair_sorted(token_a@, token_b@);
        }
        let pool = self.pool_view_of(ca, cb);
        let bootstrap = match pool {
            Some(p) => p.total_liquidity == 0,
            None => true,
        };
        if bootstrap {
            if da == 0 || db == 0 {
                return Err(AmmError::InvalidRatio);
            }
            let product = da * db;
            let minted = integer_sqrt(product);
            proof {
                assert(1 <= product) by (nonlinear_arith)
                    requires
                        1 <= da,
                        1 <= db,
                        product as int == da as int * db as int,
                ;
                assert(1 <= minted) by (nonlinear_arith)
                    requires
                        (minted as int) * (minted as int) <= product as int,
                        (product as int) < (minted as int + 1) * (minted as int + 1),
                        1 <= product,
                        0 <= minted,
                ;
            }
            let v = PoolView { reserve_a: da, reserve_b: db, total_liquidity: minted };
            let lp_prev = self.lp_of(&user, ca, cb);
            self.apply_update(
                &user,
                &token_a,
                &token_b,
                ca,
                cb,
                bal_a - amount_a,
                bal_b - amount_b,
                lp_prev + minted,
                v,
            );
            proof {
                if old(self).shares_accounted() {
                    assert forall|x: Seq<char>, y: Seq<char>| #[trigger] self.spec_lp_sum(x, y)
                        == self.spec_total_liquidity(x, y) by {
                        assert(old(self).spec_lp_sum(x, y) == old(self).spec_total_liquidity(
                            x,
                            y,
                        ));
                        if x == ca@ && y == cb@ {
                            assert(self.spec_pool(x, y) == Some(v));
                        } else {
                            assert(self.spec_pool(x, y) == old(self).spec_pool(x, y));
                        }
                    }
                }
            }
            Ok(minted)
        } else {
            let p = match pool {
                Some(p) => p,
                None => {
                    proof {
                        assert(false);
                    }
                    PoolView { reserve_a: 0, reserve_b: 0, total_liquidity: 0 }
                },
            };
            proof {
                self.lemma_pools_healthy(ca@, cb@);
            }
            let ratio_a = da * p.reserve_b;
            let ratio_b = db * p.reserve_a;
            if ratio_a != ratio_b {
                return Err(AmmError::InvalidRatio);
            }
            let minted = (da * p.total_liquidity) / p.reserve_a;
            let v = PoolView {
                reserve_a: p.reserve_a + da,
                reserve_b: p.reserve_b + db,
                total_liquidity: p.total_liquidity + minted,
            };
            let lp_prev = self.lp_of(&user, ca, cb);
            self.apply_update(
                &user,
                &token_a,
                &token_b,
                ca,
                cb,
                bal_a - amount_a,
                bal_b - amount_b,
                lp_prev + minted,
                v,
            );
            proof {
                if old(self).shares_accounted() {
                    assert forall|x: Seq<char>, y: Seq<char>| #[trigger] self.spec_lp_sum(x, y)
                        == self.spec_total_liquidity(x, y) by {
                        assert(old(self).spec_lp_sum(x, y) == old(self).spec_total_liquidity(
                            x,
                            y,
                        ));
                        if x == ca@ && y == cb@ {
                            assert(self.spec_pool(x, y) == Some(v));
                        } else {
                            assert(self.spec_pool(x, y) == old(self).spec_pool(x, y));
                        }
                    }
                }
            }
            Ok(minted)
        }
    }
}

impl AmmContract {
    /// The reserve held for token `t` in the pool of the pair `{t, other}`,
    /// or zero when no such pool exists.
    pub open spec fn spec_reserve(self, t: Seq<char>, other: Seq<char>) -> int {
        let ca = canon_first(t, other);
        let cb = canon_second(t, other);
        if self.spec_pool(ca, cb) is Some {
            let p = self.spec_pool(ca, cb)->Some_0;
            if token_le(t, other) {
                p.reserve_a as int
            } else {
                p.reserve_b as int
            }
        } else {
            0
        }
    }

    /// The liquidity shares outstanding against the pool of `{a, b}` in
    /// canonical order, or zero when no such pool exists.
    pub open spec fn spec_total_liquidity(self, ca: Seq<char>, cb: Seq<char>) -> int {
        if self.spec_pool(ca, cb) is Some {
            self.spec_pool(ca, cb)->Some_0.total_liquidity as int
        } else {
            0
        }
    }

    /// What [`Self::remove_liquidity`] guarantees: when and with which error
    /// it fails (leaving the state untouched), and the exact proportional
    /// payout and post-state when it succeeds.
    pub open spec fn remove_liquidity_post(
        pre: Self,
        post: Self,
        user: Seq<char>,
        ta: Seq<char>,
        tb: Seq<char>,
        l: u128,
        r: Result<(u128, u128), AmmError>,
    ) -> bool {
        let ca = canon_first(ta, tb);
        let cb = canon_second(ta, tb);
        let lp_bal = pre.spec_lp(user, ca, cb);
        if lp_bal < l {
            &&& r matches Err(AmmError::InsufficientLiquidity)
            &&& post == pre
        } else if pre.spec_pool(ca, cb) is None {
            &&& r matches Err(AmmError::PoolNotFound)
            &&& post == pre
        } else {
            let p = pre.spec_pool(ca, cb)->Some_0;
            if l > p.total_liquidity || p.total_liquidity == 0 {
                &&& r matches Err(AmmError::InsufficientLiquidity)
                &&& post == pre
            } else {
                let qa = (l as int * p.reserve_a as int) / (p.total_liquidity as int);
                let qb = (l as int * p.reserve_b as int) / (p.total_liquidity as int);
                let out_a = if token_le(ta, tb) {
                    qa
                } else {
                    qb
                };
                let out_b = if token_le(ta, tb) {
                    qb
                } else {
                    qa
                };
                &&& (r matches Ok(out) && out.0 as int == out_a && out.1 as int == out_b)
                &&& post.spec_balance(user, ta) == pre.spec_balance(user, ta) + out_a
                &&& post.spec_balance(user, tb) == pre.spec_balance(user, tb) + out_b
                &&& forall|u: Seq<char>, t: Seq<char>|
                    !(u == user && (t == ta || t == tb)) ==> #[trigger] post.spec_balance(u, t)
                        == pre.spec_balance(u, t)
                &&& post.spec_lp(user, ca, cb) == lp_bal - l
                &&& forall|u: Seq<char>, x: Seq<char>, y: Seq<char>|
                    !(u == user && x == ca && y == cb) ==> #[trigger] post.spec_lp(u, x, y)
                        == pre.spec_lp(u, x, y)
                &&& post.spec_pool(ca, cb) == Some(
                    (PoolView {
                        reserve_a: (p.reserve_a - qa) as u128,
                        reserve_b: (p.reserve_b - qb) as u128,
                        total_liquidity: (p.total_liquidity - l) as u128,
                    }),
                )
                &&& forall|x: Seq<char>, y: Seq<char>|
                    !(x == ca && y == cb) ==> #[trigger] post.spec_pool(x, y) == pre.spec_pool(x, y)
                &&& post.spec_fee() == pre.spec_fee()
            }
        }
    }

    /// The machine bounds under which a withdrawal stays inside 128-bit
    /// arithmetic.
    pub open spec fn remove_liquidity_fits(
        pre: Self,
        user: Seq<char>,
        ta: Seq<char>,
        tb: Seq<char>,
        l: u128,
    ) -> bool {
        let ca = canon_first(ta, tb);
        let cb = canon_second(ta, tb);
        (pre.spec_lp(user, ca, cb) >= l && pre.spec_pool(ca, cb) is Some) ==> {
            let p = pre.spec_pool(ca, cb)->Some_0;
            (l <= p.total_liquidity && p.total_liquidity > 0) ==> {
                let qa = (l as int * p.reserve_a as int) / (p.total_liquidity as int);
                let qb = (l as int * p.reserve_b as int) / (p.total_liquidity as int);
                let out_a = if token_le(ta, tb) {
                    qa
                } else {
                    qb
                };
                let out_b = if token_le(ta, tb) {
                    qb
                } else {
                    qa
                };
                &&& l as int * p.reserve_a as int <= u128::MAX
                &&& l as int * p.reserve_b as int <= u128::MAX
                &&& pre.spec_balance(user, ta) + out_a <= u128::MAX
                &&& pre.spec_balance(user, tb) + out_b <= u128::MAX
            }
        }
    }

    /// Burn `liquidity_amount` of the caller's shares of the pair's pool and
    /// pay out the proportional part of both reserves, rounding down: the
    /// pool may keep a fractional remainder but never overpays.
    ///
    /// The caller must hold the shares and the pool must be able to cover
    /// them; nothing changes on failure.
    pub fn remove_liquidity(
        &mut self,
        user: String,
        token_a: String,
        token_b: String,
        liquidity_amount: u128,
    ) -> (r: Result<(u128, u128), AmmError>)
        requires
            old(self).wf(),
            Self::remove_liquidity_fits(*old(self), user@, token_a@, token_b@, liquidity_amount),
        ensures
            final(self).wf(),
            Self::remove_liquidity_post(
                *old(self),
                *final(self),
                user@,
                token_a@,
                token_b@,
                liquidity_amount,
                r,
            ),
            old(self).shares_accounted() ==> final(self).shares_accounted(),
    {
        let le = str_le(token_a.as_str(), token_b.as_str());
        let (ca, cb) = if le {
            (&token_a, &token_b)
        } else {
            (&token_b, &token_a)
        };
        let lp_bal = self.lp_of(&user, ca, cb);
        if lp_bal < liquidity_amount {
            return Err(AmmError::InsufficientLiquidity);
        }
        let pool = self.pool_view_of(ca, cb);
        match pool {
            None => Err(AmmError::PoolNotFound),
            Some(p) => {
                if liquidity_amount > p.total_liquidity {
                    return Err(AmmError::InsufficientLiquidity);
                }
                if p.total_liquidity == 0 {
                    return Err(AmmError::InsufficientLiquidity);
                }
                proof {
                    self.lemma_pools_healthy(ca@, cb@);
                    if token_a@ == token_b@ {
                        assert(ca@ == cb@);
                        assert(!token_lt(ca@, cb@));
                    }
                    lemma_share_le_reserve(
                        liquidity_amount as int,
                        p.reserve_a as int,
                        p.total_liquidity as int,
                    );
                    lemma_share_le_reserve(
                        liquidity_amount as int,
                        p.reserve_b as int,
                        p.total_liquidity as int,
                    );
                }
                let qa = (liquidity_amount * p.reserve_a) / p.total_liquidity;
                let qb = (liquidity_amount * p.reserve_b) / p.total_liquidity;
                proof {
                    if liquidity_amount == p.total_liquidity {
                        lemma_mul_is_commutative(liquidity_amount as int, p.reserve_a as int);
                        lemma_div_by_multiple(p.reserve_a as int, p.total_liquidity as int);
                        lemma_mul_is_commutative(liquidity_amount as int, p.reserve_b as int);
                        lemma_div_by_multiple(p.reserve_b as int, p.total_liquidity as int);
                        assert(qa == p.reserve_a);
                        assert(qb == p.reserve_b);
                    } else {
                        if p.reserve_a > 0 {
                            lemma_share_lt_reserve(
                                liquidity_amount as int,
                                p.reserve_a as int,
                                p.total_liquidity as int,
                            );
                        }
                        if p.reserve_b > 0 {
                            lemma_share_lt_reserve(
                                liquidity_amount as int,
                                p.reserve_b as int,
                                p.total_liquidity as int,
                            );
                        }
                    }
                }
                let v = PoolView {
                    reserve_a: p.reserve_a - qa,
                    reserve_b: p.reserve_b - qb,
                    total_liquidity: p.total_liquidity - liquidity_amount,
                };
                let (out_a, out_b) = if le {
                    (qa, qb)
                } else {
                    (qb, qa)
                };
                let bal_a = self.balance_of(&user, &token_a);
                let bal_b = self.balance_of(&user, &token_b);
                self.apply_update(
                    &user,
                    &token_a,
                    &token_b,
                    ca,
                    cb,
                    bal_a + out_a,
                    bal_b + out_b,
                    lp_bal - liquidity_amount,
                    v,
                );
                proof {
                    if old(self).shares_accounted() {
                        assert forall|x: Seq<char>, y: Seq<char>| #[trigger] self.spec_lp_sum(
                            x,
                            y,
                        ) == self.spec_total_liquidity(x, y) by {
                            assert(old(self).spec_lp_sum(x, y) == old(
                                self,
                            ).spec_total_liquidity(x, y));
                            if x == ca@ && y == cb@ {
                                assert(self.spec_pool(x, y) == Some(v));
                            } else {
                                assert(self.spec_pool(x, y) == old(self).spec_pool(x, y));
                            }
                        }
                    }
                }
                Ok((out_a, out_b))
            },
        }
    }

    /// What [`Self::swap_exact_tokens_for_tokens`] guarantees: when and with
    /// which error it fails (leaving the state untouched), and the exact
    /// constant-product output, reserve movement and balance movement when
    /// it succeeds — including that the product of the reserves never
    /// decreases.
    pub open spec fn swap_post(
        pre: Self,
        post: Self,
        user: Seq<char>,
        tin: Seq<char>,
        tout: Seq<char>,
        amount_in: u128,
        min_out: u128,
        r: Result<u128, AmmError>,
    ) -> bool {
        let ca = canon_first(tin, tout);
        let cb = canon_second(tin, tout);
        if pre.spec_balance(user, tin) < amount_in {
            &&& (r matches Err(AmmError::InsufficientBalance(tk)) && tk@ == tin)
            &&& post == pre
        } else if pre.spec_pool(ca, cb) is None {
            &&& r matches Err(AmmError::PoolNotFound)
            &&& post == pre
        } else {
            let p = pre.spec_pool(ca, cb)->Some_0;
            if p.reserve_a == 0 || p.reserve_b == 0 {
                &&& r matches Err(AmmError::InsufficientLiquidity)
                &&& post == pre
            } else {
                let in_first = token_le(tin, tout);
                let r_in = if in_first {
                    p.reserve_a
                } else {
                    p.reserve_b
                };
                let r_out = if in_first {
                    p.reserve_b
                } else {
                    p.reserve_a
                };
                let out = spec_swap_output(
                    r_in as int,
                    r_out as int,
                    amount_in as int,
                    pre.spec_fee() as int,
                );
                if out < min_out {
                    &&& r matches Err(AmmError::SlippageExceeded)
                    &&& post == pre
                } else {
                    let new_in = r_in as int + amount_in;
                    let new_out = r_out - out;
                    &&& (r matches Ok(o) && o as int == out)
                    &&& post.spec_balance(user, tin) == pre.spec_balance(user, tin) - amount_in
                    &&& post.spec_balance(user, tout) == pre.spec_balance(user, tout) + out
                    &&& forall|u: Seq<char>, t: Seq<char>|
                        !(u == user && (t == tin || t == tout)) ==> #[trigger] post.spec_balance(
                            u,
                            t,
                        ) == pre.spec_balance(u, t)
                    &&& forall|u: Seq<char>, x: Seq<char>, y: Seq<char>|
                        #[trigger] post.spec_lp(u, x, y) == pre.spec_lp(u, x, y)
                    &&& post.spec_pool(ca, cb) == Some(
                        (if in_first {
                            PoolView {
                                reserve_a: new_in as u128,
                                reserve_b: new_out as u128,
                                total_liquidity: p.total_liquidity,
                            }
                        } else {
                            PoolView {
                                reserve_a: new_out as u128,
                                reserve_b: new_in as u128,
                                total_liquidity: p.total_liquidity,
                            }
                        }),
                    )
                    &&& forall|x: Seq<char>, y: Seq<char>|
                        !(x == ca && y == cb) ==> #[trigger] post.spec_pool(x, y) == pre.spec_pool(
                            x,
                            y,
                        )
                    &&& post.spec_fee() == pre.spec_fee()
                    &&& new_in * new_out >= p.reserve_a as int * p.reserve_b as int
                }
            }
        }
    }

    /// The machine bounds under which a swap stays inside 128-bit
    /// arithmetic.
    pub open spec fn swap_fits(
        pre: Self,
        user: Seq<char>,
        tin: Seq<char>,
        tout: Seq<char>,
        amount_in: u128,
        min_out: u128,
    ) -> bool {
        let ca = canon_first(tin, tout);
        let cb = canon_second(tin, tout);
        (pre.spec_balance(user, tin) >= amount_in && pre.spec_pool(ca, cb) is Some) ==> {
            let p = pre.spec_pool(ca, cb)->Some_0;
            (p.reserve_a > 0 && p.reserve_b > 0) ==> {
                let in_first = token_le(tin, tout);
                let r_in = if in_first {
                    p.reserve_a
                } else {
                    p.reserve_b
                };
                let r_out = if in_first {
                    p.reserve_b
                } else {
                    p.reserve_a
                };
                let w = amount_in as int * (10000 - pre.spec_fee() as int);
                let out = spec_swap_output(
                    r_in as int,
                    r_out as int,
                    amount_in as int,
                    pre.spec_fee() as int,
                );
                &&& w <= u128::MAX
                &&& w * r_out as int <= u128::MAX
                &&& r_in as int * 10000 + w <= u128::MAX
                &&& (out >= min_out ==> r_in as int + amount_in as int <= u128::MAX
                    && pre.spec_balance(user, tout) + out <= u128::MAX)
            }
        }
    }

    /// Swap exactly `amount_in` of `token_in` for `token_out` at the pool's
    /// constant-product price, after deducting the configured fee from the
    /// input; fails `SlippageExceeded` if the output falls below
    /// `min_amount_out`. Nothing changes unless every check has passed.
    pub fn swap_exact_tokens_for_tokens(
        &mut self,
        user: String,
        token_in: String,
        token_out: String,
        amount_in: u128,
        min_amount_out: u128,
    ) -> (r: Result<u128, AmmError>)
        requires
            old(self).wf(),
            Self::swap_fits(*old(self), user@, token_in@, token_out@, amount_in, min_amount_out),
        ensures
            final(self).wf(),
            Self::swap_post(
                *old(self),
                *final(self),
                user@,
                token_in@,
                token_out@,
                amount_in,
                min_amount_out,
                r,
            ),
            old(self).shares_accounted() ==> final(self).shares_accounted(),
    {
        let bal_in = self.balance_of(&user, &token_in);
        if bal_in < amount_in {
            return Err(AmmError::InsufficientBalance(token_in));
        }
        let le = str_le(token_in.as_str(), token_out.as_str());
        let (ca, cb) = if le {
            (&token_in, &token_out)
        } else {
            (&token_out, &token_in)
        };
        let pool = self.pool_view_of(ca, cb);
        let p = match pool {
            None => {
                return Err(AmmError::PoolNotFound);
            },
            Some(p) => p,
        };
        if p.reserve_a == 0 || p.reserve_b == 0 {
            return Err(AmmError::InsufficientLiquidity);
        }
        proof {
            self.lemma_pools_healthy(ca@, cb@);
            if token_in@ == token_out@ {
                assert(ca@ == cb@);
                assert(!token_lt(ca@, cb@));
            }
        }
        let (r_in, r_out) = if le {
            (p.reserve_a, p.reserve_b)
        } else {
            (p.reserve_b, p.reserve_a)
        };
        let fee = self.fee_bps;
        proof {
            lemma_swap_output_bounds(r_in as int, r_out as int, amount_in as int, fee as int);
        }
        let w = amount_in * ((FEE_DENOMINATOR - fee) as u128);
        let num = w * r_out;
        let den = r_in * (FEE_DENOMINATOR as u128) + w;
        let out = num / den;
        if out < min_amount_out {
            return Err(AmmError::SlippageExceeded);
        }
        let v = if le {
            PoolView {
                reserve_a: r_in + amount_in,
                reserve_b: r_out - out,
                total_liquidity: p.total_liquidity,
            }
        } else {
            PoolView {
                reserve_a: r_out - out,
                reserve_b: r_in + amount_in,
                total_liquidity: p.total_liquidity,
            }
        };
        let ghost pre = *self;
        let lp_prev = self.lp_of(&user, ca, cb);
        let bal_out = self.balance_of(&user, &token_out);
        self.apply_update(
            &user,
            &token_in,
            &token_out,
            ca,
            cb,
            bal_in - amount_in,
            bal_out + out,
            lp_prev,
            v,
        );
        proof {
            lemma_mul_is_commutative(p.reserve_a as int, p.reserve_b as int);
            assert forall|u: Seq<char>, x: Seq<char>, y: Seq<char>| #[trigger] self.spec_lp(
                u,
                x,
                y,
            ) == pre.spec_lp(u, x, y) by {
                if u == user@ && x == ca@ && y == cb@ {
                    assert(self.spec_lp(u, x, y) == lp_prev);
                } else {
                    assert(self.spec_lp(u, x, y) == pre.spec_lp(u, x, y));
                }
            }
            if old(self).shares_accounted() {
                assert forall|x: Seq<char>, y: Seq<char>| #[trigger] self.spec_lp_sum(x, y)
                    == self.spec_total_liquidity(x, y) by {
                    assert(old(self).spec_lp_sum(x, y) == old(self).spec_total_liquidity(x, y));
                    if x == ca@ && y == cb@ {
                        assert(self.spec_pool(x, y) == Some(v));
                    } else {
                        assert(self.spec_pool(x, y) == old(self).spec_pool(x, y));
                    }
                }
            }
        }
        Ok(out)
    }

    /// The canonical reserves and total liquidity of the pair's pool, or
    /// `PoolNotFound` if no pool exists.
    ///
    /// A pure query: it takes `&self`, so no call to it can change the
    /// state, and its result is a function of the state alone.
    pub fn get_reserves(&self, token_a: String, token_b: String) -> (r: Result<
        (u128, u128, u128),
        AmmError,
    >)
        requires
            self.wf(),
        ensures
            match self.spec_pool(
                canon_first(token_a@, token_b@),
                canon_second(token_a@, token_b@),
            ) {
                Some(p) => r == Ok::<_, AmmError>((p.reserve_a, p.reserve_b, p.total_liquidity)),
                None => r == Err::<(u128, u128, u128), _>(AmmError::PoolNotFound),
            },
    {
        let le = str_le(token_a.as_str(), token_b.as_str());
        let (ca, cb) = if le {
            (&token_a, &token_b)
        } else {
            (&token_b, &token_a)
        };
        match self.pool_view_of(ca, cb) {
            Some(p) => Ok((p.reserve_a, p.reserve_b, p.total_liquidity)),
            None => Err(AmmError::PoolNotFound),
        }
    }

    /// The caller's liquidity shares of the pair's pool; zero for unknown
    /// pairs. A pure query.
    pub fn get_lp_balance(&self, user: String, token_a: String, token_b: String) -> (r: u128)
        requires
            self.wf(),
        ensures
            r == self.spec_lp(
                user@,
                canon_first(token_a@, token_b@),
                canon_second(token_a@, token_b@),
            ),
    {
        let le = str_le(token_a.as_str(), token_b.as_str());
        let (ca, cb) = if le {
            (&token_a, &token_b)
        } else {
            (&token_b, &token_a)
        };
        self.lp_of(&user, ca, cb)
    }

    /// Law: a deposit in the pool's exact reserve ratio preserves that
    /// ratio — the post-state reserves stand in the same proportion as the
    /// pre-state reserves.
    pub proof fn lemma_add_liquidity_preserves_ratio(
        pre: Self,
        post: Self,
        user: Seq<char>,
        ta: Seq<char>,
        tb: Seq<char>,
        amount_a: u128,
        amount_b: u128,
        r: Result<u128, AmmError>,
    )
        requires
            pre.wf(),
            Self::add_liquidity_fits(pre, user, ta, tb, amount_a, amount_b),
            Self::add_liquidity_post(pre, post, user, ta, tb, amount_a, amount_b, r),
            r is Ok,
            pre.spec_pool(canon_first(ta, tb), canon_second(ta, tb)) is Some,
            pre.spec_pool(canon_first(ta, tb), canon_second(ta, tb))->Some_0.total_liquidity > 0,
        ensures
            ({
                let p = pre.spec_pool(canon_first(ta, tb), canon_second(ta, tb))->Some_0;
                let q = post.spec_pool(canon_first(ta, tb), canon_second(ta, tb))->Some_0;
                q.reserve_a as int * p.reserve_b as int == q.reserve_b as int * p.reserve_a as int
            }),
    {
        let ca = canon_first(ta, tb);
        let cb = canon_second(ta, tb);
        let p = pre.spec_pool(ca, cb)->Some_0;
        let da = canon_amount_first(ta, tb, amount_a, amount_b);
        let db = canon_amount_second(ta, tb, amount_a, amount_b);
        assert(da as int * p.reserve_b as int == db as int * p.reserve_a as int);
        lemma_ratio_preserved(p.reserve_a as int, p.reserve_b as int, da as int, db as int);
        let q = post.spec_pool(ca, cb)->Some_0;
        assert(q.reserve_a as int == p.reserve_a as int + da as int);
        assert(q.reserve_b as int == p.reserve_b as int + db as int);
    }

    /// Law: a successful swap conserves each of the two tokens — what
    /// leaves the caller's balance enters the pool's reserve, and what
    /// leaves the reserve enters the caller's balance.
    pub proof fn lemma_swap_conservation(
        pre: Self,
        post: Self,
        user: Seq<char>,
        tin: Seq<char>,
        tout: Seq<char>,
        amount_in: u128,
        min_out: u128,
        r: Result<u128, AmmError>,
    )
        requires
            pre.wf(),
            Self::swap_fits(pre, user, tin, tout, amount_in, min_out),
            Self::swap_post(pre, post, user, tin, tout, amount_in, min_out, r),
            tin != tout,
            r is Ok,
        ensures
            post.spec_balance(user, tin) + post.spec_reserve(tin, tout) == pre.spec_balance(
                user,
                tin,
            ) + pre.spec_reserve(tin, tout),
            post.spec_balance(user, tout) + post.spec_reserve(tout, tin) == pre.spec_balance(
                user,
                tout,
            ) + pre.spec_reserve(tout, tin),
    {
        lemma_canonical_pair_symmetric(tin, tout);
        crate::order::lemma_lex_le_total(
            vstd::utf8::encode_utf8(tin),
            vstd::utf8::encode_utf8(tout),
        );
        if token_le(tin, tout) && token_le(tout, tin) {
            crate::order::lemma_lex_le_antisymmetric(
                vstd::utf8::encode_utf8(tin),
                vstd::utf8::encode_utf8(tout),
            );
            crate::order::lemma_utf8_injective(tin, tout);
        }
        let ca = canon_first(tin, tout);
        let cb = canon_second(tin, tout);
        let p = pre.spec_pool(ca, cb)->Some_0;
        let in_first = token_le(tin, tout);
        let r_in = if in_first {
            p.reserve_a
        } else {
            p.reserve_b
        };
        let r_out = if in_first {
            p.reserve_b
        } else {
            p.reserve_a
        };
        lemma_swap_output_bounds(
            r_in as int,
            r_out as int,
            amount_in as int,
            pre.spec_fee() as int,
        );
    }

    /// Law: a successful deposit conserves each of the two tokens and mints
    /// exactly as many shares to the caller as it adds to the pool's total.
    pub proof fn lemma_add_liquidity_conservation(
        pre: Self,
        post: Self,
        user: Seq<char>,
        ta: Seq<char>,
        tb: Seq<char>,
        amount_a: u128,
        amount_b: u128,
        r: Result<u128, AmmError>,
    )
        requires
            pre.wf(),
            Self::add_liquidity_fits(pre, user, ta, tb, amount_a, amount_b),
            Self::add_liquidity_post(pre, post, user, ta, tb, amount_a, amount_b, r),
            r is Ok,
        ensures
            post.spec_balance(user, ta) + post.spec_reserve(ta, tb) == pre.spec_balance(user, ta)
                + pre.spec_reserve(ta, tb),
            post.spec_balance(user, tb) + post.spec_reserve(tb, ta) == pre.spec_balance(user, tb)
                + pre.spec_reserve(tb, ta),
            post.spec_lp(user, canon_first(ta, tb), canon_second(ta, tb)) - pre.spec_lp(
                user,
                canon_first(ta, tb),
                canon_second(ta, tb),
            ) == post.spec_total_liquidity(canon_first(ta, tb), canon_second(ta, tb))
                - pre.spec_total_liquidity(canon_first(ta, tb), canon_second(ta, tb)),
    {
        let ca = canon_first(ta, tb);
        let cb = canon_second(ta, tb);
        assert(ta != tb);
        lemma_canonical_pair_symmetric(ta, tb);
        crate::order::lemma_lex_le_total(vstd::utf8::encode_utf8(ta), vstd::utf8::encode_utf8(tb));
        if token_le(ta, tb) && token_le(tb, ta) {
            crate::order::lemma_lex_le_antisymmetric(
                vstd::utf8::encode_utf8(ta),
                vstd::utf8::encode_utf8(tb),
            );
            crate::order::lemma_utf8_injective(ta, tb);
        }
        if pre.spec_pool(ca, cb) is Some {
            pre.lemma_pools_healthy(ca, cb);
        }
    }

    /// Law: a successful withdrawal conserves each of the two tokens and
    /// burns exactly as many of the caller's shares as it removes from the
    /// pool's total.
    pub proof fn lemma_remove_liquidity_conservation(
        pre: Self,
        post: Self,
        user: Seq<char>,
        ta: Seq<char>,
        tb: Seq<char>,
        l: u128,
        r: Result<(u128, u128), AmmError>,
    )
        requires
            pre.wf(),
            Self::remove_liquidity_post(pre, post, user, ta, tb, l, r),
            r is Ok,
        ensures
            post.spec_balance(user, ta) + post.spec_reserve(ta, tb) == pre.spec_balance(user, ta)
                + pre.spec_reserve(ta, tb),
            post.spec_balance(user, tb) + post.spec_reserve(tb, ta) == pre.spec_balance(user, tb)
                + pre.spec_reserve(tb, ta),
            post.spec_lp(user, canon_first(ta, tb), canon_second(ta, tb)) - pre.spec_lp(
                user,
                canon_first(ta, tb),
                canon_second(ta, tb),
            ) == post.spec_total_liquidity(canon_first(ta, tb), canon_second(ta, tb))
                - pre.spec_total_liquidity(canon_first(ta, tb), canon_second(ta, tb)),
    {
        let ca = canon_first(ta, tb);
        let cb = canon_second(ta, tb);
        let p = pre.spec_pool(ca, cb)->Some_0;
        pre.lemma_pools_healthy(ca, cb);
        if ta == tb {
            assert(ca == cb);
            assert(!token_lt(ca, cb));
        }
        lemma_canonical_pair_symmetric(ta, tb);
        crate::order::lemma_lex_le_total(vstd::utf8::encode_utf8(ta), vstd::utf8::encode_utf8(tb));
        if token_le(ta, tb) && token_le(tb, ta) {
            crate::order::lemma_lex_le_antisymmetric(
                vstd::utf8::encode_utf8(ta),
                vstd::utf8::encode_utf8(tb),
            );
            crate::order::lemma_utf8_injective(ta, tb);
        }
        lemma_share_le_reserve(l as int, p.reserve_a as int, p.total_liquidity as int);
        lemma_share_le_reserve(l as int, p.reserve_b as int, p.total_liquidity as int);
    }
}

/// A plain-data snapshot of the whole ledger state, for the hosting system
/// to persist and restore across invocations.
#[derive(Debug)]
pub struct AmmSnapshot {
    /// The configured fee in basis points.
    pub fee_bps: u64,
    /// All token balances, as `(user, token, amount)` entries.
    pub balances: Vec<(String, String, u128)>,
    /// All liquidity-share holdings, as `(user, token_a, token_b, amount)`
    /// entries with the pair in canonical order.
    pub lp_balances: Vec<(String, String, String, u128)>,
    /// All pools.
    pub pools: Vec<LiquidityPool>,
}

/// The balance a snapshot assigns to a key: the last entry with that key,
/// or zero.
pub open spec fn snapshot_balance(
    s: Seq<(String, String, u128)>,
    u: Seq<char>,
    t: Seq<char>,
) -> u128
    decreases s.len(),
{
    if s.len() == 0 {
        0
    } else if s.last().0@ == u && s.last().1@ == t {
        s.last().2
    } else {
        snapshot_balance(s.drop_last(), u, t)
    }
}

/// The liquidity-share holding a snapshot assigns to a key: the last entry
/// with that key, or zero.
pub open spec fn snapshot_lp(
    s: Seq<(String, String, String, u128)>,
    u: Seq<char>,
    a: Seq<char>,
    b: Seq<char>,
) -> u128
    decreases s.len(),
{
    if s.len() == 0 {
        0
    } else if s.last().0@ == u && s.last().1@ == a && s.last().2@ == b {
        s.last().3
    } else {
        snapshot_lp(s.drop_last(), u, a, b)
    }
}

/// The pool a snapshot assigns to a pair: the last entry with that pair,
/// or none.
pub open spec fn snapshot_pool(s: Seq<LiquidityPool>, a: Seq<char>, b: Seq<char>) -> Option<
    PoolView,
>
    decreases s.len(),
{
    if s.len() == 0 {
        None
    } else if s.last().token_a@ == a && s.last().token_b@ == b {
        Some(
            (PoolView {
                reserve_a: s.last().reserve_a,
                reserve_b: s.last().reserve_b,
                total_liquidity: s.last().total_liquidity,
            }),
        )
    } else {
        snapshot_pool(s.drop_last(), a, b)
    }
}

/// A snapshot the engine will accept back: a basis-point fee, every pool
/// keyed by a strictly ordered canonical pair and [`pool_healthy`], and
/// every share entry keyed by a strictly ordered canonical pair.
pub open spec fn snapshot_valid(s: &AmmSnapshot) -> bool {
    &&& s.fee_bps <= 10000
    &&& forall|i: int|
        0 <= i < s.pools@.len() ==> token_lt(
            (#[trigger] s.pools@[i]).token_a@,
            s.pools@[i].token_b@,
        ) && pool_healthy(
            (PoolView {
                reserve_a: s.pools@[i].reserve_a,
                reserve_b: s.pools@[i].reserve_b,
                total_liquidity: s.pools@[i].total_liquidity,
            }),
        )
    &&& forall|i: int|
        0 <= i < s.lp_balances@.len() ==> token_lt(
            (#[trigger] s.lp_balances@[i]).1@,
            s.lp_balances@[i].2@,
        )
}

impl AmmContract {
    /// Produce a plain-data snapshot of the whole state. The snapshot is
    /// [`snapshot_valid`] and reads back exactly what the engine holds, so
    /// [`Self::restore`] accepts it and rebuilds an equivalent engine.
    pub fn export_state(&self) -> (r: AmmSnapshot)
        requires
            self.wf(),
        ensures
            r.fee_bps == self.spec_fee(),
            snapshot_valid(&r),
            forall|u: Seq<char>, t: Seq<char>|
                #[trigger] snapshot_balance(r.balances@, u, t) == self.spec_balance(u, t),
            forall|u: Seq<char>, a: Seq<char>, b: Seq<char>|
                #[trigger] snapshot_lp(r.lp_balances@, u, a, b) == self.spec_lp(u, a, b),
            forall|a: Seq<char>, b: Seq<char>|
                #[trigger] snapshot_pool(r.pools@, a, b) == self.spec_pool(a, b),
    {
        let mut balances: Vec<(String, String, u128)> = Vec::new();
        let nb = self.balances.len();
        let mut i: usize = 0;
        while i < nb
            invariant
                self.wf(),
                nb == self.balances@.len(),
                i <= nb,
                forall|u: Seq<char>, t: Seq<char>|
                    #[trigger] snapshot_balance(balances@, u, t) == bal_lookup(
                        self.balances@.take(i as int),
                        u,
                        t,
                    ),
            decreases nb - i,
        {
            let e = &self.balances[i];
            let ghost prevout = balances@;
            let ghost sub = self.balances@.take(i as int);
            balances.push((e.user.clone(), e.token.clone(), e.amount));
            proof {
                assert forall|x: int, y: int| 0 <= x < y < sub.len() implies !(#[trigger] sub[x].user@
                    == #[trigger] sub[y].user@ && sub[x].token@ == sub[y].token@) by {
                    assert(sub[x] == self.balances@[x]);
                    assert(sub[y] == self.balances@[y]);
                    assert(!(self.balances@[x].user@ == self.balances@[y].user@
                        && self.balances@[x].token@ == self.balances@[y].token@));
                }
                assert(!bal_has(sub, self.balances@[i as int].user@, self.balances@[i as int].token@))
                    by {
                    if bal_has(sub, self.balances@[i as int].user@, self.balances@[i as int].token@) {
                        let j = choose|j: int|
                            0 <= j < sub.len() && bal_key_eq(
                                #[trigger] sub[j],
                                self.balances@[i as int].user@,
                                self.balances@[i as int].token@,
                            );
                        assert(sub[j] == self.balances@[j]);
                        assert(!(self.balances@[j].user@ == self.balances@[i as int].user@
                            && self.balances@[j].token@ == self.balances@[i as int].token@));
                    }
                }
                assert forall|u: Seq<char>, t: Seq<char>|
                    #[trigger] snapshot_balance(balances@, u, t) == bal_lookup(
                        self.balances@.take(i as int + 1),
                        u,
                        t,
                    ) by {
                    lemma_bal_push(sub, self.balances@[i as int], u, t);
                    assert(sub.push(self.balances@[i as int]) =~= self.balances@.take(i as int + 1));
                    assert(balances@.drop_last() =~= prevout);
                    assert(snapshot_balance(balances@.drop_last(), u, t) == snapshot_balance(
                        prevout,
                        u,
                        t,
                    ));
                    assert(snapshot_balance(prevout, u, t) == bal_lookup(sub, u, t));
                }
            }
            i = i + 1;
        }
        proof {
            assert(self.balances@.take(nb as int) =~= self.balances@);
        }
        let mut lp_balances: Vec<(String, String, String, u128)> = Vec::new();
        let nl = self.lp_balances.len();
        let mut i: usize = 0;
        while i < nl
            invariant
                self.wf(),
                nl == self.lp_balances@.len(),
                i <= nl,
                forall|u: Seq<char>, a: Seq<char>, b: Seq<char>|
                    #[trigger] snapshot_lp(lp_balances@, u, a, b) == lp_lookup(
                        self.lp_balances@.take(i as int),
                        u,
                        a,
                        b,
                    ),
                forall|j: int|
                    0 <= j < lp_balances@.len() ==> token_lt(
                        (#[trigger] lp_balances@[j]).1@,
                        lp_balances@[j].2@,
                    ),
            decreases nl - i,
        {
            let e = &self.lp_balances[i];
            let ghost prevout = lp_balances@;
            let ghost sub = self.lp_balances@.take(i as int);
            lp_balances.push((e.user.clone(), e.token_a.clone(), e.token_b.clone(), e.amount));
            proof {
                assert(token_lt(self.lp_balances@[i as int].token_a@, self.lp_balances@[i as int].token_b@));
                assert forall|x: int, y: int| 0 <= x < y < sub.len() implies !(#[trigger] sub[x].user@
                    == #[trigger] sub[y].user@ && sub[x].token_a@ == sub[y].token_a@
                    && sub[x].token_b@ == sub[y].token_b@) by {
                    assert(sub[x] == self.lp_balances@[x]);
                    assert(sub[y] == self.lp_balances@[y]);
                    assert(!(self.lp_balances@[x].user@ == self.lp_balances@[y].user@
                        && self.lp_balances@[x].token_a@ == self.lp_balances@[y].token_a@
                        && self.lp_balances@[x].token_b@ == self.lp_balances@[y].token_b@));
                }
                assert(!lp_has(
                    sub,
                    self.lp_balances@[i as int].user@,
                    self.lp_balances@[i as int].token_a@,
                    self.lp_balances@[i as int].token_b@,
                )) by {
                    if lp_has(
                        sub,
                        self.lp_balances@[i as int].user@,
                        self.lp_balances@[i as int].token_a@,
                        self.lp_balances@[i as int].token_b@,
                    ) {
                        let j = choose|j: int|
                            0 <= j < sub.len() && lp_key_eq(
                                #[trigger] sub[j],
                                self.lp_balances@[i as int].user@,
                                self.lp_balances@[i as int].token_a@,
                                self.lp_balances@[i as int].token_b@,
                            );
                        assert(sub[j] == self.lp_balances@[j]);
                        assert(!(self.lp_balances@[j].user@ == self.lp_balances@[i as int].user@
                            && self.lp_balances@[j].token_a@
                            == self.lp_balances@[i as int].token_a@
                            && self.lp_balances@[j].token_b@
                            == self.lp_balances@[i as int].token_b@));
                    }
                }
                assert forall|u: Seq<char>, a: Seq<char>, b: Seq<char>|
                    #[trigger] snapshot_lp(lp_balances@, u, a, b) == lp_lookup(
                        self.lp_balances@.take(i as int + 1),
                        u,
                        a,
                        b,
                    ) by {
                    lemma_lp_push(sub, self.lp_balances@[i as int], u, a, b);
                    assert(sub.push(self.lp_balances@[i as int]) =~= self.lp_balances@.take(
                        i as int + 1,
                    ));
                    assert(lp_balances@.drop_last() =~= prevout);
                    assert(snapshot_lp(lp_balances@.drop_last(), u, a, b) == snapshot_lp(
                        prevout,
                        u,
                        a,
                        b,
                    ));
                    assert(snapshot_lp(prevout, u, a, b) == lp_lookup(sub, u, a, b));
                }
            }
            i = i + 1;
        }
        proof {
            assert(self.lp_balances@.take(nl as int) =~= self.lp_balances@);
        }
        let mut pools: Vec<LiquidityPool> = Vec::new();
        let np = self.pools.len();
        let mut i: usize = 0;
        while i < np
            invariant
                self.wf(),
                np == self.pools@.len(),
                i <= np,
                forall|a: Seq<char>, b: Seq<char>|
                    #[trigger] snapshot_pool(pools@, a, b) == pool_lookup(
                        self.pools@.take(i as int),
                        a,
                        b,
                    ),
                forall|j: int|
                    0 <= j < pools@.len() ==> token_lt(
                        (#[trigger] pools@[j]).token_a@,
                        pools@[j].token_b@,
                    ) && pool_healthy(
                        (PoolView {
                            reserve_a: pools@[j].reserve_a,
                            reserve_b: pools@[j].reserve_b,
                            total_liquidity: pools@[j].total_liquidity,
                        }),
                    ),
            decreases np - i,
        {
            let e = &self.pools[i];
            let ghost prevout = pools@;
            let ghost sub = self.pools@.take(i as int);
            pools.push(
                LiquidityPool {
                    token_a: e.token_a.clone(),
                    token_b: e.token_b.clone(),
                    reserve_a: e.reserve_a,
                    reserve_b: e.reserve_b,
                    total_liquidity: e.total_liquidity,
                },
            );
            proof {
                assert(token_lt(self.pools@[i as int].token_a@, self.pools@[i as int].token_b@));
                assert(pool_healthy(pool_as_view(self.pools@[i as int])));
                assert forall|x: int, y: int| 0 <= x < y < sub.len() implies !(
                #[trigger] sub[x].token_a@ == #[trigger] sub[y].token_a@ && sub[x].token_b@
                    == sub[y].token_b@) by {
                    assert(sub[x] == self.pools@[x]);
                    assert(sub[y] == self.pools@[y]);
                    assert(!(self.pools@[x].token_a@ == self.pools@[y].token_a@
                        && self.pools@[x].token_b@ == self.pools@[y].token_b@));
                }
                assert(!pool_has(sub, self.pools@[i as int].token_a@, self.pools@[i as int].token_b@))
                    by {
                    if pool_has(
                        sub,
                        self.pools@[i as int].token_a@,
                        self.pools@[i as int].token_b@,
                    ) {
                        let j = choose|j: int|
                            0 <= j < sub.len() && pool_key_eq(
                                #[trigger] sub[j],
                                self.pools@[i as int].token_a@,
                                self.pools@[i as int].token_b@,
                            );
                        assert(sub[j] == self.pools@[j]);
                        assert(!(self.pools@[j].token_a@ == self.pools@[i as int].token_a@
                            && self.pools@[j].token_b@ == self.pools@[i as int].token_b@));
                    }
                }
                assert forall|a: Seq<char>, b: Seq<char>|
                    #[trigger] snapshot_pool(pools@, a, b) == pool_lookup(
                        self.pools@.take(i as int + 1),
                        a,
                        b,
                    ) by {
                    lemma_pool_push(sub, self.pools@[i as int], a, b);
                    assert(sub.push(self.pools@[i as int]) =~= self.pools@.take(i as int + 1));
                    assert(pools@.drop_last() =~= prevout);
                    assert(snapshot_pool(pools@.drop_last(), a, b) == snapshot_pool(prevout, a, b));
                    assert(snapshot_pool(prevout, a, b) == pool_lookup(sub, a, b));
                }
            }
            i = i + 1;
        }
        proof {
            assert(self.pools@.take(np as int) =~= self.pools@);
        }
        AmmSnapshot { fee_bps: self.fee_bps, balances, lp_balances, pools }
    }

    /// Rebuild an engine from a snapshot. Returns `None` exactly when the
    /// snapshot is not [`snapshot_valid`]; otherwise the rebuilt engine is
    /// well formed and reads back exactly what the snapshot holds, so a
    /// snapshot produced by [`Self::export_state`] restores the state it
    /// was taken from, observation for observation.
    pub fn restore(s: &AmmSnapshot) -> (r: Option<AmmContract>)
        ensures
            r is Some <==> snapshot_valid(s),
            r matches Some(c) ==> {
                &&& c.wf()
                &&& c.spec_fee() == s.fee_bps
                &&& forall|u: Seq<char>, t: Seq<char>|
                    #[trigger] c.spec_balance(u, t) == snapshot_balance(s.balances@, u, t)
                &&& forall|u: Seq<char>, a: Seq<char>, b: Seq<char>|
                    #[trigger] c.spec_lp(u, a, b) == snapshot_lp(s.lp_balances@, u, a, b)
                &&& forall|a: Seq<char>, b: Seq<char>|
                    #[trigger] c.spec_pool(a, b) == snapshot_pool(s.pools@, a, b)
            },
    {
        if s.fee_bps > 10000 {
            return None;
        }
        let np = s.pools.len();
        let mut i: usize = 0;
        while i < np
            invariant
                np == s.pools@.len(),
                i <= np,
                forall|j: int|
                    0 <= j < i ==> token_lt(
                        (#[trigger] s.pools@[j]).token_a@,
                        s.pools@[j].token_b@,
                    ) && pool_healthy(
                        (PoolView {
                            reserve_a: s.pools@[j].reserve_a,
                            reserve_b: s.pools@[j].reserve_b,
                            total_liquidity: s.pools@[j].total_liquidity,
                        }),
                    ),
            decreases np - i,
        {
            let p = &s.pools[i];
            let ordered = str_le(p.token_a.as_str(), p.token_b.as_str()) && !crate::order::str_eq(
                p.token_a.as_str(),
                p.token_b.as_str(),
            );
            let healthy = if p.total_liquidity == 0 {
                p.reserve_a == 0 && p.reserve_b == 0
            } else {
                p.reserve_a > 0 && p.reserve_b > 0
            };
            if !ordered || !healthy {
                return None;
            }
            i = i + 1;
        }
        let nl = s.lp_balances.len();
        let mut i: usize = 0;
        while i < nl
            invariant
                nl == s.lp_balances@.len(),
                i <= nl,
                forall|j: int|
                    0 <= j < i ==> token_lt(
                        (#[trigger] s.lp_balances@[j]).1@,
                        s.lp_balances@[j].2@,
                    ),
            decreases nl - i,
        {
            let e = &s.lp_balances[i];
            let ordered = str_le(e.1.as_str(), e.2.as_str()) && !crate::order::str_eq(
                e.1.as_str(),
                e.2.as_str(),
            );
            if !ordered {
                return None;
            }
            i = i + 1;
        }
        let mut c = AmmContract::new(s.fee_bps);
        let mut i: usize = 0;
        while i < np
            invariant
                np == s.pools@.len(),
                i <= np,
                c.wf(),
                c.spec_fee() == s.fee_bps,
                forall|j: int|
                    0 <= j < np ==> token_lt(
                        (#[trigger] s.pools@[j]).token_a@,
                        s.pools@[j].token_b@,
                    ) && pool_healthy(
                        (PoolView {
                            reserve_a: s.pools@[j].reserve_a,
                            reserve_b: s.pools@[j].reserve_b,
                            total_liquidity: s.pools@[j].total_liquidity,
                        }),
                    ),
                forall|a: Seq<char>, b: Seq<char>|
                    #[trigger] c.spec_pool(a, b) == snapshot_pool(s.pools@.take(i as int), a, b),
                forall|u: Seq<char>, t: Seq<char>| #[trigger] c.spec_balance(u, t) == 0,
                forall|u: Seq<char>, a: Seq<char>, b: Seq<char>| #[trigger] c.spec_lp(u, a, b)
                    == 0,
            decreases np - i,
        {
            let p = &s.pools[i];
            let ghost prev = c;
            let v = PoolView {
                reserve_a: p.reserve_a,
                reserve_b: p.reserve_b,
                total_liquidity: p.total_liquidity,
            };
            c.set_pool(&p.token_a, &p.token_b, v);
            proof {
                assert forall|a: Seq<char>, b: Seq<char>|
                    #[trigger] c.spec_pool(a, b) == snapshot_pool(
                        s.pools@.take(i as int + 1),
                        a,
                        b,
                    ) by {
                    assert(s.pools@.take(i as int + 1).drop_last() =~= s.pools@.take(i as int));
                    assert(s.pools@.take(i as int + 1).last() == s.pools@[i as int]);
                    if !(a == p.token_a@ && b == p.token_b@) {
                        assert(c.spec_pool(a, b) == prev.spec_pool(a, b));
                    }
                }
                assert forall|u: Seq<char>, t: Seq<char>| #[trigger] c.spec_balance(u, t) == 0 by {
                    assert(c.spec_balance(u, t) == prev.spec_balance(u, t));
                }
                assert forall|u: Seq<char>, a: Seq<char>, b: Seq<char>| #[trigger] c.spec_lp(
                    u,
                    a,
                    b,
                ) == 0 by {
                    assert(c.spec_lp(u, a, b) == prev.spec_lp(u, a, b));
                }
            }
            i = i + 1;
        }
        proof {
            assert(s.pools@.take(np as int) =~= s.pools@);
        }
        let nb = s.balances.len();
        let mut i: usize = 0;
        while i < nb
            invariant
                nb == s.balances@.len(),
                i <= nb,
                c.wf(),
                c.spec_fee() == s.fee_bps,
                forall|a: Seq<char>, b: Seq<char>|
                    #[trigger] c.spec_pool(a, b) == snapshot_pool(s.pools@, a, b),
                forall|u: Seq<char>, t: Seq<char>|
                    #[trigger] c.spec_balance(u, t) == snapshot_balance(
                        s.balances@.take(i as int),
                        u,
                        t,
                    ),
                forall|u: Seq<char>, a: Seq<char>, b: Seq<char>| #[trigger] c.spec_lp(u, a, b)
                    == 0,
            decreases nb - i,
        {
            let e = &s.balances[i];
            let ghost prev = c;
            c.set_balance(&e.0, &e.1, e.2);
            proof {
                assert forall|u: Seq<char>, t: Seq<char>|
                    #[trigger] c.spec_balance(u, t) == snapshot_balance(
                        s.balances@.take(i as int + 1),
                        u,
                        t,
                    ) by {
                    assert(s.balances@.take(i as int + 1).drop_last() =~= s.balances@.take(
                        i as int,
                    ));
                    assert(s.balances@.take(i as int + 1).last() == s.balances@[i as int]);
                    if !(u == e.0@ && t == e.1@) {
                        assert(c.spec_balance(u, t) == prev.spec_balance(u, t));
                    }
                }
                assert forall|a: Seq<char>, b: Seq<char>| #[trigger] c.spec_pool(a, b)
                    == snapshot_pool(s.pools@, a, b) by {
                    assert(c.spec_pool(a, b) == prev.spec_pool(a, b));
                }
                assert forall|u: Seq<char>, a: Seq<char>, b: Seq<char>| #[trigger] c.spec_lp(
                    u,
                    a,
                    b,
                ) == 0 by {
                    assert(c.spec_lp(u, a, b) == prev.spec_lp(u, a, b));
                }
            }
            i = i + 1;
        }
        proof {
            assert(s.balances@.take(nb as int) =~= s.balances@);
        }
        let mut i: usize = 0;
        while i < nl
            invariant
                nl == s.lp_balances@.len(),
                i <= nl,
                c.wf(),
                c.spec_fee() == s.fee_bps,
                forall|j: int|
                    0 <= j < nl ==> token_lt(
                        (#[trigger] s.lp_balances@[j]).1@,
                        s.lp_balances@[j].2@,
                    ),
                forall|a: Seq<char>, b: Seq<char>|
                    #[trigger] c.spec_pool(a, b) == snapshot_pool(s.pools@, a, b),
                forall|u: Seq<char>, t: Seq<char>|
                    #[trigger] c.spec_balance(u, t) == snapshot_balance(s.balances@, u, t),
                forall|u: Seq<char>, a: Seq<char>, b: Seq<char>|
                    #[trigger] c.spec_lp(u, a, b) == snapshot_lp(
                        s.lp_balances@.take(i as int),
                        u,
                        a,
                        b,
                    ),
            decreases nl - i,
        {
            let e = &s.lp_balances[i];
            let ghost prev = c;
            c.set_lp(&e.0, &e.1, &e.2, e.3);
            proof {
                assert forall|u: Seq<char>, a: Seq<char>, b: Seq<char>|
                    #[trigger] c.spec_lp(u, a, b) == snapshot_lp(
                        s.lp_balances@.take(i as int + 1),
                        u,
                        a,
                        b,
                    ) by {
                    assert(s.lp_balances@.take(i as int + 1).drop_last() =~= s.lp_balances@.take(
                        i as int,
                    ));
                    assert(s.lp_balances@.take(i as int + 1).last() == s.lp_balances@[i as int]);
                    if !(u == e.0@ && a == e.1@ && b == e.2@) {
                        assert(c.spec_lp(u, a, b) == prev.spec_lp(u, a, b));
                    }
                }
                assert forall|a: Seq<char>, b: Seq<char>| #[trigger] c.spec_pool(a, b)
                    == snapshot_pool(s.pools@, a, b) by {
                    assert(c.spec_pool(a, b) == prev.spec_pool(a, b));
                }
                assert forall|u: Seq<char>, t: Seq<char>| #[trigger] c.spec_balance(u, t)
                    == snapshot_balance(s.balances@, u, t) by {
                    assert(c.spec_balance(u, t) == prev.spec_balance(u, t));
                }
            }
            i = i + 1;
        }
        proof {
            assert(s.lp_balances@.take(nl as int) =~= s.lp_balances@);
        }
        Some(c)
    }
}

/// One decoded call into the engine, with plain scalar fields.
#[derive(Debug, Clone, PartialEq, Eq)]
pub enum AmmAction {
    /// Credit tokens to a user (test faucet).
    MintTokens {
        /// Receiving user.
        user: String,
        /// Token identifier.
        token: String,
        /// Amount to credit.
        amount: u128,
    },
    /// Deposit into (or found) the pool of a token pair.
    AddLiquidity {
        /// Depositing user.
        user: String,
        /// First token, in the caller's order.
        token_a: String,
        /// Second token, in the caller's order.
        token_b: String,
        /// Amount of `token_a` to deposit.
        amount_a: u128,
        /// Amount of `token_b` to deposit.
        amount_b: u128,
    },
    /// Withdraw a proportional share of a pool.
    RemoveLiquidity {
        /// Withdrawing user.
        user: String,
        /// First token, in the caller's order.
        token_a: String,
        /// Second token, in the caller's order.
        token_b: String,
        /// Liquidity shares to burn.
        liquidity_amount: u128,
    },
    /// Exchange an exact input amount for the other token of a pair.
    SwapExactTokensForTokens {
        /// Swapping user.
        user: String,
        /// Token paid in.
        token_in: String,
        /// Token paid out.
        token_out: String,
        /// Exact input amount.
        amount_in: u128,
        /// Lower bound on the output the caller will accept.
        min_amount_out: u128,
    },
    /// Read a pool's reserves.
    GetReserves {
        /// First token, in the caller's order.
        token_a: String,
        /// Second token, in the caller's order.
        token_b: String,
    },
    /// Read a user's token balance.
    GetUserBalance {
        /// Queried user.
        user: String,
        /// Queried token.
        token: String,
    },
}

impl AmmContract {
    /// The machine bounds under which one action stays inside 128-bit
    /// arithmetic; queries always fit.
    pub open spec fn action_fits(pre: Self, action: AmmAction) -> bool {
        match action {
            AmmAction::MintTokens { user, token, amount } => pre.spec_balance(user@, token@)
                + amount <= u128::MAX,
            AmmAction::AddLiquidity { user, token_a, token_b, amount_a, amount_b } => {
                Self::add_liquidity_fits(pre, user@, token_a@, token_b@, amount_a, amount_b)
            },
            AmmAction::RemoveLiquidity { user, token_a, token_b, liquidity_amount } => {
                Self::remove_liquidity_fits(pre, user@, token_a@, token_b@, liquidity_amount)
            },
            AmmAction::SwapExactTokensForTokens {
                user,
                token_in,
                token_out,
                amount_in,
                min_amount_out,
            } => Self::swap_fits(pre, user@, token_in@, token_out@, amount_in, min_amount_out),
            AmmAction::GetReserves { .. } => true,
            AmmAction::GetUserBalance { .. } => true,
        }
    }

    /// Apply one decoded action to the ledger: the single entry point the
    /// hosting system drives, one action at a time. Each action behaves
    /// exactly as the operation it names; the two queries leave the state
    /// untouched.
    pub fn execute(&mut self, action: AmmAction) -> (r: Result<AmmOutput, AmmError>)
        requires
            old(self).wf(),
            Self::action_fits(*old(self), action),
        ensures
            final(self).wf(),
            old(self).shares_accounted() ==> final(self).shares_accounted(),
            match action {
                AmmAction::MintTokens { user, token, amount } => r matches Ok(o) && o matches
                    AmmOutput::Minted(nb) && Self::mint_post(
                    *old(self),
                    *final(self),
                    user@,
                    token@,
                    amount,
                    Ok(nb),
                ),
                AmmAction::AddLiquidity { user, token_a, token_b, amount_a, amount_b } => match r {
                    Ok(o) => o matches AmmOutput::LiquidityAdded(m) && Self::add_liquidity_post(
                        *old(self),
                        *final(self),
                        user@,
                        token_a@,
                        token_b@,
                        amount_a,
                        amount_b,
                        Ok(m),
                    ),
                    Err(e) => Self::add_liquidity_post(
                        *old(self),
                        *final(self),
                        user@,
                        token_a@,
                        token_b@,
                        amount_a,
                        amount_b,
                        Err(e),
                    ),
                },
                AmmAction::RemoveLiquidity { user, token_a, token_b, liquidity_amount } => match r {
                    Ok(o) => o matches AmmOutput::LiquidityRemoved(x, y)
                        && Self::remove_liquidity_post(
                        *old(self),
                        *final(self),
                        user@,
                        token_a@,
                        token_b@,
                        liquidity_amount,
                        Ok((x, y)),
                    ),
                    Err(e) => Self::remove_liquidity_post(
                        *old(self),
                        *final(self),
                        user@,
                        token_a@,
                        token_b@,
                        liquidity_amount,
                        Err(e),
                    ),
                },
                AmmAction::SwapExactTokensForTokens {
                    user,
                    token_in,
                    token_out,
                    amount_in,
                    min_amount_out,
                } => match r {
                    Ok(o) => o matches AmmOutput::Swapped(x) && Self::swap_post(
                        *old(self),
                        *final(self),
                        user@,
                        token_in@,
                        token_out@,
                        amount_in,
                        min_amount_out,
                        Ok(x),
                    ),
                    Err(e) => Self::swap_post(
                        *old(self),
                        *final(self),
                        user@,
                        token_in@,
                        token_out@,
                        amount_in,
                        min_amount_out,
                        Err(e),
                    ),
                },
                AmmAction::GetReserves { token_a, token_b } => *final(self) == *old(self) && match
                old(self).spec_pool(
                    canon_first(token_a@, token_b@),
                    canon_second(token_a@, token_b@),
                ) {
                    Some(p) => r == Ok::<_, AmmError>(
                        AmmOutput::Reserves(p.reserve_a, p.reserve_b, p.total_liquidity),
                    ),
                    None => r == Err::<AmmOutput, _>(AmmError::PoolNotFound),
                },
                AmmAction::GetUserBalance { user, token } => *final(self) == *old(self) && r
                    == Ok::<_, AmmError>(
                    AmmOutput::Balance(old(self).spec_balance(user@, token@)),
                ),
            },
    {
        match action {
            AmmAction::MintTokens { user, token, amount } => {
                match self.mint_tokens(user, token, amount) {
                    Ok(nb) => Ok(AmmOutput::Minted(nb)),
                    Err(e) => Err(e),
                }
            },
            AmmAction::AddLiquidity { user, token_a, token_b, amount_a, amount_b } => {
                match self.add_liquidity(user, token_a, token_b, amount_a, amount_b) {
                    Ok(m) => Ok(AmmOutput::LiquidityAdded(m)),
                    Err(e) => Err(e),
                }
            },
            AmmAction::RemoveLiquidity { user, token_a, token_b, liquidity_amount } => {
                match self.remove_liquidity(user, token_a, token_b, liquidity_amount) {
                    Ok(out) => Ok(AmmOutput::LiquidityRemoved(out.0, out.1)),
                    Err(e) => Err(e),
                }
            },
            AmmAction::SwapExactTokensForTokens {
                user,
                token_in,
                token_out,
                amount_in,
                min_amount_out,
            } => {
                match self.swap_exact_tokens_for_tokens(
                    user,
                    token_in,
                    token_out,
                    amount_in,
                    min_amount_out,
                ) {
                    Ok(x) => Ok(AmmOutput::Swapped(x)),
                    Err(e) => Err(e),
                }
            },
            AmmAction::GetReserves { token_a, token_b } => {
                match self.get_reserves(token_a, token_b) {
                    Ok(t) => Ok(AmmOutput::Reserves(t.0, t.1, t.2)),
                    Err(e) => Err(e),
                }
            },
            AmmAction::GetUserBalance { user, token } => {
                Ok(AmmOutput::Balance(self.get_user_balance(user, token)))
            },
        }
    }
}

proof fn lemma_pool_lookup_props(s: Seq<LiquidityPool>, a: Seq<char>, b: Seq<char>)
    requires
        pools_canonical(s),
        pools_healthy(s),
        pool_lookup(s, a, b) is Some,
    ensures
        pool_healthy(pool_lookup(s, a, b)->Some_0),
        token_lt(a, b),
    decreases s.len(),
{
    if s.len() > 0 {
        if pool_key_eq(s[0], a, b) {
            assert(pool_healthy(pool_as_view(s[0])));
            assert(token_lt(s[0].token_a@, s[0].token_b@));
        } else {
            assert forall|x: int| 0 <= x < s.drop_first().len() implies token_lt(
                #[trigger] s.drop_first()[x].token_a@,
                s.drop_first()[x].token_b@,
            ) && pool_healthy(pool_as_view(s.drop_first()[x])) by {
                assert(s.drop_first()[x] == s[x + 1]);
                assert(token_lt(s[x + 1].token_a@, s[x + 1].token_b@));
                assert(pool_healthy(pool_as_view(s[x + 1])));
            }
            lemma_pool_lookup_props(s.drop_first(), a, b);
        }
    }
}

impl Default for AmmContract {
    /// An empty ledger with no fee configured.
    fn default() -> (r: Self)
        ensures
            r.wf(),
            r.spec_fee() == 0,
            forall|u: Seq<char>, t: Seq<char>| #[trigger] r.spec_balance(u, t) == 0,
            forall|u: Seq<char>, a: Seq<char>, b: Seq<char>| #[trigger] r.spec_lp(u, a, b) == 0,
            forall|a: Seq<char>, b: Seq<char>| #[trigger] r.spec_pool(a, b) is None,
            r.shares_accounted(),
    {
        AmmContract::new(0)
    }
}

} // verus!
