//! A constant-product pool over up to nine tokens.
use crate::ledger::ShareBook;
use crate::wide::{divisor_bound, fit, limb, mul_div, mul_div_wide, muldiv, Wide};
use vstd::prelude::*;

verus! {

/// Denominator of the swap fee.
pub const FEE_DIVISOR: u32 = 1_000;

/// A pool holds fewer tokens than this.
pub const MAX_NUM_TOKENS: usize = 10;

/// Shares minted by the first deposit into an empty pool.
pub const INIT_SHARES_SUPPLY: u128 = 1_000_000_000_000_000_000_000;

#[derive(Clone, Copy, Debug, PartialEq, Eq)]
pub enum PoolError {
    FeeTooLarge,
    TooManyTokens,
    TokenCountMismatch,
    ZeroAmount,
    EmptyReserve,
    NoShares,
    InsufficientShares,
    MinAmountNotMet,
    UnknownToken,
    InvalidPair,
    Overflow,
}

/// An outbound transfer of `amount` of `token_id` to `receiver_id`, to be
/// carried out by the caller.
#[derive(Clone, Debug)]
pub struct TransferRequest {
    pub receiver_id: String,
    pub token_id: String,
    pub amount: u128,
}

pub struct Pool {
    /// Identifier of the pool among those of its host.
    id: u32,
    /// Tokens of the pool; a token is referred to by its position here.
    token_account_ids: Vec<String>,
    /// Reserve of each token, in the order of `token_account_ids`.
    amounts: Vec<u128>,
    /// Fee charged on the input of a swap, over `FEE_DIVISOR`.
    fee: u32,
    /// Shares of the pool by liquidity providers.
    shares: ShareBook,
    /// Total number of shares.
    shares_total_supply: u128,
}

/// Whether `i` is the first position of `k` in `tokens`.
pub open spec fn is_first_index(tokens: Seq<String>, k: Seq<char>, i: int) -> bool {
    0 <= i < tokens.len() && tokens[i]@ == k && forall|j: int| 0 <= j < i ==> tokens[j]@ != k
}

pub open spec fn is_known(tokens: Seq<String>, k: Seq<char>) -> bool {
    exists|i: int| 0 <= i < tokens.len() && tokens[i]@ == k
}

/// First position of `k` in `tokens`.
pub open spec fn index_of(tokens: Seq<String>, k: Seq<char>) -> int {
    choose|i: int| is_first_index(tokens, k, i)
}

/// Output of a swap of `amount_in` against reserves `rin` and `rout`, the fee
/// taken on the input.
pub open spec fn swap_out(amount_in: int, fee: int, rin: int, rout: int) -> int {
    let a = amount_in * (FEE_DIVISOR - fee);
    a * rout / (FEE_DIVISOR * rin + a)
}

/// Least of the shares that the first `n` amounts each justify, or
/// `u128::MAX + 1` when `n` is zero.
pub open spec fn fair_supply(amounts: Seq<u128>, reserves: Seq<u128>, total: int, n: int) -> int
    decreases n,
{
    if n <= 0 {
        u128::MAX + 1
    } else {
        let c = muldiv(amounts[n - 1] as int, total, reserves[n - 1] as int);
        let m = fair_supply(amounts, reserves, total, n - 1);
        if c < m {
            c
        } else {
            m
        }
    }
}

proof fn lemma_first_index_unique(tokens: Seq<String>, k: Seq<char>, i: int)
    requires
        is_first_index(tokens, k, i),
    ensures
        index_of(tokens, k) == i,
        is_known(tokens, k),
{
    let c = index_of(tokens, k);
    assert(is_first_index(tokens, k, c));
    if c < i {
        assert(tokens[c]@ != k);
    }
    if i < c {
        assert(tokens[i]@ != k);
    }
}

proof fn lemma_share_fits(r: int, s: int, t: int)
    requires
        r >= 0,
        0 <= s <= t,
        t > 0,
    ensures
        0 <= muldiv(r, s, t) <= r,
        s == t ==> muldiv(r, s, t) == r,
{
    assert(r * s <= r * t) by (nonlinear_arith)
        requires r >= 0, s <= t;
    assert(0 <= r * s) by (nonlinear_arith)
        requires r >= 0, s >= 0;
    vstd::arithmetic::div_mod::lemma_div_is_ordered(r * s, r * t, t);
    vstd::arithmetic::div_mod::lemma_div_by_multiple(r, t);
    vstd::arithmetic::div_mod::lemma_div_pos_is_pos(r * s, t);
}

impl Pool {
    pub closed spec fn id_spec(&self) -> u32 {
        self.id
    }

    pub closed spec fn tokens_spec(&self) -> Seq<String> {
        self.token_account_ids@
    }

    pub closed spec fn reserves_spec(&self) -> Seq<u128> {
        self.amounts@
    }

    pub closed spec fn fee_spec(&self) -> u32 {
        self.fee
    }

    pub closed spec fn book(&self) -> ShareBook {
        self.shares
    }

    pub closed spec fn total_spec(&self) -> u128 {
        self.shares_total_supply
    }

    /// Shares held by account `k`.
    pub open spec fn balance(&self, k: Seq<char>) -> int {
        self.book().balance(k)
    }

    pub open spec fn wf(&self) -> bool {
        &&& self.tokens_spec().len() == self.reserves_spec().len()
        &&& self.tokens_spec().len() < MAX_NUM_TOKENS
        &&& self.fee_spec() < FEE_DIVISOR
        &&& self.book().wf()
        &&& self.total_spec() == self.book().total()
        &&& self.total_spec() == 0 ==> forall|i: int|
            0 <= i < self.reserves_spec().len() ==> self.reserves_spec()[i] == 0
    }

    /// What `get_return` yields for the given arguments.
    pub open spec fn quote_spec(&self, token_in: Seq<char>, amount_in: u128, token_out: Seq<char>) -> Result<u128, PoolError> {
        let tokens = self.tokens_spec();
        let r = self.reserves_spec();
        if !is_known(tokens, token_in) || !is_known(tokens, token_out) {
            Err(PoolError::UnknownToken)
        } else {
            let i = index_of(tokens, token_in);
            let o = index_of(tokens, token_out);
            if i == o {
                Err(PoolError::InvalidPair)
            } else if amount_in == 0 {
                Err(PoolError::ZeroAmount)
            } else if r[i] == 0 || r[o] == 0 {
                Err(PoolError::EmptyReserve)
            } else {
                Ok(swap_out(amount_in as int, self.fee_spec() as int, r[i] as int, r[o] as int) as u128)
            }
        }
    }

    /// The error `add_liquidity` reports for `amounts`, if any.
    pub open spec fn add_error(&self, amounts: Seq<u128>) -> Option<PoolError> {
        let n = self.tokens_spec().len();
        let r = self.reserves_spec();
        let t = self.total_spec() as int;
        if amounts.len() != n {
            Some(PoolError::TokenCountMismatch)
        } else if t == 0 {
            None
        } else if exists|i: int| 0 <= i < n && amounts[i] == 0 {
            Some(PoolError::ZeroAmount)
        } else if exists|i: int| 0 <= i < n && r[i] == 0 {
            Some(PoolError::EmptyReserve)
        } else {
            let s = fair_supply(amounts, r, t, n as int);
            if s > u128::MAX || t + s > u128::MAX || exists|i: int|
                0 <= i < n && r[i] + muldiv(r[i] as int, s, t) > u128::MAX {
                Some(PoolError::Overflow)
            } else {
                None
            }
        }
    }

    /// Shares that `add_liquidity` mints for `amounts`.
    pub open spec fn minted(&self, amounts: Seq<u128>) -> int {
        let t = self.total_spec() as int;
        if t == 0 {
            INIT_SHARES_SUPPLY as int
        } else {
            fair_supply(amounts, self.reserves_spec(), t, self.tokens_spec().len() as int)
        }
    }

    /// Amount of token `i` that `add_liquidity` adds to its reserve.
    pub open spec fn added(&self, amounts: Seq<u128>, i: int) -> int {
        let t = self.total_spec() as int;
        if t == 0 {
            amounts[i] as int
        } else {
            muldiv(self.reserves_spec()[i] as int, self.minted(amounts), t)
        }
    }

    /// Amount of token `i` paid out for burning `shares`.
    pub open spec fn withdrawn(&self, shares: u128, i: int) -> int {
        muldiv(self.reserves_spec()[i] as int, shares as int, self.total_spec() as int)
    }

    /// The error `remove_liquidity` reports, if any.
    pub open spec fn remove_error(&self, k: Seq<char>, shares: u128, min_amounts: Seq<u128>) -> Option<PoolError> {
        let n = self.tokens_spec().len();
        if self.balance(k) == 0 {
            Some(PoolError::NoShares)
        } else if self.balance(k) < shares {
            Some(PoolError::InsufficientShares)
        } else if min_amounts.len() != n {
            Some(PoolError::TokenCountMismatch)
        } else if exists|i: int| 0 <= i < n && self.withdrawn(shares, i) < min_amounts[i] {
            Some(PoolError::MinAmountNotMet)
        } else {
            None
        }
    }

    /// Creates an empty pool of `token_account_ids` with a swap fee of
    /// `fee / FEE_DIVISOR`; `id` names the pool.
    pub fn new(id: u32, token_account_ids: Vec<String>, fee: u32) -> (r: Result<Pool, PoolError>)
        ensures
            fee >= FEE_DIVISOR ==> r == Err::<Pool, PoolError>(PoolError::FeeTooLarge),
            fee < FEE_DIVISOR && token_account_ids.len() >= MAX_NUM_TOKENS ==> r == Err::<Pool, PoolError>(PoolError::TooManyTokens),
            fee < FEE_DIVISOR && token_account_ids.len() < MAX_NUM_TOKENS ==> (r matches Ok(p) && {
                &&& p.wf()
                &&& p.tokens_spec() == token_account_ids@
                &&& p.reserves_spec() == Seq::new(token_account_ids.len() as nat, |i: int| 0u128)
                &&& p.fee_spec() == fee
                &&& p.id_spec() == id
                &&& p.total_spec() == 0
                &&& p.book()@.len() == 0
            }),
    {
        if fee >= FEE_DIVISOR {
            return Err(PoolError::FeeTooLarge);
        }
        if token_account_ids.len() >= MAX_NUM_TOKENS {
            return Err(PoolError::TooManyTokens);
        }
        let n = token_account_ids.len();
        let amounts: Vec<u128> = vec![0u128; n];
        let p = Pool {
            id,
            token_account_ids,
            amounts,
            fee,
            shares: ShareBook::new(),
            shares_total_supply: 0,
        };
        assert(p.reserves_spec() =~= Seq::new(n as nat, |i: int| 0u128));
        Ok(p)
    }

    /// Identifier the pool was created with.
    pub fn id(&self) -> (r: u32)
        ensures
            r == self.id_spec(),
    {
        self.id
    }

    /// The pool's tokens, in order.
    pub fn tokens(&self) -> (r: &[String])
        ensures
            r@ == self.tokens_spec(),
    {
        self.token_account_ids.as_slice()
    }

    /// The reserve of each token, in the order of `tokens`.
    pub fn reserves(&self) -> (r: &[u128])
        ensures
            r@ == self.reserves_spec(),
    {
        self.amounts.as_slice()
    }

    /// The swap fee, over `FEE_DIVISOR`.
    pub fn fee(&self) -> (r: u32)
        ensures
            r == self.fee_spec(),
    {
        self.fee
    }

    /// Total number of shares.
    pub fn total_shares(&self) -> (r: u128)
        ensures
            r == self.total_spec(),
    {
        self.shares_total_supply
    }

    /// Shares held by `account_id`.
    pub fn shares_of(&self, account_id: &String) -> (r: u128)
        requires
            self.wf(),
        ensures
            r == self.balance(account_id@),
    {
        self.shares.get(account_id)
    }

    /// Number of accounts that hold shares.
    pub fn share_holders(&self) -> (r: usize)
        ensures
            r == self.book()@.len(),
    {
        self.shares.holders()
    }

    fn token_index(&self, token_id: &String) -> (r: Option<usize>)
        ensures
            r matches Some(i) ==> is_first_index(self.tokens_spec(), token_id@, i as int),
            r is None ==> !is_known(self.tokens_spec(), token_id@),
    {
        let mut i: usize = 0;
        while i < self.token_account_ids.len()
            invariant
                i <= self.tokens_spec().len(),
                forall|j: int| 0 <= j < i ==> self.tokens_spec()[j]@ != token_id@,
            decreases self.tokens_spec().len() - i,
        {
            if self.token_account_ids[i] == *token_id {
                return Some(i);
            }
            i = i + 1;
        }
        None
    }

    /// Output of a swap between positions `token_in` and `token_out`, whose
    /// reserves are both positive.
    fn get_return_idx(&self, token_in: usize, amount_in: u128, token_out: usize) -> (r: u128)
        requires
            self.wf(),
            token_in < self.reserves_spec().len(),
            token_out < self.reserves_spec().len(),
            self.reserves_spec()[token_in as int] > 0,
            self.reserves_spec()[token_out as int] > 0,
        ensures
            r == swap_out(
                amount_in as int,
                self.fee_spec() as int,
                self.reserves_spec()[token_in as int] as int,
                self.reserves_spec()[token_out as int] as int,
            ),
            r < self.reserves_spec()[token_out as int],
    {
        let in_balance = self.amounts[token_in];
        let out_balance = self.amounts[token_out];
        let with_fee = Wide::mul_small(amount_in, (FEE_DIVISOR - self.fee) as u128);
        let scaled_in = Wide::mul_small(in_balance, FEE_DIVISOR as u128);
        proof {
            assert(amount_in * (FEE_DIVISOR - self.fee) <= u128::MAX * 1000) by (nonlinear_arith)
                requires 0 <= amount_in <= u128::MAX, 0 <= FEE_DIVISOR - self.fee <= 1000;
            assert(limb() * limb() > 2002 * limb());
        }
        let denom = scaled_in.add(with_fee);
        let ghost a = with_fee.value();
        let ghost d = denom.value();
        let ghost ro = out_balance as int;
        proof {
            assert(divisor_bound() > 2002 * limb());
            assert(ro * a < ro * d) by (nonlinear_arith)
                requires a < d, ro > 0;
            vstd::arithmetic::div_mod::lemma_fundamental_div_mod(ro * a, d);
            assert(muldiv(ro, a, d) < ro) by (nonlinear_arith)
                requires
                    ro * a == d * muldiv(ro, a, d) + (ro * a) % d,
                    (ro * a) % d >= 0,
                    ro * a < ro * d,
                    d > 0,
            ;
            assert(muldiv(ro, a, d) >= 0) by (nonlinear_arith)
                requires ro >= 0, a >= 0, d > 0, muldiv(ro, a, d) == ro * a / d;
            assert(ro * a == a * ro) by (nonlinear_arith);
        }
        match mul_div_wide(out_balance, with_fee, denom) {
            Some(v) => v,
            // unreachable: the quotient is below `out_balance`
            None => 0,
        }
    }

    /// How much of `token_out` a swap of `amount_in` of `token_in` would return.
    pub fn get_return(&self, token_in: &String, amount_in: u128, token_out: &String) -> (r: Result<u128, PoolError>)
        requires
            self.wf(),
        ensures
            r == self.quote_spec(token_in@, amount_in, token_out@),
    {
        let in_idx = match self.token_index(token_in) {
            Some(i) => i,
            None => {
                return Err(PoolError::UnknownToken);
            },
        };
        let out_idx = match self.token_index(token_out) {
            Some(i) => i,
            None => {
                return Err(PoolError::UnknownToken);
            },
        };
        proof {
            lemma_first_index_unique(self.tokens_spec(), token_in@, in_idx as int);
            lemma_first_index_unique(self.tokens_spec(), token_out@, out_idx as int);
        }
        if in_idx == out_idx {
            return Err(PoolError::InvalidPair);
        }
        if amount_in == 0 {
            return Err(PoolError::ZeroAmount);
        }
        if self.amounts[in_idx] == 0 || self.amounts[out_idx] == 0 {
            return Err(PoolError::EmptyReserve);
        }
        Ok(self.get_return_idx(in_idx, amount_in, out_idx))
    }

    /// Swaps `amount_in` of `token_in`, already received from `sender_id`,
    /// for `token_out`, and returns the transfer that pays `sender_id`.
    pub fn swap(
        &mut self,
        sender_id: &String,
        token_in: &String,
        amount_in: u128,
        token_out: &String,
        min_amount_out: u128,
    ) -> (r: Result<TransferRequest, PoolError>)
        requires
            old(self).wf(),
        ensures
            final(self).wf(),
            match old(self).quote_spec(token_in@, amount_in, token_out@) {
                Err(e) => r == Err::<TransferRequest, PoolError>(e) && *final(self) == *old(self),
                Ok(out) => {
                    let tokens = old(self).tokens_spec();
                    let i = index_of(tokens, token_in@);
                    let o = index_of(tokens, token_out@);
                    let res = old(self).reserves_spec();
                    if out < min_amount_out {
                        r == Err::<TransferRequest, PoolError>(PoolError::MinAmountNotMet)
                            && *final(self) == *old(self)
                    } else if res[i] + amount_in > u128::MAX {
                        r == Err::<TransferRequest, PoolError>(PoolError::Overflow)
                            && *final(self) == *old(self)
                    } else {
                        &&& r matches Ok(t) && t.receiver_id@ == sender_id@ && t.token_id@ == token_out@
                            && t.amount == out
                        &&& final(self).reserves_spec() == res.update(i, (res[i] + amount_in) as u128).update(
                            o,
                            (res[o] - out) as u128,
                        )
                        &&& final(self).tokens_spec() == tokens
                        &&& final(self).fee_spec() == old(self).fee_spec()
                        &&& final(self).book() == old(self).book()
                        &&& final(self).total_spec() == old(self).total_spec()
                    }
                },
            },
    {
        let amount_out = match self.get_return(token_in, amount_in, token_out) {
            Ok(v) => v,
            Err(e) => {
                return Err(e);
            },
        };
        let in_idx = match self.token_index(token_in) {
            Some(i) => i,
            None => {
                return Err(PoolError::UnknownToken);
            },
        };
        let out_idx = match self.token_index(token_out) {
            Some(i) => i,
            None => {
                return Err(PoolError::UnknownToken);
            },
        };
        proof {
            lemma_first_index_unique(self.tokens_spec(), token_in@, in_idx as int);
            lemma_first_index_unique(self.tokens_spec(), token_out@, out_idx as int);
            let r = self.reserves_spec();
            let (ri, ro) = (r[in_idx as int] as int, r[out_idx as int] as int);
            // the quote never takes the whole output reserve
            assert(swap_out(amount_in as int, self.fee_spec() as int, ri, ro) < ro) by {
                let a = amount_in * (FEE_DIVISOR - self.fee_spec());
                let d = FEE_DIVISOR * ri + a;
                assert(a < d);
                assert(ro * a < ro * d) by (nonlinear_arith)
                    requires a < d, ro > 0;
                assert(a * ro == ro * a) by (nonlinear_arith);
                vstd::arithmetic::div_mod::lemma_fundamental_div_mod(a * ro, d);
                assert((a * ro) / d < ro) by (nonlinear_arith)
                    requires
                        a * ro == d * ((a * ro) / d) + (a * ro) % d,
                        (a * ro) % d >= 0,
                        a * ro < ro * d,
                        d > 0,
                ;
            }
        }
        if amount_out < min_amount_out {
            return Err(PoolError::MinAmountNotMet);
        }
        let new_in = match self.amounts[in_idx].checked_add(amount_in) {
            Some(v) => v,
            None => {
                return Err(PoolError::Overflow);
            },
        };
        self.amounts.set(in_idx, new_in);
        let new_out = self.amounts[out_idx] - amount_out;
        self.amounts.set(out_idx, new_out);
        Ok(TransferRequest {
            receiver_id: sender_id.clone(),
            token_id: self.token_account_ids[out_idx].clone(),
            amount: amount_out,
        })
    }

    /// Adds liquidity from `sender_id`: the first deposit sets the reserves and
    /// mints `INIT_SHARES_SUPPLY`; later ones mint the least share count that
    /// any single amount justifies and pull the matching part of each reserve.
    pub fn add_liquidity(&mut self, sender_id: String, amounts: Vec<u128>) -> (r: Result<u128, PoolError>)
        requires
            old(self).wf(),
        ensures
            final(self).wf(),
            match old(self).add_error(amounts@) {
                Some(e) => r == Err::<u128, PoolError>(e) && *final(self) == *old(self),
                None => {
                    let s = old(self).minted(amounts@);
                    &&& r == Ok::<u128, PoolError>(s as u128)
                    &&& final(self).reserves_spec().len() == old(self).reserves_spec().len()
                    &&& forall|i: int| 0 <= i < old(self).reserves_spec().len() ==>
                        #[trigger] final(self).reserves_spec()[i] == old(self).reserves_spec()[i] + old(self).added(amounts@, i)
                    &&& final(self).total_spec() == old(self).total_spec() + s
                    &&& forall|k: Seq<char>| #[trigger] final(self).balance(k) == if k == sender_id@ {
                        old(self).balance(k) + s
                    } else {
                        old(self).balance(k)
                    }
                    &&& final(self).tokens_spec() == old(self).tokens_spec()
                    &&& final(self).fee_spec() == old(self).fee_spec()
                },
            },
    {
        let n = self.token_account_ids.len();
        if amounts.len() != n {
            return Err(PoolError::TokenCountMismatch);
        }
        let total = self.shares_total_supply;
        proof {
            self.shares.lemma_wf();
        }
        let ghost pre = *self;
        if total == 0 {
            let ghost old_res = self.amounts@;
            let mut i: usize = 0;
            while i < n
                invariant
                    self.shares == pre.shares,
                    self.shares_total_supply == pre.shares_total_supply,
                    self.token_account_ids == pre.token_account_ids,
                    self.fee == pre.fee,
                    pre.wf(),
                    total == 0,
                    n == self.amounts@.len(),
                    n == amounts@.len(),
                    i <= n,
                    forall|j: int| 0 <= j < n ==> old_res[j] == 0,
                    forall|j: int| 0 <= j < i ==> #[trigger] self.amounts@[j] == amounts@[j],
                    forall|j: int| i <= j < n ==> #[trigger] self.amounts@[j] == old_res[j],
                decreases n - i,
            {
                let v = self.amounts[i] + amounts[i];
                self.amounts.set(i, v);
                i = i + 1;
            }
            self.shares_total_supply = INIT_SHARES_SUPPLY;
            self.shares.credit(&sender_id, INIT_SHARES_SUPPLY);
            return Ok(INIT_SHARES_SUPPLY);
        }
        let mut i: usize = 0;
        while i < n
            invariant
                *self == *old(self),
                old(self).wf(),
                total == old(self).total_spec(),
                total > 0,
                n == old(self).tokens_spec().len(),
                n == amounts@.len(),
                i <= n,
                forall|j: int| 0 <= j < i ==> amounts@[j] != 0,
            decreases n - i,
        {
            if amounts[i] == 0 {
                assert(amounts@[i as int] == 0);
                return Err(PoolError::ZeroAmount);
            }
            i = i + 1;
        }
        let mut i: usize = 0;
        while i < n
            invariant
                *self == *old(self),
                old(self).wf(),
                total == old(self).total_spec(),
                total > 0,
                n == old(self).tokens_spec().len(),
                n == amounts@.len(),
                n == self.amounts@.len(),
                i <= n,
                forall|j: int| 0 <= j < n ==> amounts@[j] != 0,
                forall|j: int| 0 <= j < i ==> self.amounts@[j] != 0,
            decreases n - i,
        {
            if self.amounts[i] == 0 {
                assert(self.amounts@[i as int] == 0);
                return Err(PoolError::EmptyReserve);
            }
            i = i + 1;
        }
        let mut fair: Option<u128> = None;
        let mut i: usize = 0;
        while i < n
            invariant
                *self == *old(self),
                old(self).wf(),
                total == old(self).total_spec(),
                total > 0,
                n == old(self).tokens_spec().len(),
                n == amounts@.len(),
                n == self.amounts@.len(),
                i <= n,
                forall|j: int| 0 <= j < n ==> amounts@[j] != 0,
                forall|j: int| 0 <= j < n ==> self.amounts@[j] != 0,
                fair_supply(amounts@, self.amounts@, total as int, i as int) >= 0,
                fair == fit(fair_supply(amounts@, self.amounts@, total as int, i as int)),
            decreases n - i,
        {
            let c = mul_div(amounts[i], total, self.amounts[i]);
            proof {
                let cv = muldiv(amounts@[i as int] as int, total as int, self.amounts@[i as int] as int);
                let m = fair_supply(amounts@, self.amounts@, total as int, i as int);
                assert(cv >= 0) by (nonlinear_arith)
                    requires
                        cv == amounts@[i as int] as int * total as int / self.amounts@[i as int] as int,
                        self.amounts@[i as int] > 0,
                ;
                assert(fair_supply(amounts@, self.amounts@, total as int, i + 1) == if cv < m {
                    cv
                } else {
                    m
                });
            }
            fair = match (fair, c) {
                (None, c) => c,
                (Some(f), None) => Some(f),
                (Some(f), Some(c)) => if c < f {
                    Some(c)
                } else {
                    Some(f)
                },
            };
            i = i + 1;
        }
        let s = match fair {
            Some(s) => s,
            None => {
                return Err(PoolError::Overflow);
            },
        };
        let new_total = match total.checked_add(s) {
            Some(v) => v,
            None => {
                return Err(PoolError::Overflow);
            },
        };
        let mut new_amounts: Vec<u128> = Vec::new();
        let mut i: usize = 0;
        while i < n
            invariant
                *self == *old(self),
                old(self).wf(),
                total == old(self).total_spec(),
                total > 0,
                n == old(self).tokens_spec().len(),
                n == amounts@.len(),
                n == self.amounts@.len(),
                i <= n,
                forall|j: int| 0 <= j < n ==> amounts@[j] != 0,
                forall|j: int| 0 <= j < n ==> self.amounts@[j] != 0,
                s as int == fair_supply(amounts@, self.amounts@, total as int, n as int),
                total + s <= u128::MAX,
                new_amounts@.len() == i,
                forall|j: int| 0 <= j < i ==> #[trigger] new_amounts@[j] == self.amounts@[j]
                    + muldiv(self.amounts@[j] as int, s as int, total as int),
            decreases n - i,
        {
            let inc = match mul_div(self.amounts[i], s, total) {
                Some(v) => v,
                None => {
                    assert(self.amounts@[i as int] + muldiv(self.amounts@[i as int] as int, s as int, total as int) > u128::MAX);
                    return Err(PoolError::Overflow);
                },
            };
            let v = match self.amounts[i].checked_add(inc) {
                Some(v) => v,
                None => {
                    assert(self.amounts@[i as int] + muldiv(self.amounts@[i as int] as int, s as int, total as int) > u128::MAX);
                    return Err(PoolError::Overflow);
                },
            };
            new_amounts.push(v);
            i = i + 1;
        }
        proof {
            assert forall|j: int| 0 <= j < n implies #[trigger] new_amounts@[j] == self.amounts@[j]
                + self.added(amounts@, j) by {}
            assert forall|j: int| 0 <= j < n implies !(self.amounts@[j] + muldiv(
                self.amounts@[j] as int,
                s as int,
                total as int,
            ) > u128::MAX) by {
                assert(new_amounts@[j] <= u128::MAX);
            }
            assert(!(exists|j: int| 0 <= j < n && amounts@[j] == 0));
            assert(!(exists|j: int| 0 <= j < n && self.amounts@[j] == 0));
            assert(self.add_error(amounts@) is None);
        }
        self.amounts = new_amounts;
        self.shares_total_supply = new_total;
        self.shares.credit(&sender_id, s);
        Ok(s)
    }

    /// Burns `shares` of `sender_id` and returns what each reserve pays out
    /// for them; the caller carries out the transfers.
    pub fn remove_liquidity(&mut self, sender_id: &String, shares: u128, min_amounts: Vec<u128>) -> (r: Result<Vec<u128>, PoolError>)
        requires
            old(self).wf(),
        ensures
            final(self).wf(),
            match old(self).remove_error(sender_id@, shares, min_amounts@) {
                Some(e) => r == Err::<Vec<u128>, PoolError>(e) && *final(self) == *old(self),
                None => {
                    let res = old(self).reserves_spec();
                    &&& r matches Ok(out) && out@.len() == res.len() && forall|i: int| 0 <= i < res.len() ==>
                        #[trigger] out@[i] == old(self).withdrawn(shares, i)
                    &&& final(self).reserves_spec().len() == res.len()
                    &&& forall|i: int| 0 <= i < res.len() ==>
                        #[trigger] final(self).reserves_spec()[i] == res[i] - old(self).withdrawn(shares, i)
                    &&& final(self).total_spec() == old(self).total_spec() - shares
                    &&& forall|k: Seq<char>| #[trigger] final(self).balance(k) == if k == sender_id@ {
                        old(self).balance(k) - shares
                    } else {
                        old(self).balance(k)
                    }
                    &&& final(self).tokens_spec() == old(self).tokens_spec()
                    &&& final(self).fee_spec() == old(self).fee_spec()
                },
            },
    {
        proof {
            self.shares.lemma_wf();
        }
        let prev = self.shares.get(sender_id);
        if prev == 0 {
            return Err(PoolError::NoShares);
        }
        if prev < shares {
            return Err(PoolError::InsufficientShares);
        }
        let n = self.token_account_ids.len();
        if min_amounts.len() != n {
            return Err(PoolError::TokenCountMismatch);
        }
        let total = self.shares_total_supply;
        let mut result: Vec<u128> = Vec::new();
        let mut i: usize = 0;
        while i < n
            invariant
                *self == *old(self),
                old(self).wf(),
                prev == old(self).balance(sender_id@),
                shares <= prev,
                prev > 0,
                n == old(self).tokens_spec().len(),
                n == self.amounts@.len(),
                n == min_amounts@.len(),
                i <= n,
                0 <= shares <= total,
                total > 0,
                total == self.total_spec(),
                self.amounts@ == self.reserves_spec(),
                result@.len() == i,
                forall|j: int| 0 <= j < i ==> #[trigger] result@[j] == self.withdrawn(shares, j),
                forall|j: int| 0 <= j < i ==> self.withdrawn(shares, j) >= min_amounts@[j],
                forall|j: int| 0 <= j < i ==> #[trigger] result@[j] <= self.amounts@[j],
            decreases n - i,
        {
            proof {
                lemma_share_fits(self.amounts@[i as int] as int, shares as int, total as int);
            }
            let amount = match mul_div(self.amounts[i], shares, total) {
                Some(v) => v,
                // unreachable: burning at most the total supply pays at most the reserve
                None => 0,
            };
            if amount < min_amounts[i] {
                assert(self.withdrawn(shares, i as int) < min_amounts@[i as int]);
                return Err(PoolError::MinAmountNotMet);
            }
            result.push(amount);
            i = i + 1;
        }
        let ghost old_res = self.amounts@;
        let ghost pre = *self;
        let mut i: usize = 0;
        while i < n
            invariant
                self.shares == pre.shares,
                self.shares_total_supply == pre.shares_total_supply,
                self.token_account_ids == pre.token_account_ids,
                self.fee == pre.fee,
                n == self.amounts@.len(),
                n == old_res.len(),
                n == result@.len(),
                i <= n,
                forall|j: int| 0 <= j < n ==> #[trigger] result@[j] <= old_res[j],
                forall|j: int| 0 <= j < i ==> #[trigger] self.amounts@[j] == old_res[j] - result@[j],
                forall|j: int| i <= j < n ==> #[trigger] self.amounts@[j] == old_res[j],
            decreases n - i,
        {
            let v = self.amounts[i] - result[i];
            self.amounts.set(i, v);
            i = i + 1;
        }
        proof {
            if shares == total {
                assert forall|j: int| 0 <= j < n implies self.amounts@[j] == 0 by {
                    lemma_share_fits(old_res[j] as int, shares as int, total as int);
                }
            }
        }
        self.shares_total_supply = total - shares;
        self.shares.debit(sender_id, shares);
        Ok(result)
    }
}

} // verus!
