//! Share balances of liquidity providers, one entry per account.
use vstd::prelude::*;

verus! {

/// Sum of all balances in `s`.
pub open spec fn sum_shares(s: Seq<(String, u128)>) -> int
    decreases s.len(),
{
    if s.len() == 0 {
        0
    } else {
        sum_shares(s.drop_last()) + s.last().1
    }
}

/// Balance recorded for account `k`, zero when it has no entry.
pub open spec fn share_of(s: Seq<(String, u128)>, k: Seq<char>) -> int
    decreases s.len(),
{
    if s.len() == 0 {
        0
    } else if s.last().0@ == k {
        s.last().1 as int
    } else {
        share_of(s.drop_last(), k)
    }
}

/// Whether `k` has an entry.
pub open spec fn has_entry(s: Seq<(String, u128)>, k: Seq<char>) -> bool {
    exists|i: int| 0 <= i < s.len() && s[i].0@ == k
}

/// Each account appears once, and only with a positive balance.
pub open spec fn book_wf(s: Seq<(String, u128)>) -> bool {
    &&& forall|i: int, j: int| 0 <= i < j < s.len() ==> s[i].0@ != s[j].0@
    &&& forall|i: int| 0 <= i < s.len() ==> s[i].1 > 0
}

/// Share balances keyed by account; zero balances are never stored.
pub struct ShareBook {
    entries: Vec<(String, u128)>,
}

impl View for ShareBook {
    type V = Seq<(String, u128)>;

    closed spec fn view(&self) -> Seq<(String, u128)> {
        self.entries@
    }
}

proof fn lemma_absent(s: Seq<(String, u128)>, k: Seq<char>)
    requires
        !has_entry(s, k),
    ensures
        share_of(s, k) == 0,
    decreases s.len(),
{
    if s.len() > 0 {
        assert(!has_entry(s.drop_last(), k)) by {
            if has_entry(s.drop_last(), k) {
                let i = choose|i: int| 0 <= i < s.len() - 1 && s.drop_last()[i].0@ == k;
                assert(s[i].0@ == k);
            }
        }
        assert(s.last() == s[s.len() - 1]);
        lemma_absent(s.drop_last(), k);
    }
}

proof fn lemma_at(s: Seq<(String, u128)>, j: int)
    requires
        book_wf(s),
        0 <= j < s.len(),
    ensures
        share_of(s, s[j].0@) == s[j].1,
        has_entry(s, s[j].0@),
    decreases s.len(),
{
    if j < s.len() - 1 {
        assert(s.drop_last()[j] == s[j]);
        lemma_at(s.drop_last(), j);
    }
}

proof fn lemma_positive_sum(s: Seq<(String, u128)>)
    requires
        book_wf(s),
    ensures
        sum_shares(s) >= 0,
        sum_shares(s) == 0 <==> s.len() == 0,
        forall|k: Seq<char>| 0 <= #[trigger] share_of(s, k) <= sum_shares(s),
    decreases s.len(),
{
    if s.len() > 0 {
        lemma_positive_sum(s.drop_last());
        assert(s.last() == s[s.len() - 1]);
        assert forall|k: Seq<char>| 0 <= #[trigger] share_of(s, k) <= sum_shares(s) by {
            assert(share_of(s.drop_last(), k) <= sum_shares(s.drop_last()));
        }
    }
}

proof fn lemma_update(s: Seq<(String, u128)>, j: int, v: u128)
    requires
        book_wf(s),
        0 <= j < s.len(),
    ensures
        sum_shares(s.update(j, (s[j].0, v))) == sum_shares(s) - s[j].1 + v,
        forall|k: Seq<char>| #[trigger] share_of(s.update(j, (s[j].0, v)), k) == if k == s[j].0@ {
            v as int
        } else {
            share_of(s, k)
        },
    decreases s.len(),
{
    let t = s.update(j, (s[j].0, v));
    if j == s.len() - 1 {
        assert(t.drop_last() =~= s.drop_last());
        assert forall|k: Seq<char>| #[trigger] share_of(t, k) == if k == s[j].0@ {
            v as int
        } else {
            share_of(s, k)
        } by {}
    } else {
        let d = s.drop_last();
        assert(book_wf(d));
        lemma_update(d, j, v);
        assert(t.drop_last() =~= d.update(j, (d[j].0, v)));
        assert(s.last() == s[s.len() - 1]);
        assert(t.last() == s.last());
        assert(s[s.len() - 1].0@ != s[j].0@);
        assert(d[j] == s[j]);
        assert forall|k: Seq<char>| #[trigger] share_of(t, k) == if k == s[j].0@ {
            v as int
        } else {
            share_of(s, k)
        } by {
            assert(share_of(d.update(j, (d[j].0, v)), k) == if k == d[j].0@ {
                v as int
            } else {
                share_of(d, k)
            });
        }
    }
}

proof fn lemma_remove(s: Seq<(String, u128)>, j: int)
    requires
        book_wf(s),
        0 <= j < s.len(),
    ensures
        book_wf(s.remove(j)),
        sum_shares(s.remove(j)) == sum_shares(s) - s[j].1,
        forall|k: Seq<char>| #[trigger] share_of(s.remove(j), k) == if k == s[j].0@ {
            0
        } else {
            share_of(s, k)
        },
    decreases s.len(),
{
    let t = s.remove(j);
    let d = s.drop_last();
    assert(book_wf(t)) by {
        assert forall|a: int, b: int| 0 <= a < b < t.len() implies t[a].0@ != t[b].0@ by {
            let a2 = if a < j { a } else { a + 1 };
            let b2 = if b < j { b } else { b + 1 };
            assert(t[a] == s[a2] && t[b] == s[b2]);
        }
        assert forall|a: int| 0 <= a < t.len() implies t[a].1 > 0 by {
            let a2 = if a < j { a } else { a + 1 };
            assert(t[a] == s[a2]);
        }
    }
    if j == s.len() - 1 {
        assert(t =~= d);
        assert forall|k: Seq<char>| #[trigger] share_of(t, k) == if k == s[j].0@ {
            0
        } else {
            share_of(s, k)
        } by {
            if k == s[j].0@ {
                assert(!has_entry(d, k)) by {
                    if has_entry(d, k) {
                        let i = choose|i: int| 0 <= i < d.len() && d[i].0@ == k;
                        assert(s[i].0@ == k);
                    }
                }
                lemma_absent(d, k);
            }
        }
    } else {
        assert(book_wf(d));
        lemma_remove(d, j);
        assert(t.drop_last() =~= d.remove(j));
        assert(t.last() == s.last());
        assert(s.last() == s[s.len() - 1]);
        assert(s[s.len() - 1].0@ != s[j].0@);
        assert(d[j] == s[j]);
        assert forall|k: Seq<char>| #[trigger] share_of(t, k) == if k == s[j].0@ {
            0
        } else {
            share_of(s, k)
        } by {
            assert(share_of(d.remove(j), k) == if k == d[j].0@ {
                0
            } else {
                share_of(d, k)
            });
        }
    }
}

proof fn lemma_push(s: Seq<(String, u128)>, key: String, v: u128)
    requires
        book_wf(s),
        !has_entry(s, key@),
        v > 0,
    ensures
        book_wf(s.push((key, v))),
        sum_shares(s.push((key, v))) == sum_shares(s) + v,
        forall|k: Seq<char>| #[trigger] share_of(s.push((key, v)), k) == if k == key@ {
            v as int
        } else {
            share_of(s, k)
        },
{
    let t = s.push((key, v));
    assert(t.drop_last() =~= s);
    assert forall|a: int, b: int| 0 <= a < b < t.len() implies t[a].0@ != t[b].0@ by {
        if b == s.len() {
            assert(t[a] == s[a]);
        } else {
            assert(t[a] == s[a] && t[b] == s[b]);
        }
    }
}

impl ShareBook {
    pub open spec fn wf(&self) -> bool {
        book_wf(self@)
    }

    /// Sum of all balances.
    pub open spec fn total(&self) -> int {
        sum_shares(self@)
    }

    /// Balance of account `k`.
    pub open spec fn balance(&self, k: Seq<char>) -> int {
        share_of(self@, k)
    }

    pub fn new() -> (r: ShareBook)
        ensures
            r.wf(),
            r@.len() == 0,
            r.total() == 0,
            forall|k: Seq<char>| #[trigger] r.balance(k) == 0,
    {
        ShareBook { entries: Vec::new() }
    }

    /// Facts that every well-formed book satisfies.
    pub proof fn lemma_wf(&self)
        requires
            self.wf(),
        ensures
            self.total() >= 0,
            self.total() == 0 <==> self@.len() == 0,
            forall|k: Seq<char>| 0 <= #[trigger] self.balance(k) <= self.total(),
            forall|k: Seq<char>| #[trigger] has_entry(self@, k) <==> self.balance(k) > 0,
    {
        lemma_positive_sum(self@);
        assert forall|k: Seq<char>| #[trigger] has_entry(self@, k) <==> self.balance(k) > 0 by {
            if has_entry(self@, k) {
                let i = choose|i: int| 0 <= i < self@.len() && self@[i].0@ == k;
                lemma_at(self@, i);
            } else {
                lemma_absent(self@, k);
            }
        }
    }

    /// Number of accounts holding shares.
    pub fn holders(&self) -> (r: usize)
        ensures
            r == self@.len(),
    {
        self.entries.len()
    }

    fn find(&self, k: &String) -> (r: Option<usize>)
        requires
            self.wf(),
        ensures
            r matches Some(i) ==> i < self@.len() && self@[i as int].0@ == k@,
            r is None ==> !has_entry(self@, k@),
    {
        let mut i: usize = 0;
        while i < self.entries.len()
            invariant
                i <= self@.len(),
                forall|j: int| 0 <= j < i ==> self@[j].0@ != k@,
            decreases self@.len() - i,
        {
            if self.entries[i].0 == *k {
                return Some(i);
            }
            i = i + 1;
        }
        None
    }

    /// Balance of `k`, zero when it holds no shares.
    pub fn get(&self, k: &String) -> (r: u128)
        requires
            self.wf(),
        ensures
            r == self.balance(k@),
    {
        match self.find(k) {
            Some(i) => {
                proof {
                    lemma_at(self@, i as int);
                }
                self.entries[i].1
            },
            None => {
                proof {
                    lemma_absent(self@, k@);
                }
                0
            },
        }
    }

    /// Adds `v` to the balance of `k`; a zero credit stores nothing.
    pub fn credit(&mut self, k: &String, v: u128)
        requires
            old(self).wf(),
            old(self).total() + v <= u128::MAX,
        ensures
            final(self).wf(),
            final(self).total() == old(self).total() + v,
            forall|a: Seq<char>| #[trigger] final(self).balance(a) == if a == k@ {
                old(self).balance(a) + v
            } else {
                old(self).balance(a)
            },
    {
        if v == 0 {
            return;
        }
        proof {
            self.lemma_wf();
        }
        match self.find(k) {
            Some(i) => {
                proof {
                    lemma_at(self@, i as int);
                    lemma_update(self@, i as int, (self@[i as int].1 + v) as u128);
                }
                let name = self.entries[i].0.clone();
                let cur = self.entries[i].1;
                let ghost s0 = self@;
                self.entries.set(i, (name, cur + v));
                proof {
                    assert(self@ =~= s0.update(i as int, (s0[i as int].0, (s0[i as int].1 + v) as u128)));
                    assert(book_wf(self@)) by {
                        assert forall|a: int, b: int| 0 <= a < b < self@.len() implies self@[a].0@ != self@[b].0@ by {
                            assert(self@[a].0@ == s0[a].0@ && self@[b].0@ == s0[b].0@);
                        }
                    }
                }
            },
            None => {
                let key = k.clone();
                proof {
                    lemma_absent(self@, k@);
                    lemma_push(self@, key, v);
                }
                self.entries.push((key, v));
            },
        }
    }

    /// Takes `v` from the balance of `k`, dropping the entry when it reaches zero.
    pub fn debit(&mut self, k: &String, v: u128)
        requires
            old(self).wf(),
            v <= old(self).balance(k@),
        ensures
            final(self).wf(),
            final(self).total() == old(self).total() - v,
            forall|a: Seq<char>| #[trigger] final(self).balance(a) == if a == k@ {
                old(self).balance(a) - v
            } else {
                old(self).balance(a)
            },
    {
        proof {
            self.lemma_wf();
        }
        if v == 0 {
            return;
        }
        match self.find(k) {
            Some(i) => {
                proof {
                    lemma_at(self@, i as int);
                }
                let cur = self.entries[i].1;
                if cur == v {
                    proof {
                        lemma_remove(self@, i as int);
                    }
                    self.entries.remove(i);
                } else {
                    proof {
                        lemma_update(self@, i as int, (cur - v) as u128);
                    }
                    let name = self.entries[i].0.clone();
                    let ghost s0 = self@;
                    self.entries.set(i, (name, cur - v));
                    proof {
                        assert(self@ =~= s0.update(i as int, (s0[i as int].0, (cur - v) as u128)));
                        assert(book_wf(self@)) by {
                            assert forall|a: int, b: int| 0 <= a < b < self@.len() implies self@[a].0@ != self@[b].0@ by {
                                assert(self@[a].0@ == s0[a].0@ && self@[b].0@ == s0[b].0@);
                            }
                        }
                    }
                }
            },
            None => {
                proof {
                    lemma_absent(self@, k@);
                }
            },
        }
    }
}

} // verus!
