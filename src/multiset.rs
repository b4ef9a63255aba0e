//! A bag of tokens: each token with a positive count, absence meaning zero.

use vstd::prelude::*;
use crate::order::{strict_order, lemma_sorted_unique};
use crate::token::{Token, token_lt, lemma_token_lt_total, lemma_token_lt_facts};

verus! {

/// How many copies of `t` the bag `b` holds.
pub open spec fn bag_count(b: Map<Token, nat>, t: Token) -> nat {
    if b.contains_key(t) {
        b[t]
    } else {
        0
    }
}

/// Every token that a bag stores has a positive count.
pub open spec fn bag_wf(b: Map<Token, nat>) -> bool {
    forall|t: Token| #[trigger] b.contains_key(t) ==> b[t] > 0
}

/// The bag after adding `n` copies of `t`.
pub open spec fn bag_add(b: Map<Token, nat>, t: Token, n: nat) -> Map<Token, nat> {
    if n == 0 {
        b
    } else {
        b.insert(t, bag_count(b, t) + n)
    }
}

/// The bag after taking `n` copies of `t`, where it holds at least `n`.
pub open spec fn bag_sub(b: Map<Token, nat>, t: Token, n: nat) -> Map<Token, nat> {
    if bag_count(b, t) <= n {
        b.remove(t)
    } else {
        b.insert(t, (bag_count(b, t) - n) as nat)
    }
}

/// Order of entries by their token.
pub open spec fn entry_lt(x: (Token, usize), y: (Token, usize)) -> bool {
    token_lt(x.0, y.0)
}

/// Entries strictly increasing by token.
pub open spec fn entries_sorted(s: Seq<(Token, usize)>) -> bool {
    forall|i: int, j: int| 0 <= i < j < s.len() ==> #[trigger] entry_lt(s[i], s[j])
}

/// `s` lists the bag `b`: sorted by token, one entry per stored token, with its count.
pub open spec fn is_bag_listing(s: Seq<(Token, usize)>, b: Map<Token, nat>) -> bool {
    &&& entries_sorted(s)
    &&& forall|i: int|
        0 <= i < s.len() ==> {
            &&& #[trigger] s[i].1 > 0
            &&& b.contains_key(s[i].0)
            &&& b[s[i].0] == s[i].1 as nat
        }
    &&& forall|t: Token| #[trigger]
        b.contains_key(t) ==> exists|i: int| 0 <= i < s.len() && s[i].0 == t
}

spec fn listed_map(s: Seq<(Token, usize)>) -> Map<Token, nat> {
    Map::new(
        |t: Token| exists|i: int| 0 <= i < s.len() && s[i].0 == t,
        |t: Token| s[choose|i: int| 0 <= i < s.len() && s[i].0 == t].1 as nat,
    )
}

proof fn lemma_listing_map(s: Seq<(Token, usize)>, b: Map<Token, nat>)
    requires
        is_bag_listing(s, b),
    ensures
        listed_map(s) == b,
{
    assert forall|t: Token| #[trigger] listed_map(s).contains_key(t) <==> b.contains_key(t) by {
        if listed_map(s).contains_key(t) {
            let i = choose|i: int| 0 <= i < s.len() && s[i].0 == t;
            assert(s[i].1 > 0);
        }
    }
    assert forall|t: Token| #[trigger] listed_map(s).contains_key(t) implies listed_map(s)[t] == b[t] by {
        let i = choose|i: int| 0 <= i < s.len() && s[i].0 == t;
        assert(s[i].1 > 0);
    }
    assert(listed_map(s) =~= b);
}

/// A listing of a bag is unique.
pub proof fn lemma_bag_listing_unique(s1: Seq<(Token, usize)>, s2: Seq<(Token, usize)>, b: Map<Token, nat>)
    requires
        is_bag_listing(s1, b),
        is_bag_listing(s2, b),
    ensures
        s1 == s2,
{
    lemma_token_lt_facts();
    let lt = |x: (Token, usize), y: (Token, usize)| entry_lt(x, y);
    assert(strict_order(lt));
    assert forall|i: int, j: int| 0 <= i < j < s1.len() implies #[trigger] lt(s1[i], s1[j]) by {
        assert(entry_lt(s1[i], s1[j]));
    }
    assert forall|i: int, j: int| 0 <= i < j < s2.len() implies #[trigger] lt(s2[i], s2[j]) by {
        assert(entry_lt(s2[i], s2[j]));
    }
    assert forall|x: (Token, usize)| s1.contains(x) <==> s2.contains(x) by {
        if s1.contains(x) {
            let i = choose|i: int| 0 <= i < s1.len() && s1[i] == x;
            assert(s1[i].1 > 0);
            assert(b.contains_key(x.0));
            let j = choose|j: int| 0 <= j < s2.len() && s2[j].0 == x.0;
            assert(s2[j].1 > 0);
            assert(s2[j] == x);
        }
        if s2.contains(x) {
            let i = choose|i: int| 0 <= i < s2.len() && s2[i] == x;
            assert(s2[i].1 > 0);
            assert(b.contains_key(x.0));
            let j = choose|j: int| 0 <= j < s1.len() && s1[j].0 == x.0;
            assert(s1[j].1 > 0);
            assert(s1[j] == x);
        }
    }
    lemma_sorted_unique(s1, s2, lt);
}

/// The bag of tokens held by one place.
#[derive(Debug, Clone)]
pub struct TokenMultiset {
    entries: Vec<(Token, usize)>,
}

impl View for TokenMultiset {
    type V = Map<Token, nat>;

    closed spec fn view(&self) -> Map<Token, nat> {
        listed_map(self.entries@)
    }
}

impl TokenMultiset {
    /// The entries are a listing of the bag.
    pub closed spec fn wf(&self) -> bool {
        is_bag_listing(self.entries@, self@)
    }

    pub proof fn lemma_wf_bag(&self)
        requires
            self.wf(),
        ensures
            bag_wf(self@),
    {
        assert forall|t: Token| #[trigger] self@.contains_key(t) implies self@[t] > 0 by {
            let i = choose|i: int| 0 <= i < self.entries@.len() && self.entries@[i].0 == t;
            assert(self.entries@[i].1 > 0);
        }
    }

    pub fn new() -> (r: TokenMultiset)
        ensures
            r.wf(),
            r@ == Map::<Token, nat>::empty(),
    {
        let r = TokenMultiset { entries: Vec::new() };
        proof {
            assert(is_bag_listing(r.entries@, Map::<Token, nat>::empty()));
            lemma_listing_map(r.entries@, Map::<Token, nat>::empty());
        }
        r
    }

    /// First index whose token is not below `t`, and whether that token is `t`.
    fn find(&self, t: &Token) -> (r: (usize, bool))
        requires
            self.wf(),
        ensures
            r.0 <= self.entries@.len(),
            forall|j: int| 0 <= j < r.0 ==> token_lt(#[trigger] self.entries@[j].0, *t),
            forall|j: int| r.0 < j < self.entries@.len() ==> token_lt(*t, #[trigger] self.entries@[j].0),
            r.1 == (r.0 < self.entries@.len() && self.entries@[r.0 as int].0 == *t),
            !r.1 && r.0 < self.entries@.len() ==> token_lt(*t, self.entries@[r.0 as int].0),
            r.1 ==> bag_count(self@, *t) == self.entries@[r.0 as int].1,
            !r.1 ==> bag_count(self@, *t) == 0,
    {
        let mut i: usize = 0;
        while i < self.entries.len()
            invariant
                self.wf(),
                i <= self.entries@.len(),
                forall|j: int| 0 <= j < i ==> token_lt(#[trigger] self.entries@[j].0, *t),
            ensures
                i <= self.entries@.len(),
                i < self.entries@.len() ==> !token_lt(self.entries@[i as int].0, *t),
            decreases self.entries@.len() - i,
        {
            if !self.entries[i].0.less_than(t) {
                break;
            }
            i = i + 1;
        }
        let ghost s = self.entries@;
        let found = i < self.entries.len() && self.entries[i].0 == *t;
        proof {
            lemma_token_lt_facts();
            if i < s.len() {
                lemma_token_lt_total(s[i as int].0, *t);
                assert forall|j: int| i < j < s.len() implies token_lt(*t, #[trigger] s[j].0) by {
                    assert(entry_lt(s[i as int], s[j]));
                }
            }
            if found {
                assert(s[i as int].1 > 0);
                assert(self@.contains_key(*t));
            } else {
                if self@.contains_key(*t) {
                    let k = choose|k: int| 0 <= k < s.len() && s[k].0 == *t;
                    assert(s[k].1 > 0);
                    if k < i {
                        assert(token_lt(s[k].0, *t));
                    } else if k > i {
                        assert(token_lt(*t, s[k].0));
                    }
                }
            }
        }
        (i, found)
    }

    /// Adds `count` copies of `token`.
    pub fn add(&mut self, token: Token, count: usize)
        requires
            old(self).wf(),
            bag_count(old(self)@, token) + count <= usize::MAX,
        ensures
            final(self).wf(),
            final(self)@ == bag_add(old(self)@, token, count as nat),
    {
        if count == 0 {
            return;
        }
        let ghost b = bag_add(self@, token, count as nat);
        let ghost s0 = self.entries@;
        let (pos, found) = self.find(&token);
        proof {
            lemma_token_lt_facts();
        }
        if found {
            let c = self.entries[pos].1;
            self.entries.set(pos, (token, c + count));
            proof {
                let s = self.entries@;
                assert forall|i: int, j: int| 0 <= i < j < s.len() implies #[trigger] entry_lt(s[i], s[j]) by {
                    assert(entry_lt(s0[i], s0[j]));
                }
                assert forall|i: int| 0 <= i < s.len() implies {
                    &&& #[trigger] s[i].1 > 0
                    &&& b.contains_key(s[i].0)
                    &&& b[s[i].0] == s[i].1 as nat
                } by {
                    assert(s0[i].1 > 0);
                    if i != pos {
                        if i < pos {
                            assert(entry_lt(s0[i], s0[pos as int]));
                        } else {
                            assert(entry_lt(s0[pos as int], s0[i]));
                        }
                    }
                }
                assert forall|t: Token| #[trigger] b.contains_key(t) implies exists|i: int| 0 <= i < s.len() && s[i].0 == t by {
                    if t == token {
                        assert(s[pos as int].0 == t);
                    } else {
                        let k = choose|k: int| 0 <= k < s0.len() && s0[k].0 == t;
                        assert(s[k].0 == t);
                    }
                }
                lemma_listing_map(s, b);
            }
        } else {
            self.entries.insert(pos, (token, count));
            proof {
                let s = self.entries@;
                assert forall|i: int, j: int| 0 <= i < j < s.len() implies #[trigger] entry_lt(s[i], s[j]) by {
                    if j < pos {
                        assert(entry_lt(s0[i], s0[j]));
                    } else if j == pos {
                    } else if i < pos {
                        assert(token_lt(s0[i].0, token));
                        assert(token_lt(token, s0[j - 1].0) || (j - 1 == pos));
                    } else if i == pos {
                    } else {
                        assert(entry_lt(s0[i - 1], s0[j - 1]));
                    }
                }
                assert forall|i: int| 0 <= i < s.len() implies {
                    &&& #[trigger] s[i].1 > 0
                    &&& b.contains_key(s[i].0)
                    &&& b[s[i].0] == s[i].1 as nat
                } by {
                    if i < pos {
                        assert(s0[i].1 > 0);
                        assert(token_lt(s0[i].0, token));
                    } else if i > pos {
                        assert(s0[i - 1].1 > 0);
                        assert(token_lt(token, s0[i - 1].0) || i - 1 == pos);
                        if i - 1 == pos {
                            assert(token_lt(token, s0[pos as int].0));
                        }
                    }
                }
                assert forall|t: Token| #[trigger] b.contains_key(t) implies exists|i: int| 0 <= i < s.len() && s[i].0 == t by {
                    if t == token {
                        assert(s[pos as int].0 == t);
                    } else {
                        let k = choose|k: int| 0 <= k < s0.len() && s0[k].0 == t;
                        if k < pos {
                            assert(s[k].0 == t);
                        } else {
                            assert(s[k + 1].0 == t);
                        }
                    }
                }
                lemma_listing_map(s, b);
            }
        }
    }

    /// Takes `count` copies of `token` if at least that many are stored;
    /// otherwise leaves the bag as it is and returns false.
    pub fn remove(&mut self, token: &Token, count: usize) -> (r: bool)
        requires
            old(self).wf(),
        ensures
            final(self).wf(),
            r == (bag_count(old(self)@, *token) >= count),
            r ==> final(self)@ == bag_sub(old(self)@, *token, count as nat),
            !r ==> final(self)@ == old(self)@,
    {
        let ghost s0 = self.entries@;
        let ghost b = bag_sub(self@, *token, count as nat);
        let (pos, found) = self.find(token);
        proof {
            lemma_token_lt_facts();
        }
        if !found {
            if count == 0 {
                proof {
                    assert(self@.remove(*token) =~= self@);
                }
                return true;
            }
            return false;
        }
        let c = self.entries[pos].1;
        if c < count {
            return false;
        }
        if c == count {
            self.entries.remove(pos);
            proof {
                let s = self.entries@;
                assert forall|i: int, j: int| 0 <= i < j < s.len() implies #[trigger] entry_lt(s[i], s[j]) by {
                    if j < pos {
                        assert(entry_lt(s0[i], s0[j]));
                    } else if i < pos {
                        assert(entry_lt(s0[i], s0[j + 1]));
                    } else {
                        assert(entry_lt(s0[i + 1], s0[j + 1]));
                    }
                }
                assert forall|i: int| 0 <= i < s.len() implies {
                    &&& #[trigger] s[i].1 > 0
                    &&& b.contains_key(s[i].0)
                    &&& b[s[i].0] == s[i].1 as nat
                } by {
                    if i < pos {
                        assert(s0[i].1 > 0);
                        assert(entry_lt(s0[i], s0[pos as int]));
                    } else {
                        assert(s0[i + 1].1 > 0);
                        assert(entry_lt(s0[pos as int], s0[i + 1]));
                    }
                }
                assert forall|t: Token| #[trigger] b.contains_key(t) implies exists|i: int| 0 <= i < s.len() && s[i].0 == t by {
                    let k = choose|k: int| 0 <= k < s0.len() && s0[k].0 == t;
                    if k < pos {
                        assert(s[k].0 == t);
                    } else {
                        assert(s[k - 1].0 == t);
                    }
                }
                lemma_listing_map(s, b);
            }
        } else {
            self.entries.set(pos, (*token, c - count));
            proof {
                let s = self.entries@;
                assert forall|i: int, j: int| 0 <= i < j < s.len() implies #[trigger] entry_lt(s[i], s[j]) by {
                    assert(entry_lt(s0[i], s0[j]));
                }
                assert forall|i: int| 0 <= i < s.len() implies {
                    &&& #[trigger] s[i].1 > 0
                    &&& b.contains_key(s[i].0)
                    &&& b[s[i].0] == s[i].1 as nat
                } by {
                    assert(s0[i].1 > 0);
                    if i < pos {
                        assert(entry_lt(s0[i], s0[pos as int]));
                    } else if i > pos {
                        assert(entry_lt(s0[pos as int], s0[i]));
                    }
                }
                assert forall|t: Token| #[trigger] b.contains_key(t) implies exists|i: int| 0 <= i < s.len() && s[i].0 == t by {
                    let k = choose|k: int| 0 <= k < s0.len() && s0[k].0 == t;
                    assert(s[k].0 == t);
                }
                lemma_listing_map(s, b);
            }
        }
        true
    }

    /// Whether at least `count` copies of `token` are stored.
    pub fn contains(&self, token: &Token, count: usize) -> (r: bool)
        requires
            self.wf(),
        ensures
            r == (bag_count(self@, *token) >= count),
    {
        let (pos, found) = self.find(token);
        if found {
            self.entries[pos].1 >= count
        } else {
            count == 0
        }
    }

    /// How many copies of `token` are stored.
    pub fn count(&self, token: &Token) -> (r: usize)
        requires
            self.wf(),
        ensures
            r as nat == bag_count(self@, *token),
    {
        let (pos, found) = self.find(token);
        if found {
            self.entries[pos].1
        } else {
            0
        }
    }

    pub fn is_empty(&self) -> (r: bool)
        requires
            self.wf(),
        ensures
            r == (self@ == Map::<Token, nat>::empty()),
    {
        proof {
            if self.entries@.len() > 0 {
                assert(self.entries@[0].1 > 0);
                assert(self@.contains_key(self.entries@[0].0));
            } else {
                assert(self@ =~= Map::<Token, nat>::empty());
            }
        }
        self.entries.len() == 0
    }

    /// The stored tokens with their counts, in the canonical token order.
    pub fn iter(&self) -> (r: &[(Token, usize)])
        requires
            self.wf(),
        ensures
            is_bag_listing(r@, self@),
    {
        self.entries.as_slice()
    }

    /// A copy of this bag.
    pub fn snapshot(&self) -> (r: TokenMultiset)
        requires
            self.wf(),
        ensures
            r.wf(),
            r@ == self@,
    {
        let mut entries: Vec<(Token, usize)> = Vec::new();
        let mut i: usize = 0;
        while i < self.entries.len()
            invariant
                i <= self.entries@.len(),
                entries@ == self.entries@.subrange(0, i as int),
            decreases self.entries@.len() - i,
        {
            let e = self.entries[i];
            entries.push(e);
            i = i + 1;
            proof {
                assert(entries@ =~= self.entries@.subrange(0, i as int));
            }
        }
        proof {
            assert(entries@ =~= self.entries@);
        }
        TokenMultiset { entries }
    }
}

impl Default for TokenMultiset {
    fn default() -> (r: TokenMultiset)
        ensures
            r.wf(),
            r@ == Map::<Token, nat>::empty(),
    {
        TokenMultiset::new()
    }
}

/// Adding `n` copies of a token and then removing `n` copies succeeds and
/// gives back the bag that was there before.
pub proof fn lemma_add_then_remove(m: TokenMultiset, t: Token, n: nat)
    requires
        m.wf(),
    ensures
        bag_count(bag_add(m@, t, n), t) >= n,
        bag_sub(bag_add(m@, t, n), t, n) == m@,
{
    m.lemma_wf_bag();
    let b = m@;
    if n == 0 {
        if !b.contains_key(t) {
            assert(b.remove(t) =~= b);
        }
    } else if b.contains_key(t) {
        assert(bag_add(b, t, n).insert(t, b[t]) =~= b);
    } else {
        assert(bag_add(b, t, n).remove(t) =~= b);
    }
}

/// A failed removal leaves every count as it was, and a successful one never
/// takes a count below zero.
pub proof fn lemma_remove_bounds(m: TokenMultiset, t: Token, n: nat)
    requires
        m.wf(),
        bag_count(m@, t) >= n,
    ensures
        bag_count(bag_sub(m@, t, n), t) == bag_count(m@, t) - n,
        bag_wf(bag_sub(m@, t, n)),
        forall|u: Token| u != t ==> bag_count(#[trigger] bag_sub(m@, t, n), u) == bag_count(m@, u),
{
    m.lemma_wf_bag();
}

} // verus!
