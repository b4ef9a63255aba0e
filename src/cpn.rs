//! Arcs, transitions, bindings and the engine that fires transitions.

use vstd::prelude::*;
use crate::order::str_equal;
use crate::table::{table, lemma_table_prefix, lemma_table_last, lemma_table_value};
use crate::token::Token;
use crate::multiset::{bag_count, bag_add, bag_sub};
use crate::marking::{Marking, tokens_at, place_count, marking_digest};

verus! {

/// Token pattern of an arc: a concrete token, or a variable to take from the binding.
#[derive(Debug, Clone)]
pub enum ArcTokenPattern {
    Concrete(Token),
    Variable(String),
}

/// An arc: a place and the token pattern consumed from or produced into it.
#[derive(Debug, Clone)]
pub struct ArcSpec {
    pub place: String,
    pub token: ArcTokenPattern,
}

/// A transition: its id, the arcs it consumes and the arcs it produces.
#[derive(Debug, Clone)]
pub struct Transition {
    pub id: String,
    pub pre: Vec<ArcSpec>,
    pub post: Vec<ArcSpec>,
}

/// A firing that could not happen: the transition, and each place with the token it lacked.
#[derive(Debug, Clone)]
pub struct NotEnabled {
    pub transition: String,
    pub missing: Vec<(String, Token)>,
}

pub open spec fn pairs_view(s: Seq<(String, Token)>) -> Seq<(Seq<char>, Token)> {
    s.map_values(|e: (String, Token)| (e.0@, e.1))
}

impl NotEnabled {
    /// The missing (place, token) pairs.
    pub open spec fn missing_view(&self) -> Seq<(Seq<char>, Token)> {
        pairs_view(self.missing@)
    }
}

/// Variable name to token, for one firing attempt.
#[derive(Debug, Clone)]
pub struct Binding {
    entries: Vec<(String, Token)>,
}

impl View for Binding {
    type V = Map<Seq<char>, Token>;

    closed spec fn view(&self) -> Map<Seq<char>, Token> {
        table(pairs_view(self.entries@))
    }
}

impl Binding {
    pub fn new() -> (r: Binding)
        ensures
            r@ == Map::<Seq<char>, Token>::empty(),
    {
        let r = Binding { entries: Vec::new() };
        proof {
            assert(pairs_view(r.entries@) =~= Seq::empty());
        }
        r
    }

    /// Binds `name` to `token`, replacing an earlier binding of `name`.
    pub fn insert(&mut self, name: String, token: Token)
        ensures
            final(self)@ == old(self)@.insert(name@, token),
    {
        let ghost s0 = self.entries@;
        self.entries.push((name, token));
        proof {
            assert(pairs_view(self.entries@).drop_last() =~= pairs_view(s0));
        }
    }

    /// The token bound to `name`, if any.
    pub fn get(&self, name: &str) -> (r: Option<Token>)
        ensures
            r is Some <==> self@.contains_key(name@),
            r is Some ==> r->0 == self@[name@],
    {
        let ghost s = pairs_view(self.entries@);
        let mut i: usize = self.entries.len();
        while i > 0
            invariant
                i <= self.entries@.len(),
                s == pairs_view(self.entries@),
                forall|j: int| i <= j < s.len() ==> (#[trigger] s[j]).0 != name@,
            decreases i,
        {
            if str_equal(self.entries[i - 1].0.as_str(), name) {
                proof {
                    lemma_table_prefix(s, i as int, name@);
                    lemma_table_last(s, i - 1);
                }
                return Some(self.entries[i - 1].1);
            }
            i = i - 1;
        }
        proof {
            lemma_table_prefix(s, 0, name@);
        }
        None
    }
}

/// What a pattern resolves to under a binding; an unbound variable resolves to nothing.
pub open spec fn resolve(p: ArcTokenPattern, b: Map<Seq<char>, Token>) -> Option<Token> {
    match p {
        ArcTokenPattern::Concrete(t) => Some(t),
        ArcTokenPattern::Variable(v) => if b.contains_key(v@) {
            Some(b[v@])
        } else {
            None
        },
    }
}

/// The token an arc moves once checking has passed: the resolved token, or the unit token.
pub open spec fn arc_token(a: ArcSpec, b: Map<Seq<char>, Token>) -> Token {
    match resolve(a.token, b) {
        Some(t) => t,
        None => Token::Unit,
    }
}

/// The (place, token) pairs that the pre-arcs lack in `m`, in arc order. An
/// unbound variable is reported with the unit token.
pub open spec fn missing_of(
    pre: Seq<ArcSpec>,
    b: Map<Seq<char>, Token>,
    m: Map<Seq<char>, Map<Token, nat>>,
) -> Seq<(Seq<char>, Token)>
    decreases pre.len(),
{
    if pre.len() == 0 {
        Seq::empty()
    } else {
        let rest = missing_of(pre.drop_last(), b, m);
        let a = pre.last();
        match resolve(a.token, b) {
            None => rest.push((a.place@, Token::Unit)),
            Some(t) => if place_count(m, a.place@, t) >= 1 {
                rest
            } else {
                rest.push((a.place@, t))
            },
        }
    }
}

/// Takes one copy of the arc's token from its place, where there is one.
pub open spec fn consume_one(
    m: Map<Seq<char>, Map<Token, nat>>,
    a: ArcSpec,
    b: Map<Seq<char>, Token>,
) -> Map<Seq<char>, Map<Token, nat>> {
    let t = arc_token(a, b);
    let c = tokens_at(m, a.place@);
    m.insert(a.place@, if bag_count(c, t) >= 1 { bag_sub(c, t, 1) } else { c })
}

/// Puts one copy of the arc's token into its place.
pub open spec fn produce_one(
    m: Map<Seq<char>, Map<Token, nat>>,
    a: ArcSpec,
    b: Map<Seq<char>, Token>,
) -> Map<Seq<char>, Map<Token, nat>> {
    m.insert(a.place@, bag_add(tokens_at(m, a.place@), arc_token(a, b), 1))
}

pub open spec fn consume_all(
    m: Map<Seq<char>, Map<Token, nat>>,
    arcs: Seq<ArcSpec>,
    b: Map<Seq<char>, Token>,
) -> Map<Seq<char>, Map<Token, nat>>
    decreases arcs.len(),
{
    if arcs.len() == 0 {
        m
    } else {
        consume_one(consume_all(m, arcs.drop_last(), b), arcs.last(), b)
    }
}

pub open spec fn produce_all(
    m: Map<Seq<char>, Map<Token, nat>>,
    arcs: Seq<ArcSpec>,
    b: Map<Seq<char>, Token>,
) -> Map<Seq<char>, Map<Token, nat>>
    decreases arcs.len(),
{
    if arcs.len() == 0 {
        m
    } else {
        produce_one(produce_all(m, arcs.drop_last(), b), arcs.last(), b)
    }
}

/// The marking after firing `t`: every pre-arc consumed in order, then every post-arc produced.
pub open spec fn fired(
    m: Map<Seq<char>, Map<Token, nat>>,
    t: Transition,
    b: Map<Seq<char>, Token>,
) -> Map<Seq<char>, Map<Token, nat>> {
    produce_all(consume_all(m, t.pre@, b), t.post@, b)
}

/// Every count in `m` leaves room for `extra` more copies.
pub open spec fn counts_fit(m: Map<Seq<char>, Map<Token, nat>>, extra: nat) -> bool {
    forall|p: Seq<char>, t: Token| #[trigger] place_count(m, p, t) + extra <= usize::MAX
}

proof fn lemma_consume_bound(m: Map<Seq<char>, Map<Token, nat>>, arcs: Seq<ArcSpec>, b: Map<Seq<char>, Token>, p: Seq<char>, t: Token)
    ensures
        place_count(consume_all(m, arcs, b), p, t) <= place_count(m, p, t),
    decreases arcs.len(),
{
    if arcs.len() > 0 {
        lemma_consume_bound(m, arcs.drop_last(), b, p, t);
    }
}

proof fn lemma_produce_bound(m: Map<Seq<char>, Map<Token, nat>>, arcs: Seq<ArcSpec>, b: Map<Seq<char>, Token>, p: Seq<char>, t: Token)
    ensures
        place_count(produce_all(m, arcs, b), p, t) <= place_count(m, p, t) + arcs.len(),
    decreases arcs.len(),
{
    if arcs.len() > 0 {
        lemma_produce_bound(m, arcs.drop_last(), b, p, t);
    }
}

pub open spec fn transitions_view(ts: Seq<Transition>) -> Seq<(Seq<char>, Transition)> {
    ts.map_values(|t: Transition| (t.id@, t))
}

/// The Colored Petri Net engine: the transition table and the current marking.
#[derive(Debug)]
pub struct CpnEngine {
    pub transitions: Vec<Transition>,
    pub marking: Marking,
}

impl CpnEngine {
    /// The transition table by id; a later registration of an id replaces an earlier one.
    pub open spec fn table(&self) -> Map<Seq<char>, Transition> {
        table(transitions_view(self.transitions@))
    }

    pub open spec fn wf(&self) -> bool {
        self.marking.wf()
    }

    pub fn new() -> (r: CpnEngine)
        ensures
            r.wf(),
            r.table() == Map::<Seq<char>, Transition>::empty(),
            r.marking@ == Map::<Seq<char>, Map<Token, nat>>::empty(),
    {
        let r = CpnEngine { transitions: Vec::new(), marking: Marking::new() };
        proof {
            assert(transitions_view(r.transitions@) =~= Seq::empty());
        }
        r
    }

    /// Registers `t` under its id, replacing any transition with the same id.
    pub fn add_transition(&mut self, t: Transition)
        ensures
            final(self).table() == old(self).table().insert(t.id@, t),
            final(self).marking == old(self).marking,
    {
        let ghost s0 = self.transitions@;
        self.transitions.push(t);
        proof {
            assert(transitions_view(self.transitions@).drop_last() =~= transitions_view(s0));
        }
    }

    /// Replaces the current marking.
    pub fn set_initial_marking(&mut self, marking: Marking)
        ensures
            final(self).marking == marking,
            final(self).transitions == old(self).transitions,
    {
        self.marking = marking;
    }

    fn find_transition(&self, id: &str) -> (r: Option<usize>)
        ensures
            r is Some <==> self.table().contains_key(id@),
            r is Some ==> r->0 < self.transitions@.len() && self.table()[id@]
                == self.transitions@[r->0 as int],
    {
        let ghost s = transitions_view(self.transitions@);
        let mut i: usize = self.transitions.len();
        while i > 0
            invariant
                i <= self.transitions@.len(),
                s == transitions_view(self.transitions@),
                forall|j: int| i <= j < s.len() ==> (#[trigger] s[j]).0 != id@,
            decreases i,
        {
            if str_equal(self.transitions[i - 1].id.as_str(), id) {
                proof {
                    lemma_table_prefix(s, i as int, id@);
                    lemma_table_last(s, i - 1);
                }
                return Some(i - 1);
            }
            i = i - 1;
        }
        proof {
            lemma_table_prefix(s, 0, id@);
        }
        None
    }

    fn resolve_token(pattern: &ArcTokenPattern, binding: &Binding) -> (r: Option<Token>)
        ensures
            r == resolve(*pattern, binding@),
    {
        match pattern {
            ArcTokenPattern::Concrete(t) => Some(*t),
            ArcTokenPattern::Variable(v) => binding.get(v.as_str()),
        }
    }

    /// Fires `transition_id` under `binding`, all or nothing. An unknown id
    /// fails with no missing pairs; pre-arcs whose token is absent (or whose
    /// variable is unbound) fail with every such pair. A failure changes nothing.
    pub fn fire(&mut self, transition_id: &str, binding: &Binding) -> (r: Result<(), NotEnabled>)
        requires
            old(self).wf(),
            old(self).table().contains_key(transition_id@) ==> counts_fit(
                old(self).marking@,
                old(self).table()[transition_id@].post@.len(),
            ),
        ensures
            final(self).wf(),
            final(self).transitions == old(self).transitions,
            r is Ok <==> old(self).table().contains_key(transition_id@) && missing_of(
                old(self).table()[transition_id@].pre@,
                binding@,
                old(self).marking@,
            ).len() == 0,
            r is Ok ==> final(self).marking@ == fired(
                old(self).marking@,
                old(self).table()[transition_id@],
                binding@,
            ),
            r is Err ==> *final(self) == *old(self),
            r is Err ==> r->Err_0.transition@ == transition_id@,
            r is Err && !old(self).table().contains_key(transition_id@) ==> r->Err_0.missing_view()
                == Seq::<(Seq<char>, Token)>::empty(),
            r is Err && old(self).table().contains_key(transition_id@) ==> r->Err_0.missing_view()
                == missing_of(old(self).table()[transition_id@].pre@, binding@, old(self).marking@),
    {
        let idx = match self.find_transition(transition_id) {
            Some(i) => i,
            None => {
                let e = NotEnabled { transition: transition_id.to_owned(), missing: Vec::new() };
                proof {
                    assert(e.missing_view() =~= Seq::<(Seq<char>, Token)>::empty());
                }
                return Err(e);
            },
        };
        let ghost m0 = self.marking@;
        let ghost b = binding@;
        let ghost tr = self.transitions@[idx as int];
        let n_pre = self.transitions[idx].pre.len();
        let mut missing: Vec<(String, Token)> = Vec::new();
        let mut k: usize = 0;
        proof {
            assert(tr.pre@.subrange(0, 0) =~= Seq::<ArcSpec>::empty());
            assert(pairs_view(missing@) =~= Seq::<(Seq<char>, Token)>::empty());
        }
        while k < n_pre
            invariant
                idx < self.transitions@.len(),
                tr == self.transitions@[idx as int],
                n_pre == tr.pre@.len(),
                self.wf(),
                self.marking@ == m0,
                b == binding@,
                k <= n_pre,
                pairs_view(missing@) == missing_of(tr.pre@.subrange(0, k as int), b, m0),
            decreases n_pre - k,
        {
            let arc = &self.transitions[idx].pre[k];
            let ghost before = missing@;
            match Self::resolve_token(&arc.token, binding) {
                None => missing.push((arc.place.clone(), Token::Unit)),
                Some(tok) => {
                    let present = match self.marking.get(arc.place.as_str()) {
                        Some(bag) => bag.contains(&tok, 1),
                        None => false,
                    };
                    if !present {
                        missing.push((arc.place.clone(), tok));
                    }
                },
            }
            proof {
                let pre = tr.pre@.subrange(0, k + 1);
                assert(pre.drop_last() =~= tr.pre@.subrange(0, k as int));
                assert(pre.last() == tr.pre@[k as int]);
                if missing@.len() > before.len() {
                    assert(pairs_view(missing@) =~= pairs_view(before).push(
                        (missing@.last().0@, missing@.last().1),
                    ));
                } else {
                    assert(missing@ == before);
                }
            }
            k = k + 1;
        }
        proof {
            assert(tr.pre@.subrange(0, n_pre as int) =~= tr.pre@);
        }
        if missing.len() > 0 {
            return Err(NotEnabled { transition: transition_id.to_owned(), missing });
        }
        let mut k: usize = 0;
        proof {
            assert(tr.pre@.subrange(0, 0) =~= Seq::<ArcSpec>::empty());
        }
        while k < n_pre
            invariant
                idx < self.transitions@.len(),
                tr == self.transitions@[idx as int],
                self.transitions == old(self).transitions,
                n_pre == tr.pre@.len(),
                self.wf(),
                b == binding@,
                k <= n_pre,
                self.marking@ == consume_all(m0, tr.pre@.subrange(0, k as int), b),
            decreases n_pre - k,
        {
            let arc = &self.transitions[idx].pre[k];
            let tok = match Self::resolve_token(&arc.token, binding) {
                Some(x) => x,
                None => Token::Unit,
            };
            self.marking.remove_token(arc.place.as_str(), &tok, 1);
            proof {
                let pre = tr.pre@.subrange(0, k + 1);
                assert(pre.drop_last() =~= tr.pre@.subrange(0, k as int));
            }
            k = k + 1;
        }
        proof {
            assert(tr.pre@.subrange(0, n_pre as int) =~= tr.pre@);
        }
        let ghost m1 = self.marking@;
        let n_post = self.transitions[idx].post.len();
        let mut k: usize = 0;
        proof {
            assert(tr.post@.subrange(0, 0) =~= Seq::<ArcSpec>::empty());
        }
        while k < n_post
            invariant
                idx < self.transitions@.len(),
                tr == self.transitions@[idx as int],
                self.transitions == old(self).transitions,
                n_post == tr.post@.len(),
                self.wf(),
                b == binding@,
                k <= n_post,
                m1 == consume_all(m0, tr.pre@, b),
                counts_fit(m0, n_post as nat),
                self.marking@ == produce_all(m1, tr.post@.subrange(0, k as int), b),
            decreases n_post - k,
        {
            let arc = &self.transitions[idx].post[k];
            let tok = match Self::resolve_token(&arc.token, binding) {
                Some(x) => x,
                None => Token::Unit,
            };
            proof {
                lemma_produce_bound(m1, tr.post@.subrange(0, k as int), b, arc.place@, tok);
                lemma_consume_bound(m0, tr.pre@, b, arc.place@, tok);
                assert(place_count(m0, arc.place@, tok) + n_post <= usize::MAX);
            }
            self.marking.add_token(arc.place.as_str(), tok, 1);
            proof {
                let post = tr.post@.subrange(0, k + 1);
                assert(post.drop_last() =~= tr.post@.subrange(0, k as int));
            }
            k = k + 1;
        }
        proof {
            assert(tr.post@.subrange(0, n_post as int) =~= tr.post@);
        }
        Ok(())
    }

    /// The largest number of post-arcs of any registered transition.
    pub fn max_post_len(&self) -> (r: usize)
        ensures
            forall|id: Seq<char>| #[trigger]
                self.table().contains_key(id) ==> self.table()[id].post@.len() <= r,
            r == 0 || exists|id: Seq<char>| #[trigger]
                self.table().contains_key(id) && self.table()[id].post@.len() == r,
    {
        let ghost s = transitions_view(self.transitions@);
        let n = self.transitions.len();
        let mut best: usize = 0;
        let ghost mut wid: Seq<char> = Seq::empty();
        let mut i: usize = 0;
        while i < n
            invariant
                n == self.transitions@.len(),
                s == transitions_view(self.transitions@),
                i <= n,
                best == 0 || (self.table().contains_key(wid) && self.table()[wid].post@.len() == best),
                forall|k: int|
                    0 <= k < i && (forall|j: int| k < j < n ==> (#[trigger] s[j]).0 != s[k].0)
                        ==> (#[trigger] self.transitions@[k]).post@.len() <= best,
            decreases n - i,
        {
            let mut later = false;
            let mut j: usize = i + 1;
            while j < n
                invariant
                    n == self.transitions@.len(),
                    s == transitions_view(self.transitions@),
                    i < j <= n,
                    later <==> exists|q: int| i < q < j && (#[trigger] s[q]).0 == s[i as int].0,
                decreases n - j,
            {
                let same = str_equal(self.transitions[j].id.as_str(), self.transitions[i].id.as_str());
                proof {
                    assert(s[j as int].0 == self.transitions@[j as int].id@);
                    assert(s[i as int].0 == self.transitions@[i as int].id@);
                    if !same && !later {
                        assert forall|q: int| i < q < j + 1 implies (#[trigger] s[q]).0 != s[i as int].0 by {
                            if q < j {
                                assert(!(i < q < j && s[q].0 == s[i as int].0));
                            }
                        }
                    }
                }
                if same {
                    later = true;
                }
                j = j + 1;
            }
            if !later && self.transitions[i].post.len() > best {
                best = self.transitions[i].post.len();
                proof {
                    let key = s[i as int].0;
                    lemma_table_prefix(s, i + 1, key);
                    lemma_table_last(s, i as int);
                    wid = key;
                }
            }
            i = i + 1;
        }
        proof {
            assert forall|id: Seq<char>| #[trigger] self.table().contains_key(id) implies self.table()[id].post@.len() <= best by {
                lemma_table_value(s, id);
                let k = choose|k: int|
                    0 <= k < s.len() && s[k].0 == id && s[k].1 == table(s)[id] && forall|j: int|
                        k < j < s.len() ==> (#[trigger] s[j]).0 != id;
                assert(s[k].1 == self.transitions@[k]);
            }
        }
        best
    }

    pub fn marking(&self) -> (r: &Marking)
        ensures
            r == &self.marking,
    {
        &self.marking
    }

    pub fn marking_mut(&mut self) -> (r: &mut Marking)
        ensures
            *r == old(self).marking,
            final(self).marking == *final(r),
            final(self).transitions == old(self).transitions,
    {
        &mut self.marking
    }

    /// Hash of the current marking.
    pub fn marking_hash(&self) -> (r: u64)
        requires
            self.wf(),
        ensures
            r == marking_digest(self.marking@),
    {
        self.marking.hash()
    }
}

impl Default for CpnEngine {
    fn default() -> (r: CpnEngine)
        ensures
            r.wf(),
            r.table() == Map::<Seq<char>, Transition>::empty(),
            r.marking@ == Map::<Seq<char>, Map<Token, nat>>::empty(),
    {
        CpnEngine::new()
    }
}

impl Default for Binding {
    fn default() -> (r: Binding)
        ensures
            r@ == Map::<Seq<char>, Token>::empty(),
    {
        Binding::new()
    }
}

} // verus!
