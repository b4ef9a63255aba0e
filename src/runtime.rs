//! The monitor runtime: maps events to transitions, fires them, and keeps coverage.

use vstd::prelude::*;
use std::collections::HashSet;
use crate::order::str_equal;
use crate::table::{table, lemma_table_prefix, lemma_table_last};
use crate::token::Token;
use crate::multiset::bag_add;
use crate::marking::{Marking, tokens_at, place_count, marking_digest};
use crate::cpn::{
    ArcSpec, Binding, CpnEngine, Transition, counts_fit, fired, missing_of,
    transitions_view, resolve, consume_all, consume_one, produce_one, produce_all,
};
use crate::config::PetriConfig;
use crate::event::{PetriEvent, event_tid, event_object_id, event_type};
use crate::diagnostic::{PetriViolation, violation_text};
use crate::diagnostic::SpanLike;
use crate::netdef::{NetDef, TransitionDef, ArcDef, pattern_of, convert_arcs, build_initial_marking, initial_of, total_tokens};

verus! {

broadcast use vstd::std_specs::hash::group_hash_axioms;

pub open spec fn mapping_view(s: Seq<(String, String)>) -> Seq<(Seq<char>, Seq<char>)> {
    s.map_values(|e: (String, String)| (e.0@, e.1@))
}

/// The transition an event maps to: the explicit mapping first, then the
/// built-in defaults for lock acquire and release.
pub open spec fn transition_for(mapping: Map<Seq<char>, Seq<char>>, e: PetriEvent) -> Option<Seq<char>> {
    if mapping.contains_key(event_type(e)) {
        Some(mapping[event_type(e)])
    } else if event_type(e) == "LockAcquire"@ {
        Some("acquire"@)
    } else if event_type(e) == "LockRelease"@ {
        Some("release"@)
    } else {
        None
    }
}

/// The binding an event yields: `tid` always, `L` for lock events, `loc` for atomic ones.
pub open spec fn binding_for(e: PetriEvent) -> Map<Seq<char>, Token> {
    let b = Map::<Seq<char>, Token>::empty().insert("tid"@, Token::Tid(event_tid(e)));
    match e {
        PetriEvent::LockAcquire { lock_id, .. } => b.insert("L"@, Token::Lock(lock_id)),
        PetriEvent::LockRelease { lock_id, .. } => b.insert("L"@, Token::Lock(lock_id)),
        PetriEvent::AtomicLoad { loc_id, .. } => b.insert("loc"@, Token::Loc(loc_id)),
        PetriEvent::AtomicStore { loc_id, .. } => b.insert("loc"@, Token::Loc(loc_id)),
        _ => b,
    }
}

/// The marking before firing `t`: for `acquire` of a lock that `free` lacks,
/// one copy of that lock is put into `free` first.
pub open spec fn seeded(
    m: Map<Seq<char>, Map<Token, nat>>,
    t: Seq<char>,
    b: Map<Seq<char>, Token>,
) -> Map<Seq<char>, Map<Token, nat>> {
    if t == "acquire"@ && b.contains_key("L"@) && b["L"@] is Lock && place_count(m, "free"@, b["L"@])
        < 1 {
        m.insert("free"@, bag_add(tokens_at(m, "free"@), b["L"@], 1))
    } else {
        m
    }
}

pub open spec fn tdefs_view(s: Seq<(String, TransitionDef)>) -> Seq<(Seq<char>, TransitionDef)> {
    s.map_values(|e: (String, TransitionDef)| (e.0@, e.1))
}

/// `r` holds, in order, the arcs that the definitions `d` denote.
pub open spec fn arcs_match(r: Seq<ArcSpec>, d: Seq<ArcDef>) -> bool {
    &&& r.len() == d.len()
    &&& forall|i: int| 0 <= i < r.len() ==> (#[trigger] r[i]).place@ == d[i].place@ && r[i].token
        == pattern_of(d[i].token)
}

/// The transition table `tt` is the one that the definitions `ds` describe.
pub open spec fn table_matches(tt: Map<Seq<char>, Transition>, ds: Seq<(String, TransitionDef)>) -> bool {
    let dt = table(tdefs_view(ds));
    &&& forall|id: Seq<char>| #[trigger] tt.contains_key(id) <==> dt.contains_key(id)
    &&& forall|id: Seq<char>| #[trigger]
        tt.contains_key(id) ==> tt[id].id@ == id && arcs_match(tt[id].pre@, dt[id].pre@)
            && arcs_match(tt[id].post@, dt[id].post@)
}

/// Runtime state of the monitor.
pub struct PetriRuntime {
    engine: CpnEngine,
    config: PetriConfig,
    event_mapping: Vec<(String, String)>,
    initial_marking: Marking,
    seen_markings: HashSet<u64>,
}

impl PetriRuntime {
    pub closed spec fn wf(&self) -> bool {
        self.engine.wf() && self.initial_marking.wf() && self.seen_markings@.finite()
    }

    /// The current marking.
    pub closed spec fn marking_view(&self) -> Map<Seq<char>, Map<Token, nat>> {
        self.engine.marking@
    }

    /// The marking restored by `reset`.
    pub closed spec fn initial_view(&self) -> Map<Seq<char>, Map<Token, nat>> {
        self.initial_marking@
    }

    /// The transition table.
    pub closed spec fn table_view(&self) -> Map<Seq<char>, Transition> {
        self.engine.table()
    }

    /// The explicit event-type to transition-id mapping.
    pub closed spec fn mapping(&self) -> Map<Seq<char>, Seq<char>> {
        table(mapping_view(self.event_mapping@))
    }

    /// The marking hashes recorded so far.
    pub closed spec fn seen(&self) -> Set<u64> {
        self.seen_markings@
    }

    pub closed spec fn config_view(&self) -> PetriConfig {
        self.config
    }

    /// Every count leaves room for what any transition produces.
    pub open spec fn has_room(&self) -> bool {
        forall|id: Seq<char>| #[trigger]
            self.table_view().contains_key(id) ==> counts_fit(
                self.marking_view(),
                self.table_view()[id].post@.len() + 1,
            )
    }

    /// Whether every count leaves room for what any transition produces, so
    /// that `on_event` may be called.
    pub fn room_for_event(&self) -> (r: bool)
        requires
            self.wf(),
        ensures
            r == self.has_room(),
    {
        if self.engine.transitions.len() == 0 {
            proof {
                assert(transitions_view(self.engine.transitions@) =~= Seq::empty());
            }
            return true;
        }
        let most = self.engine.marking().max_count();
        let post = self.engine.max_post_len();
        if post <= usize::MAX - 1 && most <= usize::MAX - 1 - post {
            proof {
                assert forall|id: Seq<char>| #[trigger] self.table_view().contains_key(id) implies counts_fit(
                    self.marking_view(),
                    self.table_view()[id].post@.len() + 1,
                ) by {
                    assert(self.engine.table().contains_key(id));
                }
            }
            true
        } else {
            proof {
                let s = transitions_view(self.engine.transitions@);
                let last = s.last().0;
                assert(self.engine.table().contains_key(last));
                let id = if post > 0 {
                    choose|id: Seq<char>| #[trigger]
                        self.engine.table().contains_key(id) && self.engine.table()[id].post@.len() == post
                } else {
                    last
                };
                let (p, t) = if most > 0 {
                    choose|p: Seq<char>, t: Token| #[trigger] place_count(self.engine.marking@, p, t) == most
                } else {
                    (Seq::<char>::empty(), Token::Unit)
                };
                assert(self.table_view().contains_key(id));
                assert(place_count(self.marking_view(), p, t) + self.table_view()[id].post@.len() + 1 > usize::MAX);
                assert(!counts_fit(self.marking_view(), self.table_view()[id].post@.len() + 1));
            }
            false
        }
    }

    fn get_transition_for_event(&self, e: &PetriEvent) -> (r: Option<String>)
        ensures
            r is Some <==> transition_for(self.mapping(), *e) is Some,
            r is Some ==> r->0@ == transition_for(self.mapping(), *e)->0,
    {
        let kind_name = e.event_type_name();
        let ghost s = mapping_view(self.event_mapping@);
        let mut i: usize = self.event_mapping.len();
        while i > 0
            invariant
                i <= self.event_mapping@.len(),
                s == mapping_view(self.event_mapping@),
                kind_name@ == event_type(*e),
                forall|j: int| i <= j < s.len() ==> (#[trigger] s[j]).0 != kind_name@,
            decreases i,
        {
            if str_equal(self.event_mapping[i - 1].0.as_str(), kind_name) {
                proof {
                    lemma_table_prefix(s, i as int, kind_name@);
                    lemma_table_last(s, i - 1);
                }
                return Some(self.event_mapping[i - 1].1.clone());
            }
            i = i - 1;
        }
        proof {
            lemma_table_prefix(s, 0, kind_name@);
        }
        if str_equal(kind_name, "LockAcquire") {
            Some("acquire".to_owned())
        } else if str_equal(kind_name, "LockRelease") {
            Some("release".to_owned())
        } else {
            None
        }
    }

    fn make_binding(e: &PetriEvent) -> (r: Binding)
        ensures
            r@ == binding_for(*e),
    {
        let mut binding = Binding::new();
        binding.insert("tid".to_owned(), Token::Tid(e.tid()));
        match e {
            PetriEvent::LockAcquire { lock_id, .. } => {
                binding.insert("L".to_owned(), Token::Lock(*lock_id));
            },
            PetriEvent::LockRelease { lock_id, .. } => {
                binding.insert("L".to_owned(), Token::Lock(*lock_id));
            },
            PetriEvent::AtomicLoad { loc_id, .. } => {
                binding.insert("loc".to_owned(), Token::Loc(*loc_id));
            },
            PetriEvent::AtomicStore { loc_id, .. } => {
                binding.insert("loc".to_owned(), Token::Loc(*loc_id));
            },
            _ => {},
        }
        binding
    }

    /// Processes one event. An event with no transition is accepted and
    /// changes nothing. Otherwise the transition is fired under the event's
    /// binding, after seeding `free` for `acquire`; a firing that is not
    /// enabled yields a violation and leaves the (seeded) marking as it was.
    pub fn on_event(&mut self, e: PetriEvent, span: Option<SpanLike>) -> (r: Result<
        (),
        PetriViolation,
    >)
        requires
            old(self).wf(),
            old(self).has_room(),
        ensures
            final(self).wf(),
            final(self).table_view() == old(self).table_view(),
            final(self).mapping() == old(self).mapping(),
            final(self).initial_view() == old(self).initial_view(),
            final(self).seen() == old(self).seen(),
            final(self).config_view() == old(self).config_view(),
            transition_for(old(self).mapping(), e) is None ==> r is Ok && final(self).marking_view()
                == old(self).marking_view(),
            transition_for(old(self).mapping(), e) matches Some(t) ==> {
                let b = binding_for(e);
                let m1 = seeded(old(self).marking_view(), t, b);
                let known = old(self).table_view().contains_key(t);
                &&& r is Ok <==> known && missing_of(old(self).table_view()[t].pre@, b, m1).len()
                    == 0
                &&& r is Ok ==> final(self).marking_view() == fired(m1, old(self).table_view()[t], b)
                &&& r is Err ==> final(self).marking_view() == m1
                &&& r is Err ==> {
                    let v = r->Err_0;
                    &&& v.event == e
                    &&& v.tid == event_tid(e)
                    &&& v.object_id == event_object_id(e)
                    &&& v.span == span
                    &&& v.current_marking.wf()
                    &&& v.current_marking@ == m1
                    &&& v.missing_view() == if known {
                        missing_of(old(self).table_view()[t].pre@, b, m1)
                    } else {
                        Seq::empty()
                    }
                }
            },
    {
        let transition_id = match self.get_transition_for_event(&e) {
            Some(t) => t,
            None => return Ok(()),
        };
        let binding = Self::make_binding(&e);
        let ghost m0 = self.engine.marking@;
        if str_equal(transition_id.as_str(), "acquire") {
            if let Some(Token::Lock(lock_id)) = binding.get("L") {
                let marking = self.engine.marking_mut();
                let present = match marking.get("free") {
                    Some(bag) => bag.contains(&Token::Lock(lock_id), 1),
                    None => false,
                };
                if !present {
                    marking.add_token("free", Token::Lock(lock_id), 1);
                }
            }
        }
        proof {
            let t = transition_id@;
            let b = binding@;
            let m1 = seeded(m0, t, b);
            assert(self.engine.marking@ == m1);
            if self.engine.table().contains_key(t) {
                assert(old(self).table_view().contains_key(t));
                assert(counts_fit(m0, self.engine.table()[t].post@.len() + 1));
                assert forall|p: Seq<char>, tok: Token| #[trigger] place_count(m1, p, tok) + self.engine.table()[t].post@.len() <= usize::MAX by {
                    assert(place_count(m0, p, tok) + self.engine.table()[t].post@.len() + 1 <= usize::MAX);
                }
            }
        }
        let result = self.engine.fire(transition_id.as_str(), &binding);
        match result {
            Ok(()) => Ok(()),
            Err(not_enabled) => {
                let tid = e.tid();
                let object_id = e.object_id();
                let current_marking = self.engine.marking().snapshot();
                Err(
                    PetriViolation {
                        event: e,
                        tid,
                        object_id,
                        span,
                        missing_tokens: not_enabled.missing,
                        current_marking,
                    },
                )
            },
        }
    }

    /// Builds a runtime from a net definition: the transitions, the event
    /// mapping and the initial marking, with no coverage recorded.
    pub fn load(config: PetriConfig, def: NetDef) -> (r: PetriRuntime)
        requires
            total_tokens(def.initial_marking@) <= usize::MAX,
        ensures
            r.wf(),
            r.config_view() == config,
            table_matches(r.table_view(), def.transitions@),
            r.mapping() == table(mapping_view(def.event_mapping@)),
            r.marking_view() == initial_of(def.initial_marking@),
            r.initial_view() == initial_of(def.initial_marking@),
            r.seen() == Set::<u64>::empty(),
    {
        let mut engine = CpnEngine::new();
        let mut i: usize = 0;
        proof {
            assert(tdefs_view(def.transitions@.subrange(0, 0)) =~= Seq::empty());
        }
        while i < def.transitions.len()
            invariant
                i <= def.transitions@.len(),
                engine.wf(),
                engine.marking@ == Map::<Seq<char>, Map<Token, nat>>::empty(),
                table_matches(engine.table(), def.transitions@.subrange(0, i as int)),
            decreases def.transitions@.len() - i,
        {
            let ghost t0 = engine.table();
            let ghost before = def.transitions@.subrange(0, i as int);
            let id = def.transitions[i].0.clone();
            let pre = convert_arcs(&def.transitions[i].1.pre);
            let post = convert_arcs(&def.transitions[i].1.post);
            let t = Transition { id, pre, post };
            engine.add_transition(t);
            proof {
                let ds = def.transitions@.subrange(0, i + 1);
                assert(tdefs_view(ds).drop_last() =~= tdefs_view(before));
                let dt = table(tdefs_view(ds));
                let tt = engine.table();
                assert forall|k: Seq<char>| #[trigger] tt.contains_key(k) <==> dt.contains_key(k) by {
                }
                assert forall|k: Seq<char>| #[trigger] tt.contains_key(k) implies tt[k].id@ == k
                    && arcs_match(tt[k].pre@, dt[k].pre@) && arcs_match(tt[k].post@, dt[k].post@) by {
                    if k != t.id@ {
                        assert(t0.contains_key(k));
                    }
                }
            }
            i = i + 1;
        }
        proof {
            assert(def.transitions@.subrange(0, i as int) =~= def.transitions@);
        }
        let marking = build_initial_marking(&def.initial_marking);
        let initial_marking = marking.snapshot();
        engine.set_initial_marking(marking);
        PetriRuntime {
            engine,
            config,
            event_mapping: def.event_mapping,
            initial_marking,
            seen_markings: HashSet::new(),
        }
    }

    /// Records the hash of the current marking as covered; reports the hash
    /// and whether it had not been recorded before.
    pub fn record_execution_end(&mut self) -> (r: (u64, bool))
        requires
            old(self).wf(),
        ensures
            final(self).wf(),
            r.0 == marking_digest(old(self).marking_view()),
            r.1 == !old(self).seen().contains(r.0),
            final(self).seen() == old(self).seen().insert(r.0),
            final(self).seen().finite(),
            final(self).seen().len() == old(self).seen().len() + if r.1 {
                1nat
            } else {
                0nat
            },
            final(self).marking_view() == old(self).marking_view(),
            final(self).initial_view() == old(self).initial_view(),
            final(self).table_view() == old(self).table_view(),
            final(self).mapping() == old(self).mapping(),
            final(self).config_view() == old(self).config_view(),
    {
        let hash = self.engine.marking_hash();
        let is_new = self.seen_markings.insert(hash);
        (hash, is_new)
    }

    /// Restores the initial marking. Coverage is kept.
    pub fn reset(&mut self)
        requires
            old(self).wf(),
        ensures
            final(self).wf(),
            final(self).marking_view() == old(self).initial_view(),
            final(self).seen() == old(self).seen(),
            final(self).initial_view() == old(self).initial_view(),
            final(self).table_view() == old(self).table_view(),
            final(self).mapping() == old(self).mapping(),
            final(self).config_view() == old(self).config_view(),
    {
        let m = self.initial_marking.snapshot();
        self.engine.set_initial_marking(m);
    }

    /// Forgets all recorded marking hashes.
    pub fn clear_coverage(&mut self)
        requires
            old(self).wf(),
        ensures
            final(self).wf(),
            final(self).seen() == Set::<u64>::empty(),
            final(self).marking_view() == old(self).marking_view(),
            final(self).initial_view() == old(self).initial_view(),
            final(self).table_view() == old(self).table_view(),
            final(self).mapping() == old(self).mapping(),
            final(self).config_view() == old(self).config_view(),
    {
        self.seen_markings.clear();
    }

    /// Hash of the current marking.
    pub fn marking_hash(&self) -> (r: u64)
        requires
            self.wf(),
        ensures
            r == marking_digest(self.marking_view()),
    {
        self.engine.marking_hash()
    }

    /// The current marking.
    pub fn marking(&self) -> (r: &Marking)
        requires
            self.wf(),
        ensures
            r.wf(),
            r@ == self.marking_view(),
    {
        self.engine.marking()
    }

    /// How many distinct marking hashes have been recorded.
    pub fn seen_markings_count(&self) -> (r: usize)
        ensures
            r == self.seen().len(),
    {
        self.seen_markings.len()
    }

    /// Renders a violation as a report.
    pub fn format_violation(v: &PetriViolation) -> (r: String)
        requires
            v.current_marking.wf(),
        ensures
            r@ == violation_text(*v),
    {
        crate::diagnostic::format_violation(v)
    }

    pub fn fail_fast(&self) -> (r: bool)
        ensures
            r == self.config_view().fail_fast,
    {
        self.config.fail_fast
    }

    pub fn config(&self) -> (r: &PetriConfig)
        ensures
            *r == self.config_view(),
    {
        &self.config
    }
}

/// Recording the same final marking a second time reports it as already seen.
pub proof fn lemma_repeat_end_not_new(seen: Set<u64>, m1: Map<Seq<char>, Map<Token, nat>>, m2: Map<Seq<char>, Map<Token, nat>>)
    requires
        m1 == m2,
    ensures
        seen.insert(marking_digest(m1)).contains(marking_digest(m2)),
{
}

/// After recording one final marking, a marking whose hash differs from it
/// and from every earlier record is reported as new.
pub proof fn lemma_differing_end_new(seen: Set<u64>, m1: Map<Seq<char>, Map<Token, nat>>, m2: Map<Seq<char>, Map<Token, nat>>)
    requires
        marking_digest(m1) != marking_digest(m2),
        !seen.contains(marking_digest(m2)),
    ensures
        !seen.insert(marking_digest(m1)).contains(marking_digest(m2)),
{
}

/// An arc on `place` whose pattern is the variable `var`.
pub open spec fn is_var_arc(a: ArcSpec, place: Seq<char>, var: Seq<char>) -> bool {
    a.place@ == place && a.token is Variable && a.token->Variable_0@ == var
}

/// Lazy seeding: where `acquire` takes `L` from `free` and puts it into
/// `held`, and no explicit mapping covers lock acquisition, acquiring a lock
/// that `free` lacks is enabled; afterwards `held` holds one more copy of the
/// lock, `free` holds none, and every other count is as before.
pub proof fn lemma_lazy_seeding(
    mapping: Map<Seq<char>, Seq<char>>,
    tt: Map<Seq<char>, Transition>,
    m: Map<Seq<char>, Map<Token, nat>>,
    tid: u32,
    lock: u64,
)
    requires
        !mapping.contains_key("LockAcquire"@),
        tt.contains_key("acquire"@),
        tt["acquire"@].pre@.len() == 1,
        is_var_arc(tt["acquire"@].pre@[0], "free"@, "L"@),
        tt["acquire"@].post@.len() == 1,
        is_var_arc(tt["acquire"@].post@[0], "held"@, "L"@),
        place_count(m, "free"@, Token::Lock(lock)) == 0,
    ensures
        ({
            let e = PetriEvent::LockAcquire { tid, lock_id: lock };
            let b = binding_for(e);
            let m1 = seeded(m, "acquire"@, b);
            let m2 = fired(m1, tt["acquire"@], b);
            &&& transition_for(mapping, e) == Some("acquire"@)
            &&& missing_of(tt["acquire"@].pre@, b, m1).len() == 0
            &&& place_count(m2, "held"@, Token::Lock(lock)) == place_count(m, "held"@, Token::Lock(lock)) + 1
            &&& place_count(m2, "free"@, Token::Lock(lock)) == 0
            &&& forall|p: Seq<char>, t: Token|
                !(p == "held"@ && t == Token::Lock(lock)) && !(p == "free"@ && t == Token::Lock(lock))
                    ==> #[trigger] place_count(m2, p, t) == place_count(m, p, t)
        }),
{
    reveal_strlit("free");
    reveal_strlit("held");
    let e = PetriEvent::LockAcquire { tid, lock_id: lock };
    let b = binding_for(e);
    let lk = Token::Lock(lock);
    assert(b.contains_key("L"@) && b["L"@] == lk);
    let m1 = seeded(m, "acquire"@, b);
    assert(m1 == m.insert("free"@, bag_add(tokens_at(m, "free"@), lk, 1)));
    let t = tt["acquire"@];
    let pre = t.pre@;
    let post = t.post@;
    assert(pre.drop_last() =~= Seq::<ArcSpec>::empty());
    assert(post.drop_last() =~= Seq::<ArcSpec>::empty());
    assert(resolve(pre[0].token, b) == Some(lk));
    assert(resolve(post[0].token, b) == Some(lk));
    assert(place_count(m1, "free"@, lk) == 1);
    assert(pre.last() == pre[0]);
    assert(post.last() == post[0]);
    assert(missing_of(pre.drop_last(), b, m1) == missing_of(Seq::<ArcSpec>::empty(), b, m1));
    assert(missing_of(pre, b, m1) =~= Seq::empty());
    assert(consume_all(m1, pre.drop_last(), b) == consume_all(m1, Seq::<ArcSpec>::empty(), b));
    let c = consume_all(m1, pre, b);
    assert(produce_all(c, post.drop_last(), b) == produce_all(c, Seq::<ArcSpec>::empty(), b));
    assert(c == consume_one(m1, pre[0], b));
    let m2 = fired(m1, t, b);
    assert(m2 == produce_one(c, post[0], b));
    assert("free"@[0] == 'f');
    assert("held"@[0] == 'h');
    assert("free"@ != "held"@);
    assert forall|p: Seq<char>, q: Token|
        !(p == "held"@ && q == lk) && !(p == "free"@ && q == lk) implies #[trigger] place_count(m2, p, q)
            == place_count(m, p, q) by {
        if p == "free"@ {
            assert(place_count(m1, p, q) == place_count(m, p, q));
        }
    }
}

} // verus!
