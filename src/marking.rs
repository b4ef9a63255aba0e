//! The marking: the bag of tokens held by each place.

use vstd::prelude::*;
use vstd::std_specs::hash::DefaultHasherAdditionalSpecFns;
use vstd::utf8::encode_utf8;
use std::collections::hash_map::DefaultHasher;
use std::hash::Hasher;
use crate::order::{
    str_lt, str_less, lemma_str_lt_total, lemma_str_lt_facts, lemma_str_order,
    lemma_sorted_unique,
};
use crate::token::Token;
use crate::text::token_text;
use crate::multiset::{
    TokenMultiset, bag_count, bag_add, bag_sub, bag_wf, is_bag_listing, lemma_bag_listing_unique,
};

verus! {

/// The tokens at place `p`; a place that is not stored holds none.
pub open spec fn tokens_at(m: Map<Seq<char>, Map<Token, nat>>, p: Seq<char>) -> Map<Token, nat> {
    if m.contains_key(p) {
        m[p]
    } else {
        Map::empty()
    }
}

/// How many copies of `t` the place `p` holds.
pub open spec fn place_count(m: Map<Seq<char>, Map<Token, nat>>, p: Seq<char>, t: Token) -> nat {
    bag_count(tokens_at(m, p), t)
}

pub open spec fn place_lt(x: (String, TokenMultiset), y: (String, TokenMultiset)) -> bool {
    str_lt(x.0@, y.0@)
}

pub open spec fn places_sorted(s: Seq<(String, TokenMultiset)>) -> bool {
    forall|i: int, j: int| 0 <= i < j < s.len() ==> #[trigger] place_lt(s[i], s[j])
}

/// `s` lists the marking `m`: sorted by place name, one entry per stored place.
pub open spec fn is_place_listing(
    s: Seq<(String, TokenMultiset)>,
    m: Map<Seq<char>, Map<Token, nat>>,
) -> bool {
    &&& places_sorted(s)
    &&& forall|i: int|
        0 <= i < s.len() ==> {
            &&& #[trigger] s[i].1.wf()
            &&& m.contains_key(s[i].0@)
            &&& m[s[i].0@] == s[i].1@
        }
    &&& forall|p: Seq<char>| #[trigger]
        m.contains_key(p) ==> exists|i: int| 0 <= i < s.len() && s[i].0@ == p
}

pub open spec fn names_sorted(ns: Seq<Seq<char>>) -> bool {
    forall|i: int, j: int| 0 <= i < j < ns.len() ==> #[trigger] str_lt(ns[i], ns[j])
}

/// The stored place names in lexicographic order.
pub open spec fn names_listing(m: Map<Seq<char>, Map<Token, nat>>) -> Seq<Seq<char>> {
    choose|ns: Seq<Seq<char>>|
        names_sorted(ns) && forall|p: Seq<char>| ns.contains(p) <==> m.contains_key(p)
}

/// The entries of a bag in canonical token order.
pub open spec fn bag_listing_of(b: Map<Token, nat>) -> Seq<(Token, usize)> {
    choose|e: Seq<(Token, usize)>| is_bag_listing(e, b)
}

pub open spec fn byte_of(v: u64, k: int) -> u8 {
    ((v >> ((8 * k) as u64)) & 0xff) as u8
}

/// Little-endian bytes of `v`.
pub open spec fn u64_bytes(v: u64) -> Seq<u8> {
    Seq::new(8, |k: int| byte_of(v, k))
}

/// The hasher writes for a string: its UTF-8 bytes, then a 0xff separator.
pub open spec fn str_writes(s: Seq<char>) -> Seq<Seq<u8>> {
    seq![encode_utf8(s), seq![0xffu8]]
}

/// The hasher writes for a place's entries: each token's text, then its count.
pub open spec fn bag_writes(e: Seq<(Token, usize)>) -> Seq<Seq<u8>>
    decreases e.len(),
{
    if e.len() == 0 {
        Seq::empty()
    } else {
        bag_writes(e.drop_last()) + str_writes(token_text(e.last().0)) + seq![
            u64_bytes(e.last().1 as u64),
        ]
    }
}

/// The hasher writes for the places `ns` of `m`: each name, then its entries.
pub open spec fn place_writes(ns: Seq<Seq<char>>, m: Map<Seq<char>, Map<Token, nat>>) -> Seq<Seq<u8>>
    decreases ns.len(),
{
    if ns.len() == 0 {
        Seq::empty()
    } else {
        place_writes(ns.drop_last(), m) + str_writes(ns.last()) + bag_writes(
            bag_listing_of(tokens_at(m, ns.last())),
        )
    }
}

/// The places of `m` that hold at least one token. A place stored empty is
/// the same as a place not stored.
pub open spec fn nonempty_part(m: Map<Seq<char>, Map<Token, nat>>) -> Map<Seq<char>, Map<Token, nat>> {
    Map::new(|p: Seq<char>| m.contains_key(p) && m[p] != Map::<Token, nat>::empty(), |p: Seq<char>| m[p])
}

/// Hash of a marking: its non-empty places in name order, tokens in canonical
/// order within each place, fed to the standard library's default hasher.
pub open spec fn marking_digest(m: Map<Seq<char>, Map<Token, nat>>) -> u64 {
    DefaultHasher::spec_finish(place_writes(names_listing(nonempty_part(m)), nonempty_part(m)))
}

spec fn listed_places(s: Seq<(String, TokenMultiset)>) -> Map<Seq<char>, Map<Token, nat>> {
    Map::new(
        |p: Seq<char>| exists|i: int| 0 <= i < s.len() && s[i].0@ == p,
        |p: Seq<char>| s[choose|i: int| 0 <= i < s.len() && s[i].0@ == p].1@,
    )
}

proof fn lemma_place_listing_map(s: Seq<(String, TokenMultiset)>, m: Map<Seq<char>, Map<Token, nat>>)
    requires
        is_place_listing(s, m),
    ensures
        listed_places(s) == m,
{
    assert forall|p: Seq<char>| #[trigger] listed_places(s).contains_key(p) <==> m.contains_key(p) by {
        if listed_places(s).contains_key(p) {
            let i = choose|i: int| 0 <= i < s.len() && s[i].0@ == p;
            assert(s[i].1.wf());
        }
    }
    assert forall|p: Seq<char>| #[trigger] listed_places(s).contains_key(p) implies listed_places(s)[p] == m[p] by {
        let i = choose|i: int| 0 <= i < s.len() && s[i].0@ == p;
        assert(s[i].1.wf());
    }
    assert(listed_places(s) =~= m);
}

proof fn lemma_replace_bag(
    s0: Seq<(String, TokenMultiset)>,
    m0: Map<Seq<char>, Map<Token, nat>>,
    pos: int,
    nb: TokenMultiset,
)
    requires
        is_place_listing(s0, m0),
        0 <= pos < s0.len(),
        nb.wf(),
    ensures
        is_place_listing(s0.update(pos, (s0[pos].0, nb)), m0.insert(s0[pos].0@, nb@)),
{
    lemma_str_lt_facts();
    let s = s0.update(pos, (s0[pos].0, nb));
    let m = m0.insert(s0[pos].0@, nb@);
    assert forall|i: int, j: int| 0 <= i < j < s.len() implies #[trigger] place_lt(s[i], s[j]) by {
        assert(place_lt(s0[i], s0[j]));
    }
    assert forall|i: int| 0 <= i < s.len() implies {
        &&& #[trigger] s[i].1.wf()
        &&& m.contains_key(s[i].0@)
        &&& m[s[i].0@] == s[i].1@
    } by {
        if i != pos {
            assert(s0[i].1.wf());
            if i < pos {
                assert(place_lt(s0[i], s0[pos]));
            } else {
                assert(place_lt(s0[pos], s0[i]));
            }
        }
    }
    assert forall|p: Seq<char>| #[trigger] m.contains_key(p) implies exists|i: int| 0 <= i < s.len() && s[i].0@ == p by {
        if p == s0[pos].0@ {
            assert(s[pos].0@ == p);
        } else {
            let k = choose|k: int| 0 <= k < s0.len() && s0[k].0@ == p;
            assert(s[k].0@ == p);
        }
    }
}

proof fn lemma_insert_place(
    s0: Seq<(String, TokenMultiset)>,
    m0: Map<Seq<char>, Map<Token, nat>>,
    pos: int,
    name: String,
    nb: TokenMultiset,
)
    requires
        is_place_listing(s0, m0),
        0 <= pos <= s0.len(),
        forall|j: int| 0 <= j < pos ==> str_lt(#[trigger] s0[j].0@, name@),
        forall|j: int| pos <= j < s0.len() ==> str_lt(name@, #[trigger] s0[j].0@),
        nb.wf(),
    ensures
        is_place_listing(s0.insert(pos, (name, nb)), m0.insert(name@, nb@)),
{
    lemma_str_lt_facts();
    let s = s0.insert(pos, (name, nb));
    let m = m0.insert(name@, nb@);
    assert forall|i: int, j: int| 0 <= i < j < s.len() implies #[trigger] place_lt(s[i], s[j]) by {
        if j < pos {
            assert(place_lt(s0[i], s0[j]));
        } else if j == pos {
            assert(str_lt(s0[i].0@, name@));
        } else if i < pos {
            assert(str_lt(s0[i].0@, name@));
            assert(str_lt(name@, s0[j - 1].0@));
        } else if i == pos {
            assert(str_lt(name@, s0[j - 1].0@));
        } else {
            assert(place_lt(s0[i - 1], s0[j - 1]));
        }
    }
    assert forall|i: int| 0 <= i < s.len() implies {
        &&& #[trigger] s[i].1.wf()
        &&& m.contains_key(s[i].0@)
        &&& m[s[i].0@] == s[i].1@
    } by {
        if i < pos {
            assert(s0[i].1.wf());
            assert(str_lt(s0[i].0@, name@));
        } else if i > pos {
            assert(s0[i - 1].1.wf());
            assert(str_lt(name@, s0[i - 1].0@));
        }
    }
    assert forall|p: Seq<char>| #[trigger] m.contains_key(p) implies exists|i: int| 0 <= i < s.len() && s[i].0@ == p by {
        if p == name@ {
            assert(s[pos].0@ == p);
        } else {
            let k = choose|k: int| 0 <= k < s0.len() && s0[k].0@ == p;
            if k < pos {
                assert(s[k].0@ == p);
            } else {
                assert(s[k + 1].0@ == p);
            }
        }
    }
}

/// The hash depends on the contents alone: markings in which every place
/// holds the same tokens hash alike, however they were built, and whether
/// or not an empty place is stored.
pub proof fn lemma_hash_order_independent(a: Marking, b: Marking)
    requires
        a.wf(),
        b.wf(),
        forall|p: Seq<char>, t: Token| place_count(a@, p, t) == place_count(b@, p, t),
    ensures
        marking_digest(a@) == marking_digest(b@),
{
    a.lemma_bags_wf();
    b.lemma_bags_wf();
    assert forall|p: Seq<char>| tokens_at(a@, p) == tokens_at(b@, p) by {
        let x = tokens_at(a@, p);
        let y = tokens_at(b@, p);
        assert(bag_wf(x));
        assert(bag_wf(y));
        assert forall|t: Token| x.contains_key(t) <==> y.contains_key(t) by {
            assert(place_count(a@, p, t) == place_count(b@, p, t));
            if x.contains_key(t) {
                assert(x[t] > 0);
            }
            if y.contains_key(t) {
                assert(y[t] > 0);
            }
        }
        assert forall|t: Token| x.contains_key(t) implies x[t] == y[t] by {
            assert(place_count(a@, p, t) == place_count(b@, p, t));
        }
        assert(x =~= y);
    }
    assert forall|p: Seq<char>| #[trigger] nonempty_part(a@).contains_key(p) <==> nonempty_part(b@).contains_key(p) by {
        assert(tokens_at(a@, p) == tokens_at(b@, p));
    }
    assert forall|p: Seq<char>| #[trigger] nonempty_part(a@).contains_key(p) implies nonempty_part(a@)[p] == nonempty_part(b@)[p] by {
        assert(tokens_at(a@, p) == tokens_at(b@, p));
    }
    assert(nonempty_part(a@) =~= nonempty_part(b@));
}

/// The bag listing of each place is the canonical one.
pub proof fn lemma_bag_listing_canonical(e: Seq<(Token, usize)>, b: Map<Token, nat>)
    requires
        is_bag_listing(e, b),
    ensures
        e == bag_listing_of(b),
{
    lemma_bag_listing_unique(e, bag_listing_of(b), b);
}

/// A sorted sequence of exactly the stored names is the names listing.
pub proof fn lemma_names_unique(ns: Seq<Seq<char>>, m: Map<Seq<char>, Map<Token, nat>>)
    requires
        names_sorted(ns),
        forall|p: Seq<char>| ns.contains(p) <==> m.contains_key(p),
    ensures
        ns == names_listing(m),
{
    lemma_str_lt_facts();
    lemma_str_order();
    assert(names_sorted(ns) && forall|p: Seq<char>| ns.contains(p) <==> m.contains_key(p));
    let chosen = names_listing(m);
    assert(names_sorted(chosen) && forall|p: Seq<char>| chosen.contains(p) <==> m.contains_key(p));
    let lt = |a: Seq<char>, b: Seq<char>| str_lt(a, b);
    assert forall|a: int, b: int| 0 <= a < b < ns.len() implies #[trigger] lt(ns[a], ns[b]) by {
        assert(str_lt(ns[a], ns[b]));
    }
    assert forall|a: int, b: int| 0 <= a < b < chosen.len() implies #[trigger] lt(chosen[a], chosen[b]) by {
        assert(str_lt(chosen[a], chosen[b]));
    }
    lemma_sorted_unique(ns, chosen, lt);
}

/// The names of a place listing are the sorted place names of the marking.
pub proof fn lemma_listing_names(s: Seq<(String, TokenMultiset)>, m: Map<Seq<char>, Map<Token, nat>>)
    requires
        is_place_listing(s, m),
    ensures
        s.map_values(|e: (String, TokenMultiset)| e.0@) == names_listing(m),
{
    let ns = s.map_values(|e: (String, TokenMultiset)| e.0@);
    lemma_str_lt_facts();
    lemma_str_order();
    assert forall|a: int, b: int| 0 <= a < b < ns.len() implies #[trigger] str_lt(ns[a], ns[b]) by {
        assert(place_lt(s[a], s[b]));
    }
    assert forall|p: Seq<char>| ns.contains(p) <==> m.contains_key(p) by {
        if ns.contains(p) {
            let k = choose|k: int| 0 <= k < ns.len() && ns[k] == p;
            assert(s[k].1.wf());
        }
        if m.contains_key(p) {
            let k = choose|k: int| 0 <= k < s.len() && s[k].0@ == p;
            assert(ns[k] == p);
        }
    }
    lemma_names_unique(ns, m);
}

fn vec_entry<T>(v: &mut Vec<T>, i: usize) -> (r: &mut T)
    requires
        i < old(v)@.len(),
    ensures
        *r == old(v)@[i as int],
        final(v)@ == old(v)@.update(i as int, *final(r)),
{
    &mut v[i]
}

fn write_str(h: &mut DefaultHasher, s: &str)
    ensures
        final(h)@ == old(h)@ + str_writes(s@),
{
    h.write(s.as_bytes());
    let mut sep: Vec<u8> = Vec::new();
    sep.push(0xffu8);
    h.write(sep.as_slice());
    proof {
        assert(sep@ =~= seq![0xffu8]);
        assert(final(h)@ =~= old(h)@ + str_writes(s@));
    }
}

fn push_u64_bytes(out: &mut Vec<u8>, v: u64)
    ensures
        final(out)@ == old(out)@ + u64_bytes(v),
{
    let ghost start = out@;
    let mut k: u64 = 0;
    while k < 8
        invariant
            k <= 8,
            out@ == start + Seq::new(k as nat, |q: int| byte_of(v, q)),
        decreases 8 - k,
    {
        out.push(((v >> (8 * k)) & 0xff) as u8);
        k = k + 1;
        proof {
            assert(out@ =~= start + Seq::new(k as nat, |q: int| byte_of(v, q)));
        }
    }
    proof {
        assert(Seq::new(8, |q: int| byte_of(v, q)) =~= u64_bytes(v));
    }
}

/// Marking: each place with the tokens it holds.
#[derive(Debug, Clone)]
pub struct Marking {
    places: Vec<(String, TokenMultiset)>,
}

impl View for Marking {
    type V = Map<Seq<char>, Map<Token, nat>>;

    closed spec fn view(&self) -> Map<Seq<char>, Map<Token, nat>> {
        listed_places(self.places@)
    }
}

impl Marking {
    pub closed spec fn wf(&self) -> bool {
        is_place_listing(self.places@, self@)
    }

    pub fn new() -> (r: Marking)
        ensures
            r.wf(),
            r@ == Map::<Seq<char>, Map<Token, nat>>::empty(),
    {
        let r = Marking { places: Vec::new() };
        proof {
            let e = Map::<Seq<char>, Map<Token, nat>>::empty();
            assert(is_place_listing(r.places@, e));
            lemma_place_listing_map(r.places@, e);
        }
        r
    }

    /// Every place holds a bag whose stored counts are positive.
    pub proof fn lemma_bags_wf(&self)
        requires
            self.wf(),
        ensures
            forall|p: Seq<char>| #[trigger] bag_wf(tokens_at(self@, p)),
    {
        assert forall|p: Seq<char>| #[trigger] bag_wf(tokens_at(self@, p)) by {
            if self@.contains_key(p) {
                let k = choose|k: int| 0 <= k < self.places@.len() && self.places@[k].0@ == p;
                assert(self.places@[k].1.wf());
                self.places@[k].1.lemma_wf_bag();
            }
        }
    }

    /// First index whose name is not below `place`, and whether it is `place`.
    fn find_place(&self, place: &str) -> (r: (usize, bool))
        requires
            self.wf(),
        ensures
            r.0 <= self.places@.len(),
            forall|j: int| 0 <= j < r.0 ==> str_lt(#[trigger] self.places@[j].0@, place@),
            !r.1 ==> forall|j: int|
                r.0 <= j < self.places@.len() ==> str_lt(place@, #[trigger] self.places@[j].0@),
            r.1 == (r.0 < self.places@.len() && self.places@[r.0 as int].0@ == place@),
            r.1 ==> self@.contains_key(place@) && self@[place@] == self.places@[r.0 as int].1@,
            r.1 ==> self.places@[r.0 as int].1.wf(),
            !r.1 ==> !self@.contains_key(place@),
    {
        let mut i: usize = 0;
        while i < self.places.len()
            invariant
                self.wf(),
                i <= self.places@.len(),
                forall|j: int| 0 <= j < i ==> str_lt(#[trigger] self.places@[j].0@, place@),
            ensures
                i <= self.places@.len(),
                i < self.places@.len() ==> !str_lt(self.places@[i as int].0@, place@),
            decreases self.places@.len() - i,
        {
            if !str_less(self.places[i].0.as_str(), place) {
                break;
            }
            i = i + 1;
        }
        let ghost s = self.places@;
        let found = i < self.places.len() && !str_less(place, self.places[i].0.as_str());
        proof {
            lemma_str_lt_facts();
            if i < s.len() {
                if s[i as int].0@ != place@ {
                    lemma_str_lt_total(s[i as int].0@, place@);
                }
                assert forall|j: int| i < j < s.len() implies str_lt(s[i as int].0@, #[trigger] s[j].0@) by {
                    assert(place_lt(s[i as int], s[j]));
                }
            }
            if found {
                assert(s[i as int].1.wf());
            } else {
                if self@.contains_key(place@) {
                    let k = choose|k: int| 0 <= k < s.len() && s[k].0@ == place@;
                    assert(s[k].1.wf());
                    if k < i {
                        assert(str_lt(s[k].0@, place@));
                    } else if k > i {
                        assert(str_lt(s[i as int].0@, s[k].0@));
                    }
                }
            }
        }
        (i, found)
    }

    /// Index of `place`, stored empty first if it was not stored.
    fn place_index(&mut self, place: &str) -> (r: usize)
        requires
            old(self).wf(),
        ensures
            final(self).wf(),
            r < final(self).places@.len(),
            final(self).places@[r as int].0@ == place@,
            final(self).places@[r as int].1@ == tokens_at(old(self)@, place@),
            final(self)@ == old(self)@.insert(place@, tokens_at(old(self)@, place@)),
    {
        let (pos, found) = self.find_place(place);
        if found {
            proof {
                assert(self@.insert(place@, tokens_at(self@, place@)) =~= self@);
            }
            return pos;
        }
        let ghost s0 = self.places@;
        let ghost m0 = self@;
        let name = place.to_owned();
        let bag = TokenMultiset::new();
        self.places.insert(pos, (name, bag));
        proof {
            lemma_insert_place(s0, m0, pos as int, name, bag);
            lemma_place_listing_map(self.places@, m0.insert(name@, bag@));
        }
        pos
    }

    /// Adds `count` copies of `token` to `place`, storing the place if needed.
    pub fn add_token(&mut self, place: &str, token: Token, count: usize)
        requires
            old(self).wf(),
            place_count(old(self)@, place@, token) + count <= usize::MAX,
        ensures
            final(self).wf(),
            final(self)@ == old(self)@.insert(
                place@,
                bag_add(tokens_at(old(self)@, place@), token, count as nat),
            ),
    {
        let pos = self.place_index(place);
        let ghost s0 = self.places@;
        let ghost m0 = self@;
        let (name, mut bag) = self.places.remove(pos);
        proof {
            assert(s0[pos as int].1.wf());
        }
        bag.add(token, count);
        self.places.insert(pos, (name, bag));
        proof {
            assert(self.places@ =~= s0.update(pos as int, (s0[pos as int].0, bag)));
            lemma_replace_bag(s0, m0, pos as int, bag);
            lemma_place_listing_map(self.places@, m0.insert(place@, bag@));
            assert(m0.insert(place@, bag@) =~= old(self)@.insert(place@, bag@));
        }
    }

    /// Takes `count` copies of `token` from `place` if it holds that many;
    /// the place is stored (possibly empty) either way.
    pub fn remove_token(&mut self, place: &str, token: &Token, count: usize) -> (r: bool)
        requires
            old(self).wf(),
        ensures
            final(self).wf(),
            r == (place_count(old(self)@, place@, *token) >= count),
            r ==> final(self)@ == old(self)@.insert(
                place@,
                bag_sub(tokens_at(old(self)@, place@), *token, count as nat),
            ),
            !r ==> final(self)@ == old(self)@.insert(place@, tokens_at(old(self)@, place@)),
    {
        let pos = self.place_index(place);
        let ghost s0 = self.places@;
        let ghost m0 = self@;
        let (name, mut bag) = self.places.remove(pos);
        proof {
            assert(s0[pos as int].1.wf());
        }
        let r = bag.remove(token, count);
        self.places.insert(pos, (name, bag));
        proof {
            assert(self.places@ =~= s0.update(pos as int, (s0[pos as int].0, bag)));
            lemma_replace_bag(s0, m0, pos as int, bag);
            lemma_place_listing_map(self.places@, m0.insert(place@, bag@));
            assert(m0.insert(place@, bag@) =~= old(self)@.insert(place@, bag@));
        }
        r
    }

    /// The tokens of `place` for changing, if the place is stored.
    pub fn get_mut(&mut self, place: &str) -> (r: Option<&mut TokenMultiset>)
        requires
            old(self).wf(),
        ensures
            r is Some <==> old(self)@.contains_key(place@),
            r is None ==> *final(self) == *old(self),
            r matches Some(b) ==> b.wf() && b@ == old(self)@[place@] && (final(b).wf()
                ==> final(self).wf() && final(self)@ == old(self)@.insert(place@, final(b)@)),
    {
        let (_, found) = self.find_place(place);
        if !found {
            return None;
        }
        Some(self.get_or_insert(place))
    }

    /// The tokens of `place` for changing, the place stored empty first if needed.
    pub fn get_or_insert(&mut self, place: &str) -> (r: &mut TokenMultiset)
        requires
            old(self).wf(),
        ensures
            r.wf(),
            r@ == tokens_at(old(self)@, place@),
            final(r).wf() ==> final(self).wf() && final(self)@ == old(self)@.insert(
                place@,
                final(r)@,
            ),
    {
        let pos = self.place_index(place);
        let ghost s0 = self.places@;
        let ghost m0 = self@;
        proof {
            assert(s0[pos as int].1.wf());
        }
        let entry = vec_entry(&mut self.places, pos);
        let r = &mut entry.1;
        proof {
            assert forall|nb: TokenMultiset| nb.wf() implies is_place_listing(
                #[trigger] s0.update(pos as int, (s0[pos as int].0, nb)),
                old(self)@.insert(place@, nb@),
            ) && listed_places(s0.update(pos as int, (s0[pos as int].0, nb))) == old(self)@.insert(
                place@,
                nb@,
            ) by {
                lemma_replace_bag(s0, m0, pos as int, nb);
                assert(m0.insert(place@, nb@) =~= old(self)@.insert(place@, nb@));
                lemma_place_listing_map(
                    s0.update(pos as int, (s0[pos as int].0, nb)),
                    old(self)@.insert(place@, nb@),
                );
            }
        }
        r
    }

    /// The tokens of `place`, if the place is stored.
    pub fn get(&self, place: &str) -> (r: Option<&TokenMultiset>)
        requires
            self.wf(),
        ensures
            r is Some <==> self@.contains_key(place@),
            r is Some ==> r->0.wf() && r->0@ == self@[place@],
    {
        let (pos, found) = self.find_place(place);
        if found {
            Some(&self.places[pos].1)
        } else {
            None
        }
    }

    /// The stored places with their tokens, in name order.
    pub fn iter(&self) -> (r: &[(String, TokenMultiset)])
        requires
            self.wf(),
        ensures
            is_place_listing(r@, self@),
    {
        self.places.as_slice()
    }

    /// A copy of this marking.
    pub fn snapshot(&self) -> (r: Marking)
        requires
            self.wf(),
        ensures
            r.wf(),
            r@ == self@,
    {
        let mut places: Vec<(String, TokenMultiset)> = Vec::new();
        let mut i: usize = 0;
        while i < self.places.len()
            invariant
                self.wf(),
                i <= self.places@.len(),
                places@.len() == i,
                forall|j: int| 0 <= j < i ==> {
                    &&& (#[trigger] places@[j]).0@ == self.places@[j].0@
                    &&& places@[j].1@ == self.places@[j].1@
                    &&& places@[j].1.wf()
                },
            decreases self.places@.len() - i,
        {
            proof {
                assert(self.places@[i as int].1.wf());
            }
            let name = self.places[i].0.clone();
            let bag = self.places[i].1.snapshot();
            places.push((name, bag));
            i = i + 1;
        }
        let r = Marking { places };
        proof {
            let s = r.places@;
            let s0 = self.places@;
            assert forall|i: int, j: int| 0 <= i < j < s.len() implies #[trigger] place_lt(s[i], s[j]) by {
                assert(place_lt(s0[i], s0[j]));
            }
            assert forall|i: int| 0 <= i < s.len() implies {
                &&& #[trigger] s[i].1.wf()
                &&& self@.contains_key(s[i].0@)
                &&& self@[s[i].0@] == s[i].1@
            } by {
                assert(s0[i].1.wf());
            }
            assert forall|p: Seq<char>| #[trigger] self@.contains_key(p) implies exists|i: int| 0 <= i < s.len() && s[i].0@ == p by {
                let k = choose|k: int| 0 <= k < s0.len() && s0[k].0@ == p;
                assert(s[k].0@ == p);
            }
            lemma_place_listing_map(s, self@);
        }
        r
    }

    /// The largest count stored anywhere, zero for an empty marking.
    pub fn max_count(&self) -> (r: usize)
        requires
            self.wf(),
        ensures
            forall|p: Seq<char>, t: Token| #[trigger] place_count(self@, p, t) <= r,
            r == 0 || exists|p: Seq<char>, t: Token| #[trigger] place_count(self@, p, t) == r,
    {
        let mut best: usize = 0;
        let ghost mut wp: Seq<char> = Seq::empty();
        let ghost mut wt: Token = Token::Unit;
        let mut i: usize = 0;
        while i < self.places.len()
            invariant
                self.wf(),
                i <= self.places@.len(),
                best == 0 || place_count(self@, wp, wt) == best,
                forall|k: int, t: Token|
                    0 <= k < i ==> #[trigger] bag_count(self.places@[k].1@, t) <= best,
            decreases self.places@.len() - i,
        {
            proof {
                assert(self.places@[i as int].1.wf());
            }
            let es = self.places[i].1.iter();
            let mut j: usize = 0;
            while j < es.len()
                invariant
                    j <= es@.len(),
                    self.wf(),
                    i < self.places@.len(),
                    is_bag_listing(es@, self.places@[i as int].1@),
                    best == 0 || place_count(self@, wp, wt) == best,
                    forall|q: int| 0 <= q < j ==> (#[trigger] es@[q]).1 <= best,
                    forall|k: int, t: Token|
                        0 <= k < i ==> #[trigger] bag_count(self.places@[k].1@, t) <= best,
                decreases es@.len() - j,
            {
                if es[j].1 > best {
                    best = es[j].1;
                    proof {
                        assert(es@[j as int].1 > 0);
                        assert(self.places@[i as int].1.wf());
                        wp = self.places@[i as int].0@;
                        wt = es@[j as int].0;
                    }
                }
                j = j + 1;
            }
            proof {
                let b = self.places@[i as int].1@;
                assert forall|t: Token| bag_count(b, t) <= best by {
                    if b.contains_key(t) {
                        let q = choose|q: int| 0 <= q < es@.len() && es@[q].0 == t;
                        assert(es@[q].1 > 0);
                    }
                }
            }
            i = i + 1;
        }
        proof {
            if best != 0 {
                assert(place_count(self@, wp, wt) == best);
            }
            assert forall|p: Seq<char>, t: Token| #[trigger] place_count(self@, p, t) <= best by {
                if self@.contains_key(p) {
                    let k = choose|k: int| 0 <= k < self.places@.len() && self.places@[k].0@ == p;
                    assert(self.places@[k].1.wf());
                    assert(bag_count(self.places@[k].1@, t) <= best);
                }
            }
        }
        best
    }

    /// Deterministic hash of the contents: places in name order, tokens in
    /// canonical order within each place, with their counts.
    pub fn hash(&self) -> (r: u64)
        requires
            self.wf(),
        ensures
            r == marking_digest(self@),
    {
        let ghost m = self@;
        let ghost nm = nonempty_part(m);
        let ghost ns = self.places@.map_values(|e: (String, TokenMultiset)| e.0@);
        let ghost mut kept: Seq<Seq<char>> = Seq::empty();
        let mut h = DefaultHasher::new();
        let mut i: usize = 0;
        proof {
            lemma_str_lt_facts();
        }
        while i < self.places.len()
            invariant
                self.wf(),
                m == self@,
                nm == nonempty_part(m),
                ns == self.places@.map_values(|e: (String, TokenMultiset)| e.0@),
                i <= self.places@.len(),
                h@ == place_writes(kept, nm),
                names_sorted(kept),
                forall|x: Seq<char>|
                    kept.contains(x) <==> nm.contains_key(x) && exists|j: int| 0 <= j < i && ns[j] == x,
                forall|k: int, j: int|
                    0 <= k < kept.len() && i <= j < ns.len() ==> #[trigger] str_lt(kept[k], ns[j]),
            decreases self.places@.len() - i,
        {
            proof {
                assert(self.places@[i as int].1.wf());
                assert(m.contains_key(ns[i as int]));
                assert(m[ns[i as int]] == self.places@[i as int].1@);
            }
            if !self.places[i].1.is_empty() {
                let ghost before = h@;
                write_str(&mut h, self.places[i].0.as_str());
                let entries = self.places[i].1.iter();
                let ghost b = self.places@[i as int].1@;
                let mut j: usize = 0;
                proof {
                    assert(entries@.subrange(0, 0) =~= Seq::<(Token, usize)>::empty());
                }
                while j < entries.len()
                    invariant
                        j <= entries@.len(),
                        h@ == before + str_writes(ns[i as int]) + bag_writes(
                            entries@.subrange(0, j as int),
                        ),
                    decreases entries@.len() - j,
                {
                    let (t, c) = entries[j];
                    let tb = t.to_text();
                    write_str(&mut h, tb.as_str());
                    let mut cb: Vec<u8> = Vec::new();
                    push_u64_bytes(&mut cb, c as u64);
                    h.write(cb.as_slice());
                    proof {
                        let e = entries@.subrange(0, j + 1);
                        assert(e.drop_last() =~= entries@.subrange(0, j as int));
                        assert(cb@ =~= u64_bytes(c as u64));
                        assert(h@ =~= before + str_writes(ns[i as int]) + bag_writes(e));
                    }
                    j = j + 1;
                }
                proof {
                    assert(entries@.subrange(0, j as int) =~= entries@);
                    lemma_bag_listing_unique(entries@, bag_listing_of(b), b);
                    assert(nm.contains_key(ns[i as int]));
                    assert(tokens_at(nm, ns[i as int]) == b);
                    let k2 = kept.push(ns[i as int]);
                    assert(k2.drop_last() =~= kept);
                    assert(h@ =~= place_writes(k2, nm));
                    assert forall|a: int, c: int| 0 <= a < c < k2.len() implies #[trigger] str_lt(k2[a], k2[c]) by {
                        if c < kept.len() {
                            assert(str_lt(kept[a], kept[c]));
                        } else {
                            assert(str_lt(kept[a], ns[i as int]));
                        }
                    }
                    assert forall|x: Seq<char>|
                        k2.contains(x) <==> nm.contains_key(x) && exists|j: int| 0 <= j < i + 1 && ns[j] == x by {
                        if k2.contains(x) {
                            let q = choose|q: int| 0 <= q < k2.len() && k2[q] == x;
                            if q < kept.len() {
                                assert(kept.contains(x));
                            }
                        }
                        if nm.contains_key(x) && exists|j: int| 0 <= j < i + 1 && ns[j] == x {
                            let j = choose|j: int| 0 <= j < i + 1 && ns[j] == x;
                            if j < i {
                                assert(kept.contains(x));
                                let q = choose|q: int| 0 <= q < kept.len() && kept[q] == x;
                                assert(k2[q] == x);
                            } else {
                                assert(k2[kept.len() as int] == x);
                            }
                        }
                    }
                    assert forall|k: int, j: int|
                        0 <= k < k2.len() && i + 1 <= j < ns.len() implies #[trigger] str_lt(k2[k], ns[j]) by {
                        assert(place_lt(self.places@[i as int], self.places@[j]));
                    }
                    kept = k2;
                }
            } else {
                proof {
                    assert(!nm.contains_key(ns[i as int]));
                    assert forall|x: Seq<char>|
                        kept.contains(x) <==> nm.contains_key(x) && exists|j: int| 0 <= j < i + 1 && ns[j] == x by {
                        if nm.contains_key(x) && exists|j: int| 0 <= j < i + 1 && ns[j] == x {
                            let j = choose|j: int| 0 <= j < i + 1 && ns[j] == x;
                            if j < i {
                                assert(exists|j: int| 0 <= j < i && ns[j] == x);
                            }
                        }
                    }
                }
            }
            i = i + 1;
        }
        proof {
            assert forall|x: Seq<char>| kept.contains(x) <==> nm.contains_key(x) by {
                if nm.contains_key(x) {
                    let k = choose|k: int| 0 <= k < self.places@.len() && self.places@[k].0@ == x;
                    assert(ns[k] == x);
                }
            }
            lemma_names_unique(kept, nm);
        }
        h.finish()
    }
}

impl Default for Marking {
    fn default() -> (r: Marking)
        ensures
            r.wf(),
            r@ == Map::<Seq<char>, Map<Token, nat>>::empty(),
    {
        Marking::new()
    }
}

} // verus!
