//! The net definition as plain data, and how it becomes arcs, tokens
//! and markings.

use vstd::prelude::*;
use crate::order::str_equal;
use crate::table::{table, lemma_table_prefix, lemma_table_last};
use crate::token::Token;
use crate::multiset::bag_add;
use crate::marking::{Marking, tokens_at, place_count};
use crate::cpn::{ArcSpec, ArcTokenPattern};

verus! {

/// A structured-data value, as found among the initial-marking token descriptors.
#[derive(Debug)]
pub enum JsonValue {
    Null,
    Bool(bool),
    /// A number, with its value when it is an unsigned 64-bit integer.
    Number(Option<u64>),
    Str(String),
    Array(Vec<JsonValue>),
    Object(Vec<(String, JsonValue)>),
}

/// The token pattern of an arc as written in a definition.
#[derive(Debug, Clone)]
pub enum ArcTokenDef {
    Variable { variable: String },
    Concrete { kind: String, value: u64 },
    Unit {},
}

/// An arc as written in a definition.
#[derive(Debug, Clone)]
pub struct ArcDef {
    pub place: String,
    pub token: ArcTokenDef,
}

/// A transition as written in a definition.
#[derive(Debug, Clone)]
pub struct TransitionDef {
    pub pre: Vec<ArcDef>,
    pub post: Vec<ArcDef>,
}

/// A whole net definition.
#[derive(Debug)]
pub struct NetDef {
    /// Place names; informational only, places come into being on first use.
    pub places: Vec<String>,
    pub transitions: Vec<(String, TransitionDef)>,
    pub event_mapping: Vec<(String, String)>,
    pub initial_marking: Vec<(String, Vec<JsonValue>)>,
}

/// The token for a kind name and a value; unknown kinds give the unit token.
pub open spec fn kind_token(kind: Seq<char>, value: u64) -> Token {
    if kind == "Lock"@ {
        Token::Lock(value)
    } else if kind == "Loc"@ {
        Token::Loc(value)
    } else if kind == "Tid"@ {
        Token::Tid(value as u32)
    } else if kind == "Region"@ {
        Token::Region(value)
    } else {
        Token::Unit
    }
}

pub open spec fn json_str(v: Option<JsonValue>) -> Seq<char> {
    match v {
        Some(JsonValue::Str(s)) => s@,
        _ => Seq::empty(),
    }
}

pub open spec fn json_u64(v: Option<JsonValue>) -> u64 {
    match v {
        Some(JsonValue::Number(Some(n))) => n,
        _ => 0,
    }
}

pub open spec fn fields_view(o: Seq<(String, JsonValue)>) -> Seq<(Seq<char>, JsonValue)> {
    o.map_values(|e: (String, JsonValue)| (e.0@, e.1))
}

/// The field `key` of an object; a later duplicate wins.
pub open spec fn field(o: Seq<(String, JsonValue)>, key: Seq<char>) -> Option<JsonValue> {
    if table(fields_view(o)).contains_key(key) {
        Some(table(fields_view(o))[key])
    } else {
        None
    }
}

/// The token an initial-marking descriptor stands for: `[kind, value]` or
/// `{kind, value}`; a missing or ill-typed part reads as empty kind or zero.
pub open spec fn initial_token(v: JsonValue) -> Token {
    match v {
        JsonValue::Array(a) => if a@.len() >= 2 {
            kind_token(json_str(Some(a@[0])), json_u64(Some(a@[1])))
        } else {
            Token::Unit
        },
        JsonValue::Object(o) => kind_token(json_str(field(o@, "kind"@)), json_u64(field(o@, "value"@))),
        _ => Token::Unit,
    }
}

/// The pattern that an arc definition denotes.
pub open spec fn pattern_of(d: ArcTokenDef) -> ArcTokenPattern {
    match d {
        ArcTokenDef::Variable { variable } => ArcTokenPattern::Variable(variable),
        ArcTokenDef::Concrete { kind, value } => ArcTokenPattern::Concrete(kind_token(kind@, value)),
        ArcTokenDef::Unit {  } => ArcTokenPattern::Concrete(Token::Unit),
    }
}

pub open spec fn arc_of(a: ArcDef) -> ArcSpec {
    ArcSpec { place: a.place, token: pattern_of(a.token) }
}

pub open spec fn arcs_of(s: Seq<ArcDef>) -> Seq<ArcSpec> {
    s.map_values(|a: ArcDef| arc_of(a))
}

/// The token for a kind name and a value; unknown kinds give the unit token.
pub fn token_of_kind(kind: &str, value: u64) -> (r: Token)
    ensures
        r == kind_token(kind@, value),
{
    if str_equal(kind, "Lock") {
        Token::Lock(value)
    } else if str_equal(kind, "Loc") {
        Token::Loc(value)
    } else if str_equal(kind, "Tid") {
        Token::Tid(value as u32)
    } else if str_equal(kind, "Region") {
        Token::Region(value)
    } else {
        Token::Unit
    }
}

fn object_field<'a>(o: &'a Vec<(String, JsonValue)>, key: &str) -> (r: Option<&'a JsonValue>)
    ensures
        r is Some <==> field(o@, key@) is Some,
        r is Some ==> *r->0 == field(o@, key@)->0,
{
    let ghost s = fields_view(o@);
    let mut i: usize = o.len();
    while i > 0
        invariant
            i <= o@.len(),
            s == fields_view(o@),
            forall|j: int| i <= j < s.len() ==> (#[trigger] s[j]).0 != key@,
        decreases i,
    {
        if str_equal(o[i - 1].0.as_str(), key) {
            proof {
                lemma_table_prefix(s, i as int, key@);
                lemma_table_last(s, i - 1);
            }
            return Some(&o[i - 1].1);
        }
        i = i - 1;
    }
    proof {
        lemma_table_prefix(s, 0, key@);
    }
    None
}

fn as_str_or_empty(v: Option<&JsonValue>) -> (r: &str)
    ensures
        r@ == json_str(
            match v {
                Some(x) => Some(*x),
                None => None,
            },
        ),
{
    match v {
        Some(JsonValue::Str(s)) => s.as_str(),
        _ => {
            proof {
                reveal_strlit("");
            }
            ""
        },
    }
}

fn as_u64_or_zero(v: Option<&JsonValue>) -> (r: u64)
    ensures
        r == json_u64(
            match v {
                Some(x) => Some(*x),
                None => None,
            },
        ),
{
    match v {
        Some(JsonValue::Number(Some(n))) => *n,
        _ => 0,
    }
}

/// Reads an initial-marking token: `[kind, value]` or `{kind, value}`.
pub fn parse_initial_token(v: &JsonValue) -> (r: Token)
    ensures
        r == initial_token(*v),
{
    match v {
        JsonValue::Array(arr) => {
            if arr.len() >= 2 {
                let kind = as_str_or_empty(Some(&arr[0]));
                let value = as_u64_or_zero(Some(&arr[1]));
                token_of_kind(kind, value)
            } else {
                Token::Unit
            }
        },
        JsonValue::Object(obj) => {
            let kind = as_str_or_empty(object_field(obj, "kind"));
            let value = as_u64_or_zero(object_field(obj, "value"));
            token_of_kind(kind, value)
        },
        _ => Token::Unit,
    }
}

impl ArcTokenDef {
    /// The arc on `place` with the pattern this definition denotes.
    pub fn to_arc_spec(&self, place: &str) -> (r: ArcSpec)
        ensures
            r.place@ == place@,
            r.token == pattern_of(*self),
    {
        let token = match self {
            ArcTokenDef::Variable { variable } => ArcTokenPattern::Variable(variable.clone()),
            ArcTokenDef::Concrete { kind, value } => ArcTokenPattern::Concrete(
                token_of_kind(kind.as_str(), *value),
            ),
            ArcTokenDef::Unit {  } => ArcTokenPattern::Concrete(Token::Unit),
        };
        ArcSpec { place: place.to_owned(), token }
    }
}

/// Converts arc definitions, in order.
pub fn convert_arcs(defs: &Vec<ArcDef>) -> (r: Vec<ArcSpec>)
    ensures
        r@.len() == defs@.len(),
        forall|i: int| 0 <= i < r@.len() ==> (#[trigger] r@[i]).place@ == defs@[i].place@ && r@[i].token
            == pattern_of(defs@[i].token),
{
    let mut out: Vec<ArcSpec> = Vec::new();
    let mut i: usize = 0;
    while i < defs.len()
        invariant
            i <= defs@.len(),
            out@.len() == i,
            forall|j: int| 0 <= j < i ==> (#[trigger] out@[j]).place@ == defs@[j].place@ && out@[j].token
                == pattern_of(defs@[j].token),
        decreases defs@.len() - i,
    {
        let a = &defs[i];
        out.push(a.token.to_arc_spec(a.place.as_str()));
        i = i + 1;
    }
    out
}

/// The marking after adding one copy of each descriptor's token to `place`.
pub open spec fn add_all(
    m: Map<Seq<char>, Map<Token, nat>>,
    place: Seq<char>,
    vs: Seq<JsonValue>,
) -> Map<Seq<char>, Map<Token, nat>>
    decreases vs.len(),
{
    if vs.len() == 0 {
        m
    } else {
        let m1 = add_all(m, place, vs.drop_last());
        m1.insert(place, bag_add(tokens_at(m1, place), initial_token(vs.last()), 1))
    }
}

/// The initial marking that a definition's entries describe, in order.
pub open spec fn initial_of(es: Seq<(String, Vec<JsonValue>)>) -> Map<Seq<char>, Map<Token, nat>>
    decreases es.len(),
{
    if es.len() == 0 {
        Map::empty()
    } else {
        add_all(initial_of(es.drop_last()), es.last().0@, es.last().1@)
    }
}

/// How many token descriptors the entries hold.
pub open spec fn total_tokens(es: Seq<(String, Vec<JsonValue>)>) -> nat
    decreases es.len(),
{
    if es.len() == 0 {
        0
    } else {
        total_tokens(es.drop_last()) + es.last().1@.len()
    }
}

proof fn lemma_add_all_bound(m: Map<Seq<char>, Map<Token, nat>>, place: Seq<char>, vs: Seq<JsonValue>, p: Seq<char>, t: Token)
    ensures
        place_count(add_all(m, place, vs), p, t) <= place_count(m, p, t) + vs.len(),
    decreases vs.len(),
{
    if vs.len() > 0 {
        lemma_add_all_bound(m, place, vs.drop_last(), p, t);
    }
}

proof fn lemma_initial_bound(es: Seq<(String, Vec<JsonValue>)>, p: Seq<char>, t: Token)
    ensures
        place_count(initial_of(es), p, t) <= total_tokens(es),
    decreases es.len(),
{
    if es.len() > 0 {
        lemma_initial_bound(es.drop_last(), p, t);
        lemma_add_all_bound(initial_of(es.drop_last()), es.last().0@, es.last().1@, p, t);
    }
}

/// Builds the initial marking from its entries.
pub fn build_initial_marking(entries: &Vec<(String, Vec<JsonValue>)>) -> (r: Marking)
    requires
        total_tokens(entries@) <= usize::MAX,
    ensures
        r.wf(),
        r@ == initial_of(entries@),
{
    let mut marking = Marking::new();
    let mut i: usize = 0;
    proof {
        assert(entries@.subrange(0, 0) =~= Seq::<(String, Vec<JsonValue>)>::empty());
    }
    while i < entries.len()
        invariant
            i <= entries@.len(),
            marking.wf(),
            marking@ == initial_of(entries@.subrange(0, i as int)),
            total_tokens(entries@) <= usize::MAX,
        decreases entries@.len() - i,
    {
        let place = entries[i].0.as_str();
        let tokens = &entries[i].1;
        let ghost before = entries@.subrange(0, i as int);
        let ghost m0 = marking@;
        let mut j: usize = 0;
        proof {
            assert(tokens@.subrange(0, 0) =~= Seq::<JsonValue>::empty());
        }
        while j < tokens.len()
            invariant
                i < entries@.len(),
                place@ == entries@[i as int].0@,
                tokens@ == entries@[i as int].1@,
                j <= tokens@.len(),
                marking.wf(),
                m0 == initial_of(before),
                before == entries@.subrange(0, i as int),
                marking@ == add_all(m0, place@, tokens@.subrange(0, j as int)),
                total_tokens(entries@) <= usize::MAX,
            decreases tokens@.len() - j,
        {
            let token = parse_initial_token(&tokens[j]);
            proof {
                let es = entries@.subrange(0, i + 1);
                lemma_add_all_bound(m0, place@, tokens@.subrange(0, j as int), place@, token);
                lemma_initial_bound(before, place@, token);
                lemma_total_prefix(entries@, i + 1);
                assert(es.drop_last() =~= before);
                assert(total_tokens(before) + tokens@.len() <= total_tokens(entries@));
            }
            marking.add_token(place, token, 1);
            proof {
                let vs = tokens@.subrange(0, j + 1);
                assert(vs.drop_last() =~= tokens@.subrange(0, j as int));
            }
            j = j + 1;
        }
        proof {
            assert(tokens@.subrange(0, j as int) =~= tokens@);
            let es = entries@.subrange(0, i + 1);
            assert(es.drop_last() =~= before);
        }
        i = i + 1;
    }
    proof {
        assert(entries@.subrange(0, i as int) =~= entries@);
    }
    marking
}

proof fn lemma_total_prefix(es: Seq<(String, Vec<JsonValue>)>, k: int)
    requires
        0 <= k <= es.len(),
    ensures
        total_tokens(es.subrange(0, k)) <= total_tokens(es),
    decreases es.len() - k,
{
    if k < es.len() {
        lemma_total_prefix(es.drop_last(), k);
        assert(es.drop_last().subrange(0, k) =~= es.subrange(0, k));
    } else {
        assert(es.subrange(0, k) =~= es);
    }
}

impl NetDef {
    /// Whether the initial marking's descriptors can be counted in a `usize`,
    /// as loading requires.
    pub fn initial_tokens_fit(&self) -> (r: bool)
        ensures
            r == (total_tokens(self.initial_marking@) <= usize::MAX),
    {
        let mut total: usize = 0;
        let mut i: usize = 0;
        proof {
            assert(self.initial_marking@.subrange(0, 0) =~= Seq::<(String, Vec<JsonValue>)>::empty());
        }
        while i < self.initial_marking.len()
            invariant
                i <= self.initial_marking@.len(),
                total == total_tokens(self.initial_marking@.subrange(0, i as int)),
            decreases self.initial_marking@.len() - i,
        {
            let n = self.initial_marking[i].1.len();
            proof {
                let p = self.initial_marking@.subrange(0, i + 1);
                assert(p.drop_last() =~= self.initial_marking@.subrange(0, i as int));
                assert(p.last() == self.initial_marking@[i as int]);
                assert(total_tokens(p) == total + n);
            }
            if n > usize::MAX - total {
                proof {
                    lemma_total_prefix(self.initial_marking@, i + 1);
                    assert(total_tokens(self.initial_marking@.subrange(0, i + 1)) > usize::MAX);
                }
                return false;
            }
            total = total + n;
            i = i + 1;
        }
        proof {
            assert(self.initial_marking@.subrange(0, i as int) =~= self.initial_marking@);
        }
        true
    }
}

} // verus!
