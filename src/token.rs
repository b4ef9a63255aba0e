//! Tokens: the closed set of protocol entities that flow through places.

use vstd::prelude::*;
use crate::order::{str_lt, str_less, lemma_str_lt_total, lemma_str_lt_facts};
use crate::text::{decimal, digit_char, token_text};

verus! {

/// A typed token: thread, lock, memory location, memory region, or a unit marker.
#[derive(Debug, Clone, Copy, PartialEq, Eq, Hash, Structural)]
pub enum Token {
    Tid(u32),
    Lock(u64),
    Loc(u64),
    Region(u64),
    Unit,
}

/// Canonical order on tokens: lexicographic order of their text.
pub open spec fn token_lt(a: Token, b: Token) -> bool {
    str_lt(token_text(a), token_text(b))
}

/// Different numbers have different decimal digits.
pub proof fn lemma_decimal_injective(n: nat, m: nat)
    requires
        decimal(n) == decimal(m),
    ensures
        n == m,
    decreases n,
{
    lemma_decimal_len(n);
    lemma_decimal_len(m);
    if n >= 10 && m >= 10 {
        let dn = decimal(n);
        let dm = decimal(m);
        assert(dn.last() == digit_char(n % 10));
        assert(dm.last() == digit_char(m % 10));
        assert(dn.drop_last() == decimal(n / 10));
        assert(dm.drop_last() == decimal(m / 10));
        lemma_decimal_injective(n / 10, m / 10);
    } else if n < 10 && m < 10 {
        assert(decimal(n)[0] == digit_char(n));
        assert(decimal(m)[0] == digit_char(m));
    }
}

pub proof fn lemma_decimal_len(n: nat)
    ensures
        decimal(n).len() >= 1,
        n >= 10 ==> decimal(n).len() >= 2,
    decreases n,
{
    if n >= 10 {
        lemma_decimal_len(n / 10);
    }
}

proof fn lemma_wrapped_injective(p: Seq<char>, d1: Seq<char>, d2: Seq<char>)
    requires
        p + d1 + ")"@ == p + d2 + ")"@,
    ensures
        d1 == d2,
{
    reveal_strlit(")");
    let x = p + d1 + ")"@;
    let y = p + d2 + ")"@;
    assert((p + d1).len() == p.len() + d1.len());
    assert((p + d2).len() == p.len() + d2.len());
    assert(x.len() == (p + d1).len() + ")"@.len());
    assert(y.len() == (p + d2).len() + ")"@.len());
    assert(d1.len() == d2.len());
    assert(x.subrange(p.len() as int, (p.len() + d1.len()) as int) =~= d1);
    assert(y.subrange(p.len() as int, (p.len() + d2.len()) as int) =~= d2);
}

/// Different tokens are written differently.
pub proof fn lemma_token_text_injective(a: Token, b: Token)
    requires
        token_text(a) == token_text(b),
    ensures
        a == b,
{
    reveal_strlit("Tid(");
    reveal_strlit("Lock(");
    reveal_strlit("Loc(");
    reveal_strlit("Region(");
    reveal_strlit("Unit");
    reveal_strlit(")");
    let ta = token_text(a);
    let tb = token_text(b);
    assert(ta[0] == tb[0]);
    match (a, b) {
        (Token::Tid(x), Token::Tid(y)) => {
            lemma_wrapped_injective("Tid("@, decimal(x as nat), decimal(y as nat));
            lemma_decimal_injective(x as nat, y as nat);
        },
        (Token::Lock(x), Token::Lock(y)) => {
            lemma_wrapped_injective("Lock("@, decimal(x as nat), decimal(y as nat));
            lemma_decimal_injective(x as nat, y as nat);
        },
        (Token::Loc(x), Token::Loc(y)) => {
            lemma_wrapped_injective("Loc("@, decimal(x as nat), decimal(y as nat));
            lemma_decimal_injective(x as nat, y as nat);
        },
        (Token::Region(x), Token::Region(y)) => {
            lemma_wrapped_injective("Region("@, decimal(x as nat), decimal(y as nat));
            lemma_decimal_injective(x as nat, y as nat);
        },
        (Token::Lock(x), Token::Loc(y)) => {
            lemma_decimal_len(x as nat);
            lemma_decimal_len(y as nat);
            assert(ta[3] == tb[3]);
        },
        (Token::Loc(x), Token::Lock(y)) => {
            lemma_decimal_len(x as nat);
            lemma_decimal_len(y as nat);
            assert(ta[3] == tb[3]);
        },
        _ => {},
    }
}

/// Tokens that are not ordered either way are equal.
pub proof fn lemma_token_lt_total(a: Token, b: Token)
    ensures
        a == b || token_lt(a, b) || token_lt(b, a),
{
    if token_text(a) == token_text(b) {
        lemma_token_text_injective(a, b);
    } else {
        lemma_str_lt_total(token_text(a), token_text(b));
    }
}

/// `token_lt` is irreflexive and transitive.
pub proof fn lemma_token_lt_facts()
    ensures
        forall|a: Token| !#[trigger] token_lt(a, a),
        forall|a: Token, b: Token, c: Token|
            #[trigger] token_lt(a, b) && #[trigger] token_lt(b, c) ==> token_lt(a, c),
{
    lemma_str_lt_facts();
}

impl Token {
    /// Whether this token comes before `other` in the canonical order.
    pub fn less_than(&self, other: &Token) -> (r: bool)
        ensures
            r == token_lt(*self, *other),
    {
        let a = self.to_text();
        let b = other.to_text();
        str_less(a.as_str(), b.as_str())
    }
}

} // verus!
