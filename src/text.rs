//! Text forms of numbers, tokens, locations and events.

use vstd::prelude::*;
use vstd::string::StringExecFns;
use crate::token::Token;
use crate::event::PetriEvent;
use crate::diagnostic::SpanLike;
use crate::cpn::NotEnabled;

verus! {

pub open spec fn digit_char(d: nat) -> char {
    if d == 0 {
        '0'
    } else if d == 1 {
        '1'
    } else if d == 2 {
        '2'
    } else if d == 3 {
        '3'
    } else if d == 4 {
        '4'
    } else if d == 5 {
        '5'
    } else if d == 6 {
        '6'
    } else if d == 7 {
        '7'
    } else if d == 8 {
        '8'
    } else {
        '9'
    }
}

/// Decimal digits of `n`, without sign or padding.
pub open spec fn decimal(n: nat) -> Seq<char>
    decreases n,
{
    if n < 10 {
        seq![digit_char(n)]
    } else {
        decimal(n / 10).push(digit_char(n % 10))
    }
}

/// What `{:?}` writes for a string: the string quoted, with escapes.
pub uninterp spec fn debug_quoted(s: Seq<char>) -> Seq<char>;

/// Relies on the `Display` of `u64` (through `ToString`): decimal digits, no
/// sign, no padding.
#[verifier::external_body]
fn decimal_text(n: u64) -> (r: String)
    ensures
        r@ == decimal(n as nat),
{
    n.to_string()
}

/// Relies on the `Debug` of `str`: the quoted, escaped form of the string,
/// which depends on its characters alone.
#[verifier::external_body]
fn quoted_text(s: &str) -> (r: String)
    ensures
        r@ == debug_quoted(s@),
{
    format!("{:?}", s)
}

/// Appends the decimal digits of `n`.
pub fn push_decimal(out: &mut String, n: u64)
    ensures
        final(out)@ == old(out)@ + decimal(n as nat),
{
    let d = decimal_text(n);
    out.append(d.as_str());
}

fn push_quoted(out: &mut String, s: &str)
    ensures
        final(out)@ == old(out)@ + debug_quoted(s@),
{
    let q = quoted_text(s);
    out.append(q.as_str());
}

/// How a token is written: `Lock(42)`, `Unit`.
pub open spec fn token_text(t: Token) -> Seq<char> {
    match t {
        Token::Tid(v) => "Tid("@ + decimal(v as nat) + ")"@,
        Token::Lock(v) => "Lock("@ + decimal(v as nat) + ")"@,
        Token::Loc(v) => "Loc("@ + decimal(v as nat) + ")"@,
        Token::Region(v) => "Region("@ + decimal(v as nat) + ")"@,
        Token::Unit => "Unit"@,
    }
}

/// How a location is written: `file:line:column`.
pub open spec fn span_text(s: SpanLike) -> Seq<char> {
    s.file@ + ":"@ + decimal(s.line as nat) + ":"@ + decimal(s.column as nat)
}

/// How an event is written: its variant and fields, as `{:?}` lays them out.
pub open spec fn event_text(e: PetriEvent) -> Seq<char> {
    match e {
        PetriEvent::ThreadSpawn { parent, child } => "ThreadSpawn { parent: "@ + decimal(parent as nat)
            + ", child: "@ + decimal(child as nat) + " }"@,
        PetriEvent::ThreadJoin { joiner, joinee } => "ThreadJoin { joiner: "@ + decimal(joiner as nat)
            + ", joinee: "@ + decimal(joinee as nat) + " }"@,
        PetriEvent::Yield { tid } => "Yield { tid: "@ + decimal(tid as nat) + " }"@,
        PetriEvent::Block { tid, reason } => "Block { tid: "@ + decimal(tid as nat) + ", reason: "@
            + debug_quoted(reason@) + " }"@,
        PetriEvent::Wake { tid } => "Wake { tid: "@ + decimal(tid as nat) + " }"@,
        PetriEvent::LockAcquire { tid, lock_id } => "LockAcquire { tid: "@ + decimal(tid as nat)
            + ", lock_id: "@ + decimal(lock_id as nat) + " }"@,
        PetriEvent::LockRelease { tid, lock_id } => "LockRelease { tid: "@ + decimal(tid as nat)
            + ", lock_id: "@ + decimal(lock_id as nat) + " }"@,
        PetriEvent::AtomicLoad { tid, loc_id, ordering } => "AtomicLoad { tid: "@ + decimal(
            tid as nat,
        ) + ", loc_id: "@ + decimal(loc_id as nat) + ", ordering: "@ + debug_quoted(ordering@)
            + " }"@,
        PetriEvent::AtomicStore { tid, loc_id, ordering } => "AtomicStore { tid: "@ + decimal(
            tid as nat,
        ) + ", loc_id: "@ + decimal(loc_id as nat) + ", ordering: "@ + debug_quoted(ordering@)
            + " }"@,
        PetriEvent::UnsafeRead { tid, region_id, size } => "UnsafeRead { tid: "@ + decimal(
            tid as nat,
        ) + ", region_id: "@ + decimal(region_id as nat) + ", size: "@ + decimal(size as nat)
            + " }"@,
        PetriEvent::UnsafeWrite { tid, region_id, size } => "UnsafeWrite { tid: "@ + decimal(
            tid as nat,
        ) + ", region_id: "@ + decimal(region_id as nat) + ", size: "@ + decimal(size as nat)
            + " }"@,
    }
}

/// Appends the text of a token.
pub fn push_token(out: &mut String, t: &Token)
    ensures
        final(out)@ == old(out)@ + token_text(*t),
{
    let ghost o = out@;
    match t {
        Token::Tid(v) => {
            out.append("Tid(");
            push_decimal(out, *v as u64);
            out.append(")");
        },
        Token::Lock(v) => {
            out.append("Lock(");
            push_decimal(out, *v);
            out.append(")");
        },
        Token::Loc(v) => {
            out.append("Loc(");
            push_decimal(out, *v);
            out.append(")");
        },
        Token::Region(v) => {
            out.append("Region(");
            push_decimal(out, *v);
            out.append(")");
        },
        Token::Unit => {
            out.append("Unit");
        },
    }
    proof {
        assert(out@ =~= o + token_text(*t));
    }
}

impl Token {
    /// The token as text: `Lock(42)`, `Unit`.
    pub fn to_text(&self) -> (r: String)
        ensures
            r@ == token_text(*self),
    {
        let mut s = String::new();
        push_token(&mut s, self);
        proof {
            assert(s@ =~= token_text(*self));
        }
        s
    }
}

impl SpanLike {
    /// The location as text: `file:line:column`.
    pub fn to_text(&self) -> (r: String)
        ensures
            r@ == span_text(*self),
    {
        let mut s = String::new();
        s.append(self.file.as_str());
        s.append(":");
        push_decimal(&mut s, self.line as u64);
        s.append(":");
        push_decimal(&mut s, self.column as u64);
        proof {
            assert(s@ =~= span_text(*self));
        }
        s
    }
}

/// Appends the text of an event.
pub fn push_event(out: &mut String, e: &PetriEvent)
    ensures
        final(out)@ == old(out)@ + event_text(*e),
{
    let ghost o = out@;
    match e {
        PetriEvent::ThreadSpawn { parent, child } => {
            out.append("ThreadSpawn { parent: ");
            push_decimal(out, *parent as u64);
            out.append(", child: ");
            push_decimal(out, *child as u64);
        },
        PetriEvent::ThreadJoin { joiner, joinee } => {
            out.append("ThreadJoin { joiner: ");
            push_decimal(out, *joiner as u64);
            out.append(", joinee: ");
            push_decimal(out, *joinee as u64);
        },
        PetriEvent::Yield { tid } => {
            out.append("Yield { tid: ");
            push_decimal(out, *tid as u64);
        },
        PetriEvent::Block { tid, reason } => {
            out.append("Block { tid: ");
            push_decimal(out, *tid as u64);
            out.append(", reason: ");
            push_quoted(out, reason.as_str());
        },
        PetriEvent::Wake { tid } => {
            out.append("Wake { tid: ");
            push_decimal(out, *tid as u64);
        },
        PetriEvent::LockAcquire { tid, lock_id } => {
            out.append("LockAcquire { tid: ");
            push_decimal(out, *tid as u64);
            out.append(", lock_id: ");
            push_decimal(out, *lock_id);
        },
        PetriEvent::LockRelease { tid, lock_id } => {
            out.append("LockRelease { tid: ");
            push_decimal(out, *tid as u64);
            out.append(", lock_id: ");
            push_decimal(out, *lock_id);
        },
        PetriEvent::AtomicLoad { tid, loc_id, ordering } => {
            out.append("AtomicLoad { tid: ");
            push_decimal(out, *tid as u64);
            out.append(", loc_id: ");
            push_decimal(out, *loc_id);
            out.append(", ordering: ");
            push_quoted(out, ordering.as_str());
        },
        PetriEvent::AtomicStore { tid, loc_id, ordering } => {
            out.append("AtomicStore { tid: ");
            push_decimal(out, *tid as u64);
            out.append(", loc_id: ");
            push_decimal(out, *loc_id);
            out.append(", ordering: ");
            push_quoted(out, ordering.as_str());
        },
        PetriEvent::UnsafeRead { tid, region_id, size } => {
            out.append("UnsafeRead { tid: ");
            push_decimal(out, *tid as u64);
            out.append(", region_id: ");
            push_decimal(out, *region_id);
            out.append(", size: ");
            push_decimal(out, *size);
        },
        PetriEvent::UnsafeWrite { tid, region_id, size } => {
            out.append("UnsafeWrite { tid: ");
            push_decimal(out, *tid as u64);
            out.append(", region_id: ");
            push_decimal(out, *region_id);
            out.append(", size: ");
            push_decimal(out, *size);
        },
    }
    out.append(" }");
    proof {
        assert(out@ =~= o + event_text(*e));
    }
}

/// The pairs of a failed firing, each as ` token in place 'place'`.
pub open spec fn missing_pairs_text(ms: Seq<(Seq<char>, Token)>) -> Seq<char>
    decreases ms.len(),
{
    if ms.len() == 0 {
        Seq::empty()
    } else {
        missing_pairs_text(ms.drop_last()) + " "@ + token_text(ms.last().1) + " in place '"@
            + ms.last().0 + "'"@
    }
}

impl NotEnabled {
    /// The failure as text: the transition, then each missing token and its place.
    pub fn to_text(&self) -> (r: String)
        ensures
            r@ == "Transition "@ + self.transition@ + " not enabled. Missing tokens:"@
                + missing_pairs_text(self.missing_view()),
    {
        let mut s = String::new();
        s.append("Transition ");
        s.append(self.transition.as_str());
        s.append(" not enabled. Missing tokens:");
        let ghost head = s@;
        let ghost mv = self.missing_view();
        let mut i: usize = 0;
        proof {
            assert(mv.subrange(0, 0) =~= Seq::<(Seq<char>, Token)>::empty());
        }
        while i < self.missing.len()
            invariant
                i <= self.missing@.len(),
                mv == self.missing_view(),
                s@ == head + missing_pairs_text(mv.subrange(0, i as int)),
            decreases self.missing@.len() - i,
        {
            let (place, token) = &self.missing[i];
            s.append(" ");
            push_token(&mut s, token);
            s.append(" in place '");
            s.append(place.as_str());
            s.append("'");
            proof {
                let ms = mv.subrange(0, i + 1);
                assert(ms.drop_last() =~= mv.subrange(0, i as int));
                assert(s@ =~= head + missing_pairs_text(ms));
            }
            i = i + 1;
        }
        proof {
            assert(mv.subrange(0, i as int) =~= mv);
        }
        s
    }
}

} // verus!
