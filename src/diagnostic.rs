//! Violation records and their human-readable report.

use vstd::prelude::*;
use crate::token::Token;
use crate::marking::Marking;
use crate::event::PetriEvent;
use crate::cpn::pairs_view;
use crate::multiset::TokenMultiset;
use crate::marking::{names_listing, bag_listing_of, tokens_at, lemma_listing_names, lemma_bag_listing_canonical};
use crate::text::{decimal, token_text, span_text, event_text, push_decimal, push_token, push_event};
use vstd::string::StringExecFns;

verus! {

/// A protocol violation: an event whose transition was not enabled.
#[derive(Debug, Clone)]
pub struct PetriViolation {
    pub event: PetriEvent,
    pub tid: u32,
    pub object_id: Option<u64>,
    pub span: Option<SpanLike>,
    pub missing_tokens: Vec<(String, Token)>,
    pub current_marking: Marking,
}

/// A source location: file, line and column.
#[derive(Debug, Clone)]
pub struct SpanLike {
    pub file: String,
    pub line: u32,
    pub column: u32,
}

impl PetriViolation {
    /// The missing (place, token) pairs.
    pub open spec fn missing_view(&self) -> Seq<(Seq<char>, Token)> {
        pairs_view(self.missing_tokens@)
    }
}

/// The lines that name each missing token and its place.
pub open spec fn missing_text(ms: Seq<(Seq<char>, Token)>) -> Seq<char>
    decreases ms.len(),
{
    if ms.len() == 0 {
        Seq::empty()
    } else {
        missing_text(ms.drop_last()) + "    - "@ + token_text(ms.last().1) + " in place '"@
            + ms.last().0 + "'\n"@
    }
}

pub open spec fn entry_text(e: (Token, usize)) -> Seq<char> {
    token_text(e.0) + " x"@ + decimal(e.1 as nat)
}

/// The entries of a place, `token xcount`, separated by commas.
pub open spec fn entries_text(es: Seq<(Token, usize)>) -> Seq<char>
    decreases es.len(),
{
    if es.len() == 0 {
        Seq::empty()
    } else if es.len() == 1 {
        entry_text(es[0])
    } else {
        entries_text(es.drop_last()) + ", "@ + entry_text(es.last())
    }
}

/// The line of one place, or nothing for an empty place.
pub open spec fn place_text(name: Seq<char>, b: Map<Token, nat>) -> Seq<char> {
    if bag_listing_of(b).len() == 0 {
        Seq::empty()
    } else {
        "    "@ + name + ": ["@ + entries_text(bag_listing_of(b)) + "]\n"@
    }
}

/// The lines of the places `ns` of `m`.
pub open spec fn marking_text(ns: Seq<Seq<char>>, m: Map<Seq<char>, Map<Token, nat>>) -> Seq<char>
    decreases ns.len(),
{
    if ns.len() == 0 {
        Seq::empty()
    } else {
        marking_text(ns.drop_last(), m) + place_text(ns.last(), tokens_at(m, ns.last()))
    }
}

/// The report of a violation.
pub open spec fn violation_text(v: PetriViolation) -> Seq<char> {
    "Petri net protocol violation: transition not enabled\n"@ + "  Event: "@ + event_text(v.event)
        + "\n"@ + "  Thread ID: "@ + decimal(v.tid as nat) + "\n"@ + match v.object_id {
        Some(o) => "  Object ID: "@ + decimal(o as nat) + "\n"@,
        None => Seq::empty(),
    } + match v.span {
        Some(sp) => "  Location: "@ + span_text(sp) + "\n"@,
        None => Seq::empty(),
    } + "  Missing tokens:\n"@ + missing_text(v.missing_view())
        + "  Current marking (key places):\n"@ + marking_text(
        names_listing(v.current_marking@),
        v.current_marking@,
    )
}

/// Renders a violation: the event, thread, object and location, the missing
/// tokens, and every non-empty place of the captured marking in name order.
pub fn format_violation(v: &PetriViolation) -> (r: String)
    requires
        v.current_marking.wf(),
    ensures
        r@ == violation_text(*v),
{
    let mut s = String::new();
    s.append("Petri net protocol violation: transition not enabled\n");
    s.append("  Event: ");
    push_event(&mut s, &v.event);
    s.append("\n");
    s.append("  Thread ID: ");
    push_decimal(&mut s, v.tid as u64);
    s.append("\n");
    if let Some(oid) = v.object_id {
        s.append("  Object ID: ");
        push_decimal(&mut s, oid);
        s.append("\n");
    }
    if let Some(span) = &v.span {
        s.append("  Location: ");
        let t = span.to_text();
        s.append(t.as_str());
        s.append("\n");
    }
    s.append("  Missing tokens:\n");
    let ghost head = s@;
    let ghost mv = v.missing_view();
    let mut i: usize = 0;
    proof {
        assert(mv.subrange(0, 0) =~= Seq::<(Seq<char>, Token)>::empty());
    }
    while i < v.missing_tokens.len()
        invariant
            i <= v.missing_tokens@.len(),
            mv == v.missing_view(),
            s@ == head + missing_text(mv.subrange(0, i as int)),
        decreases v.missing_tokens@.len() - i,
    {
        let (place, token) = &v.missing_tokens[i];
        s.append("    - ");
        push_token(&mut s, token);
        s.append(" in place '");
        s.append(place.as_str());
        s.append("'\n");
        proof {
            let ms = mv.subrange(0, i + 1);
            assert(ms.drop_last() =~= mv.subrange(0, i as int));
            assert(s@ =~= head + missing_text(ms));
        }
        i = i + 1;
    }
    proof {
        assert(mv.subrange(0, i as int) =~= mv);
    }
    s.append("  Current marking (key places):\n");
    let ghost head2 = s@;
    let ghost m = v.current_marking@;
    let places = v.current_marking.iter();
    let ghost ns = places@.map_values(|e: (String, TokenMultiset)| e.0@);
    proof {
        lemma_listing_names(places@, m);
        assert(ns.subrange(0, 0) =~= Seq::<Seq<char>>::empty());
    }
    let mut i: usize = 0;
    while i < places.len()
        invariant
            i <= places@.len(),
            crate::marking::is_place_listing(places@, m),
            ns == places@.map_values(|e: (String, TokenMultiset)| e.0@),
            s@ == head2 + marking_text(ns.subrange(0, i as int), m),
        decreases places@.len() - i,
    {
        let name = &places[i].0;
        proof {
            assert(places@[i as int].1.wf());
        }
        let es = places[i].1.iter();
        let ghost b = places@[i as int].1@;
        let ghost before = s@;
        proof {
            lemma_bag_listing_canonical(es@, b);
            assert(tokens_at(m, ns[i as int]) == b);
        }
        if es.len() > 0 {
            s.append("    ");
            s.append(name.as_str());
            s.append(": [");
            let ghost head3 = s@;
            let mut j: usize = 0;
            proof {
                assert(es@.subrange(0, 0) =~= Seq::<(Token, usize)>::empty());
            }
            while j < es.len()
                invariant
                    j <= es@.len(),
                    s@ == head3 + entries_text(es@.subrange(0, j as int)),
                decreases es@.len() - j,
            {
                if j > 0 {
                    s.append(", ");
                }
                let (t, c) = es[j];
                push_token(&mut s, &t);
                s.append(" x");
                push_decimal(&mut s, c as u64);
                proof {
                    let e = es@.subrange(0, j + 1);
                    assert(e.drop_last() =~= es@.subrange(0, j as int));
                    assert(s@ =~= head3 + entries_text(e));
                }
                j = j + 1;
            }
            proof {
                assert(es@.subrange(0, j as int) =~= es@);
            }
            s.append("]\n");
        }
        proof {
            let n2 = ns.subrange(0, i + 1);
            assert(n2.drop_last() =~= ns.subrange(0, i as int));
            assert(s@ =~= head2 + marking_text(n2, m));
        }
        i = i + 1;
    }
    proof {
        assert(ns.subrange(0, i as int) =~= ns);
        assert(s@ =~= violation_text(*v));
    }
    s
}

} // verus!
