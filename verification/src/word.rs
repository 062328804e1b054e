//! Parts of speech and the etymology records attached to exported words.

use vstd::prelude::*;
use vstd::string::StrSliceExecFns;
use vstd::string::StringExecFns;

verus! {

broadcast use vstd::string::group_string_axioms;

/// The parts of speech a lexis can carry.
#[derive(Debug, Clone, Copy, PartialEq, Eq, Structural)]
pub enum PartOfSpeech {
    Noun,
    Verb,
    Adjective,
}

/// The ASCII code of the character with an upper-case letter lowered.
pub open spec fn lower_u(c: char) -> int {
    if 65 <= c as u32 <= 90 {
        c as u32 + 32
    } else {
        c as u32 as int
    }
}

/// ASCII-case-insensitive equality of two character sequences.
pub open spec fn eq_ignore_ascii_case(a: Seq<char>, b: Seq<char>) -> bool {
    a.len() == b.len() && forall|i: int| 0 <= i < a.len() ==> lower_u(#[trigger] a[i]) == lower_u(
        b[i],
    )
}

/// The part of speech a string names, ignoring ASCII case: "noun",
/// "verb", "adjective" or "adj"; anything else names none.
pub open spec fn parse_pos_spec(s: Seq<char>) -> Option<PartOfSpeech> {
    if eq_ignore_ascii_case(s, seq!['n', 'o', 'u', 'n']) {
        Some(PartOfSpeech::Noun)
    } else if eq_ignore_ascii_case(s, seq!['v', 'e', 'r', 'b']) {
        Some(PartOfSpeech::Verb)
    } else if eq_ignore_ascii_case(s, seq!['a', 'd', 'j', 'e', 'c', 't', 'i', 'v', 'e'])
        || eq_ignore_ascii_case(s, seq!['a', 'd', 'j']) {
        Some(PartOfSpeech::Adjective)
    } else {
        None
    }
}

/// The capitalised variant name of a part of speech, as debugging
/// output writes it.
pub open spec fn pos_variant_name(p: PartOfSpeech) -> Seq<char> {
    match p {
        PartOfSpeech::Noun => seq!['N', 'o', 'u', 'n'],
        PartOfSpeech::Verb => seq!['V', 'e', 'r', 'b'],
        PartOfSpeech::Adjective => seq!['A', 'd', 'j', 'e', 'c', 't', 'i', 'v', 'e'],
    }
}

/// The display name of a part of speech.
pub open spec fn pos_name(p: PartOfSpeech) -> Seq<char> {
    match p {
        PartOfSpeech::Noun => seq!['n', 'o', 'u', 'n'],
        PartOfSpeech::Verb => seq!['v', 'e', 'r', 'b'],
        PartOfSpeech::Adjective => seq!['a', 'd', 'j', 'e', 'c', 't', 'i', 'v', 'e'],
    }
}

/// ASCII-case-insensitive equality of two strings.
fn eq_ignore_case_exec(a: &str, b: &str) -> (r: bool)
    ensures
        r == eq_ignore_ascii_case(a@, b@),
{
    let alen = a.unicode_len();
    let blen = b.unicode_len();
    if alen != blen {
        return false;
    }
    let mut i: usize = 0;
    while i < alen
        invariant
            alen == a@.len(),
            alen == b@.len(),
            0 <= i <= alen,
            forall|j: int| 0 <= j < i ==> lower_u(#[trigger] a@[j]) == lower_u(b@[j]),
        decreases alen - i,
    {
        let ca = a.get_char(i) as u32;
        let cb = b.get_char(i) as u32;
        let la = if 65 <= ca && ca <= 90 {
            ca + 32
        } else {
            ca
        };
        let lb = if 65 <= cb && cb <= 90 {
            cb + 32
        } else {
            cb
        };
        if la != lb {
            return false;
        }
        i += 1;
    }
    true
}

impl PartOfSpeech {
    /// Reads a part of speech from its name, ignoring ASCII case.
    pub fn parse(s: &str) -> (r: Result<PartOfSpeech, crate::errors::POSFromError>)
        ensures
            match r {
                Ok(p) => parse_pos_spec(s@) == Some(p),
                Err(_) => parse_pos_spec(s@) is None,
            },
    {
        proof {
            reveal_strlit("noun");
            reveal_strlit("verb");
            reveal_strlit("adjective");
            reveal_strlit("adj");
            assert("noun"@ =~= seq!['n', 'o', 'u', 'n']);
            assert("verb"@ =~= seq!['v', 'e', 'r', 'b']);
            assert("adjective"@ =~= seq!['a', 'd', 'j', 'e', 'c', 't', 'i', 'v', 'e']);
            assert("adj"@ =~= seq!['a', 'd', 'j']);
        }
        if eq_ignore_case_exec(s, "noun") {
            Ok(PartOfSpeech::Noun)
        } else if eq_ignore_case_exec(s, "verb") {
            Ok(PartOfSpeech::Verb)
        } else if eq_ignore_case_exec(s, "adjective") || eq_ignore_case_exec(s, "adj") {
            Ok(PartOfSpeech::Adjective)
        } else {
            Err(crate::errors::POSFromError { found: s.to_owned() })
        }
    }

    /// The capitalised variant name, as debugging output writes it.
    pub fn variant_name(&self) -> (r: String)
        ensures
            r@ == pos_variant_name(*self),
    {
        proof {
            reveal_strlit("Noun");
            reveal_strlit("Verb");
            reveal_strlit("Adjective");
        }
        let r = match self {
            PartOfSpeech::Noun => "Noun",
            PartOfSpeech::Verb => "Verb",
            PartOfSpeech::Adjective => "Adjective",
        };
        proof {
            assert(r@ =~= pos_variant_name(*self));
        }
        r.to_owned()
    }

    /// The display name: "noun", "verb" or "adjective".
    pub fn to_string(&self) -> (r: String)
        ensures
            r@ == pos_name(*self),
    {
        proof {
            reveal_strlit("noun");
            reveal_strlit("verb");
            reveal_strlit("adjective");
        }
        let r = match self {
            PartOfSpeech::Noun => "noun",
            PartOfSpeech::Verb => "verb",
            PartOfSpeech::Adjective => "adjective",
        };
        proof {
            assert(r@ =~= pos_name(*self));
        }
        r.to_owned()
    }
}

/// The edge of the tree graph as exported: the upstream word's id, the
/// names of the transforms along the edge, and the agglutination order.
#[derive(Debug, Clone, PartialEq, Default)]
pub struct Edge {
    pub etymon: String,
    pub transforms: Option<Vec<String>>,
    pub agglutination_order: Option<i32>,
}

/// The etymology of an exported lexis: one record for each etymon.
#[derive(Debug, Clone, PartialEq)]
pub struct Etymology {
    pub etymons: Vec<Edge>,
}

} // verus!
