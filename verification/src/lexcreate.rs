//! Phonotactics: letter groupings and rules that, taken together, can
//! generate random words matching a language's phonetics.

use vstd::prelude::*;
use vstd::string::StrSliceExecFns;
use rand::RngExt;

use crate::errors::PhoneticParsingError;
use crate::lemma::{tok_ok, Lemma};
use crate::text::str_eq;

verus! {

broadcast use vstd::string::group_string_axioms;

/// Is the character an upper-case letter, by its Unicode property?
pub uninterp spec fn is_uppercase_char(c: char) -> bool;

/// Relies on char::is_uppercase: the Unicode upper-case property, which
/// on ASCII holds exactly of the letters A through Z.
#[verifier::external_body]
fn char_is_uppercase(c: char) -> (r: bool)
    ensures
        r == is_uppercase_char(c),
        (c as u32) < 128 ==> r == (65 <= c as u32 <= 90),
{
    c.is_uppercase()
}

/// Relies on rand's random_range over a thread-local generator: some
/// index below the bound; nothing more is promised of a random value.
#[verifier::external_body]
fn pick_index(n: usize) -> (r: usize)
    requires
        n > 0,
    ensures
        r < n,
{
    rand::rng().random_range(0..n)
}

/// One token of a phonetic rule: a terminal phoneme, or an upper-case
/// reference into the letter groups.
#[derive(Debug, Clone, PartialEq)]
pub enum CreateValue {
    Phoneme(String),
    Reference(char),
}

/// A single phonetic rule: a sequence of phonemes and group references
/// that expands into a word.
#[derive(Debug, Clone, PartialEq, Default)]
pub struct PhoneticReference(pub Vec<CreateValue>);

/// How many characters of the sequence are upper-case letters.
pub open spec fn upper_count(s: Seq<char>) -> int
    decreases s.len(),
{
    if s.len() == 0 {
        0int
    } else {
        (if is_uppercase_char(s[0]) {
            1int
        } else {
            0int
        }) + upper_count(s.skip(1))
    }
}

/// Is the token one single-byte upper-case letter, the shape of a group
/// reference?
pub open spec fn cv_is_ref(s: Seq<char>) -> bool {
    s.len() == 1 && (s[0] as u32) < 128 && is_uppercase_char(s[0])
}

/// A token parses as a group reference when it is one single-byte
/// upper-case letter, and as a phoneme when it holds no upper-case
/// letter at all; anything else is rejected.
pub open spec fn cv_ok(s: Seq<char>) -> bool {
    cv_is_ref(s) || upper_count(s) == 0
}

/// The value a token parses to, where it parses at all.
pub open spec fn cv_value_matches(cv: CreateValue, s: Seq<char>) -> bool {
    if cv_is_ref(s) {
        cv == CreateValue::Reference(s[0])
    } else {
        cv matches CreateValue::Phoneme(p) && p@ == s
    }
}

/// The value a single character converts to: an upper-case letter is a
/// group reference, anything else a literal phoneme.
pub open spec fn cv_char_matches(cv: CreateValue, c: char) -> bool {
    if is_uppercase_char(c) {
        cv == CreateValue::Reference(c)
    } else {
        cv matches CreateValue::Phoneme(p) && p@ == seq![c]
    }
}

impl CreateValue {
    /// Parses one whitespace-separated token of a phonetic rule.
    pub fn parse(s: &str) -> (r: Result<CreateValue, PhoneticParsingError>)
        ensures
            match r {
                Ok(cv) => cv_ok(s@) && cv_value_matches(cv, s@),
                Err(_) => !cv_ok(s@),
            },
    {
        let n = s.unicode_len();
        let mut upp: usize = 0;
        let mut i: usize = 0;
        proof {
            assert(s@.skip(0) =~= s@);
        }
        while i < n
            invariant
                n == s@.len(),
                0 <= i <= n,
                upp <= i,
                upper_count(s@) == upp + upper_count(s@.skip(i as int)),
            decreases n - i,
        {
            proof {
                assert(s@.skip(i as int)[0] == s@[i as int]);
                assert(s@.skip(i as int).skip(1) =~= s@.skip(i as int + 1));
            }
            if char_is_uppercase(s.get_char(i)) {
                upp += 1;
            }
            i += 1;
        }
        proof {
            assert(s@.skip(i as int) =~= Seq::<char>::empty());
        }
        if n == 1 && upp == 1 && (s.get_char(0) as u32) < 128 {
            let c = s.get_char(0);
            proof {
                assert(s@.skip(1) =~= Seq::<char>::empty());
                assert(upper_count(s@) == upp);
                assert(is_uppercase_char(s@[0]));
            }
            Ok(CreateValue::Reference(c))
        } else if upp == 0 {
            Ok(CreateValue::Phoneme(s.to_owned()))
        } else {
            Err(
                PhoneticParsingError {
                    msg: "a reference can only be one upper-case character, or an all lowercase phonetic rule",
                    found: s.to_owned(),
                },
            )
        }
    }

    /// Converts one character of a compact phonetic rule: an upper-case
    /// letter is a group reference, anything else a literal phoneme.
    pub fn from_char(c: char) -> (r: CreateValue)
        ensures
            cv_char_matches(r, c),
    {
        if char_is_uppercase(c) {
            CreateValue::Reference(c)
        } else {
            let mut tok = String::new();
            tok.push(c);
            proof {
                assert(tok@ =~= seq![c]);
            }
            CreateValue::Phoneme(tok)
        }
    }
}

/// How many characters of the sequence are the space character.
pub open spec fn space_count(s: Seq<char>) -> int
    decreases s.len(),
{
    if s.len() == 0 {
        0int
    } else {
        (if s[0] == ' ' {
            1int
        } else {
            0int
        }) + space_count(s.skip(1))
    }
}

/// The sequence split on runs of spaces, empty pieces dropped.
pub open spec fn split_spaces(s: Seq<char>) -> Seq<Seq<char>>
    decreases s.len(),
    via split_spaces_decreases
{
    if s.len() == 0 {
        Seq::empty()
    } else {
        let i = crate::text::find_sub(s, seq![' ']);
        if i < 0 {
            seq![s]
        } else {
            let head = s.take(i);
            let rest = split_spaces(s.skip(i + 1));
            if head.len() > 0 {
                seq![head] + rest
            } else {
                rest
            }
        }
    }
}

#[via_fn]
proof fn split_spaces_decreases(s: Seq<char>) {
    crate::text::lemma_find_sub_props(s, seq![' ']);
}

/// A written rule parses in one of two ways: with at most one space it
/// is read character by character, with two or more spaces it is read as
/// space-separated tokens (needed when a phoneme itself has several
/// characters).
pub open spec fn pr_spaced(s: Seq<char>) -> bool {
    space_count(s) > 1
}

/// The parsed rule's values, related position by position to the text.
pub open spec fn pr_value_matches(pr: &PhoneticReference, s: Seq<char>) -> bool {
    if pr_spaced(s) {
        &&& pr.0@.len() == split_spaces(s).len()
        &&& forall|i: int|
            0 <= i < pr.0@.len() ==> cv_value_matches(#[trigger] pr.0@[i], split_spaces(s)[i])
    } else {
        &&& pr.0@.len() == s.len()
        &&& forall|i: int| 0 <= i < pr.0@.len() ==> cv_char_matches(#[trigger] pr.0@[i], s[i])
    }
}

/// Does the whole rule text parse?
pub open spec fn pr_ok(s: Seq<char>) -> bool {
    pr_spaced(s) ==> forall|i: int|
        0 <= i < split_spaces(s).len() ==> cv_ok(#[trigger] split_spaces(s)[i])
}

/// How many spaces does the string hold?
fn count_spaces(s: &str) -> (r: usize)
    ensures
        r == space_count(s@),
{
    let n = s.unicode_len();
    let mut cnt: usize = 0;
    let mut i: usize = 0;
    proof {
        assert(s@.skip(0) =~= s@);
    }
    while i < n
        invariant
            n == s@.len(),
            0 <= i <= n,
            cnt <= i,
            space_count(s@) == cnt + space_count(s@.skip(i as int)),
        decreases n - i,
    {
        proof {
            assert(s@.skip(i as int)[0] == s@[i as int]);
            assert(s@.skip(i as int).skip(1) =~= s@.skip(i as int + 1));
        }
        if s.get_char(i) == ' ' {
            cnt += 1;
        }
        i += 1;
    }
    proof {
        assert(s@.skip(i as int) =~= Seq::<char>::empty());
    }
    cnt
}

/// Splits a string on runs of spaces, dropping empty pieces.
fn split_spaces_exec(s: &str) -> (r: Vec<String>)
    ensures
        r.deep_view() == split_spaces(s@),
    decreases s@.len(),
{
    proof {
        crate::text::lemma_find_sub_props(s@, seq![' ']);
    }
    let slen = s.unicode_len();
    if slen == 0 {
        let r: Vec<String> = Vec::new();
        assert(r.deep_view() =~= split_spaces(s@));
        return r;
    }
    let space = " ";
    proof {
        reveal_strlit(" ");
        assert(space@ =~= seq![' ']);
    }
    match crate::text::find_sub_exec(s, space) {
        None => {
            let mut r: Vec<String> = Vec::new();
            r.push(s.to_owned());
            proof {
                assert(r.deep_view() =~= seq![s@]);
            }
            r
        },
        Some(i) => {
            let head = s.substring_char(0, i);
            let rest = s.substring_char(i + 1, slen);
            proof {
                assert(head@ =~= s@.take(i as int));
                assert(rest@ =~= s@.skip(i as int + 1));
            }
            let mut tail = split_spaces_exec(rest);
            if i > 0 {
                let mut r: Vec<String> = Vec::new();
                r.push(head.to_owned());
                let ghost tail_view = tail.deep_view();
                r.append(&mut tail);
                proof {
                    assert(r.deep_view() =~= seq![s@.take(i as int)] + tail_view);
                }
                r
            } else {
                tail
            }
        },
    }
}

impl PhoneticReference {
    /// Parses a written phonetic rule, compact or space-separated.
    pub fn parse(s: &str) -> (r: Result<PhoneticReference, PhoneticParsingError>)
        ensures
            match r {
                Ok(pr) => pr_ok(s@) && pr_value_matches(&pr, s@),
                Err(_) => !pr_ok(s@),
            },
    {
        let mut phon_vec: Vec<CreateValue> = Vec::new();
        if count_spaces(s) > 1 {
            let toks = split_spaces_exec(s);
            let mut i: usize = 0;
            while i < toks.len()
                invariant
                    toks.deep_view() == split_spaces(s@),
                    toks.deep_view().len() == toks.len(),
                    0 <= i <= toks.len(),
                    pr_spaced(s@),
                    phon_vec@.len() == i,
                    forall|j: int| 0 <= j < i ==> cv_ok(#[trigger] split_spaces(s@)[j]),
                    forall|j: int|
                        0 <= j < i ==> cv_value_matches(
                            #[trigger] phon_vec@[j],
                            split_spaces(s@)[j],
                        ),
                decreases toks.len() - i,
            {
                match CreateValue::parse(toks[i].as_str()) {
                    Ok(cv) => {
                        phon_vec.push(cv);
                    },
                    Err(e) => {
                        assert(!cv_ok(split_spaces(s@)[i as int]));
                        return Err(e);
                    },
                }
                i += 1;
            }
            Ok(PhoneticReference(phon_vec))
        } else {
            let n = s.unicode_len();
            let mut i: usize = 0;
            while i < n
                invariant
                    n == s@.len(),
                    0 <= i <= n,
                    !pr_spaced(s@),
                    phon_vec@.len() == i,
                    forall|j: int| 0 <= j < i ==> cv_char_matches(#[trigger] phon_vec@[j], s@[j]),
                decreases n - i,
            {
                phon_vec.push(CreateValue::from_char(s.get_char(i)));
                i += 1;
            }
            Ok(PhoneticReference(phon_vec))
        }
    }
}

/// Phonological groupings: upper-case letter groups, and named rule sets
/// that the `word_create` field of a lexis can point at.
#[derive(Debug, Clone, PartialEq, Default)]
pub struct LexPhonology {
    /// Letter groups: each upper-case key names a list of alternatives a
    /// reference to it may expand to.
    pub groups: Vec<(char, Vec<PhoneticReference>)>,
    /// Named rule sets: each key names the list of alternatives a word
    /// of that kind is generated from.
    pub lexis_types: Vec<(String, Vec<PhoneticReference>)>,
}

/// The alternatives a group letter names, by first match.
pub open spec fn find_group(
    groups: Seq<(char, Vec<PhoneticReference>)>,
    k: char,
) -> Option<Vec<PhoneticReference>>
    decreases groups.len(),
{
    if groups.len() == 0 {
        None
    } else if groups[0].0 == k {
        Some(groups[0].1)
    } else {
        find_group(groups.skip(1), k)
    }
}

/// The alternatives a lexis-type key names, by first match.
pub open spec fn find_type(
    types: Seq<(String, Vec<PhoneticReference>)>,
    k: Seq<char>,
) -> Option<Vec<PhoneticReference>>
    decreases types.len(),
{
    if types.len() == 0 {
        None
    } else if types[0].0@ == k {
        Some(types[0].1)
    } else {
        find_type(types.skip(1), k)
    }
}

/// Is the token one of the terminal phonemes written in the rule?
pub open spec fn tok_from_pref(pr: &PhoneticReference, t: Seq<char>) -> bool {
    exists|i: int|
        0 <= i < pr.0@.len() && ((#[trigger] pr.0@[i]) matches CreateValue::Phoneme(p) && p@ == t)
}

/// Is the token one of the terminal phonemes written anywhere in the
/// letter groups?
pub open spec fn tok_from_groups(groups: Seq<(char, Vec<PhoneticReference>)>, t: Seq<char>) -> bool {
    exists|i: int, j: int|
        0 <= i < groups.len() && 0 <= j < groups[i].1@.len() && tok_from_pref(
            &(#[trigger] groups[i].1@[j]),
            t,
        )
}

/// Is the token a terminal phoneme of one of the alternatives?
pub open spec fn tok_from_alts(alts: &Vec<PhoneticReference>, t: Seq<char>) -> bool {
    exists|a: int| 0 <= a < alts@.len() && tok_from_pref(&(#[trigger] alts@[a]), t)
}

/// A rule of terminal phonemes only, at least one of them an acceptable
/// letter: expanding it can never fail, whatever the random picks.
pub open spec fn pref_sure(pr: &PhoneticReference) -> bool {
    &&& forall|i: int| 0 <= i < pr.0@.len() ==> (#[trigger] pr.0@[i]) is Phoneme
    &&& exists|i: int|
        0 <= i < pr.0@.len() && ((#[trigger] pr.0@[i]) matches CreateValue::Phoneme(p)
            && crate::lemma::tok_ok(p@))
}

/// A rule holding a reference to a group that is missing or empty:
/// expanding it always collapses to nothing.
pub open spec fn pref_blocked(pr: &PhoneticReference, groups: Seq<(char, Vec<PhoneticReference>)>) -> bool {
    exists|i: int|
        0 <= i < pr.0@.len() && ((#[trigger] pr.0@[i]) matches CreateValue::Reference(c) && match
            find_group(groups, c) {
            Some(v) => v@.len() == 0,
            None => true,
        })
}

/// The tokens that expanding a list of rule entries can yield: each
/// entry contributes a consecutive slice of the word, in order.
pub open spec fn expansion_of(
    groups: Seq<(char, Vec<PhoneticReference>)>,
    entries: Seq<CreateValue>,
    w: Seq<Seq<char>>,
    fuel: nat,
) -> bool
    decreases fuel, entries.len(), 1int,
{
    if entries.len() == 0 {
        w.len() == 0
    } else {
        exists|k: int|
            0 <= k <= w.len() && expands_value(groups, entries[0], #[trigger] w.take(k), fuel)
                && expansion_of(groups, entries.skip(1), w.skip(k), fuel)
    }
}

/// The tokens that one rule entry can yield: a phoneme stands for
/// itself (dropped when unacceptable as a token), a reference for a
/// non-empty expansion of one alternative of its group.
pub open spec fn expands_value(
    groups: Seq<(char, Vec<PhoneticReference>)>,
    e: CreateValue,
    w: Seq<Seq<char>>,
    fuel: nat,
) -> bool
    decreases fuel, 0int, 0int,
{
    match e {
        CreateValue::Phoneme(p) => w == if crate::lemma::tok_ok(p@) {
            seq![p@]
        } else {
            Seq::<Seq<char>>::empty()
        },
        CreateValue::Reference(c) => fuel > 0 && match find_group(groups, c) {
            Some(alts) => w.len() > 0 && exists|a: int|
                0 <= a < alts@.len() && expansion_of(
                    groups,
                    (#[trigger] alts@[a]).0@,
                    w,
                    (fuel - 1) as nat,
                ),
            None => false,
        },
    }
}

/// Appending what one more entry yields extends an expansion.
proof fn lemma_expansion_append(
    groups: Seq<(char, Vec<PhoneticReference>)>,
    entries: Seq<CreateValue>,
    w: Seq<Seq<char>>,
    e: CreateValue,
    part: Seq<Seq<char>>,
    fuel: nat,
)
    requires
        expansion_of(groups, entries, w, fuel),
        expands_value(groups, e, part, fuel),
    ensures
        expansion_of(groups, entries.push(e), w + part, fuel),
    decreases entries.len(),
{
    let whole = w + part;
    let grown = entries.push(e);
    if entries.len() == 0 {
        assert(whole.take(part.len() as int) =~= part);
        assert(whole.skip(part.len() as int) =~= Seq::<Seq<char>>::empty());
        assert(grown.skip(1) =~= Seq::<CreateValue>::empty());
        assert(expands_value(groups, grown[0], whole.take(part.len() as int), fuel));
        assert(expansion_of(groups, grown.skip(1), whole.skip(part.len() as int), fuel));
        assert(0 <= part.len() as int <= whole.len());
        assert(expansion_of(groups, grown, whole, fuel));
    } else {
        let k = choose|k: int|
            0 <= k <= w.len() && expands_value(groups, entries[0], #[trigger] w.take(k), fuel)
                && expansion_of(groups, entries.skip(1), w.skip(k), fuel);
        lemma_expansion_append(groups, entries.skip(1), w.skip(k), e, part, fuel);
        assert(grown.skip(1) =~= entries.skip(1).push(e));
        assert(whole.take(k) =~= w.take(k));
        assert(whole.skip(k) =~= w.skip(k) + part);
        assert(expands_value(groups, grown[0], whole.take(k), fuel));
        assert(expansion_of(groups, grown.skip(1), whole.skip(k), fuel));
        assert(0 <= k <= whole.len());
        assert(expansion_of(groups, grown, whole, fuel));
    }
}

/// How deep a chain of group references may reach before generation
/// gives up.
pub const MAX_RESOLVE_DEPTH: usize = 64;

impl LexPhonology {
    /// Expands one rule: phonemes are appended as they stand, references
    /// pick a random alternative from their group and recurse. A
    /// reference that resolves to nothing collapses the whole attempt.
    /// Every token of a produced word is a terminal phoneme of the rule
    /// itself or of some letter group.
    fn resolve_ref(&self, pref: &PhoneticReference, fuel: usize) -> (r: Option<Lemma>)
        ensures
            match r {
                Some(l) => l@.len() > 0 && forall|t: int|
                    0 <= t < l@.len() ==> tok_from_pref(pref, #[trigger] l@[t]) || tok_from_groups(
                        self.groups@,
                        l@[t],
                    ),
                None => true,
            },
            pref_sure(pref) ==> r is Some,
            pref_blocked(pref, self.groups@) ==> r is None,
            r matches Some(l) ==> expansion_of(self.groups@, pref.0@, l@, fuel as nat),
        decreases fuel,
    {
        proof {
            assert(pref.0@.take(0) =~= Seq::<CreateValue>::empty());
        }
        let mut acc = Lemma::default();
        let mut i: usize = 0;
        while i < pref.0.len()
            invariant
                0 <= i <= pref.0.len(),
                forall|t: int|
                    0 <= t < acc@.len() ==> tok_from_pref(pref, #[trigger] acc@[t])
                        || tok_from_groups(self.groups@, acc@[t]),
                (exists|j: int|
                    0 <= j < i && ((#[trigger] pref.0@[j]) matches CreateValue::Phoneme(p)
                        && crate::lemma::tok_ok(p@))) ==> acc@.len() > 0,
                pref_blocked(pref, self.groups@) ==> exists|j: int|
                    i <= j < pref.0@.len() && ((#[trigger] pref.0@[j]) matches
                        CreateValue::Reference(c) && match find_group(self.groups@, c) {
                        Some(v) => v@.len() == 0,
                        None => true,
                    }),
                expansion_of(self.groups@, pref.0@.take(i as int), acc@, fuel as nat),
            decreases pref.0.len() - i,
        {
            match &pref.0[i] {
                CreateValue::Phoneme(p) => {
                    let ghost before = acc@;
                    acc.push_char(p.as_str());
                    proof {
                        let part = if tok_ok(p@) {
                            seq![p@]
                        } else {
                            Seq::<Seq<char>>::empty()
                        };
                        if tok_ok(p@) {
                            assert(pref.0@[i as int] matches CreateValue::Phoneme(q) && q@ == p@);
                            assert(tok_from_pref(pref, p@));
                            assert(acc@ =~= before + part);
                        } else {
                            assert(acc@ =~= before + part);
                        }
                        assert(expands_value(
                            self.groups@,
                            pref.0@[i as int],
                            part,
                            fuel as nat,
                        ));
                        lemma_expansion_append(
                            self.groups@,
                            pref.0@.take(i as int),
                            before,
                            pref.0@[i as int],
                            part,
                            fuel as nat,
                        );
                        assert(pref.0@.take(i as int).push(pref.0@[i as int]) =~= pref.0@.take(
                            i as int + 1,
                        ));
                    }
                },
                CreateValue::Reference(single_ref) => {
                    if fuel == 0 {
                        return None;
                    }
                    let found = self.lookup_group(*single_ref);
                    match found {
                        None => {
                            return None;
                        },
                        Some(alts) => {
                            if alts.len() == 0 {
                                return None;
                            }
                            let pick = pick_index(alts.len());
                            let sub = self.resolve_ref(&alts[pick], fuel - 1);
                            match sub {
                                None => {
                                    return None;
                                },
                                Some(part) => {
                                    let ghost part_view = part@;
                                    let ghost before = acc@;
                                    proof {
                                        lemma_find_group_member(self.groups@, *single_ref);
                                        assert(forall|t: int|
                                            0 <= t < part_view.len() ==> tok_from_pref(
                                                &alts@[pick as int],
                                                #[trigger] part_view[t],
                                            ) || tok_from_groups(self.groups@, part_view[t]));
                                    }
                                    acc.push(part);
                                    proof {
                                        assert(expansion_of(
                                            self.groups@,
                                            alts@[pick as int].0@,
                                            part_view,
                                            (fuel - 1) as nat,
                                        ));
                                        assert(expands_value(
                                            self.groups@,
                                            pref.0@[i as int],
                                            part_view,
                                            fuel as nat,
                                        ));
                                        lemma_expansion_append(
                                            self.groups@,
                                            pref.0@.take(i as int),
                                            before,
                                            pref.0@[i as int],
                                            part_view,
                                            fuel as nat,
                                        );
                                        assert(pref.0@.take(i as int).push(
                                            pref.0@[i as int],
                                        ) =~= pref.0@.take(i as int + 1));
                                    }
                                },
                            }
                        },
                    }
                },
            }
            i += 1;
        }
        proof {
            assert(pref.0@.take(pref.0@.len() as int) =~= pref.0@);
        }
        if acc.is_empty() {
            // an empty expansion is reported as no word at all
            None
        } else {
            Some(acc)
        }
    }

    /// The alternatives of the group named by the letter.
    fn lookup_group(&self, k: char) -> (r: Option<&Vec<PhoneticReference>>)
        ensures
            match r {
                Some(v) => find_group(self.groups@, k) == Some(*v),
                None => find_group(self.groups@, k) is None,
            },
    {
        let ghost g = self.groups@;
        let mut i: usize = 0;
        proof {
            assert(g.skip(0) =~= g);
        }
        while i < self.groups.len()
            invariant
                g == self.groups@,
                g.len() == self.groups.len(),
                0 <= i <= self.groups.len(),
                find_group(g, k) == find_group(g.skip(i as int), k),
            decreases self.groups.len() - i,
        {
            proof {
                assert(g.skip(i as int)[0] == g[i as int]);
                assert(g.skip(i as int).skip(1) =~= g.skip(i as int + 1));
            }
            if self.groups[i].0 == k {
                return Some(&self.groups[i].1);
            }
            i += 1;
        }
        proof {
            assert(g.skip(i as int) =~= Seq::<(char, Vec<PhoneticReference>)>::empty());
        }
        None
    }

    /// The alternatives of the named lexis type.
    fn lookup_type(&self, k: &str) -> (r: Option<&Vec<PhoneticReference>>)
        ensures
            match r {
                Some(v) => find_type(self.lexis_types@, k@) == Some(*v),
                None => find_type(self.lexis_types@, k@) is None,
            },
    {
        let ghost g = self.lexis_types@;
        let mut i: usize = 0;
        proof {
            assert(g.skip(0) =~= g);
        }
        while i < self.lexis_types.len()
            invariant
                g == self.lexis_types@,
                g.len() == self.lexis_types.len(),
                0 <= i <= self.lexis_types.len(),
                find_type(g, k@) == find_type(g.skip(i as int), k@),
            decreases self.lexis_types.len() - i,
        {
            proof {
                assert(g.skip(i as int)[0] == g[i as int]);
                assert(g.skip(i as int).skip(1) =~= g.skip(i as int + 1));
            }
            if str_eq(self.lexis_types[i].0.as_str(), k) {
                return Some(&self.lexis_types[i].1);
            }
            i += 1;
        }
        proof {
            assert(g.skip(i as int) =~= Seq::<(String, Vec<PhoneticReference>)>::empty());
        }
        None
    }

    /// Creates a new random word from the rule set the key names. An
    /// unknown key, a failed expansion or an empty expansion yields no
    /// word; a produced word is non-empty and every token of it is a
    /// terminal phoneme of the rules or of the letter groups.
    #[verifier::rlimit(100)]
    #[verifier::spinoff_prover]
    pub fn create_word(&self, lexis_type: &str) -> (r: Option<Lemma>)
        ensures
            find_type(self.lexis_types@, lexis_type@) is None ==> r is None,
            match (r, find_type(self.lexis_types@, lexis_type@)) {
                (Some(l), Some(alts)) => l@.len() > 0 && forall|t: int|
                    0 <= t < l@.len() ==> tok_from_alts(&alts, #[trigger] l@[t])
                        || tok_from_groups(self.groups@, l@[t]),
                (Some(_), None) => false,
                _ => true,
            },
            r matches Some(l) ==> (find_type(self.lexis_types@, lexis_type@) matches Some(alts)
                && exists|a: int|
                0 <= a < alts@.len() && expansion_of(
                    self.groups@,
                    (#[trigger] alts@[a]).0@,
                    l@,
                    MAX_RESOLVE_DEPTH as nat,
                )),
            find_type(self.lexis_types@, lexis_type@) matches Some(alts) ==> {
                &&& (alts@.len() == 0 ==> r is None)
                &&& ((alts@.len() > 0 && forall|a: int|
                    0 <= a < alts@.len() ==> pref_sure(&(#[trigger] alts@[a]))) ==> r is Some)
                &&& ((forall|a: int|
                    0 <= a < alts@.len() ==> pref_blocked(&(#[trigger] alts@[a]), self.groups@))
                    ==> r is None)
            },
    {
        match self.lookup_type(lexis_type) {
            None => None,
            Some(alts) => {
                if alts.len() == 0 {
                    return None;
                }
                let pick = pick_index(alts.len());
                let ghost ft = find_type(self.lexis_types@, lexis_type@);
                match self.resolve_ref(&alts[pick], MAX_RESOLVE_DEPTH) {
                    None => {
                        proof {
                            match ft {
                                Some(a2) => {
                                    assert(a2 == *alts);
                                    if a2@.len() > 0 && forall|a: int|
                                        0 <= a < a2@.len() ==> pref_sure(&(#[trigger] a2@[a])) {
                                        assert(pref_sure(&a2@[pick as int]));
                                        assert(pref_sure(&alts@[pick as int]));
                                        assert(false);
                                    }
                                },
                                None => {},
                            }
                        }
                        None
                    },
                    Some(l) => {
                        proof {
                            assert(expansion_of(
                                self.groups@,
                                alts@[pick as int].0@,
                                l@,
                                MAX_RESOLVE_DEPTH as nat,
                            ));
                            assert(forall|t: int|
                                0 <= t < l@.len() && tok_from_pref(
                                    &alts@[pick as int],
                                    #[trigger] l@[t],
                                ) ==> tok_from_alts(alts, l@[t]));
                            match ft {
                                Some(a2) => {
                                    assert(a2 == *alts);
                                    if forall|a: int|
                                        0 <= a < a2@.len() ==> pref_blocked(
                                            &(#[trigger] a2@[a]),
                                            self.groups@,
                                        ) {
                                        assert(pref_blocked(&a2@[pick as int], self.groups@));
                                        assert(pref_blocked(&alts@[pick as int], self.groups@));
                                        assert(false);
                                    }
                                },
                                None => {},
                            }
                        }
                        Some(l)
                    },
                }
            },
        }
    }
}

/// A member of a found group stands somewhere in the group list.
proof fn lemma_find_group_member(groups: Seq<(char, Vec<PhoneticReference>)>, k: char)
    ensures
        find_group(groups, k) matches Some(v) ==> exists|i: int|
            0 <= i < groups.len() && (#[trigger] groups[i]).1 == v,
    decreases groups.len(),
{
    if groups.len() > 0 && groups[0].0 != k {
        lemma_find_group_member(groups.skip(1), k);
        match find_group(groups, k) {
            Some(v) => {
                let i = choose|i: int|
                    0 <= i < groups.skip(1).len() && (#[trigger] groups.skip(1)[i]).1 == v;
                assert(groups[i + 1].1 == v);
            },
            None => {},
        }
    }
}

} // verus!
