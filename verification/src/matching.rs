//! Match predicates: boolean queries over the fields of a lexis,
//! composable with equality, set membership and negation.

use vstd::prelude::*;

use crate::kirum::Lexis;
use crate::text::str_eq;
use crate::word::pos_name;

verus! {

/// Defines an equality in a match statement: one string, or a list.
#[derive(Debug, PartialEq)]
pub enum EqualValue {
    Text(String),
    Vector(Vec<String>),
}

/// A predicate on one field: equality, or membership in a list.
#[derive(Debug, PartialEq)]
pub enum ValueMatch {
    Equals(EqualValue),
    OneOf(Vec<String>),
}

/// A field predicate, possibly negated.
#[derive(Debug, PartialEq)]
pub enum Value {
    Not(ValueMatch),
    Match(ValueMatch),
}

/// The two equality values agree, character for character.
pub open spec fn equal_value_equiv(a: &EqualValue, b: &EqualValue) -> bool {
    match (a, b) {
        (EqualValue::Text(x), EqualValue::Text(y)) => x@ == y@,
        (EqualValue::Vector(x), EqualValue::Vector(y)) => x.deep_view() == y.deep_view(),
        _ => false,
    }
}

/// The two value matches agree, character for character.
pub open spec fn value_match_equiv(a: &ValueMatch, b: &ValueMatch) -> bool {
    match (a, b) {
        (ValueMatch::Equals(x), ValueMatch::Equals(y)) => equal_value_equiv(x, y),
        (ValueMatch::OneOf(x), ValueMatch::OneOf(y)) => x.deep_view() == y.deep_view(),
        _ => false,
    }
}

/// The two field predicates agree, character for character.
pub open spec fn value_equiv(a: &Value, b: &Value) -> bool {
    match (a, b) {
        (Value::Not(x), Value::Not(y)) => value_match_equiv(x, y),
        (Value::Match(x), Value::Match(y)) => value_match_equiv(x, y),
        _ => false,
    }
}

/// The two optional field predicates agree.
pub open spec fn opt_value_equiv(a: &Option<Value>, b: &Option<Value>) -> bool {
    match (a, b) {
        (Some(x), Some(y)) => value_equiv(x, y),
        (None, None) => true,
        _ => false,
    }
}

/// The two match objects agree on every field predicate.
pub open spec fn lexis_match_equiv(a: &LexisMatch, b: &LexisMatch) -> bool {
    &&& opt_value_equiv(&a.id, &b.id)
    &&& opt_value_equiv(&a.word, &b.word)
    &&& opt_value_equiv(&a.language, &b.language)
    &&& opt_value_equiv(&a.pos, &b.pos)
    &&& opt_value_equiv(&a.lexis_type, &b.lexis_type)
    &&& a.archaic == b.archaic
    &&& opt_value_equiv(&a.tags, &b.tags)
}

impl Clone for EqualValue {
    /// A clone agrees with the original, character for character.
    fn clone(&self) -> (r: Self)
        ensures
            equal_value_equiv(&r, self),
    {
        match self {
            EqualValue::Text(s) => EqualValue::Text(s.clone()),
            EqualValue::Vector(v) => EqualValue::Vector(crate::text::clone_string_vec(v)),
        }
    }
}

impl Clone for ValueMatch {
    /// A clone agrees with the original, character for character.
    fn clone(&self) -> (r: Self)
        ensures
            value_match_equiv(&r, self),
    {
        match self {
            ValueMatch::Equals(e) => ValueMatch::Equals(e.clone()),
            ValueMatch::OneOf(v) => ValueMatch::OneOf(crate::text::clone_string_vec(v)),
        }
    }
}

impl Clone for Value {
    /// A clone agrees with the original, character for character.
    fn clone(&self) -> (r: Self)
        ensures
            value_equiv(&r, self),
    {
        match self {
            Value::Not(m) => Value::Not(m.clone()),
            Value::Match(m) => Value::Match(m.clone()),
        }
    }
}

/// Clones an optional field predicate, preserving it.
pub fn clone_opt_value(v: &Option<Value>) -> (r: Option<Value>)
    ensures
        opt_value_equiv(&r, v),
{
    match v {
        Some(x) => Some(x.clone()),
        None => None,
    }
}

/// Is `x` one of the strings of `lst`?
pub open spec fn has_str(lst: Seq<Seq<char>>, x: Seq<char>) -> bool {
    exists|i: int| 0 <= i < lst.len() && lst[i] == x
}

/// A value match against one stringified field: `Equals` with a single
/// string is exact equality, `Equals` with a list never holds, and
/// `OneOf` is membership.
pub open spec fn vm_str_spec(vm: ValueMatch, s: Seq<char>) -> bool {
    match vm {
        ValueMatch::Equals(EqualValue::Text(e)) => e@ == s,
        ValueMatch::Equals(EqualValue::Vector(_)) => false,
        ValueMatch::OneOf(lst) => has_str(lst.deep_view(), s),
    }
}

/// A value match against a tag list: `Equals` with a list is a subset
/// test, `OneOf` asks for a shared element, and `Equals` with a single
/// string never holds.
pub open spec fn vm_tags_spec(vm: ValueMatch, tags: Seq<Seq<char>>) -> bool {
    match vm {
        ValueMatch::Equals(EqualValue::Text(_)) => false,
        ValueMatch::Equals(EqualValue::Vector(v)) => forall|i: int|
            0 <= i < v.deep_view().len() ==> has_str(tags, #[trigger] v.deep_view()[i]),
        ValueMatch::OneOf(lst) => exists|i: int|
            0 <= i < lst.deep_view().len() && has_str(tags, #[trigger] lst.deep_view()[i]),
    }
}

/// A field predicate against a stringified field, with negation.
pub open spec fn value_str_spec(v: Value, s: Seq<char>) -> bool {
    match v {
        Value::Match(m) => vm_str_spec(m, s),
        Value::Not(m) => !vm_str_spec(m, s),
    }
}

/// A field predicate against a tag list, with negation.
pub open spec fn value_tags_spec(v: Value, tags: Seq<Seq<char>>) -> bool {
    match v {
        Value::Match(m) => vm_tags_spec(m, tags),
        Value::Not(m) => !vm_tags_spec(m, tags),
    }
}

/// An absent predicate accepts everything.
pub open spec fn opt_value_str_spec(v: Option<Value>, s: Seq<char>) -> bool {
    match v {
        Some(v) => value_str_spec(v, s),
        None => true,
    }
}

/// An absent predicate accepts every tag list.
pub open spec fn opt_value_tags_spec(v: Option<Value>, tags: Seq<Seq<char>>) -> bool {
    match v {
        Some(v) => value_tags_spec(v, tags),
        None => true,
    }
}

/// Law (match negation): a negated value match accepts a stringified
/// field exactly where the plain match rejects it.
pub proof fn lemma_match_negation_str(m: ValueMatch, s: Seq<char>)
    ensures
        value_str_spec(Value::Not(m), s) == !value_str_spec(Value::Match(m), s),
{
}

/// Law (match negation): a negated value match accepts a tag list
/// exactly where the plain match rejects it.
pub proof fn lemma_match_negation_tags(m: ValueMatch, tags: Seq<Seq<char>>)
    ensures
        value_tags_spec(Value::Not(m), tags) == !value_tags_spec(Value::Match(m), tags),
{
}

/// Is `x` one of the strings of `lst`?
fn has_str_exec(lst: &Vec<String>, x: &str) -> (r: bool)
    ensures
        r == has_str(lst.deep_view(), x@),
{
    let mut i: usize = 0;
    while i < lst.len()
        invariant
            0 <= i <= lst.len(),
            lst.deep_view().len() == lst.len(),
            forall|j: int| 0 <= j < i ==> lst.deep_view()[j] != x@,
        decreases lst.len() - i,
    {
        if str_eq(lst[i].as_str(), x) {
            assert(lst.deep_view()[i as int] == x@);
            return true;
        }
        i += 1;
    }
    false
}

impl ValueMatch {
    /// Evaluates the match against one stringified field.
    pub fn matches_str(&self, s: &str) -> (r: bool)
        ensures
            r == vm_str_spec(*self, s@),
    {
        match self {
            ValueMatch::Equals(EqualValue::Text(e)) => str_eq(e.as_str(), s),
            ValueMatch::Equals(EqualValue::Vector(_)) => false,
            ValueMatch::OneOf(lst) => has_str_exec(lst, s),
        }
    }

    /// Evaluates the match against a tag list.
    pub fn matches_tags(&self, tags: &Vec<String>) -> (r: bool)
        ensures
            r == vm_tags_spec(*self, tags.deep_view()),
    {
        match self {
            ValueMatch::Equals(EqualValue::Text(_)) => false,
            ValueMatch::Equals(EqualValue::Vector(v)) => {
                let mut i: usize = 0;
                while i < v.len()
                    invariant
                        0 <= i <= v.len(),
                        v.deep_view().len() == v.len(),
                        vm_tags_spec(*self, tags.deep_view()) == (forall|jj: int|
                            0 <= jj < v.deep_view().len() ==> has_str(
                                tags.deep_view(),
                                #[trigger] v.deep_view()[jj],
                            )),
                        forall|j: int|
                            0 <= j < i ==> has_str(tags.deep_view(), #[trigger] v.deep_view()[j]),
                    decreases v.len() - i,
                {
                    if !has_str_exec(tags, v[i].as_str()) {
                        assert(!has_str(tags.deep_view(), v.deep_view()[i as int]));
                        assert(!vm_tags_spec(*self, tags.deep_view()));
                        return false;
                    }
                    i += 1;
                }
                true
            },
            ValueMatch::OneOf(lst) => {
                let mut i: usize = 0;
                while i < lst.len()
                    invariant
                        0 <= i <= lst.len(),
                        lst.deep_view().len() == lst.len(),
                        vm_tags_spec(*self, tags.deep_view()) == (exists|jj: int|
                            0 <= jj < lst.deep_view().len() && has_str(
                                tags.deep_view(),
                                #[trigger] lst.deep_view()[jj],
                            )),
                        forall|j: int|
                            0 <= j < i ==> !has_str(
                                tags.deep_view(),
                                #[trigger] lst.deep_view()[j],
                            ),
                    decreases lst.len() - i,
                {
                    if has_str_exec(tags, lst[i].as_str()) {
                        assert(has_str(tags.deep_view(), lst.deep_view()[i as int]));
                        assert(vm_tags_spec(*self, tags.deep_view()));
                        return true;
                    }
                    i += 1;
                }
                false
            },
        }
    }
}

impl Value {
    /// Evaluates the predicate against one stringified field, applying
    /// the negation where present.
    pub fn is_true(&self, val: &str) -> (r: bool)
        ensures
            r == value_str_spec(*self, val@),
    {
        match self {
            Value::Match(v) => v.matches_str(val),
            Value::Not(v) => !v.matches_str(val),
        }
    }

    /// Evaluates the predicate against a tag list, applying the negation
    /// where present.
    pub fn is_true_tags(&self, tags: &Vec<String>) -> (r: bool)
        ensures
            r == value_tags_spec(*self, tags.deep_view()),
    {
        match self {
            Value::Match(v) => v.matches_tags(tags),
            Value::Not(v) => !v.matches_tags(tags),
        }
    }
}

/// A matching object that decides whether a lexis satisfies the chosen
/// predicates.
#[derive(Debug, PartialEq, Default)]
pub struct LexisMatch {
    pub id: Option<Value>,
    pub word: Option<Value>,
    pub language: Option<Value>,
    pub pos: Option<Value>,
    pub lexis_type: Option<Value>,
    pub archaic: Option<bool>,
    pub tags: Option<Value>,
}

/// The whole match holds when every present field predicate holds: tags
/// by list semantics; id, word (by its display form), language, part of
/// speech and lexis type by string semantics, an absent field accepting
/// everything; and archaic by plain boolean equality.
pub open spec fn lexis_match_spec(m: &LexisMatch, lex: &Lexis) -> bool {
    &&& opt_value_str_spec(m.id, lex.id@)
    &&& opt_value_tags_spec(m.tags, lex.tags.deep_view())
    &&& match lex.word {
        Some(w) => opt_value_str_spec(m.word, w@.flatten()),
        None => true,
    }
    &&& opt_value_str_spec(m.language, lex.language@)
    &&& match lex.pos {
        Some(p) => opt_value_str_spec(m.pos, pos_name(p)),
        None => true,
    }
    &&& opt_value_str_spec(m.lexis_type, lex.lexis_type@)
    &&& match m.archaic {
        Some(a) => a == lex.archaic,
        None => true,
    }
}

impl LexisMatch {
    /// Does the match object accept the given lexis?
    pub fn matches(&self, lex: &Lexis) -> (r: bool)
        ensures
            r == lexis_match_spec(self, lex),
    {
        let id_ok = match &self.id {
            Some(v) => v.is_true(lex.id.as_str()),
            None => true,
        };
        let tags_ok = match &self.tags {
            Some(v) => v.is_true_tags(&lex.tags),
            None => true,
        };
        let word_ok = match &lex.word {
            Some(w) => {
                match &self.word {
                    Some(v) => {
                        let shown = w.string_without_sep();
                        v.is_true(shown.as_str())
                    },
                    None => true,
                }
            },
            None => true,
        };
        let language_ok = match &self.language {
            Some(v) => v.is_true(lex.language.as_str()),
            None => true,
        };
        let pos_ok = match lex.pos {
            Some(p) => {
                match &self.pos {
                    Some(v) => {
                        let name = p.to_string();
                        v.is_true(name.as_str())
                    },
                    None => true,
                }
            },
            None => true,
        };
        let type_ok = match &self.lexis_type {
            Some(v) => v.is_true(lex.lexis_type.as_str()),
            None => true,
        };
        let archaic_ok = match self.archaic {
            Some(a) => a == lex.archaic,
            None => true,
        };
        id_ok && tags_ok && word_ok && language_ok && pos_ok && type_ok && archaic_ok
    }
}

impl Clone for LexisMatch {
    /// A clone agrees with the original on every field predicate.
    fn clone(&self) -> (r: Self)
        ensures
            lexis_match_equiv(&r, self),
    {
        LexisMatch {
            id: clone_opt_value(&self.id),
            word: clone_opt_value(&self.word),
            language: clone_opt_value(&self.language),
            pos: clone_opt_value(&self.pos),
            lexis_type: clone_opt_value(&self.lexis_type),
            archaic: self.archaic,
            tags: clone_opt_value(&self.tags),
        }
    }
}

/// A match over the etymons of a lexis: every etymon, or at least one.
#[derive(Debug, Clone, PartialEq)]
pub enum EtymonMatch {
    All(LexisMatch),
    One(LexisMatch),
}

/// Every etymon matches, or at least one does, by the variant.
pub open spec fn etymon_match_spec(m: &EtymonMatch, lexii: Seq<Lexis>) -> bool {
    match m {
        EtymonMatch::All(lm) => forall|i: int|
            0 <= i < lexii.len() ==> lexis_match_spec(lm, &(#[trigger] lexii[i])),
        EtymonMatch::One(lm) => exists|i: int|
            0 <= i < lexii.len() && lexis_match_spec(lm, &(#[trigger] lexii[i])),
    }
}

impl EtymonMatch {
    /// Does the match accept the given list of etymons?
    pub fn matches_list(&self, lexii: &Vec<Lexis>) -> (r: bool)
        ensures
            r == etymon_match_spec(self, lexii@),
    {
        match self {
            EtymonMatch::All(lm) => {
                let mut i: usize = 0;
                while i < lexii.len()
                    invariant
                        0 <= i <= lexii.len(),
                        etymon_match_spec(self, lexii@) == (forall|jj: int|
                            0 <= jj < lexii@.len() ==> lexis_match_spec(
                                lm,
                                &(#[trigger] lexii@[jj]),
                            )),
                        forall|j: int| 0 <= j < i ==> lexis_match_spec(lm, &(#[trigger] lexii@[j])),
                    decreases lexii.len() - i,
                {
                    if !lm.matches(&lexii[i]) {
                        assert(!lexis_match_spec(lm, &lexii@[i as int]));
                        assert(!etymon_match_spec(self, lexii@));
                        return false;
                    }
                    i += 1;
                }
                true
            },
            EtymonMatch::One(lm) => {
                let mut i: usize = 0;
                while i < lexii.len()
                    invariant
                        0 <= i <= lexii.len(),
                        etymon_match_spec(self, lexii@) == (exists|jj: int|
                            0 <= jj < lexii@.len() && lexis_match_spec(
                                lm,
                                &(#[trigger] lexii@[jj]),
                            )),
                        forall|j: int| 0 <= j < i ==> !lexis_match_spec(lm, &(#[trigger] lexii@[j])),
                    decreases lexii.len() - i,
                {
                    if lm.matches(&lexii[i]) {
                        assert(lexis_match_spec(lm, &lexii@[i as int]));
                        assert(etymon_match_spec(self, lexii@));
                        return true;
                    }
                    i += 1;
                }
                false
            },
        }
    }
}

/// When a global transform fires: before any other transform has touched
/// the lexis, or after its word has been generated.
#[derive(Debug, Clone)]
pub enum WhenMatch {
    Before,
    After,
}

} // verus!
