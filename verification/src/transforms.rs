//! Transforms: named pipelines of letter-level rewrite operations, applied
//! to a lexis either along an etymology edge or globally across the tree.

use vstd::prelude::*;

use crate::errors::{LemmaFromError, TransformError};
use crate::kirum::{lexis_full_eq, word_view, Lexis};
use crate::lemma::{
    delim, lem_dedouble, lem_double, lem_replace, letter_array_toks, norm_toks, regex_ok,
    regex_replace_first, split_sep, Lemma,
};
use crate::matching::{lexis_match_spec, LexisMatch};
use crate::word::PartOfSpeech;

verus! {

/// Where a letter operation applies: the first occurrence, every
/// occurrence, or the last occurrence.
#[derive(Debug, Clone, Copy, PartialEq, Eq, Structural)]
pub enum LetterPlaceType {
    First,
    All,
    Last,
}

/// The letters a replacement rewrites: the letter searched for and the
/// letter written in its place.
#[derive(Debug)]
pub struct LetterValues {
    pub old_letter: String,
    pub new_letter: String,
}

/// One entry of a letter-array rewrite: either a literal token, or an
/// index into the word being rewritten.
#[derive(Debug)]
pub enum LetterArrayValues {
    Char(String),
    Place(i32),
}

/// The closed set of letter-level rewrite operations.
#[derive(Debug)]
pub enum TransformFunc {
    /// Replaces one letter with another.
    LetterReplace { letter: LetterValues, replace: LetterPlaceType },
    /// Rebuilds the word from literal tokens and indices into it.
    LetterArray { letters: Vec<LetterArrayValues> },
    /// Appends a value to the end of the word.
    Postfix { value: Lemma },
    /// Prepends a value to the start of the word.
    Prefix { value: Lemma },
    /// Applies no change.
    Loanword,
    /// Removes the given letter.
    LetterRemove { letter: String, position: LetterPlaceType },
    /// Doubles the given letter.
    Double { letter: String, position: LetterPlaceType },
    /// Removes one of a doubled letter.
    DeDouble { letter: String, position: LetterPlaceType },
    /// Replaces a matching substring of the delimited form.
    MatchReplace { old: Lemma, new: Lemma },
    /// Rewrites the word with a script read from a file.
    RhaiScript { file: String },
}

/// The two array entries agree, character for character.
pub open spec fn lav_equiv(a: &LetterArrayValues, b: &LetterArrayValues) -> bool {
    match (a, b) {
        (LetterArrayValues::Char(x), LetterArrayValues::Char(y)) => x@ == y@,
        (LetterArrayValues::Place(p), LetterArrayValues::Place(q)) => p == q,
        _ => false,
    }
}

/// The two operations agree, field for field at the view level.
pub open spec fn tf_equiv(a: &TransformFunc, b: &TransformFunc) -> bool {
    match (a, b) {
        (
            TransformFunc::LetterReplace { letter: la, replace: ra },
            TransformFunc::LetterReplace { letter: lb, replace: rb },
        ) => la.old_letter@ == lb.old_letter@ && la.new_letter@ == lb.new_letter@ && ra == rb,
        (
            TransformFunc::LetterArray { letters: la },
            TransformFunc::LetterArray { letters: lb },
        ) => la@.len() == lb@.len() && forall|i: int|
            0 <= i < la@.len() ==> lav_equiv(&(#[trigger] la@[i]), &lb@[i]),
        (TransformFunc::Postfix { value: va }, TransformFunc::Postfix { value: vb }) => va@ == vb@,
        (TransformFunc::Prefix { value: va }, TransformFunc::Prefix { value: vb }) => va@ == vb@,
        (TransformFunc::Loanword, TransformFunc::Loanword) => true,
        (
            TransformFunc::LetterRemove { letter: la, position: pa },
            TransformFunc::LetterRemove { letter: lb, position: pb },
        ) => la@ == lb@ && pa == pb,
        (
            TransformFunc::Double { letter: la, position: pa },
            TransformFunc::Double { letter: lb, position: pb },
        ) => la@ == lb@ && pa == pb,
        (
            TransformFunc::DeDouble { letter: la, position: pa },
            TransformFunc::DeDouble { letter: lb, position: pb },
        ) => la@ == lb@ && pa == pb,
        (
            TransformFunc::MatchReplace { old: oa, new: na },
            TransformFunc::MatchReplace { old: ob, new: nb },
        ) => oa@ == ob@ && na@ == nb@,
        (TransformFunc::RhaiScript { file: fa }, TransformFunc::RhaiScript { file: fb }) => fa@
            == fb@,
        _ => false,
    }
}

/// The two operation lists agree, entry for entry.
pub open spec fn funcs_equiv(a: Seq<TransformFunc>, b: Seq<TransformFunc>) -> bool {
    a.len() == b.len() && forall|i: int| 0 <= i < a.len() ==> tf_equiv(&(#[trigger] a[i]), &b[i])
}

/// The two transforms agree: same name, same guard, same operations.
pub open spec fn transform_equiv(a: &Transform, b: &Transform) -> bool {
    &&& a.name@ == b.name@
    &&& match (&a.lex_match, &b.lex_match) {
        (Some(x), Some(y)) => crate::matching::lexis_match_equiv(x, y),
        (None, None) => true,
        _ => false,
    }
    &&& funcs_equiv(a.transforms@, b.transforms@)
}

impl Clone for LetterArrayValues {
    /// A clone agrees with the original.
    fn clone(&self) -> (r: Self)
        ensures
            lav_equiv(&r, self),
    {
        match self {
            LetterArrayValues::Char(c) => LetterArrayValues::Char(c.clone()),
            LetterArrayValues::Place(p) => LetterArrayValues::Place(*p),
        }
    }
}

/// Clones an array-rewrite entry list, preserving it entry for entry.
fn clone_lavs(v: &Vec<LetterArrayValues>) -> (r: Vec<LetterArrayValues>)
    ensures
        r@.len() == v@.len(),
        forall|i: int| 0 <= i < v@.len() ==> lav_equiv(&(#[trigger] r@[i]), &v@[i]),
{
    let mut r: Vec<LetterArrayValues> = Vec::new();
    let mut i: usize = 0;
    while i < v.len()
        invariant
            0 <= i <= v.len(),
            r@.len() == i,
            forall|j: int| 0 <= j < i ==> lav_equiv(&(#[trigger] r@[j]), &v@[j]),
        decreases v.len() - i,
    {
        r.push(v[i].clone());
        i += 1;
    }
    r
}

impl Clone for TransformFunc {
    /// A clone agrees with the original, field for field.
    fn clone(&self) -> (r: Self)
        ensures
            tf_equiv(&r, self),
    {
        match self {
            TransformFunc::LetterReplace { letter, replace } => TransformFunc::LetterReplace {
                letter: LetterValues {
                    old_letter: letter.old_letter.clone(),
                    new_letter: letter.new_letter.clone(),
                },
                replace: *replace,
            },
            TransformFunc::LetterArray { letters } => TransformFunc::LetterArray {
                letters: clone_lavs(letters),
            },
            TransformFunc::Postfix { value } => TransformFunc::Postfix { value: value.clone() },
            TransformFunc::Prefix { value } => TransformFunc::Prefix { value: value.clone() },
            TransformFunc::Loanword => TransformFunc::Loanword,
            TransformFunc::LetterRemove { letter, position } => TransformFunc::LetterRemove {
                letter: letter.clone(),
                position: *position,
            },
            TransformFunc::Double { letter, position } => TransformFunc::Double {
                letter: letter.clone(),
                position: *position,
            },
            TransformFunc::DeDouble { letter, position } => TransformFunc::DeDouble {
                letter: letter.clone(),
                position: *position,
            },
            TransformFunc::MatchReplace { old, new } => TransformFunc::MatchReplace {
                old: old.clone(),
                new: new.clone(),
            },
            TransformFunc::RhaiScript { file } => TransformFunc::RhaiScript {
                file: file.clone(),
            },
        }
    }
}

/// Clones an operation list, preserving it entry for entry.
pub fn clone_funcs(v: &Vec<TransformFunc>) -> (r: Vec<TransformFunc>)
    ensures
        funcs_equiv(r@, v@),
{
    let mut r: Vec<TransformFunc> = Vec::new();
    let mut i: usize = 0;
    while i < v.len()
        invariant
            0 <= i <= v.len(),
            r@.len() == i,
            forall|j: int| 0 <= j < i ==> tf_equiv(&(#[trigger] r@[j]), &v@[j]),
        decreases v.len() - i,
    {
        r.push(v[i].clone());
        i += 1;
    }
    r
}

impl Clone for Transform {
    /// A clone agrees with the original: same name, guard, operations.
    fn clone(&self) -> (r: Self)
        ensures
            transform_equiv(&r, self),
    {
        Transform {
            name: self.name.clone(),
            lex_match: match &self.lex_match {
                Some(m) => Some(m.clone()),
                None => None,
            },
            transforms: clone_funcs(&self.transforms),
        }
    }
}

/// Is the operation a scripted rewrite, whose result the engine cannot
/// predict?
pub open spec fn is_rhai(tf: TransformFunc) -> bool {
    match tf {
        TransformFunc::RhaiScript { .. } => true,
        _ => false,
    }
}

/// What a non-scripted operation does to a word's tokens.
pub open spec fn apply_func_word(w: Seq<Seq<char>>, tf: TransformFunc) -> Seq<Seq<char>> {
    match tf {
        TransformFunc::LetterReplace { letter, replace } => lem_replace(
            w,
            letter.old_letter@,
            letter.new_letter@,
            replace,
        ),
        TransformFunc::LetterArray { letters } => norm_toks(letter_array_toks(w, letters@)),
        TransformFunc::Postfix { value } => w + value@,
        TransformFunc::Prefix { value } => value@ + w,
        TransformFunc::Loanword => w,
        TransformFunc::LetterRemove { letter, position } => lem_replace(
            w,
            letter@,
            Seq::empty(),
            position,
        ),
        TransformFunc::Double { letter, position } => lem_double(w, letter@, position),
        TransformFunc::DeDouble { letter, position } => lem_dedouble(w, letter@, position),
        TransformFunc::MatchReplace { old, new } => {
            if regex_ok(delim(old@)) {
                split_sep(regex_replace_first(delim(old@), delim(w), delim(new@)))
            } else {
                w
            }
        },
        TransformFunc::RhaiScript { .. } => w,
    }
}

/// A pipeline of operations applied left to right.
pub open spec fn apply_funcs(w: Seq<Seq<char>>, funcs: Seq<TransformFunc>) -> Seq<Seq<char>>
    decreases funcs.len(),
{
    if funcs.len() == 0 {
        w
    } else {
        apply_funcs(apply_func_word(w, funcs[0]), funcs.skip(1))
    }
}

/// No operation of the pipeline is scripted.
pub open spec fn no_rhai(funcs: Seq<TransformFunc>) -> bool {
    forall|i: int| 0 <= i < funcs.len() ==> !is_rhai(#[trigger] funcs[i])
}

/// Every transform of the list is guard-free and script-free, so the
/// list's effect on a word is a function of the word alone.
pub open spec fn plain_pipeline(ts: Seq<Transform>) -> bool {
    forall|t: int|
        0 <= t < ts.len() ==> (#[trigger] ts[t]).lex_match is None && no_rhai(ts[t].transforms@)
}

/// All operations of the list's transforms, concatenated in order.
pub open spec fn funcs_of(ts: Seq<Transform>) -> Seq<TransformFunc>
    decreases ts.len(),
{
    if ts.len() == 0 {
        Seq::empty()
    } else {
        ts[0].transforms@ + funcs_of(ts.skip(1))
    }
}

/// Applying a concatenated pipeline is applying its halves in turn.
pub proof fn lemma_apply_funcs_concat(w: Seq<Seq<char>>, a: Seq<TransformFunc>, b: Seq<
    TransformFunc,
>)
    ensures
        apply_funcs(w, a + b) == apply_funcs(apply_funcs(w, a), b),
    decreases a.len(),
{
    if a.len() == 0 {
        assert(a + b =~= b);
    } else {
        assert((a + b)[0] == a[0]);
        assert((a + b).skip(1) =~= a.skip(1) + b);
        lemma_apply_funcs_concat(apply_func_word(w, a[0]), a.skip(1), b);
    }
}

/// The same, over an optional word.
pub proof fn lemma_apply_funcs_opt_concat(
    w: Option<Seq<Seq<char>>>,
    a: Seq<TransformFunc>,
    b: Seq<TransformFunc>,
)
    ensures
        apply_funcs_opt(w, a + b) == apply_funcs_opt(apply_funcs_opt(w, a), b),
{
    match w {
        Some(toks) => {
            lemma_apply_funcs_concat(toks, a, b);
        },
        None => {},
    }
}

/// Everything of the lexis but its word is unchanged.
pub open spec fn same_but_word(a: &Lexis, b: &Lexis) -> bool {
    &&& a.id@ == b.id@
    &&& a.language@ == b.language@
    &&& a.pos == b.pos
    &&& a.lexis_type@ == b.lexis_type@
    &&& a.definition@ == b.definition@
    &&& a.archaic == b.archaic
    &&& a.tags.deep_view() == b.tags.deep_view()
    &&& a.historical_metadata@ == b.historical_metadata@
    &&& crate::kirum::opt_str_view(a.word_create) == crate::kirum::opt_str_view(b.word_create)
}

/// What an operation leaves of an optional word: an absent word is left
/// absent, a present one is rewritten.
pub open spec fn apply_func_opt(w: Option<Seq<Seq<char>>>, tf: TransformFunc) -> Option<
    Seq<Seq<char>>,
> {
    match w {
        None => None,
        Some(toks) => Some(apply_func_word(toks, tf)),
    }
}

/// A pipeline over an optional word.
pub open spec fn apply_funcs_opt(w: Option<Seq<Seq<char>>>, funcs: Seq<TransformFunc>) -> Option<
    Seq<Seq<char>>,
> {
    match w {
        None => None,
        Some(toks) => Some(apply_funcs(toks, funcs)),
    }
}

#[verifier::external_type_specification]
#[verifier::external_body]
pub struct ExDynamic(rhai::Dynamic);

/// What a script hands back: either a plain string, re-split into
/// graphemes, or an array of tokens used verbatim.
pub enum RhaiOutcome {
    Text(String),
    Tokens(Vec<String>),
}

/// Relies on rhai::Dynamic::from and collecting into rhai::Array: wraps
/// a list of strings as a script array value.
#[verifier::external_body]
fn rhai_strings(v: &Vec<String>) -> (r: rhai::Dynamic)
{
    rhai::Dynamic::from(v.iter().map(|t| rhai::Dynamic::from(t.clone())).collect::<rhai::Array>())
}

/// Relies on rhai::Dynamic::from and collecting into rhai::Map: wraps
/// key-value pairs as a script object value.
#[verifier::external_body]
fn rhai_metadata(meta: &Vec<(String, String)>) -> (r: rhai::Dynamic)
{
    let m: rhai::Map = meta.iter().map(
        |p| (p.0.as_str().into(), rhai::Dynamic::from(p.1.clone())),
    ).collect();
    rhai::Dynamic::from(m)
}

/// Relies on rhai::Engine::eval_file_with_scope: reads the script file
/// and evaluates it with the given bindings in scope. What comes back
/// depends on the file on disk, so nothing is promised of the value.
#[verifier::external_body]
fn rhai_eval_file(
    path: &String,
    language: &String,
    tags: rhai::Dynamic,
    metadata_obj: rhai::Dynamic,
    pos: &String,
    lemma_array: rhai::Dynamic,
    lemma_string: &String,
) -> (r: Result<rhai::Dynamic, String>)
{
    let engine = rhai::Engine::new();
    let mut scope = rhai::Scope::new();
    scope.push("language", language.clone());
    scope.push("tags", tags);
    scope.push("metadata", metadata_obj);
    scope.push("pos", pos.clone());
    scope.push("lemma_array", lemma_array);
    scope.push("lemma_string", lemma_string.clone());
    engine.eval_file_with_scope::<rhai::Dynamic>(
        &mut scope,
        std::path::PathBuf::from(path),
    ).map_err(|e| e.to_string())
}

/// Relies on rhai::Dynamic's is_string, is_array, is_char and cast:
/// sorts the script's return value into a string, an array of string or
/// character tokens, or an error describing the offending value.
#[verifier::external_body]
fn rhai_dynamic_tokens(d: rhai::Dynamic) -> (r: Result<RhaiOutcome, String>)
{
    if d.is_string() {
        return Ok(RhaiOutcome::Text(d.cast::<String>()));
    }
    if !d.is_array() {
        return Err(String::from("value is neither a string nor an array"));
    }
    rhai_array_tokens(d.cast::<rhai::Array>())
}

/// Relies on rhai::Dynamic's is_string, is_char and cast: turns the
/// items of a script array into tokens; a member of any other type is
/// an error naming the problem.
#[verifier::external_body]
fn rhai_array_tokens(items: Vec<rhai::Dynamic>) -> (r: Result<RhaiOutcome, String>)
{
    let mut toks: Vec<String> = Vec::new();
    for item in items {
        if item.is_string() {
            toks.push(item.cast::<String>());
        } else if item.is_char() {
            toks.push(item.cast::<char>().to_string());
        } else {
            return Err(String::from("array item is neither a string nor a character"));
        }
    }
    Ok(RhaiOutcome::Tokens(toks))
}

impl TransformFunc {
    /// Applies the operation to the word of the given lexis, in place.
    /// A lexis without a word is left untouched. Only a scripted rewrite
    /// can fail; every other operation rewrites the word exactly as its
    /// specification says.
    pub fn transform(&self, current_word: &mut Lexis) -> (r: Result<(), TransformError>)
        ensures
            same_but_word(old(current_word), final(current_word)),
            old(current_word).word is None ==> final(current_word).word is None && r is Ok,
            !is_rhai(*self) ==> r is Ok && word_view(final(current_word).word) == apply_func_opt(
                word_view(old(current_word).word),
                *self,
            ),
            is_rhai(*self) && r is Ok && old(current_word).word is Some
                ==> final(current_word).word is Some,
    {
        if current_word.word.is_none() {
            return Ok(());
        }
        match self {
            TransformFunc::LetterReplace { letter, replace } => {
                if let Some(w) = current_word.word.as_mut() {
                    w.replace(letter.old_letter.as_str(), letter.new_letter.as_str(), replace);
                }
                Ok(())
            },
            TransformFunc::LetterArray { letters } => {
                if let Some(w) = current_word.word.as_mut() {
                    w.modify_with_array(letters);
                }
                Ok(())
            },
            TransformFunc::Postfix { value } => {
                if let Some(w) = current_word.word.as_mut() {
                    w.add_postfix(value);
                }
                Ok(())
            },
            TransformFunc::Prefix { value } => {
                if let Some(w) = current_word.word.as_mut() {
                    w.add_prefix(value);
                }
                Ok(())
            },
            TransformFunc::Loanword => Ok(()),
            TransformFunc::LetterRemove { letter, position } => {
                if let Some(w) = current_word.word.as_mut() {
                    w.remove_char(letter.as_str(), position);
                }
                Ok(())
            },
            TransformFunc::Double { letter, position } => {
                if let Some(w) = current_word.word.as_mut() {
                    w.double(letter.as_str(), position);
                }
                Ok(())
            },
            TransformFunc::DeDouble { letter, position } => {
                if let Some(w) = current_word.word.as_mut() {
                    w.dedouble(letter.as_str(), position);
                }
                Ok(())
            },
            TransformFunc::MatchReplace { old: old_val, new: new_val } => {
                if let Some(w) = current_word.word.as_mut() {
                    w.match_replace(old_val, new_val);
                }
                Ok(())
            },
            TransformFunc::RhaiScript { file } => {
                let lemma_current = match &current_word.word {
                    Some(w) => w.clone(),
                    None => {
                        return Ok(());
                    },
                };
                let meta_pairs = current_word.historical_metadata.pairs();
                let pos_string = match current_word.pos {
                    Some(p) => p.to_string(),
                    None => PartOfSpeech::Noun.to_string(),
                };
                let lemma_string = lemma_current.string_without_sep();
                let lemma_tokens = lemma_current.chars();
                let tags_dyn = rhai_strings(&current_word.tags);
                let meta_dyn = rhai_metadata(&meta_pairs);
                let toks_dyn = rhai_strings(&lemma_tokens);
                let evaluated = rhai_eval_file(
                    file,
                    &current_word.language,
                    tags_dyn,
                    meta_dyn,
                    &pos_string,
                    toks_dyn,
                    &lemma_string,
                );
                match evaluated {
                    Err(e) => Err(TransformError::EvalError(e)),
                    Ok(d) => {
                        match rhai_dynamic_tokens(d) {
                            Err(tn) => Err(
                                TransformError::ScriptReturnValueError(
                                    LemmaFromError { dyn_type: tn },
                                ),
                            ),
                            Ok(RhaiOutcome::Text(s)) => {
                                current_word.word = Some(Lemma::new(s.as_str()));
                                Ok(())
                            },
                            Ok(RhaiOutcome::Tokens(v)) => {
                                current_word.word = Some(Lemma::from_tokens(v));
                                Ok(())
                            },
                        }
                    },
                }
            },
        }
    }
}

/// A named series of operations, guarded by an optional match on the
/// lexis under transform.
#[derive(Debug)]
pub struct Transform {
    pub name: String,
    pub lex_match: Option<LexisMatch>,
    pub transforms: Vec<TransformFunc>,
}

/// Does the transform's guard accept the lexis? An absent guard accepts
/// everything.
pub open spec fn guard_accepts(t: &Transform, lex: &Lexis) -> bool {
    match t.lex_match {
        Some(m) => lexis_match_spec(&m, lex),
        None => true,
    }
}

impl Transform {
    /// Applies the operations in order when the guard accepts the lexis,
    /// and reports whether they were applied.
    ///
    /// Law (guard safety): when the guard rejects, the lexis is returned
    /// unchanged in every field.
    pub fn transform_option(&self, etymon: &mut Lexis) -> (r: Result<bool, TransformError>)
        ensures
            same_but_word(old(etymon), final(etymon)),
            !guard_accepts(self, old(etymon)) ==> r == Ok::<bool, TransformError>(false)
                && lexis_full_eq(final(etymon), old(etymon)),
            guard_accepts(self, old(etymon)) && no_rhai(self.transforms@) ==> r == Ok::<
                bool,
                TransformError,
            >(true) && word_view(final(etymon).word) == apply_funcs_opt(
                word_view(old(etymon).word),
                self.transforms@,
            ),
            guard_accepts(self, old(etymon)) && r is Ok ==> r == Ok::<bool, TransformError>(true),
            r is Err ==> !no_rhai(self.transforms@),
            old(etymon).word is None ==> r is Ok && final(etymon).word is None,
            r is Ok && old(etymon).word is Some ==> final(etymon).word is Some,
    {
        let can_transform = match &self.lex_match {
            Some(lex_match) => lex_match.matches(etymon),
            None => true,
        };
        if can_transform {
            let ghost funcs = self.transforms@;
            let ghost w0 = word_view(etymon.word);
            let mut i: usize = 0;
            proof {
                assert(funcs.skip(0) =~= funcs);
            }
            while i < self.transforms.len()
                invariant
                    funcs == self.transforms@,
                    funcs.len() == self.transforms.len(),
                    0 <= i <= self.transforms.len(),
                    guard_accepts(self, old(etymon)),
                    same_but_word(old(etymon), etymon),
                    w0 == word_view(old(etymon).word),
                    w0 is None ==> word_view(etymon.word) is None,
                    w0 is Some ==> word_view(etymon.word) is Some,
                    no_rhai(funcs) ==> apply_funcs_opt(w0, funcs) == apply_funcs_opt(
                        word_view(etymon.word),
                        funcs.skip(i as int),
                    ),
                decreases self.transforms.len() - i,
            {
                proof {
                    assert(funcs.skip(i as int)[0] == funcs[i as int]);
                    assert(funcs.skip(i as int).skip(1) =~= funcs.skip(i as int + 1));
                }
                let tf = &self.transforms[i];
                match tf.transform(etymon) {
                    Ok(_) => {},
                    Err(e) => {
                        proof {
                            assert(is_rhai(funcs[i as int]));
                            assert(!no_rhai(funcs));
                        }
                        return Err(e);
                    },
                }
                i += 1;
            }
            proof {
                assert(funcs.skip(i as int) =~= Seq::<TransformFunc>::empty());
            }
            Ok(true)
        } else {
            Ok(false)
        }
    }

    /// Applies the operations in order when the guard accepts the lexis;
    /// a rejected guard leaves the lexis unchanged.
    pub fn transform(&self, etymon: &mut Lexis) -> (r: Result<(), TransformError>)
        ensures
            same_but_word(old(etymon), final(etymon)),
            !guard_accepts(self, old(etymon)) ==> r is Ok && lexis_full_eq(
                final(etymon),
                old(etymon),
            ),
            guard_accepts(self, old(etymon)) && no_rhai(self.transforms@) ==> r is Ok
                && word_view(final(etymon).word) == apply_funcs_opt(
                word_view(old(etymon).word),
                self.transforms@,
            ),
            r is Err ==> !no_rhai(self.transforms@),
            old(etymon).word is None ==> r is Ok && final(etymon).word is None,
            r is Ok && old(etymon).word is Some ==> final(etymon).word is Some,
    {
        match self.transform_option(etymon) {
            Ok(_) => Ok(()),
            Err(e) => Err(e),
        }
    }
}

/// A transform applied across the whole tree, guarded on the lexis under
/// transform and, optionally, on its direct etymons.
#[derive(Debug)]
pub struct GlobalTransform {
    /// Match statement for the word under transform.
    pub lex_match: LexisMatch,
    /// Optional match statement for the word's etymons; with several
    /// etymons, any matching one lets the transform fire.
    pub etymon_match: Option<LexisMatch>,
    pub transforms: Vec<TransformFunc>,
}

impl Clone for GlobalTransform {
    /// A clone agrees with the original on both guards and the
    /// operations.
    fn clone(&self) -> (r: Self)
        ensures
            crate::matching::lexis_match_equiv(&r.lex_match, &self.lex_match),
            match (&r.etymon_match, &self.etymon_match) {
                (Some(x), Some(y)) => crate::matching::lexis_match_equiv(x, y),
                (None, None) => true,
                _ => false,
            },
            funcs_equiv(r.transforms@, self.transforms@),
    {
        GlobalTransform {
            lex_match: self.lex_match.clone(),
            etymon_match: match &self.etymon_match {
                Some(m) => Some(m.clone()),
                None => None,
            },
            transforms: clone_funcs(&self.transforms),
        }
    }
}

/// Does the global transform fire? The lexis guard must accept, and,
/// where an etymon guard is configured, some supplied etymon must be
/// accepted too — so a configured etymon guard with no etymons at hand
/// blocks the transform.
pub open spec fn global_accepts(
    gt: &GlobalTransform,
    lex: &Lexis,
    etymons: Option<Seq<Lexis>>,
) -> bool {
    &&& lexis_match_spec(&gt.lex_match, lex)
    &&& match gt.etymon_match {
        Some(m) => match etymons {
            Some(etys) => exists|i: int|
                0 <= i < etys.len() && lexis_match_spec(&m, &(#[trigger] etys[i])),
            None => false,
        },
        None => true,
    }
}

impl GlobalTransform {
    /// Applies the operations when both guards accept, and otherwise
    /// returns the lexis untouched in every field.
    pub fn transform(&self, lex: &mut Lexis, etymon: Option<&Vec<Lexis>>) -> (r: Result<
        (),
        TransformError,
    >)
        ensures
            same_but_word(old(lex), final(lex)),
            !global_accepts(self, old(lex), opt_lexii_view(etymon)) ==> r is Ok && lexis_full_eq(
                final(lex),
                old(lex),
            ),
            global_accepts(self, old(lex), opt_lexii_view(etymon)) && no_rhai(self.transforms@)
                ==> r is Ok && word_view(final(lex).word) == apply_funcs_opt(
                word_view(old(lex).word),
                self.transforms@,
            ),
            r is Err ==> !no_rhai(self.transforms@),
            old(lex).word is None ==> r is Ok && final(lex).word is None,
            r is Ok && old(lex).word is Some ==> final(lex).word is Some,
    {
        let should_trans = match &self.etymon_match {
            Some(ety_match) => {
                match etymon {
                    Some(ety) => {
                        let mut found = false;
                        let mut i: usize = 0;
                        while i < ety.len()
                            invariant
                                0 <= i <= ety.len(),
                                found == exists|j: int|
                                    0 <= j < i && lexis_match_spec(ety_match, &(#[trigger] ety@[j])),
                            decreases ety.len() - i,
                        {
                            if ety_match.matches(&ety[i]) {
                                proof {
                                    assert(lexis_match_spec(ety_match, &ety@[i as int]));
                                }
                                found = true;
                            }
                            i += 1;
                        }
                        found
                    },
                    None => false,
                }
            },
            None => true,
        };
        let lex_ok = self.lex_match.matches(lex);
        if lex_ok && should_trans {
            proof {
                let ghost_pair = (self.etymon_match, opt_lexii_view(etymon));
                match ghost_pair {
                    (Some(m), Some(etys)) => {
                        let j = choose|j: int|
                            0 <= j < etys.len() && lexis_match_spec(&m, &(#[trigger] etys[j]));
                        assert(global_accepts(self, old(lex), opt_lexii_view(etymon)));
                    },
                    _ => {
                        assert(global_accepts(self, old(lex), opt_lexii_view(etymon)));
                    },
                }
            }
            let ghost funcs = self.transforms@;
            let ghost w0 = word_view(lex.word);
            let mut i: usize = 0;
            proof {
                assert(funcs.skip(0) =~= funcs);
            }
            while i < self.transforms.len()
                invariant
                    funcs == self.transforms@,
                    funcs.len() == self.transforms.len(),
                    0 <= i <= self.transforms.len(),
                    global_accepts(self, old(lex), opt_lexii_view(etymon)),
                    same_but_word(old(lex), lex),
                    w0 == word_view(old(lex).word),
                    old(lex).word is None ==> lex.word is None,
                    old(lex).word is Some ==> lex.word is Some,
                    no_rhai(funcs) ==> apply_funcs_opt(w0, funcs) == apply_funcs_opt(
                        word_view(lex.word),
                        funcs.skip(i as int),
                    ),
                decreases self.transforms.len() - i,
            {
                proof {
                    assert(funcs.skip(i as int)[0] == funcs[i as int]);
                    assert(funcs.skip(i as int).skip(1) =~= funcs.skip(i as int + 1));
                }
                let tf = &self.transforms[i];
                match tf.transform(lex) {
                    Ok(_) => {},
                    Err(e) => {
                        proof {
                            assert(is_rhai(funcs[i as int]));
                            assert(!no_rhai(funcs));
                        }
                        return Err(e);
                    },
                }
                i += 1;
            }
            proof {
                assert(funcs.skip(i as int) =~= Seq::<TransformFunc>::empty());
            }
            Ok(())
        } else {
            Ok(())
        }
    }
}

/// One step of `transform_option`, as a relation between the lexis
/// before and after: `applied` is the guard's verdict on the incoming
/// lexis; a rejected guard changes nothing; an applied script-free
/// transform rewrites the word exactly.
pub open spec fn transform_option_rel(
    a: &Lexis,
    b: &Lexis,
    t: &Transform,
    applied: bool,
) -> bool {
    &&& same_but_word(a, b)
    &&& applied == guard_accepts(t, a)
    &&& !applied ==> lexis_full_eq(b, a)
    &&& (applied && no_rhai(t.transforms@)) ==> word_view(b.word) == apply_funcs_opt(
        word_view(a.word),
        t.transforms@,
    )
}

/// The lexis list an optional reference stands for.
pub open spec fn opt_lexii_view(etymon: Option<&Vec<Lexis>>) -> Option<Seq<Lexis>> {
    match etymon {
        Some(v) => Some(v@),
        None => None,
    }
}

} // verus!
