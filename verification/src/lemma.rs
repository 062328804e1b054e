//! The grapheme-safe string type used for every word in the lexicon.
//!
//! A language may treat a multi-codepoint unit as one letter, so a `Lemma`
//! holds an ordered sequence of caller-defined grapheme tokens, and every
//! letter-level operation works on those tokens rather than on codepoints.

use vstd::prelude::*;
use vstd::string::StrSliceExecFns;
use vstd::string::StringExecFns;
use unicode_segmentation::UnicodeSegmentation;

use crate::text::{
    contains_sub, contains_sub_exec, find_sub, occurs_at, replace_all_exec, replace_all_sub,
    replace_first_exec, replace_first_sub, str_eq, clone_string_vec,
};
use crate::transforms::{LetterArrayValues, LetterPlaceType};

verus! {

broadcast use vstd::string::group_string_axioms, vstd::seq_lib::group_seq_lib_default;

/// The reserved delimiter that can never be a grapheme token of its own.
pub const WORD_SEP: char = '\u{200B}';

/// The delimiter as a one-character token.
pub open spec fn sep_tok() -> Seq<char> {
    seq![WORD_SEP]
}

/// An acceptable grapheme token: non-empty and not the reserved delimiter.
pub open spec fn sep_free(t: Seq<char>) -> bool {
    forall|i: int| 0 <= i < t.len() ==> t[i] != WORD_SEP
}

/// An acceptable token: non-empty and free of the reserved delimiter.
pub open spec fn tok_ok(t: Seq<char>) -> bool {
    t.len() > 0 && sep_free(t)
}

/// All tokens of the sequence are acceptable.
pub open spec fn tokens_ok(s: Seq<Seq<char>>) -> bool {
    forall|i: int| 0 <= i < s.len() ==> tok_ok(#[trigger] s[i])
}

/// The sequence with every unacceptable token dropped.
pub open spec fn norm_toks(s: Seq<Seq<char>>) -> Seq<Seq<char>>
    decreases s.len(),
{
    if s.len() == 0 {
        Seq::empty()
    } else {
        let rest = norm_toks(s.drop_last());
        if tok_ok(s.last()) {
            rest.push(s.last())
        } else {
            rest
        }
    }
}

/// The delimited internal form: each token followed by the delimiter.
pub open spec fn delim(s: Seq<Seq<char>>) -> Seq<char>
    decreases s.len(),
{
    if s.len() == 0 {
        Seq::empty()
    } else {
        delim(s.drop_last()) + s.last() + sep_tok()
    }
}

/// Splits a character sequence on the delimiter, dropping empty pieces.
pub open spec fn split_sep(s: Seq<char>) -> Seq<Seq<char>>
    decreases s.len(),
    via split_sep_decreases
{
    if s.len() == 0 {
        Seq::empty()
    } else {
        let i = find_sub(s, sep_tok());
        if i < 0 {
            seq![s]
        } else {
            let head = s.take(i);
            let rest = split_sep(s.skip(i + 1));
            if head.len() > 0 {
                seq![head] + rest
            } else {
                rest
            }
        }
    }
}

#[via_fn]
proof fn split_sep_decreases(s: Seq<char>) {
    crate::text::lemma_find_sub_props(s, sep_tok());
}

/// The extended grapheme clusters of a character sequence.
pub uninterp spec fn graphemes(s: Seq<char>) -> Seq<Seq<char>>;

/// The tokens a lemma built from a plain string holds.
pub open spec fn lemma_of_string(s: Seq<char>) -> Seq<Seq<char>> {
    norm_toks(graphemes(s))
}

/// Relies on unicode_segmentation's `UnicodeSegmentation::graphemes`: the
/// extended grapheme clusters of a string are non-empty substrings that,
/// concatenated in order, give back the string itself.
#[verifier::external_body]
fn split_graphemes(s: &str) -> (r: Vec<String>)
    ensures
        r.deep_view() == graphemes(s@),
        r.deep_view().flatten() == s@,
        tokens_nonempty(r.deep_view()),
{
    s.graphemes(true).map(|g| g.to_string()).collect()
}

/// All tokens of the sequence are non-empty.
pub open spec fn tokens_nonempty(s: Seq<Seq<char>>) -> bool {
    forall|i: int| 0 <= i < s.len() ==> (#[trigger] s[i]).len() > 0
}

/// Index of the first token that contains `p`, or -1.
pub open spec fn first_containing(s: Seq<Seq<char>>, p: Seq<char>) -> int
    decreases s.len(),
{
    if s.len() == 0 {
        -1
    } else if contains_sub(s[0], p) {
        0
    } else {
        let r = first_containing(s.skip(1), p);
        if r < 0 {
            -1
        } else {
            r + 1
        }
    }
}

/// Index of the last token that contains `p`, or -1.
pub open spec fn last_containing(s: Seq<Seq<char>>, p: Seq<char>) -> int
    decreases s.len(),
{
    if s.len() == 0 {
        -1
    } else if contains_sub(s.last(), p) {
        s.len() - 1
    } else {
        last_containing(s.drop_last(), p)
    }
}

/// Index of the first token equal to `l`, or -1.
pub open spec fn first_equal(s: Seq<Seq<char>>, l: Seq<char>) -> int
    decreases s.len(),
{
    if s.len() == 0 {
        -1
    } else if s[0] == l {
        0
    } else {
        let r = first_equal(s.skip(1), l);
        if r < 0 {
            -1
        } else {
            r + 1
        }
    }
}

/// Index of the last token equal to `l`, or -1.
pub open spec fn last_equal(s: Seq<Seq<char>>, l: Seq<char>) -> int
    decreases s.len(),
{
    if s.len() == 0 {
        -1
    } else if s.last() == l {
        s.len() - 1
    } else {
        last_equal(s.drop_last(), l)
    }
}

/// Every token rewritten by leftmost-non-overlapping replacement.
pub open spec fn map_replace_all(s: Seq<Seq<char>>, p: Seq<char>, n: Seq<char>) -> Seq<Seq<char>>
    decreases s.len(),
{
    if s.len() == 0 {
        Seq::empty()
    } else {
        map_replace_all(s.drop_last(), p, n).push(replace_all_sub(s.last(), p, n))
    }
}

/// Token-level substring replacement over a token sequence. `First`
/// rewrites the leftmost occurrence in the first token that contains the
/// pattern; `Last` the leftmost occurrence in the last such token; `All`
/// every occurrence in every token. Tokens emptied by the rewrite are
/// dropped. An empty pattern leaves the sequence unchanged.
pub open spec fn lem_replace(
    s: Seq<Seq<char>>,
    p: Seq<char>,
    n: Seq<char>,
    kind: LetterPlaceType,
) -> Seq<Seq<char>> {
    if p.len() == 0 {
        s
    } else {
        match kind {
            LetterPlaceType::All => norm_toks(map_replace_all(s, p, n)),
            LetterPlaceType::First => {
                let k = first_containing(s, p);
                if k < 0 {
                    s
                } else {
                    norm_toks(s.update(k, replace_first_sub(s[k], p, n)))
                }
            },
            LetterPlaceType::Last => {
                let k = last_containing(s, p);
                if k < 0 {
                    s
                } else {
                    norm_toks(s.update(k, replace_first_sub(s[k], p, n)))
                }
            },
        }
    }
}

/// The letter doubled where the place selector says: `All` doubles the
/// text of every token equal to the letter; `First` and `Last` insert one
/// extra copy of the letter as a token of its own beside the first or
/// last matching token.
pub open spec fn lem_double(s: Seq<Seq<char>>, l: Seq<char>, kind: LetterPlaceType) -> Seq<
    Seq<char>,
> {
    match kind {
        LetterPlaceType::All => s.map_values(|t: Seq<char>| if t == l { t + t } else { t }),
        LetterPlaceType::First => {
            let k = first_equal(s, l);
            if k < 0 {
                s
            } else {
                s.insert(k, l)
            }
        },
        LetterPlaceType::Last => {
            let k = last_equal(s, l);
            if k < 0 {
                s
            } else {
                s.insert(k + 1, l)
            }
        },
    }
}

/// Removes each token equal to `l` that repeats the token before it;
/// `prev` is the token standing before the sequence.
pub open spec fn dedouble_all_from(s: Seq<Seq<char>>, l: Seq<char>, prev: Seq<char>) -> Seq<
    Seq<char>,
>
    decreases s.len(),
{
    if s.len() == 0 {
        Seq::empty()
    } else if s[0] == prev && s[0] == l {
        dedouble_all_from(s.skip(1), l, prev)
    } else {
        seq![s[0]] + dedouble_all_from(s.skip(1), l, s[0])
    }
}

/// As `dedouble_all_from`, but removes at most one token; `found` says
/// whether the removal already happened.
pub open spec fn dedouble_first_from(
    s: Seq<Seq<char>>,
    l: Seq<char>,
    prev: Seq<char>,
    found: bool,
) -> Seq<Seq<char>>
    decreases s.len(),
{
    if s.len() == 0 {
        Seq::empty()
    } else if s[0] == prev && !found && s[0] == l {
        dedouble_first_from(s.skip(1), l, prev, true)
    } else {
        seq![s[0]] + dedouble_first_from(s.skip(1), l, s[0], found)
    }
}

/// One doubled letter removed, chosen by the place selector.
pub open spec fn lem_dedouble(s: Seq<Seq<char>>, l: Seq<char>, kind: LetterPlaceType) -> Seq<
    Seq<char>,
> {
    match kind {
        LetterPlaceType::All => dedouble_all_from(s, l, Seq::empty()),
        LetterPlaceType::First => dedouble_first_from(s, l, Seq::empty(), false),
        LetterPlaceType::Last => dedouble_first_from(
            s.reverse(),
            l,
            Seq::empty(),
            false,
        ).reverse(),
    }
}

/// The tokens picked by a letter-array rewrite: a literal entry stands
/// for itself, an index entry for the token at that position of `toks`;
/// out-of-range indices are skipped.
pub open spec fn letter_array_toks(toks: Seq<Seq<char>>, arr: Seq<LetterArrayValues>) -> Seq<
    Seq<char>,
>
    decreases arr.len(),
{
    if arr.len() == 0 {
        Seq::empty()
    } else {
        let head = match arr[0] {
            LetterArrayValues::Char(c) => seq![c@],
            LetterArrayValues::Place(p) => {
                if 0 <= p as int && (p as int) < toks.len() {
                    seq![toks[p as int]]
                } else {
                    Seq::empty()
                }
            },
        };
        head + letter_array_toks(toks, arr.skip(1))
    }
}

/// Does a regular expression pattern compile?
pub uninterp spec fn regex_ok(p: Seq<char>) -> bool;

/// The text with the leftmost match of the pattern replaced.
pub uninterp spec fn regex_replace_first(p: Seq<char>, text: Seq<char>, rep: Seq<char>) -> Seq<
    char,
>;

/// Relies on regex::Regex::new, whose success depends only on the
/// pattern, and regex::Regex::replace, which rewrites the leftmost match
/// of the pattern and depends only on pattern, haystack and replacement.
#[verifier::external_body]
fn regex_replace_exec(pat: &str, text: &str, rep: &str) -> (r: Option<String>)
    ensures
        r is Some <==> regex_ok(pat@),
        match r {
            Some(s) => s@ == regex_replace_first(pat@, text@, rep@),
            None => true,
        },
{
    match regex::Regex::new(pat) {
        Ok(re) => Some(re.replace(text, rep).into_owned()),
        Err(_) => None,
    }
}

/// A word as an ordered sequence of grapheme tokens.
#[derive(Debug)]
pub struct Lemma {
    tokens: Vec<String>,
}

impl View for Lemma {
    type V = Seq<Seq<char>>;

    closed spec fn view(&self) -> Seq<Seq<char>> {
        self.tokens.deep_view()
    }
}

impl Lemma {
    /// Every token of a well-formed lemma is acceptable.
    #[verifier::type_invariant]
    pub closed spec fn wf(&self) -> bool {
        tokens_ok(self@)
    }
}

/// The delimiter as a string slice.
fn sep_str() -> (r: &'static str)
    ensures
        r@ == sep_tok(),
{
    let s = "\u{200B}";
    proof {
        reveal_strlit("\u{200B}");
        assert(s@ =~= sep_tok());
    }
    s
}

/// Is the token acceptable for a lemma?
fn tok_ok_exec(t: &str) -> (r: bool)
    ensures
        r == tok_ok(t@),
{
    if t.unicode_len() == 0 {
        return false;
    }
    proof {
        crate::text::lemma_find_sub_props(t@, sep_tok());
    }
    match crate::text::find_sub_exec(t, sep_str()) {
        Some(i) => {
            proof {
                assert(crate::text::occurs_at(t@, sep_tok(), i as int));
                assert(t@.subrange(i as int, i as int + 1)[0] == t@[i as int]);
                assert(t@[i as int] == WORD_SEP);
            }
            false
        },
        None => {
            proof {
                assert forall|j: int| 0 <= j < t@.len() implies t@[j] != WORD_SEP by {
                    if t@[j] == WORD_SEP {
                        assert(t@.subrange(j, j + 1) =~= sep_tok());
                        assert(crate::text::occurs_at(t@, sep_tok(), j));
                    }
                }
            }
            true
        },
    }
}

proof fn lemma_norm_take_step(s: Seq<Seq<char>>, i: int)
    requires
        0 <= i < s.len(),
    ensures
        norm_toks(s.take(i + 1)) == if tok_ok(s[i]) {
            norm_toks(s.take(i)).push(s[i])
        } else {
            norm_toks(s.take(i))
        },
{
    assert(s.take(i + 1).drop_last() =~= s.take(i));
    assert(s.take(i + 1).last() == s[i]);
}

proof fn lemma_norm_all_ok(s: Seq<Seq<char>>)
    requires
        tokens_ok(s),
    ensures
        norm_toks(s) == s,
    decreases s.len(),
{
    if s.len() > 0 {
        lemma_norm_all_ok(s.drop_last());
        assert(norm_toks(s) =~= s);
    } else {
        assert(norm_toks(s) =~= s);
    }
}

proof fn lemma_norm_ok(s: Seq<Seq<char>>)
    ensures
        tokens_ok(norm_toks(s)),
    decreases s.len(),
{
    if s.len() > 0 {
        lemma_norm_ok(s.drop_last());
    }
}

/// Keeps only the acceptable tokens of `v`.
fn normalize_vec(v: &Vec<String>) -> (r: Vec<String>)
    ensures
        r.deep_view() == norm_toks(v.deep_view()),
        tokens_ok(r.deep_view()),
{
    let ghost s = v.deep_view();
    let mut r: Vec<String> = Vec::new();
    let mut i: usize = 0;
    while i < v.len()
        invariant
            0 <= i <= v.len(),
            s == v.deep_view(),
            s.len() == v.len(),
            r.deep_view() == norm_toks(s.take(i as int)),
            tokens_ok(r.deep_view()),
        decreases v.len() - i,
    {
        proof {
            lemma_norm_take_step(s, i as int);
        }
        if tok_ok_exec(v[i].as_str()) {
            let ghost prev = r.deep_view();
            r.push(v[i].clone());
            assert(r.deep_view() =~= prev.push(s[i as int]));
        }
        i += 1;
    }
    assert(s.take(i as int) =~= s);
    r
}

impl Default for Lemma {
    /// The empty lemma.
    fn default() -> (r: Self)
        ensures
            r@ == Seq::<Seq<char>>::empty(),
    {
        let r = Lemma { tokens: Vec::new() };
        proof {
            assert(r@ =~= Seq::<Seq<char>>::empty());
        }
        r
    }
}

impl Clone for Lemma {
    /// A clone holds the same tokens.
    fn clone(&self) -> (r: Self)
        ensures
            r@ == self@,
    {
        proof {
            use_type_invariant(self);
        }
        Lemma { tokens: clone_string_vec(&self.tokens) }
    }
}

impl PartialEq for Lemma {
    fn eq(&self, other: &Self) -> (r: bool) {
        if self.tokens.len() != other.tokens.len() {
            assert(self@.len() != other@.len());
            return false;
        }
        let n = self.tokens.len();
        let mut i: usize = 0;
        while i < n
            invariant
                n == self.tokens.len(),
                n == other.tokens.len(),
                0 <= i <= n,
                forall|j: int| 0 <= j < i ==> self@[j] == other@[j],
            decreases n - i,
        {
            if !str_eq(self.tokens[i].as_str(), other.tokens[i].as_str()) {
                assert(self@[i as int] != other@[i as int]);
                return false;
            }
            i += 1;
        }
        assert(self@ =~= other@);
        true
    }
}

impl vstd::std_specs::cmp::PartialEqSpecImpl for Lemma {
    open spec fn obeys_eq_spec() -> bool {
        true
    }

    open spec fn eq_spec(&self, other: &Lemma) -> bool {
        self@ == other@
    }
}

impl Eq for Lemma {}

impl Lemma {
    /// Builds a lemma from a plain string, split into Unicode extended
    /// grapheme clusters.
    ///
    /// Law (grapheme round trip): when the source text holds no reserved
    /// delimiter, splitting the display form of the result yields exactly
    /// the result's own tokens.
    pub fn new(s: &str) -> (r: Lemma)
        ensures
            r@ == lemma_of_string(s@),
            graphemes(s@).flatten() == s@,
            tokens_nonempty(graphemes(s@)),
            (forall|i: int| 0 <= i < graphemes(s@).len() ==> sep_free(#[trigger] graphemes(s@)[i]))
                ==> {
                &&& r@ == graphemes(s@)
                &&& r@.flatten() == s@
                &&& graphemes(r@.flatten()) == r@
            },
    {
        let raw = split_graphemes(s);
        let toks = normalize_vec(&raw);
        let r = Lemma { tokens: toks };
        proof {
            if forall|i: int|
                0 <= i < graphemes(s@).len() ==> sep_free(#[trigger] graphemes(s@)[i]) {
                assert(tokens_ok(graphemes(s@)));
                lemma_norm_all_ok(graphemes(s@));
            }
        }
        r
    }

    /// Builds a lemma from an ordered list of grapheme tokens, used
    /// verbatim; empty tokens and tokens holding the delimiter are dropped.
    pub fn from_tokens(v: Vec<String>) -> (r: Lemma)
        ensures
            r@ == norm_toks(v.deep_view()),
    {
        Lemma { tokens: normalize_vec(&v) }
    }

    /// As `from_tokens`, from string slices.
    pub fn from_token_strs(v: Vec<&str>) -> (r: Lemma)
        ensures
            r@ == norm_toks(v.deep_view()),
    {
        let mut owned: Vec<String> = Vec::new();
        let mut i: usize = 0;
        while i < v.len()
            invariant
                0 <= i <= v.len(),
                owned.len() == i,
                forall|j: int| 0 <= j < i ==> owned.deep_view()[j] == v.deep_view()[j],
            decreases v.len() - i,
        {
            owned.push(v[i].to_owned());
            i += 1;
        }
        assert(owned.deep_view() =~= v.deep_view());
        Lemma::from_tokens(owned)
    }

    /// The number of grapheme tokens.
    pub fn len(&self) -> (r: usize)
        ensures
            r == self@.len(),
    {
        self.tokens.len()
    }

    /// True when the lemma has no tokens.
    pub fn is_empty(&self) -> (r: bool)
        ensures
            r == (self@.len() == 0),
    {
        self.tokens.len() == 0
    }

    /// The tokens of the lemma, in order.
    pub fn chars(self) -> (r: Vec<String>)
        ensures
            r.deep_view() == self@,
    {
        self.tokens
    }

    /// The display form: the tokens concatenated, without delimiters.
    pub fn string_without_sep(&self) -> (r: String)
        ensures
            r@ == self@.flatten(),
    {
        let ghost s = self@;
        let mut out = String::new();
        let mut i: usize = 0;
        while i < self.tokens.len()
            invariant
                0 <= i <= self.tokens.len(),
                s == self@,
                s.len() == self.tokens.len(),
                out@ == s.take(i as int).flatten(),
            decreases self.tokens.len() - i,
        {
            proof {
                assert(s.take(i + 1) =~= s.take(i as int).push(s[i as int]));
                s.take(i as int).lemma_flatten_push(s[i as int]);
            }
            out.append(self.tokens[i].as_str());
            i += 1;
        }
        assert(s.take(i as int) =~= s);
        out
    }

    /// The delimited internal form: each token followed by the delimiter.
    pub fn delimited_string(&self) -> (r: String)
        ensures
            r@ == delim(self@),
    {
        let ghost s = self@;
        let mut out = String::new();
        let mut i: usize = 0;
        while i < self.tokens.len()
            invariant
                0 <= i <= self.tokens.len(),
                s == self@,
                s.len() == self.tokens.len(),
                out@ == delim(s.take(i as int)),
            decreases self.tokens.len() - i,
        {
            out.append(self.tokens[i].as_str());
            out.append(sep_str());
            proof {
                assert(s.take(i as int + 1).drop_last() =~= s.take(i as int));
                assert(out@ =~= delim(s.take(i as int + 1)));
            }
            i += 1;
        }
        assert(s.take(i as int) =~= s);
        out
    }

    /// Appends the tokens of `pushed` after this lemma's tokens.
    pub fn push(&mut self, pushed: Lemma)
        ensures
            final(self)@ == old(self)@ + pushed@,
    {
        proof {
            use_type_invariant(&*self);
            use_type_invariant(&pushed);
        }
        let ghost a = self@;
        let ghost b = pushed@;
        let mut toks = clone_string_vec(&self.tokens);
        let mut more = pushed.tokens;
        toks.append(&mut more);
        proof {
            assert(toks.deep_view() =~= a + b);
        }
        let r = Lemma { tokens: toks };
        *self = r;
    }

    /// Appends one grapheme token; an empty or delimiter token is dropped.
    pub fn push_char(&mut self, pushed: &str)
        ensures
            final(self)@ == if tok_ok(pushed@) {
                old(self)@.push(pushed@)
            } else {
                old(self)@
            },
    {
        proof {
            use_type_invariant(&*self);
        }
        let ghost a = self@;
        if tok_ok_exec(pushed) {
            let mut toks = clone_string_vec(&self.tokens);
            toks.push(pushed.to_owned());
            proof {
                assert(toks.deep_view() =~= a.push(pushed@));
            }
            let r = Lemma { tokens: toks };
            *self = r;
        }
    }

    /// Prepends the tokens of `prefix`.
    pub fn add_prefix(&mut self, prefix: &Lemma)
        ensures
            final(self)@ == prefix@ + old(self)@,
    {
        proof {
            use_type_invariant(&*self);
            use_type_invariant(prefix);
        }
        let ghost a = self@;
        let mut toks = clone_string_vec(&prefix.tokens);
        let mut tail = clone_string_vec(&self.tokens);
        toks.append(&mut tail);
        proof {
            assert(toks.deep_view() =~= prefix@ + a);
        }
        let r = Lemma { tokens: toks };
        *self = r;
    }

    /// Appends the tokens of `postfix`.
    pub fn add_postfix(&mut self, postfix: &Lemma)
        ensures
            final(self)@ == old(self)@ + postfix@,
    {
        proof {
            use_type_invariant(&*self);
            use_type_invariant(postfix);
        }
        let ghost a = self@;
        let mut toks = clone_string_vec(&self.tokens);
        let mut tail = clone_string_vec(&postfix.tokens);
        toks.append(&mut tail);
        proof {
            assert(toks.deep_view() =~= a + postfix@);
        }
        let r = Lemma { tokens: toks };
        *self = r;
    }
}

proof fn lemma_first_containing_props(s: Seq<Seq<char>>, p: Seq<char>)
    ensures
        first_containing(s, p) < 0 ==> forall|i: int|
            0 <= i < s.len() ==> !contains_sub(#[trigger] s[i], p),
        first_containing(s, p) >= 0 ==> {
            &&& first_containing(s, p) < s.len()
            &&& contains_sub(s[first_containing(s, p)], p)
            &&& forall|j: int| 0 <= j < first_containing(s, p) ==> !contains_sub(#[trigger] s[j], p)
        },
    decreases s.len(),
{
    if s.len() > 0 && !contains_sub(s[0], p) {
        lemma_first_containing_props(s.skip(1), p);
        assert(forall|j: int| 1 <= j < s.len() ==> s.skip(1)[j - 1] == #[trigger] s[j]);
    }
}

proof fn lemma_last_containing_props(s: Seq<Seq<char>>, p: Seq<char>)
    ensures
        last_containing(s, p) < 0 ==> forall|i: int|
            0 <= i < s.len() ==> !contains_sub(#[trigger] s[i], p),
        last_containing(s, p) >= 0 ==> {
            &&& last_containing(s, p) < s.len()
            &&& contains_sub(s[last_containing(s, p)], p)
            &&& forall|j: int|
                last_containing(s, p) < j < s.len() ==> !contains_sub(#[trigger] s[j], p)
        },
    decreases s.len(),
{
    if s.len() > 0 && !contains_sub(s.last(), p) {
        lemma_last_containing_props(s.drop_last(), p);
        assert(forall|j: int| 0 <= j < s.len() - 1 ==> s.drop_last()[j] == #[trigger] s[j]);
    }
}

proof fn lemma_first_equal_props(s: Seq<Seq<char>>, l: Seq<char>)
    ensures
        first_equal(s, l) < 0 ==> forall|i: int| 0 <= i < s.len() ==> #[trigger] s[i] != l,
        first_equal(s, l) >= 0 ==> {
            &&& first_equal(s, l) < s.len()
            &&& s[first_equal(s, l)] == l
            &&& forall|j: int| 0 <= j < first_equal(s, l) ==> #[trigger] s[j] != l
        },
    decreases s.len(),
{
    if s.len() > 0 && s[0] != l {
        lemma_first_equal_props(s.skip(1), l);
        assert(forall|j: int| 1 <= j < s.len() ==> s.skip(1)[j - 1] == #[trigger] s[j]);
    }
}

proof fn lemma_last_equal_props(s: Seq<Seq<char>>, l: Seq<char>)
    ensures
        last_equal(s, l) < 0 ==> forall|i: int| 0 <= i < s.len() ==> #[trigger] s[i] != l,
        last_equal(s, l) >= 0 ==> {
            &&& last_equal(s, l) < s.len()
            &&& s[last_equal(s, l)] == l
            &&& forall|j: int| last_equal(s, l) < j < s.len() ==> #[trigger] s[j] != l
        },
    decreases s.len(),
{
    if s.len() > 0 && s.last() != l {
        lemma_last_equal_props(s.drop_last(), l);
        assert(forall|j: int| 0 <= j < s.len() - 1 ==> s.drop_last()[j] == #[trigger] s[j]);
    }
}

/// First token of `v` that contains `p`, as an index.
fn find_first_containing(v: &Vec<String>, p: &str) -> (r: Option<usize>)
    ensures
        match r {
            Some(i) => first_containing(v.deep_view(), p@) == i as int && (i as int)
                < v.deep_view().len(),
            None => first_containing(v.deep_view(), p@) < 0,
        },
{
    let ghost s = v.deep_view();
    proof {
        lemma_first_containing_props(s, p@);
    }
    let mut i: usize = 0;
    while i < v.len()
        invariant
            s == v.deep_view(),
            s.len() == v.len(),
            0 <= i <= v.len(),
            forall|j: int| 0 <= j < i ==> !contains_sub(#[trigger] s[j], p@),
            first_containing(s, p@) < 0 ==> forall|k: int|
                0 <= k < s.len() ==> !contains_sub(#[trigger] s[k], p@),
            first_containing(s, p@) >= 0 ==> {
                &&& first_containing(s, p@) < s.len()
                &&& contains_sub(s[first_containing(s, p@)], p@)
                &&& forall|j: int|
                    0 <= j < first_containing(s, p@) ==> !contains_sub(#[trigger] s[j], p@)
            },
        decreases v.len() - i,
    {
        if contains_sub_exec(v[i].as_str(), p) {
            proof {
                let k = first_containing(s, p@);
                if k < 0 {
                    assert(!contains_sub(s[i as int], p@));
                } else if k < i as int {
                    assert(!contains_sub(s[k], p@));
                } else if k > i as int {
                    assert(!contains_sub(s[i as int], p@));
                }
            }
            return Some(i);
        }
        i += 1;
    }
    None
}

/// Last token of `v` that contains `p`, as an index.
fn find_last_containing(v: &Vec<String>, p: &str) -> (r: Option<usize>)
    ensures
        match r {
            Some(i) => last_containing(v.deep_view(), p@) == i as int && (i as int)
                < v.deep_view().len(),
            None => last_containing(v.deep_view(), p@) < 0,
        },
{
    let ghost s = v.deep_view();
    proof {
        lemma_last_containing_props(s, p@);
    }
    let mut i: usize = v.len();
    while i > 0
        invariant
            s == v.deep_view(),
            s.len() == v.len(),
            0 <= i <= v.len(),
            forall|j: int| i <= j < s.len() ==> !contains_sub(#[trigger] s[j], p@),
            last_containing(s, p@) < 0 ==> forall|k: int|
                0 <= k < s.len() ==> !contains_sub(#[trigger] s[k], p@),
            last_containing(s, p@) >= 0 ==> {
                &&& last_containing(s, p@) < s.len()
                &&& contains_sub(s[last_containing(s, p@)], p@)
                &&& forall|j: int|
                    last_containing(s, p@) < j < s.len() ==> !contains_sub(#[trigger] s[j], p@)
            },
        decreases i,
    {
        i -= 1;
        if contains_sub_exec(v[i].as_str(), p) {
            proof {
                let k = last_containing(s, p@);
                if k < 0 {
                    assert(!contains_sub(s[i as int], p@));
                } else if k > i as int {
                    assert(!contains_sub(s[k], p@));
                } else if k < i as int {
                    assert(!contains_sub(s[i as int], p@));
                }
            }
            return Some(i);
        }
    }
    None
}

/// First token of `v` equal to `l`, as an index.
fn find_first_equal(v: &Vec<String>, l: &str) -> (r: Option<usize>)
    ensures
        match r {
            Some(i) => first_equal(v.deep_view(), l@) == i as int && (i as int)
                < v.deep_view().len(),
            None => first_equal(v.deep_view(), l@) < 0,
        },
{
    let ghost s = v.deep_view();
    proof {
        lemma_first_equal_props(s, l@);
    }
    let mut i: usize = 0;
    while i < v.len()
        invariant
            s == v.deep_view(),
            s.len() == v.len(),
            0 <= i <= v.len(),
            forall|j: int| 0 <= j < i ==> #[trigger] s[j] != l@,
            first_equal(s, l@) < 0 ==> forall|k: int| 0 <= k < s.len() ==> #[trigger] s[k] != l@,
            first_equal(s, l@) >= 0 ==> {
                &&& first_equal(s, l@) < s.len()
                &&& s[first_equal(s, l@)] == l@
                &&& forall|j: int| 0 <= j < first_equal(s, l@) ==> #[trigger] s[j] != l@
            },
        decreases v.len() - i,
    {
        if str_eq(v[i].as_str(), l) {
            proof {
                let k = first_equal(s, l@);
                if k < 0 {
                    assert(s[i as int] != l@);
                } else if k < i as int {
                    assert(s[k] != l@);
                } else if k > i as int {
                    assert(s[i as int] != l@);
                }
            }
            return Some(i);
        }
        i += 1;
    }
    None
}

/// Last token of `v` equal to `l`, as an index.
fn find_last_equal(v: &Vec<String>, l: &str) -> (r: Option<usize>)
    ensures
        match r {
            Some(i) => last_equal(v.deep_view(), l@) == i as int && (i as int)
                < v.deep_view().len(),
            None => last_equal(v.deep_view(), l@) < 0,
        },
{
    let ghost s = v.deep_view();
    proof {
        lemma_last_equal_props(s, l@);
    }
    let mut i: usize = v.len();
    while i > 0
        invariant
            s == v.deep_view(),
            s.len() == v.len(),
            0 <= i <= v.len(),
            forall|j: int| i <= j < s.len() ==> #[trigger] s[j] != l@,
            last_equal(s, l@) < 0 ==> forall|k: int| 0 <= k < s.len() ==> #[trigger] s[k] != l@,
            last_equal(s, l@) >= 0 ==> {
                &&& last_equal(s, l@) < s.len()
                &&& s[last_equal(s, l@)] == l@
                &&& forall|j: int| last_equal(s, l@) < j < s.len() ==> #[trigger] s[j] != l@
            },
        decreases i,
    {
        i -= 1;
        if str_eq(v[i].as_str(), l) {
            proof {
                let k = last_equal(s, l@);
                if k < 0 {
                    assert(s[i as int] != l@);
                } else if k > i as int {
                    assert(s[k] != l@);
                } else if k < i as int {
                    assert(s[i as int] != l@);
                }
            }
            return Some(i);
        }
    }
    None
}

/// A copy of `v` with the token at `k` exchanged for `t`.
fn set_token(v: &Vec<String>, k: usize, t: String) -> (r: Vec<String>)
    requires
        (k as int) < v.deep_view().len(),
    ensures
        r.deep_view() == v.deep_view().update(k as int, t@),
{
    let ghost s = v.deep_view();
    let mut r: Vec<String> = Vec::new();
    let mut i: usize = 0;
    while i < v.len()
        invariant
            s == v.deep_view(),
            s.len() == v.len(),
            (k as int) < s.len(),
            0 <= i <= v.len(),
            r.deep_view().len() == i,
            forall|j: int|
                0 <= j < i ==> r.deep_view()[j] == (if j == k as int {
                    t@
                } else {
                    s[j]
                }),
        decreases v.len() - i,
    {
        let ghost prev = r.deep_view();
        if i == k {
            r.push(t.clone());
            proof {
                assert(r.deep_view() =~= prev.push(t@));
            }
        } else {
            r.push(v[i].clone());
            proof {
                assert(r.deep_view() =~= prev.push(s[i as int]));
            }
        }
        i += 1;
    }
    assert(r.deep_view() =~= s.update(k as int, t@));
    r
}

/// A copy of `v` with the tokens in reverse order.
fn reverse_vec(v: &Vec<String>) -> (r: Vec<String>)
    ensures
        r.deep_view() == v.deep_view().reverse(),
{
    let ghost s = v.deep_view();
    let mut r: Vec<String> = Vec::new();
    let mut i: usize = 0;
    while i < v.len()
        invariant
            s == v.deep_view(),
            s.len() == v.len(),
            0 <= i <= v.len(),
            r.deep_view().len() == i,
            forall|j: int| 0 <= j < i ==> r.deep_view()[j] == s[s.len() - 1 - j],
        decreases v.len() - i,
    {
        let ghost prev = r.deep_view();
        r.push(v[v.len() - 1 - i].clone());
        proof {
            assert(r.deep_view() =~= prev.push(s[s.len() - 1 - i as int]));
        }
        i += 1;
    }
    assert(r.deep_view() =~= s.reverse());
    r
}

/// Removes, at most once, a token equal to `letter` that repeats the one
/// before it.
fn dedouble_first_vec(v: &Vec<String>, letter: &str) -> (r: Vec<String>)
    requires
        tokens_ok(v.deep_view()),
    ensures
        r.deep_view() == dedouble_first_from(v.deep_view(), letter@, Seq::empty(), false),
        tokens_ok(r.deep_view()),
{
    let ghost s = v.deep_view();
    let mut acc: Vec<String> = Vec::new();
    let mut cur: String = String::new();
    let mut found = false;
    let mut i: usize = 0;
    proof {
        assert(s.skip(0) =~= s);
        assert(Seq::<Seq<char>>::empty() + dedouble_first_from(s, letter@, Seq::empty(), false)
            =~= dedouble_first_from(s, letter@, Seq::empty(), false));
        assert(acc.deep_view() =~= Seq::<Seq<char>>::empty());
    }
    while i < v.len()
        invariant
            s == v.deep_view(),
            s.len() == v.len(),
            tokens_ok(s),
            0 <= i <= v.len(),
            tokens_ok(acc.deep_view()),
            i == 0 ==> cur@ == Seq::<char>::empty() && !found,
            dedouble_first_from(s, letter@, Seq::empty(), false) == acc.deep_view()
                + dedouble_first_from(s.skip(i as int), letter@, cur@, found),
        decreases v.len() - i,
    {
        proof {
            assert(s.skip(i as int)[0] == s[i as int]);
            assert(s.skip(i as int).skip(1) =~= s.skip(i as int + 1));
        }
        let tok = &v[i];
        if str_eq(tok.as_str(), cur.as_str()) && !found && str_eq(tok.as_str(), letter) {
            found = true;
        } else {
            let ghost prev_acc = acc.deep_view();
            acc.push(tok.clone());
            cur = tok.clone();
            proof {
                assert(tok_ok(s[i as int]));
                assert(acc.deep_view() =~= prev_acc + seq![s[i as int]]);
                assert(prev_acc + (seq![s[i as int]] + dedouble_first_from(
                    s.skip(i as int + 1),
                    letter@,
                    s[i as int],
                    found,
                )) =~= acc.deep_view() + dedouble_first_from(
                    s.skip(i as int + 1),
                    letter@,
                    s[i as int],
                    found,
                ));
            }
        }
        i += 1;
    }
    proof {
        assert(s.skip(i as int) =~= Seq::<Seq<char>>::empty());
        assert(acc.deep_view() + Seq::<Seq<char>>::empty() =~= acc.deep_view());
    }
    acc
}

impl Lemma {
    /// Token-level substring replacement. `All` rewrites every occurrence
    /// in every token; `First` the leftmost occurrence in the first token
    /// that holds one; `Last` the leftmost occurrence in the last such
    /// token. Tokens emptied by the rewrite are dropped; an empty search
    /// string changes nothing.
    pub fn replace(&mut self, old_letter: &str, new_letter: &str, kind: &LetterPlaceType)
        ensures
            final(self)@ == lem_replace(old(self)@, old_letter@, new_letter@, *kind),
    {
        proof {
            use_type_invariant(&*self);
        }
        let ghost s = self@;
        if old_letter.unicode_len() == 0 {
            return ;
        }
        match kind {
            LetterPlaceType::All => {
                let mut raw: Vec<String> = Vec::new();
                let mut i: usize = 0;
                while i < self.tokens.len()
                    invariant
                        s == self@,
                        s.len() == self.tokens.len(),
                        0 <= i <= self.tokens.len(),
                        old_letter@.len() > 0,
                        raw.deep_view() == map_replace_all(
                            s.take(i as int),
                            old_letter@,
                            new_letter@,
                        ),
                    decreases self.tokens.len() - i,
                {
                    let t = replace_all_exec(self.tokens[i].as_str(), old_letter, new_letter);
                    let ghost prev = raw.deep_view();
                    raw.push(t);
                    proof {
                        assert(s.take(i as int + 1).drop_last() =~= s.take(i as int));
                        assert(raw.deep_view() =~= prev.push(
                            replace_all_sub(s[i as int], old_letter@, new_letter@),
                        ));
                    }
                    i += 1;
                }
                proof {
                    assert(s.take(i as int) =~= s);
                }
                let toks = normalize_vec(&raw);
                *self = Lemma { tokens: toks };
            },
            LetterPlaceType::First => {
                match find_first_containing(&self.tokens, old_letter) {
                    None => {},
                    Some(k) => {
                        let (newtok, _) = replace_first_exec(
                            self.tokens[k].as_str(),
                            old_letter,
                            new_letter,
                        );
                        let raw = set_token(&self.tokens, k, newtok);
                        let toks = normalize_vec(&raw);
                        *self = Lemma { tokens: toks };
                    },
                }
            },
            LetterPlaceType::Last => {
                match find_last_containing(&self.tokens, old_letter) {
                    None => {},
                    Some(k) => {
                        let (newtok, _) = replace_first_exec(
                            self.tokens[k].as_str(),
                            old_letter,
                            new_letter,
                        );
                        let raw = set_token(&self.tokens, k, newtok);
                        let toks = normalize_vec(&raw);
                        *self = Lemma { tokens: toks };
                    },
                }
            },
        }
    }

    /// Removes the given letter, at the chosen place, by rewriting it to
    /// nothing and dropping the emptied tokens.
    pub fn remove_char(&mut self, letter: &str, remove_type: &LetterPlaceType)
        ensures
            final(self)@ == lem_replace(old(self)@, letter@, Seq::empty(), *remove_type),
    {
        let empty = "";
        proof {
            reveal_strlit("");
            assert(empty@ =~= Seq::<char>::empty());
        }
        self.replace(letter, empty, remove_type);
    }

    /// Doubles the chosen letter: `All` doubles the text of every token
    /// equal to it; `First` and `Last` insert one extra copy beside the
    /// first or last matching token.
    pub fn double(&mut self, letter: &str, position: &LetterPlaceType)
        ensures
            final(self)@ == lem_double(old(self)@, letter@, *position),
    {
        proof {
            use_type_invariant(&*self);
        }
        let ghost s = self@;
        match position {
            LetterPlaceType::All => {
                let mut raw: Vec<String> = Vec::new();
                let mut i: usize = 0;
                while i < self.tokens.len()
                    invariant
                        s == self@,
                        s.len() == self.tokens.len(),
                        tokens_ok(s),
                        0 <= i <= self.tokens.len(),
                        raw.deep_view().len() == i,
                        tokens_ok(raw.deep_view()),
                        forall|j: int|
                            0 <= j < i ==> raw.deep_view()[j] == (if s[j] == letter@ {
                                s[j] + s[j]
                            } else {
                                s[j]
                            }),
                    decreases self.tokens.len() - i,
                {
                    let ghost prev = raw.deep_view();
                    if str_eq(self.tokens[i].as_str(), letter) {
                        let doubled = self.tokens[i].clone().concat(self.tokens[i].as_str());
                        raw.push(doubled);
                        proof {
                            assert(raw.deep_view() =~= prev.push(s[i as int] + s[i as int]));
                            assert(tok_ok(s[i as int]));
                            assert((s[i as int] + s[i as int]).len() >= 2);
                            assert(sep_tok().len() == 1);
                            assert(tok_ok(s[i as int] + s[i as int]));
                        }
                    } else {
                        raw.push(self.tokens[i].clone());
                        proof {
                            assert(raw.deep_view() =~= prev.push(s[i as int]));
                            assert(tok_ok(s[i as int]));
                        }
                    }
                    i += 1;
                }
                proof {
                    assert(raw.deep_view() =~= lem_double(s, letter@, LetterPlaceType::All));
                }
                *self = Lemma { tokens: raw };
            },
            LetterPlaceType::First => {
                match find_first_equal(&self.tokens, letter) {
                    None => {},
                    Some(k) => {
                        proof {
                            lemma_first_equal_props(s, letter@);
                            assert(s[k as int] == letter@);
                            assert(tok_ok(letter@));
                        }
                        let mut toks = clone_string_vec(&self.tokens);
                        toks.insert(k, letter.to_owned());
                        proof {
                            assert(toks.deep_view() =~= s.insert(k as int, letter@));
                            assert(tokens_ok(toks.deep_view()));
                        }
                        *self = Lemma { tokens: toks };
                    },
                }
            },
            LetterPlaceType::Last => {
                match find_last_equal(&self.tokens, letter) {
                    None => {},
                    Some(k) => {
                        proof {
                            lemma_last_equal_props(s, letter@);
                            assert(s[k as int] == letter@);
                            assert(tok_ok(letter@));
                            assert(k < self.tokens.len());
                        }
                        let mut toks = clone_string_vec(&self.tokens);
                        toks.insert(k + 1, letter.to_owned());
                        proof {
                            assert(toks.deep_view() =~= s.insert(k as int + 1, letter@));
                            assert(tokens_ok(toks.deep_view()));
                        }
                        *self = Lemma { tokens: toks };
                    },
                }
            },
        }
    }

    /// Removes one of two adjacent identical tokens equal to the letter:
    /// `All` collapses every such run, `First` and `Last` remove a single
    /// repeated token at the first or last doubled place.
    pub fn dedouble(&mut self, letter: &str, position: &LetterPlaceType)
        ensures
            final(self)@ == lem_dedouble(old(self)@, letter@, *position),
    {
        proof {
            use_type_invariant(&*self);
        }
        let ghost s = self@;
        match position {
            LetterPlaceType::All => {
                let mut acc: Vec<String> = Vec::new();
                let mut cur: String = String::new();
                let mut i: usize = 0;
                proof {
                    assert(s.skip(0) =~= s);
                    assert(Seq::<Seq<char>>::empty() + dedouble_all_from(s, letter@, Seq::empty())
                        =~= dedouble_all_from(s, letter@, Seq::empty()));
                    assert(acc.deep_view() =~= Seq::<Seq<char>>::empty());
                }
                while i < self.tokens.len()
                    invariant
                        s == self@,
                        s.len() == self.tokens.len(),
                        tokens_ok(s),
                        0 <= i <= self.tokens.len(),
                        tokens_ok(acc.deep_view()),
                        i == 0 ==> cur@ == Seq::<char>::empty(),
                        dedouble_all_from(s, letter@, Seq::empty()) == acc.deep_view()
                            + dedouble_all_from(s.skip(i as int), letter@, cur@),
                    decreases self.tokens.len() - i,
                {
                    proof {
                        assert(s.skip(i as int)[0] == s[i as int]);
                        assert(s.skip(i as int).skip(1) =~= s.skip(i as int + 1));
                    }
                    let tok = &self.tokens[i];
                    if str_eq(tok.as_str(), cur.as_str()) && str_eq(tok.as_str(), letter) {
                    } else {
                        let ghost prev_acc = acc.deep_view();
                        acc.push(tok.clone());
                        cur = tok.clone();
                        proof {
                            assert(tok_ok(s[i as int]));
                            assert(acc.deep_view() =~= prev_acc + seq![s[i as int]]);
                            assert(prev_acc + (seq![s[i as int]] + dedouble_all_from(
                                s.skip(i as int + 1),
                                letter@,
                                s[i as int],
                            )) =~= acc.deep_view() + dedouble_all_from(
                                s.skip(i as int + 1),
                                letter@,
                                s[i as int],
                            ));
                        }
                    }
                    i += 1;
                }
                proof {
                    assert(s.skip(i as int) =~= Seq::<Seq<char>>::empty());
                    assert(acc.deep_view() + Seq::<Seq<char>>::empty() =~= acc.deep_view());
                }
                *self = Lemma { tokens: acc };
            },
            LetterPlaceType::First => {
                let acc = dedouble_first_vec(&self.tokens, letter);
                *self = Lemma { tokens: acc };
            },
            LetterPlaceType::Last => {
                let rev = reverse_vec(&self.tokens);
                proof {
                    assert(tokens_ok(rev.deep_view()));
                }
                let acc = dedouble_first_vec(&rev, letter);
                let out = reverse_vec(&acc);
                proof {
                    assert(tokens_ok(out.deep_view()));
                }
                *self = Lemma { tokens: out };
            },
        }
    }

    /// Rewrites the lemma by concatenating, in order, each entry of the
    /// array: a literal token stands for itself, an index for the token
    /// at that position of the old value; out-of-range indices are
    /// skipped and empty literals dropped.
    pub fn modify_with_array(&mut self, transform_array: &Vec<LetterArrayValues>)
        ensures
            final(self)@ == norm_toks(letter_array_toks(old(self)@, transform_array@)),
    {
        proof {
            use_type_invariant(&*self);
        }
        let ghost s = self@;
        let ghost arr = transform_array@;
        let mut raw: Vec<String> = Vec::new();
        let mut i: usize = 0;
        proof {
            assert(arr.skip(0) =~= arr);
            assert(raw.deep_view() =~= Seq::<Seq<char>>::empty());
            assert(Seq::<Seq<char>>::empty() + letter_array_toks(s, arr) =~= letter_array_toks(
                s,
                arr,
            ));
        }
        while i < transform_array.len()
            invariant
                s == self@,
                arr == transform_array@,
                arr.len() == transform_array.len(),
                s.len() == self.tokens.len(),
                0 <= i <= transform_array.len(),
                letter_array_toks(s, arr) == raw.deep_view() + letter_array_toks(
                    s,
                    arr.skip(i as int),
                ),
            decreases transform_array.len() - i,
        {
            proof {
                assert(arr.skip(i as int)[0] == arr[i as int]);
                assert(arr.skip(i as int).skip(1) =~= arr.skip(i as int + 1));
            }
            let ghost prev = raw.deep_view();
            match &transform_array[i] {
                LetterArrayValues::Char(c) => {
                    raw.push(c.clone());
                    proof {
                        assert(raw.deep_view() =~= prev + seq![c@]);
                        assert(prev + (seq![c@] + letter_array_toks(s, arr.skip(i as int + 1)))
                            =~= raw.deep_view() + letter_array_toks(s, arr.skip(i as int + 1)));
                    }
                },
                LetterArrayValues::Place(p) => {
                    if *p >= 0 && (*p as usize) < self.tokens.len() {
                        let idx = *p as usize;
                        raw.push(self.tokens[idx].clone());
                        proof {
                            assert(raw.deep_view() =~= prev + seq![s[idx as int]]);
                            assert(prev + (seq![s[idx as int]] + letter_array_toks(
                                s,
                                arr.skip(i as int + 1),
                            )) =~= raw.deep_view() + letter_array_toks(s, arr.skip(i as int + 1)));
                        }
                    } else {
                        proof {
                            assert(prev + (Seq::<Seq<char>>::empty() + letter_array_toks(
                                s,
                                arr.skip(i as int + 1),
                            )) =~= prev + letter_array_toks(s, arr.skip(i as int + 1)));
                        }
                    }
                },
            }
            i += 1;
        }
        proof {
            assert(arr.skip(i as int) =~= Seq::<LetterArrayValues>::empty());
            assert(raw.deep_view() + Seq::<Seq<char>>::empty() =~= raw.deep_view());
        }
        let toks = normalize_vec(&raw);
        *self = Lemma { tokens: toks };
    }

    /// Regular-expression substitution on the delimited internal form:
    /// the leftmost match of `old_lem`'s delimited form is rewritten to
    /// `new_lem`'s, and the result split back on the delimiter. A pattern
    /// that does not compile leaves the lemma unchanged.
    pub fn match_replace(&mut self, old_lem: &Lemma, new_lem: &Lemma)
        ensures
            regex_ok(delim(old_lem@)) ==> final(self)@ == split_sep(
                regex_replace_first(delim(old_lem@), delim(old(self)@), delim(new_lem@)),
            ),
            !regex_ok(delim(old_lem@)) ==> final(self)@ == old(self)@,
    {
        let pat = old_lem.delimited_string();
        let text = self.delimited_string();
        let rep = new_lem.delimited_string();
        match regex_replace_exec(pat.as_str(), text.as_str(), rep.as_str()) {
            Some(res) => {
                let toks = split_sep_exec(res.as_str());
                *self = Lemma { tokens: toks };
            },
            None => {},
        }
    }
}

/// Splits a string on the delimiter, dropping empty pieces.
fn split_sep_exec(s: &str) -> (r: Vec<String>)
    ensures
        r.deep_view() == split_sep(s@),
        tokens_ok(r.deep_view()),
    decreases s@.len(),
{
    proof {
        crate::text::lemma_find_sub_props(s@, sep_tok());
    }
    let slen = s.unicode_len();
    if slen == 0 {
        let r: Vec<String> = Vec::new();
        assert(r.deep_view() =~= split_sep(s@));
        return r;
    }
    match crate::text::find_sub_exec(s, sep_str()) {
        None => {
            let mut r: Vec<String> = Vec::new();
            r.push(s.to_owned());
            proof {
                assert(r.deep_view() =~= seq![s@]);
                assert forall|j: int| 0 <= j < s@.len() implies s@[j] != WORD_SEP by {
                    if s@[j] == WORD_SEP {
                        assert(s@.subrange(j, j + 1) =~= sep_tok());
                        assert(occurs_at(s@, sep_tok(), j));
                    }
                }
            }
            r
        },
        Some(i) => {
            let head = s.substring_char(0, i);
            let rest = s.substring_char(i + 1, slen);
            proof {
                assert(head@ =~= s@.take(i as int));
                assert(rest@ =~= s@.skip(i as int + 1));
            }
            let mut tail = split_sep_exec(rest);
            if i > 0 {
                let mut r: Vec<String> = Vec::new();
                r.push(head.to_owned());
                let ghost tail_view = tail.deep_view();
                r.append(&mut tail);
                proof {
                    assert(r.deep_view() =~= seq![s@.take(i as int)] + tail_view);
                    assert forall|j: int|
                        0 <= j < s@.take(i as int).len() implies s@.take(i as int)[j]
                        != WORD_SEP by {
                        if s@.take(i as int)[j] == WORD_SEP {
                            assert(s@.subrange(j, j + 1) =~= sep_tok());
                            assert(occurs_at(s@, sep_tok(), j));
                        }
                    }
                    assert(sep_free(s@.take(i as int)));
                }
                r
            } else {
                tail
            }
        },
    }
}

} // verus!
