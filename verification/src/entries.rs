//! The raw shapes a lexicon is written in: transform and lexis entries
//! as they stand in the user's files, and the conversions between them
//! and the tree's own types.

use vstd::prelude::*;

use crate::kirum::{opt_str_view, word_view, Lexis};
use crate::lemma::Lemma;
use crate::matching::LexisMatch;
use crate::metadata::MetadataMap;
use crate::text::str_eq;
use crate::transforms::{Transform, TransformFunc};
use crate::word::{Etymology, PartOfSpeech};

verus! {

/// A transform as written by the user: its operations and an optional
/// guard.
#[derive(Debug)]
pub struct RawTransform {
    pub transforms: Vec<TransformFunc>,
    pub conditional: Option<LexisMatch>,
}

/// The two raw transforms agree on their operations and guard.
pub open spec fn raw_transform_equiv(a: &RawTransform, b: &RawTransform) -> bool {
    &&& crate::transforms::funcs_equiv(a.transforms@, b.transforms@)
    &&& match (&a.conditional, &b.conditional) {
        (Some(x), Some(y)) => crate::matching::lexis_match_equiv(x, y),
        (None, None) => true,
        _ => false,
    }
}

impl Clone for RawTransform {
    /// A clone agrees with the original on operations and guard.
    fn clone(&self) -> (r: Self)
        ensures
            raw_transform_equiv(&r, self),
    {
        RawTransform {
            transforms: crate::transforms::clone_funcs(&self.transforms),
            conditional: match &self.conditional {
                Some(m) => Some(m.clone()),
                None => None,
            },
        }
    }
}

/// The transform file's content: named raw transforms, in file order.
#[derive(Debug, Clone)]
pub struct TransformGraph {
    pub transforms: Vec<(String, RawTransform)>,
}

/// A single lexis entry as written by the user.
#[derive(Debug)]
pub struct RawLexicalEntry {
    /// Optional word.
    pub word: Option<Lemma>,
    /// Word type: any value, purely for tagging.
    pub word_type: Option<String>,
    /// Language name.
    pub language: Option<String>,
    /// Word definition.
    pub definition: String,
    /// Part of speech.
    pub part_of_speech: Option<PartOfSpeech>,
    /// Etymology map.
    pub etymology: Option<Etymology>,
    /// Marks the word as archaic.
    pub archaic: bool,
    /// Tags used for filtering.
    pub tags: Option<Vec<String>>,
    /// Metadata copied to every derivative word.
    pub historical_metadata: Option<MetadataMap>,
    /// A key asking for generation from the phonetic rules.
    pub generate: Option<String>,
    /// Words added as derivatives of this entry.
    pub derivatives: Option<Vec<Derivative>>,
}

/// A derivative written inside a lexis entry: a shorthand for a word
/// whose etymon is the enclosing entry.
#[derive(Debug)]
pub struct Derivative {
    pub lexis: RawLexicalEntry,
    pub transforms: Option<Vec<String>>,
}

/// The base file of a word tree: entries by id, in file order.
#[derive(Debug)]
pub struct WordGraph {
    pub words: Vec<(String, RawLexicalEntry)>,
}

impl Default for RawLexicalEntry {
    /// An empty entry.
    fn default() -> (r: Self)
        ensures
            r.word is None,
            r.word_type is None,
            r.language is None,
            r.definition@ == Seq::<char>::empty(),
            r.part_of_speech is None,
            r.etymology is None,
            r.archaic == false,
            r.tags is None,
            r.historical_metadata is None,
            r.generate is None,
            r.derivatives is None,
    {
        RawLexicalEntry {
            word: None,
            word_type: None,
            language: None,
            definition: String::new(),
            part_of_speech: None,
            etymology: None,
            archaic: false,
            tags: None,
            historical_metadata: None,
            generate: None,
            derivatives: None,
        }
    }
}

impl RawLexicalEntry {
    /// The lexis this entry stands for: absent strings become empty,
    /// absent collections empty, and the id is left for the caller.
    pub fn to_lexis(self) -> (r: Lexis)
        ensures
            r.id@ == Seq::<char>::empty(),
            word_view(r.word) == word_view(self.word),
            opt_str_view(Some(r.language)) == match self.language {
                Some(l) => Some(l@),
                None => Some(Seq::<char>::empty()),
            },
            r.pos == self.part_of_speech,
            opt_str_view(Some(r.lexis_type)) == match self.word_type {
                Some(t) => Some(t@),
                None => Some(Seq::<char>::empty()),
            },
            r.definition@ == self.definition@,
            r.archaic == self.archaic,
            r.tags.deep_view() == match self.tags {
                Some(t) => t.deep_view(),
                None => Seq::<Seq<char>>::empty(),
            },
            r.historical_metadata@ == match self.historical_metadata {
                Some(m) => m@,
                None => Seq::<(Seq<char>, Seq<char>)>::empty(),
            },
            opt_str_view(r.word_create) == opt_str_view(self.generate),
    {
        let tags = match self.tags {
            Some(t) => t,
            None => Vec::new(),
        };
        let meta = match self.historical_metadata {
            Some(m) => m,
            None => MetadataMap::new(),
        };
        proof {
            if self.tags is None {
                assert(tags.deep_view() =~= Seq::<Seq<char>>::empty());
            }
        }
        Lexis {
            id: String::new(),
            word: self.word,
            language: match self.language {
                Some(l) => l,
                None => String::new(),
            },
            pos: self.part_of_speech,
            lexis_type: match self.word_type {
                Some(t) => t,
                None => String::new(),
            },
            definition: self.definition,
            archaic: self.archaic,
            tags,
            historical_metadata: meta,
            word_create: self.generate,
        }
    }

    /// The entry a lexis writes back out as: empty strings become
    /// absent, empty collections absent, and no etymology or
    /// derivatives are attached.
    pub fn from_lexis(value: Lexis) -> (r: RawLexicalEntry)
        ensures
            word_view(r.word) == word_view(value.word),
            opt_str_view(r.word_type) == (if value.lexis_type@.len() > 0 {
                Some(value.lexis_type@)
            } else {
                None
            }),
            opt_str_view(r.language) == (if value.language@.len() > 0 {
                Some(value.language@)
            } else {
                None
            }),
            r.definition@ == value.definition@,
            r.part_of_speech == value.pos,
            r.etymology is None,
            r.archaic == value.archaic,
            match r.tags {
                Some(t) => value.tags.deep_view().len() > 0 && t.deep_view()
                    == value.tags.deep_view(),
                None => value.tags.deep_view().len() == 0,
            },
            match r.historical_metadata {
                Some(m) => value.historical_metadata@.len() > 0 && m@
                    == value.historical_metadata@,
                None => value.historical_metadata@.len() == 0,
            },
            opt_str_view(r.generate) == opt_str_view(value.word_create),
            r.derivatives is None,
    {
        RawLexicalEntry {
            word: value.word,
            word_type: if value.lexis_type.as_str().unicode_len() > 0 {
                Some(value.lexis_type)
            } else {
                None
            },
            language: if value.language.as_str().unicode_len() > 0 {
                Some(value.language)
            } else {
                None
            },
            definition: value.definition,
            part_of_speech: value.pos,
            etymology: None,
            archaic: value.archaic,
            tags: if value.tags.len() > 0 {
                Some(value.tags)
            } else {
                None
            },
            historical_metadata: if value.historical_metadata.len() > 0 {
                Some(value.historical_metadata)
            } else {
                None
            },
            generate: value.word_create,
            derivatives: None,
        }
    }
}

impl RawTransform {
    /// The transform this raw entry stands for, under the given name.
    pub fn to_transform(self, name: String) -> (r: Transform)
        ensures
            r.name@ == name@,
            r.lex_match == self.conditional,
            r.transforms == self.transforms,
    {
        Transform { name, lex_match: self.conditional, transforms: self.transforms }
    }
}

/// The value bound to a key in a named list, by first match.
pub open spec fn assoc_get<V>(s: Seq<(String, V)>, k: Seq<char>) -> Option<V>
    decreases s.len(),
{
    if s.len() == 0 {
        None
    } else if s[0].0@ == k {
        Some(s[0].1)
    } else {
        assoc_get(s.skip(1), k)
    }
}

/// Looks up each named transform in the raw transform list; an unknown
/// name fails the whole lookup. Each found transform carries the name
/// it was looked up under.
pub fn find_transforms(raw: &Vec<String>, trans_tree: &Vec<(String, RawTransform)>) -> (r: Result<
    Vec<Transform>,
    String,
>)
    ensures
        match r {
            Ok(v) => v@.len() == raw.deep_view().len() && forall|i: int|
                0 <= i < v@.len() ==> (#[trigger] v@[i]).name@ == raw.deep_view()[i] && match
                    assoc_get(trans_tree@, raw.deep_view()[i]) {
                    Some(rt) => crate::transforms::funcs_equiv(v@[i].transforms@, rt.transforms@)
                        && match (&v@[i].lex_match, &rt.conditional) {
                        (Some(x), Some(y)) => crate::matching::lexis_match_equiv(x, y),
                        (None, None) => true,
                        _ => false,
                    },
                    None => false,
                },
            Err(_) => exists|i: int|
                0 <= i < raw.deep_view().len() && assoc_get(
                    trans_tree@,
                    #[trigger] raw.deep_view()[i],
                ) is None,
        },
{
    let mut word_transforms: Vec<Transform> = Vec::new();
    let mut i: usize = 0;
    while i < raw.len()
        invariant
            raw.deep_view().len() == raw.len(),
            0 <= i <= raw.len(),
            word_transforms@.len() == i,
            forall|j: int|
                0 <= j < i ==> (#[trigger] word_transforms@[j]).name@ == raw.deep_view()[j] && match
                    assoc_get(trans_tree@, raw.deep_view()[j]) {
                    Some(rt) => crate::transforms::funcs_equiv(
                        word_transforms@[j].transforms@,
                        rt.transforms@,
                    ) && match (&word_transforms@[j].lex_match, &rt.conditional) {
                        (Some(x), Some(y)) => crate::matching::lexis_match_equiv(x, y),
                        (None, None) => true,
                        _ => false,
                    },
                    None => false,
                },
        decreases raw.len() - i,
    {
        match lookup_raw(trans_tree, raw[i].as_str()) {
            Some(found) => {
                let t = found.to_transform(raw[i].clone());
                word_transforms.push(t);
            },
            None => {
                let mut msg = String::from_str("transform does not exist: ");
                msg.append(raw[i].as_str());
                assert(assoc_get(trans_tree@, raw.deep_view()[i as int]) is None);
                return Err(msg);
            },
        }
        i += 1;
    }
    Ok(word_transforms)
}

/// The raw transform bound to a name, cloned out.
fn lookup_raw(tree: &Vec<(String, RawTransform)>, k: &str) -> (r: Option<RawTransform>)
    ensures
        r is Some <==> assoc_get(tree@, k@) is Some,
        match r {
            Some(v) => assoc_get(tree@, k@) matches Some(w) && raw_transform_equiv(&v, &w),
            None => true,
        },
{
    let ghost s = tree@;
    let mut i: usize = 0;
    proof {
        assert(s.skip(0) =~= s);
    }
    while i < tree.len()
        invariant
            s == tree@,
            s.len() == tree.len(),
            0 <= i <= tree.len(),
            assoc_get(s, k@) == assoc_get(s.skip(i as int), k@),
        decreases tree.len() - i,
    {
        proof {
            assert(s.skip(i as int)[0] == s[i as int]);
            assert(s.skip(i as int).skip(1) =~= s.skip(i as int + 1));
        }
        if str_eq(tree[i].0.as_str(), k) {
            let c = tree[i].1.clone();
            proof {
                assert(assoc_get(s.skip(i as int), k@) == Some(s[i as int].1));
                assert(assoc_get(s, k@) == Some(s[i as int].1));
                assert(raw_transform_equiv(&c, &s[i as int].1));
            }
            return Some(c);
        }
        i += 1;
    }
    proof {
        assert(s.skip(i as int) =~= Seq::<(String, RawTransform)>::empty());
    }
    None
}

/// What each produced entry holds of its word and etymology: the
/// word's fields written back out, the etymology attached when it is
/// non-empty, and the historical metadata present only when asked for.
pub open spec fn graph_entry_matches(
    e: &RawLexicalEntry,
    lex: &Lexis,
    ety: &Etymology,
    render_metadata: bool,
) -> bool {
    &&& word_view(e.word) == word_view(lex.word)
    &&& opt_str_view(e.word_type) == (if lex.lexis_type@.len() > 0 {
        Some(lex.lexis_type@)
    } else {
        None
    })
    &&& opt_str_view(e.language) == (if lex.language@.len() > 0 {
        Some(lex.language@)
    } else {
        None
    })
    &&& e.definition@ == lex.definition@
    &&& e.part_of_speech == lex.pos
    &&& match e.etymology {
        Some(et) => ety.etymons@.len() > 0 && et.etymons@ == ety.etymons@,
        None => ety.etymons@.len() == 0,
    }
    &&& e.archaic == lex.archaic
    &&& match e.tags {
        Some(t) => lex.tags.deep_view().len() > 0 && t.deep_view() == lex.tags.deep_view(),
        None => lex.tags.deep_view().len() == 0,
    }
    &&& match e.historical_metadata {
        Some(m) => render_metadata && lex.historical_metadata@.len() > 0 && m@
            == lex.historical_metadata@,
        None => !render_metadata || lex.historical_metadata@.len() == 0,
    }
    &&& opt_str_view(e.generate) == opt_str_view(lex.word_create)
    &&& e.derivatives is None
}

/// Builds a graph-file structure from computed words and their
/// etymologies: each word keyed by the caller's key, with a non-empty
/// etymology attached and, when asked, the historical metadata elided
/// so derived metadata is not re-ingested as source of truth. A key
/// produced twice is a fatal error.
#[verifier::loop_isolation(false)]
pub fn create_json_graph<F: FnMut(Lexis) -> String>(
    lex: Vec<(Lexis, Etymology)>,
    key_gen: F,
    render_metadata: bool,
) -> (r: Result<WordGraph, String>)
    requires
        forall|l: Lexis| #[trigger] key_gen.requires((l,)),
    ensures
        match r {
            Ok(g) => g.words@.len() == lex@.len() && forall|i: int|
                0 <= i < g.words@.len() ==> graph_entry_matches(
                    &(#[trigger] g.words@[i]).1,
                    &lex@[i].0,
                    &lex@[i].1,
                    render_metadata,
                ),
            Err(_) => true,
        },
        r is Err ==> lex@.len() > 0,
        match r {
            Ok(g) => forall|i: int, j: int|
                0 <= i < j < g.words@.len() ==> (#[trigger] g.words@[i]).0@ != (
                #[trigger] g.words@[j]).0@,
            Err(_) => true,
        },
{
    let mut kg = key_gen;
    let ghost s = lex@;
    let mut graph: Vec<(String, RawLexicalEntry)> = Vec::new();
    let mut rest = lex;
    let total = rest.len();
    let mut i: usize = 0;
    while rest.len() > 0
        invariant
            forall|l: Lexis| #[trigger] kg.requires((l,)),
            s.len() == total,
            0 <= i <= s.len(),
            rest@ == s.skip(i as int),
            rest@.len() == s.len() - i,
            graph@.len() == i,
            forall|x: int|
                0 <= x < i ==> graph_entry_matches(
                    &(#[trigger] graph@[x]).1,
                    &s[x].0,
                    &s[x].1,
                    render_metadata,
                ),
            forall|x: int, y: int|
                0 <= x < y < i ==> (#[trigger] graph@[x]).0@ != (#[trigger] graph@[y]).0@,
        decreases rest.len(),
    {
        let ghost pre = rest@;
        let (word, ety) = rest.remove(0);
        proof {
            assert((word, ety) == s[i as int]);
            assert(pre.remove(0) =~= s.skip(i as int + 1));
        }
        let keyed = word.clone();
        let base = RawLexicalEntry::from_lexis(word);
        let found_ety = if ety.etymons.len() > 0 {
            Some(ety)
        } else {
            None
        };
        let mut complete = RawLexicalEntry { etymology: found_ety, ..base };
        if !render_metadata {
            complete.historical_metadata = None;
        }
        let key = kg(keyed);
        let mut seen = false;
        let mut j: usize = 0;
        while j < graph.len()
            invariant
                0 <= j <= graph.len(),
                !seen ==> forall|x: int| 0 <= x < j ==> (#[trigger] graph@[x]).0@ != key@,
            decreases graph.len() - j,
        {
            if str_eq(graph[j].0.as_str(), key.as_str()) {
                seen = true;
            }
            j += 1;
        }
        if seen {
            let mut msg = String::from_str("key already exists in the map: ");
            msg.append(key.as_str());
            proof {
                assert(s.len() > 0);
            }
            return Err(msg);
        }
        let ghost prev_graph = graph@;
        graph.push((key, complete));
        proof {
            assert(graph@[i as int].1 == complete);
            assert(graph@[i as int].0@ == key@);
            assert(forall|x: int| 0 <= x < i ==> graph@[x] == prev_graph[x]);
            assert(graph_entry_matches(
                &graph@[i as int].1,
                &s[i as int].0,
                &s[i as int].1,
                render_metadata,
            ));
        }
        i += 1;
    }
    proof {
        assert(s.skip(i as int).len() == 0);
    }
    Ok(WordGraph { words: graph })
}

} // verus!
