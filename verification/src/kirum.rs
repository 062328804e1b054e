//! The language tree: lexis entries, the etymology edges between them,
//! and the computation that fills every derivable word.

use vstd::prelude::*;
use vstd::pervasive::VecAdditionalExecFns;

use crate::lemma::Lemma;
use crate::lexcreate::LexPhonology;
use crate::metadata::MetadataMap;
use crate::text::{eq_string_vec, str_eq, clone_string_vec};
use crate::transforms::{GlobalTransform, Transform};
use crate::word::{pos_name, Edge, Etymology, PartOfSpeech};

verus! {

/// The tokens of an optional word.
pub open spec fn word_view(w: Option<Lemma>) -> Option<Seq<Seq<char>>> {
    match w {
        Some(l) => Some(l@),
        None => None,
    }
}

/// The characters of an optional string.
pub open spec fn opt_str_view(o: Option<String>) -> Option<Seq<char>> {
    match o {
        Some(s) => Some(s@),
        None => None,
    }
}

/// A headword in the lexicon: a word, word stem, morpheme or the like.
#[derive(Debug)]
pub struct Lexis {
    /// Identifier, unique within a tree when set.
    pub id: String,
    /// The word itself; when absent, computing the lexicon derives it.
    pub word: Option<Lemma>,
    /// The language the entry belongs to.
    pub language: String,
    /// Part of speech.
    pub pos: Option<PartOfSpeech>,
    /// Morpheme type: stem, root, word, and so on.
    pub lexis_type: String,
    /// Dictionary definition.
    pub definition: String,
    /// Marks the entry as archaic.
    pub archaic: bool,
    /// Caller-supplied tags.
    pub tags: Vec<String>,
    /// Metadata that trickles down to every derivative word.
    pub historical_metadata: MetadataMap,
    /// Key into the phonotactic rules for random word creation.
    pub word_create: Option<String>,
}

/// Structural equality of two lexis entries. Historical metadata is
/// deliberately left out: it accrues from ancestors while the tree is
/// computed and must not destabilise node identity.
pub open spec fn lexis_eq_spec(a: &Lexis, b: &Lexis) -> bool {
    &&& a.id@ == b.id@
    &&& word_view(a.word) == word_view(b.word)
    &&& a.language@ == b.language@
    &&& a.pos == b.pos
    &&& a.lexis_type@ == b.lexis_type@
    &&& a.definition@ == b.definition@
    &&& a.archaic == b.archaic
    &&& a.tags.deep_view() == b.tags.deep_view()
    &&& opt_str_view(a.word_create) == opt_str_view(b.word_create)
}

/// Equality of every observable field, metadata included.
pub open spec fn lexis_full_eq(a: &Lexis, b: &Lexis) -> bool {
    lexis_eq_spec(a, b) && a.historical_metadata@ == b.historical_metadata@
}

impl Default for Lexis {
    /// An empty entry: no word, no tags, no metadata.
    fn default() -> (r: Self)
        ensures
            r.id@ == Seq::<char>::empty(),
            r.word is None,
            r.language@ == Seq::<char>::empty(),
            r.pos is None,
            r.lexis_type@ == Seq::<char>::empty(),
            r.definition@ == Seq::<char>::empty(),
            r.archaic == false,
            r.tags.deep_view() == Seq::<Seq<char>>::empty(),
            r.historical_metadata@ == Seq::<(Seq<char>, Seq<char>)>::empty(),
            r.word_create is None,
    {
        let r = Lexis {
            id: String::new(),
            word: None,
            language: String::new(),
            pos: None,
            lexis_type: String::new(),
            definition: String::new(),
            archaic: false,
            tags: Vec::new(),
            historical_metadata: MetadataMap::new(),
            word_create: None,
        };
        proof {
            assert(r.tags.deep_view() =~= Seq::<Seq<char>>::empty());
        }
        r
    }
}

/// Clones an optional word, preserving its tokens.
pub fn clone_opt_lemma(w: &Option<Lemma>) -> (r: Option<Lemma>)
    ensures
        word_view(r) == word_view(*w),
{
    match w {
        Some(l) => Some(l.clone()),
        None => None,
    }
}

/// Clones an optional string, preserving its characters.
pub fn clone_opt_string(o: &Option<String>) -> (r: Option<String>)
    ensures
        opt_str_view(r) == opt_str_view(*o),
{
    match o {
        Some(s) => Some(s.clone()),
        None => None,
    }
}

impl Clone for Lexis {
    /// A clone agrees with the original on every field.
    fn clone(&self) -> (r: Self)
        ensures
            lexis_full_eq(&r, self),
    {
        Lexis {
            id: self.id.clone(),
            word: clone_opt_lemma(&self.word),
            language: self.language.clone(),
            pos: self.pos,
            lexis_type: self.lexis_type.clone(),
            definition: self.definition.clone(),
            archaic: self.archaic,
            tags: clone_string_vec(&self.tags),
            historical_metadata: self.historical_metadata.clone(),
            word_create: clone_opt_string(&self.word_create),
        }
    }
}

impl PartialEq for Lexis {
    fn eq(&self, other: &Self) -> (r: bool) {
        let words_equal = match (&self.word, &other.word) {
            (Some(a), Some(b)) => a == b,
            (None, None) => true,
            _ => false,
        };
        let pos_equal = match (self.pos, other.pos) {
            (Some(a), Some(b)) => a == b,
            (None, None) => true,
            _ => false,
        };
        let create_equal = match (&self.word_create, &other.word_create) {
            (Some(a), Some(b)) => str_eq(a.as_str(), b.as_str()),
            (None, None) => true,
            _ => false,
        };
        words_equal && pos_equal && create_equal && str_eq(self.id.as_str(), other.id.as_str())
            && str_eq(self.language.as_str(), other.language.as_str()) && str_eq(
            self.lexis_type.as_str(),
            other.lexis_type.as_str(),
        ) && str_eq(self.definition.as_str(), other.definition.as_str()) && self.archaic
            == other.archaic && eq_string_vec(&self.tags, &other.tags)
    }
}

impl vstd::std_specs::cmp::PartialEqSpecImpl for Lexis {
    open spec fn obeys_eq_spec() -> bool {
        true
    }

    open spec fn eq_spec(&self, other: &Lexis) -> bool {
        lexis_eq_spec(self, other)
    }
}

/// The edge data of the language tree: the transforms that derive one
/// word from another, and the intermediate form cached on the edge once
/// the etymon has been resolved.
#[derive(Debug, Clone)]
pub struct TreeEtymology {
    /// The transforms that define the etymology between the two words.
    pub transforms: Vec<Transform>,
    /// The output of applying the edge's transforms to the etymon's
    /// word, cached here while the lexicon is computed.
    pub intermediate_word: Option<Lemma>,
    /// The position of this morpheme in the agglutination that builds a
    /// multi-parent word; an absent order sorts as zero.
    pub agglutination_order: Option<i32>,
}

impl Default for TreeEtymology {
    /// No transforms, no cached form, no order.
    fn default() -> (r: Self)
        ensures
            r.transforms@.len() == 0,
            word_view(r.intermediate_word) is None,
            r.agglutination_order is None,
    {
        TreeEtymology { transforms: Vec::new(), intermediate_word: None, agglutination_order: None }
    }
}

impl TreeEtymology {
    /// The names of the transforms along this edge, in order.
    pub fn names(&self) -> (r: Vec<String>)
        ensures
            r.deep_view().len() == self.transforms@.len(),
            forall|i: int|
                0 <= i < r.deep_view().len() ==> r.deep_view()[i]
                    == (#[trigger] self.transforms@[i]).name@,
    {
        let mut r: Vec<String> = Vec::new();
        let mut i: usize = 0;
        while i < self.transforms.len()
            invariant
                0 <= i <= self.transforms.len(),
                r.deep_view().len() == i,
                forall|j: int|
                    0 <= j < i ==> r.deep_view()[j] == (#[trigger] self.transforms@[j]).name@,
            decreases self.transforms.len() - i,
        {
            let ghost prev = r.deep_view();
            r.push(self.transforms[i].name.clone());
            proof {
                assert(r.deep_view() =~= prev.push(self.transforms@[i as int].name@));
            }
            i += 1;
        }
        r
    }
}

/// One directed edge of the tree: from an etymon to the word derived
/// from it.
#[derive(Debug)]
struct EtyEdge {
    from: usize,
    to: usize,
    data: TreeEtymology,
}

/// Every edge points at nodes that exist.
spec fn edges_wf(n: int, edges: Seq<EtyEdge>) -> bool {
    forall|i: int|
        0 <= i < edges.len() ==> (#[trigger] edges[i]).from < n && edges[i].to < n
}

/// An entire language family, as a directed graph of lexis entries and
/// etymology edges, plus the phonology used to create words from nothing
/// and the transforms applied across the whole tree.
#[derive(Debug)]
pub struct LanguageTree {
    nodes: Vec<Lexis>,
    edges: Vec<EtyEdge>,
    /// Phonology rules for random word creation.
    pub word_creator_phonology: LexPhonology,
    /// Transforms matched against every word of the tree, applied after
    /// the word's own edge transforms.
    pub global_transforms: Option<Vec<GlobalTransform>>,
}

/// The index of the first node structurally equal to `lex`, or -1.
pub open spec fn find_node(nodes: Seq<Lexis>, lex: &Lexis) -> int
    decreases nodes.len(),
{
    if nodes.len() == 0 {
        -1
    } else if lexis_eq_spec(&nodes[0], lex) {
        0
    } else {
        let r = find_node(nodes.skip(1), lex);
        if r < 0 {
            -1
        } else {
            r + 1
        }
    }
}

/// The index of the first node with the given id, or -1.
pub open spec fn find_node_id(nodes: Seq<Lexis>, id: Seq<char>) -> int
    decreases nodes.len(),
{
    if nodes.len() == 0 {
        -1
    } else if nodes[0].id@ == id {
        0
    } else {
        let r = find_node_id(nodes.skip(1), id);
        if r < 0 {
            -1
        } else {
            r + 1
        }
    }
}

/// The dual scan of `connect_etymology` over the existing nodes: the
/// first node equal to the new word and the first remaining node equal
/// to the etymon, each when present.
pub open spec fn scan_pair(
    nodes: Seq<Lexis>,
    lex: &Lexis,
    ety: &Lexis,
    i: int,
    li: Option<int>,
    ei: Option<int>,
) -> (Option<int>, Option<int>)
    decreases nodes.len() - i,
{
    if i < 0 || i >= nodes.len() {
        (li, ei)
    } else if li is None && lexis_eq_spec(&nodes[i], lex) {
        scan_pair(nodes, lex, ety, i + 1, Some(i), ei)
    } else if ei is None && lexis_eq_spec(&nodes[i], ety) {
        scan_pair(nodes, lex, ety, i + 1, li, Some(i))
    } else {
        scan_pair(nodes, lex, ety, i + 1, li, ei)
    }
}

impl LanguageTree {
    /// Every edge of a well-formed tree points at nodes that exist.
    pub closed spec fn wf(&self) -> bool {
        edges_wf(self.nodes@.len() as int, self.edges@)
    }

    /// The nodes of the tree, as the contracts speak of them.
    pub closed spec fn nodes_view(&self) -> Seq<Lexis> {
        self.nodes@
    }

    /// The number of edges of the tree.
    pub closed spec fn edge_count(&self) -> int {
        self.edges@.len() as int
    }

    /// The endpoints of an edge: the etymon's index and the index of the
    /// word derived from it.
    pub closed spec fn edge_from(&self, e: int) -> int {
        self.edges@[e].from as int
    }

    /// The index of the node an edge derives.
    pub closed spec fn edge_to(&self, e: int) -> int {
        self.edges@[e].to as int
    }

    /// The data carried by an edge.
    pub closed spec fn edge_data(&self, e: int) -> TreeEtymology {
        self.edges@[e].data
    }

    /// The phonology rules, as the contracts speak of them.
    pub closed spec fn phonology_view(&self) -> LexPhonology {
        self.word_creator_phonology
    }

    /// The global transforms, as the contracts speak of them.
    pub closed spec fn globals_view(&self) -> Option<Vec<GlobalTransform>> {
        self.global_transforms
    }

    /// Both trees carry exactly the same edges.
    pub closed spec fn edges_same(&self, other: &LanguageTree) -> bool {
        self.edges@ == other.edges@
    }

    /// This tree's edges stand unchanged at the start of the other's.
    pub closed spec fn edges_prefix(&self, other: &LanguageTree) -> bool {
        self.edges@.len() <= other.edges@.len() && forall|i: int|
            0 <= i < self.edges@.len() ==> other.edges@[i] == #[trigger] self.edges@[i]
    }

    /// An empty tree: no words, no edges, empty phonology, no global
    /// transforms.
    pub fn new() -> (r: Self)
        ensures
            r.wf(),
            r.nodes_view().len() == 0,
            r.edge_count() == 0,
            r.phonology_view().groups@.len() == 0,
            r.phonology_view().lexis_types@.len() == 0,
            r.globals_view() is None,
    {
        LanguageTree {
            nodes: Vec::new(),
            edges: Vec::new(),
            word_creator_phonology: LexPhonology { groups: Vec::new(), lexis_types: Vec::new() },
            global_transforms: None,
        }
    }

    /// Adds a single lexis entry, unconditionally, with no edges.
    pub fn add_lexis(&mut self, lex: Lexis)
        requires
            old(self).wf(),
        ensures
            final(self).wf(),
            final(self).nodes_view() == old(self).nodes_view().push(lex),
            final(self).edges_same(old(self)),
            final(self).phonology_view() == old(self).phonology_view(),
            final(self).globals_view() == old(self).globals_view(),
    {
        self.nodes.push(lex);
    }

    /// The number of words in the tree.
    pub fn len(&self) -> (r: usize)
        ensures
            r == self.nodes_view().len(),
    {
        self.nodes.len()
    }

    /// True when the tree holds no words.
    pub fn is_empty(&self) -> (r: bool)
        ensures
            r == (self.nodes_view().len() == 0),
    {
        self.nodes.len() == 0
    }

    /// True when some node is structurally equal to the given lexis.
    pub fn contains(&self, lex: &Lexis) -> (r: bool)
        ensures
            r == (find_node(self.nodes_view(), lex) >= 0),
    {
        let ghost s = self.nodes@;
        let mut i: usize = 0;
        proof {
            lemma_find_node_props(s, lex);
        }
        while i < self.nodes.len()
            invariant
                s == self.nodes@,
                s.len() == self.nodes.len(),
                0 <= i <= s.len(),
                forall|j: int| 0 <= j < i ==> !lexis_eq_spec(&(#[trigger] s[j]), lex),
                find_node(s, lex) >= 0 ==> find_node(s, lex) < s.len() && lexis_eq_spec(
                    &s[find_node(s, lex)],
                    lex,
                ),
                find_node(s, lex) < 0 ==> forall|j: int|
                    0 <= j < s.len() ==> !lexis_eq_spec(&(#[trigger] s[j]), lex),
            decreases s.len() - i,
        {
            if &self.nodes[i] == lex {
                assert(lexis_eq_spec(&s[i as int], lex));
                return true;
            }
            i += 1;
        }
        false
    }

    /// The first entry carrying the given id, if any, as a copy.
    pub fn get_by_id(&self, id: &str) -> (r: Option<Lexis>)
        ensures
            match r {
                Some(l) => find_node_id(self.nodes_view(), id@) >= 0 && lexis_full_eq(
                    &l,
                    &self.nodes_view()[find_node_id(self.nodes_view(), id@)],
                ),
                None => find_node_id(self.nodes_view(), id@) < 0,
            },
    {
        let ghost s = self.nodes@;
        let mut i: usize = 0;
        proof {
            lemma_find_node_id_props(s, id@);
        }
        while i < self.nodes.len()
            invariant
                s == self.nodes@,
                s.len() == self.nodes.len(),
                0 <= i <= s.len(),
                forall|j: int| 0 <= j < i ==> (#[trigger] s[j]).id@ != id@,
                find_node_id(s, id@) >= 0 ==> find_node_id(s, id@) < s.len() && s[find_node_id(
                    s,
                    id@,
                )].id@ == id@ && forall|j: int|
                    0 <= j < find_node_id(s, id@) ==> (#[trigger] s[j]).id@ != id@,
                find_node_id(s, id@) < 0 ==> forall|j: int|
                    0 <= j < s.len() ==> (#[trigger] s[j]).id@ != id@,
            decreases s.len() - i,
        {
            if str_eq(self.nodes[i].id.as_str(), id) {
                proof {
                    let k = find_node_id(s, id@);
                    assert(s[i as int].id@ == id@);
                    if k < 0 {
                        assert(s[i as int].id@ != id@);
                    } else if k < i as int {
                        assert(s[k].id@ != id@);
                    } else if k > i as int {
                        assert(s[i as int].id@ != id@);
                    }
                }
                return Some(self.nodes[i].clone());
            }
            i += 1;
        }
        None
    }

    /// Creates an etymological link between an upstream etymon and a
    /// derived word. In an empty tree both are added; otherwise the
    /// first nodes structurally equal to each argument are reused and
    /// missing ones are added. A new edge from the etymon to the word
    /// carries the transforms and the agglutination order, with no
    /// intermediate form.
    pub fn connect_etymology(
        &mut self,
        lex: Lexis,
        etymon: Lexis,
        trans: Vec<Transform>,
        agglutination_order: Option<i32>,
    )
        requires
            old(self).wf(),
        ensures
            final(self).wf(),
            final(self).phonology_view() == old(self).phonology_view(),
            final(self).globals_view() == old(self).globals_view(),
            final(self).edge_count() == old(self).edge_count() + 1,
            old(self).edges_prefix(final(self)),
            connect_result(
                old(self).nodes_view(),
                &lex,
                &etymon,
                final(self).nodes_view(),
                final(self).edge_from(final(self).edge_count() - 1),
                final(self).edge_to(final(self).edge_count() - 1),
            ),
            final(self).edge_data(final(self).edge_count() - 1).transforms == trans,
            word_view(final(self).edge_data(final(self).edge_count() - 1).intermediate_word)
                is None,
            final(self).edge_data(final(self).edge_count() - 1).agglutination_order
                == agglutination_order,
    {
        let ghost s = self.nodes@;
        let mut lex_idx: usize = 0;
        let mut ety_idx: usize = 0;
        let mut lex_found = false;
        let mut ety_found = false;
        if self.nodes.len() == 0 {
            self.nodes.push(lex);
            self.nodes.push(etymon);
            lex_idx = 0;
            ety_idx = 1;
            lex_found = true;
            ety_found = true;
            proof {
                assert(scan_pair(s, &lex, &etymon, 0, None, None) == (
                    None::<int>,
                    None::<int>,
                ));
            }
        } else {
            let mut i: usize = 0;
            while i < self.nodes.len()
                invariant
                    s == self.nodes@,
                    s.len() == self.nodes.len(),
                    0 <= i <= s.len(),
                    lex_found ==> lex_idx < s.len(),
                    ety_found ==> ety_idx < s.len(),
                    scan_pair(s, &lex, &etymon, 0, None, None) == scan_pair(
                        s,
                        &lex,
                        &etymon,
                        i as int,
                        if lex_found {
                            Some(lex_idx as int)
                        } else {
                            None
                        },
                        if ety_found {
                            Some(ety_idx as int)
                        } else {
                            None
                        },
                    ),
                decreases s.len() - i,
            {
                if !lex_found && (&self.nodes[i] == &lex) {
                    lex_idx = i;
                    lex_found = true;
                } else if !ety_found && (&self.nodes[i] == &etymon) {
                    ety_idx = i;
                    ety_found = true;
                }
                i += 1;
            }
            if !ety_found {
                ety_idx = self.nodes.len();
                ety_found = true;
                self.nodes.push(etymon);
            }
            if !lex_found {
                lex_idx = self.nodes.len();
                lex_found = true;
                self.nodes.push(lex);
            }
        }
        let edge = EtyEdge {
            from: ety_idx,
            to: lex_idx,
            data: TreeEtymology {
                transforms: trans,
                intermediate_word: None,
                agglutination_order,
            },
        };
        self.edges.push(edge);
    }

    /// As `connect_etymology`, but names the etymon by id; returns false
    /// and changes nothing when no node carries that id.
    pub fn connect_etymology_id(
        &mut self,
        lex: Lexis,
        etymon_id: String,
        trans: Vec<Transform>,
        agglutination_order: Option<i32>,
    ) -> (r: bool)
        requires
            old(self).wf(),
        ensures
            final(self).wf(),
            r == (find_node_id(old(self).nodes_view(), etymon_id@) >= 0),
            !r ==> final(self).nodes_view() == old(self).nodes_view() && final(self).edges_same(
                old(self),
            ),
            r ==> final(self).edge_count() == old(self).edge_count() + 1 && old(self).edges_prefix(
                final(self),
            ) && exists|ety2: Lexis|
                {
                    &&& #[trigger] lexis_full_eq(
                        &ety2,
                        &old(self).nodes_view()[find_node_id(old(self).nodes_view(), etymon_id@)],
                    )
                    &&& connect_result(
                        old(self).nodes_view(),
                        &lex,
                        &ety2,
                        final(self).nodes_view(),
                        final(self).edge_from(final(self).edge_count() - 1),
                        final(self).edge_to(final(self).edge_count() - 1),
                    )
                    &&& final(self).edge_data(final(self).edge_count() - 1).transforms == trans
                    &&& word_view(
                        final(self).edge_data(final(self).edge_count() - 1).intermediate_word,
                    ) is None
                    &&& final(self).edge_data(final(self).edge_count() - 1).agglutination_order
                        == agglutination_order
                },
    {
        let found = self.get_by_id(etymon_id.as_str());
        match found {
            Some(ety) => {
                let ghost etyg = ety;
                self.connect_etymology(lex, ety, trans, agglutination_order);
                proof {
                    assert(lexis_full_eq(
                        &etyg,
                        &old(self).nodes_view()[find_node_id(old(self).nodes_view(), etymon_id@)],
                    ));
                }
                true
            },
            None => false,
        }
    }
}

/// The result of `connect_etymology` on the node list: which nodes were
/// appended, and where the edge endpoints stand.
pub open spec fn connect_result(
    nodes0: Seq<Lexis>,
    lex: &Lexis,
    ety: &Lexis,
    nodes1: Seq<Lexis>,
    from: int,
    to: int,
) -> bool {
    if nodes0.len() == 0 {
        nodes1 == nodes0.push(*lex).push(*ety) && to == 0 && from == 1
    } else {
        let (li, ei) = scan_pair(nodes0, lex, ety, 0, None, None);
        match (li, ei) {
            (Some(l), Some(e)) => nodes1 == nodes0 && to == l && from == e,
            (Some(l), None) => nodes1 == nodes0.push(*ety) && to == l && from == nodes0.len(),
            (None, Some(e)) => nodes1 == nodes0.push(*lex) && to == nodes0.len() && from == e,
            (None, None) => nodes1 == nodes0.push(*ety).push(*lex) && from == nodes0.len() && to
                == nodes0.len() + 1,
        }
    }
}

/// Insertion of one keyed word into a key-sorted list: it lands after
/// every entry whose key is at most its own, so equal keys keep their
/// arrival order.
pub open spec fn insert_pair(acc: Seq<(i32, Lemma)>, x: (i32, Lemma)) -> Seq<(i32, Lemma)>
    decreases acc.len(),
{
    if acc.len() == 0 {
        seq![x]
    } else if acc[0].0 > x.0 {
        seq![x] + acc
    } else {
        seq![acc[0]] + insert_pair(acc.skip(1), x)
    }
}

/// The stable sort of keyed words by ascending key.
pub open spec fn stable_sort_pairs(s: Seq<(i32, Lemma)>) -> Seq<(i32, Lemma)>
    decreases s.len(),
{
    if s.len() == 0 {
        Seq::empty()
    } else {
        insert_pair(stable_sort_pairs(s.drop_last()), s.last())
    }
}

/// The words' tokens concatenated in list order.
pub open spec fn concat_words(s: Seq<(i32, Lemma)>) -> Seq<Seq<char>>
    decreases s.len(),
{
    if s.len() == 0 {
        Seq::empty()
    } else {
        s[0].1@ + concat_words(s.skip(1))
    }
}

/// Multi-parent composition: the intermediate forms concatenated in
/// ascending agglutination order, stable-sorted, so that equal orders
/// keep their arrival order.
pub open spec fn agglutinate(s: Seq<(i32, Lemma)>) -> Seq<Seq<char>> {
    concat_words(stable_sort_pairs(s))
}

/// Insertion of one keyed token sequence into a key-sorted list,
/// landing after every entry with a key at most its own.
pub open spec fn insert_pair_v(
    acc: Seq<(i32, Seq<Seq<char>>)>,
    x: (i32, Seq<Seq<char>>),
) -> Seq<(i32, Seq<Seq<char>>)>
    decreases acc.len(),
{
    if acc.len() == 0 {
        seq![x]
    } else if acc[0].0 > x.0 {
        seq![x] + acc
    } else {
        seq![acc[0]] + insert_pair_v(acc.skip(1), x)
    }
}

/// The stable sort of keyed token sequences by ascending key.
pub open spec fn stable_sort_v(s: Seq<(i32, Seq<Seq<char>>)>) -> Seq<(i32, Seq<Seq<char>>)>
    decreases s.len(),
{
    if s.len() == 0 {
        Seq::empty()
    } else {
        insert_pair_v(stable_sort_v(s.drop_last()), s.last())
    }
}

/// The token sequences concatenated in list order.
pub open spec fn concat_v(s: Seq<(i32, Seq<Seq<char>>)>) -> Seq<Seq<char>>
    decreases s.len(),
{
    if s.len() == 0 {
        Seq::empty()
    } else {
        s[0].1 + concat_v(s.skip(1))
    }
}

/// Multi-parent composition over token sequences: concatenation in
/// ascending agglutination order, stable-sorted.
pub open spec fn agg_v(s: Seq<(i32, Seq<Seq<char>>)>) -> Seq<Seq<char>> {
    concat_v(stable_sort_v(s))
}

/// The keyed words as keyed token sequences.
pub open spec fn views_of_pairs(s: Seq<(i32, Lemma)>) -> Seq<(i32, Seq<Seq<char>>)>
    decreases s.len(),
{
    if s.len() == 0 {
        Seq::empty()
    } else {
        seq![(s[0].0, s[0].1@)] + views_of_pairs(s.skip(1))
    }
}

proof fn lemma_views_of_pairs_len(s: Seq<(i32, Lemma)>)
    ensures
        views_of_pairs(s).len() == s.len(),
        forall|i: int|
            0 <= i < s.len() ==> #[trigger] views_of_pairs(s)[i] == (s[i].0, s[i].1@),
    decreases s.len(),
{
    if s.len() > 0 {
        lemma_views_of_pairs_len(s.skip(1));
        assert(forall|i: int| 1 <= i < s.len() ==> s.skip(1)[i - 1] == #[trigger] s[i]);
        assert(forall|i: int|
            1 <= i < s.len() ==> #[trigger] views_of_pairs(s)[i] == views_of_pairs(s.skip(1))[i
                - 1]);
    }
}

proof fn lemma_insert_pair_view(acc: Seq<(i32, Lemma)>, x: (i32, Lemma))
    ensures
        views_of_pairs(insert_pair(acc, x)) == insert_pair_v(views_of_pairs(acc), (x.0, x.1@)),
    decreases acc.len(),
{
    lemma_views_of_pairs_len(acc);
    lemma_views_of_pairs_len(insert_pair(acc, x));
    if acc.len() == 0 {
        assert(views_of_pairs(insert_pair(acc, x)) =~= insert_pair_v(
            views_of_pairs(acc),
            (x.0, x.1@),
        ));
    } else if acc[0].0 > x.0 {
        assert(views_of_pairs(insert_pair(acc, x)) =~= insert_pair_v(
            views_of_pairs(acc),
            (x.0, x.1@),
        ));
    } else {
        lemma_insert_pair_view(acc.skip(1), x);
        assert(views_of_pairs(acc).skip(1) =~= views_of_pairs(acc.skip(1))) by {
            lemma_views_of_pairs_len(acc.skip(1));
        }
        assert(views_of_pairs(insert_pair(acc, x)) =~= seq![(acc[0].0, acc[0].1@)]
            + views_of_pairs(insert_pair(acc.skip(1), x))) by {
            assert(insert_pair(acc, x) == seq![acc[0]] + insert_pair(acc.skip(1), x));
            lemma_views_of_pairs_len(insert_pair(acc.skip(1), x));
        }
        assert(insert_pair_v(views_of_pairs(acc), (x.0, x.1@)) == seq![views_of_pairs(acc)[0]]
            + insert_pair_v(views_of_pairs(acc).skip(1), (x.0, x.1@)));
        assert(views_of_pairs(insert_pair(acc, x)) =~= insert_pair_v(
            views_of_pairs(acc),
            (x.0, x.1@),
        ));
    }
}

proof fn lemma_sort_view(s: Seq<(i32, Lemma)>)
    ensures
        views_of_pairs(stable_sort_pairs(s)) == stable_sort_v(views_of_pairs(s)),
    decreases s.len(),
{
    lemma_views_of_pairs_len(s);
    if s.len() == 0 {
        assert(views_of_pairs(stable_sort_pairs(s)) =~= stable_sort_v(views_of_pairs(s)));
    } else {
        lemma_sort_view(s.drop_last());
        lemma_insert_pair_view(stable_sort_pairs(s.drop_last()), s.last());
        assert(views_of_pairs(s).drop_last() =~= views_of_pairs(s.drop_last())) by {
            lemma_views_of_pairs_len(s.drop_last());
        }
        assert(views_of_pairs(s).last() == (s.last().0, s.last().1@));
    }
}

proof fn lemma_concat_view(s: Seq<(i32, Lemma)>)
    ensures
        concat_words(s) == concat_v(views_of_pairs(s)),
    decreases s.len(),
{
    if s.len() > 0 {
        lemma_concat_view(s.skip(1));
        assert(views_of_pairs(s).skip(1) =~= views_of_pairs(s.skip(1))) by {
            lemma_views_of_pairs_len(s);
            lemma_views_of_pairs_len(s.skip(1));
        }
    }
}

/// The agglutination of keyed words is decided by their keys and token
/// sequences alone.
pub proof fn lemma_agg_view(s: Seq<(i32, Lemma)>)
    ensures
        agglutinate(s) == agg_v(views_of_pairs(s)),
{
    lemma_sort_view(s);
    lemma_concat_view(stable_sort_pairs(s));
}

proof fn lemma_insert_pair_at(s: Seq<(i32, Lemma)>, x: (i32, Lemma), pos: int)
    requires
        0 <= pos <= s.len(),
        forall|j: int| 0 <= j < pos ==> (#[trigger] s[j]).0 <= x.0,
        pos < s.len() ==> s[pos].0 > x.0,
    ensures
        insert_pair(s, x) == s.take(pos) + seq![x] + s.skip(pos),
    decreases pos,
{
    if pos == 0 {
        if s.len() == 0 {
            assert(insert_pair(s, x) =~= s.take(0) + seq![x] + s.skip(0));
        } else {
            assert(s[0].0 > x.0);
            assert(insert_pair(s, x) =~= s.take(0) + seq![x] + s.skip(0));
        }
    } else {
        assert(s[0].0 <= x.0);
        lemma_insert_pair_at(s.skip(1), x, pos - 1);
        assert(forall|j: int| 0 <= j < pos - 1 ==> (#[trigger] s.skip(1)[j]) == s[j + 1]);
        assert(insert_pair(s, x) == seq![s[0]] + insert_pair(s.skip(1), x));
        assert(seq![s[0]] + (s.skip(1).take(pos - 1) + seq![x] + s.skip(1).skip(pos - 1)) =~= s.take(
            pos,
        ) + seq![x] + s.skip(pos));
    }
}

/// Sorts keyed words stably by ascending key and concatenates their
/// tokens: the composition a multi-parent word is built from.
fn join_string_vectors(words: Vec<(i32, Lemma)>) -> (r: Lemma)
    ensures
        r@ == agglutinate(words@),
{
    let ghost s = words@;
    let mut rest = words;
    let total = rest.len();
    let mut acc: Vec<(i32, Lemma)> = Vec::new();
    let mut i: usize = 0;
    while rest.len() > 0
        invariant
            s.len() == total,
            0 <= i <= s.len(),
            rest@ == s.skip(i as int),
            rest@.len() == s.len() - i,
            acc@ == stable_sort_pairs(s.take(i as int)),
        decreases rest.len(),
    {
        let ghost pre = rest@;
        let x = rest.remove(0);
        proof {
            assert(x == s[i as int]);
            assert(pre.remove(0) =~= s.skip(i as int + 1));
        }
        // find the first position whose key is greater than x's
        let mut pos: usize = 0;
        let mut found = false;
        while pos < acc.len() && !found
            invariant
                0 <= pos <= acc.len(),
                forall|j: int| 0 <= j < pos ==> (#[trigger] acc@[j]).0 <= x.0,
                found ==> pos < acc.len() && acc@[pos as int].0 > x.0,
            decreases acc.len() - pos + (if found {
                0int
            } else {
                1int
            }),
        {
            if acc[pos].0 > x.0 {
                found = true;
            } else {
                pos += 1;
            }
        }
        let ghost acc0 = acc@;
        proof {
            lemma_insert_pair_at(acc0, x, pos as int);
        }
        acc.insert(pos, x);
        proof {
            assert(acc@ =~= acc0.take(pos as int) + seq![x] + acc0.skip(pos as int));
            assert(acc@ == insert_pair(acc0, x));
            assert(s.take(i as int + 1).drop_last() =~= s.take(i as int));
            assert(s.take(i as int + 1).last() == s[i as int]);
        }
        i += 1;
    }
    proof {
        assert(s.take(i as int) =~= s);
    }
    let mut out = Lemma::default();
    let mut k: usize = 0;
    let ghost sorted = acc@;
    proof {
        assert(sorted.skip(0) =~= sorted);
    }
    while k < acc.len()
        invariant
            sorted == acc@,
            sorted.len() == acc.len(),
            0 <= k <= acc.len(),
            out@ + concat_words(sorted.skip(k as int)) == concat_words(sorted),
        decreases acc.len() - k,
    {
        proof {
            assert(sorted.skip(k as int)[0] == sorted[k as int]);
            assert(sorted.skip(k as int).skip(1) =~= sorted.skip(k as int + 1));
        }
        let ghost before = out@;
        let piece = acc[k].1.clone();
        out.push(piece);
        proof {
            assert(before + (sorted[k as int].1@ + concat_words(sorted.skip(k as int + 1))) =~= out@
                + concat_words(sorted.skip(k as int + 1)));
        }
        k += 1;
    }
    proof {
        assert(concat_words(sorted.skip(k as int)) =~= Seq::<Seq<char>>::empty());
        assert(out@ + Seq::<Seq<char>>::empty() =~= out@);
    }
    out
}

/// All fields except the word and the metadata agree: what computing
/// the lexicon never touches.
pub open spec fn node_stable(a: &Lexis, b: &Lexis) -> bool {
    &&& a.id@ == b.id@
    &&& a.language@ == b.language@
    &&& a.pos == b.pos
    &&& a.lexis_type@ == b.lexis_type@
    &&& a.definition@ == b.definition@
    &&& a.archaic == b.archaic
    &&& a.tags.deep_view() == b.tags.deep_view()
    &&& opt_str_view(a.word_create) == opt_str_view(b.word_create)
}

/// What computing the lexicon preserves of the tree: the nodes and
/// edges themselves, their endpoints, transforms and orders, the
/// phonology and the global transforms; a populated intermediate form
/// is never recomputed.
pub open spec fn structure_preserved(a: &LanguageTree, b: &LanguageTree) -> bool {
    &&& b.nodes_view().len() == a.nodes_view().len()
    &&& forall|i: int|
        0 <= i < a.nodes_view().len() ==> node_stable(
            &a.nodes_view()[i],
            &(#[trigger] b.nodes_view()[i]),
        )
    &&& b.edge_count() == a.edge_count()
    &&& forall|e: int|
        0 <= e < a.edge_count() ==> {
            &&& #[trigger] b.edge_from(e) == a.edge_from(e)
            &&& b.edge_to(e) == a.edge_to(e)
            &&& b.edge_data(e).transforms == a.edge_data(e).transforms
            &&& b.edge_data(e).agglutination_order == a.edge_data(e).agglutination_order
            &&& word_view(a.edge_data(e).intermediate_word) is Some ==> word_view(
                b.edge_data(e).intermediate_word,
            ) == word_view(a.edge_data(e).intermediate_word)
        }
    &&& b.phonology_view() == a.phonology_view()
    &&& b.globals_view() == a.globals_view()
}

/// How many flags are still unset.
spec fn count_false(s: Seq<bool>) -> nat
    decreases s.len(),
{
    if s.len() == 0 {
        0nat
    } else {
        (if s[0] {
            0nat
        } else {
            1nat
        }) + count_false(s.skip(1))
    }
}

/// How many edges still lack an intermediate form.
spec fn unpop_count(edges: Seq<EtyEdge>) -> nat
    decreases edges.len(),
{
    if edges.len() == 0 {
        0nat
    } else {
        (if edges[0].data.intermediate_word is Some {
            0nat
        } else {
            1nat
        }) + unpop_count(edges.skip(1))
    }
}

proof fn lemma_count_false_update(s: Seq<bool>, i: int)
    requires
        0 <= i < s.len(),
        !s[i],
    ensures
        count_false(s.update(i, true)) + 1 == count_false(s),
    decreases s.len(),
{
    if i == 0 {
        assert(s.update(0, true).skip(1) =~= s.skip(1));
    } else {
        assert(s.update(i, true).skip(1) =~= s.skip(1).update(i - 1, true));
        lemma_count_false_update(s.skip(1), i - 1);
    }
}

proof fn lemma_unpop_update(edges: Seq<EtyEdge>, i: int, e2: EtyEdge)
    requires
        0 <= i < edges.len(),
        edges[i].data.intermediate_word is None,
        e2.data.intermediate_word is Some,
    ensures
        unpop_count(edges.update(i, e2)) + 1 == unpop_count(edges),
    decreases edges.len(),
{
    if i == 0 {
        assert(edges.update(0, e2).skip(1) =~= edges.skip(1));
    } else {
        assert(edges.update(i, e2).skip(1) =~= edges.skip(1).update(i - 1, e2));
        lemma_unpop_update(edges.skip(1), i - 1, e2);
    }
}

/// The sources of the incoming edges of a node, in edge order.
spec fn froms_of(edges: Seq<EtyEdge>, ni: int) -> Seq<int>
    decreases edges.len(),
{
    if edges.len() == 0 {
        Seq::empty()
    } else {
        (if edges[0].to == ni {
            seq![edges[0].from as int]
        } else {
            Seq::empty()
        }) + froms_of(edges.skip(1), ni)
    }
}

/// The metadata of each listed node merged into `base`, in list order.
spec fn merged_meta_from(
    nodes: Seq<Lexis>,
    froms: Seq<int>,
    base: Seq<(Seq<char>, Seq<char>)>,
) -> Seq<(Seq<char>, Seq<char>)>
    decreases froms.len(),
{
    if froms.len() == 0 {
        base
    } else {
        merged_meta_from(
            nodes,
            froms.skip(1),
            crate::metadata::m_extend(base, nodes[froms[0]].historical_metadata@),
        )
    }
}

/// Applies each transform of the list in order; the guard of each is
/// honoured, and everything but the word is left alone. A present word
/// stays present on success.
fn apply_transform_list(trans: &Vec<Transform>, lex: &mut Lexis) -> (r: Result<
    (),
    crate::errors::TransformError,
>)
    ensures
        crate::transforms::same_but_word(old(lex), final(lex)),
        r is Ok && old(lex).word is Some ==> final(lex).word is Some,
        old(lex).word is None ==> final(lex).word is None,
        r is Err ==> !list_no_rhai(trans@),
        crate::transforms::plain_pipeline(trans@) ==> r is Ok && crate::kirum::word_view(
            final(lex).word,
        ) == crate::transforms::apply_funcs_opt(
            crate::kirum::word_view(old(lex).word),
            crate::transforms::funcs_of(trans@),
        ),
{
    let ghost ts = trans@;
    let mut k: usize = 0;
    proof {
        assert(ts.skip(0) =~= ts);
    }
    while k < trans.len()
        invariant
            ts == trans@,
            ts.len() == trans.len(),
            0 <= k <= trans.len(),
            crate::transforms::same_but_word(old(lex), lex),
            old(lex).word is Some ==> lex.word is Some,
            old(lex).word is None ==> lex.word is None,
            crate::transforms::plain_pipeline(ts) ==> crate::transforms::apply_funcs_opt(
                word_view(old(lex).word),
                crate::transforms::funcs_of(ts),
            ) == crate::transforms::apply_funcs_opt(
                word_view(lex.word),
                crate::transforms::funcs_of(ts.skip(k as int)),
            ),
        decreases trans.len() - k,
    {
        proof {
            assert(ts.skip(k as int)[0] == ts[k as int]);
            assert(ts.skip(k as int).skip(1) =~= ts.skip(k as int + 1));
        }
        let ghost w_before = word_view(lex.word);
        match trans[k].transform(lex) {
            Ok(_) => {},
            Err(e) => {
                proof {
                    assert(!crate::transforms::no_rhai(trans@[k as int].transforms@));
                }
                return Err(e);
            },
        }
        proof {
            if crate::transforms::plain_pipeline(ts) {

                assert(word_view(lex.word) == crate::transforms::apply_funcs_opt(
                    w_before,
                    ts[k as int].transforms@,
                ));
                crate::transforms::lemma_apply_funcs_opt_concat(
                    w_before,
                    ts[k as int].transforms@,
                    crate::transforms::funcs_of(ts.skip(k as int + 1)),
                );
                assert(crate::transforms::funcs_of(ts.skip(k as int)) == ts[k as int].transforms@
                    + crate::transforms::funcs_of(ts.skip(k as int + 1)));
            }
        }
        k += 1;
    }
    proof {
        assert(ts.skip(k as int) =~= Seq::<Transform>::empty());
    }
    Ok(())
}

impl LanguageTree {
    /// The sources of the incoming edges of node `ni`, in edge order.
    fn incoming_sources(&self, ni: usize) -> (r: Vec<usize>)
        requires
            self.wf(),
            (ni as int) < self.nodes_view().len(),
        ensures
            r@.len() == froms_of(self.edges@, ni as int).len(),
            forall|k: int|
                0 <= k < r@.len() ==> (#[trigger] r@[k]) as int == froms_of(self.edges@, ni as int)[k]
                    && (r@[k] as int) < self.nodes_view().len(),
    {
        let ghost es = self.edges@;
        let mut r: Vec<usize> = Vec::new();
        let mut e: usize = 0;
        proof {
            assert(es.skip(0) =~= es);
        }
        while e < self.edges.len()
            invariant
                self.wf(),
                es == self.edges@,
                es.len() == self.edges.len(),
                (ni as int) < self.nodes_view().len(),
                0 <= e <= es.len(),
                froms_of(es, ni as int) == r@.map_values(|u: usize| u as int) + froms_of(
                    es.skip(e as int),
                    ni as int,
                ),
                forall|k: int| 0 <= k < r@.len() ==> ((#[trigger] r@[k]) as int)
                    < self.nodes_view().len(),
            decreases es.len() - e,
        {
            proof {
                assert(es.skip(e as int)[0] == es[e as int]);
                assert(es.skip(e as int).skip(1) =~= es.skip(e as int + 1));
            }
            let ghost prev = r@;
            if self.edges[e].to == ni {
                let f = self.edges[e].from;
                r.push(f);
                proof {
                    assert(r@.map_values(|u: usize| u as int) =~= prev.map_values(
                        |u: usize| u as int,
                    ).push(f as int));
                    assert(prev.map_values(|u: usize| u as int) + (seq![es[e as int].from as int]
                        + froms_of(es.skip(e as int + 1), ni as int)) =~= r@.map_values(
                        |u: usize| u as int,
                    ) + froms_of(es.skip(e as int + 1), ni as int));
                }
            } else {
                proof {
                    assert(prev.map_values(|u: usize| u as int) + (Seq::<int>::empty() + froms_of(
                        es.skip(e as int + 1),
                        ni as int,
                    )) =~= prev.map_values(|u: usize| u as int) + froms_of(
                        es.skip(e as int + 1),
                        ni as int,
                    ));
                }
            }
            e += 1;
        }
        proof {
            assert(froms_of(es.skip(e as int), ni as int) =~= Seq::<int>::empty());
            assert(r@.map_values(|u: usize| u as int) + Seq::<int>::empty() =~= r@.map_values(
                |u: usize| u as int,
            ));
            assert(forall|k: int|
                0 <= k < r@.len() ==> (#[trigger] r@[k]) as int == r@.map_values(
                    |u: usize| u as int,
                )[k]);
        }
        r
    }

    /// Merges every incoming etymon's metadata into node `ni`, in edge
    /// order; on a shared key a later etymon wins.
    fn merge_incoming_metadata(&mut self, ni: usize)
        requires
            old(self).wf(),
            (ni as int) < old(self).nodes_view().len(),
        ensures
            final(self).wf(),
            final(self).edges_same(old(self)),
            final(self).phonology_view() == old(self).phonology_view(),
            final(self).globals_view() == old(self).globals_view(),
            final(self).nodes_view().len() == old(self).nodes_view().len(),
            forall|j: int|
                0 <= j < old(self).nodes_view().len() && j != ni as int
                    ==> final(self).nodes_view()[j] == #[trigger] old(self).nodes_view()[j],
            node_stable(
                &old(self).nodes_view()[ni as int],
                &final(self).nodes_view()[ni as int],
            ),
            word_view(final(self).nodes_view()[ni as int].word) == word_view(
                old(self).nodes_view()[ni as int].word,
            ),
            final(self).nodes_view()[ni as int].historical_metadata@ == merged_meta_from(
                old(self).nodes_view(),
                froms_of(old(self).edges@, ni as int),
                old(self).nodes_view()[ni as int].historical_metadata@,
            ),
    {
        let ghost nodes0 = self.nodes@;
        let ghost froms = froms_of(self.edges@, ni as int);
        let srcs = self.incoming_sources(ni);
        let mut meta = self.nodes[ni].historical_metadata.clone();
        let mut k: usize = 0;
        proof {
            assert(froms.skip(0) =~= froms);
        }
        while k < srcs.len()
            invariant
                self.wf(),
                nodes0 == self.nodes@,
                froms == froms_of(self.edges@, ni as int),
                srcs@.len() == froms.len(),
                forall|x: int|
                    0 <= x < srcs@.len() ==> (#[trigger] srcs@[x]) as int == froms[x] && (
                    srcs@[x] as int) < nodes0.len(),
                (ni as int) < nodes0.len(),
                0 <= k <= srcs.len(),
                merged_meta_from(nodes0, froms, nodes0[ni as int].historical_metadata@)
                    == merged_meta_from(nodes0, froms.skip(k as int), meta@),
            decreases srcs.len() - k,
        {
            proof {
                assert(froms.skip(k as int)[0] == froms[k as int]);
                assert(froms.skip(k as int).skip(1) =~= froms.skip(k as int + 1));
            }
            let src = srcs[k];
            let sm = self.nodes[src].historical_metadata.clone();
            meta.extend_from(&sm);
            k += 1;
        }
        proof {
            assert(froms.skip(k as int) =~= Seq::<int>::empty());
        }
        let mut node = self.nodes[ni].clone();
        node.historical_metadata = meta;
        self.nodes.set(ni, node);
    }

    /// Applies an edge's transforms to a copy of its source node and
    /// caches the resulting word on the edge. Everything else of the
    /// tree stands untouched; on success with a worded source the cache
    /// is filled.
    fn populate_edge(&mut self, eo: usize) -> (r: Result<(), crate::errors::TransformError>)
        requires
            old(self).wf(),
            (eo as int) < old(self).edge_count(),
        ensures
            final(self).wf(),
            final(self).nodes_view() == old(self).nodes_view(),
            final(self).phonology_view() == old(self).phonology_view(),
            final(self).globals_view() == old(self).globals_view(),
            final(self).edge_count() == old(self).edge_count(),
            forall|e: int|
                0 <= e < old(self).edge_count() && e != eo as int ==> final(self).edges@[e]
                    == #[trigger] old(self).edges@[e],
            final(self).edge_from(eo as int) == old(self).edge_from(eo as int),
            final(self).edge_to(eo as int) == old(self).edge_to(eo as int),
            final(self).edge_data(eo as int).transforms == old(self).edge_data(
                eo as int,
            ).transforms,
            final(self).edge_data(eo as int).agglutination_order == old(self).edge_data(
                eo as int,
            ).agglutination_order,
            r is Ok && old(self).nodes_view()[old(self).edge_from(eo as int)].word is Some
                ==> final(self).edge_data(eo as int).intermediate_word is Some,
            r is Err ==> word_view(final(self).edge_data(eo as int).intermediate_word)
                == word_view(old(self).edge_data(eo as int).intermediate_word),
            r is Err ==> !list_no_rhai(old(self).edge_data(eo as int).transforms@),
            r is Ok && crate::transforms::plain_pipeline(
                old(self).edge_data(eo as int).transforms@,
            ) ==> word_view(final(self).edge_data(eo as int).intermediate_word)
                == crate::transforms::apply_funcs_opt(
                word_view(old(self).nodes_view()[old(self).edge_from(eo as int)].word),
                crate::transforms::funcs_of(old(self).edge_data(eo as int).transforms@),
            ),
    {
        let src = self.edges[eo].from;
        let dst = self.edges[eo].to;
        let order = self.edges[eo].data.agglutination_order;
        let mut temp = self.nodes[src].clone();
        let result = apply_transform_list(&self.edges[eo].data.transforms, &mut temp);
        match result {
            Ok(_) => {
                let trans = take_transforms(&mut self.edges, eo);
                let replaced = EtyEdge {
                    from: src,
                    to: dst,
                    data: TreeEtymology {
                        transforms: trans,
                        intermediate_word: temp.word,
                        agglutination_order: order,
                    },
                };
                self.edges.set(eo, replaced);
                proof {
                    assert forall|e: int|
                        0 <= e < self.edges@.len() implies (#[trigger] self.edges@[e]).from
                        < self.nodes@.len() && self.edges@[e].to < self.nodes@.len() by {
                        if e != eo as int {
                            assert(self.edges@[e] == old(self).edges@[e]);
                        }
                    }
                }
                Ok(())
            },
            Err(e) => Err(e),
        }
    }
}

impl LanguageTree {
    /// Copies of the source nodes of the incoming edges of `ni`, in
    /// edge order: the direct etymons handed to the etymon guard of a
    /// global transform.
    fn collect_incoming_nodes(&self, ni: usize) -> (r: Vec<Lexis>)
        requires
            self.wf(),
            (ni as int) < self.nodes_view().len(),
        ensures
            r@.len() == froms_of(self.edges@, ni as int).len(),
            forall|k: int|
                0 <= k < r@.len() ==> lexis_full_eq(
                    &(#[trigger] r@[k]),
                    &self.nodes_view()[froms_of(self.edges@, ni as int)[k]],
                ),
    {
        let srcs = self.incoming_sources(ni);
        let mut r: Vec<Lexis> = Vec::new();
        let mut k: usize = 0;
        while k < srcs.len()
            invariant
                self.wf(),
                (ni as int) < self.nodes_view().len(),
                srcs@.len() == froms_of(self.edges@, ni as int).len(),
                forall|x: int|
                    0 <= x < srcs@.len() ==> (#[trigger] srcs@[x]) as int == froms_of(
                        self.edges@,
                        ni as int,
                    )[x] && (srcs@[x] as int) < self.nodes_view().len(),
                0 <= k <= srcs.len(),
                r@.len() == k,
                forall|x: int|
                    0 <= x < k ==> lexis_full_eq(
                        &(#[trigger] r@[x]),
                        &self.nodes_view()[froms_of(self.edges@, ni as int)[x]],
                    ),
            decreases srcs.len() - k,
        {
            r.push(self.nodes[srcs[k]].clone());
            k += 1;
        }
        r
    }

    /// Fills out the graph, walking the structure until every lexis
    /// that can be derived has been: a pass resolves each node whose
    /// incoming edges are all populated (agglutinating their forms in
    /// ascending order), merges its etymons' metadata into it, applies
    /// the global transforms, marks worded isolated nodes, and applies
    /// each resolved node's outgoing edge transforms; passes repeat
    /// until one changes nothing. The tree's structure - nodes, edges,
    /// their transforms and orders, the phonology and globals - is
    /// preserved, and a populated edge is never recomputed; only a
    /// scripted transform can make it fail.
    ///
    /// Law (idempotence): on a settled tree without global transforms
    /// the computation succeeds and changes nothing observable.
    ///
    /// Law (metadata inheritance): starting from a tree with no
    /// populated edges, every node resolved by agglutination ends up
    /// with exactly its own metadata extended by its etymons' metadata
    /// in edge order, a later etymon winning a shared key.
    #[verifier::rlimit(100)]
    pub fn compute_lexicon(&mut self) -> (r: Result<(), crate::errors::TransformError>)
        requires
            old(self).wf(),
        ensures
            final(self).wf(),
            structure_preserved(old(self), final(self)),
            settled(old(self)) && old(self).globals_view() is None ==> r is Ok && nodes_equiv(
                old(self),
                final(self),
            ) && final(self).edges_same(old(self)),
            r is Ok && pristine(old(self)) ==> forall|ni: int|
                0 <= ni < final(self).nodes_view().len() && #[trigger] qualifies(final(self), ni)
                    ==> final(self).nodes_view()[ni].historical_metadata@ == meta_fold(
                    final(self),
                    ni,
                    0,
                    old(self).nodes_view()[ni].historical_metadata@,
                ),
            words_kept(old(self), final(self)),
            anchors_kept(old(self), final(self)),
            tree_script_free(old(self)) ==> r is Ok,
            r is Ok ==> forall|ni: int|
                0 <= ni < final(self).nodes_view().len() && #[trigger] qualifies(final(self), ni)
                    ==> final(self).nodes_view()[ni].word is Some,
            r is Ok ==> forall|e: int|
                0 <= e < final(self).edge_count() && (qualifies(
                    final(self),
                    #[trigger] final(self).edge_from(e),
                ) || leaf_worded(final(self), final(self).edge_from(e))) ==> word_view(
                    final(self).edge_data(e).intermediate_word,
                ) is Some,
            r is Ok && old(self).globals_view() is None ==> forall|ni: int|
                0 <= ni < final(self).nodes_view().len() && #[trigger] qualifies(final(self), ni)
                    ==> word_view(final(self).nodes_view()[ni].word) == Some(
                    agg_word(final(self), ni),
                ),
            pristine(old(self)) && old(self).globals_view() is None ==> forall|e: int|
                0 <= e < final(self).edge_count() && word_view(
                    (#[trigger] final(self).edge_data(e)).intermediate_word,
                ) is Some && crate::transforms::plain_pipeline(final(self).edge_data(e).transforms@)
                    ==> word_view(final(self).edge_data(e).intermediate_word)
                    == crate::transforms::apply_funcs_opt(
                    word_view(final(self).nodes_view()[final(self).edge_from(e)].word),
                    crate::transforms::funcs_of(final(self).edge_data(e).transforms@),
                ),
    {
        let ghost hyp_a = settled(old(self)) && old(self).globals_view() is None;
        let ghost hyp_p = pristine(old(self));
        let ghost hyp_w = old(self).globals_view() is None;
        let n = self.nodes.len();
        let mut updated: Vec<bool> = Vec::new();
        let mut z: usize = 0;
        while z < n
            invariant
                0 <= z <= n,
                updated@.len() == z,
                forall|j: int| 0 <= j < z ==> !(#[trigger] updated@[j]),
            decreases n - z,
        {
            updated.push(false);
            z += 1;
        }
        let mut incomplete = true;
        proof {
            if hyp_a {
                assert forall|i: int|
                    0 <= i < old(self).nodes_view().len() implies lexis_full_eq(
                    &old(self).nodes_view()[i],
                    &(self.nodes_view()[i]),
                ) by {}
                assert(inv_keep_a(old(self), self, updated@));
            }
            if hyp_p {
                assert(inv_keep_p(old(self), self, updated@));
            }
            if hyp_w {
                assert(inv_words(self, updated@));
            }
            if hyp_p && hyp_w {
                assert(inv_inter(self));
            }
            assert(words_kept(old(self), self));
            assert(anchors_kept(old(self), self));
        }
        while incomplete
            invariant
                self.wf(),
                structure_preserved(old(self), self),
                n == old(self).nodes_view().len(),
                self.nodes_view().len() == n,
                updated@.len() == n,
                forall|j: int|
                    0 <= j < n && #[trigger] updated@[j] ==> self.nodes_view()[j].word is Some,
                hyp_a == (settled(old(self)) && old(self).globals_view() is None),
                hyp_p == pristine(old(self)),
                hyp_a ==> inv_keep_a(old(self), self, updated@),
                hyp_p ==> inv_keep_p(old(self), self, updated@),
                hyp_w == (old(self).globals_view() is None),
                hyp_w ==> inv_words(self, updated@),
                words_kept(old(self), self),
                anchors_kept(old(self), self),
                hyp_p && hyp_w ==> inv_inter(self),
                !incomplete ==> pass_ok(self, updated@, n as int),
            decreases count_false(updated@) + unpop_count(self.edges@) + (if incomplete {
                1nat
            } else {
                0nat
            }),
        {
            let ghost p0 = count_false(updated@) + unpop_count(self.edges@);
            let mut changed = false;
            let mut ni: usize = 0;
            while ni < n
                invariant
                    self.wf(),
                    structure_preserved(old(self), self),
                    n == old(self).nodes_view().len(),
                    self.nodes_view().len() == n,
                    updated@.len() == n,
                    forall|j: int|
                        0 <= j < n && #[trigger] updated@[j] ==> self.nodes_view()[j].word is Some,
                    0 <= ni <= n,
                    changed ==> count_false(updated@) + unpop_count(self.edges@) < p0,
                    !changed ==> count_false(updated@) + unpop_count(self.edges@) == p0,
                    hyp_a == (settled(old(self)) && old(self).globals_view() is None),
                    hyp_p == pristine(old(self)),
                    hyp_a ==> inv_keep_a(old(self), self, updated@),
                    hyp_p ==> inv_keep_p(old(self), self, updated@),
                    hyp_w == (old(self).globals_view() is None),
                    hyp_w ==> inv_words(self, updated@),
                    words_kept(old(self), self),
                    anchors_kept(old(self), self),
                    hyp_p && hyp_w ==> inv_inter(self),
                    !changed ==> pass_ok(self, updated@, ni as int),
                decreases n - ni,
            {
                let ghost upd0 = updated@;
                let ghost t_entry = *self;
                let entry_updated = updated[ni];
                if !entry_updated {
                    // try word generation from the phonetic rules first
                    let needs_gen = self.nodes[ni].word_create.is_some()
                        && self.nodes[ni].word.is_none();
                    if needs_gen {
                        let wt = match &self.nodes[ni].word_create {
                            Some(s) => s.clone(),
                            None => String::new(),
                        };
                        let generated = self.word_creator_phonology.create_word(wt.as_str());
                        if let Some(found_new) = generated {
                            proof {
                                if hyp_a {
                                    assert(lexis_full_eq(
                                        &old(self).nodes_view()[ni as int],
                                        &self.nodes_view()[ni as int],
                                    ));
                                    assert(no_pending(old(self)));
                                    assert(match old(self).nodes_view()[ni as int].word_create {
                                        Some(k) => old(self).nodes_view()[ni as int].word is Some
                                            || crate::lexcreate::find_type(
                                            old(self).phonology_view().lexis_types@,
                                            k@,
                                        ) is None,
                                        None => true,
                                    });
                                    assert(false);
                                }
                            }
                            let ghost prev = *self;
                            let mut node = self.nodes[ni].clone();
                            node.word = Some(found_new);
                            self.nodes.set(ni, node);
                            proof {
                                assert forall|i: int|
                                    0 <= i < n implies node_stable(
                                    &prev.nodes@[i],
                                    &(self.nodes@[i]),
                                ) by {
                                    if i != ni as int {
                                        assert(self.nodes@[i] == prev.nodes@[i]);
                                    }
                                }
                                lemma_sp_node_step(*old(self), prev, *self);
                                assert(self.edges@ == prev.edges@);
                                assert(!gen_dead(old(self), ni as int)) by {
                                    assert(opt_str_view(
                                        prev.nodes_view()[ni as int].word_create,
                                    ) == opt_str_view(
                                        old(self).nodes_view()[ni as int].word_create,
                                    ));
                                    assert(prev.phonology_view() == old(self).phonology_view());
                                }
                                lemma_tree_shift(self, &prev, ni as int);
                                if indeg(self, ni as int) == 0 {
                                    if word_view(old(self).nodes_view()[ni as int].word) is Some {
                                        assert(word_view(prev.nodes_view()[ni as int].word)
                                            == word_view(
                                            old(self).nodes_view()[ni as int].word,
                                        ));
                                        assert(false);
                                    }
                                    assert(self.nodes_view()[ni as int].historical_metadata@
                                        == old(self).nodes_view()[ni as int].historical_metadata@);
                                }
                                lemma_anchors_node_step(old(self), prev, self, ni as int);
                                if hyp_p {
                                    lemma_keep_p_meta_same(old(self), prev, self, updated@);
                                }
                                assert forall|i: int|
                                    0 <= i < n && word_view(
                                    (#[trigger] old(self).nodes_view()[i]).word,
                                ) is Some implies word_view(self.nodes_view()[i].word) is Some by {
                                    if i != ni as int {
                                        assert(self.nodes@[i] == prev.nodes@[i]);
                                    }
                                }
                                if hyp_w {
                                    assert forall|j: int|
                                        0 <= j < updated@.len() && #[trigger] updated@[j] && indeg(
                                        self,
                                        j,
                                    ) > 0 implies all_incoming_populated(self, j) && word_view(
                                        self.nodes_view()[j].word,
                                    ) == Some(agg_word(self, j)) by {
                                        lemma_tree_shift(self, &prev, j);
                                        assert(j != ni as int);
                                        assert(self.nodes@[j] == prev.nodes@[j]);
                                    }
                                }
                                if hyp_p && hyp_w {
                                    assert forall|e: int|
                                        0 <= e < self.edge_count() && word_view(
                                        (#[trigger] self.edge_data(e)).intermediate_word,
                                    ) is Some && crate::transforms::plain_pipeline(
                                        self.edge_data(e).transforms@,
                                    ) implies word_view(self.edge_data(e).intermediate_word)
                                        == crate::transforms::apply_funcs_opt(
                                        word_view(self.nodes_view()[self.edge_from(e)].word),
                                        crate::transforms::funcs_of(self.edge_data(e).transforms@),
                                    ) by {
                                        assert(self.edges@[e] == prev.edges@[e]);
                                        assert(word_view(
                                            prev.edge_data(e).intermediate_word,
                                        ) is Some);
                                        assert(updated@[prev.edge_from(e)]);
                                        assert(prev.edge_from(e) != ni as int);
                                        assert(self.nodes@[prev.edge_from(e)] == prev.nodes@[
                                            prev.edge_from(e)]);
                                    }
                                    assert(inv_inter(self));
                                }
                                if !changed {
                                    assert forall|j: int|
                                        0 <= j < ni as int implies self.nodes_view()[j]
                                        == #[trigger] prev.nodes_view()[j] by {
                                        assert(self.nodes@[j] == prev.nodes@[j]);
                                    }
                                    lemma_pass_ok_step(prev, self, updated@, ni as int);
                                }
                            }
                        }
                    }
                    // walk the incoming edges
                    let mut is_ready = true;
                    let mut etymons_in_lex: usize = 0;
                    let mut upstreams: Vec<(i32, Lemma)> = Vec::new();
                    let mut ei: usize = 0;
                    proof {
                        assert(views_of_pairs(upstreams@) =~= Seq::<(i32, Seq<Seq<char>>)>::empty());
                        assert(Seq::<(i32, Seq<Seq<char>>)>::empty() + upstream_pairs(
                            self,
                            ni as int,
                            0,
                        ) =~= upstream_pairs(self, ni as int, 0));
                    }
                    while ei < self.edges.len()
                        invariant
                            self.wf(),
                            structure_preserved(old(self), self),
                            n == old(self).nodes_view().len(),
                            self.nodes_view().len() == n,
                            updated@.len() == n,
                            forall|j: int|
                                0 <= j < n && #[trigger] updated@[j]
                                    ==> self.nodes_view()[j].word is Some,
                            (ni as int) < n,
                            0 <= ei <= self.edges@.len(),
                            etymons_in_lex <= ei,
                            changed ==> count_false(updated@) + unpop_count(self.edges@) < p0,
                            !changed ==> count_false(updated@) + unpop_count(self.edges@) == p0,
                            hyp_a == (settled(old(self)) && old(self).globals_view() is None),
                            hyp_p == pristine(old(self)),
                            hyp_a ==> inv_keep_a(old(self), self, updated@),
                            hyp_p ==> inv_keep_p(old(self), self, updated@),
                            hyp_w == (old(self).globals_view() is None),
                            hyp_w ==> inv_words(self, updated@),
                            words_kept(old(self), self),
                            anchors_kept(old(self), self),
                            hyp_p && hyp_w ==> inv_inter(self),
                            !changed ==> pass_ok(self, updated@, ni as int),
                            upd0 == updated@,
                            !updated@[ni as int],
                            indeg(self, ni as int) == etymons_in_lex + incoming_of(
                                self,
                                ni as int,
                                ei as int,
                            ).len(),
                            is_ready == (forall|e2: int|
                                0 <= e2 < ei && #[trigger] self.edge_to(e2) == ni as int
                                    ==> word_view(self.edge_data(e2).intermediate_word) is Some),
                            is_ready ==> views_of_pairs(upstreams@) + upstream_pairs(
                                self,
                                ni as int,
                                ei as int,
                            ) == upstream_pairs(self, ni as int, 0),
                        decreases self.edges@.len() - ei,
                    {
                        proof {
                            assert(incoming_of(self, ni as int, ei as int) == (if self.edge_to(
                                ei as int,
                            ) == ni as int {
                                seq![ei as int]
                            } else {
                                Seq::<int>::empty()
                            }) + incoming_of(self, ni as int, ei as int + 1));
                        }
                        if self.edges[ei].to == ni {
                            etymons_in_lex += 1;
                            match &self.edges[ei].data.intermediate_word {
                                None => {
                                    proof {
                                        assert(self.edge_to(ei as int) == ni as int);
                                        assert(!(word_view(
                                            self.edge_data(ei as int).intermediate_word,
                                        ) is Some));
                                    }
                                    is_ready = false;
                                },
                                Some(l) => {
                                    if is_ready {
                                        let order = match self.edges[ei].data.agglutination_order {
                                            Some(o) => o,
                                            None => 0,
                                        };
                                        let ghost prev_ups = upstreams@;
                                        upstreams.push((order, l.clone()));
                                        proof {
                                            lemma_views_of_pairs_len(prev_ups);
                                            lemma_views_of_pairs_len(upstreams@);
                                            assert(views_of_pairs(upstreams@) =~= views_of_pairs(
                                                prev_ups,
                                            ).push(
                                                (
                                                    order_of(
                                                        self.edge_data(
                                                            ei as int,
                                                        ).agglutination_order,
                                                    ),
                                                    l@,
                                                ),
                                            ));
                                            assert(upstream_pairs(self, ni as int, ei as int)
                                                == seq![
                                                (
                                                    order_of(
                                                        self.edge_data(
                                                            ei as int,
                                                        ).agglutination_order,
                                                    ),
                                                    l@,
                                                ),
                                            ] + upstream_pairs(self, ni as int, ei as int + 1));
                                            assert(views_of_pairs(prev_ups) + (seq![
                                                (
                                                    order_of(
                                                        self.edge_data(
                                                            ei as int,
                                                        ).agglutination_order,
                                                    ),
                                                    l@,
                                                ),
                                            ] + upstream_pairs(self, ni as int, ei as int + 1))
                                                =~= views_of_pairs(upstreams@) + upstream_pairs(
                                                self,
                                                ni as int,
                                                ei as int + 1,
                                            ));
                                        }
                                    }
                                },
                            }
                        } else {
                            proof {
                                assert(upstream_pairs(self, ni as int, ei as int)
                                    == upstream_pairs(self, ni as int, ei as int + 1));
                            }
                        }
                        ei += 1;
                    }
                    // all incoming populated: agglutinate them into the word
                    if etymons_in_lex > 0 && is_ready {
                        changed = true;
                        let ghost ups = upstreams@;
                        proof {
                            assert(incoming_of(self, ni as int, self.edges@.len() as int) =~= Seq::<
                                int,
                            >::empty());
                            assert(indeg(self, ni as int) == etymons_in_lex as int);
                            assert(all_incoming_populated(self, ni as int));
                            assert(qualifies(self, ni as int));
                            assert(upstream_pairs(self, ni as int, self.edges@.len() as int) =~= Seq::<
                                (i32, Seq<Seq<char>>),
                            >::empty());
                            assert(views_of_pairs(ups) =~= upstream_pairs(self, ni as int, 0));
                            lemma_agg_view(ups);
                        }
                        let rendered = join_string_vectors(upstreams);
                        let ghost prev = *self;
                        proof {
                            assert(rendered@ == agg_word(&prev, ni as int));
                            if hyp_p {
                                assert forall|e: int|
                                    0 <= e < t_entry.edge_count() && #[trigger] t_entry.edge_to(e)
                                        == ni as int implies t_entry.edge_from(e) != ni as int by {
                                    assert(t_entry.edges@[e] == self.edges@[e]);
                                    assert(self.edge_to(e) == ni as int);
                                    assert(word_view(
                                        self.edge_data(e).intermediate_word,
                                    ) is Some);
                                    assert(upd0[self.edge_from(e)]);
                                    assert(!upd0[ni as int]);
                                }
                            }
                        }
                        let mut node = self.nodes[ni].clone();
                        let ghost mbase = node.historical_metadata@;
                        node.word = Some(rendered);
                        self.nodes.set(ni, node);
                        proof {
                            assert forall|i: int|
                                0 <= i < n implies node_stable(&prev.nodes@[i], &(self.nodes@[i])) by {
                                if i != ni as int {
                                    assert(self.nodes@[i] == prev.nodes@[i]);
                                }
                            }
                            lemma_sp_node_step(*old(self), prev, *self);
                            assert(qualifies(self, ni as int)) by {
                                lemma_tree_shift(self, &prev, ni as int);
                            }
                            lemma_anchors_node_step(old(self), prev, self, ni as int);
                            if hyp_a {
                                lemma_tree_shift(&prev, old(self), ni as int);
                                assert(qualifies(old(self), ni as int));
                                assert(word_view(old(self).nodes_view()[ni as int].word) == Some(
                                    agg_word(old(self), ni as int),
                                ));
                                assert(agg_word(old(self), ni as int) == agg_word(
                                    &prev,
                                    ni as int,
                                ));
                                assert(lexis_full_eq(
                                    &old(self).nodes_view()[ni as int],
                                    &prev.nodes_view()[ni as int],
                                ));
                                assert(lexis_full_eq(
                                    &old(self).nodes_view()[ni as int],
                                    &self.nodes_view()[ni as int],
                                ));
                                assert forall|i: int|
                                    0 <= i < n implies lexis_full_eq(
                                    &old(self).nodes_view()[i],
                                    &(self.nodes_view()[i]),
                                ) by {
                                    if i != ni as int {
                                        assert(self.nodes@[i] == prev.nodes@[i]);
                                    }
                                }
                            }
                            lemma_count_false_update(updated@, ni as int);
                            assert forall|i: int|
                                0 <= i < n && word_view(
                                (#[trigger] old(self).nodes_view()[i]).word,
                            ) is Some implies word_view(self.nodes_view()[i].word) is Some by {
                                if i != ni as int {
                                    assert(self.nodes@[i] == prev.nodes@[i]);
                                }
                            }
                        }
                        updated.set(ni, true);
                        proof {
                            if hyp_a {
                                assert(inv_keep_a(old(self), self, updated@));
                            }
                            if hyp_p && hyp_w {
                                assert forall|e: int|
                                    0 <= e < self.edge_count() && word_view(
                                    (#[trigger] self.edge_data(e)).intermediate_word,
                                ) is Some && crate::transforms::plain_pipeline(
                                    self.edge_data(e).transforms@,
                                ) implies word_view(self.edge_data(e).intermediate_word)
                                    == crate::transforms::apply_funcs_opt(
                                    word_view(self.nodes_view()[self.edge_from(e)].word),
                                    crate::transforms::funcs_of(self.edge_data(e).transforms@),
                                ) by {
                                    assert(self.edges@[e] == prev.edges@[e]);
                                    assert(word_view(prev.edge_data(e).intermediate_word) is Some);
                                    assert(upd0[prev.edge_from(e)]);
                                    assert(prev.edge_from(e) != ni as int);
                                    assert(self.nodes@[prev.edge_from(e)] == prev.nodes@[
                                        prev.edge_from(e)]);
                                }
                                assert(inv_inter(self));
                            }
                            if hyp_w {
                                lemma_tree_shift(self, &prev, ni as int);
                                assert(word_view(self.nodes_view()[ni as int].word) == Some(
                                    agg_word(self, ni as int),
                                ));
                                assert forall|j: int|
                                    0 <= j < updated@.len() && #[trigger] updated@[j] && indeg(
                                    self,
                                    j,
                                ) > 0 implies all_incoming_populated(self, j) && word_view(
                                    self.nodes_view()[j].word,
                                ) == Some(agg_word(self, j)) by {
                                    lemma_tree_shift(self, &prev, j);
                                    if j != ni as int {
                                        assert(self.nodes@[j] == prev.nodes@[j]);
                                        assert(upd0[j]);
                                    }
                                }
                            }
                            if hyp_p {
                                assert forall|j: int|
                                    0 <= j < updated@.len() && #[trigger] updated@[j] && indeg(
                                    self,
                                    j,
                                ) > 0 && j != ni as int implies all_incoming_populated(self, j)
                                    && self.nodes_view()[j].historical_metadata@ == meta_fold(
                                    self,
                                    j,
                                    0,
                                    old(self).nodes_view()[j].historical_metadata@,
                                ) by {
                                    assert(self.edges@ == prev.edges@);
                                    lemma_tree_shift(self, &prev, j);
                                    lemma_meta_fold_views(
                                        self,
                                        &prev,
                                        j,
                                        0,
                                        old(self).nodes_view()[j].historical_metadata@,
                                    );
                                }
                            }
                        }
                        // metadata trickles down from the etymons
                        let ghost prev2 = *self;
                        self.merge_incoming_metadata(ni);
                        proof {
                            assert forall|i: int|
                                0 <= i < n implies node_stable(&prev2.nodes@[i], &(self.nodes@[i])) by {
                                if i != ni as int {
                                    assert(self.nodes@[i] == prev2.nodes@[i]);
                                }
                            }
                            lemma_sp_node_step(*old(self), prev2, *self);
                            assert(qualifies(self, ni as int)) by {
                                lemma_tree_shift(self, &prev2, ni as int);
                            }
                            lemma_anchors_node_step(old(self), prev2, self, ni as int);
                            assert forall|i: int|
                                0 <= i < n && word_view(
                                (#[trigger] old(self).nodes_view()[i]).word,
                            ) is Some implies word_view(self.nodes_view()[i].word) is Some by {
                                if i != ni as int {
                                    assert(self.nodes@[i] == prev2.nodes@[i]);
                                }
                            }
                            if hyp_w {
                                assert forall|j: int|
                                    0 <= j < updated@.len() && #[trigger] updated@[j] && indeg(
                                    self,
                                    j,
                                ) > 0 implies all_incoming_populated(self, j) && word_view(
                                    self.nodes_view()[j].word,
                                ) == Some(agg_word(self, j)) by {
                                    lemma_tree_shift(self, &prev2, j);
                                    if j != ni as int {
                                        assert(self.nodes@[j] == prev2.nodes@[j]);
                                    }
                                }
                            }
                            if hyp_p && hyp_w {
                                assert forall|e: int|
                                    0 <= e < self.edge_count() && word_view(
                                    (#[trigger] self.edge_data(e)).intermediate_word,
                                ) is Some && crate::transforms::plain_pipeline(
                                    self.edge_data(e).transforms@,
                                ) implies word_view(self.edge_data(e).intermediate_word)
                                    == crate::transforms::apply_funcs_opt(
                                    word_view(self.nodes_view()[self.edge_from(e)].word),
                                    crate::transforms::funcs_of(self.edge_data(e).transforms@),
                                ) by {
                                    assert(self.edges@[e] == prev2.edges@[e]);
                                    assert(word_view(prev2.edge_data(e).intermediate_word) is Some);
                                    let f = prev2.edge_from(e);
                                    if f != ni as int {
                                        assert(self.nodes@[f] == prev2.nodes@[f]);
                                    } else {
                                        assert(word_view(self.nodes_view()[f].word) == word_view(
                                            prev2.nodes_view()[f].word,
                                        ));
                                    }
                                }
                                assert(inv_inter(self));
                            }
                            if hyp_p {
                                assert(self.edges@ == t_entry.edges@);
                                assert(!upd0[ni as int]);
                                assert(mbase == t_entry.nodes_view()[
                                    ni as int].historical_metadata@);
                                assert(mbase == old(self).nodes_view()[
                                    ni as int].historical_metadata@);
                                assert(self.nodes_view()[ni as int].historical_metadata@
                                    == merged_meta_from(
                                    prev2.nodes_view(),
                                    froms_of(prev2.edges@, ni as int),
                                    mbase,
                                ));
                                assert(prev2.edges@.skip(0) =~= prev2.edges@);
                                lemma_fold_link(&prev2, ni as int, 0, mbase);
                                assert(self.nodes_view()[ni as int].historical_metadata@
                                    == meta_fold(&prev2, ni as int, 0, mbase));
                                assert forall|y: int|
                                    0 <= y < self.edge_count() && #[trigger] self.edge_to(y)
                                        == ni as int implies self.edge_from(y) != ni as int by {
                                    assert(self.edges@[y] == t_entry.edges@[y]);
                                    assert(t_entry.edge_to(y) == ni as int);
                                    assert(t_entry.edge_from(y) != ni as int);
                                }
                                lemma_meta_fold_stable(self, &prev2, ni as int, 0, mbase, ni as int);
                                assert(self.nodes_view()[ni as int].historical_metadata@
                                    == meta_fold(self, ni as int, 0, mbase));
                                assert(all_incoming_populated(self, ni as int)) by {
                                    assert(all_incoming_populated(&prev, ni as int));
                                    assert forall|e2: int|
                                        0 <= e2 < self.edge_count() && #[trigger] self.edge_to(e2)
                                            == ni as int implies word_view(
                                        self.edge_data(e2).intermediate_word,
                                    ) is Some by {
                                        assert(self.edges@[e2] == prev.edges@[e2]);
                                        assert(prev.edge_to(e2) == ni as int);
                                        assert(word_view(
                                            prev.edge_data(e2).intermediate_word,
                                        ) is Some);
                                    }
                                }
                                assert forall|j: int|
                                    0 <= j < updated@.len() && #[trigger] updated@[j] && indeg(
                                    self,
                                    j,
                                ) > 0 && j != ni as int implies all_incoming_populated(self, j)
                                    && self.nodes_view()[j].historical_metadata@ == meta_fold(
                                    self,
                                    j,
                                    0,
                                    old(self).nodes_view()[j].historical_metadata@,
                                ) by {
                                    assert(upd0[j]);
                                    lemma_tree_shift(self, &t_entry, j);
                                    assert(all_incoming_populated(&t_entry, j));
                                    assert(self.nodes@[j] == t_entry.nodes@[j]);
                                    assert forall|e: int|
                                        0 <= e < self.edge_count() && #[trigger] self.edge_to(e)
                                            == j implies self.edge_from(e) != ni as int by {
                                        assert(self.edges@[e] == t_entry.edges@[e]);
                                        assert(t_entry.edge_to(e) == j);
                                        assert(word_view(
                                            t_entry.edge_data(e).intermediate_word,
                                        ) is Some);
                                        assert(upd0[t_entry.edge_from(e)]);
                                        assert(!upd0[ni as int]);
                                    }
                                    lemma_meta_fold_stable(
                                        self,
                                        &t_entry,
                                        j,
                                        0,
                                        old(self).nodes_view()[j].historical_metadata@,
                                        ni as int,
                                    );
                                }
                                assert forall|e2: int|
                                    0 <= e2 < self.edge_count() && word_view(
                                    (#[trigger] self.edge_data(e2)).intermediate_word,
                                ) is Some implies 0 <= self.edge_from(e2) < updated@.len()
                                    && updated@[self.edge_from(e2)] by {
                                    assert(self.edges@[e2] == t_entry.edges@[e2]);
                                    assert(word_view(
                                        t_entry.edge_data(e2).intermediate_word,
                                    ) is Some);
                                    assert(upd0[t_entry.edge_from(e2)]);
                                }
                                assert forall|j: int|
                                    0 <= j < updated@.len() && !(#[trigger] updated@[j]) implies
                                    self.nodes_view()[j].historical_metadata@ == old(
                                    self,
                                ).nodes_view()[j].historical_metadata@ by {
                                    assert(j != ni as int);
                                    assert(!upd0[j]);
                                    assert(self.nodes@[j] == t_entry.nodes@[j]);
                                }
                                assert(inv_keep_p(old(self), self, updated@));
                            }
                            if hyp_a {
                                assert(mbase == old(self).nodes_view()[
                                    ni as int].historical_metadata@);
                                assert(prev2.edges@.skip(0) =~= prev2.edges@);
                                lemma_fold_link(&prev2, ni as int, 0, mbase);
                                assert(self.nodes_view()[ni as int].historical_metadata@
                                    == meta_fold(&prev2, ni as int, 0, mbase));
                                lemma_meta_fold_views(&prev2, old(self), ni as int, 0, mbase);
                                assert(self.nodes_view()[ni as int].historical_metadata@
                                    == meta_fold(old(self), ni as int, 0, mbase));
                                assert(self.nodes_view()[ni as int].historical_metadata@ == old(
                                    self,
                                ).nodes_view()[ni as int].historical_metadata@);
                                assert forall|i: int|
                                    0 <= i < n implies lexis_full_eq(
                                    &old(self).nodes_view()[i],
                                    &(self.nodes_view()[i]),
                                ) by {
                                    if i != ni as int {
                                        assert(self.nodes@[i] == prev2.nodes@[i]);
                                    }
                                }
                                assert(inv_keep_a(old(self), self, updated@));
                            }
                        }
                        // apply the global transforms, if any
                        let has_globals = match &self.global_transforms {
                            Some(_) => true,
                            None => false,
                        };
                        if has_globals {
                            proof {
                                if hyp_w {
                                    assert(self.globals_view() == old(self).globals_view());
                                    assert(false);
                                }
                            }
                            let etys = self.collect_incoming_nodes(ni);
                            let mut updating = self.nodes[ni].clone();
                            let mut gi: usize = 0;
                            let glen = match &self.global_transforms {
                                Some(g) => g.len(),
                                None => 0,
                            };
                            let mut failed: Option<crate::errors::TransformError> = None;
                            while gi < glen
                                invariant
                                    self.wf(),
                                    structure_preserved(old(self), self),
                                    n == old(self).nodes_view().len(),
                                    self.nodes_view().len() == n,
                                    updated@.len() == n,
                                    forall|j: int|
                                        0 <= j < n && #[trigger] updated@[j]
                                            ==> self.nodes_view()[j].word is Some,
                                    (ni as int) < n,
                                    self.globals_view() is Some && glen == self.globals_view()
                                        .unwrap()@.len(),
                                    0 <= gi <= glen,
                                    failed is None ==> node_stable(
                                        &old(self).nodes_view()[ni as int],
                                        &updating,
                                    ) && updating.word is Some
                                        && updating.historical_metadata@ == self.nodes_view()[
                                        ni as int].historical_metadata@,
                                    changed,
                                    count_false(updated@) + unpop_count(self.edges@) < p0,
                                    hyp_a == (settled(old(self)) && old(self).globals_view()
                                        is None),
                                    hyp_p == pristine(old(self)),
                                    hyp_a ==> inv_keep_a(old(self), self, updated@),
                                    hyp_p ==> inv_keep_p(old(self), self, updated@),
                                    hyp_w == (old(self).globals_view() is None),
                                    words_kept(old(self), self),
                                    anchors_kept(old(self), self),
                                    hyp_p && hyp_w ==> inv_inter(self),
                                    failed is Some ==> !tree_script_free(old(self)),
                                decreases glen - gi,
                            {
                                let step = match &self.global_transforms {
                                    Some(g) => g[gi].transform(&mut updating, Some(&etys)),
                                    None => Ok(()),
                                };
                                match step {
                                    Ok(_) => {},
                                    Err(e) => {
                                        proof {
                                            assert(!crate::transforms::no_rhai(
                                                self.globals_view().unwrap()@[
                                                    gi as int].transforms@,
                                            ));
                                            assert(self.globals_view() == old(
                                                self,
                                            ).globals_view());
                                        }
                                        failed = Some(e);
                                        gi = glen;
                                        continue ;
                                    },
                                }
                                gi += 1;
                            }
                            match failed {
                                Some(e) => {
                                    proof {
                                        if tree_script_free(old(self)) {
                                            assert(false);
                                        }
                                    }
                                    return Err(e);
                                },
                                None => {},
                            }
                            let ghost prev3 = *self;
                            self.nodes.set(ni, updating);
                            proof {
                                assert forall|i: int|
                                    0 <= i < n implies node_stable(
                                    &prev3.nodes@[i],
                                    &(self.nodes@[i]),
                                ) by {
                                    if i != ni as int {
                                        assert(self.nodes@[i] == prev3.nodes@[i]);
                                    }
                                }
                                lemma_sp_node_step(*old(self), prev3, *self);
                                assert(qualifies(self, ni as int)) by {
                                    lemma_tree_shift(self, &prev3, ni as int);
                                }
                                lemma_anchors_node_step(old(self), prev3, self, ni as int);
                                if hyp_p {
                                    lemma_keep_p_meta_same(old(self), prev3, self, updated@);
                                }
                                assert forall|i: int|
                                    0 <= i < n && word_view(
                                    (#[trigger] old(self).nodes_view()[i]).word,
                                ) is Some implies word_view(self.nodes_view()[i].word) is Some by {
                                    if i != ni as int {
                                        assert(self.nodes@[i] == prev3.nodes@[i]);
                                    }
                                }
                            }
                        }
                    }
                    // an isolated node with a word counts as resolved
                    if self.nodes[ni].word.is_some() && etymons_in_lex == 0 {
                        changed = true;
                        proof {
                            assert(incoming_of(self, ni as int, self.edges@.len() as int) =~= Seq::<
                                int,
                            >::empty());
                            assert(indeg(self, ni as int) == 0);
                            if hyp_a {
                                lemma_tree_shift(self, old(self), ni as int);
                                assert(lexis_full_eq(
                                    &old(self).nodes_view()[ni as int],
                                    &self.nodes_view()[ni as int],
                                ));
                                assert(leaf_worded(old(self), ni as int));
                            }
                            lemma_count_false_update(updated@, ni as int);
                        }
                        updated.set(ni, true);
                        proof {
                            if hyp_a {
                                assert(inv_keep_a(old(self), self, updated@));
                            }
                            if hyp_p {
                                assert(inv_keep_p(old(self), self, updated@));
                            }
                        }
                    }
                }
                // a resolved word trickles down its outgoing edges
                if updated[ni] {
                    let mut eo: usize = 0;
                    while eo < self.edges.len()
                        invariant
                            self.wf(),
                            structure_preserved(old(self), self),
                            n == old(self).nodes_view().len(),
                            self.nodes_view().len() == n,
                            updated@.len() == n,
                            forall|j: int|
                                0 <= j < n && #[trigger] updated@[j]
                                    ==> self.nodes_view()[j].word is Some,
                            (ni as int) < n,
                            updated@[ni as int],
                            0 <= eo <= self.edges@.len(),
                            changed ==> count_false(updated@) + unpop_count(self.edges@) < p0,
                            !changed ==> count_false(updated@) + unpop_count(self.edges@) == p0,
                            hyp_a == (settled(old(self)) && old(self).globals_view() is None),
                            hyp_p == pristine(old(self)),
                            hyp_a ==> inv_keep_a(old(self), self, updated@),
                            hyp_p ==> inv_keep_p(old(self), self, updated@),
                            hyp_w == (old(self).globals_view() is None),
                            hyp_w ==> inv_words(self, updated@),
                            words_kept(old(self), self),
                            anchors_kept(old(self), self),
                            hyp_p && hyp_w ==> inv_inter(self),
                            !changed ==> pass_ok(self, updated@, ni as int),
                            !changed ==> forall|e: int|
                                0 <= e < eo && #[trigger] self.edge_from(e) == ni as int
                                    ==> word_view(self.edge_data(e).intermediate_word) is Some,
                        decreases self.edges@.len() - eo,
                    {
                        let from_is_ni = self.edges[eo].from == ni;
                        let empty_inter = match &self.edges[eo].data.intermediate_word {
                            None => true,
                            Some(_) => false,
                        };
                        if from_is_ni && empty_inter {
                            proof {
                                if hyp_a {
                                    assert(qualifies(old(self), ni as int) || leaf_worded(
                                        old(self),
                                        ni as int,
                                    ));
                                    assert(old(self).edge_from(eo as int) == ni as int);
                                    assert(word_view(
                                        old(self).edge_data(eo as int).intermediate_word,
                                    ) is Some);
                                    assert(self.edges@[eo as int] == old(self).edges@[eo as int]);
                                    assert(false);
                                }
                            }
                            let ghost edges0 = self.edges@;
                            let ghost prev4 = *self;
                            match self.populate_edge(eo) {
                                Ok(_) => {
                                    proof {
                                        assert(self.edges@ =~= edges0.update(
                                            eo as int,
                                            self.edges@[eo as int],
                                        ));
                                        lemma_unpop_update(
                                            edges0,
                                            eo as int,
                                            self.edges@[eo as int],
                                        );
                                        lemma_sp_edge_step(
                                            *old(self),
                                            prev4,
                                            *self,
                                            eo as int,
                                        );
                                        assert(self.nodes@ == prev4.nodes@);
                                        assert forall|x: int|
                                            0 <= x < self.edge_count() && word_view(
                                            (
                                            #[trigger] prev4.edge_data(x)).intermediate_word,
                                        ) is Some implies word_view(
                                            self.edge_data(x).intermediate_word,
                                        ) is Some by {
                                            if x != eo as int {
                                                assert(self.edges@[x] == prev4.edges@[x]);
                                            }
                                        }
                                        lemma_anchors_edge_step(old(self), prev4, self);
                                        if hyp_p && hyp_w {
                                            assert forall|e2: int|
                                                0 <= e2 < self.edge_count() && word_view(
                                                (
                                                #[trigger] self.edge_data(
                                                    e2,
                                                )).intermediate_word,
                                            ) is Some && crate::transforms::plain_pipeline(
                                                self.edge_data(e2).transforms@,
                                            ) implies word_view(
                                                self.edge_data(e2).intermediate_word,
                                            ) == crate::transforms::apply_funcs_opt(
                                                word_view(
                                                    self.nodes_view()[self.edge_from(e2)].word,
                                                ),
                                                crate::transforms::funcs_of(
                                                    self.edge_data(e2).transforms@,
                                                ),
                                            ) by {
                                                if e2 != eo as int {
                                                    assert(self.edges@[e2] == prev4.edges@[e2]);
                                                    assert(word_view(
                                                        prev4.edge_data(e2).intermediate_word,
                                                    ) is Some);
                                                } else {
                                                    assert(self.edge_from(e2) == prev4.edge_from(
                                                        e2,
                                                    ));
                                                    assert(self.edge_data(e2).transforms
                                                        == prev4.edge_data(e2).transforms);
                                                }
                                            }
                                            assert(inv_inter(self));
                                        }
                                        if hyp_w {
                                            assert forall|j: int|
                                                0 <= j < updated@.len() && #[trigger] updated@[j]
                                                    && indeg(self, j) > 0 implies
                                                all_incoming_populated(self, j) && word_view(
                                                self.nodes_view()[j].word,
                                            ) == Some(agg_word(self, j)) by {
                                                lemma_incoming_shape(self, &prev4, j, 0);
                                                assert(prev4.edge_to(eo as int) != j);
                                                lemma_upstream_stable(
                                                    self,
                                                    &prev4,
                                                    j,
                                                    0,
                                                    eo as int,
                                                );
                                                assert forall|e2: int|
                                                    0 <= e2 < self.edge_count()
                                                        && #[trigger] self.edge_to(e2)
                                                        == j implies word_view(
                                                    self.edge_data(e2).intermediate_word,
                                                ) is Some by {
                                                    if e2 != eo as int {
                                                        assert(self.edges@[e2]
                                                            == prev4.edges@[e2]);
                                                        assert(prev4.edge_to(e2) == j);
                                                    }
                                                }
                                            }
                                        }
                                        if hyp_p {
                                            assert forall|e2: int|
                                                0 <= e2 < self.edge_count() && word_view(
                                                (
                                                #[trigger] self.edge_data(
                                                    e2,
                                                )).intermediate_word,
                                            ) is Some implies 0 <= self.edge_from(e2)
                                                < updated@.len() && updated@[self.edge_from(
                                                e2,
                                            )] by {
                                                if e2 != eo as int {
                                                    assert(self.edges@[e2] == prev4.edges@[e2]);
                                                    assert(word_view(
                                                        prev4.edge_data(e2).intermediate_word,
                                                    ) is Some);
                                                } else {
                                                    assert(self.edge_from(e2) == ni as int);
                                                }
                                            }
                                            assert forall|j: int|
                                                0 <= j < updated@.len() && #[trigger] updated@[j]
                                                    && indeg(self, j) > 0 implies
                                                all_incoming_populated(self, j)
                                                && self.nodes_view()[j].historical_metadata@
                                                == meta_fold(
                                                self,
                                                j,
                                                0,
                                                old(self).nodes_view()[j].historical_metadata@,
                                            ) by {
                                                lemma_incoming_shape(self, &prev4, j, 0);
                                                lemma_meta_fold_shape(
                                                    self,
                                                    &prev4,
                                                    j,
                                                    0,
                                                    old(self).nodes_view()[
                                                        j].historical_metadata@,
                                                );
                                                assert forall|e2: int|
                                                    0 <= e2 < self.edge_count()
                                                        && #[trigger] self.edge_to(e2)
                                                        == j implies word_view(
                                                    self.edge_data(e2).intermediate_word,
                                                ) is Some by {
                                                    if e2 != eo as int {
                                                        assert(self.edges@[e2]
                                                            == prev4.edges@[e2]);
                                                        assert(prev4.edge_to(e2) == j);
                                                    }
                                                }
                                            }
                                            assert(inv_keep_p(old(self), self, updated@));
                                        }
                                    }
                                    changed = true;
                                },
                                Err(e) => {
                                    proof {
                                        lemma_sp_edge_err(*old(self), prev4, *self, eo as int);
                                        assert forall|x: int|
                                            0 <= x < self.edge_count() && word_view(
                                            (
                                            #[trigger] prev4.edge_data(x)).intermediate_word,
                                        ) is Some implies word_view(
                                            self.edge_data(x).intermediate_word,
                                        ) is Some by {
                                            if x != eo as int {
                                                assert(self.edges@[x] == prev4.edges@[x]);
                                            }
                                        }
                                        lemma_anchors_edge_step(old(self), prev4, self);
                                        if hyp_p && hyp_w {
                                            assert forall|e2: int|
                                                0 <= e2 < self.edge_count() && word_view(
                                                (
                                                #[trigger] self.edge_data(
                                                    e2,
                                                )).intermediate_word,
                                            ) is Some && crate::transforms::plain_pipeline(
                                                self.edge_data(e2).transforms@,
                                            ) implies word_view(
                                                self.edge_data(e2).intermediate_word,
                                            ) == crate::transforms::apply_funcs_opt(
                                                word_view(
                                                    self.nodes_view()[self.edge_from(e2)].word,
                                                ),
                                                crate::transforms::funcs_of(
                                                    self.edge_data(e2).transforms@,
                                                ),
                                            ) by {
                                                if e2 != eo as int {
                                                    assert(self.edges@[e2] == prev4.edges@[e2]);
                                                    assert(word_view(
                                                        prev4.edge_data(e2).intermediate_word,
                                                    ) is Some);
                                                } else {
                                                    assert(word_view(
                                                        self.edge_data(e2).intermediate_word,
                                                    ) == word_view(
                                                        prev4.edge_data(e2).intermediate_word,
                                                    ));
                                                    assert(self.edge_from(e2) == prev4.edge_from(
                                                        e2,
                                                    ));
                                                    assert(self.edge_data(e2).transforms
                                                        == prev4.edge_data(e2).transforms);
                                                }
                                            }
                                            assert(inv_inter(self));
                                        }
                                        if tree_script_free(old(self)) {
                                            assert(prev4.edge_data(eo as int).transforms == old(
                                                self,
                                            ).edge_data(eo as int).transforms);
                                            assert(false);
                                        }
                                    }
                                    return Err(e);
                                },
                            }
                        }
                        eo += 1;
                    }
                }
                proof {
                    if !changed {
                        assert forall|j: int|
                            0 <= j < ni as int + 1 implies {
                            &&& qualifies(self, j) ==> #[trigger] updated@[j]
                            &&& leaf_worded(self, j) ==> updated@[j]
                            &&& updated@[j] ==> out_edges_populated(self, j)
                        } by {
                            if j == ni as int {
                                if !updated@[j] {
                                    assert(incoming_of(
                                        self,
                                        ni as int,
                                        self.edges@.len() as int,
                                    ) =~= Seq::<int>::empty());
                                } else {
                                    assert(out_edges_populated(self, ni as int));
                                }
                            }
                        }
                        assert(pass_ok(self, updated@, ni as int + 1));
                    }
                }
                ni += 1;
            }
            if !changed {
                incomplete = false;
            }
        }
        proof {
            if hyp_a {
                assert(nodes_equiv(old(self), self));
            }
            assert forall|ni2: int|
                0 <= ni2 < self.nodes_view().len() && #[trigger] qualifies(self, ni2) implies
                self.nodes_view()[ni2].word is Some by {
                assert(updated@[ni2]);
            }
            assert forall|e: int|
                0 <= e < self.edge_count() && (qualifies(self, #[trigger] self.edge_from(e))
                    || leaf_worded(self, self.edge_from(e))) implies word_view(
                self.edge_data(e).intermediate_word,
            ) is Some by {
                let srcn = self.edge_from(e);
                assert(self.edges@[e].from < self.nodes@.len());
                assert(updated@[srcn]);
                assert(out_edges_populated(self, srcn));
            }
            if hyp_w {
                assert forall|ni2: int|
                    0 <= ni2 < self.nodes_view().len() && #[trigger] qualifies(self, ni2) implies
                    word_view(self.nodes_view()[ni2].word) == Some(agg_word(self, ni2)) by {
                    assert(updated@[ni2]);
                }
            }
            if hyp_p && hyp_w {
                assert(inv_inter(self));
            }
            if hyp_p {
                assert forall|ni: int|
                    0 <= ni < self.nodes_view().len() && #[trigger] qualifies(self, ni) implies
                    self.nodes_view()[ni].historical_metadata@ == meta_fold(
                    self,
                    ni,
                    0,
                    old(self).nodes_view()[ni].historical_metadata@,
                ) by {
                    assert(updated@[ni]);
                }
            }
        }
        Ok(())
    }
}

proof fn lemma_fold_keeps(
    t: &LanguageTree,
    ni: int,
    e: int,
    acc: Seq<(Seq<char>, Seq<char>)>,
    k: Seq<char>,
)
    requires
        crate::metadata::m_get(acc, k) is Some,
    ensures
        crate::metadata::m_get(meta_fold(t, ni, e, acc), k) is Some,
    decreases t.edge_count() - e,
{
    if 0 <= e < t.edge_count() {
        if t.edge_to(e) == ni {
            crate::metadata::lemma_m_extend_keeps(
                acc,
                t.nodes_view()[t.edge_from(e)].historical_metadata@,
                k,
            );
            lemma_fold_keeps(
                t,
                ni,
                e + 1,
                crate::metadata::m_extend(
                    acc,
                    t.nodes_view()[t.edge_from(e)].historical_metadata@,
                ),
                k,
            );
        } else {
            lemma_fold_keeps(t, ni, e + 1, acc, k);
        }
    }
}

proof fn lemma_fold_from_source(
    t: &LanguageTree,
    ni: int,
    e: int,
    acc: Seq<(Seq<char>, Seq<char>)>,
    e0: int,
    k: Seq<char>,
)
    requires
        0 <= e <= e0 < t.edge_count(),
        t.edge_to(e0) == ni,
        crate::metadata::m_get(t.nodes_view()[t.edge_from(e0)].historical_metadata@, k) is Some,
    ensures
        crate::metadata::m_get(meta_fold(t, ni, e, acc), k) is Some,
    decreases t.edge_count() - e,
{
    if e == e0 {
        crate::metadata::lemma_m_extend_adds(
            acc,
            t.nodes_view()[t.edge_from(e)].historical_metadata@,
            k,
        );
        lemma_fold_keeps(
            t,
            ni,
            e + 1,
            crate::metadata::m_extend(acc, t.nodes_view()[t.edge_from(e)].historical_metadata@),
            k,
        );
    } else if t.edge_to(e) == ni {
        lemma_fold_from_source(
            t,
            ni,
            e + 1,
            crate::metadata::m_extend(acc, t.nodes_view()[t.edge_from(e)].historical_metadata@),
            e0,
            k,
        );
    } else {
        lemma_fold_from_source(t, ni, e + 1, acc, e0, k);
    }
}

/// Law (metadata monotone inheritance): when a node's metadata is the
/// merge of some base with its etymons' metadata in edge order, every
/// key carried by any of its direct etymons is present in the node's
/// metadata. Which value the key reads is pinned by the merge itself:
/// a later etymon wins a shared key, and keys no etymon binds keep the
/// base's value.
pub proof fn lemma_metadata_inheritance(
    t: &LanguageTree,
    ni: int,
    e: int,
    base: Seq<(Seq<char>, Seq<char>)>,
    k: Seq<char>,
)
    requires
        0 <= ni < t.nodes_view().len(),
        0 <= e < t.edge_count(),
        t.edge_to(e) == ni,
        t.nodes_view()[ni].historical_metadata@ == meta_fold(t, ni, 0, base),
        crate::metadata::m_get(t.nodes_view()[t.edge_from(e)].historical_metadata@, k) is Some,
    ensures
        crate::metadata::m_get(t.nodes_view()[ni].historical_metadata@, k) is Some,
{
    lemma_fold_from_source(t, ni, 0, base, e, k);
}

/// Some edge runs from `a` to `b`.
pub open spec fn has_ety_edge(t: &LanguageTree, a: int, b: int) -> bool {
    exists|e: int|
        0 <= e < t.edge_count() && (#[trigger] t.edge_from(e)) == a && t.edge_to(e) == b
}

/// A chain of nodes where each one is an etymon of the next.
pub open spec fn ety_path(t: &LanguageTree, p: Seq<int>) -> bool {
    &&& p.len() >= 1
    &&& forall|x: int| 0 <= x < p.len() ==> 0 <= #[trigger] p[x] < t.nodes_view().len()
    &&& forall|x: int| 0 <= x < p.len() - 1 ==> has_ety_edge(t, #[trigger] p[x], p[x + 1])
}

/// Law (metadata monotone inheritance, along a chain): where every node
/// after the first on an etymological path carries the merge of some
/// base with its etymons' metadata, a key held by the first node's
/// metadata is held by the last node's too.
pub proof fn lemma_metadata_descends(
    t: &LanguageTree,
    p: Seq<int>,
    bases: Seq<Seq<(Seq<char>, Seq<char>)>>,
    k: Seq<char>,
)
    requires
        ety_path(t, p),
        bases.len() == p.len(),
        forall|x: int|
            1 <= x < p.len() ==> t.nodes_view()[p[x]].historical_metadata@ == meta_fold(
                t,
                p[x],
                0,
                #[trigger] bases[x],
            ),
        crate::metadata::m_get(t.nodes_view()[p[0]].historical_metadata@, k) is Some,
    ensures
        crate::metadata::m_get(t.nodes_view()[p.last()].historical_metadata@, k) is Some,
    decreases p.len(),
{
    if p.len() == 1 {
    } else {
        assert(has_ety_edge(t, p[0], p[1]));
        let e = choose|e: int|
            0 <= e < t.edge_count() && (#[trigger] t.edge_from(e)) == p[0] && t.edge_to(e) == p[1];
        lemma_metadata_inheritance(t, p[1], e, bases[1], k);
        let q = p.skip(1);
        let qb = bases.skip(1);
        assert(q.len() >= 1);
        assert(forall|x: int| 0 <= x < q.len() ==> #[trigger] q[x] == p[x + 1]);
        assert(forall|x: int| 0 <= x < qb.len() ==> #[trigger] qb[x] == bases[x + 1]);
        assert forall|x: int|
            0 <= x < q.len() - 1 implies has_ety_edge(t, #[trigger] q[x], q[x + 1]) by {
            assert(has_ety_edge(t, p[x + 1], p[x + 2]));
        }
        assert(ety_path(t, q));
        assert forall|x: int|
            1 <= x < q.len() implies t.nodes_view()[q[x]].historical_metadata@ == meta_fold(
            t,
            q[x],
            0,
            #[trigger] qb[x],
        ) by {
            assert(t.nodes_view()[p[x + 1]].historical_metadata@ == meta_fold(
                t,
                p[x + 1],
                0,
                bases[x + 1],
            ));
        }
        lemma_metadata_descends(t, q, qb, k);
        assert(q.last() == p.last());
    }
}

/// The single-pass bookkeeping that makes a settled computation a
/// no-op: the tree still agrees with the original and every resolved
/// node was resolvable there.
spec fn inv_keep_a(o: &LanguageTree, c: &LanguageTree, upd: Seq<bool>) -> bool {
    &&& nodes_equiv(o, c)
    &&& c.edges_same(o)
    &&& forall|j: int|
        0 <= j < upd.len() && #[trigger] upd[j] ==> qualifies(o, j) || leaf_worded(o, j)
}

/// The bookkeeping of a run on a freshly assembled tree: an edge is
/// populated only once its source is resolved, an unresolved node still
/// carries its original metadata, and a resolved node's metadata is
/// exactly the merge of its own original metadata with its etymons'.
spec fn inv_keep_p(o: &LanguageTree, c: &LanguageTree, upd: Seq<bool>) -> bool {
    &&& upd.len() == c.nodes_view().len()
    &&& forall|e: int|
        0 <= e < c.edge_count() && word_view(
            (#[trigger] c.edge_data(e)).intermediate_word,
        ) is Some ==> 0 <= c.edge_from(e) < upd.len() && upd[c.edge_from(e)]
    &&& forall|j: int|
        0 <= j < upd.len() && !(#[trigger] upd[j]) ==> c.nodes_view()[j].historical_metadata@
            == o.nodes_view()[j].historical_metadata@
    &&& forall|j: int|
        0 <= j < upd.len() && #[trigger] upd[j] && indeg(c, j) > 0 ==> all_incoming_populated(c, j)
            && c.nodes_view()[j].historical_metadata@ == meta_fold(
            c,
            j,
            0,
            o.nodes_view()[j].historical_metadata@,
        )
}

/// Every node below `k` that could be resolved has been, and every
/// resolved node's outgoing edges are populated.
spec fn pass_ok(c: &LanguageTree, upd: Seq<bool>, k: int) -> bool {
    forall|j: int|
        0 <= j < k ==> {
            &&& qualifies(c, j) ==> #[trigger] upd[j]
            &&& leaf_worded(c, j) ==> upd[j]
            &&& upd[j] ==> out_edges_populated(c, j)
        }
}

/// A step that rewrites one node beyond the handled prefix, leaving the
/// edges alone, keeps the prefix handled.
proof fn lemma_pass_ok_step(prev: LanguageTree, c: &LanguageTree, upd: Seq<bool>, k: int)
    requires
        pass_ok(&prev, upd, k),
        c.edges_same(&prev),
        c.nodes_view().len() == prev.nodes_view().len(),
        forall|j: int| 0 <= j < k ==> c.nodes_view()[j] == #[trigger] prev.nodes_view()[j],
    ensures
        pass_ok(c, upd, k),
{
    assert forall|j: int|
        0 <= j < k implies {
        &&& qualifies(c, j) ==> #[trigger] upd[j]
        &&& leaf_worded(c, j) ==> upd[j]
        &&& upd[j] ==> out_edges_populated(c, j)
    } by {
        lemma_tree_shift(c, &prev, j);
        if upd[j] {
            assert(out_edges_populated(&prev, j));
            assert forall|e: int|
                0 <= e < c.edge_count() && #[trigger] c.edge_from(e) == j implies word_view(
                c.edge_data(e).intermediate_word,
            ) is Some by {
                assert(c.edges@[e] == prev.edges@[e]);
                assert(prev.edge_from(e) == j);
            }
        }
    }
}

/// Filling an intermediate form elsewhere changes nothing of the edges
/// into `ni`.
proof fn lemma_upstream_stable(a: &LanguageTree, b: &LanguageTree, ni: int, e: int, eo: int)
    requires
        a.edge_count() == b.edge_count(),
        0 <= eo < b.edge_count(),
        forall|x: int| 0 <= x < a.edge_count() && x != eo ==> a.edges@[x] == #[trigger] b.edges@[x],
        a.edge_to(eo) == b.edge_to(eo),
        a.edge_to(eo) != ni,
    ensures
        upstream_pairs(a, ni, e) == upstream_pairs(b, ni, e),
        incoming_of(a, ni, e) == incoming_of(b, ni, e),
    decreases a.edge_count() - e,
{
    if 0 <= e < a.edge_count() {
        lemma_upstream_stable(a, b, ni, e + 1, eo);
    }
}

/// Every resolved node with incoming edges already carries the
/// agglutination of its (all populated) intermediates.
spec fn inv_words(c: &LanguageTree, upd: Seq<bool>) -> bool {
    forall|j: int|
        0 <= j < upd.len() && #[trigger] upd[j] && indeg(c, j) > 0 ==> all_incoming_populated(c, j)
            && word_view(c.nodes_view()[j].word) == Some(agg_word(c, j))
}

/// Every populated edge whose transforms are guard-free and script-free
/// carries exactly the pipeline applied to its source's word.
spec fn inv_inter(c: &LanguageTree) -> bool {
    forall|e: int|
        0 <= e < c.edge_count() && word_view(
            (#[trigger] c.edge_data(e)).intermediate_word,
        ) is Some && crate::transforms::plain_pipeline(c.edge_data(e).transforms@) ==> word_view(
            c.edge_data(e).intermediate_word,
        ) == crate::transforms::apply_funcs_opt(
            word_view(c.nodes_view()[c.edge_from(e)].word),
            crate::transforms::funcs_of(c.edge_data(e).transforms@),
        )
}

/// A step that rewrites one node and nothing else keeps the anchors,
/// provided the rewritten node itself keeps them.
proof fn lemma_anchors_node_step(o: &LanguageTree, b: LanguageTree, c: &LanguageTree, x: int)
    requires
        anchors_kept(o, &b),
        c.edges_same(&b),
        c.nodes_view().len() == b.nodes_view().len(),
        o.nodes_view().len() == b.nodes_view().len(),
        forall|j: int|
            0 <= j < b.nodes_view().len() && j != x ==> c.nodes_view()[j]
                == #[trigger] b.nodes_view()[j],
        0 <= x < b.nodes_view().len() ==> {
            &&& indeg(c, x) == 0 ==> ((word_view(o.nodes_view()[x].word) is Some ==> word_view(
                c.nodes_view()[x].word,
            ) == word_view(o.nodes_view()[x].word)) && c.nodes_view()[x].historical_metadata@
                == o.nodes_view()[x].historical_metadata@)
            &&& (word_view(o.nodes_view()[x].word) is None && !qualifies(c, x) && gen_dead(o, x))
                ==> word_view(c.nodes_view()[x].word) is None
        },
    ensures
        anchors_kept(o, c),
{
    assert forall|j: int|
        0 <= j < o.nodes_view().len() implies {
        &&& indeg(c, j) == 0 ==> ((word_view(o.nodes_view()[j].word) is Some ==> word_view(
            (#[trigger] c.nodes_view()[j]).word,
        ) == word_view(o.nodes_view()[j].word)) && c.nodes_view()[j].historical_metadata@
            == o.nodes_view()[j].historical_metadata@)
        &&& (word_view(o.nodes_view()[j].word) is None && !qualifies(c, j) && gen_dead(o, j))
            ==> word_view(c.nodes_view()[j].word) is None
    } by {
        lemma_tree_shift(c, &b, j);
        if j != x {
            assert(c.nodes_view()[j] == b.nodes_view()[j]);
        }
    }
}

/// A step that only fills intermediate forms keeps the anchors: degrees
/// are untouched and resolvability only grows.
proof fn lemma_anchors_edge_step(o: &LanguageTree, b: LanguageTree, c: &LanguageTree)
    requires
        anchors_kept(o, &b),
        o.nodes_view().len() == b.nodes_view().len(),
        c.nodes_view() == b.nodes_view(),
        c.edge_count() == b.edge_count(),
        forall|x: int|
            0 <= x < c.edge_count() ==> #[trigger] c.edge_to(x) == b.edge_to(x) && c.edge_from(x)
                == b.edge_from(x),
        forall|x: int|
            0 <= x < c.edge_count() && word_view(
                (#[trigger] b.edge_data(x)).intermediate_word,
            ) is Some ==> word_view(c.edge_data(x).intermediate_word) is Some,
    ensures
        anchors_kept(o, c),
{
    assert forall|j: int|
        0 <= j < o.nodes_view().len() implies {
        &&& indeg(c, j) == 0 ==> ((word_view(o.nodes_view()[j].word) is Some ==> word_view(
            (#[trigger] c.nodes_view()[j]).word,
        ) == word_view(o.nodes_view()[j].word)) && c.nodes_view()[j].historical_metadata@
            == o.nodes_view()[j].historical_metadata@)
        &&& (word_view(o.nodes_view()[j].word) is None && !qualifies(c, j) && gen_dead(o, j))
            ==> word_view(c.nodes_view()[j].word) is None
    } by {
        lemma_incoming_shape(c, &b, j, 0);
        assert(c.nodes_view()[j] == b.nodes_view()[j]);
        if qualifies(&b, j) {
            assert forall|e2: int|
                0 <= e2 < c.edge_count() && #[trigger] c.edge_to(e2) == j implies word_view(
                c.edge_data(e2).intermediate_word,
            ) is Some by {
                assert(b.edge_to(e2) == j);
                assert(word_view(b.edge_data(e2).intermediate_word) is Some);
            }
            assert(qualifies(c, j));
        }
    }
}

/// A step that leaves the edges and every node's metadata as they were
/// keeps the pristine-run bookkeeping.
proof fn lemma_keep_p_meta_same(o: &LanguageTree, b: LanguageTree, c: &LanguageTree, upd: Seq<bool>)
    requires
        c.wf(),
        inv_keep_p(o, &b, upd),
        c.edges_same(&b),
        c.nodes_view().len() == b.nodes_view().len(),
        forall|i: int|
            0 <= i < c.nodes_view().len() ==> (#[trigger] c.nodes_view()[i]).historical_metadata@
                == b.nodes_view()[i].historical_metadata@,
    ensures
        inv_keep_p(o, c, upd),
{
    assert forall|x: int|
        0 <= x < c.edge_count() implies 0 <= #[trigger] c.edge_from(x)
        < c.nodes_view().len() by {
        assert(c.edges@[x].from < c.nodes@.len());
    }
    assert forall|e: int|
        0 <= e < c.edge_count() && word_view(
        (#[trigger] c.edge_data(e)).intermediate_word,
    ) is Some implies 0 <= c.edge_from(e) < upd.len() && upd[c.edge_from(e)] by {
        assert(c.edges@[e] == b.edges@[e]);
        assert(word_view((b.edge_data(e)).intermediate_word) is Some);
    }
    assert forall|j: int|
        0 <= j < upd.len() && #[trigger] upd[j] && indeg(c, j) > 0 implies all_incoming_populated(
        c,
        j,
    ) && c.nodes_view()[j].historical_metadata@ == meta_fold(
        c,
        j,
        0,
        o.nodes_view()[j].historical_metadata@,
    ) by {
        lemma_tree_shift(c, &b, j);
        lemma_meta_fold_views(c, &b, j, 0, o.nodes_view()[j].historical_metadata@);
    }
}

/// The nodes that carry a word, in node order.
pub open spec fn with_words(nodes: Seq<Lexis>) -> Seq<Lexis>
    decreases nodes.len(),
{
    if nodes.len() == 0 {
        Seq::empty()
    } else {
        (if nodes[0].word is Some {
            seq![nodes[0]]
        } else {
            Seq::empty()
        }) + with_words(nodes.skip(1))
    }
}

/// The sort key of a lexis: the delimited form of its word.
pub open spec fn word_key(l: Lexis) -> Seq<char> {
    match l.word {
        Some(w) => crate::lemma::delim(w@),
        None => Seq::empty(),
    }
}

/// Insertion of a lexis into a key-sorted list: it lands after every
/// entry whose key is at most its own.
pub open spec fn insert_lex(acc: Seq<Lexis>, x: Lexis) -> Seq<Lexis>
    decreases acc.len(),
{
    if acc.len() == 0 {
        seq![x]
    } else if !crate::text::lex_le(word_key(acc[0]), word_key(x)) {
        seq![x] + acc
    } else {
        seq![acc[0]] + insert_lex(acc.skip(1), x)
    }
}

/// The stable sort of lexis entries by their word.
pub open spec fn sort_lexes(s: Seq<Lexis>) -> Seq<Lexis>
    decreases s.len(),
{
    if s.len() == 0 {
        Seq::empty()
    } else {
        insert_lex(sort_lexes(s.drop_last()), s.last())
    }
}

/// Entries equal in every field have equal sort keys.
proof fn lemma_full_eq_key(a: &Lexis, b: &Lexis)
    requires
        lexis_full_eq(a, b),
    ensures
        word_key(*a) == word_key(*b),
{
}

proof fn lemma_insert_congruent(a: Seq<Lexis>, b: Seq<Lexis>, xa: Lexis, xb: Lexis)
    requires
        a.len() == b.len(),
        forall|i: int| 0 <= i < a.len() ==> lexis_full_eq(&(#[trigger] a[i]), &b[i]),
        lexis_full_eq(&xa, &xb),
    ensures
        insert_lex(a, xa).len() == insert_lex(b, xb).len(),
        forall|i: int|
            0 <= i < insert_lex(a, xa).len() ==> lexis_full_eq(
                &(#[trigger] insert_lex(a, xa)[i]),
                &insert_lex(b, xb)[i],
            ),
    decreases a.len(),
{
    lemma_full_eq_key(&xa, &xb);
    if a.len() == 0 {
    } else {
        lemma_full_eq_key(&a[0], &b[0]);
        if !crate::text::lex_le(word_key(a[0]), word_key(xa)) {
        } else {
            assert(forall|i: int|
                0 <= i < a.skip(1).len() ==> lexis_full_eq(
                    &(#[trigger] a.skip(1)[i]),
                    &b.skip(1)[i],
                ));
            lemma_insert_congruent(a.skip(1), b.skip(1), xa, xb);
            assert(insert_lex(a, xa) == seq![a[0]] + insert_lex(a.skip(1), xa));
            assert(insert_lex(b, xb) == seq![b[0]] + insert_lex(b.skip(1), xb));
        }
    }
}

proof fn lemma_sort_congruent(a: Seq<Lexis>, b: Seq<Lexis>)
    requires
        a.len() == b.len(),
        forall|i: int| 0 <= i < a.len() ==> lexis_full_eq(&(#[trigger] a[i]), &b[i]),
    ensures
        sort_lexes(a).len() == sort_lexes(b).len(),
        forall|i: int|
            0 <= i < sort_lexes(a).len() ==> lexis_full_eq(
                &(#[trigger] sort_lexes(a)[i]),
                &sort_lexes(b)[i],
            ),
    decreases a.len(),
{
    if a.len() > 0 {
        assert(forall|i: int|
            0 <= i < a.drop_last().len() ==> lexis_full_eq(
                &(#[trigger] a.drop_last()[i]),
                &b.drop_last()[i],
            ));
        lemma_sort_congruent(a.drop_last(), b.drop_last());
        lemma_insert_congruent(sort_lexes(a.drop_last()), sort_lexes(b.drop_last()), a.last(), b.last());
    }
}

/// The delimited sort key of a lexis, as a string.
fn word_key_exec(l: &Lexis) -> (r: String)
    ensures
        r@ == word_key(*l),
{
    match &l.word {
        Some(w) => w.delimited_string(),
        None => String::new(),
    }
}

impl LanguageTree {
    /// Reduces the tree to the entries that carry a word, as copies,
    /// stable-sorted by the word's delimited form.
    pub fn to_vec(&self) -> (r: Vec<Lexis>)
        ensures
            r@.len() == sort_lexes(with_words(self.nodes_view())).len(),
            forall|i: int|
                0 <= i < r@.len() ==> lexis_full_eq(
                    &(#[trigger] r@[i]),
                    &sort_lexes(with_words(self.nodes_view()))[i],
                ),
    {
        let ghost s = self.nodes@;
        let mut dict: Vec<Lexis> = Vec::new();
        let mut i: usize = 0;
        proof {
            assert(s.skip(0) =~= s);
            assert(with_words(s) =~= Seq::<Lexis>::empty() + with_words(s));
        }
        while i < self.nodes.len()
            invariant
                s == self.nodes@,
                s.len() == self.nodes.len(),
                0 <= i <= s.len(),
                dict@.len() + with_words(s.skip(i as int)).len() == with_words(s).len(),
                forall|k: int|
                    0 <= k < dict@.len() ==> lexis_full_eq(
                        &(#[trigger] dict@[k]),
                        &with_words(s)[k],
                    ),
            decreases s.len() - i,
        {
            proof {
                assert(s.skip(i as int)[0] == s[i as int]);
                assert(s.skip(i as int).skip(1) =~= s.skip(i as int + 1));
            }
            let ghost prevd = dict@;
            match &self.nodes[i].word {
                Some(_) => {
                    dict.push(self.nodes[i].clone());
                    proof {
                        assert(with_words(s.skip(i as int)) == seq![s[i as int]] + with_words(
                            s.skip(i as int + 1),
                        ));
                        lemma_with_words_prefix(s, i as int);
                        assert(with_words(s)[prevd.len() as int] == s[i as int]);
                    }
                },
                None => {
                    proof {
                        assert(with_words(s.skip(i as int)) == with_words(s.skip(i as int + 1)));
                    }
                },
            }
            i += 1;
        }
        proof {
            assert(with_words(s.skip(i as int)) =~= Seq::<Lexis>::empty());
        }
        // stable insertion sort by the word's delimited form
        let ghost base = dict@;
        let total = dict.len();
        let mut rest = dict;
        let mut acc: Vec<Lexis> = Vec::new();
        let mut k: usize = 0;
        while rest.len() > 0
            invariant
                base.len() == total,
                0 <= k <= base.len(),
                rest@ == base.skip(k as int),
                rest@.len() == base.len() - k,
                acc@ == sort_lexes(base.take(k as int)),
            decreases rest.len(),
        {
            let ghost pre = rest@;
            let x = rest.remove(0);
            proof {
                assert(x == base[k as int]);
                assert(pre.remove(0) =~= base.skip(k as int + 1));
            }
            let keyx = word_key_exec(&x);
            let mut pos: usize = 0;
            let mut found = false;
            while pos < acc.len() && !found
                invariant
                    keyx@ == word_key(x),
                    0 <= pos <= acc.len(),
                    forall|j: int|
                        0 <= j < pos ==> crate::text::lex_le(
                            word_key(#[trigger] acc@[j]),
                            word_key(x),
                        ),
                    found ==> pos < acc.len() && !crate::text::lex_le(
                        word_key(acc@[pos as int]),
                        word_key(x),
                    ),
                decreases acc.len() - pos + (if found {
                    0int
                } else {
                    1int
                }),
            {
                let keya = word_key_exec(&acc[pos]);
                if !crate::text::str_le(keya.as_str(), keyx.as_str()) {
                    found = true;
                } else {
                    pos += 1;
                }
            }
            let ghost acc0 = acc@;
            proof {
                lemma_insert_lex_at(acc0, x, pos as int);
            }
            acc.insert(pos, x);
            proof {
                assert(acc@ =~= acc0.take(pos as int) + seq![x] + acc0.skip(pos as int));
                assert(acc@ == insert_lex(acc0, x));
                assert(base.take(k as int + 1).drop_last() =~= base.take(k as int));
                assert(base.take(k as int + 1).last() == base[k as int]);
            }
            k += 1;
        }
        proof {
            assert(base.take(k as int) =~= base);
            lemma_sort_congruent(base, with_words(s));
        }
        acc
    }
}

proof fn lemma_with_words_prefix(s: Seq<Lexis>, i: int)
    requires
        0 <= i < s.len(),
        s[i].word is Some,
    ensures
        with_words(s.take(i)).len() < with_words(s).len() ==> true,
        with_words(s) == with_words(s.take(i)) + with_words(s.skip(i)),
    decreases i,
{
    if i == 0 {
        assert(s.take(0) =~= Seq::<Lexis>::empty());
        assert(s.skip(0) =~= s);
        assert(with_words(s) =~= with_words(s.take(0)) + with_words(s.skip(0)));
    } else {
        lemma_with_words_split(s, i);
    }
}

proof fn lemma_with_words_split(s: Seq<Lexis>, i: int)
    requires
        0 <= i <= s.len(),
    ensures
        with_words(s) == with_words(s.take(i)) + with_words(s.skip(i)),
    decreases i,
{
    if i == 0 {
        assert(s.take(0) =~= Seq::<Lexis>::empty());
        assert(s.skip(0) =~= s);
        assert(with_words(s) =~= with_words(s.take(0)) + with_words(s.skip(0)));
    } else {
        lemma_with_words_split(s.skip(1), i - 1);
        assert(s.skip(1).take(i - 1) =~= s.take(i).skip(1));
        assert(s.skip(1).skip(i - 1) =~= s.skip(i));
        assert(s.take(i)[0] == s[0]);
        assert(s.take(i).skip(1) =~= s.skip(1).take(i - 1));
        if s[0].word is Some {
            assert(with_words(s) == seq![s[0]] + with_words(s.skip(1)));
            assert(with_words(s.take(i)) == seq![s[0]] + with_words(s.take(i).skip(1)));
            assert(with_words(s) =~= with_words(s.take(i)) + with_words(s.skip(i)));
        } else {
            assert(with_words(s) == with_words(s.skip(1)));
            assert(with_words(s.take(i)) == with_words(s.take(i).skip(1)));
            assert(with_words(s) =~= with_words(s.take(i)) + with_words(s.skip(i)));
        }
    }
}

proof fn lemma_insert_lex_at(s: Seq<Lexis>, x: Lexis, pos: int)
    requires
        0 <= pos <= s.len(),
        forall|j: int|
            0 <= j < pos ==> crate::text::lex_le(word_key(#[trigger] s[j]), word_key(x)),
        pos < s.len() ==> !crate::text::lex_le(word_key(s[pos]), word_key(x)),
    ensures
        insert_lex(s, x) == s.take(pos) + seq![x] + s.skip(pos),
    decreases pos,
{
    if pos == 0 {
        if s.len() == 0 {
            assert(insert_lex(s, x) =~= s.take(0) + seq![x] + s.skip(0));
        } else {
            assert(insert_lex(s, x) =~= s.take(0) + seq![x] + s.skip(0));
        }
    } else {
        assert(crate::text::lex_le(word_key(s[0]), word_key(x)));
        lemma_insert_lex_at(s.skip(1), x, pos - 1);
        assert(forall|j: int| 0 <= j < pos - 1 ==> (#[trigger] s.skip(1)[j]) == s[j + 1]);
        assert(insert_lex(s, x) == seq![s[0]] + insert_lex(s.skip(1), x));
        assert(seq![s[0]] + (s.skip(1).take(pos - 1) + seq![x] + s.skip(1).skip(pos - 1)) =~= s.take(
            pos,
        ) + seq![x] + s.skip(pos));
    }
}

/// The index of the first edge from `from` to `to` at or after `e`,
/// or -1.
pub open spec fn first_conn(t: &LanguageTree, from: int, to: int, e: int) -> int
    decreases t.edge_count() - e,
{
    if e < 0 || e >= t.edge_count() {
        -1
    } else if t.edge_from(e) == from && t.edge_to(e) == to {
        e
    } else {
        first_conn(t, from, to, e + 1)
    }
}

/// The indices of the edges into `ni` at or after `e`, in order.
pub open spec fn incoming_of(t: &LanguageTree, ni: int, e: int) -> Seq<int>
    decreases t.edge_count() - e,
{
    if e < 0 || e >= t.edge_count() {
        Seq::empty()
    } else {
        (if t.edge_to(e) == ni {
            seq![e]
        } else {
            Seq::empty()
        }) + incoming_of(t, ni, e + 1)
    }
}

/// Does the etymology record describe the incoming edges of node `ni`?
/// One entry for each incoming edge, in edge order, naming the etymon's
/// id and carrying the transform names and agglutination order of the
/// first edge connecting that etymon to the node.
pub open spec fn etym_record_ok(t: &LanguageTree, ni: int, ety: &Etymology) -> bool {
    let inc = incoming_of(t, ni, 0);
    &&& ety.etymons@.len() == inc.len()
    &&& forall|x: int|
        0 <= x < inc.len() ==> {
            let e = inc[x];
            let f = first_conn(t, t.edge_from(e), ni, 0);
            let rec = #[trigger] ety.etymons@[x];
            &&& 0 <= f < t.edge_count()
            &&& rec.etymon@ == t.nodes_view()[t.edge_from(e)].id@
            &&& rec.agglutination_order == t.edge_data(f).agglutination_order
            &&& rec.transforms matches Some(v) && v.deep_view().len() == t.edge_data(
                f,
            ).transforms@.len() && forall|y: int|
                0 <= y < v.deep_view().len() ==> v.deep_view()[y] == (#[trigger] t.edge_data(
                    f,
                ).transforms@[y]).name@
        }
}

/// The whole story of one view extraction: `idx` lists, in ascending
/// node order, exactly the worded nodes the filter accepted; the k-th
/// returned pair copies the `idx[k]`-th node with its etymology record;
/// and every worded node left out was rejected by the filter.
pub open spec fn etymons_view_ok<F: Fn(&Lexis) -> bool>(
    t: &LanguageTree,
    r: Seq<(Lexis, Etymology)>,
    filter: F,
    idx: Seq<int>,
) -> bool {
    &&& idx.len() == r.len()
    &&& forall|k: int| 0 <= k < idx.len() ==> 0 <= #[trigger] idx[k] < t.nodes_view().len()
    &&& forall|k: int| 0 <= k && k + 1 < idx.len() ==> #[trigger] idx[k] < idx[k + 1]
    &&& forall|k: int|
        0 <= k < idx.len() ==> {
            &&& lexis_full_eq(&(#[trigger] r[k]).0, &t.nodes_view()[idx[k]])
            &&& t.nodes_view()[idx[k]].word is Some
            &&& etym_record_ok(t, idx[k], &r[k].1)
            &&& filter.ensures((&t.nodes_view()[idx[k]],), true)
        }
    &&& forall|i: int|
        0 <= i < t.nodes_view().len() && (#[trigger] t.nodes_view()[i]).word is Some
            && !idx.contains(i) ==> filter.ensures((&t.nodes_view()[i],), false)
}

/// How many visits produced a new lexis.
pub open spec fn num_some(outs: Seq<(Option<Lexis>, Option<TreeEtymology>)>) -> int
    decreases outs.len(),
{
    if outs.len() == 0 {
        0int
    } else {
        num_some(outs.drop_last()) + (if outs.last().0 is Some {
            1int
        } else {
            0int
        })
    }
}

/// The visited index whose outcome became the k-th added node.
pub open spec fn some_index(outs: Seq<(Option<Lexis>, Option<TreeEtymology>)>, k: int) -> int
    decreases outs.len(),
{
    if outs.len() == 0 {
        -1
    } else if outs.last().0 is Some && k == num_some(outs.drop_last()) {
        outs.len() - 1
    } else {
        some_index(outs.drop_last(), k)
    }
}

/// The whole story of one walk: the closure was handed a copy of
/// each start node in order; the k-th outcome that carried a lexis
/// added exactly that lexis, with an edge from its source carrying
/// the returned data, or empty default data where none was returned.
pub open spec fn walk_calls<F: Fn(Lexis) -> (Option<Lexis>, Option<TreeEtymology>)>(
    o: &LanguageTree,
    c: &LanguageTree,
    f: F,
    args: Seq<Lexis>,
    outs: Seq<(Option<Lexis>, Option<TreeEtymology>)>,
) -> bool {
    &&& args.len() == o.nodes_view().len()
    &&& outs.len() == args.len()
    &&& forall|i: int|
        0 <= i < args.len() ==> lexis_full_eq(&(#[trigger] args[i]), &o.nodes_view()[i])
            && f.ensures((args[i],), outs[i])
    &&& c.nodes_view().len() == o.nodes_view().len() + num_some(outs)
    &&& c.edge_count() == o.edge_count() + num_some(outs)
    &&& forall|k: int|
        0 <= k < num_some(outs) ==> {
            let s = #[trigger] some_index(outs, k);
            &&& 0 <= s < outs.len()
            &&& outs[s].0 == Some(c.nodes_view()[o.nodes_view().len() + k])
            &&& c.edge_from(o.edge_count() + k) == s
            &&& c.edge_to(o.edge_count() + k) == o.nodes_view().len() + k
            &&& match outs[s].1 {
                Some(t) => c.edge_data(o.edge_count() + k) == t,
                None => c.edge_data(o.edge_count() + k).transforms@.len() == 0 && word_view(
                    c.edge_data(o.edge_count() + k).intermediate_word,
                ) is None && c.edge_data(o.edge_count() + k).agglutination_order is None,
            }
        }
}


/// How many sources the selector accepted.
pub open spec fn num_sel(fm: Seq<(bool, Lexis, Lexis)>) -> int
    decreases fm.len(),
{
    if fm.len() == 0 {
        0int
    } else {
        num_sel(fm.drop_last()) + (if fm.last().0 {
            1int
        } else {
            0int
        })
    }
}

/// How many flags of the sequence are set.
pub open spec fn num_true(s: Seq<bool>) -> int
    decreases s.len(),
{
    if s.len() == 0 {
        0int
    } else {
        num_true(s.drop_last()) + (if s.last() {
            1int
        } else {
            0int
        })
    }
}

/// The position of the k-th set flag.
pub open spec fn true_at(s: Seq<bool>, k: int) -> int
    decreases s.len(),
{
    if s.len() == 0 {
        -1
    } else if s.last() && k == num_true(s.drop_last()) {
        s.len() - 1
    } else {
        true_at(s.drop_last(), k)
    }
}

/// Every set flag that `true_at` points to lies inside the sequence.
proof fn lemma_true_at_bounds(s: Seq<bool>)
    ensures
        forall|k: int| 0 <= k < num_true(s) ==> 0 <= #[trigger] true_at(s, k) < s.len(),
    decreases s.len(),
{
    if s.len() > 0 {
        lemma_true_at_bounds(s.drop_last());
        assert forall|k: int| 0 <= k < num_true(s) implies 0 <= #[trigger] true_at(s, k)
            < s.len() by {
            if !(s.last() && k == num_true(s.drop_last())) {
                assert(k < num_true(s.drop_last()));
                assert(true_at(s, k) == true_at(s.drop_last(), k));
            }
        }
    }
}

/// The source index whose derivation became the k-th added node.
pub open spec fn sel_index(fm: Seq<(bool, Lexis, Lexis)>, k: int) -> int
    decreases fm.len(),
{
    if fm.len() == 0 {
        -1
    } else if fm.last().0 && k == num_sel(fm.drop_last()) {
        fm.len() - 1
    } else {
        sel_index(fm.drop_last(), k)
    }
}

/// A daughter word before postprocessing: it agrees with its source on
/// every field but the word, and carries the daughter language's name.
pub open spec fn daughter_mid(source: &Lexis, mid: &Lexis, name: Seq<char>) -> bool {
    &&& mid.id@ == source.id@
    &&& mid.language@ == name
    &&& mid.pos == source.pos
    &&& mid.lexis_type@ == source.lexis_type@
    &&& mid.definition@ == source.definition@
    &&& mid.archaic == source.archaic
    &&& mid.tags.deep_view() == source.tags.deep_view()
    &&& mid.historical_metadata@ == source.historical_metadata@
    &&& opt_str_view(mid.word_create) == opt_str_view(source.word_create)
}

/// The whole story of one daughter-language synthesis: the selector saw
/// each start node in order; for each accepted one, a word renamed to
/// the daughter language was handed to the postprocessor, whose result
/// was added with an edge from the source.
pub open spec fn daughter_calls<F: Fn(&Lexis) -> bool, P: Fn(&Lexis) -> Lexis>(
    o: &LanguageTree,
    c: &LanguageTree,
    select: F,
    post: P,
    name: Seq<char>,
    trans: Seq<Transform>,
    fm: Seq<(bool, Lexis, Lexis)>,
    chains: Seq<Seq<Lexis>>,
    aps: Seq<Seq<bool>>,
) -> bool {
    &&& fm.len() == o.nodes_view().len()
    &&& chains.len() == fm.len()
    &&& aps.len() == fm.len()
    &&& forall|i: int|
        0 <= i < fm.len() ==> select.ensures((&o.nodes_view()[i],), (#[trigger] fm[i]).0)
    &&& c.nodes_view().len() == o.nodes_view().len() + num_sel(fm)
    &&& c.edge_count() == o.edge_count() + num_sel(fm)
    &&& forall|k: int|
        0 <= k < num_sel(fm) ==> {
            let s = #[trigger] sel_index(fm, k);
            &&& 0 <= s < fm.len()
            &&& fm[s].0
            &&& chains[s].len() == trans.len() + 1
            &&& aps[s].len() == trans.len()
            &&& lexis_full_eq(&chains[s][0], &o.nodes_view()[s])
            &&& forall|t: int|
                0 <= t < trans.len() ==> crate::transforms::transform_option_rel(
                    &(#[trigger] chains[s][t]),
                    &chains[s][t + 1],
                    &trans[t],
                    aps[s][t],
                )
            &&& daughter_mid(&o.nodes_view()[s], &fm[s].1, name)
            &&& word_view(fm[s].1.word) == word_view(chains[s][trans.len() as int].word)
            &&& post.ensures((&fm[s].1,), fm[s].2)
            &&& c.nodes_view()[o.nodes_view().len() + k] == fm[s].2
            &&& c.edge_from(o.edge_count() + k) == s
            &&& c.edge_to(o.edge_count() + k) == o.nodes_view().len() + k
            &&& c.edge_data(o.edge_count() + k).transforms@.len() == num_true(aps[s])
            &&& forall|x: int|
                0 <= x < num_true(aps[s]) ==> 0 <= true_at(aps[s], x) < trans.len()
                    && crate::transforms::transform_equiv(
                    &(#[trigger] c.edge_data(o.edge_count() + k).transforms@[x]),
                    &trans[true_at(aps[s], x)],
                )
        }
}

impl LanguageTree {
    /// The first edge between the given endpoints, where one exists.
    fn first_conn_exec(&self, from: usize, to: usize) -> (r: Option<usize>)
        ensures
            match r {
                Some(e) => first_conn(self, from as int, to as int, 0) == e as int && (e as int)
                    < self.edge_count(),
                None => first_conn(self, from as int, to as int, 0) < 0,
            },
    {
        proof {
            lemma_first_conn_props(self, from as int, to as int);
        }
        let mut e: usize = 0;
        while e < self.edges.len()
            invariant
                0 <= e <= self.edge_count(),
                forall|x: int|
                    0 <= x < e ==> !(#[trigger] self.edge_from(x) == from as int && self.edge_to(x)
                        == to as int),
                first_conn(self, from as int, to as int, 0) >= 0 ==> {
                    &&& first_conn(self, from as int, to as int, 0) < self.edge_count()
                    &&& self.edge_from(first_conn(self, from as int, to as int, 0)) == from as int
                    &&& self.edge_to(first_conn(self, from as int, to as int, 0)) == to as int
                    &&& forall|x: int|
                        0 <= x < first_conn(self, from as int, to as int, 0) ==> !(
                        #[trigger] self.edge_from(x) == from as int && self.edge_to(x)
                            == to as int)
                },
                first_conn(self, from as int, to as int, 0) < 0 ==> forall|x: int|
                    0 <= x < self.edge_count() ==> !(#[trigger] self.edge_from(x) == from as int
                        && self.edge_to(x) == to as int),
            decreases self.edge_count() - e,
        {
            if self.edges[e].from == from && self.edges[e].to == to {
                proof {
                    let k = first_conn(self, from as int, to as int, 0);
                    if k < 0 {
                        assert(!(self.edge_from(e as int) == from as int && self.edge_to(e as int)
                            == to as int));
                    } else if k < e as int {
                        assert(!(self.edge_from(k) == from as int && self.edge_to(k) == to as int));
                    } else if k > e as int {
                        assert(!(self.edge_from(e as int) == from as int && self.edge_to(e as int)
                            == to as int));
                    }
                }
                return Some(e);
            }
            e += 1;
        }
        None
    }

    /// Reduces the tree to the worded entries the filter accepts, each
    /// paired with its etymology: the ids of its direct etymons and, for
    /// each, the transform names and agglutination order of the first
    /// edge from that etymon.
    pub fn to_vec_etymons<F: Fn(&Lexis) -> bool>(&self, filter: F) -> (r: Vec<(Lexis, Etymology)>)
        requires
            self.wf(),
            forall|l: &Lexis| #[trigger] filter.requires((l,)),
        ensures
            exists|idx: Seq<int>| etymons_view_ok(self, r@, filter, idx),
    {
        let mut out: Vec<(Lexis, Etymology)> = Vec::new();
        let ghost mut idx: Seq<int> = Seq::empty();
        let mut i: usize = 0;
        while i < self.nodes.len()
            invariant
                self.wf(),
                forall|l: &Lexis| #[trigger] filter.requires((l,)),
                0 <= i <= self.nodes_view().len(),
                self.nodes_view().len() == self.nodes.len(),
                idx.len() == out@.len(),
                forall|k: int| 0 <= k < idx.len() ==> 0 <= #[trigger] idx[k] < i,
                forall|k: int| 0 <= k && k + 1 < idx.len() ==> #[trigger] idx[k] < idx[k + 1],
                forall|k: int|
                    0 <= k < idx.len() ==> {
                        &&& lexis_full_eq(&(#[trigger] out@[k]).0, &self.nodes_view()[idx[k]])
                        &&& self.nodes_view()[idx[k]].word is Some
                        &&& etym_record_ok(self, idx[k], &out@[k].1)
                        &&& filter.ensures((&self.nodes_view()[idx[k]],), true)
                    },
                forall|i2: int|
                    0 <= i2 < i && (#[trigger] self.nodes_view()[i2]).word is Some && !idx.contains(
                        i2,
                    ) ==> filter.ensures((&self.nodes_view()[i2],), false),
            decreases self.nodes.len() - i,
        {
            let worded = match &self.nodes[i].word {
                Some(_) => true,
                None => false,
            };
            if worded {
                let ghost idx0 = idx;
                if filter(&self.nodes[i]) {
                    let ety = self.etymology_of(i);
                    let pair = (self.nodes[i].clone(), ety);
                    out.push(pair);
                    proof {
                        idx = idx.push(i as int);
                        let k = out@.len() - 1;
                        assert(idx[k] == i as int);
                        assert(lexis_full_eq(&out@[k].0, &self.nodes_view()[i as int]));
                        assert(etym_record_ok(self, i as int, &out@[k].1));
                        assert(idx.contains(i as int)) by {
                            assert(idx[idx.len() - 1] == i as int);
                        }
                        assert forall|i2: int|
                            0 <= i2 < i + 1 && (#[trigger] self.nodes_view()[i2]).word is Some
                                && !idx.contains(i2) implies filter.ensures(
                            (&self.nodes_view()[i2],),
                            false,
                        ) by {
                            if i2 < i as int && idx0.contains(i2) {
                                let j = choose|j: int| 0 <= j < idx0.len() && idx0[j] == i2;
                                assert(idx[j] == i2);
                                assert(idx.contains(i2));
                            }
                        }
                    }
                } else {
                    proof {
                        assert(filter.ensures((&self.nodes_view()[i as int],), false));
                    }
                }
            }
            i += 1;
        }
        proof {
            assert(etymons_view_ok(self, out@, filter, idx));
        }
        out
    }

    /// The etymology record of node `ni`: its incoming edges in order.
    fn etymology_of(&self, ni: usize) -> (r: Etymology)
        requires
            self.wf(),
            (ni as int) < self.nodes_view().len(),
        ensures
            etym_record_ok(self, ni as int, &r),
    {
        let mut etymons: Vec<Edge> = Vec::new();
        let mut e: usize = 0;
        proof {
            assert(incoming_of(self, ni as int, 0).take(0) =~= Seq::<int>::empty());
        }
        while e < self.edges.len()
            invariant
                self.wf(),
                (ni as int) < self.nodes_view().len(),
                0 <= e <= self.edge_count(),
                incoming_of(self, ni as int, 0) == incoming_of(self, ni as int, 0).take(
                    etymons@.len() as int,
                ) + incoming_of(self, ni as int, e as int),
                incoming_of(self, ni as int, 0).take(etymons@.len() as int).len()
                    == etymons@.len(),
                etymons@.len() <= incoming_of(self, ni as int, 0).len(),
                forall|x: int|
                    0 <= x < etymons@.len() ==> {
                        let ed = incoming_of(self, ni as int, 0)[x];
                        let f = first_conn(self, self.edge_from(ed), ni as int, 0);
                        let rec = #[trigger] etymons@[x];
                        &&& 0 <= f < self.edge_count()
                        &&& rec.etymon@ == self.nodes_view()[self.edge_from(ed)].id@
                        &&& rec.agglutination_order == self.edge_data(f).agglutination_order
                        &&& rec.transforms matches Some(v) && v.deep_view().len()
                            == self.edge_data(f).transforms@.len() && forall|y: int|
                            0 <= y < v.deep_view().len() ==> v.deep_view()[y] == (
                            #[trigger] self.edge_data(f).transforms@[y]).name@
                    },
                etymons@.len() <= e,
            decreases self.edge_count() - e,
        {
            if self.edges[e].to == ni {
                let src = self.edges[e].from;
                let fc = self.first_conn_exec(src, ni);
                let f = match fc {
                    Some(f) => f,
                    None => e,
                };
                proof {
                    assert(self.edge_from(e as int) == src as int && self.edge_to(e as int)
                        == ni as int);
                    lemma_first_conn_props(self, src as int, ni as int);
                }
                let names = self.edges[f].data.names();
                let order = self.edges[f].data.agglutination_order;
                let rec = Edge {
                    etymon: self.nodes[src].id.clone(),
                    transforms: Some(names),
                    agglutination_order: order,
                };
                let ghost before = etymons@;
                etymons.push(rec);
                proof {
                    assert(incoming_of(self, ni as int, e as int) == seq![e as int] + incoming_of(
                        self,
                        ni as int,
                        e as int + 1,
                    ));
                    lemma_incoming_take_step(self, ni as int, before.len() as int, e as int);
                }
            } else {
                proof {
                    assert(incoming_of(self, ni as int, e as int) == incoming_of(
                        self,
                        ni as int,
                        e as int + 1,
                    ));
                }
            }
            e += 1;
        }
        proof {
            assert(incoming_of(self, ni as int, e as int) =~= Seq::<int>::empty());
            assert(incoming_of(self, ni as int, 0).take(etymons@.len() as int) + Seq::<
                int,
            >::empty() =~= incoming_of(self, ni as int, 0).take(etymons@.len() as int));
            assert(incoming_of(self, ni as int, 0) =~= incoming_of(self, ni as int, 0).take(
                etymons@.len() as int,
            ));
        }
        Etymology { etymons }
    }

    /// Walks every node present at the start of the call, handing a copy
    /// to the closure; where it returns a new lexis, that lexis is added
    /// with an edge from the visited node, carrying the returned edge
    /// data or none. Nodes added during the walk are not revisited.
    pub fn walk_create_derivatives<F: Fn(Lexis) -> (Option<Lexis>, Option<TreeEtymology>)>(
        &mut self,
        walk_function: F,
    )
        requires
            old(self).wf(),
            forall|l: Lexis| #[trigger] walk_function.requires((l,)),
        ensures
            final(self).wf(),
            final(self).phonology_view() == old(self).phonology_view(),
            final(self).globals_view() == old(self).globals_view(),
            final(self).nodes_view().len() >= old(self).nodes_view().len(),
            forall|i: int|
                0 <= i < old(self).nodes_view().len() ==> final(self).nodes_view()[i]
                    == #[trigger] old(self).nodes_view()[i],
            old(self).edges_prefix(final(self)),
            forall|e: int|
                old(self).edge_count() <= e < final(self).edge_count()
                    ==> #[trigger] final(self).edge_from(e) < old(self).nodes_view().len()
                    && final(self).edge_to(e) >= old(self).nodes_view().len(),
            exists|args: Seq<Lexis>, outs: Seq<(Option<Lexis>, Option<TreeEtymology>)>|
                walk_calls(old(self), final(self), walk_function, args, outs),
    {
        let f = walk_function;
        let ghost mut args: Seq<Lexis> = Seq::empty();
        let ghost mut outs: Seq<(Option<Lexis>, Option<TreeEtymology>)> = Seq::empty();
        let n0 = self.nodes.len();
        let mut i: usize = 0;
        while i < n0
            invariant
                self.wf(),
                forall|l: Lexis| #[trigger] f.requires((l,)),
                n0 == old(self).nodes_view().len(),
                self.nodes_view().len() >= n0,
                0 <= i <= n0,
                self.phonology_view() == old(self).phonology_view(),
                self.globals_view() == old(self).globals_view(),
                forall|j: int|
                    0 <= j < n0 ==> self.nodes_view()[j] == #[trigger] old(self).nodes_view()[j],
                old(self).edges_prefix(self),
                forall|e: int|
                    old(self).edge_count() <= e < self.edge_count() ==> #[trigger] self.edge_from(e)
                        < n0 && self.edge_to(e) >= n0,
                args.len() == i,
                outs.len() == i,
                forall|x: int|
                    0 <= x < i ==> lexis_full_eq(&(#[trigger] args[x]), &old(self).nodes_view()[x])
                        && f.ensures((args[x],), outs[x]),
                self.nodes_view().len() == n0 + num_some(outs),
                self.edge_count() == old(self).edge_count() + num_some(outs),
                forall|k: int|
                    0 <= k < num_some(outs) ==> {
                        let s = #[trigger] some_index(outs, k);
                        &&& 0 <= s < outs.len()
                        &&& outs[s].0 == Some(self.nodes_view()[n0 + k])
                        &&& self.edge_from(old(self).edge_count() + k) == s
                        &&& self.edge_to(old(self).edge_count() + k) == n0 + k
                        &&& match outs[s].1 {
                            Some(t) => self.edge_data(old(self).edge_count() + k) == t,
                            None => self.edge_data(
                                old(self).edge_count() + k,
                            ).transforms@.len() == 0 && word_view(
                                self.edge_data(old(self).edge_count() + k).intermediate_word,
                            ) is None && self.edge_data(
                                old(self).edge_count() + k,
                            ).agglutination_order is None,
                        }
                    },
            decreases n0 - i,
        {
            let visited = self.nodes[i].clone();
            let ghost varg = visited;
            let (new_lex, trans) = f(visited);
            let ghost out_pair = (new_lex, trans);
            let ghost t0 = *self;
            let ghost outs0 = outs;
            proof {
                args = args.push(varg);
                outs = outs.push(out_pair);
                assert(outs.drop_last() =~= outs0);
            }
            match new_lex {
                Some(der_word) => {
                    let idx = self.nodes.len();
                    proof {
                        assert(outs[outs.len() - 1].0 == Some(der_word));
                    }
                    self.nodes.push(der_word);
                    let data = match trans {
                        Some(t) => t,
                        None => TreeEtymology::default(),
                    };
                    let ghost pre_edges = self.edges@;
                    self.edges.push(EtyEdge { from: i, to: idx, data });
                    proof {
                        assert forall|e: int|
                            old(self).edge_count() <= e < self.edge_count() implies #[trigger] self.edge_from(
                            e,
                        ) < n0 && self.edge_to(e) >= n0 by {
                            if e < self.edge_count() - 1 {
                                assert(self.edges@[e] == pre_edges[e]);
                                assert(t0.edge_from(e) < n0 && t0.edge_to(e) >= n0);
                            } else {
                                assert(self.edges@[e].from == i && self.edges@[e].to == idx);
                            }
                        }
                        assert(num_some(outs) == num_some(outs0) + 1);
                        assert forall|k: int|
                            0 <= k < num_some(outs) implies {
                            let s = #[trigger] some_index(outs, k);
                            &&& 0 <= s < outs.len()
                            &&& outs[s].0 == Some(self.nodes_view()[n0 + k])
                            &&& self.edge_from(old(self).edge_count() + k) == s
                            &&& self.edge_to(old(self).edge_count() + k) == n0 + k
                            &&& match outs[s].1 {
                                Some(t) => self.edge_data(old(self).edge_count() + k) == t,
                                None => self.edge_data(
                                    old(self).edge_count() + k,
                                ).transforms@.len() == 0 && word_view(
                                    self.edge_data(old(self).edge_count() + k).intermediate_word,
                                ) is None && self.edge_data(
                                    old(self).edge_count() + k,
                                ).agglutination_order is None,
                            }
                        } by {
                            if k < num_some(outs0) {
                                assert(some_index(outs, k)
                                    == some_index(outs0, k));
                                let s = some_index(outs0, k);
                                assert(outs[s] == outs0[s]);
                                assert(self.nodes@[n0 + k] == t0.nodes@[n0 + k]);
                                assert(self.edges@[old(self).edge_count() + k] == t0.edges@[old(
                                    self,
                                ).edge_count() + k]);
                            } else {
                                assert(some_index(outs, k) == outs.len() - 1);
                            }
                        }
                    }
                },
                None => {
                    proof {
                        assert(num_some(outs) == num_some(outs0));
                        assert forall|k: int|
                            0 <= k < num_some(outs) implies #[trigger] some_index(
                            outs,
                            k,
                        ) == some_index(outs0, k) by {}
                        assert forall|k: int|
                            0 <= k < num_some(outs) implies some_index(
                            outs,
                            k,
                        ) < outs0.len() && outs[#[trigger] some_index(outs, k)]
                            == outs0[some_index(outs0, k)] by {}
                    }
                },
            }
            i += 1;
        }
        proof {
            assert(walk_calls(old(self), self, f, args, outs));
        }
    }

    /// Synthesizes a daughter language: every node the selector accepts
    /// is copied, rewritten by each given transform in order (a rejected
    /// guard skips that transform without aborting), renamed to the
    /// daughter language, passed through the caller's postprocessing,
    /// and added with an edge from its source carrying the transforms
    /// that were applied.
    pub fn generate_daughter_language<F: Fn(&Lexis) -> bool, P: Fn(&Lexis) -> Lexis>(
        &mut self,
        daughter_name: String,
        daughter_transforms: Vec<Transform>,
        apply_to: F,
        postprocess: P,
    ) -> (r: Result<(), crate::errors::TransformError>)
        requires
            old(self).wf(),
            forall|l: &Lexis| #[trigger] apply_to.requires((l,)),
            forall|l: &Lexis| #[trigger] postprocess.requires((l,)),
        ensures
            final(self).wf(),
            final(self).phonology_view() == old(self).phonology_view(),
            final(self).globals_view() == old(self).globals_view(),
            final(self).nodes_view().len() >= old(self).nodes_view().len(),
            forall|i: int|
                0 <= i < old(self).nodes_view().len() ==> final(self).nodes_view()[i]
                    == #[trigger] old(self).nodes_view()[i],
            old(self).edges_prefix(final(self)),
            forall|e: int|
                old(self).edge_count() <= e < final(self).edge_count()
                    ==> #[trigger] final(self).edge_from(e) < old(self).nodes_view().len()
                    && final(self).edge_to(e) >= old(self).nodes_view().len()
                    && word_view(final(self).edge_data(e).intermediate_word) is None
                    && final(self).edge_data(e).agglutination_order is None,
            list_no_rhai(daughter_transforms@) ==> r is Ok,
            r is Ok ==> exists|fm: Seq<(bool, Lexis, Lexis)>, chains: Seq<Seq<Lexis>>, aps: Seq<
                Seq<bool>,
            >|
                daughter_calls(
                    old(self),
                    final(self),
                    apply_to,
                    postprocess,
                    daughter_name@,
                    daughter_transforms@,
                    fm,
                    chains,
                    aps,
                ),
    {
        let ghost mut fm: Seq<(bool, Lexis, Lexis)> = Seq::empty();
        let ghost mut chains: Seq<Seq<Lexis>> = Seq::empty();
        let ghost mut aps: Seq<Seq<bool>> = Seq::empty();
        let n0 = self.nodes.len();
        let mut i: usize = 0;
        while i < n0
            invariant
                self.wf(),
                forall|l: &Lexis| #[trigger] apply_to.requires((l,)),
                forall|l: &Lexis| #[trigger] postprocess.requires((l,)),
                n0 == old(self).nodes_view().len(),
                self.nodes_view().len() >= n0,
                0 <= i <= n0,
                self.phonology_view() == old(self).phonology_view(),
                self.globals_view() == old(self).globals_view(),
                forall|j: int|
                    0 <= j < n0 ==> self.nodes_view()[j] == #[trigger] old(self).nodes_view()[j],
                old(self).edges_prefix(self),
                forall|e: int|
                    old(self).edge_count() <= e < self.edge_count() ==> #[trigger] self.edge_from(e)
                        < n0 && self.edge_to(e) >= n0 && word_view(
                        self.edge_data(e).intermediate_word,
                    ) is None && self.edge_data(e).agglutination_order is None,
                fm.len() == i,
                chains.len() == i,
                aps.len() == i,
                forall|x: int|
                    0 <= x < i ==> apply_to.ensures(
                        (&old(self).nodes_view()[x],),
                        (#[trigger] fm[x]).0,
                    ),
                self.nodes_view().len() == n0 + num_sel(fm),
                self.edge_count() == old(self).edge_count() + num_sel(fm),
                forall|k: int|
                    0 <= k < num_sel(fm) ==> {
                        let s = #[trigger] sel_index(fm, k);
                        &&& 0 <= s < fm.len()
                        &&& fm[s].0
                        &&& chains[s].len() == daughter_transforms@.len() + 1
                        &&& aps[s].len() == daughter_transforms@.len()
                        &&& lexis_full_eq(&chains[s][0], &old(self).nodes_view()[s])
                        &&& forall|t: int|
                            0 <= t < daughter_transforms@.len()
                                ==> crate::transforms::transform_option_rel(
                                &(#[trigger] chains[s][t]),
                                &chains[s][t + 1],
                                &daughter_transforms@[t],
                                aps[s][t],
                            )
                        &&& daughter_mid(&old(self).nodes_view()[s], &fm[s].1, daughter_name@)
                        &&& word_view(fm[s].1.word) == word_view(
                            chains[s][daughter_transforms@.len() as int].word,
                        )
                        &&& postprocess.ensures((&fm[s].1,), fm[s].2)
                        &&& self.nodes_view()[n0 + k] == fm[s].2
                        &&& self.edge_from(old(self).edge_count() + k) == s
                        &&& self.edge_to(old(self).edge_count() + k) == n0 + k
                        &&& self.edge_data(old(self).edge_count() + k).transforms@.len()
                            == num_true(aps[s])
                        &&& forall|x: int|
                            0 <= x < num_true(aps[s]) ==> 0 <= true_at(aps[s], x)
                                < daughter_transforms@.len() && crate::transforms::transform_equiv(
                                &(#[trigger] self.edge_data(
                                    old(self).edge_count() + k,
                                ).transforms@[x]),
                                &daughter_transforms@[true_at(aps[s], x)],
                            )
                    },
            decreases n0 - i,
        {
            let ghost fm0 = fm;
            let keep = apply_to(&self.nodes[i]);
            if keep {
                let ghost src_node = self.nodes@[i as int];
                let mut applied_transforms: Vec<Transform> = Vec::new();
                let mut found_updated: Lexis = self.nodes[i].clone();
                let ghost mut chain: Seq<Lexis> = seq![found_updated];
                let ghost mut ap: Seq<bool> = Seq::empty();
                let mut t: usize = 0;
                let mut failed: Option<crate::errors::TransformError> = None;
                while t < daughter_transforms.len()
                    invariant
                        0 <= t <= daughter_transforms.len(),
                        failed is None ==> crate::transforms::same_but_word(
                            &src_node,
                            &found_updated,
                        ),
                        failed is Some ==> !list_no_rhai(daughter_transforms@),
                        failed is Some ==> t == daughter_transforms@.len(),
                        failed is None ==> {
                            &&& chain.len() == t + 1
                            &&& ap.len() == t
                            &&& lexis_full_eq(&chain[0], &src_node)
                            &&& chain[t as int] == found_updated
                            &&& forall|x: int|
                                0 <= x < t ==> crate::transforms::transform_option_rel(
                                    &(#[trigger] chain[x]),
                                    &chain[x + 1],
                                    &daughter_transforms@[x],
                                    ap[x],
                                )
                            &&& applied_transforms@.len() == num_true(ap)
                            &&& forall|x: int|
                                0 <= x < num_true(ap) ==> 0 <= true_at(ap, x) < ap.len()
                                    && crate::transforms::transform_equiv(
                                    &(#[trigger] applied_transforms@[x]),
                                    &daughter_transforms@[true_at(ap, x)],
                                )
                        },
                    decreases daughter_transforms.len() - t,
                {
                    let ghost a_pre = found_updated;
                    let ghost ap0 = ap;
                    let ghost chain0 = chain;
                    let ghost av0 = applied_transforms@;
                    let step = daughter_transforms[t].transform_option(&mut found_updated);
                    match step {
                        Ok(applied) => {
                            proof {
                                chain = chain.push(found_updated);
                                ap = ap.push(applied);
                                assert(ap.drop_last() =~= ap0);
                                assert(chain.drop_last() =~= chain0);
                                assert(crate::transforms::transform_option_rel(
                                    &a_pre,
                                    &found_updated,
                                    &daughter_transforms@[t as int],
                                    applied,
                                ));
                                assert forall|x: int|
                                    0 <= x < t + 1 implies crate::transforms::transform_option_rel(
                                    &(#[trigger] chain[x]),
                                    &chain[x + 1],
                                    &daughter_transforms@[x],
                                    ap[x],
                                ) by {
                                    if x < t {
                                        assert(chain[x] == chain0[x]);
                                        assert(chain[x + 1] == chain0[x + 1]);
                                        assert(ap[x] == ap0[x]);
                                        assert(crate::transforms::transform_option_rel(
                                            &chain0[x],
                                            &chain0[x + 1],
                                            &daughter_transforms@[x],
                                            ap0[x],
                                        ));
                                    } else {
                                        assert(chain[x] == a_pre);
                                        assert(chain[x + 1] == found_updated);
                                    }
                                }
                            }
                            if applied {
                                applied_transforms.push(daughter_transforms[t].clone());
                                proof {
                                    assert(applied_transforms@.drop_last() =~= av0);
                                    assert(num_true(ap) == num_true(ap0) + 1);
                                    assert(true_at(ap, num_true(ap0)) == ap.len() - 1);
                                    assert(crate::transforms::transform_equiv(
                                        &applied_transforms@[av0.len() as int],
                                        &daughter_transforms@[t as int],
                                    ));
                                    assert forall|x: int|
                                        0 <= x < num_true(ap) implies 0 <= true_at(ap, x)
                                        < ap.len() && crate::transforms::transform_equiv(
                                        &(#[trigger] applied_transforms@[x]),
                                        &daughter_transforms@[true_at(ap, x)],
                                    ) by {
                                        lemma_true_at_bounds(ap);
                                        if x < num_true(ap0) {
                                            assert(true_at(ap, x) == true_at(ap0, x));
                                            assert(applied_transforms@[x] == av0[x]);
                                            assert(crate::transforms::transform_equiv(
                                                &av0[x],
                                                &daughter_transforms@[true_at(ap0, x)],
                                            ));
                                        } else {
                                            assert(x == num_true(ap0));
                                            assert(true_at(ap, x) == ap.len() - 1);
                                        }
                                    }
                                }
                            } else {
                                proof {
                                    assert(num_true(ap) == num_true(ap0));
                                    assert forall|x: int|
                                        0 <= x < num_true(ap) implies 0 <= true_at(ap, x)
                                        < ap.len() && crate::transforms::transform_equiv(
                                        &(#[trigger] applied_transforms@[x]),
                                        &daughter_transforms@[true_at(ap, x)],
                                    ) by {
                                        lemma_true_at_bounds(ap);
                                        assert(true_at(ap, x) == true_at(ap0, x));
                                        assert(crate::transforms::transform_equiv(
                                            &av0[x],
                                            &daughter_transforms@[true_at(ap0, x)],
                                        ));
                                    }
                                }
                            }
                        },
                        Err(e) => {
                            proof {
                                assert(!crate::transforms::no_rhai(
                                    daughter_transforms@[t as int].transforms@,
                                ));
                            }
                            failed = Some(e);
                            t = daughter_transforms.len();
                            continue ;
                        },
                    }
                    proof {
                        lemma_true_at_bounds(ap);
                        assert(lexis_full_eq(&chain[0], &src_node));
                    }
                    t += 1;
                }
                match failed {
                    Some(e) => {
                        return Err(e);
                    },
                    None => {},
                }
                let ghost chain_end = found_updated;
                found_updated.language = daughter_name.clone();
                let ghost midg = found_updated;
                let processed = postprocess(&found_updated);
                let ghost addedg = processed;
                let ghost applied_view = applied_transforms@;
                let ghost t0 = *self;
                let idx = self.nodes.len();
                self.nodes.push(processed);
                let ghost pre_edges = self.edges@;
                self.edges.push(
                    EtyEdge {
                        from: i,
                        to: idx,
                        data: TreeEtymology {
                            transforms: applied_transforms,
                            intermediate_word: None,
                            agglutination_order: None,
                        },
                    },
                );
                proof {
                    fm = fm.push((true, midg, addedg));
                    chains = chains.push(chain);
                    aps = aps.push(ap);
                    assert(fm.drop_last() =~= fm0);
                    assert(word_view(midg.word) == word_view(chain_end.word));
                    assert(chain[daughter_transforms@.len() as int] == chain_end);
                    assert(daughter_mid(&old(self).nodes_view()[i as int], &midg, daughter_name@));
                    assert forall|e: int|
                        old(self).edge_count() <= e < self.edge_count() implies #[trigger] self.edge_from(
                        e,
                    ) < n0 && self.edge_to(e) >= n0 && word_view(
                        self.edge_data(e).intermediate_word,
                    ) is None && self.edge_data(e).agglutination_order is None by {
                        if e < self.edge_count() - 1 {
                            assert(self.edges@[e] == pre_edges[e]);
                            assert(t0.edge_from(e) < n0 && t0.edge_to(e) >= n0 && word_view(
                                t0.edge_data(e).intermediate_word,
                            ) is None && t0.edge_data(e).agglutination_order is None);
                        } else {
                            assert(self.edges@[e].from == i && self.edges@[e].to == idx);
                        }
                    }
                    assert(num_sel(fm) == num_sel(fm0) + 1);
                    assert forall|k: int|
                        0 <= k < num_sel(fm) implies {
                        let s = #[trigger] sel_index(fm, k);
                        &&& 0 <= s < fm.len()
                        &&& fm[s].0
                        &&& chains[s].len() == daughter_transforms@.len() + 1
                        &&& aps[s].len() == daughter_transforms@.len()
                        &&& lexis_full_eq(&chains[s][0], &old(self).nodes_view()[s])
                        &&& forall|t2: int|
                            0 <= t2 < daughter_transforms@.len()
                                ==> crate::transforms::transform_option_rel(
                                &(#[trigger] chains[s][t2]),
                                &chains[s][t2 + 1],
                                &daughter_transforms@[t2],
                                aps[s][t2],
                            )
                        &&& daughter_mid(&old(self).nodes_view()[s], &fm[s].1, daughter_name@)
                        &&& word_view(fm[s].1.word) == word_view(
                            chains[s][daughter_transforms@.len() as int].word,
                        )
                        &&& postprocess.ensures((&fm[s].1,), fm[s].2)
                        &&& self.nodes_view()[n0 + k] == fm[s].2
                        &&& self.edge_from(old(self).edge_count() + k) == s
                        &&& self.edge_to(old(self).edge_count() + k) == n0 + k
                        &&& self.edge_data(old(self).edge_count() + k).transforms@.len()
                            == num_true(aps[s])
                        &&& forall|x: int|
                            0 <= x < num_true(aps[s]) ==> 0 <= true_at(aps[s], x)
                                < daughter_transforms@.len() && crate::transforms::transform_equiv(
                                &(#[trigger] self.edge_data(
                                    old(self).edge_count() + k,
                                ).transforms@[x]),
                                &daughter_transforms@[true_at(aps[s], x)],
                            )
                    } by {
                        if k < num_sel(fm0) {
                            assert(sel_index(fm, k) == sel_index(fm0, k));
                            let s = sel_index(fm0, k);
                            assert(fm[s] == fm0[s]);
                            assert(chains[s] == chains.drop_last()[s]);
                            assert(aps[s] == aps.drop_last()[s]);
                            lemma_true_at_bounds(aps[s]);
                            assert(self.nodes@[n0 + k] == t0.nodes@[n0 + k]);
                            assert(self.edges@[old(self).edge_count() + k] == t0.edges@[old(
                                self,
                            ).edge_count() + k]);
                        } else {
                            assert(sel_index(fm, k) == fm.len() - 1);
                            assert(chains[fm.len() - 1] == chain);
                            assert(aps[fm.len() - 1] == ap);
                            lemma_true_at_bounds(ap);
                            assert(self.edge_data(
                                old(self).edge_count() + k,
                            ).transforms@ =~= applied_view);
                        }
                    }
                }
            } else {
                proof {
                    fm = fm.push((false, self.nodes@[i as int], self.nodes@[i as int]));
                    chains = chains.push(Seq::empty());
                    aps = aps.push(Seq::empty());
                    assert(fm.drop_last() =~= fm0);
                    assert(num_sel(fm) == num_sel(fm0));
                    assert forall|k: int|
                        0 <= k < num_sel(fm) implies #[trigger] sel_index(fm, k) == sel_index(
                        fm0,
                        k,
                    ) by {}
                    assert forall|k: int|
                        0 <= k < num_sel(fm) implies sel_index(fm, k) < fm0.len() && fm[
                    #[trigger] sel_index(fm, k)] == fm0[sel_index(fm0, k)] && chains[sel_index(
                        fm,
                        k,
                    )] == chains.drop_last()[sel_index(fm0, k)] && aps[sel_index(fm, k)]
                        == aps.drop_last()[sel_index(fm0, k)] by {}
                }
            }
            i += 1;
        }
        proof {
            assert(daughter_calls(
                old(self),
                self,
                apply_to,
                postprocess,
                daughter_name@,
                daughter_transforms@,
                fm,
                chains,
                aps,
            ));
        }
        Ok(())
    }
}

proof fn lemma_first_conn_props(t: &LanguageTree, from: int, to: int)
    ensures
        first_conn(t, from, to, 0) >= 0 ==> {
            &&& first_conn(t, from, to, 0) < t.edge_count()
            &&& t.edge_from(first_conn(t, from, to, 0)) == from
            &&& t.edge_to(first_conn(t, from, to, 0)) == to
            &&& forall|x: int|
                0 <= x < first_conn(t, from, to, 0) ==> !(#[trigger] t.edge_from(x) == from
                    && t.edge_to(x) == to)
        },
        first_conn(t, from, to, 0) < 0 ==> forall|x: int|
            0 <= x < t.edge_count() ==> !(#[trigger] t.edge_from(x) == from && t.edge_to(x) == to),
{
    lemma_first_conn_from(t, from, to, 0);
}

proof fn lemma_first_conn_from(t: &LanguageTree, from: int, to: int, e: int)
    requires
        0 <= e,
    ensures
        first_conn(t, from, to, e) >= 0 ==> {
            &&& e <= first_conn(t, from, to, e) < t.edge_count()
            &&& t.edge_from(first_conn(t, from, to, e)) == from
            &&& t.edge_to(first_conn(t, from, to, e)) == to
            &&& forall|x: int|
                e <= x < first_conn(t, from, to, e) ==> !(#[trigger] t.edge_from(x) == from
                    && t.edge_to(x) == to)
        },
        first_conn(t, from, to, e) < 0 ==> forall|x: int|
            e <= x < t.edge_count() ==> !(#[trigger] t.edge_from(x) == from && t.edge_to(x) == to),
    decreases t.edge_count() - e,
{
    if e < t.edge_count() && !(t.edge_from(e) == from && t.edge_to(e) == to) {
        lemma_first_conn_from(t, from, to, e + 1);
    }
}

proof fn lemma_incoming_take_step(t: &LanguageTree, ni: int, len0: int, e: int)
    requires
        0 <= e < t.edge_count(),
        t.edge_to(e) == ni,
        0 <= len0 <= incoming_of(t, ni, 0).len(),
        incoming_of(t, ni, 0) == incoming_of(t, ni, 0).take(len0) + incoming_of(t, ni, e),
    ensures
        incoming_of(t, ni, 0).take(len0).len() == len0,
        len0 + 1 <= incoming_of(t, ni, 0).len(),
        incoming_of(t, ni, 0).take(len0 + 1).len() == len0 + 1,
        incoming_of(t, ni, 0)[len0] == e,
        incoming_of(t, ni, 0) == incoming_of(t, ni, 0).take(len0 + 1) + incoming_of(t, ni, e + 1),
{
    assert(incoming_of(t, ni, e) == seq![e] + incoming_of(t, ni, e + 1));
    assert(incoming_of(t, ni, e).len() >= 1);
    let full = incoming_of(t, ni, 0);
    assert(full.take(len0).len() == len0);
    assert(incoming_of(t, ni, 0).len() == len0 + incoming_of(t, ni, e).len());
    assert(incoming_of(t, ni, 0)[len0] == incoming_of(t, ni, e)[0]);
    assert(incoming_of(t, ni, 0).take(len0 + 1) =~= incoming_of(t, ni, 0).take(len0) + seq![e]);
    assert(incoming_of(t, ni, 0).take(len0) + (seq![e] + incoming_of(t, ni, e + 1)) =~= incoming_of(
        t,
        ni,
        0,
    ).take(len0 + 1) + incoming_of(t, ni, e + 1));
}

/// An absent agglutination order sorts as zero.
pub open spec fn order_of(o: Option<i32>) -> i32 {
    match o {
        Some(x) => x,
        None => 0,
    }
}

/// The keyed intermediate forms of the edges into `ni`, from edge `e`
/// on: what the node's word is agglutinated from.
pub open spec fn upstream_pairs(t: &LanguageTree, ni: int, e: int) -> Seq<(i32, Seq<Seq<char>>)>
    decreases t.edge_count() - e,
{
    if e < 0 || e >= t.edge_count() {
        Seq::empty()
    } else {
        (if t.edge_to(e) == ni {
            seq![
                (
                    order_of(t.edge_data(e).agglutination_order),
                    match word_view(t.edge_data(e).intermediate_word) {
                        Some(w) => w,
                        None => Seq::<Seq<char>>::empty(),
                    },
                ),
            ]
        } else {
            Seq::empty()
        }) + upstream_pairs(t, ni, e + 1)
    }
}

/// The word agglutination gives node `ni`: its incoming intermediate
/// forms concatenated in ascending order, stable-sorted.
pub open spec fn agg_word(t: &LanguageTree, ni: int) -> Seq<Seq<char>> {
    agg_v(upstream_pairs(t, ni, 0))
}

/// How many edges come into node `ni`.
pub open spec fn indeg(t: &LanguageTree, ni: int) -> int {
    incoming_of(t, ni, 0).len() as int
}

/// Every edge into `ni` carries an intermediate form.
pub open spec fn all_incoming_populated(t: &LanguageTree, ni: int) -> bool {
    forall|e: int|
        0 <= e < t.edge_count() && #[trigger] t.edge_to(e) == ni ==> word_view(
            t.edge_data(e).intermediate_word,
        ) is Some
}

/// Node `ni` can be resolved by agglutination: it has incoming edges
/// and all of them are populated.
pub open spec fn qualifies(t: &LanguageTree, ni: int) -> bool {
    indeg(t, ni) > 0 && all_incoming_populated(t, ni)
}

/// Node `ni` is an isolated entry that carries its own word.
pub open spec fn leaf_worded(t: &LanguageTree, ni: int) -> bool {
    indeg(t, ni) == 0 && t.nodes_view()[ni].word is Some
}

/// The metadata of the sources of the edges into `ni`, from edge `e`
/// on, merged into `acc` in edge order; a later etymon wins a shared
/// key.
pub open spec fn meta_fold(
    t: &LanguageTree,
    ni: int,
    e: int,
    acc: Seq<(Seq<char>, Seq<char>)>,
) -> Seq<(Seq<char>, Seq<char>)>
    decreases t.edge_count() - e,
{
    if e < 0 || e >= t.edge_count() {
        acc
    } else if t.edge_to(e) == ni {
        meta_fold(
            t,
            ni,
            e + 1,
            crate::metadata::m_extend(acc, t.nodes_view()[t.edge_from(e)].historical_metadata@),
        )
    } else {
        meta_fold(t, ni, e + 1, acc)
    }
}

/// The metadata node `ni` ends up with when its etymons' metadata is
/// merged into its own.
pub open spec fn merged_meta(t: &LanguageTree, ni: int) -> Seq<(Seq<char>, Seq<char>)> {
    meta_fold(t, ni, 0, t.nodes_view()[ni].historical_metadata@)
}

/// No node is waiting on random word creation: each one has a word, or
/// no creation key, or a key the phonology does not know.
pub open spec fn no_pending(t: &LanguageTree) -> bool {
    forall|ni: int|
        0 <= ni < t.nodes_view().len() ==> match (#[trigger] t.nodes_view()[ni]).word_create {
            Some(k) => t.nodes_view()[ni].word is Some || crate::lexcreate::find_type(
                t.phonology_view().lexis_types@,
                k@,
            ) is None,
            None => true,
        }
}

/// A settled tree: computing the lexicon again can change nothing. No
/// generation is pending; every node whose incoming edges are all
/// populated already carries the agglutinated word, with its etymons'
/// metadata already merged in; and every edge whose source is resolved
/// is already populated.
pub open spec fn settled(t: &LanguageTree) -> bool {
    &&& no_pending(t)
    &&& forall|ni: int|
        0 <= ni < t.nodes_view().len() && #[trigger] qualifies(t, ni) ==> word_view(
            t.nodes_view()[ni].word,
        ) == Some(agg_word(t, ni)) && t.nodes_view()[ni].historical_metadata@ == merged_meta(t, ni)
    &&& forall|e: int|
        0 <= e < t.edge_count() && (qualifies(t, #[trigger] t.edge_from(e)) || leaf_worded(
            t,
            t.edge_from(e),
        )) ==> word_view(t.edge_data(e).intermediate_word) is Some
}

/// The trees hold the same entries, field for field.
pub open spec fn nodes_equiv(a: &LanguageTree, b: &LanguageTree) -> bool {
    a.nodes_view().len() == b.nodes_view().len() && forall|i: int|
        0 <= i < a.nodes_view().len() ==> lexis_full_eq(
            &a.nodes_view()[i],
            &(#[trigger] b.nodes_view()[i]),
        )
}

/// Every transform of the list is free of scripted operations.
pub open spec fn list_no_rhai(ts: Seq<Transform>) -> bool {
    forall|t: int| 0 <= t < ts.len() ==> crate::transforms::no_rhai((#[trigger] ts[t]).transforms@)
}

/// No scripted operation stands anywhere in the tree: not on any edge,
/// and not in any global transform.
pub open spec fn tree_script_free(t: &LanguageTree) -> bool {
    &&& forall|e: int|
        0 <= e < t.edge_count() ==> list_no_rhai((#[trigger] t.edge_data(e)).transforms@)
    &&& match t.globals_view() {
        Some(g) => forall|i: int|
            0 <= i < g@.len() ==> crate::transforms::no_rhai((#[trigger] g@[i]).transforms@),
        None => true,
    }
}

/// Every outgoing edge of node `j` carries an intermediate form.
pub open spec fn out_edges_populated(c: &LanguageTree, j: int) -> bool {
    forall|e: int|
        0 <= e < c.edge_count() && #[trigger] c.edge_from(e) == j ==> word_view(
            c.edge_data(e).intermediate_word,
        ) is Some
}

/// A node that carried a word still carries one.
pub open spec fn words_kept(o: &LanguageTree, c: &LanguageTree) -> bool {
    forall|i: int|
        0 <= i < o.nodes_view().len() && word_view(
            (#[trigger] o.nodes_view()[i]).word,
        ) is Some ==> word_view(c.nodes_view()[i].word) is Some
}

/// Random creation can do nothing for this node: it has no creation
/// key, or the phonology does not know the key.
pub open spec fn gen_dead(t: &LanguageTree, ni: int) -> bool {
    match t.nodes_view()[ni].word_create {
        Some(k) => crate::lexcreate::find_type(t.phonology_view().lexis_types@, k@) is None,
        None => true,
    }
}

/// What a run must leave alone: an edge-less node keeps its own word
/// and metadata, and a node that cannot be resolved and cannot be
/// generated keeps no word.
pub open spec fn anchors_kept(o: &LanguageTree, c: &LanguageTree) -> bool {
    forall|j: int|
        0 <= j < o.nodes_view().len() ==> {
            &&& indeg(c, j) == 0 ==> ((word_view(o.nodes_view()[j].word) is Some ==> word_view(
                (#[trigger] c.nodes_view()[j]).word,
            ) == word_view(o.nodes_view()[j].word)) && c.nodes_view()[j].historical_metadata@
                == o.nodes_view()[j].historical_metadata@)
            &&& (word_view(o.nodes_view()[j].word) is None && !qualifies(c, j) && gen_dead(o, j))
                ==> word_view(c.nodes_view()[j].word) is None
        }
}

/// A freshly assembled tree: no edge carries an intermediate form yet.
pub open spec fn pristine(t: &LanguageTree) -> bool {
    forall|e: int|
        0 <= e < t.edge_count() ==> word_view(
            (#[trigger] t.edge_data(e)).intermediate_word,
        ) is None
}

proof fn lemma_shift_e(a: &LanguageTree, b: &LanguageTree, ni: int, e: int)
    requires
        a.edges_same(b),
    ensures
        incoming_of(a, ni, e) == incoming_of(b, ni, e),
        upstream_pairs(a, ni, e) == upstream_pairs(b, ni, e),
    decreases a.edge_count() - e,
{
    assert(a.edge_count() == b.edge_count());
    if 0 <= e < a.edge_count() {
        assert(a.edge_to(e) == b.edge_to(e));
        assert(a.edge_from(e) == b.edge_from(e));
        assert(a.edge_data(e) == b.edge_data(e));
        lemma_shift_e(a, b, ni, e + 1);
    }
}

/// Trees with the same edges agree on degrees, qualification and
/// agglutination.
proof fn lemma_tree_shift(a: &LanguageTree, b: &LanguageTree, ni: int)
    requires
        a.edges_same(b),
    ensures
        indeg(a, ni) == indeg(b, ni),
        all_incoming_populated(a, ni) == all_incoming_populated(b, ni),
        qualifies(a, ni) == qualifies(b, ni),
        agg_word(a, ni) == agg_word(b, ni),
{
    lemma_shift_e(a, b, ni, 0);
    assert(a.edge_count() == b.edge_count());
    if all_incoming_populated(a, ni) {
        assert forall|e: int|
            0 <= e < b.edge_count() && #[trigger] b.edge_to(e) == ni implies word_view(
            b.edge_data(e).intermediate_word,
        ) is Some by {
            assert(a.edge_to(e) == b.edge_to(e));
            assert(a.edge_data(e) == b.edge_data(e));
        }
    }
    if all_incoming_populated(b, ni) {
        assert forall|e: int|
            0 <= e < a.edge_count() && #[trigger] a.edge_to(e) == ni implies word_view(
            a.edge_data(e).intermediate_word,
        ) is Some by {
            assert(b.edge_to(e) == a.edge_to(e));
            assert(b.edge_data(e) == a.edge_data(e));
        }
    }
}

proof fn lemma_meta_fold_views(a: &LanguageTree, b: &LanguageTree, ni: int, e: int, acc: Seq<
    (Seq<char>, Seq<char>),
>)
    requires
        a.edges_same(b),
        a.nodes_view().len() == b.nodes_view().len(),
        forall|x: int| 0 <= x < a.edge_count() ==> 0 <= #[trigger] a.edge_from(x)
            < a.nodes_view().len(),
        forall|i: int|
            0 <= i < a.nodes_view().len() ==> (#[trigger] a.nodes_view()[i]).historical_metadata@
                == b.nodes_view()[i].historical_metadata@,
    ensures
        meta_fold(a, ni, e, acc) == meta_fold(b, ni, e, acc),
    decreases a.edge_count() - e,
{
    assert(a.edge_count() == b.edge_count());
    if 0 <= e < a.edge_count() {
        assert(a.edge_to(e) == b.edge_to(e));
        assert(a.edge_from(e) == b.edge_from(e));
        if a.edge_to(e) == ni {
            assert(a.nodes_view()[a.edge_from(e)].historical_metadata@ == b.nodes_view()[b.edge_from(
                e,
            )].historical_metadata@);
            lemma_meta_fold_views(
                a,
                b,
                ni,
                e + 1,
                crate::metadata::m_extend(
                    acc,
                    a.nodes_view()[a.edge_from(e)].historical_metadata@,
                ),
            );
        } else {
            lemma_meta_fold_views(a, b, ni, e + 1, acc);
        }
    }
}

/// What a single pass may rely on between two trees whose edges agree
/// endpoint for endpoint: the incoming lists agree too.
proof fn lemma_incoming_shape(a: &LanguageTree, b: &LanguageTree, ni: int, e: int)
    requires
        a.edge_count() == b.edge_count(),
        forall|x: int|
            0 <= x < a.edge_count() ==> #[trigger] a.edge_to(x) == b.edge_to(x) && a.edge_from(x)
                == b.edge_from(x),
    ensures
        incoming_of(a, ni, e) == incoming_of(b, ni, e),
    decreases a.edge_count() - e,
{
    if 0 <= e < a.edge_count() {
        lemma_incoming_shape(a, b, ni, e + 1);
    }
}

/// Merging is decided by the edges' endpoints and the nodes' metadata
/// alone.
proof fn lemma_meta_fold_shape(
    a: &LanguageTree,
    b: &LanguageTree,
    ni: int,
    e: int,
    acc: Seq<(Seq<char>, Seq<char>)>,
)
    requires
        a.edge_count() == b.edge_count(),
        forall|x: int|
            0 <= x < a.edge_count() ==> #[trigger] a.edge_to(x) == b.edge_to(x) && a.edge_from(x)
                == b.edge_from(x),
        a.nodes_view().len() == b.nodes_view().len(),
        forall|x: int| 0 <= x < a.edge_count() ==> 0 <= #[trigger] a.edge_from(x)
            < a.nodes_view().len(),
        forall|i: int|
            0 <= i < a.nodes_view().len() ==> (#[trigger] a.nodes_view()[i]).historical_metadata@
                == b.nodes_view()[i].historical_metadata@,
    ensures
        meta_fold(a, ni, e, acc) == meta_fold(b, ni, e, acc),
    decreases a.edge_count() - e,
{
    if 0 <= e < a.edge_count() {
        if a.edge_to(e) == ni {
            lemma_meta_fold_shape(
                a,
                b,
                ni,
                e + 1,
                crate::metadata::m_extend(
                    acc,
                    a.nodes_view()[a.edge_from(e)].historical_metadata@,
                ),
            );
        } else {
            lemma_meta_fold_shape(a, b, ni, e + 1, acc);
        }
    }
}

/// Merging into a node ignores the metadata of any lexis that is not
/// one of its etymons.
proof fn lemma_meta_fold_stable(
    a: &LanguageTree,
    b: &LanguageTree,
    ni: int,
    e: int,
    acc: Seq<(Seq<char>, Seq<char>)>,
    x: int,
)
    requires
        a.edge_count() == b.edge_count(),
        forall|y: int|
            0 <= y < a.edge_count() ==> #[trigger] a.edge_to(y) == b.edge_to(y) && a.edge_from(y)
                == b.edge_from(y),
        a.nodes_view().len() == b.nodes_view().len(),
        forall|y: int| 0 <= y < a.edge_count() ==> 0 <= #[trigger] a.edge_from(y)
            < a.nodes_view().len(),
        forall|i: int|
            0 <= i < a.nodes_view().len() && i != x ==> (
            #[trigger] a.nodes_view()[i]).historical_metadata@
                == b.nodes_view()[i].historical_metadata@,
        forall|y: int|
            0 <= y < a.edge_count() && #[trigger] a.edge_to(y) == ni ==> a.edge_from(y) != x,
    ensures
        meta_fold(a, ni, e, acc) == meta_fold(b, ni, e, acc),
    decreases a.edge_count() - e,
{
    if 0 <= e < a.edge_count() {
        if a.edge_to(e) == ni {
            assert(a.edge_from(e) != x);
            lemma_meta_fold_stable(
                a,
                b,
                ni,
                e + 1,
                crate::metadata::m_extend(
                    acc,
                    a.nodes_view()[a.edge_from(e)].historical_metadata@,
                ),
                x,
            );
        } else {
            lemma_meta_fold_stable(a, b, ni, e + 1, acc, x);
        }
    }
}

/// The edge-order merge of the private helper and the public fold
/// agree.
proof fn lemma_fold_link(t: &LanguageTree, ni: int, e: int, acc: Seq<(Seq<char>, Seq<char>)>)
    requires
        0 <= e <= t.edges@.len(),
    ensures
        merged_meta_from(t.nodes_view(), froms_of(t.edges@.skip(e), ni), acc) == meta_fold(
            t,
            ni,
            e,
            acc,
        ),
    decreases t.edges@.len() - e,
{
    if e == t.edges@.len() {
        assert(t.edges@.skip(e) =~= Seq::<EtyEdge>::empty());
    } else {
        assert(t.edges@.skip(e)[0] == t.edges@[e]);
        assert(t.edges@.skip(e).skip(1) =~= t.edges@.skip(e + 1));
        if t.edge_to(e) == ni {
            assert(froms_of(t.edges@.skip(e), ni) =~= seq![t.edges@[e].from as int] + froms_of(
                t.edges@.skip(e + 1),
                ni,
            ));
            assert(froms_of(t.edges@.skip(e), ni)[0] == t.edge_from(e));
            assert(froms_of(t.edges@.skip(e), ni).skip(1) =~= froms_of(t.edges@.skip(e + 1), ni));
            lemma_fold_link(
                t,
                ni,
                e + 1,
                crate::metadata::m_extend(
                    acc,
                    t.nodes_view()[t.edge_from(e)].historical_metadata@,
                ),
            );
        } else {
            assert(froms_of(t.edges@.skip(e), ni) =~= froms_of(t.edges@.skip(e + 1), ni));
            lemma_fold_link(t, ni, e + 1, acc);
        }
    }
}

/// The decimal digit character of a value below ten.
pub open spec fn digit_char(d: int) -> char {
    if d == 0 {
        '0'
    } else if d == 1 {
        '1'
    } else if d == 2 {
        '2'
    } else if d == 3 {
        '3'
    } else if d == 4 {
        '4'
    } else if d == 5 {
        '5'
    } else if d == 6 {
        '6'
    } else if d == 7 {
        '7'
    } else if d == 8 {
        '8'
    } else {
        '9'
    }
}

/// The decimal digits of a natural number.
pub open spec fn dec_str(n: nat) -> Seq<char>
    decreases n,
{
    if n < 10 {
        seq![digit_char(n as int)]
    } else {
        dec_str(n / 10).push(digit_char((n % 10) as int))
    }
}

/// The decimal digits of the value, as a string.
fn usize_decimal(n: usize) -> (r: String)
    ensures
        r@ == dec_str(n as nat),
    decreases n,
{
    let d = n % 10;
    let c = match d {
        0 => '0',
        1 => '1',
        2 => '2',
        3 => '3',
        4 => '4',
        5 => '5',
        6 => '6',
        7 => '7',
        8 => '8',
        _ => '9',
    };
    proof {
        assert(c == digit_char((n % 10) as int));
    }
    if n < 10 {
        let mut out = String::new();
        out.push(c);
        proof {
            assert(out@ =~= seq![digit_char(n as int)]);
        }
        out
    } else {
        let mut out = usize_decimal(n / 10);
        out.push(c);
        out
    }
}

/// The label a node is drawn with: its word's display form or "None",
/// its language, its part of speech where set, and its definition.
pub open spec fn lexis_label(l: &Lexis) -> Seq<char> {
    (match l.word {
        Some(w) => w@.flatten(),
        None => seq!['N', 'o', 'n', 'e'],
    }) + seq![' ', '('] + l.language@ + seq![')'] + (match l.pos {
        Some(p) => seq![':', ' ', '('] + crate::word::pos_variant_name(p) + seq![')'],
        None => Seq::<char>::empty(),
    }) + seq![' '] + l.definition@
}

/// The node lines of the rendering, from node `i` on.
pub open spec fn dot_nodes(t: &LanguageTree, i: int) -> Seq<char>
    decreases t.nodes_view().len() - i,
{
    if i < 0 || i >= t.nodes_view().len() {
        Seq::empty()
    } else {
        seq![' ', ' ', ' ', ' '] + dec_str(i as nat) + seq![' ', '[', ' ', 'l', 'a', 'b', 'e', 'l', ' ', '=', ' ', '"']
            + lexis_label(&t.nodes_view()[i]) + seq!['"', ' ', ']', '\n'] + dot_nodes(t, i + 1)
    }
}

/// The edge lines of the rendering, from edge `e` on.
pub open spec fn dot_edges(t: &LanguageTree, e: int) -> Seq<char>
    decreases t.edge_count() - e,
{
    if e < 0 || e >= t.edge_count() {
        Seq::empty()
    } else {
        seq![' ', ' ', ' ', ' '] + dec_str(t.edge_from(e) as nat) + seq![' ', '-', '>', ' ']
            + dec_str(t.edge_to(e) as nat) + seq![' ', '[', ' ', ']', '\n'] + dot_edges(t, e + 1)
    }
}

/// The whole rendering: a directed graph with one labelled line per
/// node and one line per edge.
pub open spec fn dot_of(t: &LanguageTree) -> Seq<char> {
    seq!['d', 'i', 'g', 'r', 'a', 'p', 'h', ' ', '{', '\n'] + dot_nodes(t, 0) + dot_edges(t, 0)
        + seq!['}', '\n']
}

/// The label a node is drawn with, as a string.
fn lexis_label_exec(l: &Lexis) -> (r: String)
    ensures
        r@ == lexis_label(l),
{
    proof {
        reveal_strlit("None");
        reveal_strlit(" (");
        reveal_strlit(")");
        reveal_strlit(": (");
        reveal_strlit(" ");
        assert("None"@ =~= seq!['N', 'o', 'n', 'e']);
        assert(" ("@ =~= seq![' ', '(']);
        assert(")"@ =~= seq![')']);
        assert(": ("@ =~= seq![':', ' ', '(']);
        assert(" "@ =~= seq![' ']);
    }
    let mut out = match &l.word {
        Some(w) => w.string_without_sep(),
        None => String::from_str("None"),
    };
    out.append(" (");
    out.append(l.language.as_str());
    out.append(")");
    match l.pos {
        Some(p) => {
            out.append(": (");
            let name = p.variant_name();
            out.append(name.as_str());
            out.append(")");
        },
        None => {},
    }
    out.append(" ");
    out.append(l.definition.as_str());
    proof {
        assert(out@ =~= lexis_label(l));
    }
    out
}

impl LanguageTree {
    /// A textual rendering of the graph in DOT form, with one labelled
    /// line per node and one line per edge: a quick helper for
    /// debugging a language.
    pub fn graphviz(&self) -> (r: String)
        requires
            self.wf(),
        ensures
            r@ == dot_of(self),
    {
        proof {
            reveal_strlit("digraph {\n");
            reveal_strlit("    ");
            reveal_strlit(" [ label = \"");
            reveal_strlit("\" ]\n");
            reveal_strlit(" -> ");
            reveal_strlit(" [ ]\n");
            reveal_strlit("}\n");
            assert("digraph {\n"@ =~= seq!['d', 'i', 'g', 'r', 'a', 'p', 'h', ' ', '{', '\n']);
            assert("    "@ =~= seq![' ', ' ', ' ', ' ']);
            assert(" [ label = \""@ =~= seq![' ', '[', ' ', 'l', 'a', 'b', 'e', 'l', ' ', '=', ' ', '"']);
            assert("\" ]\n"@ =~= seq!['"', ' ', ']', '\n']);
            assert(" -> "@ =~= seq![' ', '-', '>', ' ']);
            assert(" [ ]\n"@ =~= seq![' ', '[', ' ', ']', '\n']);
            assert("}\n"@ =~= seq!['}', '\n']);
        }
        let mut out = String::from_str("digraph {\n");
        let mut i: usize = 0;
        while i < self.nodes.len()
            invariant
                self.wf(),
                "    "@ == seq![' ', ' ', ' ', ' '],
                " [ label = \""@ == seq![' ', '[', ' ', 'l', 'a', 'b', 'e', 'l', ' ', '=', ' ', '"'],
                "\" ]\n"@ == seq!['"', ' ', ']', '\n'],
                0 <= i <= self.nodes_view().len(),
                self.nodes_view().len() == self.nodes.len(),
                out@ + dot_nodes(self, i as int) == seq![
                    'd',
                    'i',
                    'g',
                    'r',
                    'a',
                    'p',
                    'h',
                    ' ',
                    '{',
                    '\n',
                ] + dot_nodes(self, 0),
            decreases self.nodes.len() - i,
        {
            out.append("    ");
            let num = usize_decimal(i);
            out.append(num.as_str());
            out.append(" [ label = \"");
            let label = lexis_label_exec(&self.nodes[i]);
            out.append(label.as_str());
            out.append("\" ]\n");
            i += 1;
        }
        proof {
            assert(dot_nodes(self, i as int) =~= Seq::<char>::empty());
            assert(out@ =~= seq!['d', 'i', 'g', 'r', 'a', 'p', 'h', ' ', '{', '\n'] + dot_nodes(
                self,
                0,
            ));
        }
        let ghost mid = out@;
        let mut e: usize = 0;
        while e < self.edges.len()
            invariant
                self.wf(),
                "    "@ == seq![' ', ' ', ' ', ' '],
                " -> "@ == seq![' ', '-', '>', ' '],
                " [ ]\n"@ == seq![' ', '[', ' ', ']', '\n'],
                0 <= e <= self.edge_count(),
                out@ + dot_edges(self, e as int) == mid + dot_edges(self, 0),
            decreases self.edges.len() - e,
        {
            out.append("    ");
            let from_s = usize_decimal(self.edges[e].from);
            out.append(from_s.as_str());
            out.append(" -> ");
            let to_s = usize_decimal(self.edges[e].to);
            out.append(to_s.as_str());
            out.append(" [ ]\n");
            e += 1;
        }
        proof {
            assert(dot_edges(self, e as int) =~= Seq::<char>::empty());
            assert(out@ =~= mid + dot_edges(self, 0));
        }
        out.append("}\n");
        proof {
            assert(out@ =~= dot_of(self));
        }
        out
    }
}

/// Moves the transform list out of the edge at `eo`, leaving an empty
/// list in its place; the caller puts the edge back together.
fn take_transforms(edges: &mut Vec<EtyEdge>, eo: usize) -> (r: Vec<Transform>)
    requires
        (eo as int) < old(edges)@.len(),
    ensures
        r == old(edges)@[eo as int].data.transforms,
        final(edges)@.len() == old(edges)@.len(),
        forall|e: int|
            0 <= e < old(edges)@.len() && e != eo as int ==> final(edges)@[e] == #[trigger] old(
                edges,
            )@[e],
        final(edges)@[eo as int].from == old(edges)@[eo as int].from,
        final(edges)@[eo as int].to == old(edges)@[eo as int].to,
{
    let from = edges[eo].from;
    let to = edges[eo].to;
    let order = edges[eo].data.agglutination_order;
    let mut hollow = EtyEdge {
        from,
        to,
        data: TreeEtymology {
            transforms: Vec::new(),
            intermediate_word: None,
            agglutination_order: order,
        },
    };
    edges.set_and_swap(eo, &mut hollow);
    hollow.data.transforms
}

/// A step that only rewrites node words or metadata, leaving the edges,
/// phonology and globals alone, keeps the structure preserved.
proof fn lemma_sp_node_step(a: LanguageTree, b: LanguageTree, c: LanguageTree)
    requires
        structure_preserved(&a, &b),
        c.edges@ == b.edges@,
        c.word_creator_phonology == b.word_creator_phonology,
        c.global_transforms == b.global_transforms,
        c.nodes@.len() == b.nodes@.len(),
        forall|i: int|
            0 <= i < b.nodes@.len() ==> node_stable(&b.nodes@[i], &(#[trigger] c.nodes@[i])),
    ensures
        structure_preserved(&a, &c),
{
    assert forall|e: int|
        0 <= e < a.edge_count() implies {
        &&& #[trigger] c.edge_from(e) == a.edge_from(e)
        &&& c.edge_to(e) == a.edge_to(e)
        &&& c.edge_data(e).transforms == a.edge_data(e).transforms
        &&& c.edge_data(e).agglutination_order == a.edge_data(e).agglutination_order
        &&& word_view(a.edge_data(e).intermediate_word) is Some ==> word_view(
            c.edge_data(e).intermediate_word,
        ) == word_view(a.edge_data(e).intermediate_word)
    } by {
        assert(b.edge_from(e) == a.edge_from(e));
    }
    assert forall|i: int|
        0 <= i < a.nodes_view().len() implies node_stable(
        &a.nodes_view()[i],
        &(#[trigger] c.nodes_view()[i]),
    ) by {
        assert(node_stable(&a.nodes_view()[i], &b.nodes_view()[i]));
        assert(node_stable(&b.nodes_view()[i], &c.nodes_view()[i]));
    }
}

/// A failed attempt to fill an intermediate form leaves the edge's
/// observable content as it was, so the structure stays preserved.
proof fn lemma_sp_edge_err(a: LanguageTree, b: LanguageTree, c: LanguageTree, eo: int)
    requires
        structure_preserved(&a, &b),
        c.nodes@ == b.nodes@,
        c.word_creator_phonology == b.word_creator_phonology,
        c.global_transforms == b.global_transforms,
        c.edges@.len() == b.edges@.len(),
        0 <= eo < b.edges@.len(),
        forall|e: int| 0 <= e < b.edges@.len() && e != eo ==> c.edges@[e] == #[trigger] b.edges@[e],
        c.edges@[eo].from == b.edges@[eo].from,
        c.edges@[eo].to == b.edges@[eo].to,
        c.edges@[eo].data.transforms == b.edges@[eo].data.transforms,
        c.edges@[eo].data.agglutination_order == b.edges@[eo].data.agglutination_order,
        word_view(c.edges@[eo].data.intermediate_word) == word_view(
            b.edges@[eo].data.intermediate_word,
        ),
    ensures
        structure_preserved(&a, &c),
{
    assert forall|e: int|
        0 <= e < a.edge_count() implies {
        &&& #[trigger] c.edge_from(e) == a.edge_from(e)
        &&& c.edge_to(e) == a.edge_to(e)
        &&& c.edge_data(e).transforms == a.edge_data(e).transforms
        &&& c.edge_data(e).agglutination_order == a.edge_data(e).agglutination_order
        &&& word_view(a.edge_data(e).intermediate_word) is Some ==> word_view(
            c.edge_data(e).intermediate_word,
        ) == word_view(a.edge_data(e).intermediate_word)
    } by {
        assert(b.edge_from(e) == a.edge_from(e));
    }
    assert forall|i: int|
        0 <= i < a.nodes_view().len() implies node_stable(
        &a.nodes_view()[i],
        &(#[trigger] c.nodes_view()[i]),
    ) by {
        assert(node_stable(&a.nodes_view()[i], &b.nodes_view()[i]));
        assert(c.nodes_view()[i] == b.nodes_view()[i]);
    }
}

/// A step that fills one empty intermediate form, touching nothing else
/// of the tree, keeps the structure preserved.
proof fn lemma_sp_edge_step(a: LanguageTree, b: LanguageTree, c: LanguageTree, eo: int)
    requires
        structure_preserved(&a, &b),
        c.nodes@ == b.nodes@,
        c.word_creator_phonology == b.word_creator_phonology,
        c.global_transforms == b.global_transforms,
        c.edges@.len() == b.edges@.len(),
        0 <= eo < b.edges@.len(),
        forall|e: int| 0 <= e < b.edges@.len() && e != eo ==> c.edges@[e] == #[trigger] b.edges@[e],
        c.edges@[eo].from == b.edges@[eo].from,
        c.edges@[eo].to == b.edges@[eo].to,
        c.edges@[eo].data.transforms == b.edges@[eo].data.transforms,
        c.edges@[eo].data.agglutination_order == b.edges@[eo].data.agglutination_order,
        b.edges@[eo].data.intermediate_word is None,
    ensures
        structure_preserved(&a, &c),
{
    assert forall|e: int|
        0 <= e < a.edge_count() implies {
        &&& #[trigger] c.edge_from(e) == a.edge_from(e)
        &&& c.edge_to(e) == a.edge_to(e)
        &&& c.edge_data(e).transforms == a.edge_data(e).transforms
        &&& c.edge_data(e).agglutination_order == a.edge_data(e).agglutination_order
        &&& word_view(a.edge_data(e).intermediate_word) is Some ==> word_view(
            c.edge_data(e).intermediate_word,
        ) == word_view(a.edge_data(e).intermediate_word)
    } by {
        assert(b.edge_from(e) == a.edge_from(e));
        if e == eo {
            assert(word_view(b.edge_data(e).intermediate_word) is None);
        }
    }
    assert forall|i: int|
        0 <= i < a.nodes_view().len() implies node_stable(
        &a.nodes_view()[i],
        &(#[trigger] c.nodes_view()[i]),
    ) by {
        assert(node_stable(&a.nodes_view()[i], &b.nodes_view()[i]));
        assert(c.nodes_view()[i] == b.nodes_view()[i]);
    }
}

proof fn lemma_find_node_props(s: Seq<Lexis>, lex: &Lexis)
    ensures
        find_node(s, lex) >= 0 ==> find_node(s, lex) < s.len() && lexis_eq_spec(
            &s[find_node(s, lex)],
            lex,
        ),
        find_node(s, lex) < 0 ==> forall|j: int|
            0 <= j < s.len() ==> !lexis_eq_spec(&(#[trigger] s[j]), lex),
    decreases s.len(),
{
    if s.len() > 0 && !lexis_eq_spec(&s[0], lex) {
        lemma_find_node_props(s.skip(1), lex);
        assert(forall|j: int| 1 <= j < s.len() ==> s.skip(1)[j - 1] == #[trigger] s[j]);
    }
}

proof fn lemma_find_node_id_props(s: Seq<Lexis>, id: Seq<char>)
    ensures
        find_node_id(s, id) >= 0 ==> find_node_id(s, id) < s.len() && s[find_node_id(s, id)].id@
            == id && forall|j: int|
            0 <= j < find_node_id(s, id) ==> (#[trigger] s[j]).id@ != id,
        find_node_id(s, id) < 0 ==> forall|j: int| 0 <= j < s.len() ==> (#[trigger] s[j]).id@ != id,
    decreases s.len(),
{
    if s.len() > 0 && s[0].id@ != id {
        lemma_find_node_id_props(s.skip(1), id);
        assert(forall|j: int| 1 <= j < s.len() ==> s.skip(1)[j - 1] == #[trigger] s[j]);
    }
}

} // verus!
