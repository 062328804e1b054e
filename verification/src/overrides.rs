//! Parsing of key=value override lists given on the command line into a
//! raw lexis entry.

use vstd::prelude::*;
use vstd::string::StrSliceExecFns;

use crate::entries::RawLexicalEntry;
use crate::lemma::{lemma_of_string, Lemma};
use crate::text::{find_sub, str_eq};
use crate::word::{parse_pos_spec, PartOfSpeech};

verus! {

broadcast use vstd::string::group_string_axioms;

/// The key of a key=value item: everything before the first equals
/// sign.
pub open spec fn item_key(s: Seq<char>) -> Seq<char> {
    s.take(find_sub(s, seq!['=']))
}

/// The value of a key=value item: everything between the first equals
/// sign and the next one, or the end.
pub open spec fn item_val(s: Seq<char>) -> Seq<char> {
    let rest = s.skip(find_sub(s, seq!['=']) + 1);
    let j = find_sub(rest, seq!['=']);
    if j < 0 {
        rest
    } else {
        rest.take(j)
    }
}

/// Is the key one the override parser knows?
pub open spec fn known_key(k: Seq<char>) -> bool {
    ||| k == seq!['w', 'o', 'r', 'd']
    ||| k == seq!['t', 'y', 'p', 'e']
    ||| k == seq!['l', 'a', 'n', 'g', 'u', 'a', 'g', 'e']
    ||| k == seq!['p', 'o', 's']
    ||| k == seq!['a', 'r', 'c', 'h', 'a', 'i', 'c']
    ||| k == seq!['t', 'a', 'g']
    ||| k == seq!['g', 'e', 'n', 'e', 'r', 'a', 't', 'e']
}

/// An item the parser rejects: no equals sign, an unknown key, an
/// unreadable part of speech, or an unreadable boolean.
pub open spec fn bad_item(s: Seq<char>) -> bool {
    ||| find_sub(s, seq!['=']) < 0
    ||| !known_key(item_key(s))
    ||| (item_key(s) == seq!['p', 'o', 's'] && parse_pos_spec(item_val(s)) is None)
    ||| (item_key(s) == seq!['a', 'r', 'c', 'h', 'a', 'i', 'c'] && item_val(s) != seq![
        't',
        'r',
        'u',
        'e',
    ] && item_val(s) != seq!['f', 'a', 'l', 's', 'e'])
}

/// The value of the last item carrying the given key, if any.
pub open spec fn last_val(items: Seq<Seq<char>>, k: Seq<char>) -> Option<Seq<char>>
    decreases items.len(),
{
    if items.len() == 0 {
        None
    } else if find_sub(items.last(), seq!['=']) >= 0 && item_key(items.last()) == k {
        Some(item_val(items.last()))
    } else {
        last_val(items.drop_last(), k)
    }
}

/// The fields the parsed entry must hold, given the item list.
pub open spec fn parsed_matches(items: Seq<Seq<char>>, e: &RawLexicalEntry) -> bool {
    &&& match last_val(items, seq!['w', 'o', 'r', 'd']) {
        Some(v) => e.word matches Some(w) && w@ == lemma_of_string(v),
        None => e.word is None,
    }
    &&& crate::kirum::opt_str_view(e.word_type) == last_val(items, seq!['t', 'y', 'p', 'e'])
    &&& crate::kirum::opt_str_view(e.language) == last_val(
        items,
        seq!['l', 'a', 'n', 'g', 'u', 'a', 'g', 'e'],
    )
    &&& e.part_of_speech == match last_val(items, seq!['p', 'o', 's']) {
        Some(v) => parse_pos_spec(v),
        None => None,
    }
    &&& e.archaic == match last_val(items, seq!['a', 'r', 'c', 'h', 'a', 'i', 'c']) {
        Some(v) => v == seq!['t', 'r', 'u', 'e'],
        None => false,
    }
    &&& match last_val(items, seq!['t', 'a', 'g']) {
        Some(v) => e.tags matches Some(t) && t.deep_view() == seq![v],
        None => e.tags is None,
    }
    &&& crate::kirum::opt_str_view(e.generate) == last_val(
        items,
        seq!['g', 'e', 'n', 'e', 'r', 'a', 't', 'e'],
    )
    &&& e.definition@ == Seq::<char>::empty()
    &&& e.etymology is None
    &&& e.historical_metadata is None
    &&& e.derivatives is None
}

/// Parses a list of key=value overrides into a raw lexis entry: each
/// recognized key sets its field, a later item overriding an earlier
/// one, and any unreadable item fails the whole parse.
pub fn parse(list: Vec<String>) -> (r: Result<RawLexicalEntry, String>)
    ensures
        match r {
            Ok(e) => (forall|i: int|
                0 <= i < list.deep_view().len() ==> !bad_item(#[trigger] list.deep_view()[i]))
                && parsed_matches(list.deep_view(), &e),
            Err(_) => exists|i: int|
                0 <= i < list.deep_view().len() && bad_item(#[trigger] list.deep_view()[i]),
        },
{
    let ghost items = list.deep_view();
    let mut working = RawLexicalEntry::default();
    let mut i: usize = 0;
    proof {
        reveal_strlit("=");
        reveal_strlit("word");
        reveal_strlit("type");
        reveal_strlit("language");
        reveal_strlit("pos");
        reveal_strlit("archaic");
        reveal_strlit("tag");
        reveal_strlit("generate");
        reveal_strlit("true");
        reveal_strlit("false");
        assert("="@ =~= seq!['=']);
        assert("word"@ =~= seq!['w', 'o', 'r', 'd']);
        assert("type"@ =~= seq!['t', 'y', 'p', 'e']);
        assert("language"@ =~= seq!['l', 'a', 'n', 'g', 'u', 'a', 'g', 'e']);
        assert("pos"@ =~= seq!['p', 'o', 's']);
        assert("archaic"@ =~= seq!['a', 'r', 'c', 'h', 'a', 'i', 'c']);
        assert("tag"@ =~= seq!['t', 'a', 'g']);
        assert("generate"@ =~= seq!['g', 'e', 'n', 'e', 'r', 'a', 't', 'e']);
        assert("true"@ =~= seq!['t', 'r', 'u', 'e']);
        assert("false"@ =~= seq!['f', 'a', 'l', 's', 'e']);
        assert(items.take(0) =~= Seq::<Seq<char>>::empty());
    }
    while i < list.len()
        invariant
            items == list.deep_view(),
            items.len() == list.len(),
            0 <= i <= items.len(),
            "="@ == seq!['='],
            "word"@ == seq!['w', 'o', 'r', 'd'],
            "type"@ == seq!['t', 'y', 'p', 'e'],
            "language"@ == seq!['l', 'a', 'n', 'g', 'u', 'a', 'g', 'e'],
            "pos"@ == seq!['p', 'o', 's'],
            "archaic"@ == seq!['a', 'r', 'c', 'h', 'a', 'i', 'c'],
            "tag"@ == seq!['t', 'a', 'g'],
            "generate"@ == seq!['g', 'e', 'n', 'e', 'r', 'a', 't', 'e'],
            "true"@ == seq!['t', 'r', 'u', 'e'],
            "false"@ == seq!['f', 'a', 'l', 's', 'e'],
            forall|j: int| 0 <= j < i ==> !bad_item(#[trigger] items[j]),
            parsed_matches(items.take(i as int), &working),
        decreases items.len() - i,
    {
        proof {
            assert(items.take(i as int + 1).drop_last() =~= items.take(i as int));
            assert(items.take(i as int + 1).last() == items[i as int]);
        }
        let val = &list[i];
        let eq_pos = match crate::text::find_sub_exec(val.as_str(), "=") {
            Some(p) => p,
            None => {
                assert(bad_item(items[i as int]));
                return Err(String::from_str("could not parse, expecting key=value"));
            },
        };
        let vlen = val.as_str().unicode_len();
        let key = val.as_str().substring_char(0, eq_pos);
        let rest = val.as_str().substring_char(eq_pos + 1, vlen);
        proof {
            assert(key@ =~= item_key(items[i as int]));
            assert(rest@ =~= items[i as int].skip(find_sub(items[i as int], seq!['=']) + 1));
        }
        let rlen = rest.unicode_len();
        let stripped = match crate::text::find_sub_exec(rest, "=") {
            Some(p) => rest.substring_char(0, p),
            None => rest,
        };
        proof {
            assert(stripped@ =~= item_val(items[i as int]));
        }
        if str_eq(key, "word") {
            working.word = Some(Lemma::new(stripped));
        } else if str_eq(key, "type") {
            working.word_type = Some(stripped.to_owned());
        } else if str_eq(key, "language") {
            working.language = Some(stripped.to_owned());
        } else if str_eq(key, "pos") {
            match PartOfSpeech::parse(stripped) {
                Ok(p) => {
                    working.part_of_speech = Some(p);
                },
                Err(_) => {
                    assert(bad_item(items[i as int]));
                    return Err(String::from_str("unknown part of speech in override"));
                },
            }
        } else if str_eq(key, "archaic") {
            if str_eq(stripped, "true") {
                working.archaic = true;
            } else if str_eq(stripped, "false") {
                working.archaic = false;
            } else {
                assert(bad_item(items[i as int]));
                return Err(String::from_str("unreadable boolean in override"));
            }
        } else if str_eq(key, "tag") {
            let mut tags: Vec<String> = Vec::new();
            tags.push(stripped.to_owned());
            proof {
                assert(tags.deep_view() =~= seq![stripped@]);
            }
            working.tags = Some(tags);
        } else if str_eq(key, "generate") {
            working.generate = Some(stripped.to_owned());
        } else {
            assert(bad_item(items[i as int]));
            return Err(String::from_str("unknown key specified for override"));
        }
        i += 1;
    }
    proof {
        assert(items.take(i as int) =~= items);
    }
    Ok(working)
}

} // verus!
