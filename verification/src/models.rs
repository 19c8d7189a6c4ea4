//! The in-memory model of the WordNet lexicon: lexical entries, senses and
//! synsets with their typed relation edges, and the flat output document.
use vstd::prelude::*;

verus! {

/// The written form of a word together with its part-of-speech tag.
#[derive(Debug, Clone)]
pub struct Lemma {
    pub written_form: String,
    pub part_of_speech: String,
}

/// One (lemma, part-of-speech) unit of the source; owns a list of sense ids.
#[derive(Debug, Clone)]
pub struct LexicalEntry {
    pub id: String,
    pub lemma: Lemma,
    pub senses: Vec<String>,
}

/// A typed edge from a sense to another sense.
#[derive(Debug, Clone)]
pub struct SenseRelation {
    pub rel_type: String,
    pub target: String,
}

/// One meaning-in-use of a lexical entry; realizes exactly one synset.
#[derive(Debug, Clone)]
pub struct Sense {
    pub id: String,
    pub synset_id: String,
    pub relations: Vec<SenseRelation>,
    pub examples: Vec<String>,
}

/// A typed edge from a synset to another synset.
#[derive(Debug, Clone)]
pub struct SynsetRelation {
    pub rel_type: String,
    pub target: String,
}

/// A set of senses sharing one meaning, with its definition, examples,
/// relations and optional member list.
#[derive(Debug, Clone)]
pub struct Synset {
    pub id: String,
    pub ili: Option<String>,
    pub part_of_speech: String,
    pub definition: Option<String>,
    pub examples: Vec<String>,
    pub relations: Vec<SynsetRelation>,
    pub members: Vec<String>,
}

/// The three tables built by the parser. Lookups take the last record with a
/// matching identifier, so a record overrides any earlier one with its id.
#[derive(Debug, Clone)]
pub struct WordNetData {
    pub lexical_entries: Vec<LexicalEntry>,
    pub senses: Vec<Sense>,
    pub synsets: Vec<Synset>,
}

/// The flat, lemma-keyed document uploaded to the search index.
#[derive(Debug, Clone)]
pub struct MeiliWord {
    pub id: String,
    pub word: String,
    pub definitions: Vec<String>,
    pub pos: Vec<String>,
    pub synonyms: Vec<String>,
    pub antonyms: Vec<String>,
    pub broader_terms: Vec<String>,
    pub narrower_terms: Vec<String>,
    pub related_terms: Vec<String>,
    pub examples: Vec<String>,
}

/// The last sense whose id matches, if any: the record a keyed table lookup
/// would return.
pub open spec fn find_sense(senses: Seq<Sense>, id: Seq<char>) -> Option<Sense>
    decreases senses.len(),
{
    if senses.len() == 0 {
        None
    } else if senses.last().id@ == id {
        Some(senses.last())
    } else {
        find_sense(senses.drop_last(), id)
    }
}

/// The last synset whose id matches, if any.
pub open spec fn find_synset(synsets: Seq<Synset>, id: Seq<char>) -> Option<Synset>
    decreases synsets.len(),
{
    if synsets.len() == 0 {
        None
    } else if synsets.last().id@ == id {
        Some(synsets.last())
    } else {
        find_synset(synsets.drop_last(), id)
    }
}

/// A found synset is one of the table's records.
pub proof fn lemma_find_synset_member(synsets: Seq<Synset>, id: Seq<char>)
    ensures
        find_synset(synsets, id) matches Some(sy) ==> exists|i: int|
            0 <= i < synsets.len() && synsets[i] == sy,
    decreases synsets.len(),
{
    if synsets.len() > 0 {
        if synsets.last().id@ == id {
            assert(synsets[synsets.len() - 1] == synsets.last());
        } else {
            lemma_find_synset_member(synsets.drop_last(), id);
            match find_synset(synsets.drop_last(), id) {
                Some(sy) => {
                    let i = choose|i: int|
                        0 <= i < synsets.drop_last().len() && synsets.drop_last()[i] == sy;
                    assert(synsets[i] == sy);
                },
                None => {
                },
            }
        }
    }
}

/// Looks a sense up by id, scanning from the most recent record.
pub fn lookup_sense<'a>(senses: &'a Vec<Sense>, id: &str) -> (r: Option<&'a Sense>)
    ensures
        match r {
            Some(s) => find_sense(senses@, id@) == Some(*s),
            None => find_sense(senses@, id@) is None,
        },
{
    let mut j: usize = senses.len();
    proof {
        assert(senses@.take(senses@.len() as int) =~= senses@);
    }
    loop
        invariant
            j <= senses.len(),
            find_sense(senses@, id@) == find_sense(senses@.take(j as int), id@),
        decreases j,
    {
        if j == 0 {
            proof {
                assert(senses@.take(0) =~= Seq::<crate::models::Sense>::empty());
            }
            return None;
        }
        j = j - 1;
        if crate::text::str_eq(senses[j].id.as_str(), id) {
            proof {
                assert(senses@.take(j + 1 as int).last() == senses@[j as int]);
            }
            return Some(&senses[j]);
        }
        proof {
            assert(senses@.take(j + 1 as int).last() == senses@[j as int]);
            assert(senses@.take(j + 1 as int).drop_last() =~= senses@.take(j as int));
        }
    }
}

/// Looks a synset up by id, scanning from the most recent record.
pub fn lookup_synset<'a>(synsets: &'a Vec<Synset>, id: &str) -> (r: Option<&'a Synset>)
    ensures
        match r {
            Some(s) => find_synset(synsets@, id@) == Some(*s),
            None => find_synset(synsets@, id@) is None,
        },
{
    let mut j: usize = synsets.len();
    proof {
        assert(synsets@.take(synsets@.len() as int) =~= synsets@);
    }
    loop
        invariant
            j <= synsets.len(),
            find_synset(synsets@, id@) == find_synset(synsets@.take(j as int), id@),
        decreases j,
    {
        if j == 0 {
            proof {
                assert(synsets@.take(0) =~= Seq::<crate::models::Synset>::empty());
            }
            return None;
        }
        j = j - 1;
        if crate::text::str_eq(synsets[j].id.as_str(), id) {
            proof {
                assert(synsets@.take(j + 1 as int).last() == synsets@[j as int]);
            }
            return Some(&synsets[j]);
        }
        proof {
            assert(synsets@.take(j + 1 as int).last() == synsets@[j as int]);
            assert(synsets@.take(j + 1 as int).drop_last() =~= synsets@.take(j as int));
        }
    }
}

} // verus!
