//! The transform stage: lemma validity, identifier normalization, the fixed
//! classification of raw relation tags into the five categories, and the
//! per-lemma composition of output documents.
use vstd::prelude::*;
use crate::api::word::RelationType;
use crate::models::{MeiliWord, Sense, Synset, WordNetData, find_synset};
use crate::resolve::{
    contains_group, has_key, is_lemma_synset, is_member_lemma, lookup_group, pairs_view,
    sense_bindings, sense_lemma, unique_keys,
};
use crate::text::{
    alnum_char, chars_of, char_is_alphanumeric, char_is_whitespace, contains_str, eq_ignore_case,
    lower_of, lowercase, push_char, space_char, str_eq, string_of_chars, trim_spec, trim_str,
};

verus! {

// ---------------------------------------------------------------------------
// Lemma validity
// ---------------------------------------------------------------------------
/// A character a lemma may hold: alphanumeric, whitespace, or one of a small
/// set of punctuation marks.
pub open spec fn permitted_char(c: char) -> bool {
    alnum_char(c) || space_char(c) || c == '-' || c == '\'' || c == '.' || c == ',' || c == '('
        || c == ')' || c == '/'
}

/// Every character of the sequence is permitted in a lemma.
pub open spec fn all_permitted(s: Seq<char>) -> bool {
    forall|i: int| 0 <= i < s.len() ==> permitted_char(#[trigger] s[i])
}

/// Whether every character of the lemma is permitted.
pub fn is_valid_lemma(lemma: &str) -> (r: bool)
    ensures
        r == all_permitted(lemma@),
{
    let cs = chars_of(lemma);
    let mut i: usize = 0;
    while i < cs.len()
        invariant
            i <= cs.len(),
            cs@ == lemma@,
            forall|k: int| 0 <= k < i ==> permitted_char(#[trigger] cs@[k]),
        decreases cs.len() - i,
    {
        let c = cs[i];
        let ok = char_is_alphanumeric(c) || char_is_whitespace(c) || c == '-' || c == '\'' || c
            == '.' || c == ',' || c == '(' || c == ')' || c == '/';
        if !ok {
            proof {
                assert(!permitted_char(lemma@[i as int]));
            }
            return false;
        }
        i = i + 1;
    }
    true
}

/// A lemma the importer keeps: non-empty once trimmed, at most 100 characters,
/// and made of permitted characters only.
pub open spec fn valid_lemma(s: Seq<char>) -> bool {
    trim_spec(s).len() > 0 && s.len() <= 100 && all_permitted(s)
}

/// Whether the importer keeps this lemma.
pub fn lemma_accepted(lemma: &str) -> (r: bool)
    ensures
        r == valid_lemma(lemma@),
{
    let t = trim_str(lemma);
    if t.as_str().is_empty() {
        return false;
    }
    let cs = chars_of(lemma);
    if cs.len() > 100 {
        return false;
    }
    is_valid_lemma(lemma)
}

// ---------------------------------------------------------------------------
// Identifier normalization
// ---------------------------------------------------------------------------
/// What one lowercased character contributes to a document identifier: space
/// and hyphen become an underscore, apostrophe and period vanish, and anything
/// not alphanumeric or underscore is dropped.
pub open spec fn norm_char(c: char) -> Seq<char> {
    if c == ' ' || c == '-' {
        seq!['_']
    } else if c == '\'' || c == '.' {
        Seq::empty()
    } else if alnum_char(c) || c == '_' {
        seq![c]
    } else {
        Seq::empty()
    }
}

/// The normalization of a character sequence, character by character.
pub open spec fn norm_chars(s: Seq<char>) -> Seq<char>
    decreases s.len(),
{
    if s.len() == 0 {
        Seq::empty()
    } else {
        norm_chars(s.drop_last()) + norm_char(s.last())
    }
}

/// What `normalize_id` returns: the lowercased input, normalized character by
/// character.
pub open spec fn normalize_spec(s: Seq<char>) -> Seq<char> {
    norm_chars(lower_of(s))
}

/// Lowercases, replaces space and hyphen with underscore, drops apostrophes
/// and periods, and keeps only alphanumerics and underscores.
pub fn normalize_id(s: &str) -> (r: String)
    ensures
        r@ == normalize_spec(s@),
{
    let low = lowercase(s);
    let cs = chars_of(low.as_str());
    let mut out: Vec<char> = Vec::new();
    let mut i: usize = 0;
    proof {
        assert(out@ =~= norm_chars(cs@.take(0)));
    }
    while i < cs.len()
        invariant
            i <= cs.len(),
            cs@ == lower_of(s@),
            out@ == norm_chars(cs@.take(i as int)),
        decreases cs.len() - i,
    {
        let c = cs[i];
        proof {
            assert(cs@.take(i + 1 as int).drop_last() =~= cs@.take(i as int));
            assert(cs@.take(i + 1 as int).last() == cs@[i as int]);
        }
        let ghost before = out@;
        if c == ' ' || c == '-' {
            out.push('_');
            proof {
                assert(out@ =~= before + norm_char(c));
            }
        } else if c == '\'' || c == '.' {
            proof {
                assert(out@ =~= before + norm_char(c));
            }
        } else if char_is_alphanumeric(c) || c == '_' {
            out.push(c);
            proof {
                assert(out@ =~= before + norm_char(c));
            }
        } else {
            proof {
                assert(out@ =~= before + norm_char(c));
            }
        }
        i = i + 1;
    }
    proof {
        assert(cs@.take(cs@.len() as int) =~= cs@);
    }
    string_of_chars(&out)
}

/// The identifier of the document for a lemma: `word_` followed by the
/// normalized lemma.
pub open spec fn word_id_of(l: Seq<char>) -> Seq<char> {
    seq!['w', 'o', 'r', 'd', '_'] + normalize_spec(l)
}

/// Builds the document identifier for a lemma.
pub fn make_word_id(lemma: &str) -> (r: String)
    ensures
        r@ == word_id_of(lemma@),
{
    let mut r = String::new();
    push_char(&mut r, 'w');
    push_char(&mut r, 'o');
    push_char(&mut r, 'r');
    push_char(&mut r, 'd');
    push_char(&mut r, '_');
    let n = normalize_id(lemma);
    r.append(n.as_str());
    proof {
        assert(r@ =~= word_id_of(lemma@));
    }
    r
}

// ---------------------------------------------------------------------------
// Relation classification: the fixed mapping from raw tags to categories
// ---------------------------------------------------------------------------
/// The category a synset-level relation tag falls into. Hypernyms and holonyms
/// widen, hyponyms and meronyms narrow, and an unknown tag is related, never
/// dropped.
pub open spec fn synset_bucket(rel: Seq<char>) -> RelationType {
    if rel == "hypernym"@ || rel == "instance_hypernym"@ {
        RelationType::BroaderTerm
    } else if rel == "holo_member"@ || rel == "holo_part"@ || rel == "holo_substance"@ || rel
        == "part_holonym"@ || rel == "member_holonym"@ || rel == "substance_holonym"@ || rel
        == "holo_location"@ || rel == "holo_portion"@ {
        RelationType::BroaderTerm
    } else if rel == "hyponym"@ || rel == "instance_hyponym"@ {
        RelationType::NarrowerTerm
    } else if rel == "mero_member"@ || rel == "mero_part"@ || rel == "mero_substance"@ || rel
        == "part_meronym"@ || rel == "member_meronym"@ || rel == "substance_meronym"@ || rel
        == "mero_location"@ || rel == "mero_portion"@ {
        RelationType::NarrowerTerm
    } else if rel == "antonym"@ || rel == "anto_gradable"@ || rel == "anto_simple"@ || rel
        == "anto_converse"@ || rel == "near_antonym"@ {
        RelationType::Antonym
    } else if rel == "similar"@ || rel == "also"@ || rel == "verb_group"@ || rel == "eq_synonym"@
        || rel == "ir_synonym"@ {
        RelationType::Synonym
    } else {
        RelationType::RelatedTerm
    }
}

/// The category a sense-level relation tag falls into.
pub open spec fn sense_bucket(rel: Seq<char>) -> RelationType {
    if rel == "antonym"@ || rel == "anto_gradable"@ || rel == "anto_simple"@ || rel
        == "anto_converse"@ || rel == "near_antonym"@ {
        RelationType::Antonym
    } else if rel == "similar"@ || rel == "also"@ || rel == "verb_group"@ || rel == "similar_to"@
        || rel == "see_also"@ {
        RelationType::Synonym
    } else if rel == "hypernym"@ || rel == "instance_hypernym"@ {
        RelationType::BroaderTerm
    } else if rel == "hyponym"@ || rel == "instance_hyponym"@ {
        RelationType::NarrowerTerm
    } else {
        RelationType::RelatedTerm
    }
}

/// Classifies a synset-level relation tag.
pub fn classify_synset_relation(rel: &str) -> (r: RelationType)
    ensures
        r == synset_bucket(rel@),
{
    if str_eq(rel, "hypernym") || str_eq(rel, "instance_hypernym") {
        RelationType::BroaderTerm
    } else if str_eq(rel, "holo_member") || str_eq(rel, "holo_part") || str_eq(
        rel,
        "holo_substance",
    ) || str_eq(rel, "part_holonym") || str_eq(rel, "member_holonym") || str_eq(
        rel,
        "substance_holonym",
    ) || str_eq(rel, "holo_location") || str_eq(rel, "holo_portion") {
        RelationType::BroaderTerm
    } else if str_eq(rel, "hyponym") || str_eq(rel, "instance_hyponym") {
        RelationType::NarrowerTerm
    } else if str_eq(rel, "mero_member") || str_eq(rel, "mero_part") || str_eq(
        rel,
        "mero_substance",
    ) || str_eq(rel, "part_meronym") || str_eq(rel, "member_meronym") || str_eq(
        rel,
        "substance_meronym",
    ) || str_eq(rel, "mero_location") || str_eq(rel, "mero_portion") {
        RelationType::NarrowerTerm
    } else if str_eq(rel, "antonym") || str_eq(rel, "anto_gradable") || str_eq(rel, "anto_simple")
        || str_eq(rel, "anto_converse") || str_eq(rel, "near_antonym") {
        RelationType::Antonym
    } else if str_eq(rel, "similar") || str_eq(rel, "also") || str_eq(rel, "verb_group") || str_eq(
        rel,
        "eq_synonym",
    ) || str_eq(rel, "ir_synonym") {
        RelationType::Synonym
    } else {
        RelationType::RelatedTerm
    }
}

/// Classifies a sense-level relation tag.
pub fn classify_sense_relation(rel: &str) -> (r: RelationType)
    ensures
        r == sense_bucket(rel@),
{
    if str_eq(rel, "antonym") || str_eq(rel, "anto_gradable") || str_eq(rel, "anto_simple")
        || str_eq(rel, "anto_converse") || str_eq(rel, "near_antonym") {
        RelationType::Antonym
    } else if str_eq(rel, "similar") || str_eq(rel, "also") || str_eq(rel, "verb_group") || str_eq(
        rel,
        "similar_to",
    ) || str_eq(rel, "see_also") {
        RelationType::Synonym
    } else if str_eq(rel, "hypernym") || str_eq(rel, "instance_hypernym") {
        RelationType::BroaderTerm
    } else if str_eq(rel, "hyponym") || str_eq(rel, "instance_hyponym") {
        RelationType::NarrowerTerm
    } else {
        RelationType::RelatedTerm
    }
}

// ---------------------------------------------------------------------------
// What each synset contributes to a document
// ---------------------------------------------------------------------------
/// The relation list of one category inside an output document.
pub open spec fn bucket_sel(w: MeiliWord, b: RelationType) -> Seq<String> {
    match b {
        RelationType::Synonym => w.synonyms@,
        RelationType::Antonym => w.antonyms@,
        RelationType::BroaderTerm => w.broader_terms@,
        RelationType::NarrowerTerm => w.narrower_terms@,
        RelationType::RelatedTerm => w.related_terms@,
    }
}

/// The definition string a synset contributes: its trimmed definition,
/// prefixed with `(<pos>) ` when the synset carries a part of speech.
pub open spec fn def_contrib(sy: Synset, x: Seq<char>) -> bool {
    match sy.definition {
        Some(d) => trim_spec(d@).len() > 0 && x == if sy.part_of_speech@.len() > 0 {
            seq!['('] + sy.part_of_speech@ + seq![')', ' '] + trim_spec(d@)
        } else {
            trim_spec(d@)
        },
        None => false,
    }
}

/// The part-of-speech tag a synset contributes, when it has one.
pub open spec fn pos_contrib(sy: Synset, x: Seq<char>) -> bool {
    sy.part_of_speech@ == x && x.len() > 0
}

/// The trimmed, non-empty example sentences a synset contributes.
pub open spec fn synset_example_contrib(sy: Synset, x: Seq<char>) -> bool {
    exists|e: int|
        #![trigger sy.examples@[e]]
        0 <= e < sy.examples@.len() && trim_spec(sy.examples@[e]@).len() > 0 && x == trim_spec(
            sy.examples@[e]@,
        )
}

/// Among the first `rb` relations of a synset, one classified into category
/// `b` has lemma `x` among its target's members, and `x` is not the owning
/// lemma.
pub open spec fn rel_contrib_upto(
    data: WordNetData,
    lemma: Seq<char>,
    sy: Synset,
    rb: int,
    b: RelationType,
    x: Seq<char>,
) -> bool {
    exists|ri: int|
        #![trigger sy.relations@[ri]]
        0 <= ri < rb && synset_bucket(sy.relations@[ri].rel_type@) == b && is_member_lemma(
            data,
            sy.relations@[ri].target@,
            x,
        ) && lower_of(x) != lower_of(lemma)
}

/// What the synset with id `k` contributes to the relation list `b` of the
/// document of `lemma`: co-members as synonyms, and classified relation
/// targets.
pub open spec fn bucket_at(
    data: WordNetData,
    lemma: Seq<char>,
    k: Seq<char>,
    b: RelationType,
    x: Seq<char>,
) -> bool {
    match find_synset(data.synsets@, k) {
        Some(sy) => (b == RelationType::Synonym && is_member_lemma(data, k, x) && lower_of(x)
            != lower_of(lemma)) || rel_contrib_upto(
            data,
            lemma,
            sy,
            sy.relations@.len() as int,
            b,
            x,
        ),
        None => false,
    }
}

/// The definition the synset with id `k` contributes, if it is present in the
/// synset table.
pub open spec fn syn_def_at(data: WordNetData, k: Seq<char>, x: Seq<char>) -> bool {
    match find_synset(data.synsets@, k) {
        Some(sy) => def_contrib(sy, x),
        None => false,
    }
}

/// The part of speech the synset with id `k` contributes.
pub open spec fn syn_pos_at(data: WordNetData, k: Seq<char>, x: Seq<char>) -> bool {
    match find_synset(data.synsets@, k) {
        Some(sy) => pos_contrib(sy, x),
        None => false,
    }
}

/// The examples the synset with id `k` contributes.
pub open spec fn syn_example_at(data: WordNetData, k: Seq<char>, x: Seq<char>) -> bool {
    match find_synset(data.synsets@, k) {
        Some(sy) => synset_example_contrib(sy, x),
        None => false,
    }
}

/// Appends a term to the relation list of one category, leaving every other
/// field alone.
fn push_bucket(word: &mut MeiliWord, b: RelationType, v: String)
    ensures
        bucket_sel(*final(word), b) == bucket_sel(*old(word), b).push(v),
        forall|b2: RelationType| b2 != b ==> bucket_sel(*final(word), b2) == bucket_sel(
            *old(word),
            b2,
        ),
        final(word).id == old(word).id,
        final(word).word == old(word).word,
        final(word).definitions == old(word).definitions,
        final(word).pos == old(word).pos,
        final(word).examples == old(word).examples,
{
    match b {
        RelationType::Synonym => word.synonyms.push(v),
        RelationType::Antonym => word.antonyms.push(v),
        RelationType::BroaderTerm => word.broader_terms.push(v),
        RelationType::NarrowerTerm => word.narrower_terms.push(v),
        RelationType::RelatedTerm => word.related_terms.push(v),
    }
}

/// Walks a synset's relation edges, resolves each target to its member
/// lemmas, and files every non-self target lemma into the category its tag
/// dictates.
fn process_synset_relations(
    word: &mut MeiliWord,
    synset: &Synset,
    lemma: &str,
    synset_to_lemmas: &Vec<(String, Vec<String>)>,
    data: &WordNetData,
)
    requires
        unique_keys(synset_to_lemmas@),
        forall|k: Seq<char>, x: Seq<char>|
            #[trigger] contains_group(synset_to_lemmas@, k, x) == is_member_lemma(*data, k, x),
    ensures
        forall|b: RelationType, x: Seq<char>|
            #[trigger] contains_str(bucket_sel(*final(word), b), x) == (contains_str(
                bucket_sel(*old(word), b),
                x,
            ) || rel_contrib_upto(*data, lemma@, *synset, synset.relations@.len() as int, b, x)),
        final(word).id == old(word).id,
        final(word).word == old(word).word,
        final(word).definitions == old(word).definitions,
        final(word).pos == old(word).pos,
        final(word).examples == old(word).examples,
{
    let ghost d = *data;
    let ghost w0 = *word;
    let mut ri: usize = 0;
    while ri < synset.relations.len()
        invariant
            ri <= synset.relations.len(),
            d == *data,
            unique_keys(synset_to_lemmas@),
            forall|k: Seq<char>, x: Seq<char>|
                #[trigger] contains_group(synset_to_lemmas@, k, x) == is_member_lemma(d, k, x),
            forall|b: RelationType, x: Seq<char>|
                #[trigger] contains_str(bucket_sel(*word, b), x) == (contains_str(
                    bucket_sel(w0, b),
                    x,
                ) || rel_contrib_upto(d, lemma@, *synset, ri as int, b, x)),
            word.id == w0.id,
            word.word == w0.word,
            word.definitions == w0.definitions,
            word.pos == w0.pos,
            word.examples == w0.examples,
        decreases synset.relations.len() - ri,
    {
        let rel = &synset.relations[ri];
        let ghost wprev = *word;
        match lookup_group(synset_to_lemmas, rel.target.as_str()) {
            None => {
                proof {
                    assert forall|b: RelationType, x: Seq<char>|
                        rel_contrib_upto(d, lemma@, *synset, ri + 1, b, x) == rel_contrib_upto(
                        d,
                        lemma@,
                        *synset,
                        ri as int,
                        b,
                        x,
                    ) by {
                        if rel_contrib_upto(d, lemma@, *synset, ri + 1, b, x) {
                            let rr = choose|rr: int|
                                #![trigger synset.relations@[rr]]
                                0 <= rr < ri + 1 && synset_bucket(synset.relations@[rr].rel_type@)
                                    == b && is_member_lemma(d, synset.relations@[rr].target@, x)
                                    && lower_of(x) != lower_of(lemma@);
                            if rr == ri as int {
                                assert(contains_group(
                                    synset_to_lemmas@,
                                    synset.relations@[rr].target@,
                                    x,
                                ));
                                assert(has_key(synset_to_lemmas@, synset.relations@[rr].target@));
                                assert(false);
                            }
                            assert(rel_contrib_upto(d, lemma@, *synset, ri as int, b, x));
                        }
                        if rel_contrib_upto(d, lemma@, *synset, ri as int, b, x) {
                            let rr = choose|rr: int|
                                #![trigger synset.relations@[rr]]
                                0 <= rr < ri && synset_bucket(synset.relations@[rr].rel_type@) == b
                                    && is_member_lemma(d, synset.relations@[rr].target@, x)
                                    && lower_of(x) != lower_of(lemma@);
                            assert(rel_contrib_upto(d, lemma@, *synset, ri + 1, b, x));
                        }
                    }
                }
            },
            Some(vs) => {
                let cat = classify_synset_relation(rel.rel_type.as_str());
                let mut mi: usize = 0;
                while mi < vs.len()
                    invariant
                        mi <= vs.len(),
                        d == *data,
                        ri < synset.relations.len(),
                        cat == synset_bucket(synset.relations@[ri as int].rel_type@),
                        forall|x: Seq<char>|
                            #[trigger] contains_str(vs@, x) == is_member_lemma(
                                d,
                                synset.relations@[ri as int].target@,
                                x,
                            ),
                        forall|b: RelationType, x: Seq<char>|
                            #[trigger] contains_str(bucket_sel(*word, b), x) == (contains_str(
                                bucket_sel(wprev, b),
                                x,
                            ) || (b == cat && exists|m: int|
                                0 <= m < mi && (#[trigger] vs@[m])@ == x && lower_of(x)
                                    != lower_of(lemma@))),
                        word.id == wprev.id,
                        word.word == wprev.word,
                        word.definitions == wprev.definitions,
                        word.pos == wprev.pos,
                        word.examples == wprev.examples,
                    decreases vs.len() - mi,
                {
                    let ghost wstep = *word;
                    if !eq_ignore_case(vs[mi].as_str(), lemma) {
                        push_bucket(word, cat, vs[mi].clone());
                        proof {
                            crate::text::lemma_contains_push(
                                bucket_sel(wstep, cat),
                                vs@[mi as int],
                                vs@[mi as int]@,
                            );
                            assert forall|b: RelationType, x: Seq<char>|
                                #[trigger] contains_str(bucket_sel(*word, b), x) == (contains_str(
                                bucket_sel(wprev, b),
                                x,
                            ) || (b == cat && exists|m: int|
                                0 <= m < mi + 1 && (#[trigger] vs@[m])@ == x && lower_of(x)
                                    != lower_of(lemma@))) by {
                                crate::text::lemma_contains_push(
                                    bucket_sel(wstep, cat),
                                    vs@[mi as int],
                                    x,
                                );
                                if contains_str(bucket_sel(*word, b), x) {
                                    if b == cat && !contains_str(bucket_sel(wstep, b), x) {
                                        assert(vs@[mi as int] == vs@[mi as int]);
                                        assert(x == vs@[mi as int]@);
                                    }
                                }
                                if b == cat {
                                    if exists|m: int|
                                        0 <= m < mi + 1 && (#[trigger] vs@[m])@ == x && lower_of(x)
                                            != lower_of(lemma@) {
                                        let m = choose|m: int|
                                            0 <= m < mi + 1 && (#[trigger] vs@[m])@ == x
                                                && lower_of(x) != lower_of(lemma@);
                                        if m == mi as int {
                                            assert(contains_str(bucket_sel(*word, b), x));
                                        }
                                    }
                                }
                            }
                        }
                    } else {
                        proof {
                            assert forall|b: RelationType, x: Seq<char>|
                                #[trigger] contains_str(bucket_sel(*word, b), x) == (contains_str(
                                bucket_sel(wprev, b),
                                x,
                            ) || (b == cat && exists|m: int|
                                0 <= m < mi + 1 && (#[trigger] vs@[m])@ == x && lower_of(x)
                                    != lower_of(lemma@))) by {
                                if b == cat {
                                    if exists|m: int|
                                        0 <= m < mi + 1 && (#[trigger] vs@[m])@ == x && lower_of(x)
                                            != lower_of(lemma@) {
                                        let m = choose|m: int|
                                            0 <= m < mi + 1 && (#[trigger] vs@[m])@ == x
                                                && lower_of(x) != lower_of(lemma@);
                                        assert(m != mi as int);
                                    }
                                }
                            }
                        }
                    }
                    mi = mi + 1;
                }
                proof {
                    let tgt = synset.relations@[ri as int].target@;
                    assert forall|b: RelationType, x: Seq<char>|
                        #[trigger] contains_str(bucket_sel(*word, b), x) == (contains_str(
                        bucket_sel(w0, b),
                        x,
                    ) || rel_contrib_upto(d, lemma@, *synset, ri + 1, b, x)) by {
                        if contains_str(bucket_sel(*word, b), x) && !contains_str(
                            bucket_sel(wprev, b),
                            x,
                        ) {
                            let m = choose|m: int|
                                0 <= m < vs@.len() && (#[trigger] vs@[m])@ == x && lower_of(x)
                                    != lower_of(lemma@);
                            assert(contains_str(vs@, x)) by {
                                assert(vs@[m]@ == x);
                            }
                            assert(is_member_lemma(d, tgt, x));
                            assert(synset.relations@[ri as int] == synset.relations@[ri as int]);
                            assert(rel_contrib_upto(d, lemma@, *synset, ri + 1, b, x));
                        }
                        if rel_contrib_upto(d, lemma@, *synset, ri + 1, b, x) && !rel_contrib_upto(
                            d,
                            lemma@,
                            *synset,
                            ri as int,
                            b,
                            x,
                        ) {
                            let rr = choose|rr: int|
                                #![trigger synset.relations@[rr]]
                                0 <= rr < ri + 1 && synset_bucket(synset.relations@[rr].rel_type@)
                                    == b && is_member_lemma(d, synset.relations@[rr].target@, x)
                                    && lower_of(x) != lower_of(lemma@);
                            assert(rr == ri as int);
                            assert(contains_str(vs@, x));
                            let m = choose|m: int| 0 <= m < vs@.len() && (#[trigger] vs@[m])@ == x;
                            assert(contains_str(bucket_sel(*word, b), x));
                        }
                        if rel_contrib_upto(d, lemma@, *synset, ri as int, b, x) {
                            let rr = choose|rr: int|
                                #![trigger synset.relations@[rr]]
                                0 <= rr < ri && synset_bucket(synset.relations@[rr].rel_type@) == b
                                    && is_member_lemma(d, synset.relations@[rr].target@, x)
                                    && lower_of(x) != lower_of(lemma@);
                            assert(rel_contrib_upto(d, lemma@, *synset, ri + 1, b, x));
                        }
                    }
                }
            },
        }
        ri = ri + 1;
    }
}

/// Applies one synset of the owning lemma to its document: definition, part
/// of speech, examples, co-members as synonyms, and classified relations.
fn apply_synset(
    data: &WordNetData,
    synset_to_lemmas: &Vec<(String, Vec<String>)>,
    lemma: &str,
    sid: &str,
    word: &mut MeiliWord,
)
    requires
        unique_keys(synset_to_lemmas@),
        forall|k: Seq<char>, x: Seq<char>|
            #[trigger] contains_group(synset_to_lemmas@, k, x) == is_member_lemma(*data, k, x),
    ensures
        forall|x: Seq<char>|
            #[trigger] contains_str(final(word).definitions@, x) == (contains_str(
                old(word).definitions@,
                x,
            ) || syn_def_at(*data, sid@, x)),
        forall|x: Seq<char>|
            #[trigger] contains_str(final(word).pos@, x) == (contains_str(old(word).pos@, x)
                || syn_pos_at(*data, sid@, x)),
        forall|x: Seq<char>|
            #[trigger] contains_str(final(word).examples@, x) == (contains_str(
                old(word).examples@,
                x,
            ) || syn_example_at(*data, sid@, x)),
        forall|b: RelationType, x: Seq<char>|
            #[trigger] contains_str(bucket_sel(*final(word), b), x) == (contains_str(
                bucket_sel(*old(word), b),
                x,
            ) || bucket_at(*data, lemma@, sid@, b, x)),
        final(word).id == old(word).id,
        final(word).word == old(word).word,
{
    let ghost d = *data;
    let ghost w0 = *word;
    match crate::models::lookup_synset(&data.synsets, sid) {
        None => {
        },
        Some(sy) => {
            // definition, prefixed with the part of speech when one is present
            match &sy.definition {
                Some(dd) => {
                    let t = trim_str(dd.as_str());
                    if !t.as_str().is_empty() {
                        let ghost defs0 = word.definitions@;
                        if !sy.part_of_speech.as_str().is_empty() {
                            let mut s = String::new();
                            push_char(&mut s, '(');
                            s.append(sy.part_of_speech.as_str());
                            push_char(&mut s, ')');
                            push_char(&mut s, ' ');
                            s.append(t.as_str());
                            proof {
                                assert(s@ =~= seq!['('] + sy.part_of_speech@ + seq![')', ' ']
                                    + trim_spec(dd@));
                            }
                            let ghost sv = s@;
                            word.definitions.push(s);
                            proof {
                                assert forall|x: Seq<char>|
                                    #[trigger] contains_str(word.definitions@, x) == (contains_str(
                                    defs0,
                                    x,
                                ) || def_contrib(*sy, x)) by {
                                    crate::text::lemma_contains_push(
                                        defs0,
                                        word.definitions@.last(),
                                        x,
                                    );
                                }
                            }
                        } else {
                            let ghost tv = t@;
                            word.definitions.push(t);
                            proof {
                                assert forall|x: Seq<char>|
                                    #[trigger] contains_str(word.definitions@, x) == (contains_str(
                                    defs0,
                                    x,
                                ) || def_contrib(*sy, x)) by {
                                    crate::text::lemma_contains_push(
                                        defs0,
                                        word.definitions@.last(),
                                        x,
                                    );
                                }
                            }
                        }
                    }
                },
                None => {
                },
            }
            let ghost w1 = *word;
            // part of speech
            if !sy.part_of_speech.as_str().is_empty() {
                let ghost pos0 = word.pos@;
                word.pos.push(sy.part_of_speech.clone());
                proof {
                    assert forall|x: Seq<char>|
                        #[trigger] contains_str(word.pos@, x) == (contains_str(pos0, x)
                            || pos_contrib(*sy, x)) by {
                        crate::text::lemma_contains_push(pos0, word.pos@.last(), x);
                    }
                }
            }
            let ghost w2 = *word;
            // example sentences
            let mut e: usize = 0;
            while e < sy.examples.len()
                invariant
                    e <= sy.examples.len(),
                    word.id == w2.id,
                    word.word == w2.word,
                    word.definitions == w2.definitions,
                    word.pos == w2.pos,
                    word.synonyms == w2.synonyms,
                    word.antonyms == w2.antonyms,
                    word.broader_terms == w2.broader_terms,
                    word.narrower_terms == w2.narrower_terms,
                    word.related_terms == w2.related_terms,
                    forall|x: Seq<char>|
                        #[trigger] contains_str(word.examples@, x) == (contains_str(w2.examples@, x)
                            || exists|ee: int|
                            #![trigger sy.examples@[ee]]
                            0 <= ee < e && trim_spec(sy.examples@[ee]@).len() > 0 && x == trim_spec(
                                sy.examples@[ee]@,
                            )),
                decreases sy.examples.len() - e,
            {
                let ghost ex0 = word.examples@;
                let t = trim_str(sy.examples[e].as_str());
                if !t.as_str().is_empty() {
                    word.examples.push(t);
                    proof {
                        assert forall|x: Seq<char>|
                            #[trigger] contains_str(word.examples@, x) == (contains_str(
                            w2.examples@,
                            x,
                        ) || exists|ee: int|
                            #![trigger sy.examples@[ee]]
                            0 <= ee < e + 1 && trim_spec(sy.examples@[ee]@).len() > 0 && x
                                == trim_spec(sy.examples@[ee]@)) by {
                            crate::text::lemma_contains_push(ex0, word.examples@.last(), x);
                            if contains_str(word.examples@, x) && !contains_str(ex0, x) {
                                assert(sy.examples@[e as int] == sy.examples@[e as int]);
                            }
                            if exists|ee: int|
                                #![trigger sy.examples@[ee]]
                                0 <= ee < e + 1 && trim_spec(sy.examples@[ee]@).len() > 0 && x
                                    == trim_spec(sy.examples@[ee]@) {
                                let ee = choose|ee: int|
                                    #![trigger sy.examples@[ee]]
                                    0 <= ee < e + 1 && trim_spec(sy.examples@[ee]@).len() > 0 && x
                                        == trim_spec(sy.examples@[ee]@);
                                if ee == e as int {
                                    assert(contains_str(word.examples@, x));
                                }
                            }
                        }
                    }
                } else {
                    proof {
                        assert forall|x: Seq<char>|
                            #[trigger] contains_str(word.examples@, x) == (contains_str(
                            w2.examples@,
                            x,
                        ) || exists|ee: int|
                            #![trigger sy.examples@[ee]]
                            0 <= ee < e + 1 && trim_spec(sy.examples@[ee]@).len() > 0 && x
                                == trim_spec(sy.examples@[ee]@)) by {
                            if exists|ee: int|
                                #![trigger sy.examples@[ee]]
                                0 <= ee < e + 1 && trim_spec(sy.examples@[ee]@).len() > 0 && x
                                    == trim_spec(sy.examples@[ee]@) {
                                let ee = choose|ee: int|
                                    #![trigger sy.examples@[ee]]
                                    0 <= ee < e + 1 && trim_spec(sy.examples@[ee]@).len() > 0 && x
                                        == trim_spec(sy.examples@[ee]@);
                                assert(ee != e as int);
                            }
                        }
                    }
                }
                e = e + 1;
            }
            let ghost w3 = *word;
            // co-members of this synset count as synonyms
            match lookup_group(synset_to_lemmas, sid) {
                Some(vs) => {
                    let mut mi: usize = 0;
                    while mi < vs.len()
                        invariant
                            mi <= vs.len(),
                            d == *data,
                            forall|x: Seq<char>|
                                #[trigger] contains_str(vs@, x) == is_member_lemma(d, sid@, x),
                            word.id == w3.id,
                            word.word == w3.word,
                            word.definitions == w3.definitions,
                            word.pos == w3.pos,
                            word.examples == w3.examples,
                            forall|b: RelationType, x: Seq<char>|
                                #[trigger] contains_str(bucket_sel(*word, b), x) == (contains_str(
                                    bucket_sel(w3, b),
                                    x,
                                ) || (b == RelationType::Synonym && exists|m: int|
                                    0 <= m < mi && (#[trigger] vs@[m])@ == x && lower_of(x)
                                        != lower_of(lemma@))),
                        decreases vs.len() - mi,
                    {
                        let ghost wstep = *word;
                        if !eq_ignore_case(vs[mi].as_str(), lemma) {
                            push_bucket(word, RelationType::Synonym, vs[mi].clone());
                            proof {
                                assert forall|b: RelationType, x: Seq<char>|
                                    #[trigger] contains_str(bucket_sel(*word, b), x) == (
                                contains_str(bucket_sel(w3, b), x) || (b == RelationType::Synonym
                                    && exists|m: int|
                                    0 <= m < mi + 1 && (#[trigger] vs@[m])@ == x && lower_of(x)
                                        != lower_of(lemma@))) by {
                                    crate::text::lemma_contains_push(
                                        bucket_sel(wstep, RelationType::Synonym),
                                        vs@[mi as int],
                                        x,
                                    );
                                    if contains_str(bucket_sel(*word, b), x) && !contains_str(
                                        bucket_sel(wstep, b),
                                        x,
                                    ) {
                                        assert(vs@[mi as int] == vs@[mi as int]);
                                        assert(x == vs@[mi as int]@);
                                    }
                                    if b == RelationType::Synonym && exists|m: int|
                                        0 <= m < mi + 1 && (#[trigger] vs@[m])@ == x && lower_of(x)
                                            != lower_of(lemma@) {
                                        let m = choose|m: int|
                                            0 <= m < mi + 1 && (#[trigger] vs@[m])@ == x
                                                && lower_of(x) != lower_of(lemma@);
                                        if m == mi as int {
                                            assert(contains_str(bucket_sel(*word, b), x));
                                        }
                                    }
                                }
                            }
                        } else {
                            proof {
                                assert forall|b: RelationType, x: Seq<char>|
                                    #[trigger] contains_str(bucket_sel(*word, b), x) == (
                                contains_str(bucket_sel(w3, b), x) || (b == RelationType::Synonym
                                    && exists|m: int|
                                    0 <= m < mi + 1 && (#[trigger] vs@[m])@ == x && lower_of(x)
                                        != lower_of(lemma@))) by {
                                    if b == RelationType::Synonym && exists|m: int|
                                        0 <= m < mi + 1 && (#[trigger] vs@[m])@ == x && lower_of(x)
                                            != lower_of(lemma@) {
                                        let m = choose|m: int|
                                            0 <= m < mi + 1 && (#[trigger] vs@[m])@ == x
                                                && lower_of(x) != lower_of(lemma@);
                                        assert(m != mi as int);
                                    }
                                }
                            }
                        }
                        mi = mi + 1;
                    }
                    proof {
                        assert forall|b: RelationType, x: Seq<char>|
                            #[trigger] contains_str(bucket_sel(*word, b), x) == (contains_str(
                            bucket_sel(w3, b),
                            x,
                        ) || (b == RelationType::Synonym && is_member_lemma(d, sid@, x)
                            && lower_of(x) != lower_of(lemma@))) by {
                            if contains_str(bucket_sel(*word, b), x) && !contains_str(
                                bucket_sel(w3, b),
                                x,
                            ) {
                                let m = choose|m: int|
                                    0 <= m < vs@.len() && (#[trigger] vs@[m])@ == x && lower_of(x)
                                        != lower_of(lemma@);
                                assert(contains_str(vs@, x)) by {
                                    assert(vs@[m]@ == x);
                                }
                            }
                            if b == RelationType::Synonym && is_member_lemma(d, sid@, x)
                                && lower_of(x) != lower_of(lemma@) {
                                assert(contains_str(vs@, x));
                                let m = choose|m: int|
                                    0 <= m < vs@.len() && (#[trigger] vs@[m])@ == x;
                                assert(contains_str(bucket_sel(*word, b), x));
                            }
                        }
                    }
                },
                None => {
                    proof {
                        assert forall|x: Seq<char>| !is_member_lemma(d, sid@, x) by {
                            if is_member_lemma(d, sid@, x) {
                                assert(contains_group(synset_to_lemmas@, sid@, x));
                                let pp = choose|pp: int|
                                    0 <= pp < synset_to_lemmas@.len()
                                        && (#[trigger] synset_to_lemmas@[pp]).0@ == sid@
                                        && contains_str(synset_to_lemmas@[pp].1@, x);
                                assert(has_key(synset_to_lemmas@, sid@));
                            }
                        }
                    }
                },
            }
            let ghost w4 = *word;
            process_synset_relations(word, sy, lemma, synset_to_lemmas, data);
            proof {
                assert(find_synset(d.synsets@, sid@) == Some(*sy));
                assert forall|b: RelationType, x: Seq<char>|
                    #[trigger] contains_str(bucket_sel(*word, b), x) == (contains_str(
                    bucket_sel(w0, b),
                    x,
                ) || bucket_at(d, lemma@, sid@, b, x)) by {
                    assert(contains_str(bucket_sel(w3, b), x) == contains_str(
                        bucket_sel(w0, b),
                        x,
                    ));
                }
            }
        },
    }
}

// ---------------------------------------------------------------------------
// What the senses of the owning lemma's entries contribute
// ---------------------------------------------------------------------------
/// Among the first `rb` relations of a sense, one classified into `b`
/// resolves to target lemma `x`, not the owning lemma itself.
pub open spec fn sense_rel_upto(
    data: WordNetData,
    lemma: Seq<char>,
    s: Sense,
    rb: int,
    b: RelationType,
    x: Seq<char>,
) -> bool {
    exists|ri: int|
        #![trigger s.relations@[ri]]
        0 <= ri < rb && sense_bucket(s.relations@[ri].rel_type@) == b && sense_lemma(
            data.lexical_entries@,
            s.relations@[ri].target@,
        ) == Some(x) && lower_of(x) != lower_of(lemma)
}

/// Among the first `eb` examples of a sense, one is `x`, non-empty once
/// trimmed.
pub open spec fn sense_example_upto(s: Sense, eb: int, x: Seq<char>) -> bool {
    exists|e: int|
        #![trigger s.examples@[e]]
        0 <= e < eb && trim_spec(s.examples@[e]@).len() > 0 && x == s.examples@[e]@
}

/// Entry `i` names the owning lemma (case-insensitively) and one of its first
/// `jb` senses carries a relation contributing `x` to category `b`.
pub open spec fn entry_rel_upto(
    data: WordNetData,
    lemma: Seq<char>,
    i: int,
    jb: int,
    b: RelationType,
    x: Seq<char>,
) -> bool {
    &&& 0 <= i < data.lexical_entries@.len()
    &&& lower_of(data.lexical_entries@[i].lemma.written_form@) == lower_of(lemma)
    &&& exists|j: int|
        #![trigger data.lexical_entries@[i].senses@[j]]
        0 <= j < jb && match crate::models::find_sense(
            data.senses@,
            data.lexical_entries@[i].senses@[j]@,
        ) {
            Some(s) => sense_rel_upto(data, lemma, s, s.relations@.len() as int, b, x),
            None => false,
        }
}

/// Entry `i` names the owning lemma and one of its first `jb` senses carries
/// example `x`.
pub open spec fn entry_ex_upto(
    data: WordNetData,
    lemma: Seq<char>,
    i: int,
    jb: int,
    x: Seq<char>,
) -> bool {
    &&& 0 <= i < data.lexical_entries@.len()
    &&& lower_of(data.lexical_entries@[i].lemma.written_form@) == lower_of(lemma)
    &&& exists|j: int|
        #![trigger data.lexical_entries@[i].senses@[j]]
        0 <= j < jb && match crate::models::find_sense(
            data.senses@,
            data.lexical_entries@[i].senses@[j]@,
        ) {
            Some(s) => sense_example_upto(s, s.examples@.len() as int, x),
            None => false,
        }
}

/// Among the first `n` entries, one contributes `x` to category `b` through a
/// sense relation.
pub open spec fn sense_contrib_upto(
    data: WordNetData,
    lemma: Seq<char>,
    n: int,
    b: RelationType,
    x: Seq<char>,
) -> bool {
    exists|i: int|
        0 <= i < n && #[trigger] entry_rel_upto(
            data,
            lemma,
            i,
            data.lexical_entries@[i].senses@.len() as int,
            b,
            x,
        )
}

/// Among the first `n` entries, one contributes example `x` through one of
/// its senses.
pub open spec fn sense_ex_contrib_upto(
    data: WordNetData,
    lemma: Seq<char>,
    n: int,
    x: Seq<char>,
) -> bool {
    exists|i: int|
        0 <= i < n && #[trigger] entry_ex_upto(
            data,
            lemma,
            i,
            data.lexical_entries@[i].senses@.len() as int,
            x,
        )
}

/// Lemma `x` stands in category `b` of the sense-level walk for `lemma`.
pub open spec fn sense_bucket_contrib(
    data: WordNetData,
    lemma: Seq<char>,
    b: RelationType,
    x: Seq<char>,
) -> bool {
    sense_contrib_upto(data, lemma, data.lexical_entries@.len() as int, b, x)
}

/// Example `x` comes from a sense of one of `lemma`'s entries.
pub open spec fn sense_examples_contrib(data: WordNetData, lemma: Seq<char>, x: Seq<char>) -> bool {
    sense_ex_contrib_upto(data, lemma, data.lexical_entries@.len() as int, x)
}

/// Walks every entry whose lemma equals the owning lemma case-insensitively,
/// adding its senses' examples and classifying its senses' relation edges.
#[verifier::rlimit(30)]
fn process_sense_relations(
    source_lemma: &str,
    word: &mut MeiliWord,
    data: &WordNetData,
    sense_to_lemma: &Vec<(String, String)>,
)
    requires
        pairs_view(sense_to_lemma@) == sense_bindings(data.lexical_entries@),
    ensures
        forall|b: RelationType, x: Seq<char>|
            #[trigger] contains_str(bucket_sel(*final(word), b), x) == (contains_str(
                bucket_sel(*old(word), b),
                x,
            ) || sense_bucket_contrib(*data, source_lemma@, b, x)),
        forall|x: Seq<char>|
            #[trigger] contains_str(final(word).examples@, x) == (contains_str(
                old(word).examples@,
                x,
            ) || sense_examples_contrib(*data, source_lemma@, x)),
        final(word).id == old(word).id,
        final(word).word == old(word).word,
        final(word).definitions == old(word).definitions,
        final(word).pos == old(word).pos,
{
    let ghost d = *data;
    let ghost w0 = *word;
    let ghost lem = source_lemma@;
    let mut i: usize = 0;
    while i < data.lexical_entries.len()
        invariant
            i <= data.lexical_entries.len(),
            d == *data,
            lem == source_lemma@,
            pairs_view(sense_to_lemma@) == sense_bindings(data.lexical_entries@),
            forall|b: RelationType, x: Seq<char>|
                #[trigger] contains_str(bucket_sel(*word, b), x) == (contains_str(
                    bucket_sel(w0, b),
                    x,
                ) || sense_contrib_upto(d, lem, i as int, b, x)),
            forall|x: Seq<char>|
                #[trigger] contains_str(word.examples@, x) == (contains_str(w0.examples@, x)
                    || sense_ex_contrib_upto(d, lem, i as int, x)),
            word.id == w0.id,
            word.word == w0.word,
            word.definitions == w0.definitions,
            word.pos == w0.pos,
        decreases data.lexical_entries.len() - i,
    {
        let e = &data.lexical_entries[i];
        if eq_ignore_case(e.lemma.written_form.as_str(), source_lemma) {
            let mut j: usize = 0;
            while j < e.senses.len()
                invariant
                    j <= e.senses.len(),
                    d == *data,
                    lem == source_lemma@,
                    i < data.lexical_entries.len(),
                    *e == data.lexical_entries@[i as int],
                    lower_of(e.lemma.written_form@) == lower_of(lem),
                    pairs_view(sense_to_lemma@) == sense_bindings(data.lexical_entries@),
                    forall|b: RelationType, x: Seq<char>|
                        #[trigger] contains_str(bucket_sel(*word, b), x) == (contains_str(
                            bucket_sel(w0, b),
                            x,
                        ) || sense_contrib_upto(d, lem, i as int, b, x) || entry_rel_upto(
                            d,
                            lem,
                            i as int,
                            j as int,
                            b,
                            x,
                        )),
                    forall|x: Seq<char>|
                        #[trigger] contains_str(word.examples@, x) == (contains_str(
                            w0.examples@,
                            x,
                        ) || sense_ex_contrib_upto(d, lem, i as int, x) || entry_ex_upto(
                            d,
                            lem,
                            i as int,
                            j as int,
                            x,
                        )),
                    word.id == w0.id,
                    word.word == w0.word,
                    word.definitions == w0.definitions,
                    word.pos == w0.pos,
                decreases e.senses.len() - j,
            {
                match crate::models::lookup_sense(&data.senses, e.senses[j].as_str()) {
                    Some(s) => {
                        let ghost wj = *word;
                        // examples of this sense
                        let mut ei: usize = 0;
                        while ei < s.examples.len()
                            invariant
                                ei <= s.examples.len(),
                                word.id == wj.id,
                                word.word == wj.word,
                                word.definitions == wj.definitions,
                                word.pos == wj.pos,
                                word.synonyms == wj.synonyms,
                                word.antonyms == wj.antonyms,
                                word.broader_terms == wj.broader_terms,
                                word.narrower_terms == wj.narrower_terms,
                                word.related_terms == wj.related_terms,
                                forall|x: Seq<char>|
                                    #[trigger] contains_str(word.examples@, x) == (contains_str(
                                        wj.examples@,
                                        x,
                                    ) || sense_example_upto(*s, ei as int, x)),
                            decreases s.examples.len() - ei,
                        {
                            let ghost ex0 = word.examples@;
                            let t = trim_str(s.examples[ei].as_str());
                            if !t.as_str().is_empty() {
                                word.examples.push(s.examples[ei].clone());
                                proof {
                                    assert forall|x: Seq<char>|
                                        #[trigger] contains_str(word.examples@, x) == (
                                    contains_str(wj.examples@, x) || sense_example_upto(
                                        *s,
                                        ei + 1,
                                        x,
                                    )) by {
                                        crate::text::lemma_contains_push(
                                            ex0,
                                            word.examples@.last(),
                                            x,
                                        );
                                        if contains_str(word.examples@, x) && !contains_str(
                                            ex0,
                                            x,
                                        ) {
                                            assert(s.examples@[ei as int] == s.examples@[
                                                ei as int]);
                                        }
                                        if sense_example_upto(*s, ei + 1, x)
                                            && !sense_example_upto(*s, ei as int, x) {
                                            let ee = choose|ee: int|
                                                #![trigger s.examples@[ee]]
                                                0 <= ee < ei + 1 && trim_spec(
                                                    s.examples@[ee]@,
                                                ).len() > 0 && x == s.examples@[ee]@;
                                            assert(ee == ei as int);
                                            assert(contains_str(word.examples@, x));
                                        }
                                    }
                                }
                            } else {
                                proof {
                                    assert forall|x: Seq<char>|
                                        sense_example_upto(*s, ei + 1, x) == sense_example_upto(
                                        *s,
                                        ei as int,
                                        x,
                                    ) by {
                                        if sense_example_upto(*s, ei + 1, x)
                                            && !sense_example_upto(*s, ei as int, x) {
                                            let ee = choose|ee: int|
                                                #![trigger s.examples@[ee]]
                                                0 <= ee < ei + 1 && trim_spec(
                                                    s.examples@[ee]@,
                                                ).len() > 0 && x == s.examples@[ee]@;
                                            assert(ee == ei as int);
                                            assert(false);
                                        }
                                    }
                                }
                            }
                            ei = ei + 1;
                        }
                        // relations of this sense
                        let ghost wr = *word;
                        let mut ri: usize = 0;
                        while ri < s.relations.len()
                            invariant
                                ri <= s.relations.len(),
                                d == *data,
                                lem == source_lemma@,
                                pairs_view(sense_to_lemma@) == sense_bindings(
                                    data.lexical_entries@,
                                ),
                                word.id == wr.id,
                                word.word == wr.word,
                                word.definitions == wr.definitions,
                                word.pos == wr.pos,
                                word.examples == wr.examples,
                                forall|b: RelationType, x: Seq<char>|
                                    #[trigger] contains_str(bucket_sel(*word, b), x) == (
                                    contains_str(bucket_sel(wr, b), x) || sense_rel_upto(
                                        d,
                                        lem,
                                        *s,
                                        ri as int,
                                        b,
                                        x,
                                    )),
                            decreases s.relations.len() - ri,
                        {
                            let rel = &s.relations[ri];
                            let ghost wstep = *word;
                            match crate::resolve::lookup_lemma(
                                sense_to_lemma,
                                rel.target.as_str(),
                            ) {
                                Some(t) => {
                                    if !eq_ignore_case(t.as_str(), source_lemma) {
                                        let cat = classify_sense_relation(rel.rel_type.as_str());
                                        push_bucket(word, cat, t.clone());
                                        proof {
                                            assert(sense_lemma(d.lexical_entries@, rel.target@)
                                                == Some(t@));
                                            assert forall|b: RelationType, x: Seq<char>|
                                                #[trigger] contains_str(bucket_sel(*word, b), x)
                                                    == (contains_str(bucket_sel(wr, b), x)
                                                    || sense_rel_upto(
                                                    d,
                                                    lem,
                                                    *s,
                                                    ri + 1,
                                                    b,
                                                    x,
                                                )) by {
                                                crate::text::lemma_contains_push(
                                                    bucket_sel(wstep, cat),
                                                    bucket_sel(*word, cat).last(),
                                                    x,
                                                );
                                                if contains_str(bucket_sel(*word, b), x)
                                                    && !contains_str(bucket_sel(wstep, b), x) {
                                                    assert(b == cat && x == t@);
                                                    assert(s.relations@[ri as int] == s.relations@[
                                                        ri as int]);
                                                    assert(sense_rel_upto(
                                                        d,
                                                        lem,
                                                        *s,
                                                        ri + 1,
                                                        b,
                                                        x,
                                                    ));
                                                }
                                                if sense_rel_upto(d, lem, *s, ri + 1, b, x)
                                                    && !sense_rel_upto(d, lem, *s, ri as int, b, x)
                                                    {
                                                    let rr = choose|rr: int|
                                                        #![trigger s.relations@[rr]]
                                                        0 <= rr < ri + 1 && sense_bucket(
                                                            s.relations@[rr].rel_type@,
                                                        ) == b && sense_lemma(
                                                            d.lexical_entries@,
                                                            s.relations@[rr].target@,
                                                        ) == Some(x) && lower_of(x) != lower_of(
                                                            lem,
                                                        );
                                                    assert(rr == ri as int);
                                                    assert(x == t@);
                                                    assert(contains_str(bucket_sel(*word, b), x));
                                                }
                                            }
                                        }
                                    } else {
                                        proof {
                                            assert(sense_lemma(d.lexical_entries@, rel.target@)
                                                == Some(t@));
                                            assert forall|b: RelationType, x: Seq<char>|
                                                sense_rel_upto(d, lem, *s, ri + 1, b, x)
                                                    == sense_rel_upto(
                                                    d,
                                                    lem,
                                                    *s,
                                                    ri as int,
                                                    b,
                                                    x,
                                                ) by {
                                                if sense_rel_upto(d, lem, *s, ri + 1, b, x)
                                                    && !sense_rel_upto(d, lem, *s, ri as int, b, x)
                                                    {
                                                    let rr = choose|rr: int|
                                                        #![trigger s.relations@[rr]]
                                                        0 <= rr < ri + 1 && sense_bucket(
                                                            s.relations@[rr].rel_type@,
                                                        ) == b && sense_lemma(
                                                            d.lexical_entries@,
                                                            s.relations@[rr].target@,
                                                        ) == Some(x) && lower_of(x) != lower_of(
                                                            lem,
                                                        );
                                                    assert(rr == ri as int);
                                                    assert(false);
                                                }
                                            }
                                        }
                                    }
                                },
                                None => {
                                    proof {
                                        assert(sense_lemma(d.lexical_entries@, rel.target@)
                                            is None);
                                        assert forall|b: RelationType, x: Seq<char>|
                                            sense_rel_upto(d, lem, *s, ri + 1, b, x)
                                                == sense_rel_upto(d, lem, *s, ri as int, b, x) by {
                                            if sense_rel_upto(d, lem, *s, ri + 1, b, x)
                                                && !sense_rel_upto(d, lem, *s, ri as int, b, x) {
                                                let rr = choose|rr: int|
                                                    #![trigger s.relations@[rr]]
                                                    0 <= rr < ri + 1 && sense_bucket(
                                                        s.relations@[rr].rel_type@,
                                                    ) == b && sense_lemma(
                                                        d.lexical_entries@,
                                                        s.relations@[rr].target@,
                                                    ) == Some(x) && lower_of(x) != lower_of(lem);
                                                assert(rr == ri as int);
                                                assert(false);
                                            }
                                        }
                                    }
                                },
                            }
                            ri = ri + 1;
                        }
                        proof {
                            let sid = d.lexical_entries@[i as int].senses@[j as int]@;
                            assert(crate::models::find_sense(d.senses@, sid) == Some(*s));
                            // fold this sense into the entry-level prefix
                            assert forall|b: RelationType, x: Seq<char>|
                                #[trigger] contains_str(bucket_sel(*word, b), x) == (contains_str(
                                bucket_sel(w0, b),
                                x,
                            ) || sense_contrib_upto(d, lem, i as int, b, x) || entry_rel_upto(
                                d,
                                lem,
                                i as int,
                                j + 1,
                                b,
                                x,
                            )) by {
                                assert(bucket_sel(wr, b) == bucket_sel(wj, b));
                                if entry_rel_upto(d, lem, i as int, j as int, b, x) {
                                    let jj = choose|jj: int|
                                        #![trigger d.lexical_entries@[i as int].senses@[jj]]
                                        0 <= jj < j && match crate::models::find_sense(
                                            d.senses@,
                                            d.lexical_entries@[i as int].senses@[jj]@,
                                        ) {
                                            Some(s2) => sense_rel_upto(
                                                d,
                                                lem,
                                                s2,
                                                s2.relations@.len() as int,
                                                b,
                                                x,
                                            ),
                                            None => false,
                                        };
                                    assert(entry_rel_upto(d, lem, i as int, j + 1, b, x));
                                }
                                if contains_str(bucket_sel(*word, b), x) && !contains_str(
                                    bucket_sel(wr, b),
                                    x,
                                ) {
                                    assert(sense_rel_upto(
                                        d,
                                        lem,
                                        *s,
                                        s.relations@.len() as int,
                                        b,
                                        x,
                                    ));
                                    assert(d.lexical_entries@[i as int].senses@[j as int]
                                        == d.lexical_entries@[i as int].senses@[j as int]);
                                    assert(entry_rel_upto(d, lem, i as int, j + 1, b, x));
                                }
                                if entry_rel_upto(d, lem, i as int, j + 1, b, x)
                                    && !entry_rel_upto(d, lem, i as int, j as int, b, x) {
                                    let jj = choose|jj: int|
                                        #![trigger d.lexical_entries@[i as int].senses@[jj]]
                                        0 <= jj < j + 1 && match crate::models::find_sense(
                                            d.senses@,
                                            d.lexical_entries@[i as int].senses@[jj]@,
                                        ) {
                                            Some(s2) => sense_rel_upto(
                                                d,
                                                lem,
                                                s2,
                                                s2.relations@.len() as int,
                                                b,
                                                x,
                                            ),
                                            None => false,
                                        };
                                    assert(jj == j as int);
                                    assert(contains_str(bucket_sel(*word, b), x));
                                }
                            }
                            assert forall|x: Seq<char>|
                                #[trigger] contains_str(word.examples@, x) == (contains_str(
                                w0.examples@,
                                x,
                            ) || sense_ex_contrib_upto(d, lem, i as int, x) || entry_ex_upto(
                                d,
                                lem,
                                i as int,
                                j + 1,
                                x,
                            )) by {
                                assert(word.examples == wr.examples);
                                if entry_ex_upto(d, lem, i as int, j as int, x) {
                                    let jj = choose|jj: int|
                                        #![trigger d.lexical_entries@[i as int].senses@[jj]]
                                        0 <= jj < j && match crate::models::find_sense(
                                            d.senses@,
                                            d.lexical_entries@[i as int].senses@[jj]@,
                                        ) {
                                            Some(s2) => sense_example_upto(
                                                s2,
                                                s2.examples@.len() as int,
                                                x,
                                            ),
                                            None => false,
                                        };
                                    assert(entry_ex_upto(d, lem, i as int, j + 1, x));
                                }
                                if contains_str(word.examples@, x) && !contains_str(
                                    wj.examples@,
                                    x,
                                ) {
                                    assert(sense_example_upto(*s, s.examples@.len() as int, x));
                                    assert(d.lexical_entries@[i as int].senses@[j as int]
                                        == d.lexical_entries@[i as int].senses@[j as int]);
                                    assert(entry_ex_upto(d, lem, i as int, j + 1, x));
                                }
                                if entry_ex_upto(d, lem, i as int, j + 1, x) && !entry_ex_upto(
                                    d,
                                    lem,
                                    i as int,
                                    j as int,
                                    x,
                                ) {
                                    let jj = choose|jj: int|
                                        #![trigger d.lexical_entries@[i as int].senses@[jj]]
                                        0 <= jj < j + 1 && match crate::models::find_sense(
                                            d.senses@,
                                            d.lexical_entries@[i as int].senses@[jj]@,
                                        ) {
                                            Some(s2) => sense_example_upto(
                                                s2,
                                                s2.examples@.len() as int,
                                                x,
                                            ),
                                            None => false,
                                        };
                                    assert(jj == j as int);
                                    assert(contains_str(word.examples@, x));
                                }
                            }
                        }
                    },
                    None => {
                        proof {
                            assert(crate::models::find_sense(
                                d.senses@,
                                d.lexical_entries@[i as int].senses@[j as int]@,
                            ) is None);
                            assert forall|b: RelationType, x: Seq<char>|
                                entry_rel_upto(d, lem, i as int, j + 1, b, x) == entry_rel_upto(
                                d,
                                lem,
                                i as int,
                                j as int,
                                b,
                                x,
                            ) by {
                                if entry_rel_upto(d, lem, i as int, j + 1, b, x)
                                    && !entry_rel_upto(d, lem, i as int, j as int, b, x) {
                                    let jj = choose|jj: int|
                                        #![trigger d.lexical_entries@[i as int].senses@[jj]]
                                        0 <= jj < j + 1 && match crate::models::find_sense(
                                            d.senses@,
                                            d.lexical_entries@[i as int].senses@[jj]@,
                                        ) {
                                            Some(s2) => sense_rel_upto(
                                                d,
                                                lem,
                                                s2,
                                                s2.relations@.len() as int,
                                                b,
                                                x,
                                            ),
                                            None => false,
                                        };
                                    assert(jj == j as int);
                                    assert(false);
                                }
                            }
                            assert forall|x: Seq<char>|
                                entry_ex_upto(d, lem, i as int, j + 1, x) == entry_ex_upto(
                                d,
                                lem,
                                i as int,
                                j as int,
                                x,
                            ) by {
                                if entry_ex_upto(d, lem, i as int, j + 1, x) && !entry_ex_upto(
                                    d,
                                    lem,
                                    i as int,
                                    j as int,
                                    x,
                                ) {
                                    let jj = choose|jj: int|
                                        #![trigger d.lexical_entries@[i as int].senses@[jj]]
                                        0 <= jj < j + 1 && match crate::models::find_sense(
                                            d.senses@,
                                            d.lexical_entries@[i as int].senses@[jj]@,
                                        ) {
                                            Some(s2) => sense_example_upto(
                                                s2,
                                                s2.examples@.len() as int,
                                                x,
                                            ),
                                            None => false,
                                        };
                                    assert(jj == j as int);
                                    assert(false);
                                }
                            }
                        }
                    },
                }
                j = j + 1;
            }
            proof {
                lemma_entry_prefix_step(d, lem, i as int);
            }
        } else {
            proof {
                assert(lower_of(d.lexical_entries@[i as int].lemma.written_form@) != lower_of(
                    lem,
                ));
                lemma_entry_prefix_step(d, lem, i as int);
            }
        }
        i = i + 1;
    }
}

/// One entry extends the entry-prefix contributions by exactly its own full
/// contribution, which is empty when its lemma does not match.
proof fn lemma_entry_prefix_step(data: WordNetData, lemma: Seq<char>, i: int)
    requires
        0 <= i < data.lexical_entries@.len(),
    ensures
        forall|b: RelationType, x: Seq<char>|
            #[trigger] sense_contrib_upto(data, lemma, i + 1, b, x) == (sense_contrib_upto(
                data,
                lemma,
                i,
                b,
                x,
            ) || entry_rel_upto(
                data,
                lemma,
                i,
                data.lexical_entries@[i].senses@.len() as int,
                b,
                x,
            )),
        forall|x: Seq<char>|
            #[trigger] sense_ex_contrib_upto(data, lemma, i + 1, x) == (sense_ex_contrib_upto(
                data,
                lemma,
                i,
                x,
            ) || entry_ex_upto(data, lemma, i, data.lexical_entries@[i].senses@.len() as int, x)),
{
    assert forall|b: RelationType, x: Seq<char>|
        #[trigger] sense_contrib_upto(data, lemma, i + 1, b, x) == (sense_contrib_upto(
            data,
            lemma,
            i,
            b,
            x,
        ) || entry_rel_upto(
            data,
            lemma,
            i,
            data.lexical_entries@[i].senses@.len() as int,
            b,
            x,
        )) by {
        if sense_contrib_upto(data, lemma, i + 1, b, x) {
            let ii = choose|ii: int|
                0 <= ii < i + 1 && #[trigger] entry_rel_upto(
                    data,
                    lemma,
                    ii,
                    data.lexical_entries@[ii].senses@.len() as int,
                    b,
                    x,
                );
            if ii < i {
                assert(sense_contrib_upto(data, lemma, i, b, x));
            }
        }
        if sense_contrib_upto(data, lemma, i, b, x) {
            let ii = choose|ii: int|
                0 <= ii < i && #[trigger] entry_rel_upto(
                    data,
                    lemma,
                    ii,
                    data.lexical_entries@[ii].senses@.len() as int,
                    b,
                    x,
                );
            assert(sense_contrib_upto(data, lemma, i + 1, b, x));
        }
        if entry_rel_upto(data, lemma, i, data.lexical_entries@[i].senses@.len() as int, b, x) {
            assert(sense_contrib_upto(data, lemma, i + 1, b, x));
        }
    }
    assert forall|x: Seq<char>|
        #[trigger] sense_ex_contrib_upto(data, lemma, i + 1, x) == (sense_ex_contrib_upto(
            data,
            lemma,
            i,
            x,
        ) || entry_ex_upto(data, lemma, i, data.lexical_entries@[i].senses@.len() as int, x)) by {
        if sense_ex_contrib_upto(data, lemma, i + 1, x) {
            let ii = choose|ii: int|
                0 <= ii < i + 1 && #[trigger] entry_ex_upto(
                    data,
                    lemma,
                    ii,
                    data.lexical_entries@[ii].senses@.len() as int,
                    x,
                );
            if ii < i {
                assert(sense_ex_contrib_upto(data, lemma, i, x));
            }
        }
        if sense_ex_contrib_upto(data, lemma, i, x) {
            let ii = choose|ii: int|
                0 <= ii < i && #[trigger] entry_ex_upto(
                    data,
                    lemma,
                    ii,
                    data.lexical_entries@[ii].senses@.len() as int,
                    x,
                );
            assert(sense_ex_contrib_upto(data, lemma, i + 1, x));
        }
        if entry_ex_upto(data, lemma, i, data.lexical_entries@[i].senses@.len() as int, x) {
            assert(sense_ex_contrib_upto(data, lemma, i + 1, x));
        }
    }
}

// ---------------------------------------------------------------------------
// The document a lemma resolves to
// ---------------------------------------------------------------------------
/// `x` is a definition of the document of `lemma`.
pub open spec fn in_definitions(data: WordNetData, lemma: Seq<char>, x: Seq<char>) -> bool {
    exists|k: Seq<char>| #[trigger] is_lemma_synset(data, lemma, k) && syn_def_at(data, k, x)
}

/// `x` is a part-of-speech tag of the document of `lemma`.
pub open spec fn in_pos(data: WordNetData, lemma: Seq<char>, x: Seq<char>) -> bool {
    exists|k: Seq<char>| #[trigger] is_lemma_synset(data, lemma, k) && syn_pos_at(data, k, x)
}

/// `x` is an example of the document of `lemma`.
pub open spec fn in_examples(data: WordNetData, lemma: Seq<char>, x: Seq<char>) -> bool {
    (exists|k: Seq<char>| #[trigger] is_lemma_synset(data, lemma, k) && syn_example_at(data, k, x))
        || sense_examples_contrib(data, lemma, x)
}

/// `x` stands in category `b` of the document of `lemma`.
pub open spec fn in_bucket(
    data: WordNetData,
    lemma: Seq<char>,
    b: RelationType,
    x: Seq<char>,
) -> bool {
    (exists|k: Seq<char>| #[trigger] is_lemma_synset(data, lemma, k) && bucket_at(
        data,
        lemma,
        k,
        b,
        x,
    )) || sense_bucket_contrib(data, lemma, b, x)
}

/// The full contract of one output document: its id is derived from its word,
/// every list is strictly sorted, and each list holds exactly what the source
/// dictates for this lemma.
pub open spec fn doc_valid(data: WordNetData, w: MeiliWord) -> bool {
    &&& w.id@ == word_id_of(w.word@)
    &&& crate::text::strictly_sorted(w.definitions@)
    &&& crate::text::strictly_sorted(w.pos@)
    &&& crate::text::strictly_sorted(w.examples@)
    &&& forall|b: RelationType| crate::text::strictly_sorted(#[trigger] bucket_sel(w, b))
    &&& forall|x: Seq<char>|
        #[trigger] contains_str(w.definitions@, x) == in_definitions(data, w.word@, x)
    &&& forall|x: Seq<char>| #[trigger] contains_str(w.pos@, x) == in_pos(data, w.word@, x)
    &&& forall|x: Seq<char>| #[trigger] contains_str(w.examples@, x) == in_examples(data, w.word@, x)
    &&& forall|b: RelationType, x: Seq<char>|
        #[trigger] contains_str(bucket_sel(w, b), x) == in_bucket(data, w.word@, b, x)
}

/// Composes the document of one lemma from the synsets it belongs to and the
/// senses of its entries, then sorts and deduplicates every list.
#[verifier::rlimit(60)]
fn build_word(
    data: &WordNetData,
    syn_map: &Vec<(String, Vec<String>)>,
    s2l: &Vec<(String, String)>,
    lemma: &str,
    synset_ids: &Vec<String>,
) -> (w: MeiliWord)
    requires
        pairs_view(s2l@) == sense_bindings(data.lexical_entries@),
        unique_keys(syn_map@),
        forall|k: Seq<char>, x: Seq<char>|
            #[trigger] contains_group(syn_map@, k, x) == is_member_lemma(*data, k, x),
        forall|k: Seq<char>|
            #[trigger] contains_str(synset_ids@, k) == is_lemma_synset(*data, lemma@, k),
    ensures
        doc_valid(*data, w),
        w.word@ == lemma@,
{
    let ghost d = *data;
    let ghost lem = lemma@;
    let mut w = MeiliWord {
        id: make_word_id(lemma),
        word: String::from_str(lemma),
        definitions: Vec::new(),
        pos: Vec::new(),
        synonyms: Vec::new(),
        antonyms: Vec::new(),
        broader_terms: Vec::new(),
        narrower_terms: Vec::new(),
        related_terms: Vec::new(),
        examples: Vec::new(),
    };
    let ghost w0 = w;
    let mut si: usize = 0;
    while si < synset_ids.len()
        invariant
            si <= synset_ids.len(),
            d == *data,
            lem == lemma@,
            pairs_view(s2l@) == sense_bindings(data.lexical_entries@),
            unique_keys(syn_map@),
            forall|k: Seq<char>, x: Seq<char>|
                #[trigger] contains_group(syn_map@, k, x) == is_member_lemma(d, k, x),
            w.id == w0.id,
            w.word == w0.word,
            forall|x: Seq<char>|
                #[trigger] contains_str(w.definitions@, x) == exists|jj: int|
                    0 <= jj < si && syn_def_at(d, (#[trigger] synset_ids@[jj])@, x),
            forall|x: Seq<char>|
                #[trigger] contains_str(w.pos@, x) == exists|jj: int|
                    0 <= jj < si && syn_pos_at(d, (#[trigger] synset_ids@[jj])@, x),
            forall|x: Seq<char>|
                #[trigger] contains_str(w.examples@, x) == exists|jj: int|
                    0 <= jj < si && syn_example_at(d, (#[trigger] synset_ids@[jj])@, x),
            forall|b: RelationType, x: Seq<char>|
                #[trigger] contains_str(bucket_sel(w, b), x) == exists|jj: int|
                    0 <= jj < si && bucket_at(d, lem, (#[trigger] synset_ids@[jj])@, b, x),
        decreases synset_ids.len() - si,
    {
        let ghost wprev = w;
        apply_synset(data, syn_map, lemma, synset_ids[si].as_str(), &mut w);
        proof {
            let sidv = synset_ids@[si as int]@;
            assert forall|x: Seq<char>|
                #[trigger] contains_str(w.definitions@, x) == exists|jj: int|
                    0 <= jj < si + 1 && syn_def_at(d, (#[trigger] synset_ids@[jj])@, x) by {
                if contains_str(w.definitions@, x) {
                    if contains_str(wprev.definitions@, x) {
                        let jj = choose|jj: int|
                            0 <= jj < si && syn_def_at(d, (#[trigger] synset_ids@[jj])@, x);
                        assert(syn_def_at(d, synset_ids@[jj]@, x));
                    } else {
                        assert(synset_ids@[si as int] == synset_ids@[si as int]);
                    }
                }
                if exists|jj: int|
                    0 <= jj < si + 1 && syn_def_at(d, (#[trigger] synset_ids@[jj])@, x) {
                    let jj = choose|jj: int|
                        0 <= jj < si + 1 && syn_def_at(d, (#[trigger] synset_ids@[jj])@, x);
                    if jj < si {
                        assert(contains_str(wprev.definitions@, x));
                    }
                    assert(contains_str(w.definitions@, x));
                }
            }
            assert forall|x: Seq<char>|
                #[trigger] contains_str(w.pos@, x) == exists|jj: int|
                    0 <= jj < si + 1 && syn_pos_at(d, (#[trigger] synset_ids@[jj])@, x) by {
                if contains_str(w.pos@, x) {
                    if contains_str(wprev.pos@, x) {
                        let jj = choose|jj: int|
                            0 <= jj < si && syn_pos_at(d, (#[trigger] synset_ids@[jj])@, x);
                        assert(syn_pos_at(d, synset_ids@[jj]@, x));
                    } else {
                        assert(synset_ids@[si as int] == synset_ids@[si as int]);
                    }
                }
                if exists|jj: int|
                    0 <= jj < si + 1 && syn_pos_at(d, (#[trigger] synset_ids@[jj])@, x) {
                    let jj = choose|jj: int|
                        0 <= jj < si + 1 && syn_pos_at(d, (#[trigger] synset_ids@[jj])@, x);
                    if jj < si {
                        assert(contains_str(wprev.pos@, x));
                    }
                    assert(contains_str(w.pos@, x));
                }
            }
            assert forall|x: Seq<char>|
                #[trigger] contains_str(w.examples@, x) == exists|jj: int|
                    0 <= jj < si + 1 && syn_example_at(d, (#[trigger] synset_ids@[jj])@, x) by {
                if contains_str(w.examples@, x) {
                    if contains_str(wprev.examples@, x) {
                        let jj = choose|jj: int|
                            0 <= jj < si && syn_example_at(d, (#[trigger] synset_ids@[jj])@, x);
                        assert(syn_example_at(d, synset_ids@[jj]@, x));
                    } else {
                        assert(synset_ids@[si as int] == synset_ids@[si as int]);
                    }
                }
                if exists|jj: int|
                    0 <= jj < si + 1 && syn_example_at(d, (#[trigger] synset_ids@[jj])@, x) {
                    let jj = choose|jj: int|
                        0 <= jj < si + 1 && syn_example_at(d, (#[trigger] synset_ids@[jj])@, x);
                    if jj < si {
                        assert(contains_str(wprev.examples@, x));
                    }
                    assert(contains_str(w.examples@, x));
                }
            }
            assert forall|b: RelationType, x: Seq<char>|
                #[trigger] contains_str(bucket_sel(w, b), x) == exists|jj: int|
                    0 <= jj < si + 1 && bucket_at(d, lem, (#[trigger] synset_ids@[jj])@, b, x) by {
                if contains_str(bucket_sel(w, b), x) {
                    if contains_str(bucket_sel(wprev, b), x) {
                        let jj = choose|jj: int|
                            0 <= jj < si && bucket_at(d, lem, (#[trigger] synset_ids@[jj])@, b, x);
                        assert(bucket_at(d, lem, synset_ids@[jj]@, b, x));
                    } else {
                        assert(synset_ids@[si as int] == synset_ids@[si as int]);
                    }
                }
                if exists|jj: int|
                    0 <= jj < si + 1 && bucket_at(d, lem, (#[trigger] synset_ids@[jj])@, b, x) {
                    let jj = choose|jj: int|
                        0 <= jj < si + 1 && bucket_at(d, lem, (#[trigger] synset_ids@[jj])@, b, x);
                    if jj < si {
                        assert(contains_str(bucket_sel(wprev, b), x));
                    }
                    assert(contains_str(bucket_sel(w, b), x));
                }
            }
        }
        si = si + 1;
    }
    let ghost wsyn = w;
    process_sense_relations(lemma, &mut w, data, s2l);
    proof {
        let n = synset_ids@.len() as int;
        // translate synset-id prefixes into the lemma's synset set
        assert forall|x: Seq<char>|
            #[trigger] contains_str(w.definitions@, x) == in_definitions(d, lem, x) by {
            if contains_str(w.definitions@, x) {
                let jj = choose|jj: int|
                    0 <= jj < n && syn_def_at(d, (#[trigger] synset_ids@[jj])@, x);
                assert(contains_str(synset_ids@, synset_ids@[jj]@)) by {
                    assert(synset_ids@[jj]@ == synset_ids@[jj]@);
                }
                assert(is_lemma_synset(d, lem, synset_ids@[jj]@));
            }
            if in_definitions(d, lem, x) {
                let k = choose|k: Seq<char>|
                    #[trigger] is_lemma_synset(d, lem, k) && syn_def_at(d, k, x);
                assert(contains_str(synset_ids@, k));
                let jj = choose|jj: int| 0 <= jj < n && (#[trigger] synset_ids@[jj])@ == k;
                assert(syn_def_at(d, synset_ids@[jj]@, x));
                assert(contains_str(w.definitions@, x));
            }
        }
        assert forall|x: Seq<char>| #[trigger] contains_str(w.pos@, x) == in_pos(d, lem, x) by {
            if contains_str(w.pos@, x) {
                let jj = choose|jj: int|
                    0 <= jj < n && syn_pos_at(d, (#[trigger] synset_ids@[jj])@, x);
                assert(contains_str(synset_ids@, synset_ids@[jj]@)) by {
                    assert(synset_ids@[jj]@ == synset_ids@[jj]@);
                }
                assert(is_lemma_synset(d, lem, synset_ids@[jj]@));
            }
            if in_pos(d, lem, x) {
                let k = choose|k: Seq<char>|
                    #[trigger] is_lemma_synset(d, lem, k) && syn_pos_at(d, k, x);
                assert(contains_str(synset_ids@, k));
                let jj = choose|jj: int| 0 <= jj < n && (#[trigger] synset_ids@[jj])@ == k;
                assert(syn_pos_at(d, synset_ids@[jj]@, x));
                assert(contains_str(w.pos@, x));
            }
        }
        assert forall|x: Seq<char>|
            #[trigger] contains_str(w.examples@, x) == in_examples(d, lem, x) by {
            if contains_str(w.examples@, x) && contains_str(wsyn.examples@, x) {
                let jj = choose|jj: int|
                    0 <= jj < n && syn_example_at(d, (#[trigger] synset_ids@[jj])@, x);
                assert(contains_str(synset_ids@, synset_ids@[jj]@)) by {
                    assert(synset_ids@[jj]@ == synset_ids@[jj]@);
                }
                assert(is_lemma_synset(d, lem, synset_ids@[jj]@));
            }
            if in_examples(d, lem, x) && !sense_examples_contrib(d, lem, x) {
                let k = choose|k: Seq<char>|
                    #[trigger] is_lemma_synset(d, lem, k) && syn_example_at(d, k, x);
                assert(contains_str(synset_ids@, k));
                let jj = choose|jj: int| 0 <= jj < n && (#[trigger] synset_ids@[jj])@ == k;
                assert(syn_example_at(d, synset_ids@[jj]@, x));
                assert(contains_str(wsyn.examples@, x));
            }
        }
        assert forall|b: RelationType, x: Seq<char>|
            #[trigger] contains_str(bucket_sel(w, b), x) == in_bucket(d, lem, b, x) by {
            if contains_str(bucket_sel(w, b), x) && contains_str(bucket_sel(wsyn, b), x) {
                let jj = choose|jj: int|
                    0 <= jj < n && bucket_at(d, lem, (#[trigger] synset_ids@[jj])@, b, x);
                assert(contains_str(synset_ids@, synset_ids@[jj]@)) by {
                    assert(synset_ids@[jj]@ == synset_ids@[jj]@);
                }
                assert(is_lemma_synset(d, lem, synset_ids@[jj]@));
            }
            if in_bucket(d, lem, b, x) && !sense_bucket_contrib(d, lem, b, x) {
                let k = choose|k: Seq<char>|
                    #[trigger] is_lemma_synset(d, lem, k) && bucket_at(d, lem, k, b, x);
                assert(contains_str(synset_ids@, k));
                let jj = choose|jj: int| 0 <= jj < n && (#[trigger] synset_ids@[jj])@ == k;
                assert(bucket_at(d, lem, synset_ids@[jj]@, b, x));
                assert(contains_str(bucket_sel(wsyn, b), x));
            }
        }
    }
    let ghost wall = w;
    crate::text::deduplicate(&mut w.definitions);
    crate::text::deduplicate(&mut w.pos);
    crate::text::deduplicate(&mut w.examples);
    crate::text::deduplicate(&mut w.synonyms);
    crate::text::deduplicate(&mut w.antonyms);
    crate::text::deduplicate(&mut w.broader_terms);
    crate::text::deduplicate(&mut w.narrower_terms);
    crate::text::deduplicate(&mut w.related_terms);
    proof {
        assert(bucket_sel(wall, RelationType::Synonym) == wall.synonyms@);
        assert forall|b: RelationType| crate::text::strictly_sorted(#[trigger] bucket_sel(w, b))
            by {
            match b {
                RelationType::Synonym => assert(bucket_sel(w, b) == w.synonyms@),
                RelationType::Antonym => assert(bucket_sel(w, b) == w.antonyms@),
                RelationType::BroaderTerm => assert(bucket_sel(w, b) == w.broader_terms@),
                RelationType::NarrowerTerm => assert(bucket_sel(w, b) == w.narrower_terms@),
                RelationType::RelatedTerm => assert(bucket_sel(w, b) == w.related_terms@),
            }
        }
        assert forall|b: RelationType, x: Seq<char>|
            #[trigger] contains_str(bucket_sel(w, b), x) == in_bucket(d, lem, b, x) by {
            match b {
                RelationType::Synonym => assert(contains_str(w.synonyms@, x) == contains_str(
                    wall.synonyms@,
                    x,
                )),
                RelationType::Antonym => assert(contains_str(w.antonyms@, x) == contains_str(
                    wall.antonyms@,
                    x,
                )),
                RelationType::BroaderTerm => assert(contains_str(w.broader_terms@, x)
                    == contains_str(wall.broader_terms@, x)),
                RelationType::NarrowerTerm => assert(contains_str(w.narrower_terms@, x)
                    == contains_str(wall.narrower_terms@, x)),
                RelationType::RelatedTerm => assert(contains_str(w.related_terms@, x)
                    == contains_str(wall.related_terms@, x)),
            }
            assert(contains_str(bucket_sel(wall, b), x) == in_bucket(d, lem, b, x));
        }
        assert(w.word@ == lem);
        assert(w.id@ == word_id_of(w.word@));
    }
    w
}

/// Some document in the collection is for lemma `l`.
pub open spec fn has_word(ws: Seq<MeiliWord>, l: Seq<char>) -> bool {
    exists|i: int| 0 <= i < ws.len() && (#[trigger] ws[i]).word@ == l
}

/// The lemma belongs to at least one synset, so it gets a document.
pub open spec fn lemma_in_domain(data: WordNetData, l: Seq<char>) -> bool {
    exists|k: Seq<char>| #[trigger] is_lemma_synset(data, l, k)
}

/// Composes the whole document collection: one document per usable lemma,
/// sorted by word.
pub fn transform_to_meilisearch(data: &WordNetData) -> (words: Vec<MeiliWord>)
    ensures
        forall|i: int| 0 <= i < words@.len() ==> doc_valid(*data, #[trigger] words@[i]),
        forall|i: int, j: int|
            0 <= i < j < words@.len() ==> crate::text::lex_lt(words@[i].word@, words@[j].word@),
        forall|l: Seq<char>| #[trigger] has_word(words@, l) == lemma_in_domain(*data, l),
{
    let ghost d = *data;
    let s2l = crate::resolve::build_sense_to_lemma(&data.lexical_entries);
    let syn_map = crate::resolve::build_synset_to_lemmas(data, &s2l);
    let l2s = crate::resolve::build_lemma_to_synsets(data, &syn_map);
    let mut keys: Vec<String> = Vec::new();
    let mut p: usize = 0;
    while p < l2s.len()
        invariant
            p <= l2s.len(),
            forall|l: Seq<char>|
                #[trigger] contains_str(keys@, l) == exists|pp: int|
                    0 <= pp < p && (#[trigger] l2s@[pp]).0@ == l,
        decreases l2s.len() - p,
    {
        let ghost keys0 = keys@;
        keys.push(l2s[p].0.clone());
        proof {
            assert forall|l: Seq<char>|
                #[trigger] contains_str(keys@, l) == exists|pp: int|
                    0 <= pp < p + 1 && (#[trigger] l2s@[pp]).0@ == l by {
                crate::text::lemma_contains_push(keys0, keys@.last(), l);
                if contains_str(keys@, l) && !contains_str(keys0, l) {
                    assert(l2s@[p as int] == l2s@[p as int]);
                }
                if exists|pp: int| 0 <= pp < p + 1 && (#[trigger] l2s@[pp]).0@ == l {
                    let pp = choose|pp: int| 0 <= pp < p + 1 && (#[trigger] l2s@[pp]).0@ == l;
                    if pp < p {
                        assert(contains_str(keys0, l));
                    }
                    assert(contains_str(keys@, l));
                }
            }
        }
        p = p + 1;
    }
    proof {
        assert forall|l: Seq<char>| #[trigger] contains_str(keys@, l) == has_key(l2s@, l) by {
            if contains_str(keys@, l) {
                let pp = choose|pp: int| 0 <= pp < l2s@.len() && (#[trigger] l2s@[pp]).0@ == l;
                assert(has_key(l2s@, l));
            }
            if has_key(l2s@, l) {
                let pp = choose|pp: int| 0 <= pp < l2s@.len() && (#[trigger] l2s@[pp]).0@ == l;
                assert(contains_str(keys@, l));
            }
        }
    }
    crate::text::deduplicate(&mut keys);
    let mut words: Vec<MeiliWord> = Vec::new();
    let mut ki: usize = 0;
    while ki < keys.len()
        invariant
            ki <= keys.len(),
            d == *data,
            words@.len() == ki,
            pairs_view(s2l@) == sense_bindings(data.lexical_entries@),
            unique_keys(syn_map@),
            forall|k: Seq<char>, x: Seq<char>|
                #[trigger] contains_group(syn_map@, k, x) == is_member_lemma(d, k, x),
            unique_keys(l2s@),
            crate::resolve::nonempty_values(l2s@),
            forall|l: Seq<char>, k: Seq<char>|
                #[trigger] contains_group(l2s@, l, k) == is_lemma_synset(d, l, k),
            forall|l: Seq<char>| #[trigger] contains_str(keys@, l) == has_key(l2s@, l),
            crate::text::strictly_sorted(keys@),
            forall|ii: int|
                0 <= ii < ki ==> doc_valid(d, #[trigger] words@[ii]) && words@[ii].word@
                    == keys@[ii]@,
        decreases keys.len() - ki,
    {
        let ghost words0 = words@;
        match crate::resolve::lookup_group(&l2s, keys[ki].as_str()) {
            Some(ids) => {
                let w = build_word(data, &syn_map, &s2l, keys[ki].as_str(), ids);
                words.push(w);
            },
            None => {
                proof {
                    assert(contains_str(keys@, keys@[ki as int]@)) by {
                        assert(keys@[ki as int]@ == keys@[ki as int]@);
                    }
                    assert(false);
                }
            },
        }
        ki = ki + 1;
    }
    proof {
        crate::text::lemma_strictly_sorted_distinct(keys@);
        assert forall|l: Seq<char>| #[trigger] has_word(words@, l) == lemma_in_domain(d, l) by {
            if has_word(words@, l) {
                let i = choose|i: int| 0 <= i < words@.len() && (#[trigger] words@[i]).word@ == l;
                assert(contains_str(keys@, l)) by {
                    assert(keys@[i]@ == l);
                }
                assert(has_key(l2s@, l));
                let pp = choose|pp: int| 0 <= pp < l2s@.len() && (#[trigger] l2s@[pp]).0@ == l;
                let k = l2s@[pp].1@[0]@;
                assert(contains_str(l2s@[pp].1@, k)) by {
                    assert(l2s@[pp].1@[0]@ == k);
                }
                assert(contains_group(l2s@, l, k));
                assert(is_lemma_synset(d, l, k));
            }
            if lemma_in_domain(d, l) {
                let k = choose|k: Seq<char>| #[trigger] is_lemma_synset(d, l, k);
                assert(contains_group(l2s@, l, k));
                let pp = choose|pp: int|
                    0 <= pp < l2s@.len() && (#[trigger] l2s@[pp]).0@ == l && contains_str(
                        l2s@[pp].1@,
                        k,
                    );
                assert(has_key(l2s@, l));
                assert(contains_str(keys@, l));
                let i = choose|i: int| 0 <= i < keys@.len() && (#[trigger] keys@[i])@ == l;
                assert(words@[i].word@ == l);
                assert(has_word(words@, l));
            }
        }
    }
    words
}

} // verus!
