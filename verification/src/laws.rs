//! The invariants every generated document obeys, stated and proved over the
//! same specifications the transform's contract uses.
use vstd::prelude::*;
use crate::api::word::RelationType;
use crate::models::{MeiliWord, Synset, WordNetData, find_sense, find_synset};
use crate::resolve::{is_lemma_synset, is_member_lemma, lemma_sense_lemma_valid, sense_lemma};
use crate::text::{contains_str, lemma_trim_len, lower_of, trim_spec};
use crate::transform::{
    bucket_at, bucket_sel, doc_valid, in_bucket, in_definitions, in_examples, in_pos,
    rel_contrib_upto, sense_bucket, sense_bucket_contrib, sense_contrib_upto, sense_rel_upto,
    synset_bucket,
};

verus! {

/// No relation list of a document names the document's own word, even up to
/// case: every contribution to a relation list carries that exclusion.
pub proof fn lemma_self_exclusion(
    data: WordNetData,
    w: MeiliWord,
    b: RelationType,
    x: Seq<char>,
)
    requires
        doc_valid(data, w),
        contains_str(bucket_sel(w, b), x),
    ensures
        lower_of(x) != lower_of(w.word@),
{
    let l = w.word@;
    assert(in_bucket(data, l, b, x));
    if exists|k: Seq<char>| #[trigger] is_lemma_synset(data, l, k) && bucket_at(data, l, k, b, x) {
        let k = choose|k: Seq<char>|
            #[trigger] is_lemma_synset(data, l, k) && bucket_at(data, l, k, b, x);
        match find_synset(data.synsets@, k) {
            Some(sy) => {
                if rel_contrib_upto(data, l, sy, sy.relations@.len() as int, b, x) {
                    let ri = choose|ri: int|
                        #![trigger sy.relations@[ri]]
                        0 <= ri < sy.relations@.len() && synset_bucket(
                            sy.relations@[ri].rel_type@,
                        ) == b && is_member_lemma(data, sy.relations@[ri].target@, x) && lower_of(
                            x,
                        ) != lower_of(l);
                }
            },
            None => {
                assert(false);
            },
        }
    } else {
        assert(sense_bucket_contrib(data, l, b, x));
        let i = choose|i: int|
            0 <= i < data.lexical_entries@.len() && #[trigger] crate::transform::entry_rel_upto(
                data,
                l,
                i,
                data.lexical_entries@[i].senses@.len() as int,
                b,
                x,
            );
        let j = choose|j: int|
            #![trigger data.lexical_entries@[i].senses@[j]]
            0 <= j < data.lexical_entries@[i].senses@.len() && match find_sense(
                data.senses@,
                data.lexical_entries@[i].senses@[j]@,
            ) {
                Some(s) => sense_rel_upto(data, l, s, s.relations@.len() as int, b, x),
                None => false,
            };
        match find_sense(data.senses@, data.lexical_entries@[i].senses@[j]@) {
            Some(s) => {
                let ri = choose|ri: int|
                    #![trigger s.relations@[ri]]
                    0 <= ri < s.relations@.len() && sense_bucket(s.relations@[ri].rel_type@) == b
                        && sense_lemma(data.lexical_entries@, s.relations@[ri].target@) == Some(x)
                        && lower_of(x) != lower_of(l);
            },
            None => {
                assert(false);
            },
        }
    }
}

/// A lemma that belongs to a synset went through the lemma filter: it is
/// non-blank, at most 100 characters, and made of permitted characters.
pub proof fn lemma_member_lemma_valid(data: WordNetData, k: Seq<char>, x: Seq<char>)
    requires
        is_member_lemma(data, k, x),
    ensures
        crate::transform::valid_lemma(x),
{
    if crate::resolve::member_via_sense_upto(data, data.senses@.len() as int, k, x) {
        let i = choose|i: int|
            #![trigger data.senses@[i]]
            0 <= i < data.senses@.len() && data.senses@[i].synset_id@ == k && sense_lemma(
                data.lexical_entries@,
                data.senses@[i].id@,
            ) == Some(x);
        lemma_sense_lemma_valid(data.lexical_entries@, data.senses@[i].id@);
    } else {
        let i = choose|i: int|
            0 <= i < data.synsets@.len() && #[trigger] crate::resolve::member_in_synset_upto(
                data,
                i,
                data.synsets@[i].members@.len() as int,
                k,
                x,
            );
        let mm = choose|mm: int|
            #![trigger data.synsets@[i].members@[mm]]
            0 <= mm < data.synsets@[i].members@.len() && sense_lemma(
                data.lexical_entries@,
                data.synsets@[i].members@[mm]@,
            ) == Some(x);
        lemma_sense_lemma_valid(data.lexical_entries@, data.synsets@[i].members@[mm]@);
    }
}

/// Only lemmas that pass the filter get a document at all: a discarded lemma
/// is neither a document's word nor reachable from any synset.
pub proof fn lemma_document_words_valid(data: WordNetData, l: Seq<char>, k: Seq<char>)
    requires
        is_lemma_synset(data, l, k),
    ensures
        crate::transform::valid_lemma(l),
{
    if crate::resolve::lemma_synset_via_entry_upto(
        data,
        data.lexical_entries@.len() as int,
        l,
        k,
    ) {
        let i = choose|i: int|
            0 <= i < data.lexical_entries@.len() && #[trigger] crate::resolve::entry_synset_upto(
                data,
                i,
                data.lexical_entries@[i].senses@.len() as int,
                l,
                k,
            );
    } else {
        lemma_member_lemma_valid(data, k, l);
    }
}

/// A lemma that belongs to a synset is never the empty string.
proof fn lemma_member_lemma_nonempty(data: WordNetData, k: Seq<char>, x: Seq<char>)
    requires
        is_member_lemma(data, k, x),
    ensures
        x.len() > 0,
{
    lemma_member_lemma_valid(data, k, x);
    lemma_trim_len(x);
}

/// No list field of a document holds an empty string.
pub proof fn lemma_no_empty_strings(data: WordNetData, w: MeiliWord)
    requires
        doc_valid(data, w),
    ensures
        forall|x: Seq<char>| #[trigger] contains_str(w.definitions@, x) ==> x.len() > 0,
        forall|x: Seq<char>| #[trigger] contains_str(w.pos@, x) ==> x.len() > 0,
        forall|x: Seq<char>| #[trigger] contains_str(w.examples@, x) ==> x.len() > 0,
        forall|b: RelationType, x: Seq<char>|
            #[trigger] contains_str(bucket_sel(w, b), x) ==> x.len() > 0,
{
    let l = w.word@;
    assert forall|x: Seq<char>| #[trigger] contains_str(w.definitions@, x) implies x.len() > 0 by {
        assert(in_definitions(data, l, x));
        let k = choose|k: Seq<char>|
            #[trigger] is_lemma_synset(data, l, k) && crate::transform::syn_def_at(data, k, x);
    }
    assert forall|x: Seq<char>| #[trigger] contains_str(w.pos@, x) implies x.len() > 0 by {
        assert(in_pos(data, l, x));
    }
    assert forall|x: Seq<char>| #[trigger] contains_str(w.examples@, x) implies x.len() > 0 by {
        assert(in_examples(data, l, x));
        if exists|k: Seq<char>|
            #[trigger] is_lemma_synset(data, l, k) && crate::transform::syn_example_at(
                data,
                k,
                x,
            ) {
        } else {
            let i = choose|i: int|
                0 <= i < data.lexical_entries@.len() && #[trigger] crate::transform::entry_ex_upto(
                    data,
                    l,
                    i,
                    data.lexical_entries@[i].senses@.len() as int,
                    x,
                );
            let j = choose|j: int|
                #![trigger data.lexical_entries@[i].senses@[j]]
                0 <= j < data.lexical_entries@[i].senses@.len() && match find_sense(
                    data.senses@,
                    data.lexical_entries@[i].senses@[j]@,
                ) {
                    Some(s) => crate::transform::sense_example_upto(
                        s,
                        s.examples@.len() as int,
                        x,
                    ),
                    None => false,
                };
            match find_sense(data.senses@, data.lexical_entries@[i].senses@[j]@) {
                Some(s) => {
                    let e = choose|e: int|
                        #![trigger s.examples@[e]]
                        0 <= e < s.examples@.len() && trim_spec(s.examples@[e]@).len() > 0 && x
                            == s.examples@[e]@;
                    lemma_trim_len(x);
                },
                None => {
                    assert(false);
                },
            }
        }
    }
    assert forall|b: RelationType, x: Seq<char>|
        #[trigger] contains_str(bucket_sel(w, b), x) implies x.len() > 0 by {
        assert(in_bucket(data, l, b, x));
        if exists|k: Seq<char>|
            #[trigger] is_lemma_synset(data, l, k) && bucket_at(data, l, k, b, x) {
            let k = choose|k: Seq<char>|
                #[trigger] is_lemma_synset(data, l, k) && bucket_at(data, l, k, b, x);
            match find_synset(data.synsets@, k) {
                Some(sy) => {
                    if b == RelationType::Synonym && is_member_lemma(data, k, x) && lower_of(x)
                        != lower_of(l) {
                        lemma_member_lemma_nonempty(data, k, x);
                    } else {
                        let ri = choose|ri: int|
                            #![trigger sy.relations@[ri]]
                            0 <= ri < sy.relations@.len() && synset_bucket(
                                sy.relations@[ri].rel_type@,
                            ) == b && is_member_lemma(data, sy.relations@[ri].target@, x)
                                && lower_of(x) != lower_of(l);
                        lemma_member_lemma_nonempty(data, sy.relations@[ri].target@, x);
                    }
                },
                None => {
                    assert(false);
                },
            }
        } else {
            let i = choose|i: int|
                0 <= i < data.lexical_entries@.len()
                    && #[trigger] crate::transform::entry_rel_upto(
                    data,
                    l,
                    i,
                    data.lexical_entries@[i].senses@.len() as int,
                    b,
                    x,
                );
            let j = choose|j: int|
                #![trigger data.lexical_entries@[i].senses@[j]]
                0 <= j < data.lexical_entries@[i].senses@.len() && match find_sense(
                    data.senses@,
                    data.lexical_entries@[i].senses@[j]@,
                ) {
                    Some(s) => sense_rel_upto(data, l, s, s.relations@.len() as int, b, x),
                    None => false,
                };
            match find_sense(data.senses@, data.lexical_entries@[i].senses@[j]@) {
                Some(s) => {
                    let ri = choose|ri: int|
                        #![trigger s.relations@[ri]]
                        0 <= ri < s.relations@.len() && sense_bucket(s.relations@[ri].rel_type@)
                            == b && sense_lemma(data.lexical_entries@, s.relations@[ri].target@)
                            == Some(x) && lower_of(x) != lower_of(l);
                    lemma_sense_lemma_valid(data.lexical_entries@, s.relations@[ri].target@);
                    lemma_trim_len(x);
                },
                None => {
                    assert(false);
                },
            }
        }
    }
}

/// Every synset-level relation edge whose target resolves to a non-self lemma
/// is represented in the owning lemma's document, in the one category its tag
/// dictates.
pub proof fn lemma_synset_edge_conserved(
    data: WordNetData,
    l: Seq<char>,
    k: Seq<char>,
    sy: Synset,
    ri: int,
    x: Seq<char>,
)
    requires
        is_lemma_synset(data, l, k),
        find_synset(data.synsets@, k) == Some(sy),
        0 <= ri < sy.relations@.len(),
        is_member_lemma(data, sy.relations@[ri].target@, x),
        lower_of(x) != lower_of(l),
    ensures
        in_bucket(data, l, synset_bucket(sy.relations@[ri].rel_type@), x),
{
    let b = synset_bucket(sy.relations@[ri].rel_type@);
    assert(sy.relations@[ri] == sy.relations@[ri]);
    assert(rel_contrib_upto(data, l, sy, sy.relations@.len() as int, b, x));
    assert(bucket_at(data, l, k, b, x));
}

/// Every sense-level relation edge whose target resolves to a non-self lemma
/// is represented in the owning lemma's document, in the one category its tag
/// dictates.
pub proof fn lemma_sense_edge_conserved(
    data: WordNetData,
    l: Seq<char>,
    i: int,
    j: int,
    s: crate::models::Sense,
    ri: int,
    x: Seq<char>,
)
    requires
        0 <= i < data.lexical_entries@.len(),
        lower_of(data.lexical_entries@[i].lemma.written_form@) == lower_of(l),
        0 <= j < data.lexical_entries@[i].senses@.len(),
        find_sense(data.senses@, data.lexical_entries@[i].senses@[j]@) == Some(s),
        0 <= ri < s.relations@.len(),
        sense_lemma(data.lexical_entries@, s.relations@[ri].target@) == Some(x),
        lower_of(x) != lower_of(l),
    ensures
        in_bucket(data, l, sense_bucket(s.relations@[ri].rel_type@), x),
{
    let b = sense_bucket(s.relations@[ri].rel_type@);
    assert(s.relations@[ri] == s.relations@[ri]);
    assert(sense_rel_upto(data, l, s, s.relations@.len() as int, b, x));
    assert(data.lexical_entries@[i].senses@[j] == data.lexical_entries@[i].senses@[j]);
    assert(crate::transform::entry_rel_upto(
        data,
        l,
        i,
        data.lexical_entries@[i].senses@.len() as int,
        b,
        x,
    ));
    assert(sense_contrib_upto(data, l, data.lexical_entries@.len() as int, b, x));
}

/// In a source whose unprefixed definitions never open with a parenthesis,
/// every definition string either does not start with `(` or starts with
/// `(<pos>) ` for a tag `<pos>` of the document's own part-of-speech set.
pub proof fn lemma_definition_prefix(data: WordNetData, w: MeiliWord, x: Seq<char>)
    requires
        doc_valid(data, w),
        contains_str(w.definitions@, x),
        forall|i: int|
            0 <= i < data.synsets@.len() ==> match (#[trigger] data.synsets@[i]).definition {
                Some(dd) => data.synsets@[i].part_of_speech@.len() == 0 && trim_spec(dd@).len() > 0
                    ==> trim_spec(dd@)[0] != '(',
                None => true,
            },
    ensures
        x.len() > 0,
        x[0] == '(' ==> exists|p: Seq<char>|
            #[trigger] contains_str(w.pos@, p) && x.len() > p.len() + 3 && x.take(p.len() + 3 as int)
                == seq!['('] + p + seq![')', ' '],
{
    let l = w.word@;
    assert(in_definitions(data, l, x));
    let k = choose|k: Seq<char>|
        #[trigger] is_lemma_synset(data, l, k) && crate::transform::syn_def_at(data, k, x);
    match find_synset(data.synsets@, k) {
        Some(sy) => {
            match sy.definition {
                Some(dd) => {
                    if sy.part_of_speech@.len() > 0 {
                        let p = sy.part_of_speech@;
                        assert(crate::transform::syn_pos_at(data, k, p));
                        assert(in_pos(data, l, p));
                        assert(contains_str(w.pos@, p));
                        assert(x =~= seq!['('] + p + seq![')', ' '] + trim_spec(dd@));
                        assert(x.take(p.len() + 3 as int) =~= seq!['('] + p + seq![')', ' ']);
                        assert(x.len() > p.len() + 3);
                    } else {
                        crate::models::lemma_find_synset_member(data.synsets@, k);
                        let i = choose|i: int|
                            0 <= i < data.synsets@.len() && data.synsets@[i] == sy;
                        assert(x == trim_spec(dd@));
                        assert(x[0] != '(');
                    }
                },
                None => {
                    assert(false);
                },
            }
        },
        None => {
            assert(false);
        },
    }
}

} // verus!
