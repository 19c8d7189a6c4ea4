//! The derived maps of the importer: sense id to lemma, synset id to member
//! lemmas, and lemma to the synsets it belongs to. All three are association
//! vectors; their contracts pin down exactly which bindings they hold.
use vstd::prelude::*;
use crate::models::{LexicalEntry, WordNetData, find_sense};
use crate::text::{contains_str, str_eq};
use crate::transform::valid_lemma;

verus! {

/// The character-level view of a pair vector.
pub open spec fn pairs_view(s: Seq<(String, String)>) -> Seq<(Seq<char>, Seq<char>)> {
    Seq::new(s.len(), |i: int| (s[i].0@, s[i].1@))
}

/// The sense-to-lemma bindings one lexical entry contributes: one binding per
/// sense, and none at all when the lemma is not usable.
pub open spec fn entry_bindings(e: LexicalEntry) -> Seq<(Seq<char>, Seq<char>)> {
    if valid_lemma(e.lemma.written_form@) {
        Seq::new(e.senses@.len(), |i: int| (e.senses@[i]@, e.lemma.written_form@))
    } else {
        Seq::empty()
    }
}

/// All sense-to-lemma bindings, in entry order.
pub open spec fn sense_bindings(entries: Seq<LexicalEntry>) -> Seq<(Seq<char>, Seq<char>)>
    decreases entries.len(),
{
    if entries.len() == 0 {
        Seq::empty()
    } else {
        sense_bindings(entries.drop_last()) + entry_bindings(entries.last())
    }
}

/// The value of the last binding with this key: the lookup a keyed insert
/// sequence resolves to, where a later binding wins.
pub open spec fn binding_of(l: Seq<(Seq<char>, Seq<char>)>, k: Seq<char>) -> Option<Seq<char>>
    decreases l.len(),
{
    if l.len() == 0 {
        None
    } else if l.last().0 == k {
        Some(l.last().1)
    } else {
        binding_of(l.drop_last(), k)
    }
}

/// The lemma a sense id resolves to, if any.
pub open spec fn sense_lemma(entries: Seq<LexicalEntry>, sid: Seq<char>) -> Option<Seq<char>> {
    binding_of(sense_bindings(entries), sid)
}

proof fn lemma_bindings_values_valid(entries: Seq<LexicalEntry>)
    ensures
        forall|i: int|
            0 <= i < sense_bindings(entries).len() ==> valid_lemma(
                (#[trigger] sense_bindings(entries)[i]).1,
            ),
    decreases entries.len(),
{
    if entries.len() > 0 {
        lemma_bindings_values_valid(entries.drop_last());
        assert forall|i: int| 0 <= i < sense_bindings(entries).len() implies valid_lemma(
            (#[trigger] sense_bindings(entries)[i]).1,
        ) by {
            let pre = sense_bindings(entries.drop_last());
            if i < pre.len() {
                assert(sense_bindings(entries)[i] == pre[i]);
            } else {
                assert(sense_bindings(entries)[i] == entry_bindings(entries.last())[i
                    - pre.len()]);
            }
        }
    }
}

proof fn lemma_binding_of_member(l: Seq<(Seq<char>, Seq<char>)>, k: Seq<char>)
    ensures
        binding_of(l, k) matches Some(v) ==> exists|i: int|
            0 <= i < l.len() && (#[trigger] l[i]).0 == k && l[i].1 == v,
    decreases l.len(),
{
    if l.len() > 0 {
        if l.last().0 == k {
            assert(l[l.len() - 1] == l.last());
        } else {
            lemma_binding_of_member(l.drop_last(), k);
            match binding_of(l.drop_last(), k) {
                Some(v) => {
                    let i = choose|i: int|
                        0 <= i < l.drop_last().len() && (#[trigger] l.drop_last()[i]).0 == k
                            && l.drop_last()[i].1 == v;
                    assert(l[i] == l.drop_last()[i]);
                },
                None => {
                },
            }
        }
    }
}

/// A sense id only ever resolves to a usable lemma.
pub proof fn lemma_sense_lemma_valid(entries: Seq<LexicalEntry>, sid: Seq<char>)
    ensures
        sense_lemma(entries, sid) matches Some(x) ==> valid_lemma(x),
{
    lemma_bindings_values_valid(entries);
    lemma_binding_of_member(sense_bindings(entries), sid);
}

/// Builds the sense-to-lemma binding list, one binding per sense of every
/// entry with a usable lemma.
pub fn build_sense_to_lemma(entries: &Vec<LexicalEntry>) -> (r: Vec<(String, String)>)
    ensures
        pairs_view(r@) == sense_bindings(entries@),
{
    let mut r: Vec<(String, String)> = Vec::new();
    let mut i: usize = 0;
    proof {
        assert(pairs_view(r@) =~= sense_bindings(entries@.take(0)));
    }
    while i < entries.len()
        invariant
            i <= entries.len(),
            pairs_view(r@) == sense_bindings(entries@.take(i as int)),
        decreases entries.len() - i,
    {
        proof {
            assert(entries@.take(i + 1 as int).drop_last() =~= entries@.take(i as int));
            assert(entries@.take(i + 1 as int).last() == entries@[i as int]);
        }
        let e = &entries[i];
        if crate::transform::lemma_accepted(e.lemma.written_form.as_str()) {
            let mut j: usize = 0;
            while j < e.senses.len()
                invariant
                    j <= e.senses.len(),
                    valid_lemma(e.lemma.written_form@),
                    pairs_view(r@) == sense_bindings(entries@.take(i as int)) + entry_bindings(
                        *e,
                    ).take(j as int),
                decreases e.senses.len() - j,
            {
                let ghost before = r@;
                r.push((e.senses[j].clone(), e.lemma.written_form.clone()));
                proof {
                    assert(pairs_view(r@) =~= pairs_view(before).push(
                        (e.senses@[j as int]@, e.lemma.written_form@),
                    ));
                    assert(entry_bindings(*e).take(j + 1 as int) =~= entry_bindings(*e).take(
                        j as int,
                    ).push(entry_bindings(*e)[j as int]));
                    assert(pairs_view(r@) =~= sense_bindings(entries@.take(i as int))
                        + entry_bindings(*e).take(j + 1 as int));
                }
                j = j + 1;
            }
            proof {
                assert(entry_bindings(*e).take(entry_bindings(*e).len() as int) =~= entry_bindings(
                    *e,
                ));
            }
        } else {
            proof {
                assert(pairs_view(r@) =~= sense_bindings(entries@.take(i as int)) + entry_bindings(
                    *e,
                ));
            }
        }
        i = i + 1;
    }
    proof {
        assert(entries@.take(entries@.len() as int) =~= entries@);
    }
    r
}

/// Looks a sense id up in the binding list; the last binding wins.
pub fn lookup_lemma<'a>(s2l: &'a Vec<(String, String)>, sid: &str) -> (r: Option<&'a String>)
    ensures
        match r {
            Some(l) => binding_of(pairs_view(s2l@), sid@) == Some(l@),
            None => binding_of(pairs_view(s2l@), sid@) is None,
        },
{
    let ghost pv = pairs_view(s2l@);
    let mut j: usize = s2l.len();
    proof {
        assert(pv.take(pv.len() as int) =~= pv);
    }
    loop
        invariant
            j <= s2l.len(),
            pv == pairs_view(s2l@),
            binding_of(pv, sid@) == binding_of(pv.take(j as int), sid@),
        decreases j,
    {
        if j == 0 {
            proof {
                assert(pv.take(0) =~= Seq::<(Seq<char>, Seq<char>)>::empty());
            }
            return None;
        }
        j = j - 1;
        proof {
            assert(pv.take(j + 1 as int).last() == pv[j as int]);
            assert(pv.take(j + 1 as int).drop_last() =~= pv.take(j as int));
        }
        if str_eq(s2l[j].0.as_str(), sid) {
            return Some(&s2l[j].1);
        }
    }
}

// ---------------------------------------------------------------------------
// Grouped association vectors: one key, many values
// ---------------------------------------------------------------------------
/// No two groups share a key.
pub open spec fn unique_keys(s: Seq<(String, Vec<String>)>) -> bool {
    forall|p: int, q: int| 0 <= p < q < s.len() ==> (#[trigger] s[p]).0@ != (#[trigger] s[q]).0@
}

/// Some group carries this key.
pub open spec fn has_key(s: Seq<(String, Vec<String>)>, k: Seq<char>) -> bool {
    exists|p: int| 0 <= p < s.len() && (#[trigger] s[p]).0@ == k
}

/// Every group holds at least one value.
pub open spec fn nonempty_values(s: Seq<(String, Vec<String>)>) -> bool {
    forall|p: int| 0 <= p < s.len() ==> (#[trigger] s[p]).1@.len() > 0
}

/// The group of key `k` holds the value `x`.
pub open spec fn contains_group(s: Seq<(String, Vec<String>)>, k: Seq<char>, x: Seq<char>) -> bool {
    exists|p: int| 0 <= p < s.len() && (#[trigger] s[p]).0@ == k && contains_str(s[p].1@, x)
}

/// Appends `v` to the group of key `k`, creating the group if it is new.
pub fn group_push(r: &mut Vec<(String, Vec<String>)>, k: &str, v: String)
    requires
        unique_keys(old(r)@),
        nonempty_values(old(r)@),
    ensures
        unique_keys(final(r)@),
        nonempty_values(final(r)@),
        forall|x: Seq<char>|
            #[trigger] contains_group(final(r)@, k@, x) == (contains_group(old(r)@, k@, x) || v@
                == x),
        forall|k2: Seq<char>, x: Seq<char>|
            k2 != k@ ==> #[trigger] contains_group(final(r)@, k2, x) == contains_group(
                old(r)@,
                k2,
                x,
            ),
        forall|k2: Seq<char>|
            #[trigger] has_key(final(r)@, k2) == (has_key(old(r)@, k2) || k2 == k@),
{
    let ghost orig = r@;
    let mut p: usize = 0;
    loop
        invariant
            p <= r.len(),
            orig == old(r)@,
            r@ == orig,
            unique_keys(orig),
            nonempty_values(orig),
            forall|q: int| 0 <= q < p ==> (#[trigger] orig[q]).0@ != k@,
        ensures
            p == r.len(),
            orig == old(r)@,
            r@ == orig,
            forall|q: int| 0 <= q < orig.len() ==> (#[trigger] orig[q]).0@ != k@,
        decreases r.len() - p,
    {
        if p >= r.len() {
            break;
        }
        if str_eq(r[p].0.as_str(), k) {
            let mut pair = r.remove(p);
            let ghost oldvals = pair.1@;
            pair.1.push(v);
            let ghost gpair = pair;
            r.insert(p, pair);
            proof {
                orig.remove(p as int).insert_ensures(p as int, gpair);
                orig.remove_ensures(p as int);
                assert(r@ =~= orig.update(p as int, gpair));
                assert(gpair.0@ == k@);
                assert(gpair.1@ == oldvals.push(v));
                assert forall|x: Seq<char>|
                    #[trigger] contains_group(r@, k@, x) == (contains_group(orig, k@, x) || v@
                        == x) by {
                    crate::text::lemma_contains_push(oldvals, v, x);
                    if contains_group(orig, k@, x) {
                        let q = choose|q: int|
                            0 <= q < orig.len() && (#[trigger] orig[q]).0@ == k@ && contains_str(
                                orig[q].1@,
                                x,
                            );
                        assert(q == p as int);
                        crate::text::lemma_contains_push(oldvals, v, x);
                        assert(contains_str(r@[p as int].1@, x));
                    }
                    if contains_group(r@, k@, x) {
                        let q = choose|q: int|
                            0 <= q < r@.len() && (#[trigger] r@[q]).0@ == k@ && contains_str(
                                r@[q].1@,
                                x,
                            );
                        assert(q == p as int);
                    }
                    if v@ == x {
                        assert(r@[p as int].0@ == k@ && contains_str(r@[p as int].1@, x));
                    }
                }
                assert forall|k2: Seq<char>, x: Seq<char>|
                    k2 != k@ implies #[trigger] contains_group(r@, k2, x) == contains_group(
                    orig,
                    k2,
                    x,
                ) by {
                    if contains_group(orig, k2, x) {
                        let q = choose|q: int|
                            0 <= q < orig.len() && (#[trigger] orig[q]).0@ == k2 && contains_str(
                                orig[q].1@,
                                x,
                            );
                        assert(q != p as int);
                        assert(r@[q].0@ == k2 && contains_str(r@[q].1@, x));
                    }
                    if contains_group(r@, k2, x) {
                        let q = choose|q: int|
                            0 <= q < r@.len() && (#[trigger] r@[q]).0@ == k2 && contains_str(
                                r@[q].1@,
                                x,
                            );
                        assert(q != p as int);
                        assert(orig[q].0@ == k2 && contains_str(orig[q].1@, x));
                    }
                }
                assert forall|k2: Seq<char>|
                    #[trigger] has_key(r@, k2) == (has_key(orig, k2) || k2 == k@) by {
                    if has_key(orig, k2) {
                        let q = choose|q: int| 0 <= q < orig.len() && (#[trigger] orig[q]).0@ == k2;
                        assert(r@[q].0@ == k2);
                    }
                    if k2 == k@ {
                        assert(r@[p as int].0@ == k2);
                    }
                    if has_key(r@, k2) {
                        let q = choose|q: int| 0 <= q < r@.len() && (#[trigger] r@[q]).0@ == k2;
                        assert(orig[q].0@ == k2 || q == p as int);
                    }
                }
            }
            return ;
        }
        p = p + 1;
    }
    let mut vs: Vec<String> = Vec::new();
    vs.push(v);
    let key = String::from_str(k);
    let pairkv = (key, vs);
    let ghost gkv = pairkv;
    r.push(pairkv);
    proof {
        assert(r@ =~= orig.push(gkv));
        assert(r@[orig.len() as int].0@ == k@);
        assert(r@[orig.len() as int].1@[0]@ == v@);
        assert forall|x: Seq<char>|
            #[trigger] contains_group(r@, k@, x) == (contains_group(orig, k@, x) || v@ == x) by {
            if contains_group(orig, k@, x) {
                let q = choose|q: int|
                    0 <= q < orig.len() && (#[trigger] orig[q]).0@ == k@ && contains_str(
                        orig[q].1@,
                        x,
                    );
                assert(false);
            }
            if v@ == x {
                assert(contains_str(r@[orig.len() as int].1@, x));
            }
            if contains_group(r@, k@, x) {
                let q = choose|q: int|
                    0 <= q < r@.len() && (#[trigger] r@[q]).0@ == k@ && contains_str(r@[q].1@, x);
                assert(q == orig.len() as int);
                let m = choose|m: int| 0 <= m < r@[q].1@.len() && r@[q].1@[m]@ == x;
                assert(m == 0);
            }
        }
        assert forall|k2: Seq<char>, x: Seq<char>|
            k2 != k@ implies #[trigger] contains_group(r@, k2, x) == contains_group(
            orig,
            k2,
            x,
        ) by {
            if contains_group(orig, k2, x) {
                let q = choose|q: int|
                    0 <= q < orig.len() && (#[trigger] orig[q]).0@ == k2 && contains_str(
                        orig[q].1@,
                        x,
                    );
                assert(r@[q].0@ == k2 && contains_str(r@[q].1@, x));
            }
            if contains_group(r@, k2, x) {
                let q = choose|q: int|
                    0 <= q < r@.len() && (#[trigger] r@[q]).0@ == k2 && contains_str(r@[q].1@, x);
                assert(q < orig.len());
            }
        }
        assert forall|k2: Seq<char>|
            #[trigger] has_key(r@, k2) == (has_key(orig, k2) || k2 == k@) by {
            if has_key(orig, k2) {
                let q = choose|q: int| 0 <= q < orig.len() && (#[trigger] orig[q]).0@ == k2;
                assert(r@[q].0@ == k2);
            }
            if k2 == k@ {
                assert(r@[orig.len() as int].0@ == k2);
            }
            if has_key(r@, k2) {
                let q = choose|q: int| 0 <= q < r@.len() && (#[trigger] r@[q]).0@ == k2;
                if q < orig.len() {
                    assert(orig[q].0@ == k2);
                }
            }
        }
    }
}

/// Looks a key up among the groups; with unique keys, the returned values are
/// exactly the key's group.
pub fn lookup_group<'a>(r: &'a Vec<(String, Vec<String>)>, k: &str) -> (res: Option<
    &'a Vec<String>,
>)
    requires
        unique_keys(r@),
    ensures
        match res {
            Some(vs) => has_key(r@, k@) && forall|x: Seq<char>|
                #[trigger] contains_str(vs@, x) == contains_group(r@, k@, x),
            None => !has_key(r@, k@),
        },
{
    let mut p: usize = 0;
    loop
        invariant
            p <= r.len(),
            unique_keys(r@),
            forall|q: int| 0 <= q < p ==> (#[trigger] r@[q]).0@ != k@,
        decreases r.len() - p,
    {
        if p >= r.len() {
            proof {
                if has_key(r@, k@) {
                    let q = choose|q: int| 0 <= q < r@.len() && (#[trigger] r@[q]).0@ == k@;
                    assert(false);
                }
            }
            return None;
        }
        if str_eq(r[p].0.as_str(), k) {
            proof {
                assert(has_key(r@, k@)) by {
                    assert(r@[p as int].0@ == k@);
                }
                assert forall|x: Seq<char>|
                    #[trigger] contains_str(r@[p as int].1@, x) == contains_group(r@, k@, x) by {
                    if contains_group(r@, k@, x) {
                        let q = choose|q: int|
                            0 <= q < r@.len() && (#[trigger] r@[q]).0@ == k@ && contains_str(
                                r@[q].1@,
                                x,
                            );
                        assert(q == p as int);
                    }
                    if contains_str(r@[p as int].1@, x) {
                        assert(r@[p as int].0@ == k@ && contains_str(r@[p as int].1@, x));
                    }
                }
            }
            return Some(&r[p].1);
        }
        p = p + 1;
    }
}

// ---------------------------------------------------------------------------
// Synset membership: which lemmas belong to a synset
// ---------------------------------------------------------------------------
/// Among the first `n` senses, some sense of this synset resolves to lemma
/// `x`.
pub open spec fn member_via_sense_upto(
    data: WordNetData,
    n: int,
    k: Seq<char>,
    x: Seq<char>,
) -> bool {
    exists|i: int|
        #![trigger data.senses@[i]]
        0 <= i < n && data.senses@[i].synset_id@ == k && sense_lemma(
            data.lexical_entries@,
            data.senses@[i].id@,
        ) == Some(x)
}

/// Synset record `i` carries key `k` and, among its first `m` listed member
/// sense ids, one resolves to lemma `x`.
pub open spec fn member_in_synset_upto(
    data: WordNetData,
    i: int,
    m: int,
    k: Seq<char>,
    x: Seq<char>,
) -> bool {
    &&& 0 <= i < data.synsets@.len()
    &&& data.synsets@[i].id@ == k
    &&& exists|mm: int|
        #![trigger data.synsets@[i].members@[mm]]
        0 <= mm < m && sense_lemma(data.lexical_entries@, data.synsets@[i].members@[mm]@) == Some(
            x,
        )
}

/// Among the first `n` synset records, one with key `k` lists a member that
/// resolves to lemma `x`.
pub open spec fn member_via_members_upto(
    data: WordNetData,
    n: int,
    k: Seq<char>,
    x: Seq<char>,
) -> bool {
    exists|i: int|
        0 <= i < n && #[trigger] member_in_synset_upto(
            data,
            i,
            data.synsets@[i].members@.len() as int,
            k,
            x,
        )
}

/// Lemma `x` belongs to synset `k`: promoted there by one of its senses, or
/// listed in the synset's own member list.
pub open spec fn is_member_lemma(data: WordNetData, k: Seq<char>, x: Seq<char>) -> bool {
    member_via_sense_upto(data, data.senses@.len() as int, k, x) || member_via_members_upto(
        data,
        data.synsets@.len() as int,
        k,
        x,
    )
}

/// Builds the synset-to-lemmas map: each synset id is bound to exactly the
/// lemmas that belong to it.
pub fn build_synset_to_lemmas(data: &WordNetData, s2l: &Vec<(String, String)>) -> (r: Vec<
    (String, Vec<String>),
>)
    requires
        pairs_view(s2l@) == sense_bindings(data.lexical_entries@),
    ensures
        unique_keys(r@),
        nonempty_values(r@),
        forall|k: Seq<char>, x: Seq<char>|
            #[trigger] contains_group(r@, k, x) == is_member_lemma(*data, k, x),
{
    let ghost d = *data;
    let mut r: Vec<(String, Vec<String>)> = Vec::new();
    let mut i: usize = 0;
    while i < data.senses.len()
        invariant
            i <= data.senses.len(),
            d == *data,
            pairs_view(s2l@) == sense_bindings(data.lexical_entries@),
            unique_keys(r@),
            nonempty_values(r@),
            forall|k: Seq<char>, x: Seq<char>|
                #[trigger] contains_group(r@, k, x) == member_via_sense_upto(d, i as int, k, x),
        decreases data.senses.len() - i,
    {
        let s = &data.senses[i];
        let ghost prev = r@;
        match lookup_lemma(s2l, s.id.as_str()) {
            Some(lemma) => {
                let lem = lemma.clone();
                group_push(&mut r, s.synset_id.as_str(), lem);
                proof {
                    let key = d.senses@[i as int].synset_id@;
                    assert(sense_lemma(d.lexical_entries@, d.senses@[i as int].id@) == Some(lem@));
                    assert forall|k: Seq<char>, x: Seq<char>|
                        #[trigger] contains_group(r@, k, x) == member_via_sense_upto(
                        d,
                        i + 1,
                        k,
                        x,
                    ) by {
                        if k == key {
                            if contains_group(r@, k, x) {
                                if contains_group(prev, k, x) {
                                    let ii = choose|ii: int|
                                        #![trigger d.senses@[ii]]
                                        0 <= ii < i && d.senses@[ii].synset_id@ == k
                                            && sense_lemma(d.lexical_entries@, d.senses@[ii].id@)
                                            == Some(x);
                                    assert(0 <= ii < i + 1 && d.senses@[ii].synset_id@ == k);
                                } else {
                                    assert(x == lem@);
                                    assert(d.senses@[i as int].synset_id@ == k && sense_lemma(
                                        d.lexical_entries@,
                                        d.senses@[i as int].id@,
                                    ) == Some(x));
                                }
                            }
                            if member_via_sense_upto(d, i + 1, k, x) {
                                let ii = choose|ii: int|
                                    #![trigger d.senses@[ii]]
                                    0 <= ii < i + 1 && d.senses@[ii].synset_id@ == k && sense_lemma(
                                        d.lexical_entries@,
                                        d.senses@[ii].id@,
                                    ) == Some(x);
                                if ii < i {
                                    assert(member_via_sense_upto(d, i as int, k, x));
                                } else {
                                    assert(x == lem@);
                                }
                            }
                        } else {
                            if member_via_sense_upto(d, i + 1, k, x) {
                                let ii = choose|ii: int|
                                    #![trigger d.senses@[ii]]
                                    0 <= ii < i + 1 && d.senses@[ii].synset_id@ == k && sense_lemma(
                                        d.lexical_entries@,
                                        d.senses@[ii].id@,
                                    ) == Some(x);
                                assert(ii < i);
                                assert(member_via_sense_upto(d, i as int, k, x));
                            }
                            if member_via_sense_upto(d, i as int, k, x) {
                                let ii = choose|ii: int|
                                    #![trigger d.senses@[ii]]
                                    0 <= ii < i && d.senses@[ii].synset_id@ == k && sense_lemma(
                                        d.lexical_entries@,
                                        d.senses@[ii].id@,
                                    ) == Some(x);
                                assert(member_via_sense_upto(d, i + 1, k, x));
                            }
                        }
                    }
                }
            },
            None => {
                proof {
                    assert(sense_lemma(d.lexical_entries@, d.senses@[i as int].id@) is None);
                    assert forall|k: Seq<char>, x: Seq<char>|
                        #[trigger] contains_group(r@, k, x) == member_via_sense_upto(
                        d,
                        i + 1,
                        k,
                        x,
                    ) by {
                        if member_via_sense_upto(d, i + 1, k, x) {
                            let ii = choose|ii: int|
                                #![trigger d.senses@[ii]]
                                0 <= ii < i + 1 && d.senses@[ii].synset_id@ == k && sense_lemma(
                                    d.lexical_entries@,
                                    d.senses@[ii].id@,
                                ) == Some(x);
                            assert(ii < i);
                            assert(member_via_sense_upto(d, i as int, k, x));
                        }
                        if member_via_sense_upto(d, i as int, k, x) {
                            let ii = choose|ii: int|
                                #![trigger d.senses@[ii]]
                                0 <= ii < i && d.senses@[ii].synset_id@ == k && sense_lemma(
                                    d.lexical_entries@,
                                    d.senses@[ii].id@,
                                ) == Some(x);
                            assert(member_via_sense_upto(d, i + 1, k, x));
                        }
                    }
                }
            },
        }
        i = i + 1;
    }
    let ghost nsenses = data.senses@.len() as int;
    let mut si: usize = 0;
    while si < data.synsets.len()
        invariant
            si <= data.synsets.len(),
            d == *data,
            nsenses == data.senses@.len() as int,
            pairs_view(s2l@) == sense_bindings(data.lexical_entries@),
            unique_keys(r@),
            nonempty_values(r@),
            forall|k: Seq<char>, x: Seq<char>|
                #[trigger] contains_group(r@, k, x) == (member_via_sense_upto(d, nsenses, k, x)
                    || member_via_members_upto(d, si as int, k, x)),
        decreases data.synsets.len() - si,
    {
        let sy = &data.synsets[si];
        let mut m: usize = 0;
        while m < sy.members.len()
            invariant
                m <= sy.members.len(),
                d == *data,
                si < data.synsets.len(),
                *sy == data.synsets@[si as int],
                nsenses == data.senses@.len() as int,
                pairs_view(s2l@) == sense_bindings(data.lexical_entries@),
                unique_keys(r@),
                nonempty_values(r@),
                forall|k: Seq<char>, x: Seq<char>|
                    #[trigger] contains_group(r@, k, x) == (member_via_sense_upto(d, nsenses, k, x)
                        || member_via_members_upto(d, si as int, k, x) || member_in_synset_upto(
                        d,
                        si as int,
                        m as int,
                        k,
                        x,
                    )),
            decreases sy.members.len() - m,
        {
            let ghost prev = r@;
            match lookup_lemma(s2l, sy.members[m].as_str()) {
                Some(lemma) => {
                    let lem = lemma.clone();
                    group_push(&mut r, sy.id.as_str(), lem);
                    proof {
                        let key = d.synsets@[si as int].id@;
                        assert(sense_lemma(
                            d.lexical_entries@,
                            d.synsets@[si as int].members@[m as int]@,
                        ) == Some(lem@));
                        assert forall|k: Seq<char>, x: Seq<char>|
                            #[trigger] contains_group(r@, k, x) == (member_via_sense_upto(
                            d,
                            nsenses,
                            k,
                            x,
                        ) || member_via_members_upto(d, si as int, k, x) || member_in_synset_upto(
                            d,
                            si as int,
                            m + 1,
                            k,
                            x,
                        )) by {
                            if k == key {
                                if contains_group(r@, k, x) && !contains_group(prev, k, x) {
                                    assert(x == lem@);
                                    assert(d.synsets@[si as int].members@[m as int]
                                        == d.synsets@[si as int].members@[m as int]);
                                    assert(member_in_synset_upto(d, si as int, m + 1, k, x));
                                }
                                if member_in_synset_upto(d, si as int, m + 1, k, x)
                                    && !member_in_synset_upto(d, si as int, m as int, k, x) {
                                    let mm = choose|mm: int|
                                        #![trigger d.synsets@[si as int].members@[mm]]
                                        0 <= mm < m + 1 && sense_lemma(
                                            d.lexical_entries@,
                                            d.synsets@[si as int].members@[mm]@,
                                        ) == Some(x);
                                    assert(mm == m as int);
                                    assert(x == lem@);
                                    assert(contains_group(r@, k, x));
                                }
                            } else {
                                if member_in_synset_upto(d, si as int, m + 1, k, x) {
                                    assert(d.synsets@[si as int].id@ == k);
                                    assert(false);
                                }
                                if member_in_synset_upto(d, si as int, m as int, k, x) {
                                    assert(false);
                                }
                            }
                        }
                    }
                },
                None => {
                    proof {
                        assert(sense_lemma(
                            d.lexical_entries@,
                            d.synsets@[si as int].members@[m as int]@,
                        ) is None);
                        assert forall|k: Seq<char>, x: Seq<char>|
                            member_in_synset_upto(d, si as int, m + 1, k, x)
                                == member_in_synset_upto(d, si as int, m as int, k, x) by {
                            if member_in_synset_upto(d, si as int, m + 1, k, x) {
                                let mm = choose|mm: int|
                                    #![trigger d.synsets@[si as int].members@[mm]]
                                    0 <= mm < m + 1 && sense_lemma(
                                        d.lexical_entries@,
                                        d.synsets@[si as int].members@[mm]@,
                                    ) == Some(x);
                                assert(mm < m as int);
                                assert(member_in_synset_upto(d, si as int, m as int, k, x));
                            }
                        }
                    }
                },
            }
            m = m + 1;
        }
        proof {
            assert forall|k: Seq<char>, x: Seq<char>|
                member_via_members_upto(d, si + 1, k, x) == (member_via_members_upto(
                d,
                si as int,
                k,
                x,
            ) || member_in_synset_upto(
                d,
                si as int,
                d.synsets@[si as int].members@.len() as int,
                k,
                x,
            )) by {
                if member_via_members_upto(d, si + 1, k, x) {
                    let ii = choose|ii: int|
                        0 <= ii < si + 1 && #[trigger] member_in_synset_upto(
                            d,
                            ii,
                            d.synsets@[ii].members@.len() as int,
                            k,
                            x,
                        );
                    if ii < si {
                        assert(member_via_members_upto(d, si as int, k, x));
                    }
                }
                if member_via_members_upto(d, si as int, k, x) {
                    let ii = choose|ii: int|
                        0 <= ii < si && #[trigger] member_in_synset_upto(
                            d,
                            ii,
                            d.synsets@[ii].members@.len() as int,
                            k,
                            x,
                        );
                    assert(member_via_members_upto(d, si + 1, k, x));
                }
                if member_in_synset_upto(
                    d,
                    si as int,
                    d.synsets@[si as int].members@.len() as int,
                    k,
                    x,
                ) {
                    assert(member_via_members_upto(d, si + 1, k, x));
                }
            }
        }
        si = si + 1;
    }
    r
}

// ---------------------------------------------------------------------------
// Lemma domain: which synsets a lemma belongs to
// ---------------------------------------------------------------------------
/// Entry `i` carries usable lemma `l` and, among its first `jb` sense ids,
/// one resolves to a sense realizing synset `k`.
pub open spec fn entry_synset_upto(
    data: WordNetData,
    i: int,
    jb: int,
    l: Seq<char>,
    k: Seq<char>,
) -> bool {
    &&& 0 <= i < data.lexical_entries@.len()
    &&& data.lexical_entries@[i].lemma.written_form@ == l
    &&& valid_lemma(l)
    &&& exists|j: int|
        #![trigger data.lexical_entries@[i].senses@[j]]
        0 <= j < jb && match find_sense(data.senses@, data.lexical_entries@[i].senses@[j]@) {
            Some(s) => s.synset_id@ == k,
            None => false,
        }
}

/// Among the first `n` entries, one ties lemma `l` to synset `k` through a
/// sense of its own.
pub open spec fn lemma_synset_via_entry_upto(
    data: WordNetData,
    n: int,
    l: Seq<char>,
    k: Seq<char>,
) -> bool {
    exists|i: int|
        0 <= i < n && #[trigger] entry_synset_upto(
            data,
            i,
            data.lexical_entries@[i].senses@.len() as int,
            l,
            k,
        )
}

/// Lemma `l` belongs to synset `k`: through a sense of one of its entries, or
/// by standing in the synset's member list.
pub open spec fn is_lemma_synset(data: WordNetData, l: Seq<char>, k: Seq<char>) -> bool {
    lemma_synset_via_entry_upto(data, data.lexical_entries@.len() as int, l, k) || is_member_lemma(
        data,
        k,
        l,
    )
}

/// The pairs the first `p` groups of the synset-to-lemmas map contribute to
/// the lemma domain: lemma `l` is listed under synset key `k`.
pub open spec fn map_pair_upto(
    mapv: Seq<(String, Vec<String>)>,
    p: int,
    l: Seq<char>,
    k: Seq<char>,
) -> bool {
    exists|pp: int|
        0 <= pp < p && (#[trigger] mapv[pp]).0@ == k && contains_str(mapv[pp].1@, l)
}

/// Group `p` carries synset key `k` and lists lemma `l` among its first `mb`
/// values.
pub open spec fn map_pair_inner(
    mapv: Seq<(String, Vec<String>)>,
    p: int,
    mb: int,
    l: Seq<char>,
    k: Seq<char>,
) -> bool {
    &&& 0 <= p < mapv.len()
    &&& mapv[p].0@ == k
    &&& exists|mm: int| 0 <= mm < mb && (#[trigger] mapv[p].1@[mm])@ == l
}

/// Builds the lemma-to-synsets map: each usable lemma is bound to exactly the
/// synsets it belongs to.
pub fn build_lemma_to_synsets(data: &WordNetData, syn_map: &Vec<(String, Vec<String>)>) -> (r: Vec<
    (String, Vec<String>),
>)
    requires
        unique_keys(syn_map@),
        forall|k: Seq<char>, x: Seq<char>|
            #[trigger] contains_group(syn_map@, k, x) == is_member_lemma(*data, k, x),
    ensures
        unique_keys(r@),
        nonempty_values(r@),
        forall|l: Seq<char>, k: Seq<char>|
            #[trigger] contains_group(r@, l, k) == is_lemma_synset(*data, l, k),
{
    let ghost d = *data;
    let mut r: Vec<(String, Vec<String>)> = Vec::new();
    let mut i: usize = 0;
    while i < data.lexical_entries.len()
        invariant
            i <= data.lexical_entries.len(),
            d == *data,
            unique_keys(r@),
            nonempty_values(r@),
            forall|l: Seq<char>, k: Seq<char>|
                #[trigger] contains_group(r@, l, k) == lemma_synset_via_entry_upto(
                    d,
                    i as int,
                    l,
                    k,
                ),
        decreases data.lexical_entries.len() - i,
    {
        let e = &data.lexical_entries[i];
        if crate::transform::lemma_accepted(e.lemma.written_form.as_str()) {
            let ghost lem = e.lemma.written_form@;
            let mut j: usize = 0;
            while j < e.senses.len()
                invariant
                    j <= e.senses.len(),
                    d == *data,
                    i < data.lexical_entries.len(),
                    *e == data.lexical_entries@[i as int],
                    lem == e.lemma.written_form@,
                    valid_lemma(lem),
                    unique_keys(r@),
                    nonempty_values(r@),
                    forall|l: Seq<char>, k: Seq<char>|
                        #[trigger] contains_group(r@, l, k) == (lemma_synset_via_entry_upto(
                            d,
                            i as int,
                            l,
                            k,
                        ) || entry_synset_upto(d, i as int, j as int, l, k)),
                decreases e.senses.len() - j,
            {
                let ghost prev = r@;
                match crate::models::lookup_sense(&data.senses, e.senses[j].as_str()) {
                    Some(s) => {
                        group_push(&mut r, e.lemma.written_form.as_str(), s.synset_id.clone());
                        proof {
                            let key = s.synset_id@;
                            assert forall|l: Seq<char>, k: Seq<char>|
                                #[trigger] contains_group(r@, l, k)
                                    == (lemma_synset_via_entry_upto(d, i as int, l, k)
                                    || entry_synset_upto(d, i as int, j + 1, l, k)) by {
                                if l == lem {
                                    if contains_group(r@, l, k) && !contains_group(prev, l, k) {
                                        assert(k == key);
                                        assert(d.lexical_entries@[i as int].senses@[j as int]
                                            == d.lexical_entries@[i as int].senses@[j as int]);
                                        assert(entry_synset_upto(d, i as int, j + 1, l, k));
                                    }
                                    if entry_synset_upto(d, i as int, j + 1, l, k)
                                        && !entry_synset_upto(d, i as int, j as int, l, k) {
                                        let jj = choose|jj: int|
                                            #![trigger d.lexical_entries@[i as int].senses@[jj]]
                                            0 <= jj < j + 1 && match find_sense(
                                                d.senses@,
                                                d.lexical_entries@[i as int].senses@[jj]@,
                                            ) {
                                                Some(s2) => s2.synset_id@ == k,
                                                None => false,
                                            };
                                        assert(jj == j as int);
                                        assert(k == key);
                                        assert(contains_group(r@, l, k));
                                    }
                                } else {
                                    if entry_synset_upto(d, i as int, j + 1, l, k) {
                                        assert(false);
                                    }
                                    if entry_synset_upto(d, i as int, j as int, l, k) {
                                        assert(false);
                                    }
                                }
                            }
                        }
                    },
                    None => {
                        proof {
                            assert(find_sense(
                                d.senses@,
                                d.lexical_entries@[i as int].senses@[j as int]@,
                            ) is None);
                            assert forall|l: Seq<char>, k: Seq<char>|
                                entry_synset_upto(d, i as int, j + 1, l, k) == entry_synset_upto(
                                d,
                                i as int,
                                j as int,
                                l,
                                k,
                            ) by {
                                if entry_synset_upto(d, i as int, j + 1, l, k) {
                                    let jj = choose|jj: int|
                                        #![trigger d.lexical_entries@[i as int].senses@[jj]]
                                        0 <= jj < j + 1 && match find_sense(
                                            d.senses@,
                                            d.lexical_entries@[i as int].senses@[jj]@,
                                        ) {
                                            Some(s2) => s2.synset_id@ == k,
                                            None => false,
                                        };
                                    assert(jj < j as int);
                                    assert(entry_synset_upto(d, i as int, j as int, l, k));
                                }
                            }
                        }
                    },
                }
                j = j + 1;
            }
            proof {
                assert forall|l: Seq<char>, k: Seq<char>|
                    lemma_synset_via_entry_upto(d, i + 1, l, k) == (lemma_synset_via_entry_upto(
                    d,
                    i as int,
                    l,
                    k,
                ) || entry_synset_upto(
                    d,
                    i as int,
                    d.lexical_entries@[i as int].senses@.len() as int,
                    l,
                    k,
                )) by {
                    if lemma_synset_via_entry_upto(d, i + 1, l, k) {
                        let ii = choose|ii: int|
                            0 <= ii < i + 1 && #[trigger] entry_synset_upto(
                                d,
                                ii,
                                d.lexical_entries@[ii].senses@.len() as int,
                                l,
                                k,
                            );
                        if ii < i {
                            assert(lemma_synset_via_entry_upto(d, i as int, l, k));
                        }
                    }
                    if lemma_synset_via_entry_upto(d, i as int, l, k) {
                        let ii = choose|ii: int|
                            0 <= ii < i && #[trigger] entry_synset_upto(
                                d,
                                ii,
                                d.lexical_entries@[ii].senses@.len() as int,
                                l,
                                k,
                            );
                        assert(lemma_synset_via_entry_upto(d, i + 1, l, k));
                    }
                    if entry_synset_upto(
                        d,
                        i as int,
                        d.lexical_entries@[i as int].senses@.len() as int,
                        l,
                        k,
                    ) {
                        assert(lemma_synset_via_entry_upto(d, i + 1, l, k));
                    }
                }
            }
        } else {
            proof {
                assert(!valid_lemma(d.lexical_entries@[i as int].lemma.written_form@));
                assert forall|l: Seq<char>, k: Seq<char>|
                    lemma_synset_via_entry_upto(d, i + 1, l, k) == lemma_synset_via_entry_upto(
                    d,
                    i as int,
                    l,
                    k,
                ) by {
                    if lemma_synset_via_entry_upto(d, i + 1, l, k) {
                        let ii = choose|ii: int|
                            0 <= ii < i + 1 && #[trigger] entry_synset_upto(
                                d,
                                ii,
                                d.lexical_entries@[ii].senses@.len() as int,
                                l,
                                k,
                            );
                        assert(ii < i);
                        assert(lemma_synset_via_entry_upto(d, i as int, l, k));
                    }
                    if lemma_synset_via_entry_upto(d, i as int, l, k) {
                        let ii = choose|ii: int|
                            0 <= ii < i && #[trigger] entry_synset_upto(
                                d,
                                ii,
                                d.lexical_entries@[ii].senses@.len() as int,
                                l,
                                k,
                            );
                        assert(lemma_synset_via_entry_upto(d, i + 1, l, k));
                    }
                }
            }
        }
        i = i + 1;
    }
    let ghost nentries = data.lexical_entries@.len() as int;
    let mut p: usize = 0;
    while p < syn_map.len()
        invariant
            p <= syn_map.len(),
            d == *data,
            nentries == data.lexical_entries@.len() as int,
            unique_keys(r@),
            nonempty_values(r@),
            forall|l: Seq<char>, k: Seq<char>|
                #[trigger] contains_group(r@, l, k) == (lemma_synset_via_entry_upto(
                    d,
                    nentries,
                    l,
                    k,
                ) || map_pair_upto(syn_map@, p as int, l, k)),
        decreases syn_map.len() - p,
    {
        let mut mi: usize = 0;
        while mi < syn_map[p].1.len()
            invariant
                mi <= syn_map[p as int].1.len(),
                p < syn_map.len(),
                d == *data,
                nentries == data.lexical_entries@.len() as int,
                unique_keys(r@),
                nonempty_values(r@),
                forall|l: Seq<char>, k: Seq<char>|
                    #[trigger] contains_group(r@, l, k) == (lemma_synset_via_entry_upto(
                        d,
                        nentries,
                        l,
                        k,
                    ) || map_pair_upto(syn_map@, p as int, l, k) || map_pair_inner(
                        syn_map@,
                        p as int,
                        mi as int,
                        l,
                        k,
                    )),
            decreases syn_map[p as int].1.len() - mi,
        {
            let ghost prev = r@;
            group_push(&mut r, syn_map[p].1[mi].as_str(), syn_map[p].0.clone());
            proof {
                let key = syn_map@[p as int].1@[mi as int]@;
                let sid = syn_map@[p as int].0@;
                assert forall|l: Seq<char>, k: Seq<char>|
                    #[trigger] contains_group(r@, l, k) == (lemma_synset_via_entry_upto(
                    d,
                    nentries,
                    l,
                    k,
                ) || map_pair_upto(syn_map@, p as int, l, k) || map_pair_inner(
                    syn_map@,
                    p as int,
                    mi + 1,
                    l,
                    k,
                )) by {
                    if l == key {
                        if contains_group(r@, l, k) && !contains_group(prev, l, k) {
                            assert(k == sid);
                            assert(syn_map@[p as int].1@[mi as int]
                                == syn_map@[p as int].1@[mi as int]);
                            assert(map_pair_inner(syn_map@, p as int, mi + 1, l, k));
                        }
                        if map_pair_inner(syn_map@, p as int, mi + 1, l, k) && !map_pair_inner(
                            syn_map@,
                            p as int,
                            mi as int,
                            l,
                            k,
                        ) {
                            let mm = choose|mm: int|
                                0 <= mm < mi + 1 && (#[trigger] syn_map@[p as int].1@[mm])@ == l;
                            assert(k == sid);
                            assert(contains_group(r@, l, k));
                        }
                    } else {
                        if map_pair_inner(syn_map@, p as int, mi + 1, l, k) && !map_pair_inner(
                            syn_map@,
                            p as int,
                            mi as int,
                            l,
                            k,
                        ) {
                            let mm = choose|mm: int|
                                0 <= mm < mi + 1 && (#[trigger] syn_map@[p as int].1@[mm])@ == l;
                            assert(mm == mi as int);
                            assert(false);
                        }
                    }
                }
            }
            mi = mi + 1;
        }
        proof {
            assert forall|l: Seq<char>, k: Seq<char>|
                map_pair_upto(syn_map@, p + 1, l, k) == (map_pair_upto(syn_map@, p as int, l, k)
                    || map_pair_inner(
                    syn_map@,
                    p as int,
                    syn_map@[p as int].1@.len() as int,
                    l,
                    k,
                )) by {
                if map_pair_upto(syn_map@, p + 1, l, k) {
                    let pp = choose|pp: int|
                        0 <= pp < p + 1 && (#[trigger] syn_map@[pp]).0@ == k && contains_str(
                            syn_map@[pp].1@,
                            l,
                        );
                    if pp < p {
                        assert(map_pair_upto(syn_map@, p as int, l, k));
                    } else {
                        let mm = choose|mm: int|
                            0 <= mm < syn_map@[p as int].1@.len() && syn_map@[p as int].1@[mm]@
                                == l;
                        assert(syn_map@[p as int].1@[mm] == syn_map@[p as int].1@[mm]);
                        assert(map_pair_inner(
                            syn_map@,
                            p as int,
                            syn_map@[p as int].1@.len() as int,
                            l,
                            k,
                        ));
                    }
                }
                if map_pair_upto(syn_map@, p as int, l, k) {
                    let pp = choose|pp: int|
                        0 <= pp < p && (#[trigger] syn_map@[pp]).0@ == k && contains_str(
                            syn_map@[pp].1@,
                            l,
                        );
                    assert(map_pair_upto(syn_map@, p + 1, l, k));
                }
                if map_pair_inner(
                    syn_map@,
                    p as int,
                    syn_map@[p as int].1@.len() as int,
                    l,
                    k,
                ) {
                    let mm = choose|mm: int|
                        0 <= mm < syn_map@[p as int].1@.len()
                            && (#[trigger] syn_map@[p as int].1@[mm])@ == l;
                    assert(contains_str(syn_map@[p as int].1@, l));
                    assert(map_pair_upto(syn_map@, p + 1, l, k));
                }
            }
        }
        p = p + 1;
    }
    proof {
        assert forall|l: Seq<char>, k: Seq<char>|
            #[trigger] contains_group(r@, l, k) == is_lemma_synset(d, l, k) by {
            assert(contains_group(r@, l, k) == (lemma_synset_via_entry_upto(d, nentries, l, k)
                || map_pair_upto(syn_map@, p as int, l, k)));
            if map_pair_upto(syn_map@, p as int, l, k) {
                let pp = choose|pp: int|
                    0 <= pp < p && (#[trigger] syn_map@[pp]).0@ == k && contains_str(
                        syn_map@[pp].1@,
                        l,
                    );
                assert(contains_group(syn_map@, k, l));
            }
            if contains_group(syn_map@, k, l) {
                let pp = choose|pp: int|
                    0 <= pp < syn_map@.len() && (#[trigger] syn_map@[pp]).0@ == k && contains_str(
                        syn_map@[pp].1@,
                        l,
                    );
                assert(map_pair_upto(syn_map@, p as int, l, k));
            }
            assert(contains_group(syn_map@, k, l) == is_member_lemma(d, k, l));
        }
    }
    r
}

} // verus!
