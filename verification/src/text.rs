//! Character and string groundwork: views of std's Unicode tables, trimming,
//! case-insensitive comparison, lexicographic order on character sequences,
//! and sorted deduplication of string vectors.
use vstd::prelude::*;

verus! {

/// What `str::to_lowercase` returns, as a function of the characters alone.
pub uninterp spec fn lower_of(s: Seq<char>) -> Seq<char>;

/// What `char::is_alphanumeric` returns for a character.
pub uninterp spec fn alnum_char(c: char) -> bool;

/// What `char::is_whitespace` returns for a character.
pub uninterp spec fn space_char(c: char) -> bool;

/// Relies on str::to_lowercase: the result depends on the characters alone,
/// and an empty string stays empty.
#[verifier::external_body]
pub fn lowercase(s: &str) -> (r: String)
    ensures
        r@ == lower_of(s@),
        s@.len() == 0 ==> r@.len() == 0,
{
    s.to_lowercase()
}

/// Relies on char::is_alphanumeric.
#[verifier::external_body]
pub fn char_is_alphanumeric(c: char) -> (r: bool)
    ensures
        r == alnum_char(c),
{
    c.is_alphanumeric()
}

/// Relies on char::is_whitespace.
#[verifier::external_body]
pub fn char_is_whitespace(c: char) -> (r: bool)
    ensures
        r == space_char(c),
{
    c.is_whitespace()
}

/// Relies on String::push appending exactly one character.
#[verifier::external_body]
pub fn push_char(s: &mut String, c: char)
    ensures
        final(s)@ == old(s)@.push(c),
{
    s.push(c)
}

/// Relies on str::chars enumerating the characters of the string in order.
#[verifier::external_body]
pub fn chars_of(s: &str) -> (r: Vec<char>)
    ensures
        r@ == s@,
{
    s.chars().collect()
}

/// Builds the string holding exactly the given characters.
pub fn string_of_chars(cs: &Vec<char>) -> (r: String)
    ensures
        r@ == cs@,
{
    let mut r = String::new();
    let mut i: usize = 0;
    while i < cs.len()
        invariant
            i <= cs.len(),
            r@ == cs@.take(i as int),
        decreases cs.len() - i,
    {
        push_char(&mut r, cs[i]);
        proof {
            assert(cs@.take(i + 1 as int) =~= cs@.take(i as int).push(cs@[i as int]));
        }
        i = i + 1;
    }
    proof {
        assert(cs@.take(cs@.len() as int) =~= cs@);
    }
    r
}

/// Whether the two strings hold the same characters.
pub fn str_eq(a: &str, b: &str) -> (r: bool)
    ensures
        r == (a@ == b@),
{
    let sa = String::from_str(a);
    let sb = String::from_str(b);
    sa == sb
}

/// Whether the two strings are equal once both are lowercased.
pub fn eq_ignore_case(a: &str, b: &str) -> (r: bool)
    ensures
        r == (lower_of(a@) == lower_of(b@)),
{
    let la = lowercase(a);
    let lb = lowercase(b);
    la == lb
}

// ---------------------------------------------------------------------------
// Trimming
// ---------------------------------------------------------------------------
/// The sequence with its leading whitespace removed.
pub open spec fn trim_front(s: Seq<char>) -> Seq<char>
    decreases s.len(),
{
    if s.len() > 0 && space_char(s[0]) {
        trim_front(s.drop_first())
    } else {
        s
    }
}

/// The sequence with its trailing whitespace removed.
pub open spec fn trim_back(s: Seq<char>) -> Seq<char>
    decreases s.len(),
{
    if s.len() > 0 && space_char(s[s.len() - 1]) {
        trim_back(s.drop_last())
    } else {
        s
    }
}

/// What `str::trim` returns: the characters with leading and trailing
/// whitespace removed.
pub open spec fn trim_spec(s: Seq<char>) -> Seq<char> {
    trim_back(trim_front(s))
}

proof fn lemma_trim_front_skip(s: Seq<char>, i: int)
    requires
        0 <= i <= s.len(),
        forall|k: int| 0 <= k < i ==> space_char(s[k]),
    ensures
        trim_front(s) == trim_front(s.skip(i)),
    decreases i,
{
    if i > 0 {
        assert(space_char(s[0]));
        lemma_trim_front_skip(s.drop_first(), i - 1);
        assert(s.drop_first().skip(i - 1) =~= s.skip(i));
    } else {
        assert(s.skip(0) =~= s);
    }
}

proof fn lemma_trim_back_take(s: Seq<char>, j: int)
    requires
        0 <= j <= s.len(),
        forall|k: int| j <= k < s.len() ==> space_char(s[k]),
    ensures
        trim_back(s) == trim_back(s.take(j)),
    decreases s.len() - j,
{
    if j < s.len() {
        assert(space_char(s[s.len() - 1]));
        lemma_trim_back_take(s.drop_last(), j);
        assert(s.drop_last().take(j) =~= s.take(j));
    } else {
        assert(s.take(j) =~= s);
    }
}

pub proof fn lemma_trim_front_len(s: Seq<char>)
    ensures
        trim_front(s).len() <= s.len(),
    decreases s.len(),
{
    if s.len() > 0 && space_char(s[0]) {
        lemma_trim_front_len(s.drop_first());
    }
}

pub proof fn lemma_trim_back_len(s: Seq<char>)
    ensures
        trim_back(s).len() <= s.len(),
    decreases s.len(),
{
    if s.len() > 0 && space_char(s[s.len() - 1]) {
        lemma_trim_back_len(s.drop_last());
    }
}

/// Trimming never lengthens a string; a string whose trim is non-empty is
/// itself non-empty.
pub proof fn lemma_trim_len(s: Seq<char>)
    ensures
        trim_spec(s).len() <= s.len(),
{
    lemma_trim_front_len(s);
    lemma_trim_back_len(trim_front(s));
}

/// Removes leading and trailing whitespace, as `str::trim` does.
pub fn trim_str(s: &str) -> (r: String)
    ensures
        r@ == trim_spec(s@),
{
    let cs = chars_of(s);
    let n = cs.len();
    let mut i: usize = 0;
    loop
        invariant
            i <= n,
            n == cs.len(),
            cs@ == s@,
            forall|k: int| 0 <= k < i ==> space_char(cs@[k]),
        ensures
            i <= n,
            forall|k: int| 0 <= k < i ==> space_char(cs@[k]),
            i < n ==> !space_char(cs@[i as int]),
        decreases n - i,
    {
        if i >= n {
            break;
        }
        if !char_is_whitespace(cs[i]) {
            break;
        }
        i = i + 1;
    }
    let mut j: usize = n;
    loop
        invariant
            i <= j <= n,
            n == cs.len(),
            cs@ == s@,
            i < n ==> !space_char(cs@[i as int]),
            forall|k: int| j <= k < n ==> space_char(cs@[k]),
        ensures
            i <= j <= n,
            forall|k: int| j <= k < n ==> space_char(cs@[k]),
            j > i ==> !space_char(cs@[j - 1]),
        decreases j,
    {
        if j <= i {
            break;
        }
        if !char_is_whitespace(cs[j - 1]) {
            break;
        }
        j = j - 1;
    }
    let mut out: Vec<char> = Vec::new();
    let mut k: usize = i;
    while k < j
        invariant
            i <= k <= j <= n,
            n == cs.len(),
            out@ == cs@.subrange(i as int, k as int),
        decreases j - k,
    {
        out.push(cs[k]);
        proof {
            assert(cs@.subrange(i as int, k + 1 as int) =~= cs@.subrange(i as int, k as int).push(
                cs@[k as int],
            ));
        }
        k = k + 1;
    }
    proof {
        let sv = s@;
        lemma_trim_front_skip(sv, i as int);
        if i < n {
            // the front stops at a non-space character
            assert(sv.skip(i as int)[0] == sv[i as int]);
            assert(trim_front(sv.skip(i as int)) == sv.skip(i as int));
        } else {
            assert(sv.skip(i as int) =~= Seq::<char>::empty());
            assert(trim_front(sv.skip(i as int)) =~= Seq::<char>::empty());
        }
        let t = sv.skip(i as int);
        lemma_trim_back_take(t, j - i);
        if j > i {
            assert(t.take(j - i)[j - i - 1] == sv[j - 1]);
            assert(trim_back(t.take(j - i)) == t.take(j - i));
        } else {
            assert(t.take(j - i) =~= Seq::<char>::empty());
        }
        assert(t.take(j - i) =~= sv.subrange(i as int, j as int));
        assert(out@ == trim_spec(sv));
    }
    string_of_chars(&out)
}

// ---------------------------------------------------------------------------
// Whitespace splitting
// ---------------------------------------------------------------------------
/// The length of the maximal non-whitespace prefix.
pub open spec fn token_len(s: Seq<char>) -> int
    decreases s.len(),
{
    if s.len() == 0 || space_char(s[0]) {
        0
    } else {
        1 + token_len(s.drop_first())
    }
}

proof fn lemma_token_len_bound(s: Seq<char>)
    ensures
        0 <= token_len(s) <= s.len(),
    decreases s.len(),
{
    if s.len() > 0 && !space_char(s[0]) {
        lemma_token_len_bound(s.drop_first());
    }
}

/// What `str::split_whitespace` returns: the maximal runs of non-whitespace
/// characters, in order.
pub open spec fn split_ws(s: Seq<char>) -> Seq<Seq<char>>
    decreases s.len() via split_ws_decreases
{
    if s.len() == 0 {
        Seq::empty()
    } else if space_char(s[0]) {
        split_ws(s.drop_first())
    } else {
        let k = token_len(s);
        seq![s.take(k)] + split_ws(s.skip(k))
    }
}

#[via_fn]
proof fn split_ws_decreases(s: Seq<char>) {
    if s.len() > 0 && !space_char(s[0]) {
        lemma_token_len_bound(s.drop_first());
        assert(token_len(s) == 1 + token_len(s.drop_first()));
        assert(1 <= token_len(s) <= s.len());
    }
}

proof fn lemma_token_len_run(s: Seq<char>, m: int)
    requires
        0 <= m <= s.len(),
        forall|i: int| 0 <= i < m ==> !space_char(s[i]),
        m == s.len() || space_char(s[m]),
    ensures
        token_len(s) == m,
    decreases m,
{
    if m == 0 {
    } else {
        lemma_token_len_run(s.drop_first(), m - 1);
    }
}

/// Splits a string on whitespace into its non-empty tokens.
pub fn split_whitespace_tokens(s: &str) -> (r: Vec<String>)
    ensures
        r.deep_view() == split_ws(s@),
{
    let cs = chars_of(s);
    let n = cs.len();
    let mut out: Vec<String> = Vec::new();
    let mut i: usize = 0;
    proof {
        assert(cs@.skip(0) =~= cs@);
        assert(out.deep_view() + split_ws(cs@.skip(0)) =~= split_ws(cs@));
    }
    while i < n
        invariant
            i <= n,
            n == cs.len(),
            cs@ == s@,
            out.deep_view() + split_ws(cs@.skip(i as int)) == split_ws(cs@),
        decreases n - i,
    {
        if char_is_whitespace(cs[i]) {
            proof {
                assert(cs@.skip(i as int).drop_first() =~= cs@.skip(i + 1));
                assert(split_ws(cs@.skip(i as int)) == split_ws(cs@.skip(i + 1)));
            }
            i = i + 1;
        } else {
            let mut tok: Vec<char> = Vec::new();
            tok.push(cs[i]);
            let mut j: usize = i + 1;
            proof {
                assert(tok@ =~= cs@.subrange(i as int, i + 1));
            }
            loop
                invariant
                    i < j <= n,
                    n == cs.len(),
                    tok@ == cs@.subrange(i as int, j as int),
                    forall|k: int| i <= k < j ==> !space_char(cs@[k]),
                ensures
                    i < j <= n,
                    tok@ == cs@.subrange(i as int, j as int),
                    forall|k: int| i <= k < j ==> !space_char(cs@[k]),
                    j == n || space_char(cs@[j as int]),
                decreases n - j,
            {
                if j >= n {
                    break;
                }
                if char_is_whitespace(cs[j]) {
                    break;
                }
                tok.push(cs[j]);
                proof {
                    assert(cs@.subrange(i as int, j + 1) =~= cs@.subrange(i as int, j as int).push(
                        cs@[j as int],
                    ));
                }
                j = j + 1;
            }
            let ghost rest = cs@.skip(i as int);
            proof {
                assert forall|k: int| 0 <= k < j - i implies !space_char(rest[k]) by {
                    assert(rest[k] == cs@[i + k]);
                }
                if (j - i) < rest.len() {
                    assert(rest[j - i] == cs@[j as int]);
                }
                lemma_token_len_run(rest, j - i);
                assert(rest.take(j - i) =~= cs@.subrange(i as int, j as int));
                assert(rest.skip(j - i) =~= cs@.skip(j as int));
                assert(split_ws(rest) == seq![tok@] + split_ws(cs@.skip(j as int)));
            }
            let ghost out0 = out.deep_view();
            out.push(string_of_chars(&tok));
            proof {
                assert(out.deep_view() =~= out0.push(tok@));
                assert(out.deep_view() + split_ws(cs@.skip(j as int)) =~= out0 + split_ws(
                    cs@.skip(i as int),
                ));
            }
            i = j;
        }
    }
    proof {
        assert(cs@.skip(n as int) =~= Seq::<char>::empty());
        assert(out.deep_view() + split_ws(cs@.skip(n as int)) =~= out.deep_view());
    }
    out
}

// ---------------------------------------------------------------------------
// Lexicographic order on character sequences
// ---------------------------------------------------------------------------
/// Strict lexicographic order on character sequences, by code point.
pub open spec fn lex_lt(a: Seq<char>, b: Seq<char>) -> bool
    decreases a.len(),
{
    if b.len() == 0 {
        false
    } else if a.len() == 0 {
        true
    } else if (a[0] as u32) < (b[0] as u32) {
        true
    } else if (b[0] as u32) < (a[0] as u32) {
        false
    } else {
        lex_lt(a.drop_first(), b.drop_first())
    }
}

proof fn lemma_char_eq(a: char, b: char)
    requires
        a as u32 == b as u32,
    ensures
        a == b,
{
    vstd::utf8::char_u32_cast(a, a as u32);
    vstd::utf8::char_u32_cast(b, b as u32);
}

pub proof fn lemma_lex_irrefl(a: Seq<char>)
    ensures
        !lex_lt(a, a),
    decreases a.len(),
{
    if a.len() > 0 {
        lemma_lex_irrefl(a.drop_first());
    }
}

pub proof fn lemma_lex_connected(a: Seq<char>, b: Seq<char>)
    ensures
        a == b || lex_lt(a, b) || lex_lt(b, a),
    decreases a.len(),
{
    if a.len() == 0 && b.len() == 0 {
        assert(a =~= b);
    } else if a.len() > 0 && b.len() > 0 {
        if (a[0] as u32) == (b[0] as u32) {
            lemma_char_eq(a[0], b[0]);
            lemma_lex_connected(a.drop_first(), b.drop_first());
            if a.drop_first() == b.drop_first() {
                assert(a.drop_first().len() == b.drop_first().len());
                assert(a.len() == b.len());
                assert forall|k: int| 0 <= k < a.len() implies a[k] == b[k] by {
                    if k > 0 {
                        assert(a[k] == a.drop_first()[k - 1]);
                        assert(b[k] == b.drop_first()[k - 1]);
                    }
                }
                assert(a =~= b);
            }
        }
    }
}

pub proof fn lemma_lex_trans(a: Seq<char>, b: Seq<char>, c: Seq<char>)
    requires
        lex_lt(a, b),
        lex_lt(b, c),
    ensures
        lex_lt(a, c),
    decreases a.len(),
{
    if a.len() > 0 && b.len() > 0 && c.len() > 0 {
        if (a[0] as u32) == (b[0] as u32) && (b[0] as u32) == (c[0] as u32) {
            lemma_lex_trans(a.drop_first(), b.drop_first(), c.drop_first());
        }
    }
}

proof fn lemma_lex_skip(a: Seq<char>, b: Seq<char>, i: int)
    requires
        0 <= i <= a.len(),
        i <= b.len(),
        forall|k: int| 0 <= k < i ==> a[k] == b[k],
    ensures
        lex_lt(a, b) == lex_lt(a.skip(i), b.skip(i)),
    decreases i,
{
    if i > 0 {
        assert(a.len() > 0 && b.len() > 0);
        assert((a[0] as u32) == (b[0] as u32));
        lemma_lex_skip(a.drop_first(), b.drop_first(), i - 1);
        assert(a.drop_first().skip(i - 1) =~= a.skip(i));
        assert(b.drop_first().skip(i - 1) =~= b.skip(i));
    } else {
        assert(a.skip(0) =~= a);
        assert(b.skip(0) =~= b);
    }
}

/// Compares two character vectors lexicographically by code point, the order
/// `str` comparison uses.
pub fn chars_lt(a: &Vec<char>, b: &Vec<char>) -> (r: bool)
    ensures
        r == lex_lt(a@, b@),
{
    let mut i: usize = 0;
    loop
        invariant
            i <= a.len(),
            i <= b.len(),
            forall|k: int| 0 <= k < i ==> a@[k] == b@[k],
        decreases a.len() - i,
    {
        if i >= b.len() {
            proof {
                lemma_lex_skip(a@, b@, i as int);
                assert(b@.skip(i as int) =~= Seq::<char>::empty());
            }
            return false;
        }
        if i >= a.len() {
            proof {
                lemma_lex_skip(a@, b@, i as int);
                assert(a@.skip(i as int) =~= Seq::<char>::empty());
            }
            return true;
        }
        let ca = a[i] as u32;
        let cb = b[i] as u32;
        if ca < cb {
            proof {
                lemma_lex_skip(a@, b@, i as int);
                assert(a@.skip(i as int)[0] == a@[i as int]);
                assert(b@.skip(i as int)[0] == b@[i as int]);
            }
            return true;
        }
        if cb < ca {
            proof {
                lemma_lex_skip(a@, b@, i as int);
                assert(a@.skip(i as int)[0] == a@[i as int]);
                assert(b@.skip(i as int)[0] == b@[i as int]);
            }
            return false;
        }
        proof {
            lemma_char_eq(a@[i as int], b@[i as int]);
        }
        i = i + 1;
    }
}

// ---------------------------------------------------------------------------
// Sorted deduplication of string vectors
// ---------------------------------------------------------------------------
/// Whether the string sequence holds a string with exactly these characters.
pub open spec fn contains_str(s: Seq<String>, x: Seq<char>) -> bool {
    exists|i: int| 0 <= i < s.len() && s[i]@ == x
}

/// Strictly increasing in lexicographic order; in particular, duplicate-free.
pub open spec fn strictly_sorted(s: Seq<String>) -> bool {
    forall|i: int, j: int| 0 <= i < j < s.len() ==> lex_lt(s[i]@, s[j]@)
}

pub proof fn lemma_strictly_sorted_distinct(s: Seq<String>)
    requires
        strictly_sorted(s),
    ensures
        forall|i: int, j: int| 0 <= i < j < s.len() ==> s[i]@ != s[j]@,
{
    assert forall|i: int, j: int| 0 <= i < j < s.len() implies s[i]@ != s[j]@ by {
        lemma_lex_irrefl(s[i]@);
    }
}

pub proof fn lemma_contains_push(s: Seq<String>, e: String, x: Seq<char>)
    ensures
        contains_str(s.push(e), x) == (contains_str(s, x) || e@ == x),
{
    if contains_str(s, x) {
        let i = choose|i: int| 0 <= i < s.len() && s[i]@ == x;
        assert(s.push(e)[i]@ == x);
    }
    if e@ == x {
        assert(s.push(e)[s.len() as int]@ == x);
    }
    if contains_str(s.push(e), x) {
        let i = choose|i: int| 0 <= i < s.push(e).len() && s.push(e)[i]@ == x;
        if i < s.len() {
            assert(s[i]@ == x);
        }
    }
}

proof fn lemma_contains_insert(s: Seq<String>, j: int, e: String, x: Seq<char>)
    requires
        0 <= j <= s.len(),
    ensures
        contains_str(s.insert(j, e), x) == (contains_str(s, x) || e@ == x),
{
    let t = s.insert(j, e);
    s.insert_ensures(j, e);
    if contains_str(s, x) {
        let i = choose|i: int| 0 <= i < s.len() && s[i]@ == x;
        if i < j {
            assert(t[i]@ == x);
        } else {
            assert(t[i + 1]@ == x);
        }
    }
    if e@ == x {
        assert(t[j]@ == x);
    }
    if contains_str(t, x) {
        let i = choose|i: int| 0 <= i < t.len() && t[i]@ == x;
        if i < j {
            assert(s[i]@ == x);
        } else if i > j {
            assert(s[i - 1]@ == x);
        }
    }
}

/// Sorts the strings and removes duplicates: afterwards the vector is strictly
/// increasing and holds exactly the character sequences it held before.
#[verifier::rlimit(100)]
#[verifier::spinoff_prover]
pub fn deduplicate(v: &mut Vec<String>)
    ensures
        strictly_sorted(final(v)@),
        forall|x: Seq<char>| contains_str(final(v)@, x) == contains_str(old(v)@, x),
{
    let mut out: Vec<String> = Vec::new();
    let mut idx: usize = 0;
    while idx < v.len()
        invariant
            idx <= v.len(),
            strictly_sorted(out@),
            forall|x: Seq<char>|
                contains_str(out@, x) == contains_str(v@.take(idx as int), x),
        decreases v.len() - idx,
    {
        let xc = chars_of(v[idx].as_str());
        let mut j: usize = 0;
        loop
            invariant
                j <= out.len(),
                xc@ == v@[idx as int]@,
                forall|k: int| 0 <= k < j ==> lex_lt(out@[k]@, xc@),
            ensures
                j <= out.len(),
                xc@ == v@[idx as int]@,
                forall|k: int| 0 <= k < j ==> lex_lt(out@[k]@, xc@),
                j < out.len() ==> !lex_lt(out@[j as int]@, xc@),
            decreases out.len() - j,
        {
            if j >= out.len() {
                break;
            }
            let cj = chars_of(out[j].as_str());
            if !chars_lt(&cj, &xc) {
                break;
            }
            j = j + 1;
        }
        let mut is_dup = false;
        if j < out.len() {
            if str_eq(out[j].as_str(), v[idx].as_str()) {
                is_dup = true;
            }
        }
        proof {
            assert(v@.take(idx + 1 as int) =~= v@.take(idx as int).push(v@[idx as int]));
        }
        if is_dup {
            proof {
                assert(contains_str(out@, v@[idx as int]@));
                assert forall|x: Seq<char>|
                    contains_str(out@, x) == contains_str(v@.take(idx + 1 as int), x) by {
                    lemma_contains_push(v@.take(idx as int), v@[idx as int], x);
                }
            }
        } else {
            let ghost old_out = out@;
            let elem = v[idx].clone();
            out.insert(j, elem);
            proof {
                old_out.insert_ensures(j as int, elem);
                if j < old_out.len() {
                    lemma_lex_connected(old_out[j as int]@, xc@);
                }
                assert(out@ =~= old_out.insert(j as int, elem));
                assert forall|p: int, q: int| 0 <= p < q < out@.len() implies lex_lt(
                    out@[p]@,
                    out@[q]@,
                ) by {
                    let x = xc@;
                    if p < j && q == j {
                        // old element before the new one
                        assert(lex_lt(out@[p]@, x));
                    } else if p == j && q > j {
                        // new element before a later old element
                        if q - 1 > j {
                            lemma_lex_trans(x, old_out[j as int]@, old_out[q - 1]@);
                        }
                    } else if p < j && q > j {
                        assert(lex_lt(old_out[p]@, old_out[q - 1]@));
                    } else if p > j && q > j {
                        assert(lex_lt(old_out[p - 1]@, old_out[q - 1]@));
                    }
                }
                assert forall|x: Seq<char>|
                    contains_str(out@, x) == contains_str(v@.take(idx + 1 as int), x) by {
                    lemma_contains_insert(old_out, j as int, elem, x);
                    lemma_contains_push(v@.take(idx as int), v@[idx as int], x);
                }
            }
        }
        idx = idx + 1;
    }
    proof {
        assert(v@.take(v@.len() as int) =~= v@);
    }
    *v = out;
}

} // verus!
