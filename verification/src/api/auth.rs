//! Extraction of a bearer token from an Authorization header value.
use vstd::prelude::*;

verus! {

/// The scheme prefix an Authorization header must carry.
pub open spec fn bearer_prefix() -> Seq<char> {
    seq!['B', 'e', 'a', 'r', 'e', 'r', ' ']
}

/// The token after `Bearer `, or nothing when the header does not carry that
/// scheme.
pub fn extract_bearer(header: &str) -> (r: Option<String>)
    ensures
        match r {
            Some(t) => header@.len() >= 7 && header@.take(7) == bearer_prefix() && t@
                == header@.skip(7),
            None => header@.len() < 7 || header@.take(7) != bearer_prefix(),
        },
{
    let cs = crate::text::chars_of(header);
    if cs.len() < 7 {
        return None;
    }
    let expected: [char; 7] = ['B', 'e', 'a', 'r', 'e', 'r', ' '];
    let mut i: usize = 0;
    while i < 7
        invariant
            i <= 7,
            cs.len() >= 7,
            cs@ == header@,
            expected@ == bearer_prefix(),
            forall|k: int| 0 <= k < i ==> cs@[k] == bearer_prefix()[k],
        decreases 7 - i,
    {
        if cs[i] != expected[i] {
            proof {
                assert(header@.take(7)[i as int] != bearer_prefix()[i as int]);
            }
            return None;
        }
        i = i + 1;
    }
    let mut rest: Vec<char> = Vec::new();
    let mut j: usize = 7;
    while j < cs.len()
        invariant
            7 <= j <= cs.len(),
            cs@ == header@,
            rest@ == cs@.subrange(7, j as int),
        decreases cs.len() - j,
    {
        rest.push(cs[j]);
        proof {
            assert(cs@.subrange(7, j + 1 as int) =~= cs@.subrange(7, j as int).push(
                cs@[j as int],
            ));
        }
        j = j + 1;
    }
    proof {
        assert(header@.take(7) =~= bearer_prefix());
        assert(rest@ =~= header@.skip(7));
    }
    Some(crate::text::string_of_chars(&rest))
}

} // verus!
