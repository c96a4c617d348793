//! Parsing of persisted digest record lines.
//!
//! A persisted line has the shape `lzjd:<name>:<payload>`: everything after
//! the last colon is the base64 payload, and everything between the fifth
//! character (the length of the literal `lzjd:`) and that colon is the name.

use vstd::prelude::*;
use vstd::string::StrSliceExecFns;

use crate::codec::b64_decode_of;
use crate::codec::entries_of_bytes;
use crate::lz_dict::LZDict;
use crate::LZJDError;

verus! {

/// The index of the last occurrence of `c` in `s`, or -1 if there is none.
pub open spec fn last_index_of(s: Seq<char>, c: char) -> int
    decreases s.len(),
{
    if s.len() == 0 {
        -1
    } else if s.last() == c {
        s.len() - 1
    } else {
        last_index_of(s.drop_last(), c)
    }
}

/// What the last occurrence means: the character stands there, and nowhere
/// later; -1 means it does not occur at all.
pub proof fn lemma_last_index_of(s: Seq<char>, c: char)
    ensures
        -1 <= last_index_of(s, c) < s.len(),
        last_index_of(s, c) == -1 ==> forall|k: int| 0 <= k < s.len() ==> s[k] != c,
        last_index_of(s, c) >= 0 ==> {
            &&& last_index_of(s, c) < s.len()
            &&& s[last_index_of(s, c)] == c
            &&& forall|k: int| last_index_of(s, c) < k < s.len() ==> s[k] != c
        },
    decreases s.len(),
{
    if s.len() > 0 && s.last() != c {
        lemma_last_index_of(s.drop_last(), c);
        assert(forall|k: int| 0 <= k < s.len() - 1 ==> s[k] == s.drop_last()[k]);
    }
}

/// Parse one persisted digest line into its name and sketch. Fails with a
/// parse error when the line has no colon after the name position, and with
/// the payload's own error when the base64 payload is malformed or its
/// decoded length is not a multiple of eight.
pub fn parse_digest_line(line: &str) -> (r: Result<(String, LZDict), LZJDError>)
    ensures
        ({
            let ci = last_index_of(line@, ':');
            match r {
                Ok((name, dict)) => {
                    &&& ci > 5
                    &&& name@ == line@.subrange(5, ci)
                    &&& b64_decode_of(line@.subrange(ci + 1, line@.len() as int)) is Some
                    &&& b64_decode_of(
                        line@.subrange(ci + 1, line@.len() as int),
                    ).unwrap().len() % 8 == 0
                    &&& dict@ == entries_of_bytes(
                        b64_decode_of(line@.subrange(ci + 1, line@.len() as int)).unwrap(),
                    )
                },
                Err(e) => {
                    if ci <= 5 {
                        e is Parse
                    } else {
                        match b64_decode_of(line@.subrange(ci + 1, line@.len() as int)) {
                            Option::None => e is Base64,
                            Option::Some(bytes) => bytes.len() % 8 != 0 && e is Decode,
                        }
                    }
                },
            }
        }),
{
    let n = line.unicode_len();
    let mut k = n;
    let mut colon: usize = 0;
    let mut found = false;
    while k > 0 && !found
        invariant
            k <= n,
            n == line@.len(),
            !found ==> forall|m: int| k <= m < n ==> line@[m] != ':',
            found ==> {
                &&& k >= 1
                &&& colon == k - 1
                &&& line@[colon as int] == ':'
                &&& forall|m: int| colon < m < n ==> line@[m] != ':'
            },
        decreases k + (if found {
            0int
        } else {
            1int
        }),
    {
        if line.get_char(k - 1) == ':' {
            found = true;
            colon = k - 1;
        } else {
            k = k - 1;
        }
    }
    proof {
        lemma_last_index_of(line@, ':');
        if found {
            let li = last_index_of(line@, ':');
            assert(li == colon) by {
                if li > colon {
                    assert(line@[li] != ':');
                    assert(false);
                } else if li < colon {
                    if li == -1 {
                        assert(line@[colon as int] != ':');
                    } else {
                        assert(0 <= li < colon < line@.len());
                        assert(line@[colon as int] != ':');
                    }
                    assert(false);
                }
            }
        } else {
            assert(forall|m: int| 0 <= m < n ==> line@[m] != ':');
            if last_index_of(line@, ':') >= 0 {
                assert(line@[last_index_of(line@, ':')] != ':');
            }
        }
    }
    if !found || colon <= 5 {
        return Err(LZJDError::Parse);
    }
    let name = line.substring_char(5, colon).to_owned();
    let payload = line.substring_char(colon + 1, n);
    match LZDict::from_base64_string(payload) {
        Ok(dict) => Ok((name, dict)),
        Err(e) => Err(e),
    }
}

} // verus!
