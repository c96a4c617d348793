//! Canonical LZ78 parsing: a phrase table where every phrase extends an
//! earlier one by a single byte.

use vstd::prelude::*;

verus! {

/// A well-formed phrase table: a synthetic root at index 0, and every other
/// phrase pointing at an earlier phrase as its parent.
pub open spec fn phrase_table_wf(dict: Seq<(usize, u8)>) -> bool {
    &&& dict.len() >= 1
    &&& dict[0] == (0usize, 0u8)
    &&& forall|j: int| 1 <= j < dict.len() ==> (#[trigger] dict[j]).0 < j
}

/// One LZ78 parsing step on state (phrase table, last matching index): if
/// some phrase equals `(lmi, b)`, the match extends to the first such phrase;
/// otherwise `(lmi, b)` is appended as a new phrase and matching restarts at
/// the root.
pub open spec fn lz78_step(dict: Seq<(usize, u8)>, lmi: usize, b: u8) -> (Seq<(usize, u8)>, usize) {
    match dict.index_of_first((lmi, b)) {
        Some(j) => (dict, j as usize),
        None => (dict.push((lmi, b)), 0usize),
    }
}

/// The LZ78 parsing state after consuming `seq`, starting from the lone root
/// phrase and matching from the root.
pub open spec fn lz78_state(seq: Seq<u8>) -> (Seq<(usize, u8)>, usize)
    decreases seq.len(),
{
    if seq.len() == 0 {
        (seq![(0usize, 0u8)], 0usize)
    } else {
        let prev = lz78_state(seq.drop_last());
        lz78_step(prev.0, prev.1, seq.last())
    }
}

/// The byte path of a phrase: the bytes fed root-to-leaf along its parent
/// chain. The root's path is empty.
pub open spec fn path_bytes(dict: Seq<(usize, u8)>, index: int) -> Seq<u8>
    decreases index,
    when phrase_table_wf(dict) && 0 <= index < dict.len()
{
    if index <= 0 {
        Seq::empty()
    } else {
        path_bytes(dict, dict[index].0 as int).push(dict[index].1)
    }
}

/// A phrase's byte path is no longer than its index: every step down the
/// parent chain strictly lowers the index and adds one byte.
pub proof fn lemma_path_bytes_len(dict: Seq<(usize, u8)>, index: int)
    requires
        phrase_table_wf(dict),
        0 <= index < dict.len(),
    ensures
        path_bytes(dict, index).len() <= index,
    decreases index,
{
    if index > 0 {
        lemma_path_bytes_len(dict, dict[index].0 as int);
    }
}

/// Parse a byte stream into its exact LZ78 phrase table. Beyond the root,
/// the table gains at most one phrase per input byte.
pub fn lz78_parse(seq: &Vec<u8>) -> (r: Vec<(usize, u8)>)
    ensures
        r@ == lz78_state(seq@).0,
        phrase_table_wf(r@),
        r@.len() <= seq@.len() + 1,
{
    let mut dict: Vec<(usize, u8)> = Vec::new();
    dict.push((0, 0));
    let mut lmi: usize = 0;
    let mut i: usize = 0;
    proof {
        assert(dict@ =~= lz78_state(seq@.subrange(0, 0)).0);
    }
    while i < seq.len()
        invariant
            i <= seq@.len(),
            dict@ == lz78_state(seq@.subrange(0, i as int)).0,
            lmi == lz78_state(seq@.subrange(0, i as int)).1,
            phrase_table_wf(dict@),
            lmi < dict@.len(),
            dict@.len() <= i + 1,
        decreases seq@.len() - i,
    {
        let b = seq[i];
        let mut j: usize = 0;
        let mut found: bool = false;
        while !found && j < dict.len()
            invariant
                j <= dict@.len(),
                forall|k: int| 0 <= k < j ==> dict@[k] != (lmi, b),
                found ==> j < dict@.len() && dict@[j as int] == (lmi, b),
            decreases dict@.len() - j + (if found { 0int } else { 1int }),
        {
            let entry = dict[j];
            if entry.0 == lmi && entry.1 == b {
                found = true;
            } else {
                j = j + 1;
            }
        }
        proof {
            dict@.index_of_first_ensures((lmi, b));
            assert(seq@.subrange(0, i + 1).drop_last() =~= seq@.subrange(0, i as int));
            assert(seq@.subrange(0, i + 1).last() == seq@[i as int]);
        }
        if found {
            proof {
                assert(dict@.contains((lmi, b)));
                assert(dict@.index_of_first((lmi, b)) == Some(j as int));
            }
            lmi = j;
        } else {
            proof {
                assert(!dict@.contains((lmi, b))) by {
                    assert(forall|k: int|
                        0 <= k < dict@.len() ==> dict@[k] != (lmi, b));
                }
            }
            dict.push((lmi, b));
            lmi = 0;
        }
        i = i + 1;
    }
    proof {
        assert(seq@.subrange(0, seq@.len() as int) =~= seq@);
    }
    dict
}

} // verus!
