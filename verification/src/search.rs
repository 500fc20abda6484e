use vstd::prelude::*;

verus! {

/// `needle` occurs in `hay` starting at index `i`.
pub open spec fn occurs_at(hay: Seq<u8>, needle: Seq<u8>, i: int) -> bool {
    &&& 0 <= i
    &&& i + needle.len() <= hay.len()
    &&& hay.subrange(i, i + needle.len()) == needle
}

/// The first index at or after `start` where `needle` occurs in `hay`.
pub open spec fn first_match_from(hay: Seq<u8>, needle: Seq<u8>, start: int) -> Option<int>
    decreases hay.len() + 1 - start,
{
    if start < 0 || start + needle.len() > hay.len() {
        None
    } else if hay.subrange(start, start + needle.len()) == needle {
        Some(start)
    } else {
        first_match_from(hay, needle, start + 1)
    }
}

/// The first index where `needle` occurs in `hay`.
pub open spec fn first_match(hay: Seq<u8>, needle: Seq<u8>) -> Option<int> {
    first_match_from(hay, needle, 0)
}

/// `first_match_from` finds the earliest occurrence at or after `start`, and
/// reports none exactly when there is none.
pub proof fn lemma_first_match_from(hay: Seq<u8>, needle: Seq<u8>, start: int)
    requires
        0 <= start,
    ensures
        match first_match_from(hay, needle, start) {
            Some(i) => start <= i && occurs_at(hay, needle, i) && forall|j: int|
                start <= j < i ==> !occurs_at(hay, needle, j),
            None => forall|j: int| start <= j ==> !occurs_at(hay, needle, j),
        },
    decreases hay.len() + 1 - start,
{
    if start + needle.len() > hay.len() {
    } else if hay.subrange(start, start + needle.len()) == needle {
    } else {
        lemma_first_match_from(hay, needle, start + 1);
    }
}

/// The first match is the only occurrence with no occurrence before it.
pub proof fn lemma_first_match_unique(hay: Seq<u8>, needle: Seq<u8>, i: int)
    requires
        occurs_at(hay, needle, i),
        forall|j: int| 0 <= j < i ==> !occurs_at(hay, needle, j),
    ensures
        first_match(hay, needle) == Some(i),
{
    lemma_first_match_from(hay, needle, 0);
}

/// Position of the first occurrence of `needle` in `hay`.
pub fn find_subslice(hay: &[u8], needle: &[u8]) -> (r: Option<usize>)
    requires
        needle@.len() > 0,
    ensures
        r matches Some(i) ==> first_match(hay@, needle@) == Some(i as int),
        r is None ==> first_match(hay@, needle@) is None,
        r matches Some(i) ==> occurs_at(hay@, needle@, i as int),
        r matches Some(i) ==> forall|j: int| 0 <= j < i ==> !occurs_at(hay@, needle@, j),
        r is None ==> forall|j: int| 0 <= j ==> !occurs_at(hay@, needle@, j),
{
    let n = needle.len();
    let hlen = hay.len();
    if n > hlen {
        proof {
            lemma_first_match_from(hay@, needle@, 0);
        }
        return None;
    }
    let last = hay.len() - n;
    let mut i: usize = 0;
    while i <= last
        invariant
            n == needle@.len(),
            n > 0,
            n <= hay@.len(),
            last == hay@.len() - n,
            hay@.len() == hlen,
            i <= last + 1,
            first_match(hay@, needle@) == first_match_from(hay@, needle@, i as int),
        decreases last + 1 - i,
    {
        let mut j: usize = 0;
        let mut same = true;
        while j < n
            invariant
                n == needle@.len(),
                i + n <= hay@.len(),
                hay@.len() == hlen,
                j <= n,
                same == (forall|k: int| 0 <= k < j ==> hay@[i + k] == needle@[k]),
            decreases n - j,
        {
            if hay[i + j] != needle[j] {
                same = false;
            }
            j = j + 1;
        }
        if same {
            assert(hay@.subrange(i as int, i + n) =~= needle@);
            proof {
                lemma_first_match_from(hay@, needle@, 0);
            }
            return Some(i);
        }
        assert(hay@.subrange(i as int, i + n) != needle@) by {
            let k = choose|k: int| 0 <= k < n && hay@[i + k] != needle@[k];
            assert(hay@.subrange(i as int, i + n)[k] == hay@[i + k]);
        }
        i = i + 1;
    }
    proof {
        lemma_first_match_from(hay@, needle@, 0);
    }
    None
}

} // verus!
