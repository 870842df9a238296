//! Runic words: counting how many of the given runes occur inside each
//! word of an inscription.

use vstd::prelude::*;

verus! {

/// Whether `needle` occurs in `hay` starting at offset `off`.
pub open spec fn match_at(hay: Seq<u8>, needle: Seq<u8>, off: int) -> bool {
    &&& 0 <= off
    &&& off + needle.len() <= hay.len()
    &&& forall|i: int| 0 <= i < needle.len() ==> hay[off + i] == #[trigger] needle[i]
}

/// Whether `needle` occurs anywhere in `hay`.
pub open spec fn contains_sub(hay: Seq<u8>, needle: Seq<u8>) -> bool {
    exists|off: int| #[trigger] match_at(hay, needle, off)
}

/// Substring search; `true` exactly when the needle occurs.
pub fn find_sub(hay: &Vec<u8>, needle: &Vec<u8>) -> (r: bool)
    ensures
        r == contains_sub(hay@, needle@),
{
    if needle.len() > hay.len() {
        proof {
            if contains_sub(hay@, needle@) {
                let off = choose|off: int| #[trigger] match_at(hay@, needle@, off);
            }
        }
        return false;
    }
    let hlen = hay.len();
    let nlen = needle.len();
    let mut off: usize = 0;
    while off <= hlen - nlen
        invariant
            hlen == hay@.len(),
            nlen == needle@.len(),
            needle@.len() <= hay@.len(),
            off <= hay@.len() - needle@.len() + 1,
            forall|o: int| 0 <= o < off ==> !#[trigger] match_at(hay@, needle@, o),
        decreases hay@.len() - needle@.len() + 1 - off,
    {
        let mut i: usize = 0;
        while i < nlen && hay[off + i] == needle[i]
            invariant
                hlen == hay@.len(),
                nlen == needle@.len(),
                i <= needle@.len(),
                off + needle@.len() <= hay@.len(),
                forall|q: int| 0 <= q < i ==> hay@[off + q] == #[trigger] needle@[q],
            decreases needle@.len() - i,
        {
            i = i + 1;
        }
        if i == nlen {
            proof {
                assert(match_at(hay@, needle@, off as int));
            }
            return true;
        }
        proof {
            assert(hay@[off + i as int] != needle@[i as int]);
            assert(!match_at(hay@, needle@, off as int));
        }
        off = off + 1;
    }
    proof {
        if contains_sub(hay@, needle@) {
            let o = choose|o: int| #[trigger] match_at(hay@, needle@, o);
            assert(o < off);
        }
    }
    false
}

/// How many of the runes occur in a single word.
pub open spec fn word_count(runes: Seq<Seq<u8>>, word: Seq<u8>, k: int) -> int
    decreases k,
{
    if k <= 0 {
        0
    } else {
        word_count(runes, word, k - 1) + (if contains_sub(word, runes[k - 1]) {
            1int
        } else {
            0int
        })
    }
}

/// The total over all words.
pub open spec fn inscription_count(runes: Seq<Seq<u8>>, words: Seq<Seq<u8>>, k: int) -> int
    decreases k,
{
    if k <= 0 {
        0
    } else {
        inscription_count(runes, words, k - 1) + word_count(
            runes,
            words[k - 1],
            runes.len() as int,
        )
    }
}

/// Part one: the number of (word, rune) pairs where the rune occurs in the
/// word.
pub fn p1(runes: &Vec<Vec<u8>>, words: &Vec<Vec<u8>>) -> (r: u64)
    requires
        runes@.len() < 0x1_0000_0000,
        words@.len() < 0x1_0000_0000,
    ensures
        r as int == inscription_count(
            runes@.map_values(|x: Vec<u8>| x@),
            words@.map_values(|x: Vec<u8>| x@),
            words@.len() as int,
        ),
{
    let ghost rv = runes@.map_values(|x: Vec<u8>| x@);
    let ghost wv = words@.map_values(|x: Vec<u8>| x@);
    let mut total: u64 = 0;
    let mut w: usize = 0;
    while w < words.len()
        invariant
            w <= words@.len(),
            rv == runes@.map_values(|x: Vec<u8>| x@),
            wv == words@.map_values(|x: Vec<u8>| x@),
            runes@.len() < 0x1_0000_0000,
            words@.len() < 0x1_0000_0000,
            total as int == inscription_count(rv, wv, w as int),
            total <= (w as u64) * 0x1_0000_0000,
        decreases words@.len() - w,
    {
        proof {
            assert(wv[w as int] == words@[w as int]@);
        }
        let mut cnt: u64 = 0;
        let mut k: usize = 0;
        while k < runes.len()
            invariant
                k <= runes@.len(),
                w < words@.len(),
                rv == runes@.map_values(|x: Vec<u8>| x@),
                wv == words@.map_values(|x: Vec<u8>| x@),
                wv[w as int] == words@[w as int]@,
                runes@.len() < 0x1_0000_0000,
                cnt as int == word_count(rv, wv[w as int], k as int),
                cnt <= k as u64,
            decreases runes@.len() - k,
        {
            proof {
                assert(rv[k as int] == runes@[k as int]@);
            }
            if find_sub(&words[w], &runes[k]) {
                cnt = cnt + 1;
            }
            k = k + 1;
        }
        proof {
            assert(cnt as int == word_count(rv, wv[w as int], rv.len() as int));
        }
        total = total + cnt;
        w = w + 1;
    }
    total
}

} // verus!
