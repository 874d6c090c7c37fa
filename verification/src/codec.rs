use vstd::bytes::{
    lemma_auto_spec_u64_to_from_le_bytes, spec_u64_from_le_bytes, spec_u64_to_le_bytes,
    u64_from_le_bytes, u64_to_le_bytes,
};
use vstd::prelude::*;
use vstd::slice::slice_subrange;

verus! {

/// The stored form of a sequence of words: eight bytes for each, the least
/// significant first.
pub open spec fn words_to_bytes(words: Seq<u64>) -> Seq<u8>
    decreases words.len(),
{
    if words.len() == 0 {
        Seq::empty()
    } else {
        words_to_bytes(words.drop_last()) + spec_u64_to_le_bytes(words.last())
    }
}

/// The words that bytes store, where their number is a multiple of eight.
pub open spec fn bytes_to_words(bytes: Seq<u8>) -> Option<Seq<u64>> {
    if bytes.len() % 8 != 0 {
        None
    } else {
        Some(
            Seq::new(
                bytes.len() / 8,
                |i: int| spec_u64_from_le_bytes(bytes.subrange(8 * i, 8 * i + 8)),
            ),
        )
    }
}

/// Each word takes eight bytes, and stands where its position says.
pub proof fn lemma_words_layout(words: Seq<u64>)
    ensures
        words_to_bytes(words).len() == 8 * words.len(),
        forall|i: int|
            0 <= i < words.len() ==> #[trigger] words_to_bytes(words).subrange(8 * i, 8 * i + 8)
                == spec_u64_to_le_bytes(words[i]),
    decreases words.len(),
{
    lemma_auto_spec_u64_to_from_le_bytes();
    if words.len() > 0 {
        let front = words.drop_last();
        lemma_words_layout(front);
        let all = words_to_bytes(words);
        assert forall|i: int| 0 <= i < words.len() implies #[trigger] all.subrange(
            8 * i,
            8 * i + 8,
        ) == spec_u64_to_le_bytes(words[i]) by {
            if i < front.len() {
                assert(all.subrange(8 * i, 8 * i + 8) =~= words_to_bytes(front).subrange(
                    8 * i,
                    8 * i + 8,
                ));
                assert(front[i] == words[i]);
            } else {
                assert(all.subrange(8 * i, 8 * i + 8) =~= spec_u64_to_le_bytes(words.last()));
            }
        }
    }
}

/// Words that were stored read back as they were.
pub proof fn lemma_words_round_trip(words: Seq<u64>)
    ensures
        bytes_to_words(words_to_bytes(words)) == Some(words),
{
    lemma_auto_spec_u64_to_from_le_bytes();
    lemma_words_layout(words);
    let bytes = words_to_bytes(words);
    let read = bytes_to_words(bytes)->Some_0;
    assert(read.len() == words.len());
    assert forall|i: int| 0 <= i < words.len() implies read[i] == words[i] by {
        assert(bytes.subrange(8 * i, 8 * i + 8) == spec_u64_to_le_bytes(words[i]));
    }
    assert(read =~= words);
}

/// Stores a sequence of words.
pub fn encode_words(words: &Vec<u64>) -> (bytes: Vec<u8>)
    ensures
        bytes@ == words_to_bytes(words@),
{
    let mut bytes: Vec<u8> = Vec::new();
    let mut i: usize = 0;
    while i < words.len()
        invariant
            i <= words@.len(),
            bytes@ == words_to_bytes(words@.subrange(0, i as int)),
        decreases words@.len() - i,
    {
        let mut word = u64_to_le_bytes(words[i]);
        bytes.append(&mut word);
        proof {
            let upto = words@.subrange(0, i + 1);
            assert(upto.drop_last() =~= words@.subrange(0, i as int));
            assert(upto.last() == words@[i as int]);
        }
        i += 1;
    }
    assert(words@.subrange(0, words@.len() as int) =~= words@);
    bytes
}

/// Reads a sequence of words back. Fails exactly where the number of bytes
/// is no multiple of eight.
pub fn decode_words(bytes: &Vec<u8>) -> (words: Option<Vec<u64>>)
    ensures
        match bytes_to_words(bytes@) {
            Some(read) => words is Some && words->Some_0@ == read,
            None => words is None,
        },
{
    if bytes.len() % 8 != 0 {
        return None;
    }
    let count: usize = bytes.len() / 8;
    assert(8 * count == bytes@.len());
    let mut words: Vec<u64> = Vec::new();
    let mut i: usize = 0;
    while i < count
        invariant
            i <= count,
            count == bytes@.len() / 8,
            bytes@.len() % 8 == 0,
            8 * count == bytes@.len(),
            bytes@.len() <= usize::MAX,
            words@.len() == i,
            forall|j: int|
                0 <= j < i ==> (#[trigger] words@[j]) == spec_u64_from_le_bytes(
                    bytes@.subrange(8 * j, 8 * j + 8),
                ),
        decreases count - i,
    {
        let chunk = slice_subrange(bytes.as_slice(), 8 * i, 8 * i + 8);
        words.push(u64_from_le_bytes(chunk));
        i += 1;
    }
    assert(words@ =~= bytes_to_words(bytes@)->Some_0);
    Some(words)
}

/// The words that store a sequence of lists: for each list its length and
/// then its words.
pub open spec fn flatten(lists: Seq<Seq<u64>>) -> Seq<u64>
    decreases lists.len(),
{
    if lists.len() == 0 {
        Seq::empty()
    } else {
        seq![lists[0].len() as u64] + lists[0] + flatten(lists.drop_first())
    }
}

/// The lists that words store, where each length is followed by as many
/// words as it says.
pub open spec fn unflatten(words: Seq<u64>) -> Option<Seq<Seq<u64>>>
    decreases words.len(),
{
    if words.len() == 0 {
        Some(Seq::empty())
    } else if words[0] > words.len() - 1 {
        None
    } else {
        let length = words[0] as int;
        match unflatten(words.subrange(1 + length, words.len() as int)) {
            Some(rest) => Some(seq![words.subrange(1, 1 + length)] + rest),
            None => None,
        }
    }
}

/// The lists read so far, followed by those that the remaining words store.
pub open spec fn followed_by(read: Seq<Seq<u64>>, rest: Option<Seq<Seq<u64>>>) -> Option<
    Seq<Seq<u64>>,
> {
    match rest {
        Some(rest) => Some(read + rest),
        None => None,
    }
}

/// Whether no list is too long for its length to be stored.
pub open spec fn storable(lists: Seq<Seq<u64>>) -> bool {
    forall|i: int| 0 <= i < lists.len() ==> (#[trigger] lists[i]).len() <= u64::MAX
}

/// A list added behind the others is stored behind them.
pub proof fn lemma_flatten_push(lists: Seq<Seq<u64>>, last: Seq<u64>)
    ensures
        flatten(lists.push(last)) == flatten(lists) + seq![last.len() as u64] + last,
    decreases lists.len(),
{
    if lists.len() == 0 {
        assert(lists.push(last).drop_first() =~= Seq::<Seq<u64>>::empty());
        assert(flatten(lists.push(last).drop_first()) =~= Seq::<u64>::empty());
        assert(flatten(lists.push(last)) =~= flatten(lists) + seq![last.len() as u64] + last);
    } else {
        lemma_flatten_push(lists.drop_first(), last);
        assert(lists.push(last).drop_first() =~= lists.drop_first().push(last));
        assert(flatten(lists.push(last)) =~= flatten(lists) + seq![last.len() as u64] + last);
    }
}

/// Lists that were stored read back as they were.
pub proof fn lemma_lists_round_trip(lists: Seq<Seq<u64>>)
    requires
        storable(lists),
    ensures
        unflatten(flatten(lists)) == Some(lists),
    decreases lists.len(),
{
    if lists.len() > 0 {
        let rest = lists.drop_first();
        assert forall|i: int| 0 <= i < rest.len() implies (#[trigger] rest[i]).len()
            <= u64::MAX by {
            assert(rest[i] == lists[i + 1]);
        }
        lemma_lists_round_trip(rest);
        let words = flatten(lists);
        let length = lists[0].len() as int;
        assert(words[0] == lists[0].len() as u64);
        assert(words.subrange(1, 1 + length) =~= lists[0]);
        assert(words.subrange(1 + length, words.len() as int) =~= flatten(rest));
        assert(seq![lists[0]] + rest =~= lists);
    }
}

/// The lists of a vector of vectors.
pub open spec fn lists_of(lists: Seq<Vec<u64>>) -> Seq<Seq<u64>> {
    Seq::new(lists.len(), |i: int| lists[i]@)
}

/// Stores a sequence of lists as words.
pub fn encode_lists(lists: &Vec<Vec<u64>>) -> (words: Vec<u64>)
    ensures
        words@ == flatten(lists_of(lists@)),
{
    let mut words: Vec<u64> = Vec::new();
    let mut i: usize = 0;
    while i < lists.len()
        invariant
            i <= lists@.len(),
            words@ == flatten(lists_of(lists@).subrange(0, i as int)),
        decreases lists@.len() - i,
    {
        let list = &lists[i];
        let ghost before = words@;
        words.push(list.len() as u64);
        let mut j: usize = 0;
        while j < list.len()
            invariant
                j <= list@.len(),
                words@ == before + seq![list@.len() as u64] + list@.subrange(0, j as int),
            decreases list@.len() - j,
        {
            words.push(list[j]);
            assert(words@ =~= before + seq![list@.len() as u64] + list@.subrange(0, j + 1));
            j += 1;
        }
        proof {
            assert(list@.subrange(0, list@.len() as int) =~= list@);
            lemma_flatten_push(lists_of(lists@).subrange(0, i as int), list@);
            assert(lists_of(lists@).subrange(0, i + 1) =~= lists_of(lists@).subrange(
                0,
                i as int,
            ).push(list@));
        }
        i += 1;
    }
    assert(lists_of(lists@).subrange(0, lists@.len() as int) =~= lists_of(lists@));
    words
}

/// Reads a sequence of lists back from words. Fails exactly where a length
/// is followed by fewer words than it says.
pub fn decode_lists(words: &Vec<u64>) -> (lists: Option<Vec<Vec<u64>>>)
    ensures
        match unflatten(words@) {
            Some(read) => lists is Some && lists_of(lists->Some_0@) == read,
            None => lists is None,
        },
{
    let mut lists: Vec<Vec<u64>> = Vec::new();
    let mut at: usize = 0;
    let total: usize = words.len();
    proof {
        assert(words@.subrange(0, total as int) =~= words@);
        if let Some(all) = unflatten(words@) {
            assert(lists_of(lists@) + all =~= all);
        }
    }
    while at < total
        invariant
            at <= words@.len(),
            total == words@.len(),
            unflatten(words@) == followed_by(
                lists_of(lists@),
                unflatten(words@.subrange(at as int, words@.len() as int)),
            ),
        decreases words@.len() - at,
    {
        let ghost rest = words@.subrange(at as int, words@.len() as int);
        let ghost read = lists_of(lists@);
        assert(rest[0] == words@[at as int]);
        let length: u64 = words[at];
        if length > (words.len() - at - 1) as u64 {
            return None;
        }
        let end: usize = at + 1 + length as usize;
        let mut list: Vec<u64> = Vec::new();
        let mut j: usize = at + 1;
        while j < end
            invariant
                at + 1 <= j <= end,
                end <= words@.len(),
                list@ == words@.subrange(at + 1, j as int),
            decreases end - j,
        {
            list.push(words[j]);
            assert(list@ =~= words@.subrange(at + 1, j + 1));
            j += 1;
        }
        proof {
            assert(rest.subrange(1, 1 + length as int) =~= list@);
            assert(rest.subrange(1 + length as int, rest.len() as int) =~= words@.subrange(
                end as int,
                words@.len() as int,
            ));
        }
        lists.push(list);
        proof {
            assert(lists_of(lists@) =~= read.push(list@));
            let after = unflatten(words@.subrange(end as int, words@.len() as int));
            if let Some(tail) = after {
                assert(read + (seq![list@] + tail) =~= read.push(list@) + tail);
            }
        }
        at = end;
    }
    proof {
        assert(words@.subrange(at as int, words@.len() as int) =~= Seq::<u64>::empty());
        assert(lists_of(lists@) + Seq::<Seq<u64>>::empty() =~= lists_of(lists@));
    }
    Some(lists)
}

} // verus!
