//! Byte strings cut at a separator byte, and put together again.

use vstd::prelude::*;

verus! {

/// The byte that separates keys and values in an info string: `\`.
pub const DELIMITER: u8 = 0x5c;

/// True if the byte `b` occurs nowhere in `s`.
pub open spec fn free_of(s: Seq<u8>, b: u8) -> bool {
    forall|i: int| 0 <= i < s.len() ==> s[i] != b
}

/// The index of the first occurrence of `b` in `s`, or the length of `s`
/// if there is none.
pub open spec fn first_index(s: Seq<u8>, b: u8) -> int
    decreases s.len(),
{
    if s.len() == 0 || s[0] == b {
        0
    } else {
        1 + first_index(s.skip(1), b)
    }
}

/// The segments of `s` between the occurrences of `sep`. A buffer with
/// `n` separators has `n + 1` segments, some of which may be empty.
pub open spec fn split(s: Seq<u8>, sep: u8) -> Seq<Seq<u8>>
    decreases s.len(),
{
    let i = first_index(s, sep);
    if 0 <= i < s.len() {
        seq![s.take(i)] + split(s.skip(i + 1), sep)
    } else {
        seq![s]
    }
}

/// The parts in order, with one `sep` between each two neighbours.
pub open spec fn join(parts: Seq<Seq<u8>>, sep: u8) -> Seq<u8>
    decreases parts.len(),
{
    if parts.len() == 0 {
        Seq::empty()
    } else if parts.len() == 1 {
        parts[0]
    } else {
        parts[0] + seq![sep] + join(parts.skip(1), sep)
    }
}

/// True if `sep` occurs in none of the parts.
pub open spec fn all_free_of(parts: Seq<Seq<u8>>, sep: u8) -> bool {
    forall|i: int| 0 <= i < parts.len() ==> free_of(#[trigger] parts[i], sep)
}

/// The parts that are not empty, in their order.
pub open spec fn non_empty(parts: Seq<Seq<u8>>) -> Seq<Seq<u8>> {
    parts.filter(|part: Seq<u8>| part.len() > 0)
}

/// The tokens of a list: what stands between the separators of `s`,
/// without what is empty. Separators in a row, in front or at the end
/// make no token.
pub open spec fn tokens(s: Seq<u8>, sep: u8) -> Seq<Seq<u8>> {
    non_empty(split(s, sep))
}

/// True if the bytes can be a token of a list with the separator `sep`
/// in a value: there is at least one, and none is the separator or the
/// delimiter.
pub open spec fn valid_token(token: Seq<u8>, sep: u8) -> bool {
    token.len() > 0 && free_of(token, sep) && free_of(token, DELIMITER)
}

/// True if the tokens can be those of a list with the separator `sep` in
/// a value. Where the separator is the delimiter, which no value holds,
/// a list has at most one token.
pub open spec fn valid_tokens(list: Seq<Seq<u8>>, sep: u8) -> bool {
    &&& forall|i: int| 0 <= i < list.len() ==> valid_token(#[trigger] list[i], sep)
    &&& sep == DELIMITER ==> list.len() <= 1
}

/// The byte strings that a sequence of vectors holds.
pub open spec fn views(v: Seq<Vec<u8>>) -> Seq<Seq<u8>> {
    Seq::new(v.len(), |i: int| v[i]@)
}

/// `first_index` is the one position before which `b` does not occur and
/// at which it does, unless the end is reached.
pub proof fn lemma_first_index(s: Seq<u8>, b: u8)
    ensures
        0 <= first_index(s, b) <= s.len(),
        free_of(s.take(first_index(s, b)), b),
        first_index(s, b) < s.len() ==> s[first_index(s, b)] == b,
        first_index(s, b) == s.len() <==> free_of(s, b),
    decreases s.len(),
{
    if s.len() == 0 || s[0] == b {
    } else {
        let t = s.skip(1);
        lemma_first_index(t, b);
        let i = first_index(t, b);
        let head = s.take(i + 1);
        assert forall|j: int| 0 <= j < head.len() implies head[j] != b by {
            if j > 0 {
                assert(t.take(i)[j - 1] == s[j]);
            }
        }
        if free_of(s, b) {
            assert forall|j: int| 0 <= j < t.len() implies t[j] != b by {
                assert(t[j] == s[j + 1]);
            }
        }
        if i == t.len() {
            assert forall|j: int| 0 <= j < s.len() implies s[j] != b by {
                if j > 0 {
                    assert(t[j - 1] == s[j]);
                }
            }
        }
    }
}

/// A position before which `b` does not occur and at which it does, or
/// which is the end, is `first_index`.
pub proof fn lemma_first_index_is(s: Seq<u8>, b: u8, i: int)
    requires
        0 <= i <= s.len(),
        forall|j: int| 0 <= j < i ==> s[j] != b,
        i < s.len() ==> s[i] == b,
    ensures
        first_index(s, b) == i,
    decreases s.len(),
{
    if s.len() == 0 || s[0] == b {
    } else {
        let t = s.skip(1);
        assert forall|j: int| 0 <= j < i - 1 implies t[j] != b by {
            assert(t[j] == s[j + 1]);
        }
        lemma_first_index_is(t, b, i - 1);
    }
}

/// A buffer without the separator is its own single segment.
pub proof fn lemma_split_whole(s: Seq<u8>, sep: u8)
    requires
        free_of(s, sep),
    ensures
        split(s, sep) == seq![s],
{
    lemma_first_index(s, sep);
}

/// A separator-free head, a separator and a tail: the segments are the
/// head and then those of the tail.
pub proof fn lemma_split_cons(head: Seq<u8>, sep: u8, tail: Seq<u8>)
    requires
        free_of(head, sep),
    ensures
        split(head + seq![sep] + tail, sep) == seq![head] + split(tail, sep),
{
    let s = head + seq![sep] + tail;
    lemma_first_index_is(s, sep, head.len() as int);
    assert(s.take(head.len() as int) =~= head);
    assert(s.skip(head.len() as int + 1) =~= tail);
}

/// There is at least one segment, and no segment holds the separator.
pub proof fn lemma_split_parts(s: Seq<u8>, sep: u8)
    ensures
        split(s, sep).len() >= 1,
        all_free_of(split(s, sep), sep),
    decreases s.len(),
{
    lemma_first_index(s, sep);
    let i = first_index(s, sep);
    if 0 <= i < s.len() {
        lemma_split_parts(s.skip(i + 1), sep);
        let rest = split(s.skip(i + 1), sep);
        assert forall|k: int| 0 <= k < split(s, sep).len() implies free_of(
            #[trigger] split(s, sep)[k],
            sep,
        ) by {
            if k > 0 {
                assert(split(s, sep)[k] == rest[k - 1]);
            }
        }
    }
}

/// Separator-free parts, at least one, are the segments of their join.
pub proof fn lemma_split_join(parts: Seq<Seq<u8>>, sep: u8)
    requires
        parts.len() >= 1,
        all_free_of(parts, sep),
    ensures
        split(join(parts, sep), sep) == parts,
    decreases parts.len(),
{
    if parts.len() == 1 {
        lemma_split_whole(parts[0], sep);
        assert(seq![parts[0]] =~= parts);
    } else {
        let rest = parts.skip(1);
        assert forall|k: int| 0 <= k < rest.len() implies free_of(#[trigger] rest[k], sep) by {
            assert(rest[k] == parts[k + 1]);
        }
        lemma_split_join(rest, sep);
        lemma_split_cons(parts[0], sep, join(rest, sep));
        assert(seq![parts[0]] + rest =~= parts);
    }
}

/// A buffer, a separator and a separator-free tail: the segments are
/// those of the buffer and then the tail.
pub proof fn lemma_split_snoc(s: Seq<u8>, sep: u8, tail: Seq<u8>)
    requires
        free_of(tail, sep),
    ensures
        split(s + seq![sep] + tail, sep) == split(s, sep).push(tail),
    decreases s.len(),
{
    lemma_first_index(s, sep);
    let i = first_index(s, sep);
    let whole = s + seq![sep] + tail;
    if 0 <= i < s.len() {
        let rest = s.skip(i + 1);
        assert forall|j: int| 0 <= j < i implies whole[j] != sep by {
            assert(s.take(i)[j] == whole[j]);
        }
        lemma_first_index_is(whole, sep, i);
        assert(whole.take(i) =~= s.take(i));
        assert(whole.skip(i + 1) =~= rest + seq![sep] + tail);
        lemma_split_snoc(rest, sep, tail);
        assert(seq![s.take(i)] + split(rest, sep).push(tail) =~= (seq![s.take(i)] + split(
            rest,
            sep,
        )).push(tail));
    } else {
        lemma_split_cons(s, sep, tail);
        lemma_split_whole(tail, sep);
        assert(seq![s] + seq![tail] =~= seq![s].push(tail));
    }
}

/// A byte that a buffer does not hold is in none of its segments.
pub proof fn lemma_split_free_of(s: Seq<u8>, sep: u8, b: u8)
    requires
        free_of(s, b),
    ensures
        all_free_of(split(s, sep), b),
    decreases s.len(),
{
    lemma_first_index(s, sep);
    let i = first_index(s, sep);
    if 0 <= i < s.len() {
        let tail = s.skip(i + 1);
        assert forall|j: int| 0 <= j < tail.len() implies tail[j] != b by {
            assert(tail[j] == s[i + 1 + j]);
        }
        lemma_split_free_of(tail, sep, b);
        let rest = split(tail, sep);
        assert forall|k: int| 0 <= k < split(s, sep).len() implies free_of(
            #[trigger] split(s, sep)[k],
            b,
        ) by {
            if k > 0 {
                assert(split(s, sep)[k] == rest[k - 1]);
            } else {
                assert forall|j: int| 0 <= j < s.take(i).len() implies s.take(i)[j] != b by {
                    assert(s.take(i)[j] == s[j]);
                }
            }
        }
    }
}

/// Joining with one more part at the end.
pub proof fn lemma_join_push(parts: Seq<Seq<u8>>, sep: u8, part: Seq<u8>)
    ensures
        join(parts.push(part), sep) == if parts.len() == 0 {
            part
        } else {
            join(parts, sep) + seq![sep] + part
        },
    decreases parts.len(),
{
    let longer = parts.push(part);
    if parts.len() == 0 {
    } else {
        let rest = parts.skip(1);
        lemma_join_push(rest, sep, part);
        assert(longer.skip(1) =~= rest.push(part));
        if rest.len() == 0 {
            assert(join(longer, sep) =~= parts[0] + seq![sep] + part);
        } else {
            assert(join(longer, sep) =~= parts[0] + seq![sep] + join(rest, sep) + seq![sep]
                + part);
            assert(join(parts, sep) =~= parts[0] + seq![sep] + join(rest, sep));
        }
    }
}

/// Parts of which none is empty are all kept.
pub proof fn lemma_non_empty_all(parts: Seq<Seq<u8>>)
    requires
        forall|i: int| 0 <= i < parts.len() ==> (#[trigger] parts[i]).len() > 0,
    ensures
        non_empty(parts) == parts,
    decreases parts.len(),
{
    reveal(Seq::filter);
    if parts.len() > 0 {
        let front = parts.drop_last();
        assert forall|i: int| 0 <= i < front.len() implies (#[trigger] front[i]).len() > 0 by {
            assert(front[i] == parts[i]);
        }
        lemma_non_empty_all(front);
        assert(front.push(parts.last()) =~= parts);
    }
}

/// What `non_empty` keeps is not empty and was among the parts, and it
/// keeps no more than there are.
pub proof fn lemma_non_empty_parts(parts: Seq<Seq<u8>>)
    ensures
        non_empty(parts).len() <= parts.len(),
        forall|i: int|
            0 <= i < non_empty(parts).len() ==> (#[trigger] non_empty(parts)[i]).len() > 0
                && parts.contains(non_empty(parts)[i]),
    decreases parts.len(),
{
    reveal(Seq::filter);
    if parts.len() > 0 {
        let front = parts.drop_last();
        lemma_non_empty_parts(front);
        assert forall|i: int| 0 <= i < non_empty(parts).len() implies (#[trigger] non_empty(
            parts,
        )[i]).len() > 0 && parts.contains(non_empty(parts)[i]) by {
            if i < non_empty(front).len() {
                let t = non_empty(front)[i];
                assert(front.contains(t));
                let k = choose|k: int| 0 <= k < front.len() && front[k] == t;
                assert(parts[k] == t);
            } else {
                assert(parts[parts.len() - 1] == non_empty(parts)[i]);
            }
        }
    }
}

/// The tokens of a value are valid tokens.
pub proof fn lemma_tokens_valid(s: Seq<u8>, sep: u8)
    requires
        free_of(s, DELIMITER),
    ensures
        valid_tokens(tokens(s, sep), sep),
{
    let parts = split(s, sep);
    lemma_split_parts(s, sep);
    lemma_split_free_of(s, sep, DELIMITER);
    lemma_non_empty_parts(parts);
    assert forall|i: int| 0 <= i < tokens(s, sep).len() implies valid_token(
        #[trigger] tokens(s, sep)[i],
        sep,
    ) by {
        let t = tokens(s, sep)[i];
        assert(parts.contains(t));
        let k = choose|k: int| 0 <= k < parts.len() && parts[k] == t;
        assert(free_of(parts[k], sep));
        assert(free_of(parts[k], DELIMITER));
    }
    if sep == DELIMITER {
        lemma_split_whole(s, sep);
    }
}

/// Valid tokens are the tokens of their join.
pub proof fn lemma_tokens_join(list: Seq<Seq<u8>>, sep: u8)
    requires
        forall|i: int| 0 <= i < list.len() ==> valid_token(#[trigger] list[i], sep),
    ensures
        tokens(join(list, sep), sep) == list,
{
    if list.len() == 0 {
        reveal_with_fuel(Seq::filter, 2);
        lemma_split_whole(Seq::<u8>::empty(), sep);
        let parts = seq![Seq::<u8>::empty()];
        assert(parts.drop_last() =~= Seq::<Seq<u8>>::empty());
        assert(non_empty(parts) =~= list);
    } else {
        lemma_split_join(list, sep);
        lemma_non_empty_all(list);
    }
}

/// The join of valid tokens is a value.
pub proof fn lemma_join_valid(list: Seq<Seq<u8>>, sep: u8)
    requires
        valid_tokens(list, sep),
    ensures
        free_of(join(list, sep), DELIMITER),
    decreases list.len(),
{
    if list.len() >= 2 {
        let rest = list.skip(1);
        assert forall|i: int| 0 <= i < rest.len() implies valid_token(#[trigger] rest[i], sep) by {
            assert(rest[i] == list[i + 1]);
        }
        lemma_join_valid(rest, sep);
    }
}

/// Tells whether `b` occurs in `s`.
pub fn has_byte(s: &[u8], b: u8) -> (found: bool)
    ensures
        found == !free_of(s@, b),
{
    let mut i: usize = 0;
    while i < s.len()
        invariant
            i <= s.len(),
            forall|j: int| 0 <= j < i ==> s@[j] != b,
        decreases s.len() - i,
    {
        if s[i] == b {
            return true;
        }
        i += 1;
    }
    false
}

/// Tells whether two buffers hold the same bytes.
pub fn same_bytes(a: &[u8], b: &[u8]) -> (same: bool)
    ensures
        same == (a@ == b@),
{
    if a.len() != b.len() {
        return false;
    }
    let mut i: usize = 0;
    while i < a.len()
        invariant
            i <= a.len() == b.len(),
            forall|j: int| 0 <= j < i ==> a@[j] == b@[j],
        decreases a.len() - i,
    {
        if a[i] != b[i] {
            return false;
        }
        i += 1;
    }
    assert(a@ =~= b@);
    true
}

/// Tells whether two lists hold the same byte strings in the same order.
pub fn same_lists(a: &Vec<Vec<u8>>, b: &Vec<Vec<u8>>) -> (same: bool)
    ensures
        same == (views(a@) == views(b@)),
{
    if a.len() != b.len() {
        assert(views(a@).len() != views(b@).len());
        return false;
    }
    let mut i: usize = 0;
    while i < a.len()
        invariant
            i <= a.len() == b.len(),
            forall|j: int| 0 <= j < i ==> a@[j]@ == b@[j]@,
        decreases a.len() - i,
    {
        if !same_bytes(a[i].as_slice(), b[i].as_slice()) {
            assert(views(a@)[i as int] != views(b@)[i as int]);
            return false;
        }
        i += 1;
    }
    assert(views(a@) =~= views(b@));
    true
}

/// Cuts `s` at every occurrence of `sep`.
pub fn split_bytes(s: &[u8], sep: u8) -> (parts: Vec<Vec<u8>>)
    ensures
        views(parts@) == split(s@, sep),
{
    let mut parts: Vec<Vec<u8>> = Vec::new();
    let mut current: Vec<u8> = Vec::new();
    let ghost mut start: int = 0;
    let mut i: usize = 0;
    proof {
        assert(s@.skip(0) =~= s@);
        assert(views(parts@) + split(s@, sep) =~= split(s@, sep));
    }
    while i < s.len()
        invariant
            0 <= start <= i <= s.len(),
            current@ == s@.subrange(start, i as int),
            free_of(current@, sep),
            split(s@, sep) == views(parts@) + split(s@.skip(start), sep),
        decreases s.len() - i,
    {
        let b = s[i];
        if b == sep {
            proof {
                let rest = s@.skip(start);
                assert forall|j: int| 0 <= j < i - start implies rest[j] != sep by {
                    assert(rest[j] == current@[j]);
                }
                lemma_first_index_is(rest, sep, i - start);
                assert(rest.take(i - start) =~= current@);
                assert(rest.skip(i - start + 1) =~= s@.skip(i + 1));
                assert(views(parts@.push(current)) =~= views(parts@) + seq![current@]);
            }
            parts.push(current);
            current = Vec::new();
            proof {
                start = i + 1;
                assert(current@ =~= s@.subrange(start, i + 1));
            }
        } else {
            current.push(b);
            proof {
                assert(current@ =~= s@.subrange(start, i + 1));
            }
        }
        i += 1;
    }
    proof {
        assert(s@.skip(start) =~= current@);
        lemma_split_whole(current@, sep);
        assert(views(parts@.push(current)) =~= views(parts@) + seq![current@]);
    }
    parts.push(current);
    parts
}

/// Cuts `s` at every occurrence of `sep` and keeps what is not empty.
pub fn split_tokens(s: &[u8], sep: u8) -> (list: Vec<Vec<u8>>)
    ensures
        views(list@) == tokens(s@, sep),
{
    let parts = split_bytes(s, sep);
    let mut list: Vec<Vec<u8>> = Vec::new();
    let mut i: usize = 0;
    proof {
        reveal(Seq::filter);
        assert(views(parts@).take(0) =~= Seq::<Seq<u8>>::empty());
        assert(views(list@) =~= Seq::<Seq<u8>>::empty());
    }
    while i < parts.len()
        invariant
            i <= parts.len(),
            views(list@) == non_empty(views(parts@).take(i as int)),
        decreases parts.len() - i,
    {
        proof {
            reveal(Seq::filter);
            let longer = views(parts@).take(i + 1);
            assert(longer.drop_last() =~= views(parts@).take(i as int));
            assert(longer.last() == parts@[i as int]@);
        }
        if parts[i].len() > 0 {
            let token = parts[i].clone();
            assert(token@ =~= parts@[i as int]@);
            proof {
                assert(views(list@.push(token)) =~= views(list@).push(token@));
            }
            list.push(token);
        }
        i += 1;
    }
    assert(views(parts@).take(i as int) =~= views(parts@));
    list
}

/// Puts the parts together, with one `sep` between each two neighbours.
pub fn join_bytes(parts: &Vec<Vec<u8>>, sep: u8) -> (whole: Vec<u8>)
    ensures
        whole@ == join(views(parts@), sep),
{
    let mut whole: Vec<u8> = Vec::new();
    let mut i: usize = 0;
    assert(views(parts@).take(0) =~= Seq::<Seq<u8>>::empty());
    while i < parts.len()
        invariant
            i <= parts.len(),
            whole@ == join(views(parts@).take(i as int), sep),
        decreases parts.len() - i,
    {
        proof {
            let before = views(parts@).take(i as int);
            lemma_join_push(before, sep, parts@[i as int]@);
            assert(before.push(parts@[i as int]@) =~= views(parts@).take(i + 1));
        }
        if i > 0 {
            whole.push(sep);
        }
        whole.extend_from_slice(parts[i].as_slice());
        i += 1;
    }
    assert(views(parts@).take(i as int) =~= views(parts@));
    whole
}

} // verus!
