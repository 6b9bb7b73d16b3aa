//! Splitting byte sequences on a single-byte delimiter.
//!
//! The dataset grammar is line- and comma-delimited, so the loader reduces
//! to repeated splitting of a byte string on one delimiter byte.

use vstd::prelude::*;

verus! {

/// Line feed, the row terminator of the dataset.
pub const LF: u8 = 10;

/// Carriage return, tolerated immediately before a line feed.
pub const CR: u8 = 13;

/// Comma, the field delimiter of the dataset.
pub const COMMA: u8 = 44;

/// The pieces of `s` between occurrences of the delimiter `d`, in order.
///
/// Splitting always yields at least one piece: an input without the
/// delimiter is a single piece, and every delimiter occurrence closes the
/// piece before it and opens a new one, so `n` delimiters yield `n + 1`
/// pieces. The delimiter itself belongs to no piece.
pub open spec fn split_bytes(s: Seq<u8>, d: u8) -> Seq<Seq<u8>>
    decreases s.len(),
{
    if s.len() == 0 {
        seq![Seq::<u8>::empty()]
    } else if s[0] == d {
        seq![Seq::<u8>::empty()] + split_bytes(s.drop_first(), d)
    } else {
        let rest = split_bytes(s.drop_first(), d);
        seq![seq![s[0]] + rest[0]] + rest.drop_first()
    }
}

pub proof fn lemma_split_bytes_len(s: Seq<u8>, d: u8)
    ensures
        split_bytes(s, d).len() >= 1,
    decreases s.len(),
{
    if s.len() != 0 {
        lemma_split_bytes_len(s.drop_first(), d);
    }
}

/// Splitting an input without the delimiter yields that input as the one
/// piece.
pub proof fn lemma_split_no_delim(s: Seq<u8>, d: u8)
    requires
        forall|j: int| 0 <= j < s.len() ==> s[j] != d,
    ensures
        split_bytes(s, d) == seq![s],
    decreases s.len(),
{
    if s.len() == 0 {
        assert(split_bytes(s, d) =~~= seq![s]);
    } else {
        let sub = s.drop_first();
        lemma_split_no_delim(sub, d);
        assert(seq![s[0]] + sub =~= s);
        assert(split_bytes(s, d) =~~= seq![s]);
    }
}

/// Splitting at the first delimiter occurrence: everything before it is
/// the first piece, and the rest of the pieces are the split of
/// everything after it.
pub proof fn lemma_split_at_first(s: Seq<u8>, d: u8, i: int)
    requires
        0 <= i < s.len(),
        s[i] == d,
        forall|j: int| 0 <= j < i ==> s[j] != d,
    ensures
        split_bytes(s, d) == seq![s.take(i)] + split_bytes(s.skip(i + 1), d),
    decreases i,
{
    if i == 0 {
        assert(s.take(0) =~= Seq::<u8>::empty());
        assert(s.drop_first() =~= s.skip(1));
        assert(split_bytes(s, d) =~~= seq![s.take(0)] + split_bytes(s.skip(1), d));
    } else {
        let sub = s.drop_first();
        assert(sub[i - 1] == d);
        assert(forall|j: int| 0 <= j < i - 1 ==> sub[j] != d);
        lemma_split_at_first(sub, d, i - 1);
        let rest = split_bytes(sub, d);
        assert(rest[0] == sub.take(i - 1));
        assert(seq![s[0]] + sub.take(i - 1) =~= s.take(i));
        assert(rest.drop_first() =~= split_bytes(sub.skip(i), d));
        assert(sub.skip(i) =~= s.skip(i + 1));
        assert(split_bytes(s, d) =~~= seq![s.take(i)] + split_bytes(s.skip(i + 1), d));
    }
}

/// The position of the first occurrence of `d` in `s`, given that one
/// exists.
pub proof fn lemma_first_occurrence(s: Seq<u8>, d: u8) -> (i: int)
    requires
        exists|j: int| 0 <= j < s.len() && s[j] == d,
    ensures
        0 <= i < s.len(),
        s[i] == d,
        forall|j: int| 0 <= j < i ==> s[j] != d,
    decreases s.len(),
{
    if s[0] == d {
        0
    } else {
        let j0 = choose|j: int| 0 <= j < s.len() && s[j] == d;
        let sub = s.drop_first();
        assert(sub[j0 - 1] == d);
        let isub = lemma_first_occurrence(sub, d);
        assert forall|j: int| 0 <= j < isub + 1 implies s[j] != d by {
            if j > 0 {
                assert(s[j] == sub[j - 1]);
            }
        }
        isub + 1
    }
}

/// The pieces of `s` with the first piece extended on the left by `c`:
/// the shape of a partially assembled split, where `c` is the piece under
/// construction and `parts` is the split of the bytes not yet consumed.
pub open spec fn glue_first(c: Seq<u8>, parts: Seq<Seq<u8>>) -> Seq<Seq<u8>>
    recommends
        parts.len() >= 1,
{
    seq![c + parts[0]] + parts.drop_first()
}

proof fn lemma_glue_first_empty(parts: Seq<Seq<u8>>)
    requires
        parts.len() >= 1,
    ensures
        glue_first(Seq::<u8>::empty(), parts) == parts,
{
    assert(Seq::<u8>::empty() + parts[0] =~= parts[0]);
    assert(glue_first(Seq::<u8>::empty(), parts) =~= parts);
}

/// Splits `data` on the delimiter byte `d`.
pub fn split_on(data: &[u8], d: u8) -> (parts: Vec<Vec<u8>>)
    ensures
        parts.deep_view() == split_bytes(data@, d),
{
    let mut done: Vec<Vec<u8>> = Vec::new();
    let mut cur: Vec<u8> = Vec::new();
    let mut i: usize = 0;
    proof {
        lemma_split_bytes_len(data@, d);
        lemma_glue_first_empty(split_bytes(data@, d));
        assert(data@.skip(0) =~= data@);
    }
    while i < data.len()
        invariant
            i <= data@.len(),
            split_bytes(data@, d) == done.deep_view() + glue_first(
                cur@,
                split_bytes(data@.skip(i as int), d),
            ),
        decreases data@.len() - i,
    {
        let ghost prev_done = done.deep_view();
        let ghost prev_cur = cur@;
        let ghost rem = data@.skip(i as int);
        let b = *vstd::slice::slice_index_get(data, i);
        proof {
            assert(rem.len() > 0);
            assert(rem[0] == data@[i as int]);
            assert(rem.drop_first() =~= data@.skip(i as int + 1));
        }
        if b == d {
            done.push(cur);
            cur = Vec::new();
            proof {
                let next = split_bytes(data@.skip(i as int + 1), d);
                lemma_split_bytes_len(data@.skip(i as int + 1), d);
                lemma_glue_first_empty(next);
                assert(split_bytes(rem, d) == seq![Seq::<u8>::empty()] + next);
                assert(glue_first(prev_cur, seq![Seq::<u8>::empty()] + next) =~= seq![prev_cur]
                    + next);
                assert(done.deep_view() =~~= prev_done.push(prev_cur));
                assert(prev_done + (seq![prev_cur] + next) =~= done.deep_view() + glue_first(
                    cur@,
                    next,
                ));
            }
        } else {
            cur.push(b);
            proof {
                let next = split_bytes(data@.skip(i as int + 1), d);
                lemma_split_bytes_len(data@.skip(i as int + 1), d);
                assert(split_bytes(rem, d) == seq![seq![rem[0]] + next[0]] + next.drop_first());
                assert(prev_cur + (seq![rem[0]] + next[0]) =~= cur@ + next[0]);
                assert(glue_first(prev_cur, split_bytes(rem, d)) =~= glue_first(cur@, next));
            }
        }
        i = i + 1;
    }
    proof {
        assert(data@.skip(data@.len() as int) =~= Seq::<u8>::empty());
        assert(split_bytes(Seq::<u8>::empty(), d) == seq![Seq::<u8>::empty()]);
        assert(glue_first(cur@, seq![Seq::<u8>::empty()]) =~= seq![cur@]);
    }
    let ghost prev_done = done.deep_view();
    let ghost cur_v = cur@;
    done.push(cur);
    proof {
        assert(done.deep_view() =~~= prev_done + seq![cur_v]);
    }
    done
}

/// Byte-for-byte equality of two byte strings.
pub fn bytes_eq(a: &[u8], b: &[u8]) -> (r: bool)
    ensures
        r == (a@ == b@),
{
    if a.len() != b.len() {
        proof {
            assert(a@ != b@);
        }
        return false;
    }
    let mut i: usize = 0;
    while i < a.len()
        invariant
            i <= a@.len(),
            a@.len() == b@.len(),
            forall|j: int| 0 <= j < i ==> a@[j] == b@[j],
        decreases a@.len() - i,
    {
        if *vstd::slice::slice_index_get(a, i) != *vstd::slice::slice_index_get(b, i) {
            proof {
                assert(a@[i as int] != b@[i as int]);
            }
            return false;
        }
        i = i + 1;
    }
    proof {
        assert(a@ =~= b@);
    }
    true
}

} // verus!
