use vstd::prelude::*;

verus! {

/// The chunks of `data` from offset `pos` on: consecutive slices of `size` bytes, the
/// last one possibly shorter, none empty.
pub open spec fn chunks_from(data: Seq<u8>, size: nat, pos: nat) -> Seq<Seq<u8>>
    decreases data.len() - pos,
{
    if size == 0 || pos >= data.len() {
        Seq::empty()
    } else {
        let end = if pos + size < data.len() { pos + size } else { data.len() };
        seq![data.subrange(pos as int, end as int)] + chunks_from(data, size, end)
    }
}

/// The chunks of a whole file.
pub open spec fn split_chunks(data: Seq<u8>, size: nat) -> Seq<Seq<u8>> {
    chunks_from(data, size, 0)
}

/// The concatenation of a sequence of byte strings.
pub open spec fn concat_all(s: Seq<Seq<u8>>) -> Seq<u8>
    decreases s.len(),
{
    if s.len() == 0 {
        Seq::empty()
    } else {
        s[0] + concat_all(s.drop_first())
    }
}

/// Concatenating one more string at the end appends it.
pub proof fn lemma_concat_push(s: Seq<Seq<u8>>, x: Seq<u8>)
    ensures
        concat_all(s.push(x)) == concat_all(s) + x,
    decreases s.len(),
{
    if s.len() == 0 {
        assert(s.push(x).drop_first() =~= Seq::<Seq<u8>>::empty());
        assert(s.push(x)[0] == x);
        assert(concat_all(s.push(x).drop_first()) == Seq::<u8>::empty());
        assert(concat_all(s.push(x)) =~= x);
    } else {
        assert(s.push(x).drop_first() =~= s.drop_first().push(x));
        lemma_concat_push(s.drop_first(), x);
        assert(concat_all(s.push(x)) =~= concat_all(s) + x);
    }
}

/// Splitting off the first string of a suffix.
pub proof fn lemma_concat_skip(s: Seq<Seq<u8>>, i: int)
    requires
        0 <= i < s.len(),
    ensures
        concat_all(s.subrange(i, s.len() as int)) == s[i] + concat_all(s.subrange(i + 1, s.len() as int)),
{
    assert(s.subrange(i, s.len() as int).drop_first() =~= s.subrange(i + 1, s.len() as int));
}

/// The chunks from `pos` on are non-empty, at most `size` long, and concatenate to the
/// rest of the data.
pub proof fn lemma_chunks_from(data: Seq<u8>, size: nat, pos: nat)
    requires
        size > 0,
        pos <= data.len(),
    ensures
        concat_all(chunks_from(data, size, pos)) == data.subrange(pos as int, data.len() as int),
        forall|i: int| 0 <= i < chunks_from(data, size, pos).len() ==>
            0 < #[trigger] chunks_from(data, size, pos)[i].len() <= size,
    decreases data.len() - pos,
{
    if pos < data.len() {
        let end = if pos + size < data.len() { pos + size } else { data.len() };
        lemma_chunks_from(data, size, end);
        let c = chunks_from(data, size, pos);
        assert(c.drop_first() =~= chunks_from(data, size, end));
        assert(concat_all(c) =~= data.subrange(pos as int, data.len() as int));
        assert forall|i: int| 0 <= i < c.len() implies 0 < #[trigger] c[i].len() <= size by {
            if i > 0 {
                assert(c[i] == chunks_from(data, size, end)[i - 1]);
            }
        }
    } else {
        assert(data.subrange(pos as int, data.len() as int) =~= Seq::<u8>::empty());
    }
}

/// Reassembling the chunks of a file gives the file back; each chunk is non-empty and
/// at most `size` bytes.
pub proof fn lemma_split_reassembles(data: Seq<u8>, size: nat)
    requires
        size > 0,
    ensures
        concat_all(split_chunks(data, size)) == data,
        forall|i: int| 0 <= i < split_chunks(data, size).len() ==>
            0 < #[trigger] split_chunks(data, size)[i].len() <= size,
{
    lemma_chunks_from(data, size, 0);
    assert(data.subrange(0, data.len() as int) =~= data);
}

} // verus!
