//! The framing model.
//!
//! A stream of serialized records is framed as one bracketed document: a
//! prefix, the records joined by a separator, and a suffix. These spec
//! functions say what the finished document looks like, both as plain bytes
//! (`joined`, `framed`) and as a sequence of whole framing tokens
//! (`record_tokens`), so that contracts can also say that no chunk boundary
//! ever splits a token.

use vstd::prelude::*;
use vstd::seq_lib::*;

verus! {

/// The records joined by the separator: `r0 sep r1 sep ... sep rn`.
pub open spec fn joined(sep: Seq<u8>, recs: Seq<Seq<u8>>) -> Seq<u8>
    decreases recs.len(),
{
    if recs.len() == 0 {
        Seq::<u8>::empty()
    } else if recs.len() == 1 {
        recs[0]
    } else {
        joined(sep, recs.drop_last()) + sep + recs.last()
    }
}

/// The whole framed document: prefix, records joined by the separator, suffix.
pub open spec fn framed(prefix: Seq<u8>, sep: Seq<u8>, suffix: Seq<u8>, recs: Seq<Seq<u8>>) -> Seq<u8> {
    prefix + joined(sep, recs) + suffix
}

/// The framing tokens that carry a record sequence: each record whole, with
/// one whole separator between neighbours.
pub open spec fn record_tokens(sep: Seq<u8>, recs: Seq<Seq<u8>>) -> Seq<Seq<u8>>
    decreases recs.len(),
{
    if recs.len() == 0 {
        Seq::<Seq<u8>>::empty()
    } else if recs.len() == 1 {
        seq![recs[0]]
    } else {
        record_tokens(sep, recs.drop_last()).push(sep).push(recs.last())
    }
}

/// Accepting one more record extends the token sequence by a whole separator
/// (unless it is the first record) and the whole record.
pub proof fn lemma_record_tokens_push(sep: Seq<u8>, recs: Seq<Seq<u8>>, r: Seq<u8>)
    ensures
        recs.len() == 0 ==> record_tokens(sep, recs.push(r)) == seq![r],
        recs.len() > 0 ==> record_tokens(sep, recs.push(r)) == record_tokens(sep, recs).push(sep).push(r),
{
    let p = recs.push(r);
    if recs.len() == 0 {
        assert(record_tokens(sep, p) =~~= seq![r]);
    } else {
        assert(p.drop_last() =~= recs);
        assert(p.last() == r);
    }
}

/// The token sequence concatenates to exactly the separator-joined records.
pub proof fn lemma_record_tokens_flatten(sep: Seq<u8>, recs: Seq<Seq<u8>>)
    ensures
        record_tokens(sep, recs).flatten() == joined(sep, recs),
    decreases recs.len(),
{
    if recs.len() == 0 {
        assert(record_tokens(sep, recs).flatten() =~= Seq::<u8>::empty());
    } else if recs.len() == 1 {
        Seq::lemma_flatten_singleton(record_tokens(sep, recs));
    } else {
        lemma_record_tokens_flatten(sep, recs.drop_last());
        let rt = record_tokens(sep, recs.drop_last());
        rt.lemma_flatten_push(sep);
        rt.push(sep).lemma_flatten_push(recs.last());
    }
}

/// The flat view of the full token sequence of a finished document is the
/// framed document itself.
pub proof fn lemma_full_tokens_flatten(prefix: Seq<u8>, sep: Seq<u8>, suffix: Seq<u8>, recs: Seq<Seq<u8>>)
    ensures
        (seq![prefix] + record_tokens(sep, recs) + seq![suffix]).flatten() == framed(prefix, sep, suffix, recs),
{
    let rt = record_tokens(sep, recs);
    lemma_flatten_concat(seq![prefix] + rt, seq![suffix]);
    lemma_flatten_concat(seq![prefix], rt);
    Seq::lemma_flatten_singleton(seq![prefix]);
    Seq::lemma_flatten_singleton(seq![suffix]);
    lemma_record_tokens_flatten(sep, recs);
}

} // verus!
