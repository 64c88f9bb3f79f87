//! What holds of the compressed path: with each reference replaced by the
//! text of its variable, the pieces spell the text that comes first and then
//! the path.

use crate::compression::dict_compression::chunk_at;
use crate::compression::dict_compression::dictionary;
use crate::compression::dict_compression::emitted;
use crate::compression::dict_compression::entry_from;
use crate::compression::dict_compression::entry_text;
use crate::compression::dict_compression::scanned_from;
use crate::compression::dict_compression::substituted;
use crate::compression::dict_compression::var_from;
use crate::compression::dict_compression::whole_chunks;
use crate::compression::dict_compression::with_chunk;
use crate::compression::dict_compression::with_word;
use crate::compression::dict_compression::words_in;
use crate::compression::dict_compression::Dictionary;
use crate::compression::dict_compression::Emitted;
use crate::compression::dict_compression::Piece;
use crate::text::ascii_text;
use vstd::prelude::*;

verus! {

/// The chunks of the first `k` words, one after the other.
pub open spec fn spelled(path: Seq<u8>, size: int, d: Dictionary, k: int) -> Seq<u8>
    decreases k,
{
    if k <= 0 {
        Seq::empty()
    } else {
        spelled(path, size, d, k - 1) + chunk_at(path, size, d.entries[d.words[k - 1] as int] as int)
    }
}

/// The text of the first `n` pieces, with each reference replaced by the
/// text of the entry that its variable is bound to.
pub open spec fn expanded(path: Seq<u8>, size: int, d: Dictionary, m: Emitted, n: int) -> Seq<char>
    decreases n,
{
    if n <= 0 {
        Seq::empty()
    } else {
        expanded(path, size, d, m, n - 1) + match m.chunks[n - 1] {
            Piece::Literal(s) => s,
            Piece::Reference(v) => entry_text(path, size, d, m.vars[v as int]),
        }
    }
}

/// The dictionary spells the path up to `at`, in whole chunks.
pub open spec fn spells(path: Seq<u8>, size: int, d: Dictionary, at: int) -> bool {
    &&& 0 <= at <= path.len()
    &&& d.words.len() <= at
    &&& d.entries.len() <= d.words.len()
    &&& words_in(d.words, d.entries.len() as int)
    &&& whole_chunks(path, size, d.entries)
    &&& spelled(path, size, d, d.words.len() as int) == path.subrange(0, at)
}

/// Every reference among the pieces names a variable.
pub open spec fn refers(m: Emitted) -> bool {
    forall|i: int|
        0 <= i < m.chunks.len() ==> ((#[trigger] m.chunks[i]) matches Piece::Reference(v) ==> v
            < m.vars.len())
}

/// A dictionary that holds more spells the same with its first words.
proof fn lemma_spelled_same(path: Seq<u8>, size: int, d: Dictionary, d2: Dictionary, k: int)
    requires
        0 <= k <= d.words.len() <= d2.words.len(),
        d.entries.len() <= d2.entries.len(),
        words_in(d.words, d.entries.len() as int),
        forall|i: int| 0 <= i < d.words.len() ==> d.words[i] == d2.words[i],
        forall|i: int| 0 <= i < d.entries.len() ==> d.entries[i] == d2.entries[i],
    ensures
        spelled(path, size, d2, k) == spelled(path, size, d, k),
    decreases k,
{
    if k > 0 {
        lemma_spelled_same(path, size, d, d2, k - 1);
        assert(d.words[k - 1] < d.entries.len());
    }
}

/// The entry that is found holds the chunk.
proof fn lemma_entry_found(path: Seq<u8>, size: int, entries: Seq<usize>, at: int, i: int)
    requires
        0 <= i,
        entries.len() <= usize::MAX,
    ensures
        entry_from(path, size, entries, at, i) matches Some(e) ==> i <= e < entries.len()
            && chunk_at(path, size, entries[e as int] as int) == chunk_at(path, size, at),
    decreases entries.len() - i,
{
    if i < entries.len() && chunk_at(path, size, entries[i] as int) != chunk_at(path, size, at) {
        lemma_entry_found(path, size, entries, at, i + 1);
    }
}

/// A whole chunk more keeps the dictionary spelling the path.
proof fn lemma_with_chunk_spells(path: Seq<u8>, size: int, d: Dictionary, at: int)
    requires
        size > 0,
        path.len() <= usize::MAX,
        spells(path, size, d, at),
        at + size <= path.len(),
    ensures
        spells(path, size, with_chunk(path, size, d, at), at + size),
{
    let d2 = with_chunk(path, size, d, at);
    let n = d.words.len() as int;
    lemma_entry_found(path, size, d.entries, at, 0);
    lemma_spelled_same(path, size, d, d2, n);
    assert(chunk_at(path, size, d2.entries[d2.words[n] as int] as int) == path.subrange(
        at,
        at + size,
    ));
    assert(spelled(path, size, d2, n + 1) == spelled(path, size, d2, n) + path.subrange(
        at,
        at + size,
    ));
    assert(path.subrange(0, at) + path.subrange(at, at + size) =~= path.subrange(0, at + size));
    assert forall|i: int| 0 <= i < d2.words.len() implies #[trigger] d2.words[i]
        < d2.entries.len() by {
        if i < n {
            assert(d.words[i] < d.entries.len());
        }
    }
    assert forall|i: int| 0 <= i < d2.entries.len() implies #[trigger] d2.entries[i] + size
        <= path.len() by {
        if i < d.entries.len() {
            assert(d.entries[i] + size <= path.len());
        }
    }
}

/// The chunks from `at` on make the dictionary spell the whole path.
proof fn lemma_scanned_spells(path: Seq<u8>, size: int, d: Dictionary, at: int)
    requires
        size > 0,
        path.len() <= usize::MAX,
        spells(path, size, d, at),
    ensures
        ({
            let all = scanned_from(path, size, d, at);
            &&& spelled(path, size, all, all.words.len() as int) == path
            &&& words_in(all.words, all.entries.len() as int)
            &&& all.words.len() <= path.len()
        }),
    decreases path.len() - at,
{
    if at >= path.len() {
        assert(path.subrange(0, at) =~= path);
    } else if at + size > path.len() {
        let all = scanned_from(path, size, d, at);
        let n = d.words.len() as int;
        lemma_spelled_same(path, size, d, all, n);
        assert(chunk_at(path, size, all.entries[all.words[n] as int] as int) == path.subrange(
            at,
            path.len() as int,
        ));
        assert(spelled(path, size, all, n + 1) == spelled(path, size, all, n) + path.subrange(
            at,
            path.len() as int,
        ));
        assert(path.subrange(0, at) + path.subrange(at, path.len() as int) =~= path);
        assert forall|i: int| 0 <= i < all.words.len() implies #[trigger] all.words[i]
            < all.entries.len() by {
            if i < n {
                assert(d.words[i] < d.entries.len());
            }
        }
    } else {
        lemma_with_chunk_spells(path, size, d, at);
        lemma_scanned_spells(path, size, with_chunk(path, size, d, at), at + size);
    }
}

/// The variable that is found is bound to the entry.
proof fn lemma_var_found(vars: Seq<usize>, e: usize, i: int)
    requires
        0 <= i,
        vars.len() <= usize::MAX,
    ensures
        var_from(vars, e, i) matches Some(v) ==> i <= v < vars.len() && vars[v as int] == e,
    decreases vars.len() - i,
{
    if i < vars.len() && vars[i] != e {
        lemma_var_found(vars, e, i + 1);
    }
}

/// Pieces and variables that come behind change nothing of the text before
/// them.
proof fn lemma_expanded_same(
    path: Seq<u8>,
    size: int,
    d: Dictionary,
    m: Emitted,
    m2: Emitted,
    n: int,
)
    requires
        0 <= n <= m.chunks.len(),
        n <= m2.chunks.len(),
        refers(m),
        m.vars.len() <= m2.vars.len(),
        forall|i: int| 0 <= i < n ==> m.chunks[i] == m2.chunks[i],
        forall|i: int| 0 <= i < m.vars.len() ==> m.vars[i] == m2.vars[i],
    ensures
        expanded(path, size, d, m2, n) == expanded(path, size, d, m, n),
    decreases n,
{
    if n > 0 {
        lemma_expanded_same(path, size, d, m, m2, n - 1);
        assert(m.chunks[n - 1] == m2.chunks[n - 1]);
    }
}

/// A word adds the text of its entry.
proof fn lemma_with_word_expands(path: Seq<u8>, size: int, d: Dictionary, m: Emitted, e: usize)
    requires
        refers(m),
        m.chunks.len() > 0,
        m.vars.len() < usize::MAX,
    ensures
        ({
            let m2 = with_word(path, size, d, m, e);
            &&& refers(m2)
            &&& m2.chunks.len() > 0
            &&& m2.vars.len() <= m.vars.len() + 1
            &&& expanded(path, size, d, m2, m2.chunks.len() as int) == expanded(
                path,
                size,
                d,
                m,
                m.chunks.len() as int,
            ) + entry_text(path, size, d, e)
        }),
{
    let m2 = with_word(path, size, d, m, e);
    let n = m.chunks.len() as int;
    let text = entry_text(path, size, d, e);
    if substituted(size, d, e) {
        lemma_var_found(m.vars, e, 0);
        lemma_expanded_same(path, size, d, m, m2, n);
        assert(m2.chunks.len() == n + 1);
        let v = m2.chunks[n]->Reference_0;
        assert(m2.vars[v as int] == e);
        assert forall|i: int| 0 <= i < m2.chunks.len() implies ((#[trigger] m2.chunks[i]) matches Piece::Reference(
            w,
        ) ==> w < m2.vars.len()) by {
            if i < n {
                assert(m2.chunks[i] == m.chunks[i]);
            }
        }
    } else if m.chunks.last() is Literal {
        let s = m.chunks.last()->Literal_0;
        lemma_expanded_same(path, size, d, m, m2, n - 1);
        assert(m2.chunks.len() == n);
        assert(m2.chunks[n - 1] == Piece::Literal(s + text));
        assert(expanded(path, size, d, m, n - 1) + (s + text) =~= expanded(path, size, d, m, n - 1)
            + s + text);
        assert forall|i: int| 0 <= i < m2.chunks.len() implies ((#[trigger] m2.chunks[i]) matches Piece::Reference(
            w,
        ) ==> w < m2.vars.len()) by {
            if i < n - 1 {
                assert(m2.chunks[i] == m.chunks[i]);
            }
        }
    } else {
        lemma_expanded_same(path, size, d, m, m2, n);
        assert(m2.chunks.len() == n + 1);
        assert forall|i: int| 0 <= i < m2.chunks.len() implies ((#[trigger] m2.chunks[i]) matches Piece::Reference(
            w,
        ) ==> w < m2.vars.len()) by {
            if i < n {
                assert(m2.chunks[i] == m.chunks[i]);
            }
        }
    }
}

/// The pieces of the first `k` words spell the text that comes first and
/// then the chunks of those words.
proof fn lemma_emitted_expands(prefix: Seq<char>, path: Seq<u8>, size: int, d: Dictionary, k: int)
    requires
        0 <= k <= d.words.len() < usize::MAX,
    ensures
        ({
            let m = emitted(prefix, path, size, d, k);
            &&& refers(m)
            &&& m.chunks.len() > 0
            &&& m.vars.len() <= k
            &&& expanded(path, size, d, m, m.chunks.len() as int) == prefix + ascii_text(
                spelled(path, size, d, k),
            )
        }),
    decreases k,
{
    let m = emitted(prefix, path, size, d, k);
    if k == 0 {
        assert(expanded(path, size, d, m, 0) =~= Seq::<char>::empty());
        assert(expanded(path, size, d, m, 1) =~= prefix);
        assert(ascii_text(Seq::<u8>::empty()) =~= Seq::<char>::empty());
        assert(prefix + Seq::<char>::empty() =~= prefix);
    } else {
        lemma_emitted_expands(prefix, path, size, d, k - 1);
        let before = emitted(prefix, path, size, d, k - 1);
        let e = d.words[k - 1];
        lemma_with_word_expands(path, size, d, before, e);
        let a = spelled(path, size, d, k - 1);
        let b = chunk_at(path, size, d.entries[e as int] as int);
        assert(ascii_text(a + b) =~= ascii_text(a) + ascii_text(b));
        assert(prefix + ascii_text(a) + ascii_text(b) =~= prefix + (ascii_text(a) + ascii_text(b)));
    }
}

/// With each reference replaced by the text of its variable, the pieces of a
/// compressed path spell the text that comes first and then the path.
pub proof fn lemma_compressed_spells_path(prefix: Seq<char>, path: Seq<u8>, size: int)
    requires
        size > 0,
        path.len() < usize::MAX,
    ensures
        ({
            let d = dictionary(path, size);
            let m = emitted(prefix, path, size, d, d.words.len() as int);
            expanded(path, size, d, m, m.chunks.len() as int) == prefix + ascii_text(path)
        }),
{
    let none = Dictionary { entries: Seq::empty(), words: Seq::empty() };
    assert(path.subrange(0, 0) =~= Seq::<u8>::empty());
    lemma_scanned_spells(path, size, none, 0);
    let d = dictionary(path, size);
    lemma_emitted_expands(prefix, path, size, d, d.words.len() as int);
}

} // verus!
