//! A path of moves as an expression: chunks of the path that come back often
//! enough are bound to variables once and referred to where they occur.
//!
//! The path is cut into chunks of one size. Equal chunks share an entry of
//! the dictionary; what is left over at the end is an entry of its own. An
//! entry is bound to a variable when that makes the expression shorter on
//! the wire. The variables are numbered in the order in which their chunks
//! first occur, and bound from the first, innermost, to the last.

use crate::icfp::ast::BinaryOp;
use crate::icfp::ast::EvalStrat;
use crate::icfp::ast::Literal;
use crate::icfp::ast::Node;
use crate::icfp::ast::NodeRef;
use crate::icfp::ast::Term;
use crate::icfp::ast::Value;
use crate::icfp::ast::VarId;
use crate::text::ascii_bytes_of;
use crate::text::ascii_string;
use crate::text::ascii_text;
use crate::text::is_ascii_bytes;
use crate::text::slice_bytes;
use std::rc::Rc;
use vstd::prelude::*;
use vstd::string::StringExecFns;
use vstd::string::StringSliceAdditionalSpecFns;

verus! {

/// What binding a chunk to a variable costs whatever the chunk: the lambda
/// and its application.
pub const MIN_FIXED_DICT_ENTRY_COST: usize = 9;

/// What each reference to a variable costs at least: the concatenation and
/// the way back to a text.
pub const MIN_VARIABLE_DICT_ENTRY_COST: usize = 11;

/// The bytes saved on the wire by binding a chunk of a length that occurs a
/// number of times, when the number of a variable takes `id_length` bytes.
pub open spec fn saving(pattern_len: int, occurences: int, id_length: int) -> int {
    pattern_len * occurences - (9 + pattern_len + 11 * occurences + id_length * (occurences + 1))
}

/// The bytes saved on the wire by binding a chunk to a variable.
pub fn saved_cost(pattern_len: usize, occurences: usize, dynamic_varlen_cost: usize) -> (r: i64)
    requires
        pattern_len * occurences <= i64::MAX,
        9 + pattern_len + 11 * occurences + dynamic_varlen_cost * (occurences + 1) <= i64::MAX,
    ensures
        r == saving(pattern_len as int, occurences as int, dynamic_varlen_cost as int),
{
    assert(dynamic_varlen_cost * (occurences + 1) >= 0) by (nonlinear_arith);
    assert(dynamic_varlen_cost <= dynamic_varlen_cost * (occurences + 1)) by (nonlinear_arith);
    let plaintext_cost: i128 = (pattern_len as i128) * (occurences as i128);
    let references: i128 = (dynamic_varlen_cost as i128) * (occurences as i128 + 1);
    let dict_cost: i128 = 9 + (pattern_len as i128) + 11 * (occurences as i128) + references;
    (plaintext_cost - dict_cost) as i64
}

/// A piece of the compressed path: a text, or a reference to the variable
/// that a chunk is bound to.
pub enum LzChunk {
    Literal(String),
    Reference(u64),
}

/// What an [`LzChunk`] stands for.
pub enum Piece {
    Literal(Seq<char>),
    Reference(u64),
}

impl View for LzChunk {
    type V = Piece;

    open spec fn view(&self) -> Piece {
        match self {
            LzChunk::Literal(s) => Piece::Literal(s@),
            LzChunk::Reference(id) => Piece::Reference(*id),
        }
    }
}

/// What the pieces stand for.
pub open spec fn pieces(chunks: Seq<LzChunk>) -> Seq<Piece> {
    Seq::new(chunks.len(), |i: int| chunks[i]@)
}

/// A piece as an expression.
pub open spec fn piece_term(piece: Piece) -> Term {
    match piece {
        Piece::Literal(s) => Term::Value(Literal::Str(s)),
        Piece::Reference(id) => Term::Variable(id),
    }
}

/// The concatenation of the first `n` pieces, nested to the left.
pub open spec fn body_of(chunks: Seq<Piece>, n: int) -> Term
    decreases n,
{
    if n <= 1 {
        piece_term(chunks[0])
    } else {
        Term::BinaryOp {
            op: BinaryOp::StrConcat,
            left: Box::new(body_of(chunks, n - 1)),
            right: Box::new(piece_term(chunks[n - 1])),
        }
    }
}

/// The body with the first `n` variables bound to their texts, the first
/// innermost.
pub open spec fn bound_in(vars: Seq<(usize, Seq<char>)>, n: int, body: Term) -> Term
    decreases n,
{
    if n <= 0 {
        body
    } else {
        Term::Apply {
            f: Box::new(
                Term::Lambda {
                    var: vars[n - 1].0 as u64,
                    body: Box::new(bound_in(vars, n - 1, body)),
                },
            ),
            value: Box::new(Term::Value(Literal::Str(vars[n - 1].1))),
        }
    }
}

/// What the bindings stand for.
pub open spec fn bindings(vars: Seq<(usize, String)>) -> Seq<(usize, Seq<char>)> {
    Seq::new(vars.len(), |i: int| (vars[i].0, vars[i].1@))
}

/// A piece as an expression.
fn piece_node(chunk: &LzChunk) -> (r: NodeRef)
    ensures
        r@ == piece_term(chunk@),
{
    match chunk {
        LzChunk::Literal(s) => Rc::new(Node::Value(Value::Str(s.clone()))),
        LzChunk::Reference(id) => Node::var(VarId::new(*id)),
    }
}

/// The concatenation of the pieces, nested to the left.
pub fn build_lz_body_ast(chunks: &Vec<LzChunk>) -> (r: NodeRef)
    requires
        chunks.len() > 0,
    ensures
        r@ == body_of(pieces(chunks@), chunks.len() as int),
{
    let mut ast = piece_node(&chunks[0]);
    let mut i: usize = 1;
    while i < chunks.len()
        invariant
            1 <= i <= chunks.len(),
            ast@ == body_of(pieces(chunks@), i as int),
        decreases chunks.len() - i,
    {
        let right = piece_node(&chunks[i]);
        ast = Rc::new(Node::BinaryOp { op: BinaryOp::StrConcat, left: ast, right });
        i += 1;
    }
    ast
}

/// The body with the variables bound to their texts, the first innermost.
pub fn build_lz_lambdas_ast(vars: &Vec<(usize, String)>, body: NodeRef) -> (r: NodeRef)
    ensures
        r@ == bound_in(bindings(vars@), vars.len() as int, body@),
{
    let mut ast = body;
    let mut i: usize = 0;
    while i < vars.len()
        invariant
            i <= vars.len(),
            ast@ == bound_in(bindings(vars@), i as int, body@),
        decreases vars.len() - i,
    {
        let lambda = Node::lambda(VarId::new(vars[i].0 as u64), ast);
        let text = Rc::new(Node::Value(Value::Str(vars[i].1.clone())));
        ast = Node::apply(EvalStrat::Name, lambda, text);
        i += 1;
    }
    ast
}

/// The concatenation of the pieces with the variables bound to their texts.
pub fn build_lz_chunks_ast(vars: &Vec<(usize, String)>, chunks: &Vec<LzChunk>) -> (r: NodeRef)
    requires
        chunks.len() > 0,
    ensures
        r@ == bound_in(
            bindings(vars@),
            vars.len() as int,
            body_of(pieces(chunks@), chunks.len() as int),
        ),
{
    let body_ast = build_lz_body_ast(chunks);
    build_lz_lambdas_ast(vars, body_ast)
}

/// The chunks of a path: for each entry the offset at which its chunk first
/// begins, and for each chunk of the path, in order, its entry.
pub struct Dictionary {
    pub entries: Seq<usize>,
    pub words: Seq<usize>,
}

/// The chunk that begins at an offset: `size` bytes, or what is left of the
/// path.
pub open spec fn chunk_at(path: Seq<u8>, size: int, at: int) -> Seq<u8> {
    if at + size <= path.len() {
        path.subrange(at, at + size)
    } else {
        path.subrange(at, path.len() as int)
    }
}

/// The first entry from `i` on whose chunk is the chunk at `at`.
pub open spec fn entry_from(path: Seq<u8>, size: int, entries: Seq<usize>, at: int, i: int) -> Option<
    usize,
>
    decreases entries.len() - i,
{
    if !(0 <= i < entries.len()) {
        None
    } else if chunk_at(path, size, entries[i] as int) == chunk_at(path, size, at) {
        Some(i as usize)
    } else {
        entry_from(path, size, entries, at, i + 1)
    }
}

/// The dictionary with the whole chunk at `at` added: a chunk that the
/// dictionary holds shares the entry, another gets a new entry.
pub open spec fn with_chunk(path: Seq<u8>, size: int, d: Dictionary, at: int) -> Dictionary {
    match entry_from(path, size, d.entries, at, 0) {
        Some(e) => Dictionary { entries: d.entries, words: d.words.push(e) },
        None => Dictionary {
            entries: d.entries.push(at as usize),
            words: d.words.push(d.entries.len() as usize),
        },
    }
}

/// The dictionary with the chunks from `at` on added. What is left over at
/// the end is shorter than a chunk and gets an entry of its own.
pub open spec fn scanned_from(path: Seq<u8>, size: int, d: Dictionary, at: int) -> Dictionary
    decreases path.len() - at,
{
    if size <= 0 || at < 0 || at >= path.len() {
        d
    } else if at + size > path.len() {
        Dictionary {
            entries: d.entries.push(at as usize),
            words: d.words.push(d.entries.len() as usize),
        }
    } else {
        scanned_from(path, size, with_chunk(path, size, d, at), at + size)
    }
}

/// The dictionary of a path.
pub open spec fn dictionary(path: Seq<u8>, size: int) -> Dictionary {
    scanned_from(path, size, Dictionary { entries: Seq::empty(), words: Seq::empty() }, 0)
}

/// How often an entry occurs among the words from `i` on.
pub open spec fn occurrences_from(words: Seq<usize>, e: usize, i: int) -> nat
    decreases words.len() - i,
{
    if !(0 <= i < words.len()) {
        0
    } else if words[i] == e {
        1 + occurrences_from(words, e, i + 1)
    } else {
        occurrences_from(words, e, i + 1)
    }
}

/// The number of bytes that the number of a variable takes at most when
/// there are `distinct` of them: the least `k` for which the `k`-th power of
/// 94 is not below `distinct`.
pub open spec fn id_length(distinct: nat) -> nat
    decreases distinct,
{
    if distinct <= 1 {
        0
    } else {
        1 + id_length(
            if distinct % 94 == 0 {
                distinct / 94
            } else {
                distinct / 94 + 1
            },
        )
    }
}

/// An entry is bound to a variable when that saves bytes on the wire. Every
/// entry counts with the size of a whole chunk.
pub open spec fn substituted(size: int, d: Dictionary, e: usize) -> bool {
    saving(size, occurrences_from(d.words, e, 0) as int, id_length(d.entries.len()) as int) > 0
}

/// The pieces made so far, and for each variable so far the entry that it is
/// bound to.
pub struct Emitted {
    pub chunks: Seq<Piece>,
    pub vars: Seq<usize>,
}

/// The first variable from `i` on that is bound to an entry.
pub open spec fn var_from(vars: Seq<usize>, e: usize, i: int) -> Option<usize>
    decreases vars.len() - i,
{
    if !(0 <= i < vars.len()) {
        None
    } else if vars[i] == e {
        Some(i as usize)
    } else {
        var_from(vars, e, i + 1)
    }
}

/// The text of an entry.
pub open spec fn entry_text(path: Seq<u8>, size: int, d: Dictionary, e: usize) -> Seq<char> {
    ascii_text(chunk_at(path, size, d.entries[e as int] as int))
}

/// What a word adds: a reference to the variable of its entry, which is a
/// new variable where the entry has none yet; or, for an entry that is not
/// bound, its text, at the end of a text that comes just before.
pub open spec fn with_word(path: Seq<u8>, size: int, d: Dictionary, m: Emitted, e: usize) -> Emitted {
    if substituted(size, d, e) {
        match var_from(m.vars, e, 0) {
            Some(v) => Emitted { chunks: m.chunks.push(Piece::Reference(v as u64)), vars: m.vars },
            None => Emitted {
                chunks: m.chunks.push(Piece::Reference(m.vars.len() as u64)),
                vars: m.vars.push(e),
            },
        }
    } else if m.chunks.len() > 0 && m.chunks.last() is Literal {
        Emitted {
            chunks: m.chunks.drop_last().push(
                Piece::Literal(m.chunks.last()->Literal_0 + entry_text(path, size, d, e)),
            ),
            vars: m.vars,
        }
    } else {
        Emitted {
            chunks: m.chunks.push(Piece::Literal(entry_text(path, size, d, e))),
            vars: m.vars,
        }
    }
}

/// What the first `k` words make, behind the text that comes first.
pub open spec fn emitted(prefix: Seq<char>, path: Seq<u8>, size: int, d: Dictionary, k: int) -> Emitted
    decreases k,
{
    if k <= 0 {
        Emitted { chunks: seq![Piece::Literal(prefix)], vars: Seq::empty() }
    } else {
        with_word(path, size, d, emitted(prefix, path, size, d, k - 1), d.words[k - 1])
    }
}

/// The variables with their texts, numbered from zero.
pub open spec fn var_texts(path: Seq<u8>, size: int, d: Dictionary, vars: Seq<usize>) -> Seq<
    (usize, Seq<char>),
> {
    Seq::new(vars.len(), |i: int| (i as usize, entry_text(path, size, d, vars[i])))
}

/// The expression of a path behind a text that comes first.
pub open spec fn compressed(prefix: Seq<char>, path: Seq<u8>, size: int) -> Term {
    let d = dictionary(path, size);
    let m = emitted(prefix, path, size, d, d.words.len() as int);
    bound_in(
        var_texts(path, size, d, m.vars),
        m.vars.len() as int,
        body_of(m.chunks, m.chunks.len() as int),
    )
}

/// The entries are whole chunks of the path.
pub open spec fn whole_chunks(path: Seq<u8>, size: int, entries: Seq<usize>) -> bool {
    forall|i: int| 0 <= i < entries.len() ==> #[trigger] entries[i] + size <= path.len()
}

/// The words name entries.
pub open spec fn words_in(words: Seq<usize>, n: int) -> bool {
    forall|i: int| 0 <= i < words.len() ==> #[trigger] words[i] < n
}

/// The two whole chunks are equal.
fn same_chunk(bytes: &Vec<u8>, size: usize, a: usize, b: usize) -> (r: bool)
    requires
        a + size <= bytes.len(),
        b + size <= bytes.len(),
    ensures
        r == (chunk_at(bytes@, size as int, a as int) == chunk_at(bytes@, size as int, b as int)),
{
    let ghost x = chunk_at(bytes@, size as int, a as int);
    let ghost y = chunk_at(bytes@, size as int, b as int);
    let mut j: usize = 0;
    while j < size
        invariant
            j <= size,
            a + size <= bytes.len(),
            b + size <= bytes.len(),
            x == bytes@.subrange(a as int, a + size),
            y == bytes@.subrange(b as int, b + size),
            forall|k: int| 0 <= k < j ==> x[k] == y[k],
        decreases size - j,
    {
        if bytes[a + j] != bytes[b + j] {
            assert(x[j as int] != y[j as int]);
            return false;
        }
        j += 1;
    }
    assert(x =~= y);
    true
}

/// The first entry whose chunk is the whole chunk at `at`.
fn find_entry(bytes: &Vec<u8>, size: usize, entries: &Vec<usize>, at: usize) -> (r: Option<usize>)
    requires
        at + size <= bytes.len(),
        whole_chunks(bytes@, size as int, entries@),
    ensures
        r == entry_from(bytes@, size as int, entries@, at as int, 0),
        r matches Some(e) ==> e < entries.len(),
{
    let mut i: usize = 0;
    while i < entries.len()
        invariant
            i <= entries.len(),
            at + size <= bytes.len(),
            whole_chunks(bytes@, size as int, entries@),
            entry_from(bytes@, size as int, entries@, at as int, i as int) == entry_from(
                bytes@,
                size as int,
                entries@,
                at as int,
                0,
            ),
        decreases entries.len() - i,
    {
        assert(entries@[i as int] + size <= bytes.len());
        if same_chunk(bytes, size, entries[i], at) {
            return Some(i);
        }
        i += 1;
    }
    None
}

/// The dictionary of a path.
fn scan(bytes: &Vec<u8>, size: usize) -> (r: (Vec<usize>, Vec<usize>))
    requires
        size > 0,
    ensures
        (Dictionary { entries: r.0@, words: r.1@ }) == dictionary(bytes@, size as int),
        words_in(r.1@, r.0.len() as int),
        forall|i: int| 0 <= i < r.0.len() ==> #[trigger] r.0[i] <= bytes.len(),
{
    let mut entries: Vec<usize> = Vec::new();
    let mut words: Vec<usize> = Vec::new();
    let mut at: usize = 0;
    let n = bytes.len();
    while n - at >= size
        invariant
            size > 0,
            at <= n,
            n == bytes.len(),
            whole_chunks(bytes@, size as int, entries@),
            words_in(words@, entries.len() as int),
            scanned_from(
                bytes@,
                size as int,
                Dictionary { entries: entries@, words: words@ },
                at as int,
            ) == dictionary(bytes@, size as int),
        decreases n - at,
    {
        let ghost before = Dictionary { entries: entries@, words: words@ };
        match find_entry(bytes, size, &entries, at) {
            Some(e) => {
                words.push(e);
            },
            None => {
                words.push(entries.len());
                entries.push(at);
            },
        }
        assert(Dictionary { entries: entries@, words: words@ } == with_chunk(
            bytes@,
            size as int,
            before,
            at as int,
        ));
        at += size;
    }
    if at < n {
        words.push(entries.len());
        entries.push(at);
    }
    (entries, words)
}

/// How often an entry occurs among the words.
fn count_word(words: &Vec<usize>, e: usize) -> (r: usize)
    ensures
        r == occurrences_from(words@, e, 0),
{
    let mut count: usize = 0;
    let mut i: usize = 0;
    while i < words.len()
        invariant
            i <= words.len(),
            count <= i,
            count + occurrences_from(words@, e, i as int) == occurrences_from(words@, e, 0),
        decreases words.len() - i,
    {
        if words[i] == e {
            count += 1;
        }
        i += 1;
    }
    count
}

/// The number of bytes that the number of a variable takes at most when
/// there are `distinct` of them.
pub fn id_length_of(distinct: usize) -> (r: usize)
    ensures
        r == id_length(distinct as nat),
{
    let mut n = distinct;
    let mut length: usize = 0;
    while n > 1
        invariant
            length + id_length(n as nat) == id_length(distinct as nat),
            length + n <= distinct,
        decreases n,
    {
        n = if n % 94 == 0 {
            n / 94
        } else {
            n / 94 + 1
        };
        length += 1;
    }
    length
}

/// Whether binding a chunk saves bytes: the sign of the saving, computed so
/// that no size and no count is too large for it.
fn pays_off(size: usize, occurences: usize, varlen: usize) -> (r: bool)
    ensures
        r == (saving(size as int, occurences as int, varlen as int) > 0),
{
    if varlen >= size {
        assert((size - varlen) * occurences <= 0) by (nonlinear_arith)
            requires
                size - varlen <= 0,
                occurences >= 0,
        ;
        assert(saving(size as int, occurences as int, varlen as int) == (size - varlen)
            * occurences - (9 + size + 11 * occurences + varlen)) by (nonlinear_arith);
        false
    } else {
        assert((size - varlen) * occurences <= 0xFFFF_FFFF_FFFF_FFFF * 0xFFFF_FFFF_FFFF_FFFF)
            by (nonlinear_arith)
            requires
                0 <= size - varlen <= 0xFFFF_FFFF_FFFF_FFFF,
                0 <= occurences <= 0xFFFF_FFFF_FFFF_FFFF,
        ;
        let gain: u128 = ((size - varlen) as u128) * (occurences as u128);
        let cost: u128 = 9 + (size as u128) + 11 * (occurences as u128) + (varlen as u128);
        assert(saving(size as int, occurences as int, varlen as int) == (size - varlen)
            * occurences - (9 + size + 11 * occurences + varlen)) by (nonlinear_arith);
        gain > cost
    }
}

/// For each entry, whether it is bound to a variable.
fn decide(words: &Vec<usize>, entries: usize, size: usize, Ghost(d): Ghost<Dictionary>) -> (r: Vec<
    bool,
>)
    requires
        d.words == words@,
        d.entries.len() == entries,
    ensures
        r.len() == entries,
        forall|e: int| 0 <= e < entries ==> #[trigger] r[e] == substituted(size as int, d, e as usize),
{
    let length = id_length_of(entries);
    let mut flags: Vec<bool> = Vec::new();
    let mut e: usize = 0;
    while e < entries
        invariant
            e <= entries,
            flags.len() == e,
            d.words == words@,
            d.entries.len() == entries,
            length == id_length(entries as nat),
            forall|k: int| 0 <= k < e ==> #[trigger] flags[k] == substituted(size as int, d, k as usize),
        decreases entries - e,
    {
        let occurences = count_word(words, e);
        flags.push(pays_off(size, occurences, length));
        e += 1;
    }
    flags
}

/// The first variable that is bound to an entry.
fn find_var(vars: &Vec<usize>, e: usize) -> (r: Option<usize>)
    ensures
        r == var_from(vars@, e, 0),
        r matches Some(v) ==> v < vars.len(),
{
    let mut i: usize = 0;
    while i < vars.len()
        invariant
            i <= vars.len(),
            var_from(vars@, e, i as int) == var_from(vars@, e, 0),
        decreases vars.len() - i,
    {
        if vars[i] == e {
            return Some(i);
        }
        i += 1;
    }
    None
}

/// The text of the chunk that begins at an offset.
fn chunk_text(bytes: &Vec<u8>, size: usize, at: usize) -> (r: String)
    requires
        at <= bytes.len(),
        is_ascii_bytes(bytes@),
    ensures
        r@ == ascii_text(chunk_at(bytes@, size as int, at as int)),
{
    let end = if bytes.len() - at >= size {
        at + size
    } else {
        bytes.len()
    };
    let chunk = slice_bytes(bytes, at, end);
    assert(is_ascii_bytes(chunk@)) by {
        assert forall|i: int| 0 <= i < chunk@.len() implies #[trigger] chunk@[i] < 128 by {
            assert(chunk@[i] == bytes@[at + i]);
        }
    }
    ascii_string(chunk)
}

/// The expression of a path of ASCII characters behind a text that comes
/// first: the path in chunks of `chunk_size` bytes, the chunks that are
/// worth it bound to variables.
pub fn lz_compress_to_ast(msg_prefix: &str, path: &str, chunk_size: usize) -> (r: NodeRef)
    requires
        chunk_size > 0,
        vstd::utf8::is_ascii_chars(path@),
    ensures
        r@ == compressed(msg_prefix@, path.spec_bytes(), chunk_size as int),
{
    let bytes = match ascii_bytes_of(path) {
        Some(bytes) => bytes,
        None => Vec::new(),
    };
    let (entries, words) = scan(&bytes, chunk_size);
    let ghost d = Dictionary { entries: entries@, words: words@ };
    let ghost size = chunk_size as int;
    let flags = decide(&words, entries.len(), chunk_size, Ghost(d));
    let mut chunks: Vec<LzChunk> = Vec::new();
    chunks.push(LzChunk::Literal(String::from_str(msg_prefix)));
    let mut vars: Vec<usize> = Vec::new();
    assert(pieces(chunks@) =~= seq![Piece::Literal(msg_prefix@)]);
    let mut k: usize = 0;
    while k < words.len()
        invariant
            k <= words.len(),
            d == (Dictionary { entries: entries@, words: words@ }),
            size == chunk_size as int,
            is_ascii_bytes(bytes@),
            words_in(words@, entries.len() as int),
            forall|i: int| 0 <= i < entries.len() ==> #[trigger] entries[i] <= bytes.len(),
            flags.len() == entries.len(),
            forall|i: int| 0 <= i < vars.len() ==> #[trigger] vars[i] < entries.len(),
            forall|e: int|
                0 <= e < entries.len() ==> #[trigger] flags[e] == substituted(size, d, e as usize),
            chunks.len() > 0,
            (Emitted { chunks: pieces(chunks@), vars: vars@ }) == emitted(
                msg_prefix@,
                bytes@,
                size,
                d,
                k as int,
            ),
        decreases words.len() - k,
    {
        let e = words[k];
        let ghost before = Emitted { chunks: pieces(chunks@), vars: vars@ };
        assert(words@[k as int] < entries.len());
        assert(flags[e as int] == substituted(size, d, e));
        if flags[e] {
            let id = match find_var(&vars, e) {
                Some(v) => v,
                None => {
                    vars.push(e);
                    vars.len() - 1
                },
            };
            let ghost old_chunks = chunks@;
            chunks.push(LzChunk::Reference(id as u64));
            assert(pieces(chunks@) =~= pieces(old_chunks).push(Piece::Reference(id as u64)));
        } else {
            assert(entries@[e as int] <= bytes.len());
            let text = chunk_text(&bytes, chunk_size, entries[e]);
            let ghost old_chunks = chunks@;
            let last = chunks.pop();
            match last {
                Some(LzChunk::Literal(mut s)) => {
                    s.append(text.as_str());
                    chunks.push(LzChunk::Literal(s));
                    assert(pieces(chunks@) =~= pieces(old_chunks).drop_last().push(
                        Piece::Literal(pieces(old_chunks).last()->Literal_0 + text@),
                    ));
                },
                Some(other) => {
                    chunks.push(other);
                    chunks.push(LzChunk::Literal(text));
                    assert(pieces(chunks@) =~= pieces(old_chunks).push(Piece::Literal(text@)));
                },
                None => {
                    chunks.push(LzChunk::Literal(text));
                },
            }
        }
        assert(Emitted { chunks: pieces(chunks@), vars: vars@ } == with_word(
            bytes@,
            size,
            d,
            before,
            e,
        ));
        k += 1;
    }
    let mut texts: Vec<(usize, String)> = Vec::new();
    let mut v: usize = 0;
    while v < vars.len()
        invariant
            v <= vars.len(),
            texts.len() == v,
            is_ascii_bytes(bytes@),
            d == (Dictionary { entries: entries@, words: words@ }),
            size == chunk_size as int,
            forall|i: int| 0 <= i < entries.len() ==> #[trigger] entries[i] <= bytes.len(),
            forall|i: int| 0 <= i < vars.len() ==> #[trigger] vars[i] < entries.len(),
            forall|i: int|
                0 <= i < v ==> (#[trigger] texts[i]).0 == i && texts[i].1@ == entry_text(
                    bytes@,
                    size,
                    d,
                    vars[i],
                ),
        decreases vars.len() - v,
    {
        assert(vars@[v as int] < entries.len());
        assert(entries@[vars@[v as int] as int] <= bytes.len());
        let text = chunk_text(&bytes, chunk_size, entries[vars[v]]);
        texts.push((v, text));
        v += 1;
    }
    assert(bindings(texts@) =~= var_texts(bytes@, size, d, vars@));
    build_lz_chunks_ast(&texts, &chunks)
}

} // verus!
