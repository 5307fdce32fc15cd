//! Pretokenization: splitting a chunk of text at the special tokens and
//! cutting each piece into pretokens with the GPT-2 pattern.

use crate::builder::{bytes_len, counts_of, count_in, lemma_counts_of_bound, SequenceBuilder};
use crate::bytes::{
    bytes_sign, compare_bytes, lemma_bytes_sign_antisymmetric, lemma_bytes_sign_prefix, lemma_bytes_sign_transitive,
    lemma_bytes_sign_zero,
};
use crate::sequence::SequenceShard;
use crate::regex::{
    escape, substr, ranges_in_order, regex_compiles, regex_escaped, regex_matches, split_pieces, utf8_str, Pattern,
};
use vstd::prelude::*;
use vstd::string::StringSliceAdditionalSpecFns;
use vstd::utf8::{encode_utf8, is_char_boundary, valid_utf8};

verus! {

broadcast use vstd::utf8::group_utf8_lib;

/// Where index `k` goes among the indices `order`, searching from `i`:
/// before the first one whose token is smaller than token `k`.
pub open spec fn insert_position(order: Seq<int>, toks: Seq<Seq<u8>>, k: int, i: int) -> int
    decreases order.len() - i,
{
    if i >= order.len() {
        order.len() as int
    } else if bytes_sign(toks[order[i]], toks[k]) < 0 {
        i
    } else {
        insert_position(order, toks, k, i + 1)
    }
}

/// The indices of the first `n` tokens ordered from the largest token to
/// the smallest (as byte strings), equal tokens in their given order.
pub open spec fn descending_order(toks: Seq<Seq<u8>>, n: int) -> Seq<int>
    decreases n,
{
    if n <= 0 {
        Seq::empty()
    } else {
        let o = descending_order(toks, n - 1);
        o.insert(insert_position(o, toks, n - 1, 0), n - 1)
    }
}

/// The alternatives `parts` joined by `|`.
pub open spec fn alternation(parts: Seq<Seq<u8>>) -> Seq<u8>
    decreases parts.len(),
{
    if parts.len() == 0 {
        Seq::empty()
    } else if parts.len() == 1 {
        parts[0]
    } else {
        alternation(parts.drop_last()) + seq![124u8] + parts.last()
    }
}

/// The UTF-8 bytes of each text.
pub open spec fn texts_bytes(texts: Seq<&str>) -> Seq<Seq<u8>> {
    texts.map_values(|t: &str| t.spec_bytes())
}

/// The pattern that matches the special tokens: each escaped, the largest
/// first, so that of two tokens where one starts the other the longer is
/// tried first.
pub open spec fn split_source(toks: Seq<Seq<u8>>) -> Seq<u8> {
    let o = descending_order(toks, toks.len() as int);
    alternation(Seq::new(o.len(), |i: int| regex_escaped(toks[o[i]])))
}

/// The GPT-2 pretokenization pattern.
pub open spec fn gpt2_source() -> Seq<u8> {
    GPT2_PATTERN.spec_bytes()
}

/// The GPT-2 pretokenization pattern: contractions, runs of letters, of
/// digits or of other symbols (each with an optional leading space), and
/// whitespace.
pub const GPT2_PATTERN: &'static str = r#"'(?:[sdmt]|ll|ve|re)| ?\p{L}+| ?\p{N}+| ?[^\s\p{L}\p{N}]+|\s+(?!\S)|\s+"#;

/// Compiles the GPT-2 pretokenization pattern.
pub fn gpt_regex() -> (r: Option<Pattern>)
    ensures
        r is Some <==> regex_compiles(gpt2_source()),
        r matches Some(p) ==> p.source() == gpt2_source(),
{
    Pattern::compile(GPT2_PATTERN)
}

/// Where an index is inserted, the indices before it have tokens at least
/// as large, and the one at it (if any) a smaller token.
proof fn lemma_insert_position(order: Seq<int>, toks: Seq<Seq<u8>>, k: int, i: int)
    requires
        0 <= i <= order.len(),
    ensures
        i <= insert_position(order, toks, k, i) <= order.len(),
        forall|j: int| i <= j < insert_position(order, toks, k, i) ==> bytes_sign(toks[#[trigger] order[j]], toks[k]) >= 0,
        insert_position(order, toks, k, i) < order.len() ==> bytes_sign(
            toks[order[insert_position(order, toks, k, i)]],
            toks[k],
        ) < 0,
    decreases order.len() - i,
{
    if i < order.len() {
        lemma_bytes_sign_antisymmetric(toks[order[i]], toks[k]);
        if bytes_sign(toks[order[i]], toks[k]) >= 0 {
            lemma_insert_position(order, toks, k, i + 1);
        }
    }
}

/// The order puts every one of the first `n` indices once, from the
/// largest token to the smallest: no token comes after a larger one.
pub proof fn lemma_descending_order(toks: Seq<Seq<u8>>, n: int)
    requires
        0 <= n,
    ensures
        descending_order(toks, n).len() == n,
        descending_order(toks, n).no_duplicates(),
        forall|i: int| 0 <= i < n ==> 0 <= #[trigger] descending_order(toks, n)[i] < n,
        forall|i: int, j: int|
            0 <= i < j < n ==> bytes_sign(
                toks[#[trigger] descending_order(toks, n)[i]],
                toks[#[trigger] descending_order(toks, n)[j]],
            ) >= 0,
    decreases n,
{
    if n > 0 {
        let o = descending_order(toks, n - 1);
        lemma_descending_order(toks, n - 1);
        let pos = insert_position(o, toks, n - 1, 0);
        lemma_insert_position(o, toks, n - 1, 0);
        let x = toks[n - 1];
        let o2 = o.insert(pos, n - 1);
        assert(descending_order(toks, n) == o2);
        assert forall|j: int| pos <= j < o.len() implies bytes_sign(toks[#[trigger] o[j]], x) < 0 by {
            if j > pos {
                let a = toks[o[j]];
                let b = toks[o[pos]];
                lemma_bytes_sign_antisymmetric(b, a);
                lemma_bytes_sign_antisymmetric(b, x);
                lemma_bytes_sign_zero(a, b);
                if bytes_sign(a, b) == -1 {
                    lemma_bytes_sign_transitive(a, b, x, -1);
                }
            }
        }
        assert forall|i: int, j: int| 0 <= i < j < n implies bytes_sign(toks[#[trigger] o2[i]], toks[#[trigger] o2[j]])
            >= 0 by {
            if j < pos {
                assert(o2[i] == o[i] && o2[j] == o[j]);
            } else if j == pos {
                assert(o2[i] == o[i]);
            } else if i == pos {
                assert(o2[j] == o[j - 1]);
                lemma_bytes_sign_antisymmetric(toks[o[j - 1]], x);
            } else if i < pos {
                assert(o2[i] == o[i] && o2[j] == o[j - 1]);
            } else {
                assert(o2[i] == o[i - 1] && o2[j] == o[j - 1]);
            }
        }
        assert forall|i: int| 0 <= i < n implies 0 <= #[trigger] o2[i] < n by {
            if i < pos {
                assert(o2[i] == o[i]);
            } else if i > pos {
                assert(o2[i] == o[i - 1]);
            }
        }
        assert(o2.no_duplicates()) by {
            assert forall|i: int, j: int| 0 <= i < o2.len() && 0 <= j < o2.len() && i != j implies o2[i] != o2[j] by {
                if i != pos && j != pos {
                    let a = if i < pos { i } else { i - 1 };
                    let b = if j < pos { j } else { j - 1 };
                    assert(o2[i] == o[a] && o2[j] == o[b]);
                } else if i == pos {
                    let b = if j < pos { j } else { j - 1 };
                    assert(o2[j] == o[b]);
                } else {
                    let a = if i < pos { i } else { i - 1 };
                    assert(o2[i] == o[a]);
                }
            }
        }
    }
}

/// Of two special tokens where one is a proper prefix of the other, the
/// longer one comes first in the split pattern, so that it is tried first.
pub proof fn lemma_longer_special_first(toks: Seq<Seq<u8>>, i: int, j: int)
    requires
        0 <= i < toks.len(),
        0 <= j < toks.len(),
        toks[descending_order(toks, toks.len() as int)[j]].len() < toks[descending_order(toks, toks.len() as int)[i]].len(),
        toks[descending_order(toks, toks.len() as int)[i]].subrange(
            0,
            toks[descending_order(toks, toks.len() as int)[j]].len() as int,
        ) == toks[descending_order(toks, toks.len() as int)[j]],
    ensures
        i < j,
{
    let o = descending_order(toks, toks.len() as int);
    lemma_descending_order(toks, toks.len() as int);
    lemma_bytes_sign_prefix(toks[o[j]], toks[o[i]]);
    lemma_bytes_sign_antisymmetric(toks[o[j]], toks[o[i]]);
    if j < i {
        assert(bytes_sign(toks[o[j]], toks[o[i]]) >= 0);
    }
    if i == j {
        assert(toks[o[j]].len() == toks[o[i]].len());
    }
}

/// The position at which index `k` goes into `order`.
fn find_insert_position(order: &Vec<usize>, special_tokens: &[&str], k: usize) -> (pos: usize)
    requires
        k < special_tokens@.len(),
        forall|i: int| 0 <= i < order@.len() ==> #[trigger] order@[i] < special_tokens@.len(),
    ensures
        pos as int == insert_position(
            order@.map_values(|x: usize| x as int),
            texts_bytes(special_tokens@),
            k as int,
            0,
        ),
        pos <= order@.len(),
{
    let ghost o = order@.map_values(|x: usize| x as int);
    let ghost toks = texts_bytes(special_tokens@);
    let mut pos: usize = 0;
    while pos < order.len()
        invariant
            o == order@.map_values(|x: usize| x as int),
            toks == texts_bytes(special_tokens@),
            k < special_tokens@.len(),
            forall|i: int| 0 <= i < order@.len() ==> #[trigger] order@[i] < special_tokens@.len(),
            pos <= order@.len(),
            insert_position(o, toks, k as int, 0) == insert_position(o, toks, k as int, pos as int),
        decreases order@.len() - pos,
    {
        let other = special_tokens[order[pos]];
        let sign = compare_bytes(other.as_bytes(), special_tokens[k].as_bytes());
        proof {
            assert(o[pos as int] == order@[pos as int] as int);
        }
        if sign < 0 {
            return pos;
        }
        pos = pos + 1;
    }
    pos
}

/// The indices of `special_tokens` from the largest token to the smallest.
fn order_descending(special_tokens: &[&str]) -> (r: Vec<usize>)
    ensures
        r@.map_values(|x: usize| x as int) == descending_order(
            texts_bytes(special_tokens@),
            special_tokens@.len() as int,
        ),
        forall|i: int| 0 <= i < r@.len() ==> #[trigger] r@[i] < special_tokens@.len(),
{
    let ghost toks = texts_bytes(special_tokens@);
    let mut order: Vec<usize> = Vec::new();
    let mut k: usize = 0;
    proof {
        assert(order@.map_values(|x: usize| x as int) =~= descending_order(toks, 0));
    }
    while k < special_tokens.len()
        invariant
            toks == texts_bytes(special_tokens@),
            k <= special_tokens@.len(),
            order@.map_values(|x: usize| x as int) == descending_order(toks, k as int),
            forall|i: int| 0 <= i < order@.len() ==> #[trigger] order@[i] < special_tokens@.len(),
        decreases special_tokens@.len() - k,
    {
        let pos = find_insert_position(&order, special_tokens, k);
        let ghost before = order@;
        order.insert(pos, k);
        proof {
            assert(order@.map_values(|x: usize| x as int) =~= before.map_values(|x: usize| x as int).insert(
                pos as int,
                k as int,
            ));
            assert forall|i: int| 0 <= i < order@.len() implies #[trigger] order@[i] < special_tokens@.len() by {
                if i < pos {
                    assert(order@[i] == before[i]);
                } else if i > pos {
                    assert(order@[i] == before[i - 1]);
                }
            }
        }
        k = k + 1;
    }
    order
}

/// The pattern that splits a text at the special tokens: the escaped tokens
/// joined by `|`, the largest first.
pub fn split_regex(special_tokens: &[&str]) -> (r: Option<Pattern>)
    ensures
        r is Some <==> regex_compiles(split_source(texts_bytes(special_tokens@))),
        r matches Some(p) ==> p.source() == split_source(texts_bytes(special_tokens@)),
{
    let ghost toks = texts_bytes(special_tokens@);
    let order = order_descending(special_tokens);
    let ghost o = order@.map_values(|x: usize| x as int);
    let ghost parts = Seq::new(o.len(), |i: int| regex_escaped(toks[o[i]]));
    let mut pattern: Vec<u8> = Vec::new();
    let mut i: usize = 0;
    proof {
        assert(valid_utf8(seq![124u8])) by {
            let bar = seq!['|'];
            assert(vstd::utf8::is_ascii_chars(bar));
            assert(encode_utf8(bar) =~= seq![124u8]);
        }
        assert(parts.take(0) =~= Seq::<Seq<u8>>::empty());
        assert(valid_utf8(pattern@));
    }
    while i < order.len()
        invariant
            toks == texts_bytes(special_tokens@),
            o == order@.map_values(|x: usize| x as int),
            parts == Seq::new(o.len(), |i: int| regex_escaped(toks[o[i]])),
            forall|j: int| 0 <= j < order@.len() ==> #[trigger] order@[j] < special_tokens@.len(),
            i <= order@.len(),
            pattern@ == alternation(parts.take(i as int)),
            valid_utf8(pattern@),
            valid_utf8(seq![124u8]),
        decreases order@.len() - i,
    {
        let ghost before = pattern@;
        if i > 0 {
            pattern.push(124u8);
        }
        let esc = escape(special_tokens[order[i]]);
        let esc_bytes = esc.as_str().as_bytes();
        let mut j: usize = 0;
        let ghost mid = pattern@;
        while j < esc_bytes.len()
            invariant
                pattern@ == mid + esc_bytes@.take(j as int),
                j <= esc_bytes@.len(),
            decreases esc_bytes@.len() - j,
        {
            pattern.push(esc_bytes[j]);
            j = j + 1;
            proof {
                assert(pattern@ =~= mid + esc_bytes@.take(j as int));
            }
        }
        proof {
            assert(esc_bytes@ == regex_escaped(toks[o[i as int]]));
            assert(esc_bytes@.take(j as int) =~= esc_bytes@);
            assert(parts.take(i + 1).drop_last() =~= parts.take(i as int));
            assert(parts.take(i + 1).last() == parts[i as int]);
            if i > 0 {
                assert(mid =~= before + seq![124u8]);
            } else {
                assert(mid =~= before);
                assert(parts.take(1) =~= seq![parts[0]]);
            }
            vstd::utf8::valid_utf8_concat(mid, esc_bytes@);
        }
        i = i + 1;
    }
    proof {
        assert(parts.take(i as int) =~= parts);
    }
    match utf8_str(pattern.as_slice()) {
        Some(text) => Pattern::compile(text),
        None => {
            proof {
                assert(false);
            }
            None
        },
    }
}

/// The nonempty matches `m` in `piece`, as byte strings, in order.
pub open spec fn match_tokens(piece: Seq<u8>, m: Seq<(usize, usize)>) -> Seq<Seq<u8>>
    decreases m.len(),
{
    if m.len() == 0 {
        Seq::empty()
    } else {
        let t = piece.subrange(m.last().0 as int, m.last().1 as int);
        match_tokens(piece, m.drop_last()) + if t.len() > 0 {
            seq![t]
        } else {
            Seq::empty()
        }
    }
}

/// The pretokens that the GPT-2 pattern finds in the first `k` of the
/// `pieces` of `text`, in order; `None` where the engine gave up on one of
/// them.
pub open spec fn pieces_tokens(text: Seq<u8>, pieces: Seq<(int, int)>, k: int) -> Option<Seq<Seq<u8>>>
    decreases k,
{
    if k <= 0 {
        Some(Seq::empty())
    } else {
        let piece = text.subrange(pieces[k - 1].0, pieces[k - 1].1);
        match (pieces_tokens(text, pieces, k - 1), regex_matches(gpt2_source(), piece)) {
            (Some(a), Some(m)) => Some(a + match_tokens(piece, m)),
            _ => None,
        }
    }
}

/// The pretokens of a chunk of text for training: the text is split at the
/// matches of `split_pattern` (the special tokens, which are dropped), and
/// each piece is cut into the matches of the GPT-2 pattern.
pub open spec fn training_pretokens(text: Seq<u8>, split_pattern: Seq<u8>) -> Option<Seq<Seq<u8>>> {
    match regex_matches(split_pattern, text) {
        None => None,
        Some(m) => {
            let pieces = split_pieces(m, text.len() as int);
            pieces_tokens(text, pieces, pieces.len() as int)
        },
    }
}

/// Count the nonempty matches `m` of `piece` into `ret`.
fn append_matches(ret: &mut SequenceBuilder, piece: &[u8], m: &Vec<(usize, usize)>, Ghost(before): Ghost<Seq<Seq<u8>>>, Ghost(offset): Ghost<int>, Ghost(limit): Ghost<int>)
    requires
        old(ret).wf(),
        old(ret).view() == counts_of(before),
        forall|i: int| 0 <= i < before.len() ==> #[trigger] before[i].len() > 0,
        bytes_len(before) <= offset,
        offset + piece@.len() <= limit <= usize::MAX,
        ranges_in_order(m@, piece@),
    ensures
        final(ret).wf(),
        final(ret).view() == counts_of(before + match_tokens(piece@, m@)),
        forall|i: int| 0 <= i < (before + match_tokens(piece@, m@)).len() ==> #[trigger] (before + match_tokens(piece@, m@))[i].len() > 0,
        bytes_len(before + match_tokens(piece@, m@)) <= offset + piece@.len(),
{
    let mut j: usize = 0;
    let ghost mut toks = before;
    proof {
        assert(before + match_tokens(piece@, m@.take(0)) =~= before);
    }
    while j < m.len()
        invariant
            ret.wf(),
            ranges_in_order(m@, piece@),
            forall|i: int| 0 <= i < before.len() ==> #[trigger] before[i].len() > 0,
            bytes_len(before) <= offset,
            offset + piece@.len() <= limit <= usize::MAX,
            j <= m@.len(),
            toks == before + match_tokens(piece@, m@.take(j as int)),
            ret.view() == counts_of(toks),
            forall|i: int| 0 <= i < toks.len() ==> #[trigger] toks[i].len() > 0,
            bytes_len(toks) <= offset + if j == 0 { 0 } else { m@[j - 1].1 as int },
        decreases m@.len() - j,
    {
        let (start, end) = m[j];
        proof {
            assert(m@[j as int].0 <= m@[j as int].1 <= piece@.len());
            if j > 0 {
                assert(m@[j - 1].1 <= m@[j as int].0);
            }
            assert(m@.take(j + 1).drop_last() =~= m@.take(j as int));
            assert(m@.take(j + 1).last() == m@[j as int]);
        }
        if start < end {
            let token = &piece[start..end];
            proof {
                let t = piece@.subrange(start as int, end as int);
                assert(token@ == t);
                lemma_counts_of_bound(toks, t);
                lemma_tokens_len_le_bytes(toks);
                assert((before + match_tokens(piece@, m@.take(j + 1))) =~= toks.push(t));
                assert(toks.push(t).drop_last() =~= toks);
            }
            ret.append(token);
            proof {
                let t = piece@.subrange(start as int, end as int);
                toks = toks.push(t);
            }
        } else {
            proof {
                assert((before + match_tokens(piece@, m@.take(j + 1))) =~= toks);
            }
        }
        j = j + 1;
    }
    proof {
        assert(m@.take(j as int) =~= m@);
        if j > 0 {
            assert(m@[j - 1].1 <= piece@.len());
        }
    }
}

/// A list of nonempty byte strings has at most as many entries as bytes.
proof fn lemma_tokens_len_le_bytes(toks: Seq<Seq<u8>>)
    requires
        forall|i: int| 0 <= i < toks.len() ==> #[trigger] toks[i].len() > 0,
    ensures
        toks.len() <= bytes_len(toks),
    decreases toks.len(),
{
    if toks.len() > 0 {
        lemma_tokens_len_le_bytes(toks.drop_last());
    }
}

/// Pretokenize a chunk of text and return its associated SequenceBuilder:
/// the chunk is split at the special tokens, which are dropped, and each
/// piece is cut into pretokens by the GPT-2 pattern, which are counted.
/// `None` where a pattern does not compile or the engine gives up.
#[verifier::rlimit(30)]
pub fn pretokenize_chunk_for_training(chunk: &[u8], special_tokens: &[&str]) -> (r: Option<SequenceBuilder>)
    requires
        valid_utf8(chunk@),
    ensures
        r is Some <==> regex_compiles(split_source(texts_bytes(special_tokens@))) && regex_compiles(gpt2_source())
            && training_pretokens(chunk@, split_source(texts_bytes(special_tokens@))) is Some,
        r is Some ==> {
            let toks = training_pretokens(chunk@, split_source(texts_bytes(special_tokens@))).unwrap();
            &&& r.unwrap().wf()
            &&& r.unwrap().view() == counts_of(toks)
            &&& forall|i: int| 0 <= i < toks.len() ==> #[trigger] toks[i].len() > 0
            &&& bytes_len(toks) <= chunk@.len()
        },
{
    let ghost text = chunk@;
    let ghost split_src = split_source(texts_bytes(special_tokens@));
    // Step 1: Split and remove special tokens
    let split_re = match split_regex(special_tokens) {
        Some(p) => p,
        None => return None,
    };
    let chunk_str = match utf8_str(chunk) {
        Some(s) => s,
        None => return None,
    };
    let splits = match split_re.split(chunk_str) {
        Some(v) => v,
        None => return None,
    };
    let gpt_reg = match gpt_regex() {
        Some(p) => p,
        None => return None,
    };
    let ghost sm = regex_matches(split_src, text).unwrap();
    let ghost pieces = split_pieces(sm, text.len() as int);
    let mut ret = SequenceBuilder::new();
    let mut i: usize = 0;
    let ghost mut toks: Seq<Seq<u8>> = Seq::empty();
    proof {
        assert(ret.view() == counts_of(toks));
        assert(chunk@.len() == chunk.len());
    }
    while i < splits.len()
        invariant
            text == chunk@,
            text.len() <= usize::MAX,
            regex_compiles(split_src),
            regex_compiles(gpt2_source()),
            split_src == split_source(texts_bytes(special_tokens@)),
            regex_matches(split_src, text) == Some(sm),
            chunk_str.spec_bytes() == text,
            gpt_reg.source() == gpt2_source(),
            ranges_in_order(sm, text),
            pieces == split_pieces(sm, text.len() as int),
            splits@.len() == pieces.len(),
            forall|k: int| 0 <= k < splits@.len() ==> #[trigger] splits@[k].spec_bytes() == text.subrange(pieces[k].0, pieces[k].1),
            i <= splits@.len(),
            ret.wf(),
            pieces_tokens(text, pieces, i as int) == Some(toks),
            ret.view() == counts_of(toks),
            forall|k: int| 0 <= k < toks.len() ==> #[trigger] toks[k].len() > 0,
            bytes_len(toks) <= if i == 0 { 0 } else { pieces[i - 1].1 },
        decreases splits@.len() - i,
    {
        let piece = splits[i];
        let found = gpt_reg.find_ranges(piece);
        let m = match found {
            Some(m) => m,
            None => {
                proof {
                    assert(splits@[i as int].spec_bytes() == text.subrange(pieces[i as int].0, pieces[i as int].1));
                    assert(pieces_tokens(text, pieces, i + 1) is None);
                    lemma_pieces_tokens_none(text, pieces, i + 1, pieces.len() as int);
                }
                return None;
            },
        };
        proof {
            assert(pieces[i as int].0 <= pieces[i as int].1 <= text.len()) by {
                if i > 0 && i < sm.len() {
                    assert(sm[i - 1].0 <= sm[i - 1].1);
                }
                if i < sm.len() {
                    assert(sm[i as int].0 <= sm[i as int].1);
                }
                if i > 0 {
                    assert(sm[i - 1].0 <= sm[i - 1].1);
                    if i < sm.len() {
                        assert(sm[i - 1].1 <= sm[i as int].0);
                    }
                }
            }
            if i > 0 {
                assert(pieces[i - 1].1 <= pieces[i as int].0) by {
                    assert(sm[i - 1].0 <= sm[i - 1].1);
                }
            }
        }
        append_matches(&mut ret, piece.as_bytes(), &m, Ghost(toks), Ghost(pieces[i as int].0), Ghost(text.len() as int));
        proof {
            toks = toks + match_tokens(piece.spec_bytes(), m@);
        }
        i = i + 1;
    }
    proof {
        assert(pieces[pieces.len() - 1].1 == text.len());
    }
    Some(ret)
}

/// Once the pretokens of some pieces are `None`, so are those of more.
proof fn lemma_pieces_tokens_none(text: Seq<u8>, pieces: Seq<(int, int)>, k: int, n: int)
    requires
        pieces_tokens(text, pieces, k) is None,
        k <= n,
    ensures
        pieces_tokens(text, pieces, n) is None,
    decreases n - k,
{
    if k < n {
        lemma_pieces_tokens_none(text, pieces, k, n - 1);
    }
}

/// The nonempty matches of ordered ranges make up at most the bytes up to
/// the end of the last range.
proof fn lemma_match_tokens_len(piece: Seq<u8>, m: Seq<(usize, usize)>)
    requires
        ranges_in_order(m, piece),
    ensures
        bytes_len(match_tokens(piece, m)) <= if m.len() == 0 { 0 } else { m.last().1 as int },
        forall|i: int| 0 <= i < match_tokens(piece, m).len() ==> #[trigger] match_tokens(piece, m)[i].len() > 0,
    decreases m.len(),
{
    if m.len() > 0 {
        let pre = m.drop_last();
        assert(ranges_in_order(pre, piece)) by {
            assert forall|i: int| 0 <= i < pre.len() - 1 implies #[trigger] pre[i].1 <= pre[i + 1].0 by {
                assert(m[i].1 <= m[i + 1].0);
            }
            assert forall|i: int| 0 <= i < pre.len() implies #[trigger] pre[i].0 <= pre[i].1 <= piece.len() by {
                assert(m[i].0 <= m[i].1);
            }
        }
        lemma_match_tokens_len(piece, pre);
        assert(m[m.len() - 1].0 <= m[m.len() - 1].1 <= piece.len());
        if pre.len() > 0 {
            assert(m[m.len() - 2].1 <= m[m.len() - 1].0);
        }
        let t = piece.subrange(m.last().0 as int, m.last().1 as int);
        if t.len() > 0 {
            assert((match_tokens(piece, pre) + seq![t]).drop_last() =~= match_tokens(piece, pre));
        } else {
            assert(match_tokens(piece, pre) + Seq::<Seq<u8>>::empty() =~= match_tokens(piece, pre));
        }
    }
}

/// The token of the first special token whose text has the bytes `s`.
pub open spec fn special_id(specials: Seq<(Seq<u8>, u32)>, s: Seq<u8>) -> Option<u32>
    decreases specials.len(),
{
    if specials.len() == 0 {
        None
    } else if specials[0].0 == s {
        Some(specials[0].1)
    } else {
        special_id(specials.drop_first(), s)
    }
}

/// The bytes of special tokens paired with their tokens.
pub open spec fn specials_bytes(specials: Seq<(&str, u32)>) -> Seq<(Seq<u8>, u32)> {
    specials.map_values(|e: (&str, u32)| (e.0.spec_bytes(), e.1))
}

/// The token that `rv` gives byte `b`, if any.
pub open spec fn byte_token(rv: Seq<Option<u32>>, b: u8) -> Option<u32> {
    if (b as int) < rv.len() {
        rv[b as int]
    } else {
        None
    }
}

/// The bytes of `t`, each turned into its token by `rv`; `None` when a
/// byte has none.
pub open spec fn map_bytes(t: Seq<u8>, rv: Seq<Option<u32>>) -> Option<Seq<u32>>
    decreases t.len(),
{
    if t.len() == 0 {
        Some(Seq::empty())
    } else {
        match (map_bytes(t.drop_last(), rv), byte_token(rv, t.last())) {
            (Some(a), Some(x)) => Some(a.push(x)),
            _ => None,
        }
    }
}

/// Each of `toks` turned into tokens by `rv`; `None` when a byte has none.
pub open spec fn map_tokens(toks: Seq<Seq<u8>>, rv: Seq<Option<u32>>) -> Option<Seq<Seq<u32>>>
    decreases toks.len(),
{
    if toks.len() == 0 {
        Some(Seq::empty())
    } else {
        match (map_tokens(toks.drop_last(), rv), map_bytes(toks.last(), rv)) {
            (Some(a), Some(x)) => Some(a.push(x)),
            _ => None,
        }
    }
}

/// The sequences that the GPT-2 pretokens of `slice` encode to; `None`
/// where the pattern does not compile, the engine gives up or a byte has
/// no token.
pub open spec fn slice_sequences(slice: Seq<u8>, rv: Seq<Option<u32>>) -> Option<Seq<Seq<u32>>> {
    if !regex_compiles(gpt2_source()) {
        None
    } else {
        match regex_matches(gpt2_source(), slice) {
            None => None,
            Some(m) => map_tokens(match_tokens(slice, m), rv),
        }
    }
}

/// The sequences that some matches encode to are those of the nonempty
/// matches, one each, in no more sequences than matches.
proof fn lemma_map_match_tokens(slice: Seq<u8>, m: Seq<(usize, usize)>, rv: Seq<Option<u32>>, seqs: Seq<Seq<u32>>)
    requires
        map_tokens(match_tokens(slice, m), rv) == Some(seqs),
    ensures
        seqs.len() <= m.len(),
        forall|k: int|
            #![trigger seqs[k]]
            0 <= k < seqs.len() ==> exists|i: int|
                0 <= i < m.len() && (#[trigger] slice.subrange(m[i].0 as int, m[i].1 as int)).len() > 0 && map_bytes(
                    slice.subrange(m[i].0 as int, m[i].1 as int),
                    rv,
                ) == Some(seqs[k]),
        forall|i: int|
            0 <= i < m.len() && slice.subrange(m[i].0 as int, m[i].1 as int).len() > 0 ==> exists|k: int|
                0 <= k < seqs.len() && map_bytes(slice.subrange(m[i].0 as int, m[i].1 as int), rv) == Some(
                    #[trigger] seqs[k],
                ),
    decreases m.len(),
{
    if m.len() > 0 {
        let pre = match_tokens(slice, m.drop_last());
        let t = slice.subrange(m.last().0 as int, m.last().1 as int);
        let n = m.len() - 1;
        assert(m[n] == m.last());
        if t.len() > 0 {
            let all = pre + seq![t];
            assert(all.drop_last() =~= pre);
            assert(all.last() == t);
            let a = map_tokens(pre, rv).unwrap();
            let x = map_bytes(t, rv).unwrap();
            assert(seqs == a.push(x));
            lemma_map_match_tokens(slice, m.drop_last(), rv, a);
            assert forall|k: int| #![trigger seqs[k]] 0 <= k < seqs.len() implies exists|i: int|
                0 <= i < m.len() && (#[trigger] slice.subrange(m[i].0 as int, m[i].1 as int)).len() > 0 && map_bytes(
                    slice.subrange(m[i].0 as int, m[i].1 as int),
                    rv,
                ) == Some(seqs[k]) by {
                if k == a.len() {
                    assert(slice.subrange(m[n].0 as int, m[n].1 as int) == t);
                } else {
                    assert(seqs[k] == a[k]);
                    let i = choose|i: int|
                        0 <= i < m.drop_last().len() && (#[trigger] slice.subrange(
                            m.drop_last()[i].0 as int,
                            m.drop_last()[i].1 as int,
                        )).len() > 0 && map_bytes(
                            slice.subrange(m.drop_last()[i].0 as int, m.drop_last()[i].1 as int),
                            rv,
                        ) == Some(a[k]);
                    assert(m.drop_last()[i] == m[i]);
                }
            }
            assert forall|i: int|
                0 <= i < m.len() && slice.subrange(m[i].0 as int, m[i].1 as int).len() > 0 implies exists|k: int|
                0 <= k < seqs.len() && map_bytes(slice.subrange(m[i].0 as int, m[i].1 as int), rv) == Some(
                    #[trigger] seqs[k],
                ) by {
                if i == n {
                    assert(seqs[a.len() as int] == x);
                } else {
                    assert(m.drop_last()[i] == m[i]);
                    let k = choose|k: int|
                        0 <= k < a.len() && map_bytes(
                            slice.subrange(m.drop_last()[i].0 as int, m.drop_last()[i].1 as int),
                            rv,
                        ) == Some(#[trigger] a[k]);
                    assert(seqs[k] == a[k]);
                }
            }
        } else {
            assert(pre + Seq::<Seq<u8>>::empty() =~= pre);
            lemma_map_match_tokens(slice, m.drop_last(), rv, seqs);
            assert forall|k: int| #![trigger seqs[k]] 0 <= k < seqs.len() implies exists|i: int|
                0 <= i < m.len() && (#[trigger] slice.subrange(m[i].0 as int, m[i].1 as int)).len() > 0 && map_bytes(
                    slice.subrange(m[i].0 as int, m[i].1 as int),
                    rv,
                ) == Some(seqs[k]) by {
                let i = choose|i: int|
                    0 <= i < m.drop_last().len() && (#[trigger] slice.subrange(
                        m.drop_last()[i].0 as int,
                        m.drop_last()[i].1 as int,
                    )).len() > 0 && map_bytes(
                        slice.subrange(m.drop_last()[i].0 as int, m.drop_last()[i].1 as int),
                        rv,
                    ) == Some(seqs[k]);
                assert(m.drop_last()[i] == m[i]);
            }
            assert forall|i: int|
                0 <= i < m.len() && slice.subrange(m[i].0 as int, m[i].1 as int).len() > 0 implies exists|k: int|
                0 <= k < seqs.len() && map_bytes(slice.subrange(m[i].0 as int, m[i].1 as int), rv) == Some(
                    #[trigger] seqs[k],
                ) by {
                assert(i != n);
                assert(m.drop_last()[i] == m[i]);
                assert(slice.subrange(m.drop_last()[i].0 as int, m.drop_last()[i].1 as int).len() > 0);
            }
        }
    }
}

/// A slice encodes to one sequence for each nonempty match of the GPT-2
/// pattern in it, each that match's bytes turned into tokens: every
/// sequence is a single pretoken, so no sequence spans two, and every
/// nonempty pretoken has its sequence.
pub proof fn lemma_slice_sequences_pretokens(slice: Seq<u8>, rv: Seq<Option<u32>>, m: Seq<(usize, usize)>)
    requires
        regex_compiles(gpt2_source()),
        regex_matches(gpt2_source(), slice) == Some(m),
        slice_sequences(slice, rv) is Some,
    ensures
        slice_sequences(slice, rv).unwrap().len() <= m.len(),
        forall|k: int|
            #![trigger slice_sequences(slice, rv).unwrap()[k]]
            0 <= k < slice_sequences(slice, rv).unwrap().len() ==> exists|i: int|
                0 <= i < m.len() && (#[trigger] slice.subrange(m[i].0 as int, m[i].1 as int)).len() > 0 && map_bytes(
                    slice.subrange(m[i].0 as int, m[i].1 as int),
                    rv,
                ) == Some(slice_sequences(slice, rv).unwrap()[k]),
        forall|i: int|
            0 <= i < m.len() && slice.subrange(m[i].0 as int, m[i].1 as int).len() > 0 ==> exists|k: int|
                0 <= k < slice_sequences(slice, rv).unwrap().len() && map_bytes(
                    slice.subrange(m[i].0 as int, m[i].1 as int),
                    rv,
                ) == Some(#[trigger] slice_sequences(slice, rv).unwrap()[k]),
{
    lemma_map_match_tokens(slice, m, rv, slice_sequences(slice, rv).unwrap());
}

/// Turns a pretoken's bytes into tokens.
fn tokenize_bytes(t: &[u8], reverse_vocab: &[Option<u32>]) -> (r: Option<Vec<u32>>)
    ensures
        match r {
            Some(v) => map_bytes(t@, reverse_vocab@) == Some(v@),
            None => map_bytes(t@, reverse_vocab@) is None,
        },
{
    let mut out: Vec<u32> = Vec::new();
    let mut i: usize = 0;
    proof {
        assert(t@.take(0) =~= Seq::<u8>::empty());
    }
    while i < t.len()
        invariant
            i <= t@.len(),
            map_bytes(t@.take(i as int), reverse_vocab@) == Some(out@),
        decreases t@.len() - i,
    {
        let b = t[i];
        proof {
            assert(t@.take(i + 1).drop_last() =~= t@.take(i as int));
            assert(t@.take(i + 1).last() == b);
        }
        if (b as usize) < reverse_vocab.len() {
            match reverse_vocab[b as usize] {
                Some(x) => {
                    out.push(x);
                },
                None => {
                    proof {
                        lemma_map_bytes_none(t@, reverse_vocab@, i + 1);
                    }
                    return None;
                },
            }
        } else {
            proof {
                lemma_map_bytes_none(t@, reverse_vocab@, i + 1);
            }
            return None;
        }
        i = i + 1;
    }
    proof {
        assert(t@.take(i as int) =~= t@);
    }
    Some(out)
}

/// Once a prefix has a byte without a token, so has the whole.
proof fn lemma_map_bytes_none(t: Seq<u8>, rv: Seq<Option<u32>>, k: int)
    requires
        0 <= k <= t.len(),
        map_bytes(t.take(k), rv) is None,
    ensures
        map_bytes(t, rv) is None,
    decreases t.len() - k,
{
    if k < t.len() {
        assert(t.take(k + 1).drop_last() =~= t.take(k));
        lemma_map_bytes_none(t, rv, k + 1);
    } else {
        assert(t.take(k) =~= t);
    }
}

/// Pretokenize `pre_tok_str` with the GPT-2 pattern and push each pretoken,
/// turned into tokens by `reverse_vocab`, onto `ret` as a sequence of its
/// own. Returns whether that succeeded: it fails where the pattern does not
/// compile, the engine gives up or a byte has no token.
pub fn preokenize_slice_for_encoding(ret: &mut SequenceShard, pre_tok_str: &str, reverse_vocab: &[Option<u32>]) -> (ok: bool)
    requires
        old(ret).wf(),
        old(ret).weight() <= old(ret).storage_len(),
        old(ret).storage_len() + pre_tok_str.spec_bytes().len() <= u32::MAX,
        forall|s: int| 0 <= s < old(ret).num_sequences() ==> #[trigger] old(ret).dup(s) == 1,
    ensures
        final(ret).wf(),
        final(ret).weight() <= final(ret).storage_len(),
        final(ret).storage_len() <= old(ret).storage_len() + pre_tok_str.spec_bytes().len(),
        forall|s: int| 0 <= s < final(ret).num_sequences() ==> #[trigger] final(ret).dup(s) == 1,
        ok <==> slice_sequences(pre_tok_str.spec_bytes(), reverse_vocab@) is Some,
        ok ==> final(ret).view() == old(ret).view() + slice_sequences(pre_tok_str.spec_bytes(), reverse_vocab@).unwrap(),
{
    let ghost bytes = pre_tok_str.spec_bytes();
    let ghost start = *ret;
    let gpt_reg = match gpt_regex() {
        Some(p) => p,
        None => return false,
    };
    let m = match gpt_reg.find_ranges(pre_tok_str) {
        Some(m) => m,
        None => return false,
    };
    let ghost toks = match_tokens(bytes, m@);
    let piece = pre_tok_str.as_bytes();
    let mut j: usize = 0;
    let ghost mut done: Seq<Seq<u32>> = Seq::empty();
    proof {
        assert(m@.take(0) =~= Seq::<(usize, usize)>::empty());
        assert(start.view() + done =~= start.view());
    }
    while j < m.len()
        invariant
            piece@ == bytes,
            bytes == pre_tok_str.spec_bytes(),
            start == *old(ret),
            ranges_in_order(m@, bytes),
            j <= m@.len(),
            ret.wf(),
            ret.weight() <= ret.storage_len(),
            map_tokens(match_tokens(bytes, m@.take(j as int)), reverse_vocab@) == Some(done),
            ret.view() == start.view() + done,
            ret.storage_len() == start.storage_len() + bytes_len(match_tokens(bytes, m@.take(j as int))),
            bytes_len(match_tokens(bytes, m@.take(j as int))) <= if j == 0 { 0 } else { m@[j - 1].1 as int },
            start.storage_len() + bytes.len() <= u32::MAX,
            ret.storage_len() <= start.storage_len() + bytes.len(),
            forall|s: int| 0 <= s < ret.num_sequences() ==> #[trigger] ret.dup(s) == 1,
            regex_compiles(gpt2_source()),
            regex_matches(gpt2_source(), bytes) == Some(m@),
        decreases m@.len() - j,
    {
        let (s, e) = m[j];
        let ghost pre = match_tokens(bytes, m@.take(j as int));
        proof {
            assert(m@[j as int].0 <= m@[j as int].1 <= bytes.len());
            if j > 0 {
                assert(m@[j - 1].1 <= m@[j as int].0);
            }
            assert(m@.take(j + 1).drop_last() =~= m@.take(j as int));
            assert(m@.take(j + 1).last() == m@[j as int]);
        }
        if s < e {
            let token = &piece[s..e];
            let ghost t = bytes.subrange(s as int, e as int);
            proof {
                assert(token@ == t);
                assert(match_tokens(bytes, m@.take(j + 1)) =~= pre.push(t));
                assert(pre.push(t).drop_last() =~= pre);
            }
            let tokenized = match tokenize_bytes(token, reverse_vocab) {
                Some(v) => v,
                None => {
                    proof {
                        assert(map_tokens(match_tokens(bytes, m@.take(j + 1)), reverse_vocab@) is None);
                        lemma_map_tokens_none(bytes, m@, reverse_vocab@, j + 1);
                    }
                    return false;
                },
            };
            proof {
                lemma_map_bytes_len(t, reverse_vocab@);
            }
            ret.push(tokenized.as_slice(), 1);
            proof {
                done = done.push(tokenized@);
                assert(ret.view() =~= start.view() + done);
            }
        } else {
            proof {
                assert(match_tokens(bytes, m@.take(j + 1)) =~= pre);
            }
        }
        j = j + 1;
        proof {
            assert(m@[j - 1].1 <= bytes.len());
        }
    }
    proof {
        assert(m@.take(j as int) =~= m@);
    }
    true
}

/// A token list has a byte without a token as soon as a prefix of its
/// matches has.
proof fn lemma_map_tokens_none(bytes: Seq<u8>, m: Seq<(usize, usize)>, rv: Seq<Option<u32>>, k: int)
    requires
        0 <= k <= m.len(),
        map_tokens(match_tokens(bytes, m.take(k)), rv) is None,
    ensures
        map_tokens(match_tokens(bytes, m), rv) is None,
    decreases m.len() - k,
{
    if k < m.len() {
        assert(m.take(k + 1).drop_last() =~= m.take(k));
        let t = bytes.subrange(m[k].0 as int, m[k].1 as int);
        assert(m.take(k + 1).last() == m[k]);
        if t.len() > 0 {
            assert((match_tokens(bytes, m.take(k)) + seq![t]).drop_last() =~= match_tokens(bytes, m.take(k)));
        } else {
            assert(match_tokens(bytes, m.take(k)) + Seq::<Seq<u8>>::empty() =~= match_tokens(bytes, m.take(k)));
        }
        lemma_map_tokens_none(bytes, m, rv, k + 1);
    } else {
        assert(m.take(k) =~= m);
    }
}

/// Turning bytes into tokens keeps the length.
proof fn lemma_map_bytes_len(t: Seq<u8>, rv: Seq<Option<u32>>)
    ensures
        map_bytes(t, rv) matches Some(v) ==> v.len() == t.len(),
    decreases t.len(),
{
    if t.len() > 0 {
        lemma_map_bytes_len(t.drop_last(), rv);
    }
}

/// The sequences for the first `k` of the split matches `m` of `text`,
/// together with where the text after them starts: for each nonempty match,
/// the pretokens of the text before it and then its special token.
pub open spec fn encode_matches(
    text: Seq<u8>,
    m: Seq<(usize, usize)>,
    k: int,
    specials: Seq<(Seq<u8>, u32)>,
    rv: Seq<Option<u32>>,
) -> Option<(Seq<Seq<u32>>, int)>
    decreases k,
{
    if k <= 0 {
        Some((Seq::empty(), 0))
    } else {
        match encode_matches(text, m, k - 1, specials, rv) {
            None => None,
            Some(acc) => {
                let s = m[k - 1].0 as int;
                let e = m[k - 1].1 as int;
                if s == e {
                    Some(acc)
                } else {
                    match (special_id(specials, text.subrange(s, e)), slice_sequences(text.subrange(acc.1, s), rv)) {
                        (Some(id), Some(pre)) => Some((acc.0 + pre + seq![seq![id]], e)),
                        _ => None,
                    }
                }
            },
        }
    }
}

/// The sequences that a chunk of text encodes to: the pretokens between the
/// special tokens, each turned into tokens byte by byte, and each special
/// token as a sequence of its own token.
pub open spec fn encoding_sequences(
    text: Seq<u8>,
    split_pattern: Seq<u8>,
    specials: Seq<(Seq<u8>, u32)>,
    rv: Seq<Option<u32>>,
) -> Option<Seq<Seq<u32>>> {
    match regex_matches(split_pattern, text) {
        None => None,
        Some(m) => match encode_matches(text, m, m.len() as int, specials, rv) {
            None => None,
            Some(acc) => if acc.1 != text.len() {
                match slice_sequences(text.subrange(acc.1, text.len() as int), rv) {
                    None => None,
                    Some(rest) => Some(acc.0 + rest),
                }
            } else {
                Some(acc.0)
            },
        },
    }
}

/// The texts of the special tokens.
pub open spec fn special_names(specials: Seq<(&str, u32)>) -> Seq<Seq<u8>> {
    specials.map_values(|e: (&str, u32)| e.0.spec_bytes())
}

/// The token of the first special token whose text is `text`.
fn find_special(special_tokens: &[(&str, u32)], text: &str) -> (r: Option<u32>)
    ensures
        r == special_id(specials_bytes(special_tokens@), text.spec_bytes()),
{
    let ghost sp = specials_bytes(special_tokens@);
    let mut i: usize = 0;
    proof {
        assert(sp.skip(0) =~= sp);
    }
    while i < special_tokens.len()
        invariant
            sp == specials_bytes(special_tokens@),
            i <= special_tokens@.len(),
            special_id(sp, text.spec_bytes()) == special_id(sp.skip(i as int), text.spec_bytes()),
        decreases special_tokens@.len() - i,
    {
        let (name, id) = special_tokens[i];
        let sign = compare_bytes(name.as_bytes(), text.as_bytes());
        proof {
            lemma_bytes_sign_zero(name.spec_bytes(), text.spec_bytes());
            assert(sp.skip(i as int)[0] == sp[i as int]);
            assert(sp.skip(i as int).drop_first() =~= sp.skip(i + 1));
        }
        if sign == 0 {
            return Some(id);
        }
        i = i + 1;
    }
    proof {
        assert(sp.skip(i as int).len() == 0);
    }
    None
}

/// Once the matches up to `k` encode to `None`, so do all of them.
proof fn lemma_encode_matches_none(
    text: Seq<u8>,
    m: Seq<(usize, usize)>,
    k: int,
    n: int,
    specials: Seq<(Seq<u8>, u32)>,
    rv: Seq<Option<u32>>,
)
    requires
        0 <= k <= n,
        encode_matches(text, m, k, specials, rv) is None,
    ensures
        encode_matches(text, m, n, specials, rv) is None,
    decreases n - k,
{
    if k < n {
        lemma_encode_matches_none(text, m, k, n - 1, specials, rv);
    }
}

/// Pretokenize a chunk of text for encoding: the text between the special
/// tokens is cut into pretokens by the GPT-2 pattern, and each pretoken
/// becomes a sequence of the tokens that `reverse_vocab` gives its bytes;
/// each special token becomes a sequence of its own token. `None` where a
/// pattern does not compile, the engine gives up, a match is no special
/// token or a byte has no token.
#[verifier::rlimit(30)]
pub fn pretokenize_chunk_for_encoding(
    chunk: &[u8],
    special_tokens: &[(&str, u32)],
    reverse_vocab: &[Option<u32>],
) -> (r: Option<SequenceShard>)
    requires
        valid_utf8(chunk@),
        chunk@.len() <= u32::MAX,
    ensures
        r is Some <==> regex_compiles(split_source(special_names(special_tokens@))) && encoding_sequences(
            chunk@,
            split_source(special_names(special_tokens@)),
            specials_bytes(special_tokens@),
            reverse_vocab@,
        ) is Some,
        r is Some ==> {
            let shard = r.unwrap();
            &&& shard.wf()
            &&& shard.view() == encoding_sequences(
                chunk@,
                split_source(special_names(special_tokens@)),
                specials_bytes(special_tokens@),
                reverse_vocab@,
            ).unwrap()
            &&& forall|s: int| 0 <= s < shard.num_sequences() ==> #[trigger] shard.dup(s) == 1
        },
{
    let ghost text = chunk@;
    let ghost sp = specials_bytes(special_tokens@);
    let ghost rv = reverse_vocab@;
    let mut token_strs: Vec<&str> = Vec::new();
    let mut k: usize = 0;
    while k < special_tokens.len()
        invariant
            k <= special_tokens@.len(),
            token_strs@.len() == k,
            forall|j: int| 0 <= j < k ==> #[trigger] token_strs@[j] == special_tokens@[j].0,
        decreases special_tokens@.len() - k,
    {
        token_strs.push(special_tokens[k].0);
        k = k + 1;
    }
    proof {
        assert(texts_bytes(token_strs@) =~= special_names(special_tokens@));
    }
    let ghost split_src = split_source(special_names(special_tokens@));
    let split_re = match split_regex(token_strs.as_slice()) {
        Some(p) => p,
        None => return None,
    };
    let chunk_str = match utf8_str(chunk) {
        Some(s) => s,
        None => return None,
    };
    let m = match split_re.find_ranges(chunk_str) {
        Some(m) => m,
        None => return None,
    };
    let mut last_idx: usize = 0;
    let mut ret = SequenceShard::new();
    let mut i: usize = 0;
    proof {
        assert(is_char_boundary(text, 0));
        assert(chunk@.len() == chunk.len());
    }
    while i < m.len()
        invariant
            text == chunk@,
            text.len() <= u32::MAX,
            chunk_str.spec_bytes() == text,
            sp == specials_bytes(special_tokens@),
            rv == reverse_vocab@,
            split_src == split_source(special_names(special_tokens@)),
            regex_compiles(split_src),
            regex_matches(split_src, text) == Some(m@),
            ranges_in_order(m@, text),
            i <= m@.len(),
            ret.wf(),
            ret.weight() <= ret.storage_len(),
            ret.storage_len() <= last_idx,
            forall|s: int| 0 <= s < ret.num_sequences() ==> #[trigger] ret.dup(s) == 1,
            encode_matches(text, m@, i as int, sp, rv) == Some((ret.view(), last_idx as int)),
            last_idx <= text.len(),
            is_char_boundary(text, last_idx as int),
            i < m@.len() ==> last_idx <= m@[i as int].0,
        decreases m@.len() - i,
    {
        let (s, e) = m[i];
        proof {
            assert(m@[i as int].0 <= m@[i as int].1 <= text.len());
            if i + 1 < m@.len() {
                assert(m@[i as int].1 <= m@[i + 1].0);
            }
        }
        if s < e {
            let token_str = substr(chunk_str, s, e);
            let id = match find_special(special_tokens, token_str) {
                Some(id) => id,
                None => {
                    proof {
                        lemma_encode_matches_none(text, m@, i + 1, m@.len() as int, sp, rv);
                    }
                    return None;
                },
            };
            let pre = substr(chunk_str, last_idx, s);
            let ghost before = ret;
            if !preokenize_slice_for_encoding(&mut ret, pre, reverse_vocab) {
                proof {
                    lemma_encode_matches_none(text, m@, i + 1, m@.len() as int, sp, rv);
                }
                return None;
            }
            let mut single: Vec<u32> = Vec::new();
            single.push(id);
            ret.push(single.as_slice(), 1);
            proof {
                assert(ret.view() =~= before.view() + slice_sequences(text.subrange(last_idx as int, s as int), rv).unwrap()
                    + seq![seq![id]]);
            }
            last_idx = e;
        }
        i = i + 1;
    }
    if last_idx != chunk_str.as_bytes().len() {
        proof {
            assert(is_char_boundary(text, text.len() as int));
        }
        let rest = substr(chunk_str, last_idx, chunk_str.as_bytes().len());
        let ghost before = ret;
        if !preokenize_slice_for_encoding(&mut ret, rest, reverse_vocab) {
            return None;
        }
    }
    Some(ret)
}

} // verus!
