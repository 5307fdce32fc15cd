//! Cutting a corpus into chunks of about a given size that end right after
//! an occurrence of a separator, so that they can be pretokenized one by one.

use vstd::prelude::*;
use vstd::utf8::{
    is_char_boundary, is_continuation_byte, length_of_first_scalar, pop_first_scalar, valid_utf8,
};

verus! {

/// The first position at or after `i` where `needle` occurs in `haystack`.
pub open spec fn find_from(haystack: Seq<u8>, needle: Seq<u8>, i: int) -> Option<int>
    decreases haystack.len() + 1 - i,
{
    if i < 0 || i + needle.len() > haystack.len() {
        None
    } else if haystack.subrange(i, i + needle.len()) == needle {
        Some(i)
    } else {
        find_from(haystack, needle, i + 1)
    }
}

/// The first position where `needle` occurs in `haystack`.
pub open spec fn first_occurrence(haystack: Seq<u8>, needle: Seq<u8>) -> Option<int> {
    find_from(haystack, needle, 0)
}

/// `memchr::memmem::find`: the index of the first occurrence of `needle`
/// in `haystack`.
#[verifier::external_body]
fn find_bytes(haystack: &[u8], needle: &[u8]) -> (r: Option<usize>)
    ensures
        match r {
            Some(i) => first_occurrence(haystack@, needle@) == Some(i as int),
            None => first_occurrence(haystack@, needle@) is None,
        },
{
    memchr::memmem::find(haystack, needle)
}

/// Where a chunk ends whose search for the separator starts at `end`: the
/// file is searched in windows of `readahead` bytes, one after the other,
/// and the chunk ends right after the first separator found in a window,
/// or at the end of the file.
pub open spec fn separator_end(file: Seq<u8>, sep: Seq<u8>, end: int, readahead: int) -> int
    decreases file.len() - end,
{
    let window_end = if end + readahead < file.len() {
        end + readahead
    } else {
        file.len() as int
    };
    if window_end <= end {
        file.len() as int
    } else {
        match first_occurrence(file.subrange(end, window_end), sep) {
            Some(n) => if end + n + sep.len() < file.len() {
                end + n + sep.len()
            } else {
                file.len() as int
            },
            None => separator_end(file, sep, window_end, readahead),
        }
    }
}

/// Where the chunk that starts at `start` ends.
pub open spec fn chunk_end(file: Seq<u8>, sep: Seq<u8>, start: int, size: int, readahead: int) -> int {
    let end = if start + size < file.len() {
        start + size
    } else {
        file.len() as int
    };
    separator_end(file, sep, end, readahead)
}

/// The chunks of `file` from `start` on.
pub open spec fn chunks_from(file: Seq<u8>, sep: Seq<u8>, start: int, size: int, readahead: int) -> Seq<Seq<u8>>
    decreases file.len() - start,
{
    if start < 0 || start >= file.len() {
        Seq::empty()
    } else {
        let e = chunk_end(file, sep, start, size, readahead);
        if e <= start || e > file.len() {
            Seq::empty()
        } else {
            seq![file.subrange(start, e)] + chunks_from(file, sep, e, size, readahead)
        }
    }
}

/// The byte strings `parts` one after the other.
pub open spec fn joined(parts: Seq<Seq<u8>>) -> Seq<u8>
    decreases parts.len(),
{
    if parts.len() == 0 {
        Seq::empty()
    } else {
        joined(parts.drop_last()) + parts.last()
    }
}

/// The views of some byte slices.
pub open spec fn slices_view(chunks: Seq<&[u8]>) -> Seq<Seq<u8>> {
    chunks.map_values(|c: &[u8]| c@)
}

/// Facts about where a window search ends.
proof fn lemma_separator_end(file: Seq<u8>, sep: Seq<u8>, end: int, readahead: int)
    requires
        0 <= end <= file.len(),
        readahead > 0,
    ensures
        end <= separator_end(file, sep, end, readahead) <= file.len(),
        sep.len() > 0 ==> end < separator_end(file, sep, end, readahead) || end == file.len(),
        separator_end(file, sep, end, readahead) < file.len() ==> file.subrange(
            separator_end(file, sep, end, readahead) - sep.len(),
            separator_end(file, sep, end, readahead),
        ) == sep && separator_end(file, sep, end, readahead) >= sep.len(),
    decreases file.len() - end,
{
    let window_end = if end + readahead < file.len() {
        end + readahead
    } else {
        file.len() as int
    };
    if window_end > end {
        let w = file.subrange(end, window_end);
        match first_occurrence(w, sep) {
            Some(n) => {
                lemma_find_from(w, sep, 0);
                let e = end + n + sep.len();
                if e < file.len() {
                    assert(file.subrange(e - sep.len(), e) =~= w.subrange(n, n + sep.len()));
                }
            },
            None => {
                lemma_separator_end(file, sep, window_end, readahead);
            },
        }
    }
}

/// What a found position is.
proof fn lemma_find_from(haystack: Seq<u8>, needle: Seq<u8>, i: int)
    ensures
        find_from(haystack, needle, i) matches Some(n) ==> i <= n && n + needle.len() <= haystack.len()
            && haystack.subrange(n, n + needle.len()) == needle,
    decreases haystack.len() + 1 - i,
{
    if !(i < 0 || i + needle.len() > haystack.len()) && haystack.subrange(i, i + needle.len()) != needle {
        lemma_find_from(haystack, needle, i + 1);
    }
}

/// Where the readahead search from `end` ends, as `separator_end` says.
fn find_separator_end(file: &[u8], split_token: &[u8], end: usize, readahead: usize) -> (r: usize)
    requires
        end <= file@.len(),
        readahead > 0,
        file@.len() + readahead <= usize::MAX,
        file@.len() + split_token@.len() <= usize::MAX,
    ensures
        r == separator_end(file@, split_token@, end as int, readahead as int),
{
    let mut end_idx = end;
    loop
        invariant
            end <= end_idx <= file@.len(),
            readahead > 0,
            file@.len() + readahead <= usize::MAX,
            file@.len() + split_token@.len() <= usize::MAX,
            separator_end(file@, split_token@, end as int, readahead as int) == separator_end(
                file@,
                split_token@,
                end_idx as int,
                readahead as int,
            ),
        decreases file@.len() - end_idx,
    {
        let end_readahead_idx = if end_idx + readahead < file.len() {
            end_idx + readahead
        } else {
            file.len()
        };
        let window = &file[end_idx..end_readahead_idx];
        if window.len() == 0 {
            return file.len();
        }
        match find_bytes(window, split_token) {
            Some(n) => {
                proof {
                    lemma_find_from(window@, split_token@, 0);
                }
                let sep_end = end_idx + n + split_token.len();
                return if sep_end < file.len() {
                    sep_end
                } else {
                    file.len()
                };
            },
            None => {
                end_idx = end_readahead_idx;
            },
        }
    }
}

/// Chunk the given file with approx `estimated_chunk_size` chunks: each
/// chunk runs from where the one before ended to right after the first
/// `split_token` found by searching, in windows of `readahead` bytes, from
/// `estimated_chunk_size` bytes past its start, or to the end of the file.
pub fn chunk_with_readahead<'a>(
    file: &'a [u8],
    split_token: &[u8],
    estimated_chunk_size: usize,
    readahead: usize,
) -> (r: Vec<&'a [u8]>)
    requires
        readahead > 0,
        split_token@.len() > 0 || estimated_chunk_size > 0,
        file@.len() + estimated_chunk_size <= usize::MAX,
        file@.len() + readahead <= usize::MAX,
        file@.len() + split_token@.len() <= usize::MAX,
    ensures
        joined(slices_view(r@)) == file@,
        forall|i: int| 0 <= i < r@.len() ==> #[trigger] r@[i]@.len() > 0,
        slices_view(r@) == chunks_from(file@, split_token@, 0, estimated_chunk_size as int, readahead as int),
        forall|i: int| 0 <= i < r@.len() - 1 ==> #[trigger] r@[i]@.len() >= estimated_chunk_size,
{
    let mut start_idx: usize = 0;
    let mut ret: Vec<&'a [u8]> = Vec::new();
    proof {
        assert(slices_view(ret@) =~= Seq::<Seq<u8>>::empty());
        assert(slices_view(ret@) + chunks_from(file@, split_token@, 0, estimated_chunk_size as int, readahead as int)
            =~= chunks_from(file@, split_token@, 0, estimated_chunk_size as int, readahead as int));
    }
    while start_idx < file.len()
        invariant
            readahead > 0,
            split_token@.len() > 0 || estimated_chunk_size > 0,
            file@.len() + estimated_chunk_size <= usize::MAX,
            file@.len() + readahead <= usize::MAX,
            file@.len() + split_token@.len() <= usize::MAX,
            start_idx <= file@.len(),
            joined(slices_view(ret@)) == file@.take(start_idx as int),
            forall|i: int| 0 <= i < ret@.len() ==> #[trigger] ret@[i]@.len() > 0,
            slices_view(ret@) + chunks_from(file@, split_token@, start_idx as int, estimated_chunk_size as int, readahead as int)
                == chunks_from(file@, split_token@, 0, estimated_chunk_size as int, readahead as int),
        decreases file@.len() - start_idx,
    {
        let end_idx = if start_idx + estimated_chunk_size < file.len() {
            start_idx + estimated_chunk_size
        } else {
            file.len()
        };
        let next_sep_idx = find_separator_end(file, split_token, end_idx, readahead);
        proof {
            lemma_separator_end(file@, split_token@, end_idx as int, readahead as int);
        }
        let chunk = &file[start_idx..next_sep_idx];
        let ghost before = ret@;
        ret.push(chunk);
        proof {
            assert(slices_view(ret@) =~= slices_view(before).push(chunk@));
            assert(slices_view(ret@).drop_last() =~= slices_view(before));
            assert(file@.take(next_sep_idx as int) =~= file@.take(start_idx as int) + chunk@);
            assert(chunks_from(file@, split_token@, start_idx as int, estimated_chunk_size as int, readahead as int)
                =~= seq![chunk@] + chunks_from(
                file@,
                split_token@,
                next_sep_idx as int,
                estimated_chunk_size as int,
                readahead as int,
            ));
            assert(slices_view(ret@) + chunks_from(file@, split_token@, next_sep_idx as int, estimated_chunk_size as int, readahead as int)
                =~= slices_view(before) + (seq![chunk@] + chunks_from(
                file@,
                split_token@,
                next_sep_idx as int,
                estimated_chunk_size as int,
                readahead as int,
            )));
        }
        start_idx = next_sep_idx;
    }
    proof {
        assert(file@.take(start_idx as int) =~= file@);
        assert(slices_view(ret@) + Seq::<Seq<u8>>::empty() =~= slices_view(ret@));
        lemma_chunks_min_len(file@, split_token@, 0, estimated_chunk_size as int, readahead as int);
        assert forall|i: int| 0 <= i < ret@.len() - 1 implies #[trigger] ret@[i]@.len() >= estimated_chunk_size by {
            assert(slices_view(ret@)[i] == ret@[i]@);
        }
    }
    ret
}

/// There are no more chunks from `start` on than bytes.
pub proof fn lemma_chunks_count(file: Seq<u8>, sep: Seq<u8>, start: int, size: int, readahead: int)
    requires
        0 <= start <= file.len(),
    ensures
        start + chunks_from(file, sep, start, size, readahead).len() <= file.len(),
    decreases file.len() - start,
{
    if start < file.len() {
        let e = chunk_end(file, sep, start, size, readahead);
        if start < e <= file.len() {
            lemma_chunks_count(file, sep, e, size, readahead);
        }
    }
}

/// Every chunk but the last is at least `size` bytes long: the search for
/// the separator that ends a chunk starts `size` bytes past its start.
pub proof fn lemma_chunks_min_len(file: Seq<u8>, sep: Seq<u8>, start: int, size: int, readahead: int)
    requires
        0 <= start <= file.len(),
        size >= 0,
        readahead > 0,
    ensures
        forall|i: int|
            0 <= i < chunks_from(file, sep, start, size, readahead).len() - 1 ==> #[trigger] chunks_from(
                file,
                sep,
                start,
                size,
                readahead,
            )[i].len() >= size,
    decreases file.len() - start,
{
    if start < file.len() {
        let e = chunk_end(file, sep, start, size, readahead);
        let end = if start + size < file.len() {
            start + size
        } else {
            file.len() as int
        };
        lemma_separator_end(file, sep, end, readahead);
        if start < e <= file.len() {
            let cs = chunks_from(file, sep, start, size, readahead);
            let rest = chunks_from(file, sep, e, size, readahead);
            assert(cs == seq![file.subrange(start, e)] + rest);
            lemma_chunks_min_len(file, sep, e, size, readahead);
            assert forall|i: int| 0 <= i < cs.len() - 1 implies #[trigger] cs[i].len() >= size by {
                if i == 0 {
                    assert(rest.len() > 0);
                    assert(e < file.len());
                    assert(cs[0] == file.subrange(start, e));
                } else {
                    assert(cs[i] == rest[i - 1]);
                }
            }
        }
    }
}

/// Every chunk but the last ends with the separator.
pub proof fn lemma_chunks_end_with_separator(
    file: Seq<u8>,
    sep: Seq<u8>,
    start: int,
    size: int,
    readahead: int,
)
    requires
        0 <= start <= file.len(),
        size >= 0,
        readahead > 0,
        chunk_end(file, sep, start, size, readahead) < file.len(),
    ensures
        chunk_end(file, sep, start, size, readahead) >= sep.len(),
        file.subrange(
            chunk_end(file, sep, start, size, readahead) - sep.len(),
            chunk_end(file, sep, start, size, readahead),
        ) == sep,
{
    let end = if start + size < file.len() {
        start + size
    } else {
        file.len() as int
    };
    lemma_separator_end(file, sep, end, readahead);
}

/// The end of a valid UTF-8 prefix is a character boundary of the whole.
proof fn lemma_boundary_after_prefix(a: Seq<u8>, b: Seq<u8>)
    requires
        valid_utf8(a),
        valid_utf8(a + b),
    ensures
        is_char_boundary(a + b, a.len() as int),
    decreases a.len(),
{
    if a.len() > 0 {
        let ab = a + b;
        assert(ab[0] == a[0]);
        let l = length_of_first_scalar(a);
        assert(length_of_first_scalar(ab) == l);
        assert(l <= a.len());
        assert(pop_first_scalar(ab) =~= pop_first_scalar(a) + b);
        lemma_boundary_after_prefix(pop_first_scalar(a), b);
    }
}

/// A slice of valid UTF-8 between two character boundaries is valid.
proof fn lemma_valid_slice(bytes: Seq<u8>, s: int, e: int)
    requires
        valid_utf8(bytes),
        0 <= s <= e <= bytes.len(),
        is_char_boundary(bytes, s),
        is_char_boundary(bytes, e),
    ensures
        valid_utf8(bytes.subrange(s, e)),
{
    broadcast use vstd::utf8::group_utf8_lib;

    let rest = bytes.subrange(s, bytes.len() as int);
    assert(valid_utf8(rest));
    let k = e - s;
    if 0 < k < rest.len() {
        assert(rest[k] == bytes[e]);
        assert(is_continuation_byte(rest[k]) == is_continuation_byte(bytes[e]));
    }
    assert(is_char_boundary(rest, 0));
    assert(is_char_boundary(rest, rest.len() as int));
    assert(is_char_boundary(rest, k));
    assert(valid_utf8(rest.subrange(0, k)));
    assert(rest.subrange(0, k) =~= bytes.subrange(s, e));
}

/// Right after an occurrence of a nonempty valid UTF-8 separator is a
/// character boundary of a valid text.
proof fn lemma_boundary_after_separator(file: Seq<u8>, sep: Seq<u8>, e: int)
    requires
        valid_utf8(file),
        valid_utf8(sep),
        sep.len() > 0,
        sep.len() <= e <= file.len(),
        file.subrange(e - sep.len(), e) == sep,
    ensures
        is_char_boundary(file, e),
{
    broadcast use vstd::utf8::group_utf8_lib;

    let p = e - sep.len();
    assert(is_char_boundary(sep, 0));
    assert(!is_continuation_byte(sep[0]));
    assert(file[p] == sep[0]);
    assert(is_continuation_byte(file[p]) == is_continuation_byte(sep[0]));
    assert(is_char_boundary(file, p));
    let sub = file.subrange(p, file.len() as int);
    assert(valid_utf8(sub));
    let rest = file.subrange(e, file.len() as int);
    assert(sub =~= sep + rest);
    lemma_boundary_after_prefix(sep, rest);
    assert(is_char_boundary(sub, sep.len() as int));
    if e < file.len() {
        assert(sub[sep.len() as int] == file[e]);
        assert(is_continuation_byte(sub[sep.len() as int]) == is_continuation_byte(file[e]));
    } else {
        assert(is_char_boundary(file, file.len() as int));
    }
}

/// Cut at a nonempty valid UTF-8 separator, a valid UTF-8 file gives valid
/// UTF-8 chunks.
pub proof fn lemma_chunks_valid_utf8(file: Seq<u8>, sep: Seq<u8>, start: int, size: int, readahead: int)
    requires
        valid_utf8(file),
        valid_utf8(sep),
        sep.len() > 0,
        0 <= start <= file.len(),
        is_char_boundary(file, start),
        size >= 0,
        readahead > 0,
    ensures
        forall|i: int|
            0 <= i < chunks_from(file, sep, start, size, readahead).len() ==> valid_utf8(
                #[trigger] chunks_from(file, sep, start, size, readahead)[i],
            ),
    decreases file.len() - start,
{
    broadcast use vstd::utf8::group_utf8_lib;

    if start < file.len() {
        let e = chunk_end(file, sep, start, size, readahead);
        if e > start && e <= file.len() {
            let end = if start + size < file.len() {
                start + size
            } else {
                file.len() as int
            };
            lemma_separator_end(file, sep, end, readahead);
            if e < file.len() {
                lemma_boundary_after_separator(file, sep, e);
            } else {
                assert(is_char_boundary(file, file.len() as int));
            }
            lemma_valid_slice(file, start, e);
            lemma_chunks_valid_utf8(file, sep, e, size, readahead);
            let rest = chunks_from(file, sep, e, size, readahead);
            assert forall|i: int| 0 <= i < chunks_from(file, sep, start, size, readahead).len() implies valid_utf8(
                #[trigger] chunks_from(file, sep, start, size, readahead)[i],
            ) by {
                if i > 0 {
                    assert(chunks_from(file, sep, start, size, readahead)[i] == rest[i - 1]);
                }
            }
        }
    }
}

} // verus!
