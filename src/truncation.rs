//! Decoding a prefix of a buffer: the reads that fit in the prefix give what
//! they gave on the whole buffer, and the first read that runs past the end
//! of the prefix is the one reported.

use vstd::prelude::*;
use crate::cursor::{DecodeError, SpecStep, spec_bounded, spec_bytes, spec_counted, spec_repeat, spec_u32};
use crate::records::{
    WorldMapFileView, chip_step, event_step, map_head, page_step, payload_len, spec_map_lists,
    spec_std_string, spec_world_chip, spec_world_event_base, spec_world_event_page,
    spec_world_map, spec_words, u32_step,
};

verus! {

/// `e` reports a read that starts at or before `k` and needs bytes past it,
/// with exactly the bytes up to `k` available.
pub open spec fn covers(e: DecodeError, k: int) -> bool {
    match e {
        DecodeError::InsufficientData { offset, needed, available } => {
            &&& offset <= k < offset + needed
            &&& available == k - offset
        },
    }
}

/// How a decode at `p` on a whole buffer (`full`) and on its first `k`
/// bytes (`cut`) relate: a success never moves back; if it ends by `k` the
/// prefix gives the same; if `k` falls inside it the prefix fails with a
/// read that spans `k`.
pub open spec fn cut_agrees<V>(full: Result<(V, int), DecodeError>, cut: Result<(V, int), DecodeError>, p: int, k: int) -> bool {
    full is Ok ==> {
        &&& p <= full->Ok_0.1
        &&& k >= full->Ok_0.1 ==> cut == full
        &&& p <= k < full->Ok_0.1 ==> cut is Err && covers(cut->Err_0, k)
    }
}

/// `step` relates every prefix of `data` to `data` as `cut_agrees` says.
pub open spec fn step_cuts<V>(step: SpecStep<V>, data: Seq<u8>) -> bool {
    forall|p: int, k: int|
        #![trigger step(data.take(k), p)]
        0 <= p && 0 <= k <= data.len() ==> cut_agrees(step(data, p), step(data.take(k), p), p, k)
}

proof fn lemma_u32_cut(data: Seq<u8>, p: int, k: int)
    requires
        0 <= p,
        0 <= k <= data.len() <= usize::MAX,
    ensures
        cut_agrees(spec_u32(data, p), spec_u32(data.take(k), p), p, k),
{
    if p + 4 <= k {
        assert(data.take(k)[p] == data[p]);
        assert(data.take(k)[p + 1] == data[p + 1]);
        assert(data.take(k)[p + 2] == data[p + 2]);
        assert(data.take(k)[p + 3] == data[p + 3]);
    }
}

proof fn lemma_bytes_cut(data: Seq<u8>, p: int, n: int, k: int)
    requires
        0 <= p,
        0 <= n <= u32::MAX,
        0 <= k <= data.len() <= usize::MAX,
    ensures
        cut_agrees(spec_bytes(data, p, n), spec_bytes(data.take(k), p, n), p, k),
{
    if p + n <= k {
        assert(data.take(k).subrange(p, p + n) =~= data.subrange(p, p + n));
    }
}

proof fn lemma_string_cut(data: Seq<u8>, p: int, k: int)
    requires
        0 <= p,
        0 <= k <= data.len() <= usize::MAX,
    ensures
        cut_agrees(spec_std_string(data, p), spec_std_string(data.take(k), p), p, k),
{
    lemma_u32_cut(data, p, k);
    if let Ok((length, q)) = spec_u32(data, p) {
        lemma_bytes_cut(data, q, payload_len(length), k);
    }
}

proof fn lemma_repeat_cut<V>(step: SpecStep<V>, data: Seq<u8>, pos: int, k: int, n: nat)
    requires
        step_cuts(step, data),
        0 <= pos,
        0 <= k <= data.len(),
    ensures
        cut_agrees(spec_repeat(step, data, pos, n), spec_repeat(step, data.take(k), pos, n), pos, k),
    decreases n,
{
    if n > 0 {
        lemma_repeat_cut(step, data, pos, k, (n - 1) as nat);
        if let Ok((vs, p)) = spec_repeat(step, data, pos, (n - 1) as nat) {
            assert(cut_agrees(step(data, p), step(data.take(k), p), p, k));
        }
    }
}

proof fn lemma_u32_step_cuts(data: Seq<u8>)
    requires
        data.len() <= usize::MAX,
    ensures
        step_cuts(u32_step(), data),
{
    assert forall|p: int, k: int|
        #![trigger u32_step()(data.take(k), p)]
        0 <= p && 0 <= k <= data.len() implies cut_agrees(u32_step()(data, p), u32_step()(data.take(k), p), p, k) by {
        lemma_u32_cut(data, p, k);
    }
}

proof fn lemma_words_cut(data: Seq<u8>, p: int, k: int, n: nat)
    requires
        0 <= p,
        0 <= k <= data.len() <= usize::MAX,
    ensures
        cut_agrees(spec_words(data, p, n), spec_words(data.take(k), p, n), p, k),
{
    lemma_u32_step_cuts(data);
    lemma_repeat_cut(u32_step(), data, p, k, n);
}

proof fn lemma_chip_cut(data: Seq<u8>, p: int, k: int)
    requires
        0 <= p,
        0 <= k <= data.len() <= usize::MAX,
    ensures
        cut_agrees(spec_world_chip(data, p), spec_world_chip(data.take(k), p), p, k),
{
    reveal(spec_world_chip);
    lemma_words_cut(data, p, k, 5);
    if let Ok((w, q)) = spec_words(data, p, 5) {
        lemma_string_cut(data, q, k);
        if let Ok((name, r)) = spec_std_string(data, q) {
            lemma_string_cut(data, r, k);
        }
    }
}

proof fn lemma_page_cut(data: Seq<u8>, p: int, k: int)
    requires
        0 <= p,
        0 <= k <= data.len() <= usize::MAX,
    ensures
        cut_agrees(spec_world_event_page(data, p), spec_world_event_page(data.take(k), p), p, k),
{
    reveal(spec_world_event_page);
    lemma_words_cut(data, p, k, 16);
    if let Ok((w, q)) = spec_words(data, p, 16) {
        lemma_string_cut(data, q, k);
        if let Ok((name, r)) = spec_std_string(data, q) {
            lemma_string_cut(data, r, k);
        }
    }
}

proof fn lemma_page_step_cuts(data: Seq<u8>)
    requires
        data.len() <= usize::MAX,
    ensures
        step_cuts(page_step(), data),
{
    assert forall|p: int, k: int|
        #![trigger page_step()(data.take(k), p)]
        0 <= p && 0 <= k <= data.len() implies cut_agrees(page_step()(data, p), page_step()(data.take(k), p), p, k) by {
        lemma_page_cut(data, p, k);
    }
}

proof fn lemma_event_cut(data: Seq<u8>, p: int, k: int)
    requires
        0 <= p,
        0 <= k <= data.len() <= usize::MAX,
    ensures
        cut_agrees(spec_world_event_base(data, p), spec_world_event_base(data.take(k), p), p, k),
{
    reveal(spec_world_event_base);
    lemma_words_cut(data, p, k, 4);
    if let Ok((w, q)) = spec_words(data, p, 4) {
        lemma_string_cut(data, q, k);
        if let Ok((name, r)) = spec_std_string(data, q) {
            lemma_u32_cut(data, r, k);
            if let Ok((count, s)) = spec_u32(data, r) {
                lemma_page_step_cuts(data);
                lemma_repeat_cut(page_step(), data, s, k, count as nat);
            }
        }
    }
}

proof fn lemma_chip_step_cuts(data: Seq<u8>)
    requires
        data.len() <= usize::MAX,
    ensures
        step_cuts(chip_step(), data),
{
    assert forall|p: int, k: int|
        #![trigger chip_step()(data.take(k), p)]
        0 <= p && 0 <= k <= data.len() implies cut_agrees(chip_step()(data, p), chip_step()(data.take(k), p), p, k) by {
        lemma_chip_cut(data, p, k);
    }
}

proof fn lemma_event_step_cuts(data: Seq<u8>)
    requires
        data.len() <= usize::MAX,
    ensures
        step_cuts(event_step(), data),
{
    assert forall|p: int, k: int|
        #![trigger event_step()(data.take(k), p)]
        0 <= p && 0 <= k <= data.len() implies cut_agrees(event_step()(data, p), event_step()(data.take(k), p), p, k) by {
        lemma_event_cut(data, p, k);
    }
}

/// A count-prefixed list result with the count and the list paired.
pub open spec fn as_pair<V>(r: Result<(u32, Seq<V>, int), DecodeError>) -> Result<((u32, Seq<V>), int), DecodeError> {
    match r {
        Ok((count, vs, p)) => Ok(((count, vs), p)),
        Err(e) => Err(e),
    }
}

proof fn lemma_section_cut<V>(step: SpecStep<V>, data: Seq<u8>, p: int, k: int, bound: nat)
    requires
        step_cuts(step, data),
        0 <= p,
        0 <= k <= data.len() <= usize::MAX,
    ensures
        cut_agrees(as_pair(spec_bounded(step, data, p, bound)), as_pair(spec_bounded(step, data.take(k), p, bound)), p, k),
        cut_agrees(as_pair(spec_counted(step, data, p)), as_pair(spec_counted(step, data.take(k), p)), p, k),
{
    reveal(spec_bounded);
    reveal(spec_counted);
    lemma_u32_cut(data, p, k);
    if let Ok((count, q)) = spec_u32(data, p) {
        lemma_repeat_cut(step, data, q, k, bound);
        lemma_repeat_cut(step, data, q, k, count as nat);
    }
}

proof fn lemma_map_lists_cut(data: Seq<u8>, p: int, k: int, head: WorldMapFileView)
    requires
        0 <= p,
        0 <= k <= data.len() <= usize::MAX,
    ensures
        cut_agrees(spec_map_lists(data, p, head), spec_map_lists(data.take(k), p, head), p, k),
{
    reveal(spec_map_lists);
    lemma_chip_step_cuts(data);
    lemma_u32_step_cuts(data);
    lemma_event_step_cuts(data);
    lemma_section_cut(chip_step(), data, p, k, 0);
    if let Ok((ttc, chips, q)) = spec_counted(chip_step(), data, p) {
        lemma_section_cut(u32_step(), data, q, k, 0);
        if let Ok((tc, tiles, r)) = spec_counted(u32_step(), data, q) {
            lemma_section_cut(event_step(), data, r, k, tc as nat);
            if let Ok((ec, events, s)) = spec_bounded(event_step(), data, r, tc as nat) {
                lemma_section_cut(event_step(), data, s, k, tc as nat);
            }
        }
    }
}

proof fn lemma_map_cut(data: Seq<u8>, k: int)
    requires
        0 <= k <= data.len() <= usize::MAX,
    ensures
        cut_agrees(spec_world_map(data), spec_world_map(data.take(k)), 0, k),
{
    lemma_words_cut(data, 0, k, 11);
    if let Ok((w, p)) = spec_words(data, 0, 11) {
        lemma_string_cut(data, p, k);
        if let Ok((name, q)) = spec_std_string(data, p) {
            lemma_string_cut(data, q, k);
            if let Ok((bg_path, r)) = spec_std_string(data, q) {
                lemma_map_lists_cut(data, r, k, map_head(w, name, bg_path));
            }
        }
    }
}

proof fn lemma_map_end_in_bounds(data: Seq<u8>)
    requires
        data.len() <= usize::MAX,
        spec_world_map(data) is Ok,
    ensures
        0 <= spec_world_map(data)->Ok_0.1 <= data.len(),
{
    lemma_map_cut(data, data.len() as int);
    assert(data.take(data.len() as int) =~= data);
}

/// Decoding a buffer cut short anywhere before the end of a successfully
/// decoded map fails, and the read it reports is the one that runs past the
/// cut: it starts at or before the cut, needs bytes beyond it, and finds
/// exactly the bytes up to the cut. A cut at a field boundary is therefore
/// reported at exactly that offset.
pub proof fn lemma_truncated_map_fails(data: Seq<u8>, k: int)
    requires
        data.len() <= usize::MAX,
        spec_world_map(data) is Ok,
        0 <= k < spec_world_map(data)->Ok_0.1,
    ensures
        spec_world_map(data.take(k)) is Err,
        covers(spec_world_map(data.take(k))->Err_0, k),
{
    lemma_map_end_in_bounds(data);
    lemma_map_cut(data, k);
}

/// Bytes after the end of a decodable map change nothing: dropping any of
/// them leaves the map and the position where decoding stops the same.
pub proof fn lemma_trailing_bytes_ignored(data: Seq<u8>, k: int)
    requires
        data.len() <= usize::MAX,
        spec_world_map(data) is Ok,
        spec_world_map(data)->Ok_0.1 <= k <= data.len(),
    ensures
        spec_world_map(data.take(k)) == spec_world_map(data),
{
    lemma_map_end_in_bounds(data);
    lemma_map_cut(data, k);
}

} // verus!
