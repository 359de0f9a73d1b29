//! Properties of the decoders over whole buffers: every record written out
//! as the bytes of the layout and read back unchanged, and the empty lists
//! of a map without tiles.

use vstd::prelude::*;
use crate::cursor::{DecodeError, SpecStep, spec_bounded, spec_counted, spec_repeat, spec_u32};
use crate::records::{
    StdStringView, WorldChipView, WorldEventBaseView, WorldEventPageView, WorldMapFileView,
    chip_step, event_step, map_head, page_of, page_step, payload_len, spec_map_lists,
    spec_std_string, spec_world_chip, spec_world_event_base, spec_world_event_page,
    spec_world_map, spec_words, u32_step,
};

verus! {

/// A map that declares no tile types and no tiles decodes with every list
/// empty: chips, tile indices, and both event lists, whose length is the
/// number of tiles.
pub proof fn lemma_no_tiles_no_lists(data: Seq<u8>)
    requires
        spec_world_map(data) is Ok,
        spec_world_map(data)->Ok_0.0.tiles_types_count == 0,
        spec_world_map(data)->Ok_0.0.tiles_count == 0,
    ensures
        ({
            let m = spec_world_map(data)->Ok_0.0;
            &&& m.world_chip_data.len() == 0
            &&& m.map_chip_data.len() == 0
            &&& m.event_data.len() == 0
            &&& m.event_template_data.len() == 0
        }),
{
    reveal(spec_map_lists);
    reveal(spec_counted);
    reveal(spec_bounded);
}

/// The four little-endian bytes of `x`.
pub open spec fn enc_u32(x: u32) -> Seq<u8> {
    seq![(x % 256) as u8, ((x / 256) % 256) as u8, ((x / 65536) % 256) as u8, ((x / 16777216) % 256) as u8]
}

/// `enc_u32` as a value, for lists of integers.
pub open spec fn u32_bytes() -> spec_fn(u32) -> Seq<u8> {
    |x: u32| enc_u32(x)
}

/// Every integer is well formed.
pub open spec fn any_u32() -> spec_fn(u32) -> bool {
    |x: u32| true
}

/// The bytes of every element of `vs`, in order, each written by `enc`.
pub open spec fn enc_all<V>(vs: Seq<V>, enc: spec_fn(V) -> Seq<u8>) -> Seq<u8>
    decreases vs.len(),
{
    if vs.len() == 0 {
        Seq::empty()
    } else {
        enc_all(vs.drop_last(), enc) + enc(vs.last())
    }
}

/// `data` holds `bytes` starting at `pos`.
pub open spec fn holds_at(data: Seq<u8>, pos: int, bytes: Seq<u8>) -> bool {
    &&& 0 <= pos
    &&& pos + bytes.len() <= data.len()
    &&& data.subrange(pos, pos + bytes.len()) == bytes
}

/// Wherever `data` holds the bytes of a value that `ok` accepts, `step`
/// reads exactly that value and stops right after its bytes.
pub open spec fn step_reads<V>(step: SpecStep<V>, enc: spec_fn(V) -> Seq<u8>, ok: spec_fn(V) -> bool, data: Seq<u8>) -> bool {
    forall|p: int, v: V|
        #![trigger step(data, p), enc(v)]
        ok(v) && holds_at(data, p, enc(v)) ==> step(data, p) == Ok::<(V, int), DecodeError>((v, p + enc(v).len()))
}

proof fn lemma_holds_split(data: Seq<u8>, pos: int, a: Seq<u8>, b: Seq<u8>)
    requires
        holds_at(data, pos, a + b),
    ensures
        holds_at(data, pos, a),
        holds_at(data, pos + a.len(), b),
{
    assert(data.subrange(pos, pos + a.len()) =~= (a + b).subrange(0, a.len() as int));
    assert(data.subrange(pos + a.len(), pos + a.len() + b.len()) =~= (a + b).subrange(a.len() as int, (a + b).len() as int));
    assert((a + b).subrange(0, a.len() as int) =~= a);
    assert((a + b).subrange(a.len() as int, (a + b).len() as int) =~= b);
}

proof fn lemma_u32_reads(data: Seq<u8>, pos: int, x: u32)
    requires
        holds_at(data, pos, enc_u32(x)),
    ensures
        spec_u32(data, pos) == Ok::<(u32, int), DecodeError>((x, pos + 4)),
{
    let e = enc_u32(x);
    assert(data[pos] == data.subrange(pos, pos + 4)[0]);
    assert(data[pos + 1] == data.subrange(pos, pos + 4)[1]);
    assert(data[pos + 2] == data.subrange(pos, pos + 4)[2]);
    assert(data[pos + 3] == data.subrange(pos, pos + 4)[3]);
    assert(x == (x % 256) + 256 * ((x / 256) % 256) + 65536 * ((x / 65536) % 256) + 16777216 * ((x / 16777216) % 256)) by (nonlinear_arith);
}

proof fn lemma_u32_step_reads(data: Seq<u8>)
    ensures
        step_reads(u32_step(), u32_bytes(), any_u32(), data),
{
    assert forall|p: int, v: u32|
        #![trigger u32_step()(data, p), u32_bytes()(v)]
        any_u32()(v) && holds_at(data, p, u32_bytes()(v)) implies u32_step()(data, p) == Ok::<(u32, int), DecodeError>((v, p + u32_bytes()(v).len())) by {
        lemma_u32_reads(data, p, v);
    }
}

/// Reading `vs.len()` elements where `data` holds their bytes in order gives
/// back `vs`, ending right after the last one.
proof fn lemma_repeat_reads<V>(step: SpecStep<V>, enc: spec_fn(V) -> Seq<u8>, ok: spec_fn(V) -> bool, data: Seq<u8>, pos: int, vs: Seq<V>)
    requires
        step_reads(step, enc, ok, data),
        forall|i: int| 0 <= i < vs.len() ==> ok(#[trigger] vs[i]),
        holds_at(data, pos, enc_all(vs, enc)),
    ensures
        spec_repeat(step, data, pos, vs.len()) == Ok::<(Seq<V>, int), DecodeError>((vs, pos + enc_all(vs, enc).len())),
    decreases vs.len(),
{
    if vs.len() == 0 {
        assert(vs =~= Seq::<V>::empty());
    } else {
        let init = vs.drop_last();
        let last = vs.last();
        lemma_holds_split(data, pos, enc_all(init, enc), enc(last));
        assert forall|i: int| 0 <= i < init.len() implies ok(#[trigger] init[i]) by {
            assert(init[i] == vs[i]);
        }
        lemma_repeat_reads(step, enc, ok, data, pos, init);
        assert(ok(vs[vs.len() - 1]));
        let p = pos + enc_all(init, enc).len();
        assert(step(data, p) == Ok::<(V, int), DecodeError>((last, p + enc(last).len())));
        assert(init.push(last) =~= vs);
    }
}

/// A string whose payload has the length its declared length calls for.
pub open spec fn wf_string(s: StdStringView) -> bool {
    s.data.len() == payload_len(s.length)
}

/// The bytes of a string: its declared length, then its payload.
pub open spec fn enc_string(s: StdStringView) -> Seq<u8> {
    enc_u32(s.length) + s.data
}

proof fn lemma_string_reads(data: Seq<u8>, pos: int, s: StdStringView)
    requires
        wf_string(s),
        holds_at(data, pos, enc_string(s)),
    ensures
        spec_std_string(data, pos) == Ok::<(StdStringView, int), DecodeError>((s, pos + enc_string(s).len())),
{
    lemma_holds_split(data, pos, enc_u32(s.length), s.data);
    lemma_u32_reads(data, pos, s.length);
}

/// The bytes of a chip.
pub open spec fn enc_chip(c: WorldChipView) -> Seq<u8> {
    enc_all(seq![c.header, c.tile_index, c.locked, c.graphic, c.strings_count], u32_bytes())
        + enc_string(c.name) + enc_string(c.unused_string)
}

/// A chip whose strings are well formed.
pub open spec fn wf_chip(c: WorldChipView) -> bool {
    wf_string(c.name) && wf_string(c.unused_string)
}

proof fn lemma_chip_reads(data: Seq<u8>, pos: int, c: WorldChipView)
    requires
        wf_chip(c),
        holds_at(data, pos, enc_chip(c)),
    ensures
        spec_world_chip(data, pos) == Ok::<(WorldChipView, int), DecodeError>((c, pos + enc_chip(c).len())),
{
    reveal(spec_world_chip);
    let w = seq![c.header, c.tile_index, c.locked, c.graphic, c.strings_count];
    let a = enc_all(w, u32_bytes());
    lemma_holds_split(data, pos, a + enc_string(c.name), enc_string(c.unused_string));
    lemma_holds_split(data, pos, a, enc_string(c.name));
    lemma_u32_step_reads(data);
    lemma_repeat_reads(u32_step(), u32_bytes(), any_u32(), data, pos, w);
    lemma_string_reads(data, pos + a.len(), c.name);
    lemma_string_reads(data, pos + a.len() + enc_string(c.name).len(), c.unused_string);
}

/// The sixteen integer fields of a page, in layout order.
pub open spec fn page_words(p: WorldEventPageView) -> Seq<u32> {
    seq![
        p.start, p.event_type, p.graphic, p.world_number, p.pass_without_clear,
        p.play_after_clear, p.on_game_clear, p.appearance_condition_world,
        p.appearance_condition_variable, p.appearance_condition_constant,
        p.appearance_condition_comparison_content, p.appearance_condition_total_score,
        p.variation_setting_present, p.variation_variable, p.variation_constant, p.strings_count,
    ]
}

/// The bytes of an event page.
pub open spec fn enc_page(p: WorldEventPageView) -> Seq<u8> {
    enc_all(page_words(p), u32_bytes()) + enc_string(p.world_name) + enc_string(p.start_stage)
}

/// A page whose strings are well formed.
pub open spec fn wf_page(p: WorldEventPageView) -> bool {
    wf_string(p.world_name) && wf_string(p.start_stage)
}

proof fn lemma_page_reads(data: Seq<u8>, pos: int, p: WorldEventPageView)
    requires
        wf_page(p),
        holds_at(data, pos, enc_page(p)),
    ensures
        spec_world_event_page(data, pos) == Ok::<(WorldEventPageView, int), DecodeError>((p, pos + enc_page(p).len())),
{
    reveal(spec_world_event_page);
    let w = page_words(p);
    let a = enc_all(w, u32_bytes());
    lemma_holds_split(data, pos, a + enc_string(p.world_name), enc_string(p.start_stage));
    lemma_holds_split(data, pos, a, enc_string(p.world_name));
    lemma_u32_step_reads(data);
    lemma_repeat_reads(u32_step(), u32_bytes(), any_u32(), data, pos, w);
    lemma_string_reads(data, pos + a.len(), p.world_name);
    lemma_string_reads(data, pos + a.len() + enc_string(p.world_name).len(), p.start_stage);
    assert(page_of(w, p.world_name, p.start_stage) == p);
}

/// `enc_page` as a value, for lists.
pub open spec fn page_bytes() -> spec_fn(WorldEventPageView) -> Seq<u8> {
    |p: WorldEventPageView| enc_page(p)
}

/// `wf_page` as a value, for lists.
pub open spec fn page_ok() -> spec_fn(WorldEventPageView) -> bool {
    |p: WorldEventPageView| wf_page(p)
}

proof fn lemma_page_step_reads(data: Seq<u8>)
    ensures
        step_reads(page_step(), page_bytes(), page_ok(), data),
{
    assert forall|p: int, v: WorldEventPageView|
        #![trigger page_step()(data, p), page_bytes()(v)]
        page_ok()(v) && holds_at(data, p, page_bytes()(v)) implies page_step()(data, p)
            == Ok::<(WorldEventPageView, int), DecodeError>((v, p + page_bytes()(v).len())) by {
        lemma_page_reads(data, p, v);
    }
}

/// The bytes of a count-prefixed list: `count`, then each element of `vs`.
pub open spec fn enc_section<V>(count: u32, vs: Seq<V>, enc: spec_fn(V) -> Seq<u8>) -> Seq<u8> {
    enc_u32(count) + enc_all(vs, enc)
}

proof fn lemma_section_reads<V>(step: SpecStep<V>, enc: spec_fn(V) -> Seq<u8>, ok: spec_fn(V) -> bool, data: Seq<u8>, pos: int, count: u32, vs: Seq<V>)
    requires
        step_reads(step, enc, ok, data),
        forall|i: int| 0 <= i < vs.len() ==> ok(#[trigger] vs[i]),
        holds_at(data, pos, enc_section(count, vs, enc)),
    ensures
        spec_bounded(step, data, pos, vs.len()) == Ok::<(u32, Seq<V>, int), DecodeError>((count, vs, pos + enc_section(count, vs, enc).len())),
        count == vs.len() ==> spec_counted(step, data, pos) == Ok::<(u32, Seq<V>, int), DecodeError>((count, vs, pos + enc_section(count, vs, enc).len())),
{
    reveal(spec_bounded);
    reveal(spec_counted);
    lemma_holds_split(data, pos, enc_u32(count), enc_all(vs, enc));
    lemma_u32_reads(data, pos, count);
    lemma_repeat_reads(step, enc, ok, data, pos + 4, vs);
}

proof fn lemma_words_read(data: Seq<u8>, pos: int, w: Seq<u32>)
    requires
        holds_at(data, pos, enc_all(w, u32_bytes())),
    ensures
        spec_repeat(u32_step(), data, pos, w.len()) == Ok::<(Seq<u32>, int), DecodeError>((w, pos + enc_all(w, u32_bytes()).len())),
{
    lemma_u32_step_reads(data);
    lemma_repeat_reads(u32_step(), u32_bytes(), any_u32(), data, pos, w);
}

/// The bytes of an event and its pages.
pub open spec fn enc_event(e: WorldEventBaseView) -> Seq<u8> {
    enc_all(seq![e.header, e.placement_x, e.placement_y, e.strings_count], u32_bytes())
        + enc_string(e.name) + enc_section(e.pages_count, e.pages, page_bytes())
}

/// An event whose page list has its declared length, with well-formed
/// strings throughout.
pub open spec fn wf_event(e: WorldEventBaseView) -> bool {
    &&& wf_string(e.name)
    &&& e.pages.len() == e.pages_count
    &&& forall|i: int| 0 <= i < e.pages.len() ==> wf_page(#[trigger] e.pages[i])
}

proof fn lemma_event_reads(data: Seq<u8>, pos: int, e: WorldEventBaseView)
    requires
        wf_event(e),
        holds_at(data, pos, enc_event(e)),
    ensures
        spec_world_event_base(data, pos) == Ok::<(WorldEventBaseView, int), DecodeError>((e, pos + enc_event(e).len())),
{
    reveal(spec_world_event_base);
    let w = seq![e.header, e.placement_x, e.placement_y, e.strings_count];
    let a = enc_all(w, u32_bytes());
    let sec = enc_section(e.pages_count, e.pages, page_bytes());
    lemma_holds_split(data, pos, a + enc_string(e.name), sec);
    lemma_holds_split(data, pos, a, enc_string(e.name));
    lemma_u32_step_reads(data);
    lemma_repeat_reads(u32_step(), u32_bytes(), any_u32(), data, pos, w);
    lemma_string_reads(data, pos + a.len(), e.name);
    lemma_page_step_reads(data);
    assert forall|i: int| 0 <= i < e.pages.len() implies page_ok()(#[trigger] e.pages[i]) by {}
    lemma_holds_split(data, pos + a.len() + enc_string(e.name).len(), enc_u32(e.pages_count), enc_all(e.pages, page_bytes()));
    lemma_u32_reads(data, pos + a.len() + enc_string(e.name).len(), e.pages_count);
    lemma_repeat_reads(page_step(), page_bytes(), page_ok(), data, pos + a.len() + enc_string(e.name).len() + 4, e.pages);
}

/// `enc_chip` as a value, for lists.
pub open spec fn chip_bytes() -> spec_fn(WorldChipView) -> Seq<u8> {
    |c: WorldChipView| enc_chip(c)
}

/// `wf_chip` as a value, for lists.
pub open spec fn chip_ok() -> spec_fn(WorldChipView) -> bool {
    |c: WorldChipView| wf_chip(c)
}

/// `enc_event` as a value, for lists.
pub open spec fn event_bytes() -> spec_fn(WorldEventBaseView) -> Seq<u8> {
    |e: WorldEventBaseView| enc_event(e)
}

/// `wf_event` as a value, for lists.
pub open spec fn event_ok() -> spec_fn(WorldEventBaseView) -> bool {
    |e: WorldEventBaseView| wf_event(e)
}

proof fn lemma_chip_step_reads(data: Seq<u8>)
    ensures
        step_reads(chip_step(), chip_bytes(), chip_ok(), data),
{
    assert forall|p: int, v: WorldChipView|
        #![trigger chip_step()(data, p), chip_bytes()(v)]
        chip_ok()(v) && holds_at(data, p, chip_bytes()(v)) implies chip_step()(data, p)
            == Ok::<(WorldChipView, int), DecodeError>((v, p + chip_bytes()(v).len())) by {
        lemma_chip_reads(data, p, v);
    }
}

proof fn lemma_event_step_reads(data: Seq<u8>)
    ensures
        step_reads(event_step(), event_bytes(), event_ok(), data),
{
    assert forall|p: int, v: WorldEventBaseView|
        #![trigger event_step()(data, p), event_bytes()(v)]
        event_ok()(v) && holds_at(data, p, event_bytes()(v)) implies event_step()(data, p)
            == Ok::<(WorldEventBaseView, int), DecodeError>((v, p + event_bytes()(v).len())) by {
        lemma_event_reads(data, p, v);
    }
}

/// The eleven leading integers of a map, in layout order.
pub open spec fn map_words(m: WorldMapFileView) -> Seq<u32> {
    seq![
        m.version, m.settings_count, m.horizontal_width, m.vertical_width, m.chunk_width,
        m.chunk_pow, m.initial_position_x, m.initial_position_y, m.background_index,
        m.use_background, m.strings_count,
    ]
}

/// The bytes of a map's header: its leading integers and its two strings.
pub open spec fn enc_map_head(m: WorldMapFileView) -> Seq<u8> {
    enc_all(map_words(m), u32_bytes()) + enc_string(m.name) + enc_string(m.bg_path)
}

/// The bytes of a map's lists, each after its count.
pub open spec fn enc_map_lists(m: WorldMapFileView) -> Seq<u8> {
    enc_section(m.tiles_types_count, m.world_chip_data, chip_bytes())
        + enc_section(m.tiles_count, m.map_chip_data, u32_bytes())
        + enc_section(m.events_count, m.event_data, event_bytes())
        + enc_section(m.events_pal_count, m.event_template_data, event_bytes())
}

/// The bytes of a whole map, every field in layout order.
pub open spec fn enc_map(m: WorldMapFileView) -> Seq<u8> {
    enc_map_head(m) + enc_map_lists(m)
}

/// A map that its own bytes describe: each list has the length that the
/// layout reads (the chips their declared count, the tile indices and both
/// event lists the tile count), with well-formed strings throughout.
pub open spec fn wf_map(m: WorldMapFileView) -> bool {
    &&& wf_string(m.name)
    &&& wf_string(m.bg_path)
    &&& m.world_chip_data.len() == m.tiles_types_count
    &&& m.map_chip_data.len() == m.tiles_count
    &&& m.event_data.len() == m.tiles_count
    &&& m.event_template_data.len() == m.tiles_count
    &&& forall|i: int| 0 <= i < m.world_chip_data.len() ==> wf_chip(#[trigger] m.world_chip_data[i])
    &&& forall|i: int| 0 <= i < m.event_data.len() ==> wf_event(#[trigger] m.event_data[i])
    &&& forall|i: int| 0 <= i < m.event_template_data.len() ==> wf_event(#[trigger] m.event_template_data[i])
}

proof fn lemma_chips_read(data: Seq<u8>, pos: int, count: u32, vs: Seq<WorldChipView>)
    requires
        count == vs.len(),
        forall|i: int| 0 <= i < vs.len() ==> wf_chip(#[trigger] vs[i]),
        holds_at(data, pos, enc_section(count, vs, chip_bytes())),
    ensures
        spec_counted(chip_step(), data, pos) == Ok::<(u32, Seq<WorldChipView>, int), DecodeError>((count, vs, pos + enc_section(count, vs, chip_bytes()).len())),
{
    lemma_chip_step_reads(data);
    assert forall|i: int| 0 <= i < vs.len() implies chip_ok()(#[trigger] vs[i]) by {}
    lemma_section_reads(chip_step(), chip_bytes(), chip_ok(), data, pos, count, vs);
}

proof fn lemma_tiles_read(data: Seq<u8>, pos: int, count: u32, vs: Seq<u32>)
    requires
        count == vs.len(),
        holds_at(data, pos, enc_section(count, vs, u32_bytes())),
    ensures
        spec_counted(u32_step(), data, pos) == Ok::<(u32, Seq<u32>, int), DecodeError>((count, vs, pos + enc_section(count, vs, u32_bytes()).len())),
{
    lemma_u32_step_reads(data);
    lemma_section_reads(u32_step(), u32_bytes(), any_u32(), data, pos, count, vs);
}

proof fn lemma_events_read(data: Seq<u8>, pos: int, count: u32, vs: Seq<WorldEventBaseView>)
    requires
        forall|i: int| 0 <= i < vs.len() ==> wf_event(#[trigger] vs[i]),
        holds_at(data, pos, enc_section(count, vs, event_bytes())),
    ensures
        spec_bounded(event_step(), data, pos, vs.len()) == Ok::<(u32, Seq<WorldEventBaseView>, int), DecodeError>((count, vs, pos + enc_section(count, vs, event_bytes()).len())),
{
    lemma_event_step_reads(data);
    assert forall|i: int| 0 <= i < vs.len() implies event_ok()(#[trigger] vs[i]) by {}
    lemma_section_reads(event_step(), event_bytes(), event_ok(), data, pos, count, vs);
}

proof fn lemma_map_lists_read(data: Seq<u8>, pos: int, m: WorldMapFileView)
    requires
        wf_map(m),
        holds_at(data, pos, enc_map_lists(m)),
    ensures
        spec_map_lists(data, pos, map_head(map_words(m), m.name, m.bg_path))
            == Ok::<(WorldMapFileView, int), DecodeError>((m, pos + enc_map_lists(m).len())),
{
    reveal(spec_map_lists);
    let s1 = enc_section(m.tiles_types_count, m.world_chip_data, chip_bytes());
    let s2 = enc_section(m.tiles_count, m.map_chip_data, u32_bytes());
    let s3 = enc_section(m.events_count, m.event_data, event_bytes());
    let s4 = enc_section(m.events_pal_count, m.event_template_data, event_bytes());
    lemma_holds_split(data, pos, s1 + s2 + s3, s4);
    lemma_holds_split(data, pos, s1 + s2, s3);
    lemma_holds_split(data, pos, s1, s2);
    lemma_chips_read(data, pos, m.tiles_types_count, m.world_chip_data);
    lemma_tiles_read(data, pos + s1.len(), m.tiles_count, m.map_chip_data);
    lemma_events_read(data, pos + s1.len() + s2.len(), m.events_count, m.event_data);
    lemma_events_read(data, pos + s1.len() + s2.len() + s3.len(), m.events_pal_count, m.event_template_data);
}

proof fn lemma_map_reads(data: Seq<u8>, m: WorldMapFileView)
    requires
        wf_map(m),
        holds_at(data, 0, enc_map(m)),
    ensures
        spec_world_map(data) == Ok::<(WorldMapFileView, int), DecodeError>((m, enc_map(m).len() as int)),
{
    let w = map_words(m);
    let a = enc_all(w, u32_bytes());
    let n = enc_string(m.name);
    let b = enc_string(m.bg_path);
    lemma_holds_split(data, 0, enc_map_head(m), enc_map_lists(m));
    lemma_holds_split(data, 0, a + n, b);
    lemma_holds_split(data, 0, a, n);
    lemma_words_read(data, 0, w);
    lemma_string_reads(data, a.len() as int, m.name);
    lemma_string_reads(data, (a.len() + n.len()) as int, m.bg_path);
    lemma_map_lists_read(data, enc_map_head(m).len() as int, m);
    assert(spec_words(data, 0, 11) == Ok::<(Seq<u32>, int), DecodeError>((w, a.len() as int)));
}

/// Decoding the bytes of a well-formed map, whatever follows them, gives
/// back that map exactly and stops right after its bytes.
pub proof fn lemma_decode_encoded(m: WorldMapFileView, rest: Seq<u8>)
    requires
        wf_map(m),
    ensures
        spec_world_map(enc_map(m) + rest) == Ok::<(WorldMapFileView, int), DecodeError>((m, enc_map(m).len() as int)),
{
    let data = enc_map(m) + rest;
    assert(data.subrange(0, enc_map(m).len() as int) =~= enc_map(m));
    lemma_map_reads(data, m);
}

} // verus!
