//! The records of the world-map layout, their mathematical views, and the
//! decoders that read them.

use vstd::prelude::*;
use crate::cursor::{
    DecodeError, SpecStep, decode_bounded, decode_counted, decode_repeated, decodes_as, lift,
    lift_all, read_bytes, read_u32, spec_bounded, spec_bytes, spec_counted, spec_repeat, spec_u32, views,
};

verus! {

/// A length-prefixed byte string.
#[derive(Debug, Clone, PartialEq, Eq)]
pub struct StdString {
    pub length: u32,
    pub data: Vec<u8>,
}

/// What a `StdString` holds, with its lists as sequences of views.
pub struct StdStringView {
    pub length: u32,
    pub data: Seq<u8>,
}

impl View for StdString {
    type V = StdStringView;

    open spec fn view(&self) -> StdStringView {
        StdStringView { length: self.length, data: self.data@ }
    }
}

/// How many payload bytes follow a string's declared length: none for a
/// length of 0 or 1, else the length itself.
pub open spec fn payload_len(length: u32) -> int {
    if length > 1 {
        length as int
    } else {
        0
    }
}

/// Reading one length-prefixed string at `pos`.
pub open spec fn spec_std_string(data: Seq<u8>, pos: int) -> Result<(StdStringView, int), DecodeError> {
    match spec_u32(data, pos) {
        Err(e) => Err(e),
        Ok((length, p)) => match spec_bytes(data, p, payload_len(length)) {
            Err(e) => Err(e),
            Ok((bytes, q)) => Ok((StdStringView { length, data: bytes }, q)),
        },
    }
}

/// Decodes one length-prefixed string at `pos`.
pub fn std_string(data: &[u8], pos: usize) -> (r: Result<(StdString, usize), DecodeError>)
    requires
        pos <= data@.len(),
    ensures
        lift(r) == spec_std_string(data@, pos as int),
        r is Ok ==> pos <= r->Ok_0.1 <= data@.len(),
        r is Ok ==> r->Ok_0.0.data@.len() == payload_len(r->Ok_0.0.length),
        r is Ok ==> r->Ok_0.1 == pos + 4 + payload_len(r->Ok_0.0.length),
{
    match read_u32(data, pos) {
        Err(e) => Err(e),
        Ok((length, p)) => {
            let n: usize = if length > 1 {
                length as usize
            } else {
                0
            };
            match read_bytes(data, p, n) {
                Err(e) => Err(e),
                Ok((bytes, q)) => Ok((StdString { length, data: bytes }, q)),
            }
        },
    }
}

/// The spec step that reads one `u32`.
pub open spec fn u32_step() -> SpecStep<u32> {
    |d: Seq<u8>, p: int| spec_u32(d, p)
}

/// Reads `n` consecutive `u32` values at `pos`.
pub open spec fn spec_words(data: Seq<u8>, pos: int, n: nat) -> Result<(Seq<u32>, int), DecodeError> {
    spec_repeat(u32_step(), data, pos, n)
}

proof fn lemma_u32_decodes(data: &[u8])
    ensures
        decodes_as(read_u32, data, u32_step()),
{
    assert forall|p: usize, r: Result<(u32, usize), DecodeError>|
        p <= data@.len() && #[trigger] read_u32.ensures((data, p), r) implies {
            &&& lift(r) == u32_step()(data@, p as int)
            &&& r is Ok ==> p <= r->Ok_0.1 <= data@.len()
        } by {}
}

/// Decodes `n` consecutive `u32` values at `pos`.
fn read_words(data: &[u8], pos: usize, n: u32) -> (r: Result<(Vec<u32>, usize), DecodeError>)
    requires
        pos <= data@.len(),
    ensures
        lift_all(r) == spec_words(data@, pos as int, n as nat),
        r is Ok ==> r->Ok_0.0@.len() == n && pos <= r->Ok_0.1 <= data@.len(),
{
    proof {
        lemma_u32_decodes(data);
    }
    decode_repeated(data, pos, n, read_u32, Ghost(u32_step()))
}

/// A tile-type catalog entry.
#[derive(Debug, Clone, PartialEq, Eq)]
pub struct WorldChip {
    pub header: u32,
    pub tile_index: u32,
    pub locked: u32,
    pub graphic: u32,
    pub strings_count: u32,
    pub name: StdString,
    pub unused_string: StdString,
}

/// What a `WorldChip` holds, with its lists as sequences of views.
pub struct WorldChipView {
    pub header: u32,
    pub tile_index: u32,
    pub locked: u32,
    pub graphic: u32,
    pub strings_count: u32,
    pub name: StdStringView,
    pub unused_string: StdStringView,
}

impl View for WorldChip {
    type V = WorldChipView;

    open spec fn view(&self) -> WorldChipView {
        WorldChipView {
            header: self.header,
            tile_index: self.tile_index,
            locked: self.locked,
            graphic: self.graphic,
            strings_count: self.strings_count,
            name: self.name@,
            unused_string: self.unused_string@,
        }
    }
}

/// Reading one chip: five `u32` values, then two strings.
#[verifier::opaque]
pub open spec fn spec_world_chip(data: Seq<u8>, pos: int) -> Result<(WorldChipView, int), DecodeError> {
    match spec_words(data, pos, 5) {
        Err(e) => Err(e),
        Ok((w, p)) => match spec_std_string(data, p) {
            Err(e) => Err(e),
            Ok((name, q)) => match spec_std_string(data, q) {
                Err(e) => Err(e),
                Ok((unused_string, end)) => Ok((
                    WorldChipView {
                        header: w[0],
                        tile_index: w[1],
                        locked: w[2],
                        graphic: w[3],
                        strings_count: w[4],
                        name,
                        unused_string,
                    },
                    end,
                )),
            },
        },
    }
}

/// Decodes one tile-type catalog entry at `pos`.
pub fn world_chip(data: &[u8], pos: usize) -> (r: Result<(WorldChip, usize), DecodeError>)
    requires
        pos <= data@.len(),
    ensures
        lift(r) == spec_world_chip(data@, pos as int),
        r is Ok ==> pos <= r->Ok_0.1 <= data@.len(),
{
    proof {
        reveal(spec_world_chip);
    }
    let (w, p) = match read_words(data, pos, 5) {
        Err(e) => return Err(e),
        Ok(x) => x,
    };
    let (name, q) = match std_string(data, p) {
        Err(e) => return Err(e),
        Ok(x) => x,
    };
    let (unused_string, end) = match std_string(data, q) {
        Err(e) => return Err(e),
        Ok(x) => x,
    };
    let chip = WorldChip {
        header: w[0],
        tile_index: w[1],
        locked: w[2],
        graphic: w[3],
        strings_count: w[4],
        name,
        unused_string,
    };
    Ok((chip, end))
}

/// One conditional variant of an event.
#[derive(Debug, Clone, PartialEq, Eq)]
pub struct WorldEventPage {
    pub start: u32,
    pub event_type: u32,
    pub graphic: u32,
    pub world_number: u32,
    pub pass_without_clear: u32,
    pub play_after_clear: u32,
    pub on_game_clear: u32,
    pub appearance_condition_world: u32,
    pub appearance_condition_variable: u32,
    pub appearance_condition_constant: u32,
    pub appearance_condition_comparison_content: u32,
    pub appearance_condition_total_score: u32,
    pub variation_setting_present: u32,
    pub variation_variable: u32,
    pub variation_constant: u32,
    pub strings_count: u32,
    pub world_name: StdString,
    pub start_stage: StdString,
}

/// What a `WorldEventPage` holds, with its lists as sequences of views.
pub struct WorldEventPageView {
    pub start: u32,
    pub event_type: u32,
    pub graphic: u32,
    pub world_number: u32,
    pub pass_without_clear: u32,
    pub play_after_clear: u32,
    pub on_game_clear: u32,
    pub appearance_condition_world: u32,
    pub appearance_condition_variable: u32,
    pub appearance_condition_constant: u32,
    pub appearance_condition_comparison_content: u32,
    pub appearance_condition_total_score: u32,
    pub variation_setting_present: u32,
    pub variation_variable: u32,
    pub variation_constant: u32,
    pub strings_count: u32,
    pub world_name: StdStringView,
    pub start_stage: StdStringView,
}

impl View for WorldEventPage {
    type V = WorldEventPageView;

    open spec fn view(&self) -> WorldEventPageView {
        WorldEventPageView {
            start: self.start,
            event_type: self.event_type,
            graphic: self.graphic,
            world_number: self.world_number,
            pass_without_clear: self.pass_without_clear,
            play_after_clear: self.play_after_clear,
            on_game_clear: self.on_game_clear,
            appearance_condition_world: self.appearance_condition_world,
            appearance_condition_variable: self.appearance_condition_variable,
            appearance_condition_constant: self.appearance_condition_constant,
            appearance_condition_comparison_content: self.appearance_condition_comparison_content,
            appearance_condition_total_score: self.appearance_condition_total_score,
            variation_setting_present: self.variation_setting_present,
            variation_variable: self.variation_variable,
            variation_constant: self.variation_constant,
            strings_count: self.strings_count,
            world_name: self.world_name@,
            start_stage: self.start_stage@,
        }
    }
}

/// The page whose sixteen integer fields are `w`, in layout order.
pub open spec fn page_of(w: Seq<u32>, world_name: StdStringView, start_stage: StdStringView) -> WorldEventPageView {
    WorldEventPageView {
        start: w[0],
        event_type: w[1],
        graphic: w[2],
        world_number: w[3],
        pass_without_clear: w[4],
        play_after_clear: w[5],
        on_game_clear: w[6],
        appearance_condition_world: w[7],
        appearance_condition_variable: w[8],
        appearance_condition_constant: w[9],
        appearance_condition_comparison_content: w[10],
        appearance_condition_total_score: w[11],
        variation_setting_present: w[12],
        variation_variable: w[13],
        variation_constant: w[14],
        strings_count: w[15],
        world_name,
        start_stage,
    }
}

/// Reading one event page: sixteen `u32` values, then two strings.
#[verifier::opaque]
pub open spec fn spec_world_event_page(data: Seq<u8>, pos: int) -> Result<(WorldEventPageView, int), DecodeError> {
    match spec_words(data, pos, 16) {
        Err(e) => Err(e),
        Ok((w, p)) => match spec_std_string(data, p) {
            Err(e) => Err(e),
            Ok((world_name, q)) => match spec_std_string(data, q) {
                Err(e) => Err(e),
                Ok((start_stage, end)) => Ok((page_of(w, world_name, start_stage), end)),
            },
        },
    }
}

/// Decodes one event page at `pos`.
pub fn world_event_page(data: &[u8], pos: usize) -> (r: Result<(WorldEventPage, usize), DecodeError>)
    requires
        pos <= data@.len(),
    ensures
        lift(r) == spec_world_event_page(data@, pos as int),
        r is Ok ==> pos <= r->Ok_0.1 <= data@.len(),
{
    proof {
        reveal(spec_world_event_page);
    }
    let (w, p) = match read_words(data, pos, 16) {
        Err(e) => return Err(e),
        Ok(x) => x,
    };
    let (world_name, q) = match std_string(data, p) {
        Err(e) => return Err(e),
        Ok(x) => x,
    };
    let (start_stage, end) = match std_string(data, q) {
        Err(e) => return Err(e),
        Ok(x) => x,
    };
    let page = WorldEventPage {
        start: w[0],
        event_type: w[1],
        graphic: w[2],
        world_number: w[3],
        pass_without_clear: w[4],
        play_after_clear: w[5],
        on_game_clear: w[6],
        appearance_condition_world: w[7],
        appearance_condition_variable: w[8],
        appearance_condition_constant: w[9],
        appearance_condition_comparison_content: w[10],
        appearance_condition_total_score: w[11],
        variation_setting_present: w[12],
        variation_variable: w[13],
        variation_constant: w[14],
        strings_count: w[15],
        world_name,
        start_stage,
    };
    Ok((page, end))
}

/// A placed interactive object with its pages.
#[derive(Debug, Clone, PartialEq, Eq)]
pub struct WorldEventBase {
    pub header: u32,
    pub placement_x: u32,
    pub placement_y: u32,
    pub strings_count: u32,
    pub name: StdString,
    pub pages_count: u32,
    pub pages: Vec<WorldEventPage>,
}

/// What a `WorldEventBase` holds, with its lists as sequences of views.
pub struct WorldEventBaseView {
    pub header: u32,
    pub placement_x: u32,
    pub placement_y: u32,
    pub strings_count: u32,
    pub name: StdStringView,
    pub pages_count: u32,
    pub pages: Seq<WorldEventPageView>,
}

impl View for WorldEventBase {
    type V = WorldEventBaseView;

    open spec fn view(&self) -> WorldEventBaseView {
        WorldEventBaseView {
            header: self.header,
            placement_x: self.placement_x,
            placement_y: self.placement_y,
            strings_count: self.strings_count,
            name: self.name@,
            pages_count: self.pages_count,
            pages: views(self.pages@),
        }
    }
}

/// The spec step that reads one event page.
pub open spec fn page_step() -> SpecStep<WorldEventPageView> {
    |d: Seq<u8>, p: int| spec_world_event_page(d, p)
}

/// Reading one event: four `u32` values, its name, its page count, then
/// exactly that many pages.
#[verifier::opaque]
pub open spec fn spec_world_event_base(data: Seq<u8>, pos: int) -> Result<(WorldEventBaseView, int), DecodeError> {
    match spec_words(data, pos, 4) {
        Err(e) => Err(e),
        Ok((w, p)) => match spec_std_string(data, p) {
            Err(e) => Err(e),
            Ok((name, q)) => match spec_u32(data, q) {
                Err(e) => Err(e),
                Ok((pages_count, r)) => match spec_repeat(page_step(), data, r, pages_count as nat) {
                    Err(e) => Err(e),
                    Ok((pages, end)) => Ok((
                        WorldEventBaseView {
                            header: w[0],
                            placement_x: w[1],
                            placement_y: w[2],
                            strings_count: w[3],
                            name,
                            pages_count,
                            pages,
                        },
                        end,
                    )),
                },
            },
        },
    }
}

proof fn lemma_page_decodes(data: &[u8])
    ensures
        decodes_as(world_event_page, data, page_step()),
{
    assert forall|p: usize, r: Result<(WorldEventPage, usize), DecodeError>|
        p <= data@.len() && #[trigger] world_event_page.ensures((data, p), r) implies {
            &&& lift(r) == page_step()(data@, p as int)
            &&& r is Ok ==> p <= r->Ok_0.1 <= data@.len()
        } by {}
}

/// Decodes one event and its pages at `pos`.
pub fn world_event_base(data: &[u8], pos: usize) -> (r: Result<(WorldEventBase, usize), DecodeError>)
    requires
        pos <= data@.len(),
    ensures
        lift(r) == spec_world_event_base(data@, pos as int),
        r is Ok ==> pos <= r->Ok_0.1 <= data@.len(),
        r is Ok ==> r->Ok_0.0.pages@.len() == r->Ok_0.0.pages_count,
{
    proof {
        reveal(spec_world_event_base);
    }
    let (w, p) = match read_words(data, pos, 4) {
        Err(e) => return Err(e),
        Ok(x) => x,
    };
    let (name, q) = match std_string(data, p) {
        Err(e) => return Err(e),
        Ok(x) => x,
    };
    let (pages_count, r) = match read_u32(data, q) {
        Err(e) => return Err(e),
        Ok(x) => x,
    };
    proof {
        lemma_page_decodes(data);
    }
    let (pages, end) = match decode_repeated(data, r, pages_count, world_event_page, Ghost(page_step())) {
        Err(e) => return Err(e),
        Ok(x) => x,
    };
    let event = WorldEventBase {
        header: w[0],
        placement_x: w[1],
        placement_y: w[2],
        strings_count: w[3],
        name,
        pages_count,
        pages,
    };
    Ok((event, end))
}

/// The complete decoded world map.
#[derive(Debug, Clone, PartialEq, Eq)]
pub struct WorldMapFile {
    pub version: u32,
    pub settings_count: u32,
    pub horizontal_width: u32,
    pub vertical_width: u32,
    pub chunk_width: u32,
    pub chunk_pow: u32,
    pub initial_position_x: u32,
    pub initial_position_y: u32,
    pub background_index: u32,
    pub use_background: u32,
    pub strings_count: u32,
    pub name: StdString,
    pub bg_path: StdString,
    pub tiles_types_count: u32,
    pub world_chip_data: Vec<WorldChip>,
    pub tiles_count: u32,
    pub map_chip_data: Vec<u32>,
    pub events_count: u32,
    pub event_data: Vec<WorldEventBase>,
    pub events_pal_count: u32,
    pub event_template_data: Vec<WorldEventBase>,
}

/// What a `WorldMapFile` holds, with its lists as sequences of views.
pub struct WorldMapFileView {
    pub version: u32,
    pub settings_count: u32,
    pub horizontal_width: u32,
    pub vertical_width: u32,
    pub chunk_width: u32,
    pub chunk_pow: u32,
    pub initial_position_x: u32,
    pub initial_position_y: u32,
    pub background_index: u32,
    pub use_background: u32,
    pub strings_count: u32,
    pub name: StdStringView,
    pub bg_path: StdStringView,
    pub tiles_types_count: u32,
    pub world_chip_data: Seq<WorldChipView>,
    pub tiles_count: u32,
    pub map_chip_data: Seq<u32>,
    pub events_count: u32,
    pub event_data: Seq<WorldEventBaseView>,
    pub events_pal_count: u32,
    pub event_template_data: Seq<WorldEventBaseView>,
}

impl View for WorldMapFile {
    type V = WorldMapFileView;

    open spec fn view(&self) -> WorldMapFileView {
        WorldMapFileView {
            version: self.version,
            settings_count: self.settings_count,
            horizontal_width: self.horizontal_width,
            vertical_width: self.vertical_width,
            chunk_width: self.chunk_width,
            chunk_pow: self.chunk_pow,
            initial_position_x: self.initial_position_x,
            initial_position_y: self.initial_position_y,
            background_index: self.background_index,
            use_background: self.use_background,
            strings_count: self.strings_count,
            name: self.name@,
            bg_path: self.bg_path@,
            tiles_types_count: self.tiles_types_count,
            world_chip_data: views(self.world_chip_data@),
            tiles_count: self.tiles_count,
            map_chip_data: self.map_chip_data@,
            events_count: self.events_count,
            event_data: views(self.event_data@),
            events_pal_count: self.events_pal_count,
            event_template_data: views(self.event_template_data@),
        }
    }
}

/// The spec step that reads one chip.
pub open spec fn chip_step() -> SpecStep<WorldChipView> {
    |d: Seq<u8>, p: int| spec_world_chip(d, p)
}

/// The spec step that reads one event.
pub open spec fn event_step() -> SpecStep<WorldEventBaseView> {
    |d: Seq<u8>, p: int| spec_world_event_base(d, p)
}

/// The header of a map: its eleven leading integers, in layout order, with
/// its two strings; the lists are filled in afterwards.
pub open spec fn map_head(w: Seq<u32>, name: StdStringView, bg_path: StdStringView) -> WorldMapFileView {
    WorldMapFileView {
        version: w[0],
        settings_count: w[1],
        horizontal_width: w[2],
        vertical_width: w[3],
        chunk_width: w[4],
        chunk_pow: w[5],
        initial_position_x: w[6],
        initial_position_y: w[7],
        background_index: w[8],
        use_background: w[9],
        strings_count: w[10],
        name,
        bg_path,
        tiles_types_count: 0,
        world_chip_data: Seq::empty(),
        tiles_count: 0,
        map_chip_data: Seq::empty(),
        events_count: 0,
        event_data: Seq::empty(),
        events_pal_count: 0,
        event_template_data: Seq::empty(),
    }
}

/// Reading the lists that follow the header at `pos`: the chips, the tile
/// indices, then the events and the event templates, both of the latter
/// repeated as many times as there are tile indices.
#[verifier::opaque]
pub open spec fn spec_map_lists(data: Seq<u8>, pos: int, head: WorldMapFileView) -> Result<(WorldMapFileView, int), DecodeError> {
    match spec_counted(chip_step(), data, pos) {
        Err(e) => Err(e),
        Ok((tiles_types_count, world_chip_data, p)) => match spec_counted(u32_step(), data, p) {
            Err(e) => Err(e),
            Ok((tiles_count, map_chip_data, q)) => match spec_bounded(event_step(), data, q, tiles_count as nat) {
                Err(e) => Err(e),
                Ok((events_count, event_data, r)) => match spec_bounded(event_step(), data, r, tiles_count as nat) {
                    Err(e) => Err(e),
                    Ok((events_pal_count, event_template_data, end)) => Ok((
                        WorldMapFileView {
                            tiles_types_count,
                            world_chip_data,
                            tiles_count,
                            map_chip_data,
                            events_count,
                            event_data,
                            events_pal_count,
                            event_template_data,
                            ..head
                        },
                        end,
                    )),
                },
            },
        },
    }
}

/// Reading a whole map from the start of `data`.
pub open spec fn spec_world_map(data: Seq<u8>) -> Result<(WorldMapFileView, int), DecodeError> {
    match spec_words(data, 0, 11) {
        Err(e) => Err(e),
        Ok((w, p)) => match spec_std_string(data, p) {
            Err(e) => Err(e),
            Ok((name, q)) => match spec_std_string(data, q) {
                Err(e) => Err(e),
                Ok((bg_path, r)) => spec_map_lists(data, r, map_head(w, name, bg_path)),
            },
        },
    }
}

proof fn lemma_chip_decodes(data: &[u8])
    ensures
        decodes_as(world_chip, data, chip_step()),
{
    assert forall|p: usize, r: Result<(WorldChip, usize), DecodeError>|
        p <= data@.len() && #[trigger] world_chip.ensures((data, p), r) implies {
            &&& lift(r) == chip_step()(data@, p as int)
            &&& r is Ok ==> p <= r->Ok_0.1 <= data@.len()
        } by {}
}

proof fn lemma_event_decodes(data: &[u8])
    ensures
        decodes_as(world_event_base, data, event_step()),
{
    assert forall|p: usize, r: Result<(WorldEventBase, usize), DecodeError>|
        p <= data@.len() && #[trigger] world_event_base.ensures((data, p), r) implies {
            &&& lift(r) == event_step()(data@, p as int)
            &&& r is Ok ==> p <= r->Ok_0.1 <= data@.len()
        } by {}
}

/// Decodes the lists that follow a map's header at `pos`, completing the
/// map whose header fields are `w`, `name` and `bg_path`.
fn world_map_lists(data: &[u8], pos: usize, w: Vec<u32>, name: StdString, bg_path: StdString) -> (r: Result<(WorldMapFile, usize), DecodeError>)
    requires
        pos <= data@.len(),
        w@.len() == 11,
    ensures
        lift(r) == spec_map_lists(data@, pos as int, map_head(w@, name@, bg_path@)),
        r is Ok ==> r->Ok_0.1 <= data@.len(),
{
    proof {
        reveal(spec_map_lists);
        lemma_chip_decodes(data);
        lemma_u32_decodes(data);
        lemma_event_decodes(data);
    }
    let (tiles_types_count, world_chip_data, p) = match decode_counted(data, pos, world_chip, Ghost(chip_step())) {
        Err(e) => return Err(e),
        Ok(x) => x,
    };
    let (tiles_count, map_chip_data, q) = match decode_counted(data, p, read_u32, Ghost(u32_step())) {
        Err(e) => return Err(e),
        Ok(x) => x,
    };
    proof {
        assert(views(map_chip_data@) =~= map_chip_data@);
    }
    let (events_count, event_data, r) = match decode_bounded(data, q, tiles_count, world_event_base, Ghost(event_step())) {
        Err(e) => return Err(e),
        Ok(x) => x,
    };
    let (events_pal_count, event_template_data, end) = match decode_bounded(data, r, tiles_count, world_event_base, Ghost(event_step())) {
        Err(e) => return Err(e),
        Ok(x) => x,
    };
    let map = WorldMapFile {
        version: w[0],
        settings_count: w[1],
        horizontal_width: w[2],
        vertical_width: w[3],
        chunk_width: w[4],
        chunk_pow: w[5],
        initial_position_x: w[6],
        initial_position_y: w[7],
        background_index: w[8],
        use_background: w[9],
        strings_count: w[10],
        name,
        bg_path,
        tiles_types_count,
        world_chip_data,
        tiles_count,
        map_chip_data,
        events_count,
        event_data,
        events_pal_count,
        event_template_data,
    };
    Ok((map, end))
}

/// Decodes a whole world map from the start of `data`, returning it with
/// the position where decoding stopped. The declared event and template
/// counts are read and kept, but both event lists are as long as the tile
/// list, which is how existing files are laid out.
pub fn world_map(data: &[u8]) -> (r: Result<(WorldMapFile, usize), DecodeError>)
    ensures
        lift(r) == spec_world_map(data@),
        r is Ok ==> r->Ok_0.1 <= data@.len(),
{
    let (w, p) = match read_words(data, 0, 11) {
        Err(e) => return Err(e),
        Ok(x) => x,
    };
    proof {
        assert(views(w@) =~= w@);
    }
    let (name, q) = match std_string(data, p) {
        Err(e) => return Err(e),
        Ok(x) => x,
    };
    let (bg_path, r) = match std_string(data, q) {
        Err(e) => return Err(e),
        Ok(x) => x,
    };
    world_map_lists(data, r, w, name, bg_path)
}

} // verus!
