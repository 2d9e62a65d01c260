//! A song's patterns turned into the module's compressed channel data.
use crate::binary_writer::{le32, BinaryWriter};
use crate::event_stream::{compressed, empty_tables, EventStream, MAX_EVENTS};
use crate::row::Row;
use crate::symbol::Symbol;
use crate::pattern::{extract_channel, song_events, Pattern};
use crate::range::Range;
use vstd::prelude::*;

verus! {

/// The bytes that open a module: "UM" and version "01".
pub open spec fn module_magic() -> Seq<u8> {
    seq![0x55u8, 0x4Du8, 0x30u8, 0x31u8]
}

/// Each channel's block after its event count.
pub open spec fn channel_blocks(streams: Seq<EventStream>) -> Seq<u8>
    decreases streams.len(),
{
    if streams.len() == 0 {
        Seq::empty()
    } else {
        let s = streams.last();
        channel_blocks(streams.drop_last()) + le32(s.decoded().len() as u32) + s.serialized()
    }
}

/// The song as the converter reads it.
pub struct Builder {
    /// Number of channels
    pub num_channels: usize,
    /// Patterns, used or not
    pub patterns: Vec<Pattern>,
    /// Song pattern order
    pub pattern_order: Vec<usize>,
    /// Restart position (index into `pattern_order`)
    pub restart_position: usize,
    /// Initial song tempo
    pub tempo: Range<u8>,
    /// Initial song BPM
    pub bpm: Range<u16>,
}

impl Builder {
    /// The order's patterns exist and no channel has too many events.
    pub open spec fn song_ok(&self) -> bool {
        &&& forall|o: int|
            0 <= o < self.pattern_order@.len() ==> #[trigger] self.pattern_order@[o]
                < self.patterns@.len()
        &&& forall|c: int|
            0 <= c < self.num_channels ==> #[trigger] song_events(
                self.patterns@,
                self.pattern_order@,
                c,
            ).len() <= MAX_EVENTS
    }

    /// An empty song at tempo 6 and 120 BPM.
    pub fn new() -> (r: Builder)
        ensures
            r.num_channels == 0,
            r.patterns@.len() == 0,
            r.pattern_order@.len() == 0,
            r.restart_position == 0,
            r.tempo == (Range::<u8> { min: 6, max: 6, default: 6 }),
            r.bpm == (Range::<u16> { min: 120, max: 120, default: 120 }),
    {
        Builder {
            num_channels: 0,
            patterns: Vec::new(),
            pattern_order: Vec::new(),
            restart_position: 0,
            tempo: Range::new(6),
            bpm: Range::new(120),
        }
    }

    /// The module data: the magic bytes "UM01", the channel count (four bytes,
    /// little-endian), then for each channel its event count (four bytes,
    /// little-endian) and its block. Each block is the channel's events over
    /// the song, extracted and compressed by the three passes.
    pub fn build(&self) -> (r: Vec<u8>)
        requires
            self.song_ok(),
            self.num_channels <= u32::MAX,
        ensures
            (exists|streams: Seq<EventStream>|
                {
                    &&& streams.len() == self.num_channels
                    &&& forall|c: int|
                        0 <= c < streams.len() ==> compressed(
                            song_events(self.patterns@, self.pattern_order@, c),
                            empty_tables(),
                            c as usize,
                            #[trigger] streams[c],
                        ) && streams[c].decoded() == song_events(self.patterns@, self.pattern_order@, c)
                    &&& r@ == module_magic() + le32(self.num_channels as u32) + channel_blocks(
                        streams,
                    )
                }),
    {
        let mut bw = BinaryWriter::new();
        bw.write_u8(0x55);  // U: universal
        bw.write_u8(0x4D);  // M: module
        bw.write_u8(0x30);  // major version
        bw.write_u8(0x31);  // minor version
        bw.write_u32(self.num_channels as u32);
        let ghost head = module_magic() + le32(self.num_channels as u32);
        assert(bw@ =~= head);
        let ghost mut streams: Seq<EventStream> = Seq::empty();
        let mut channel_index: usize = 0;
        while channel_index < self.num_channels
            invariant
                self.song_ok(),
                channel_index <= self.num_channels,
                streams.len() == channel_index,
                forall|c: int|
                    0 <= c < streams.len() ==> compressed(
                        song_events(self.patterns@, self.pattern_order@, c),
                        empty_tables(),
                        c as usize,
                        #[trigger] streams[c],
                    ) && streams[c].decoded() == song_events(self.patterns@, self.pattern_order@, c),
                bw@ == head + channel_blocks(streams),
            decreases self.num_channels - channel_index,
        {
            assert(song_events(self.patterns@, self.pattern_order@, channel_index as int).len()
                <= MAX_EVENTS);
            let mut channel = extract_channel(&self.patterns, &self.pattern_order, channel_index);
            let num_events = channel.symbols.len();
            assert(channel.tables() == empty_tables()) by {
                assert(channel.row_dict@ =~= Seq::<(Row, u16)>::empty());
                assert(channel.slice_dict@ =~= Seq::<Symbol>::empty());
                assert(channel.slices@ =~= Seq::<(u16, u16)>::empty());
            }
            channel.compress();
            bw.write_u32(num_events as u32);
            channel.write(&mut bw);
            proof {
                let ns = streams.push(channel);
                assert(ns.drop_last() =~= streams);
                assert(bw@ =~= head + channel_blocks(ns));
                streams = ns;
            }
            channel_index += 1;
        }
        bw.into_bytes()
    }
}

} // verus!
