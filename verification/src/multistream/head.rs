//! The header of a multistream file.

use vstd::prelude::*;

use crate::bytes::push_all;
use crate::multistream::layout::{
    feeds_every_output, law_standard_layout_is_a_reordering, standard_layout, ChannelLayout,
    LayoutModel,
};
use crate::ogg::header::{
    mapping_in_range, plain_mapping, HeadModel, OpusHead, RECOMMENDED_PRE_SKIP,
};

verus! {

/// The header that describes a layout.
pub open spec fn head_of_layout(m: LayoutModel, rate: u32) -> HeadModel {
    HeadModel {
        channel_count: m.channels as u8,
        pre_skip: RECOMMENDED_PRE_SKIP,
        input_sample_rate: rate,
        output_gain_q8: 0,
        mapping_family: m.family,
        stream_count: m.streams as u8,
        coupled_count: m.coupled as u8,
        channel_mapping: m.mapping,
    }
}

impl OpusHead {
    /// The header that describes a layout, with the conventional pre-skip and no
    /// gain.
    pub fn for_layout(layout: &ChannelLayout, input_sample_rate: u32) -> (head: OpusHead)
        requires
            layout.wf(),
        ensures
            head@ == head_of_layout(layout@, input_sample_rate),
    {
        let mut channel_mapping: Vec<u8> = Vec::new();
        push_all(&mut channel_mapping, &layout.mapping);
        assert(channel_mapping@ =~= layout.mapping@);
        OpusHead {
            channel_count: layout.nb_channels as u8,
            pre_skip: RECOMMENDED_PRE_SKIP,
            input_sample_rate,
            output_gain_q8: 0,
            mapping_family: layout.mapping_family,
            stream_count: layout.nb_streams as u8,
            coupled_count: layout.nb_coupled_streams as u8,
            channel_mapping,
        }
    }
}

/// The header of a standard layout describes a stream.
pub proof fn law_standard_layouts_have_a_header(channels: int, family: u8, rate: u32)
    requires
        standard_layout(channels, family) is Ok,
    ensures
        head_of_layout(standard_layout(channels, family)->Ok_0, rate).valid(),
{
    law_standard_layout_is_a_reordering(channels, family);
    let m = standard_layout(channels, family)->Ok_0;
    let h = head_of_layout(m, rate);
    assert(h.channel_mapping =~= m.mapping);
    if family == 0 {
        assert(m.mapping =~= plain_mapping(channels));
    } else {
        assert(mapping_in_range(h.channel_mapping, m.streams + m.coupled)) by {
            assert(feeds_every_output(m));
        }
    }
}

} // verus!
