//! What the bar, the tooltip and the list of channels say.

use crate::config::{name_spec, ChannelKind};
use crate::gfx::Caption;
use crate::settings_actions::caption_spec;
use crate::state::Channel;
use crate::text::{law_unsigned_round_trip, nat_text, unsigned_of};
use vstd::prelude::*;

verus! {

/// The level in words reads back as the level: the percentage before the
/// percent sign. A muted channel says so instead, whatever its level.
pub proof fn law_the_level_in_words_reads_back(channel: Channel)
    requires
        0 <= channel.percent <= 100,
    ensures
        !channel.muted ==> {
            let text = channel.caption_text(Caption::Level, Seq::empty());
            &&& text.last() == '%'
            &&& unsigned_of(text.drop_last(), 100) == Some(channel.percent as nat)
        },
        channel.muted ==> channel.caption_text(Caption::Level, Seq::empty()) == "Muted"@,
        channel.caption_text(Caption::Percent(channel.percent), Seq::empty()).last() == '%',
        unsigned_of(
            channel.caption_text(Caption::Percent(channel.percent), Seq::empty()).drop_last(),
            100,
        ) == Some(channel.percent as nat),
{
    reveal_strlit("%");
    let n = nat_text(channel.percent as nat);
    law_unsigned_round_trip(channel.percent as nat, 100);
    assert((n + "%"@).drop_last() =~= n);
}

/// The tooltip begins with the channel's label. It ends with the percentage,
/// or says that the channel is muted, so the two can be told apart.
pub proof fn law_the_tooltip_names_channel_and_level(channel: Channel)
    ensures
        channel.tip().len() > channel.label@.len(),
        channel.tip().take(channel.label@.len() as int) == channel.label@,
        channel.muted ==> channel.tip() == channel.label@ + "  Muted"@,
        !channel.muted ==> channel.tip().last() == ')',
{
    reveal_strlit("  Muted");
    reveal_strlit("  ");
    reveal_strlit(" (");
    reveal_strlit("%)");
    assert(channel.tip().take(channel.label@.len() as int) =~= channel.label@);
}

/// In the list of channels each begins with its generic name. The label typed
/// into Voicemeeter follows it where it says something else, and is all that
/// follows it.
pub proof fn law_a_caption_begins_with_the_name(
    kind: ChannelKind,
    index: int,
    edition: int,
    label: Option<String>,
)
    ensures
        ({
            let (name, caption) = (
                name_spec(kind, index, edition),
                caption_spec(kind, index, edition, label),
            );
            &&& caption.len() >= name.len()
            &&& caption.take(name.len() as int) == name
            &&& label is None || label->0@ == name ==> caption == name
            &&& label is Some && label->0@ != name ==> caption.len() == name.len() + 5
                + label->0@.len() && caption.skip((name.len() + 5) as int) == label->0@
        }),
{
    reveal_strlit("  \u{2014}  ");
    let (name, caption) = (
        name_spec(kind, index, edition),
        caption_spec(kind, index, edition, label),
    );
    assert(caption.take(name.len() as int) =~= name);
    if label is Some && label->0@ != name {
        assert(caption.skip((name.len() + 5) as int) =~= label->0@);
    }
}

} // verus!
