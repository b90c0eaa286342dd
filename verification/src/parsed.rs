//! The choices of a parsed message stream: which channel and schema a
//! message belongs to, and which registered parser decodes it.

use vstd::prelude::*;
use crate::error::{Error, Result};
use crate::message_stream::MessageStreamState;
use crate::rolling::time::{push_padded, spec_decimal, spec_padded};
use crate::summary::{channel_view, schema_view, ChannelView, SchemaView};
use crate::types::{Channel, Schema};
use crate::writer::Writer;

verus! {

/// The index of the last channel of `chs` with id `id`: a channel read
/// again replaces the earlier one.
pub open spec fn last_with_id(chs: Seq<ChannelView>, id: u16) -> Option<int>
    decreases chs.len(),
{
    if chs.len() == 0 {
        None
    } else if chs.last().0 == id {
        Some(chs.len() - 1)
    } else {
        last_with_id(chs.drop_last(), id)
    }
}

/// The index of the last schema of `scs` with id `id`.
pub open spec fn last_schema_with_id(scs: Seq<SchemaView>, id: u16) -> Option<int>
    decreases scs.len(),
{
    if scs.len() == 0 {
        None
    } else if scs.last().0 == id {
        Some(scs.len() - 1)
    } else {
        last_schema_with_id(scs.drop_last(), id)
    }
}

proof fn lemma_last_with_id_bounds(chs: Seq<ChannelView>, id: u16)
    ensures
        last_with_id(chs, id) matches Some(i) ==> 0 <= i < chs.len() && chs[i].0 == id,
    decreases chs.len(),
{
    if chs.len() > 0 && chs.last().0 != id {
        lemma_last_with_id_bounds(chs.drop_last(), id);
    }
}

proof fn lemma_last_schema_with_id_bounds(scs: Seq<SchemaView>, id: u16)
    ensures
        last_schema_with_id(scs, id) matches Some(i) ==> 0 <= i < scs.len() && scs[i].0 == id,
    decreases scs.len(),
{
    if scs.len() > 0 && scs.last().0 != id {
        lemma_last_schema_with_id_bounds(scs.drop_last(), id);
    }
}

/// The channel with id `id` among the channels a stream has read.
pub fn find_channel(st: &MessageStreamState, id: u16) -> (r: Option<Channel>)
    ensures
        match last_with_id(st@.channels, id) {
            Some(i) => r matches Some(c) && channel_view(c) == st@.channels[i],
            None => r is None,
        },
{
    let chs = st.channels();
    let ghost v = st@.channels;
    let mut i = chs.len();
    assert(v.subrange(0, v.len() as int) =~= v);
    while i > 0
        invariant
            i <= chs@.len(),
            chs@.len() == v.len(),
            v == st@.channels,
            forall|k: int| 0 <= k < chs@.len() ==> channel_view(#[trigger] chs@[k]) == v[k],
            last_with_id(v, id) == last_with_id(v.subrange(0, i as int), id),
        decreases i,
    {
        let ghost w = v.subrange(0, i as int);
        assert(w.drop_last() =~= v.subrange(0, i - 1));
        assert(w.last() == v[i - 1]);
        assert(channel_view(chs@[i - 1]) == v[i - 1]);
        if chs[i - 1].id == id {
            assert(last_with_id(w, id) == Some(i - 1));
            let c = Writer::copy_channel_value(&chs[i - 1]);
            assert(channel_view(c) == v[i - 1]);
            return Some(c);
        }
        i = i - 1;
    }
    None
}

/// The schema with id `id` among the schemas a stream has read.
pub fn find_schema(st: &MessageStreamState, id: u16) -> (r: Option<Schema>)
    ensures
        match last_schema_with_id(st@.schemas, id) {
            Some(i) => r matches Some(s) && schema_view(s) == st@.schemas[i],
            None => r is None,
        },
{
    let scs = st.schemas();
    let ghost v = st@.schemas;
    let mut i = scs.len();
    assert(v.subrange(0, v.len() as int) =~= v);
    while i > 0
        invariant
            i <= scs@.len(),
            scs@.len() == v.len(),
            v == st@.schemas,
            forall|k: int| 0 <= k < scs@.len() ==> schema_view(#[trigger] scs@[k]) == v[k],
            last_schema_with_id(v, id) == last_schema_with_id(v.subrange(0, i as int), id),
        decreases i,
    {
        let ghost w = v.subrange(0, i as int);
        assert(w.drop_last() =~= v.subrange(0, i - 1));
        assert(w.last() == v[i - 1]);
        assert(schema_view(scs@[i - 1]) == v[i - 1]);
        if scs[i - 1].id == id {
            return Some(Writer::copy_schema_value(&scs[i - 1]));
        }
        i = i - 1;
    }
    None
}

/// The message of the error for a message whose channel is unknown.
pub open spec fn channel_not_found_message(id: u16) -> Seq<char> {
    "Channel "@ + spec_decimal(id as nat) + " not found"@
}

/// The channel of a message on channel `id` and, when the channel names
/// one, its schema; an error when the stream has not read that channel.
pub fn message_target(st: &MessageStreamState, id: u16) -> (r: Result<(Channel, Option<Schema>)>)
    ensures
        match last_with_id(st@.channels, id) {
            None => r matches Err(e) && crate::error::invalid_with(e, channel_not_found_message(id)),
            Some(i) => r matches Ok((c, s)) && channel_view(c) == st@.channels[i] && (if c.schema_id == 0 {
                s is None
            } else {
                match last_schema_with_id(st@.schemas, c.schema_id) {
                    Some(j) => s matches Some(sc) && schema_view(sc) == st@.schemas[j],
                    None => s is None,
                }
            }),
        },
{
    match find_channel(st, id) {
        None => {
            let mut m = String::new();
            proof { reveal_strlit("Channel "); reveal_strlit(" not found"); }
            m.append("Channel ");
            push_padded(&mut m, id as u64, 1);
            m.append(" not found");
            proof {
                assert(spec_padded(id as nat, 1) =~= spec_decimal(id as nat));
            }
            Err(Error::InvalidRecord(m))
        },
        Some(c) => {
            let s = if c.schema_id == 0 { None } else { find_schema(st, c.schema_id) };
            Ok((c, s))
        },
    }
}

/// A rule registered with a parsed stream, deciding which messages its
/// parser decodes.
pub enum ParserRule {
    /// Messages whose channel has this message encoding.
    MessageEncoding(String),
    /// Messages whose channel has a schema with this encoding.
    SchemaEncoding(String),
    /// Messages for which the caller's own predicate holds; it is asked with
    /// the rule's index, the channel and the schema.
    Custom,
}

/// Whether rule `rule`, registered at index `k`, takes a message of
/// `channel` with `schema`; a custom rule by the answer `f` gave.
pub open spec fn rule_takes<F: Fn(usize, &Channel, Option<&Schema>) -> bool>(
    rule: ParserRule, k: usize, channel: Channel, schema: Option<Schema>, f: F, answer: bool,
) -> bool {
    match rule {
        ParserRule::MessageEncoding(e) => channel.message_encoding@ == e@,
        ParserRule::SchemaEncoding(e) => schema matches Some(s) && s.encoding@ == e@,
        ParserRule::Custom => answer,
    }
}

/// The parser of the first rule that takes the message, in the order the
/// rules were registered, or `None` when no rule does. Each custom rule
/// before the chosen one is asked once.
pub fn choose_parser<F: Fn(usize, &Channel, Option<&Schema>) -> bool>(
    rules: &Vec<ParserRule>, channel: &Channel, schema: Option<&Schema>, custom: &F,
) -> (r: Option<usize>)
    requires
        forall|k: usize, c: &Channel, s: Option<&Schema>| call_requires(*custom, (k, c, s)),
    ensures
        match r {
            Some(k) => k < rules@.len() && (match rules@[k as int] {
                ParserRule::Custom => call_ensures(*custom, (k, channel, schema), true),
                other => rule_takes(other, k, *channel, match schema { Some(s) => Some(*s), None => None }, *custom, true),
            }),
            None => true,
        },
        forall|j: int| 0 <= j < (match r { Some(k) => k as int, None => rules@.len() as int }) ==> match #[trigger] rules@[j] {
            ParserRule::Custom => call_ensures(*custom, (j as usize, channel, schema), false),
            other => !rule_takes(other, j as usize, *channel, match schema { Some(s) => Some(*s), None => None }, *custom, false),
        },
{
    let ghost sv = match schema { Some(s) => Some(*s), None => None };
    let mut k: usize = 0;
    while k < rules.len()
        invariant
            k <= rules@.len(),
            forall|k2: usize, c: &Channel, s: Option<&Schema>| call_requires(*custom, (k2, c, s)),
            sv == match schema { Some(s) => Some(*s), None => None },
            forall|j: int| 0 <= j < k ==> match #[trigger] rules@[j] {
                ParserRule::Custom => call_ensures(*custom, (j as usize, channel, schema), false),
                other => !rule_takes(other, j as usize, *channel, sv, *custom, false),
            },
        decreases rules@.len() - k,
    {
        let takes = match &rules[k] {
            ParserRule::MessageEncoding(e) => channel.message_encoding.eq(e),
            ParserRule::SchemaEncoding(e) => match schema {
                Some(s) => s.encoding.eq(e),
                None => false,
            },
            ParserRule::Custom => custom(k, channel, schema),
        };
        if takes {
            return Some(k);
        }
        k = k + 1;
    }
    None
}

/// The error for a message that no registered parser takes.
pub fn no_parser_error(channel_id: u16) -> (r: Error)
    ensures
        crate::error::invalid_with(r, "No parser registered for channel "@ + spec_decimal(channel_id as nat)),
{
    let mut m = String::new();
    proof { reveal_strlit("No parser registered for channel "); }
    m.append("No parser registered for channel ");
    push_padded(&mut m, channel_id as u64, 1);
    proof {
        assert(spec_padded(channel_id as nat, 1) =~= spec_decimal(channel_id as nat));
    }
    Error::InvalidRecord(m)
}

} // verus!
