//! The channels and messages both ends of a connection agree on, and the builders that
//! register them.
use vstd::prelude::*;
use crate::channel::{Channel, ChannelDirection, ChannelMode, ChannelSettings};
use crate::message::Message;

verus! {

/// The registered channels; a channel's network id is its position.
pub struct ChannelKinds {
    settings: Vec<ChannelSettings>,
}

impl ChannelKinds {
    /// The settings of each registered channel, by network id.
    pub closed spec fn settings(&self) -> Seq<ChannelSettings> {
        self.settings@
    }

    /// No channel registered.
    pub fn new() -> (r: Self)
        ensures
            r.settings() == Seq::<ChannelSettings>::empty(),
    {
        ChannelKinds { settings: Vec::new() }
    }

    /// Registers channel `C`, which gets the next network id.
    pub fn add_channel<C: Channel>(&mut self, settings: ChannelSettings)
        requires
            old(self).settings().len() < u16::MAX,
        ensures
            final(self).settings() == old(self).settings().push(settings),
    {
        self.settings.push(settings);
    }

    /// The number of registered channels.
    pub fn len(&self) -> (r: usize)
        ensures
            r == self.settings().len(),
    {
        self.settings.len()
    }

    /// The settings of the channel at position `i`.
    pub fn settings_at(&self, i: usize) -> (r: ChannelSettings)
        requires
            i < self.settings().len(),
        ensures
            r == self.settings()[i as int],
    {
        self.settings[i]
    }

    /// The settings of the channel with network id `net_id`, if there is one.
    pub fn settings_of(&self, net_id: u16) -> (r: Option<ChannelSettings>)
        ensures
            r == (if net_id < self.settings().len() {
                Some(self.settings()[net_id as int])
            } else {
                None::<ChannelSettings>
            }),
    {
        if (net_id as usize) < self.settings.len() {
            Some(self.settings[net_id as usize])
        } else {
            None
        }
    }
}

/// The registered message types; a message type's network id is its position, and
/// fragments always come first.
pub struct MessageKinds {
    count: u16,
}

impl MessageKinds {
    /// The number of registered message types.
    pub closed spec fn count(&self) -> nat {
        self.count as nat
    }

    /// No message type registered.
    pub fn new() -> (r: Self)
        ensures
            r.count() == 0,
    {
        MessageKinds { count: 0 }
    }

    /// Registers message type `M`, which gets the next network id.
    pub fn add_message<M: Message>(&mut self)
        requires
            old(self).count() < u16::MAX,
        ensures
            final(self).count() == old(self).count() + 1,
    {
        self.count = self.count + 1;
    }

    /// The number of registered message types.
    pub fn len(&self) -> (r: u16)
        ensures
            r == self.count(),
    {
        self.count
    }
}

/// The channels and messages of an application.
pub struct Schema {
    channel_kinds: ChannelKinds,
    message_kinds: MessageKinds,
}

impl Default for Schema {
    /// No channel, and fragments as the only message type.
    fn default() -> (r: Self)
        ensures
            r.channels() == Seq::<ChannelSettings>::empty(),
            r.message_count() == 1,
    {
        let mut message_kinds = MessageKinds::new();
        message_kinds.add_message::<crate::fragment::FragmentedMessage>();
        Schema { channel_kinds: ChannelKinds::new(), message_kinds }
    }
}

impl Schema {
    /// The settings of the registered channels, by network id.
    pub closed spec fn channels(&self) -> Seq<ChannelSettings> {
        self.channel_kinds.settings()
    }

    /// The number of registered message types.
    pub closed spec fn message_count(&self) -> nat {
        self.message_kinds.count()
    }

    /// A builder that starts from the default schema.
    pub fn builder() -> (r: SchemaBuilder)
        ensures
            r.building().channels() == Seq::<ChannelSettings>::empty(),
            r.building().message_count() == 1,
    {
        SchemaBuilder::new()
    }

    /// The registered channels.
    pub fn channel_kinds(&self) -> (r: &ChannelKinds)
        ensures
            r.settings() == self.channels(),
    {
        &self.channel_kinds
    }

    /// The registered message types.
    pub fn message_kinds(&self) -> (r: &MessageKinds)
        ensures
            r.count() == self.message_count(),
    {
        &self.message_kinds
    }
}

/// Builds a schema one registration at a time.
pub struct SchemaBuilder {
    schema: Schema,
}

impl SchemaBuilder {
    /// The schema built so far.
    pub closed spec fn building(&self) -> Schema {
        self.schema
    }

    /// Starts from the default schema.
    pub fn new() -> (r: Self)
        ensures
            r.building().channels() == Seq::<ChannelSettings>::empty(),
            r.building().message_count() == 1,
    {
        SchemaBuilder { schema: Schema::default() }
    }

    /// Registers channel `C` with the given direction and mode.
    pub fn add_channel<C: Channel>(self, direction: ChannelDirection, mode: ChannelMode) -> (r: Self)
        requires
            self.building().channels().len() < u16::MAX,
        ensures
            r.building().channels() == self.building().channels().push(
                ChannelSettings { mode, direction },
            ),
            r.building().message_count() == self.building().message_count(),
    {
        let mut this = self;
        let settings = ChannelSettings::new(mode, direction);
        this.schema.channel_kinds.add_channel::<C>(settings);
        this
    }

    /// Registers message type `M`.
    pub fn add_message<M: Message>(self) -> (r: Self)
        requires
            self.building().message_count() < u16::MAX,
        ensures
            r.building().channels() == self.building().channels(),
            r.building().message_count() == self.building().message_count() + 1,
    {
        let mut this = self;
        this.schema.message_kinds.add_message::<M>();
        this
    }

    /// The schema built.
    pub fn build(self) -> (r: Schema)
        ensures
            r == self.building(),
    {
        self.schema
    }
}

/// The channels and messages of an application, as a protocol.
pub struct Protocol {
    channel_kinds: ChannelKinds,
    message_kinds: MessageKinds,
}

impl Default for Protocol {
    /// No channel, and fragments as the only message type.
    fn default() -> (r: Self)
        ensures
            r.channels() == Seq::<ChannelSettings>::empty(),
            r.message_count() == 1,
    {
        let mut message_kinds = MessageKinds::new();
        message_kinds.add_message::<crate::fragment::FragmentedMessage>();
        Protocol { channel_kinds: ChannelKinds::new(), message_kinds }
    }
}

impl Protocol {
    /// The settings of the registered channels, by network id.
    pub closed spec fn channels(&self) -> Seq<ChannelSettings> {
        self.channel_kinds.settings()
    }

    /// The number of registered message types.
    pub closed spec fn message_count(&self) -> nat {
        self.message_kinds.count()
    }

    /// A builder that starts from the default protocol.
    pub fn builder() -> (r: ProtocolBuilder)
        ensures
            r.building().channels() == Seq::<ChannelSettings>::empty(),
            r.building().message_count() == 1,
    {
        ProtocolBuilder::new()
    }

    /// The registered channels.
    pub fn channel_kinds(&self) -> (r: &ChannelKinds)
        ensures
            r.settings() == self.channels(),
    {
        &self.channel_kinds
    }

    /// The registered message types.
    pub fn message_kinds(&self) -> (r: &MessageKinds)
        ensures
            r.count() == self.message_count(),
    {
        &self.message_kinds
    }
}

/// Builds a protocol one registration at a time.
pub struct ProtocolBuilder {
    proto: Protocol,
}

impl ProtocolBuilder {
    /// The protocol built so far.
    pub closed spec fn building(&self) -> Protocol {
        self.proto
    }

    /// Starts from the default protocol.
    pub fn new() -> (r: Self)
        ensures
            r.building().channels() == Seq::<ChannelSettings>::empty(),
            r.building().message_count() == 1,
    {
        ProtocolBuilder { proto: Protocol::default() }
    }

    /// Registers channel `C` with the given direction and mode.
    pub fn add_channel<C: Channel>(self, direction: ChannelDirection, mode: ChannelMode) -> (r: Self)
        requires
            self.building().channels().len() < u16::MAX,
        ensures
            r.building().channels() == self.building().channels().push(
                ChannelSettings { mode, direction },
            ),
            r.building().message_count() == self.building().message_count(),
    {
        let mut this = self;
        let settings = ChannelSettings::new(mode, direction);
        this.proto.channel_kinds.add_channel::<C>(settings);
        this
    }

    /// Registers message type `M`.
    pub fn add_message<M: Message>(self) -> (r: Self)
        requires
            self.building().message_count() < u16::MAX,
        ensures
            r.building().channels() == self.building().channels(),
            r.building().message_count() == self.building().message_count() + 1,
    {
        let mut this = self;
        this.proto.message_kinds.add_message::<M>();
        this
    }

    /// The protocol built.
    pub fn build(self) -> (r: Protocol)
        ensures
            r == self.building(),
    {
        self.proto
    }
}

} // verus!
