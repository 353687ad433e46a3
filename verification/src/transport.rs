//! Streams between transport layers, and the raw passthrough that some of them offer.
use vstd::prelude::*;

verus! {

/// Whether a stream can hand the bytes below it through, unchanged.
#[derive(Debug, Clone, Copy, PartialEq, Eq, Structural)]
pub struct StreamCapabilities {
    pub raw_read_passthrough: bool,
    pub raw_write_passthrough: bool,
}

impl StreamCapabilities {
    /// Neither way.
    pub fn none() -> (capabilities: StreamCapabilities)
        ensures
            capabilities == no_passthrough(),
    {
        StreamCapabilities { raw_read_passthrough: false, raw_write_passthrough: false }
    }

    /// Both ways.
    pub fn raw_passthrough() -> (capabilities: StreamCapabilities)
        ensures
            capabilities == full_passthrough(),
    {
        StreamCapabilities { raw_read_passthrough: true, raw_write_passthrough: true }
    }
}

/// No passthrough, neither way.
pub open spec fn no_passthrough() -> StreamCapabilities {
    StreamCapabilities { raw_read_passthrough: false, raw_write_passthrough: false }
}

/// Passthrough both ways.
pub open spec fn full_passthrough() -> StreamCapabilities {
    StreamCapabilities { raw_read_passthrough: true, raw_write_passthrough: true }
}

/// One of the two ways of a stream.
#[derive(Debug, Clone, Copy, PartialEq, Eq, Structural)]
pub enum RawPassthroughDirection {
    Read,
    Write,
}

/// The word for a way of a stream.
pub open spec fn direction_word(direction: RawPassthroughDirection) -> Seq<char> {
    match direction {
        RawPassthroughDirection::Read => "read"@,
        RawPassthroughDirection::Write => "write"@,
    }
}

impl RawPassthroughDirection {
    /// The word for it.
    pub fn to_string(&self) -> (text: String)
        ensures
            text@ == direction_word(*self),
    {
        match self {
            RawPassthroughDirection::Read => "read".to_owned(),
            RawPassthroughDirection::Write => "write".to_owned(),
        }
    }
}

/// A stream that does not offer raw passthrough one way.
#[derive(Debug, Clone, Copy, PartialEq, Eq, Structural)]
pub struct RawPassthroughError {
    pub direction: RawPassthroughDirection,
}

impl RawPassthroughError {
    /// The error for a way that is not offered.
    pub fn unsupported(direction: RawPassthroughDirection) -> (error: RawPassthroughError)
        ensures
            error.direction == direction,
    {
        RawPassthroughError { direction }
    }

    /// The way that is not offered.
    pub fn direction(self) -> (direction: RawPassthroughDirection)
        ensures
            direction == self.direction,
    {
        self.direction
    }

    /// What is wrong, in words.
    pub fn to_string(&self) -> (text: String)
        ensures
            text@ == "stream does not support raw "@ + direction_word(self.direction)
                + " passthrough"@,
    {
        let head = "stream does not support raw ".to_owned();
        let word = self.direction.to_string();
        head.concat(word.as_str()).concat(" passthrough")
    }
}

/// The switches of a Reality TLS stream, the one kind that offers raw passthrough.
#[derive(Debug, Clone, Copy, PartialEq, Eq, Structural)]
pub struct RealityTlsStream {
    pub raw_read: bool,
    pub raw_write: bool,
}

impl RealityTlsStream {
    /// A stream with both switches off.
    pub fn new() -> (stream: RealityTlsStream)
        ensures
            !stream.raw_read,
            !stream.raw_write,
    {
        RealityTlsStream { raw_read: false, raw_write: false }
    }

    /// From here on what is read is handed through.
    pub fn enable_raw_read_passthrough(&mut self)
        ensures
            *final(self) == (RealityTlsStream { raw_read: true, ..*old(self) }),
    {
        self.raw_read = true;
    }

    /// From here on what is written is handed through.
    pub fn enable_raw_write_passthrough(&mut self)
        ensures
            *final(self) == (RealityTlsStream { raw_write: true, ..*old(self) }),
    {
        self.raw_write = true;
    }
}

/// A stream of bytes both ways, as it is passed between transport layers.
pub trait Stream {
    /// The Reality TLS stream that this is, if it is one.
    spec fn reality(&self) -> Option<RealityTlsStream>;

    /// Access to the Reality TLS stream that this is, if it is one. Where it is none, or what
    /// was accessed is left as it was, the stream stays as it is.
    fn as_reality_mut(&mut self) -> (res: Option<&mut RealityTlsStream>)
        ensures
            match res {
                Some(inner) => {
                    &&& old(self).reality() == Some(*inner)
                    &&& final(self).reality() == Some(*final(inner))
                    &&& *final(inner) == *inner ==> &*final(self) == &*old(self)
                },
                None => old(self).reality() is None && &*final(self) == &*old(self),
            },
    ;
}

impl Stream for RealityTlsStream {
    open spec fn reality(&self) -> Option<RealityTlsStream> {
        Some(*self)
    }

    fn as_reality_mut(&mut self) -> (res: Option<&mut RealityTlsStream>) {
        Some(self)
    }
}

/// Any other stream.
#[derive(Debug)]
pub struct PlainStream<T> {
    pub inner: T,
}

impl<T> Stream for PlainStream<T> {
    open spec fn reality(&self) -> Option<RealityTlsStream> {
        None
    }

    fn as_reality_mut(&mut self) -> (res: Option<&mut RealityTlsStream>) {
        None
    }
}

/// What a stream offers: a Reality TLS stream passthrough both ways, any other none.
pub open spec fn capabilities_of(reality: Option<RealityTlsStream>) -> StreamCapabilities {
    if reality is Some {
        full_passthrough()
    } else {
        no_passthrough()
    }
}

/// A stream once raw passthrough is asked for, one way or both.
pub open spec fn switched(
    reality: Option<RealityTlsStream>,
    read: bool,
    write: bool,
) -> Option<RealityTlsStream> {
    match reality {
        Some(inner) => Some(
            RealityTlsStream {
                raw_read: inner.raw_read || read,
                raw_write: inner.raw_write || write,
            },
        ),
        None => None,
    }
}

/// What a stream offers. The stream stays as it is.
pub fn stream_capabilities<S: Stream + ?Sized>(stream: &mut S) -> (capabilities: StreamCapabilities)
    ensures
        capabilities == capabilities_of(old(stream).reality()),
        &*final(stream) == &*old(stream),
{
    if stream.as_reality_mut().is_some() {
        return StreamCapabilities::raw_passthrough();
    }
    StreamCapabilities::none()
}

/// Enables raw passthrough both ways, as far as it is offered; says whether it was enabled
/// at least one way.
pub fn enable_raw_passthrough<S: Stream + ?Sized>(stream: &mut S) -> (enabled: bool)
    ensures
        enabled == (old(stream).reality() is Some),
        final(stream).reality() == switched(old(stream).reality(), true, true),
        !enabled ==> &*final(stream) == &*old(stream),
{
    let read = enable_raw_read_passthrough(stream);
    let write = enable_raw_write_passthrough(stream);
    read || write
}

/// Enables raw passthrough of what is read, where it is offered.
pub fn try_enable_raw_read_passthrough<S: Stream + ?Sized>(stream: &mut S) -> (res: Result<
    (),
    RawPassthroughError,
>)
    ensures
        match res {
            Ok(()) => old(stream).reality() is Some,
            Err(error) => {
                &&& old(stream).reality() is None
                &&& error.direction == RawPassthroughDirection::Read
                &&& &*final(stream) == &*old(stream)
            },
        },
        final(stream).reality() == switched(old(stream).reality(), true, false),
{
    if let Some(reality) = stream.as_reality_mut() {
        reality.enable_raw_read_passthrough();
        return Ok(());
    }
    Err(RawPassthroughError::unsupported(RawPassthroughDirection::Read))
}

/// Enables raw passthrough of what is written, where it is offered.
pub fn try_enable_raw_write_passthrough<S: Stream + ?Sized>(stream: &mut S) -> (res: Result<
    (),
    RawPassthroughError,
>)
    ensures
        match res {
            Ok(()) => old(stream).reality() is Some,
            Err(error) => {
                &&& old(stream).reality() is None
                &&& error.direction == RawPassthroughDirection::Write
                &&& &*final(stream) == &*old(stream)
            },
        },
        final(stream).reality() == switched(old(stream).reality(), false, true),
{
    if let Some(reality) = stream.as_reality_mut() {
        reality.enable_raw_write_passthrough();
        return Ok(());
    }
    Err(RawPassthroughError::unsupported(RawPassthroughDirection::Write))
}

/// Enables raw passthrough of what is read; says whether it is offered.
pub fn enable_raw_read_passthrough<S: Stream + ?Sized>(stream: &mut S) -> (enabled: bool)
    ensures
        enabled == (old(stream).reality() is Some),
        final(stream).reality() == switched(old(stream).reality(), true, false),
        !enabled ==> &*final(stream) == &*old(stream),
{
    try_enable_raw_read_passthrough(stream).is_ok()
}

/// Enables raw passthrough of what is written; says whether it is offered.
pub fn enable_raw_write_passthrough<S: Stream + ?Sized>(stream: &mut S) -> (enabled: bool)
    ensures
        enabled == (old(stream).reality() is Some),
        final(stream).reality() == switched(old(stream).reality(), false, true),
        !enabled ==> &*final(stream) == &*old(stream),
{
    try_enable_raw_write_passthrough(stream).is_ok()
}

/// Raw passthrough can be enabled a way exactly where a stream says that it offers that
/// way, and enabling it changes nothing of what is offered.
pub proof fn law_capabilities_tell_what_can_be_enabled(
    reality: Option<RealityTlsStream>,
    read: bool,
    write: bool,
)
    ensures
        capabilities_of(reality).raw_read_passthrough <==> reality is Some,
        capabilities_of(reality).raw_write_passthrough <==> reality is Some,
        capabilities_of(switched(reality, read, write)) == capabilities_of(reality),
{
}

/// The two ways are enabled independently: in either order, and as often as one likes, the
/// stream ends up as when both are enabled at once.
pub proof fn law_ways_are_enabled_independently(reality: Option<RealityTlsStream>)
    ensures
        switched(switched(reality, true, false), false, true) == switched(reality, true, true),
        switched(switched(reality, false, true), true, false) == switched(reality, true, true),
        switched(switched(reality, true, true), true, true) == switched(reality, true, true),
{
}

/// A way that is asked for is switched on, one that is not stays as it was, and no stream
/// becomes, or ceases to be, one that offers raw passthrough.
pub proof fn law_only_the_way_asked_for_is_switched(
    reality: Option<RealityTlsStream>,
    read: bool,
    write: bool,
)
    ensures
        match (reality, switched(reality, read, write)) {
            (Some(before), Some(after)) => {
                &&& read ==> after.raw_read
                &&& !read ==> after.raw_read == before.raw_read
                &&& write ==> after.raw_write
                &&& !write ==> after.raw_write == before.raw_write
            },
            (None, None) => true,
            _ => false,
        },
{
}

/// Each of the two ways has its own word.
pub proof fn law_each_way_has_its_word(direction: RawPassthroughDirection)
    ensures
        direction_word(direction) == "read"@ <==> direction is Read,
        direction_word(direction) == "write"@ <==> direction is Write,
{
    reveal_strlit("read");
    reveal_strlit("write");
    assert("read"@.len() == 4 && "write"@.len() == 5);
}

} // verus!
