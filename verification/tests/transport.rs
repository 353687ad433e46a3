use meow::transport::{
    enable_raw_passthrough, enable_raw_read_passthrough, enable_raw_write_passthrough,
    stream_capabilities, try_enable_raw_read_passthrough, try_enable_raw_write_passthrough,
    PlainStream, RawPassthroughDirection, RawPassthroughError, RealityTlsStream, Stream,
    StreamCapabilities,
};

#[test]
fn plain_stream_reports_no_raw_passthrough_capability() {
    let (stream, _peer) = tokio::io::duplex(64);
    let mut stream = PlainStream { inner: stream };

    assert_eq!(stream_capabilities(&mut stream), StreamCapabilities::none());
    let err = try_enable_raw_read_passthrough(&mut stream).unwrap_err();
    assert_eq!(err.direction(), RawPassthroughDirection::Read);
    let err = try_enable_raw_write_passthrough(&mut stream).unwrap_err();
    assert_eq!(err.direction(), RawPassthroughDirection::Write);
}

#[test]
fn reality_stream_offers_both_ways() {
    let mut stream = RealityTlsStream::new();
    assert_eq!(
        stream_capabilities(&mut stream),
        StreamCapabilities::raw_passthrough()
    );
    assert_eq!(stream, RealityTlsStream::new());
    assert_eq!(
        StreamCapabilities::raw_passthrough(),
        StreamCapabilities {
            raw_read_passthrough: true,
            raw_write_passthrough: true
        }
    );
    assert_eq!(
        StreamCapabilities::none(),
        StreamCapabilities {
            raw_read_passthrough: false,
            raw_write_passthrough: false
        }
    );
}

#[test]
fn ways_are_enabled_independently() {
    let mut stream = RealityTlsStream::new();
    assert_eq!(try_enable_raw_read_passthrough(&mut stream), Ok(()));
    assert!(stream.raw_read && !stream.raw_write);
    assert_eq!(try_enable_raw_write_passthrough(&mut stream), Ok(()));
    assert!(stream.raw_read && stream.raw_write);

    let mut other = RealityTlsStream::new();
    assert!(enable_raw_write_passthrough(&mut other));
    assert!(!other.raw_read && other.raw_write);
    assert!(enable_raw_read_passthrough(&mut other));
    assert_eq!(other, stream);

    let mut both = RealityTlsStream::new();
    assert!(enable_raw_passthrough(&mut both));
    assert_eq!(both, stream);
    assert!(enable_raw_passthrough(&mut both));
    assert_eq!(both, stream);
}

#[test]
fn trait_objects_are_looked_through() {
    let mut streams: Vec<Box<dyn Stream>> = vec![
        Box::new(RealityTlsStream::new()),
        Box::new(PlainStream { inner: 7u8 }),
    ];
    let mut enabled = Vec::new();
    for stream in streams.iter_mut() {
        enabled.push(enable_raw_passthrough(stream.as_mut()));
    }
    assert_eq!(enabled, vec![true, false]);
    let reality = streams[0].as_reality_mut().unwrap();
    assert!(reality.raw_read && reality.raw_write);
    assert!(streams[1].as_reality_mut().is_none());
}

#[test]
fn plain_stream_enables_nothing() {
    let mut stream = PlainStream { inner: 7u8 };
    assert!(!enable_raw_read_passthrough(&mut stream));
    assert!(!enable_raw_write_passthrough(&mut stream));
    assert!(!enable_raw_passthrough(&mut stream));
    assert_eq!(stream_capabilities(&mut stream), StreamCapabilities::none());
    assert!(try_enable_raw_read_passthrough(&mut stream).is_err());
    assert!(try_enable_raw_write_passthrough(&mut stream).is_err());
    assert_eq!(stream.inner, 7);
}

#[test]
fn passthrough_error_tells_the_way() {
    let read = RawPassthroughError::unsupported(RawPassthroughDirection::Read);
    let write = RawPassthroughError::unsupported(RawPassthroughDirection::Write);
    assert_eq!(
        read.to_string(),
        "stream does not support raw read passthrough"
    );
    assert_eq!(
        write.to_string(),
        "stream does not support raw write passthrough"
    );
    assert_eq!(RawPassthroughDirection::Read.to_string(), "read");
    assert_eq!(RawPassthroughDirection::Write.to_string(), "write");
}
