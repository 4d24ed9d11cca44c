use cv_core::object::{IdAllocator, ObjectHeader, ObjectId};
use cv_core::handle::Handle;
use cv_core::mission::LocationId;
use cv_core::node::NodeKind;
use cv_core::schedule::{ScopeFilter, WorldLimit};
use cv_core::spine::{Strictness, UnlockRef};
use cv_core::serialize::{from_bytes, to_bytes, Reader, SerError, Writer};

#[test]
fn primitives_round_trip() {
    let mut w = Writer::new();
    w.u8(0xAB);
    w.u16(0x1234);
    w.u32(0xDEAD_BEEF);
    w.u64(0x0123_4567_89AB_CDEF);
    w.i32(-42);
    w.i64(-9_000_000_000);
    w.bool(true);
    w.str("héllo ☃");
    w.bytes(&[1, 2, 3]);
    let buf = w.finish();

    let mut r = Reader::new(&buf);
    assert_eq!(r.u8().unwrap(), 0xAB);
    assert_eq!(r.u16().unwrap(), 0x1234);
    assert_eq!(r.u32().unwrap(), 0xDEAD_BEEF);
    assert_eq!(r.u64().unwrap(), 0x0123_4567_89AB_CDEF);
    assert_eq!(r.i32().unwrap(), -42);
    assert_eq!(r.i64().unwrap(), -9_000_000_000);
    assert!(r.bool().unwrap());
    assert_eq!(r.str().unwrap(), "héllo ☃");
    assert_eq!(r.bytes().unwrap(), vec![1, 2, 3]);
    assert!(r.expect_end().is_ok());
}

#[test]
fn floats_survive_exactly_including_edge_values() {
    // Bit-pattern encoding, so these all come back identical rather than "close".
    let cases = [
        0.0,
        -0.0,
        1.0,
        -1.0,
        f64::MIN_POSITIVE,
        f64::MAX,
        f64::EPSILON,
        5e-324,
        0.1,
        f64::INFINITY,
        f64::NEG_INFINITY,
    ];
    let mut w = Writer::new();
    for v in cases {
        w.u64(f64::to_bits(v));
    }
    w.u64(f64::NAN.to_bits());
    let buf = w.finish();
    let mut r = Reader::new(&buf);
    for v in cases {
        let got = f64::from_bits(r.u64().unwrap());
        assert_eq!(got.to_bits(), v.to_bits(), "f64 {v} did not round-trip bit-exactly");
    }
    assert!(f64::from_bits(r.u64().unwrap()).is_nan());
    assert!(cases[1].is_sign_negative());
}

#[test]
fn envelope_rejects_foreign_and_stale_streams() {
    let good = to_bytes(&42u32);
    assert_eq!(from_bytes::<u32>(&good).unwrap(), 42);

    let mut bad = good.clone();
    bad[0] = b'X';
    assert!(matches!(from_bytes::<u32>(&bad), Err(SerError::BadMagic { .. })));

    let mut stale = good.clone();
    stale[4] = 99;
    assert!(matches!(
        from_bytes::<u32>(&stale),
        Err(SerError::UnsupportedVersion { found: 99, .. })
    ));

    assert!(matches!(from_bytes::<u32>(&good[..6]), Err(SerError::UnexpectedEof { .. })));

    let mut extra = good.clone();
    extra.push(0);
    assert_eq!(from_bytes::<u32>(&extra), Err(SerError::TrailingBytes(1)));
}

#[test]
fn corrupt_lengths_are_rejected_without_huge_allocations() {
    let mut w = Writer::with_envelope();
    w.u32(u32::MAX);
    w.bytes_raw(b"short");
    let buf = w.finish();
    let mut r = Reader::with_envelope(&buf).unwrap();
    assert!(matches!(r.str(), Err(SerError::UnexpectedEof { .. })));
}

#[test]
fn collections_round_trip() {
    let v: Vec<u32> = (0..100).collect();
    assert_eq!(from_bytes::<Vec<u32>>(&to_bytes(&v)).unwrap(), v);

    let opts: Vec<Option<String>> = vec![
        Some("a".into()),
        None,
        Some("".into()),
        Some("ünïcødé".into()),
    ];
    assert_eq!(from_bytes::<Vec<Option<String>>>(&to_bytes(&opts)).unwrap(), opts);

    let empty: Vec<u64> = Vec::new();
    assert_eq!(from_bytes::<Vec<u64>>(&to_bytes(&empty)).unwrap(), empty);
}

#[test]
fn writing_is_byte_stable() {
    let v: Vec<Option<String>> = vec![Some("door".into()), None, Some("lever".into())];
    assert_eq!(to_bytes(&v), to_bytes(&v));
}

#[test]
fn identity_types_round_trip() {
    let id = ObjectId::derived("actor", "door");
    assert_eq!(from_bytes::<ObjectId>(&to_bytes(&id)).unwrap(), id);

    let header = ObjectHeader::new(id, "heavy_gate");
    assert_eq!(from_bytes::<ObjectHeader>(&to_bytes(&header)).unwrap(), header);

    let mut alloc = IdAllocator::new();
    alloc.allocate();
    alloc.allocate();
    let back = from_bytes::<IdAllocator>(&to_bytes(&alloc)).unwrap();
    assert_eq!(back.peek(), alloc.peek());
    assert_eq!(back.clone().allocate(), ObjectId::from_raw(3));
}

#[test]
fn zero_generation_handle_is_rejected() {
    let mut w = Writer::with_envelope();
    w.u32(0); // index
    w.u32(0); // generation: never valid
    let buf = w.finish();
    assert!(matches!(
        from_bytes::<Handle<u32>>(&buf),
        Err(SerError::InvalidValue(_))
    ));
}

#[test]
fn a_live_handle_round_trips() {
    let h = Handle::<u32>::from_raw((7u64 << 32) | 3).unwrap();
    assert_eq!(h.index(), 7);
    assert_eq!(h.generation(), 3);
    let back = from_bytes::<Handle<u32>>(&to_bytes(&h)).unwrap();
    assert_eq!(back.to_raw(), h.to_raw());
    assert!(Handle::<u32>::from_raw(7u64 << 32).is_none());
}

#[test]
fn location_ids_round_trip_as_four_bytes() {
    let loc = LocationId(0x0102_0304);
    let mut w = Writer::new();
    w.write(&loc);
    assert_eq!(w.finish(), vec![4, 3, 2, 1]);
    assert_eq!(from_bytes::<LocationId>(&to_bytes(&loc)).unwrap(), loc);
}

#[test]
fn strictness_round_trips_and_unknown_tags_are_refused() {
    for s in [Strictness::Required, Strictness::Preferred, Strictness::Optional] {
        assert_eq!(from_bytes::<Strictness>(&to_bytes(&s)).unwrap(), s);
    }
    let mut w = Writer::new();
    w.write(&Strictness::Optional);
    assert_eq!(w.finish(), vec![2]);
    let mut w = Writer::with_envelope();
    w.u8(3);
    assert_eq!(
        from_bytes::<Strictness>(&w.finish()),
        Err(SerError::InvalidValue("unknown Strictness tag"))
    );
}

#[test]
fn unlock_refs_round_trip_in_both_forms() {
    let explicit = UnlockRef::Explicit(ObjectId::from_raw(7));
    let granted = UnlockRef::GrantedBy(String::from("boss_room"));
    assert_eq!(from_bytes::<UnlockRef>(&to_bytes(&explicit)).unwrap(), explicit);
    assert_eq!(from_bytes::<UnlockRef>(&to_bytes(&granted)).unwrap(), granted);

    let mut w = Writer::new();
    w.write(&explicit);
    assert_eq!(w.finish(), vec![0, 7, 0, 0, 0, 0, 0, 0, 0]);

    let mut w = Writer::with_envelope();
    w.u8(2);
    assert_eq!(
        from_bytes::<UnlockRef>(&w.finish()),
        Err(SerError::InvalidValue("unknown UnlockRef tag"))
    );
}

#[test]
fn scope_filters_round_trip_and_stray_bits_are_refused() {
    let f = ScopeFilter::only(&[NodeKind::Reach, NodeKind::Space]);
    let back = from_bytes::<ScopeFilter>(&to_bytes(&f)).unwrap();
    assert_eq!(back, f);
    assert!(back.allows(NodeKind::Reach));
    assert!(!back.allows(NodeKind::Area));
    assert_eq!(from_bytes::<ScopeFilter>(&to_bytes(&ScopeFilter::any())).unwrap(), ScopeFilter::any());

    let mut w = Writer::with_envelope();
    w.u8(0b10_0000);
    assert_eq!(
        from_bytes::<ScopeFilter>(&w.finish()),
        Err(SerError::InvalidValue("ScopeFilter has bits for no NodeKind"))
    );
}

#[test]
fn world_limits_round_trip_and_inverted_ones_are_refused_on_reading() {
    for l in [
        WorldLimit::unlimited(),
        WorldLimit::exactly(1),
        WorldLimit::at_most(4),
        WorldLimit::at_least(2),
    ] {
        assert_eq!(from_bytes::<WorldLimit>(&to_bytes(&l)).unwrap(), l);
    }
    let inverted = WorldLimit { min: 5, max: Some(2) };
    assert_eq!(
        from_bytes::<WorldLimit>(&to_bytes(&inverted)),
        Err(SerError::InvalidValue("WorldLimit max is below min"))
    );
}

#[test]
fn a_bool_byte_other_than_zero_or_one_is_refused_and_consumed() {
    let buf = [0u8, 1, 7, 1];
    let mut r = Reader::new(&buf);
    assert_eq!(r.bool(), Ok(false));
    assert_eq!(r.bool(), Ok(true));
    assert!(matches!(r.bool(), Err(SerError::InvalidValue(_))));
    assert_eq!(r.position(), 3, "the bad byte was read");
    assert_eq!(r.bool(), Ok(true));
    assert!(matches!(r.bool(), Err(SerError::UnexpectedEof { needed: 1, remaining: 0 })));
    assert_eq!(r.position(), 4);
}

#[test]
fn an_overlong_length_prefix_is_refused_after_its_four_bytes() {
    let mut w = Writer::new();
    w.u32(9);
    w.u8(1);
    let buf = w.finish();
    let mut r = Reader::new(&buf);
    assert!(matches!(r.read_len(), Err(SerError::UnexpectedEof { needed: 9, remaining: 1 })));
    assert_eq!(r.position(), 4);
}

#[test]
fn a_filter_built_from_no_kinds_is_empty_and_any_is_not() {
    assert!(ScopeFilter::only(&[]).is_empty());
    assert!(!ScopeFilter::only(&[NodeKind::Space]).is_empty());
    assert!(!ScopeFilter::any().is_empty());
    assert!(ScopeFilter::only(&[NodeKind::Space]).allows(NodeKind::Space));
    assert!(!ScopeFilter::only(&[NodeKind::Space]).allows(NodeKind::Area));
}
