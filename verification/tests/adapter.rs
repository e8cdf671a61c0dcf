//! Tests of the host value adapter and the `loadb` / `dumpb` entry points.
use cbors::AdapterError;
use cbors::DecodeError;
use cbors::HostValue;
use cbors::Value;
use cbors::dumpb;
use cbors::from_host;
use cbors::loadb;
use cbors::to_host;

fn hint(i: i128) -> HostValue {
    HostValue::Int(i)
}

fn hstr(s: &str) -> HostValue {
    HostValue::Str(s.to_string())
}

#[test]
fn from_host_scalars() {
    assert_eq!(from_host(&HostValue::Null), Ok(Value::Null));
    assert_eq!(from_host(&HostValue::Bool(true)), Ok(Value::Bool(true)));
    assert_eq!(from_host(&hint(7)), Ok(Value::Integer(7)));
    assert_eq!(from_host(&hstr("hi")), Ok(Value::Text("hi".to_string())));
    assert_eq!(
        from_host(&HostValue::Bytes(vec![9])),
        Ok(Value::Bytes(vec![9]))
    );
}

#[test]
fn from_host_rejects_out_of_range_integers() {
    let too_big = 0x1_0000_0000_0000_0000i128;
    assert_eq!(
        from_host(&hint(too_big)),
        Err(AdapterError::IntegerOutOfRange(too_big))
    );
    let too_small = -(0x1_0000_0000_0000_0001i128);
    assert_eq!(
        from_host(&hint(too_small)),
        Err(AdapterError::IntegerOutOfRange(too_small))
    );
    assert_eq!(
        from_host(&HostValue::List(vec![hint(1), hint(too_big)])),
        Err(AdapterError::IntegerOutOfRange(too_big))
    );
    assert!(dumpb(&HostValue::List(vec![hint(too_big)])).is_err());
}

#[test]
fn from_host_accepts_range_edges() {
    assert_eq!(
        from_host(&hint(0xffff_ffff_ffff_ffffi128)),
        Ok(Value::Integer(0xffff_ffff_ffff_ffff))
    );
    assert_eq!(
        from_host(&hint(-(0x1_0000_0000_0000_0000i128))),
        Ok(Value::Integer(-(0x1_0000_0000_0000_0000i128)))
    );
}

#[test]
fn from_host_sorts_dict_entries() {
    let h = HostValue::Dict(vec![(hstr("b"), hint(2)), (hstr("a"), hint(1))]);
    let expected = Value::Mapping(vec![
        (Value::Text("a".to_string()), Value::Integer(1)),
        (Value::Text("b".to_string()), Value::Integer(2)),
    ]);
    assert_eq!(from_host(&h), Ok(expected));
}

#[test]
fn host_round_trip_preserves_canonical_values() {
    let h = HostValue::Dict(vec![
        (hint(1), HostValue::List(vec![hint(2), HostValue::Null])),
        (hstr("z"), HostValue::Bytes(vec![1, 2, 3])),
    ]);
    let v = from_host(&h).unwrap();
    assert_eq!(to_host(&v), h);
}

#[test]
fn host_round_trip_preserves_float_bits() {
    let h = HostValue::Float(f64::NAN.to_bits());
    let v = from_host(&h).unwrap();
    assert_eq!(to_host(&v), h);
}

#[test]
fn dict_insertion_order_does_not_change_the_bytes() {
    let one = HostValue::Dict(vec![
        (hstr("a"), hint(1)),
        (hstr("b"), hint(2)),
        (hint(7), hint(3)),
    ]);
    let other = HostValue::Dict(vec![
        (hint(7), hint(3)),
        (hstr("b"), hint(2)),
        (hstr("a"), hint(1)),
    ]);
    assert_eq!(dumpb(&one).unwrap(), dumpb(&other).unwrap());
}

#[test]
fn integer_keys_sort_before_text_keys() {
    let h = HostValue::Dict(vec![(hstr("a"), hint(1)), (hint(0), hint(2))]);
    let expected = Value::Mapping(vec![
        (Value::Integer(0), Value::Integer(2)),
        (Value::Text("a".to_string()), Value::Integer(1)),
    ]);
    assert_eq!(from_host(&h), Ok(expected));
}

#[test]
fn dumpb_then_loadb_round_trips_a_nested_dict() {
    let h = HostValue::Dict(vec![
        (hstr("a"), hint(1)),
        (
            hstr("b"),
            HostValue::List(vec![hint(1), hint(2), hint(3)]),
        ),
    ]);
    let bytes = dumpb(&h).unwrap();
    let back = loadb(&bytes).unwrap();
    match back {
        HostValue::Dict(entries) => {
            assert_eq!(entries.len(), 2);
            assert_eq!(entries[0].0, hstr("a"));
            assert_eq!(entries[0].1, hint(1));
            assert_eq!(entries[1].0, hstr("b"));
            assert_eq!(
                entries[1].1,
                HostValue::List(vec![hint(1), hint(2), hint(3)])
            );
        },
        other => panic!("expected a dict, got {:?}", other),
    }
}

#[test]
fn loadb_reports_decode_errors() {
    assert_eq!(loadb(&[]), Err(DecodeError::UnexpectedEnd));
    assert_eq!(loadb(&[0x83, 0x01]), Err(DecodeError::UnexpectedEnd));
    assert_eq!(loadb(&[0x01, 0x02]), Err(DecodeError::TrailingData));
    assert_eq!(loadb(&[0xc0, 0x01]), Err(DecodeError::Unsupported));
}

#[test]
fn loadb_of_known_bytes() {
    assert_eq!(loadb(&[0xf6]), Ok(HostValue::Null));
    assert_eq!(
        loadb(&[0x82, 0x01, 0x61, 0x78]),
        Ok(HostValue::List(vec![hint(1), hstr("x")]))
    );
}
