use rand::Rng;
use weather_buf::codec::{decode_all, decode_all_strict, decode_body, decode_one, deserialize_weather_msg, serialize_weather_msg};
use weather_buf::record::WeatherData;
use weather_buf::wire::FrameError;

fn generate(rng: &mut impl Rng) -> WeatherData {
    let temperature: f64 = 70.0 + 10.0 * rng.gen::<f64>();
    let humidity: f32 = 0.3 + 0.1 * rng.gen::<f32>();
    let wind: f64 = 10.0 * rng.gen::<f64>();
    WeatherData::generated(temperature.to_bits(), humidity.to_bits(), wind.to_bits())
}

fn partial() -> WeatherData {
    WeatherData {
        station_name: None,
        temperature: Some(21.5f64.to_bits()),
        relative_humidity: None,
        wind_speed: Some(0.0f64.to_bits()),
        wind_direction: Some(String::new()),
    }
}

#[test]
fn test_serialize() {
    let mut weather_msg = generate(&mut rand::thread_rng());
    weather_msg.station_name = Some("TEST_STATION".to_string());
    weather_msg.temperature = Some(98.6f64.to_bits());

    let buf = serialize_weather_msg(weather_msg);
    let new_msg = match deserialize_weather_msg(&buf) {
        Ok(new_msg) => new_msg,
        Err(e) => panic!("Error decoding message: {:?}", e),
    };
    assert_eq!("TEST_STATION", new_msg.station_name());
    assert_eq!(98.6, f64::from_bits(new_msg.temperature()));
}

#[test]
fn round_trip_keeps_absent_fields_absent() {
    let mut rng = rand::thread_rng();
    for w in [WeatherData::empty(), partial(), generate(&mut rng)] {
        let decoded = deserialize_weather_msg(&serialize_weather_msg(w.clone())).unwrap();
        assert_eq!(decoded, w);
    }
    let decoded = deserialize_weather_msg(&serialize_weather_msg(partial())).unwrap();
    assert_eq!(decoded.station_name, None);
    assert_eq!(decoded.relative_humidity, None);
    assert_eq!(decoded.wind_speed, Some(0));
    assert_eq!(decoded.wind_direction, Some(String::new()));
}

#[test]
fn exact_frame_bytes() {
    let w = WeatherData {
        station_name: Some("AB".to_string()),
        temperature: None,
        relative_humidity: Some(0x3e99_999a),
        wind_speed: None,
        wind_direction: None,
    };
    assert_eq!(
        serialize_weather_msg(w),
        vec![9, 0x0a, 2, b'A', b'B', 0x1d, 0x9a, 0x99, 0x99, 0x3e]
    );
    assert_eq!(serialize_weather_msg(WeatherData::empty()), vec![0]);
    let t = WeatherData {
        temperature: Some(1.0f64.to_bits()),
        ..WeatherData::empty()
    };
    assert_eq!(serialize_weather_msg(t), vec![9, 0x11, 0, 0, 0, 0, 0, 0, 0xf0, 0x3f]);
}

#[test]
fn long_text_gets_two_byte_lengths() {
    let name = "x".repeat(200);
    let w = WeatherData {
        station_name: Some(name.clone()),
        ..WeatherData::empty()
    };
    let buf = serialize_weather_msg(w.clone());
    // body: key, two-byte length 200, 200 bytes
    assert_eq!(&buf[..5], &[0xcb, 0x01, 0x0a, 0xc8, 0x01]);
    assert_eq!(buf.len(), 205);
    assert_eq!(deserialize_weather_msg(&buf).unwrap(), w);
}

#[test]
fn non_ascii_text_round_trips() {
    let w = WeatherData {
        station_name: Some("Zürich".to_string()),
        wind_direction: Some("北".to_string()),
        ..WeatherData::empty()
    };
    let buf = serialize_weather_msg(w.clone());
    assert_eq!(buf[0] as usize, buf.len() - 1);
    assert_eq!(&buf[1..3], &[0x0a, 7]);
    assert_eq!(deserialize_weather_msg(&buf).unwrap(), w);
}

#[test]
fn two_frames_decode_in_order() {
    let mut rng = rand::thread_rng();
    let v = generate(&mut rng);
    let w = partial();
    let mut buf = serialize_weather_msg(v.clone());
    buf.extend(serialize_weather_msg(w.clone()));
    assert_eq!(decode_all(&buf), vec![v, w]);
}

#[test]
fn empty_input_decodes_to_nothing() {
    assert!(decode_all(&[]).is_empty());
    assert_eq!(decode_one(&[], 0), Err(FrameError::Truncated));
}

#[test]
fn truncated_frame_is_truncated() {
    let mut rng = rand::thread_rng();
    for w in [generate(&mut rng), partial(), WeatherData::empty()] {
        let mut buf = serialize_weather_msg(w);
        buf.pop();
        assert_eq!(deserialize_weather_msg(&buf), Err(FrameError::Truncated));
    }
    // a length prefix that stops before its last byte
    assert_eq!(deserialize_weather_msg(&[0x80, 0x80]), Err(FrameError::Truncated));
}

#[test]
fn unknown_field_is_skipped() {
    // field 7, length-delimited "abc"; then station_name "S"; field 9 as a varint
    let body = [0x3a, 3, b'a', b'b', b'c', 0x0a, 1, b'S', 0x48, 0x96, 0x01];
    let mut frame = vec![body.len() as u8];
    frame.extend_from_slice(&body);
    let w = deserialize_weather_msg(&frame).unwrap();
    assert_eq!(
        w,
        WeatherData {
            station_name: Some("S".to_string()),
            ..WeatherData::empty()
        }
    );
    // fixed 64 and fixed 32 unknown fields too
    let body = [0x31, 1, 2, 3, 4, 5, 6, 7, 8, 0x3d, 1, 2, 3, 4];
    assert_eq!(decode_body(&body), Some(WeatherData::empty()));
}

#[test]
fn malformed_bodies_are_rejected() {
    // temperature with the wire type of a varint
    assert_eq!(deserialize_weather_msg(&[2, 0x10, 5]), Err(FrameError::Malformed));
    // field number 0
    assert_eq!(deserialize_weather_msg(&[2, 0x00, 5]), Err(FrameError::Malformed));
    // text that is not UTF-8
    assert_eq!(deserialize_weather_msg(&[3, 0x0a, 1, 0xff]), Err(FrameError::Malformed));
    // text length past the end of the body
    assert_eq!(deserialize_weather_msg(&[3, 0x0a, 5, b'a']), Err(FrameError::Malformed));
    // group wire type
    assert_eq!(deserialize_weather_msg(&[1, 0x33]), Err(FrameError::Malformed));
    // length prefix longer than ten bytes
    assert_eq!(deserialize_weather_msg(&[0xff; 12]), Err(FrameError::Malformed));
    // a later field replaces an earlier one
    let w = deserialize_weather_msg(&[6, 0x0a, 1, b'a', 0x0a, 1, b'b']).unwrap();
    assert_eq!(w.station_name(), "b");
}

#[test]
fn decode_all_stops_at_a_bad_frame() {
    let v = partial();
    let mut buf = serialize_weather_msg(v.clone());
    buf.extend_from_slice(&[2, 0x10, 5]);
    buf.extend(serialize_weather_msg(v.clone()));
    assert_eq!(decode_all(&buf), vec![v.clone()]);
    let mut buf = serialize_weather_msg(v.clone());
    buf.extend_from_slice(&[9, 0x0a]);
    assert_eq!(decode_all(&buf), vec![v]);
}

#[test]
fn decode_one_advances_past_the_frame() {
    let v = partial();
    let first = serialize_weather_msg(WeatherData::empty());
    let mut buf = first.clone();
    buf.extend(serialize_weather_msg(v.clone()));
    let (w0, next) = decode_one(&buf, 0).unwrap();
    assert_eq!(w0, WeatherData::empty());
    assert_eq!(next, first.len());
    let (w1, end) = decode_one(&buf, next).unwrap();
    assert_eq!(w1, v);
    assert_eq!(end, buf.len());
}

#[test]
fn append_and_replay_ten_records() {
    let mut rng = rand::thread_rng();
    let mut stream: Vec<u8> = Vec::new();
    let mut written = Vec::new();
    for _ in 0..10 {
        let w = generate(&mut rng);
        stream.extend(serialize_weather_msg(w.clone()));
        written.push(w);
    }
    let read = decode_all(&stream);
    assert_eq!(read.len(), 10);
    assert_eq!(read, written);
}

#[test]
fn generated_readings_in_range() {
    let mut rng = rand::thread_rng();
    for _ in 0..1000 {
        let w = deserialize_weather_msg(&serialize_weather_msg(generate(&mut rng))).unwrap();
        let t = f64::from_bits(w.temperature.unwrap());
        let h = f32::from_bits(w.relative_humidity.unwrap());
        let s = f64::from_bits(w.wind_speed.unwrap());
        assert!((70.0..80.0).contains(&t));
        assert!((0.3..0.4).contains(&h));
        assert!((0.0..10.0).contains(&s));
        assert_eq!(w.station_name(), "A10H7B");
        assert_eq!(w.wind_direction(), "N");
    }
}

#[test]
fn datagram_buffer_decodes_front_frame() {
    let v = generate(&mut rand::thread_rng());
    let frame = serialize_weather_msg(v.clone());
    let mut datagram = [0u8; 1024];
    datagram[..frame.len()].copy_from_slice(&frame);
    assert_eq!(deserialize_weather_msg(&datagram).unwrap(), v);
}

#[test]
fn getters_default_when_absent() {
    let w = WeatherData::empty();
    assert_eq!(w.station_name(), "");
    assert_eq!(w.wind_direction(), "");
    assert_eq!(w.temperature(), 0);
    assert_eq!(w.relative_humidity(), 0);
    assert_eq!(w.wind_speed(), 0);
}

#[test]
fn strict_read_surfaces_the_first_error() {
    let v = partial();
    let mut buf = serialize_weather_msg(v.clone());
    buf.extend(serialize_weather_msg(WeatherData::empty()));
    assert_eq!(decode_all_strict(&buf), Ok(vec![v.clone(), WeatherData::empty()]));
    assert_eq!(decode_all_strict(&[]), Ok(vec![]));
    let mut bad = serialize_weather_msg(v.clone());
    bad.extend_from_slice(&[2, 0x10, 5]);
    assert_eq!(decode_all_strict(&bad), Err(FrameError::Malformed));
    let mut cut = serialize_weather_msg(v.clone());
    cut.extend_from_slice(&[9, 0x0a]);
    assert_eq!(decode_all_strict(&cut), Err(FrameError::Truncated));
    assert_eq!(decode_all(&cut), vec![v]);
}
