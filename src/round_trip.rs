//! What the encoder and the decoders promise of each other.
use vstd::prelude::*;
use vstd::utf8::*;
use crate::record::{WeatherView, empty_view};
use crate::varint::{varint_bytes, read_varint, lemma_read_varint, lemma_varint_value};
use crate::wire::{
    FieldView, FrameError, STATION_NAME_KEY, TEMPERATURE_KEY, RELATIVE_HUMIDITY_KEY, WIND_SPEED_KEY,
    WIND_DIRECTION_KEY, le_bytes, le_value, pow256, text_field, opt_text_field, opt_fixed_field,
    opt_nat64, opt_nat32, body_bytes, frame_bytes, wire_sized, payload, parse_field,
    apply_field, parse_fields, parse_body, parse_frame, parse_stream, parse_stream_strict,
};

verus! {

broadcast use {encode_utf8_valid_utf8, encode_utf8_decode_utf8};

/// A field of number `tag` that the reading does not know, carrying `data`
/// length-delimited.
pub open spec fn unknown_field(tag: nat, data: Seq<u8>) -> Seq<u8> {
    varint_bytes(tag * 8 + 2) + varint_bytes(data.len()) + data
}

proof fn lemma_le_round(v: nat, n: nat)
    requires
        v < pow256(n),
    ensures
        le_bytes(v, n).len() == n,
        le_value(le_bytes(v, n)) == v,
    decreases n,
{
    if n > 0 {
        let n1 = (n - 1) as nat;
        assert(v / 256 < pow256(n1)) by (nonlinear_arith)
            requires
                v < 256 * pow256(n1),
        ;
        lemma_le_round(v / 256, n1);
        let b = le_bytes(v, n);
        assert(b.drop_first() =~= le_bytes(v / 256, n1));
        assert(b[0] as nat == v % 256);
    }
}

/// A field read at the front of `f + rest` that takes all of `f` leaves
/// `rest` to be read after it.
proof fn lemma_fields_step(f: Seq<u8>, rest: Seq<u8>, acc: WeatherView, fv: FieldView)
    requires
        f.len() > 0,
        parse_field(f + rest) == Some((fv, f.len())),
    ensures
        parse_fields(f + rest, acc) == parse_fields(rest, apply_field(acc, fv)),
{
    assert((f + rest).skip(f.len() as int) =~= rest);
}

/// The key byte of a field below number 16 reads as itself.
proof fn lemma_read_key(key: u8, rest: Seq<u8>)
    requires
        key < 128,
    ensures
        read_varint(seq![key] + rest) == Some((key as nat, 1nat)),
{
    assert(varint_bytes(key as nat) =~= seq![key]);
    lemma_read_varint(key as nat, rest);
}

proof fn lemma_text_field(key: u8, s: Seq<char>, rest: Seq<u8>)
    requires
        key == STATION_NAME_KEY || key == WIND_DIRECTION_KEY,
        encode_utf8(s).len() < 0x1_0000_0000_0000_0000,
    ensures
        parse_field(text_field(key, s) + rest) == Some(
            (
                if key == STATION_NAME_KEY {
                    FieldView::Name(s)
                } else {
                    FieldView::Direction(s)
                },
                text_field(key, s).len(),
            ),
        ),
{
    let bytes = encode_utf8(s);
    let l = bytes.len();
    let b = text_field(key, s) + rest;
    let after = varint_bytes(l) + (bytes + rest);
    assert(b =~= seq![key] + after);
    lemma_read_key(key, after);
    assert(b.skip(1) =~= after);
    lemma_read_varint(l, bytes + rest);
    let m = varint_bytes(l).len();
    assert(payload(2, after) == Some((m, l)));
    assert(after.subrange(m as int, (m + l) as int) =~= bytes);
}

proof fn lemma_fixed_field(key: u8, v: nat, width: nat, rest: Seq<u8>)
    requires
        (key == TEMPERATURE_KEY || key == WIND_SPEED_KEY) && width == 8 || key
            == RELATIVE_HUMIDITY_KEY && width == 4,
        v < pow256(width),
    ensures
        parse_field(seq![key] + le_bytes(v, width) + rest) == Some(
            (
                if key == TEMPERATURE_KEY {
                    FieldView::Temperature(v as u64)
                } else if key == WIND_SPEED_KEY {
                    FieldView::WindSpeed(v as u64)
                } else {
                    FieldView::Humidity(v as u32)
                },
                width + 1,
            ),
        ),
{
    lemma_le_round(v, width);
    let after = le_bytes(v, width) + rest;
    let b = seq![key] + le_bytes(v, width) + rest;
    assert(b =~= seq![key] + after);
    lemma_read_key(key, after);
    assert(b.skip(1) =~= after);
    assert(after.subrange(0, width as int) =~= le_bytes(v, width));
}

proof fn lemma_opt_text(key: u8, o: Option<Seq<char>>, rest: Seq<u8>, acc: WeatherView)
    requires
        key == STATION_NAME_KEY || key == WIND_DIRECTION_KEY,
        o matches Some(s) ==> encode_utf8(s).len() < 0x1_0000_0000_0000_0000,
    ensures
        parse_fields(opt_text_field(key, o) + rest, acc) == parse_fields(
            rest,
            match o {
                Some(s) => apply_field(
                    acc,
                    if key == STATION_NAME_KEY {
                        FieldView::Name(s)
                    } else {
                        FieldView::Direction(s)
                    },
                ),
                None => acc,
            },
        ),
{
    match o {
        Some(s) => {
            lemma_text_field(key, s, rest);
            let fv = if key == STATION_NAME_KEY {
                FieldView::Name(s)
            } else {
                FieldView::Direction(s)
            };
            lemma_fields_step(text_field(key, s), rest, acc, fv);
        },
        None => {
            assert(opt_text_field(key, o) + rest =~= rest);
        },
    }
}

proof fn lemma_opt_fixed(key: u8, o: Option<nat>, width: nat, rest: Seq<u8>, acc: WeatherView)
    requires
        (key == TEMPERATURE_KEY || key == WIND_SPEED_KEY) && width == 8 || key
            == RELATIVE_HUMIDITY_KEY && width == 4,
        o matches Some(v) ==> v < pow256(width),
    ensures
        parse_fields(opt_fixed_field(key, o, width) + rest, acc) == parse_fields(
            rest,
            match o {
                Some(v) => apply_field(
                    acc,
                    if key == TEMPERATURE_KEY {
                        FieldView::Temperature(v as u64)
                    } else if key == WIND_SPEED_KEY {
                        FieldView::WindSpeed(v as u64)
                    } else {
                        FieldView::Humidity(v as u32)
                    },
                ),
                None => acc,
            },
        ),
{
    match o {
        Some(v) => {
            lemma_fixed_field(key, v, width, rest);
            lemma_le_round(v, width);
            let f = seq![key] + le_bytes(v, width);
            assert(f + rest =~= seq![key] + le_bytes(v, width) + rest);
            let fv = if key == TEMPERATURE_KEY {
                FieldView::Temperature(v as u64)
            } else if key == WIND_SPEED_KEY {
                FieldView::WindSpeed(v as u64)
            } else {
                FieldView::Humidity(v as u32)
            };
            lemma_fields_step(f, rest, acc, fv);
        },
        None => {
            assert(opt_fixed_field(key, o, width) + rest =~= rest);
        },
    }
}

/// A body reads back as the reading it was written from.
pub proof fn lemma_body_round_trip(v: WeatherView)
    requires
        wire_sized(v),
    ensures
        parse_body(body_bytes(v)) == Some(v),
{
    reveal_with_fuel(pow256, 9);
    let a = opt_text_field(STATION_NAME_KEY, v.station_name);
    let b = opt_fixed_field(TEMPERATURE_KEY, opt_nat64(v.temperature), 8);
    let c = opt_fixed_field(RELATIVE_HUMIDITY_KEY, opt_nat32(v.relative_humidity), 4);
    let d = opt_fixed_field(WIND_SPEED_KEY, opt_nat64(v.wind_speed), 8);
    let e = opt_text_field(WIND_DIRECTION_KEY, v.wind_direction);
    let body = body_bytes(v);
    let empty = Seq::<u8>::empty();
    assert(body =~= a + (b + (c + (d + (e + empty)))));
    if let Some(s) = v.station_name {
        assert(a.len() <= body.len());
        assert(encode_utf8(s).len() <= a.len());
    }
    if let Some(s) = v.wind_direction {
        assert(e.len() <= body.len());
        assert(encode_utf8(s).len() <= e.len());
    }
    let acc0 = empty_view();
    lemma_opt_text(STATION_NAME_KEY, v.station_name, b + (c + (d + (e + empty))), acc0);
    let acc1 = WeatherView { station_name: v.station_name, ..acc0 };
    lemma_opt_fixed(TEMPERATURE_KEY, opt_nat64(v.temperature), 8, c + (d + (e + empty)), acc1);
    let acc2 = WeatherView { temperature: v.temperature, ..acc1 };
    lemma_opt_fixed(RELATIVE_HUMIDITY_KEY, opt_nat32(v.relative_humidity), 4, d + (e + empty), acc2);
    let acc3 = WeatherView { relative_humidity: v.relative_humidity, ..acc2 };
    lemma_opt_fixed(WIND_SPEED_KEY, opt_nat64(v.wind_speed), 8, e + empty, acc3);
    let acc4 = WeatherView { wind_speed: v.wind_speed, ..acc3 };
    lemma_opt_text(WIND_DIRECTION_KEY, v.wind_direction, empty, acc4);
    let acc5 = WeatherView { wind_direction: v.wind_direction, ..acc4 };
    assert(acc5 == v);
}

/// Decoding one frame from the front of any bytes that start with the
/// encoding of `v` gives back `v`, field for field and absence for absence,
/// and the length of that encoding.
pub proof fn lemma_frame_round_trip(v: WeatherView, rest: Seq<u8>)
    requires
        wire_sized(v),
    ensures
        parse_frame(frame_bytes(v) + rest) == Ok::<(WeatherView, nat), FrameError>(
            (v, frame_bytes(v).len()),
        ),
{
    let body = body_bytes(v);
    let b = frame_bytes(v) + rest;
    assert(b =~= varint_bytes(body.len()) + (body + rest));
    lemma_read_varint(body.len(), body + rest);
    let k = varint_bytes(body.len()).len();
    assert(b.subrange(k as int, (k + body.len()) as int) =~= body);
    lemma_body_round_trip(v);
}

/// A frame at the front of a stream is read as its reading, and the rest of
/// the stream is read after it.
pub proof fn lemma_stream_frame(v: WeatherView, rest: Seq<u8>)
    requires
        wire_sized(v),
    ensures
        parse_stream(frame_bytes(v) + rest) == seq![v] + parse_stream(rest),
{
    let b = frame_bytes(v) + rest;
    lemma_frame_round_trip(v, rest);
    lemma_varint_value(body_bytes(v).len());
    assert(b.skip(frame_bytes(v).len() as int) =~= rest);
}

/// Two frames written one after the other read back as the two readings, in
/// that order.
pub proof fn lemma_two_frames(v: WeatherView, w: WeatherView)
    requires
        wire_sized(v),
        wire_sized(w),
    ensures
        parse_stream(frame_bytes(v) + frame_bytes(w)) == seq![v, w],
{
    let empty = Seq::<u8>::empty();
    lemma_stream_frame(v, frame_bytes(w));
    lemma_stream_frame(w, empty);
    assert(frame_bytes(w) + empty =~= frame_bytes(w));
    assert(parse_stream(empty) =~= Seq::<WeatherView>::empty());
    assert(seq![v] + (seq![w] + Seq::<WeatherView>::empty()) =~= seq![v, w]);
}

/// An empty stream holds no readings, and reading it is no error.
pub proof fn lemma_empty_stream()
    ensures
        parse_stream(Seq::empty()) == Seq::<WeatherView>::empty(),
{
}

/// A frame without its last byte is truncated.
pub proof fn lemma_truncated_frame(v: WeatherView)
    requires
        wire_sized(v),
    ensures
        parse_frame(frame_bytes(v).drop_last()) == Err::<(WeatherView, nat), FrameError>(
            FrameError::Truncated,
        ),
{
    let body = body_bytes(v);
    let f = frame_bytes(v);
    lemma_varint_value(body.len());
    if body.len() == 0 {
        assert(f.drop_last() =~= Seq::<u8>::empty());
    } else {
        let t = body.drop_last();
        assert(f.drop_last() =~= varint_bytes(body.len()) + t);
        lemma_read_varint(body.len(), t);
    }
}

/// A field of a number the reading does not know is skipped, and what
/// follows it is read as if it were not there.
pub proof fn lemma_unknown_field_skipped(tag: nat, data: Seq<u8>, rest: Seq<u8>, acc: WeatherView)
    requires
        5 < tag,
        tag * 8 + 2 < 0x1_0000_0000_0000_0000,
        data.len() < 0x1_0000_0000_0000_0000,
    ensures
        parse_fields(unknown_field(tag, data) + rest, acc) == parse_fields(rest, acc),
{
    let key = tag * 8 + 2;
    let l = data.len();
    let f = unknown_field(tag, data);
    let after = varint_bytes(l) + (data + rest);
    assert(f + rest =~= varint_bytes(key) + after);
    lemma_read_varint(key, after);
    let k = varint_bytes(key).len();
    assert((f + rest).skip(k as int) =~= after);
    lemma_read_varint(l, data + rest);
    let m = varint_bytes(l).len();
    assert(key % 8 == 2 && key / 8 == tag) by (nonlinear_arith)
        requires
            key == tag * 8 + 2,
    ;
    assert(payload(2, after) == Some((m, l)));
    lemma_varint_value(key);
    assert(parse_field(f + rest) == Some((FieldView::Unknown, f.len())));
    lemma_fields_step(f, rest, acc, FieldView::Unknown);
}

/// Where the strict read of a stream succeeds, the lenient read gives the
/// same readings.
pub proof fn lemma_strict_agrees(b: Seq<u8>)
    ensures
        parse_stream_strict(b) matches Ok(ws) ==> parse_stream(b) == ws,
    decreases b.len(),
{
    if b.len() > 0 {
        if let Ok((w, n)) = parse_frame(b) {
            if 0 < n <= b.len() {
                lemma_strict_agrees(b.skip(n as int));
            }
        }
    }
}

} // verus!
