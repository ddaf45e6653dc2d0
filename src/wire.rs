//! The protobuf wire format of a reading: what the bytes of a field, a body
//! and a frame are, and how a body and a frame are read back.
use vstd::prelude::*;
use vstd::utf8::*;
use crate::record::{WeatherView, empty_view};
use crate::varint::{varint_bytes, read_varint};

verus! {

/// Key of field 1, station_name: length-delimited.
pub const STATION_NAME_KEY: u8 = 0x0a;
/// Key of field 2, temperature: fixed 64 bits.
pub const TEMPERATURE_KEY: u8 = 0x11;
/// Key of field 3, relative_humidity: fixed 32 bits.
pub const RELATIVE_HUMIDITY_KEY: u8 = 0x1d;
/// Key of field 4, wind_speed: fixed 64 bits.
pub const WIND_SPEED_KEY: u8 = 0x21;
/// Key of field 5, wind_direction: length-delimited.
pub const WIND_DIRECTION_KEY: u8 = 0x2a;

/// Why a frame could not be read.
#[derive(Clone, Copy, Debug, PartialEq, Eq, Structural)]
pub enum FrameError {
    /// Fewer bytes are left than a length prefix declares.
    Truncated,
    /// A field's key, wire type or length is inconsistent.
    Malformed,
}

/// 256 to the power `k`.
pub open spec fn pow256(k: nat) -> nat
    decreases k,
{
    if k == 0 {
        1
    } else {
        256 * pow256((k - 1) as nat)
    }
}

/// The `n` low bytes of `v`, least significant first.
pub open spec fn le_bytes(v: nat, n: nat) -> Seq<u8>
    decreases n,
{
    if n == 0 {
        Seq::empty()
    } else {
        seq![(v % 256) as u8] + le_bytes(v / 256, (n - 1) as nat)
    }
}

/// The number whose little-endian bytes are `b`.
pub open spec fn le_value(b: Seq<u8>) -> nat
    decreases b.len(),
{
    if b.len() == 0 {
        0
    } else {
        b[0] as nat + 256 * le_value(b.drop_first())
    }
}

/// A text field: its key, the length of its UTF-8 bytes, and those bytes.
pub open spec fn text_field(key: u8, s: Seq<char>) -> Seq<u8> {
    seq![key] + varint_bytes(encode_utf8(s).len()) + encode_utf8(s)
}

pub open spec fn opt_text_field(key: u8, o: Option<Seq<char>>) -> Seq<u8> {
    match o {
        Some(s) => text_field(key, s),
        None => Seq::empty(),
    }
}

/// A fixed-width field: its key and `width` little-endian bytes.
pub open spec fn opt_fixed_field(key: u8, o: Option<nat>, width: nat) -> Seq<u8> {
    match o {
        Some(v) => seq![key] + le_bytes(v, width),
        None => Seq::empty(),
    }
}

pub open spec fn opt_nat64(o: Option<u64>) -> Option<nat> {
    match o {
        Some(v) => Some(v as nat),
        None => None,
    }
}

pub open spec fn opt_nat32(o: Option<u32>) -> Option<nat> {
    match o {
        Some(v) => Some(v as nat),
        None => None,
    }
}

/// The body of a reading: each present field in field-number order, absent
/// fields omitted.
pub open spec fn body_bytes(w: WeatherView) -> Seq<u8> {
    opt_text_field(STATION_NAME_KEY, w.station_name) + opt_fixed_field(
        TEMPERATURE_KEY,
        opt_nat64(w.temperature),
        8,
    ) + opt_fixed_field(RELATIVE_HUMIDITY_KEY, opt_nat32(w.relative_humidity), 4)
        + opt_fixed_field(WIND_SPEED_KEY, opt_nat64(w.wind_speed), 8) + opt_text_field(
        WIND_DIRECTION_KEY,
        w.wind_direction,
    )
}

/// A frame: the varint length of the body, then the body.
pub open spec fn frame_bytes(w: WeatherView) -> Seq<u8> {
    varint_bytes(body_bytes(w).len()) + body_bytes(w)
}

/// A reading whose body length fits the 64-bit length prefix; every reading
/// that a machine holds does.
pub open spec fn wire_sized(w: WeatherView) -> bool {
    body_bytes(w).len() < 0x1_0000_0000_0000_0000
}

/// One field read from a body.
pub enum FieldView {
    Name(Seq<char>),
    Temperature(u64),
    Humidity(u32),
    WindSpeed(u64),
    Direction(Seq<char>),
    Unknown,
}

/// Where the payload of a field of wire type `wire` lies in `rest`, the
/// bytes after its key: (offset of its data, length of its data).
pub open spec fn payload(wire: nat, rest: Seq<u8>) -> Option<(nat, nat)> {
    if wire == 0 {
        match read_varint(rest) {
            Some((_, m)) => Some((0, m)),
            None => None,
        }
    } else if wire == 1 {
        if rest.len() >= 8 {
            Some((0, 8))
        } else {
            None
        }
    } else if wire == 2 {
        match read_varint(rest) {
            Some((l, m)) => if m + l <= rest.len() {
                Some((m, l))
            } else {
                None
            },
            None => None,
        }
    } else if wire == 5 {
        if rest.len() >= 4 {
            Some((0, 4))
        } else {
            None
        }
    } else {
        None
    }
}

/// What a field of number `tag` and wire type `wire` with payload `data`
/// means. A known field with another wire type, text that is not UTF-8, and
/// field number 0 are malformed; other field numbers are skipped.
pub open spec fn field_value(tag: nat, wire: nat, data: Seq<u8>) -> Option<FieldView> {
    if tag == 1 {
        if wire == 2 && valid_utf8(data) {
            Some(FieldView::Name(decode_utf8(data)))
        } else {
            None
        }
    } else if tag == 2 {
        if wire == 1 {
            Some(FieldView::Temperature(le_value(data) as u64))
        } else {
            None
        }
    } else if tag == 3 {
        if wire == 5 {
            Some(FieldView::Humidity(le_value(data) as u32))
        } else {
            None
        }
    } else if tag == 4 {
        if wire == 1 {
            Some(FieldView::WindSpeed(le_value(data) as u64))
        } else {
            None
        }
    } else if tag == 5 {
        if wire == 2 && valid_utf8(data) {
            Some(FieldView::Direction(decode_utf8(data)))
        } else {
            None
        }
    } else if tag == 0 {
        None
    } else {
        Some(FieldView::Unknown)
    }
}

/// The field at the front of `b` and the number of bytes it takes.
pub open spec fn parse_field(b: Seq<u8>) -> Option<(FieldView, nat)> {
    match read_varint(b) {
        Some((key, k)) => {
            let rest = b.skip(k as int);
            match payload(key % 8, rest) {
                Some((off, len)) => match field_value(
                    key / 8,
                    key % 8,
                    rest.subrange(off as int, (off + len) as int),
                ) {
                    Some(f) => Some((f, k + off + len)),
                    None => None,
                },
                None => None,
            }
        },
        None => None,
    }
}

/// A reading after one more field is read: a later field replaces an
/// earlier one of the same number.
pub open spec fn apply_field(w: WeatherView, f: FieldView) -> WeatherView {
    match f {
        FieldView::Name(s) => WeatherView { station_name: Some(s), ..w },
        FieldView::Temperature(t) => WeatherView { temperature: Some(t), ..w },
        FieldView::Humidity(h) => WeatherView { relative_humidity: Some(h), ..w },
        FieldView::WindSpeed(s) => WeatherView { wind_speed: Some(s), ..w },
        FieldView::Direction(s) => WeatherView { wind_direction: Some(s), ..w },
        FieldView::Unknown => w,
    }
}

/// The reading that the fields of `b` make when applied in order to `acc`,
/// or `None` where a field is malformed.
pub open spec fn parse_fields(b: Seq<u8>, acc: WeatherView) -> Option<WeatherView>
    decreases b.len(),
{
    if b.len() == 0 {
        Some(acc)
    } else {
        match parse_field(b) {
            Some((f, n)) => if 0 < n <= b.len() {
                parse_fields(b.skip(n as int), apply_field(acc, f))
            } else {
                None
            },
            None => None,
        }
    }
}

/// The reading that a body holds.
pub open spec fn parse_body(b: Seq<u8>) -> Option<WeatherView> {
    parse_fields(b, empty_view())
}

/// The frame at the front of `b`: the reading and the number of bytes the
/// frame takes. A length prefix cut short, or one that declares more bytes
/// than are left, is `Truncated`; an overlong prefix or a bad body is
/// `Malformed`.
pub open spec fn parse_frame(b: Seq<u8>) -> Result<(WeatherView, nat), FrameError> {
    match read_varint(b) {
        None => if b.len() < 10 {
            Err(FrameError::Truncated)
        } else {
            Err(FrameError::Malformed)
        },
        Some((l, k)) => if k + l > b.len() {
            Err(FrameError::Truncated)
        } else {
            match parse_body(b.subrange(k as int, (k + l) as int)) {
                Some(w) => Ok((w, k + l)),
                None => Err(FrameError::Malformed),
            }
        },
    }
}

/// The readings of the consecutive frames at the front of `b`, up to the end
/// or to the first frame that cannot be read.
pub open spec fn parse_stream(b: Seq<u8>) -> Seq<WeatherView>
    decreases b.len(),
{
    if b.len() == 0 {
        Seq::empty()
    } else {
        match parse_frame(b) {
            Ok((w, n)) => if 0 < n <= b.len() {
                seq![w] + parse_stream(b.skip(n as int))
            } else {
                Seq::empty()
            },
            Err(_) => Seq::empty(),
        }
    }
}

/// The readings of all the frames of `b`, or the error of the first frame
/// that cannot be read.
pub open spec fn parse_stream_strict(b: Seq<u8>) -> Result<Seq<WeatherView>, FrameError>
    decreases b.len(),
{
    if b.len() == 0 {
        Ok(Seq::empty())
    } else {
        match parse_frame(b) {
            Ok((w, n)) => if 0 < n <= b.len() {
                match parse_stream_strict(b.skip(n as int)) {
                    Ok(ws) => Ok(seq![w] + ws),
                    Err(e) => Err(e),
                }
            } else {
                Err(FrameError::Malformed)
            },
            Err(e) => Err(e),
        }
    }
}

} // verus!
