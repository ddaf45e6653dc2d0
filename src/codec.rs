//! Encoding a reading into a frame and reading frames back.
use vstd::prelude::*;
use vstd::slice::{slice_subrange, slice_to_vec};
use vstd::utf8::*;
use crate::record::{WeatherData, WeatherView};
use crate::varint::{put_varint, take_varint, read_varint, lemma_read_varint_len};
use crate::wire::{
    FrameError, STATION_NAME_KEY, TEMPERATURE_KEY, RELATIVE_HUMIDITY_KEY, WIND_SPEED_KEY,
    WIND_DIRECTION_KEY, le_bytes, le_value, pow256, text_field, opt_text_field, opt_fixed_field,
    opt_nat64, opt_nat32, body_bytes, frame_bytes, wire_sized, payload, parse_field,
    apply_field, parse_fields, parse_body, parse_frame, parse_stream, parse_stream_strict,
};

verus! {

broadcast use {encode_utf8_valid_utf8, encode_utf8_decode_utf8};

/// Appends the `width` low bytes of `v`, least significant first.
fn put_le(buf: &mut Vec<u8>, v: u64, width: usize)
    ensures
        final(buf)@ == old(buf)@ + le_bytes(v as nat, width as nat),
{
    let mut cur: u64 = v;
    let mut i: usize = 0;
    while i < width
        invariant
            i <= width,
            buf@ + le_bytes(cur as nat, (width - i) as nat) == old(buf)@ + le_bytes(
                v as nat,
                width as nat,
            ),
        decreases width - i,
    {
        let ghost before = buf@;
        buf.push((cur % 256) as u8);
        proof {
            let n = (width - i) as nat;
            assert(le_bytes(cur as nat, n) == seq![(cur % 256) as u8] + le_bytes(
                (cur / 256) as nat,
                (n - 1) as nat,
            ));
            assert(buf@ + le_bytes((cur / 256) as nat, (n - 1) as nat) =~= before + le_bytes(
                cur as nat,
                n,
            ));
        }
        cur = cur / 256;
        i = i + 1;
    }
    assert(le_bytes(cur as nat, 0) =~= Seq::<u8>::empty());
    assert(buf@ =~= buf@ + le_bytes(cur as nat, 0));
}

/// Appends a text field.
fn put_text_field(buf: &mut Vec<u8>, key: u8, s: &String)
    ensures
        final(buf)@ == old(buf)@ + text_field(key, s@),
{
    buf.push(key);
    let bytes = s.as_str().as_bytes();
    put_varint(buf, bytes.len() as u64);
    let mut copy = slice_to_vec(bytes);
    buf.append(&mut copy);
    assert(buf@ =~= old(buf)@ + text_field(key, s@));
}

/// Appends a fixed-width field.
fn put_fixed_field(buf: &mut Vec<u8>, key: u8, v: u64, width: usize)
    ensures
        final(buf)@ == old(buf)@ + (seq![key] + le_bytes(v as nat, width as nat)),
{
    buf.push(key);
    put_le(buf, v, width);
    assert(buf@ =~= old(buf)@ + (seq![key] + le_bytes(v as nat, width as nat)));
}

/// The body of a reading: each present field in field-number order.
pub fn encode_body(w: &WeatherData) -> (r: Vec<u8>)
    ensures
        r@ == body_bytes(w@),
{
    let mut buf: Vec<u8> = Vec::new();
    if let Some(s) = &w.station_name {
        put_text_field(&mut buf, STATION_NAME_KEY, s);
    }
    assert(buf@ =~= opt_text_field(STATION_NAME_KEY, w@.station_name));
    let ghost a = buf@;
    if let Some(t) = w.temperature {
        put_fixed_field(&mut buf, TEMPERATURE_KEY, t, 8);
    }
    assert(buf@ =~= a + opt_fixed_field(TEMPERATURE_KEY, opt_nat64(w@.temperature), 8));
    let ghost b = buf@;
    if let Some(h) = w.relative_humidity {
        put_fixed_field(&mut buf, RELATIVE_HUMIDITY_KEY, h as u64, 4);
    }
    assert(buf@ =~= b + opt_fixed_field(
        RELATIVE_HUMIDITY_KEY,
        opt_nat32(w@.relative_humidity),
        4,
    ));
    let ghost c = buf@;
    if let Some(s) = w.wind_speed {
        put_fixed_field(&mut buf, WIND_SPEED_KEY, s, 8);
    }
    assert(buf@ =~= c + opt_fixed_field(WIND_SPEED_KEY, opt_nat64(w@.wind_speed), 8));
    let ghost d = buf@;
    if let Some(s) = &w.wind_direction {
        put_text_field(&mut buf, WIND_DIRECTION_KEY, s);
    }
    assert(buf@ =~= d + opt_text_field(WIND_DIRECTION_KEY, w@.wind_direction));
    buf
}

/// Encodes a reading as one frame: the varint length of its body, then the
/// body. Never fails.
pub fn serialize_weather_msg(weather_msg: WeatherData) -> (r: Vec<u8>)
    ensures
        r@ == frame_bytes(weather_msg@),
        wire_sized(weather_msg@),
{
    let mut body = encode_body(&weather_msg);
    let mut buf: Vec<u8> = Vec::new();
    put_varint(&mut buf, body.len() as u64);
    buf.append(&mut body);
    buf
}


proof fn lemma_pow256_mono(a: nat, b: nat)
    requires
        a <= b,
    ensures
        pow256(a) <= pow256(b),
    decreases b,
{
    if a < b {
        lemma_pow256_mono(a, (b - 1) as nat);
    }
}

/// Reads the `width` bytes at `start` as a little-endian number.
fn read_le(b: &[u8], start: usize, width: usize) -> (r: u64)
    requires
        start + width <= b@.len(),
        width <= 8,
    ensures
        r as nat == le_value(b@.subrange(start as int, start + width)),
{
    let blen = b.len();
    let mut acc: u64 = 0;
    let mut i: usize = width;
    proof {
        assert(b@.subrange(start + width, start + width) =~= Seq::<u8>::empty());
        reveal_with_fuel(pow256, 9);
        lemma_pow256_mono(width as nat, 8);
    }
    while i > 0
        invariant
            i <= width <= 8,
            start + width <= blen,
            blen == b@.len(),
            pow256(width as nat) <= 0x1_0000_0000_0000_0000,
            acc as nat == le_value(b@.subrange(start + i, start + width)),
            acc < pow256((width - i) as nat),
        decreases i,
    {
        let byte = b[start + i - 1];
        proof {
            let j = start + i - 1;
            let s = b@.subrange(j, start + width);
            assert(s.drop_first() =~= b@.subrange(start + i, start + width));
            assert(s[0] == byte);
            assert(pow256((width - i + 1) as nat) == 256 * pow256((width - i) as nat));
            lemma_pow256_mono((width - i + 1) as nat, width as nat);
            assert(acc * 256 + byte < 256 * pow256((width - i) as nat)) by (nonlinear_arith)
                requires
                    acc < pow256((width - i) as nat),
                    byte < 256,
            ;
        }
        acc = acc * 256 + byte as u64;
        i = i - 1;
    }
    acc
}

/// Relies on String::from_utf8: it succeeds exactly on valid UTF-8, and then
/// the string holds the characters those bytes encode.
#[verifier::external_body]
fn text_from_utf8(bytes: Vec<u8>) -> (r: Option<String>)
    ensures
        r is Some <==> valid_utf8(bytes@),
        r matches Some(s) ==> s@ == decode_utf8(bytes@),
{
    String::from_utf8(bytes).ok()
}

/// Reads the field that starts at `pos` into `w`; returns where the next
/// field starts, or `None` where the field is malformed.
fn read_field(b: &[u8], pos: usize, w: &mut WeatherData) -> (r: Option<usize>)
    requires
        pos < b@.len(),
    ensures
        match parse_field(b@.skip(pos as int)) {
            Some((f, n)) => r == Some((pos + n) as usize) && final(w)@ == apply_field(old(w)@, f),
            None => r is None,
        },
{
    let ghost bs = b@.skip(pos as int);
    let rest = slice_subrange(b, pos, b.len());
    assert(rest@ =~= bs);
    let (key, left) = match take_varint(rest) {
        Ok(x) => x,
        Err(_) => return None,
    };
    let k = rest.len() - left;
    let tag = key / 8;
    let wire = key % 8;
    let start = pos + k;
    let ghost after = bs.skip(k as int);
    assert(after =~= b@.subrange(start as int, b@.len() as int));
    let tail = slice_subrange(b, start, b.len());
    let avail = b.len() - start;
    // (offset of the data after the key, length of the data)
    let (off, len): (usize, usize) = if wire == 0 {
        match take_varint(tail) {
            Ok((_, l2)) => (0, avail - l2),
            Err(_) => return None,
        }
    } else if wire == 1 {
        if avail >= 8 {
            (0, 8)
        } else {
            return None;
        }
    } else if wire == 2 {
        match take_varint(tail) {
            Ok((l, l2)) => {
                let m = avail - l2;
                if l <= l2 as u64 {
                    (m, l as usize)
                } else {
                    return None;
                }
            },
            Err(_) => return None,
        }
    } else if wire == 5 {
        if avail >= 4 {
            (0, 4)
        } else {
            return None;
        }
    } else {
        return None;
    };
    assert(payload(key as nat % 8, after) == Some((off as nat, len as nat)));
    let dstart = start + off;
    let ghost data = after.subrange(off as int, off + len);
    assert(data =~= b@.subrange(dstart as int, dstart + len));
    if tag == 1 || tag == 5 {
        if wire != 2 {
            return None;
        }
        let text = match text_from_utf8(slice_to_vec(slice_subrange(b, dstart, dstart + len))) {
            Some(t) => t,
            None => return None,
        };
        if tag == 1 {
            w.station_name = Some(text);
        } else {
            w.wind_direction = Some(text);
        }
    } else if tag == 2 || tag == 4 {
        if wire != 1 {
            return None;
        }
        let v = read_le(b, dstart, 8);
        if tag == 2 {
            w.temperature = Some(v);
        } else {
            w.wind_speed = Some(v);
        }
    } else if tag == 3 {
        if wire != 5 {
            return None;
        }
        let v = read_le(b, dstart, 4);
        proof {
            reveal_with_fuel(pow256, 5);
            lemma_le_bound(data);
        }
        w.relative_humidity = Some(v as u32);
    } else if tag == 0 {
        return None;
    }
    Some(start + off + len)
}

/// A little-endian number is below 256 to the power of its length.
proof fn lemma_le_bound(b: Seq<u8>)
    ensures
        le_value(b) < pow256(b.len()),
    decreases b.len(),
{
    if b.len() > 0 {
        lemma_le_bound(b.drop_first());
        assert(pow256(b.len()) == 256 * pow256((b.len() - 1) as nat));
    }
}

/// A field that is read takes at least one byte and no more than are there.
proof fn lemma_parse_field_len(b: Seq<u8>)
    ensures
        parse_field(b) matches Some((_, n)) ==> 0 < n <= b.len(),
{
    lemma_read_varint_len(b);
    if let Some((key, k)) = read_varint(b) {
        let rest = b.skip(k as int);
        lemma_read_varint_len(rest);
    }
}

/// A frame that is read takes at least one byte and no more than are there.
proof fn lemma_parse_frame_len(b: Seq<u8>)
    ensures
        parse_frame(b) matches Ok((_, n)) ==> 0 < n <= b.len(),
{
    lemma_read_varint_len(b);
}

/// The reading that a whole body holds, or `None` where a field is malformed.
pub fn decode_body(b: &[u8]) -> (r: Option<WeatherData>)
    ensures
        match parse_body(b@) {
            Some(v) => r matches Some(w) && w@ == v,
            None => r is None,
        },
{
    let mut w = WeatherData::empty();
    let mut pos: usize = 0;
    assert(b@.skip(0) =~= b@);
    while pos < b.len()
        invariant
            pos <= b@.len(),
            parse_body(b@) == parse_fields(b@.skip(pos as int), w@),
        decreases b@.len() - pos,
    {
        let ghost before = w@;
        let ghost s = b@.skip(pos as int);
        proof {
            lemma_parse_field_len(s);
        }
        match read_field(b, pos, &mut w) {
            Some(next) => {
                proof {
                    assert(s.skip((next - pos) as int) =~= b@.skip(next as int));
                }
                pos = next;
            },
            None => return None,
        }
    }
    assert(b@.skip(pos as int).len() == 0);
    Some(w)
}

/// Reads the frame that starts at `pos`: the reading and the position just
/// after the frame.
pub fn decode_one(buf: &[u8], pos: usize) -> (r: Result<(WeatherData, usize), FrameError>)
    requires
        pos <= buf@.len(),
    ensures
        match parse_frame(buf@.skip(pos as int)) {
            Ok((v, n)) => r matches Ok((w, next)) && w@ == v && next == pos + n,
            Err(e) => r == Err::<(WeatherData, usize), FrameError>(e),
        },
{
    let ghost bs = buf@.skip(pos as int);
    let rest = slice_subrange(buf, pos, buf.len());
    assert(rest@ =~= bs);
    let (len, left) = match take_varint(rest) {
        Ok(x) => x,
        Err(_) => {
            if rest.len() < 10 {
                return Err(FrameError::Truncated);
            } else {
                return Err(FrameError::Malformed);
            }
        },
    };
    let k = rest.len() - left;
    if len > left as u64 {
        return Err(FrameError::Truncated);
    }
    let start = pos + k;
    let end = start + len as usize;
    let body = slice_subrange(buf, start, end);
    assert(body@ =~= bs.subrange(k as int, k + len));
    match decode_body(body) {
        Some(w) => Ok((w, end)),
        None => Err(FrameError::Malformed),
    }
}

/// Reads one frame that fills the front of `buf`, as a datagram carries it.
pub fn deserialize_weather_msg(buf: &[u8]) -> (r: Result<WeatherData, FrameError>)
    ensures
        match parse_frame(buf@) {
            Ok((v, _)) => r matches Ok(w) && w@ == v,
            Err(e) => r == Err::<WeatherData, FrameError>(e),
        },
{
    assert(buf@.skip(0) =~= buf@);
    match decode_one(buf, 0) {
        Ok((w, _)) => Ok(w),
        Err(e) => Err(e),
    }
}

/// The views of a sequence of readings.
pub open spec fn views(v: Seq<WeatherData>) -> Seq<WeatherView> {
    v.map_values(|w: WeatherData| w@)
}

/// Reads consecutive frames from the start of `buf` until it is used up or
/// a frame cannot be read; what follows a bad frame is dropped.
pub fn decode_all(buf: &[u8]) -> (r: Vec<WeatherData>)
    ensures
        views(r@) == parse_stream(buf@),
{
    let mut out: Vec<WeatherData> = Vec::new();
    let mut pos: usize = 0;
    assert(buf@.skip(0) =~= buf@);
    assert(views(out@) =~= Seq::<WeatherView>::empty());
    while pos < buf.len()
        invariant
            pos <= buf@.len(),
            parse_stream(buf@) == views(out@) + parse_stream(buf@.skip(pos as int)),
        decreases buf@.len() - pos,
    {
        let ghost s = buf@.skip(pos as int);
        proof {
            lemma_parse_frame_len(s);
        }
        match decode_one(buf, pos) {
            Ok((w, next)) => {
                proof {
                    assert(s.skip((next - pos) as int) =~= buf@.skip(next as int));
                    assert(views(out@.push(w)) =~= views(out@).push(w@));
                    assert(views(out@) + parse_stream(s) =~= views(out@).push(w@)
                        + parse_stream(buf@.skip(next as int)));
                }
                out.push(w);
                pos = next;
            },
            Err(_) => {
                assert(parse_stream(s) =~= Seq::<WeatherView>::empty());
                assert(views(out@) + parse_stream(s) =~= views(out@));
                return out;
            },
        }
    }
    assert(views(out@) + parse_stream(buf@.skip(pos as int)) =~= views(out@));
    out
}

/// Reads consecutive frames from the start of `buf` until it is used up;
/// the first frame that cannot be read fails the whole read with its error.
pub fn decode_all_strict(buf: &[u8]) -> (r: Result<Vec<WeatherData>, FrameError>)
    ensures
        match parse_stream_strict(buf@) {
            Ok(ws) => r matches Ok(out) && views(out@) == ws,
            Err(e) => r matches Err(e2) && e2 == e,
        },
{
    let mut out: Vec<WeatherData> = Vec::new();
    let mut pos: usize = 0;
    assert(buf@.skip(0) =~= buf@);
    assert(views(out@) =~= Seq::<WeatherView>::empty());
    while pos < buf.len()
        invariant
            pos <= buf@.len(),
            parse_stream_strict(buf@) == match parse_stream_strict(buf@.skip(pos as int)) {
                Ok(ws) => Ok(views(out@) + ws),
                Err(e) => Err::<Seq<WeatherView>, FrameError>(e),
            },
        decreases buf@.len() - pos,
    {
        let ghost s = buf@.skip(pos as int);
        proof {
            lemma_parse_frame_len(s);
        }
        match decode_one(buf, pos) {
            Ok((w, next)) => {
                proof {
                    assert(s.skip((next - pos) as int) =~= buf@.skip(next as int));
                    assert(views(out@.push(w)) =~= views(out@).push(w@));
                    if let Ok(ws) = parse_stream_strict(buf@.skip(next as int)) {
                        assert(views(out@) + (seq![w@] + ws) =~= views(out@).push(w@) + ws);
                    }
                }
                out.push(w);
                pos = next;
            },
            Err(e) => {
                return Err(e);
            },
        }
    }
    assert(views(out@) + Seq::<WeatherView>::empty() =~= views(out@));
    Ok(out)
}

} // verus!
