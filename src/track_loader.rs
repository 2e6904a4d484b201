use vstd::prelude::*;
use vstd::arithmetic::div_mod::lemma_fundamental_div_mod_converse;

verus! {

/// Reads a track from a file of samples: the track is named by its index among the
/// wave container's tracks.
pub struct TrackFileLoader {
    pub linked_track: usize,
}

impl TrackFileLoader {
    pub fn new(linked_track: usize) -> (r: TrackFileLoader)
        ensures
            r.linked_track == linked_track,
    {
        TrackFileLoader { linked_track }
    }
}

/// The sensors a track can be fed from.
#[derive(Clone, Copy, Debug, PartialEq, Eq, Structural)]
pub enum Sensor {
    Simulator,
    Absent,
}

/// Feeds a track, named by its index, from a sensor.
pub struct TrackSensorReader {
    pub linked_track: usize,
    pub sensor: Sensor,
}

impl TrackSensorReader {
    pub fn new(linked_track: usize, sensor: Sensor) -> (r: TrackSensorReader)
        ensures
            r.linked_track == linked_track,
            r.sensor == sensor,
    {
        TrackSensorReader { linked_track, sensor }
    }
}

/// Byte `k` of the two's complement form of `v`, the least significant first.
pub open spec fn le_byte(v: i32, k: int) -> u8 {
    let u = v as u32;
    if k == 0 {
        (u & 0xff) as u8
    } else if k == 1 {
        ((u >> 8u32) & 0xff) as u8
    } else if k == 2 {
        ((u >> 16u32) & 0xff) as u8
    } else {
        ((u >> 24u32) & 0xff) as u8
    }
}

/// The sample whose two's complement form is the four bytes, the least significant
/// first.
pub open spec fn le_value(b0: u8, b1: u8, b2: u8, b3: u8) -> i32 {
    ((b0 as u32) | ((b1 as u32) << 8u32) | ((b2 as u32) << 16u32) | ((b3 as u32) << 24u32)) as i32
}

/// A track as stored in a file: four bytes per sample, the least significant first.
pub open spec fn encoded(track: Seq<i32>) -> Seq<u8> {
    Seq::new(4 * track.len(), |i: int| le_byte(track[i / 4], i % 4))
}

/// The samples of a file: one for each whole group of four bytes; bytes left over at
/// the end are not a sample.
pub open spec fn decoded(bytes: Seq<u8>) -> Seq<i32> {
    Seq::new(
        bytes.len() / 4,
        |i: int| le_value(bytes[4 * i], bytes[4 * i + 1], bytes[4 * i + 2], bytes[4 * i + 3]),
    )
}

proof fn lemma_byte_round_trip(v: i32)
    ensures
        le_value(le_byte(v, 0), le_byte(v, 1), le_byte(v, 2), le_byte(v, 3)) == v,
{
    let u = v as u32;
    assert(((((u & 0xff) as u8) as u32) | (((((u >> 8u32) & 0xff) as u8) as u32) << 8u32) | (
    ((((u >> 16u32) & 0xff) as u8) as u32) << 16u32) | (((((u >> 24u32) & 0xff) as u8) as u32)
        << 24u32)) == u) by (bit_vector);
    assert((v as u32) as i32 == v) by (bit_vector);
}

proof fn lemma_quad(i: int, k: int)
    requires
        0 <= i,
        0 <= k < 4,
    ensures
        (4 * i + k) / 4 == i,
        (4 * i + k) % 4 == k,
{
    lemma_fundamental_div_mod_converse(4 * i + k, 4, i, k);
}

/// A track read back from the bytes it was stored as is the track itself.
pub proof fn lemma_track_round_trip(track: Seq<i32>)
    ensures
        decoded(encoded(track)) == track,
{
    let b = encoded(track);
    assert((4 * track.len()) / 4 == track.len()) by {
        lemma_quad(track.len() as int, 0);
    }
    assert forall|i: int| 0 <= i < track.len() implies #[trigger] decoded(b)[i] == track[i] by {
        lemma_quad(i, 0);
        lemma_quad(i, 1);
        lemma_quad(i, 2);
        lemma_quad(i, 3);
        assert(4 * i + 3 < 4 * track.len()) by (nonlinear_arith)
            requires
                i < track.len(),
        ;
        lemma_byte_round_trip(track[i]);
    }
    assert(decoded(b) =~= track);
}

/// The bytes a track is stored as.
pub fn track_to_bytes(track: &Vec<i32>) -> (r: Vec<u8>)
    requires
        track@.len() <= usize::MAX / 4,
    ensures
        r@ == encoded(track@),
{
    let mut r: Vec<u8> = Vec::new();
    let mut i: usize = 0;
    while i < track.len()
        invariant
            i <= track@.len() <= usize::MAX / 4,
            r@.len() == 4 * i,
            forall|j: int| 0 <= j < 4 * i ==> r@[j] == le_byte(track@[j / 4], j % 4),
        decreases track@.len() - i,
    {
        let u = track[i] as u32;
        r.push((u & 0xff) as u8);
        r.push(((u >> 8u32) & 0xff) as u8);
        r.push(((u >> 16u32) & 0xff) as u8);
        r.push(((u >> 24u32) & 0xff) as u8);
        proof {
            lemma_quad(i as int, 0);
            lemma_quad(i as int, 1);
            lemma_quad(i as int, 2);
            lemma_quad(i as int, 3);
        }
        i += 1;
    }
    assert(r@ =~= encoded(track@));
    r
}

/// The samples stored in `bytes`.
pub fn track_from_bytes(bytes: &Vec<u8>) -> (r: Vec<i32>)
    ensures
        r@ == decoded(bytes@),
{
    let len = bytes.len();
    let n = len / 4;
    let mut r: Vec<i32> = Vec::new();
    let mut i: usize = 0;
    while i < n
        invariant
            i <= n,
            len == bytes@.len(),
            n == bytes@.len() / 4,
            r@ == decoded(bytes@).take(i as int),
        decreases n - i,
    {
        assert(4 * i + 3 < bytes@.len()) by (nonlinear_arith)
            requires
                i < n,
                n == bytes@.len() / 4,
        ;
        let k = 4 * i;
        let u = (bytes[k] as u32) | ((bytes[k + 1] as u32) << 8u32) | ((bytes[k + 2] as u32)
            << 16u32) | ((bytes[k + 3] as u32) << 24u32);
        r.push(#[verifier::truncate] (u as i32));
        i += 1;
        assert(r@ =~= decoded(bytes@).take(i as int));
    }
    assert(r@ =~= decoded(bytes@));
    r
}

/// The sample a periodic wave of one period `period` gives at `time`.
pub fn wave_value_at(period: &Vec<i32>, time: usize) -> (r: i32)
    requires
        period@.len() > 0,
    ensures
        r == period@[(time as int) % (period@.len() as int)],
{
    period[time % period.len()]
}

/// Writes `value` at position `time` of `track`, which must hold that position.
pub fn push_value_to_track(track: &mut Vec<i32>, time: usize, value: i32)
    requires
        time < old(track)@.len(),
    ensures
        final(track)@ == old(track)@.update(time as int, value),
{
    track[time] = value;
}

/// The kinds of loader a track can have.
#[derive(Clone, Copy, Debug, PartialEq, Eq, Structural)]
pub enum LoaderKind {
    FileLoader,
    SensorReader,
    WaveGenerator,
    Unset,
}

/// The kind of loader a name asks for: "file_loader" or "wave_generator"; any other
/// name leaves the track without a loader.
pub fn loader_kind(loader_type: &str) -> (r: LoaderKind)
    ensures
        r == if loader_type@ == "file_loader"@ {
            LoaderKind::FileLoader
        } else if loader_type@ == "wave_generator"@ {
            LoaderKind::WaveGenerator
        } else {
            LoaderKind::Unset
        },
{
    let name = loader_type.to_owned();
    if name == "file_loader".to_owned() {
        LoaderKind::FileLoader
    } else if name == "wave_generator".to_owned() {
        LoaderKind::WaveGenerator
    } else {
        LoaderKind::Unset
    }
}

} // verus!
