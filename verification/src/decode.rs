//! Decoding a JSON tree into a frame map: the document must be an object
//! whose "frames" field maps each frame name to an object whose "frame"
//! field holds integer fields x, y, w and h; anything else is malformed.
//! Unknown fields at any level are ignored.

use vstd::prelude::*;

use crate::frame_map::bytes_eq;
use crate::frame_map::collapse;
use crate::frame_map::copy_bytes;
use crate::frame_map::entries_view;
use crate::frame_map::AsepriteData;
use crate::frame_map::Frame;
use crate::frame_map::MalformedDocument;
use crate::json::json_from_slice;
use crate::json::json_of;
use crate::json::Json;

verus! {

/// The bytes of the key "frames".
pub open spec fn key_frames() -> Seq<u8> {
    seq![102u8, 114u8, 97u8, 109u8, 101u8, 115u8]
}

/// The bytes of the key "frame".
pub open spec fn key_frame() -> Seq<u8> {
    seq![102u8, 114u8, 97u8, 109u8, 101u8]
}

/// The bytes of the key "x".
pub open spec fn key_x() -> Seq<u8> {
    seq![120u8]
}

/// The bytes of the key "y".
pub open spec fn key_y() -> Seq<u8> {
    seq![121u8]
}

/// The bytes of the key "w".
pub open spec fn key_w() -> Seq<u8> {
    seq![119u8]
}

/// The bytes of the key "h".
pub open spec fn key_h() -> Seq<u8> {
    seq![104u8]
}

/// The value of the first field of the given name among an object's fields.
pub open spec fn obj_get(fields: Seq<(Vec<u8>, Json)>, key: Seq<u8>) -> Option<Json>
    decreases fields.len(),
{
    if fields.len() == 0 {
        None
    } else if fields[0].0@ == key {
        Some(fields[0].1)
    } else {
        obj_get(fields.drop_first(), key)
    }
}

/// The integer a JSON value holds, if it is one.
pub open spec fn spec_num(j: Json) -> Option<u64> {
    match j {
        Json::Num(n) => n,
        _ => None,
    }
}

/// The integer under the given key among an object's fields, if any.
pub open spec fn num_field(fields: Seq<(Vec<u8>, Json)>, key: Seq<u8>) -> Option<u64> {
    match obj_get(fields, key) {
        Some(j) => spec_num(j),
        None => None,
    }
}

/// The frame a "frame" object denotes: an object with integer fields
/// x, y, w and h. Any other value denotes no frame.
pub open spec fn spec_frame(j: Json) -> Option<Frame> {
    match j {
        Json::Obj(fields) => match (
            num_field(fields@, key_x()),
            num_field(fields@, key_y()),
            num_field(fields@, key_w()),
            num_field(fields@, key_h()),
        ) {
            (Some(x), Some(y), Some(w), Some(h)) => Some(Frame { x, y, w, h }),
            _ => None,
        },
        _ => None,
    }
}

/// The frame a named entry denotes: an object whose "frame" field denotes a
/// frame. Any other value denotes no frame.
pub open spec fn spec_entry_frame(j: Json) -> Option<Frame> {
    match j {
        Json::Obj(fields) => match obj_get(fields@, key_frame()) {
            Some(f) => spec_frame(f),
            None => None,
        },
        _ => None,
    }
}

/// The fields of the document's "frames" object, if the document is an
/// object whose "frames" field is an object.
pub open spec fn frames_fields(j: Json) -> Option<Seq<(Vec<u8>, Json)>> {
    match j {
        Json::Obj(fields) => match obj_get(fields@, key_frames()) {
            Some(Json::Obj(entries)) => Some(entries@),
            _ => None,
        },
        _ => None,
    }
}

/// Whether a JSON tree has the expected document shape: an object whose
/// "frames" field is an object, every entry of which denotes a frame.
pub open spec fn doc_ok(j: Json) -> bool {
    match frames_fields(j) {
        Some(entries) => forall|i: int|
            0 <= i < entries.len() ==> spec_entry_frame(#[trigger] entries[i].1) is Some,
        None => false,
    }
}

/// The named frames of the "frames" object, in the order its fields stand.
pub open spec fn doc_entries(entries: Seq<(Vec<u8>, Json)>) -> Seq<(Seq<u8>, Frame)> {
    entries.map_values(|e: (Vec<u8>, Json)| (e.0@, spec_entry_frame(e.1).unwrap()))
}

/// The frame map a well-shaped document denotes: its named frames collapsed
/// so that a repeated name keeps only its last frame.
pub open spec fn doc_map(j: Json) -> Seq<(Seq<u8>, Frame)> {
    collapse(doc_entries(frames_fields(j).unwrap()))
}

fn key_frames_vec() -> (r: Vec<u8>)
    ensures
        r@ == key_frames(),
{
    let mut v: Vec<u8> = Vec::new();
    v.push(102);
    v.push(114);
    v.push(97);
    v.push(109);
    v.push(101);
    v.push(115);
    proof {
        assert(v@ =~= key_frames());
    }
    v
}

fn key_frame_vec() -> (r: Vec<u8>)
    ensures
        r@ == key_frame(),
{
    let mut v: Vec<u8> = Vec::new();
    v.push(102);
    v.push(114);
    v.push(97);
    v.push(109);
    v.push(101);
    proof {
        assert(v@ =~= key_frame());
    }
    v
}

fn key_byte_vec(b: u8) -> (r: Vec<u8>)
    ensures
        r@ == seq![b],
{
    let mut v: Vec<u8> = Vec::new();
    v.push(b);
    proof {
        assert(v@ =~= seq![b]);
    }
    v
}

/// Looks up the first field of the given name among an object's fields.
fn get_field<'a>(fields: &'a Vec<(Vec<u8>, Json)>, key: &Vec<u8>) -> (r: Option<&'a Json>)
    ensures
        match r {
            Some(v) => obj_get(fields@, key@) == Some(*v),
            None => obj_get(fields@, key@) is None,
        },
{
    let mut i: usize = 0;
    proof {
        assert(fields@.skip(0) =~= fields@);
    }
    while i < fields.len()
        invariant
            0 <= i <= fields@.len(),
            obj_get(fields@, key@) == obj_get(fields@.skip(i as int), key@),
        decreases fields@.len() - i,
    {
        proof {
            assert(fields@.skip(i as int)[0] == fields@[i as int]);
            assert(fields@.skip(i as int).drop_first() =~= fields@.skip(i as int + 1));
        }
        if bytes_eq(&fields[i].0, key) {
            return Some(&fields[i].1);
        }
        i = i + 1;
    }
    None
}

/// Reads the integer under the given key among an object's fields.
fn num_field_exec(fields: &Vec<(Vec<u8>, Json)>, key: &Vec<u8>) -> (r: Option<u64>)
    ensures
        r == num_field(fields@, key@),
{
    match get_field(fields, key) {
        Some(j) => match j {
            Json::Num(n) => *n,
            _ => None,
        },
        None => None,
    }
}

/// Reads the frame a "frame" object denotes.
fn frame_of_json(j: &Json) -> (r: Option<Frame>)
    ensures
        r == spec_frame(*j),
{
    match j {
        Json::Obj(fields) => {
            let x = num_field_exec(fields, &key_byte_vec(120));
            let y = num_field_exec(fields, &key_byte_vec(121));
            let w = num_field_exec(fields, &key_byte_vec(119));
            let h = num_field_exec(fields, &key_byte_vec(104));
            match (x, y, w, h) {
                (Some(x), Some(y), Some(w), Some(h)) => Some(Frame { x, y, w, h }),
                _ => None,
            }
        },
        _ => None,
    }
}

/// Reads the frame a named entry denotes.
fn entry_frame(j: &Json) -> (r: Option<Frame>)
    ensures
        r == spec_entry_frame(*j),
{
    match j {
        Json::Obj(fields) => {
            let key = key_frame_vec();
            match get_field(fields, &key) {
                Some(f) => frame_of_json(f),
                None => None,
            }
        },
        _ => None,
    }
}

impl AsepriteData {
    /// Builds the frame map a JSON tree denotes: succeeds exactly on trees
    /// of the expected document shape, and then holds exactly the frames of
    /// the "frames" object, a repeated name keeping only its last frame.
    pub fn decode(j: &Json) -> (r: Result<AsepriteData, MalformedDocument>)
        ensures
            r is Ok <==> doc_ok(*j),
            doc_ok(*j) ==> (r matches Ok(m) && m@ == doc_map(*j) && m.wf()),
    {
        let entries: &Vec<(Vec<u8>, Json)> = match j {
            Json::Obj(fields) => {
                let key = key_frames_vec();
                match get_field(fields, &key) {
                    Some(f) => match f {
                        Json::Obj(entries) => entries,
                        _ => {
                            return Err(MalformedDocument);
                        },
                    },
                    None => {
                        return Err(MalformedDocument);
                    },
                }
            },
            _ => {
                return Err(MalformedDocument);
            },
        };
        let ghost es = entries@;
        proof {
            assert(frames_fields(*j) == Some(es));
        }
        let mut raw: Vec<(Vec<u8>, Frame)> = Vec::new();
        let mut i: usize = 0;
        while i < entries.len()
            invariant
                frames_fields(*j) == Some(es),
                es == entries@,
                0 <= i <= es.len(),
                forall|k: int| 0 <= k < i ==> spec_entry_frame(#[trigger] es[k].1) is Some,
                entries_view(raw@) =~= doc_entries(es.take(i as int)),
            decreases es.len() - i,
        {
            let name = copy_bytes(&entries[i].0);
            match entry_frame(&entries[i].1) {
                Some(f) => {
                    let ghost nm = name@;
                    let ghost raw_before = raw@;
                    raw.push((name, f));
                    proof {
                        assert(entries_view(raw@) =~= entries_view(raw_before).push((nm, f)));
                        assert(spec_entry_frame(es[i as int].1) == Some(f));
                        assert(es.take(i as int + 1)[i as int] == es[i as int]);
                        assert(doc_entries(es.take(i as int + 1))[i as int] == (
                            es[i as int].0@,
                            f,
                        ));
                        assert(entries_view(raw@)[i as int] == (nm, f));
                        assert(entries_view(raw@) =~= doc_entries(es.take(i as int + 1)));
                    }
                },
                None => {
                    proof {
                        assert(spec_entry_frame(es[i as int].1) is None);
                    }
                    return Err(MalformedDocument);
                },
            }
            i = i + 1;
        }
        proof {
            assert(es.take(es.len() as int) =~= es);
        }
        let m = AsepriteData::from_entries(&raw);
        Ok(m)
    }

    /// Parses a document's bytes into its frame map. Fails with
    /// `MalformedDocument` exactly when the bytes are not valid JSON or the
    /// parsed tree does not have the expected document shape; on success the
    /// map holds exactly the frames the document names.
    pub fn parse(document: &[u8]) -> (r: Result<AsepriteData, MalformedDocument>)
        ensures
            match json_of(document@) {
                Some(j) => (r is Ok <==> doc_ok(j)) && (doc_ok(j) ==> (r matches Ok(m)
                    && m@ == doc_map(j) && m.wf())),
                None => r is Err,
            },
    {
        match json_from_slice(document) {
            Some(j) => Self::decode(&j),
            None => Err(MalformedDocument),
        }
    }
}

} // verus!
