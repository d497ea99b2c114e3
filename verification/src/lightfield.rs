//! The lightfield data model and the archive-to-lightfield loader.
//!
//! Field-order convention: in an entry name
//! `<prefix>_<a>_<b>_<c>_<d>[_<suffix>]`, `a` is the grid row (`iy`), `b`
//! the grid column (`ix`), `c` the camera's x offset and `d` its y offset.

use vstd::prelude::*;

use crate::archive::{
    archive_bytes, archive_contents, archive_len, open_archive, read_entry, zip_entries,
    zip_entry_readable,
};
use crate::codec::{decode_image, is_decodable_image};
use crate::grammar::{
    int_literal_value, name_error_spec, name_parses, parse_name, col_field, row_field, x_field,
    y_field, is_float_literal, ParseError,
};

verus! {

/// A camera's offset on the capture plane, kept as the two float literals
/// of the entry name it was read from.
#[derive(Debug)]
pub struct Position {
    pub x: String,
    pub y: String,
}

/// One decoded camera image with its grid indices and camera position.
/// `iy` is the grid row and `ix` the grid column.
#[derive(Debug)]
pub struct LightfieldView {
    pub image: image::DynamicImage,
    pub iy: i32,
    pub ix: i32,
    pub pos: Position,
}

/// The ordered collection of all views loaded from one archive, in the
/// archive's entry-enumeration order.
#[derive(Debug)]
pub struct Lightfield {
    pub views: Vec<LightfieldView>,
}

/// Why a load failed, by kind: the file could not be read, the bytes are
/// not a readable archive, an entry name breaks the grammar, or an
/// entry's content is not a decodable image.
#[derive(Clone, Debug, PartialEq, Eq)]
pub enum LightfieldError {
    Io(String),
    Archive(String),
    Parse(ParseError),
    Image(String),
}

/// A view's position fields are float literals.
pub open spec fn view_wf(v: LightfieldView) -> bool {
    is_float_literal(v.pos.x@) && is_float_literal(v.pos.y@)
}

/// The view's metadata is exactly what the grammar reads out of `n`.
pub open spec fn view_matches_name(v: LightfieldView, n: Seq<char>) -> bool {
    &&& v.iy as int == int_literal_value(row_field(n))
    &&& v.ix as int == int_literal_value(col_field(n))
    &&& v.pos.x@ == x_field(n)
    &&& v.pos.y@ == y_field(n)
}

/// An archive entry that contributes a view: its name matches the grammar
/// and its content decodes as an image.
pub open spec fn entry_ok(e: (Seq<char>, Seq<u8>)) -> bool {
    name_parses(e.0) && is_decodable_image(e.1)
}

/// Entry `i` of the archive in `bytes` contributes a view: it can be read
/// and what is read is good.
pub open spec fn loadable_entry(bytes: Seq<u8>, i: int) -> bool {
    zip_entry_readable(bytes, i) && entry_ok(zip_entries(bytes).unwrap()[i])
}

/// All entries before `i` contribute views.
pub open spec fn prefix_loadable(bytes: Seq<u8>, i: int) -> bool {
    forall|j: int| 0 <= j < i ==> loadable_entry(bytes, j)
}

/// A load of `bytes` succeeds: the container parses and every entry can
/// be read, has a name in the grammar, and holds a decodable image.
pub open spec fn loads(bytes: Seq<u8>) -> bool {
    &&& zip_entries(bytes) is Some
    &&& forall|i: int|
        0 <= i < zip_entries(bytes).unwrap().len() ==> #[trigger] loadable_entry(bytes, i)
}

/// One view per entry, in entry order, each carrying that entry's parsed
/// metadata.
pub open spec fn lightfield_matches_entries(
    lf: Lightfield,
    entries: Seq<(Seq<char>, Seq<u8>)>,
) -> bool {
    &&& lf.views@.len() == entries.len()
    &&& forall|i: int|
        0 <= i < entries.len() ==> view_matches_name(#[trigger] lf.views@[i], entries[i].0)
            && view_wf(lf.views@[i])
}

/// Law: the metadata read out of an entry name is a function of the name
/// alone — any two views whose metadata matches the same name carry the
/// same grid indices and the same camera offsets.
pub proof fn lemma_field_mapping_deterministic(
    v1: LightfieldView,
    v2: LightfieldView,
    n: Seq<char>,
)
    requires
        view_matches_name(v1, n),
        view_matches_name(v2, n),
    ensures
        v1.iy == v2.iy,
        v1.ix == v2.ix,
        v1.pos.x@ == v2.pos.x@,
        v1.pos.y@ == v2.pos.y@,
{
}

/// Decodes one archive entry into a view: parses the grid indices and
/// position out of `name` and decodes `bytes` as an image.
pub fn decode_view(name: &str, bytes: &[u8]) -> (r: Result<LightfieldView, LightfieldError>)
    ensures
        r is Ok <==> name_parses(name@) && is_decodable_image(bytes@),
        r matches Ok(v) ==> view_matches_name(v, name@) && view_wf(v),
        r matches Err(LightfieldError::Parse(e)) ==> name_error_spec(name@, e),
        !name_parses(name@) ==> r matches Err(LightfieldError::Parse(_)),
        name_parses(name@) && !is_decodable_image(bytes@) ==> r matches Err(
            LightfieldError::Image(_),
        ),
{
    let (row, col, x, y) = match parse_name(name) {
        Ok(t) => t,
        Err(e) => {
            return Err(LightfieldError::Parse(e));
        },
    };
    let img = match decode_image(bytes) {
        Ok(img) => img,
        Err(msg) => {
            return Err(LightfieldError::Image(msg));
        },
    };
    Ok(LightfieldView { image: img, iy: row, ix: col, pos: Position { x, y } })
}

impl Lightfield {
    /// Loads a lightfield from the bytes of a zip archive in the naming
    /// convention of the rectified Stanford (new) lightfield archives:
    /// every entry is decoded, in the archive's enumeration order, and the
    /// first entry that fails aborts the whole load with its error.  The
    /// load succeeds exactly when the container parses and every entry
    /// can be read, has a name in the grammar, and holds a decodable
    /// image.
    pub fn load_from_bytes(bytes: Vec<u8>) -> (r: Result<Lightfield, LightfieldError>)
        ensures
            r is Ok <==> loads(bytes@),
            r matches Ok(lf) ==> lightfield_matches_entries(lf, zip_entries(bytes@).unwrap()),
            zip_entries(bytes@) is None ==> r matches Err(LightfieldError::Archive(_)),
            r matches Err(LightfieldError::Archive(_)) ==> zip_entries(bytes@) is None || exists|
                i: int,
            |
                0 <= i < zip_entries(bytes@).unwrap().len() && prefix_loadable(bytes@, i)
                    && !(#[trigger] zip_entry_readable(bytes@, i)),
            r matches Err(LightfieldError::Parse(e)) ==> {
                let entries = zip_entries(bytes@).unwrap();
                &&& zip_entries(bytes@) is Some
                &&& exists|i: int|
                    0 <= i < entries.len() && prefix_loadable(bytes@, i) && zip_entry_readable(
                        bytes@,
                        i,
                    ) && !name_parses(#[trigger] entries[i].0) && name_error_spec(entries[i].0, e)
            },
            r matches Err(LightfieldError::Image(_)) ==> {
                let entries = zip_entries(bytes@).unwrap();
                &&& zip_entries(bytes@) is Some
                &&& exists|i: int|
                    0 <= i < entries.len() && prefix_loadable(bytes@, i) && zip_entry_readable(
                        bytes@,
                        i,
                    ) && name_parses(#[trigger] entries[i].0) && !is_decodable_image(entries[i].1)
            },
            !(r matches Err(LightfieldError::Io(_))),
    {
        let mut archive = match open_archive(bytes) {
            Ok(a) => a,
            Err(msg) => {
                return Err(LightfieldError::Archive(msg));
            },
        };
        let ghost entries = zip_entries(bytes@).unwrap();
        let n = archive_len(&archive);
        let mut views: Vec<LightfieldView> = Vec::new();
        let mut i: usize = 0;
        while i < n
            invariant
                zip_entries(bytes@) is Some,
                entries == zip_entries(bytes@).unwrap(),
                archive_contents(archive) == entries,
                archive_bytes(archive) == bytes@,
                n == entries.len(),
                i <= n,
                views@.len() == i,
                prefix_loadable(bytes@, i as int),
                forall|j: int|
                    0 <= j < i ==> view_matches_name(#[trigger] views@[j], entries[j].0)
                        && view_wf(views@[j]),
            decreases n - i,
        {
            let (name, data) = match read_entry(&mut archive, i) {
                Ok(p) => p,
                Err(msg) => {
                    proof {
                        assert(prefix_loadable(bytes@, i as int) && !zip_entry_readable(
                            bytes@,
                            i as int,
                        ));
                        assert(!loadable_entry(bytes@, i as int));
                    }
                    return Err(LightfieldError::Archive(msg));
                },
            };
            proof {
                assert(entries[i as int].0 == name@);
                assert(entries[i as int].1 == data@);
            }
            let view = match decode_view(name.as_str(), data.as_slice()) {
                Ok(v) => v,
                Err(e) => {
                    proof {
                        let gi = i as int;
                        assert(!entry_ok(entries[gi]));
                        assert(!loadable_entry(bytes@, gi));
                        if !name_parses(name@) {
                            assert(prefix_loadable(bytes@, gi) && zip_entry_readable(bytes@, gi)
                                && !name_parses(entries[gi].0));
                        } else {
                            assert(prefix_loadable(bytes@, gi) && zip_entry_readable(bytes@, gi)
                                && name_parses(entries[gi].0) && !is_decodable_image(
                                entries[gi].1,
                            ));
                        }
                    }
                    return Err(e);
                },
            };
            views.push(view);
            i += 1;
        }
        Ok(Lightfield { views })
    }
}

} // verus!
