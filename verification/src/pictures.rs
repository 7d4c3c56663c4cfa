//! Pictures of resources.

use crate::resources;
use crate::resources::ResourceIndex;
use crate::text;
use std::sync::Arc;
use vstd::prelude::*;

verus! {

// ---------------------------------------------------------------------------
// Decoding
// ---------------------------------------------------------------------------

/// A picture: its width and height, and the red, green, blue and opaque parts of its points, row
/// by row.
#[derive(Debug, Clone)]
pub struct Picture {
    pub width: u32,
    pub height: u32,
    pub points: Vec<u8>,
}

impl Picture {
    /// Each point has its four parts.
    pub open spec fn is_complete(self) -> bool {
        self.points@.len() == self.width as int * self.height as int * 4
    }
}

/// What `image::load_from_memory` and `DynamicImage::to_rgba8` make of the bytes of a picture: its
/// width and height, and the parts of its points.
pub uninterp spec fn decoded(bytes: Seq<u8>) -> Option<(u32, u32, Seq<u8>)>;

pub open spec fn opt_picture(p: Option<Picture>) -> Option<(u32, u32, Seq<u8>)> {
    match p {
        Some(picture) => Some((picture.width, picture.height, picture.points@)),
        None => None,
    }
}

/// `image::load_from_memory`, and `DynamicImage::to_rgba8` of what it gives: the picture that the
/// bytes hold, or nothing where they hold none. The result rests on the bytes alone, for no hook
/// for decoding is registered, and the points are as many as the width and the height say, with
/// four parts each.
#[verifier::external_body]
fn decode(bytes: &Vec<u8>) -> (r: Option<Picture>)
    ensures
        opt_picture(r) == decoded(bytes@),
        r matches Some(picture) ==> picture.is_complete(),
{
    let image = image::load_from_memory(bytes).ok()?.to_rgba8();
    let (width, height) = image.dimensions();
    Some(Picture { width, height, points: image.into_raw() })
}

// ---------------------------------------------------------------------------
// Finding
// ---------------------------------------------------------------------------

/// The picture of the first resource with an id.
pub open spec fn icon_of(entries: Seq<resources::EntryModel>, id: Seq<char>) -> Option<Seq<u8>>
    decreases entries.len(),
{
    if entries.len() == 0 {
        None
    } else if entries[0].id == id {
        entries[0].icon_png
    } else {
        icon_of(entries.skip(1), id)
    }
}

pub open spec fn opt_bytes(bytes: Option<Arc<Vec<u8>>>) -> Option<Seq<u8>> {
    match bytes {
        Some(found) => Some((*found)@),
        None => None,
    }
}

impl ResourceIndex {
    /// The bytes of the picture of the first resource with an id, if it has one.
    pub fn find_icon(&self, id: &str) -> (r: Option<Arc<Vec<u8>>>)
        ensures
            opt_bytes(r) == icon_of(self@.entries, id@),
    {
        let ghost all = self@.entries;
        let mut i: usize = 0;
        assert(all.skip(0) =~= all);
        while i < self.entries.len()
            invariant
                i <= self.entries@.len(),
                all == self@.entries,
                icon_of(all, id@) == icon_of(all.skip(i as int), id@),
            decreases self.entries@.len() - i,
        {
            assert(all.skip(i as int)[0] == self.entries@[i as int]@);
            assert(all.skip(i as int).skip(1) =~= all.skip(i + 1));
            if text::same(self.entries[i].id.as_str(), id) {
                return match &self.entries[i].icon_png {
                    Some(bytes) => Some(bytes.clone()),
                    None => None,
                };
            }
            i += 1;
        }
        None
    }

    /// The picture of the first resource with an id: nothing where it has none, and an empty
    /// answer where its bytes hold none.
    pub fn find_picture(&self, id: &str) -> (r: Option<Option<Picture>>)
        ensures
            match r {
                None => icon_of(self@.entries, id@) is None,
                Some(answer) => icon_of(self@.entries, id@) matches Some(bytes) && opt_picture(
                    answer,
                ) == decoded(bytes) && (answer matches Some(picture) ==> picture.is_complete()),
            },
    {
        match self.find_icon(id) {
            Some(bytes) => Some(decode(&bytes)),
            None => None,
        }
    }
}

} // verus!
