//! EXIF information gathered from a TIFF directory tree.

use vstd::prelude::*;
use std::collections::HashMap;
use crate::basics::Endian;
use crate::tiff::{
    Tag,
    TiffIFD,
    EntryView,
    t,
    tag_value,
    spec_find_entry,
    spec_value_u32,
    spec_entry_str,
};

verus! {

/// The value at index `idx` of data of field type `typ`, read as a 32-bit
/// number.
pub fn get_u32_entry_val(typ: u16, data: &[u8], endian: Endian, idx: usize) -> (r: u32)
    ensures
        r == spec_value_u32(typ, data@, endian, idx as int),
{
    assert(data@.len() == data.len());
    match typ {
        1 | 2 | 6 | 7 => if idx < data.len() {
            data[idx] as u32
        } else {
            0
        },
        3 | 8 => if idx > usize::MAX / 2 {
            0
        } else {
            endian.ru16(data, idx * 2) as u32
        },
        4 | 9 | 13 => if idx > usize::MAX / 4 {
            0
        } else {
            endian.ru32(data, idx * 4)
        },
        5 | 10 => if idx > usize::MAX / 8 {
            0
        } else {
            endian.ru32(data, idx * 8)
        },
        _ => 0,
    }
}

/// One EXIF value: its field type, raw data and byte order.
#[derive(Clone, Debug)]
pub struct NativeExitItem {
    pub typ: u16,
    pub data: Vec<u8>,
    pub endian: Endian,
}

/// The EXIF tags gathered, in the order they are looked up.
pub open spec fn exif_tags() -> Seq<Tag> {
    seq![Tag::Make, Tag::Model, Tag::Orientation, Tag::Software]
}

fn exif_tag_list() -> (r: Vec<Tag>)
    ensures
        r@ == exif_tags(),
{
    let mut v: Vec<Tag> = Vec::new();
    v.push(Tag::Make);
    v.push(Tag::Model);
    v.push(Tag::Orientation);
    v.push(Tag::Software);
    assert(v@ =~= exif_tags());
    v
}

/// EXIF values taken from a directory tree, by tag code.
#[derive(Clone, Debug)]
pub struct NativeExifInfo {
    items: HashMap<u16, NativeExitItem>,
}

impl NativeExifInfo {
    /// The values held, by tag code: field type, data and byte order.
    pub closed spec fn item_map(&self) -> Map<u16, (u16, Seq<u8>, Endian)> {
        Map::new(
            |k: u16| self.items@.contains_key(k),
            |k: u16| (self.items@[k].typ, self.items@[k].data@, self.items@[k].endian),
        )
    }

    /// The EXIF values of `ifd`: for each EXIF tag, the entry that
    /// `find_entry` gives for it, if any.
    pub fn new(ifd: &TiffIFD) -> (r: Box<NativeExifInfo>)
        ensures
            forall|k: u16|
                #[trigger] r.item_map().contains_key(k) <==> exists|i: int|
                    0 <= i < exif_tags().len() && tag_value(exif_tags()[i]) == k && spec_find_entry(
                        *ifd,
                        k,
                    ) is Some,
            forall|k: u16|
                #[trigger] r.item_map().contains_key(k) ==> ({
                    let en: EntryView = spec_find_entry(*ifd, k)->0;
                    r.item_map()[k] == (en.typ, en.data, en.endian)
                }),
    {
        broadcast use vstd::std_specs::hash::group_hash_axioms;

        let tag_list = exif_tag_list();
        let mut items: HashMap<u16, NativeExitItem> = HashMap::new();
        let ghost tags = tag_list@;
        let mut i: usize = 0;
        while i < tag_list.len()
            invariant
                tags == tag_list@,
                tags == exif_tags(),
                i <= tags.len(),
                forall|k: u16|
                    #[trigger] items@.contains_key(k) <==> exists|j: int|
                        0 <= j < i && tag_value(tags[j]) == k && spec_find_entry(*ifd, k) is Some,
                forall|k: u16|
                    #[trigger] items@.contains_key(k) ==> ({
                        let en: EntryView = spec_find_entry(*ifd, k)->0;
                        (items@[k].typ, items@[k].data@, items@[k].endian) == (
                            en.typ,
                            en.data,
                            en.endian,
                        )
                    }),
            decreases tags.len() - i,
        {
            let tag = tag_list[i];
            if let Some(entry) = ifd.find_entry(tag) {
                let data = entry.get_data();
                let item = NativeExitItem {
                    typ: entry.typ(),
                    data: vstd::slice::slice_to_vec(data),
                    endian: entry.endian(),
                };
                items.insert(t(tag), item);
            }
            proof {
                assert forall|k: u16|
                    #[trigger] items@.contains_key(k) <==> exists|j: int|
                        0 <= j < i + 1 && tag_value(tags[j]) == k && spec_find_entry(*ifd, k) is Some by {
                    if items@.contains_key(k) && !(exists|j: int|
                        0 <= j < i && tag_value(tags[j]) == k && spec_find_entry(*ifd, k) is Some) {
                        assert(tag_value(tags[i as int]) == k);
                    }
                }
            }
            i = i + 1;
        }
        let r = Box::new(NativeExifInfo { items });
        assert(forall|k: u16| #[trigger] r.item_map().contains_key(k) == items@.contains_key(k));
        r
    }

    /// The value of `tag` as a 32-bit number, if it was gathered.
    pub fn get_uint(&self, tag: Tag) -> (r: Option<u32>)
        ensures
            match r {
                Some(v) => self.item_map().contains_key(tag_value(tag)) && v == spec_value_u32(
                    self.item_map()[tag_value(tag)].0,
                    self.item_map()[tag_value(tag)].1,
                    self.item_map()[tag_value(tag)].2,
                    0,
                ),
                None => !self.item_map().contains_key(tag_value(tag)),
            },
    {
        broadcast use vstd::std_specs::hash::group_hash_axioms;

        match self.items.get(&t(tag)) {
            Some(item) => Some(get_u32_entry_val(item.typ, item.data.as_slice(), item.endian, 0)),
            None => None,
        }
    }

    /// The value of `tag` as text, if it was gathered.
    pub fn get_str(&self, tag: Tag) -> (r: Option<&str>)
        ensures
            match r {
                Some(v) => self.item_map().contains_key(tag_value(tag)) && v@ == spec_entry_str(
                    self.item_map()[tag_value(tag)].1,
                ),
                None => !self.item_map().contains_key(tag_value(tag)),
            },
    {
        broadcast use vstd::std_specs::hash::group_hash_axioms;

        match self.items.get(&t(tag)) {
            Some(item) => Some(crate::tiff::get_str_entry_val(item.data.as_slice())),
            None => None,
        }
    }

    /// The tags gathered, each once, in the order they are looked up.
    pub fn get_tags(&self) -> (r: Vec<Tag>)
        ensures
            forall|i: int| 0 <= i < r@.len() ==> self.item_map().contains_key(tag_value(#[trigger] r@[i])),
            forall|i: int|
                0 <= i < exif_tags().len() && #[trigger] self.item_map().contains_key(
                    tag_value(exif_tags()[i]),
                ) ==> r@.contains(exif_tags()[i]),
            forall|i: int, j: int| 0 <= i < j < r@.len() ==> r@[i] != r@[j],
    {
        broadcast use vstd::std_specs::hash::group_hash_axioms;

        let tags = exif_tag_list();
        let mut r: Vec<Tag> = Vec::new();
        let mut i: usize = 0;
        while i < tags.len()
            invariant
                tags@ == exif_tags(),
                i <= tags@.len(),
                forall|q: int| 0 <= q < r@.len() ==> self.item_map().contains_key(tag_value(#[trigger] r@[q])),
                forall|q: int|
                    0 <= q < i && #[trigger] self.item_map().contains_key(tag_value(exif_tags()[q]))
                        ==> r@.contains(exif_tags()[q]),
                forall|q: int| 0 <= q < r@.len() ==> exists|p: int| 0 <= p < i && #[trigger] r@[q] == exif_tags()[p],
                forall|q: int, w: int| 0 <= q < w < r@.len() ==> r@[q] != r@[w],
            decreases tags@.len() - i,
        {
            let tag = tags[i];
            if self.items.contains_key(&t(tag)) {
                let ghost before = r@;
                r.push(tag);
                proof {
                    assert(r@[r@.len() - 1] == tag);
                    assert forall|q: int| 0 <= q < before.len() implies r@[q] != tag by {
                        let p = choose|p: int| 0 <= p < i && #[trigger] before[q] == exif_tags()[p];
                        assert(exif_tags()[p] != exif_tags()[i as int]);
                    }
                    assert forall|q: int|
                        0 <= q < i + 1 && #[trigger] self.item_map().contains_key(tag_value(exif_tags()[q]))
                            implies r@.contains(exif_tags()[q]) by {
                        if q < i {
                            let k = choose|k: int| 0 <= k < before.len() && before[k] == exif_tags()[q];
                            assert(r@[k] == exif_tags()[q]);
                        } else {
                            assert(r@[r@.len() - 1] == exif_tags()[q]);
                        }
                    }
                }
            }
            i = i + 1;
        }
        r
    }
}

} // verus!
