//! Where the entries of a file are found.
use vstd::prelude::*;
use crate::camera::{camera_for, camera_of, Camera};
use crate::dng::decoder::{first_raw, is_raw, raw_ifd};
use crate::tiff::{entry_with, first_entry, listed, with_tag, Tag, TiffEntry, TiffIFD};

verus! {

proof fn lemma_entry_with(entries: Seq<TiffEntry>, tag: Tag)
    ensures
        match entry_with(entries, tag) {
            Some(entry) => exists|i: int|
                0 <= i < entries.len() && #[trigger] entries[i] == entry && entry.tag == tag && forall|
                    j: int,
                |
                    0 <= j < i ==> (#[trigger] entries[j]).tag != tag,
            None => forall|i: int| 0 <= i < entries.len() ==> (#[trigger] entries[i]).tag != tag,
        },
    decreases entries.len(),
{
    if entries.len() > 0 {
        let rest = entries.skip(1);
        lemma_entry_with(rest, tag);
        if entries[0].tag != tag {
            match entry_with(rest, tag) {
                Some(entry) => {
                    let i = choose|i: int|
                        0 <= i < rest.len() && #[trigger] rest[i] == entry && entry.tag == tag
                            && forall|j: int| 0 <= j < i ==> (#[trigger] rest[j]).tag != tag;
                    assert(entries[i + 1] == entry);
                    assert forall|j: int| 0 <= j < i + 1 implies (#[trigger] entries[j]).tag != tag by {
                        if j > 0 {
                            assert(rest[j - 1] == entries[j]);
                        }
                    }
                },
                None => {
                    assert forall|i: int| 0 <= i < entries.len() implies (#[trigger] entries[i]).tag
                        != tag by {
                        if i > 0 {
                            assert(rest[i - 1] == entries[i]);
                        }
                    }
                },
            }
        }
    }
}

/// A directory's own entry with a tag is the first of its entries that has the tag.
pub proof fn own_entries_are_the_first_ones(ifd: TiffIFD, tag: Tag)
    ensures
        match ifd.own_entry(tag) {
            Some(entry) => exists|i: int|
                0 <= i < ifd.entries@.len() && #[trigger] ifd.entries@[i] == entry && entry.tag == tag
                    && forall|j: int| 0 <= j < i ==> (#[trigger] ifd.entries@[j]).tag != tag,
            None => forall|i: int|
                0 <= i < ifd.entries@.len() ==> (#[trigger] ifd.entries@[i]).tag != tag,
        },
{
    lemma_entry_with(ifd.entries@, tag);
}

proof fn lemma_first_entry(ifds: Seq<TiffIFD>, tag: Tag)
    ensures
        match first_entry(ifds, tag) {
            Some(entry) => exists|i: int|
                0 <= i < ifds.len() && #[trigger] ifds[i].own_entry(tag) == Some(entry) && forall|j: int|
                    0 <= j < i ==> (#[trigger] ifds[j].own_entry(tag)) is None,
            None => forall|i: int| 0 <= i < ifds.len() ==> (#[trigger] ifds[i].own_entry(tag)) is None,
        },
    decreases ifds.len(),
{
    if ifds.len() > 0 {
        let rest = ifds.skip(1);
        lemma_first_entry(rest, tag);
        if ifds[0].own_entry(tag) is None {
            match first_entry(rest, tag) {
                Some(entry) => {
                    let i = choose|i: int|
                        0 <= i < rest.len() && #[trigger] rest[i].own_entry(tag) == Some(entry)
                            && forall|j: int| 0 <= j < i ==> (#[trigger] rest[j].own_entry(tag)) is None;
                    assert(ifds[i + 1] == rest[i]);
                    assert(ifds[i + 1].own_entry(tag) == Some(entry));
                    assert forall|j: int| 0 <= j < i + 1 implies (#[trigger] ifds[j].own_entry(
                        tag,
                    )) is None by {
                        if j > 0 {
                            assert(rest[j - 1] == ifds[j]);
                            assert(rest[j - 1].own_entry(tag) is None);
                        }
                    }
                },
                None => {
                    assert forall|i: int| 0 <= i < ifds.len() implies (#[trigger] ifds[i].own_entry(
                        tag,
                    )) is None by {
                        if i > 0 {
                            assert(rest[i - 1] == ifds[i]);
                            assert(rest[i - 1].own_entry(tag) is None);
                        }
                    }
                },
            }
        }
    }
}

/// The entry with a tag is that of the first directory that has one of its own, of the directory and
/// those below it.
pub proof fn entries_are_those_of_the_first_directory(ifd: TiffIFD, tag: Tag)
    ensures
        ({
            let ifds = ifd.directories();
            match ifd.entry(tag) {
                Some(entry) => exists|i: int|
                    0 <= i < ifds.len() && #[trigger] ifds[i].own_entry(tag) == Some(entry) && forall|
                        j: int,
                    |
                        0 <= j < i ==> (#[trigger] ifds[j].own_entry(tag)) is None,
                None => forall|i: int|
                    0 <= i < ifds.len() ==> (#[trigger] ifds[i].own_entry(tag)) is None,
            }
        }),
{
    lemma_first_entry(ifd.directories(), tag);
}

/// The directories of a file come in this order: each before those below it, and those before the
/// next one beside it.
pub proof fn directories_come_before_those_below(ifd: TiffIFD)
    ensures
        ifd.directories().len() >= 1,
        ifd.directories()[0] == ifd,
        ifd.subifds@.len() == 0 ==> ifd.directories() == seq![ifd],
        forall|n: nat|
            n < ifd.subifds@.len() ==> #[trigger] listed(ifd.subifds@, n + 1) == listed(ifd.subifds@, n)
                + ifd.subifds@[n as int].directories(),
        ifd.directories() == seq![ifd] + listed(ifd.subifds@, ifd.subifds@.len()),
{
    assert forall|n: nat| n < ifd.subifds@.len() implies #[trigger] listed(ifd.subifds@, n + 1)
        == listed(ifd.subifds@, n) + ifd.subifds@[n as int].directories() by {
        assert(((n + 1) - 1) as nat == n);
    }
    if ifd.subifds@.len() == 0 {
        assert(ifd.directories() =~= seq![ifd]);
    }
}

/// A directory holds a raw image: it states a compression of its own, that it finds is one of those
/// of raw images, and it is not marked as a preview.
pub open spec fn holds_raw(ifd: TiffIFD) -> bool {
    &&& ifd.own_entry(Tag::Compression) is Some
    &&& ifd.entry(Tag::Compression) matches Some(entry) && (entry.integer(0) == 1 || entry.integer(0)
        == 7 || entry.integer(0) == 34892)
    &&& ifd.entry(Tag::NewSubFileType) matches Some(entry) ==> entry.integer(0) % 2 == 0
}

pub proof fn lemma_own_is_found(ifd: TiffIFD, tag: Tag)
    ensures
        ifd.own_entry(tag) is Some ==> ifd.entry(tag) == ifd.own_entry(tag),
{
    directories_come_before_those_below(ifd);
    assert(first_entry(ifd.directories(), tag) == match ifd.directories()[0].own_entry(tag) {
        Some(entry) => Some(entry),
        None => first_entry(ifd.directories().skip(1), tag),
    });
}

proof fn lemma_first_raw(ifds: Seq<TiffIFD>)
    ensures
        match first_raw(with_tag(ifds, Tag::Compression)) {
            Some(raw) => exists|i: int|
                0 <= i < ifds.len() && #[trigger] ifds[i] == raw && holds_raw(raw) && forall|j: int|
                    0 <= j < i ==> !holds_raw(#[trigger] ifds[j]),
            None => forall|i: int| 0 <= i < ifds.len() ==> !holds_raw(#[trigger] ifds[i]),
        },
    decreases ifds.len(),
{
    if ifds.len() > 0 {
        let rest = ifds.skip(1);
        lemma_first_raw(rest);
        let all = with_tag(ifds, Tag::Compression);
        let others = with_tag(rest, Tag::Compression);
        lemma_own_is_found(ifds[0], Tag::Compression);
        let own = ifds[0].own_entry(Tag::Compression) is Some;
        if own {
            assert(all.skip(1) =~= others);
            assert(all[0] == ifds[0]);
            assert(is_raw(ifds[0]) == holds_raw(ifds[0]));
        }
        if own && is_raw(ifds[0]) {
            assert(first_raw(all) == Some(ifds[0]));
        } else {
            assert(first_raw(all) == first_raw(others));
            assert(!holds_raw(ifds[0]));
            match first_raw(others) {
                Some(raw) => {
                    let i = choose|i: int|
                        0 <= i < rest.len() && #[trigger] rest[i] == raw && holds_raw(raw) && forall|
                            j: int,
                        |
                            0 <= j < i ==> !holds_raw(#[trigger] rest[j]);
                    assert(ifds[i + 1] == raw);
                    assert forall|j: int| 0 <= j < i + 1 implies !holds_raw(#[trigger] ifds[j]) by {
                        if j > 0 {
                            assert(rest[j - 1] == ifds[j]);
                        }
                    }
                },
                None => {
                    assert forall|i: int| 0 <= i < ifds.len() implies !holds_raw(
                        #[trigger] ifds[i],
                    ) by {
                        if i > 0 {
                            assert(rest[i - 1] == ifds[i]);
                        }
                    }
                },
            }
        }
    }
}

/// The directory of the raw image is the first one that holds a raw image.
pub proof fn the_raw_image_is_the_first_one(tiff: TiffIFD)
    ensures
        ({
            let ifds = tiff.directories();
            match raw_ifd(tiff) {
                Some(raw) => exists|i: int|
                    0 <= i < ifds.len() && #[trigger] ifds[i] == raw && holds_raw(raw) && forall|j: int|
                        0 <= j < i ==> !holds_raw(#[trigger] ifds[j]),
                None => forall|i: int| 0 <= i < ifds.len() ==> !holds_raw(#[trigger] ifds[i]),
            }
        }),
{
    lemma_first_raw(tiff.directories());
}

/// A camera is that of a make and a model, in its plain mode.
pub open spec fn is_camera(camera: Camera, make: Seq<char>, model: Seq<char>) -> bool {
    camera.make@ == make && camera.model@ == model && camera.mode@.len() == 0
}

proof fn lemma_camera_of(cameras: Seq<Camera>, make: Seq<char>, model: Seq<char>, from: int)
    requires
        0 <= from <= cameras.len(),
    ensures
        match camera_of(cameras, make, model, from) {
            Some(i) => from <= i < cameras.len() && is_camera(cameras[i], make, model) && forall|j: int|
                from <= j < i ==> !is_camera(#[trigger] cameras[j], make, model),
            None => forall|j: int|
                from <= j < cameras.len() ==> !is_camera(#[trigger] cameras[j], make, model),
        },
    decreases cameras.len() - from,
{
    if from < cameras.len() {
        lemma_camera_of(cameras, make, model, from + 1);
    }
}

/// The camera of a file is the first one of the make and the model that the file states.
pub proof fn cameras_are_found_by_their_names(cameras: Seq<Camera>, tiff: TiffIFD)
    ensures
        match (tiff.entry(Tag::Make), tiff.entry(Tag::Model)) {
            (Some(make), Some(model)) => match camera_for(cameras, tiff) {
                Ok(i) => 0 <= i < cameras.len() && is_camera(cameras[i], make.text@, model.text@)
                    && forall|j: int|
                    0 <= j < i ==> !is_camera(#[trigger] cameras[j], make.text@, model.text@),
                Err(_) => forall|j: int|
                    0 <= j < cameras.len() ==> !is_camera(
                        #[trigger] cameras[j],
                        make.text@,
                        model.text@,
                    ),
            },
            _ => camera_for(cameras, tiff) is Err,
        },
{
    if let (Some(make), Some(model)) = (tiff.entry(Tag::Make), tiff.entry(Tag::Model)) {
        lemma_camera_of(cameras, make.text@, model.text@, 0);
    }
}

} // verus!
