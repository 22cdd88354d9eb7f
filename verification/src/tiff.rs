//! The entries of a TIFF file.
use vstd::prelude::*;
use crate::single::Single;

verus! {

/// The entries that the decoders read.
#[derive(Debug, Clone, Copy, PartialEq, Eq, Structural)]
pub enum Tag {
    ActiveArea,
    AsShotNeutral,
    BitsPerSample,
    BlackLevelDeltaH,
    BlackLevelDeltaV,
    BlackLevels,
    CFAPattern,
    CFARepeatPatternDim,
    ColorMatrix1,
    ColorMatrix2,
    Compression,
    DefaultCropOrigin,
    DefaultCropSize,
    ImageLength,
    ImageWidth,
    Linearization,
    Make,
    MaskedAreas,
    Model,
    NewSubFileType,
    Orientation,
    PhotometricInt,
    SamplesPerPixel,
    StripByteCounts,
    StripOffsets,
    TileByteCounts,
    TileLength,
    TileOffsets,
    TileWidth,
    UniqueCameraModel,
    WhiteLevel,
}

/// A value of an entry, read as an integer and as a number.
#[derive(Debug)]
pub struct TiffValue {
    pub integer: u32,
    pub number: Single,
}

/// An entry: its values, and the text they make up where it holds text.
#[derive(Debug)]
pub struct TiffEntry {
    pub tag: Tag,
    pub values: Vec<TiffValue>,
    pub text: String,
}

/// A directory: its own entries, and the directories below it.
#[derive(Debug)]
pub struct TiffIFD {
    pub entries: Vec<TiffEntry>,
    pub subifds: Vec<TiffIFD>,
}

impl Clone for TiffValue {
    fn clone(&self) -> (copy: Self)
        ensures
            copy == *self,
    {
        TiffValue { integer: self.integer, number: self.number.clone() }
    }
}

impl TiffEntry {
    /// Two entries hold the same.
    pub open spec fn same(self, other: TiffEntry) -> bool {
        &&& self.tag == other.tag
        &&& self.values@ == other.values@
        &&& self.text == other.text
    }
}

impl Clone for TiffEntry {
    fn clone(&self) -> (copy: Self)
        ensures
            self.same(copy),
    {
        let mut values: Vec<TiffValue> = Vec::new();
        let mut i: usize = 0;
        while i < self.values.len()
            invariant
                i <= self.values@.len(),
                values@ =~= self.values@.take(i as int),
            decreases self.values@.len() - i,
        {
            values.push(self.values[i].clone());
            i = i + 1;
        }
        assert(values@ =~= self.values@);
        TiffEntry { tag: self.tag, values, text: self.text.clone() }
    }
}

impl TiffIFD {
    /// Two directories hold the same, and so do those below them.
    pub open spec fn same(self, other: TiffIFD) -> bool
        decreases self,
    {
        &&& self.entries@.len() == other.entries@.len()
        &&& forall|i: int|
            0 <= i < self.entries@.len() ==> (#[trigger] self.entries@[i]).same(other.entries@[i])
        &&& self.subifds@.len() == other.subifds@.len()
        &&& forall|i: int|
            0 <= i < self.subifds@.len() ==> (#[trigger] self.subifds@[i]).same(other.subifds@[i])
    }
}

impl Clone for TiffIFD {
    fn clone(&self) -> (copy: Self)
        ensures
            self.same(copy),
        decreases self,
    {
        let mut entries: Vec<TiffEntry> = Vec::new();
        let mut i: usize = 0;
        while i < self.entries.len()
            invariant
                i <= self.entries@.len(),
                entries@.len() == i,
                forall|j: int| 0 <= j < i ==> (#[trigger] self.entries@[j]).same(entries@[j]),
            decreases self.entries@.len() - i,
        {
            entries.push(self.entries[i].clone());
            i = i + 1;
        }
        let mut subifds: Vec<TiffIFD> = Vec::new();
        let mut k: usize = 0;
        while k < self.subifds.len()
            invariant
                k <= self.subifds@.len(),
                subifds@.len() == k,
                forall|j: int| 0 <= j < k ==> (#[trigger] self.subifds@[j]).same(subifds@[j]),
            decreases self.subifds@.len() - k,
        {
            let below: TiffIFD = self.subifds[k].clone();
            subifds.push(below);
            k = k + 1;
        }
        TiffIFD { entries, subifds }
    }
}

impl TiffEntry {
    /// The number of values.
    #[verifier::when_used_as_spec(spec_count)]
    pub fn count(&self) -> (n: usize)
        ensures
            n == self.spec_count(),
    {
        self.values.len()
    }

    pub open spec fn spec_count(&self) -> usize {
        self.values.len()
    }

    /// Value number `i` as an integer.
    pub open spec fn integer(self, i: int) -> u32 {
        self.values@[i].integer
    }

    /// The bits of value number `i`.
    pub open spec fn bits(self, i: int) -> u32 {
        self.values@[i].number.bits
    }

    /// Value number `i` as an integer.
    pub fn get_u32(&self, i: usize) -> (n: u32)
        requires
            i < self.count(),
        ensures
            n == self.integer(i as int),
    {
        self.values[i].integer
    }

    /// Value number `i` as a size.
    pub fn get_usize(&self, i: usize) -> (n: usize)
        requires
            i < self.count(),
        ensures
            n == self.integer(i as int),
    {
        self.values[i].integer as usize
    }

    /// Value number `i` as a number.
    pub fn get_number(&self, i: usize) -> (n: &Single)
        requires
            i < self.count(),
        ensures
            *n == self.values@[i as int].number,
    {
        &self.values[i].number
    }

    /// The text of the entry.
    pub fn get_str(&self) -> (text: &str)
        ensures
            text@ == self.text@,
    {
        self.text.as_str()
    }
}

/// The first of the entries with a tag.
pub open spec fn entry_with(entries: Seq<TiffEntry>, tag: Tag) -> Option<TiffEntry>
    decreases entries.len(),
{
    if entries.len() == 0 {
        None
    } else if entries[0].tag == tag {
        Some(entries[0])
    } else {
        entry_with(entries.skip(1), tag)
    }
}

/// The first of the directories that has an entry of its own with a tag, as that entry.
pub open spec fn first_entry(ifds: Seq<TiffIFD>, tag: Tag) -> Option<TiffEntry>
    decreases ifds.len(),
{
    if ifds.len() == 0 {
        None
    } else {
        match ifds[0].own_entry(tag) {
            Some(entry) => Some(entry),
            None => first_entry(ifds.skip(1), tag),
        }
    }
}

/// All of the first `n` directories, each followed by those below it.
pub open spec fn listed(ifds: Seq<TiffIFD>, n: nat) -> Seq<TiffIFD>
    decreases ifds, n,
{
    if n == 0 || n > ifds.len() {
        seq![]
    } else {
        listed(ifds, (n - 1) as nat) + ifds[n - 1].directories()
    }
}

impl TiffIFD {
    /// The directory and those below it, each before those below it.
    pub open spec fn directories(self) -> Seq<TiffIFD>
        decreases self, 0nat,
    {
        seq![self] + listed(self.subifds@, self.subifds@.len())
    }

    /// The directory's own entry with a tag.
    pub open spec fn own_entry(self, tag: Tag) -> Option<TiffEntry> {
        entry_with(self.entries@, tag)
    }

    /// The entry with a tag: the directory's own, or else the first one below it.
    pub open spec fn entry(self, tag: Tag) -> Option<TiffEntry> {
        first_entry(self.directories(), tag)
    }
}

/// The directories that have an entry of their own with a tag.
pub open spec fn with_tag(ifds: Seq<TiffIFD>, tag: Tag) -> Seq<TiffIFD>
    decreases ifds.len(),
{
    if ifds.len() == 0 {
        seq![]
    } else if ifds[0].own_entry(tag) is Some {
        seq![ifds[0]] + with_tag(ifds.skip(1), tag)
    } else {
        with_tag(ifds.skip(1), tag)
    }
}

proof fn lemma_first_entry_concat(a: Seq<TiffIFD>, b: Seq<TiffIFD>, tag: Tag)
    ensures
        first_entry(a + b, tag) == match first_entry(a, tag) {
            Some(entry) => Some(entry),
            None => first_entry(b, tag),
        },
    decreases a.len(),
{
    if a.len() == 0 {
        assert(a + b =~= b);
    } else {
        lemma_first_entry_concat(a.skip(1), b, tag);
        assert((a + b).skip(1) =~= a.skip(1) + b);
    }
}

proof fn lemma_with_tag_concat(a: Seq<TiffIFD>, b: Seq<TiffIFD>, tag: Tag)
    ensures
        with_tag(a + b, tag) == with_tag(a, tag) + with_tag(b, tag),
    decreases a.len(),
{
    if a.len() == 0 {
        assert(a + b =~= b);
        assert(with_tag(a, tag) + with_tag(b, tag) =~= with_tag(b, tag));
    } else {
        lemma_with_tag_concat(a.skip(1), b, tag);
        assert((a + b).skip(1) =~= a.skip(1) + b);
        assert(with_tag(a + b, tag) =~= with_tag(a, tag) + with_tag(b, tag));
    }
}

/// The directories that references point to.
pub open spec fn pointed(ifds: Seq<&TiffIFD>) -> Seq<TiffIFD> {
    ifds.map_values(|ifd: &TiffIFD| *ifd)
}

/// An entry has been found as expected.
pub open spec fn same_entry(found: Option<&TiffEntry>, expected: Option<TiffEntry>) -> bool {
    match (found, expected) {
        (Some(entry), Some(other)) => *entry == other,
        (None, None) => true,
        _ => false,
    }
}

impl TiffIFD {
    /// The directory's own entry with a tag.
    pub fn find_own_entry(&self, tag: Tag) -> (found: Option<&TiffEntry>)
        ensures
            same_entry(found, self.own_entry(tag)),
    {
        let mut i: usize = 0;
        assert(self.entries@.skip(0) =~= self.entries@);
        while i < self.entries.len()
            invariant
                i <= self.entries@.len(),
                self.own_entry(tag) == entry_with(self.entries@.skip(i as int), tag),
            decreases self.entries@.len() - i,
        {
            let entry: &TiffEntry = &self.entries[i];
            if entry.tag == tag {
                return Some(entry);
            }
            assert(self.entries@.skip(i as int).skip(1) =~= self.entries@.skip(i + 1));
            i = i + 1;
        }
        None
    }

    /// The entry with a tag: the directory's own, or else the first one below it.
    pub fn find_entry(&self, tag: Tag) -> (found: Option<&TiffEntry>)
        ensures
            same_entry(found, self.entry(tag)),
        decreases self,
    {
        let ghost below = listed(self.subifds@, self.subifds@.len());
        proof {
            assert(self.directories().skip(1) =~= below);
            assert(self.directories()[0] == *self);
        }
        if let Some(entry) = self.find_own_entry(tag) {
            return Some(entry);
        }
        let mut i: usize = 0;
        while i < self.subifds.len()
            invariant
                i <= self.subifds@.len(),
                self.entry(tag) == first_entry(listed(self.subifds@, self.subifds@.len()), tag),
                first_entry(listed(self.subifds@, i as nat), tag) is None,
            decreases self.subifds@.len() - i,
        {
            let found: Option<&TiffEntry> = self.subifds[i].find_entry(tag);
            proof {
                let next = listed(self.subifds@, (i + 1) as nat);
                let sub = self.subifds@[i as int];
                assert(next == listed(self.subifds@, i as nat) + sub.directories());
                lemma_first_entry_concat(
                    listed(self.subifds@, i as nat),
                    sub.directories(),
                    tag,
                );
                if found is Some {
                    lemma_listed_prefix(self.subifds@, (i + 1) as nat, self.subifds@.len(), tag);
                }
            }
            if found.is_some() {
                return found;
            }
            i = i + 1;
        }
        None
    }

    fn collect_ifds_with_tag<'a>(&'a self, tag: Tag, ifds: &mut Vec<&'a TiffIFD>)
        ensures
            pointed(final(ifds)@) == pointed(old(ifds)@) + with_tag(self.directories(), tag),
        decreases self,
    {
        let ghost start = ifds@;
        let ghost own = with_tag(seq![*self], tag);
        if self.find_own_entry(tag).is_some() {
            ifds.push(self);
        }
        proof {
            assert(seq![*self].skip(1) =~= Seq::<TiffIFD>::empty());
            assert(with_tag(Seq::<TiffIFD>::empty(), tag) == Seq::<TiffIFD>::empty());
            assert(own =~= if self.own_entry(tag) is Some {
                seq![*self]
            } else {
                seq![]
            });
            assert(pointed(ifds@) =~= pointed(start) + own);
            assert(own + with_tag(listed(self.subifds@, 0), tag) =~= own);
        }
        let mut i: usize = 0;
        while i < self.subifds.len()
            invariant
                i <= self.subifds@.len(),
                pointed(ifds@) =~= pointed(start) + own + with_tag(
                    listed(self.subifds@, i as nat),
                    tag,
                ),
            decreases self.subifds@.len() - i,
        {
            self.subifds[i].collect_ifds_with_tag(tag, ifds);
            proof {
                let sub = self.subifds@[i as int];
                assert(listed(self.subifds@, (i + 1) as nat) == listed(self.subifds@, i as nat)
                    + sub.directories());
                lemma_with_tag_concat(listed(self.subifds@, i as nat), sub.directories(), tag);
            }
            i = i + 1;
        }
        proof {
            lemma_with_tag_concat(
                seq![*self],
                listed(self.subifds@, self.subifds@.len()),
                tag,
            );
            assert(pointed(ifds@) =~= pointed(start) + with_tag(self.directories(), tag));
        }
    }

    /// The directories, of this one and those below it, that have an entry of their own with a
    /// tag.
    pub fn find_ifds_with_tag(&self, tag: Tag) -> (ifds: Vec<&TiffIFD>)
        ensures
            pointed(ifds@) == with_tag(self.directories(), tag),
    {
        let mut ifds: Vec<&TiffIFD> = Vec::new();
        self.collect_ifds_with_tag(tag, &mut ifds);
        assert(pointed(ifds@) =~= with_tag(self.directories(), tag));
        ifds
    }
}

/// What is found among the first directories is found among more.
proof fn lemma_listed_prefix(ifds: Seq<TiffIFD>, k: nat, n: nat, tag: Tag)
    requires
        k <= n <= ifds.len(),
        first_entry(listed(ifds, k), tag) is Some,
    ensures
        first_entry(listed(ifds, n), tag) == first_entry(listed(ifds, k), tag),
    decreases n,
{
    if k < n {
        lemma_listed_prefix(ifds, k, (n - 1) as nat, tag);
        lemma_first_entry_concat(listed(ifds, (n - 1) as nat), ifds[n - 1].directories(), tag);
    }
}

/// The message for an entry that is missing.
pub open spec fn missing(tag: Tag) -> Seq<char> {
    match tag {
        Tag::ActiveArea => "Couldn't find tag Tag::ActiveArea"@,
        Tag::AsShotNeutral => "Couldn't find tag Tag::AsShotNeutral"@,
        Tag::BitsPerSample => "Couldn't find tag Tag::BitsPerSample"@,
        Tag::BlackLevelDeltaH => "Couldn't find tag Tag::BlackLevelDeltaH"@,
        Tag::BlackLevelDeltaV => "Couldn't find tag Tag::BlackLevelDeltaV"@,
        Tag::BlackLevels => "Couldn't find tag Tag::BlackLevels"@,
        Tag::CFAPattern => "Couldn't find tag Tag::CFAPattern"@,
        Tag::CFARepeatPatternDim => "Couldn't find tag Tag::CFARepeatPatternDim"@,
        Tag::ColorMatrix1 => "Couldn't find tag Tag::ColorMatrix1"@,
        Tag::ColorMatrix2 => "Couldn't find tag Tag::ColorMatrix2"@,
        Tag::Compression => "Couldn't find tag Tag::Compression"@,
        Tag::DefaultCropOrigin => "Couldn't find tag Tag::DefaultCropOrigin"@,
        Tag::DefaultCropSize => "Couldn't find tag Tag::DefaultCropSize"@,
        Tag::ImageLength => "Couldn't find tag Tag::ImageLength"@,
        Tag::ImageWidth => "Couldn't find tag Tag::ImageWidth"@,
        Tag::Linearization => "Couldn't find tag Tag::Linearization"@,
        Tag::Make => "Couldn't find tag Tag::Make"@,
        Tag::MaskedAreas => "Couldn't find tag Tag::MaskedAreas"@,
        Tag::Model => "Couldn't find tag Tag::Model"@,
        Tag::NewSubFileType => "Couldn't find tag Tag::NewSubFileType"@,
        Tag::Orientation => "Couldn't find tag Tag::Orientation"@,
        Tag::PhotometricInt => "Couldn't find tag Tag::PhotometricInt"@,
        Tag::SamplesPerPixel => "Couldn't find tag Tag::SamplesPerPixel"@,
        Tag::StripByteCounts => "Couldn't find tag Tag::StripByteCounts"@,
        Tag::StripOffsets => "Couldn't find tag Tag::StripOffsets"@,
        Tag::TileByteCounts => "Couldn't find tag Tag::TileByteCounts"@,
        Tag::TileLength => "Couldn't find tag Tag::TileLength"@,
        Tag::TileOffsets => "Couldn't find tag Tag::TileOffsets"@,
        Tag::TileWidth => "Couldn't find tag Tag::TileWidth"@,
        Tag::UniqueCameraModel => "Couldn't find tag Tag::UniqueCameraModel"@,
        Tag::WhiteLevel => "Couldn't find tag Tag::WhiteLevel"@,
    }
}

fn missing_error(tag: Tag) -> (text: String)
    ensures
        text@ == missing(tag),
{
    let text: &str = match tag {
        Tag::ActiveArea => "Couldn't find tag Tag::ActiveArea",
        Tag::AsShotNeutral => "Couldn't find tag Tag::AsShotNeutral",
        Tag::BitsPerSample => "Couldn't find tag Tag::BitsPerSample",
        Tag::BlackLevelDeltaH => "Couldn't find tag Tag::BlackLevelDeltaH",
        Tag::BlackLevelDeltaV => "Couldn't find tag Tag::BlackLevelDeltaV",
        Tag::BlackLevels => "Couldn't find tag Tag::BlackLevels",
        Tag::CFAPattern => "Couldn't find tag Tag::CFAPattern",
        Tag::CFARepeatPatternDim => "Couldn't find tag Tag::CFARepeatPatternDim",
        Tag::ColorMatrix1 => "Couldn't find tag Tag::ColorMatrix1",
        Tag::ColorMatrix2 => "Couldn't find tag Tag::ColorMatrix2",
        Tag::Compression => "Couldn't find tag Tag::Compression",
        Tag::DefaultCropOrigin => "Couldn't find tag Tag::DefaultCropOrigin",
        Tag::DefaultCropSize => "Couldn't find tag Tag::DefaultCropSize",
        Tag::ImageLength => "Couldn't find tag Tag::ImageLength",
        Tag::ImageWidth => "Couldn't find tag Tag::ImageWidth",
        Tag::Linearization => "Couldn't find tag Tag::Linearization",
        Tag::Make => "Couldn't find tag Tag::Make",
        Tag::MaskedAreas => "Couldn't find tag Tag::MaskedAreas",
        Tag::Model => "Couldn't find tag Tag::Model",
        Tag::NewSubFileType => "Couldn't find tag Tag::NewSubFileType",
        Tag::Orientation => "Couldn't find tag Tag::Orientation",
        Tag::PhotometricInt => "Couldn't find tag Tag::PhotometricInt",
        Tag::SamplesPerPixel => "Couldn't find tag Tag::SamplesPerPixel",
        Tag::StripByteCounts => "Couldn't find tag Tag::StripByteCounts",
        Tag::StripOffsets => "Couldn't find tag Tag::StripOffsets",
        Tag::TileByteCounts => "Couldn't find tag Tag::TileByteCounts",
        Tag::TileLength => "Couldn't find tag Tag::TileLength",
        Tag::TileOffsets => "Couldn't find tag Tag::TileOffsets",
        Tag::TileWidth => "Couldn't find tag Tag::TileWidth",
        Tag::UniqueCameraModel => "Couldn't find tag Tag::UniqueCameraModel",
        Tag::WhiteLevel => "Couldn't find tag Tag::WhiteLevel",
    };
    text.to_string()
}

impl TiffIFD {
    /// The entry with a tag that has to be there.
    pub fn fetch(&self, tag: Tag) -> (res: Result<&TiffEntry, String>)
        ensures
            match (res, self.entry(tag)) {
                (Ok(entry), Some(expected)) => *entry == expected,
                (Err(text), None) => text@ == missing(tag),
                _ => false,
            },
    {
        match self.find_entry(tag) {
            Some(entry) => Ok(entry),
            None => Err(missing_error(tag)),
        }
    }
}

} // verus!
