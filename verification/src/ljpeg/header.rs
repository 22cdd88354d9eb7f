//! Reading of lossless JPEG headers.
use vstd::prelude::*;
use vstd::slice::slice_subrange;
use crate::ljpeg::frame::{Frame, JpegComponentInfo, LjpegDecompressor, SOFInfo};
use crate::ljpeg::huffman::{code_count, huff_table_result, no_codes, HuffCode, HuffTable};
use crate::text::{decimal, number_after, push_number, with_number};

verus! {

/// The contents of a [`SOFInfo`].
pub struct Sof {
    pub width: usize,
    pub height: usize,
    pub cps: usize,
    pub precision: usize,
    pub components: Seq<JpegComponentInfo>,
}

impl View for SOFInfo {
    type V = Sof;

    open spec fn view(&self) -> Sof {
        Sof {
            width: self.width,
            height: self.height,
            cps: self.cps,
            precision: self.precision,
            components: self.components@,
        }
    }
}

/// The big-endian number of two bytes.
pub open spec fn u16be(src: Seq<u8>, at: int) -> int {
    256 * src[at] + src[at + 1]
}

/// The message for a header that the data does not hold whole.
pub open spec fn truncated_message() -> Seq<char> {
    "ljpeg: header is truncated"@
}

/// A marker stands at `at`: `ff` and a byte that is neither `00` nor `ff`.
pub open spec fn is_marker(src: Seq<u8>, at: int) -> bool {
    at + 1 < src.len() && src[at] == 0xff && src[at + 1] != 0 && src[at + 1] != 0xff
}

/// The first marker from `at` on.
pub open spec fn next_marker(src: Seq<u8>, at: int) -> Option<int>
    decreases src.len() - at,
{
    if at < 0 || at >= src.len() {
        None
    } else if is_marker(src, at) {
        Some(at)
    } else {
        next_marker(src, at + 1)
    }
}

/// The frame header at `at`, and what follows it.
pub open spec fn sof_at(src: Seq<u8>, at: int) -> Result<(Sof, int), Seq<char>> {
    if at + 8 > src.len() {
        Err(truncated_message())
    } else {
        let precision = src[at + 2];
        let cps = src[at + 7];
        let end = at + 8 + 3 * cps;
        if precision > 16 {
            Err("ljpeg: precision "@ + decimal(precision as nat) + " not supported"@)
        } else if cps < 1 || cps > 4 {
            Err("ljpeg: only from 1 to 4 components are supported"@)
        } else if u16be(src, at) != 8 + 3 * cps {
            Err("ljpeg: header size mismatch"@)
        } else if end > src.len() {
            Err(truncated_message())
        } else {
            Ok(
                (
                    Sof {
                        width: u16be(src, at + 5) as usize,
                        height: u16be(src, at + 3) as usize,
                        cps: cps as usize,
                        precision: precision as usize,
                        components: Seq::new(
                            cps as nat,
                            |i: int|
                                JpegComponentInfo {
                                    id: src[at + 8 + 3 * i],
                                    dc_tbl_num: 0,
                                    super_h: (src[at + 9 + 3 * i] / 16) as usize,
                                    super_v: (src[at + 9 + 3 * i] % 16) as usize,
                                },
                        ),
                    },
                    end,
                ),
            )
        }
    }
}

/// The Huffman tables of the next `left` bytes, and what follows them.
pub open spec fn tables_at(src: Seq<u8>, at: int, left: int, tables: Seq<HuffCode>) -> Result<
    (Seq<HuffCode>, int),
    Seq<char>,
>
    decreases left,
{
    if left <= 0 {
        Ok((tables, at))
    } else if left < 17 {
        Err("ljpeg: invalid DHT table length"@)
    } else if at + 17 > src.len() {
        Err(truncated_message())
    } else {
        let id = src[at] % 16;
        let counts = src.subrange(at + 1, at + 17);
        let codes = code_count(counts, 16) as int;
        if src[at] / 16 != 0 {
            Err("ljpeg: unsupported table class in DHT"@)
        } else if id > 3 {
            Err("ljpeg: unsupported table id "@ + decimal(id as nat) + " in DHT"@)
        } else if codes > 256 {
            Err("ljpeg: invalid DHT table"@)
        } else if left < 17 + codes {
            Err("ljpeg: invalid DHT table length"@)
        } else if at + 17 + codes > src.len() {
            Err(truncated_message())
        } else {
            match huff_table_result(counts, src.subrange(at + 17, at + 17 + codes)) {
                Err(message) => Err(message),
                Ok(code) => tables_at(
                    src,
                    at + 17 + codes,
                    left - 17 - codes,
                    tables.update(id as int, code),
                ),
            }
        }
    }
}

/// The segment of Huffman tables at `at`, and what follows it.
pub open spec fn dht_at(src: Seq<u8>, at: int, tables: Seq<HuffCode>) -> Result<
    (Seq<HuffCode>, int),
    Seq<char>,
> {
    if at + 2 > src.len() {
        Err(truncated_message())
    } else if u16be(src, at) < 2 {
        Err("ljpeg: invalid DHT table length"@)
    } else {
        tables_at(src, at + 2, u16be(src, at) - 2, tables)
    }
}

/// The first component with an identifier.
pub open spec fn component_with(components: Seq<JpegComponentInfo>, id: u8, from: int) -> Option<int>
    decreases components.len() - from,
{
    if from < 0 || from >= components.len() {
        None
    } else if components[from].id == id {
        Some(from)
    } else {
        component_with(components, id, from + 1)
    }
}

/// The components once the first `n` selectors of a scan header have named their tables.
pub open spec fn selected(
    src: Seq<u8>,
    at: int,
    components: Seq<JpegComponentInfo>,
    n: nat,
) -> Result<Seq<JpegComponentInfo>, Seq<char>>
    decreases n,
{
    if n == 0 {
        Ok(components)
    } else {
        match selected(src, at, components, (n - 1) as nat) {
            Err(message) => Err(message),
            Ok(before) => {
                let id = src[at + 2 * (n - 1)];
                let table = src[at + 2 * (n - 1) + 1] / 16;
                match component_with(before, id, 0) {
                    None => Err("ljpeg: invalid component selector "@ + decimal(id as nat)),
                    Some(i) => if table > 3 {
                        Err("ljpeg: invalid Huffman table selection: "@ + decimal(table as nat))
                    } else {
                        Ok(
                            before.update(
                                i,
                                JpegComponentInfo { dc_tbl_num: table as usize, ..before[i] },
                            ),
                        )
                    },
                }
            },
        }
    }
}

/// The scan header at `at`, which ends the headers.
pub open spec fn sos_at(src: Seq<u8>, at: int, sof: Option<Sof>, tables: Seq<HuffCode>) -> Result<
    Frame,
    Seq<char>,
> {
    match sof {
        None => Err("ljpeg: trying to parse SOS before SOF"@),
        Some(sof) => {
            let last = at + 3 + 2 * sof.cps;
            if at + 3 > src.len() {
                Err(truncated_message())
            } else if src[at + 2] != sof.cps {
                Err("ljpeg: component number mismatch in SOS"@)
            } else if last + 3 > src.len() {
                Err(truncated_message())
            } else {
                let point_transform = (src[last + 2] % 16) as usize;
                match selected(src, at + 3, sof.components, sof.cps as nat) {
                    Err(message) => Err(message),
                    Ok(components) => if point_transform >= sof.precision {
                        Err(
                            "ljpeg: point transform "@ + decimal(point_transform as nat)
                                + " leaves no bits of precision "@ + decimal(sof.precision as nat),
                        )
                    } else {
                        Ok(
                            Frame {
                                buffer: src.skip(last + 3),
                                width: sof.width,
                                height: sof.height,
                                cps: sof.cps,
                                precision: sof.precision,
                                components,
                                predictor: src[last] as usize,
                                point_transform,
                                dhts: tables,
                            },
                        )
                    },
                }
            }
        },
    }
}

/// The headers from `at` on, after a frame header and tables that came before.
pub open spec fn headers_at(
    src: Seq<u8>,
    at: int,
    sof: Option<Sof>,
    tables: Seq<HuffCode>,
) -> Result<Frame, Seq<char>>
    decreases src.len() - at,
    when 0 <= at
    via headers_decrease
{
    match next_marker(src, at) {
        None => Err("ljpeg: no marker found in the rest of the data"@),
        Some(p) => {
            let marker = src[p + 1];
            if marker == 0xc3 {
                match sof_at(src, p + 2) {
                    Err(message) => Err(message),
                    Ok((found, behind)) => headers_at(src, behind, Some(found), tables),
                }
            } else if marker == 0xc4 {
                match dht_at(src, p + 2, tables) {
                    Err(message) => Err(message),
                    Ok((found, behind)) => headers_at(src, behind, sof, found),
                }
            } else if marker == 0xda {
                sos_at(src, p + 2, sof, tables)
            } else if marker == 0xd9 {
                Err("ljpeg: reached EOI before SOS"@)
            } else if marker == 0xdb {
                Err("ljpeg: not a lossless JPEG file, found DQT"@)
            } else {
                headers_at(src, p + 2, sof, tables)
            }
        },
    }
}

proof fn lemma_next_marker(src: Seq<u8>, at: int)
    ensures
        next_marker(src, at) matches Some(p) ==> at <= p && is_marker(src, p),
    decreases src.len() - at,
{
    if 0 <= at < src.len() && !is_marker(src, at) {
        lemma_next_marker(src, at + 1);
    }
}

proof fn lemma_tables_at(src: Seq<u8>, at: int, left: int, tables: Seq<HuffCode>)
    requires
        at <= src.len(),
    ensures
        tables_at(src, at, left, tables) matches Ok((found, behind)) ==> at <= behind <= src.len(),
    decreases left,
{
    if left >= 17 && at + 17 <= src.len() {
        let counts = src.subrange(at + 1, at + 17);
        let codes = code_count(counts, 16) as int;
        if codes <= 256 && left >= 17 + codes && at + 17 + codes <= src.len() {
            match huff_table_result(counts, src.subrange(at + 17, at + 17 + codes)) {
                Err(_) => {},
                Ok(code) => lemma_tables_at(
                    src,
                    at + 17 + codes,
                    left - 17 - codes,
                    tables.update((src[at] % 16) as int, code),
                ),
            }
        }
    }
}

#[via_fn]
proof fn headers_decrease(src: Seq<u8>, at: int, sof: Option<Sof>, tables: Seq<HuffCode>) {
    lemma_next_marker(src, at);
    match next_marker(src, at) {
        None => {},
        Some(p) => {
            if u16be(src, p + 2) >= 2 && p + 4 <= src.len() {
                lemma_tables_at(src, p + 4, u16be(src, p + 2) - 2, tables);
            }
        },
    }
}

/// The lossless JPEG file that `src` holds: a start marker, headers, a scan.
pub open spec fn ljpeg_file(src: Seq<u8>) -> Result<Frame, Seq<char>> {
    if !is_marker(src, 0) {
        Err("ljpeg: expected marker not found"@)
    } else if src[1] != 0xd8 {
        Err("ljpeg: image did not start with SOI, probably not a lossless JPEG file"@)
    } else {
        headers_at(src, 2, None, seq![no_codes(), no_codes(), no_codes(), no_codes()])
    }
}

/// The codes of tables.
pub open spec fn codes_of(tables: Seq<HuffTable>) -> Seq<HuffCode> {
    Seq::new(tables.len(), |i: int| tables[i]@)
}

fn truncated_error() -> (text: String)
    ensures
        text@ == truncated_message(),
{
    "ljpeg: header is truncated".to_string()
}

fn get_u16be(src: &[u8], at: usize) -> (n: usize)
    requires
        at + 2 <= src@.len(),
    ensures
        n == u16be(src@, at as int),
        n <= 65535,
{
    256 * src[at] as usize + src[at + 1] as usize
}

fn find_marker(src: &[u8], from: usize) -> (found: Option<usize>)
    requires
        from <= src@.len(),
    ensures
        match (found, next_marker(src@, from as int)) {
            (Some(p), Some(q)) => p == q && from <= p && p + 2 <= src@.len(),
            (None, None) => true,
            _ => false,
        },
{
    let len: usize = src.len();
    let mut at: usize = from;
    while at < len
        invariant
            from <= at <= len,
            len == src@.len(),
            next_marker(src@, from as int) == next_marker(src@, at as int),
        decreases len - at,
    {
        if len - at >= 2 && src[at] == 0xff && src[at + 1] != 0 && src[at + 1] != 0xff {
            return Some(at);
        }
        at = at + 1;
    }
    None
}

fn parse_sof(src: &[u8], at: usize) -> (res: Result<(SOFInfo, usize), String>)
    requires
        at <= src@.len(),
    ensures
        match (res, sof_at(src@, at as int)) {
            (Ok((sof, behind)), Ok((expected, end))) => sof@ == expected && behind == end && behind
                <= src@.len() && sof.precision <= 16 && 1 <= sof.cps <= 4 && sof.components@.len()
                == sof.cps,
            (Err(text), Err(message)) => text@ == message,
            _ => false,
        },
{
    let len: usize = src.len();
    if len - at < 8 {
        return Err(truncated_error());
    }
    let header_length: usize = get_u16be(src, at);
    let precision: usize = src[at + 2] as usize;
    let height: usize = get_u16be(src, at + 3);
    let width: usize = get_u16be(src, at + 5);
    let cps: usize = src[at + 7] as usize;
    if precision > 16 {
        return Err(with_number("ljpeg: precision ", precision, " not supported"));
    }
    if cps < 1 || cps > 4 {
        return Err("ljpeg: only from 1 to 4 components are supported".to_string());
    }
    if header_length != 8 + 3 * cps {
        return Err("ljpeg: header size mismatch".to_string());
    }
    if len - at < 8 + 3 * cps {
        return Err(truncated_error());
    }
    let ghost expected = sof_at(src@, at as int)->Ok_0.0;
    let mut components: Vec<JpegComponentInfo> = Vec::new();
    let mut i: usize = 0;
    while i < cps
        invariant
            i <= cps <= 4,
            at + 8 + 3 * cps <= len,
            len == src@.len(),
            expected == sof_at(src@, at as int)->Ok_0.0,
            sof_at(src@, at as int) is Ok,
            cps == src@[at + 7],
            components@ =~= expected.components.take(i as int),
        decreases cps - i,
    {
        let factors: u8 = src[at + 9 + 3 * i];
        components.push(
            JpegComponentInfo {
                id: src[at + 8 + 3 * i],
                dc_tbl_num: 0,
                super_h: (factors / 16) as usize,
                super_v: (factors % 16) as usize,
            },
        );
        i = i + 1;
    }
    assert(components@ =~= expected.components);
    Ok((SOFInfo { width, height, cps, precision, components }, at + 8 + 3 * cps))
}

/// Every table of the scan is well-formed, and there are four.
spec fn four_tables(tables: Seq<HuffTable>) -> bool {
    &&& tables.len() == 4
    &&& forall|i: int| 0 <= i < 4 ==> (#[trigger] tables[i])@.wf()
}

fn parse_table(src: &[u8], at: usize, left: usize, tables: &mut Vec<HuffTable>) -> (res: Result<
    usize,
    String,
>)
    requires
        at <= src@.len(),
        0 < left <= 65535,
        four_tables(old(tables)@),
    ensures
        four_tables(final(tables)@),
        match res {
            Ok(used) => {
                &&& 17 <= used <= left
                &&& at + used <= src@.len()
                &&& tables_at(src@, at as int, left as int, codes_of(old(tables)@)) == tables_at(
                    src@,
                    at + used,
                    left - used,
                    codes_of(final(tables)@),
                )
            },
            Err(text) => tables_at(src@, at as int, left as int, codes_of(old(tables)@)) == Err::<
                (Seq<HuffCode>, int),
                Seq<char>,
            >(text@),
        },
{
    let len: usize = src.len();
    if left < 17 {
        return Err("ljpeg: invalid DHT table length".to_string());
    }
    if len - at < 17 {
        return Err(truncated_error());
    }
    let class: u8 = src[at] / 16;
    let id: usize = (src[at] % 16) as usize;
    if class != 0 {
        return Err("ljpeg: unsupported table class in DHT".to_string());
    }
    if id > 3 {
        return Err(with_number("ljpeg: unsupported table id ", id, " in DHT"));
    }
    let mut counts: [u8; 16] = [0u8;16];
    let ghost all = src@.subrange(at + 1, at + 17);
    let mut codes: usize = 0;
    let mut i: usize = 0;
    while i < 16
        invariant
            i <= 16,
            at + 17 <= len,
            len == src@.len(),
            all == src@.subrange(at + 1, at + 17),
            counts@.len() == 16,
            forall|j: int| 0 <= j < i ==> counts@[j] == all[j],
            codes == code_count(all, i as nat),
            codes <= 255 * i,
        decreases 16 - i,
    {
        let count: u8 = src[at + 1 + i];
        counts[i] = count;
        codes = codes + count as usize;
        i = i + 1;
    }
    assert(counts@ =~= all);
    if codes > 256 {
        return Err("ljpeg: invalid DHT table".to_string());
    }
    if left < 17 + codes {
        return Err("ljpeg: invalid DHT table length".to_string());
    }
    if len - at < 17 + codes {
        return Err(truncated_error());
    }
    let values: &[u8] = slice_subrange(src, at + 17, at + 17 + codes);
    let ghost before = codes_of(tables@);
    match HuffTable::new(counts, values) {
        Ok(table) => {
            let ghost code = table@;
            tables[id] = table;
            assert(codes_of(tables@) =~= before.update(id as int, code));
            Ok(17 + codes)
        },
        Err(text) => Err(text),
    }
}

fn parse_dht(src: &[u8], at: usize, tables: &mut Vec<HuffTable>) -> (res: Result<usize, String>)
    requires
        at <= src@.len(),
        four_tables(old(tables)@),
    ensures
        four_tables(final(tables)@),
        match res {
            Ok(behind) => behind <= src@.len() && at < behind && dht_at(
                src@,
                at as int,
                codes_of(old(tables)@),
            ) == Ok::<(Seq<HuffCode>, int), Seq<char>>(
                (codes_of(final(tables)@), behind as int),
            ),
            Err(text) => dht_at(src@, at as int, codes_of(old(tables)@)) == Err::<
                (Seq<HuffCode>, int),
                Seq<char>,
            >(text@),
        },
{
    let len: usize = src.len();
    if len - at < 2 {
        return Err(truncated_error());
    }
    let length: usize = get_u16be(src, at);
    if length < 2 {
        return Err("ljpeg: invalid DHT table length".to_string());
    }
    let mut pos: usize = at + 2;
    let mut left: usize = length - 2;
    while left > 0
        invariant
            at < pos <= len,
            len == src@.len(),
            left <= 65535,
            four_tables(tables@),
            dht_at(src@, at as int, codes_of(old(tables)@)) == tables_at(
                src@,
                pos as int,
                left as int,
                codes_of(tables@),
            ),
        decreases left,
    {
        match parse_table(src, pos, left, tables) {
            Ok(used) => {
                pos = pos + used;
                left = left - used;
            },
            Err(text) => return Err(text),
        }
    }
    Ok(pos)
}

fn find_component(components: &Vec<JpegComponentInfo>, id: u8) -> (found: Option<usize>)
    ensures
        match (found, component_with(components@, id, 0)) {
            (Some(i), Some(j)) => i == j && i < components@.len(),
            (None, None) => true,
            _ => false,
        },
{
    let mut i: usize = 0;
    while i < components.len()
        invariant
            i <= components@.len(),
            component_with(components@, id, 0) == component_with(components@, id, i as int),
        decreases components@.len() - i,
    {
        if components[i].id == id {
            return Some(i);
        }
        i = i + 1;
    }
    None
}

proof fn lemma_selected_end(
    src: Seq<u8>,
    at: int,
    components: Seq<JpegComponentInfo>,
    k: nat,
    n: nat,
)
    requires
        k <= n,
        selected(src, at, components, k) is Err,
    ensures
        selected(src, at, components, n) == selected(src, at, components, k),
    decreases n,
{
    if k < n {
        lemma_selected_end(src, at, components, k, (n - 1) as nat);
    }
}

fn select_tables(src: &[u8], at: usize, components: &mut Vec<JpegComponentInfo>) -> (res: Result<
    (),
    String,
>)
    requires
        old(components)@.len() <= 4,
        at + 2 * old(components)@.len() <= src@.len(),
        forall|i: int|
            0 <= i < old(components)@.len() ==> (#[trigger] old(components)@[i]).dc_tbl_num <= 3,
    ensures
        match (res, selected(src@, at as int, old(components)@, old(components)@.len())) {
            (Ok(_), Ok(expected)) => {
                &&& final(components)@ == expected
                &&& expected.len() == old(components)@.len()
                &&& forall|i: int|
                    0 <= i < expected.len() ==> (#[trigger] expected[i]).dc_tbl_num <= 3
            },
            (Err(text), Err(message)) => text@ == message,
            _ => false,
        },
{
    let ghost start = components@;
    let cps: usize = components.len();
    let len: usize = src.len();
    let mut n: usize = 0;
    while n < cps
        invariant
            n <= cps <= 4,
            start.len() == cps,
            components@.len() == cps,
            len == src@.len(),
            start == old(components)@,
            at + 2 * cps <= len,
            selected(src@, at as int, start, n as nat) == Ok::<
                Seq<JpegComponentInfo>,
                Seq<char>,
            >(components@),
            forall|i: int| 0 <= i < cps ==> (#[trigger] components@[i]).dc_tbl_num <= 3,
        decreases cps - n,
    {
        let id: u8 = src[at + 2 * n];
        let table: usize = (src[at + 2 * n + 1] / 16) as usize;
        let ghost before = components@;
        assert(selected(src@, at as int, start, ((n + 1) - 1) as nat) == Ok::<
            Seq<JpegComponentInfo>,
            Seq<char>,
        >(before));
        let i: usize = match find_component(components, id) {
            Some(i) => i,
            None => {
                let text: String = number_after("ljpeg: invalid component selector ", id as usize);
                proof {
                    lemma_selected_end(src@, at as int, start, (n + 1) as nat, cps as nat);
                }
                return Err(text);
            },
        };
        if table > 3 {
            let text: String = number_after("ljpeg: invalid Huffman table selection: ", table);
            proof {
                lemma_selected_end(src@, at as int, start, (n + 1) as nat, cps as nat);
            }
            return Err(text);
        }
        let mut info: JpegComponentInfo = components[i];
        info.dc_tbl_num = table;
        components[i] = info;
        n = n + 1;
    }
    Ok(())
}

/// A header has been read as expected.
pub open spec fn same_frame(res: Result<LjpegDecompressor, String>, expected: Result<
    Frame,
    Seq<char>,
>) -> bool {
    match (res, expected) {
        (Ok(ljpeg), Ok(frame)) => ljpeg@ == frame && frame.wf() && 1 <= frame.cps <= 4,
        (Err(text), Err(message)) => text@ == message,
        _ => false,
    }
}

fn parse_sos<'a>(
    src: &'a [u8],
    at: usize,
    sof: Option<SOFInfo>,
    tables: Vec<HuffTable>,
) -> (res: Result<LjpegDecompressor<'a>, String>)
    requires
        at <= src@.len(),
        four_tables(tables@),
        sof matches Some(info) ==> {
            &&& info.precision <= 16
            &&& 1 <= info.cps <= 4
            &&& info.components@.len() == info.cps
            &&& forall|i: int|
                0 <= i < info.cps ==> (#[trigger] info.components@[i]).dc_tbl_num <= 3
        },
    ensures
        same_frame(
            res,
            sos_at(
                src@,
                at as int,
                match sof {
                    Some(info) => Some(info@),
                    None => None,
                },
                codes_of(tables@),
            ),
        ),
{
    let mut sof: SOFInfo = match sof {
        Some(sof) => sof,
        None => return Err("ljpeg: trying to parse SOS before SOF".to_string()),
    };
    let len: usize = src.len();
    let cps: usize = sof.cps;
    if len - at < 3 {
        return Err(truncated_error());
    }
    if src[at + 2] as usize != cps {
        return Err("ljpeg: component number mismatch in SOS".to_string());
    }
    if len - at < 6 + 2 * cps {
        return Err(truncated_error());
    }
    let mut components: Vec<JpegComponentInfo> = sof.components;
    match select_tables(src, at + 3, &mut components) {
        Ok(_) => (),
        Err(text) => return Err(text),
    }
    let last: usize = at + 3 + 2 * cps;
    let predictor: usize = src[last] as usize;
    let point_transform: usize = (src[last + 2] % 16) as usize;
    if point_transform >= sof.precision {
        let mut text: String = with_number(
            "ljpeg: point transform ",
            point_transform,
            " leaves no bits of precision ",
        );
        push_number(&mut text, sof.precision);
        return Err(text);
    }
    let buffer: &'a [u8] = slice_subrange(src, last + 3, len);
    assert(buffer@ =~= src@.skip(last + 3));
    let info: SOFInfo = SOFInfo {
        width: sof.width,
        height: sof.height,
        cps,
        precision: sof.precision,
        components,
    };
    let ljpeg: LjpegDecompressor<'a> = LjpegDecompressor {
        buffer,
        sof: info,
        predictor,
        point_transform,
        dhts: tables,
    };
    assert(ljpeg@.dhts =~= codes_of(tables@));
    assert(ljpeg@.wf());
    Ok(ljpeg)
}

impl<'a> LjpegDecompressor<'a> {
    /// Reads the headers of a lossless JPEG file.
    pub fn new(src: &'a [u8]) -> (res: Result<LjpegDecompressor<'a>, String>)
        ensures
            same_frame(res, ljpeg_file(src@)),
    {
        let len: usize = src.len();
        if len < 2 || src[0] != 0xff || src[1] == 0 || src[1] == 0xff {
            return Err("ljpeg: expected marker not found".to_string());
        }
        if src[1] != 0xd8 {
            return Err(
                "ljpeg: image did not start with SOI, probably not a lossless JPEG file".to_string(),
            );
        }
        let mut sof: Option<SOFInfo> = None;
        let mut tables: Vec<HuffTable> = Vec::new();
        tables.push(HuffTable::empty());
        tables.push(HuffTable::empty());
        tables.push(HuffTable::empty());
        tables.push(HuffTable::empty());
        let mut at: usize = 2;
        let ghost mut seen: Option<Sof> = None;
        assert(codes_of(tables@) =~= seq![no_codes(), no_codes(), no_codes(), no_codes()]);
        loop
            invariant
                2 <= at <= len,
                len == src@.len(),
                four_tables(tables@),
                seen == match sof {
                    Some(info) => Some(info@),
                    None => None,
                },
                sof matches Some(info) ==> {
                    &&& info.precision <= 16
                    &&& 1 <= info.cps <= 4
                    &&& info.components@.len() == info.cps
                    &&& forall|i: int|
                        0 <= i < info.cps ==> (#[trigger] info.components@[i]).dc_tbl_num <= 3
                },
                ljpeg_file(src@) == headers_at(src@, at as int, seen, codes_of(tables@)),
            decreases len - at,
        {
            let p: usize = match find_marker(src, at) {
                Some(p) => p,
                None => return Err("ljpeg: no marker found in the rest of the data".to_string()),
            };
            let marker: u8 = src[p + 1];
            if marker == 0xc3 {
                match parse_sof(src, p + 2) {
                    Ok((found, behind)) => {
                        proof {
                            seen = Some(found@);
                        }
                        sof = Some(found);
                        at = behind;
                    },
                    Err(text) => return Err(text),
                }
            } else if marker == 0xc4 {
                match parse_dht(src, p + 2, &mut tables) {
                    Ok(behind) => {
                        at = behind;
                    },
                    Err(text) => return Err(text),
                }
            } else if marker == 0xda {
                return parse_sos(src, p + 2, sof, tables);
            } else if marker == 0xd9 {
                return Err("ljpeg: reached EOI before SOS".to_string());
            } else if marker == 0xdb {
                return Err("ljpeg: not a lossless JPEG file, found DQT".to_string());
            } else {
                at = p + 2;
            }
        }
    }
}

} // verus!
