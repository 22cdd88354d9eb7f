//! What reading the headers of a lossless JPEG file gives back of what was written.
use vstd::prelude::*;
use crate::ljpeg::frame::{Frame, JpegComponentInfo};
use crate::ljpeg::header::{component_with, dht_at, headers_at, is_marker, ljpeg_file, next_marker, selected, tables_at,
    Sof};
use crate::ljpeg::huffman::{code_count, huff_table_result, no_codes, HuffCode};

verus! {

/// The first marker from `at` on stands at `p`, and is `m`: `ff` and a byte that is neither `00` nor
/// `ff`.
pub open spec fn first_marker(src: Seq<u8>, at: int, p: int, m: u8) -> bool {
    &&& 0 <= at <= p
    &&& p + 1 < src.len()
    &&& src[p] == 0xff
    &&& src[p + 1] == m
    &&& m != 0
    &&& m != 0xff
    &&& forall|q: int|
        at <= q < p ==> !(#[trigger] src[q] == 0xff && src[q + 1] != 0 && src[q + 1] != 0xff)
}

proof fn lemma_first_marker(src: Seq<u8>, at: int, p: int, m: u8)
    requires
        first_marker(src, at, p, m),
    ensures
        next_marker(src, at) == Some(p),
    decreases p - at,
{
    if at < p {
        assert(src[at] == src[at]);
        lemma_first_marker(src, at + 1, p, m);
    }
}

/// A file starts with its start marker; what follows are headers, with no tables and no frame known
/// at first.
pub proof fn files_start_with_a_marker(src: Seq<u8>)
    ensures
        src.len() >= 2 && src[0] == 0xff && src[1] == 0xd8 ==> ljpeg_file(src) == headers_at(
            src,
            2,
            None,
            seq![no_codes(), no_codes(), no_codes(), no_codes()],
        ),
        !(src.len() >= 2 && src[0] == 0xff && src[1] == 0xd8) ==> ljpeg_file(src) is Err,
{
}

/// A frame header states the precision, the height, the width and the components, of which each has
/// an identifier and two sampling factors; the headers go on behind it.
pub proof fn frame_headers_are_read(
    src: Seq<u8>,
    at: int,
    p: int,
    before: Option<Sof>,
    tables: Seq<HuffCode>,
    sof: Sof,
)
    requires
        first_marker(src, at, p, 0xc3),
        p + 10 + 3 * sof.cps <= src.len(),
        1 <= sof.cps <= 4,
        sof.precision <= 16,
        256 * src[p + 2] + src[p + 3] == 8 + 3 * sof.cps,
        src[p + 4] == sof.precision,
        256 * src[p + 5] + src[p + 6] == sof.height,
        256 * src[p + 7] + src[p + 8] == sof.width,
        src[p + 9] == sof.cps,
        sof.components.len() == sof.cps,
        forall|i: int|
            0 <= i < sof.cps ==> {
                let component = #[trigger] sof.components[i];
                &&& component.id == src[p + 10 + 3 * i]
                &&& 16 * component.super_h + component.super_v == src[p + 11 + 3 * i]
                &&& component.super_v < 16
                &&& component.dc_tbl_num == 0
            },
    ensures
        headers_at(src, at, before, tables) == headers_at(
            src,
            p + 10 + 3 * sof.cps,
            Some(sof),
            tables,
        ),
{
    lemma_first_marker(src, at, p, 0xc3);
    let found = crate::ljpeg::header::sof_at(src, p + 2);
    assert(found is Ok);
    let other = (found->Ok_0).0;
    assert forall|i: int| 0 <= i < sof.cps implies #[trigger] other.components[i]
        == sof.components[i] by {
        let component = sof.components[i];
        assert(component.id == src[p + 10 + 3 * i]);
    }
    assert(other.components =~= sof.components);
    assert(other == sof);
}

/// A segment of tables holds tables one behind the other: a byte with the number of the table, the
/// numbers of its code words by their lengths, and the values of the words. Each takes the place of
/// the table with its number.
pub proof fn tables_are_read_one_by_one(
    src: Seq<u8>,
    at: int,
    left: int,
    tables: Seq<HuffCode>,
    id: u8,
    counts: Seq<u8>,
    values: Seq<u8>,
)
    requires
        0 <= at,
        counts.len() == 16,
        values.len() == code_count(counts, 16),
        values.len() <= 256,
        huff_table_result(counts, values) is Ok,
        id <= 3,
        at + 17 + values.len() <= src.len(),
        17 + values.len() <= left,
        src[at] == id,
        src.subrange(at + 1, at + 17) == counts,
        src.subrange(at + 17, at + 17 + values.len()) == values,
    ensures
        tables_at(src, at, left, tables) == tables_at(
            src,
            at + 17 + values.len(),
            left - 17 - values.len(),
            tables.update(id as int, huff_table_result(counts, values)->Ok_0),
        ),
        tables_at(src, at, 0, tables) == Ok::<(Seq<HuffCode>, int), Seq<char>>((tables, at)),
{
}

proof fn lemma_tables_go_on(src: Seq<u8>, at: int, left: int, tables: Seq<HuffCode>)
    ensures
        tables_at(src, at, left, tables) matches Ok((_, behind)) ==> at <= behind,
    decreases left,
{
    if left >= 17 && at + 17 <= src.len() {
        let counts = src.subrange(at + 1, at + 17);
        let codes = code_count(counts, 16) as int;
        let values = src.subrange(at + 17, at + 17 + codes);
        if left >= 17 + codes {
            if let Ok(code) = huff_table_result(counts, values) {
                lemma_tables_go_on(
                    src,
                    at + 17 + codes,
                    left - 17 - codes,
                    tables.update((src[at] % 16) as int, code),
                );
            }
        }
    }
}

/// The tables of a segment are known behind it.
pub proof fn table_segments_are_read(
    src: Seq<u8>,
    at: int,
    p: int,
    sof: Option<Sof>,
    tables: Seq<HuffCode>,
    found: Seq<HuffCode>,
    behind: int,
)
    requires
        first_marker(src, at, p, 0xc4),
        p + 4 <= src.len(),
        256 * src[p + 2] + src[p + 3] >= 2,
        tables_at(src, p + 4, 256 * src[p + 2] + src[p + 3] - 2, tables) == Ok::<
            (Seq<HuffCode>, int),
            Seq<char>,
        >((found, behind)),
    ensures
        headers_at(src, at, sof, tables) == headers_at(src, behind, sof, found),
{
    lemma_first_marker(src, at, p, 0xc4);
    lemma_tables_go_on(src, p + 4, 256 * src[p + 2] + src[p + 3] - 2, tables);
    assert(dht_at(src, p + 2, tables) == Ok::<(Seq<HuffCode>, int), Seq<char>>((found, behind)));
}

/// Markers of no meaning are passed over, and the end of the file and quantization tables are not
/// those of a lossless file.
pub proof fn other_markers_are_passed_over(
    src: Seq<u8>,
    at: int,
    p: int,
    m: u8,
    sof: Option<Sof>,
    tables: Seq<HuffCode>,
)
    requires
        first_marker(src, at, p, m),
        m != 0xc3,
        m != 0xc4,
        m != 0xda,
    ensures
        m != 0xd9 && m != 0xdb ==> headers_at(src, at, sof, tables) == headers_at(
            src,
            p + 2,
            sof,
            tables,
        ),
        m == 0xd9 || m == 0xdb ==> headers_at(src, at, sof, tables) is Err,
{
    lemma_first_marker(src, at, p, m);
}

/// No component has the identifier of another.
pub open spec fn identifiers_differ(components: Seq<JpegComponentInfo>) -> bool {
    forall|i: int, j: int|
        0 <= i < components.len() && 0 <= j < components.len() && i != j ==> (
        #[trigger] components[i]).id != (#[trigger] components[j]).id
}

/// A selector of a scan header names a table for the component with its identifier.
pub open spec fn selector_names(src: Seq<u8>, at: int, j: int, id: u8, table: usize) -> bool {
    &&& src[at + 2 * j] == id
    &&& src[at + 2 * j + 1] as int / 16 == table
    &&& table <= 3
}

proof fn lemma_component_with(components: Seq<JpegComponentInfo>, i: int, from: int)
    requires
        identifiers_differ(components),
        0 <= from <= i < components.len(),
    ensures
        component_with(components, components[i].id, from) == Some(i),
    decreases i - from,
{
    if from < i {
        assert(components[from].id != components[i].id);
        lemma_component_with(components, i, from + 1);
    }
}

/// The components once the first `n` selectors, which name components in their order, have named
/// their tables.
proof fn lemma_selected(
    src: Seq<u8>,
    at: int,
    components: Seq<JpegComponentInfo>,
    named: Seq<JpegComponentInfo>,
    order: spec_fn(int) -> int,
    n: nat,
)
    requires
        identifiers_differ(components),
        named.len() == components.len(),
        n <= components.len(),
        forall|i: int|
            0 <= i < components.len() ==> #[trigger] named[i] == (JpegComponentInfo {
                dc_tbl_num: named[i].dc_tbl_num,
                ..components[i]
            }),
        forall|j: int|
            #![trigger order(j)]
            0 <= j < components.len() ==> 0 <= order(j) < components.len() && selector_names(
                src,
                at,
                j,
                components[order(j)].id,
                named[order(j)].dc_tbl_num,
            ),
    ensures
        selected(src, at, components, n) matches Ok(found) && found.len() == components.len()
            && forall|i: int|
            0 <= i < components.len() ==> #[trigger] found[i] == (if exists|j: int|
                0 <= j < n && #[trigger] order(j) == i {
                named[i]
            } else {
                components[i]
            }),
    decreases n,
{
    if n > 0 {
        let m = (n - 1) as nat;
        lemma_selected(src, at, components, named, order, m);
        let before = selected(src, at, components, m)->Ok_0;
        let i = order(m as int);
        assert(before[i].id == components[i].id);
        assert forall|a: int, b: int|
            0 <= a < before.len() && 0 <= b < before.len() && a != b implies (#[trigger] before[a]).id
            != (#[trigger] before[b]).id by {
            assert(before[a].id == components[a].id);
            assert(before[b].id == components[b].id);
        }
        lemma_component_with(before, i, 0);
        let found = selected(src, at, components, n)->Ok_0;
        assert(found == before.update(
            i,
            JpegComponentInfo { dc_tbl_num: named[i].dc_tbl_num, ..before[i] },
        ));
        assert forall|k: int| 0 <= k < components.len() implies #[trigger] found[k] == (if exists|j: int|
            0 <= j < n && #[trigger] order(j) == k {
            named[k]
        } else {
            components[k]
        }) by {
            if k == i {
                assert(order(m as int) == k);
                assert(named[k] == (JpegComponentInfo {
                    dc_tbl_num: named[k].dc_tbl_num,
                    ..components[k]
                }));
            } else {
                assert(found[k] == before[k]);
                if exists|j: int| 0 <= j < n && #[trigger] order(j) == k {
                    let j = choose|j: int| 0 <= j < n && #[trigger] order(j) == k;
                    assert(j < m);
                }
            }
        }
    }
}

/// A scan header names a table for every component, by the identifiers of the components, in any
/// order, then the predictor and the point transform. The scan is all that follows it.
pub proof fn scan_headers_are_read(
    src: Seq<u8>,
    at: int,
    p: int,
    sof: Sof,
    tables: Seq<HuffCode>,
    named: Seq<JpegComponentInfo>,
    order: spec_fn(int) -> int,
)
    requires
        first_marker(src, at, p, 0xda),
        sof.components.len() == sof.cps,
        identifiers_differ(sof.components),
        p + 8 + 2 * sof.cps <= src.len(),
        src[p + 4] == sof.cps,
        src[p + 7 + 2 * sof.cps] as int % 16 < sof.precision,
        named.len() == sof.cps,
        forall|i: int|
            0 <= i < sof.cps ==> #[trigger] named[i] == (JpegComponentInfo {
                dc_tbl_num: named[i].dc_tbl_num,
                ..sof.components[i]
            }),
        forall|j: int|
            #![trigger order(j)]
            0 <= j < sof.cps ==> 0 <= order(j) < sof.cps && selector_names(
                src,
                p + 5,
                j,
                sof.components[order(j)].id,
                named[order(j)].dc_tbl_num,
            ),
        forall|i: int|
            #![trigger sof.components[i]]
            0 <= i < sof.cps ==> exists|j: int| 0 <= j < sof.cps && #[trigger] order(j) == i,
    ensures
        headers_at(src, at, Some(sof), tables) == Ok::<Frame, Seq<char>>(
            (Frame {
                buffer: src.skip(p + 8 + 2 * sof.cps),
                width: sof.width,
                height: sof.height,
                cps: sof.cps,
                precision: sof.precision,
                components: named,
                predictor: src[p + 5 + 2 * sof.cps] as usize,
                point_transform: (src[p + 7 + 2 * sof.cps] as int % 16) as usize,
                dhts: tables,
            }),
        ),
{
    lemma_first_marker(src, at, p, 0xda);
    lemma_selected(src, p + 5, sof.components, named, order, sof.cps as nat);
    let found = selected(src, p + 5, sof.components, sof.cps as nat)->Ok_0;
    assert forall|i: int| 0 <= i < sof.cps implies #[trigger] found[i] == named[i] by {
        let component = sof.components[i];
    }
    assert(found =~= named);
}

/// A frame header is refused that the file cuts off, or that states a precision of more than 16 bits,
/// another number of components than one to four, or another length than its components have.
pub proof fn damaged_frame_headers_are_refused(
    src: Seq<u8>,
    at: int,
    p: int,
    before: Option<Sof>,
    tables: Seq<HuffCode>,
)
    requires
        first_marker(src, at, p, 0xc3),
        !(p + 10 <= src.len() && src[p + 4] <= 16 && 1 <= src[p + 9] <= 4 && 256 * src[p + 2] + src[p
            + 3] == 8 + 3 * src[p + 9] && p + 10 + 3 * src[p + 9] <= src.len()),
    ensures
        headers_at(src, at, before, tables) is Err,
{
    lemma_first_marker(src, at, p, 0xc3);
}

/// A table is refused that is not one of the four for differences, that the segment or the file cuts
/// off, or whose words are no code. One of more than 256 words is refused, too.
pub proof fn damaged_tables_are_refused(src: Seq<u8>, at: int, left: int, tables: Seq<HuffCode>)
    requires
        0 <= at,
        left > 0,
        !(left >= 17 && at + 17 <= src.len() && src[at] <= 3 && {
            let counts = src.subrange(at + 1, at + 17);
            let words = code_count(counts, 16);
            &&& words <= 256
            &&& 17 + words <= left
            &&& at + 17 + words <= src.len()
            &&& huff_table_result(counts, src.subrange(at + 17, at + 17 + words)) is Ok
        }),
    ensures
        tables_at(src, at, left, tables) is Err,
{
}

/// A segment of tables is refused that the file cuts off in its length, whose length is less than its
/// own two bytes, or in which a table is refused.
pub proof fn damaged_table_segments_are_refused(
    src: Seq<u8>,
    at: int,
    p: int,
    sof: Option<Sof>,
    tables: Seq<HuffCode>,
)
    requires
        first_marker(src, at, p, 0xc4),
        p + 4 > src.len() || 256 * src[p + 2] + src[p + 3] < 2 || tables_at(
            src,
            p + 4,
            256 * src[p + 2] + src[p + 3] - 2,
            tables,
        ) is Err,
    ensures
        headers_at(src, at, sof, tables) is Err,
{
    lemma_first_marker(src, at, p, 0xc4);
}

proof fn lemma_component_found(components: Seq<JpegComponentInfo>, id: u8, from: int)
    requires
        0 <= from,
    ensures
        component_with(components, id, from) matches Some(i) ==> 0 <= i < components.len()
            && components[i].id == id,
    decreases components.len() - from,
{
    if from < components.len() && components[from].id != id {
        lemma_component_found(components, id, from + 1);
    }
}

proof fn lemma_selectors_are_sound(src: Seq<u8>, at: int, components: Seq<JpegComponentInfo>, n: nat)
    ensures
        selected(src, at, components, n) matches Ok(found) ==> {
            &&& found.len() == components.len()
            &&& forall|i: int|
                0 <= i < components.len() ==> (#[trigger] found[i]).id == components[i].id
            &&& forall|j: int|
                0 <= j < n ==> selector_is_sound(src, at, components, #[trigger] (2 * j))
        },
    decreases n,
{
    if n > 0 {
        lemma_selectors_are_sound(src, at, components, (n - 1) as nat);
        if let Ok(before) = selected(src, at, components, (n - 1) as nat) {
            let id = src[at + 2 * (n - 1)];
            lemma_component_found(before, id, 0);
            if let Ok(found) = selected(src, at, components, n) {
                let i = component_with(before, id, 0)->0;
                assert(components[i].id == id);
                assert(selector_is_sound(src, at, components, 2 * (n - 1)));
                assert forall|j: int| 0 <= j < n implies selector_is_sound(
                    src,
                    at,
                    components,
                    #[trigger] (2 * j),
                ) by {
                    if j < n - 1 {
                        assert(selector_is_sound(src, at, components, 2 * j));
                    }
                }
            }
        }
    }
}

/// The selector `k` bytes behind the first names one of four tables for a component that there is.
pub open spec fn selector_is_sound(
    src: Seq<u8>,
    at: int,
    components: Seq<JpegComponentInfo>,
    k: int,
) -> bool {
    &&& src[at + k + 1] < 64
    &&& exists|i: int| 0 <= i < components.len() && (#[trigger] components[i]).id == src[at + k]
}

/// A scan header is refused before a frame header, where the file cuts it off, where it is for another
/// number of components, where it selects a component or a table that there is not, or where its point
/// transform leaves no bits.
pub proof fn damaged_scan_headers_are_refused(
    src: Seq<u8>,
    at: int,
    p: int,
    sof: Option<Sof>,
    tables: Seq<HuffCode>,
)
    requires
        first_marker(src, at, p, 0xda),
        !(sof matches Some(sof) && {
            &&& p + 8 + 2 * sof.cps <= src.len()
            &&& src[p + 4] == sof.cps
            &&& src[p + 7 + 2 * sof.cps] as int % 16 < sof.precision
            &&& forall|j: int|
                0 <= j < sof.cps ==> selector_is_sound(
                    src,
                    p + 5,
                    sof.components,
                    #[trigger] (2 * j),
                )
        }),
    ensures
        headers_at(src, at, sof, tables) is Err,
{
    lemma_first_marker(src, at, p, 0xda);
    if let Some(sof) = sof {
        lemma_selectors_are_sound(src, p + 5, sof.components, sof.cps as nat);
    }
}

/// Headers that no marker follows are refused.
pub proof fn headers_without_a_scan_are_refused(
    src: Seq<u8>,
    at: int,
    sof: Option<Sof>,
    tables: Seq<HuffCode>,
)
    requires
        0 <= at,
        forall|p: int|
            at <= p < src.len() - 1 ==> !(#[trigger] src[p] == 0xff && src[p + 1] != 0 && src[p + 1]
                != 0xff),
    ensures
        headers_at(src, at, sof, tables) is Err,
{
    lemma_no_marker(src, at);
}

proof fn lemma_no_marker(src: Seq<u8>, at: int)
    requires
        0 <= at,
        forall|p: int|
            at <= p < src.len() - 1 ==> !(#[trigger] src[p] == 0xff && src[p + 1] != 0 && src[p + 1]
                != 0xff),
    ensures
        next_marker(src, at) is None,
    decreases src.len() - at,
{
    if at < src.len() {
        lemma_no_marker(src, at + 1);
        assert(src[at] == src[at]);
    }
}

} // verus!
