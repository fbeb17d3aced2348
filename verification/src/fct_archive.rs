//! The archive engine: the fixed 5-byte archive header, the sequential
//! scan that enumerates entries, and the append, list, extract and remove
//! operations, all phrased over the archive's full byte image.

use crate::bytes::{copy_range, is_utf8, push_bytes, push_zeros, u16_from_le};
use crate::error::FctError;
use crate::file_parser::{spec_header_bytes, spec_parse_header, FileParser, HeaderV};
use crate::fs_operations::rel_path_of;
use vstd::prelude::*;

verus! {

/// Mathematical model of one archived entry: its decoded header and the
/// padded payload bytes it occupies on disk.
pub ghost struct EntryV {
    pub header: HeaderV,
    pub payload: Seq<u8>,
}

/// The number of chunk-sized blocks an entry's payload occupies on disk:
/// every full chunk plus one padded block for a trailing partial chunk.
pub open spec fn spec_disk_blocks(h: HeaderV) -> int {
    h.chunk_count + if h.last_chunk_size > 0 {
        1int
    } else {
        0int
    }
}

/// The byte length of an entry's on-disk payload.
pub open spec fn spec_payload_len(h: HeaderV, chunk_size: u16) -> int {
    spec_disk_blocks(h) * chunk_size
}

/// The logical byte length of an entry's content.
pub open spec fn spec_content_len(h: HeaderV, chunk_size: u16) -> int {
    h.chunk_count * chunk_size + h.last_chunk_size
}

/// The content an entry stores: its payload without the zero padding.
pub open spec fn spec_entry_content(e: EntryV, chunk_size: u16) -> Seq<u8> {
    e.payload.take(spec_content_len(e.header, chunk_size))
}

/// The entry recorded when content is appended under `path`: the content
/// split into full chunks plus a zero-padded trailing partial chunk.
pub open spec fn spec_entry_for(path: Seq<u8>, content: Seq<u8>, chunk_size: u16) -> EntryV {
    let h = HeaderV {
        path,
        chunk_count: (content.len() as int / chunk_size as int) as u32,
        last_chunk_size: (content.len() as int % chunk_size as int) as u16,
    };
    EntryV {
        header: h,
        payload: content + Seq::new(
            (spec_payload_len(h, chunk_size) - content.len()) as nat,
            |i: int| 0u8,
        ),
    }
}

/// The entries found by scanning `data` from `pos`: decode a header, check
/// that the descriptor respects `last_chunk_size < chunk_size` and that
/// the full padded payload is present, and continue just past the payload.
/// Anything else ends the scan.
pub open spec fn spec_scan(data: Seq<u8>, chunk_size: u16, pos: int) -> Seq<EntryV>
    decreases data.len() - pos,
{
    match spec_parse_header(data, pos) {
        Some(hp) => {
            let next = hp.1 + spec_payload_len(hp.0, chunk_size);
            if pos < hp.1 && hp.1 <= next && next <= data.len() && hp.0.last_chunk_size
                < chunk_size {
                seq![EntryV { header: hp.0, payload: data.subrange(hp.1, next) }] + spec_scan(
                    data,
                    chunk_size,
                    next,
                )
            } else {
                Seq::empty()
            }
        },
        None => Seq::empty(),
    }
}

/// The position at which the scan of `data` from `pos` stops: the end of
/// the last complete entry.
pub open spec fn spec_scan_end(data: Seq<u8>, chunk_size: u16, pos: int) -> int
    decreases data.len() - pos,
{
    match spec_parse_header(data, pos) {
        Some(hp) => {
            let next = hp.1 + spec_payload_len(hp.0, chunk_size);
            if pos < hp.1 && hp.1 <= next && next <= data.len() && hp.0.last_chunk_size
                < chunk_size {
                spec_scan_end(data, chunk_size, next)
            } else {
                pos
            }
        },
        None => pos,
    }
}

/// The scan never stops before its start position nor past the data.
pub proof fn lemma_scan_end_in_range(data: Seq<u8>, chunk_size: u16, pos: int)
    requires
        0 <= pos <= data.len(),
    ensures
        pos <= spec_scan_end(data, chunk_size, pos) <= data.len(),
    decreases data.len() - pos,
{
    match spec_parse_header(data, pos) {
        Some(hp) => {
            let next = hp.1 + spec_payload_len(hp.0, chunk_size);
            if pos < hp.1 && hp.1 <= next && next <= data.len() && hp.0.last_chunk_size
                < chunk_size {
                lemma_scan_end_in_range(data, chunk_size, next);
            }
        },
        None => {},
    }
}

/// A header decoded wholly inside `data` decodes the same after more bytes
/// are appended.
pub proof fn lemma_parse_header_prefix(data: Seq<u8>, ext: Seq<u8>, pos: int)
    requires
        spec_parse_header(data, pos) is Some,
    ensures
        spec_parse_header(data + ext, pos) == spec_parse_header(data, pos),
{
    let plen = u16_from_le(data[pos + 6], data[pos + 7]);
    assert((data + ext).subrange(pos + 8, pos + 8 + plen) =~= data.subrange(pos + 8, pos + 8
        + plen));
}

/// Scanning extended data first yields every entry of the original data,
/// then continues at the original scan's stopping point.
pub proof fn lemma_scan_append(data: Seq<u8>, ext: Seq<u8>, chunk_size: u16, pos: int)
    requires
        0 <= pos <= data.len(),
    ensures
        spec_scan(data + ext, chunk_size, pos) == spec_scan(data, chunk_size, pos) + spec_scan(
            data + ext,
            chunk_size,
            spec_scan_end(data, chunk_size, pos),
        ),
        spec_scan_end(data + ext, chunk_size, pos) == spec_scan_end(
            data + ext,
            chunk_size,
            spec_scan_end(data, chunk_size, pos),
        ),
    decreases data.len() - pos,
{
    match spec_parse_header(data, pos) {
        Some(hp) => {
            let next = hp.1 + spec_payload_len(hp.0, chunk_size);
            if pos < hp.1 && hp.1 <= next && next <= data.len() && hp.0.last_chunk_size
                < chunk_size {
                lemma_parse_header_prefix(data, ext, pos);
                assert((data + ext).subrange(hp.1, next) =~= data.subrange(hp.1, next));
                lemma_scan_append(data, ext, chunk_size, next);
                assert(spec_scan(data + ext, chunk_size, pos) =~= spec_scan(data, chunk_size, pos)
                    + spec_scan(data + ext, chunk_size, spec_scan_end(data, chunk_size, pos)));
            } else {
                assert(spec_scan(data, chunk_size, pos) =~= Seq::<EntryV>::empty());
                assert(spec_scan(data + ext, chunk_size, pos) =~= Seq::<EntryV>::empty()
                    + spec_scan(data + ext, chunk_size, pos));
            }
        },
        None => {
            assert(spec_scan(data, chunk_size, pos) =~= Seq::<EntryV>::empty());
            assert(spec_scan(data + ext, chunk_size, pos) =~= Seq::<EntryV>::empty() + spec_scan(
                data + ext,
                chunk_size,
                pos,
            ));
        },
    }
}

/// A complete record appended at the end of the data scans as exactly one
/// entry.
pub proof fn lemma_scan_record_at_end(
    data: Seq<u8>,
    chunk_size: u16,
    h: HeaderV,
    payload: Seq<u8>,
)
    requires
        h.path.len() <= 0xFFFF,
        is_utf8(h.path),
        h.last_chunk_size < chunk_size,
        payload.len() == spec_payload_len(h, chunk_size),
    ensures
        spec_scan(data + (spec_header_bytes(h) + payload), chunk_size, data.len() as int) == seq![
            EntryV { header: h, payload },
        ],
        spec_scan_end(data + (spec_header_bytes(h) + payload), chunk_size, data.len() as int) == (
        data + (spec_header_bytes(h) + payload)).len(),
{
    let rec = spec_header_bytes(h) + payload;
    let whole = data + rec;
    let pos = data.len() as int;
    let hb = spec_header_bytes(h);
    crate::bytes::lemma_u32_le_round_trip(h.chunk_count as int);
    crate::bytes::lemma_u16_le_round_trip(h.last_chunk_size as int);
    crate::bytes::lemma_u16_le_round_trip(h.path.len() as int);
    assert forall|i: int| 0 <= i < hb.len() implies whole[pos + i] == hb[i] by {}
    let plen = u16_from_le(whole[pos + 6], whole[pos + 7]);
    assert(plen == h.path.len());
    assert(whole.subrange(pos + 8, pos + 8 + plen) =~= h.path);
    let p2 = pos + 8 + plen;
    assert(spec_parse_header(whole, pos) == Some(
        (HeaderV { path: h.path, chunk_count: h.chunk_count, last_chunk_size: h.last_chunk_size },
        p2),
    ));
    let hv = HeaderV { path: h.path, chunk_count: h.chunk_count, last_chunk_size: h.last_chunk_size };
    assert(hv == h);
    let next = p2 + spec_payload_len(h, chunk_size);
    assert(next == whole.len());
    assert(whole.subrange(p2, next) =~= payload);
    assert(spec_parse_header(whole, next) is None);
    assert(spec_scan(whole, chunk_size, next) =~= Seq::<EntryV>::empty());
    assert(spec_scan(whole, chunk_size, pos) =~= seq![EntryV { header: h, payload }]);
    assert(spec_scan_end(whole, chunk_size, next) == next);
    assert(spec_scan_end(whole, chunk_size, pos) == next);
}

/// Appending one complete record to a fully-scanned archive image extends
/// its entries by exactly that one entry, and the result is again fully
/// scanned.
pub proof fn lemma_archive_append_record(
    data: Seq<u8>,
    chunk_size: u16,
    h: HeaderV,
    payload: Seq<u8>,
)
    requires
        5 <= data.len(),
        spec_scan_end(data, chunk_size, 5) == data.len(),
        h.path.len() <= 0xFFFF,
        is_utf8(h.path),
        h.last_chunk_size < chunk_size,
        payload.len() == spec_payload_len(h, chunk_size),
    ensures
        spec_scan(data + (spec_header_bytes(h) + payload), chunk_size, 5) == spec_scan(
            data,
            chunk_size,
            5,
        ).push(EntryV { header: h, payload }),
        spec_scan_end(data + (spec_header_bytes(h) + payload), chunk_size, 5) == (data + (
        spec_header_bytes(h) + payload)).len(),
{
    let rec = spec_header_bytes(h) + payload;
    lemma_scan_append(data, rec, chunk_size, 5);
    lemma_scan_record_at_end(data, chunk_size, h, payload);
    assert(spec_scan(data + rec, chunk_size, 5) =~= spec_scan(data, chunk_size, 5).push(
        EntryV { header: h, payload },
    ));
}

/// Scanning stops at the same entries when the bytes past the stopping
/// point are dropped, and then consumes the whole remainder.
pub proof fn lemma_scan_take(data: Seq<u8>, chunk_size: u16, pos: int, e: int)
    requires
        0 <= pos <= data.len(),
        e == spec_scan_end(data, chunk_size, pos),
        pos <= e <= data.len(),
    ensures
        spec_scan(data.take(e), chunk_size, pos) == spec_scan(data, chunk_size, pos),
        spec_scan_end(data.take(e), chunk_size, pos) == e,
    decreases data.len() - pos,
{
    let t = data.take(e);
    match spec_parse_header(data, pos) {
        Some(hp) => {
            let next = hp.1 + spec_payload_len(hp.0, chunk_size);
            if pos < hp.1 && hp.1 <= next && next <= data.len() && hp.0.last_chunk_size
                < chunk_size {
                lemma_scan_end_in_range(data, chunk_size, next);
                // next <= e, so the whole record lies inside the kept prefix
                let plen = u16_from_le(data[pos + 6], data[pos + 7]);
                assert(t.subrange(pos + 8, pos + 8 + plen) =~= data.subrange(pos + 8, pos + 8
                    + plen));
                assert(spec_parse_header(t, pos) == spec_parse_header(data, pos));
                assert(t.subrange(hp.1, next) =~= data.subrange(hp.1, next));
                lemma_scan_take(data, chunk_size, next, e);
                assert(spec_scan(t, chunk_size, pos) =~= spec_scan(data, chunk_size, pos));
            } else {
                assert(e == pos);
                assert(t.len() == pos);
                assert(spec_parse_header(t, pos) is None);
                assert(spec_scan(t, chunk_size, pos) =~= spec_scan(data, chunk_size, pos));
            }
        },
        None => {
            assert(e == pos);
            assert(t.len() == pos);
            assert(spec_parse_header(t, pos) is None);
            assert(spec_scan(t, chunk_size, pos) =~= spec_scan(data, chunk_size, pos));
        },
    }
}

/// Whether a batch extraction of `indices` selects position `i`: an empty
/// index list selects every entry.
pub open spec fn spec_index_selected(i: int, indices: Seq<u32>) -> bool {
    indices.len() == 0 || indices.contains(i as u32)
}

/// The (path, content) pairs that a batch extraction of `indices` yields
/// from position `i` on, in on-disk order.
pub open spec fn spec_selected(
    entries: Seq<EntryV>,
    indices: Seq<u32>,
    chunk_size: u16,
    i: int,
) -> Seq<(Seq<u8>, Seq<u8>)>
    decreases entries.len() - i,
{
    if i < 0 || i >= entries.len() {
        Seq::empty()
    } else {
        let rest = spec_selected(entries, indices, chunk_size, i + 1);
        if spec_index_selected(i, indices) {
            seq![(entries[i].header.path, spec_entry_content(entries[i], chunk_size))] + rest
        } else {
            rest
        }
    }
}

/// The entries that survive removing the positions in `indices`, from
/// position `i` on, in their original order.
pub open spec fn spec_kept(entries: Seq<EntryV>, indices: Seq<u32>, i: int) -> Seq<EntryV>
    decreases entries.len() - i,
{
    if i < 0 || i >= entries.len() {
        Seq::empty()
    } else {
        let rest = spec_kept(entries, indices, i + 1);
        if indices.contains(i as u32) {
            rest
        } else {
            seq![entries[i]] + rest
        }
    }
}

/// Ghost view of one batch-append input.
pub ghost struct SourceFileV {
    pub path: Seq<char>,
    pub content: Seq<u8>,
    pub readonly: bool,
}

/// One source file handed to a batch append: the path it was found under,
/// its content bytes, and whether it is read-only.
pub struct SourceFile {
    pub path: String,
    pub content: Vec<u8>,
    pub readonly: bool,
}

impl View for SourceFile {
    type V = SourceFileV;

    open spec fn view(&self) -> SourceFileV {
        SourceFileV { path: self.path@, content: self.content@, readonly: self.readonly }
    }
}

/// Whether appending this source under `root_dir` succeeds: it is not
/// read-only, its relative path resolves, fits the 16-bit length field,
/// and its chunk count fits the 32-bit field.
pub open spec fn spec_add_ok(f: SourceFileV, root_dir: Seq<char>, chunk_size: u16) -> bool {
    &&& !f.readonly
    &&& rel_path_of(root_dir, f.path) is Some
    &&& is_utf8(rel_path_of(root_dir, f.path).unwrap())
    &&& rel_path_of(root_dir, f.path).unwrap().len() <= 0xFFFF
    &&& f.content.len() as int / chunk_size as int <= u32::MAX
}

/// The entries a batch append adds from input `i` on, in input order.
pub open spec fn spec_added(
    files: Seq<SourceFileV>,
    root_dir: Seq<char>,
    chunk_size: u16,
    i: int,
) -> Seq<EntryV>
    decreases files.len() - i,
{
    if i < 0 || i >= files.len() {
        Seq::empty()
    } else {
        let rest = spec_added(files, root_dir, chunk_size, i + 1);
        if spec_add_ok(files[i], root_dir, chunk_size) {
            seq![
                spec_entry_for(
                    rel_path_of(root_dir, files[i].path).unwrap(),
                    files[i].content,
                    chunk_size,
                ),
            ] + rest
        } else {
            rest
        }
    }
}

/// The paths of the inputs a batch append rejects, from input `i` on.
pub open spec fn spec_add_failed(
    files: Seq<SourceFileV>,
    root_dir: Seq<char>,
    chunk_size: u16,
    i: int,
) -> Seq<Seq<char>>
    decreases files.len() - i,
{
    if i < 0 || i >= files.len() {
        Seq::empty()
    } else {
        let rest = spec_add_failed(files, root_dir, chunk_size, i + 1);
        if spec_add_ok(files[i], root_dir, chunk_size) {
            rest
        } else {
            seq![files[i].path] + rest
        }
    }
}

/// An entry's content never extends past its padded payload.
pub proof fn lemma_content_fits(h: HeaderV, chunk_size: u16)
    requires
        h.last_chunk_size < chunk_size,
    ensures
        0 <= spec_content_len(h, chunk_size) <= spec_payload_len(h, chunk_size),
{
    assert(h.chunk_count as int * (chunk_size as int) >= 0) by (nonlinear_arith)
        requires
            0 <= h.chunk_count as int,
            0 <= chunk_size as int,
    ;
    if h.last_chunk_size > 0 {
        assert((h.chunk_count as int + 1) * (chunk_size as int) == h.chunk_count as int * (
        chunk_size as int) + chunk_size as int) by (nonlinear_arith);
    }
}

/// An open archive, held as its full byte image: the 5-byte archive
/// header (3 magic bytes, then the chunk size as 2 little-endian bytes)
/// followed by the entry records back to back. The descriptor cache
/// mirrors the on-disk order unless marked stale.
pub struct FctArchive {
    pub chunk_size: u16,
    pub data: Vec<u8>,
    pub headers: Vec<FileParser>,
    pub headers_stale: bool,
}

impl FctArchive {
    /// The entries this archive holds, in on-disk order.
    pub open spec fn entries(self) -> Seq<EntryV> {
        spec_scan(self.data@, self.chunk_size, 5)
    }

    /// The descriptor cache is either stale or mirrors the scan exactly.
    pub open spec fn cache_ok(self) -> bool {
        !self.headers_stale ==> {
            &&& self.headers@.len() == self.entries().len()
            &&& forall|i: int|
                0 <= i < self.headers@.len() ==> self.headers@[i]@ == self.entries()[i].header
        }
    }

    /// Well-formed: a positive chunk size recorded in a correct archive
    /// header, a scan that consumes the whole image, and a sound cache.
    pub open spec fn wf(self) -> bool {
        &&& self.chunk_size >= 1
        &&& self.data@.len() >= 5
        &&& self.data@[0] == 70u8
        &&& self.data@[1] == 67u8
        &&& self.data@[2] == 84u8
        &&& u16_from_le(self.data@[3], self.data@[4]) == self.chunk_size
        &&& spec_scan_end(self.data@, self.chunk_size, 5) == self.data@.len()
        &&& self.cache_ok()
    }

    /// Create an empty archive with the given chunk size. A zero chunk
    /// size is refused: it admits no payload layout.
    pub fn create_new(chunk_size: u16) -> (r: Result<FctArchive, FctError>)
        ensures
            match r {
                Ok(a) => {
                    &&& chunk_size >= 1
                    &&& a.wf()
                    &&& !a.headers_stale
                    &&& a.chunk_size == chunk_size
                    &&& a.entries() == Seq::<EntryV>::empty()
                    &&& a.data@ == seq![70u8, 67u8, 84u8] + crate::bytes::u16_le_bytes(
                        chunk_size as int,
                    )
                },
                Err(e) => chunk_size == 0 && e == FctError::SizeLimitExceeded,
            },
    {
        if chunk_size == 0 {
            return Err(FctError::SizeLimitExceeded);
        }
        let mut data: Vec<u8> = Vec::new();
        data.push(70);
        data.push(67);
        data.push(84);
        data.push((chunk_size % 256) as u8);
        data.push(((chunk_size / 256) % 256) as u8);
        proof {
            crate::bytes::lemma_u16_le_round_trip(chunk_size as int);
            assert(data@ =~= seq![70u8, 67u8, 84u8] + crate::bytes::u16_le_bytes(
                chunk_size as int,
            ));
        }
        let a = FctArchive { chunk_size, data, headers: Vec::new(), headers_stale: false };
        proof {
            assert(a.entries() =~= Seq::<EntryV>::empty());
        }
        Ok(a)
    }

    /// Scan the whole image: the decoded descriptors in on-disk order and
    /// the position where the scan stopped.
    fn scan_headers(data: &Vec<u8>, chunk_size: u16) -> (r: (Vec<FileParser>, usize))
        requires
            chunk_size >= 1,
            5 <= data@.len(),
        ensures
            r.1 == spec_scan_end(data@, chunk_size, 5),
            r.0@.len() == spec_scan(data@, chunk_size, 5).len(),
            forall|i: int|
                0 <= i < r.0@.len() ==> r.0@[i]@ == spec_scan(data@, chunk_size, 5)[i].header,
    {
        let ghost all = spec_scan(data@, chunk_size, 5);
        let mut pos: usize = 5;
        let mut hs: Vec<FileParser> = Vec::new();
        proof {
            assert(all.skip(0) =~= all);
        }
        loop
            invariant
                chunk_size >= 1,
                5 <= pos <= data@.len(),
                all == spec_scan(data@, chunk_size, 5),
                hs@.len() <= all.len(),
                spec_scan(data@, chunk_size, pos as int) == all.skip(hs@.len() as int),
                spec_scan_end(data@, chunk_size, pos as int) == spec_scan_end(data@, chunk_size, 5),
                forall|i: int| 0 <= i < hs@.len() ==> hs@[i]@ == all[i].header,
            ensures
                5 <= pos <= data@.len(),
                hs@.len() == all.len(),
                pos == spec_scan_end(data@, chunk_size, 5),
                forall|i: int| 0 <= i < hs@.len() ==> hs@[i]@ == all[i].header,
            decreases data@.len() - pos,
        {
            match Self::step_entry(data, chunk_size, pos) {
                None => {
                    proof {
                        assert(all.skip(hs@.len() as int).len() == 0);
                    }
                    break ;
                },
                Some((h, p2, next)) => {
                    proof {
                        let k = hs@.len() as int;
                        let scan_next = spec_scan(data@, chunk_size, next as int);
                        let e = EntryV {
                            header: h@,
                            payload: data@.subrange(p2 as int, next as int),
                        };
                        assert(spec_scan(data@, chunk_size, pos as int) == seq![e] + scan_next);
                        assert(all.skip(k)[0] == e);
                        assert(all[k].header == h@);
                        assert(all.skip(k + 1) =~= all.skip(k).skip(1));
                        assert((seq![e] + scan_next).skip(1) =~= scan_next);
                        assert(all.skip(k + 1) == scan_next);
                    }
                    hs.push(h);
                    pos = next;
                },
            }
        }
        (hs, pos)
    }

    /// Decode the entry at `pos` and locate its payload: the descriptor,
    /// the payload's start, and the position just past it — or None when
    /// no complete entry lies at `pos`, which ends a scan.
    fn step_entry(data: &Vec<u8>, chunk_size: u16, pos: usize) -> (r: Option<
        (FileParser, usize, usize),
    >)
        requires
            chunk_size >= 1,
            pos <= data@.len(),
        ensures
            match r {
                Some(t) => {
                    &&& spec_parse_header(data@, pos as int) == Some((t.0@, t.1 as int))
                    &&& pos < t.1 <= t.2 <= data@.len()
                    &&& t.2 == t.1 + spec_payload_len(t.0@, chunk_size)
                    &&& t.0@.last_chunk_size < chunk_size
                    &&& t.0@.path.len() <= 0xFFFF
                    &&& spec_scan(data@, chunk_size, pos as int) == seq![
                        EntryV {
                            header: t.0@,
                            payload: data@.subrange(t.1 as int, t.2 as int),
                        },
                    ] + spec_scan(data@, chunk_size, t.2 as int)
                    &&& spec_scan_end(data@, chunk_size, pos as int) == spec_scan_end(
                        data@,
                        chunk_size,
                        t.2 as int,
                    )
                },
                None => {
                    &&& spec_scan(data@, chunk_size, pos as int) == Seq::<EntryV>::empty()
                    &&& spec_scan_end(data@, chunk_size, pos as int) == pos
                },
            },
    {
        let (h, p2) = match FileParser::from_archive(data, pos) {
            Err(_) => {
                proof {
                    assert(spec_scan(data@, chunk_size, pos as int) =~= Seq::<EntryV>::empty());
                }
                return None;
            },
            Ok(hp) => hp,
        };
        if !(h.last_chunk_size < chunk_size) {
            proof {
                assert(spec_scan(data@, chunk_size, pos as int) =~= Seq::<EntryV>::empty());
            }
            return None;
        }
        let blocks: u64 = h.chunk_count as u64 + if h.last_chunk_size > 0 {
            1
        } else {
            0
        };
        proof {
            assert((blocks as int) * (chunk_size as int) <= 0x1_0000_0000 * 0xFFFF)
                by (nonlinear_arith)
                requires
                    0 <= blocks as int <= 0x1_0000_0000,
                    0 <= chunk_size as int <= 0xFFFF,
            ;
            assert(blocks as int == spec_disk_blocks(h@));
        }
        let pay: u64 = blocks * (chunk_size as u64);
        if ((data.len() - p2) as u64) < pay {
            proof {
                assert(p2 + spec_payload_len(h@, chunk_size) > data@.len());
                assert(spec_scan(data@, chunk_size, pos as int) =~= Seq::<EntryV>::empty());
            }
            return None;
        }
        let next: usize = p2 + (pay as usize);
        Some((h, p2, next))
    }

    /// Open an archive from its full byte image: check the magic marker
    /// and the chunk size, scan every entry, and drop any trailing bytes
    /// that do not form a complete entry (a truncated tail is treated as
    /// end of archive).
    pub fn open(data: Vec<u8>) -> (r: Result<FctArchive, FctError>)
        ensures
            match r {
                Ok(a) => {
                    &&& data@.len() >= 5
                    &&& data@[0] == 70 && data@[1] == 67 && data@[2] == 84
                    &&& u16_from_le(data@[3], data@[4]) == a.chunk_size
                    &&& a.chunk_size >= 1
                    &&& a.wf()
                    &&& !a.headers_stale
                    &&& a.entries() == spec_scan(data@, a.chunk_size, 5)
                },
                Err(e) => {
                    &&& e == FctError::FormatError
                    &&& (data@.len() < 5 || data@[0] != 70 || data@[1] != 67 || data@[2] != 84
                        || u16_from_le(data@[3], data@[4]) == 0)
                },
            },
    {
        if data.len() < 5 {
            return Err(FctError::FormatError);
        }
        if data[0] != 70 || data[1] != 67 || data[2] != 84 {
            return Err(FctError::FormatError);
        }
        let chunk_size: u16 = data[3] as u16 + 256 * (data[4] as u16);
        if chunk_size == 0 {
            return Err(FctError::FormatError);
        }
        let (headers, end) = Self::scan_headers(&data, chunk_size);
        let ghost orig = data@;
        let mut data = data;
        proof {
            lemma_scan_end_in_range(orig, chunk_size, 5);
        }
        data.truncate(end);
        proof {
            lemma_scan_take(orig, chunk_size, 5, end as int);
            assert(data@ =~= orig.take(end as int));
        }
        let a = FctArchive { chunk_size, data, headers, headers_stale: false };
        Ok(a)
    }

    /// Append one source file at the end of the archive: write its entry
    /// header, then its content in chunk-sized blocks with the trailing
    /// partial block zero-padded. The file is recorded under `file_path`
    /// taken relative to `root_dir`; `content` holds its bytes and
    /// `readonly` whether it may not be archived.
    pub fn add_file(
        &mut self,
        file_path: &str,
        root_dir: &str,
        content: &Vec<u8>,
        readonly: bool,
    ) -> (r: Result<(), FctError>)
        requires
            old(self).wf(),
        ensures
            final(self).wf(),
            final(self).chunk_size == old(self).chunk_size,
            match r {
                Ok(()) => {
                    &&& !readonly
                    &&& rel_path_of(root_dir@, file_path@) is Some
                    &&& is_utf8(rel_path_of(root_dir@, file_path@).unwrap())
                    &&& rel_path_of(root_dir@, file_path@).unwrap().len() <= 0xFFFF
                    &&& content@.len() as int / old(self).chunk_size as int <= u32::MAX
                    &&& final(self).entries() == old(self).entries().push(
                        spec_entry_for(
                            rel_path_of(root_dir@, file_path@).unwrap(),
                            content@,
                            old(self).chunk_size,
                        ),
                    )
                },
                Err(e) => {
                    &&& *final(self) == *old(self)
                    &&& match e {
                        FctError::PermissionDenied => readonly,
                        FctError::PathError => {
                            &&& !readonly
                            &&& (rel_path_of(root_dir@, file_path@) is None || !is_utf8(
                                rel_path_of(root_dir@, file_path@).unwrap(),
                            ))
                        },
                        FctError::SizeLimitExceeded => {
                            &&& !readonly
                            &&& rel_path_of(root_dir@, file_path@) is Some
                            &&& is_utf8(rel_path_of(root_dir@, file_path@).unwrap())
                            &&& (content@.len() as int / old(self).chunk_size as int > u32::MAX
                                || rel_path_of(root_dir@, file_path@).unwrap().len() > 0xFFFF)
                        },
                        _ => false,
                    }
                },
            },
    {
        let cs = self.chunk_size;
        let parser = match FileParser::from_file(
            file_path,
            root_dir,
            cs,
            content.len() as u64,
            readonly,
        ) {
            Ok(p) => p,
            Err(e) => {
                return Err(e);
            },
        };
        let header_bytes = match parser.generate_header() {
            Ok(hb) => hb,
            Err(e) => {
                return Err(e);
            },
        };
        let cc = parser.chunk_count;
        let last = parser.last_chunk_size;
        let blocks: u64 = cc as u64 + if last > 0 {
            1
        } else {
            0
        };
        proof {
            assert((blocks as int) * (cs as int) <= 0x1_0000_0000 * 0xFFFF) by (nonlinear_arith)
                requires
                    0 <= blocks as int <= 0x1_0000_0000,
                    0 <= cs as int <= 0xFFFF,
            ;
            assert(blocks as int == spec_disk_blocks(parser@));
        }
        let pay: u64 = blocks * (cs as u64);
        let len = content.len();
        proof {
            vstd::arithmetic::div_mod::lemma_fundamental_div_mod(len as int, cs as int);
            vstd::arithmetic::div_mod::lemma_mod_bound(len as int, cs as int);
            assert((cc as int + 1) * (cs as int) == cc as int * (cs as int) + cs as int)
                by (nonlinear_arith);
            assert(cc as int * (cs as int) == (cs as int) * (cc as int)) by (nonlinear_arith);
            assert((len as int) <= (pay as int));
            assert((pay as int) < (len as int) + (cs as int));
        }
        let pad: usize = (pay - len as u64) as usize;
        let ghost old_data = self.data@;
        let ghost h = parser@;
        let ghost payload = content@ + Seq::new(pad as nat, |i: int| 0u8);
        push_bytes(&mut self.data, &header_bytes);
        push_bytes(&mut self.data, content);
        push_zeros(&mut self.data, pad);
        proof {
            assert(self.data@ =~= old_data + (spec_header_bytes(h) + payload));
            assert(payload.len() == spec_payload_len(h, cs));
            lemma_archive_append_record(old_data, cs, h, payload);
            let e = spec_entry_for(rel_path_of(root_dir@, file_path@).unwrap(), content@, cs);
            assert(e.header == h);
            assert(e.payload =~= payload);
            assert(EntryV { header: h, payload } == e);
        }
        if !self.headers_stale {
            self.headers.push(parser);
        }
        Ok(())
    }

    /// The logical content length of a decoded entry, in bytes.
    fn content_len_of(h: &FileParser, chunk_size: u16) -> (r: u64)
        ensures
            r == spec_content_len(h@, chunk_size),
    {
        proof {
            assert((h.chunk_count as int) * (chunk_size as int) <= 0xFFFF_FFFF * 0xFFFF)
                by (nonlinear_arith)
                requires
                    0 <= h.chunk_count as int <= 0xFFFF_FFFF,
                    0 <= chunk_size as int <= 0xFFFF,
            ;
            assert((h.chunk_count as int) * (chunk_size as int) >= 0) by (nonlinear_arith)
                requires
                    0 <= h.chunk_count as int,
                    0 <= chunk_size as int,
            ;
        }
        (h.chunk_count as u64) * (chunk_size as u64) + (h.last_chunk_size as u64)
    }

    /// Extract one entry by 0-based index: its archive-relative path and
    /// its exact content bytes, the trailing zero padding stripped.
    pub fn extract_file(&self, index: u32) -> (r: Result<(Vec<u8>, Vec<u8>), FctError>)
        requires
            self.wf(),
        ensures
            match r {
                Ok(pc) => {
                    &&& (index as int) < self.entries().len()
                    &&& pc.0@ == self.entries()[index as int].header.path
                    &&& pc.1@ == spec_entry_content(self.entries()[index as int], self.chunk_size)
                },
                Err(e) => {
                    &&& e == FctError::NotFound
                    &&& index as int >= self.entries().len()
                },
            },
    {
        let ghost all = self.entries();
        let cs = self.chunk_size;
        let mut pos: usize = 5;
        let mut k: u32 = 0;
        proof {
            assert(all.skip(0) =~= all);
        }
        while k < index
            invariant
                self.wf(),
                cs == self.chunk_size,
                0 <= k <= index,
                5 <= pos <= self.data@.len(),
                all == self.entries(),
                k as int <= all.len(),
                spec_scan(self.data@, cs, pos as int) == all.skip(k as int),
            decreases index - k,
        {
            match Self::step_entry(&self.data, cs, pos) {
                None => {
                    proof {
                        assert(all.skip(k as int).len() == 0);
                    }
                    return Err(FctError::NotFound);
                },
                Some((_h, _p2, next)) => {
                    proof {
                        let scan_next = spec_scan(self.data@, cs, next as int);
                        assert(all.skip(k as int + 1) =~= all.skip(k as int).skip(1));
                        assert((all.skip(k as int)).skip(1) =~= scan_next);
                    }
                    pos = next;
                    k = k + 1;
                },
            }
        }
        match Self::step_entry(&self.data, cs, pos) {
            None => {
                proof {
                    assert(all.skip(index as int).len() == 0);
                }
                Err(FctError::NotFound)
            },
            Some((h, p2, next)) => {
                proof {
                    let e = EntryV {
                        header: h@,
                        payload: self.data@.subrange(p2 as int, next as int),
                    };
                    assert(all.skip(index as int)[0] == e);
                    assert(all[index as int] == e);
                    lemma_content_fits(h@, cs);
                }
                let clen_wide: u64 = Self::content_len_of(&h, cs);
                let clen: usize = clen_wide as usize;
                let content = copy_range(&self.data, p2, p2 + clen);
                proof {
                    assert(content@ =~= spec_entry_content(all[index as int], cs));
                }
                Ok((h.file_path, content))
            },
        }
    }

    /// List the archive: each entry's path and its logical content length
    /// in bytes, in on-disk order.
    pub fn list_files(&mut self) -> (r: Vec<(Vec<u8>, u64)>)
        requires
            old(self).wf(),
        ensures
            final(self).wf(),
            final(self).data@ == old(self).data@,
            final(self).chunk_size == old(self).chunk_size,
            r@.len() == final(self).entries().len(),
            forall|i: int|
                0 <= i < r@.len() ==> r@[i].0@ == final(self).entries()[i].header.path && r@[i].1
                    == spec_content_len(final(self).entries()[i].header, final(self).chunk_size),
    {
        let cs = self.chunk_size;
        let _ = self.get_headers();
        let mut out: Vec<(Vec<u8>, u64)> = Vec::new();
        let n = self.headers.len();
        let mut i: usize = 0;
        while i < n
            invariant
                self.wf(),
                !self.headers_stale,
                cs == self.chunk_size,
                n == self.headers@.len(),
                0 <= i <= n,
                out@.len() == i,
                forall|j: int|
                    0 <= j < i ==> out@[j].0@ == self.entries()[j].header.path && out@[j].1
                        == spec_content_len(self.entries()[j].header, self.chunk_size),
            decreases n - i,
        {
            let h = &self.headers[i];
            let path = copy_range(&h.file_path, 0, h.file_path.len());
            let clen = Self::content_len_of(h, cs);
            proof {
                assert(path@ =~= h@.path);
            }
            out.push((path, clen));
            i = i + 1;
        }
        out
    }

    /// Whether `v` holds `x`.
    fn vec_contains_u32(v: &Vec<u32>, x: u32) -> (r: bool)
        ensures
            r == v@.contains(x),
    {
        let n = v.len();
        let mut i: usize = 0;
        while i < n
            invariant
                0 <= i <= n,
                n == v@.len(),
                forall|j: int| 0 <= j < i ==> v@[j] != x,
            decreases n - i,
        {
            if v[i] == x {
                assert(v@[i as int] == x);
                return true;
            }
            i = i + 1;
        }
        false
    }

    /// Extract several entries in one pass, in on-disk order: each
    /// selected entry's path and exact content bytes. An empty index list
    /// selects every entry; an index beyond the entry count selects
    /// nothing.
    pub fn extract_files(&self, indices: &Vec<u32>) -> (r: Vec<(Vec<u8>, Vec<u8>)>)
        requires
            self.wf(),
        ensures
            ({
                let sel = spec_selected(self.entries(), indices@, self.chunk_size, 0);
                &&& r@.len() == sel.len()
                &&& forall|j: int|
                    0 <= j < r@.len() ==> r@[j].0@ == sel[j].0 && r@[j].1@ == sel[j].1
            }),
    {
        let ghost all = self.entries();
        let ghost sel = spec_selected(all, indices@, self.chunk_size, 0);
        let cs = self.chunk_size;
        let mut out: Vec<(Vec<u8>, Vec<u8>)> = Vec::new();
        let mut pos: usize = 5;
        let mut i: usize = 0;
        proof {
            assert(all.skip(0) =~= all);
        }
        loop
            invariant
                self.wf(),
                cs == self.chunk_size,
                all == self.entries(),
                sel == spec_selected(all, indices@, cs, 0),
                5 <= pos <= self.data@.len(),
                0 <= i <= all.len(),
                i <= pos,
                spec_scan(self.data@, cs, pos as int) == all.skip(i as int),
                sel == out@.map_values(|p: (Vec<u8>, Vec<u8>)| (p.0@, p.1@)) + spec_selected(
                    all,
                    indices@,
                    cs,
                    i as int,
                ),
            ensures
                sel == out@.map_values(|p: (Vec<u8>, Vec<u8>)| (p.0@, p.1@)),
            decreases self.data@.len() - pos,
        {
            match Self::step_entry(&self.data, cs, pos) {
                None => {
                    proof {
                        assert(all.skip(i as int).len() == 0);
                        assert(i as int == all.len());
                        assert(spec_selected(all, indices@, cs, i as int) =~= Seq::<
                            (Seq<u8>, Seq<u8>),
                        >::empty());
                        assert(sel =~= out@.map_values(|p: (Vec<u8>, Vec<u8>)| (p.0@, p.1@)));
                    }
                    break ;
                },
                Some((h, p2, next)) => {
                    proof {
                        let e = EntryV {
                            header: h@,
                            payload: self.data@.subrange(p2 as int, next as int),
                        };
                        assert(all.skip(i as int)[0] == e);
                        assert(all[i as int] == e);
                        assert(all.skip(i as int + 1) =~= all.skip(i as int).skip(1));
                        assert((all.skip(i as int)).skip(1) =~= spec_scan(
                            self.data@,
                            cs,
                            next as int,
                        ));
                    }
                    let wanted = if indices.len() == 0 {
                        true
                    } else {
                        Self::vec_contains_u32(indices, i as u32)
                    };
                    if wanted {
                        proof {
                            lemma_content_fits(h@, cs);
                        }
                        let clen_wide: u64 = Self::content_len_of(&h, cs);
                        let clen: usize = clen_wide as usize;
                        let content = copy_range(&self.data, p2, p2 + clen);
                        let ghost old_out = out@;
                        proof {
                            assert(content@ =~= spec_entry_content(all[i as int], cs));
                        }
                        out.push((h.file_path, content));
                        proof {
                            let f = |p: (Vec<u8>, Vec<u8>)| (p.0@, p.1@);
                            assert(out@.map_values(f) =~= old_out.map_values(f).push(
                                (all[i as int].header.path, spec_entry_content(all[i as int], cs)),
                            ));
                            assert(spec_selected(all, indices@, cs, i as int) == seq![
                                (all[i as int].header.path, spec_entry_content(all[i as int], cs)),
                            ] + spec_selected(all, indices@, cs, i as int + 1));
                            assert(sel =~= out@.map_values(f) + spec_selected(
                                all,
                                indices@,
                                cs,
                                i as int + 1,
                            ));
                        }
                    } else {
                        proof {
                            assert(spec_selected(all, indices@, cs, i as int) == spec_selected(
                                all,
                                indices@,
                                cs,
                                i as int + 1,
                            ));
                        }
                    }
                    pos = next;
                    i = i + 1;
                },
            }
        }
        proof {
            let f = |p: (Vec<u8>, Vec<u8>)| (p.0@, p.1@);
            assert(forall|j: int|
                0 <= j < out@.len() ==> out@.map_values(f)[j] == (out@[j].0@, out@[j].1@));
        }
        out
    }

    /// Remove entries by 0-based index, rewriting the archive so that it
    /// holds exactly the surviving entries in their original order. An
    /// index beyond the entry count removes nothing. An archive with no
    /// entries is refused. The rewrite replaces the whole image, so the
    /// cache is left stale.
    pub fn remove_files(&mut self, file_indices: &Vec<u32>) -> (r: Result<(), FctError>)
        requires
            old(self).wf(),
        ensures
            final(self).wf(),
            final(self).chunk_size == old(self).chunk_size,
            match r {
                Ok(()) => {
                    &&& old(self).entries().len() > 0
                    &&& final(self).entries() == spec_kept(old(self).entries(), file_indices@, 0)
                },
                Err(e) => {
                    &&& e == FctError::NotFound
                    &&& old(self).entries().len() == 0
                    &&& final(self).data@ == old(self).data@
                },
            },
    {
        let cs = self.chunk_size;
        let _ = self.get_headers();
        if self.headers.len() == 0 {
            return Err(FctError::NotFound);
        }
        let ghost all = self.entries();
        let mut new_data = copy_range(&self.data, 0, 5);
        let mut pos: usize = 5;
        let mut i: usize = 0;
        proof {
            assert(all.skip(0) =~= all);
            assert(new_data@.len() == 5);
            assert(spec_parse_header(new_data@, 5) is None);
            assert(spec_scan(new_data@, cs, 5) =~= Seq::<EntryV>::empty());
            assert(spec_scan_end(new_data@, cs, 5) == 5);
        }
        loop
            invariant
                self.wf(),
                cs == self.chunk_size,
                all == self.entries(),
                5 <= pos <= self.data@.len(),
                0 <= i <= all.len(),
                i <= pos,
                spec_scan(self.data@, cs, pos as int) == all.skip(i as int),
                new_data@.len() >= 5,
                new_data@[0] == 70u8,
                new_data@[1] == 67u8,
                new_data@[2] == 84u8,
                u16_from_le(new_data@[3], new_data@[4]) == cs,
                spec_scan_end(new_data@, cs, 5) == new_data@.len(),
                spec_kept(all, file_indices@, 0) == spec_scan(new_data@, cs, 5) + spec_kept(
                    all,
                    file_indices@,
                    i as int,
                ),
            ensures
                new_data@.len() >= 5,
                new_data@[0] == 70u8,
                new_data@[1] == 67u8,
                new_data@[2] == 84u8,
                u16_from_le(new_data@[3], new_data@[4]) == cs,
                spec_scan_end(new_data@, cs, 5) == new_data@.len(),
                spec_scan(new_data@, cs, 5) == spec_kept(all, file_indices@, 0),
            decreases self.data@.len() - pos,
        {
            match Self::step_entry(&self.data, cs, pos) {
                None => {
                    proof {
                        assert(all.skip(i as int).len() == 0);
                        assert(i as int == all.len());
                        assert(spec_kept(all, file_indices@, i as int) =~= Seq::<EntryV>::empty());
                        assert(spec_scan(new_data@, cs, 5) =~= spec_kept(all, file_indices@, 0));
                    }
                    break ;
                },
                Some((h, p2, next)) => {
                    proof {
                        let e = EntryV {
                            header: h@,
                            payload: self.data@.subrange(p2 as int, next as int),
                        };
                        assert(all.skip(i as int)[0] == e);
                        assert(all[i as int] == e);
                        assert(all.skip(i as int + 1) =~= all.skip(i as int).skip(1));
                        assert((all.skip(i as int)).skip(1) =~= spec_scan(
                            self.data@,
                            cs,
                            next as int,
                        ));
                        assert(is_utf8(h@.path));
                    }
                    let keep = !Self::vec_contains_u32(file_indices, i as u32);
                    if keep {
                        let hb = match h.generate_header() {
                            Ok(v) => v,
                            Err(_) => {
                                proof {
                                    assert(false);
                                }
                                return Err(FctError::FormatError);
                            },
                        };
                        let payload = copy_range(&self.data, p2, next);
                        let ghost old_new = new_data@;
                        push_bytes(&mut new_data, &hb);
                        push_bytes(&mut new_data, &payload);
                        proof {
                            assert(new_data@ =~= old_new + (spec_header_bytes(h@) + payload@));
                            lemma_archive_append_record(old_new, cs, h@, payload@);
                            assert(spec_kept(all, file_indices@, i as int) == seq![all[i as int]]
                                + spec_kept(all, file_indices@, i as int + 1));
                            assert(spec_scan(new_data@, cs, 5) =~= spec_scan(old_new, cs, 5).push(
                                all[i as int],
                            ));
                            assert(spec_kept(all, file_indices@, 0) =~= spec_scan(new_data@, cs, 5)
                                + spec_kept(all, file_indices@, i as int + 1));
                        }
                    } else {
                        proof {
                            assert(spec_kept(all, file_indices@, i as int) == spec_kept(
                                all,
                                file_indices@,
                                i as int + 1,
                            ));
                        }
                    }
                    pos = next;
                    i = i + 1;
                },
            }
        }
        self.data = new_data;
        self.headers = Vec::new();
        self.headers_stale = true;
        Ok(())
    }

    /// Append several source files in order, collecting the paths of the
    /// rejected ones. A rejected file never aborts the batch: everything
    /// appended before and after it remains.
    pub fn add_files(&mut self, files: &Vec<SourceFile>, root_dir: &str) -> (failed: Vec<String>)
        requires
            old(self).wf(),
        ensures
            final(self).wf(),
            final(self).chunk_size == old(self).chunk_size,
            final(self).entries() == old(self).entries() + spec_added(
                files@.map_values(|f: SourceFile| f@),
                root_dir@,
                old(self).chunk_size,
                0,
            ),
            failed@.map_values(|s: String| s@) == spec_add_failed(
                files@.map_values(|f: SourceFile| f@),
                root_dir@,
                old(self).chunk_size,
                0,
            ),
    {
        let cs = self.chunk_size;
        let ghost fv = files@.map_values(|f: SourceFile| f@);
        let ghost base = self.entries();
        let mut failed: Vec<String> = Vec::new();
        let n = files.len();
        let mut i: usize = 0;
        proof {
            assert(base + spec_added(fv, root_dir@, cs, 0) =~= self.entries() + spec_added(
                fv,
                root_dir@,
                cs,
                0,
            ));
            assert(failed@.map_values(|s: String| s@) + spec_add_failed(fv, root_dir@, cs, 0)
                =~= spec_add_failed(fv, root_dir@, cs, 0));
        }
        while i < n
            invariant
                self.wf(),
                cs == self.chunk_size,
                n == files@.len(),
                fv == files@.map_values(|f: SourceFile| f@),
                fv.len() == n,
                0 <= i <= n,
                base + spec_added(fv, root_dir@, cs, 0) == self.entries() + spec_added(
                    fv,
                    root_dir@,
                    cs,
                    i as int,
                ),
                failed@.map_values(|s: String| s@) + spec_add_failed(fv, root_dir@, cs, i as int)
                    == spec_add_failed(fv, root_dir@, cs, 0),
            decreases n - i,
        {
            let f = &files[i];
            proof {
                assert(fv[i as int] == files@[i as int]@);
            }
            let r = self.add_file(f.path.as_str(), root_dir, &f.content, f.readonly);
            match r {
                Ok(()) => {
                    proof {
                        assert(spec_add_ok(fv[i as int], root_dir@, cs));
                        let e = spec_entry_for(
                            rel_path_of(root_dir@, fv[i as int].path).unwrap(),
                            fv[i as int].content,
                            cs,
                        );
                        assert(spec_added(fv, root_dir@, cs, i as int) == seq![e] + spec_added(
                            fv,
                            root_dir@,
                            cs,
                            i as int + 1,
                        ));
                        assert(base + spec_added(fv, root_dir@, cs, 0) =~= self.entries()
                            + spec_added(fv, root_dir@, cs, i as int + 1));
                    }
                },
                Err(_) => {
                    proof {
                        assert(!spec_add_ok(fv[i as int], root_dir@, cs));
                        assert(spec_add_failed(fv, root_dir@, cs, i as int) == seq![
                            fv[i as int].path,
                        ] + spec_add_failed(fv, root_dir@, cs, i as int + 1));
                    }
                    let ghost old_failed = failed@;
                    failed.push(f.path.clone());
                    proof {
                        assert(failed@.map_values(|s: String| s@) =~= old_failed.map_values(
                            |s: String| s@,
                        ).push(fv[i as int].path));
                        assert(failed@.map_values(|s: String| s@) + spec_add_failed(
                            fv,
                            root_dir@,
                            cs,
                            i as int + 1,
                        ) =~= spec_add_failed(fv, root_dir@, cs, 0));
                    }
                },
            }
            i = i + 1;
        }
        proof {
            assert(spec_added(fv, root_dir@, cs, n as int) =~= Seq::<EntryV>::empty());
            assert(spec_add_failed(fv, root_dir@, cs, n as int) =~= Seq::<Seq<char>>::empty());
            assert(self.entries() =~= base + spec_added(fv, root_dir@, cs, 0));
            assert(failed@.map_values(|s: String| s@) =~= spec_add_failed(fv, root_dir@, cs, 0));
        }
        failed
    }

    /// The cached entry descriptors, in on-disk order, rebuilt by a full
    /// rescan when the cache is stale.
    pub fn get_headers(&mut self) -> (r: &Vec<FileParser>)
        requires
            old(self).wf(),
        ensures
            final(self).wf(),
            !final(self).headers_stale,
            final(self).data@ == old(self).data@,
            final(self).chunk_size == old(self).chunk_size,
            r@ == final(self).headers@,
    {
        if self.headers_stale {
            let (hs, _end) = Self::scan_headers(&self.data, self.chunk_size);
            self.headers = hs;
            self.headers_stale = false;
        }
        &self.headers
    }
}

/// Round trip: for any content and any chunk size of at least 1, the
/// entry recorded by an append stores the content exactly — taking the
/// logical length back off the padded payload yields the same bytes,
/// whether or not the length is a multiple of the chunk size.
pub proof fn lemma_round_trip(path: Seq<u8>, content: Seq<u8>, chunk_size: u16)
    requires
        chunk_size >= 1,
        content.len() as int / chunk_size as int <= u32::MAX,
    ensures
        spec_entry_content(spec_entry_for(path, content, chunk_size), chunk_size) == content,
{
    let cs = chunk_size as int;
    let len = content.len() as int;
    let e = spec_entry_for(path, content, chunk_size);
    let h = e.header;
    vstd::arithmetic::div_mod::lemma_fundamental_div_mod(len, cs);
    vstd::arithmetic::div_mod::lemma_mod_bound(len, cs);
    vstd::arithmetic::div_mod::lemma_div_pos_is_pos(len, cs);
    assert(h.chunk_count as int == len / cs);
    assert(h.last_chunk_size as int == len % cs);
    assert(cs * (len / cs) == (len / cs) * cs) by (nonlinear_arith);
    assert(spec_content_len(h, chunk_size) == len);
    if h.last_chunk_size > 0 {
        assert((h.chunk_count as int + 1) * cs == h.chunk_count as int * cs + cs)
            by (nonlinear_arith);
    }
    assert(spec_payload_len(h, chunk_size) >= len);
    assert(e.payload.take(len) =~= content);
}

/// Boundary sizes: a file whose length is an exact multiple of the chunk
/// size gets no padded trailing block — its payload is its content as it
/// stands. In particular a zero-length file fills no chunks, has no
/// partial chunk, and occupies no payload bytes at all.
pub proof fn lemma_boundary_sizes(path: Seq<u8>, content: Seq<u8>, chunk_size: u16)
    requires
        chunk_size >= 1,
        content.len() as int % chunk_size as int == 0,
        content.len() as int / chunk_size as int <= u32::MAX,
    ensures
        spec_entry_for(path, content, chunk_size).header.last_chunk_size == 0,
        spec_entry_for(path, content, chunk_size).payload == content,
        content.len() == 0 ==> spec_entry_for(path, content, chunk_size).header.chunk_count == 0,
{
    let cs = chunk_size as int;
    let len = content.len() as int;
    let e = spec_entry_for(path, content, chunk_size);
    let h = e.header;
    vstd::arithmetic::div_mod::lemma_fundamental_div_mod(len, cs);
    vstd::arithmetic::div_mod::lemma_div_pos_is_pos(len, cs);
    assert(h.last_chunk_size == 0);
    assert(cs * (len / cs) == (len / cs) * cs) by (nonlinear_arith);
    assert(spec_payload_len(h, chunk_size) == len);
    assert(e.payload =~= content);
    if content.len() == 0 {
        vstd::arithmetic::div_mod::lemma_div_basics(cs);
    }
}

/// The positions (in the old on-disk order) of the entries that survive
/// removing `indices`, from position `i` on, in increasing order.
pub open spec fn spec_kept_positions(len: int, indices: Seq<u32>, i: int) -> Seq<int>
    decreases len - i,
{
    if i < 0 || i >= len {
        Seq::empty()
    } else {
        let rest = spec_kept_positions(len, indices, i + 1);
        if indices.contains(i as u32) {
            rest
        } else {
            seq![i] + rest
        }
    }
}

/// List ordering after a removal: the surviving entries are exactly the
/// entries at the non-removed positions, and those positions come in
/// strictly increasing order — the survivors keep their relative order
/// and only shift down.
pub proof fn lemma_kept_order(entries: Seq<EntryV>, indices: Seq<u32>, i: int)
    requires
        0 <= i <= entries.len(),
    ensures
        ({
            let ps = spec_kept_positions(entries.len() as int, indices, i);
            let kept = spec_kept(entries, indices, i);
            &&& kept.len() == ps.len()
            &&& forall|j: int|
                0 <= j < ps.len() ==> i <= #[trigger] ps[j] < entries.len() && !indices.contains(
                    ps[j] as u32,
                ) && kept[j] == entries[ps[j]]
            &&& forall|j: int, k: int|
                0 <= j < k < ps.len() ==> #[trigger] ps[j] < #[trigger] ps[k]
        }),
    decreases entries.len() - i,
{
    let ps = spec_kept_positions(entries.len() as int, indices, i);
    let kept = spec_kept(entries, indices, i);
    if i >= entries.len() {
    } else {
        lemma_kept_order(entries, indices, i + 1);
        let ps1 = spec_kept_positions(entries.len() as int, indices, i + 1);
        let kept1 = spec_kept(entries, indices, i + 1);
        if indices.contains(i as u32) {
        } else {
            assert(ps == seq![i] + ps1);
            assert(kept == seq![entries[i]] + kept1);
            assert(forall|j: int|
                0 <= j < ps.len() ==> i <= #[trigger] ps[j] < entries.len() && !indices.contains(
                    ps[j] as u32,
                ) && kept[j] == entries[ps[j]]);
        }
    }
}

} // verus!
