//! The Entry Descriptor and its header codec: one archived file's metadata
//! and the fixed-plus-variable-length binary header that carries it.

use crate::bytes::{
    check_utf8, copy_range, is_utf8, lemma_u16_le_round_trip, lemma_u32_le_round_trip, push_bytes,
    u16_from_le, u16_le_bytes, u32_from_le, u32_le_bytes,
};
use crate::error::FctError;
use crate::fs_operations::{format_path, rel_path_of};
use vstd::prelude::*;

verus! {

/// Mathematical model of one entry's descriptor.
pub ghost struct HeaderV {
    /// The archive-relative path, as UTF-8 bytes.
    pub path: Seq<u8>,
    /// The number of full chunks of the entry's content.
    pub chunk_count: u32,
    /// The byte length of the trailing partial chunk; 0 means the content
    /// length is an exact multiple of the chunk size.
    pub last_chunk_size: u16,
}

/// In-memory descriptor of one archived file: its archive-relative path
/// (UTF-8 bytes), how many full chunks its content fills, and the length
/// of the trailing partial chunk (0 if none).
#[derive(Debug, PartialEq)]
pub struct FileParser {
    pub file_path: Vec<u8>,
    pub chunk_count: u32,
    pub last_chunk_size: u16,
}

impl View for FileParser {
    type V = HeaderV;

    open spec fn view(&self) -> HeaderV {
        HeaderV {
            path: self.file_path@,
            chunk_count: self.chunk_count,
            last_chunk_size: self.last_chunk_size,
        }
    }
}

/// The encoded entry header: chunk count (4 bytes LE), last chunk size
/// (2 bytes LE), path byte length (2 bytes LE), then the raw path bytes.
pub open spec fn spec_header_bytes(h: HeaderV) -> Seq<u8> {
    u32_le_bytes(h.chunk_count as int) + u16_le_bytes(h.last_chunk_size as int) + u16_le_bytes(
        h.path.len() as int,
    ) + h.path
}

/// The byte length of an encoded entry header.
pub open spec fn spec_header_len(h: HeaderV) -> int {
    8 + h.path.len() as int
}

/// Decode one entry header of `data` at `pos`: the descriptor and the
/// position just past the header. None when fewer than 8 bytes remain,
/// when the path bytes are short, or when the path is not valid UTF-8.
pub open spec fn spec_parse_header(data: Seq<u8>, pos: int) -> Option<(HeaderV, int)> {
    if 0 <= pos && pos + 8 <= data.len() {
        let cc = u32_from_le(data[pos], data[pos + 1], data[pos + 2], data[pos + 3]) as u32;
        let last = u16_from_le(data[pos + 4], data[pos + 5]) as u16;
        let plen = u16_from_le(data[pos + 6], data[pos + 7]);
        if pos + 8 + plen <= data.len() && is_utf8(data.subrange(pos + 8, pos + 8 + plen)) {
            Some(
                (
                    HeaderV {
                        path: data.subrange(pos + 8, pos + 8 + plen),
                        chunk_count: cc,
                        last_chunk_size: last,
                    },
                    pos + 8 + plen,
                ),
            )
        } else {
            None
        }
    } else {
        None
    }
}

impl FileParser {
    /// Decode one entry header from the archive bytes at offset `pos`,
    /// returning the descriptor and the offset just past the header.
    /// At the exact end of the data this reports a clean end of archive;
    /// a nonzero but incomplete header, a short path read, or a path that
    /// is not valid UTF-8 is a format fault.
    pub fn from_archive(data: &Vec<u8>, pos: usize) -> (r: Result<(FileParser, usize), FctError>)
        requires
            pos <= data@.len(),
        ensures
            match r {
                Ok(p) => {
                    &&& spec_parse_header(data@, pos as int) == Some((p.0@, p.1 as int))
                    &&& pos < p.1 <= data@.len()
                },
                Err(e) => {
                    &&& spec_parse_header(data@, pos as int) is None
                    &&& (e == FctError::EndOfArchive <==> pos == data@.len())
                    &&& (e == FctError::EndOfArchive || e == FctError::FormatError)
                },
            },
    {
        let n = data.len();
        if pos == n {
            return Err(FctError::EndOfArchive);
        }
        if n - pos < 8 {
            return Err(FctError::FormatError);
        }
        let cc: u32 = data[pos] as u32 + 256 * (data[pos + 1] as u32) + 65536 * (data[pos
            + 2] as u32) + 16777216 * (data[pos + 3] as u32);
        let last: u16 = data[pos + 4] as u16 + 256 * (data[pos + 5] as u16);
        let plen: usize = data[pos + 6] as usize + 256 * (data[pos + 7] as usize);
        if n - (pos + 8) < plen {
            return Err(FctError::FormatError);
        }
        let file_path = copy_range(data, pos + 8, pos + 8 + plen);
        if !check_utf8(&file_path) {
            return Err(FctError::FormatError);
        }
        Ok((FileParser { file_path, chunk_count: cc, last_chunk_size: last }, pos + 8 + plen))
    }

    /// Encode this descriptor as its on-disk entry header. Fails when the
    /// path does not fit the 16-bit length field.
    pub fn generate_header(&self) -> (r: Result<Vec<u8>, FctError>)
        ensures
            match r {
                Ok(v) => self@.path.len() <= 0xFFFF && v@ == spec_header_bytes(self@),
                Err(e) => self@.path.len() > 0xFFFF && e == FctError::SizeLimitExceeded,
            },
    {
        if self.file_path.len() > 0xFFFF {
            return Err(FctError::SizeLimitExceeded);
        }
        let mut out: Vec<u8> = Vec::new();
        let cc = self.chunk_count;
        out.push((cc % 256) as u8);
        out.push(((cc / 256) % 256) as u8);
        out.push(((cc / 65536) % 256) as u8);
        out.push(((cc / 16777216) % 256) as u8);
        let last = self.last_chunk_size;
        out.push((last % 256) as u8);
        out.push(((last / 256) % 256) as u8);
        let plen: u16 = self.file_path.len() as u16;
        out.push((plen % 256) as u8);
        out.push(((plen / 256) % 256) as u8);
        push_bytes(&mut out, &self.file_path);
        assert(out@ =~= spec_header_bytes(self@));
        Ok(out)
    }

    /// The encoded byte length of this descriptor's header.
    pub fn get_header_size(&self) -> (r: usize)
        requires
            self.file_path@.len() + 8 <= usize::MAX,
        ensures
            r == spec_header_len(self@),
    {
        8 + self.file_path.len()
    }

    /// Build the descriptor for a source file of `file_len` bytes: record
    /// it under `file_path` taken relative to `root_dir`, and split its
    /// length into full chunks and a trailing partial chunk. A read-only
    /// source is refused; so is a file whose chunk count does not fit the
    /// 32-bit field, and a path that cannot be resolved.
    pub fn from_file(
        file_path: &str,
        root_dir: &str,
        chunk_size: u16,
        file_len: u64,
        readonly: bool,
    ) -> (r: Result<FileParser, FctError>)
        requires
            chunk_size >= 1,
        ensures
            match r {
                Ok(p) => {
                    &&& !readonly
                    &&& rel_path_of(root_dir@, file_path@) is Some
                    &&& p@.path == rel_path_of(root_dir@, file_path@).unwrap()
                    &&& is_utf8(p@.path)
                    &&& file_len as int / chunk_size as int <= u32::MAX
                    &&& p@.chunk_count == file_len as int / chunk_size as int
                    &&& p@.last_chunk_size == file_len as int % chunk_size as int
                },
                Err(e) => match e {
                    FctError::PermissionDenied => readonly,
                    FctError::PathError => {
                        &&& !readonly
                        &&& (rel_path_of(root_dir@, file_path@) is None || !is_utf8(
                            rel_path_of(root_dir@, file_path@).unwrap(),
                        ))
                    },
                    FctError::SizeLimitExceeded => {
                        &&& !readonly
                        &&& rel_path_of(root_dir@, file_path@) is Some
                        &&& is_utf8(rel_path_of(root_dir@, file_path@).unwrap())
                        &&& file_len as int / chunk_size as int > u32::MAX
                    },
                    _ => false,
                },
            },
    {
        if readonly {
            return Err(FctError::PermissionDenied);
        }
        let rel = match format_path(root_dir, file_path) {
            Some(p) => p,
            None => {
                return Err(FctError::PathError);
            },
        };
        if !check_utf8(&rel) {
            return Err(FctError::PathError);
        }
        let cc_wide: u64 = file_len / (chunk_size as u64);
        if cc_wide > u32::MAX as u64 {
            return Err(FctError::SizeLimitExceeded);
        }
        let last: u16 = (file_len % (chunk_size as u64)) as u16;
        Ok(FileParser { file_path: rel, chunk_count: cc_wide as u32, last_chunk_size: last })
    }
}

/// Header round trip: decoding an encoded descriptor yields the same
/// descriptor back, for any UTF-8 path that fits the 16-bit length field.
pub proof fn lemma_header_round_trip(h: HeaderV)
    requires
        h.path.len() <= 0xFFFF,
        is_utf8(h.path),
    ensures
        spec_parse_header(spec_header_bytes(h), 0) == Some((h, spec_header_len(h))),
{
    let b = spec_header_bytes(h);
    lemma_u32_le_round_trip(h.chunk_count as int);
    lemma_u16_le_round_trip(h.last_chunk_size as int);
    lemma_u16_le_round_trip(h.path.len() as int);
    assert(b.subrange(8, 8 + h.path.len() as int) =~= h.path);
}

} // verus!
