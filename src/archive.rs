//! Writing entries, the central directory and the end record of a ZIP archive.
use crate::cursor::{lemma_write_at_reads_back, write_at, Cursor, SinkError};
use crate::encoding::{
    checksum, crc32_of, le16, le32, low16, low32, put_u16, put_u32, trunc16, trunc32,
};
use vstd::prelude::*;
use vstd::slice::slice_to_vec;
use vstd::string::StringSliceAdditionalSpecFns;

verus! {

/// Opens each local file header.
pub const LOCAL_FILE_HEADER_SIGNATURE: u32 = 0x04034b50;

/// Opens each central directory header.
pub const CENTRAL_FILE_HEADER_SIGNATURE: u32 = 0x02014b50;

/// Opens the end-of-central-directory record.
pub const END_OF_CENTRAL_DIR_SIGNATURE: u32 = 0x06054b50;

/// The platform an entry is said to come from: Unix.
pub const SYSTEM_UNIX: u16 = 3;

/// The version of the format the entries conform to: 2.0.
pub const SPEC_VERSION: u8 = 20;

/// Unix mode bits of a directory (`drwxrwxr-x`), in the upper half of the attributes.
pub const DIRECTORY_ATTRIBUTES: u32 = 0o40775 << 16;

/// Unix mode bits of a regular file (`-rw-rw-r--`), in the upper half of the attributes.
pub const FILE_ATTRIBUTES: u32 = 0o100664 << 16;

/// Where the checksum field starts within a local header.
pub const CRC32_OFFSET: usize = 14;

/// The result of a writer operation.
pub type ZipResult<T> = Result<T, ZipError>;

/// Why a writer operation failed.
#[derive(Debug, Clone, Copy, PartialEq, Eq, Structural)]
pub enum ZipError {
    /// The sink refused a write.
    Io(SinkError),
    /// The archive was already finished.
    Finalized,
}

/// What the writer records of one entry.
pub struct EntryView {
    pub system: u16,
    pub version_made_by: u8,
    pub crc32: u32,
    pub compressed_size: nat,
    pub uncompressed_size: nat,
    pub name: Seq<u8>,
    pub header_start: nat,
    pub external_attributes: u32,
}

/// The state of a writer: the sink's bytes and position, the entries so far,
/// and whether the archive was finished.
pub struct WriterView {
    pub bytes: Seq<u8>,
    pub pos: nat,
    pub entries: Seq<EntryView>,
    pub finalized: bool,
}

/// The "version made by" field: platform in the high byte, version in the low one.
pub open spec fn made_by(e: EntryView) -> u16 {
    (e.system << 8u16) | (e.version_made_by as u16)
}

/// No byte of `name` has its high bit set.
pub open spec fn is_ascii_bytes(name: Seq<u8>) -> bool {
    forall|i: int| 0 <= i < name.len() ==> name[i] < 128
}

/// The general purpose flags: bit 11 marks a name that is not plain ASCII.
pub open spec fn name_flag(name: Seq<u8>) -> u16 {
    if is_ascii_bytes(name) {
        0
    } else {
        2048
    }
}

/// The checksum and the two sizes, as they stand in both kinds of header.
pub open spec fn size_fields(crc: u32, compressed: nat, uncompressed: nat) -> Seq<u8> {
    le32(crc) + le32(trunc32(compressed)) + le32(trunc32(uncompressed))
}

/// A local header up to its checksum: signature, version, flags, method, time, date.
pub open spec fn local_header_head(e: EntryView) -> Seq<u8> {
    le32(LOCAL_FILE_HEADER_SIGNATURE) + le16(made_by(e)) + le16(name_flag(e.name)) + le16(0)
        + le16(0) + le16(0)
}

/// A local header after its sizes: name length, extra length, name.
pub open spec fn local_header_tail(e: EntryView) -> Seq<u8> {
    le16(trunc16(e.name.len())) + le16(0) + e.name
}

/// The local header that precedes an entry's content.
#[verifier::opaque]
pub open spec fn local_header(e: EntryView) -> Seq<u8> {
    local_header_head(e) + size_fields(e.crc32, e.compressed_size, e.uncompressed_size)
        + local_header_tail(e)
}

/// The central directory header of an entry.
#[verifier::opaque]
pub open spec fn central_header(e: EntryView) -> Seq<u8> {
    le32(CENTRAL_FILE_HEADER_SIGNATURE) + le16(made_by(e)) + le16(20) + le16(name_flag(e.name))
        + le16(0) + le16(0) + le16(0) + size_fields(
        e.crc32,
        e.compressed_size,
        e.uncompressed_size,
    ) + le16(trunc16(e.name.len())) + le16(0) + le16(0) + le16(0) + le16(0) + le32(
        e.external_attributes,
    ) + le32(trunc32(e.header_start)) + e.name
}

/// The central directory: one header per entry, in order.
pub open spec fn central_directory(es: Seq<EntryView>) -> Seq<u8>
    decreases es.len(),
{
    if es.len() == 0 {
        Seq::empty()
    } else {
        central_directory(es.drop_last()) + central_header(es.last())
    }
}

/// The archive comment, the ASCII text "srszip".
pub open spec fn archive_comment() -> Seq<u8> {
    seq![115u8, 114u8, 115u8, 122u8, 105u8, 112u8]
}

/// The end-of-central-directory record.
#[verifier::opaque]
pub open spec fn end_record(count: nat, central_size: nat, central_start: nat) -> Seq<u8> {
    le32(END_OF_CENTRAL_DIR_SIGNATURE) + le16(0) + le16(0) + le16(trunc16(count)) + le16(
        trunc16(count),
    ) + le32(trunc32(central_size)) + le32(trunc32(central_start)) + le16(
        archive_comment().len() as u16,
    ) + archive_comment()
}

/// What finishing writes at position `start`: the central directory, then the end record.
pub open spec fn trailer(es: Seq<EntryView>, start: nat) -> Seq<u8> {
    central_directory(es) + end_record(es.len(), central_directory(es).len(), start)
}

/// The record of a directory entry whose header starts at `at`.
pub open spec fn directory_entry(name: Seq<u8>, at: nat) -> EntryView {
    EntryView {
        system: SYSTEM_UNIX,
        version_made_by: SPEC_VERSION,
        crc32: 0,
        compressed_size: 0,
        uncompressed_size: 0,
        name,
        header_start: at,
        external_attributes: DIRECTORY_ATTRIBUTES,
    }
}

/// The record of a file entry with content `data` whose header starts at `at`.
pub open spec fn file_entry(name: Seq<u8>, data: Seq<u8>, at: nat) -> EntryView {
    EntryView {
        system: SYSTEM_UNIX,
        version_made_by: SPEC_VERSION,
        crc32: crc32_of(data),
        compressed_size: data.len(),
        uncompressed_size: data.len(),
        name,
        header_start: at,
        external_attributes: FILE_ATTRIBUTES,
    }
}

/// The record of a file entry whose content is not written yet: checksum and sizes are zero.
pub open spec fn pending_file_entry(name: Seq<u8>, at: nat) -> EntryView {
    EntryView { crc32: 0, compressed_size: 0, uncompressed_size: 0, ..file_entry(name, Seq::empty(), at) }
}

/// The fixed fields of an entry: Unix, version 2.0, stored without compression.
pub open spec fn entry_wf(e: EntryView) -> bool {
    e.system == SYSTEM_UNIX && e.version_made_by == SPEC_VERSION && e.compressed_size
        == e.uncompressed_size
}

/// The end of the local header of `e`.
pub open spec fn header_end(e: EntryView) -> nat {
    e.header_start + local_header(e).len()
}

/// `bytes` hold the local header of `e` at its start.
pub open spec fn header_in_place(bytes: Seq<u8>, e: EntryView) -> bool {
    header_end(e) <= bytes.len() && bytes.subrange(e.header_start as int, header_end(e) as int)
        == local_header(e)
}

/// Every entry has its fixed fields, its local header stands in `bytes` where it
/// says, and the headers lie in the order of the entries, all before `pos`.
pub open spec fn layout_wf(bytes: Seq<u8>, pos: nat, entries: Seq<EntryView>) -> bool {
    &&& forall|i: int| 0 <= i < entries.len() ==> entry_wf(#[trigger] entries[i])
    &&& forall|i: int| 0 <= i < entries.len() ==> header_in_place(bytes, #[trigger] entries[i])
    &&& forall|i: int| 0 <= i < entries.len() ==> header_end(#[trigger] entries[i]) <= pos
    &&& forall|i: int, j: int|
        0 <= i < j < entries.len() ==> header_end(#[trigger] entries[i])
            <= (#[trigger] entries[j]).header_start
}

impl WriterView {
    /// The writer's state is well formed: see [`layout_wf`].
    pub open spec fn wf(self) -> bool {
        layout_wf(self.bytes, self.pos, self.entries)
    }
}

/// How `add_directory` takes the writer from `pre` to `post`, returning `r`.
pub open spec fn add_directory_spec(
    pre: WriterView,
    name: Seq<u8>,
    post: WriterView,
    r: ZipResult<()>,
) -> bool {
    let e = directory_entry(name, pre.pos);
    let h = local_header(e);
    if pre.finalized {
        r == Err::<(), ZipError>(ZipError::Finalized) && post == pre
    } else if pre.pos + h.len() > usize::MAX {
        r == Err::<(), ZipError>(ZipError::Io(SinkError::PositionOverflow)) && post == pre
    } else {
        r == Ok::<(), ZipError>(()) && post == WriterView {
            bytes: write_at(pre.bytes, pre.pos, h),
            pos: pre.pos + h.len(),
            entries: pre.entries.push(e),
            finalized: false,
        }
    }
}

/// How `add_file` takes the writer from `pre` to `post`, returning `r`. When the
/// sink refuses the content, the header already written with zero checksum and
/// sizes stays where it is: nothing is rolled back, and no entry is recorded.
pub open spec fn add_file_spec(
    pre: WriterView,
    name: Seq<u8>,
    data: Seq<u8>,
    post: WriterView,
    r: ZipResult<()>,
) -> bool {
    let e = file_entry(name, data, pre.pos);
    let h = local_header(e);
    if pre.finalized {
        r == Err::<(), ZipError>(ZipError::Finalized) && post == pre
    } else if pre.pos + h.len() > usize::MAX {
        r == Err::<(), ZipError>(ZipError::Io(SinkError::PositionOverflow)) && post == pre
    } else if pre.pos + h.len() + data.len() > usize::MAX {
        r == Err::<(), ZipError>(ZipError::Io(SinkError::PositionOverflow)) && post == WriterView {
            bytes: write_at(pre.bytes, pre.pos, local_header(pending_file_entry(name, pre.pos))),
            pos: pre.pos + h.len(),
            ..pre
        }
    } else {
        r == Ok::<(), ZipError>(()) && post == WriterView {
            bytes: write_at(pre.bytes, pre.pos, h + data),
            pos: pre.pos + h.len() + data.len(),
            entries: pre.entries.push(e),
            finalized: false,
        }
    }
}

/// How `finish` takes the writer from `pre` to `post`, returning `r`. It runs once:
/// after that it is refused and changes nothing.
pub open spec fn finish_spec(pre: WriterView, post: WriterView, r: ZipResult<()>) -> bool {
    let t = trailer(pre.entries, pre.pos);
    if pre.finalized {
        r == Err::<(), ZipError>(ZipError::Finalized) && post == pre
    } else if pre.pos + t.len() > usize::MAX {
        r == Err::<(), ZipError>(ZipError::Io(SinkError::PositionOverflow)) && post == WriterView {
            finalized: true,
            ..pre
        }
    } else {
        r == Ok::<(), ZipError>(()) && post == WriterView {
            bytes: write_at(pre.bytes, pre.pos, t),
            pos: pre.pos + t.len(),
            entries: pre.entries,
            finalized: true,
        }
    }
}

struct ZipFileData {
    system: u16,
    version_made_by: u8,
    crc32: u32,
    compressed_size: usize,
    uncompressed_size: usize,
    file_name: Vec<u8>,
    header_start: usize,
    external_attributes: u32,
}

impl View for ZipFileData {
    type V = EntryView;

    closed spec fn view(&self) -> EntryView {
        EntryView {
            system: self.system,
            version_made_by: self.version_made_by,
            crc32: self.crc32,
            compressed_size: self.compressed_size as nat,
            uncompressed_size: self.uncompressed_size as nat,
            name: self.file_name@,
            header_start: self.header_start as nat,
            external_attributes: self.external_attributes,
        }
    }
}

/// Writes a ZIP archive, entry by entry, into a [`Cursor`].
pub struct ZipWriter {
    writee: Cursor,
    files: Vec<ZipFileData>,
    finalized: bool,
}

impl View for ZipWriter {
    type V = WriterView;

    closed spec fn view(&self) -> WriterView {
        WriterView {
            bytes: self.writee.data(),
            pos: self.writee.pos(),
            entries: self.files@.map_values(|f: ZipFileData| f@),
            finalized: self.finalized,
        }
    }
}

/// The flags field for a name.
fn flag_of(name: &Vec<u8>) -> (r: u16)
    ensures
        r == name_flag(name@),
{
    let mut i: usize = 0;
    while i < name.len()
        invariant
            i <= name@.len(),
            forall|j: int| 0 <= j < i ==> name@[j] < 128,
        decreases name@.len() - i,
    {
        if name[i] >= 128 {
            return 2048;
        }
        i = i + 1;
    }
    0
}

fn made_by_of(file: &ZipFileData) -> (r: u16)
    ensures
        r == made_by(file@),
{
    file.system << 8 | (file.version_made_by as u16)
}

/// The local header of `file`.
fn local_header_bytes(file: &ZipFileData) -> (r: Vec<u8>)
    ensures
        r@ == local_header(file@),
{
    let mut buf: Vec<u8> = Vec::new();
    // local file header signature
    put_u32(&mut buf, LOCAL_FILE_HEADER_SIGNATURE);
    // version made by
    put_u16(&mut buf, made_by_of(file));
    // general purpose bit flag
    put_u16(&mut buf, flag_of(&file.file_name));
    // compression method: stored
    put_u16(&mut buf, 0);
    // last mod file time and last mod file date
    put_u16(&mut buf, 0);
    put_u16(&mut buf, 0);
    // crc-32, compressed size, uncompressed size
    put_u32(&mut buf, file.crc32);
    put_u32(&mut buf, low32(file.compressed_size));
    put_u32(&mut buf, low32(file.uncompressed_size));
    // file name length
    put_u16(&mut buf, low16(file.file_name.len()));
    // extra field length
    put_u16(&mut buf, 0);
    // file name
    buf.extend_from_slice(file.file_name.as_slice());
    reveal(local_header);
    assert(buf@ =~= local_header(file@));
    buf
}

/// Appends the central directory header of `file` to `buf`.
fn put_central_header(buf: &mut Vec<u8>, file: &ZipFileData)
    ensures
        final(buf)@ == old(buf)@ + central_header(file@),
{
    let ghost b0 = buf@;
    // central file header signature
    put_u32(buf, CENTRAL_FILE_HEADER_SIGNATURE);
    // version made by
    put_u16(buf, made_by_of(file));
    // version needed to extract
    put_u16(buf, 20);
    // general purpose bit flag
    put_u16(buf, flag_of(&file.file_name));
    // compression method: stored
    put_u16(buf, 0);
    // last mod file time and last mod file date
    put_u16(buf, 0);
    put_u16(buf, 0);
    // crc-32, compressed size, uncompressed size
    put_u32(buf, file.crc32);
    put_u32(buf, low32(file.compressed_size));
    put_u32(buf, low32(file.uncompressed_size));
    // file name length
    put_u16(buf, low16(file.file_name.len()));
    // extra field length, file comment length, disk number start, internal attributes
    put_u16(buf, 0);
    put_u16(buf, 0);
    put_u16(buf, 0);
    put_u16(buf, 0);
    // external file attributes
    put_u32(buf, file.external_attributes);
    // relative offset of local header
    put_u32(buf, low32(file.header_start));
    // file name
    buf.extend_from_slice(file.file_name.as_slice());
    reveal(central_header);
    assert(buf@ =~= b0 + central_header(file@));
}

/// Appends the archive comment to `buf`.
fn put_comment(buf: &mut Vec<u8>)
    ensures
        final(buf)@ == old(buf)@ + archive_comment(),
{
    let ghost b0 = buf@;
    buf.push(115u8);
    buf.push(114u8);
    buf.push(115u8);
    buf.push(122u8);
    buf.push(105u8);
    buf.push(112u8);
    assert(buf@ =~= b0 + archive_comment());
}

/// Writing `h0`, then `d` after it, then `patch` at `off` within `h0`, leaves what
/// writing `h1 + d` leaves, where `h1` is `h0` with `patch` laid over it at `off`.
proof fn lemma_patched_write(
    b: Seq<u8>,
    p: nat,
    h0: Seq<u8>,
    d: Seq<u8>,
    off: nat,
    patch: Seq<u8>,
    h1: Seq<u8>,
)
    requires
        h1.len() == h0.len(),
        off + patch.len() <= h0.len(),
        forall|i: int|
            0 <= i < h0.len() ==> h1[i] == if off <= i < off + patch.len() {
                patch[i - off]
            } else {
                h0[i]
            },
    ensures
        write_at(write_at(write_at(b, p, h0), p + h0.len(), d), p + off, patch) == write_at(
            b,
            p,
            h1 + d,
        ),
{
    let w1 = write_at(b, p, h0);
    let w2 = write_at(w1, p + h0.len(), d);
    let w3 = write_at(w2, p + off, patch);
    let w = write_at(b, p, h1 + d);
    assert(w3.len() == w.len());
    assert forall|i: int| 0 <= i < w.len() implies w3[i] == w[i] by {
        if p <= i < p + h0.len() {
            assert(w[i] == h1[i - p]);
        } else if p + h0.len() <= i < p + h0.len() + d.len() {
            assert(w[i] == d[i - p - h0.len()]);
        }
    }
    assert(w3 =~= w);
}

impl ZipWriter {
    /// A writer that puts the archive into `writee`, from its current position on.
    pub fn new(writee: Cursor) -> (r: ZipWriter)
        ensures
            r@ == (WriterView {
                bytes: writee.data(),
                pos: writee.pos(),
                entries: Seq::empty(),
                finalized: false,
            }),
            r@.wf(),
    {
        let r = ZipWriter { writee, files: Vec::new(), finalized: false };
        assert(r@.entries =~= Seq::<EntryView>::empty());
        r
    }

    /// The sink the archive is written into.
    pub fn writee(&self) -> (r: &Cursor)
        ensures
            r.data() == self@.bytes,
            r.pos() == self@.pos,
    {
        &self.writee
    }

    /// Writes the local header of `file` at the current position.
    fn write_local_file_header(&mut self, file: &ZipFileData) -> (r: ZipResult<()>)
        ensures
            final(self).files@ == old(self).files@,
            final(self).finalized == old(self).finalized,
            old(self)@.pos + local_header(file@).len() <= usize::MAX <==> r is Ok,
            r is Ok ==> final(self)@.bytes == write_at(
                old(self)@.bytes,
                old(self)@.pos,
                local_header(file@),
            ) && final(self)@.pos == old(self)@.pos + local_header(file@).len(),
            r is Err ==> r == Err::<(), ZipError>(ZipError::Io(SinkError::PositionOverflow))
                && final(self)@ == old(self)@,
    {
        let header = local_header_bytes(file);
        match self.writee.write_all(header.as_slice()) {
            Ok(()) => Ok(()),
            Err(e) => Err(ZipError::Io(e)),
        }
    }

    /// Appends a directory entry: its local header is written at the current position.
    pub fn add_directory(&mut self, name: &str) -> (r: ZipResult<()>)
        requires
            old(self)@.wf(),
        ensures
            add_directory_spec(old(self)@, name.spec_bytes(), final(self)@, r),
            final(self)@.wf(),
    {
        if self.finalized {
            return Err(ZipError::Finalized);
        }
        let header_start = self.writee.position();
        let file = ZipFileData {
            system: SYSTEM_UNIX,
            version_made_by: SPEC_VERSION,
            crc32: 0,
            compressed_size: 0,
            uncompressed_size: 0,
            file_name: slice_to_vec(name.as_bytes()),
            header_start,
            external_attributes: DIRECTORY_ATTRIBUTES,
        };
        assert(file@ == directory_entry(name.spec_bytes(), header_start as nat));
        match self.write_local_file_header(&file) {
            Ok(()) => {},
            Err(e) => return Err(e),
        }
        self.files.push(file);
        assert(self@.entries =~= old(self)@.entries.push(file@));
        proof {
            lemma_add_directory_keeps_wf(old(self)@, name.spec_bytes(), self@, Ok(()));
        }
        Ok(())
    }

    /// Appends a file entry holding `data`, stored as it is. The header is first
    /// written with a zero checksum and sizes, which are filled in once the content
    /// is written; the writer is then left at the end of the content.
    pub fn add_file(&mut self, name: &str, data: &[u8]) -> (r: ZipResult<()>)
        requires
            old(self)@.wf(),
        ensures
            add_file_spec(old(self)@, name.spec_bytes(), data@, final(self)@, r),
            final(self)@.wf(),
    {
        if self.finalized {
            return Err(ZipError::Finalized);
        }
        let header_start = self.writee.position();
        let mut file = ZipFileData {
            system: SYSTEM_UNIX,
            version_made_by: SPEC_VERSION,
            crc32: 0,
            compressed_size: 0,
            uncompressed_size: 0,
            file_name: slice_to_vec(name.as_bytes()),
            header_start,
            external_attributes: FILE_ATTRIBUTES,
        };
        let ghost e = file_entry(name.spec_bytes(), data@, header_start as nat);
        let ghost h0 = local_header(file@);
        let ghost b0 = self@.bytes;
        proof {
            lemma_local_header_len(e);
            lemma_local_header_len(file@);
        }
        match self.write_local_file_header(&file) {
            Ok(()) => {},
            Err(e) => return Err(e),
        }
        let file_start = self.writee.position();
        match self.writee.write_all(data) {
            Ok(()) => {},
            Err(e) => {
                proof {
                    lemma_write_keeps_wf(old(self)@, h0);
                }
                return Err(ZipError::Io(e));
            },
        }
        let file_end = self.writee.position();

        file.crc32 = checksum(data);
        file.compressed_size = file_end - file_start;
        file.uncompressed_size = file.compressed_size;
        assert(file@ == e);

        let mut patch: Vec<u8> = Vec::new();
        put_u32(&mut patch, file.crc32);
        put_u32(&mut patch, low32(file.compressed_size));
        put_u32(&mut patch, low32(file.uncompressed_size));
        assert(patch@ =~= size_fields(e.crc32, e.compressed_size, e.uncompressed_size));
        self.writee.set_position(header_start + CRC32_OFFSET);
        match self.writee.write_all(patch.as_slice()) {
            Ok(()) => {},
            Err(e) => return Err(ZipError::Io(e)),
        }
        self.writee.set_position(file_end);
        proof {
            let h1 = local_header(e);
            lemma_local_header_patch(pending_file_entry(name.spec_bytes(), header_start as nat), e);
            assert(h0 == local_header(pending_file_entry(name.spec_bytes(), header_start as nat)));
            lemma_patched_write(b0, header_start as nat, h0, data@, 14, patch@, h1);
        }
        self.files.push(file);
        assert(self@.entries =~= old(self)@.entries.push(e));
        proof {
            lemma_add_file_keeps_wf(old(self)@, name.spec_bytes(), data@, self@, Ok(()));
        }
        Ok(())
    }

    /// Appends the central directory headers of all entries, in order, to `buf`.
    fn write_central_directory_headers(&self, buf: &mut Vec<u8>)
        ensures
            final(buf)@ == old(buf)@ + central_directory(self@.entries),
    {
        let ghost b0 = buf@;
        let ghost es = self@.entries;
        let mut i: usize = 0;
        assert(es.take(0) =~= Seq::<EntryView>::empty());
        assert(b0 + central_directory(es.take(0)) =~= b0);
        while i < self.files.len()
            invariant
                i <= self.files@.len(),
                es == self@.entries,
                es.len() == self.files@.len(),
                buf@ == b0 + central_directory(es.take(i as int)),
            decreases self.files@.len() - i,
        {
            put_central_header(buf, &self.files[i]);
            proof {
                assert(es.take(i + 1).drop_last() =~= es.take(i as int));
                assert(es.take(i + 1).last() == self.files@[i as int]@);
                assert(buf@ =~= b0 + central_directory(es.take(i + 1)));
            }
            i = i + 1;
        }
        assert(es.take(i as int) =~= es);
    }

    /// Writes the central directory and the end record at the current position.
    fn write_end_of_central_directory_record(&mut self) -> (r: ZipResult<()>)
        ensures
            final(self).files@ == old(self).files@,
            final(self).finalized == old(self).finalized,
            old(self)@.pos + trailer(old(self)@.entries, old(self)@.pos).len() <= usize::MAX
                <==> r is Ok,
            r is Ok ==> final(self)@.bytes == write_at(
                old(self)@.bytes,
                old(self)@.pos,
                trailer(old(self)@.entries, old(self)@.pos),
            ) && final(self)@.pos == old(self)@.pos + trailer(
                old(self)@.entries,
                old(self)@.pos,
            ).len(),
            r is Err ==> r == Err::<(), ZipError>(ZipError::Io(SinkError::PositionOverflow))
                && final(self)@ == old(self)@,
    {
        let ghost es = self@.entries;
        let central_start = self.writee.position();
        let mut buf: Vec<u8> = Vec::new();
        self.write_central_directory_headers(&mut buf);
        assert(buf@ =~= central_directory(es));
        let central_size = buf.len();
        // end of central dir signature
        put_u32(&mut buf, END_OF_CENTRAL_DIR_SIGNATURE);
        // number of this disk, and of the disk where the central directory starts
        put_u16(&mut buf, 0);
        put_u16(&mut buf, 0);
        // number of entries on this disk, and in all
        put_u16(&mut buf, low16(self.files.len()));
        put_u16(&mut buf, low16(self.files.len()));
        // size of the central directory
        put_u32(&mut buf, low32(central_size));
        // offset of the start of the central directory
        put_u32(&mut buf, low32(central_start));
        // comment length, then the comment
        put_u16(&mut buf, 6);
        put_comment(&mut buf);
        reveal(end_record);
        assert(buf@ =~= trailer(es, central_start as nat));
        match self.writee.write_all(buf.as_slice()) {
            Ok(()) => Ok(()),
            Err(e) => Err(ZipError::Io(e)),
        }
    }

    /// Finishes the archive: writes the central directory and the end record at the
    /// current position. It runs once; a second call is refused and writes nothing.
    pub fn finish(&mut self) -> (r: ZipResult<()>)
        requires
            old(self)@.wf(),
        ensures
            finish_spec(old(self)@, final(self)@, r),
            final(self)@.wf(),
    {
        if self.finalized {
            return Err(ZipError::Finalized);
        }
        self.finalized = true;
        match self.write_end_of_central_directory_record() {
            Ok(()) => {
                proof {
                    lemma_finish_keeps_wf(old(self)@, self@, Ok(()));
                }
                Ok(())
            },
            Err(e) => Err(e),
        }
    }
}

/// A local header is 30 bytes long, followed by the name.
pub proof fn lemma_local_header_len(e: EntryView)
    ensures
        local_header(e).len() == 30 + e.name.len(),
{
    reveal(local_header);
}

/// Two entries that differ only in checksum and sizes have local headers that
/// differ only in the 12 bytes from offset 14 on, which hold those fields.
pub proof fn lemma_local_header_patch(e0: EntryView, e1: EntryView)
    requires
        e0.name == e1.name,
        e0.system == e1.system,
        e0.version_made_by == e1.version_made_by,
    ensures
        local_header(e1).len() == local_header(e0).len(),
        local_header(e1).subrange(14, 26) == size_fields(
            e1.crc32,
            e1.compressed_size,
            e1.uncompressed_size,
        ),
        forall|i: int|
            0 <= i < local_header(e0).len() ==> local_header(e1)[i] == if 14 <= i < 26 {
                size_fields(e1.crc32, e1.compressed_size, e1.uncompressed_size)[i - 14]
            } else {
                local_header(e0)[i]
            },
{
    reveal(local_header);
    assert(local_header(e1).subrange(14, 26) =~= size_fields(
        e1.crc32,
        e1.compressed_size,
        e1.uncompressed_size,
    ));
}

/// Writing at the writer's position leaves every recorded header in place.
pub proof fn lemma_write_keeps_wf(pre: WriterView, d: Seq<u8>)
    requires
        pre.wf(),
    ensures
        (WriterView { bytes: write_at(pre.bytes, pre.pos, d), pos: pre.pos + d.len(), ..pre }).wf(),
{
    let b = write_at(pre.bytes, pre.pos, d);
    assert forall|i: int| 0 <= i < pre.entries.len() implies header_in_place(
        b,
        #[trigger] pre.entries[i],
    ) by {
        let e = pre.entries[i];
        assert(header_in_place(pre.bytes, e));
        assert(b.subrange(e.header_start as int, header_end(e) as int) =~= pre.bytes.subrange(
            e.header_start as int,
            header_end(e) as int,
        ));
    }
}

/// Writing the local header of `e`, followed by `rest`, at the writer's position,
/// and recording `e`, keeps the writer well formed.
pub proof fn lemma_add_entry_keeps_wf(pre: WriterView, e: EntryView, rest: Seq<u8>)
    requires
        pre.wf(),
        entry_wf(e),
        e.header_start == pre.pos,
    ensures
        (WriterView {
            bytes: write_at(pre.bytes, pre.pos, local_header(e) + rest),
            pos: pre.pos + local_header(e).len() + rest.len(),
            entries: pre.entries.push(e),
            finalized: pre.finalized,
        }).wf(),
{
    let w = local_header(e) + rest;
    let b = write_at(pre.bytes, pre.pos, w);
    lemma_write_keeps_wf(pre, w);
    lemma_write_at_reads_back(pre.bytes, pre.pos, w);
    assert(b.subrange(e.header_start as int, header_end(e) as int) =~= local_header(e));
    let post = WriterView {
        bytes: b,
        pos: pre.pos + local_header(e).len() + rest.len(),
        entries: pre.entries.push(e),
        finalized: pre.finalized,
    };
    assert forall|i: int| 0 <= i < post.entries.len() implies header_in_place(
        post.bytes,
        #[trigger] post.entries[i],
    ) by {
        if i < pre.entries.len() {
            assert(post.entries[i] == pre.entries[i]);
        } else {
            assert(post.entries[i] == e);
        }
    }
    assert forall|i: int, j: int|
        0 <= i < j < post.entries.len() implies header_end(#[trigger] post.entries[i])
        <= (#[trigger] post.entries[j]).header_start by {
        assert(post.entries[i] == pre.entries[i]);
        if j < pre.entries.len() {
            assert(post.entries[j] == pre.entries[j]);
        }
    }
}

/// Adding a directory keeps the writer well formed, whatever the outcome.
pub proof fn lemma_add_directory_keeps_wf(
    pre: WriterView,
    name: Seq<u8>,
    post: WriterView,
    r: ZipResult<()>,
)
    requires
        pre.wf(),
        add_directory_spec(pre, name, post, r),
    ensures
        post.wf(),
{
    let e = directory_entry(name, pre.pos);
    if r is Ok {
        lemma_add_entry_keeps_wf(pre, e, Seq::empty());
        assert(local_header(e) + Seq::<u8>::empty() =~= local_header(e));
    }
}

/// Adding a file keeps the writer well formed, whatever the outcome.
pub proof fn lemma_add_file_keeps_wf(
    pre: WriterView,
    name: Seq<u8>,
    data: Seq<u8>,
    post: WriterView,
    r: ZipResult<()>,
)
    requires
        pre.wf(),
        add_file_spec(pre, name, data, post, r),
    ensures
        post.wf(),
{
    let e = file_entry(name, data, pre.pos);
    if r is Ok {
        lemma_add_entry_keeps_wf(pre, e, data);
    } else if !pre.finalized && pre.pos + local_header(e).len() <= usize::MAX {
        lemma_write_keeps_wf(pre, local_header(pending_file_entry(name, pre.pos)));
    }
}

/// Finishing keeps the writer well formed, whatever the outcome.
pub proof fn lemma_finish_keeps_wf(pre: WriterView, post: WriterView, r: ZipResult<()>)
    requires
        pre.wf(),
        finish_spec(pre, post, r),
    ensures
        post.wf(),
{
    if r is Ok {
        lemma_write_keeps_wf(pre, trailer(pre.entries, pre.pos));
    }
}

/// A finished archive holds, at each entry's recorded offset, that entry's local
/// header, and, from where the writer stood, the central directory: one header per
/// entry, in the order the entries were added.
pub proof fn lemma_finished_archive_lists_entries(pre: WriterView, post: WriterView)
    requires
        pre.wf(),
        finish_spec(pre, post, Ok(())),
    ensures
        post.entries == pre.entries,
        forall|i: int|
            0 <= i < pre.entries.len() ==> header_in_place(post.bytes, #[trigger] pre.entries[i]),
        post.bytes.subrange(pre.pos as int, (pre.pos + central_directory(pre.entries).len()) as int)
            == central_directory(pre.entries),
{
    lemma_finish_keeps_wf(pre, post, Ok(()));
    lemma_central_directory_placed(pre, post);
}

/// Once a file entry is added, the checksum and size fields of its local header,
/// 14 bytes after the header's start, hold the CRC-32 and the length of the content.
pub proof fn lemma_add_file_fills_header(
    pre: WriterView,
    name: Seq<u8>,
    data: Seq<u8>,
    post: WriterView,
)
    requires
        add_file_spec(pre, name, data, post, Ok(())),
    ensures
        post.entries.last().header_start == pre.pos,
        post.bytes.subrange((pre.pos + 14) as int, (pre.pos + 26) as int) == le32(crc32_of(data)) + le32(
            trunc32(data.len()),
        ) + le32(trunc32(data.len())),
{
    let e = file_entry(name, data, pre.pos);
    let w = local_header(e) + data;
    lemma_local_header_patch(e, e);
    lemma_local_header_len(e);
    lemma_write_at_reads_back(pre.bytes, pre.pos, w);
    assert(post.bytes.subrange((pre.pos + 14) as int, (pre.pos + 26) as int) =~= w.subrange(14, 26));
    assert(w.subrange(14, 26) =~= local_header(e).subrange(14, 26));
}

/// A finished archive ends in its end record, whose two entry counts both hold
/// the number of entries added, and which is 28 bytes long.
pub proof fn lemma_end_record_counts(pre: WriterView, post: WriterView)
    requires
        finish_spec(pre, post, Ok(())),
    ensures
        post.pos >= 28,
        post.bytes.subrange((post.pos - 20) as int, (post.pos - 18) as int) == le16(trunc16(pre.entries.len())),
        post.bytes.subrange((post.pos - 18) as int, (post.pos - 16) as int) == le16(trunc16(pre.entries.len())),
{
    let t = trailer(pre.entries, pre.pos);
    let c = central_directory(pre.entries).len();
    reveal(end_record);
    lemma_write_at_reads_back(pre.bytes, pre.pos, t);
    assert(t.len() == c + 28);
    assert(post.bytes.subrange((post.pos - 20) as int, (post.pos - 18) as int) =~= t.subrange((c + 8) as int, (c + 10) as int));
    assert(post.bytes.subrange((post.pos - 18) as int, (post.pos - 16) as int) =~= t.subrange((c + 10) as int, (c + 12) as int));
}

/// Finishing writes the central directory, one header per entry in the order the
/// entries were added, where the writer stood, and the end record points back there.
pub proof fn lemma_central_directory_placed(pre: WriterView, post: WriterView)
    requires
        finish_spec(pre, post, Ok(())),
    ensures
        post.bytes.subrange(pre.pos as int, (pre.pos + central_directory(pre.entries).len()) as int)
            == central_directory(pre.entries),
        post.pos == pre.pos + central_directory(pre.entries).len() + 28,
        post.bytes.subrange((post.pos - 12) as int, (post.pos - 8) as int) == le32(trunc32(pre.pos)),
        post.bytes.subrange((post.pos - 16) as int, (post.pos - 12) as int) == le32(
            trunc32(central_directory(pre.entries).len()),
        ),
{
    let t = trailer(pre.entries, pre.pos);
    let c = central_directory(pre.entries).len();
    reveal(end_record);
    lemma_write_at_reads_back(pre.bytes, pre.pos, t);
    assert(post.bytes.subrange(pre.pos as int, (pre.pos + c) as int) =~= t.subrange(0, c as int));
    assert(post.bytes.subrange((post.pos - 12) as int, (post.pos - 8) as int) =~= t.subrange((c + 16) as int, (c + 20) as int));
    assert(post.bytes.subrange((post.pos - 16) as int, (post.pos - 12) as int) =~= t.subrange((c + 12) as int, (c + 16) as int));
}

/// The central directory starts right where the last file's content ended: adding a
/// file and then finishing records, as the directory's start, the end of that content.
pub proof fn lemma_central_start_after_last_entry(
    w0: WriterView,
    name: Seq<u8>,
    data: Seq<u8>,
    w1: WriterView,
    w2: WriterView,
)
    requires
        add_file_spec(w0, name, data, w1, Ok(())),
        finish_spec(w1, w2, Ok(())),
    ensures
        w1.pos == w0.pos + local_header(file_entry(name, data, w0.pos)).len() + data.len(),
        w2.bytes.subrange((w2.pos - 12) as int, (w2.pos - 8) as int) == le32(trunc32(w1.pos)),
        w2.bytes.subrange(w1.pos as int, (w1.pos + central_directory(w1.entries).len()) as int)
            == central_directory(w1.entries),
{
    lemma_central_directory_placed(w1, w2);
}

/// Finishing a finished archive is refused and changes nothing.
pub proof fn lemma_finish_twice(
    w0: WriterView,
    w1: WriterView,
    w2: WriterView,
    r1: ZipResult<()>,
    r2: ZipResult<()>,
)
    requires
        finish_spec(w0, w1, r1),
        finish_spec(w1, w2, r2),
    ensures
        w2 == w1,
        r2 == Err::<(), ZipError>(ZipError::Finalized),
{
}

} // verus!
