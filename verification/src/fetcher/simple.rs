//! Downloading an asset in one piece.
use crate::error::Error;
use crate::fetcher::headers::{status_code_text, status_reason};
use crate::fetcher::request::{
    ascii_text, asks_for_rest, law_simple_request_asks_for_the_rest, simple_header_values,
};
use crate::fetcher::Fetcher;
use crate::text::decimal;
use vstd::prelude::*;
use vstd::string::StringExecFns;

verus! {

/// How many bytes are gathered before they are written, if memory allows: 1 MB.
pub const BLOCK_SIZE: usize = 1_048_576;

/// How many bytes are gathered before they are written, given how many may be held in
/// memory: 1 MB or half of what is allowed, so that the other half is free for what comes.
pub open spec fn block_size_within(max_buffer_size: Option<usize>) -> nat {
    match max_buffer_size {
        Some(size) => if size < 2 {
            1
        } else if size / 2 < BLOCK_SIZE {
            (size / 2) as nat
        } else {
            BLOCK_SIZE as nat
        },
        None => BLOCK_SIZE as nat,
    }
}

impl<C> Fetcher<C> {
    /// How many bytes a download in one piece gathers before they are written.
    pub fn block_size(&self) -> (res: usize)
        ensures
            res == block_size_within(self.max_buffer_size),
            res > 0,
    {
        match self.max_buffer_size {
            Some(size) => if size < 2 {
                1
            } else if size / 2 < BLOCK_SIZE {
                size / 2
            } else {
                BLOCK_SIZE
            },
            None => BLOCK_SIZE,
        }
    }
}

/// A download in one piece, from the answer of the server on.
pub struct SimpleDownload {
    block_size: usize,
    append: bool,
    downloaded_bytes: u64,
    total_bytes: u64,
    buffer: Vec<u8>,
}

/// What is known of a download in one piece.
#[verifier::ext_equal]
pub struct SimpleView {
    /// How many bytes are gathered before they are written.
    pub block_size: nat,
    /// Whether the data goes behind what the file holds already.
    pub append: bool,
    /// The bytes that are there, those of an earlier download included.
    pub downloaded_bytes: nat,
    /// The bytes that there will be, or zero if that is not known.
    pub total_bytes: nat,
    /// The bytes that came and are not written yet.
    pub buffer: Seq<u8>,
}

/// Whether the server continues a file of `file_size` bytes: it answers with a part, and
/// there is something to continue.
pub open spec fn continues(status: u16, file_size: Option<u64>) -> bool {
    status == 206 && (file_size matches Some(size) && size > 0)
}

/// How many bytes of the asset are there before the first one comes.
pub open spec fn bytes_before(status: u16, file_size: Option<u64>) -> nat {
    if continues(status, file_size) {
        file_size->0 as nat
    } else {
        0
    }
}

/// A download in one piece, right after the answer.
pub open spec fn begun(
    status: u16,
    file_size: Option<u64>,
    content_length: Option<u64>,
    block_size: nat,
) -> SimpleView {
    SimpleView {
        block_size,
        append: continues(status, file_size),
        downloaded_bytes: bytes_before(status, file_size),
        total_bytes: match content_length {
            Some(length) => length as nat + bytes_before(status, file_size),
            None => 0,
        },
        buffer: Seq::empty(),
    }
}

impl SimpleView {
    /// What is written when `chunk` comes: everything gathered, once that makes a block.
    pub open spec fn block(self, chunk: Seq<u8>) -> Option<Seq<u8>> {
        if self.buffer.len() + chunk.len() >= self.block_size {
            Some(self.buffer + chunk)
        } else {
            None
        }
    }

    /// The download after `chunk` came.
    pub open spec fn receive(self, chunk: Seq<u8>) -> SimpleView {
        SimpleView {
            downloaded_bytes: self.downloaded_bytes + chunk.len(),
            buffer: if self.block(chunk) is Some {
                Seq::empty()
            } else {
                self.buffer + chunk
            },
            ..self
        }
    }
}

impl View for SimpleDownload {
    type V = SimpleView;

    closed spec fn view(&self) -> SimpleView {
        SimpleView {
            block_size: self.block_size as nat,
            append: self.append,
            downloaded_bytes: self.downloaded_bytes as nat,
            total_bytes: self.total_bytes as nat,
            buffer: self.buffer@,
        }
    }
}

impl SimpleDownload {
    /// Begins a download with the answer of the server: its status, and the length of the
    /// content if it states one. A status other than 200 and 206 is an error. With 200 the
    /// server sends the whole, so what the file holds is overwritten. The data is written in
    /// blocks of at least `block_size` bytes.
    pub fn begin(
        status: u16,
        file_size: Option<u64>,
        content_length: Option<u64>,
        block_size: usize,
    ) -> (res: Result<Self, Error>)
        requires
            100 <= status <= 999,
            begun(status, file_size, content_length, block_size as nat).total_bytes <= u64::MAX,
        ensures
            if status == 200 || status == 206 {
                res matches Ok(download) && download@ == begun(
                    status,
                    file_size,
                    content_length,
                    block_size as nat,
                )
            } else {
                res matches Err(Error::Unknown(text)) && text@ == "Unexpected status code: "@
                    + decimal(status as nat) + " "@ + status_reason(status)
            },
    {
        let is_partial_content = status == 206;
        let is_ok = status == 200;
        if !is_partial_content && !is_ok {
            let mut text = "Unexpected status code: ".to_string();
            text.append(status_code_text(status).as_str());
            proof {
                assert(text@ =~= "Unexpected status code: "@ + decimal(status as nat) + " "@
                    + status_reason(status));
            }
            return Err(Error::Unknown(text));
        }
        let existing: u64 = match file_size {
            Some(size) => size,
            None => 0,
        };
        let append = is_partial_content && existing > 0;
        let downloaded_bytes: u64 = if append {
            existing
        } else {
            0
        };
        let total_bytes: u64 = match content_length {
            Some(length) => length + downloaded_bytes,
            None => 0,
        };
        Ok(SimpleDownload { block_size, append, downloaded_bytes, total_bytes, buffer: Vec::new() })
    }

    /// Whether the data goes behind what the file holds already.
    pub fn append_mode(&self) -> (res: bool)
        ensures
            res == self@.append,
    {
        self.append
    }

    /// The bytes that are there.
    pub fn downloaded_bytes(&self) -> (res: u64)
        ensures
            res == self@.downloaded_bytes,
    {
        self.downloaded_bytes
    }

    /// The bytes that there will be, or zero if that is not known.
    pub fn total_bytes(&self) -> (res: u64)
        ensures
            res == self@.total_bytes,
    {
        self.total_bytes
    }

    /// Takes a chunk of the content, and gives what is to be written now.
    pub fn push_chunk(&mut self, chunk: &[u8]) -> (res: Option<Vec<u8>>)
        requires
            old(self)@.downloaded_bytes + chunk@.len() <= u64::MAX,
        ensures
            final(self)@ == old(self)@.receive(chunk@),
            match old(self)@.block(chunk@) {
                Some(bytes) => res matches Some(block) && block@ == bytes,
                None => res is None,
            },
    {
        self.buffer.extend_from_slice(chunk);
        proof {
            assert(self.buffer@ =~= old(self)@.buffer + chunk@);
        }
        self.downloaded_bytes = self.downloaded_bytes + chunk.len() as u64;
        if self.buffer.len() >= self.block_size {
            let mut block: Vec<u8> = Vec::new();
            std::mem::swap(&mut block, &mut self.buffer);
            Some(block)
        } else {
            None
        }
    }

    /// Gives what is still to be written when the content has ended.
    pub fn finish(self) -> (res: Option<Vec<u8>>)
        ensures
            if self@.buffer.len() > 0 {
                res matches Some(block) && block@ == self@.buffer
            } else {
                res is None
            },
    {
        if self.buffer.is_empty() {
            None
        } else {
            Some(self.buffer)
        }
    }
}

/// All chunks, one behind the other.
pub open spec fn joined(chunks: Seq<Seq<u8>>) -> Seq<u8>
    decreases chunks.len(),
{
    if chunks.len() == 0 {
        Seq::empty()
    } else {
        joined(chunks.drop_last()) + chunks.last()
    }
}

/// The download after `chunks` came.
pub open spec fn received(d: SimpleView, chunks: Seq<Seq<u8>>) -> SimpleView
    decreases chunks.len(),
{
    if chunks.len() == 0 {
        d
    } else {
        received(d, chunks.drop_last()).receive(chunks.last())
    }
}

/// What has been written by the time that `chunks` came.
pub open spec fn written(d: SimpleView, chunks: Seq<Seq<u8>>) -> Seq<u8>
    decreases chunks.len(),
{
    if chunks.len() == 0 {
        Seq::empty()
    } else {
        let earlier = written(d, chunks.drop_last());
        match received(d, chunks.drop_last()).block(chunks.last()) {
            Some(bytes) => earlier + bytes,
            None => earlier,
        }
    }
}

/// No byte is lost, doubled or moved: what was written and what is still gathered is what
/// came, in its order; and the count of bytes is the count at the beginning and all that
/// came.
pub proof fn law_content_is_kept(d: SimpleView, chunks: Seq<Seq<u8>>)
    requires
        d.buffer.len() == 0,
    ensures
        written(d, chunks) + received(d, chunks).buffer == joined(chunks),
        received(d, chunks).downloaded_bytes == d.downloaded_bytes + joined(chunks).len(),
        received(d, chunks).block_size == d.block_size,
        received(d, chunks).append == d.append,
        received(d, chunks).total_bytes == d.total_bytes,
    decreases chunks.len(),
{
    if chunks.len() == 0 {
        assert(d.buffer =~= Seq::<u8>::empty());
        assert(written(d, chunks) + d.buffer =~= joined(chunks));
    } else {
        law_content_is_kept(d, chunks.drop_last());
        assert(written(d, chunks) + received(d, chunks).buffer =~= joined(chunks));
    }
}

/// Between two chunks less than a block is waiting to be written.
pub proof fn law_buffer_is_bounded(d: SimpleView, chunks: Seq<Seq<u8>>)
    requires
        d.buffer.len() == 0,
        d.block_size > 0,
    ensures
        received(d, chunks).buffer.len() < d.block_size,
    decreases chunks.len(),
{
    law_content_is_kept(d, chunks);
    if chunks.len() > 0 {
        law_buffer_is_bounded(d, chunks.drop_last());
        law_content_is_kept(d, chunks.drop_last());
    }
}

/// A download in one piece never holds more than is allowed, if no chunk of the content is
/// larger than half of that: what is gathered, the chunk that comes, and the block that is
/// then written, which is made of these two, stay within the limit.
pub proof fn law_memory_of_one_piece(
    status: u16,
    file_size: Option<u64>,
    content_length: Option<u64>,
    max_buffer_size: usize,
    chunks: Seq<Seq<u8>>,
    chunk: Seq<u8>,
)
    requires
        chunk.len() <= max_buffer_size / 2,
    ensures
        ({
            let d = begun(
                status,
                file_size,
                content_length,
                block_size_within(Some(max_buffer_size)),
            );
            let now = received(d, chunks);
            &&& now.buffer.len() + chunk.len() <= max_buffer_size
            &&& now.block(chunk) matches Some(bytes) ==> bytes.len() <= max_buffer_size
        }),
{
    let d = begun(status, file_size, content_length, block_size_within(Some(max_buffer_size)));
    law_buffer_is_bounded(d, chunks);
}

/// A complete download counts as many bytes as were announced: if the server stated the
/// length of its content and sent that much, the count reaches the total.
pub proof fn law_count_reaches_total(
    status: u16,
    file_size: Option<u64>,
    content_length: u64,
    block_size: nat,
    chunks: Seq<Seq<u8>>,
)
    requires
        joined(chunks).len() == content_length,
    ensures
        ({
            let d = begun(status, file_size, Some(content_length), block_size);
            received(d, chunks).downloaded_bytes == d.total_bytes
        }),
{
    law_content_is_kept(begun(status, file_size, Some(content_length), block_size), chunks);
}

/// What the file holds once `chunks` came and everything is written, if it held `file` when
/// the download began.
pub open spec fn file_after(d: SimpleView, file: Seq<u8>, chunks: Seq<Seq<u8>>) -> Seq<u8> {
    let kept = if d.append {
        file
    } else {
        Seq::empty()
    };
    kept + written(d, chunks) + received(d, chunks).buffer
}

/// An interrupted download is completed: where the file holds the beginning of the asset and
/// the server continues it, and where the server sends the whole asset instead, the file
/// holds the asset in the end, whatever it held before in the second case.
pub proof fn law_interrupted_download_is_completed(
    status: u16,
    file_size: Option<u64>,
    content_length: Option<u64>,
    block_size: nat,
    file: Seq<u8>,
    asset: Seq<u8>,
    chunks: Seq<Seq<u8>>,
)
    requires
        file_size matches Some(size) ==> size == file.len(),
        continues(status, file_size) ==> file.is_prefix_of(asset) && joined(chunks) == asset.skip(
            file.len() as int,
        ),
        !continues(status, file_size) ==> joined(chunks) == asset,
    ensures
        file_after(begun(status, file_size, content_length, block_size), file, chunks) == asset,
{
    let d = begun(status, file_size, content_length, block_size);
    law_content_is_kept(d, chunks);
    let all = file_after(d, file, chunks);
    if d.append {
        assert(all =~= file + (written(d, chunks) + received(d, chunks).buffer));
        assert(file + asset.skip(file.len() as int) =~= asset);
    } else {
        assert(all =~= written(d, chunks) + received(d, chunks).buffer);
    }
}

/// How a download in one piece begins. It appends exactly if the server answers with a part
/// and the file holds something; then what the file holds counts as downloaded, and otherwise
/// nothing does. What is missing from the total is what the server announces.
pub proof fn law_beginning(
    status: u16,
    file_size: Option<u64>,
    content_length: Option<u64>,
    block_size: nat,
)
    ensures
        ({
            let d = begun(status, file_size, content_length, block_size);
            &&& d.append <==> status == 206 && file_size is Some && file_size->0 > 0
            &&& d.append ==> d.downloaded_bytes == file_size->0
            &&& !d.append ==> d.downloaded_bytes == 0
            &&& content_length is Some ==> d.total_bytes - d.downloaded_bytes == content_length->0
            &&& content_length is None ==> d.total_bytes == 0
            &&& d.buffer.len() == 0
            &&& d.block_size == block_size
        }),
{
}

/// Data is written only in full blocks, and a full block is not held back: when a chunk comes,
/// everything gathered is written if and only if it makes a block, and then nothing is left.
pub proof fn law_blocks_are_full(d: SimpleView, chunk: Seq<u8>)
    ensures
        d.block(chunk) is Some <==> d.buffer.len() + chunk.len() >= d.block_size,
        d.block(chunk) matches Some(bytes) ==> bytes == d.buffer + chunk && d.receive(
            chunk,
        ).buffer.len() == 0,
        d.block(chunk) is None ==> d.receive(chunk).buffer == d.buffer + chunk,
        d.receive(chunk).downloaded_bytes == d.downloaded_bytes + chunk.len(),
{
}

/// The size of a block is the largest that is no more than a megabyte and no more than half
/// of what may be held, but one byte at least.
pub proof fn law_block_size(max_buffer_size: Option<usize>, larger: nat)
    ensures
        BLOCK_SIZE == 1024 * 1024,
        1 <= block_size_within(max_buffer_size) <= BLOCK_SIZE,
        max_buffer_size is None ==> block_size_within(max_buffer_size) == BLOCK_SIZE,
        max_buffer_size matches Some(size) ==> 2 * block_size_within(max_buffer_size) <= size
            || block_size_within(max_buffer_size) == 1,
        larger > block_size_within(max_buffer_size) ==> larger > BLOCK_SIZE || (
        max_buffer_size matches Some(size) && 2 * larger > size),
{
}

/// A file that holds the beginning of an asset is completed by what its request asks for: if
/// the server continues the file with all bytes from the one on that the header names, the
/// file holds the asset in the end.
pub proof fn law_answer_to_the_request_completes(
    file: Seq<u8>,
    asset: Seq<u8>,
    content_length: Option<u64>,
    block_size: nat,
    chunks: Seq<Seq<u8>>,
)
    requires
        0 < file.len() <= u64::MAX,
        file.is_prefix_of(asset),
        forall|first: nat| #[trigger]
            asks_for_rest(
                ascii_text(simple_header_values(Some(file.len() as u64))["range"@][0]),
                first,
            ) ==> joined(chunks) == asset.skip(first as int),
    ensures
        file_after(
            begun(206, Some(file.len() as u64), content_length, block_size),
            file,
            chunks,
        ) == asset,
{
    let size = Some(file.len() as u64);
    law_simple_request_asks_for_the_rest(size, None);
    assert(asks_for_rest(ascii_text(simple_header_values(size)["range"@][0]), file.len()));
    law_beginning(206, size, content_length, block_size);
    law_interrupted_download_is_completed(
        206,
        size,
        content_length,
        block_size,
        file,
        asset,
        chunks,
    );
}

} // verus!
