use vstd::prelude::*;

use crate::errors::{HeaderError, PathSanitizationError};
use crate::header::{decode_header, Header, HeaderView, HEADER_SIZE};
use crate::path::{entry_path, join_path, joined, sanitized};

verus! {

/// Whether two paths are equal as `Path`s, that is component by component.
pub uninterp spec fn path_eq(a: Seq<char>, b: Seq<char>) -> bool;

/// Relies on `Path`'s `==`, which compares two paths component by
/// component; a path equals itself.
#[verifier::external_body]
fn same_path(a: &str, b: &str) -> (r: bool)
    ensures
        r == path_eq(a@, b@),
        a@ == b@ ==> r,
{
    std::path::Path::new(a) == std::path::Path::new(b)
}

/// All bytes of `b` are zero.
pub open spec fn is_zero_block(b: Seq<u8>) -> bool {
    forall|i: int| 0 <= i < b.len() ==> b[i] == 0
}

/// Number of archive bytes that the entries `hs` take: each a header block
/// followed by its payload.
pub open spec fn span(hs: Seq<HeaderView>) -> nat
    decreases hs.len(),
{
    if hs.len() == 0 {
        0
    } else {
        (span(hs.drop_last()) + HEADER_SIZE + hs.last().size) as nat
    }
}

/// Position of the payload of entry `i` of `hs` in the archive.
pub open spec fn payload_offset(hs: Seq<HeaderView>, i: int) -> nat {
    (span(hs.take(i)) + HEADER_SIZE) as nat
}

/// What reading the next header block does to an index that holds `hs`:
/// an error, the end of the archive (`None`), or a new entry. A block that
/// is not whole, or whose entry would end beyond any position a `u64` can
/// hold, is an incomplete header.
pub open spec fn scan_step(hs: Seq<HeaderView>, block: Seq<u8>) -> Result<Option<HeaderView>, HeaderError> {
    if block.len() != HEADER_SIZE {
        Err(HeaderError::IncompleteHeader)
    } else if is_zero_block(block) {
        Ok(None)
    } else {
        match decode_header(block) {
            Err(e) => Err(HeaderError::BlockParseError(e)),
            Ok(h) => if span(hs) + HEADER_SIZE + h.size > u64::MAX {
                Err(HeaderError::IncompleteHeader)
            } else {
                Ok(Some(h))
            },
        }
    }
}

/// What reading an archive from position `pos` on gives, when `hs` were
/// read before it.
pub open spec fn scan_from(data: Seq<u8>, pos: int, hs: Seq<HeaderView>) -> Result<
    Seq<HeaderView>,
    HeaderError,
>
    decreases data.len() - pos,
{
    if pos < 0 || pos > data.len() {
        Err(HeaderError::IncompleteHeader)
    } else {
        let end = if pos + HEADER_SIZE <= data.len() {
            pos + HEADER_SIZE
        } else {
            data.len() as int
        };
        match scan_step(hs, data.subrange(pos, end)) {
            Err(e) => Err(e),
            Ok(None) => Ok(hs),
            Ok(Some(h)) => {
                let next = pos + HEADER_SIZE + h.size;
                if next > data.len() {
                    Err(HeaderError::IncompleteHeader)
                } else {
                    scan_from(data, next, hs.push(h))
                }
            },
        }
    }
}

/// The entries that reading the whole archive `data` gives.
pub open spec fn scan_archive(data: Seq<u8>) -> Result<Seq<HeaderView>, HeaderError> {
    scan_from(data, 0, Seq::empty())
}

/// What the reader does after a header block.
#[derive(Clone, Copy, Debug, PartialEq, Eq, Structural)]
pub enum Scan {
    /// An entry was read: skip its payload of this many bytes to reach the
    /// next header block.
    Entry(u64),
    /// The closing block was read.
    End,
}

/// Where the payload of an entry lies.
#[derive(Clone, Copy, Debug, PartialEq, Eq, Structural)]
pub struct Location {
    /// Position of the entry in archive order.
    pub index: usize,
    /// Position of the payload's first byte in the archive.
    pub offset: u64,
}

/// The index of an archive: its headers in archive order, built block by
/// block while the archive is read.
pub struct Index {
    headers: Vec<Header>,
    end: u64,
}

/// `target` names the entry `h`, whose extraction path is `path`: as its
/// name, as that path, or as its prefix and name joined; each compared as a
/// path, and so in particular when the text is the same.
pub open spec fn entry_matches(h: HeaderView, path: Seq<char>, target: Seq<char>) -> bool {
    ||| h.name == target || path_eq(h.name, target)
    ||| path == target || path_eq(path, target)
    ||| joined(h.prefix, h.name) == target || path_eq(joined(h.prefix, h.name), target)
}

/// What looking at entry `h` for `target` gives: whether `target` names it,
/// or why its extraction path cannot be made safe, which is found first.
pub open spec fn entry_outcome(h: HeaderView, target: Seq<char>) -> Result<
    bool,
    PathSanitizationError,
> {
    match sanitized(h.prefix, h.name) {
        Err(e) => Err(e),
        Ok(path) => Ok(entry_matches(h, path, target)),
    }
}

pub proof fn lemma_span_take(hs: Seq<HeaderView>, i: int)
    requires
        0 <= i < hs.len(),
    ensures
        span(hs.take(i + 1)) == span(hs.take(i)) + HEADER_SIZE + hs[i].size,
{
    assert(hs.take(i + 1).drop_last() == hs.take(i));
}

pub proof fn lemma_span_grows(hs: Seq<HeaderView>, i: int, j: int)
    requires
        0 <= i <= j <= hs.len(),
    ensures
        span(hs.take(i)) <= span(hs.take(j)),
    decreases j - i,
{
    if i < j {
        lemma_span_take(hs, j - 1);
        lemma_span_grows(hs, i, j - 1);
    }
}

impl Index {
    /// The headers of the index, in archive order.
    pub closed spec fn view_headers(&self) -> Seq<HeaderView> {
        self.headers@.map_values(|h: Header| h@)
    }

    pub closed spec fn wf(&self) -> bool {
        self.end == span(self.view_headers())
    }

    /// An empty index, before the first header block is read.
    pub fn new() -> (r: Index)
        ensures
            r.wf(),
            r.view_headers() == Seq::<HeaderView>::empty(),
    {
        let r = Index { headers: Vec::new(), end: 0 };
        assert(r.view_headers() =~= Seq::<HeaderView>::empty());
        r
    }

    /// Takes the next header block of the archive. On a new entry the
    /// index records it, and the caller skips its payload; at the closing
    /// block, or on an error, the index is left as it was.
    pub fn feed(&mut self, block: &[u8]) -> (r: Result<Scan, HeaderError>)
        requires
            old(self).wf(),
        ensures
            final(self).wf(),
            match scan_step(old(self).view_headers(), block@) {
                Err(e) => r == Err::<Scan, HeaderError>(e) && final(self).view_headers()
                    == old(self).view_headers(),
                Ok(None) => r == Ok::<Scan, HeaderError>(Scan::End) && final(self).view_headers()
                    == old(self).view_headers(),
                Ok(Some(h)) => r == Ok::<Scan, HeaderError>(Scan::Entry(h.size))
                    && final(self).view_headers() == old(self).view_headers().push(h),
            },
    {
        if block.len() != HEADER_SIZE {
            return Err(HeaderError::IncompleteHeader);
        }
        let mut i: usize = 0;
        while i < block.len() && block[i] == 0
            invariant
                i <= block@.len(),
                forall|j: int| 0 <= j < i ==> block@[j] == 0,
            decreases block@.len() - i,
        {
            i = i + 1;
        }
        if i == block.len() {
            return Ok(Scan::End);
        }
        assert(!is_zero_block(block@));
        let header = match Header::from_bytes(block) {
            Ok(h) => h,
            Err(e) => return Err(e),
        };
        let size = header.size;
        if self.end > u64::MAX - HEADER_SIZE as u64 || self.end + HEADER_SIZE as u64 > u64::MAX - size {
            return Err(HeaderError::IncompleteHeader);
        }
        let ghost before = self.view_headers();
        self.end = self.end + HEADER_SIZE as u64 + size;
        self.headers.push(header);
        proof {
            assert(self.view_headers() =~= before.push(header@));
            assert(self.view_headers().drop_last() == before);
        }
        Ok(Scan::Entry(size))
    }

    /// Number of entries in the archive.
    pub fn files_count(&self) -> (r: usize)
        ensures
            r == self.view_headers().len(),
    {
        self.headers.len()
    }

    /// The headers of the archive, in archive order.
    pub fn headers(&self) -> (r: &[Header])
        ensures
            r@.map_values(|h: Header| h@) == self.view_headers(),
    {
        self.headers.as_slice()
    }

    /// Finds the first entry, in archive order, that `target` names (see
    /// `entry_outcome`), with the position of its payload. Entries are
    /// looked at in order; one whose extraction path cannot be made safe
    /// ends the search with that error.
    pub fn locate(&self, target: &str) -> (r: Result<Option<Location>, PathSanitizationError>)
        requires
            self.wf(),
        ensures
            r == Ok::<Option<Location>, PathSanitizationError>(None) <==> forall|i: int|
                0 <= i < self.view_headers().len() ==> entry_outcome(
                    #[trigger] self.view_headers()[i],
                    target@,
                ) == Ok::<bool, PathSanitizationError>(false),
            r matches Ok(Some(loc)) ==> {
                &&& loc.index < self.view_headers().len()
                &&& entry_outcome(self.view_headers()[loc.index as int], target@) == Ok::<
                    bool,
                    PathSanitizationError,
                >(true)
                &&& forall|j: int|
                    0 <= j < loc.index ==> entry_outcome(#[trigger] self.view_headers()[j], target@)
                        == Ok::<bool, PathSanitizationError>(false)
                &&& loc.offset == payload_offset(self.view_headers(), loc.index as int)
            },
            r matches Err(e) ==> exists|i: int|
                {
                    &&& 0 <= i < self.view_headers().len()
                    &&& entry_outcome(#[trigger] self.view_headers()[i], target@) == Err::<
                        bool,
                        PathSanitizationError,
                    >(e)
                    &&& forall|j: int|
                        0 <= j < i ==> entry_outcome(#[trigger] self.view_headers()[j], target@)
                            == Ok::<bool, PathSanitizationError>(false)
                },
    {
        let ghost hs = self.view_headers();
        let mut offset: u64 = 0;
        let mut i: usize = 0;
        while i < self.headers.len()
            invariant
                hs == self.view_headers(),
                self.wf(),
                i <= hs.len() == self.headers@.len(),
                offset == span(hs.take(i as int)),
                forall|j: int|
                    0 <= j < i ==> entry_outcome(#[trigger] hs[j], target@) == Ok::<
                        bool,
                        PathSanitizationError,
                    >(false),
            decreases hs.len() - i,
        {
            let header = &self.headers[i];
            assert(hs[i as int] == header@);
            proof {
                lemma_span_take(hs, i as int);
                lemma_span_grows(hs, i + 1, hs.len() as int);
                assert(hs.take(hs.len() as int) == hs);
            }
            let full = join_path(header.prefix.as_str(), header.name.as_str());
            let clean = match entry_path(header.prefix.as_str(), header.name.as_str()) {
                Ok(p) => p,
                Err(e) => {
                    assert(entry_outcome(hs[i as int], target@) == Err::<
                        bool,
                        PathSanitizationError,
                    >(e));
                    return Err(e);
                },
            };
            if same_path(header.name.as_str(), target) || same_path(clean.as_str(), target)
                || same_path(full.as_str(), target) {
                return Ok(Some(Location { index: i, offset: offset + HEADER_SIZE as u64 }));
            }
            offset = offset + HEADER_SIZE as u64 + header.size;
            i = i + 1;
        }
        Ok(None)
    }
}

} // verus!
