//! Line discovery: one pass over a byte buffer that records where each
//! non-empty line stands.

use vstd::prelude::*;

verus! {

/// The newline byte.
pub const NEWLINE: u8 = 10;

/// Where a line stands in a buffer: the offset of its first byte and its
/// length in bytes, the newline not counted.
#[derive(Debug, Clone, Copy, PartialEq, Eq, Structural)]
pub struct LineHeader {
    pub offset: u64,
    pub len: u32,
}

/// `bytes[off..off + len]` is a line: a run of bytes without a newline that
/// is not empty and cannot be extended on either side.
pub open spec fn is_line(bytes: Seq<u8>, off: int, len: int) -> bool {
    &&& 0 <= off
    &&& 0 < len
    &&& off + len <= bytes.len()
    &&& forall|k: int| off <= k < off + len ==> bytes[k] != NEWLINE
    &&& (off == 0 || bytes[off - 1] == NEWLINE)
    &&& (off + len == bytes.len() || bytes[off + len] == NEWLINE)
}

/// No line of the buffer is longer than a header can say.
pub open spec fn lines_fit(bytes: Seq<u8>) -> bool {
    forall|off: int, len: int| is_line(bytes, off, len) ==> len <= u32::MAX
}

/// The byte at `k` lies inside the line that `h` describes.
pub open spec fn covers(h: LineHeader, k: int) -> bool {
    h.offset <= k < h.offset + h.len
}

/// `lines` lists the lines of `bytes[..upto]`, in order, where `upto` is the
/// start of the buffer, its end, or just behind a newline.
pub open spec fn lists_lines(bytes: Seq<u8>, lines: Seq<LineHeader>, upto: int) -> bool {
    &&& forall|i: int|
        0 <= i < lines.len() ==> is_line(bytes, (#[trigger] lines[i]).offset as int, lines[i].len as int)
            && lines[i].offset + lines[i].len <= upto
    &&& forall|i: int, j: int|
        0 <= i < j < lines.len() ==> (#[trigger] lines[i]).offset + lines[i].len < (
        #[trigger] lines[j]).offset
    &&& forall|k: int|
        0 <= k < upto && #[trigger] bytes[k] != NEWLINE ==> exists|i: int|
            0 <= i < lines.len() && covers(#[trigger] lines[i], k)
}

/// The header of the line `bytes[start..start + len]`.
pub open spec fn header_at(start: int, len: int) -> LineHeader {
    LineHeader { offset: start as u64, len: len as u32 }
}

/// The headers of the lines that end at `idx` or later, where the line being
/// read began at `start`.
pub open spec fn headers_from(bytes: Seq<u8>, start: int, idx: int) -> Seq<LineHeader>
    decreases bytes.len() - idx,
{
    if idx >= bytes.len() {
        if start < bytes.len() {
            seq![header_at(start, bytes.len() - start)]
        } else {
            Seq::empty()
        }
    } else if bytes[idx] == NEWLINE {
        if idx > start {
            seq![header_at(start, idx - start)] + headers_from(bytes, idx + 1, idx + 1)
        } else {
            headers_from(bytes, idx + 1, idx + 1)
        }
    } else {
        headers_from(bytes, start, idx + 1)
    }
}

/// The headers of the lines of `bytes`, in order.
pub open spec fn line_headers(bytes: Seq<u8>) -> Seq<LineHeader> {
    headers_from(bytes, 0, 0)
}

/// A line is the line of every header that covers one of its bytes.
pub proof fn lemma_line_of_header(bytes: Seq<u8>, off: int, len: int, h: LineHeader)
    requires
        is_line(bytes, off, len),
        is_line(bytes, h.offset as int, h.len as int),
        covers(h, off),
    ensures
        off == h.offset,
        len == h.len,
{
    if off > h.offset {
        assert(bytes[off - 1] != NEWLINE);
    }
    if len < h.len {
        assert(bytes[off + len] != NEWLINE);
    }
    if len > h.len {
        assert(bytes[h.offset + h.len] != NEWLINE);
    }
}

/// Where headers list the lines of a whole buffer, no line is too long.
pub proof fn lemma_listed_lines_fit(bytes: Seq<u8>, lines: Seq<LineHeader>)
    requires
        lists_lines(bytes, lines, bytes.len() as int),
    ensures
        lines_fit(bytes),
{
    assert forall|off: int, len: int| is_line(bytes, off, len) implies len <= u32::MAX by {
        assert(bytes[off] != NEWLINE);
        let i = choose|i: int| 0 <= i < lines.len() && covers(#[trigger] lines[i], off);
        lemma_line_of_header(bytes, off, len, lines[i]);
    }
}

/// Lists the lines of `bytes`: every maximal non-empty run of bytes without
/// a newline, in the order of their offsets. Empty lines give no header.
/// There is no listing where a line is longer than a header can say.
pub fn try_scan_lines(bytes: &[u8]) -> (res: Option<Vec<LineHeader>>)
    ensures
        res is Some <==> lines_fit(bytes@),
        res matches Some(lines) ==> lines@ == line_headers(bytes@) && lists_lines(
            bytes@,
            lines@,
            bytes@.len() as int,
        ),
{
    let n = bytes.len();
    let mut lines: Vec<LineHeader> = Vec::new();
    let mut start: usize = 0;
    let mut idx: usize = 0;
    while idx < n
        invariant
            start <= idx <= n == bytes@.len(),
            start == 0 || bytes@[start - 1] == NEWLINE,
            forall|k: int| start <= k < idx ==> bytes@[k] != NEWLINE,
            lists_lines(bytes@, lines@, start as int),
            lines@ + headers_from(bytes@, start as int, idx as int) == line_headers(bytes@),
        decreases n - idx,
    {
        if bytes[idx] == NEWLINE {
            if idx > start {
                assert(is_line(bytes@, start as int, idx - start));
                if idx - start > 0xFFFF_FFFF {
                    return None;
                }
                let header = LineHeader { offset: start as u64, len: (idx - start) as u32 };
                let ghost before = lines@;
                lines.push(header);
                proof {
                    assert(lines@ + headers_from(bytes@, idx + 1, idx + 1) =~= before + headers_from(
                        bytes@,
                        start as int,
                        idx as int,
                    ));
                    assert forall|k: int|
                        0 <= k < idx + 1 && #[trigger] bytes@[k] != NEWLINE implies exists|i: int|
                        0 <= i < lines@.len() && covers(#[trigger] lines@[i], k) by {
                        if k < start {
                            let i = choose|i: int| 0 <= i < before.len() && covers(before[i], k);
                            assert(covers(lines@[i], k));
                        } else {
                            assert(covers(lines@[before.len() as int], k));
                        }
                    }
                }
            }
            start = idx + 1;
        }
        idx += 1;
    }
    if start < n {
        assert(is_line(bytes@, start as int, n - start));
        if n - start > 0xFFFF_FFFF {
            return None;
        }
        let header = LineHeader { offset: start as u64, len: (n - start) as u32 };
        let ghost before = lines@;
        lines.push(header);
        proof {
            assert(lines@ =~= before + headers_from(bytes@, start as int, n as int));
            assert forall|k: int| 0 <= k < n && #[trigger] bytes@[k] != NEWLINE implies exists|i: int|
                0 <= i < lines@.len() && covers(#[trigger] lines@[i], k) by {
                if k < start {
                    let i = choose|i: int| 0 <= i < before.len() && covers(before[i], k);
                    assert(covers(lines@[i], k));
                } else {
                    assert(covers(lines@[before.len() as int], k));
                }
            }
        }
    }
    proof {
        assert(lines@ + Seq::<LineHeader>::empty() =~= lines@);
        lemma_listed_lines_fit(bytes@, lines@);
    }
    Some(lines)
}

/// Lists the lines of a buffer in which no line is too long.
pub fn scan_lines(bytes: &[u8]) -> (lines: Vec<LineHeader>)
    requires
        lines_fit(bytes@),
    ensures
        lines@ == line_headers(bytes@),
        lists_lines(bytes@, lines@, bytes@.len() as int),
{
    try_scan_lines(bytes).unwrap()
}

} // verus!
