//! The frame that holds one record in a log file: a header section, which
//! says how long the body is, and the body.
//!
//! A frame is the line `# HEADER`, an empty line, the header, the line
//! `# BODY`, an empty line, the body and a line end. The length that the
//! header gives counts the body with the line end before it and the one
//! after it.

use vstd::prelude::*;

verus! {

/// Why bytes are no frame.
#[derive(Clone, Copy, Debug, PartialEq, Eq, Structural)]
pub enum FrameError {
    /// There are no bytes.
    MissingHeader,
    /// The first line is not `# HEADER`.
    IncorrectHeader,
    /// The bytes end before the line `# BODY`.
    BrokenHeader,
    /// The bytes end before the body does.
    ShortBody,
}

/// The bytes of `# HEADER`.
pub open spec fn header_marker() -> Seq<u8> {
    seq![35u8, 32u8, 72u8, 69u8, 65u8, 68u8, 69u8, 82u8]
}

/// The bytes of `# BODY`.
pub open spec fn body_marker() -> Seq<u8> {
    seq![35u8, 32u8, 66u8, 79u8, 68u8, 89u8]
}

/// The frame of a header and a body.
pub open spec fn frame(header: Seq<u8>, body: Seq<u8>) -> Seq<u8> {
    header_marker() + seq![10u8, 10u8] + header + seq![10u8] + body_marker() + seq![10u8, 10u8]
        + body + seq![10u8]
}

/// The length that the header of a frame gives for `body`.
pub open spec fn framed_length(body: Seq<u8>) -> int {
    (body.len() + 2) as int
}

/// The place after the line that starts at `from`: after the next line
/// feed, or at the end of the bytes where there is none.
pub open spec fn line_end(bytes: Seq<u8>, from: int) -> int
    decreases bytes.len() - from,
{
    if from < 0 || from >= bytes.len() {
        bytes.len() as int
    } else if bytes[from] == 10u8 {
        from + 1
    } else {
        line_end(bytes, from + 1)
    }
}

/// The line from `from` to `end` holds `marker` and one byte more.
pub open spec fn is_marker_line(bytes: Seq<u8>, from: int, end: int, marker: Seq<u8>) -> bool {
    end - from == marker.len() + 1 && bytes.subrange(from, end - 1) == marker
}

/// Where the line `# BODY` starts and where it ends, looked for line by
/// line from `from` on.
pub open spec fn body_line(bytes: Seq<u8>, from: int) -> Result<(int, int), FrameError>
    decreases bytes.len() - from,
{
    if from < 0 || from >= bytes.len() {
        Err(FrameError::BrokenHeader)
    } else {
        let end = line_end(bytes, from);
        if is_marker_line(bytes, from, end, body_marker()) {
            Ok((from, end))
        } else if from < end <= bytes.len() {
            body_line(bytes, end)
        } else {
            Err(FrameError::BrokenHeader)
        }
    }
}

/// The header section of the frame that `bytes` start with, and the place
/// where the body section starts.
pub open spec fn parse_header(bytes: Seq<u8>) -> Result<(Seq<u8>, int), FrameError> {
    if bytes.len() == 0 {
        Err(FrameError::MissingHeader)
    } else {
        let end = line_end(bytes, 0);
        if !is_marker_line(bytes, 0, end, header_marker()) {
            Err(FrameError::IncorrectHeader)
        } else {
            match body_line(bytes, end) {
                Ok((from, start)) => Ok((bytes.subrange(end, from), start)),
                Err(e) => Err(e),
            }
        }
    }
}

proof fn lemma_line_end_bounds(bytes: Seq<u8>, from: int)
    requires
        0 <= from <= bytes.len(),
    ensures
        from <= line_end(bytes, from) <= bytes.len(),
        from < bytes.len() ==> from < line_end(bytes, from),
    decreases bytes.len() - from,
{
    if from < bytes.len() && bytes[from] != 10u8 {
        lemma_line_end_bounds(bytes, from + 1);
    }
}

/// A line ends at the first line feed.
proof fn lemma_line_end_at(bytes: Seq<u8>, from: int, feed: int)
    requires
        0 <= from <= feed < bytes.len(),
        bytes[feed] == 10u8,
        forall|i: int| from <= i < feed ==> bytes[i] != 10u8,
    ensures
        line_end(bytes, from) == feed + 1,
    decreases feed - from,
{
    if from < feed {
        lemma_line_end_at(bytes, from + 1, feed);
    }
}

/// A line does not run past a line feed.
proof fn lemma_line_end_before(bytes: Seq<u8>, from: int, feed: int)
    requires
        0 <= from <= feed < bytes.len(),
        bytes[feed] == 10u8,
    ensures
        line_end(bytes, from) <= feed + 1,
    decreases feed - from,
{
    if from < feed && bytes[from] != 10u8 {
        lemma_line_end_before(bytes, from + 1, feed);
    }
}

/// Where no line from `from` up to `marker` starts with `#`, and the line
/// `# BODY` starts at `marker`, right after a line feed, the search for
/// that line ends there.
proof fn lemma_body_line(bytes: Seq<u8>, from: int, marker: int)
    requires
        0 <= from <= marker,
        marker + 7 <= bytes.len(),
        from < marker ==> bytes[marker - 1] == 10u8,
        forall|i: int| from <= i < marker ==> bytes[i] != 35u8,
        bytes.subrange(marker, marker + 6) == body_marker(),
        bytes[marker + 6] == 10u8,
    ensures
        body_line(bytes, from) == Ok::<(int, int), FrameError>((marker, marker + 7)),
    decreases marker - from,
{
    let end = line_end(bytes, from);
    lemma_line_end_bounds(bytes, from);
    if from == marker {
        assert forall|i: int| marker <= i < marker + 6 implies bytes[i] != 10u8 by {
            assert(bytes.subrange(marker, marker + 6)[i - marker] == bytes[i]);
        }
        lemma_line_end_at(bytes, marker, marker + 6);
    } else {
        lemma_line_end_before(bytes, from, marker - 1);
        if is_marker_line(bytes, from, end, body_marker()) {
            assert(bytes.subrange(from, end - 1)[0] == bytes[from]);
            assert(body_marker()[0] == 35u8);
        }
        lemma_body_line(bytes, end, marker);
    }
}

/// The header section and the body section of a frame are found again in
/// the bytes that start with the frame, whatever follows it: the header
/// between two line feeds, and the body between two line feeds, as long as
/// the header of the frame gives. The header must hold no `#`.
pub proof fn lemma_frame_round_trip(header: Seq<u8>, body: Seq<u8>, rest: Seq<u8>)
    requires
        forall|i: int| 0 <= i < header.len() ==> header[i] != 35u8,
    ensures
        parse_header(frame(header, body) + rest) == Ok::<(Seq<u8>, int), FrameError>(
            (seq![10u8] + header + seq![10u8], (header.len() + 18) as int),
        ),
        header.len() + 18 + framed_length(body) == frame(header, body).len(),
        (frame(header, body) + rest).subrange(
            (header.len() + 18) as int,
            header.len() + 18 + framed_length(body),
        ) == seq![10u8] + body + seq![10u8],
{
    let bytes = frame(header, body) + rest;
    let h = header.len() as int;
    assert(header_marker().len() == 8);
    assert(body_marker().len() == 6);
    assert(frame(header, body).len() == h + 18 + body.len() + 2);
    assert forall|i: int| 0 <= i < 8 implies bytes[i] == header_marker()[i] && bytes[i] != 10u8 by {}
    assert(bytes[8] == 10u8);
    assert(bytes[9] == 10u8);
    assert forall|i: int| 10 <= i < 10 + h implies bytes[i] == header[i - 10] by {}
    assert(bytes[10 + h] == 10u8);
    assert forall|i: int| 0 <= i < 6 implies bytes[11 + h + i] == body_marker()[i] by {}
    assert(bytes[17 + h] == 10u8);
    assert(bytes[18 + h] == 10u8);
    assert forall|i: int| 0 <= i < body.len() implies bytes[19 + h + i] == body[i] by {}
    assert(bytes[19 + h + body.len()] == 10u8);
    lemma_line_end_at(bytes, 0, 8);
    assert(bytes.subrange(0, 8) =~= header_marker());
    assert(bytes.subrange(11 + h, 17 + h) =~= body_marker());
    lemma_body_line(bytes, 9, 11 + h);
    assert(bytes.subrange(9, 11 + h) =~= seq![10u8] + header + seq![10u8]);
    assert(bytes.subrange(h + 18, h + 18 + framed_length(body)) =~= seq![10u8] + body + seq![10u8]);
}

/// The length that the header of a frame must give for `body`, `None`
/// where it would not fit.
pub fn body_length(body: &[u8]) -> (r: Option<u64>)
    ensures
        r == (if framed_length(body@) <= u64::MAX {
            Some(framed_length(body@) as u64)
        } else {
            None
        }),
{
    let length = body.len() as u64;
    if length <= u64::MAX - 2 {
        Some(length + 2)
    } else {
        None
    }
}

fn append(bytes: &mut Vec<u8>, more: &[u8])
    ensures
        final(bytes)@ == old(bytes)@ + more@,
{
    let mut i: usize = 0;
    while i < more.len()
        invariant
            i <= more@.len(),
            bytes@ == old(bytes)@ + more@.take(i as int),
        decreases more.len() - i,
    {
        bytes.push(more[i]);
        assert(more@.take(i + 1) =~= more@.take(i as int).push(more@[i as int]));
        assert(bytes@ =~= old(bytes)@ + more@.take(i + 1));
        i = i + 1;
    }
    assert(more@.take(i as int) =~= more@);
}

fn header_marker_bytes() -> (marker: Vec<u8>)
    ensures
        marker@ == header_marker(),
{
    let marker = vec![35u8, 32u8, 72u8, 69u8, 65u8, 68u8, 69u8, 82u8];
    assert(marker@ =~= header_marker());
    marker
}

fn body_marker_bytes() -> (marker: Vec<u8>)
    ensures
        marker@ == body_marker(),
{
    let marker = vec![35u8, 32u8, 66u8, 79u8, 68u8, 89u8];
    assert(marker@ =~= body_marker());
    marker
}

/// Frames a body under a header.
pub fn write(header: &[u8], body: &[u8]) -> (bytes: Vec<u8>)
    ensures
        bytes@ == frame(header@, body@),
{
    let mut bytes: Vec<u8> = Vec::new();
    let header_line = header_marker_bytes();
    let body_line_bytes = body_marker_bytes();
    append(&mut bytes, header_line.as_slice());
    bytes.push(10u8);
    bytes.push(10u8);
    append(&mut bytes, header);
    bytes.push(10u8);
    append(&mut bytes, body_line_bytes.as_slice());
    bytes.push(10u8);
    bytes.push(10u8);
    append(&mut bytes, body);
    bytes.push(10u8);
    assert(bytes@ =~= frame(header@, body@));
    bytes
}

/// The place after the line that starts at `from`.
fn read_line(bytes: &[u8], from: usize) -> (end: usize)
    requires
        from <= bytes@.len(),
    ensures
        end == line_end(bytes@, from as int),
        from <= end <= bytes@.len(),
{
    let mut i: usize = from;
    while i < bytes.len()
        invariant
            from <= i <= bytes@.len(),
            line_end(bytes@, from as int) == line_end(bytes@, i as int),
        decreases bytes.len() - i,
    {
        if bytes[i] == 10u8 {
            return i + 1;
        }
        i = i + 1;
    }
    i
}

/// Whether the line from `from` to `end` holds `marker` and one byte more.
fn marker_line(bytes: &[u8], from: usize, end: usize, marker: &Vec<u8>) -> (r: bool)
    requires
        from <= end <= bytes@.len(),
    ensures
        r == is_marker_line(bytes@, from as int, end as int, marker@),
{
    if end - from < 1 || end - from - 1 != marker.len() {
        return false;
    }
    let mut i: usize = 0;
    while i < marker.len()
        invariant
            from <= end <= bytes@.len(),
            end - from == marker@.len() + 1,
            i <= marker@.len(),
            forall|k: int| 0 <= k < i ==> bytes@[from + k] == marker@[k],
        decreases marker.len() - i,
    {
        if bytes[from + i] != marker[i] {
            assert(bytes@.subrange(from as int, end - 1)[i as int] != marker@[i as int]);
            return false;
        }
        i = i + 1;
    }
    assert(bytes@.subrange(from as int, end - 1) =~= marker@);
    true
}

/// Reads the header section of the frame that `bytes` start with: what
/// stands between the line `# HEADER` and the line `# BODY`. Gives the
/// section and the place where the body section starts.
pub fn read_header(bytes: &[u8]) -> (r: Result<(Vec<u8>, usize), FrameError>)
    ensures
        match parse_header(bytes@) {
            Ok((header, start)) => r matches Ok((h, s)) && h@ == header && s == start,
            Err(e) => r == Err::<(Vec<u8>, usize), FrameError>(e),
        },
{
    if bytes.len() == 0 {
        return Err(FrameError::MissingHeader);
    }
    let first = read_line(bytes, 0);
    let header_line = header_marker_bytes();
    if !marker_line(bytes, 0, first, &header_line) {
        return Err(FrameError::IncorrectHeader);
    }
    let body_line_bytes = body_marker_bytes();
    let mut from: usize = first;
    loop
        invariant
            first <= from <= bytes@.len(),
            first == line_end(bytes@, 0),
            body_line_bytes@ == body_marker(),
            body_line(bytes@, first as int) == body_line(bytes@, from as int),
            bytes@.len() > 0,
            is_marker_line(bytes@, 0, first as int, header_marker()),
        decreases bytes@.len() - from,
    {
        if from >= bytes.len() {
            return Err(FrameError::BrokenHeader);
        }
        let end = read_line(bytes, from);
        proof {
            lemma_line_end_bounds(bytes@, from as int);
        }
        if marker_line(bytes, from, end, &body_line_bytes) {
            let mut header: Vec<u8> = Vec::new();
            let mut i: usize = first;
            while i < from
                invariant
                    first <= i <= from <= bytes@.len(),
                    header@ == bytes@.subrange(first as int, i as int),
                decreases from - i,
            {
                header.push(bytes[i]);
                assert(header@ =~= bytes@.subrange(first as int, i + 1));
                i = i + 1;
            }
            return Ok((header, end));
        }
        from = end;
    }
}

/// Reads the body section of a frame: the `length` bytes from `start` on.
pub fn read_body(bytes: &[u8], start: usize, length: u64) -> (r: Result<Vec<u8>, FrameError>)
    requires
        start <= bytes@.len(),
    ensures
        match r {
            Ok(body) => start + length <= bytes@.len() && body@ == bytes@.subrange(
                start as int,
                start + length,
            ),
            Err(e) => e == FrameError::ShortBody && start + length > bytes@.len(),
        },
{
    let left = bytes.len() - start;
    if length > left as u64 {
        return Err(FrameError::ShortBody);
    }
    let end = start + length as usize;
    let mut body: Vec<u8> = Vec::new();
    let mut i: usize = start;
    while i < end
        invariant
            start <= i <= end <= bytes@.len(),
            body@ == bytes@.subrange(start as int, i as int),
        decreases end - i,
    {
        body.push(bytes[i]);
        assert(body@ =~= bytes@.subrange(start as int, i + 1));
        i = i + 1;
    }
    Ok(body)
}

} // verus!
