//! The read side of the codec. `scan` is the specification: it says, for any
//! byte sequence and start position, whether one complete well-formed frame
//! is present, what it is, and where it ends. `Frame::check` and
//! `Frame::parse` are the two verified passes over that one definition:
//! `check` finds the frame boundary without allocating, `parse` materializes
//! owned values.

use vstd::prelude::*;
use crate::digits::{digits_val, valid_decimal, parse_decimal, lemma_digits_val_nonneg};
use crate::frame::{
    Frame, FrameModel, CR, LF, SIGIL_SIMPLE, SIGIL_ERROR, SIGIL_INTEGER, SIGIL_BULK, SIGIL_ARRAY,
    frames_model, wf, line_ok,
};
use crate::utf8::{is_utf8, is_utf8_slice};
use vstd::slice::slice_subrange;

verus! {

broadcast use vstd::std_specs::vec::group_vec_axioms;

/// Why a span does not (yet) hold one complete frame: more bytes may still
/// arrive, or the bytes seen cannot be a frame at all.
#[derive(Clone, Copy, Debug, PartialEq, Eq, Structural)]
pub enum FrameError {
    /// The span ends before the frame does; a normal condition, not a
    /// failure.
    Incomplete,
    /// A malformed sigil, length, or delimiter; fatal to the byte stream.
    Protocol,
}

/// What scanning one frame yields.
pub enum ScanResult {
    Found { frame: FrameModel, end: int },
    Incomplete,
    Malformed,
}

/// What scanning a run of consecutive frames yields.
pub enum ScanItems {
    Found { frames: Seq<FrameModel>, end: int },
    Incomplete,
    Malformed,
}

/// What scanning one CR-LF-terminated line yields.
pub enum LineScan {
    Line { content: Seq<u8>, next: int },
    Incomplete,
    Malformed,
}

/// The first position at or after `i` holding a CR or LF byte.
pub open spec fn find_delim(bytes: Seq<u8>, i: int) -> Option<int>
    decreases bytes.len() - i,
{
    if i < 0 || i >= bytes.len() {
        None
    } else if bytes[i] == CR || bytes[i] == LF {
        Some(i)
    } else {
        find_delim(bytes, i + 1)
    }
}

/// The line that starts at `start`: its bytes up to the first delimiter
/// byte, which must be the CR of a CR LF pair. A lone LF, or a CR followed
/// by anything else, is malformed; a line whose terminator has not fully
/// arrived is incomplete.
pub open spec fn scan_line(bytes: Seq<u8>, start: int) -> LineScan {
    match find_delim(bytes, start) {
        Option::None => LineScan::Incomplete,
        Option::Some(j) => if bytes[j] == LF {
            LineScan::Malformed
        } else if j + 1 >= bytes.len() {
            LineScan::Incomplete
        } else if bytes[j + 1] == LF {
            LineScan::Line { content: bytes.subrange(start, j), next: j + 2 }
        } else {
            LineScan::Malformed
        },
    }
}

/// One complete frame at `pos`: sigil, then a line, a length-prefixed
/// payload, or a count followed by that many child frames. The text of a
/// simple or error frame must be well-formed UTF-8; a completed line that
/// is not text is malformed.
pub open spec fn scan(bytes: Seq<u8>, pos: int) -> ScanResult
    decreases bytes.len() - pos, 0int, 0nat,
{
    if pos < 0 || pos >= bytes.len() {
        ScanResult::Incomplete
    } else if bytes[pos] == SIGIL_SIMPLE {
        match scan_line(bytes, pos + 1) {
            LineScan::Line { content, next } => if is_utf8(content) {
                ScanResult::Found { frame: FrameModel::Simple(content), end: next }
            } else {
                ScanResult::Malformed
            },
            LineScan::Incomplete => ScanResult::Incomplete,
            LineScan::Malformed => ScanResult::Malformed,
        }
    } else if bytes[pos] == SIGIL_ERROR {
        match scan_line(bytes, pos + 1) {
            LineScan::Line { content, next } => if is_utf8(content) {
                ScanResult::Found { frame: FrameModel::Error(content), end: next }
            } else {
                ScanResult::Malformed
            },
            LineScan::Incomplete => ScanResult::Incomplete,
            LineScan::Malformed => ScanResult::Malformed,
        }
    } else if bytes[pos] == SIGIL_INTEGER {
        match scan_line(bytes, pos + 1) {
            LineScan::Line { content, next } => if valid_decimal(content) {
                ScanResult::Found { frame: FrameModel::Integer(digits_val(content) as u64), end: next }
            } else {
                ScanResult::Malformed
            },
            LineScan::Incomplete => ScanResult::Incomplete,
            LineScan::Malformed => ScanResult::Malformed,
        }
    } else if bytes[pos] == SIGIL_BULK {
        match scan_line(bytes, pos + 1) {
            LineScan::Line { content, next } => if content == seq![0x2du8, 0x31u8] {
                ScanResult::Found { frame: FrameModel::Null, end: next }
            } else if valid_decimal(content) {
                let n = digits_val(content);
                if next + n + 2 <= bytes.len() {
                    if bytes[next + n] == CR && bytes[next + n + 1] == LF {
                        ScanResult::Found {
                            frame: FrameModel::Bulk(bytes.subrange(next, next + n)),
                            end: next + n + 2,
                        }
                    } else {
                        ScanResult::Malformed
                    }
                } else {
                    ScanResult::Incomplete
                }
            } else {
                ScanResult::Malformed
            },
            LineScan::Incomplete => ScanResult::Incomplete,
            LineScan::Malformed => ScanResult::Malformed,
        }
    } else if bytes[pos] == SIGIL_ARRAY {
        match scan_line(bytes, pos + 1) {
            LineScan::Line { content, next } => if valid_decimal(content) {
                // a scanned line always ends inside the span and after the
                // sigil; the test lets the recursion be checked on its own
                if pos < next <= bytes.len() {
                    match scan_items(bytes, next, digits_val(content) as nat) {
                        ScanItems::Found { frames, end } => (ScanResult::Found {
                            frame: FrameModel::Array(frames),
                            end,
                        }),
                        ScanItems::Incomplete => ScanResult::Incomplete,
                        ScanItems::Malformed => ScanResult::Malformed,
                    }
                } else {
                    ScanResult::Malformed
                }
            } else {
                ScanResult::Malformed
            },
            LineScan::Incomplete => ScanResult::Incomplete,
            LineScan::Malformed => ScanResult::Malformed,
        }
    } else {
        ScanResult::Malformed
    }
}

/// `n` consecutive frames starting at `pos`.
pub open spec fn scan_items(bytes: Seq<u8>, pos: int, n: nat) -> ScanItems
    decreases bytes.len() - pos, 1int, n,
{
    if n == 0 {
        ScanItems::Found { frames: Seq::empty(), end: pos }
    } else if pos < 0 || pos > bytes.len() {
        ScanItems::Malformed
    } else {
        match scan(bytes, pos) {
            ScanResult::Found { frame, end } =>
            // a found frame always ends after its first byte and inside the
            // span; the test lets the recursion be checked on its own
            if pos < end <= bytes.len() {
                match scan_items(bytes, end, (n - 1) as nat) {
                    ScanItems::Found { frames, end: rest_end } => (ScanItems::Found {
                        frames: seq![frame] + frames,
                        end: rest_end,
                    }),
                    ScanItems::Incomplete => ScanItems::Incomplete,
                    ScanItems::Malformed => ScanItems::Malformed,
                }
            } else {
                ScanItems::Malformed
            },
            ScanResult::Incomplete => ScanItems::Incomplete,
            ScanResult::Malformed => ScanItems::Malformed,
        }
    }
}

/// The items scanned so far, put in front of what the rest of a run yields.
pub open spec fn items_prepend(fs: Seq<FrameModel>, r: ScanItems) -> ScanItems {
    match r {
        ScanItems::Found { frames, end } => ScanItems::Found { frames: fs + frames, end },
        ScanItems::Incomplete => ScanItems::Incomplete,
        ScanItems::Malformed => ScanItems::Malformed,
    }
}

pub proof fn lemma_items_prepend_assoc(a: Seq<FrameModel>, b: Seq<FrameModel>, r: ScanItems)
    ensures
        items_prepend(a, items_prepend(b, r)) == items_prepend(a + b, r),
{
    match r {
        ScanItems::Found { frames, end } => {
            assert(a + (b + frames) =~= (a + b) + frames);
        },
        _ => {},
    }
}

/// Scanning a run of `n > 0` frames is scanning one frame and prepending it
/// to the scan of the remaining `n - 1`.
pub proof fn lemma_scan_items_step(bytes: Seq<u8>, pos: int, n: nat)
    requires
        n > 0,
        0 <= pos <= bytes.len(),
    ensures
        (match scan(bytes, pos) {
            ScanResult::Found { frame, end } => pos < end <= bytes.len() ==> scan_items(
                bytes,
                pos,
                n,
            ) == items_prepend(seq![frame], scan_items(bytes, end, (n - 1) as nat)),
            ScanResult::Incomplete => scan_items(bytes, pos, n) is Incomplete,
            ScanResult::Malformed => scan_items(bytes, pos, n) is Malformed,
        }),
{
    match scan(bytes, pos) {
        ScanResult::Found { frame, end } => {
            if pos < end <= bytes.len() {
                match scan_items(bytes, end, (n - 1) as nat) {
                    ScanItems::Found { frames, end: rest_end } => {},
                    _ => {},
                }
            }
        },
        _ => {},
    }
}

/// Where `find_delim` answers, the answer is the first delimiter; where it
/// does not, there is none.
pub proof fn lemma_find_delim(bytes: Seq<u8>, i: int)
    requires
        0 <= i,
    ensures
        (match find_delim(bytes, i) {
            Option::Some(j) => i <= j < bytes.len() && (bytes[j] == CR || bytes[j] == LF)
                && (forall|k: int| i <= k < j ==> #[trigger] bytes[k] != CR && bytes[k] != LF),
            Option::None => forall|k: int|
                i <= k < bytes.len() ==> #[trigger] bytes[k] != CR && bytes[k] != LF,
        }),
    decreases bytes.len() - i,
{
    if i < bytes.len() && bytes[i] != CR && bytes[i] != LF {
        lemma_find_delim(bytes, i + 1);
    }
}

/// A found frame ends after its first byte and inside the span; a found run
/// holds exactly the frames that were asked for.
pub proof fn lemma_scan_bounds(bytes: Seq<u8>, pos: int)
    requires
        0 <= pos,
    ensures
        (match scan(bytes, pos) {
            ScanResult::Found { frame, end } => pos < end <= bytes.len(),
            _ => true,
        }),
    decreases bytes.len() - pos, 0int, 0nat,
{
    if 0 <= pos < bytes.len() {
        lemma_find_delim(bytes, pos + 1);
        if bytes[pos] == SIGIL_BULK || bytes[pos] == SIGIL_ARRAY {
            match scan_line(bytes, pos + 1) {
                LineScan::Line { content, next } => {
                    if valid_decimal(content) {
                        lemma_digits_val_nonneg(content);
                        if bytes[pos] == SIGIL_ARRAY && pos < next <= bytes.len() {
                            lemma_scan_items_bounds(bytes, next, digits_val(content) as nat);
                        }
                    }
                },
                _ => {},
            }
        }
    }
}

pub proof fn lemma_scan_items_bounds(bytes: Seq<u8>, pos: int, n: nat)
    requires
        0 <= pos <= bytes.len(),
    ensures
        (match scan_items(bytes, pos, n) {
            ScanItems::Found { frames, end } => pos <= end <= bytes.len() && frames.len() == n,
            _ => true,
        }),
    decreases bytes.len() - pos, 1int, n,
{
    if n > 0 {
        lemma_scan_bounds(bytes, pos);
        match scan(bytes, pos) {
            ScanResult::Found { frame, end } => {
                lemma_scan_items_bounds(bytes, end, (n - 1) as nat);
            },
            _ => {},
        }
    }
}

/// Every frame the scanner finds is well-formed: its text is free of the
/// delimiter bytes and its lengths fit the protocol's fields. A decoded
/// frame can therefore always be encoded again.
pub proof fn lemma_scan_wf(bytes: Seq<u8>, pos: int)
    requires
        0 <= pos,
    ensures
        (match scan(bytes, pos) {
            ScanResult::Found { frame, end } => wf(frame),
            _ => true,
        }),
    decreases bytes.len() - pos, 0int, 0nat,
{
    if pos < bytes.len() {        let sig = bytes[pos];
        lemma_find_delim(bytes, pos + 1);
        match find_delim(bytes, pos + 1) {
            Option::None => {},
            Option::Some(j) => {
                let content = bytes.subrange(pos + 1, j);
                assert forall|t: int| 0 <= t < content.len() implies #[trigger] content[t] != CR
                    && content[t] != LF by {
                    assert(content[t] == bytes[pos + 1 + t]);
                };
                assert(line_ok(content));
                match scan_line(bytes, pos + 1) {
                    LineScan::Line { content: c2, next } => {
                        assert(c2 == content);
                        if valid_decimal(c2) {
                            lemma_digits_val_nonneg(c2);
                            if sig == SIGIL_ARRAY && pos < next <= bytes.len() {
                                lemma_scan_items_bounds(bytes, next, digits_val(c2) as nat);
                                lemma_scan_items_wf(bytes, next, digits_val(c2) as nat);
                            }
                        }
                    },
                    _ => {},
                }
            },
        }
    }
}

pub proof fn lemma_scan_items_wf(bytes: Seq<u8>, pos: int, n: nat)
    requires
        0 <= pos <= bytes.len(),
    ensures
        (match scan_items(bytes, pos, n) {
            ScanItems::Found { frames, end } => forall|i: int|
                0 <= i < frames.len() ==> wf(#[trigger] frames[i]),
            _ => true,
        }),
    decreases bytes.len() - pos, 1int, n,
{
    if n > 0 {
        lemma_scan_wf(bytes, pos);
        lemma_scan_bounds(bytes, pos);
        match scan(bytes, pos) {
            ScanResult::Found { frame, end } => {
                lemma_scan_items_wf(bytes, end, (n - 1) as nat);
                match scan_items(bytes, end, (n - 1) as nat) {
                    ScanItems::Found { frames, end: rest_end } => {
                        assert forall|i: int| 0 <= i < (seq![frame] + frames).len() implies wf(
                            #[trigger] (seq![frame] + frames)[i],
                        ) by {
                            if i > 0 {
                                assert((seq![frame] + frames)[i] == frames[i - 1]);
                            }
                        };
                    },
                    _ => {},
                }
            },
            _ => {},
        }
    }
}

/// Finds the first CR or LF byte at or after `start`.
fn find_delimiter(buf: &[u8], start: usize) -> (r: Option<usize>)
    requires
        start <= buf@.len(),
    ensures
        (match find_delim(buf@, start as int) {
            Option::Some(j) => (r matches Some(x) && x as int == j),
            Option::None => r is None,
        }),
{
    let mut i: usize = start;
    while i < buf.len()
        invariant
            start <= i <= buf@.len(),
            find_delim(buf@, start as int) == find_delim(buf@, i as int),
        decreases buf@.len() - i,
    {
        let b = buf[i];
        if b == CR || b == LF {
            return Some(i);
        }
        i = i + 1;
    }
    None
}

/// Scans the line that starts at `start`, yielding the position of its CR
/// and the position just past its LF.
fn take_line(buf: &[u8], start: usize) -> (r: Result<(usize, usize), FrameError>)
    requires
        start <= buf@.len(),
    ensures
        (match scan_line(buf@, start as int) {
            LineScan::Line { content, next } => (r matches Ok(jn) && start <= jn.0 && jn.0
                + 2 == next && jn.1 as int == next && next <= buf@.len() && content
                == buf@.subrange(start as int, jn.0 as int)),
            LineScan::Incomplete => r == Err::<(usize, usize), FrameError>(FrameError::Incomplete),
            LineScan::Malformed => r == Err::<(usize, usize), FrameError>(FrameError::Protocol),
        }),
{
    proof {
        lemma_find_delim(buf@, start as int);
    }
    match find_delimiter(buf, start) {
        None => Err(FrameError::Incomplete),
        Some(j) => {
            if buf[j] == LF {
                Err(FrameError::Protocol)
            } else if j + 1 == buf.len() {
                Err(FrameError::Incomplete)
            } else if buf[j + 1] == LF {
                Ok((j, j + 2))
            } else {
                Err(FrameError::Protocol)
            }
        },
    }
}

/// Copies `buf[start..end]` into a fresh vector.
fn copy_range(buf: &[u8], start: usize, end: usize) -> (v: Vec<u8>)
    requires
        start <= end <= buf@.len(),
    ensures
        v@ == buf@.subrange(start as int, end as int),
{
    let mut v: Vec<u8> = Vec::new();
    assert(v@ =~= buf@.subrange(start as int, start as int));
    let mut i: usize = start;
    while i < end
        invariant
            start <= i <= end <= buf@.len(),
            v@ == buf@.subrange(start as int, i as int),
        decreases end - i,
    {
        v.push(buf[i]);
        assert(v@ =~= buf@.subrange(start as int, i + 1 as int));
        i = i + 1;
    }
    v
}

/// Scans for one complete frame starting at `pos` and returns the position
/// just past it.
#[verifier::loop_isolation(false)]
fn check_at(buf: &[u8], pos: usize) -> (r: Result<usize, FrameError>)
    requires
        pos <= buf@.len(),
    ensures
        (match scan(buf@, pos as int) {
            ScanResult::Found { frame, end } => (r matches Ok(e) && e as int == end),
            ScanResult::Incomplete => r == Err::<usize, FrameError>(FrameError::Incomplete),
            ScanResult::Malformed => r == Err::<usize, FrameError>(FrameError::Protocol),
        }),
    decreases buf@.len() - pos,
{
    if pos == buf.len() {
        return Err(FrameError::Incomplete);
    }
    let sig = buf[pos];
    if sig == SIGIL_SIMPLE || sig == SIGIL_ERROR {
        match take_line(buf, pos + 1) {
            Ok((j, next)) => {
                if is_utf8_slice(slice_subrange(buf, pos + 1, j)) {
                    Ok(next)
                } else {
                    Err(FrameError::Protocol)
                }
            },
            Err(e) => Err(e),
        }
    } else if sig == SIGIL_INTEGER {
        match take_line(buf, pos + 1) {
            Ok((j, next)) => match parse_decimal(buf, pos + 1, j) {
                Some(_) => Ok(next),
                None => Err(FrameError::Protocol),
            },
            Err(e) => Err(e),
        }
    } else if sig == SIGIL_BULK {
        match take_line(buf, pos + 1) {
            Ok((j, next)) => {
                if j == pos + 3 && buf[pos + 1] == 0x2d && buf[pos + 2] == 0x31 {
                    assert(buf@.subrange(pos + 1 as int, j as int) =~= seq![0x2du8, 0x31u8]);
                    Ok(next)
                } else {
                    match parse_decimal(buf, pos + 1, j) {
                        None => Err(FrameError::Protocol),
                        Some(n) => {
                            let avail = buf.len() - next;
                            if avail < 2 || n > (avail - 2) as u64 {
                                Err(FrameError::Incomplete)
                            } else {
                                let body_end = next + (n as usize);
                                if buf[body_end] == CR && buf[body_end + 1] == LF {
                                    Ok(body_end + 2)
                                } else {
                                    Err(FrameError::Protocol)
                                }
                            }
                        },
                    }
                }
            },
            Err(e) => Err(e),
        }
    } else if sig == SIGIL_ARRAY {
        match take_line(buf, pos + 1) {
            Ok((j, next)) => match parse_decimal(buf, pos + 1, j) {
                None => Err(FrameError::Protocol),
                Some(n) => {
                    let mut cur: usize = next;
                    let mut i: u64 = 0;
                    let ghost mut pfx = Seq::<FrameModel>::empty();
                    assert(scan_items(buf@, next as int, n as nat) == items_prepend(
                        pfx,
                        scan_items(buf@, cur as int, (n - i) as nat),
                    )) by {
                        assert(pfx + scan_items(buf@, cur as int, (n - i) as nat)->Found_frames
                            =~= scan_items(buf@, cur as int, (n - i) as nat)->Found_frames);
                    }
                    while i < n
                        invariant
                            i <= n,
                            next <= cur <= buf@.len(),
                            scan_items(buf@, next as int, n as nat) == items_prepend(
                                pfx,
                                scan_items(buf@, cur as int, (n - i) as nat),
                            ),
                        decreases n - i,
                    {
                        let r = check_at(buf, cur);
                        proof {
                            lemma_scan_bounds(buf@, cur as int);
                            lemma_scan_items_step(buf@, cur as int, (n - i) as nat);
                        }
                        match r {
                            Err(e) => {
                                return Err(e);
                            },
                            Ok(e) => {
                                proof {
                                    match scan(buf@, cur as int) {
                                        ScanResult::Found { frame, end } => {
                                            lemma_items_prepend_assoc(
                                                pfx,
                                                seq![frame],
                                                scan_items(buf@, end, (n - i - 1) as nat),
                                            );
                                            pfx = pfx + seq![frame];
                                        },
                                        _ => {
                                            assert(false);
                                        },
                                    }
                                }
                                cur = e;
                                i = i + 1;
                            },
                        }
                    }
                    assert(scan_items(buf@, cur as int, 0) == (ScanItems::Found {
                        frames: Seq::<FrameModel>::empty(),
                        end: cur as int,
                    }));
                    Ok(cur)
                },
            },
            Err(e) => Err(e),
        }
    } else {
        Err(FrameError::Protocol)
    }
}

/// Parses one complete frame starting at `pos`, materializing owned values,
/// and returns it with the position just past it.
#[verifier::loop_isolation(false)]
fn parse_at(buf: &[u8], pos: usize) -> (r: Result<(Frame, usize), FrameError>)
    requires
        pos <= buf@.len(),
    ensures
        (match scan(buf@, pos as int) {
            ScanResult::Found { frame, end } => (r matches Ok(fe) && fe.0@ == frame && fe.1
                as int == end),
            ScanResult::Incomplete => (r matches Err(e) && e == FrameError::Incomplete),
            ScanResult::Malformed => (r matches Err(e) && e == FrameError::Protocol),
        }),
    decreases buf@.len() - pos,
{
    if pos == buf.len() {
        return Err(FrameError::Incomplete);
    }
    let sig = buf[pos];
    if sig == SIGIL_SIMPLE {
        match take_line(buf, pos + 1) {
            Ok((j, next)) => {
                if is_utf8_slice(slice_subrange(buf, pos + 1, j)) {
                    Ok((Frame::Simple(copy_range(buf, pos + 1, j)), next))
                } else {
                    Err(FrameError::Protocol)
                }
            },
            Err(e) => Err(e),
        }
    } else if sig == SIGIL_ERROR {
        match take_line(buf, pos + 1) {
            Ok((j, next)) => {
                if is_utf8_slice(slice_subrange(buf, pos + 1, j)) {
                    Ok((Frame::Error(copy_range(buf, pos + 1, j)), next))
                } else {
                    Err(FrameError::Protocol)
                }
            },
            Err(e) => Err(e),
        }
    } else if sig == SIGIL_INTEGER {
        match take_line(buf, pos + 1) {
            Ok((j, next)) => match parse_decimal(buf, pos + 1, j) {
                Some(n) => Ok((Frame::Integer(n), next)),
                None => Err(FrameError::Protocol),
            },
            Err(e) => Err(e),
        }
    } else if sig == SIGIL_BULK {
        match take_line(buf, pos + 1) {
            Ok((j, next)) => {
                if j == pos + 3 && buf[pos + 1] == 0x2d && buf[pos + 2] == 0x31 {
                    assert(buf@.subrange(pos + 1 as int, j as int) =~= seq![0x2du8, 0x31u8]);
                    Ok((Frame::Null, next))
                } else {
                    match parse_decimal(buf, pos + 1, j) {
                        None => Err(FrameError::Protocol),
                        Some(n) => {
                            let avail = buf.len() - next;
                            if avail < 2 || n > (avail - 2) as u64 {
                                Err(FrameError::Incomplete)
                            } else {
                                let body_end = next + (n as usize);
                                if buf[body_end] == CR && buf[body_end + 1] == LF {
                                    Ok((Frame::Bulk(copy_range(buf, next, body_end)), body_end + 2))
                                } else {
                                    Err(FrameError::Protocol)
                                }
                            }
                        },
                    }
                }
            },
            Err(e) => Err(e),
        }
    } else if sig == SIGIL_ARRAY {
        match take_line(buf, pos + 1) {
            Ok((j, next)) => match parse_decimal(buf, pos + 1, j) {
                None => Err(FrameError::Protocol),
                Some(n) => {
                    let mut children: Vec<Frame> = Vec::new();
                    let mut cur: usize = next;
                    let mut i: u64 = 0;
                    let ghost mut pfx = Seq::<FrameModel>::empty();
                    assert(frames_model(children@) =~= pfx);
                    assert(scan_items(buf@, next as int, n as nat) == items_prepend(
                        pfx,
                        scan_items(buf@, cur as int, (n - i) as nat),
                    )) by {
                        assert(pfx + scan_items(buf@, cur as int, (n - i) as nat)->Found_frames
                            =~= scan_items(buf@, cur as int, (n - i) as nat)->Found_frames);
                    }
                    while i < n
                        invariant
                            i <= n,
                            next <= cur <= buf@.len(),
                            frames_model(children@) == pfx,
                            scan_items(buf@, next as int, n as nat) == items_prepend(
                                pfx,
                                scan_items(buf@, cur as int, (n - i) as nat),
                            ),
                        decreases n - i,
                    {
                        let r = parse_at(buf, cur);
                        proof {
                            lemma_scan_bounds(buf@, cur as int);
                            lemma_scan_items_step(buf@, cur as int, (n - i) as nat);
                        }
                        match r {
                            Err(e) => {
                                return Err(e);
                            },
                            Ok((child, e)) => {
                                proof {
                                    crate::frame::lemma_frames_model_push(children@, child);
                                    match scan(buf@, cur as int) {
                                        ScanResult::Found { frame, end } => {
                                            lemma_items_prepend_assoc(
                                                pfx,
                                                seq![frame],
                                                scan_items(buf@, end, (n - i - 1) as nat),
                                            );
                                            pfx = pfx + seq![frame];
                                            assert(frames_model(children@).push(frame) =~= pfx);
                                        },
                                        _ => {
                                            assert(false);
                                        },
                                    }
                                }
                                children.push(child);
                                cur = e;
                                i = i + 1;
                            },
                        }
                    }
                    assert(scan_items(buf@, cur as int, 0) == (ScanItems::Found {
                        frames: Seq::<FrameModel>::empty(),
                        end: cur as int,
                    }));
                    Ok((Frame::Array(children), cur))
                },
            },
            Err(e) => Err(e),
        }
    } else {
        Err(FrameError::Protocol)
    }
}

impl Frame {
    /// Scans `buf` for one complete frame at its start, without consuming
    /// input or allocating: the exact end offset of the frame if a full
    /// well-formed one is present, `Incomplete` if the span ends first, and
    /// `Protocol` if the bytes cannot be a frame.
    pub fn check(buf: &[u8]) -> (r: Result<usize, FrameError>)
        ensures
            (match scan(buf@, 0) {
                ScanResult::Found { frame, end } => (r matches Ok(e) && e as int == end),
                ScanResult::Incomplete => r == Err::<usize, FrameError>(FrameError::Incomplete),
                ScanResult::Malformed => r == Err::<usize, FrameError>(FrameError::Protocol),
            }),
    {
        check_at(buf, 0)
    }

    /// Parses the complete frame at the start of `buf` into owned values;
    /// the errors are exactly those of `check`, and what comes back is
    /// always well-formed.
    pub fn parse(buf: &[u8]) -> (r: Result<Frame, FrameError>)
        ensures
            (match scan(buf@, 0) {
                ScanResult::Found { frame, end } => (r matches Ok(f) && f@ == frame && wf(f@)),
                ScanResult::Incomplete => (r matches Err(e) && e == FrameError::Incomplete),
                ScanResult::Malformed => (r matches Err(e) && e == FrameError::Protocol),
            }),
    {
        proof {
            lemma_scan_wf(buf@, 0);
        }
        match parse_at(buf, 0) {
            Ok((f, _)) => Ok(f),
            Err(e) => Err(e),
        }
    }
}

} // verus!
