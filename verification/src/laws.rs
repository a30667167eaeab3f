//! The laws that tie the two sides of the codec together: scanning the
//! encoding of a well-formed frame yields exactly that frame and consumes
//! exactly its bytes, whatever follows (round trip), and scanning any strict
//! prefix of an encoding reports it incomplete (fragmentation independence:
//! however a frame's bytes are split across reads, the read loop neither
//! acts early nor misparses, and yields the frame exactly once).

use vstd::prelude::*;
use crate::digits::{
    all_digits, digits_val, valid_decimal, dec_digits, lemma_dec_digits,
};
use crate::frame::{
    FrameModel, CR, LF, SIGIL_SIMPLE, SIGIL_ERROR, SIGIL_INTEGER, SIGIL_BULK, SIGIL_ARRAY, wf,
    line_ok, crlf, enc, enc_items, lemma_enc_len,
};
use crate::decode::{
    ScanResult, ScanItems, LineScan, find_delim, scan_line, scan, scan_items, lemma_find_delim,
};

verus! {

/// A byte of `bytes` inside a span known to equal `whole`.
proof fn lemma_byte_at(bytes: Seq<u8>, pos: int, whole: Seq<u8>, a: int)
    requires
        0 <= pos,
        pos + whole.len() <= bytes.len(),
        bytes.subrange(pos, pos + whole.len()) == whole,
        0 <= a < whole.len(),
    ensures
        bytes[pos + a] == whole[a],
{
    assert(bytes.subrange(pos, pos + whole.len())[a] == bytes[pos + a]);
}

/// A segment of `bytes` inside a span known to equal `whole`.
proof fn lemma_segment(bytes: Seq<u8>, pos: int, whole: Seq<u8>, a: int, b: int)
    requires
        0 <= pos,
        pos + whole.len() <= bytes.len(),
        bytes.subrange(pos, pos + whole.len()) == whole,
        0 <= a <= b <= whole.len(),
    ensures
        bytes.subrange(pos + a, pos + b) == whole.subrange(a, b),
{
    assert forall|i: int| 0 <= i < b - a implies bytes.subrange(pos + a, pos + b)[i]
        == whole.subrange(a, b)[i] by {
        assert(bytes.subrange(pos, pos + whole.len())[a + i] == bytes[pos + a + i]);
    };
    assert(bytes.subrange(pos + a, pos + b) =~= whole.subrange(a, b));
}

/// Digit strings contain no delimiter byte.
proof fn lemma_digits_no_delim(s: Seq<u8>)
    requires
        all_digits(s),
    ensures
        forall|t: int| 0 <= t < s.len() ==> #[trigger] s[t] != CR && s[t] != LF,
{
}

/// Where a line's bytes and its full CR LF terminator stand in `bytes`, the
/// line scan finds exactly them.
proof fn lemma_scan_line_at(bytes: Seq<u8>, start: int, content: Seq<u8>)
    requires
        0 <= start,
        start + content.len() + 2 <= bytes.len(),
        forall|t: int| 0 <= t < content.len() ==> #[trigger] content[t] != CR && content[t] != LF,
        bytes.subrange(start, start + content.len()) == content,
        bytes[start + content.len()] == CR,
        bytes[start + content.len() + 1] == LF,
    ensures
        scan_line(bytes, start) == (LineScan::Line {
            content,
            next: start + content.len() + 2,
        }),
{
    lemma_find_delim(bytes, start);
    let j = start + content.len() as int;
    assert forall|k: int| start <= k < j implies #[trigger] bytes[k] != CR && bytes[k] != LF by {
        assert(bytes.subrange(start, j)[k - start] == bytes[k]);
        assert(content[k - start] != CR && content[k - start] != LF);
    };
    match find_delim(bytes, start) {
        Option::None => {
            assert(false);
        },
        Option::Some(j2) => {
            if j2 < j {
                assert(bytes[j2] != CR && bytes[j2] != LF);
                assert(false);
            }
            if j2 > j {
                assert(bytes[j] != CR);
                assert(false);
            }
            assert(j2 == j);
            assert(bytes.subrange(start, j) == content);
        },
    }
}

/// Where `bytes` ends before a line and its terminator do, the line scan
/// reports the line incomplete.
proof fn lemma_scan_line_prefix(bytes: Seq<u8>, start: int, content: Seq<u8>)
    requires
        0 <= start <= bytes.len(),
        bytes.len() - start < content.len() + 2,
        forall|t: int| 0 <= t < content.len() ==> #[trigger] content[t] != CR && content[t] != LF,
        bytes.subrange(start, bytes.len() as int) == (content + crlf()).subrange(
            0,
            bytes.len() - start,
        ),
    ensures
        scan_line(bytes, start) is Incomplete,
{
    lemma_find_delim(bytes, start);
    let m = bytes.len() - start;
    assert forall|k: int| start <= k < bytes.len() implies bytes[k] == (content + crlf())[k
        - start] by {
        assert(bytes.subrange(start, bytes.len() as int)[k - start] == bytes[k]);
        assert((content + crlf()).subrange(0, m)[k - start] == (content + crlf())[k - start]);
    };
    if m <= content.len() {
        match find_delim(bytes, start) {
            Option::Some(j) => {
                assert(bytes[j] == (content + crlf())[j - start]);
                assert((content + crlf())[j - start] == content[j - start]);
                assert(false);
            },
            Option::None => {},
        }
    } else {
        let j = start + content.len() as int;
        assert(bytes[j] == (content + crlf())[content.len() as int]);
        assert((content + crlf())[content.len() as int] == CR);
        match find_delim(bytes, start) {
            Option::None => {
                assert(false);
            },
            Option::Some(j2) => {
                if j2 < j {
                    assert(bytes[j2] == (content + crlf())[j2 - start]);
                    assert((content + crlf())[j2 - start] == content[j2 - start]);
                    assert(false);
                }
                if j2 > j {
                    assert(bytes[j] != CR);
                    assert(false);
                }
                assert(j2 == j && j + 1 >= bytes.len());
            },
        }
    }
}

/// Scanning at the position where a well-formed frame's full encoding
/// stands finds exactly that frame, ending exactly at its last byte.
pub proof fn lemma_scan_encoding(bytes: Seq<u8>, pos: int, f: FrameModel)
    requires
        wf(f),
        0 <= pos,
        pos + enc(f).len() <= bytes.len(),
        bytes.subrange(pos, pos + enc(f).len()) == enc(f),
    ensures
        scan(bytes, pos) == (ScanResult::Found { frame: f, end: pos + enc(f).len() }),
    decreases f,
{
    let e = enc(f);
    lemma_enc_len(f);
    lemma_byte_at(bytes, pos, e, 0);
    match f {
        FrameModel::Simple(s) => {
            let sl = s.len() as int;
            assert(e == seq![SIGIL_SIMPLE] + s + crlf());
            assert(e[0] == SIGIL_SIMPLE);
            assert(e.subrange(1, 1 + sl) =~= s);
            assert(e[1 + sl] == CR && e[2 + sl] == LF);
            lemma_segment(bytes, pos, e, 1, 1 + sl);
            lemma_byte_at(bytes, pos, e, 1 + sl);
            lemma_byte_at(bytes, pos, e, 2 + sl);
            assert forall|t: int| 0 <= t < s.len() implies #[trigger] s[t] != CR && s[t]
                != LF by {
                assert(line_ok(s));
            };
            lemma_scan_line_at(bytes, pos + 1, s);
        },
        FrameModel::Error(s) => {
            let sl = s.len() as int;
            assert(e == seq![SIGIL_ERROR] + s + crlf());
            assert(e[0] == SIGIL_ERROR);
            assert(e.subrange(1, 1 + sl) =~= s);
            assert(e[1 + sl] == CR && e[2 + sl] == LF);
            lemma_segment(bytes, pos, e, 1, 1 + sl);
            lemma_byte_at(bytes, pos, e, 1 + sl);
            lemma_byte_at(bytes, pos, e, 2 + sl);
            assert forall|t: int| 0 <= t < s.len() implies #[trigger] s[t] != CR && s[t]
                != LF by {
                assert(line_ok(s));
            };
            lemma_scan_line_at(bytes, pos + 1, s);
        },
        FrameModel::Integer(n) => {
            let d = dec_digits(n);
            lemma_dec_digits(n);
            lemma_digits_no_delim(d);
            let dl = d.len() as int;
            assert(e == seq![SIGIL_INTEGER] + d + crlf());
            assert(e[0] == SIGIL_INTEGER);
            assert(e.subrange(1, 1 + dl) =~= d);
            assert(e[1 + dl] == CR && e[2 + dl] == LF);
            lemma_segment(bytes, pos, e, 1, 1 + dl);
            lemma_byte_at(bytes, pos, e, 1 + dl);
            lemma_byte_at(bytes, pos, e, 2 + dl);
            lemma_scan_line_at(bytes, pos + 1, d);
            assert(valid_decimal(d));
            assert(digits_val(d) as u64 == n);
        },
        FrameModel::Null => {
            let d = seq![0x2du8, 0x31u8];
            assert(e == seq![SIGIL_BULK, 0x2du8, 0x31u8] + crlf());
            assert(e[0] == SIGIL_BULK && e[1] == 0x2d && e[2] == 0x31 && e[3] == CR && e[4]
                == LF);
            assert(e.subrange(1, 3) =~= d);
            lemma_segment(bytes, pos, e, 1, 3);
            lemma_byte_at(bytes, pos, e, 3);
            lemma_byte_at(bytes, pos, e, 4);
            assert forall|t: int| 0 <= t < d.len() implies #[trigger] d[t] != CR && d[t]
                != LF by {};
            lemma_scan_line_at(bytes, pos + 1, d);
            assert(bytes.subrange(pos + 1, pos + 3) == d);
        },
        FrameModel::Bulk(b) => {
            let d = dec_digits(b.len() as u64);
            let dl = d.len() as int;
            let bl = b.len() as int;
            lemma_dec_digits(b.len() as u64);
            lemma_digits_no_delim(d);
            assert(e == seq![SIGIL_BULK] + d + crlf() + b + crlf());
            assert(e[0] == SIGIL_BULK);
            assert(e.subrange(1, 1 + dl) =~= d);
            assert(e[1 + dl] == CR && e[2 + dl] == LF);
            assert(e.subrange(3 + dl, 3 + dl + bl) =~= b);
            assert(e[3 + dl + bl] == CR && e[4 + dl + bl] == LF);
            lemma_segment(bytes, pos, e, 1, 1 + dl);
            lemma_byte_at(bytes, pos, e, 1 + dl);
            lemma_byte_at(bytes, pos, e, 2 + dl);
            lemma_segment(bytes, pos, e, 3 + dl, 3 + dl + bl);
            lemma_byte_at(bytes, pos, e, 3 + dl + bl);
            lemma_byte_at(bytes, pos, e, 4 + dl + bl);
            lemma_scan_line_at(bytes, pos + 1, d);
            let next = pos + 3 + dl;
            assert(digits_val(d) == bl);
            assert(d != seq![0x2du8, 0x31u8]) by {
                if d == seq![0x2du8, 0x31u8] {
                    assert(d[0] == 0x2d);
                    assert(false);
                }
            };
            assert(next + bl + 2 <= bytes.len());
            assert(bytes[next + bl] == CR && bytes[next + bl + 1] == LF);
            assert(bytes.subrange(next, next + bl) == b);
        },
        FrameModel::Array(items) => {
            let d = dec_digits(items.len() as u64);
            let dl = d.len() as int;
            let il = enc_items(items).len() as int;
            lemma_dec_digits(items.len() as u64);
            lemma_digits_no_delim(d);
            assert(e == seq![SIGIL_ARRAY] + d + crlf() + enc_items(items));
            assert(e[0] == SIGIL_ARRAY);
            assert(e.subrange(1, 1 + dl) =~= d);
            assert(e[1 + dl] == CR && e[2 + dl] == LF);
            assert(e.subrange(3 + dl, 3 + dl + il) =~= enc_items(items));
            lemma_segment(bytes, pos, e, 1, 1 + dl);
            lemma_byte_at(bytes, pos, e, 1 + dl);
            lemma_byte_at(bytes, pos, e, 2 + dl);
            lemma_segment(bytes, pos, e, 3 + dl, 3 + dl + il);
            lemma_scan_line_at(bytes, pos + 1, d);
            let next = pos + 3 + dl;
            assert(digits_val(d) == items.len());
            lemma_scan_items_encoding(bytes, next, items);
            assert(digits_val(d) as nat == items.len());
        },
    }
}

/// Scanning at the position where a run of well-formed frames' encodings
/// stands finds exactly those frames.
pub proof fn lemma_scan_items_encoding(bytes: Seq<u8>, pos: int, items: Seq<FrameModel>)
    requires
        forall|i: int| 0 <= i < items.len() ==> wf(#[trigger] items[i]),
        0 <= pos,
        pos + enc_items(items).len() <= bytes.len(),
        bytes.subrange(pos, pos + enc_items(items).len()) == enc_items(items),
    ensures
        scan_items(bytes, pos, items.len()) == (ScanItems::Found {
            frames: items,
            end: pos + enc_items(items).len(),
        }),
    decreases items,
{
    if items.len() == 0 {
        assert(items =~= Seq::<FrameModel>::empty());
    } else {
        let first = items[0];
        let rest = items.drop_first();
        let e0 = enc(first);
        let l0 = e0.len() as int;
        let lr = enc_items(rest).len() as int;
        assert(enc_items(items) == e0 + enc_items(rest));
        assert(enc_items(items).subrange(0, l0) =~= e0);
        assert(enc_items(items).subrange(l0, l0 + lr) =~= enc_items(rest));
        lemma_segment(bytes, pos, enc_items(items), 0, l0);
        lemma_segment(bytes, pos, enc_items(items), l0, l0 + lr);
        assert(bytes.subrange(pos, pos + l0) == e0);
        lemma_enc_len(first);
        lemma_scan_encoding(bytes, pos, first);
        assert forall|i: int| 0 <= i < rest.len() implies wf(#[trigger] rest[i]) by {
            assert(rest[i] == items[i + 1]);
        };
        lemma_scan_items_encoding(bytes, pos + l0, rest);
        assert(seq![first] + rest =~= items);
    }
}

/// A byte span whose remainder is a strict prefix of `e`, seen through the
/// offset `off`: what stands at and after `pos + off` is the matching
/// prefix of `tail`, provided `tail` is what `e` holds from `off` on.
proof fn lemma_tail_at(bytes: Seq<u8>, pos: int, e: Seq<u8>, off: int, tail: Seq<u8>)
    requires
        0 <= pos,
        0 <= off,
        pos + off <= bytes.len(),
        bytes.len() - pos <= e.len(),
        bytes.subrange(pos, bytes.len() as int) == e.subrange(0, bytes.len() - pos),
        bytes.len() - pos - off <= tail.len(),
        forall|t: int| 0 <= t < bytes.len() - pos - off ==> e[off + t] == #[trigger] tail[t],
    ensures
        bytes.subrange(pos + off, bytes.len() as int) == tail.subrange(
            0,
            bytes.len() - pos - off,
        ),
{
    let m = bytes.len() - pos;
    assert forall|i: int| 0 <= i < m - off implies bytes.subrange(pos + off, bytes.len() as int)[i]
        == #[trigger] tail.subrange(0, m - off)[i] by {
        assert(bytes.subrange(pos, bytes.len() as int)[off + i] == bytes[pos + off + i]);
        assert(e.subrange(0, m)[off + i] == e[off + i]);
        assert(e[off + i] == tail[i]);
        assert(bytes.subrange(pos + off, bytes.len() as int)[i] == bytes[pos + off + i]);
        assert(tail.subrange(0, m - off)[i] == tail[i]);
    };
    assert(bytes.subrange(pos + off, bytes.len() as int) =~= tail.subrange(0, m - off));
}

/// Scanning where only a strict prefix of a well-formed frame's encoding
/// has arrived reports it incomplete: never a frame, never an error.
pub proof fn lemma_scan_prefix(bytes: Seq<u8>, pos: int, f: FrameModel)
    requires
        wf(f),
        0 <= pos <= bytes.len(),
        bytes.len() - pos < enc(f).len(),
        bytes.subrange(pos, bytes.len() as int) == enc(f).subrange(0, bytes.len() - pos),
    ensures
        scan(bytes, pos) is Incomplete,
    decreases f,
{
    let e = enc(f);
    let m = bytes.len() - pos;
    lemma_enc_len(f);
    if m != 0 {        let w = e.subrange(0, m);
        assert(bytes.subrange(pos, pos + w.len()) == w);
        lemma_byte_at(bytes, pos, w, 0);
        assert(w[0] == e[0]);
        match f {
            FrameModel::Simple(s) => {
                assert(e == seq![SIGIL_SIMPLE] + s + crlf());
                assert(e[0] == SIGIL_SIMPLE);
                assert forall|t: int| 0 <= t < s.len() implies #[trigger] s[t] != CR && s[t]
                    != LF by {
                    assert(line_ok(s));
                };
                let tail = s + crlf();
                assert forall|t: int| 0 <= t < m - 1 implies e[1 + t] == #[trigger] tail[t] by {
                    assert(e[1 + t] == (seq![SIGIL_SIMPLE] + s + crlf())[1 + t]);
                    assert(tail[t] == (s + crlf())[t]);
                };
                lemma_tail_at(bytes, pos, e, 1, tail);
                lemma_scan_line_prefix(bytes, pos + 1, s);
            },
            FrameModel::Error(s) => {
                assert(e == seq![SIGIL_ERROR] + s + crlf());
                assert(e[0] == SIGIL_ERROR);
                assert forall|t: int| 0 <= t < s.len() implies #[trigger] s[t] != CR && s[t]
                    != LF by {
                    assert(line_ok(s));
                };
                let tail = s + crlf();
                assert forall|t: int| 0 <= t < m - 1 implies e[1 + t] == #[trigger] tail[t] by {
                    assert(e[1 + t] == (seq![SIGIL_ERROR] + s + crlf())[1 + t]);
                    assert(tail[t] == (s + crlf())[t]);
                };
                lemma_tail_at(bytes, pos, e, 1, tail);
                lemma_scan_line_prefix(bytes, pos + 1, s);
            },
            FrameModel::Integer(n) => {
                let d = dec_digits(n);
                lemma_dec_digits(n);
                lemma_digits_no_delim(d);
                assert(e == seq![SIGIL_INTEGER] + d + crlf());
                assert(e[0] == SIGIL_INTEGER);
                let tail = d + crlf();
                assert forall|t: int| 0 <= t < m - 1 implies e[1 + t] == #[trigger] tail[t] by {
                    assert(e[1 + t] == (seq![SIGIL_INTEGER] + d + crlf())[1 + t]);
                    assert(tail[t] == (d + crlf())[t]);
                };
                lemma_tail_at(bytes, pos, e, 1, tail);
                lemma_scan_line_prefix(bytes, pos + 1, d);
            },
            FrameModel::Null => {
                let d = seq![0x2du8, 0x31u8];
                assert(e == seq![SIGIL_BULK, 0x2du8, 0x31u8] + crlf());
                assert(e[0] == SIGIL_BULK);
                assert forall|t: int| 0 <= t < d.len() implies #[trigger] d[t] != CR && d[t]
                    != LF by {};
                let tail = d + crlf();
                assert forall|t: int| 0 <= t < m - 1 implies e[1 + t] == #[trigger] tail[t] by {
                    assert(e[1 + t] == (seq![SIGIL_BULK, 0x2du8, 0x31u8] + crlf())[1 + t]);
                    assert(tail[t] == (d + crlf())[t]);
                };
                lemma_tail_at(bytes, pos, e, 1, tail);
                lemma_scan_line_prefix(bytes, pos + 1, d);
            },
            FrameModel::Bulk(b) => {
                let d = dec_digits(b.len() as u64);
                let dl = d.len() as int;
                let bl = b.len() as int;
                lemma_dec_digits(b.len() as u64);
                lemma_digits_no_delim(d);
                assert(e == seq![SIGIL_BULK] + d + crlf() + b + crlf());
                assert(e[0] == SIGIL_BULK);
                if m < 3 + dl {
                    let tail = d + crlf();
                    assert forall|t: int| 0 <= t < m - 1 implies e[1 + t] == #[trigger] tail[t] by {
                        assert(e[1 + t] == (seq![SIGIL_BULK] + d + crlf() + b + crlf())[1 + t]);
                        assert(tail[t] == (d + crlf())[t]);
                    };
                    lemma_tail_at(bytes, pos, e, 1, tail);
                    lemma_scan_line_prefix(bytes, pos + 1, d);
                } else {
                    assert forall|t: int| 0 <= t < dl implies w.subrange(1, 1 + dl)[t]
                        == d[t] by {
                        assert(w.subrange(1, 1 + dl)[t] == w[1 + t]);
                        assert(w[1 + t] == e[1 + t]);
                        assert(e[1 + t] == (seq![SIGIL_BULK] + d + crlf() + b + crlf())[1 + t]);
                    };
                    lemma_segment(bytes, pos, w, 1, 1 + dl);
                    assert(w.subrange(1, 1 + dl) =~= d);
                    lemma_byte_at(bytes, pos, w, 1 + dl);
                    lemma_byte_at(bytes, pos, w, 2 + dl);
                    assert(w[1 + dl] == e[1 + dl] && w[2 + dl] == e[2 + dl]);
                    assert(e[1 + dl] == CR && e[2 + dl] == LF) by {
                        assert(e[1 + dl] == (seq![SIGIL_BULK] + d + crlf() + b + crlf())[1 + dl]);
                        assert(e[2 + dl] == (seq![SIGIL_BULK] + d + crlf() + b + crlf())[2 + dl]);
                    };
                    lemma_scan_line_at(bytes, pos + 1, d);
                    let next = pos + 3 + dl;
                    assert(digits_val(d) == bl);
                    assert(d != seq![0x2du8, 0x31u8]) by {
                        if d == seq![0x2du8, 0x31u8] {
                            assert(d[0] == 0x2d);
                            assert(false);
                        }
                    };
                    assert(next + bl + 2 == pos + e.len());
                    assert(next + bl + 2 > bytes.len());
                }
            },
            FrameModel::Array(items) => {
                let d = dec_digits(items.len() as u64);
                let dl = d.len() as int;
                lemma_dec_digits(items.len() as u64);
                lemma_digits_no_delim(d);
                assert(e == seq![SIGIL_ARRAY] + d + crlf() + enc_items(items));
                assert(e[0] == SIGIL_ARRAY);
                if m < 3 + dl {
                    let tail = d + crlf();
                    assert forall|t: int| 0 <= t < m - 1 implies e[1 + t] == #[trigger] tail[t] by {
                        assert(e[1 + t] == (seq![SIGIL_ARRAY] + d + crlf() + enc_items(items))[1
                            + t]);
                        assert(tail[t] == (d + crlf())[t]);
                    };
                    lemma_tail_at(bytes, pos, e, 1, tail);
                    lemma_scan_line_prefix(bytes, pos + 1, d);
                } else {
                    assert forall|t: int| 0 <= t < dl implies w.subrange(1, 1 + dl)[t]
                        == d[t] by {
                        assert(w.subrange(1, 1 + dl)[t] == w[1 + t]);
                        assert(w[1 + t] == e[1 + t]);
                        assert(e[1 + t] == (seq![SIGIL_ARRAY] + d + crlf() + enc_items(items))[1
                            + t]);
                    };
                    lemma_segment(bytes, pos, w, 1, 1 + dl);
                    assert(w.subrange(1, 1 + dl) =~= d);
                    lemma_byte_at(bytes, pos, w, 1 + dl);
                    lemma_byte_at(bytes, pos, w, 2 + dl);
                    assert(w[1 + dl] == e[1 + dl] && w[2 + dl] == e[2 + dl]);
                    assert(e[1 + dl] == CR && e[2 + dl] == LF) by {
                        assert(e[1 + dl] == (seq![SIGIL_ARRAY] + d + crlf() + enc_items(items))[1
                            + dl]);
                        assert(e[2 + dl] == (seq![SIGIL_ARRAY] + d + crlf() + enc_items(items))[2
                            + dl]);
                    };
                    lemma_scan_line_at(bytes, pos + 1, d);
                    let next = pos + 3 + dl;
                    assert(digits_val(d) == items.len());
                    assert forall|t: int| 0 <= t < m - (3 + dl) implies e[3 + dl + t]
                        == #[trigger] enc_items(items)[t] by {
                        assert(e[3 + dl + t] == (seq![SIGIL_ARRAY] + d + crlf() + enc_items(
                            items,
                        ))[3 + dl + t]);
                    };
                    lemma_tail_at(bytes, pos, e, 3 + dl, enc_items(items));
                    lemma_scan_items_prefix(bytes, next, items);
                }
            },
        }
    }
}

/// Scanning a run of frames where only a strict prefix of their encodings
/// has arrived reports the run incomplete.
pub proof fn lemma_scan_items_prefix(bytes: Seq<u8>, pos: int, items: Seq<FrameModel>)
    requires
        forall|i: int| 0 <= i < items.len() ==> wf(#[trigger] items[i]),
        0 <= pos <= bytes.len(),
        bytes.len() - pos < enc_items(items).len(),
        bytes.subrange(pos, bytes.len() as int) == enc_items(items).subrange(
            0,
            bytes.len() - pos,
        ),
    ensures
        scan_items(bytes, pos, items.len()) is Incomplete,
    decreases items,
{
    let m = bytes.len() - pos;
    assert(items.len() > 0);
    let first = items[0];
    let rest = items.drop_first();
    let e0 = enc(first);
    let l0 = e0.len() as int;
    let whole = enc_items(items);
    lemma_enc_len(first);
    assert(whole == e0 + enc_items(rest));
    assert forall|i: int| 0 <= i < rest.len() implies wf(#[trigger] rest[i]) by {
        assert(rest[i] == items[i + 1]);
    };
    if m < l0 {
        assert forall|i: int| 0 <= i < m implies bytes.subrange(pos, bytes.len() as int)[i]
            == e0.subrange(0, m)[i] by {
            assert(whole.subrange(0, m)[i] == whole[i]);
            assert(whole[i] == (e0 + enc_items(rest))[i]);
            assert((e0 + enc_items(rest))[i] == e0[i]);
            assert(e0.subrange(0, m)[i] == e0[i]);
        };
        assert(bytes.subrange(pos, bytes.len() as int) =~= e0.subrange(0, m));
        lemma_scan_prefix(bytes, pos, first);
    } else {
        assert forall|i: int| 0 <= i < l0 implies bytes.subrange(pos, pos + l0)[i]
            == e0[i] by {
            assert(bytes.subrange(pos, pos + l0)[i] == bytes[pos + i]);
            assert(bytes.subrange(pos, bytes.len() as int)[i] == bytes[pos + i]);
            assert(whole.subrange(0, m)[i] == whole[i]);
            assert(whole[i] == (e0 + enc_items(rest))[i]);
            assert((e0 + enc_items(rest))[i] == e0[i]);
        };
        assert(bytes.subrange(pos, pos + l0) =~= e0);
        lemma_scan_encoding(bytes, pos, first);
        assert forall|t: int| 0 <= t < m - l0 implies whole[l0 + t] == #[trigger] enc_items(
            rest,
        )[t] by {
            assert(whole[l0 + t] == (e0 + enc_items(rest))[l0 + t]);
        };
        lemma_tail_at(bytes, pos, whole, l0, enc_items(rest));
        lemma_scan_items_prefix(bytes, pos + l0, rest);
    }
}

/// Round trip: the encoding of any well-formed frame, however many bytes of
/// the stream follow it, scans back to exactly that frame, ending exactly
/// at its own last byte. With the contracts of `Frame::encode`,
/// `Frame::check`, `Frame::parse` and `FrameBuffer::parse_frame`, this says
/// that writing a frame and reading the resulting bytes yields an equal
/// frame and consumes nothing beyond it.
pub proof fn lemma_round_trip(f: FrameModel, rest: Seq<u8>)
    requires
        wf(f),
    ensures
        scan(enc(f) + rest, 0) == (ScanResult::Found { frame: f, end: enc(f).len() as int }),
{
    let bytes = enc(f) + rest;
    assert(bytes.subrange(0, enc(f).len() as int) =~= enc(f));
    lemma_scan_encoding(bytes, 0, f);
}

/// Fragmentation independence: while any strict prefix of a well-formed
/// frame's encoding is all that has arrived, the scan asks for more bytes —
/// it neither yields a frame nor reports an error. Together with
/// `lemma_round_trip` this means the read loop's result does not depend on
/// how the wire bytes were split across partial reads: every feeding order
/// passes through incomplete states until the frame is whole, and then
/// yields it exactly once.
pub proof fn lemma_prefix_incomplete(f: FrameModel, k: int)
    requires
        wf(f),
        0 <= k < enc(f).len(),
    ensures
        scan(enc(f).subrange(0, k), 0) is Incomplete,
{
    let bytes = enc(f).subrange(0, k);
    assert(bytes.subrange(0, k) =~= enc(f).subrange(0, k));
    lemma_scan_prefix(bytes, 0, f);
}

} // verus!
