//! The pure parts of tailing: scanning a buffer backwards for line
//! breaks, and selecting the last lines of an in-memory text. Reading
//! files and standard input stays with the caller; these functions do
//! the counting and the assembling.

use vstd::prelude::*;

use crate::result_error::strs_view;

verus! {

/// One backward pass over the first `b` bytes of a buffer, read from
/// the back: each line feed counts one line, the scan stops once
/// `count` lines are found or the absolute position reaches the start
/// of the data. The result is the line count, the absolute position,
/// and whether the scan is done.
pub open spec fn scan_chunk_spec(
    bytes: Seq<u8>,
    i: int,
    b: int,
    count: u64,
    lc: int,
    pos: int,
) -> (int, int, bool)
    decreases b - i,
{
    if i < 0 || i >= b {
        (lc, pos, false)
    } else {
        let lc2 = if bytes[b - i - 1] == 0xA {
            lc + 1
        } else {
            lc
        };
        if lc2 == count {
            (lc2, pos, true)
        } else if pos - 1 <= 0 {
            (lc2, 0, true)
        } else {
            scan_chunk_spec(bytes, i + 1, b, count, lc2, pos - 1)
        }
    }
}

/// Scans the first `b` bytes of the buffer backwards, counting line
/// feeds from `line_count` on and walking `current_pos` down one byte
/// at a time, exactly as the model describes.
pub fn scan_chunk(buf: &[u8], b: usize, count: u64, line_count: u64, current_pos: u64) -> (r: (
    u64,
    u64,
    bool,
))
    requires
        b <= buf@.len(),
        current_pos >= 1 || b == 0,
        line_count as int + b as int <= u64::MAX,
    ensures
        ({
            let s = scan_chunk_spec(buf@, 0, b as int, count, line_count as int, current_pos as int);
            r.0 as int == s.0 && r.1 as int == s.1 && r.2 == s.2
        }),
{
    let ghost lc0 = line_count as int;
    let ghost pos0 = current_pos as int;
    let mut lc = line_count;
    let mut pos = current_pos;
    let mut i: usize = 0;
    while i < b
        invariant
            i <= b,
            b <= buf@.len(),
            lc0 == line_count as int,
            pos0 == current_pos as int,
            lc as int + (b - i) as int <= u64::MAX,
            pos >= 1 || b == 0,
            scan_chunk_spec(buf@, 0, b as int, count, lc0, pos0) == scan_chunk_spec(
                buf@,
                i as int,
                b as int,
                count,
                lc as int,
                pos as int,
            ),
        decreases b - i,
    {
        let byte = buf[b - i - 1];
        let ghost lc_before = lc as int;
        let ghost pos_before = pos as int;
        if byte == 0xA {
            lc = lc + 1;
        }
        if lc == count {
            proof {
                assert(scan_chunk_spec(buf@, i as int, b as int, count, lc_before, pos_before) == (
                    lc as int,
                    pos as int,
                    true,
                ));
            }
            return (lc, pos, true);
        }
        pos = pos - 1;
        if pos == 0 {
            proof {
                assert(scan_chunk_spec(buf@, i as int, b as int, count, lc_before, pos_before) == (
                    lc as int,
                    0int,
                    true,
                ));
            }
            return (lc, 0, true);
        }
        i += 1;
        proof {
            assert(scan_chunk_spec(buf@, i - 1, b as int, count, lc_before, pos_before)
                == scan_chunk_spec(buf@, i as int, b as int, count, lc as int, pos as int));
        }
    }
    (lc, pos, false)
}

/// The lines from `i` on, each followed by a line break.
pub open spec fn joined_from(lines: Seq<Seq<char>>, i: int) -> Seq<char>
    decreases lines.len() - i,
{
    if i < 0 || i >= lines.len() {
        Seq::empty()
    } else {
        lines[i] + seq!['\n'] + joined_from(lines, i + 1)
    }
}

/// The last `count` lines (all of them when fewer), each followed by a
/// line break.
pub open spec fn last_lines_spec(lines: Seq<Seq<char>>, count: u64) -> Seq<char> {
    let start = if lines.len() > count {
        lines.len() - count
    } else {
        0
    };
    joined_from(lines, start as int)
}

/// Joins the last `count` lines, each with a trailing line break.
pub fn last_lines_joined(lines: &Vec<String>, count: u64) -> (r: String)
    ensures
        r@ == last_lines_spec(strs_view(lines@), count),
{
    let ghost lv = strs_view(lines@);
    let n = lines.len();
    let start: usize = if (n as u64) > count {
        n - (count as usize)
    } else {
        0
    };
    proof {
        assert(start as int == (if lv.len() > count {
            lv.len() - count
        } else {
            0
        }));
    }
    let mut result = String::new();
    let mut j = start;
    proof {
        assert(result@ =~= Seq::<char>::empty());
    }
    while j < n
        invariant
            start <= j,
            j <= n,
            n == lines@.len(),
            lv == strs_view(lines@),
            result@ + joined_from(lv, j as int) == joined_from(lv, start as int),
        decreases n - j,
    {
        let ghost r0 = result@;
        result.append(lines[j].as_str());
        result.append("\n");
        j += 1;
        proof {
            reveal_strlit("\n");
            assert("\n"@ =~= seq!['\n']);
            assert(joined_from(lv, j - 1) == lv[j - 1] + seq!['\n'] + joined_from(lv, j as int));
            assert(result@ =~= r0 + lv[j - 1] + seq!['\n']);
            assert((r0 + lv[j - 1] + seq!['\n']) + joined_from(lv, j as int) =~= r0 + (lv[j - 1]
                + seq!['\n'] + joined_from(lv, j as int)));
        }
    }
    proof {
        assert(joined_from(lv, j as int) =~= Seq::<char>::empty());
        assert(result@ + joined_from(lv, j as int) =~= result@);
    }
    result
}

} // verus!
