//! Reading a graph from its text form: a header line `vertex_count
//! edge_count`, then one line per node listing its neighbours by 1-based
//! index, separated by ASCII whitespace.

use vstd::prelude::*;
use vstd::string::StringSliceAdditionalSpecFns;

verus! {

/// A graph read from text: CSR offsets and edges, without weights.
pub struct GraphData {
    pub nodes_edge_offset: Vec<u32>,
    pub nodes_edges: Vec<u32>,
}

/// Where a scan of the text stands after some prefix of its bytes.
pub struct ScanState {
    /// Lines ended so far; line zero is the header.
    pub line: nat,
    /// The value of the number being read, if a digit was the last byte.
    pub token: Option<u32>,
    /// Numbers read on the header line.
    pub header_values: nat,
    /// Some byte seen since the last line break.
    pub line_open: bool,
    /// A byte, number or header broke the format.
    pub failed: bool,
    /// The edge count when the current line began.
    pub line_start: nat,
    pub offsets: Seq<u32>,
    pub edges: Seq<u32>,
}

/// ASCII whitespace other than the line break: space, tab, form feed,
/// carriage return.
pub open spec fn is_blank(c: u8) -> bool {
    c == 0x20 || c == 0x09 || c == 0x0C || c == 0x0D
}

/// An ASCII digit.
pub open spec fn is_digit(c: u8) -> bool {
    0x30 <= c <= 0x39
}

/// The scan before any byte.
pub open spec fn scan_start() -> ScanState {
    ScanState {
        line: 0,
        token: None,
        header_values: 0,
        line_open: false,
        failed: false,
        line_start: 0,
        offsets: Seq::empty(),
        edges: Seq::empty(),
    }
}

/// Ends the number being read: on the header it is counted, on a node line a
/// reference `r >= 1` adds edge `r - 1`; a zero reference breaks the format.
pub open spec fn end_token(s: ScanState) -> ScanState {
    match s.token {
        None => s,
        Some(v) => if s.line == 0 {
            ScanState { token: None, header_values: s.header_values + 1, ..s }
        } else if v == 0 {
            ScanState { token: None, failed: true, ..s }
        } else {
            ScanState { token: None, edges: s.edges.push((v - 1) as u32), ..s }
        },
    }
}

/// Ends the current line: the header must have held two numbers; a node
/// line records where its edges start.
pub open spec fn end_line(s: ScanState) -> ScanState {
    if s.line == 0 {
        ScanState { line: 1, line_open: false, failed: s.failed || s.header_values < 2, line_start: s.edges.len(), ..s }
    } else {
        ScanState {
            line: s.line + 1,
            line_open: false,
            offsets: s.offsets.push(s.line_start as u32),
            line_start: s.edges.len(),
            ..s
        }
    }
}

/// The scan after one more byte.
pub open spec fn scan_step(s: ScanState, c: u8) -> ScanState {
    if s.failed {
        s
    } else if is_digit(c) {
        let d = (c - 0x30) as int;
        let v = match s.token {
            None => d,
            Some(t) => t * 10 + d,
        };
        if v > u32::MAX {
            ScanState { failed: true, ..s }
        } else {
            ScanState { token: Some(v as u32), line_open: true, ..s }
        }
    } else if is_blank(c) {
        ScanState { line_open: true, ..end_token(s) }
    } else if c == 0x0A {
        end_line(end_token(s))
    } else {
        ScanState { failed: true, ..s }
    }
}

/// The scan after the bytes `b`.
pub open spec fn scan(b: Seq<u8>) -> ScanState
    decreases b.len(),
{
    if b.len() == 0 {
        scan_start()
    } else {
        scan_step(scan(b.drop_last()), b.last())
    }
}

/// The scan at the end of the text: the last number and a last unterminated
/// line are ended.
pub open spec fn scan_finish(s: ScanState) -> ScanState {
    if s.failed {
        s
    } else {
        let t = end_token(s);
        if t.line_open && !t.failed {
            end_line(t)
        } else {
            t
        }
    }
}

/// What the text reads as: `None` for an empty text or one that breaks the
/// format, else the offsets and edges.
pub open spec fn graph_of_text(b: Seq<u8>) -> Option<(Seq<u32>, Seq<u32>)> {
    let s = scan_finish(scan(b));
    if b.len() == 0 || s.failed || s.line == 0 {
        None
    } else {
        Some((s.offsets, s.edges))
    }
}

/// Reads a graph from its text form. Returns `None` for an empty text, a
/// header without two numbers, a byte other than digits and whitespace, a
/// number above `u32::MAX`, or a zero reference.
pub fn parse_graph_data(data: &str) -> (r: Option<GraphData>)
    requires
        data.spec_bytes().len() < u32::MAX,
    ensures
        match r {
            None => graph_of_text(data.spec_bytes()) is None,
            Some(g) => graph_of_text(data.spec_bytes()) == Some((g.nodes_edge_offset@, g.nodes_edges@)),
        },
{
    let bytes = data.as_bytes();
    let ghost b = bytes@;
    let len = bytes.len();
    let mut line: usize = 0;
    let mut token: Option<u32> = None;
    let mut header_values: usize = 0;
    let mut line_open = false;
    let mut failed = false;
    let mut line_start: usize = 0;
    let mut offsets: Vec<u32> = Vec::new();
    let mut edges: Vec<u32> = Vec::new();
    let mut i: usize = 0;
    while i < len
        invariant
            i <= len,
            len == b.len(),
            b == bytes@,
            len < u32::MAX,
            line <= i,
            header_values <= i,
            line_start <= edges@.len() <= i,
            offsets@.len() <= i,
            ({
                let s = scan(b.take(i as int));
                &&& s.line == line
                &&& s.token == token
                &&& s.header_values == header_values
                &&& s.line_open == line_open
                &&& s.failed == failed
                &&& s.line_start == line_start
                &&& s.offsets == offsets@
                &&& s.edges == edges@
            }),
        decreases len - i,
    {
        proof {
            assert(b.take(i + 1).drop_last() =~= b.take(i as int));
        }
        let c = bytes[i];
        if !failed {
            if 0x30 <= c && c <= 0x39 {
                let d = (c - 0x30) as u64;
                let v: u64 = match token {
                    None => d,
                    Some(t) => t as u64 * 10 + d,
                };
                if v > 0xFFFF_FFFF {
                    failed = true;
                } else {
                    token = Some(v as u32);
                    line_open = true;
                }
            } else if c == 0x20 || c == 0x09 || c == 0x0C || c == 0x0D || c == 0x0A {
                if let Some(v) = token {
                    if line == 0 {
                        header_values = header_values + 1;
                    } else if v == 0 {
                        failed = true;
                    } else {
                        edges.push(v - 1);
                    }
                    token = None;
                }
                if c == 0x0A {
                    if line == 0 {
                        failed = failed || header_values < 2;
                    } else {
                        offsets.push(line_start as u32);
                    }
                    line = line + 1;
                    line_open = false;
                    line_start = edges.len();
                } else {
                    line_open = true;
                }
            } else {
                failed = true;
            }
        }
        i = i + 1;
    }
    proof {
        assert(b.take(len as int) =~= b);
    }
    if len == 0 || failed {
        return None;
    }
    if let Some(v) = token {
        if line == 0 {
            header_values = header_values + 1;
        } else if v == 0 {
            return None;
        } else {
            edges.push(v - 1);
        }
        token = None;
    }
    if line_open {
        if line == 0 {
            if header_values < 2 {
                return None;
            }
        } else {
            offsets.push(line_start as u32);
        }
        line = line + 1;
    }
    if line == 0 {
        return None;
    }
    Some(GraphData { nodes_edge_offset: offsets, nodes_edges: edges })
}

} // verus!
