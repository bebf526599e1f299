//! The layout grammar and its parser.
//!
//! The surface syntax, with whitespace permitted between tokens:
//!
//! ```text
//! instruction := direction "(" node ("," node)* ")"
//! direction   := "h" | "v"
//! node        := number | number ":" instruction
//! number      := digits ("." digits)?
//! ```
//!
//! The grammar is stated once, as the specification functions below over the
//! input bytes, and the executable parser is proved to return `Ok` exactly
//! on the strings those functions accept, with exactly the tree they
//! describe. Numerals whose numerator would reach `RATIO_CAP`, or with more
//! than `MAX_SCALE` fraction digits, are outside the representable ratio
//! range and are rejected as unparseable.

use crate::instruction::{instr_view, node_view, nodes_view, InstrView, Instruction, Node, NodeView};
use crate::ratio::{lemma_pow10_pos, pow10, pow10_u64, Ratio, MAX_SCALE, RATIO_CAP};
use crate::zone::Direction;
use vstd::arithmetic::mul::lemma_mul_upper_bound;
use vstd::prelude::*;
use vstd::string::StringSliceAdditionalSpecFns;

verus! {

/// Why a parse failed.
#[derive(Debug, Clone, Copy, PartialEq, Eq, Structural)]
pub enum ParserError {
    /// The text does not match the layout grammar (or holds a numeral
    /// outside the representable ratio range); `pos` is a byte offset near
    /// where parsing stopped, kept for diagnostics only.
    Mismatch { pos: usize },
    /// A complete layout was recognized but non-whitespace input remains.
    MoreThanOne,
}

pub open spec fn is_ws(c: u8) -> bool {
    c == 32 || c == 9 || c == 10 || c == 13
}

pub open spec fn is_digit(c: u8) -> bool {
    48 <= c <= 57
}

/// First position at or after `i` holding no whitespace.
pub open spec fn spec_skip_ws(s: Seq<u8>, i: int) -> int
    decreases s.len() - i,
{
    if 0 <= i < s.len() && is_ws(s[i]) {
        spec_skip_ws(s, i + 1)
    } else {
        i
    }
}

/// First position at or after `i` holding no decimal digit.
pub open spec fn digits_end(s: Seq<u8>, i: int) -> int
    decreases s.len() - i,
{
    if 0 <= i < s.len() && is_digit(s[i]) {
        digits_end(s, i + 1)
    } else {
        i
    }
}

/// The value of the digit run `s[i .. j)` read as a decimal number.
pub open spec fn digits_value(s: Seq<u8>, i: int, j: int) -> int
    decreases j - i,
{
    if i < j {
        digits_value(s, i, j - 1) * 10 + (s[j - 1] as int - 48)
    } else {
        0
    }
}

/// The numeral starting exactly at `i`: its ratio and the position after its
/// last digit. `None` when no digit stands at `i`, when a decimal point is
/// not followed by a digit, or when the numeral leaves representable range.
pub open spec fn spec_parse_number(s: Seq<u8>, i: int) -> Option<(Ratio, int)> {
    let j = digits_end(s, i);
    if j == i {
        None
    } else {
        let m = digits_value(s, i, j);
        if j < s.len() && s[j] == 46 {  // '.'
            let k = digits_end(s, j + 1);
            if k == j + 1 {
                None
            } else {
                let sc = k - j - 1;
                let num = m * pow10(sc as nat) + digits_value(s, j + 1, k);
                if sc <= MAX_SCALE as int && num < RATIO_CAP as int {
                    Some((Ratio { num: num as u64, scale: sc as u8 }, k))
                } else {
                    None
                }
            }
        } else {
            if m < RATIO_CAP as int {
                Some((Ratio { num: m as u64, scale: 0u8 }, j))
            } else {
                None
            }
        }
    }
}

/// One node starting at `i` (leading whitespace allowed): a numeral,
/// optionally followed by a colon and a nested instruction.
pub open spec fn spec_parse_node(s: Seq<u8>, i: int) -> Option<(NodeView, int)>
    decreases s.len() - i, 0nat,
{
    let i1 = spec_skip_ws(s, i);
    match spec_parse_number(s, i1) {
        None => None,
        Some((r, j)) => {
            let j1 = spec_skip_ws(s, j);
            if j1 < s.len() && s[j1] == 58 {  // ':'
                if i < j1 + 1 <= s.len() {
                    match spec_parse_instruction(s, j1 + 1) {
                        None => None,
                        Some((t, k)) => Some((NodeView { ratio: r, instruction: t }, k)),
                    }
                } else {
                    None
                }
            } else {
                Some((NodeView { ratio: r, instruction: InstrView::Leaf }, j))
            }
        },
    }
}

/// A comma-separated list of one or more nodes starting at `i`.
pub open spec fn spec_parse_nodes(s: Seq<u8>, i: int) -> Option<(Seq<NodeView>, int)>
    decreases s.len() - i, 1nat,
{
    match spec_parse_node(s, i) {
        None => None,
        Some((n, j)) => {
            let j1 = spec_skip_ws(s, j);
            if j1 < s.len() && s[j1] == 44 {  // ','
                if i < j1 + 1 <= s.len() {
                    match spec_parse_nodes(s, j1 + 1) {
                        None => None,
                        Some((rest, k)) => Some((seq![n] + rest, k)),
                    }
                } else {
                    None
                }
            } else {
                Some((seq![n], j))
            }
        },
    }
}

/// One instruction starting at `i` (leading whitespace allowed): a direction
/// letter and a parenthesized node list.
pub open spec fn spec_parse_instruction(s: Seq<u8>, i: int) -> Option<(InstrView, int)>
    decreases s.len() - i, 2nat,
{
    let i1 = spec_skip_ws(s, i);
    if i1 < s.len() && (s[i1] == 104 || s[i1] == 118) {  // 'h' | 'v'
        let d = if s[i1] == 104 {  // 'h'
            Direction::Horizontal
        } else {
            Direction::Vertical
        };
        let i2 = spec_skip_ws(s, i1 + 1);
        if i2 < s.len() && s[i2] == 40 {  // '('
            if i < i2 + 1 <= s.len() {
                match spec_parse_nodes(s, i2 + 1) {
                    None => None,
                    Some((children, j)) => {
                        let j1 = spec_skip_ws(s, j);
                        if j1 < s.len() && s[j1] == 41 {  // ')'
                            Some((InstrView::Split { direction: d, children }, j1 + 1))
                        } else {
                            None
                        }
                    },
                }
            } else {
                None
            }
        } else {
            None
        }
    } else {
        None
    }
}

fn skip_ws_at(s: &[u8], i: usize) -> (j: usize)
    requires
        i <= s@.len(),
    ensures
        j as int == spec_skip_ws(s@, i as int),
        i <= j <= s@.len(),
{
    let mut k = i;
    while k < s.len() && (s[k] == 32 || s[k] == 9 || s[k] == 10 || s[k] == 13)
        invariant
            i <= k <= s@.len(),
            spec_skip_ws(s@, i as int) == spec_skip_ws(s@, k as int),
        decreases s@.len() - k,
    {
        k += 1;
    }
    k
}

/// Scans the digit run at `i`: its end, its value, and whether the value
/// left representable range.
fn read_digits(s: &[u8], i: usize) -> (r: (usize, u64, bool))
    requires
        i <= s@.len(),
    ensures
        r.0 as int == digits_end(s@, i as int),
        i <= r.0 <= s@.len(),
        !r.2 ==> r.1 as int == digits_value(s@, i as int, r.0 as int) && r.1 < RATIO_CAP,
        r.2 ==> digits_value(s@, i as int, r.0 as int) >= RATIO_CAP,
{
    let mut k = i;
    let mut acc: u64 = 0;
    let mut of = false;
    while k < s.len() && s[k] >= 48 && s[k] <= 57
        invariant
            i <= k <= s@.len(),
            digits_end(s@, i as int) == digits_end(s@, k as int),
            !of ==> acc as int == digits_value(s@, i as int, k as int) && acc < RATIO_CAP,
            of ==> digits_value(s@, i as int, k as int) >= RATIO_CAP,
        decreases s@.len() - k,
    {
        let d = s[k] - 48;
        proof {
            assert(digits_value(s@, i as int, k + 1) == digits_value(s@, i as int, k as int) * 10
                + d);
        }
        if !of {
            let na = acc * 10 + (d as u64);
            if na >= RATIO_CAP {
                of = true;
            } else {
                acc = na;
            }
        }
        k += 1;
    }
    (k, acc, of)
}

/// The numeral at `i`, or the position where none could be read.
fn parse_number_at(s: &[u8], i: usize) -> (r: Result<(Ratio, usize), usize>)
    requires
        i <= s@.len(),
    ensures
        r matches Ok((v, j)) ==> spec_parse_number(s@, i as int) == Some((v, j as int)) && i < j
            <= s@.len(),
        r is Err ==> spec_parse_number(s@, i as int) is None,
{
    let (j, m, of1) = read_digits(s, i);
    if j == i {
        return Err(i);
    }
    let ghost ms = digits_value(s@, i as int, j as int);
    if j < s.len() && s[j] == 46 {  // '.'
        let (k, f, of2) = read_digits(s, j + 1);
        let ghost fs = digits_value(s@, j + 1, k as int);
        if k == j + 1 {
            return Err(k);
        }
        let sc_big = k - (j + 1);
        proof {
            lemma_pow10_pos((k - (j + 1)) as nat);
        }
        if sc_big > MAX_SCALE as usize {
            return Err(i);
        }
        if of1 || of2 {
            proof {
                assert(fs >= 0);
                assert(ms >= 0);
                if of1 {
                    assert(ms * pow10(sc_big as nat) >= RATIO_CAP) by (nonlinear_arith)
                        requires
                            ms >= RATIO_CAP,
                            pow10(sc_big as nat) >= 1,
                    ;
                } else {
                    assert(ms * pow10(sc_big as nat) >= 0) by (nonlinear_arith)
                        requires
                            ms >= 0,
                            pow10(sc_big as nat) >= 1,
                    ;
                }
            }
            return Err(i);
        }
        let sc = sc_big as u8;
        let p = pow10_u64(sc);
        proof {
            crate::ratio::lemma_pow10_le(sc as nat, 5);
            reveal_with_fuel(pow10, 6);
            assert(pow10(5) == 100000);
            lemma_mul_upper_bound(m as int, RATIO_CAP as int - 1, p as int, 100000);
        }
        let num = m * p + f;
        if num >= RATIO_CAP {
            return Err(i);
        }
        Ok((Ratio { num, scale: sc }, k))
    } else {
        if of1 {
            return Err(i);
        }
        Ok((Ratio { num: m, scale: 0 }, j))
    }
}

/// The node at `i`, or the position where none could be read.
fn parse_node_at(s: &[u8], i: usize) -> (r: Result<(Node, usize), usize>)
    requires
        i <= s@.len(),
    ensures
        r matches Ok((n, j)) ==> spec_parse_node(s@, i as int) == Some((n@, j as int)) && i < j
            <= s@.len(),
        r is Err ==> spec_parse_node(s@, i as int) is None,
    decreases s@.len() - i, 0nat,
{
    let i1 = skip_ws_at(s, i);
    match parse_number_at(s, i1) {
        Err(p) => Err(p),
        Ok((ratio, j)) => {
            let j1 = skip_ws_at(s, j);
            if j1 < s.len() && s[j1] == 58 {  // ':'
                match parse_instruction_at(s, j1 + 1) {
                    Err(p) => Err(p),
                    Ok((t, k)) => {
                        let n = Node { ratio, instruction: t };
                        proof {
                            assert(n@ == (NodeView { ratio, instruction: t@ }));
                        }
                        Ok((n, k))
                    },
                }
            } else {
                let n = Node { ratio, instruction: Instruction::Leaf };
                proof {
                    assert(n@ == (NodeView { ratio, instruction: InstrView::Leaf }));
                }
                Ok((n, j))
            }
        },
    }
}

/// The node list at `i`, or the position where it stopped matching.
fn parse_nodes_at(s: &[u8], i: usize) -> (r: Result<(Vec<Node>, usize), usize>)
    requires
        i <= s@.len(),
    ensures
        r matches Ok((v, j)) ==> spec_parse_nodes(s@, i as int) == Some(
            (nodes_view(v@), j as int),
        ) && i < j <= s@.len(),
        r is Err ==> spec_parse_nodes(s@, i as int) is None,
    decreases s@.len() - i, 1nat,
{
    match parse_node_at(s, i) {
        Err(p) => Err(p),
        Ok((n, j)) => {
            let j1 = skip_ws_at(s, j);
            if j1 < s.len() && s[j1] == 44 {  // ','
                match parse_nodes_at(s, j1 + 1) {
                    Err(p) => Err(p),
                    Ok((rest, k)) => {
                        let ghost rest0 = rest@;
                        let mut out = rest;
                        out.insert(0, n);
                        proof {
                            assert(out@ =~= seq![n] + rest0);
                            assert((seq![n] + rest0).subrange(1, (seq![n] + rest0).len() as int)
                                =~= rest0);
                            assert(nodes_view(out@) =~= seq![node_view(n)] + nodes_view(rest0));
                        }
                        Ok((out, k))
                    },
                }
            } else {
                let out = vec![n];
                proof {
                    assert(out@ =~= seq![n]);
                    assert(seq![n].subrange(1, 1) =~= Seq::<Node>::empty());
                    assert(nodes_view(Seq::<Node>::empty()) =~= Seq::<NodeView>::empty());
                    assert(nodes_view(out@) =~= seq![node_view(n)]);
                }
                Ok((out, j))
            }
        },
    }
}

/// The instruction at `i`, or the position where it stopped matching.
fn parse_instruction_at(s: &[u8], i: usize) -> (r: Result<(Instruction, usize), usize>)
    requires
        i <= s@.len(),
    ensures
        r matches Ok((t, j)) ==> spec_parse_instruction(s@, i as int) == Some((t@, j as int)) && i
            < j <= s@.len(),
        r is Err ==> spec_parse_instruction(s@, i as int) is None,
    decreases s@.len() - i, 2nat,
{
    let i1 = skip_ws_at(s, i);
    if i1 >= s.len() || (s[i1] != 104 && s[i1] != 118) {  // 'h' | 'v'
        return Err(i1);
    }
    let dir = if s[i1] == 104 {  // 'h'
        Direction::Horizontal
    } else {
        Direction::Vertical
    };
    let i2 = skip_ws_at(s, i1 + 1);
    if i2 >= s.len() || s[i2] != 40 {  // '('
        return Err(i2);
    }
    match parse_nodes_at(s, i2 + 1) {
        Err(p) => Err(p),
        Ok((children, j)) => {
            let j1 = skip_ws_at(s, j);
            if j1 >= s.len() || s[j1] != 41 {  // ')'
                return Err(j1);
            }
            let t = Instruction::Split { direction: dir, children };
            proof {
                assert(t@ == (InstrView::Split { direction: dir, children: nodes_view(children@) }));
            }
            Ok((t, j1 + 1))
        },
    }
}

/// Parses one complete layout description.
///
/// Returns the tree exactly when the whole input is a single instruction of
/// the grammar (surrounded by whitespace at most); reports `MoreThanOne`
/// when a complete instruction is followed by anything but whitespace, and
/// `Mismatch` when no instruction can be read at all.
pub fn parse(input: &str) -> (r: Result<Instruction, ParserError>)
    ensures
        ({
            let s = input.spec_bytes();
            match spec_parse_instruction(s, 0) {
                Some((t, j)) => {
                    if spec_skip_ws(s, j) == s.len() {
                        r matches Ok(out) && out@ == t
                    } else {
                        r == Err::<Instruction, ParserError>(ParserError::MoreThanOne)
                    }
                },
                None => r matches Err(e) && e matches ParserError::Mismatch { pos: _ },
            }
        }),
{
    let bytes = input.as_bytes();
    match parse_instruction_at(bytes, 0) {
        Err(pos) => Err(ParserError::Mismatch { pos }),
        Ok((t, j)) => {
            let j1 = skip_ws_at(bytes, j);
            if j1 == bytes.len() {
                Ok(t)
            } else {
                Err(ParserError::MoreThanOne)
            }
        },
    }
}

} // verus!
