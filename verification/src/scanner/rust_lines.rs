//! Per-line lexical states for Rust source: whether a line starts in code,
//! a string, a raw string or a (possibly nested) block comment.
use vstd::prelude::*;
use vstd::string::StringSliceAdditionalSpecFns;
use super::Language;

verus! {

#[derive(Clone, Copy, Debug, PartialEq, Eq, Structural)]
pub enum RustLexicalState {
    Code,
    Quoted,
    Raw(usize),
    BlockComment(usize),
}

/// Block comment depths count open comments, so they are at least one.
pub open spec fn state_ok(st: RustLexicalState) -> bool {
    st matches RustLexicalState::BlockComment(d) ==> d >= 1
}

pub open spec fn depth_of(st: RustLexicalState) -> int {
    match st {
        RustLexicalState::BlockComment(d) => d as int,
        _ => 0,
    }
}

/// Width of the UTF-8 character whose leading byte is at `index`; `None`
/// past the end or on a continuation byte.
pub open spec fn width_at(b: Seq<u8>, index: int) -> Option<int> {
    if index < 0 || index >= b.len() {
        None
    } else if b[index] < 0x80 {
        Some(1)
    } else if b[index] < 0xC0 {
        None
    } else if b[index] < 0xE0 {
        Some(2)
    } else if b[index] < 0xF0 {
        Some(3)
    } else {
        Some(4)
    }
}

/// The first index at or after `from` holding byte `x`.
pub open spec fn position_from(b: Seq<u8>, from: int, x: u8) -> Option<int>
    decreases b.len() - from,
{
    if from < 0 || from >= b.len() {
        None
    } else if b[from] == x {
        Some(from)
    } else {
        position_from(b, from + 1, x)
    }
}

pub open spec fn byte_at(b: Seq<u8>, i: int) -> Option<u8> {
    if 0 <= i < b.len() {
        Some(b[i])
    } else {
        None
    }
}

/// Where the content of a character literal whose content starts at
/// `index` ends, when a closing `'` follows it there.
pub open spec fn char_literal_end(b: Seq<u8>, index: int) -> Option<int> {
    let content_end = if byte_at(b, index) == Some(0x5Cu8) {
        match byte_at(b, index + 1) {
            Some(c) => if c == 0x78 {
                Some(index + 4)
            } else if c == 0x75 && byte_at(b, index + 2) == Some(0x7Bu8) {
                match position_from(b, index + 3, 0x7D) {
                    Some(p) => Some(p + 1),
                    None => None,
                }
            } else {
                Some(index + 2)
            },
            None => None,
        }
    } else {
        match width_at(b, index) {
            Some(w) => Some(index + w),
            None => None,
        }
    };
    match content_end {
        Some(e) => if byte_at(b, e) == Some(0x27u8) {
            Some(e)
        } else {
            None
        },
        None => None,
    }
}

/// Number of `#` bytes starting at `i`.
pub open spec fn hashes_from(b: Seq<u8>, i: int) -> int
    decreases b.len() - i,
{
    if 0 <= i < b.len() && b[i] == 0x23 {
        1 + hashes_from(b, i + 1)
    } else {
        0
    }
}

/// A `"` at `index` followed by `hashes` `#` bytes closes a raw string.
pub open spec fn closes_raw(b: Seq<u8>, index: int, hashes: int) -> bool {
    b[index] == 0x22 && b.len() - (index + 1) >= hashes && forall|k: int|
        index + 1 <= k < index + 1 + hashes ==> #[trigger] b[k] == 0x23
}

/// The state after reading bytes from `index` on, starting in `st`.
pub open spec fn advance_from(b: Seq<u8>, index: int, st: RustLexicalState) -> RustLexicalState
    decreases b.len() - index,
{
    if index < 0 || index >= b.len() {
        st
    } else {
        match st {
            RustLexicalState::Code => {
                let c = b[index];
                if c == 0x2F && byte_at(b, index + 1) == Some(0x2Fu8) {
                    st
                } else if c == 0x2F && byte_at(b, index + 1) == Some(0x2Au8) {
                    advance_from(b, index + 2, RustLexicalState::BlockComment(1))
                } else if c == 0x27 {
                    let next = match char_literal_end(b, index + 1) {
                        Some(e) => e,
                        None => index,
                    } + 1;
                    if next > index {
                        advance_from(b, next, RustLexicalState::Code)
                    } else {
                        st
                    }
                } else if c == 0x22 {
                    advance_from(b, index + 1, RustLexicalState::Quoted)
                } else if c == 0x72 {
                    let h = hashes_from(b, index + 1);
                    if byte_at(b, index + h + 1) == Some(0x22u8) && h >= 0 {
                        advance_from(b, index + h + 2, RustLexicalState::Raw(h as usize))
                    } else {
                        advance_from(b, index + 1, RustLexicalState::Code)
                    }
                } else {
                    advance_from(b, index + 1, RustLexicalState::Code)
                }
            },
            RustLexicalState::Quoted => if b[index] == 0x5C {
                advance_from(b, if index + 2 < b.len() { index + 2 } else { b.len() as int }, st)
            } else if b[index] == 0x22 {
                advance_from(b, index + 1, RustLexicalState::Code)
            } else {
                advance_from(b, index + 1, st)
            },
            RustLexicalState::Raw(h) => if closes_raw(b, index, h as int) {
                advance_from(b, index + h + 1, RustLexicalState::Code)
            } else {
                advance_from(b, index + 1, st)
            },
            RustLexicalState::BlockComment(d) => if b[index] == 0x2F && byte_at(b, index + 1) == Some(0x2Au8) {
                advance_from(b, index + 2, RustLexicalState::BlockComment((d + 1) as usize))
            } else if b[index] == 0x2A && byte_at(b, index + 1) == Some(0x2Fu8) {
                advance_from(
                    b,
                    index + 2,
                    if d == 1 {
                        RustLexicalState::Code
                    } else {
                        RustLexicalState::BlockComment((d - 1) as usize)
                    },
                )
            } else {
                advance_from(b, index + 1, st)
            },
        }
    }
}

fn get_byte(b: &[u8], i: usize) -> (r: Option<u8>)
    ensures
        r == byte_at(b@, i as int),
{
    if i < b.len() {
        Some(b[i])
    } else {
        None
    }
}

fn character_literal_end(b: &[u8], index: usize) -> (r: Option<usize>)
    requires
        b@.len() + 8 < usize::MAX,
    ensures
        r == (match char_literal_end(b@, index as int) {
            Some(e) => Some(e as usize),
            None => None::<usize>,
        }),
        r matches Some(e) ==> index < e < b@.len(),
        char_literal_end(b@, index as int) matches Some(e) ==> index < e < b@.len(),
{
    let n = b.len();
    let content_end: Option<usize> = if index < n && b[index] == 0x5C {
        if index + 1 < n {
            let c = b[index + 1];
            if c == 0x78 {
                Some(index + 4)
            } else if c == 0x75 && index + 2 < n && b[index + 2] == 0x7B {
                let mut p = index + 3;
                while p < n && b[p] != 0x7D
                    invariant
                        n == b@.len(),
                        index + 3 <= p <= n,
                        position_from(b@, index + 3, 0x7D) == position_from(b@, p as int, 0x7D),
                    decreases n - p,
                {
                    p = p + 1;
                }
                if p < n {
                    Some(p + 1)
                } else {
                    None
                }
            } else {
                Some(index + 2)
            }
        } else {
            None
        }
    } else if index < n {
        let x = b[index];
        if x < 0x80 {
            Some(index + 1)
        } else if x < 0xC0 {
            None
        } else if x < 0xE0 {
            Some(index + 2)
        } else if x < 0xF0 {
            Some(index + 3)
        } else {
            Some(index + 4)
        }
    } else {
        None
    };
    match content_end {
        Some(e) => if e < n && b[e] == 0x27 {
            Some(e)
        } else {
            None
        },
        None => None,
    }
}

/// Advances `state` over one line of Rust source.
pub fn advance_rust_state(line: &str, state: &mut RustLexicalState)
    requires
        depth_of(*old(state)) + line.spec_bytes().len() + 8 < usize::MAX,
        state_ok(*old(state)),
    ensures
        state_ok(*final(state)),
        *final(state) == advance_from(line.spec_bytes(), 0, *old(state)),
        depth_of(*final(state)) <= depth_of(*old(state)) + line.spec_bytes().len(),
{
    let b = line.as_bytes();
    let n = b.len();
    let ghost start = *state;
    let mut index: usize = 0;
    while index < n
        invariant
            n == b@.len(),
            b@ == line.spec_bytes(),
            start == *old(state),
            state_ok(*state),
            depth_of(start) + n + 8 < usize::MAX,
            index <= n,
            depth_of(*state) <= depth_of(start) + index,
            advance_from(b@, 0, start) == advance_from(b@, index as int, *state),
        decreases n - index,
    {
        let ghost prev_index = index;
        let ghost prev_state = *state;
        match *state {
            RustLexicalState::Code => {
                let c = b[index];
                if c == 0x2F && get_byte(b, index + 1) == Some(0x2Fu8) {
                    return;
                } else if c == 0x2F && get_byte(b, index + 1) == Some(0x2Au8) {
                    *state = RustLexicalState::BlockComment(1);
                    index = index + 2;
                } else if c == 0x27 {
                    let e = match character_literal_end(b, index + 1) {
                        Some(e) => e,
                        None => index,
                    };
                    index = e + 1;
                    assert(advance_from(b@, prev_index as int, prev_state) == advance_from(b@, index as int, *state));
                } else if c == 0x22 {
                    *state = RustLexicalState::Quoted;
                    index = index + 1;
                } else if c == 0x72 {
                    let mut h: usize = 0;
                    while index + 1 + h < n && b[index + 1 + h] == 0x23
                        invariant
                            n == b@.len(),
                            index < n,
                            index + 1 + h <= n,
                            hashes_from(b@, index + 1) == h + hashes_from(b@, index + 1 + h),
                        decreases n - h,
                    {
                        h = h + 1;
                    }
                    if get_byte(b, index + h + 1) == Some(0x22u8) {
                        *state = RustLexicalState::Raw(h);
                        index = index + h + 2;
                    assert(advance_from(b@, prev_index as int, prev_state) == advance_from(b@, index as int, *state));
                    } else {
                        index = index + 1;
                    }
                } else {
                    index = index + 1;
                }
            },
            RustLexicalState::Quoted => {
                if b[index] == 0x5C {
                    index = if n - index > 2 { index + 2 } else { n };
                } else if b[index] == 0x22 {
                    *state = RustLexicalState::Code;
                    index = index + 1;
                } else {
                    index = index + 1;
                }
            },
            RustLexicalState::Raw(h) => {
                let mut closes = b[index] == 0x22 && n - (index + 1) >= h;
                if closes {
                    let mut k: usize = 0;
                    while k < h
                        invariant
                            n == b@.len(),
                            index + 1 + h <= n,
                            k <= h,
                            closes ==> forall|j: int| index + 1 <= j < index + 1 + k ==> #[trigger] b@[j] == 0x23,
                            !closes ==> !closes_raw(b@, index as int, h as int),
                        decreases h - k,
                    {
                        if b[index + 1 + k] != 0x23 {
                            closes = false;
                        }
                        k = k + 1;
                    }
                }
                if closes {
                    *state = RustLexicalState::Code;
                    index = index + h + 1;
                    assert(advance_from(b@, prev_index as int, prev_state) == advance_from(b@, index as int, *state));
                } else {
                    index = index + 1;
                }
            },
            RustLexicalState::BlockComment(depth) => {
                if b[index] == 0x2F && get_byte(b, index + 1) == Some(0x2Au8) {
                    *state = RustLexicalState::BlockComment(depth + 1);
                    index = index + 2;
                    assert(advance_from(b@, prev_index as int, prev_state) == advance_from(b@, index as int, *state));
                } else if b[index] == 0x2A && get_byte(b, index + 1) == Some(0x2Fu8) {
                    *state = if depth == 1 {
                        RustLexicalState::Code
                    } else {
                        RustLexicalState::BlockComment(depth - 1)
                    };
                    index = index + 2;
                } else {
                    index = index + 1;
                }
            },
        }
    }
}

/// Total bytes of `lines` from index `k` on.
pub open spec fn bytes_from(lines: Seq<&str>, k: int) -> int
    decreases lines.len() - k,
{
    if k < 0 || k >= lines.len() {
        0
    } else {
        lines[k].spec_bytes().len() + 8 + bytes_from(lines, k + 1)
    }
}

pub proof fn lemma_bytes_from_nonnegative(lines: Seq<&str>, k: int)
    ensures
        bytes_from(lines, k) >= 0,
    decreases lines.len() - k,
{
    if 0 <= k < lines.len() {
        lemma_bytes_from_nonnegative(lines, k + 1);
    }
}

/// The state at the start of each line from `k` on, starting in `st`;
/// only Rust lines change it.
pub open spec fn states_from(language: Language, lines: Seq<&str>, k: int, st: RustLexicalState) -> Seq<
    RustLexicalState,
>
    decreases lines.len() - k,
{
    if k < 0 || k >= lines.len() {
        Seq::empty()
    } else {
        let next = if language == Language::Rust {
            advance_from(lines[k].spec_bytes(), 0, st)
        } else {
            st
        };
        seq![st] + states_from(language, lines, k + 1, next)
    }
}

/// The lexical state at the start of every line.
pub fn rust_line_states(language: Language, lines: &[&str]) -> (r: Vec<RustLexicalState>)
    requires
        bytes_from(lines@, 0) < usize::MAX,
    ensures
        r@ == states_from(language, lines@, 0, RustLexicalState::Code),
{
    let mut state = RustLexicalState::Code;
    let mut states: Vec<RustLexicalState> = Vec::new();
    let mut k: usize = 0;
    while k < lines.len()
        invariant
            0 <= k <= lines@.len(),
            bytes_from(lines@, 0) < usize::MAX,
            state_ok(state),
            depth_of(state) + bytes_from(lines@, k as int) <= bytes_from(lines@, 0),
            states@ + states_from(language, lines@, k as int, state) == states_from(
                language,
                lines@,
                0,
                RustLexicalState::Code,
            ),
        decreases lines@.len() - k,
    {
        let ghost before = states@;
        let ghost st = state;
        proof {
            lemma_bytes_from_nonnegative(lines@, k + 1);
        }
        states.push(state);
        if language == Language::Rust {
            advance_rust_state(lines[k], &mut state);
        }
        proof {
            assert(states@ =~= before + seq![st]);
        }
        k = k + 1;
    }
    states
}

} // verus!
