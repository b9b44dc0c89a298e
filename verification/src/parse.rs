//! The log-line grammar.
//!
//! A log line has five ` | `-separated fields: a location, a command,
//! two fields this crate does not interpret, and a taint-flow
//! expression. The functions here split a line into those parts and
//! parse the location, flow clauses and command shapes. Everything is
//! specified against spec-level parsers over `Seq<u8>`.

use vstd::prelude::*;

use crate::bytes::all_digits;
use crate::bytes::find_from;
use crate::bytes::find_sub;
use crate::bytes::is_digit;
use crate::bytes::is_match_at;
use crate::bytes::is_word_byte;
use crate::bytes::lemma_find_from;
use crate::bytes::match_at;
use crate::bytes::split_spec;
use crate::bytes::split_bytes;
use crate::bytes::sub_vec;

verus! {

/// The field separator ` | `.
pub open spec fn tok_field_sep() -> Seq<u8> {
    seq![32u8, 124u8, 32u8]
}

/// Split a line into its location, command and taint-flow fields.
/// Lines with fewer than five fields are ignored; extra fields beyond
/// the fifth are tolerated but not read.
pub open spec fn line_parts_spec(line: Seq<u8>) -> Option<(Seq<u8>, Seq<u8>, Seq<u8>)> {
    let fields = split_spec(line, tok_field_sep());
    if fields.len() >= 5 {
        Some((fields[0], fields[1], fields[4]))
    } else {
        None
    }
}

/// The three interpreted fields of a log line.
pub struct LineParts {
    pub loc: Vec<u8>,
    pub cmd: Vec<u8>,
    pub flow: Vec<u8>,
}

impl LineParts {
    /// Split `line` into its interpreted fields.
    pub fn new(line: &[u8]) -> (r: Option<LineParts>)
        ensures
            match r {
                Some(p) => line_parts_spec(line@) == Some((p.loc@, p.cmd@, p.flow@)),
                None => line_parts_spec(line@) is None,
            },
    {
        let sep: [u8; 3] = [32u8, 124u8, 32u8];
        proof {
            assert(sep@ =~= tok_field_sep());
        }
        let mut fields = split_bytes(line, sep.as_slice());
        proof {
            assert(fields@.map_values(|p: Vec<u8>| p@).len() == fields@.len());
        }
        if fields.len() < 5 {
            return None;
        }
        let flow = fields.remove(4);
        let cmd = fields.remove(1);
        let loc = fields.remove(0);
        proof {
            let m = split_spec(line@, tok_field_sep());
            assert(loc@ == m[0]);
            assert(cmd@ == m[1]);
            assert(flow@ == m[4]);
        }
        Some(LineParts { loc, cmd, flow })
    }
}

/// The clause separator `; `.
pub open spec fn tok_clause_sep() -> Seq<u8> {
    seq![59u8, 32u8]
}

/// The list separator `, `.
pub open spec fn tok_list_sep() -> Seq<u8> {
    seq![44u8, 32u8]
}

/// The plain-flow arrow ` <- `.
pub open spec fn tok_arrow_plain() -> Seq<u8> {
    seq![32u8, 60u8, 45u8, 32u8]
}

/// The dereference arrow ` <*- `.
pub open spec fn tok_arrow_deref() -> Seq<u8> {
    seq![32u8, 60u8, 42u8, 45u8, 32u8]
}

/// The store arrow ` <-*- `.
pub open spec fn tok_arrow_store() -> Seq<u8> {
    seq![32u8, 60u8, 45u8, 42u8, 45u8, 32u8]
}

/// End of the run of word bytes (letters, digits, underscore) that
/// starts at `from`.
pub open spec fn word_run_end(s: Seq<u8>, from: int) -> int
    decreases s.len() - from,
    when 0 <= from <= s.len()
{
    if from < s.len() && is_word_byte(s[from]) {
        word_run_end(s, from + 1)
    } else {
        from
    }
}

/// Bounds and content of a word run.
pub proof fn lemma_word_run_end(s: Seq<u8>, from: int)
    requires
        0 <= from <= s.len(),
    ensures
        from <= word_run_end(s, from) <= s.len(),
        forall|j: int| from <= j < word_run_end(s, from) ==> is_word_byte(#[trigger] s[j]),
        word_run_end(s, from) < s.len() ==> !is_word_byte(s[word_run_end(s, from)]),
    decreases s.len() - from,
{
    if from < s.len() && is_word_byte(s[from]) {
        lemma_word_run_end(s, from + 1);
    }
}

/// End of the run of decimal digits that starts at `from`.
pub open spec fn digit_run_end(s: Seq<u8>, from: int) -> int
    decreases s.len() - from,
    when 0 <= from <= s.len()
{
    if from < s.len() && is_digit(s[from]) {
        digit_run_end(s, from + 1)
    } else {
        from
    }
}

/// Whether `b` is a word byte.
pub fn is_word_byte_exec(b: u8) -> (r: bool)
    ensures
        r == is_word_byte(b),
{
    (48 <= b && b <= 57) || (65 <= b && b <= 90) || (97 <= b && b <= 122) || b == 95
}

/// Find the end of the word run starting at `from`.
pub fn word_run_end_exec(s: &[u8], from: usize) -> (r: usize)
    requires
        from <= s.len(),
    ensures
        r == word_run_end(s@, from as int),
        from <= r <= s.len(),
{
    let mut i = from;
    while i < s.len() && is_word_byte_exec(s[i])
        invariant
            from <= i <= s.len(),
            word_run_end(s@, from as int) == word_run_end(s@, i as int),
        decreases s.len() - i,
    {
        i += 1;
    }
    proof {
        lemma_word_run_end(s@, from as int);
    }
    i
}

/// Find the end of the digit run starting at `from`.
pub fn digit_run_end_exec(s: &[u8], from: usize) -> (r: usize)
    requires
        from <= s.len(),
    ensures
        r == digit_run_end(s@, from as int),
        from <= r <= s.len(),
{
    let mut i = from;
    while i < s.len() && 48 <= s[i] && s[i] <= 57
        invariant
            from <= i <= s.len(),
            digit_run_end(s@, from as int) == digit_run_end(s@, i as int),
        decreases s.len() - i,
    {
        i += 1;
    }
    proof {
        assert(digit_run_end(s@, from as int) == i as int);
    }
    i
}

/// The last position in `[lo, hi)` holding byte `b`.
pub open spec fn rfind_byte(s: Seq<u8>, b: u8, lo: int, hi: int) -> Option<int>
    decreases hi - lo,
{
    if hi <= lo {
        None
    } else if s[hi - 1] == b {
        Some(hi - 1)
    } else {
        rfind_byte(s, b, lo, hi - 1)
    }
}

/// A found byte lies in range.
pub proof fn lemma_rfind_byte(s: Seq<u8>, b: u8, lo: int, hi: int)
    ensures
        match rfind_byte(s, b, lo, hi) {
            Some(i) => lo <= i < hi && s[i] == b,
            None => true,
        },
    decreases hi - lo,
{
    if hi > lo && s[hi - 1] != b {
        lemma_rfind_byte(s, b, lo, hi - 1);
    }
}

/// Find the last position in `[lo, hi)` holding byte `b`.
pub fn rfind_byte_exec(s: &[u8], b: u8, lo: usize, hi: usize) -> (r: Option<usize>)
    requires
        lo <= hi <= s.len(),
    ensures
        match r {
            Some(i) => Some(i as int) == rfind_byte(s@, b, lo as int, hi as int) && lo <= i < hi,
            None => rfind_byte(s@, b, lo as int, hi as int) is None,
        },
{
    let mut h = hi;
    while h > lo
        invariant
            lo <= h <= hi <= s.len(),
            rfind_byte(s@, b, lo as int, hi as int) == rfind_byte(s@, b, lo as int, h as int),
        decreases h,
    {
        if s[h - 1] == b {
            return Some(h - 1);
        }
        h -= 1;
    }
    None
}

/// One clause of a taint-flow expression, at the specification level.
///
/// `Assign` is `LHS <- RHS, ...` (plain flow into a defined variable),
/// `Mem` is `LHS <*- RHS, ...` or `LHS <-*- RHS, ...` (dereference or
/// store, no taint flow), and `Bare` is a clause with no arrow, read
/// as a list of predecessor variables.
pub enum ClauseSpec {
    Assign { lhs: Seq<u8>, rhs: Seq<Seq<u8>> },
    Mem { rhs: Seq<Seq<u8>> },
    Bare { vars: Seq<Seq<u8>> },
}

/// The arrow token present at position `i`, if any, as its length and
/// whether it is the plain-flow arrow. At most one token can match at
/// a given position.
pub open spec fn arrow_at(s: Seq<u8>, i: int) -> Option<(int, bool)> {
    if is_match_at(s, tok_arrow_plain(), i) {
        Some((4int, true))
    } else if is_match_at(s, tok_arrow_deref(), i) {
        Some((5int, false))
    } else if is_match_at(s, tok_arrow_store(), i) {
        Some((6int, false))
    } else {
        None
    }
}

/// The first arrow with a non-empty left- and right-hand side: its
/// position, token length, and plainness. An arrow whose right-hand
/// side would be empty is passed over.
pub open spec fn find_arrow(s: Seq<u8>, i: int) -> Option<(int, int, bool)>
    decreases s.len() - i,
    when 1 <= i
{
    if i >= s.len() {
        None
    } else {
        match arrow_at(s, i) {
            Some(lp) => if i + lp.0 < s.len() {
                Some((i, lp.0, lp.1))
            } else {
                find_arrow(s, i + 1)
            },
            None => find_arrow(s, i + 1),
        }
    }
}

/// Parse one flow clause.
pub open spec fn clause_spec(c: Seq<u8>) -> ClauseSpec {
    match find_arrow(c, 1) {
        Some((i, l, true)) => ClauseSpec::Assign {
            lhs: c.subrange(0, i),
            rhs: split_spec(c.subrange(i + l, c.len() as int), tok_list_sep()),
        },
        Some((i, l, false)) => ClauseSpec::Mem {
            rhs: split_spec(c.subrange(i + l, c.len() as int), tok_list_sep()),
        },
        None => ClauseSpec::Bare { vars: split_spec(c, tok_list_sep()) },
    }
}

/// Positions returned by `find_arrow` are in range.
pub proof fn lemma_find_arrow(s: Seq<u8>, i: int)
    requires
        1 <= i,
    ensures
        match find_arrow(s, i) {
            Some(r) => i <= r.0 && 4 <= r.1 <= 6 && r.0 + r.1 < s.len(),
            None => true,
        },
    decreases s.len() - i,
{
    if i >= s.len() {
    } else {
        match arrow_at(s, i) {
            Some(lp) => if i + lp.0 < s.len() {
            } else {
                lemma_find_arrow(s, i + 1);
            },
            None => {
                lemma_find_arrow(s, i + 1);
            },
        }
    }
}

/// One clause of a taint-flow expression.
pub enum Clause {
    Assign { lhs: Vec<u8>, rhs: Vec<Vec<u8>> },
    Mem { rhs: Vec<Vec<u8>> },
    Bare { vars: Vec<Vec<u8>> },
}

impl Clause {
    /// The specification-level value of this clause.
    pub open spec fn model(&self) -> ClauseSpec {
        match self {
            Clause::Assign { lhs, rhs } => ClauseSpec::Assign {
                lhs: lhs@,
                rhs: rhs@.map_values(|p: Vec<u8>| p@),
            },
            Clause::Mem { rhs } => ClauseSpec::Mem { rhs: rhs@.map_values(|p: Vec<u8>| p@) },
            Clause::Bare { vars } => ClauseSpec::Bare { vars: vars@.map_values(|p: Vec<u8>| p@) },
        }
    }

    /// Parse one flow clause.
    pub fn parse(c: &[u8]) -> (r: Clause)
        ensures
            r.model() == clause_spec(c@),
    {
        let comma: [u8; 2] = [44u8, 32u8];
        let plain: [u8; 4] = [32u8, 60u8, 45u8, 32u8];
        let deref: [u8; 5] = [32u8, 60u8, 42u8, 45u8, 32u8];
        let store: [u8; 6] = [32u8, 60u8, 45u8, 42u8, 45u8, 32u8];
        proof {
            assert(comma@ =~= tok_list_sep());
            assert(plain@ =~= tok_arrow_plain());
            assert(deref@ =~= tok_arrow_deref());
            assert(store@ =~= tok_arrow_store());
        }
        let mut i: usize = 1;
        while i < c.len()
            invariant
                1 <= i,
                comma@ == tok_list_sep(),
                plain@ == tok_arrow_plain(),
                deref@ == tok_arrow_deref(),
                store@ == tok_arrow_store(),
                find_arrow(c@, 1) == find_arrow(c@, i as int),
            decreases c.len() - i,
        {
            let toklen: usize;
            let is_plain: bool;
            if match_at(c, plain.as_slice(), i) {
                toklen = 4;
                is_plain = true;
            } else if match_at(c, deref.as_slice(), i) {
                toklen = 5;
                is_plain = false;
            } else if match_at(c, store.as_slice(), i) {
                toklen = 6;
                is_plain = false;
            } else {
                i += 1;
                continue ;
            }
            assert(arrow_at(c@, i as int) == Some((toklen as int, is_plain)));
            if toklen < c.len() && i < c.len() - toklen {
                assert(find_arrow(c@, i as int) == Some((i as int, toklen as int, is_plain)));
                let tail = sub_vec(c, i + toklen, c.len());
                let rhs = split_bytes(tail.as_slice(), comma.as_slice());
                if is_plain {
                    let lhs = sub_vec(c, 0, i);
                    return Clause::Assign { lhs, rhs };
                } else {
                    return Clause::Mem { rhs };
                }
            }
            i += 1;
        }
        let vars = split_bytes(c, comma.as_slice());
        Clause::Bare { vars }
    }
}

/// The command assignment separator ` = `.
pub open spec fn tok_eq_sep() -> Seq<u8> {
    seq![32u8, 61u8, 32u8]
}

/// `Sub`.
pub open spec fn tok_sub() -> Seq<u8> {
    seq![83u8, 117u8, 98u8]
}

/// Length of a `Sub` opcode prefix: `Sub`, one or two digits, and a
/// space. `None` when the command does not begin so.
pub open spec fn sub_prefix_len(cmd: Seq<u8>) -> Option<int> {
    if cmd.len() >= 5 && cmd.subrange(0, 3) == tok_sub() && is_digit(cmd[3]) {
        if cmd[4] == 32 {
            Some(5int)
        } else if cmd.len() >= 6 && is_digit(cmd[4]) && cmd[5] == 32 {
            Some(6int)
        } else {
            None
        }
    } else {
        None
    }
}

/// The subtrahend named by a `Sub` command right-hand side: the text
/// after the last space that leaves at least one byte on either side
/// of it beyond the opcode prefix.
pub open spec fn sub_subtrahend(cmd: Seq<u8>) -> Option<Seq<u8>> {
    match sub_prefix_len(cmd) {
        None => None,
        Some(p) => match rfind_byte(cmd, 32, p + 1, cmd.len() - 1) {
            None => None,
            Some(q) => Some(cmd.subrange(q + 1, cmd.len() as int)),
        },
    }
}

/// Extract the subtrahend of a `Sub` command right-hand side.
pub fn sub_subtrahend_exec(cmd: &[u8]) -> (r: Option<Vec<u8>>)
    ensures
        match r {
            Some(v) => sub_subtrahend(cmd@) == Some(v@),
            None => sub_subtrahend(cmd@) is None,
        },
{
    let sub_tok: [u8; 3] = [83u8, 117u8, 98u8];
    proof {
        assert(sub_tok@ =~= tok_sub());
    }
    if cmd.len() < 5 || !match_at(cmd, sub_tok.as_slice(), 0) {
        proof {
            if cmd@.len() >= 5 {
                assert(cmd@.subrange(0, 3) != tok_sub() ==> sub_prefix_len(cmd@) is None);
                assert(is_match_at(cmd@, tok_sub(), 0) ==> cmd@.subrange(0, 3) == tok_sub());
            }
        }
        return None;
    }
    proof {
        assert(cmd@.subrange(0, 3) =~= cmd@.subrange(0, tok_sub().len() as int));
    }
    let p: usize;
    if !(48 <= cmd[3] && cmd[3] <= 57) {
        return None;
    }
    if cmd[4] == 32 {
        p = 5;
    } else if cmd.len() >= 6 && 48 <= cmd[4] && cmd[4] <= 57 && cmd[5] == 32 {
        p = 6;
    } else {
        return None;
    }
    assert(sub_prefix_len(cmd@) == Some(p as int));
    if p + 1 > cmd.len() - 1 {
        assert(rfind_byte(cmd@, 32, p + 1, cmd@.len() - 1) is None);
        return None;
    }
    match rfind_byte_exec(cmd, 32, p + 1, cmd.len() - 1) {
        None => None,
        Some(q) => Some(sub_vec(cmd, q + 1, cmd.len())),
    }
}

/// `IF `.
pub open spec fn tok_if() -> Seq<u8> {
    seq![73u8, 70u8, 32u8]
}

/// The branch condition of an `IF` command: the word after `IF `,
/// which must be followed by a space.
pub open spec fn if_cond(cmd: Seq<u8>) -> Option<Seq<u8>> {
    if cmd.len() >= 3 && cmd.subrange(0, 3) == tok_if() {
        let e = word_run_end(cmd, 3);
        if e > 3 && e < cmd.len() && cmd[e] == 32 {
            Some(cmd.subrange(3, e))
        } else {
            None
        }
    } else {
        None
    }
}

/// Extract the branch condition of an `IF` command.
pub fn if_cond_exec(cmd: &[u8]) -> (r: Option<Vec<u8>>)
    ensures
        match r {
            Some(v) => if_cond(cmd@) == Some(v@),
            None => if_cond(cmd@) is None,
        },
{
    let if_tok: [u8; 3] = [73u8, 70u8, 32u8];
    proof {
        assert(if_tok@ =~= tok_if());
    }
    if cmd.len() < 3 || !match_at(cmd, if_tok.as_slice(), 0) {
        proof {
            if cmd@.len() >= 3 {
                assert(is_match_at(cmd@, tok_if(), 0) <==> cmd@.subrange(0, 3) == tok_if());
            }
        }
        return None;
    }
    proof {
        assert(cmd@.subrange(0, 3) =~= cmd@.subrange(0, tok_if().len() as int));
    }
    let e = word_run_end_exec(cmd, 3);
    if e > 3 && e < cmd.len() && cmd[e] == 32 {
        Some(sub_vec(cmd, 3, e))
    } else {
        None
    }
}

/// ` ? `.
pub open spec fn tok_question() -> Seq<u8> {
    seq![32u8, 63u8, 32u8]
}

/// ` : `.
pub open spec fn tok_ternary_colon() -> Seq<u8> {
    seq![32u8, 58u8, 32u8]
}

/// A ternary command shape `X = COND ? A : B` anchored at `p`, the
/// position of its ` = `; `p` must follow a word byte. Yields `COND`.
pub open spec fn ternary_match_at(cmd: Seq<u8>, p: int) -> Option<Seq<u8>> {
    if 1 <= p && p + 3 <= cmd.len() && is_word_byte(cmd[p - 1]) && cmd.subrange(p, p + 3)
        == tok_eq_sep() {
        let i = p + 3;
        let e1 = word_run_end(cmd, i);
        if e1 > i && is_match_at(cmd, tok_question(), e1) {
            let i2 = e1 + 3;
            let e2 = word_run_end(cmd, i2);
            if e2 > i2 && is_match_at(cmd, tok_ternary_colon(), e2) {
                let i3 = e2 + 3;
                if i3 < cmd.len() && is_word_byte(cmd[i3]) {
                    Some(cmd.subrange(i, e1))
                } else {
                    None
                }
            } else {
                None
            }
        } else {
            None
        }
    } else {
        None
    }
}

/// The condition of the leftmost ternary shape in `cmd`, scanning the
/// anchor position upward from `p`.
pub open spec fn ternary_cond_from(cmd: Seq<u8>, p: int) -> Option<Seq<u8>>
    decreases cmd.len() - p,
    when 1 <= p
{
    if p >= cmd.len() {
        None
    } else {
        match ternary_match_at(cmd, p) {
            Some(w) => Some(w),
            None => ternary_cond_from(cmd, p + 1),
        }
    }
}

/// The condition of the leftmost ternary shape in `cmd`.
pub open spec fn ternary_cond(cmd: Seq<u8>) -> Option<Seq<u8>> {
    ternary_cond_from(cmd, 1)
}

/// Extract the condition of the leftmost ternary command shape.
pub fn ternary_cond_exec(cmd: &[u8]) -> (r: Option<Vec<u8>>)
    ensures
        match r {
            Some(v) => ternary_cond(cmd@) == Some(v@),
            None => ternary_cond(cmd@) is None,
        },
{
    let eq_tok: [u8; 3] = [32u8, 61u8, 32u8];
    let q_tok: [u8; 3] = [32u8, 63u8, 32u8];
    let c_tok: [u8; 3] = [32u8, 58u8, 32u8];
    proof {
        assert(eq_tok@ =~= tok_eq_sep());
        assert(q_tok@ =~= tok_question());
        assert(c_tok@ =~= tok_ternary_colon());
    }
    let mut p: usize = 1;
    while p < cmd.len()
        invariant
            1 <= p,
            eq_tok@ == tok_eq_sep(),
            q_tok@ == tok_question(),
            c_tok@ == tok_ternary_colon(),
            ternary_cond_from(cmd@, 1) == ternary_cond_from(cmd@, p as int),
        decreases cmd.len() - p,
    {
        let hit: Option<Vec<u8>>;
        if cmd.len() >= 3 && p <= cmd.len() - 3 && is_word_byte_exec(cmd[p - 1]) && match_at(
            cmd,
            eq_tok.as_slice(),
            p,
        ) {
            proof {
                assert(cmd@.subrange(p as int, p + 3) =~= cmd@.subrange(
                    p as int,
                    p + tok_eq_sep().len(),
                ));
            }
            let i = p + 3;
            let e1 = word_run_end_exec(cmd, i);
            if e1 > i && match_at(cmd, q_tok.as_slice(), e1) {
                let i2 = e1 + 3;
                if i2 > cmd.len() {
                    hit = None;
                } else {
                    let e2 = word_run_end_exec(cmd, i2);
                    if e2 > i2 && match_at(cmd, c_tok.as_slice(), e2) {
                        let i3 = e2 + 3;
                        if i3 < cmd.len() && is_word_byte_exec(cmd[i3]) {
                            hit = Some(sub_vec(cmd, i, e1));
                        } else {
                            hit = None;
                        }
                    } else {
                        hit = None;
                    }
                }
            } else {
                hit = None;
            }
        } else {
            hit = None;
        }
        match hit {
            Some(v) => {
                assert(ternary_match_at(cmd@, p as int) == Some(v@));
                return Some(v);
            },
            None => {
                assert(ternary_match_at(cmd@, p as int) is None);
                p += 1;
            },
        }
    }
    None
}

/// An instrumentation temporary: `t`, digits, `_`, digits.
pub open spec fn is_tmp_var_spec(name: Seq<u8>) -> bool {
    name.len() >= 4 && name[0] == 116 && {
        let e = digit_run_end(name, 1);
        e > 1 && e < name.len() && name[e] == 95 && {
            let e2 = digit_run_end(name, e + 1);
            e2 > e + 1 && e2 == name.len()
        }
    }
}

/// Whether `name` is an instrumentation temporary.
pub fn is_tmp_var(name: &[u8]) -> (r: bool)
    ensures
        r == is_tmp_var_spec(name@),
{
    if name.len() < 4 || name[0] != 116 {
        return false;
    }
    let e = digit_run_end_exec(name, 1);
    if !(e > 1 && e < name.len() && name[e] == 95) {
        return false;
    }
    let e2 = digit_run_end_exec(name, e + 1);
    e2 > e + 1 && e2 == name.len()
}

/// `0x`.
pub open spec fn tok_hex_prefix() -> Seq<u8> {
    seq![48u8, 120u8]
}

/// `: `.
pub open spec fn tok_loc_colon() -> Seq<u8> {
    seq![58u8, 32u8]
}

/// ` (`.
pub open spec fn tok_open_paren() -> Seq<u8> {
    seq![32u8, 40u8]
}

/// `in `.
pub open spec fn tok_in() -> Seq<u8> {
    seq![105u8, 110u8, 32u8]
}

/// The parts of a location field, before numeric interpretation.
pub struct LocPartsSpec {
    pub addr: Seq<u8>,
    pub func: Seq<u8>,
    pub file: Seq<u8>,
    pub lineno: Option<Seq<u8>>,
}

/// Parse a location field. The two accepted shapes are
/// `ADDR: FUNC (FILE:LINENO)` and `ADDR: FUNC (in OBJECT)`, tried in
/// that order; `ADDR` is `0x` followed by word bytes, `FUNC` runs to
/// the first ` (`, and the field ends at the closing parenthesis.
pub open spec fn loc_parse(loc: Seq<u8>) -> Option<LocPartsSpec> {
    if loc.len() >= 2 && loc.subrange(0, 2) == tok_hex_prefix() {
        let ae = word_run_end(loc, 2);
        if ae > 2 && is_match_at(loc, tok_loc_colon(), ae) {
            let fs = ae + 2;
            match find_from(loc, tok_open_paren(), fs + 1) {
                None => None,
                Some(j) => {
                    let inner = j + 2;
                    if inner < loc.len() && loc.last() == 41 {
                        let content = loc.subrange(inner, loc.len() - 1);
                        let addr = loc.subrange(2, ae);
                        let func = loc.subrange(fs, j);
                        match rfind_byte(content, 58, 1, content.len() as int) {
                            Some(c) if c + 1 < content.len() && all_digits(
                                content.subrange(c + 1, content.len() as int),
                            ) => Some(
                                LocPartsSpec {
                                    addr,
                                    func,
                                    file: content.subrange(0, c),
                                    lineno: Some(content.subrange(c + 1, content.len() as int)),
                                },
                            ),
                            _ => if content.len() > 3 && content.subrange(0, 3) == tok_in() {
                                Some(
                                    LocPartsSpec {
                                        addr,
                                        func,
                                        file: content.subrange(3, content.len() as int),
                                        lineno: None,
                                    },
                                )
                            } else {
                                None
                            },
                        }
                    } else {
                        None
                    }
                },
            }
        } else {
            None
        }
    } else {
        None
    }
}

/// A parsed line number is a non-empty digit string.
pub proof fn lemma_loc_parse_lineno(loc: Seq<u8>)
    ensures
        match loc_parse(loc) {
            Some(p) => match p.lineno {
                Some(d) => d.len() >= 1 && all_digits(d),
                None => true,
            },
            None => true,
        },
{
    if loc.len() >= 2 && loc.subrange(0, 2) == tok_hex_prefix() {
        let ae = word_run_end(loc, 2);
        lemma_word_run_end(loc, 2);
        if ae > 2 && is_match_at(loc, tok_loc_colon(), ae) {
            let fs = ae + 2;
            match find_from(loc, tok_open_paren(), fs + 1) {
                None => {},
                Some(j) => {
                    lemma_find_from(loc, tok_open_paren(), fs + 1);
                    let inner = j + 2;
                    if inner < loc.len() && loc.last() == 41 {
                        let content = loc.subrange(inner, loc.len() - 1);
                        lemma_rfind_byte(content, 58, 1, content.len() as int);
                        match rfind_byte(content, 58, 1, content.len() as int) {
                            Some(c) => {
                                if c + 1 < content.len() && all_digits(
                                    content.subrange(c + 1, content.len() as int),
                                ) {
                                    assert(content.subrange(c + 1, content.len() as int).len()
                                        >= 1);
                                }
                            },
                            None => {},
                        }
                    }
                },
            }
        }
    }
}

/// The parts of a location field.
pub struct LocParts {
    pub addr: Vec<u8>,
    pub func: Vec<u8>,
    pub file: Vec<u8>,
    pub lineno: Option<Vec<u8>>,
}

impl LocParts {
    /// The specification-level value of these parts.
    pub open spec fn model(&self) -> LocPartsSpec {
        LocPartsSpec {
            addr: self.addr@,
            func: self.func@,
            file: self.file@,
            lineno: match self.lineno {
                Some(ref v) => Some(v@),
                None => None,
            },
        }
    }

    /// Parse a location field.
    pub fn parse(loc: &[u8]) -> (r: Option<LocParts>)
        ensures
            match r {
                Some(p) => loc_parse(loc@) == Some(p.model()),
                None => loc_parse(loc@) is None,
            },
    {
        let hex_tok: [u8; 2] = [48u8, 120u8];
        let colon_tok: [u8; 2] = [58u8, 32u8];
        let paren_tok: [u8; 2] = [32u8, 40u8];
        let in_tok: [u8; 3] = [105u8, 110u8, 32u8];
        proof {
            assert(hex_tok@ =~= tok_hex_prefix());
            assert(colon_tok@ =~= tok_loc_colon());
            assert(paren_tok@ =~= tok_open_paren());
            assert(in_tok@ =~= tok_in());
        }
        if loc.len() < 2 || !match_at(loc, hex_tok.as_slice(), 0) {
            proof {
                if loc@.len() >= 2 {
                    assert(is_match_at(loc@, tok_hex_prefix(), 0) <==> loc@.subrange(0, 2)
                        == tok_hex_prefix());
                }
            }
            return None;
        }
        proof {
            assert(loc@.subrange(0, 2) =~= loc@.subrange(0, tok_hex_prefix().len() as int));
        }
        let ae = word_run_end_exec(loc, 2);
        if !(ae > 2 && match_at(loc, colon_tok.as_slice(), ae)) {
            return None;
        }
        let fs = ae + 2;
        if fs >= loc.len() {
            assert(find_from(loc@, tok_open_paren(), fs + 1) is None);
            return None;
        }
        let j_opt = find_sub(loc, paren_tok.as_slice(), fs + 1);
        let j = match j_opt {
            None => {
                return None;
            },
            Some(j) => j,
        };
        proof {
            lemma_find_from(loc@, tok_open_paren(), fs + 1);
        }
        let inner = j + 2;
        if !(inner < loc.len() && loc[loc.len() - 1] == 41) {
            return None;
        }
        let content = sub_vec(loc, inner, loc.len() - 1);
        proof {
            assert(loc@.last() == loc@[loc@.len() - 1]);
            assert(content@ == loc@.subrange(inner as int, loc@.len() - 1));
        }
        let addr = sub_vec(loc, 2, ae);
        let func = sub_vec(loc, fs, j);
        let ghost g_content = content@;
        if content.len() == 0 {
            assert(rfind_byte(g_content, 58, 1, g_content.len() as int) is None);
            return None;
        }
        match rfind_byte_exec(content.as_slice(), 58, 1, content.len()) {
            Some(c) if c + 1 < content.len() => {
                let digits = sub_vec(content.as_slice(), c + 1, content.len());
                let mut ok = true;
                let mut k: usize = 0;
                while k < digits.len()
                    invariant
                        0 <= k <= digits@.len(),
                        ok ==> all_digits(digits@.subrange(0, k as int)),
                        !ok ==> !all_digits(digits@),
                    decreases digits@.len() - k,
                {
                    let ghost pre = digits@.subrange(0, k as int);
                    if !(48 <= digits[k] && digits[k] <= 57) {
                        ok = false;
                        assert(!is_digit(digits@[k as int]));
                    } else {
                        proof {
                            assert(digits@.subrange(0, k + 1) =~= pre.push(digits@[k as int]));
                        }
                    }
                    k += 1;
                }
                proof {
                    if ok {
                        assert(digits@.subrange(0, digits@.len() as int) =~= digits@);
                    }
                }
                if ok {
                    return Some(
                        LocParts {
                            addr,
                            func,
                            file: sub_vec(content.as_slice(), 0, c),
                            lineno: Some(digits),
                        },
                    );
                }
                // fall through to the object shape
                if content.len() > 3 && match_at(content.as_slice(), in_tok.as_slice(), 0) {
                    proof {
                        assert(g_content.subrange(0, 3) =~= g_content.subrange(
                            0,
                            tok_in().len() as int,
                        ));
                    }
                    let file = sub_vec(content.as_slice(), 3, content.len());
                    return Some(LocParts { addr, func, file, lineno: None });
                }
                proof {
                    if g_content.len() > 3 {
                        assert(is_match_at(g_content, tok_in(), 0) <==> g_content.subrange(0, 3)
                            == tok_in());
                    }
                }
                None
            },
            _ => {
                if content.len() > 3 && match_at(content.as_slice(), in_tok.as_slice(), 0) {
                    proof {
                        assert(g_content.subrange(0, 3) =~= g_content.subrange(
                            0,
                            tok_in().len() as int,
                        ));
                    }
                    let file = sub_vec(content.as_slice(), 3, content.len());
                    return Some(LocParts { addr, func, file, lineno: None });
                }
                proof {
                    if g_content.len() > 3 {
                        assert(is_match_at(g_content, tok_in(), 0) <==> g_content.subrange(0, 3)
                            == tok_in());
                    }
                }
                None
            },
        }
    }
}

} // verus!
