//! The wire format of the protocol: a JSON value model, a parser from raw
//! frame bytes to values, and a printer from values back to bytes. The
//! grammar below is the specification; the executable parser and printer are
//! proved to follow it exactly.

use vstd::prelude::*;

verus! {

/// Mathematical model of a JSON value: what a decoded frame holds.
/// Numbers keep their literal text, so no value of the model is ever
/// approximated.
pub enum JVal {
    Null,
    Bool(bool),
    Num(Seq<u8>),
    Str(Seq<u8>),
    Arr(Seq<JVal>),
    Obj(Seq<(Seq<u8>, JVal)>),
}

/// Executable JSON value; its view is the model above.
#[derive(Debug, PartialEq, Eq)]
pub enum JsonVal {
    Null,
    Bool(bool),
    Num(Vec<u8>),
    Str(Vec<u8>),
    Arr(Vec<JsonVal>),
    Obj(Vec<(Vec<u8>, JsonVal)>),
}

/// The views of a sequence of executable values.
pub open spec fn views_of(vs: Seq<JsonVal>) -> Seq<JVal> {
    Seq::new(vs.len(), |i: int| vs[i]@)
}

/// The views of a sequence of executable members.
pub open spec fn member_views_of(ms: Seq<(Vec<u8>, JsonVal)>) -> Seq<(Seq<u8>, JVal)> {
    Seq::new(ms.len(), |i: int| (ms[i].0@, ms[i].1@))
}

/// Views of the elements of `vs` from `i` on; recursion written element by
/// element so that each step is plainly smaller.
pub open spec fn elem_views(vs: Vec<JsonVal>, i: nat) -> Seq<JVal>
    decreases vs, vs.len() - i,
{
    if i < vs.len() {
        seq![vs[i as int]@] + elem_views(vs, (i + 1) as nat)
    } else {
        Seq::empty()
    }
}

/// View of one member pair.
pub open spec fn pair_view(p: (Vec<u8>, JsonVal)) -> (Seq<u8>, JVal)
    decreases p,
{
    (p.0@, p.1@)
}

/// Views of the members of `ms` from `i` on.
pub open spec fn mem_views(ms: Vec<(Vec<u8>, JsonVal)>, i: nat) -> Seq<(Seq<u8>, JVal)>
    decreases ms, ms.len() - i,
{
    if i < ms.len() {
        seq![pair_view(ms[i as int])] + mem_views(ms, (i + 1) as nat)
    } else {
        Seq::empty()
    }
}

impl View for JsonVal {
    type V = JVal;

    open spec fn view(&self) -> JVal
        decreases self,
    {
        match self {
            JsonVal::Null => JVal::Null,
            JsonVal::Bool(b) => JVal::Bool(*b),
            JsonVal::Num(n) => JVal::Num(n@),
            JsonVal::Str(s) => JVal::Str(s@),
            JsonVal::Arr(a) => JVal::Arr(elem_views(*a, 0)),
            JsonVal::Obj(m) => JVal::Obj(mem_views(*m, 0)),
        }
    }
}

/// `elem_views` agrees with the element-wise map of the view.
pub proof fn lemma_elem_views(vs: Vec<JsonVal>, i: nat)
    requires
        i <= vs.len(),
    ensures
        elem_views(vs, i) =~= Seq::new((vs.len() - i) as nat, |k: int| vs[i + k]@),
    decreases vs.len() - i,
{
    if i < vs.len() {
        lemma_elem_views(vs, (i + 1) as nat);
        assert(elem_views(vs, i) == seq![vs[i as int]@] + elem_views(vs, (i + 1) as nat));
        assert(elem_views(vs, i).len() == vs.len() - i);
        assert forall|k: int| 0 <= k < vs.len() - i implies #[trigger] elem_views(vs, i)[k] == vs[
            i + k
        ]@ by {
            if k == 0 {
                assert(elem_views(vs, i)[0] == vs[i as int]@);
            } else {
                assert(elem_views(vs, i)[k] == elem_views(vs, (i + 1) as nat)[k - 1]);
            }
        }
    }
}

/// `mem_views` agrees with the member-wise map of the view.
pub proof fn lemma_mem_views(ms: Vec<(Vec<u8>, JsonVal)>, i: nat)
    requires
        i <= ms.len(),
    ensures
        mem_views(ms, i) =~= Seq::new(
            (ms.len() - i) as nat,
            |k: int| (ms[i + k].0@, ms[i + k].1@),
        ),
    decreases ms.len() - i,
{
    if i < ms.len() {
        lemma_mem_views(ms, (i + 1) as nat);
        assert(mem_views(ms, i).len() == ms.len() - i);
        assert forall|k: int| 0 <= k < ms.len() - i implies #[trigger] mem_views(ms, i)[k] == (
        ms[i + k].0@,
        ms[i + k].1@,
        ) by {
            if k == 0 {
                assert(mem_views(ms, i)[0] == pair_view(ms[i as int]));
            } else {
                assert(mem_views(ms, i)[k] == mem_views(ms, (i + 1) as nat)[k - 1]);
            }
        }
    }
}

/// JSON insignificant whitespace.
pub open spec fn is_ws(b: u8) -> bool {
    b == 0x20 || b == 0x09 || b == 0x0a || b == 0x0d
}

pub open spec fn is_digit(b: u8) -> bool {
    0x30 <= b && b <= 0x39
}

/// First index at or after `i` that does not hold whitespace.
pub open spec fn skip_ws(s: Seq<u8>, i: nat) -> nat
    decreases s.len() - i,
{
    if i < s.len() && is_ws(s[i as int]) {
        skip_ws(s, (i + 1) as nat)
    } else {
        i
    }
}

/// `skip_ws`, clamped below by `i` so that the termination of the grammar
/// functions is plain; the two agree (`lemma_skip_ws_bounds`).
pub open spec fn tok(s: Seq<u8>, i: nat) -> nat {
    let j = skip_ws(s, i);
    if j < i {
        i
    } else {
        j
    }
}

/// End of the run of digits starting at `i`.
pub open spec fn digits_end(s: Seq<u8>, i: nat) -> nat
    decreases s.len() - i,
{
    if i < s.len() && is_digit(s[i as int]) {
        digits_end(s, (i + 1) as nat)
    } else {
        i
    }
}

/// `digits_end`, clamped below by `i` (see `tok`).
pub open spec fn digits_tok(s: Seq<u8>, i: nat) -> nat {
    let j = digits_end(s, i);
    if j < i {
        i
    } else {
        j
    }
}

/// Value of a hexadecimal digit byte, if it is one.
pub open spec fn hex_val(b: u8) -> Option<u32> {
    if 0x30 <= b && b <= 0x39 {
        Some((b - 0x30) as u32)
    } else if 0x41 <= b && b <= 0x46 {
        Some((b - 0x41 + 10) as u32)
    } else if 0x61 <= b && b <= 0x66 {
        Some((b - 0x61 + 10) as u32)
    } else {
        None
    }
}

/// Value of the four hexadecimal digits at `i`, if all four are ones.
pub open spec fn hex4(s: Seq<u8>, i: nat) -> Option<u32> {
    if i + 4 <= s.len() {
        match (hex_val(s[i as int]), hex_val(s[i as int + 1]), hex_val(s[i as int + 2]), hex_val(s[i as int + 3])) {
            (Some(a), Some(b), Some(c), Some(d)) => Some((a * 0x1000 + b * 0x100 + c * 0x10 + d) as u32),
            _ => None,
        }
    } else {
        None
    }
}

/// UTF-8 encoding of a scalar value.
pub open spec fn enc_scalar(c: u32) -> Seq<u8> {
    if c < 0x80 {
        seq![c as u8]
    } else if c < 0x800 {
        seq![(0xC0 + c / 0x40) as u8, (0x80 + c % 0x40) as u8]
    } else if c < 0x10000 {
        seq![(0xE0 + c / 0x1000) as u8, (0x80 + (c / 0x40) % 0x40) as u8, (0x80 + c % 0x40) as u8]
    } else {
        seq![
            (0xF0 + c / 0x40000) as u8,
            (0x80 + (c / 0x1000) % 0x40) as u8,
            (0x80 + (c / 0x40) % 0x40) as u8,
            (0x80 + c % 0x40) as u8,
        ]
    }
}

/// A `\uXXXX` escape beginning at `i` (`i` holds the backslash): the scalar
/// it denotes, surrogate pairs included, and the index after it.
pub open spec fn sp_uescape(s: Seq<u8>, i: nat) -> Option<(u32, nat)> {
    if i + 6 <= s.len() && s[i as int] == 0x5C && s[i as int + 1] == 0x75 {
        match hex4(s, (i + 2) as nat) {
            Some(h) => {
                if 0xD800 <= h && h <= 0xDBFF {
                    // high surrogate: a low surrogate escape must follow
                    if i + 12 <= s.len() && s[i as int + 6] == 0x5C && s[i as int + 7] == 0x75 {
                        match hex4(s, (i + 8) as nat) {
                            Some(l) => {
                                if 0xDC00 <= l && l <= 0xDFFF {
                                    Some(
                                        (
                                            (0x10000 + (h - 0xD800) * 0x400 + (l - 0xDC00)) as u32,
                                            (i + 12) as nat,
                                        ),
                                    )
                                } else {
                                    None
                                }
                            },
                            None => None,
                        }
                    } else {
                        None
                    }
                } else if 0xDC00 <= h && h <= 0xDFFF {
                    // a lone low surrogate denotes no scalar
                    None
                } else {
                    Some((h, (i + 6) as nat))
                }
            },
            None => None,
        }
    } else {
        None
    }
}

/// The content bytes a simple escape denotes, given the byte after the
/// backslash.
pub open spec fn esc_byte(b: u8) -> Option<u8> {
    if b == 0x22 {
        Some(0x22)
    } else if b == 0x5C {
        Some(0x5C)
    } else if b == 0x2F {
        Some(0x2F)
    } else if b == 0x62 {
        Some(0x08)
    } else if b == 0x66 {
        Some(0x0C)
    } else if b == 0x6E {
        Some(0x0A)
    } else if b == 0x72 {
        Some(0x0D)
    } else if b == 0x74 {
        Some(0x09)
    } else {
        None
    }
}

/// String body beginning at `i` (just after the opening quote): the decoded
/// content bytes and the index after the closing quote.
pub open spec fn sp_string(s: Seq<u8>, i: nat) -> Option<(Seq<u8>, nat)>
    decreases s.len() - i,
{
    if i >= s.len() {
        None
    } else if s[i as int] == 0x22 {
        Some((Seq::empty(), (i + 1) as nat))
    } else if s[i as int] == 0x5C {
        if i + 2 <= s.len() && s[i as int + 1] == 0x75 {
            match sp_uescape(s, i) {
                Some((c, n)) => {
                    if n > i {
                        match sp_string(s, n) {
                            Some((rest, e)) => Some((enc_scalar(c) + rest, e)),
                            None => None,
                        }
                    } else {
                        None
                    }
                },
                None => None,
            }
        } else if i + 2 <= s.len() {
            match esc_byte(s[i as int + 1]) {
                Some(b) => match sp_string(s, (i + 2) as nat) {
                    Some((rest, e)) => Some((seq![b] + rest, e)),
                    None => None,
                },
                None => None,
            }
        } else {
            None
        }
    } else if s[i as int] < 0x20 {
        // control bytes must be escaped
        None
    } else {
        match sp_string(s, (i + 1) as nat) {
            Some((rest, e)) => Some((seq![s[i as int]] + rest, e)),
            None => None,
        }
    }
}

/// Number token beginning at `i`: its literal text and the index after it.
pub open spec fn sp_num(s: Seq<u8>, i: nat) -> Option<(Seq<u8>, nat)> {
    let j: nat = if i < s.len() && s[i as int] == 0x2D {
        (i + 1) as nat
    } else {
        i
    };
    if j < s.len() && is_digit(s[j as int]) {
        let k: nat = digits_tok(s, j);
        if s[j as int] == 0x30 && k != j + 1 {
            // a leading zero stands alone
            None
        } else {
            let f: Option<nat> = if k < s.len() && s[k as int] == 0x2E {
                let d = digits_tok(s, (k + 1) as nat);
                if d == k + 1 {
                    None
                } else {
                    Some(d)
                }
            } else {
                Some(k)
            };
            match f {
                Some(k2) => {
                    let e: Option<nat> = if k2 < s.len() && (s[k2 as int] == 0x65 || s[k2 as int]
                        == 0x45) {
                        let x: nat = if k2 + 1 < s.len() && (s[k2 as int + 1] == 0x2B || s[k2 as int + 1] == 0x2D) {
                            (k2 + 2) as nat
                        } else {
                            (k2 + 1) as nat
                        };
                        let d = digits_tok(s, x);
                        if d == x {
                            None
                        } else {
                            Some(d)
                        }
                    } else {
                        Some(k2)
                    };
                    match e {
                        Some(end) => Some((s.subrange(i as int, end as int), end)),
                        None => None,
                    }
                },
                None => None,
            }
        }
    } else {
        None
    }
}

/// Does `s` hold the literal `w` at `i`?
pub open spec fn lit_at(s: Seq<u8>, i: nat, w: Seq<u8>) -> bool {
    i + w.len() <= s.len() && s.subrange(i as int, (i + w.len()) as int) == w
}

pub open spec fn lit_null() -> Seq<u8> {
    seq![0x6Eu8, 0x75u8, 0x6Cu8, 0x6Cu8]
}

pub open spec fn lit_true() -> Seq<u8> {
    seq![0x74u8, 0x72u8, 0x75u8, 0x65u8]
}

pub open spec fn lit_false() -> Seq<u8> {
    seq![0x66u8, 0x61u8, 0x6Cu8, 0x73u8, 0x65u8]
}

/// How deep containers may nest in one frame: a frame nested deeper is
/// rejected, so that decoding a hostile frame cannot exhaust the decoder's
/// stack.
pub const MAX_DEPTH: u32 = 128;

/// Value beginning at or after `i` (leading whitespace allowed), with `d`
/// nesting levels of budget left: the value and the index after it. The
/// comparisons of positions against `i` before each recursive call only
/// keep the recursion plainly well-founded; the parser never moves
/// backward (`lemma_val_bounds`).
pub open spec fn sp_val(s: Seq<u8>, i: nat, d: nat) -> Option<(JVal, nat)>
    decreases s.len() - i, 1nat,
{
    let j = tok(s, i);
    if j >= s.len() {
        None
    } else if s[j as int] == 0x5B {
        // array: one nesting level of the budget is spent
        if d == 0 {
            None
        } else {
            let k = tok(s, (j + 1) as nat);
            if k < s.len() && s[k as int] == 0x5D {
                Some((JVal::Arr(Seq::empty()), (k + 1) as nat))
            } else {
                match sp_items(s, (j + 1) as nat, (d - 1) as nat) {
                    Some((elems, e)) => Some((JVal::Arr(elems), e)),
                    None => None,
                }
            }
        }
    } else if s[j as int] == 0x7B {
        // object: one nesting level of the budget is spent
        if d == 0 {
            None
        } else {
            let k = tok(s, (j + 1) as nat);
            if k < s.len() && s[k as int] == 0x7D {
                Some((JVal::Obj(Seq::empty()), (k + 1) as nat))
            } else {
                match sp_members(s, (j + 1) as nat, (d - 1) as nat) {
                    Some((mems, e)) => Some((JVal::Obj(mems), e)),
                    None => None,
                }
            }
        }
    } else if s[j as int] == 0x22 {
        match sp_string(s, (j + 1) as nat) {
            Some((c, e)) => Some((JVal::Str(c), e)),
            None => None,
        }
    } else if s[j as int] == 0x6E {
        if lit_at(s, j, lit_null()) {
            Some((JVal::Null, (j + 4) as nat))
        } else {
            None
        }
    } else if s[j as int] == 0x74 {
        if lit_at(s, j, lit_true()) {
            Some((JVal::Bool(true), (j + 4) as nat))
        } else {
            None
        }
    } else if s[j as int] == 0x66 {
        if lit_at(s, j, lit_false()) {
            Some((JVal::Bool(false), (j + 5) as nat))
        } else {
            None
        }
    } else if s[j as int] == 0x2D || is_digit(s[j as int]) {
        match sp_num(s, j) {
            Some((t, e)) => Some((JVal::Num(t), e)),
            None => None,
        }
    } else {
        None
    }
}

/// One or more comma-separated array elements beginning at `i`, up to and
/// including the closing bracket; each element may nest `d` levels.
pub open spec fn sp_items(s: Seq<u8>, i: nat, d: nat) -> Option<(Seq<JVal>, nat)>
    decreases s.len() - i, 2nat,
{
    match sp_val(s, i, d) {
        Some((v, m)) => {
            let k = tok(s, m);
            if k < s.len() && s[k as int] == 0x2C {
                if k + 1 > i {
                    match sp_items(s, (k + 1) as nat, d) {
                        Some((rest, e)) => Some((seq![v] + rest, e)),
                        None => None,
                    }
                } else {
                    None
                }
            } else if k < s.len() && s[k as int] == 0x5D {
                Some((seq![v], (k + 1) as nat))
            } else {
                None
            }
        },
        None => None,
    }
}

/// One or more comma-separated object members beginning at `i`, up to and
/// including the closing brace; each member's value may nest `d` levels.
pub open spec fn sp_members(s: Seq<u8>, i: nat, d: nat) -> Option<(Seq<(Seq<u8>, JVal)>, nat)>
    decreases s.len() - i, 2nat,
{
    let j = tok(s, i);
    if j < s.len() && s[j as int] == 0x22 {
        match sp_string(s, (j + 1) as nat) {
            Some((key, m)) => {
                let c = tok(s, m);
                if c < s.len() && s[c as int] == 0x3A && c + 1 > i {
                    match sp_val(s, (c + 1) as nat, d) {
                        Some((v, e)) => {
                            let t = tok(s, e);
                            if t < s.len() && s[t as int] == 0x2C {
                                if t + 1 > i {
                                    match sp_members(s, (t + 1) as nat, d) {
                                        Some((rest, e2)) => Some((seq![(key, v)] + rest, e2)),
                                        None => None,
                                    }
                                } else {
                                    None
                                }
                            } else if t < s.len() && s[t as int] == 0x7D {
                                Some((seq![(key, v)], (t + 1) as nat))
                            } else {
                                None
                            }
                        },
                        None => None,
                    }
                } else {
                    None
                }
            },
            None => None,
        }
    } else {
        None
    }
}

/// A whole frame: one value nested at most `MAX_DEPTH` levels, with
/// nothing but whitespace around it.
pub open spec fn sp_json(s: Seq<u8>) -> Option<JVal> {
    match sp_val(s, 0, MAX_DEPTH as nat) {
        Some((v, e)) => {
            if e <= s.len() && tok(s, e) == s.len() {
                Some(v)
            } else {
                None
            }
        },
        None => None,
    }
}

/// `skip_ws` stays inside the input and never moves backward, so `tok`
/// agrees with it.
pub proof fn lemma_skip_ws_bounds(s: Seq<u8>, i: nat)
    requires
        i <= s.len(),
    ensures
        i <= skip_ws(s, i) <= s.len(),
        tok(s, i) == skip_ws(s, i),
    decreases s.len() - i,
{
    if i < s.len() && is_ws(s[i as int]) {
        lemma_skip_ws_bounds(s, (i + 1) as nat);
    }
}

/// `digits_end` stays inside the input and never moves backward.
pub proof fn lemma_digits_bounds(s: Seq<u8>, i: nat)
    requires
        i <= s.len(),
    ensures
        i <= digits_end(s, i) <= s.len(),
        digits_tok(s, i) == digits_end(s, i),
        (i < s.len() && is_digit(s[i as int])) ==> i + 1 <= digits_end(s, i),
    decreases s.len() - i,
{
    if i < s.len() && is_digit(s[i as int]) {
        lemma_digits_bounds(s, (i + 1) as nat);
    }
}

/// A parsed string body consumes at least its closing quote and ends inside
/// the input.
pub proof fn lemma_string_bounds(s: Seq<u8>, i: nat)
    requires
        i <= s.len(),
    ensures
        match sp_string(s, i) {
            Some((c, e)) => i < e <= s.len(),
            None => true,
        },
    decreases s.len() - i,
{
    if i >= s.len() {
    } else if s[i as int] == 0x22 {
    } else if s[i as int] == 0x5C {
        if i + 2 <= s.len() && s[i as int + 1] == 0x75 {
            match sp_uescape(s, i) {
                Some((c, n)) => {
                    if n > i && n <= s.len() {
                        lemma_string_bounds(s, n);
                    }
                },
                None => {},
            }
        } else if i + 2 <= s.len() {
            lemma_string_bounds(s, (i + 2) as nat);
        }
    } else if s[i as int] < 0x20 {
    } else {
        lemma_string_bounds(s, (i + 1) as nat);
    }
}

/// A parsed number token consumes at least one byte and ends inside the
/// input.
pub proof fn lemma_num_bounds(s: Seq<u8>, i: nat)
    requires
        i <= s.len(),
    ensures
        match sp_num(s, i) {
            Some((t, e)) => i < e <= s.len(),
            None => true,
        },
{
    let j: nat = if i < s.len() && s[i as int] == 0x2D {
        (i + 1) as nat
    } else {
        i
    };
    if j < s.len() && is_digit(s[j as int]) {
        lemma_digits_bounds(s, j);
        let k: nat = digits_tok(s, j);
        if k < s.len() && s[k as int] == 0x2E {
            lemma_digits_bounds(s, (k + 1) as nat);
        }
        let k2: nat = if k < s.len() && s[k as int] == 0x2E {
            digits_tok(s, (k + 1) as nat)
        } else {
            k
        };
        if k2 <= s.len() {
            if k2 < s.len() && (s[k2 as int] == 0x65 || s[k2 as int] == 0x45) {
                if k2 + 1 < s.len() && (s[k2 as int + 1] == 0x2B || s[k2 as int + 1] == 0x2D) {
                    lemma_digits_bounds(s, (k2 + 2) as nat);
                } else {
                    lemma_digits_bounds(s, (k2 + 1) as nat);
                }
            }
        }
    }
}

/// A parsed value consumes at least one byte and ends inside the input.
pub proof fn lemma_val_bounds(s: Seq<u8>, i: nat, d: nat)
    requires
        i <= s.len(),
    ensures
        match sp_val(s, i, d) {
            Some((v, e)) => i < e <= s.len(),
            None => true,
        },
    decreases s.len() - i, 1nat,
{
    lemma_skip_ws_bounds(s, i);
    let j = tok(s, i);
    if j >= s.len() {
    } else if s[j as int] == 0x5B {
        lemma_skip_ws_bounds(s, (j + 1) as nat);
        let k = tok(s, (j + 1) as nat);
        if d == 0 || (k < s.len() && s[k as int] == 0x5D) {
        } else {
            lemma_items_bounds(s, (j + 1) as nat, (d - 1) as nat);
        }
    } else if s[j as int] == 0x7B {
        lemma_skip_ws_bounds(s, (j + 1) as nat);
        let k = tok(s, (j + 1) as nat);
        if d == 0 || (k < s.len() && s[k as int] == 0x7D) {
        } else {
            lemma_members_bounds(s, (j + 1) as nat, (d - 1) as nat);
        }
    } else if s[j as int] == 0x22 {
        lemma_string_bounds(s, (j + 1) as nat);
    } else if s[j as int] == 0x6E {
    } else if s[j as int] == 0x74 {
    } else if s[j as int] == 0x66 {
    } else if s[j as int] == 0x2D || is_digit(s[j as int]) {
        lemma_num_bounds(s, j);
    } else {
    }
}

/// Parsed array elements consume at least one byte and end inside the input.
pub proof fn lemma_items_bounds(s: Seq<u8>, i: nat, d: nat)
    requires
        i <= s.len(),
    ensures
        match sp_items(s, i, d) {
            Some((elems, e)) => i < e <= s.len(),
            None => true,
        },
    decreases s.len() - i, 2nat,
{
    lemma_val_bounds(s, i, d);
    match sp_val(s, i, d) {
        Some((v, m)) => {
            lemma_skip_ws_bounds(s, m);
            let k = tok(s, m);
            if k < s.len() && s[k as int] == 0x2C {
                if k + 1 > i {
                    lemma_items_bounds(s, (k + 1) as nat, d);
                }
            }
        },
        None => {},
    }
}

/// Parsed object members consume at least one byte and end inside the input.
pub proof fn lemma_members_bounds(s: Seq<u8>, i: nat, d: nat)
    requires
        i <= s.len(),
    ensures
        match sp_members(s, i, d) {
            Some((mems, e)) => i < e <= s.len(),
            None => true,
        },
    decreases s.len() - i, 2nat,
{
    lemma_skip_ws_bounds(s, i);
    let j = tok(s, i);
    if j < s.len() && s[j as int] == 0x22 {
        lemma_string_bounds(s, (j + 1) as nat);
        match sp_string(s, (j + 1) as nat) {
            Some((key, m)) => {
                lemma_skip_ws_bounds(s, m);
                let c = tok(s, m);
                if c < s.len() && s[c as int] == 0x3A && c + 1 > i {
                    lemma_val_bounds(s, (c + 1) as nat, d);
                    match sp_val(s, (c + 1) as nat, d) {
                        Some((v, e)) => {
                            lemma_skip_ws_bounds(s, e);
                            let t = tok(s, e);
                            if t < s.len() && s[t as int] == 0x2C {
                                if t + 1 > i {
                                    lemma_members_bounds(s, (t + 1) as nat, d);
                                }
                            }
                        },
                        None => {},
                    }
                }
            },
            None => {},
        }
    }
}

/// The parse of `cur` is the parse of `start` minus the accumulated content
/// `acc`: the loop invariant of the executable string scanner.
pub open spec fn str_frame(s: Seq<u8>, start: nat, cur: nat, acc: Seq<u8>) -> bool {
    match sp_string(s, cur) {
        Some((c, e)) => sp_string(s, start) == Some::<(Seq<u8>, nat)>((acc + c, e)),
        None => sp_string(s, start) is None,
    }
}

/// The parse of `cur` is the parse of `next` with `d` put in front.
pub open spec fn str_prefix(s: Seq<u8>, cur: nat, next: nat, d: Seq<u8>) -> bool {
    match sp_string(s, next) {
        Some((rest, e)) => sp_string(s, cur) == Some::<(Seq<u8>, nat)>((d + rest, e)),
        None => sp_string(s, cur) is None,
    }
}

/// Advancing the string scanner by one step keeps its frame.
pub proof fn lemma_str_step(s: Seq<u8>, start: nat, cur: nat, acc: Seq<u8>, next: nat, d: Seq<u8>)
    requires
        str_frame(s, start, cur, acc),
        str_prefix(s, cur, next, d),
    ensures
        str_frame(s, start, next, acc + d),
{
    match sp_string(s, next) {
        Some((rest, e)) => {
            assert(acc + (d + rest) =~= (acc + d) + rest);
        },
        None => {},
    }
}

/// The items parse of `cur` is that of `start` minus the accumulated
/// elements `acc`, at element budget `dep`.
pub open spec fn items_frame(s: Seq<u8>, start: nat, cur: nat, acc: Seq<JVal>, dep: nat) -> bool {
    match sp_items(s, cur, dep) {
        Some((elems, e)) => sp_items(s, start, dep) == Some::<(Seq<JVal>, nat)>((acc + elems, e)),
        None => sp_items(s, start, dep) is None,
    }
}

/// The items parse of `cur` is that of `next` with `d` put in front.
pub open spec fn items_prefix(s: Seq<u8>, cur: nat, next: nat, d: Seq<JVal>, dep: nat) -> bool {
    match sp_items(s, next, dep) {
        Some((rest, e)) => sp_items(s, cur, dep) == Some::<(Seq<JVal>, nat)>((d + rest, e)),
        None => sp_items(s, cur, dep) is None,
    }
}

/// Advancing the element loop by one parsed element keeps its frame.
pub proof fn lemma_items_step(
    s: Seq<u8>,
    start: nat,
    cur: nat,
    acc: Seq<JVal>,
    next: nat,
    d: Seq<JVal>,
    dep: nat,
)
    requires
        items_frame(s, start, cur, acc, dep),
        items_prefix(s, cur, next, d, dep),
    ensures
        items_frame(s, start, next, acc + d, dep),
{
    match sp_items(s, next, dep) {
        Some((rest, e)) => {
            assert(acc + (d + rest) =~= (acc + d) + rest);
        },
        None => {},
    }
}

/// The member parse of `cur` is that of `start` minus the accumulated
/// members `acc`, at value budget `dep`.
pub open spec fn mems_frame(
    s: Seq<u8>,
    start: nat,
    cur: nat,
    acc: Seq<(Seq<u8>, JVal)>,
    dep: nat,
) -> bool {
    match sp_members(s, cur, dep) {
        Some((mems, e)) => sp_members(s, start, dep) == Some::<(Seq<(Seq<u8>, JVal)>, nat)>(
            (acc + mems, e),
        ),
        None => sp_members(s, start, dep) is None,
    }
}

/// The member parse of `cur` is that of `next` with `d` put in front.
pub open spec fn mems_prefix(
    s: Seq<u8>,
    cur: nat,
    next: nat,
    d: Seq<(Seq<u8>, JVal)>,
    dep: nat,
) -> bool {
    match sp_members(s, next, dep) {
        Some((rest, e)) => sp_members(s, cur, dep) == Some::<(Seq<(Seq<u8>, JVal)>, nat)>(
            (d + rest, e),
        ),
        None => sp_members(s, cur, dep) is None,
    }
}

/// Advancing the member loop by one parsed member keeps its frame.
pub proof fn lemma_mems_step(
    s: Seq<u8>,
    start: nat,
    cur: nat,
    acc: Seq<(Seq<u8>, JVal)>,
    next: nat,
    d: Seq<(Seq<u8>, JVal)>,
    dep: nat,
)
    requires
        mems_frame(s, start, cur, acc, dep),
        mems_prefix(s, cur, next, d, dep),
    ensures
        mems_frame(s, start, next, acc + d, dep),
{
    match sp_members(s, next, dep) {
        Some((rest, e)) => {
            assert(acc + (d + rest) =~= (acc + d) + rest);
        },
        None => {},
    }
}

/// Executable whitespace test.
fn is_ws_b(b: u8) -> (r: bool)
    ensures
        r == is_ws(b),
{
    b == 0x20 || b == 0x09 || b == 0x0a || b == 0x0d
}

/// Executable whitespace skip.
fn ws_to(s: &Vec<u8>, i: usize) -> (r: usize)
    requires
        i <= s.len(),
    ensures
        r as nat == skip_ws(s@, i as nat),
        r as nat == tok(s@, i as nat),
        i <= r <= s.len(),
    decreases s@.len() - i,
{
    proof {
        lemma_skip_ws_bounds(s@, i as nat);
    }
    if i < s.len() && is_ws_b(s[i]) {
        ws_to(s, i + 1)
    } else {
        i
    }
}

/// Executable digit-run scan.
fn digits_to(s: &Vec<u8>, i: usize) -> (r: usize)
    requires
        i <= s.len(),
    ensures
        r as nat == digits_end(s@, i as nat),
        r as nat == digits_tok(s@, i as nat),
        i <= r <= s.len(),
    decreases s@.len() - i,
{
    proof {
        lemma_digits_bounds(s@, i as nat);
    }
    if i < s.len() && 0x30 <= s[i] && s[i] <= 0x39 {
        digits_to(s, i + 1)
    } else {
        i
    }
}

/// Executable hexadecimal digit.
fn hexv(b: u8) -> (r: Option<u32>)
    ensures
        r == hex_val(b),
{
    if 0x30 <= b && b <= 0x39 {
        Some((b - 0x30) as u32)
    } else if 0x41 <= b && b <= 0x46 {
        Some((b - 0x41 + 10) as u32)
    } else if 0x61 <= b && b <= 0x66 {
        Some((b - 0x61 + 10) as u32)
    } else {
        None
    }
}

/// Executable four-digit hexadecimal read.
fn hex4_at(s: &Vec<u8>, i: usize) -> (r: Option<u32>)
    requires
        i <= s.len(),
    ensures
        r == hex4(s@, i as nat),
{
    if s.len() - i >= 4 {
        match (hexv(s[i]), hexv(s[i + 1]), hexv(s[i + 2]), hexv(s[i + 3])) {
            (Some(a), Some(b), Some(c), Some(d)) => Some(a * 0x1000 + b * 0x100 + c * 0x10 + d),
            _ => None,
        }
    } else {
        None
    }
}

/// Executable `\uXXXX` escape read.
fn p_uescape(s: &Vec<u8>, i: usize) -> (r: Option<(u32, usize)>)
    requires
        i <= s.len(),
    ensures
        match (r, sp_uescape(s@, i as nat)) {
            (None, None) => true,
            (Some((c, n)), Some((sc, sn))) => c == sc && n as nat == sn && i < n <= s.len(),
            _ => false,
        },
{
    if s.len() - i >= 6 && s[i] == 0x5C && s[i + 1] == 0x75 {
        match hex4_at(s, i + 2) {
            Some(h) => {
                if 0xD800 <= h && h <= 0xDBFF {
                    if s.len() - i >= 12 && s[i + 6] == 0x5C && s[i + 7] == 0x75 {
                        match hex4_at(s, i + 8) {
                            Some(l) => {
                                if 0xDC00 <= l && l <= 0xDFFF {
                                    Some((0x10000 + (h - 0xD800) * 0x400 + (l - 0xDC00), i + 12))
                                } else {
                                    None
                                }
                            },
                            None => None,
                        }
                    } else {
                        None
                    }
                } else if 0xDC00 <= h && h <= 0xDFFF {
                    None
                } else {
                    Some((h, i + 6))
                }
            },
            None => None,
        }
    } else {
        None
    }
}

/// Appends the UTF-8 encoding of a scalar.
fn push_scalar(out: &mut Vec<u8>, c: u32)
    ensures
        final(out)@ == old(out)@ + enc_scalar(c),
{
    if c < 0x80 {
        out.push(c as u8);
    } else if c < 0x800 {
        out.push((0xC0 + c / 0x40) as u8);
        out.push((0x80 + c % 0x40) as u8);
    } else if c < 0x10000 {
        out.push((0xE0 + c / 0x1000) as u8);
        out.push((0x80 + (c / 0x40) % 0x40) as u8);
        out.push((0x80 + c % 0x40) as u8);
    } else {
        out.push((0xF0 + c / 0x40000) as u8);
        out.push((0x80 + (c / 0x1000) % 0x40) as u8);
        out.push((0x80 + (c / 0x40) % 0x40) as u8);
        out.push((0x80 + c % 0x40) as u8);
    }
    proof {
        assert(final(out)@ =~= old(out)@ + enc_scalar(c));
    }
}

/// Executable simple escape.
fn esc_b(b: u8) -> (r: Option<u8>)
    ensures
        r == esc_byte(b),
{
    if b == 0x22 {
        Some(0x22)
    } else if b == 0x5C {
        Some(0x5C)
    } else if b == 0x2F {
        Some(0x2F)
    } else if b == 0x62 {
        Some(0x08)
    } else if b == 0x66 {
        Some(0x0C)
    } else if b == 0x6E {
        Some(0x0A)
    } else if b == 0x72 {
        Some(0x0D)
    } else if b == 0x74 {
        Some(0x09)
    } else {
        None
    }
}

/// Executable string-body scan: follows `sp_string` exactly.
fn p_string(s: &Vec<u8>, i: usize) -> (r: Option<(Vec<u8>, usize)>)
    requires
        i <= s.len(),
    ensures
        match (r, sp_string(s@, i as nat)) {
            (None, None) => true,
            (Some((c, e)), Some((sc, se))) => c@ == sc && e as nat == se && i < e <= s.len(),
            _ => false,
        },
{
    let mut out: Vec<u8> = Vec::new();
    let mut cur: usize = i;
    proof {
        lemma_string_bounds(s@, i as nat);
    }
    loop
        invariant
            i <= cur <= s.len(),
            str_frame(s@, i as nat, cur as nat, out@),
        decreases s@.len() - cur,
    {
        proof {
            lemma_string_bounds(s@, cur as nat);
        }
        if cur == s.len() {
            return None;
        }
        let b = s[cur];
        if b == 0x22 {
            proof {
                assert(out@ + Seq::<u8>::empty() =~= out@);
            }
            return Some((out, cur + 1));
        } else if b == 0x5C {
            if s.len() - cur < 2 {
                return None;
            }
            if s[cur + 1] == 0x75 {
                match p_uescape(s, cur) {
                    Some((c, n)) => {
                        proof {
                            lemma_string_bounds(s@, n as nat);
                            lemma_str_step(
                                s@,
                                i as nat,
                                cur as nat,
                                out@,
                                n as nat,
                                enc_scalar(c),
                            );
                        }
                        push_scalar(&mut out, c);
                        cur = n;
                    },
                    None => {
                        return None;
                    },
                }
            } else {
                match esc_b(s[cur + 1]) {
                    Some(x) => {
                        proof {
                            lemma_string_bounds(s@, (cur + 2) as nat);
                            lemma_str_step(
                                s@,
                                i as nat,
                                cur as nat,
                                out@,
                                (cur + 2) as nat,
                                seq![x],
                            );
                            assert(out@ + seq![x] =~= out@.push(x));
                        }
                        out.push(x);
                        cur = cur + 2;
                    },
                    None => {
                        return None;
                    },
                }
            }
        } else if b < 0x20 {
            return None;
        } else {
            proof {
                lemma_string_bounds(s@, (cur + 1) as nat);
                lemma_str_step(s@, i as nat, cur as nat, out@, (cur + 1) as nat, seq![b]);
                assert(out@ + seq![b] =~= out@.push(b));
            }
            out.push(b);
            cur = cur + 1;
        }
    }
}

/// Copy of the bytes `from .. to` of `s`.
fn copy_range(s: &Vec<u8>, from: usize, to: usize) -> (r: Vec<u8>)
    requires
        from <= to <= s.len(),
    ensures
        r@ == s@.subrange(from as int, to as int),
{
    let mut out: Vec<u8> = Vec::new();
    let mut x: usize = from;
    while x < to
        invariant
            from <= x <= to <= s.len(),
            out@ =~= s@.subrange(from as int, x as int),
        decreases to - x,
    {
        out.push(s[x]);
        x = x + 1;
        proof {
            assert(out@ =~= s@.subrange(from as int, x as int));
        }
    }
    out
}

/// Executable number-token scan: follows `sp_num` exactly.
fn p_num(s: &Vec<u8>, i: usize) -> (r: Option<(Vec<u8>, usize)>)
    requires
        i <= s.len(),
    ensures
        match (r, sp_num(s@, i as nat)) {
            (None, None) => true,
            (Some((t, e)), Some((st, se))) => t@ == st && e as nat == se && i < e <= s.len(),
            _ => false,
        },
{
    proof {
        lemma_num_bounds(s@, i as nat);
    }
    let j: usize = if i < s.len() && s[i] == 0x2D {
        i + 1
    } else {
        i
    };
    if !(j < s.len() && 0x30 <= s[j] && s[j] <= 0x39) {
        return None;
    }
    let k = digits_to(s, j);
    if s[j] == 0x30 && k != j + 1 {
        return None;
    }
    let k2: usize = if k < s.len() && s[k] == 0x2E {
        let d = digits_to(s, k + 1);
        if d == k + 1 {
            return None;
        }
        d
    } else {
        k
    };
    let end: usize = if k2 < s.len() && (s[k2] == 0x65 || s[k2] == 0x45) {
        let x: usize = if k2 + 1 < s.len() && (s[k2 + 1] == 0x2B || s[k2 + 1] == 0x2D) {
            k2 + 2
        } else {
            k2 + 1
        };
        let d = digits_to(s, x);
        if d == x {
            return None;
        }
        d
    } else {
        k2
    };
    Some((copy_range(s, i, end), end))
}

/// Executable value parse: follows `sp_val` exactly, with `d` nesting
/// levels of budget left. Recursion mirrors the grammar; each nested value
/// begins strictly later in the input, and each container level spends one
/// unit of budget, so the recursion depth stays bounded.
pub fn p_val(s: &Vec<u8>, i: usize, d: u32) -> (r: Option<(JsonVal, usize)>)
    requires
        i <= s.len(),
    ensures
        match (r, sp_val(s@, i as nat, d as nat)) {
            (None, None) => true,
            (Some((v, e)), Some((sv, se))) => v@ == sv && e as nat == se && i < e <= s.len(),
            _ => false,
        },
    decreases s@.len() - i,
{
    proof {
        lemma_val_bounds(s@, i as nat, d as nat);
    }
    let j = ws_to(s, i);
    if j >= s.len() {
        return None;
    }
    let b = s[j];
    if b == 0x5B {
        if d == 0 {
            None
        } else {
            p_arr_tail(s, i, j, d)
        }
    } else if b == 0x7B {
        if d == 0 {
            None
        } else {
            p_obj_tail(s, i, j, d)
        }
    } else if b == 0x22 {
        match p_string(s, j + 1) {
            Some((c, e)) => Some((JsonVal::Str(c), e)),
            None => None,
        }
    } else if b == 0x6E {
        if s.len() - j >= 4 && s[j + 1] == 0x75 && s[j + 2] == 0x6C && s[j + 3] == 0x6C {
            proof {
                assert(s@.subrange(j as int, j as int + 4) =~= lit_null());
            }
            Some((JsonVal::Null, j + 4))
        } else {
            proof {
                assert(!lit_at(s@, j as nat, lit_null())) by {
                    if lit_at(s@, j as nat, lit_null()) {
                        assert(s@.subrange(j as int, j as int + 4)[1] == 0x75);
                        assert(s@.subrange(j as int, j as int + 4)[2] == 0x6C);
                        assert(s@.subrange(j as int, j as int + 4)[3] == 0x6C);
                    }
                }
            }
            None
        }
    } else if b == 0x74 {
        if s.len() - j >= 4 && s[j + 1] == 0x72 && s[j + 2] == 0x75 && s[j + 3] == 0x65 {
            proof {
                assert(s@.subrange(j as int, j as int + 4) =~= lit_true());
            }
            Some((JsonVal::Bool(true), j + 4))
        } else {
            proof {
                assert(!lit_at(s@, j as nat, lit_true())) by {
                    if lit_at(s@, j as nat, lit_true()) {
                        assert(s@.subrange(j as int, j as int + 4)[1] == 0x72);
                        assert(s@.subrange(j as int, j as int + 4)[2] == 0x75);
                        assert(s@.subrange(j as int, j as int + 4)[3] == 0x65);
                    }
                }
            }
            None
        }
    } else if b == 0x66 {
        if s.len() - j >= 5 && s[j + 1] == 0x61 && s[j + 2] == 0x6C && s[j + 3] == 0x73 && s[j + 4]
            == 0x65 {
            proof {
                assert(s@.subrange(j as int, j as int + 5) =~= lit_false());
            }
            Some((JsonVal::Bool(false), j + 5))
        } else {
            proof {
                assert(!lit_at(s@, j as nat, lit_false())) by {
                    if lit_at(s@, j as nat, lit_false()) {
                        assert(s@.subrange(j as int, j as int + 5)[1] == 0x61);
                        assert(s@.subrange(j as int, j as int + 5)[2] == 0x6C);
                        assert(s@.subrange(j as int, j as int + 5)[3] == 0x73);
                        assert(s@.subrange(j as int, j as int + 5)[4] == 0x65);
                    }
                }
            }
            None
        }
    } else if b == 0x2D || (0x30 <= b && b <= 0x39) {
        match p_num(s, j) {
            Some((t, e)) => Some((JsonVal::Num(t), e)),
            None => None,
        }
    } else {
        None
    }
}

/// Array elements after the opening bracket at `j`; `i` is where the value
/// began and `d` (at least one) its remaining budget.
fn p_arr_tail(s: &Vec<u8>, i: usize, j: usize, d: u32) -> (r: Option<(JsonVal, usize)>)
    requires
        i <= j < s.len(),
        s[j as int] == 0x5B,
        tok(s@, i as nat) == j as nat,
        d >= 1,
    ensures
        match (r, sp_val(s@, i as nat, d as nat)) {
            (None, None) => true,
            (Some((v, e)), Some((sv, se))) => v@ == sv && e as nat == se && i < e <= s.len(),
            _ => false,
        },
    decreases s@.len() - i, 0nat,
{
    proof {
        lemma_val_bounds(s@, i as nat, d as nat);
    }
    let k = ws_to(s, j + 1);
    if k < s.len() && s[k] == 0x5D {
        let out: Vec<JsonVal> = Vec::new();
        proof {
            assert(elem_views(out, 0) =~= Seq::<JVal>::empty());
        }
        return Some((JsonVal::Arr(out), k + 1));
    }
    let mut acc: Vec<JsonVal> = Vec::new();
    let mut cur: usize = j + 1;
    proof {
        assert(items_frame(s@, (j + 1) as nat, cur as nat, views_of(acc@), (d - 1) as nat)) by {
            assert(views_of(acc@) =~= Seq::<JVal>::empty());
            match sp_items(s@, cur as nat, (d - 1) as nat) {
                Some((elems, e)) => {
                    assert(Seq::<JVal>::empty() + elems =~= elems);
                },
                None => {},
            }
        }
    }
    loop
        invariant
            i < cur <= s.len(),
            i <= j < s.len(),
            s@[j as int] == 0x5B,
            tok(s@, i as nat) == j as nat,
            d >= 1,
            !(tok(s@, (j + 1) as nat) < s@.len() && s@[tok(s@, (j + 1) as nat) as int] == 0x5D),
            items_frame(s@, (j + 1) as nat, cur as nat, views_of(acc@), (d - 1) as nat),
        decreases s@.len() - cur,
    {
        proof {
            lemma_items_bounds(s@, cur as nat, (d - 1) as nat);
            lemma_val_bounds(s@, cur as nat, (d - 1) as nat);
        }
        match p_val(s, cur, d - 1) {
            None => {
                return None;
            },
            Some((v, m)) => {
                let k2 = ws_to(s, m);
                if k2 < s.len() && s[k2] == 0x2C {
                    proof {
                        lemma_items_step(
                            s@,
                            (j + 1) as nat,
                            cur as nat,
                            views_of(acc@),
                            (k2 + 1) as nat,
                            seq![v@],
                            (d - 1) as nat,
                        );
                        assert(views_of(acc@.push(v)) =~= views_of(acc@) + seq![v@]);
                    }
                    acc.push(v);
                    cur = k2 + 1;
                } else if k2 < s.len() && s[k2] == 0x5D {
                    proof {
                        assert(sp_items(s@, cur as nat, (d - 1) as nat) == Some::<
                            (Seq<JVal>, nat),
                        >((seq![v@], (k2 + 1) as nat)));
                        assert(views_of(acc@.push(v)) =~= views_of(acc@) + seq![v@]);
                        lemma_elem_views(acc, 0);
                    }
                    acc.push(v);
                    proof {
                        lemma_elem_views(acc, 0);
                        assert(elem_views(acc, 0) =~= views_of(acc@));
                    }
                    return Some((JsonVal::Arr(acc), k2 + 1));
                } else {
                    return None;
                }
            },
        }
    }
}

/// Object members after the opening brace at `j`; `i` is where the value
/// began and `d` (at least one) its remaining budget.
fn p_obj_tail(s: &Vec<u8>, i: usize, j: usize, d: u32) -> (r: Option<(JsonVal, usize)>)
    requires
        i <= j < s.len(),
        s[j as int] == 0x7B,
        tok(s@, i as nat) == j as nat,
        d >= 1,
    ensures
        match (r, sp_val(s@, i as nat, d as nat)) {
            (None, None) => true,
            (Some((v, e)), Some((sv, se))) => v@ == sv && e as nat == se && i < e <= s.len(),
            _ => false,
        },
    decreases s@.len() - i, 0nat,
{
    proof {
        lemma_val_bounds(s@, i as nat, d as nat);
    }
    let k = ws_to(s, j + 1);
    if k < s.len() && s[k] == 0x7D {
        let out: Vec<(Vec<u8>, JsonVal)> = Vec::new();
        proof {
            assert(mem_views(out, 0) =~= Seq::<(Seq<u8>, JVal)>::empty());
        }
        return Some((JsonVal::Obj(out), k + 1));
    }
    let mut acc: Vec<(Vec<u8>, JsonVal)> = Vec::new();
    let mut cur: usize = j + 1;
    proof {
        assert(mems_frame(s@, (j + 1) as nat, cur as nat, member_views_of(acc@), (d - 1) as nat))
            by {
            assert(member_views_of(acc@) =~= Seq::<(Seq<u8>, JVal)>::empty());
            match sp_members(s@, cur as nat, (d - 1) as nat) {
                Some((mems, e)) => {
                    assert(Seq::<(Seq<u8>, JVal)>::empty() + mems =~= mems);
                },
                None => {},
            }
        }
    }
    loop
        invariant
            i < cur <= s.len(),
            i <= j < s.len(),
            s@[j as int] == 0x7B,
            tok(s@, i as nat) == j as nat,
            d >= 1,
            !(tok(s@, (j + 1) as nat) < s@.len() && s@[tok(s@, (j + 1) as nat) as int] == 0x7D),
            mems_frame(s@, (j + 1) as nat, cur as nat, member_views_of(acc@), (d - 1) as nat),
        decreases s@.len() - cur,
    {
        proof {
            lemma_members_bounds(s@, cur as nat, (d - 1) as nat);
        }
        let j2 = ws_to(s, cur);
        if !(j2 < s.len() && s[j2] == 0x22) {
            return None;
        }
        match p_string(s, j2 + 1) {
            None => {
                return None;
            },
            Some((key, m)) => {
                let c = ws_to(s, m);
                if !(c < s.len() && s[c] == 0x3A) {
                    return None;
                }
                proof {
                    lemma_val_bounds(s@, (c + 1) as nat, (d - 1) as nat);
                }
                match p_val(s, c + 1, d - 1) {
                    None => {
                        return None;
                    },
                    Some((v, e)) => {
                        let t = ws_to(s, e);
                        if t < s.len() && s[t] == 0x2C {
                            proof {
                                lemma_mems_step(
                                    s@,
                                    (j + 1) as nat,
                                    cur as nat,
                                    member_views_of(acc@),
                                    (t + 1) as nat,
                                    seq![(key@, v@)],
                                    (d - 1) as nat,
                                );
                                assert(member_views_of(acc@.push((key, v))) =~= member_views_of(
                                    acc@,
                                ) + seq![(key@, v@)]);
                            }
                            acc.push((key, v));
                            cur = t + 1;
                        } else if t < s.len() && s[t] == 0x7D {
                            proof {
                                assert(sp_members(s@, cur as nat, (d - 1) as nat) == Some::<
                                    (Seq<(Seq<u8>, JVal)>, nat),
                                >((seq![(key@, v@)], (t + 1) as nat)));
                                assert(member_views_of(acc@.push((key, v))) =~= member_views_of(
                                    acc@,
                                ) + seq![(key@, v@)]);
                            }
                            acc.push((key, v));
                            proof {
                                lemma_mem_views(acc, 0);
                                assert(mem_views(acc, 0) =~= member_views_of(acc@));
                            }
                            return Some((JsonVal::Obj(acc), t + 1));
                        } else {
                            return None;
                        }
                    },
                }
            },
        }
    }
}

/// Parse of a whole frame: follows `sp_json` exactly, within the nesting
/// budget `MAX_DEPTH`.
pub fn parse_json(s: &Vec<u8>) -> (r: Option<JsonVal>)
    ensures
        match (r, sp_json(s@)) {
            (None, None) => true,
            (Some(v), Some(sv)) => v@ == sv,
            _ => false,
        },
{
    match p_val(s, 0, MAX_DEPTH) {
        Some((v, e)) => {
            let t = ws_to(s, e);
            if t == s.len() {
                Some(v)
            } else {
                None
            }
        },
        None => None,
    }
}

/// Lowercase hexadecimal digit of `n` (`n` below 16).
pub open spec fn hex_digit(n: u8) -> u8 {
    if n < 10 {
        (0x30 + n) as u8
    } else {
        (0x61 + (n - 10)) as u8
    }
}

/// What one content byte prints as inside a string: quote, backslash and
/// the named control bytes get a short escape, other control bytes a
/// `\u00XX` escape, everything else itself.
pub open spec fn esc_of(b: u8) -> Seq<u8> {
    if b == 0x22 {
        seq![0x5Cu8, 0x22u8]
    } else if b == 0x5C {
        seq![0x5Cu8, 0x5Cu8]
    } else if b == 0x08 {
        seq![0x5Cu8, 0x62u8]
    } else if b == 0x09 {
        seq![0x5Cu8, 0x74u8]
    } else if b == 0x0A {
        seq![0x5Cu8, 0x6Eu8]
    } else if b == 0x0C {
        seq![0x5Cu8, 0x66u8]
    } else if b == 0x0D {
        seq![0x5Cu8, 0x72u8]
    } else if b < 0x20 {
        seq![0x5Cu8, 0x75u8, 0x30u8, 0x30u8, hex_digit(b / 16), hex_digit(b % 16)]
    } else {
        seq![b]
    }
}

/// What a string body prints as.
pub open spec fn ser_str_body(c: Seq<u8>) -> Seq<u8>
    decreases c.len(),
{
    if c.len() == 0 {
        Seq::empty()
    } else {
        esc_of(c[0]) + ser_str_body(c.subrange(1, c.len() as int))
    }
}

/// What a value prints as.
pub open spec fn ser_val(v: JVal) -> Seq<u8>
    decreases v, 1nat,
{
    match v {
        JVal::Null => lit_null(),
        JVal::Bool(b) => if b {
            lit_true()
        } else {
            lit_false()
        },
        JVal::Num(t) => t,
        JVal::Str(c) => seq![0x22u8] + ser_str_body(c) + seq![0x22u8],
        JVal::Arr(elems) => seq![0x5Bu8] + ser_items(elems) + seq![0x5Du8],
        JVal::Obj(mems) => seq![0x7Bu8] + ser_mems(mems) + seq![0x7Du8],
    }
}

/// What comma-separated elements print as.
pub open spec fn ser_items(elems: Seq<JVal>) -> Seq<u8>
    decreases elems, 0nat,
{
    if elems.len() == 0 {
        Seq::empty()
    } else if elems.len() == 1 {
        ser_val(elems[0])
    } else {
        ser_val(elems[0]) + seq![0x2Cu8] + ser_items(elems.subrange(1, elems.len() as int))
    }
}

/// What one member prints as.
pub open spec fn ser_mem(m: (Seq<u8>, JVal)) -> Seq<u8>
    decreases m, 1nat,
{
    seq![0x22u8] + ser_str_body(m.0) + seq![0x22u8, 0x3Au8] + ser_val(m.1)
}

/// What comma-separated members print as.
pub open spec fn ser_mems(mems: Seq<(Seq<u8>, JVal)>) -> Seq<u8>
    decreases mems, 0nat,
{
    if mems.len() == 0 {
        Seq::empty()
    } else if mems.len() == 1 {
        ser_mem(mems[0])
    } else {
        ser_mem(mems[0]) + seq![0x2Cu8] + ser_mems(mems.subrange(1, mems.len() as int))
    }
}

/// Appends what one content byte prints as.
fn push_esc(out: &mut Vec<u8>, b: u8)
    ensures
        final(out)@ == old(out)@ + esc_of(b),
{
    if b == 0x22 {
        out.push(0x5C);
        out.push(0x22);
    } else if b == 0x5C {
        out.push(0x5C);
        out.push(0x5C);
    } else if b == 0x08 {
        out.push(0x5C);
        out.push(0x62);
    } else if b == 0x09 {
        out.push(0x5C);
        out.push(0x74);
    } else if b == 0x0A {
        out.push(0x5C);
        out.push(0x6E);
    } else if b == 0x0C {
        out.push(0x5C);
        out.push(0x66);
    } else if b == 0x0D {
        out.push(0x5C);
        out.push(0x72);
    } else if b < 0x20 {
        out.push(0x5C);
        out.push(0x75);
        out.push(0x30);
        out.push(0x30);
        let hi = b / 16;
        let lo = b % 16;
        out.push(
            if hi < 10 {
                0x30 + hi
            } else {
                0x61 + (hi - 10)
            },
        );
        out.push(
            if lo < 10 {
                0x30 + lo
            } else {
                0x61 + (lo - 10)
            },
        );
    } else {
        out.push(b);
    }
    proof {
        assert(final(out)@ =~= old(out)@ + esc_of(b));
    }
}

/// Appends what a string body prints as, from byte `x` on.
fn write_str_body(c: &Vec<u8>, x: usize, out: &mut Vec<u8>)
    requires
        x <= c.len(),
    ensures
        final(out)@ == old(out)@ + ser_str_body(c@.subrange(x as int, c@.len() as int)),
    decreases c@.len() - x,
{
    if x == c.len() {
        proof {
            assert(c@.subrange(x as int, c@.len() as int) =~= Seq::<u8>::empty());
            assert(old(out)@ + Seq::<u8>::empty() =~= old(out)@);
        }
    } else {
        push_esc(out, c[x]);
        write_str_body(c, x + 1, out);
        proof {
            let tail = c@.subrange(x as int, c@.len() as int);
            assert(tail[0] == c@[x as int]);
            assert(tail.subrange(1, tail.len() as int) =~= c@.subrange(
                x as int + 1,
                c@.len() as int,
            ));
            assert((old(out)@ + esc_of(c@[x as int])) + ser_str_body(
                tail.subrange(1, tail.len() as int),
            ) =~= old(out)@ + (esc_of(tail[0]) + ser_str_body(tail.subrange(1, tail.len() as int))));
        }
    }
}

/// Appends the bytes of `src`.
fn push_bytes(out: &mut Vec<u8>, src: &Vec<u8>)
    ensures
        final(out)@ == old(out)@ + src@,
{
    let mut x: usize = 0;
    while x < src.len()
        invariant
            x <= src.len(),
            out@ =~= old(out)@ + src@.subrange(0, x as int),
        decreases src@.len() - x,
    {
        out.push(src[x]);
        x = x + 1;
        proof {
            assert(out@ =~= old(out)@ + src@.subrange(0, x as int));
        }
    }
    proof {
        assert(src@.subrange(0, src@.len() as int) =~= src@);
    }
}

/// Appends what a value prints as: follows `ser_val` exactly.
pub fn write_val(v: &JsonVal, out: &mut Vec<u8>)
    ensures
        final(out)@ == old(out)@ + ser_val(v@),
    decreases v, 1nat,
{
    match v {
        JsonVal::Null => {
            out.push(0x6E);
            out.push(0x75);
            out.push(0x6C);
            out.push(0x6C);
            proof {
                assert(final(out)@ =~= old(out)@ + lit_null());
            }
        },
        JsonVal::Bool(b) => {
            if *b {
                out.push(0x74);
                out.push(0x72);
                out.push(0x75);
                out.push(0x65);
                proof {
                    assert(final(out)@ =~= old(out)@ + lit_true());
                }
            } else {
                out.push(0x66);
                out.push(0x61);
                out.push(0x6C);
                out.push(0x73);
                out.push(0x65);
                proof {
                    assert(final(out)@ =~= old(out)@ + lit_false());
                }
            }
        },
        JsonVal::Num(t) => {
            push_bytes(out, t);
        },
        JsonVal::Str(c) => {
            out.push(0x22);
            write_str_body(c, 0, out);
            out.push(0x22);
            proof {
                assert(c@.subrange(0, c@.len() as int) =~= c@);
                assert(final(out)@ =~= old(out)@ + (seq![0x22u8] + ser_str_body(c@)
                    + seq![0x22u8]));
            }
        },
        JsonVal::Arr(a) => {
            out.push(0x5B);
            write_items(a, 0, out);
            out.push(0x5D);
            proof {
                lemma_elem_views(*a, 0);
                assert(views_of(a@).subrange(0, a@.len() as int) =~= elem_views(*a, 0));
                assert(final(out)@ =~= old(out)@ + (seq![0x5Bu8] + ser_items(elem_views(*a, 0))
                    + seq![0x5Du8]));
            }
        },
        JsonVal::Obj(m) => {
            out.push(0x7B);
            write_mems(m, 0, out);
            out.push(0x7D);
            proof {
                lemma_mem_views(*m, 0);
                assert(member_views_of(m@).subrange(0, m@.len() as int) =~= mem_views(*m, 0));
                assert(final(out)@ =~= old(out)@ + (seq![0x7Bu8] + ser_mems(mem_views(*m, 0))
                    + seq![0x7Du8]));
            }
        },
    }
}

/// Appends what the elements from `x` on print as.
fn write_items(a: &Vec<JsonVal>, x: usize, out: &mut Vec<u8>)
    requires
        x <= a.len(),
    ensures
        final(out)@ == old(out)@ + ser_items(views_of(a@).subrange(x as int, a@.len() as int)),
    decreases a, a@.len() - x, 2nat,
{
    let ghost tail = views_of(a@).subrange(x as int, a@.len() as int);
    if x == a.len() {
        proof {
            assert(tail =~= Seq::<JVal>::empty());
            assert(old(out)@ + ser_items(tail) =~= old(out)@);
        }
    } else {
        write_val(&a[x], out);
        proof {
            assert(tail[0] == a@[x as int]@);
        }
        if x + 1 == a.len() {
            proof {
                assert(tail.len() == 1);
            }
        } else {
            out.push(0x2C);
            write_items(a, x + 1, out);
            proof {
                assert(tail.subrange(1, tail.len() as int) =~= views_of(a@).subrange(
                    x as int + 1,
                    a@.len() as int,
                ));
                assert(final(out)@ =~= old(out)@ + (ser_val(tail[0]) + seq![0x2Cu8] + ser_items(
                    tail.subrange(1, tail.len() as int),
                )));
            }
        }
    }
}

/// Appends what one member prints as.
fn write_mem(m: &(Vec<u8>, JsonVal), out: &mut Vec<u8>)
    ensures
        final(out)@ == old(out)@ + ser_mem((m.0@, m.1@)),
    decreases m, 1nat,
{
    out.push(0x22);
    write_str_body(&m.0, 0, out);
    out.push(0x22);
    out.push(0x3A);
    write_val(&m.1, out);
    proof {
        assert(m.0@.subrange(0, m.0@.len() as int) =~= m.0@);
        assert(final(out)@ =~= old(out)@ + (seq![0x22u8] + ser_str_body(m.0@) + seq![
            0x22u8,
            0x3Au8,
        ] + ser_val(m.1@)));
    }
}

/// Appends what the members from `x` on print as.
fn write_mems(m: &Vec<(Vec<u8>, JsonVal)>, x: usize, out: &mut Vec<u8>)
    requires
        x <= m.len(),
    ensures
        final(out)@ == old(out)@ + ser_mems(
            member_views_of(m@).subrange(x as int, m@.len() as int),
        ),
    decreases m, m@.len() - x, 2nat,
{
    let ghost tail = member_views_of(m@).subrange(x as int, m@.len() as int);
    if x == m.len() {
        proof {
            assert(tail =~= Seq::<(Seq<u8>, JVal)>::empty());
            assert(old(out)@ + ser_mems(tail) =~= old(out)@);
        }
    } else {
        write_mem(&m[x], out);
        proof {
            assert(tail[0] == (m@[x as int].0@, m@[x as int].1@));
        }
        if x + 1 == m.len() {
            proof {
                assert(tail.len() == 1);
            }
        } else {
            out.push(0x2C);
            write_mems(m, x + 1, out);
            proof {
                assert(tail.subrange(1, tail.len() as int) =~= member_views_of(m@).subrange(
                    x as int + 1,
                    m@.len() as int,
                ));
                assert(final(out)@ =~= old(out)@ + (ser_mem(tail[0]) + seq![0x2Cu8] + ser_mems(
                    tail.subrange(1, tail.len() as int),
                )));
            }
        }
    }
}

/// A value every number token of which is well formed: its literal text
/// re-parses as exactly one number token. The parser only ever builds such
/// values; string content needs no condition, since the printer escapes
/// every byte that needs it.
pub open spec fn wf_val(v: JVal) -> bool
    decreases v, 1nat,
{
    match v {
        JVal::Null => true,
        JVal::Bool(_) => true,
        JVal::Num(t) => sp_num(t, 0) == Some::<(Seq<u8>, nat)>((t, t.len() as nat)),
        JVal::Str(_) => true,
        JVal::Arr(elems) => wf_items(elems),
        JVal::Obj(mems) => wf_mems(mems),
    }
}

pub open spec fn wf_items(elems: Seq<JVal>) -> bool
    decreases elems, 0nat,
{
    if elems.len() == 0 {
        true
    } else {
        wf_val(elems[0]) && wf_items(elems.subrange(1, elems.len() as int))
    }
}

pub open spec fn wf_mems(mems: Seq<(Seq<u8>, JVal)>) -> bool
    decreases mems, 0nat,
{
    if mems.len() == 0 {
        true
    } else {
        wf_val(mems[0].1) && wf_mems(mems.subrange(1, mems.len() as int))
    }
}

/// Nothing follows at `e`, or a byte that cannot extend a printed value:
/// a separator or a closing bracket of the surrounding structure.
pub open spec fn sep_after(s: Seq<u8>, e: nat) -> bool {
    e == s.len() || (e < s.len() && (s[e as int] == 0x2C || s[e as int] == 0x5D || s[e as int]
        == 0x7D))
}

/// A digit run read inside `s` at offset `i` ends where it ends inside
/// `t`, `t` being what `s` holds from `i` on, with nothing digit-like
/// after it.
proof fn lemma_digits_translate(s: Seq<u8>, i: nat, t: Seq<u8>, k: nat)
    requires
        k <= t.len(),
        i + t.len() <= s.len(),
        s.subrange(i as int, (i + t.len()) as int) == t,
        sep_after(s, (i + t.len()) as nat),
    ensures
        digits_end(s, (i + k) as nat) == i + digits_end(t, k),
    decreases t.len() - k,
{
    if k < t.len() {
        assert(s[i as int + k] == t[k as int]);
        if is_digit(t[k as int]) {
            lemma_digits_translate(s, i, t, (k + 1) as nat);
        }
    }
}

/// A well-formed number token reads back as itself at any offset, when
/// nothing that could extend it follows.
proof fn lemma_num_translate(s: Seq<u8>, i: nat, t: Seq<u8>)
    requires
        sp_num(t, 0) == Some::<(Seq<u8>, nat)>((t, t.len() as nat)),
        i + t.len() <= s.len(),
        s.subrange(i as int, (i + t.len()) as int) == t,
        sep_after(s, (i + t.len()) as nat),
    ensures
        sp_num(s, i) == Some::<(Seq<u8>, nat)>((t, (i + t.len()) as nat)),
{
    lemma_num_starts(t);
    assert forall|x: int| 0 <= x < t.len() implies s[i + x] == t[x] by {
        assert(s.subrange(i as int, (i + t.len()) as int)[x] == s[i + x]);
    }
    lemma_digits_bounds(t, 0);
    let j_t: nat = if t[0] == 0x2D {
        1nat
    } else {
        0nat
    };
    let j_s: nat = (i + j_t) as nat;
    assert(j_t < t.len() && is_digit(t[j_t as int]));
    lemma_digits_bounds(t, j_t);
    lemma_digits_translate(s, i, t, j_t);
    let k_t = digits_tok(t, j_t);
    assert(digits_tok(s, j_s) == i + k_t) by {
        lemma_digits_bounds(s, j_s);
    }
    let k2_t: nat = if k_t < t.len() && t[k_t as int] == 0x2E {
        digits_tok(t, (k_t + 1) as nat)
    } else {
        k_t
    };
    if k_t < t.len() && t[k_t as int] == 0x2E {
        lemma_digits_bounds(t, (k_t + 1) as nat);
        lemma_digits_translate(s, i, t, (k_t + 1) as nat);
        lemma_digits_bounds(s, (i + k_t + 1) as nat);
    }
    assert(k_t == t.len() ==> !(i + k_t < s.len() && s[i as int + k_t] == 0x2E));
    let k2_s: nat = (i + k2_t) as nat;
    assert(k2_t <= t.len()) by {
        if k_t < t.len() && t[k_t as int] == 0x2E {
            lemma_digits_bounds(t, (k_t + 1) as nat);
        }
    }
    if k2_t < t.len() && (t[k2_t as int] == 0x65 || t[k2_t as int] == 0x45) {
        let x_t: nat = if k2_t + 1 < t.len() && (t[k2_t as int + 1] == 0x2B || t[k2_t as int + 1]
            == 0x2D) {
            (k2_t + 2) as nat
        } else {
            (k2_t + 1) as nat
        };
        assert(k2_t + 1 == t.len() ==> !(i + k2_t + 1 < s.len() && (s[i as int + k2_t + 1] == 0x2B || s[i as int + k2_t + 1] == 0x2D)));
        assert(x_t <= t.len()) by {
            lemma_sp_num_exp_inside(t, k2_t);
        }
        lemma_digits_bounds(t, x_t);
        lemma_digits_translate(s, i, t, x_t);
        lemma_digits_bounds(s, (i + x_t) as nat);
    }
    assert(k2_t == t.len() ==> !(i + k2_t < s.len() && (s[i as int + k2_t] == 0x65 || s[i as int + k2_t]
        == 0x45)));
    assert(s.subrange(i as int, (i + t.len()) as int) == t);
}

/// Inside a well-formed number token an exponent mark is followed by at
/// least one digit, so the mark never stands at the very end.
proof fn lemma_sp_num_exp_inside(t: Seq<u8>, k2: nat)
    requires
        sp_num(t, 0) == Some::<(Seq<u8>, nat)>((t, t.len() as nat)),
        k2 < t.len(),
    ensures
        k2 + 2 <= t.len() || !(k2 + 1 < t.len()),
{
}

/// A well-formed number token is nonempty and opens with a minus sign or
/// a digit.
proof fn lemma_num_starts(t: Seq<u8>)
    requires
        sp_num(t, 0) == Some::<(Seq<u8>, nat)>((t, t.len() as nat)),
    ensures
        t.len() > 0,
        t[0] == 0x2D || is_digit(t[0]),
{
}

/// The printed hexadecimal digit reads back as its value.
proof fn lemma_hex_digit_inverse(n: u8)
    requires
        n < 16,
    ensures
        hex_val(hex_digit(n)) == Some(n as u32),
{
}

/// A printed string body followed by its closing quote reads back as the
/// content it printed.
#[verifier::rlimit(80)]
proof fn lemma_string_translate(s: Seq<u8>, i: nat, c: Seq<u8>)
    requires
        i + ser_str_body(c).len() + 1 <= s.len(),
        s.subrange(i as int, (i + ser_str_body(c).len()) as int) == ser_str_body(c),
        s[(i + ser_str_body(c).len()) as int] == 0x22,
    ensures
        sp_string(s, i) == Some::<(Seq<u8>, nat)>((c, (i + ser_str_body(c).len() + 1) as nat)),
    decreases c.len(),
{
    let body = ser_str_body(c);
    assert forall|x: int| 0 <= x < body.len() implies s[i + x] == body[x] by {
        assert(s.subrange(i as int, (i + body.len()) as int)[x] == s[i + x]);
    }
    if c.len() == 0 {
        assert(s[i as int] == 0x22);
    } else {
        let b = c[0];
        let rest = c.subrange(1, c.len() as int);
        let e = esc_of(b);
        assert(body == e + ser_str_body(rest));
        assert forall|x: int| 0 <= x < e.len() implies s[i + x] == e[x] by {
            assert(body[x] == e[x]);
        }
        assert(s[i as int] == e[0]) by {
            assert(s.subrange(i as int, (i + body.len()) as int)[0] == s[i as int]);
        }
        let i2: nat = (i + e.len()) as nat;
        assert(s.subrange(i2 as int, (i2 + ser_str_body(rest).len()) as int) =~= ser_str_body(
            rest,
        )) by {
            assert forall|x: int| 0 <= x < ser_str_body(rest).len() implies s.subrange(
                i2 as int,
                (i2 + ser_str_body(rest).len()) as int,
            )[x] == ser_str_body(rest)[x] by {
                assert(s.subrange(i2 as int, (i2 + ser_str_body(rest).len()) as int)[x] == s[i2
                    + x]);
                assert(body[e.len() + x] == ser_str_body(rest)[x]);
            }
        }
        lemma_string_translate(s, i2, rest);
        if b == 0x22 || b == 0x5C {
            assert(s[i as int] == 0x5C && s[i as int + 1] == b);
            assert(esc_byte(b) == Some(b));
            assert(seq![b] + rest =~= c);
        } else if b == 0x08 || b == 0x09 || b == 0x0A || b == 0x0C || b == 0x0D {
            assert(s[i as int] == 0x5C);
            assert(esc_byte(s[i as int + 1]) == Some(b));
            assert(seq![b] + rest =~= c);
        } else if b < 0x20 {
            assert(s[i as int] == 0x5C && s[i as int + 1] == 0x75);
            assert(s[i as int + 2] == 0x30 && s[i as int + 3] == 0x30);
            assert(s[i as int + 4] == hex_digit(b / 16) && s[i as int + 5] == hex_digit(b % 16));
            lemma_hex_digit_inverse(b / 16);
            lemma_hex_digit_inverse(b % 16);
            assert(hex4(s, (i + 2) as nat) == Some(((b / 16) * 0x10 + (b % 16)) as u32));
            assert((b / 16) * 0x10 + (b % 16) == b) by (nonlinear_arith);
            assert(sp_uescape(s, i) == Some::<(u32, nat)>((b as u32, (i + 6) as nat)));
            assert(enc_scalar(b as u32) =~= seq![b]);
            assert(seq![b] + rest =~= c);
        } else {
            assert(s[i as int] == b);
            assert(seq![b] + rest =~= c);
        }
    }
}

/// How deeply containers nest inside a value: scalars and strings are
/// flat, a container stands one level above its deepest entry.
pub open spec fn jval_depth(v: JVal) -> nat
    decreases v, 1nat,
{
    match v {
        JVal::Null => 0,
        JVal::Bool(_) => 0,
        JVal::Num(_) => 0,
        JVal::Str(_) => 0,
        JVal::Arr(elems) => 1 + items_depth(elems),
        JVal::Obj(mems) => 1 + mems_depth(mems),
    }
}

/// The deepest nesting among elements.
pub open spec fn items_depth(elems: Seq<JVal>) -> nat
    decreases elems, 0nat,
{
    if elems.len() == 0 {
        0
    } else {
        let h = jval_depth(elems[0]);
        let r = items_depth(elems.subrange(1, elems.len() as int));
        if h > r {
            h
        } else {
            r
        }
    }
}

/// The deepest nesting among member values.
pub open spec fn mems_depth(mems: Seq<(Seq<u8>, JVal)>) -> nat
    decreases mems, 0nat,
{
    if mems.len() == 0 {
        0
    } else {
        let h = jval_depth(mems[0].1);
        let r = mems_depth(mems.subrange(1, mems.len() as int));
        if h > r {
            h
        } else {
            r
        }
    }
}

/// What a value prints as is nonempty and opens with a byte that is
/// neither whitespace nor a separator nor a closing bracket.
proof fn lemma_ser_val_first(v: JVal)
    requires
        wf_val(v),
    ensures
        ser_val(v).len() > 0,
        !is_ws(ser_val(v)[0]),
        ser_val(v)[0] != 0x5D,
        ser_val(v)[0] != 0x7D,
        ser_val(v)[0] != 0x2C,
        ser_val(v)[0] != 0x3A,
{
    match v {
        JVal::Num(t) => {
            lemma_num_starts(t);
        },
        _ => {},
    }
}

/// A printed value reads back as itself at any offset, when nothing that
/// could extend it follows and the budget covers its nesting.
#[verifier::rlimit(90)]
proof fn lemma_parse_printed_val(s: Seq<u8>, i: nat, v: JVal, d: nat)
    requires
        wf_val(v),
        jval_depth(v) <= d,
        i + ser_val(v).len() <= s.len(),
        s.subrange(i as int, (i + ser_val(v).len()) as int) == ser_val(v),
        sep_after(s, (i + ser_val(v).len()) as nat),
    ensures
        sp_val(s, i, d) == Some::<(JVal, nat)>((v, (i + ser_val(v).len()) as nat)),
    decreases v, 1nat,
{
    let w = ser_val(v);
    lemma_ser_val_first(v);
    assert forall|x: int| 0 <= x < w.len() implies s[i + x] == w[x] by {
        assert(s.subrange(i as int, (i + w.len()) as int)[x] == s[i + x]);
    }
    assert(s[i as int] == w[0]) by {
        assert(s.subrange(i as int, (i + w.len()) as int)[0] == s[i as int]);
    }
    match v {
        JVal::Null => {
            assert(lit_at(s, i, lit_null())) by {
                assert(s.subrange(i as int, i as int + 4) =~= lit_null());
            }
        },
        JVal::Bool(b) => {
            if b {
                assert(lit_at(s, i, lit_true())) by {
                    assert(s.subrange(i as int, i as int + 4) =~= lit_true());
                }
            } else {
                assert(lit_at(s, i, lit_false())) by {
                    assert(s.subrange(i as int, i as int + 5) =~= lit_false());
                }
            }
        },
        JVal::Num(t) => {
            lemma_num_starts(t);
            lemma_num_translate(s, i, t);
        },
        JVal::Str(c) => {
            let body = ser_str_body(c);
            assert(s.subrange(i as int + 1, (i + 1 + body.len()) as int) =~= body) by {
                assert forall|x: int| 0 <= x < body.len() implies s.subrange(
                    i as int + 1,
                    (i + 1 + body.len()) as int,
                )[x] == body[x] by {
                    assert(s.subrange(i as int + 1, (i + 1 + body.len()) as int)[x] == s[i + 1
                        + x]);
                    assert(w[1 + x] == body[x]);
                }
            }
            assert(s[(i + 1 + body.len()) as int] == 0x22) by {
                assert(w[1 + body.len() as int] == 0x22);
            }
            lemma_string_translate(s, (i + 1) as nat, c);
        },
        JVal::Arr(elems) => {
            if elems.len() == 0 {
                assert(elems =~= Seq::<JVal>::empty());
                assert(w =~= seq![0x5Bu8, 0x5Du8]);
                assert(s[i as int + 1] == 0x5D);
                assert(tok(s, (i + 1) as nat) == i + 1);
            } else {
                let il = ser_items(elems).len();
                lemma_ser_val_first(elems[0]);
                assert(w[1] == ser_val(elems[0])[0]) by {
                    if elems.len() > 1 {
                        assert(ser_items(elems) == ser_val(elems[0]) + seq![0x2Cu8] + ser_items(
                            elems.subrange(1, elems.len() as int),
                        ));
                    }
                    assert(ser_items(elems)[0] == ser_val(elems[0])[0]);
                }
                assert(tok(s, (i + 1) as nat) == i + 1);
                assert(s[i as int + 1] != 0x5D);
                assert(s.subrange(i as int + 1, (i + 1 + il) as int) =~= ser_items(elems)) by {
                    assert forall|x: int| 0 <= x < il implies s.subrange(
                        i as int + 1,
                        (i + 1 + il) as int,
                    )[x] == ser_items(elems)[x] by {
                        assert(s.subrange(i as int + 1, (i + 1 + il) as int)[x] == s[i + 1 + x]);
                        assert(w[1 + x] == ser_items(elems)[x]);
                    }
                }
                assert(s[(i + 1 + il) as int] == 0x5D) by {
                    assert(w[1 + il as int] == 0x5D);
                }
                lemma_parse_printed_items(s, (i + 1) as nat, elems, (d - 1) as nat);
            }
        },
        JVal::Obj(mems) => {
            if mems.len() == 0 {
                assert(mems =~= Seq::<(Seq<u8>, JVal)>::empty());
                assert(w =~= seq![0x7Bu8, 0x7Du8]);
                assert(s[i as int + 1] == 0x7D);
                assert(tok(s, (i + 1) as nat) == i + 1);
            } else {
                let ml = ser_mems(mems).len();
                assert(ser_mem(mems[0]).len() > 0);
                assert(w[1] == 0x22) by {
                    if mems.len() > 1 {
                        assert(ser_mems(mems) == ser_mem(mems[0]) + seq![0x2Cu8] + ser_mems(
                            mems.subrange(1, mems.len() as int),
                        ));
                    }
                    assert(ser_mems(mems)[0] == ser_mem(mems[0])[0]);
                    assert(ser_mem(mems[0])[0] == 0x22);
                }
                assert(tok(s, (i + 1) as nat) == i + 1);
                assert(s[i as int + 1] != 0x7D);
                assert(s.subrange(i as int + 1, (i + 1 + ml) as int) =~= ser_mems(mems)) by {
                    assert forall|x: int| 0 <= x < ml implies s.subrange(
                        i as int + 1,
                        (i + 1 + ml) as int,
                    )[x] == ser_mems(mems)[x] by {
                        assert(s.subrange(i as int + 1, (i + 1 + ml) as int)[x] == s[i + 1 + x]);
                        assert(w[1 + x] == ser_mems(mems)[x]);
                    }
                }
                assert(s[(i + 1 + ml) as int] == 0x7D) by {
                    assert(w[1 + ml as int] == 0x7D);
                }
                lemma_parse_printed_mems(s, (i + 1) as nat, mems, (d - 1) as nat);
            }
        },
    }
}

/// Printed elements followed by their closing bracket read back as
/// themselves, at any budget covering their nesting.
#[verifier::rlimit(90)]
proof fn lemma_parse_printed_items(s: Seq<u8>, i: nat, elems: Seq<JVal>, d: nat)
    requires
        elems.len() > 0,
        wf_items(elems),
        items_depth(elems) <= d,
        i + ser_items(elems).len() + 1 <= s.len(),
        s.subrange(i as int, (i + ser_items(elems).len()) as int) == ser_items(elems),
        s[(i + ser_items(elems).len()) as int] == 0x5D,
    ensures
        sp_items(s, i, d) == Some::<(Seq<JVal>, nat)>(
            (elems, (i + ser_items(elems).len() + 1) as nat),
        ),
    decreases elems, 0nat,
{
    let w = ser_items(elems);
    let e0 = elems[0];
    let w0 = ser_val(e0);
    assert forall|x: int| 0 <= x < w.len() implies s[i + x] == w[x] by {
        assert(s.subrange(i as int, (i + w.len()) as int)[x] == s[i + x]);
    }
    lemma_ser_val_first(e0);
    if elems.len() == 1 {
        assert(w == w0);
        lemma_parse_printed_val(s, i, e0, d);
        let m: nat = (i + w0.len()) as nat;
        assert(tok(s, m) == m);
        assert(seq![e0] =~= elems);
    } else {
        let rest = elems.subrange(1, elems.len() as int);
        assert(w == w0 + seq![0x2Cu8] + ser_items(rest));
        assert(s.subrange(i as int, (i + w0.len()) as int) =~= w0) by {
            assert forall|x: int| 0 <= x < w0.len() implies s.subrange(
                i as int,
                (i + w0.len()) as int,
            )[x] == w0[x] by {
                assert(s.subrange(i as int, (i + w0.len()) as int)[x] == s[i + x]);
                assert(w[x] == w0[x]);
            }
        }
        let m: nat = (i + w0.len()) as nat;
        assert(s[m as int] == 0x2C) by {
            assert(w[w0.len() as int] == 0x2C);
        }
        lemma_parse_printed_val(s, i, e0, d);
        assert(tok(s, m) == m);
        let rl = ser_items(rest).len();
        assert(s.subrange(m as int + 1, (m + 1 + rl) as int) =~= ser_items(rest)) by {
            assert forall|x: int| 0 <= x < rl implies s.subrange(
                m as int + 1,
                (m + 1 + rl) as int,
            )[x] == ser_items(rest)[x] by {
                assert(s.subrange(m as int + 1, (m + 1 + rl) as int)[x] == s[m + 1 + x]);
                assert(w[w0.len() + 1 + x] == ser_items(rest)[x]);
            }
        }
        assert(s[(m + 1 + rl) as int] == 0x5D);
        lemma_parse_printed_items(s, (m + 1) as nat, rest, d);
        assert(seq![e0] + rest =~= elems);
    }
}

/// Printed members followed by their closing brace read back as
/// themselves, at any budget covering their values' nesting.
#[verifier::rlimit(90)]
proof fn lemma_parse_printed_mems(s: Seq<u8>, i: nat, mems: Seq<(Seq<u8>, JVal)>, d: nat)
    requires
        mems.len() > 0,
        wf_mems(mems),
        mems_depth(mems) <= d,
        i + ser_mems(mems).len() + 1 <= s.len(),
        s.subrange(i as int, (i + ser_mems(mems).len()) as int) == ser_mems(mems),
        s[(i + ser_mems(mems).len()) as int] == 0x7D,
    ensures
        sp_members(s, i, d) == Some::<(Seq<(Seq<u8>, JVal)>, nat)>(
            (mems, (i + ser_mems(mems).len() + 1) as nat),
        ),
    decreases mems, 0nat,
{
    let w = ser_mems(mems);
    let m0 = mems[0];
    let w0 = ser_mem(m0);
    let kb = ser_str_body(m0.0);
    assert forall|x: int| 0 <= x < w.len() implies s[i + x] == w[x] by {
        assert(s.subrange(i as int, (i + w.len()) as int)[x] == s[i + x]);
    }
    assert(w0 == seq![0x22u8] + kb + seq![0x22u8, 0x3Au8] + ser_val(m0.1));
    assert forall|x: int| 0 <= x < w0.len() implies s[i + x] == w0[x] by {
        if mems.len() == 1 {
        } else {
            assert(w[x] == w0[x]);
        }
    }
    assert(s[i as int] == 0x22) by {
        assert(w0[0] == 0x22);
        assert(s[i as int + 0] == w0[0]);
    }
    assert(tok(s, i) == i);
    assert(s.subrange(i as int + 1, (i + 1 + kb.len()) as int) =~= kb) by {
        assert forall|x: int| 0 <= x < kb.len() implies s.subrange(
            i as int + 1,
            (i + 1 + kb.len()) as int,
        )[x] == kb[x] by {
            assert(s.subrange(i as int + 1, (i + 1 + kb.len()) as int)[x] == s[i + 1 + x]);
            assert(w0[1 + x] == kb[x]);
        }
    }
    assert(s[(i + 1 + kb.len()) as int] == 0x22) by {
        assert(w0[1 + kb.len() as int] == 0x22);
    }
    lemma_string_translate(s, (i + 1) as nat, m0.0);
    let m: nat = (i + kb.len() + 2) as nat;
    assert(s[m as int] == 0x3A) by {
        assert(w0[kb.len() as int + 2] == 0x3A);
    }
    assert(tok(s, m) == m);
    let vv = m0.1;
    let wv = ser_val(vv);
    assert(s.subrange(m as int + 1, (m + 1 + wv.len()) as int) =~= wv) by {
        assert forall|x: int| 0 <= x < wv.len() implies s.subrange(
            m as int + 1,
            (m + 1 + wv.len()) as int,
        )[x] == wv[x] by {
            assert(s.subrange(m as int + 1, (m + 1 + wv.len()) as int)[x] == s[m + 1 + x]);
            assert(w0[kb.len() + 3 + x] == wv[x]);
        }
    }
    let e: nat = (m + 1 + wv.len()) as nat;
    if mems.len() == 1 {
        assert(w == w0);
        assert(s[e as int] == 0x7D);
        lemma_parse_printed_val(s, (m + 1) as nat, vv, d);
        assert(tok(s, e) == e);
        assert(seq![m0] =~= mems);
    } else {
        let rest = mems.subrange(1, mems.len() as int);
        assert(w == w0 + seq![0x2Cu8] + ser_mems(rest));
        assert(s[e as int] == 0x2C) by {
            assert(w[w0.len() as int] == 0x2C);
        }
        lemma_parse_printed_val(s, (m + 1) as nat, vv, d);
        assert(tok(s, e) == e);
        let rl = ser_mems(rest).len();
        assert(s.subrange(e as int + 1, (e + 1 + rl) as int) =~= ser_mems(rest)) by {
            assert forall|x: int| 0 <= x < rl implies s.subrange(
                e as int + 1,
                (e + 1 + rl) as int,
            )[x] == ser_mems(rest)[x] by {
                assert(s.subrange(e as int + 1, (e + 1 + rl) as int)[x] == s[e + 1 + x]);
                assert(w[w0.len() + 1 + x] == ser_mems(rest)[x]);
            }
        }
        assert(s[(e + 1 + rl) as int] == 0x7D);
        lemma_parse_printed_mems(s, (e + 1) as nat, rest, d);
        assert(seq![m0] + rest =~= mems);
    }
}

/// The printer and the parser are inverse: what a well-formed value
/// nested within the frame budget prints as parses back as exactly that
/// value, as a whole frame.
pub proof fn lemma_print_parse(v: JVal)
    requires
        wf_val(v),
        jval_depth(v) <= MAX_DEPTH,
    ensures
        sp_json(ser_val(v)) == Some(v),
{
    let s = ser_val(v);
    lemma_ser_val_first(v);
    assert(s.subrange(0, s.len() as int) =~= s);
    lemma_parse_printed_val(s, 0, v, MAX_DEPTH as nat);
    assert(tok(s, s.len() as nat) == s.len());
}

/// What a value prints as, as a fresh byte vector.
pub fn to_bytes(v: &JsonVal) -> (r: Vec<u8>)
    ensures
        r@ == ser_val(v@),
{
    let mut out: Vec<u8> = Vec::new();
    write_val(v, &mut out);
    proof {
        assert(Seq::<u8>::empty() + ser_val(v@) =~= ser_val(v@));
    }
    out
}

} // verus!
