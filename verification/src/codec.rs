//! The storage document: a JSON object with one field, `tasks`, holding the
//! ordered task records, each with exactly the fields `id`, `description`
//! and `done`, in that order. Writing is deterministic and pretty-printed;
//! reading accepts any whitespace between tokens, the usual short escapes,
//! and `\u00xy` escapes for code points below 128 (the only ones writing
//! ever produces), and rejects anything else as malformed.

use vstd::prelude::*;
use vstd::utf8::decode_utf8;
use vstd::utf8::encode_utf8;
use vstd::utf8::valid_utf8;

use crate::store::Task;
use crate::store::TaskManager;
use crate::store::TaskView;

verus! {

/// The document could not be read as serialized task data.
#[derive(Clone, Copy, Debug, PartialEq, Eq, Structural)]
pub struct ParseError;

/// The models of a sequence of tasks, in order.
pub open spec fn views_of(tasks: Seq<Task>) -> Seq<TaskView> {
    Seq::new(tasks.len(), |i: int| tasks[i]@)
}

// ---------------------------------------------------------------------------
// The written form
// ---------------------------------------------------------------------------

/// `{\n  "tasks": [`
pub open spec fn lit_header() -> Seq<u8> {
    seq![123u8, 10u8, 32u8, 32u8, 34u8, 116u8, 97u8, 115u8, 107u8, 115u8, 34u8, 58u8, 32u8, 91u8]
}

/// `    {\n      "id": `
pub open spec fn lit_task_open() -> Seq<u8> {
    seq![
        32u8, 32u8, 32u8, 32u8, 123u8, 10u8, 32u8, 32u8, 32u8, 32u8, 32u8, 32u8, 34u8, 105u8,
        100u8, 34u8, 58u8, 32u8,
    ]
}

/// `,\n      "description": "`
pub open spec fn lit_desc() -> Seq<u8> {
    seq![
        44u8, 10u8, 32u8, 32u8, 32u8, 32u8, 32u8, 32u8, 34u8, 100u8, 101u8, 115u8, 99u8, 114u8,
        105u8, 112u8, 116u8, 105u8, 111u8, 110u8, 34u8, 58u8, 32u8, 34u8,
    ]
}

/// `",\n      "done": `
pub open spec fn lit_done() -> Seq<u8> {
    seq![
        34u8, 44u8, 10u8, 32u8, 32u8, 32u8, 32u8, 32u8, 32u8, 34u8, 100u8, 111u8, 110u8, 101u8,
        34u8, 58u8, 32u8,
    ]
}

/// `\n    }`
pub open spec fn lit_task_close() -> Seq<u8> {
    seq![10u8, 32u8, 32u8, 32u8, 32u8, 125u8]
}

/// `true`
pub open spec fn lit_true() -> Seq<u8> {
    seq![116u8, 114u8, 117u8, 101u8]
}

/// `false`
pub open spec fn lit_false() -> Seq<u8> {
    seq![102u8, 97u8, 108u8, 115u8, 101u8]
}

/// `,\n`
pub open spec fn lit_sep() -> Seq<u8> {
    seq![44u8, 10u8]
}

/// `\n  `
pub open spec fn lit_items_close() -> Seq<u8> {
    seq![10u8, 32u8, 32u8]
}

/// `]\n}`
pub open spec fn lit_footer() -> Seq<u8> {
    seq![93u8, 10u8, 125u8]
}

/// `"id"`
pub open spec fn lit_key_id() -> Seq<u8> {
    seq![34u8, 105u8, 100u8, 34u8]
}

/// `"description"`
pub open spec fn lit_key_description() -> Seq<u8> {
    seq![
        34u8, 100u8, 101u8, 115u8, 99u8, 114u8, 105u8, 112u8, 116u8, 105u8, 111u8, 110u8, 34u8,
    ]
}

/// `"done"`
pub open spec fn lit_key_done() -> Seq<u8> {
    seq![34u8, 100u8, 111u8, 110u8, 101u8, 34u8]
}

/// `"tasks"`
pub open spec fn lit_key_tasks() -> Seq<u8> {
    seq![34u8, 116u8, 97u8, 115u8, 107u8, 115u8, 34u8]
}

/// The lower-case hexadecimal digit for a value below 16.
pub open spec fn hex_digit(v: int) -> u8 {
    if v < 10 {
        (48 + v) as u8
    } else {
        (87 + v) as u8
    }
}

/// How one byte of a description is written inside a JSON string: the quote
/// and the backslash get a backslash, the common control characters their
/// short escapes, the rare ones `\u00xy`, and everything else stands as is.
pub open spec fn esc_byte(b: u8) -> Seq<u8> {
    if b == 34 {
        seq![92u8, 34u8]
    } else if b == 92 {
        seq![92u8, 92u8]
    } else if b == 8 {
        seq![92u8, 98u8]
    } else if b == 12 {
        seq![92u8, 102u8]
    } else if b == 10 {
        seq![92u8, 110u8]
    } else if b == 13 {
        seq![92u8, 114u8]
    } else if b == 9 {
        seq![92u8, 116u8]
    } else if b < 32 {
        seq![92u8, 117u8, 48u8, 48u8, hex_digit(b as int / 16), hex_digit(b as int % 16)]
    } else {
        seq![b]
    }
}

/// A whole description, escaped byte by byte.
pub open spec fn esc_bytes(s: Seq<u8>) -> Seq<u8>
    decreases s.len(),
{
    if s.len() == 0 {
        Seq::empty()
    } else {
        esc_byte(s[0]) + esc_bytes(s.drop_first())
    }
}

/// The decimal digits of `n`, most significant first.
pub open spec fn ser_u32(n: u32) -> Seq<u8>
    decreases n,
{
    if n < 10 {
        seq![(48 + n) as u8]
    } else {
        ser_u32(n / 10) + seq![(48 + n % 10) as u8]
    }
}

/// One task record as written.
pub open spec fn ser_task(t: TaskView) -> Seq<u8> {
    lit_task_open() + ser_u32(t.id) + lit_desc() + esc_bytes(encode_utf8(t.description))
        + lit_done() + (if t.done {
        lit_true()
    } else {
        lit_false()
    }) + lit_task_close()
}

/// The task records as written, separated by `,\n`.
pub open spec fn ser_items(v: Seq<TaskView>) -> Seq<u8>
    decreases v.len(),
{
    if v.len() == 0 {
        Seq::empty()
    } else if v.len() == 1 {
        ser_task(v[0])
    } else {
        ser_task(v[0]) + lit_sep() + ser_items(v.drop_first())
    }
}

/// The whole document as written for a store with model `v`.
pub open spec fn spec_save(v: Seq<TaskView>) -> Seq<u8> {
    if v.len() == 0 {
        lit_header() + lit_footer()
    } else {
        lit_header() + seq![10u8] + ser_items(v) + lit_items_close() + lit_footer()
    }
}

// ---------------------------------------------------------------------------
// The accepted form
// ---------------------------------------------------------------------------

/// JSON whitespace.
pub open spec fn is_ws(b: u8) -> bool {
    b == 32 || b == 10 || b == 9 || b == 13
}

/// The input without its leading whitespace.
pub open spec fn skip_ws(s: Seq<u8>) -> Seq<u8>
    decreases s.len(),
{
    if s.len() > 0 && is_ws(s[0]) {
        skip_ws(s.drop_first())
    } else {
        s
    }
}

/// Consumes exactly `lit` from the front, or fails.
pub open spec fn parse_lit(s: Seq<u8>, lit: Seq<u8>) -> Option<Seq<u8>> {
    if lit.len() <= s.len() && s.take(lit.len() as int) == lit {
        Some(s.skip(lit.len() as int))
    } else {
        None
    }
}

/// Consumes whitespace, then exactly `lit`.
pub open spec fn tok(s: Seq<u8>, lit: Seq<u8>) -> Option<Seq<u8>> {
    parse_lit(skip_ws(s), lit)
}

/// An ASCII decimal digit.
pub open spec fn is_digit(b: u8) -> bool {
    48 <= b && b <= 57
}

/// Consumes digits into `acc` until a non-digit; fails on `u32` overflow.
pub open spec fn parse_digits(s: Seq<u8>, acc: u32) -> Option<(u32, Seq<u8>)>
    decreases s.len(),
{
    if s.len() > 0 && is_digit(s[0]) {
        if acc as int * 10 + (s[0] as int - 48) <= u32::MAX {
            parse_digits(s.drop_first(), (acc as int * 10 + (s[0] as int - 48)) as u32)
        } else {
            None
        }
    } else {
        Some((acc, s))
    }
}

/// A JSON number restricted to `u32`: `0`, or a nonzero digit followed by
/// digits; a leading zero before further digits is malformed.
pub open spec fn parse_number(s: Seq<u8>) -> Option<(u32, Seq<u8>)> {
    if s.len() > 0 && s[0] == 48 {
        if s.len() > 1 && is_digit(s[1]) {
            None
        } else {
            Some((0u32, s.drop_first()))
        }
    } else if s.len() > 0 && is_digit(s[0]) {
        parse_digits(s, 0)
    } else {
        None
    }
}

/// What a short escape code after a backslash stands for.
pub open spec fn short_unescape(e: u8) -> Option<u8> {
    if e == 34 {
        Some(34u8)
    } else if e == 92 {
        Some(92u8)
    } else if e == 47 {
        Some(47u8)
    } else if e == 98 {
        Some(8u8)
    } else if e == 102 {
        Some(12u8)
    } else if e == 110 {
        Some(10u8)
    } else if e == 114 {
        Some(13u8)
    } else if e == 116 {
        Some(9u8)
    } else {
        None
    }
}

/// An ASCII hexadecimal digit, either case.
pub open spec fn is_hex(b: u8) -> bool {
    (48 <= b && b <= 57) || (97 <= b && b <= 102) || (65 <= b && b <= 70)
}

/// The value of a hexadecimal digit.
pub open spec fn hex_val(b: u8) -> int {
    if b <= 57 {
        b - 48
    } else if b <= 70 {
        b - 55
    } else {
        b - 87
    }
}

/// The body of a JSON string, after its opening quote: the bytes it stands
/// for and the rest of the input after the closing quote. Raw control
/// characters are malformed; `\u` escapes are read for code points below
/// 128, the only ones writing ever produces.
pub open spec fn parse_str_bytes(s: Seq<u8>) -> Option<(Seq<u8>, Seq<u8>)>
    decreases s.len(),
{
    if s.len() == 0 {
        None
    } else if s[0] == 34 {
        Some((Seq::empty(), s.drop_first()))
    } else if s[0] == 92 {
        if s.len() >= 2 && s[1] == 117 {
            if s.len() >= 6 && is_hex(s[2]) && is_hex(s[3]) && is_hex(s[4]) && is_hex(s[5]) {
                let cp = hex_val(s[2]) * 4096 + hex_val(s[3]) * 256 + hex_val(s[4]) * 16 + hex_val(
                    s[5],
                );
                if cp < 128 {
                    match parse_str_bytes(s.skip(6)) {
                        None => None,
                        Some((d, r)) => Some((seq![cp as u8] + d, r)),
                    }
                } else {
                    None
                }
            } else {
                None
            }
        } else if s.len() >= 2 {
            match short_unescape(s[1]) {
                None => None,
                Some(b) => match parse_str_bytes(s.skip(2)) {
                    None => None,
                    Some((d, r)) => Some((seq![b] + d, r)),
                },
            }
        } else {
            None
        }
    } else if s[0] < 32 {
        None
    } else {
        match parse_str_bytes(s.drop_first()) {
            None => None,
            Some((d, r)) => Some((seq![s[0]] + d, r)),
        }
    }
}

/// `true` or `false`.
pub open spec fn parse_bool(s: Seq<u8>) -> Option<(bool, Seq<u8>)> {
    if s.len() > 0 && s[0] == 116 {
        match parse_lit(s, lit_true()) {
            None => None,
            Some(r) => Some((true, r)),
        }
    } else {
        match parse_lit(s, lit_false()) {
            None => None,
            Some(r) => Some((false, r)),
        }
    }
}

/// One task record: `{ "id": <number>, "description": <string>,
/// "done": <bool> }`, with any whitespace between tokens. The description
/// bytes must form valid UTF-8.
pub open spec fn parse_task(s: Seq<u8>) -> Option<(TaskView, Seq<u8>)> {
    match tok(s, seq![123u8]) {
        None => None,
        Some(s1) => match tok(s1, lit_key_id()) {
            None => None,
            Some(s2) => match tok(s2, seq![58u8]) {
                None => None,
                Some(s3) => match parse_number(skip_ws(s3)) {
                    None => None,
                    Some((id, s4)) => match tok(s4, seq![44u8]) {
                        None => None,
                        Some(s5) => match tok(s5, lit_key_description()) {
                            None => None,
                            Some(s6) => match tok(s6, seq![58u8]) {
                                None => None,
                                Some(s7) => match tok(s7, seq![34u8]) {
                                    None => None,
                                    Some(s8) => match parse_str_bytes(s8) {
                                        None => None,
                                        Some((d, s9)) => if valid_utf8(d) {
                                            match tok(s9, seq![44u8]) {
                                                None => None,
                                                Some(s10) => match tok(s10, lit_key_done()) {
                                                    None => None,
                                                    Some(s11) => match tok(s11, seq![58u8]) {
                                                        None => None,
                                                        Some(s12) => match parse_bool(
                                                            skip_ws(s12),
                                                        ) {
                                                            None => None,
                                                            Some((done, s13)) => match tok(
                                                                s13,
                                                                seq![125u8],
                                                            ) {
                                                                None => None,
                                                                Some(s14) => Some(
                                                                    (
                                                                        TaskView {
                                                                            id,
                                                                            description:
                                                                                decode_utf8(d),
                                                                            done,
                                                                        },
                                                                        s14,
                                                                    ),
                                                                ),
                                                            },
                                                        },
                                                    },
                                                },
                                            }
                                        } else {
                                            None
                                        },
                                    },
                                },
                            },
                        },
                    },
                },
            },
        },
    }
}

/// One or more task records separated by commas, up to and including the
/// closing bracket of the list.
pub open spec fn parse_items(s: Seq<u8>) -> Option<(Seq<TaskView>, Seq<u8>)>
    decreases s.len(),
{
    match parse_task(s) {
        None => None,
        Some((t, r)) => {
            let r2 = skip_ws(r);
            if r2.len() > 0 && r2[0] == 44 {
                let r3 = r2.drop_first();
                if r3.len() < s.len() {
                    match parse_items(r3) {
                        None => None,
                        Some((v, r4)) => Some((seq![t] + v, r4)),
                    }
                } else {
                    None
                }
            } else if r2.len() > 0 && r2[0] == 93 {
                Some((seq![t], r2.drop_first()))
            } else {
                None
            }
        },
    }
}

/// The closing brace and trailing whitespace of the document.
pub open spec fn parse_end(v: Seq<TaskView>, s: Seq<u8>) -> Option<Seq<TaskView>> {
    match tok(s, seq![125u8]) {
        None => None,
        Some(r) => if skip_ws(r).len() == 0 {
            Some(v)
        } else {
            None
        },
    }
}

/// The whole document: the store models it holds, or nothing when it is
/// malformed.
pub open spec fn spec_load(s: Seq<u8>) -> Option<Seq<TaskView>> {
    match tok(s, seq![123u8]) {
        None => None,
        Some(s1) => match tok(s1, lit_key_tasks()) {
            None => None,
            Some(s2) => match tok(s2, seq![58u8]) {
                None => None,
                Some(s3) => match tok(s3, seq![91u8]) {
                    None => None,
                    Some(s4) => {
                        let s5 = skip_ws(s4);
                        if s5.len() > 0 && s5[0] == 93 {
                            parse_end(Seq::empty(), s5.drop_first())
                        } else {
                            match parse_items(s4) {
                                None => None,
                                Some((v, r)) => parse_end(v, r),
                            }
                        }
                    },
                },
            },
        },
    }
}

// ---------------------------------------------------------------------------
// Writing
// ---------------------------------------------------------------------------

fn one_byte(b: u8) -> (v: Vec<u8>)
    ensures
        v@ == seq![b],
{
    let mut v: Vec<u8> = Vec::new();
    v.push(b);
    proof {
        assert(v@ =~= seq![b]);
    }
    v
}

fn header_bytes() -> (v: Vec<u8>)
    ensures
        v@ == lit_header(),
{
    let mut v: Vec<u8> = Vec::new();
    v.push(123);
    v.push(10);
    v.push(32);
    v.push(32);
    v.push(34);
    v.push(116);
    v.push(97);
    v.push(115);
    v.push(107);
    v.push(115);
    v.push(34);
    v.push(58);
    v.push(32);
    v.push(91);
    proof {
        assert(v@ =~= lit_header());
    }
    v
}

fn task_open_bytes() -> (v: Vec<u8>)
    ensures
        v@ == lit_task_open(),
{
    let mut v: Vec<u8> = Vec::new();
    v.push(32);
    v.push(32);
    v.push(32);
    v.push(32);
    v.push(123);
    v.push(10);
    v.push(32);
    v.push(32);
    v.push(32);
    v.push(32);
    v.push(32);
    v.push(32);
    v.push(34);
    v.push(105);
    v.push(100);
    v.push(34);
    v.push(58);
    v.push(32);
    proof {
        assert(v@ =~= lit_task_open());
    }
    v
}

fn desc_bytes() -> (v: Vec<u8>)
    ensures
        v@ == lit_desc(),
{
    let mut v: Vec<u8> = Vec::new();
    v.push(44);
    v.push(10);
    v.push(32);
    v.push(32);
    v.push(32);
    v.push(32);
    v.push(32);
    v.push(32);
    v.push(34);
    v.push(100);
    v.push(101);
    v.push(115);
    v.push(99);
    v.push(114);
    v.push(105);
    v.push(112);
    v.push(116);
    v.push(105);
    v.push(111);
    v.push(110);
    v.push(34);
    v.push(58);
    v.push(32);
    v.push(34);
    proof {
        assert(v@ =~= lit_desc());
    }
    v
}

fn done_bytes() -> (v: Vec<u8>)
    ensures
        v@ == lit_done(),
{
    let mut v: Vec<u8> = Vec::new();
    v.push(34);
    v.push(44);
    v.push(10);
    v.push(32);
    v.push(32);
    v.push(32);
    v.push(32);
    v.push(32);
    v.push(32);
    v.push(34);
    v.push(100);
    v.push(111);
    v.push(110);
    v.push(101);
    v.push(34);
    v.push(58);
    v.push(32);
    proof {
        assert(v@ =~= lit_done());
    }
    v
}

fn task_close_bytes() -> (v: Vec<u8>)
    ensures
        v@ == lit_task_close(),
{
    let mut v: Vec<u8> = Vec::new();
    v.push(10);
    v.push(32);
    v.push(32);
    v.push(32);
    v.push(32);
    v.push(125);
    proof {
        assert(v@ =~= lit_task_close());
    }
    v
}

fn true_bytes() -> (v: Vec<u8>)
    ensures
        v@ == lit_true(),
{
    let mut v: Vec<u8> = Vec::new();
    v.push(116);
    v.push(114);
    v.push(117);
    v.push(101);
    proof {
        assert(v@ =~= lit_true());
    }
    v
}

fn false_bytes() -> (v: Vec<u8>)
    ensures
        v@ == lit_false(),
{
    let mut v: Vec<u8> = Vec::new();
    v.push(102);
    v.push(97);
    v.push(108);
    v.push(115);
    v.push(101);
    proof {
        assert(v@ =~= lit_false());
    }
    v
}

fn sep_bytes() -> (v: Vec<u8>)
    ensures
        v@ == lit_sep(),
{
    let mut v: Vec<u8> = Vec::new();
    v.push(44);
    v.push(10);
    proof {
        assert(v@ =~= lit_sep());
    }
    v
}

fn items_close_bytes() -> (v: Vec<u8>)
    ensures
        v@ == lit_items_close(),
{
    let mut v: Vec<u8> = Vec::new();
    v.push(10);
    v.push(32);
    v.push(32);
    proof {
        assert(v@ =~= lit_items_close());
    }
    v
}

fn footer_bytes() -> (v: Vec<u8>)
    ensures
        v@ == lit_footer(),
{
    let mut v: Vec<u8> = Vec::new();
    v.push(93);
    v.push(10);
    v.push(125);
    proof {
        assert(v@ =~= lit_footer());
    }
    v
}

fn key_id_bytes() -> (v: Vec<u8>)
    ensures
        v@ == lit_key_id(),
{
    let mut v: Vec<u8> = Vec::new();
    v.push(34);
    v.push(105);
    v.push(100);
    v.push(34);
    proof {
        assert(v@ =~= lit_key_id());
    }
    v
}

fn key_description_bytes() -> (v: Vec<u8>)
    ensures
        v@ == lit_key_description(),
{
    let mut v: Vec<u8> = Vec::new();
    v.push(34);
    v.push(100);
    v.push(101);
    v.push(115);
    v.push(99);
    v.push(114);
    v.push(105);
    v.push(112);
    v.push(116);
    v.push(105);
    v.push(111);
    v.push(110);
    v.push(34);
    proof {
        assert(v@ =~= lit_key_description());
    }
    v
}

fn key_done_bytes() -> (v: Vec<u8>)
    ensures
        v@ == lit_key_done(),
{
    let mut v: Vec<u8> = Vec::new();
    v.push(34);
    v.push(100);
    v.push(111);
    v.push(110);
    v.push(101);
    v.push(34);
    proof {
        assert(v@ =~= lit_key_done());
    }
    v
}

fn key_tasks_bytes() -> (v: Vec<u8>)
    ensures
        v@ == lit_key_tasks(),
{
    let mut v: Vec<u8> = Vec::new();
    v.push(34);
    v.push(116);
    v.push(97);
    v.push(115);
    v.push(107);
    v.push(115);
    v.push(34);
    proof {
        assert(v@ =~= lit_key_tasks());
    }
    v
}

/// Writes the escaped form of every byte of `bytes`.
fn push_escaped(out: &mut Vec<u8>, bytes: &[u8])
    ensures
        final(out)@ == old(out)@ + esc_bytes(bytes@),
{
    let n = bytes.len();
    let mut k: usize = 0;
    proof {
        assert(bytes@.take(0) =~= Seq::<u8>::empty());
        assert(out@ =~= old(out)@ + esc_bytes(bytes@.take(0)));
    }
    while k < n
        invariant
            0 <= k <= n,
            n == bytes@.len(),
            out@ == old(out)@ + esc_bytes(bytes@.take(k as int)),
        decreases n - k,
    {
        let b = bytes[k];
        proof {
            assert(bytes@.take(k + 1) =~= bytes@.take(k as int) + seq![b]);
            lemma_esc_concat(bytes@.take(k as int), seq![b]);
            assert(seq![b].drop_first() =~= Seq::<u8>::empty());
            assert(esc_bytes(seq![b].drop_first()) =~= Seq::<u8>::empty());
            assert(esc_bytes(seq![b]) =~= esc_byte(b));
        }
        if b == 34 {
            out.push(92);
            out.push(34);
        } else if b == 92 {
            out.push(92);
            out.push(92);
        } else if b == 8 {
            out.push(92);
            out.push(98);
        } else if b == 12 {
            out.push(92);
            out.push(102);
        } else if b == 10 {
            out.push(92);
            out.push(110);
        } else if b == 13 {
            out.push(92);
            out.push(114);
        } else if b == 9 {
            out.push(92);
            out.push(116);
        } else if b < 32 {
            let hi = b / 16;
            let lo = b % 16;
            out.push(92);
            out.push(117);
            out.push(48);
            out.push(48);
            out.push(48 + hi);
            if lo < 10 {
                out.push(48 + lo);
            } else {
                out.push(87 + lo);
            }
        } else {
            out.push(b);
        }
        proof {
            assert(out@ =~= old(out)@ + esc_bytes(bytes@.take(k + 1)));
        }
        k += 1;
    }
    proof {
        assert(bytes@.take(n as int) =~= bytes@);
    }
}

/// Escaping distributes over concatenation.
proof fn lemma_esc_concat(a: Seq<u8>, b: Seq<u8>)
    ensures
        esc_bytes(a + b) == esc_bytes(a) + esc_bytes(b),
    decreases a.len(),
{
    if a.len() == 0 {
        assert(a + b =~= b);
        assert(esc_bytes(a) + esc_bytes(b) =~= esc_bytes(b));
    } else {
        assert((a + b).drop_first() =~= a.drop_first() + b);
        lemma_esc_concat(a.drop_first(), b);
        assert((a + b)[0] == a[0]);
        assert(esc_byte(a[0]) + (esc_bytes(a.drop_first()) + esc_bytes(b)) =~= (esc_byte(a[0])
            + esc_bytes(a.drop_first())) + esc_bytes(b));
    }
}

/// Writes the decimal digits of `n`.
fn push_u32(out: &mut Vec<u8>, n: u32)
    ensures
        final(out)@ == old(out)@ + ser_u32(n),
    decreases n,
{
    if n < 10 {
        out.push(48 + (n as u8));
        proof {
            assert(out@ =~= old(out)@ + ser_u32(n));
        }
    } else {
        push_u32(out, n / 10);
        out.push(48 + ((n % 10) as u8));
        proof {
            assert(out@ =~= old(out)@ + ser_u32(n));
        }
    }
}

/// Writes one task record.
fn push_task(out: &mut Vec<u8>, tasks: &Vec<Task>, i: usize)
    requires
        i < tasks@.len(),
    ensures
        final(out)@ == old(out)@ + ser_task(tasks@[i as int]@),
{
    let mut a = task_open_bytes();
    out.append(&mut a);
    push_u32(out, tasks[i].id);
    let mut b = desc_bytes();
    out.append(&mut b);
    push_escaped(out, tasks[i].description.as_str().as_bytes());
    let mut c = done_bytes();
    out.append(&mut c);
    if tasks[i].done {
        let mut t = true_bytes();
        out.append(&mut t);
    } else {
        let mut f = false_bytes();
        out.append(&mut f);
    }
    let mut e = task_close_bytes();
    out.append(&mut e);
    proof {
        assert(out@ =~= old(out)@ + ser_task(tasks@[i as int]@));
    }
}

/// Writes the records from position `i` on, separated by `,\n`.
fn push_items(out: &mut Vec<u8>, tasks: &Vec<Task>, i: usize)
    requires
        i < tasks@.len(),
    ensures
        final(out)@ == old(out)@ + ser_items(views_of(tasks@).skip(i as int)),
    decreases tasks@.len() - i,
{
    let ghost v = views_of(tasks@);
    let n = tasks.len();
    push_task(out, tasks, i);
    proof {
        assert(v.skip(i as int)[0] == v[i as int]);
        assert(v[i as int] == tasks@[i as int]@);
    }
    if i + 1 < n {
        let mut sp = sep_bytes();
        out.append(&mut sp);
        push_items(out, tasks, i + 1);
        proof {
            assert(v.skip(i as int).drop_first() =~= v.skip(i + 1));
            assert(out@ =~= old(out)@ + ser_items(v.skip(i as int)));
        }
    } else {
        proof {
            assert(v.skip(i as int) =~= seq![v[i as int]]);
            assert(out@ =~= old(out)@ + ser_items(v.skip(i as int)));
        }
    }
}

impl TaskManager {
    /// Serializes the store to the bytes of its storage document,
    /// deterministically.
    pub fn save(&self) -> (out: Vec<u8>)
        ensures
            out@ == spec_save(self@),
    {
        let mut out: Vec<u8> = Vec::new();
        let mut h = header_bytes();
        out.append(&mut h);
        if self.tasks.len() == 0 {
            let mut f = footer_bytes();
            out.append(&mut f);
            proof {
                assert(out@ =~= spec_save(self@));
            }
        } else {
            out.push(10);
            push_items(&mut out, &self.tasks, 0);
            let mut c = items_close_bytes();
            out.append(&mut c);
            let mut f = footer_bytes();
            out.append(&mut f);
            proof {
                assert(views_of(self.tasks@).skip(0) =~= views_of(self.tasks@));
                assert(views_of(self.tasks@) =~= self@);
                assert(out@ =~= spec_save(self@));
            }
        }
        out
    }
}

// ---------------------------------------------------------------------------
// Reading
// ---------------------------------------------------------------------------

/// Relies on `String::from_utf8`: it succeeds exactly on UTF-8 encoded
/// bytes, and the string it returns is the one those bytes encode.
#[verifier::external_body]
fn bytes_to_string(v: Vec<u8>) -> (r: Option<String>)
    ensures
        r is Some <==> valid_utf8(v@),
        (match r {
            Some(t) => t@ == decode_utf8(v@) && encode_utf8(t@) == v@,
            None => true,
        }),
{
    match String::from_utf8(v) {
        Ok(t) => Some(t),
        Err(_) => None,
    }
}

/// The position after the leading whitespace from `i` on.
fn eat_ws(s: &[u8], i: usize) -> (r: usize)
    requires
        i <= s@.len(),
    ensures
        i <= r <= s@.len(),
        s@.skip(r as int) == skip_ws(s@.skip(i as int)),
{
    let n = s.len();
    let mut j = i;
    while j < n
        invariant
            i <= j <= n,
            n == s@.len(),
            skip_ws(s@.skip(i as int)) == skip_ws(s@.skip(j as int)),
        decreases n - j,
    {
        let b = s[j];
        proof {
            assert(s@.skip(j as int)[0] == s@[j as int]);
        }
        if !(b == 32 || b == 10 || b == 9 || b == 13) {
            return j;
        }
        proof {
            assert(s@.skip(j as int).drop_first() =~= s@.skip(j + 1));
        }
        j += 1;
    }
    proof {
        assert(s@.skip(j as int).len() == 0);
    }
    j
}

/// Consumes exactly the bytes of `lit` at position `i`.
fn eat_lit(s: &[u8], i: usize, lit: &[u8]) -> (r: Option<usize>)
    requires
        i <= s@.len(),
        lit@.len() >= 1,
    ensures
        (match r {
            None => parse_lit(s@.skip(i as int), lit@) is None,
            Some(j) => i + lit@.len() == j && j <= s@.len() && parse_lit(
                s@.skip(i as int),
                lit@,
            ) == Some(s@.skip(j as int)),
        }),
{
    let m = lit.len();
    let n = s.len();
    if n - i < m {
        return None;
    }
    let mut k: usize = 0;
    while k < m
        invariant
            0 <= k <= m,
            m == lit@.len(),
            n == s@.len(),
            i + m <= n,
            forall|q: int| 0 <= q < k ==> s@[i + q] == lit@[q],
        decreases m - k,
    {
        if s[i + k] != lit[k] {
            proof {
                let t = s@.skip(i as int);
                assert(t.take(m as int)[k as int] == t[k as int]);
                assert(t[k as int] == s@[i + k]);
                assert(t.take(m as int) != lit@);
            }
            return None;
        }
        k += 1;
    }
    proof {
        let t = s@.skip(i as int);
        assert forall|q: int| 0 <= q < m implies t.take(m as int)[q] == lit@[q] by {
            assert(t.take(m as int)[q] == t[q]);
            assert(t[q] == s@[i + q]);
        }
        assert(t.take(m as int) =~= lit@);
        assert(t.skip(m as int) =~= s@.skip(i + m));
    }
    Some(i + m)
}

/// Consumes whitespace, then exactly the bytes of `lit`.
fn eat_tok(s: &[u8], i: usize, lit: &[u8]) -> (r: Option<usize>)
    requires
        i <= s@.len(),
        lit@.len() >= 1,
    ensures
        (match r {
            None => tok(s@.skip(i as int), lit@) is None,
            Some(j) => i < j <= s@.len() && tok(s@.skip(i as int), lit@) == Some(
                s@.skip(j as int),
            ),
        }),
{
    let jw = eat_ws(s, i);
    eat_lit(s, jw, lit)
}

/// Reads a `u32` written in decimal at position `i`.
fn eat_number(s: &[u8], i: usize) -> (r: Option<(u32, usize)>)
    requires
        i <= s@.len(),
    ensures
        (match r {
            None => parse_number(s@.skip(i as int)) is None,
            Some((v, j)) => i < j <= s@.len() && parse_number(s@.skip(i as int)) == Some(
                (v, s@.skip(j as int)),
            ),
        }),
{
    let n = s.len();
    if i >= n {
        return None;
    }
    let b0 = s[i];
    proof {
        assert(s@.skip(i as int)[0] == s@[i as int]);
    }
    if b0 == 48 {
        if i + 1 < n && s[i + 1] >= 48 && s[i + 1] <= 57 {
            proof {
                assert(s@.skip(i as int)[1] == s@[i + 1]);
            }
            return None;
        }
        proof {
            if i + 1 < n {
                assert(s@.skip(i as int)[1] == s@[i + 1]);
            }
            assert(s@.skip(i as int).drop_first() =~= s@.skip(i + 1));
        }
        return Some((0, i + 1));
    }
    if b0 < 48 || b0 > 57 {
        return None;
    }
    let mut acc: u32 = 0;
    let mut j = i;
    while j < n
        invariant
            i <= j <= n,
            n == s@.len(),
            i < n,
            is_digit(s@[i as int]),
            s@[i as int] != 48,
            parse_digits(s@.skip(i as int), 0) == parse_digits(s@.skip(j as int), acc),
        decreases n - j,
    {
        let b = s[j];
        proof {
            assert(s@.skip(j as int)[0] == s@[j as int]);
            assert(s@.skip(j as int).drop_first() =~= s@.skip(j + 1));
        }
        if b < 48 || b > 57 {
            proof {
                assert(s@.skip(i as int)[0] == s@[i as int]);
            }
            return Some((acc, j));
        }
        let d = b - 48;
        if acc > (u32::MAX - (d as u32)) / 10 {
            proof {
                assert(acc as int * 10 + (b as int - 48) > u32::MAX);
            }
            return None;
        }
        proof {
            assert(acc as int * 10 + (b as int - 48) <= u32::MAX);
        }
        acc = acc * 10 + (d as u32);
        j += 1;
    }
    proof {
        assert(s@.skip(j as int).len() == 0);
        assert(s@.skip(i as int)[0] == s@[i as int]);
    }
    Some((acc, j))
}

/// What a short escape code stands for, or nothing for an unknown code.
fn unescape_code(e: u8) -> (r: Option<u8>)
    ensures
        r == short_unescape(e),
{
    if e == 34 {
        Some(34)
    } else if e == 92 {
        Some(92)
    } else if e == 47 {
        Some(47)
    } else if e == 98 {
        Some(8)
    } else if e == 102 {
        Some(12)
    } else if e == 110 {
        Some(10)
    } else if e == 114 {
        Some(13)
    } else if e == 116 {
        Some(9)
    } else {
        None
    }
}

/// The value of a hexadecimal digit, or nothing for another byte.
fn hex_nibble(b: u8) -> (r: Option<u8>)
    ensures
        r is Some <==> is_hex(b),
        (match r {
            Some(v) => v as int == hex_val(b) && v < 16,
            None => true,
        }),
{
    if b >= 48 && b <= 57 {
        Some(b - 48)
    } else if b >= 97 && b <= 102 {
        Some(b - 87)
    } else if b >= 65 && b <= 70 {
        Some(b - 55)
    } else {
        None
    }
}

/// Reads a string body at position `i`, after its opening quote, returning
/// the bytes it stands for and the position after the closing quote.
fn eat_string_body(s: &[u8], i: usize) -> (r: Option<(Vec<u8>, usize)>)
    requires
        i <= s@.len(),
    ensures
        (match r {
            None => parse_str_bytes(s@.skip(i as int)) is None,
            Some((d, j)) => i < j <= s@.len() && parse_str_bytes(s@.skip(i as int)) == Some(
                (d@, s@.skip(j as int)),
            ),
        }),
{
    let n = s.len();
    let mut d: Vec<u8> = Vec::new();
    let mut j = i;
    proof {
        match parse_str_bytes(s@.skip(i as int)) {
            Some((dd, rr)) => {
                assert(d@ + dd =~= dd);
            },
            None => {},
        }
    }
    while j < n
        invariant
            i <= j <= n,
            n == s@.len(),
            (match parse_str_bytes(s@.skip(j as int)) {
                None => parse_str_bytes(s@.skip(i as int)) is None,
                Some((dd, rr)) => parse_str_bytes(s@.skip(i as int)) == Some((d@ + dd, rr)),
            }),
        decreases n - j,
    {
        let b = s[j];
        proof {
            assert(s@.skip(j as int)[0] == s@[j as int]);
            assert(s@.skip(j as int).drop_first() =~= s@.skip(j + 1));
        }
        if b == 34 {
            proof {
                assert(d@ + Seq::<u8>::empty() =~= d@);
            }
            return Some((d, j + 1));
        } else if b == 92 {
            if j + 1 >= n {
                return None;
            }
            let e = s[j + 1];
            proof {
                assert(s@.skip(j as int)[1] == s@[j + 1]);
            }
            if e == 117 {
                if n - j < 6 {
                    return None;
                }
                let h2 = match hex_nibble(s[j + 2]) {
                    None => {
                        proof {
                            assert(s@.skip(j as int)[2] == s@[j + 2]);
                        }
                        return None;
                    },
                    Some(x) => x,
                };
                let h3 = match hex_nibble(s[j + 3]) {
                    None => {
                        proof {
                            assert(s@.skip(j as int)[3] == s@[j + 3]);
                        }
                        return None;
                    },
                    Some(x) => x,
                };
                let h4 = match hex_nibble(s[j + 4]) {
                    None => {
                        proof {
                            assert(s@.skip(j as int)[4] == s@[j + 4]);
                        }
                        return None;
                    },
                    Some(x) => x,
                };
                let h5 = match hex_nibble(s[j + 5]) {
                    None => {
                        proof {
                            assert(s@.skip(j as int)[5] == s@[j + 5]);
                        }
                        return None;
                    },
                    Some(x) => x,
                };
                proof {
                    assert(s@.skip(j as int)[2] == s@[j + 2]);
                    assert(s@.skip(j as int)[3] == s@[j + 3]);
                    assert(s@.skip(j as int)[4] == s@[j + 4]);
                    assert(s@.skip(j as int)[5] == s@[j + 5]);
                }
                let cp: u32 = (h2 as u32) * 4096 + (h3 as u32) * 256 + (h4 as u32) * 16 + (
                h5 as u32);
                if cp >= 128 {
                    return None;
                }
                let ghost d0 = d@;
                d.push(cp as u8);
                proof {
                    assert(s@.skip(j as int).skip(6) =~= s@.skip(j + 6));
                    assert(d@ =~= d0 + seq![cp as u8]);
                    match parse_str_bytes(s@.skip(j + 6)) {
                        Some((dd, rr)) => {
                            assert((d0 + seq![cp as u8]) + dd =~= d0 + (seq![cp as u8] + dd));
                        },
                        None => {},
                    }
                }
                j += 6;
            } else {
                let u = match unescape_code(e) {
                    None => {
                        return None;
                    },
                    Some(x) => x,
                };
                let ghost d0 = d@;
                d.push(u);
                proof {
                    assert(s@.skip(j as int).skip(2) =~= s@.skip(j + 2));
                    assert(d@ =~= d0 + seq![u]);
                    match parse_str_bytes(s@.skip(j + 2)) {
                        Some((dd, rr)) => {
                            assert((d0 + seq![u]) + dd =~= d0 + (seq![u] + dd));
                        },
                        None => {},
                    }
                }
                j += 2;
            }
        } else if b < 32 {
            return None;
        } else {
            let ghost d0 = d@;
            d.push(b);
            proof {
                assert(d@ =~= d0 + seq![b]);
                match parse_str_bytes(s@.skip(j + 1)) {
                    Some((dd, rr)) => {
                        assert((d0 + seq![b]) + dd =~= d0 + (seq![b] + dd));
                    },
                    None => {},
                }
            }
            j += 1;
        }
    }
    proof {
        assert(s@.skip(j as int).len() == 0);
    }
    None
}

/// Reads `true` or `false` at position `i`.
fn eat_bool(s: &[u8], i: usize) -> (r: Option<(bool, usize)>)
    requires
        i <= s@.len(),
    ensures
        (match r {
            None => parse_bool(s@.skip(i as int)) is None,
            Some((b, j)) => i < j <= s@.len() && parse_bool(s@.skip(i as int)) == Some(
                (b, s@.skip(j as int)),
            ),
        }),
{
    proof {
        if i < s@.len() {
            assert(s@.skip(i as int)[0] == s@[i as int]);
        }
    }
    if i < s.len() && s[i] == 116 {
        let tv = true_bytes();
        match eat_lit(s, i, tv.as_slice()) {
            None => None,
            Some(j) => Some((true, j)),
        }
    } else {
        let fv = false_bytes();
        match eat_lit(s, i, fv.as_slice()) {
            None => None,
            Some(j) => Some((false, j)),
        }
    }
}

/// Reads one task record at position `i`.
fn eat_task(s: &[u8], i: usize) -> (r: Option<(Task, usize)>)
    requires
        i <= s@.len(),
    ensures
        (match r {
            None => parse_task(s@.skip(i as int)) is None,
            Some((t, j)) => i < j <= s@.len() && parse_task(s@.skip(i as int)) == Some(
                (t@, s@.skip(j as int)),
            ),
        }),
{
    let brace = one_byte(123);
    let j1 = match eat_tok(s, i, brace.as_slice()) {
        None => {
            return None;
        },
        Some(j) => j,
    };
    let key = key_id_bytes();
    let j2 = match eat_tok(s, j1, key.as_slice()) {
        None => {
            return None;
        },
        Some(j) => j,
    };
    let colon = one_byte(58);
    let j3 = match eat_tok(s, j2, colon.as_slice()) {
        None => {
            return None;
        },
        Some(j) => j,
    };
    let jw = eat_ws(s, j3);
    let (id, j4) = match eat_number(s, jw) {
        None => {
            return None;
        },
        Some(x) => x,
    };
    let comma = one_byte(44);
    let j5 = match eat_tok(s, j4, comma.as_slice()) {
        None => {
            return None;
        },
        Some(j) => j,
    };
    let keyd = key_description_bytes();
    let j6 = match eat_tok(s, j5, keyd.as_slice()) {
        None => {
            return None;
        },
        Some(j) => j,
    };
    let colon2 = one_byte(58);
    let j7 = match eat_tok(s, j6, colon2.as_slice()) {
        None => {
            return None;
        },
        Some(j) => j,
    };
    let quote = one_byte(34);
    let j8 = match eat_tok(s, j7, quote.as_slice()) {
        None => {
            return None;
        },
        Some(j) => j,
    };
    let (dv, j9) = match eat_string_body(s, j8) {
        None => {
            return None;
        },
        Some(x) => x,
    };
    let ghost dvv = dv@;
    let description = match bytes_to_string(dv) {
        None => {
            return None;
        },
        Some(t) => t,
    };
    let comma2 = one_byte(44);
    let j10 = match eat_tok(s, j9, comma2.as_slice()) {
        None => {
            return None;
        },
        Some(j) => j,
    };
    let keyn = key_done_bytes();
    let j11 = match eat_tok(s, j10, keyn.as_slice()) {
        None => {
            return None;
        },
        Some(j) => j,
    };
    let colon3 = one_byte(58);
    let j12 = match eat_tok(s, j11, colon3.as_slice()) {
        None => {
            return None;
        },
        Some(j) => j,
    };
    let jw2 = eat_ws(s, j12);
    let (done, j13) = match eat_bool(s, jw2) {
        None => {
            return None;
        },
        Some(x) => x,
    };
    let rbrace = one_byte(125);
    let j14 = match eat_tok(s, j13, rbrace.as_slice()) {
        None => {
            return None;
        },
        Some(j) => j,
    };
    let t = Task { id, description, done };
    proof {
        assert(t@ == TaskView { id, description: decode_utf8(dvv), done });
    }
    Some((t, j14))
}

/// Reads the task records and the closing bracket of the list, from
/// position `i`.
fn eat_items(s: &[u8], i: usize) -> (r: Option<(Vec<Task>, usize)>)
    requires
        i <= s@.len(),
    ensures
        (match r {
            None => parse_items(s@.skip(i as int)) is None,
            Some((v, j)) => i < j <= s@.len() && parse_items(s@.skip(i as int)) == Some(
                (views_of(v@), s@.skip(j as int)),
            ),
        }),
    decreases s@.len() - i,
{
    let (t, jt) = match eat_task(s, i) {
        None => {
            return None;
        },
        Some(x) => x,
    };
    let jw = eat_ws(s, jt);
    if jw < s.len() && s[jw] == 44 {
        proof {
            assert(s@.skip(jw as int)[0] == s@[jw as int]);
            assert(s@.skip(jw as int).drop_first() =~= s@.skip(jw + 1));
        }
        match eat_items(s, jw + 1) {
            None => None,
            Some((mut v, j)) => {
                let ghost gt = t@;
                let ghost v0 = v@;
                v.insert(0, t);
                proof {
                    assert(views_of(v@) =~= seq![gt] + views_of(v0));
                }
                Some((v, j))
            },
        }
    } else if jw < s.len() && s[jw] == 93 {
        proof {
            assert(s@.skip(jw as int)[0] == s@[jw as int]);
            assert(s@.skip(jw as int).drop_first() =~= s@.skip(jw + 1));
        }
        let mut v: Vec<Task> = Vec::new();
        let ghost gt = t@;
        v.push(t);
        proof {
            assert(views_of(v@) =~= seq![gt]);
        }
        Some((v, jw + 1))
    } else {
        proof {
            if jw < s@.len() {
                assert(s@.skip(jw as int)[0] == s@[jw as int]);
            } else {
                assert(s@.skip(jw as int).len() == 0);
            }
        }
        None
    }
}

impl TaskManager {
    /// Reads a store back from the bytes of a storage document. Malformed
    /// content is rejected exactly when the document does not follow the
    /// written form; an absent document is the caller's concern.
    pub fn load(bytes: &[u8]) -> (r: Result<TaskManager, ParseError>)
        ensures
            (match spec_load(bytes@) {
                None => r is Err,
                Some(v) => r matches Ok(m) && m@ == v,
            }),
    {
        let s = bytes;
        proof {
            assert(s@.skip(0) =~= s@);
        }
        let brace = one_byte(123);
        let j1 = match eat_tok(s, 0, brace.as_slice()) {
            None => {
                return Err(ParseError);
            },
            Some(j) => j,
        };
        let keyt = key_tasks_bytes();
        let j2 = match eat_tok(s, j1, keyt.as_slice()) {
            None => {
                return Err(ParseError);
            },
            Some(j) => j,
        };
        let colon = one_byte(58);
        let j3 = match eat_tok(s, j2, colon.as_slice()) {
            None => {
                return Err(ParseError);
            },
            Some(j) => j,
        };
        let lbrack = one_byte(91);
        let j4 = match eat_tok(s, j3, lbrack.as_slice()) {
            None => {
                return Err(ParseError);
            },
            Some(j) => j,
        };
        let jw = eat_ws(s, j4);
        if jw < s.len() && s[jw] == 93 {
            proof {
                assert(s@.skip(jw as int)[0] == s@[jw as int]);
                assert(s@.skip(jw as int).drop_first() =~= s@.skip(jw + 1));
            }
            let rbrace = one_byte(125);
            let j6 = match eat_tok(s, jw + 1, rbrace.as_slice()) {
                None => {
                    return Err(ParseError);
                },
                Some(j) => j,
            };
            let jend = eat_ws(s, j6);
            if jend == s.len() {
                let m = TaskManager { tasks: Vec::new() };
                proof {
                    assert(s@.skip(jend as int).len() == 0);
                    assert(m@ =~= Seq::<TaskView>::empty());
                }
                Ok(m)
            } else {
                proof {
                    assert(s@.skip(jend as int).len() > 0);
                }
                Err(ParseError)
            }
        } else {
            proof {
                if jw < s@.len() {
                    assert(s@.skip(jw as int)[0] == s@[jw as int]);
                } else {
                    assert(s@.skip(jw as int).len() == 0);
                }
            }
            let (v, jv) = match eat_items(s, j4) {
                None => {
                    return Err(ParseError);
                },
                Some(x) => x,
            };
            let rbrace = one_byte(125);
            let j6 = match eat_tok(s, jv, rbrace.as_slice()) {
                None => {
                    return Err(ParseError);
                },
                Some(j) => j,
            };
            let jend = eat_ws(s, j6);
            if jend == s.len() {
                let m = TaskManager { tasks: v };
                proof {
                    assert(s@.skip(jend as int).len() == 0);
                    assert(m@ =~= views_of(m.tasks@));
                }
                Ok(m)
            } else {
                proof {
                    assert(s@.skip(jend as int).len() > 0);
                }
                Err(ParseError)
            }
        }
    }
}

// ---------------------------------------------------------------------------
// Round trip: reading back what was written
// ---------------------------------------------------------------------------

proof fn lemma_skip_ws_all(w: Seq<u8>, s: Seq<u8>)
    requires
        forall|k: int| 0 <= k < w.len() ==> is_ws(#[trigger] w[k]),
    ensures
        skip_ws(w + s) == skip_ws(s),
    decreases w.len(),
{
    if w.len() == 0 {
        assert(w + s =~= s);
    } else {
        assert((w + s)[0] == w[0]);
        assert((w + s).drop_first() =~= w.drop_first() + s);
        lemma_skip_ws_all(w.drop_first(), s);
    }
}

proof fn lemma_skip_ws_none(s: Seq<u8>)
    requires
        s.len() == 0 || !is_ws(s[0]),
    ensures
        skip_ws(s) == s,
{
}

proof fn lemma_parse_lit_exact(lit: Seq<u8>, rest: Seq<u8>)
    ensures
        parse_lit(lit + rest, lit) == Some(rest),
{
    assert((lit + rest).take(lit.len() as int) =~= lit);
    assert((lit + rest).skip(lit.len() as int) =~= rest);
}

/// A token preceded by whitespace in the written text is consumed whole.
proof fn lemma_tok_exact(w: Seq<u8>, lit: Seq<u8>, rest: Seq<u8>)
    requires
        forall|k: int| 0 <= k < w.len() ==> is_ws(#[trigger] w[k]),
        lit.len() > 0,
        !is_ws(lit[0]),
    ensures
        tok(w + (lit + rest), lit) == Some(rest),
{
    lemma_skip_ws_all(w, lit + rest);
    assert((lit + rest)[0] == lit[0]);
    lemma_skip_ws_none(lit + rest);
    lemma_parse_lit_exact(lit, rest);
}

proof fn lemma_parse_bool_ser(done: bool, rest: Seq<u8>)
    ensures
        parse_bool((if done { lit_true() } else { lit_false() }) + rest) == Some((done, rest)),
{
    if done {
        assert((lit_true() + rest)[0] == 116);
        lemma_parse_lit_exact(lit_true(), rest);
    } else {
        assert((lit_false() + rest)[0] == 102);
        lemma_parse_lit_exact(lit_false(), rest);
    }
}

/// How many decimal digits `n` is written with.
spec fn digits_len(n: u32) -> nat
    decreases n,
{
    if n < 10 {
        1
    } else {
        1 + digits_len(n / 10)
    }
}

spec fn pow10(k: nat) -> int
    decreases k,
{
    if k == 0 {
        1
    } else {
        10 * pow10((k - 1) as nat)
    }
}

proof fn lemma_pow10_pos(k: nat)
    ensures
        pow10(k) >= 1,
    decreases k,
{
    if k > 0 {
        lemma_pow10_pos((k - 1) as nat);
    }
}

proof fn lemma_ser_u32_shape(n: u32)
    ensures
        ser_u32(n).len() == digits_len(n),
        is_digit(ser_u32(n)[0]),
        n >= 1 ==> ser_u32(n)[0] != 48,
        n < pow10(digits_len(n)),
    decreases n,
{
    if n < 10 {
        assert(ser_u32(n)[0] == (48 + n) as u8);
        assert(pow10(0) == 1);
        assert(pow10(1) == 10);
    } else {
        lemma_ser_u32_shape(n / 10);
        assert(ser_u32(n)[0] == ser_u32(n / 10)[0]);
        assert(n < pow10(digits_len(n))) by {
            lemma_pow10_pos(digits_len(n / 10));
            assert(n / 10 + 1 <= pow10(digits_len(n / 10)));
            assert((n / 10 + 1) * 10 <= pow10(digits_len(n / 10)) * 10) by (nonlinear_arith)
                requires
                    n / 10 + 1 <= pow10(digits_len(n / 10)),
            ;
            assert(n < (n / 10 + 1) * 10) by (nonlinear_arith);
        }
    }
}

proof fn lemma_parse_digits_ser(n: u32, acc: u32, rest: Seq<u8>)
    requires
        acc * pow10(digits_len(n)) + n <= u32::MAX,
    ensures
        parse_digits(ser_u32(n) + rest, acc) == parse_digits(
            rest,
            (acc * pow10(digits_len(n)) + n) as u32,
        ),
    decreases n,
{
    lemma_pow10_pos(digits_len(n));
    if n < 10 {
        let s = ser_u32(n) + rest;
        assert(s[0] == (48 + n) as u8);
        assert(s.drop_first() =~= rest);
        assert(pow10(0) == 1);
        assert(pow10(1) == 10);
    } else {
        let d = (48 + n % 10) as u8;
        assert(ser_u32(n) + rest =~= ser_u32(n / 10) + (seq![d] + rest));
        let k1 = digits_len(n / 10);
        lemma_pow10_pos(k1);
        let mid = acc * pow10(k1) + n / 10;
        assert(mid * 10 + n % 10 == acc * pow10(digits_len(n)) + n) by (nonlinear_arith)
            requires
                digits_len(n) == k1 + 1,
                pow10((k1 + 1) as nat) == 10 * pow10(k1),
                n >= 10,
                mid == acc * pow10(k1) + n / 10,
        ;
        assert(mid >= 0) by (nonlinear_arith)
            requires
                acc >= 0,
                pow10(k1) >= 1,
                n >= 10,
                mid == acc * pow10(k1) + n / 10,
        ;
        assert(mid <= mid * 10 + n % 10) by (nonlinear_arith)
            requires
                mid >= 0,
        ;
        lemma_parse_digits_ser(n / 10, acc, seq![d] + rest);
        let s2 = seq![d] + rest;
        assert(s2[0] == d);
        assert(is_digit(d));
        assert(s2.drop_first() =~= rest);
        assert((mid as u32) as int * 10 + (d as int - 48) == mid * 10 + n % 10);
    }
}

proof fn lemma_parse_number_ser(n: u32, rest: Seq<u8>)
    requires
        rest.len() > 0,
        !is_digit(rest[0]),
    ensures
        parse_number(ser_u32(n) + rest) == Some((n, rest)),
{
    let s = ser_u32(n) + rest;
    lemma_ser_u32_shape(n);
    assert(s[0] == ser_u32(n)[0]);
    if n == 0 {
        assert(s[0] == 48);
        assert(s[1] == rest[0]);
        assert(s.drop_first() =~= rest);
    } else {
        assert(s[0] != 48);
        lemma_pow10_pos(digits_len(n));
        lemma_parse_digits_ser(n, 0, rest);
        assert(0 * pow10(digits_len(n)) + n == n) by (nonlinear_arith);
        assert(parse_digits(rest, n) == Some((n, rest)));
    }
}

proof fn lemma_hex_digit_shape(v: int)
    requires
        0 <= v < 16,
    ensures
        is_hex(hex_digit(v)),
        hex_val(hex_digit(v)) == v,
{
}

proof fn lemma_parse_str_ser(d: Seq<u8>, rest: Seq<u8>)
    ensures
        parse_str_bytes(esc_bytes(d) + (seq![34u8] + rest)) == Some((d, rest)),
    decreases d.len(),
{
    if d.len() == 0 {
        let s = esc_bytes(d) + (seq![34u8] + rest);
        assert(s =~= seq![34u8] + rest);
        assert(s[0] == 34);
        assert(s.drop_first() =~= rest);
        assert(Seq::<u8>::empty() =~= d);
    } else {
        let b = d[0];
        let df = d.drop_first();
        lemma_parse_str_ser(df, rest);
        let inner = esc_bytes(df) + (seq![34u8] + rest);
        let s = esc_bytes(d) + (seq![34u8] + rest);
        assert(s =~= esc_byte(b) + inner);
        if b == 34 || b == 92 || b == 8 || b == 12 || b == 10 || b == 13 || b == 9 {
            assert(esc_byte(b).len() == 2);
            assert(s[0] == esc_byte(b)[0]);
            assert(s[1] == esc_byte(b)[1]);
            assert(s[0] == 92);
            assert(s[1] != 117);
            assert(short_unescape(s[1]) == Some(b));
            assert(s.skip(2) =~= inner);
            assert(seq![b] + df =~= d);
        } else if b < 32 {
            assert(esc_byte(b) =~= seq![
                92u8, 117u8, 48u8, 48u8, hex_digit(b as int / 16), hex_digit(b as int % 16),
            ]);
            assert(s[0] == 92);
            assert(s[1] == 117);
            assert(s[2] == 48);
            assert(s[3] == 48);
            assert(s[4] == hex_digit(b as int / 16));
            assert(s[5] == hex_digit(b as int % 16));
            lemma_hex_digit_shape(b as int / 16);
            lemma_hex_digit_shape(b as int % 16);
            assert(is_hex(48u8) && hex_val(48u8) == 0);
            let cp = hex_val(s[2]) * 4096 + hex_val(s[3]) * 256 + hex_val(s[4]) * 16 + hex_val(
                s[5],
            );
            assert(cp == (b as int / 16) * 16 + (b as int % 16));
            assert(cp == b as int);
            assert(cp < 128);
            assert(s.skip(6) =~= inner);
            assert(seq![cp as u8] + df =~= d);
        } else {
            assert(esc_byte(b) =~= seq![b]);
            assert(s[0] == b);
            assert(b != 34 && b != 92 && !(b < 32));
            assert(s.drop_first() =~= inner);
            assert(seq![b] + df =~= d);
        }
    }
}

/// Reading one task record out of the written text, under any leading
/// whitespace and whatever follows it.
#[verifier::rlimit(100)]
proof fn lemma_parse_task_ser(w: Seq<u8>, t: TaskView, rest: Seq<u8>)
    requires
        forall|k: int| 0 <= k < w.len() ==> is_ws(#[trigger] w[k]),
    ensures
        parse_task(w + (ser_task(t) + rest)) == Some((t, rest)),
{
    let nseq = ser_u32(t.id);
    let eseq = esc_bytes(encode_utf8(t.description));
    let bseq = if t.done {
        lit_true()
    } else {
        lit_false()
    };
    let ws4 = seq![32u8, 32u8, 32u8, 32u8];
    let ws7 = seq![10u8, 32u8, 32u8, 32u8, 32u8, 32u8, 32u8];
    let ws5 = seq![10u8, 32u8, 32u8, 32u8, 32u8];
    let s = w + (ser_task(t) + rest);
    let r13 = lit_task_close() + rest;
    let r12 = seq![32u8] + (bseq + r13);
    let r11 = seq![58u8] + r12;
    let r10 = ws7 + (lit_key_done() + r11);
    let r9 = seq![44u8] + r10;
    let r8 = eseq + (seq![34u8] + r9);
    let r7 = seq![32u8] + (seq![34u8] + r8);
    let r6 = seq![58u8] + r7;
    let r5 = ws7 + (lit_key_description() + r6);
    let r4 = seq![44u8] + r5;
    let r3 = seq![32u8] + (nseq + r4);
    let r2 = seq![58u8] + r3;
    let r1 = ws7 + (lit_key_id() + r2);

    assert(s =~= (w + ws4) + (seq![123u8] + r1));
    assert(forall|k: int| 0 <= k < (w + ws4).len() ==> is_ws(#[trigger] (w + ws4)[k]));
    lemma_tok_exact(w + ws4, seq![123u8], r1);

    assert(r1 =~= ws7 + (lit_key_id() + r2));
    lemma_tok_exact(ws7, lit_key_id(), r2);

    assert(r2 =~= Seq::<u8>::empty() + (seq![58u8] + r3));
    lemma_tok_exact(Seq::<u8>::empty(), seq![58u8], r3);

    lemma_skip_ws_all(seq![32u8], nseq + r4);
    lemma_ser_u32_shape(t.id);
    assert((nseq + r4)[0] == nseq[0]);
    lemma_skip_ws_none(nseq + r4);
    assert(r4[0] == 44);
    lemma_parse_number_ser(t.id, r4);

    assert(r4 =~= Seq::<u8>::empty() + (seq![44u8] + r5));
    lemma_tok_exact(Seq::<u8>::empty(), seq![44u8], r5);

    lemma_tok_exact(ws7, lit_key_description(), r6);

    assert(r6 =~= Seq::<u8>::empty() + (seq![58u8] + r7));
    lemma_tok_exact(Seq::<u8>::empty(), seq![58u8], r7);

    assert(r7 =~= seq![32u8] + (seq![34u8] + r8));
    lemma_tok_exact(seq![32u8], seq![34u8], r8);

    lemma_parse_str_ser(encode_utf8(t.description), r9);
    vstd::utf8::encode_utf8_valid_utf8(t.description);
    vstd::utf8::encode_utf8_decode_utf8(t.description);

    assert(r9 =~= Seq::<u8>::empty() + (seq![44u8] + r10));
    lemma_tok_exact(Seq::<u8>::empty(), seq![44u8], r10);

    lemma_tok_exact(ws7, lit_key_done(), r11);

    assert(r11 =~= Seq::<u8>::empty() + (seq![58u8] + r12));
    lemma_tok_exact(Seq::<u8>::empty(), seq![58u8], r12);

    lemma_skip_ws_all(seq![32u8], bseq + r13);
    assert((bseq + r13)[0] == bseq[0]);
    lemma_skip_ws_none(bseq + r13);
    lemma_parse_bool_ser(t.done, r13);

    assert(r13 =~= ws5 + (seq![125u8] + rest));
    lemma_tok_exact(ws5, seq![125u8], rest);

    assert(TaskView { id: t.id, description: decode_utf8(encode_utf8(t.description)), done: t.done }
        == t);
}

/// Reading the written list of records, under any leading whitespace, up to
/// and including the closing bracket.
proof fn lemma_parse_items_ser(w: Seq<u8>, v: Seq<TaskView>, after: Seq<u8>)
    requires
        forall|k: int| 0 <= k < w.len() ==> is_ws(#[trigger] w[k]),
        v.len() >= 1,
    ensures
        parse_items(w + (ser_items(v) + (lit_items_close() + (seq![93u8] + after)))) == Some(
            (v, after),
        ),
    decreases v.len(),
{
    let s = w + (ser_items(v) + (lit_items_close() + (seq![93u8] + after)));
    if v.len() == 1 {
        let r = lit_items_close() + (seq![93u8] + after);
        assert(s =~= w + (ser_task(v[0]) + r));
        lemma_parse_task_ser(w, v[0], r);
        lemma_skip_ws_all(lit_items_close(), seq![93u8] + after);
        assert((seq![93u8] + after)[0] == 93);
        lemma_skip_ws_none(seq![93u8] + after);
        assert((seq![93u8] + after).drop_first() =~= after);
        assert(seq![v[0]] =~= v);
    } else {
        let tail = seq![10u8] + (ser_items(v.drop_first()) + (lit_items_close() + (seq![93u8]
            + after)));
        let r = seq![44u8] + tail;
        assert(s =~= w + (ser_task(v[0]) + r));
        lemma_parse_task_ser(w, v[0], r);
        lemma_skip_ws_none(r);
        assert(r[0] == 44);
        assert(r.drop_first() =~= tail);
        assert(ser_task(v[0]).len() >= 1);
        assert(tail.len() < s.len());
        lemma_parse_items_ser(seq![10u8], v.drop_first(), after);
        assert(tail =~= seq![10u8] + (ser_items(v.drop_first()) + (lit_items_close() + (seq![93u8]
            + after))));
        assert(seq![v[0]] + v.drop_first() =~= v);
    }
}

/// Law: a store written by `save` is read back by `load` unchanged — for
/// every store, whatever its identifiers, descriptions and flags.
#[verifier::rlimit(100)]
pub proof fn lemma_save_load_round_trip(v: Seq<TaskView>)
    ensures
        spec_load(spec_save(v)) == Some(v),
{
    let ws3 = seq![10u8, 32u8, 32u8];
    let s = spec_save(v);
    if v.len() == 0 {
        let r1 = ws3 + (lit_key_tasks() + (seq![58u8] + (seq![32u8] + (seq![91u8] + lit_footer()))));
        assert(s =~= Seq::<u8>::empty() + (seq![123u8] + r1));
        lemma_tok_exact(Seq::<u8>::empty(), seq![123u8], r1);
        let r2 = seq![58u8] + (seq![32u8] + (seq![91u8] + lit_footer()));
        lemma_tok_exact(ws3, lit_key_tasks(), r2);
        let r3 = seq![32u8] + (seq![91u8] + lit_footer());
        assert(r2 =~= Seq::<u8>::empty() + (seq![58u8] + r3));
        lemma_tok_exact(Seq::<u8>::empty(), seq![58u8], r3);
        let r4 = lit_footer();
        assert(r3 =~= seq![32u8] + (seq![91u8] + r4));
        lemma_tok_exact(seq![32u8], seq![91u8], r4);
        assert(r4[0] == 93);
        lemma_skip_ws_none(r4);
        let r5 = seq![10u8, 125u8];
        assert(r4.drop_first() =~= r5);
        assert(r5 =~= seq![10u8] + (seq![125u8] + Seq::<u8>::empty()));
        lemma_tok_exact(seq![10u8], seq![125u8], Seq::<u8>::empty());
        assert(skip_ws(Seq::<u8>::empty()).len() == 0);
        assert(v =~= Seq::<TaskView>::empty());
    } else {
        let tail = seq![10u8] + (ser_items(v) + (lit_items_close() + (seq![93u8] + seq![
            10u8, 125u8,
        ])));
        let r1 = ws3 + (lit_key_tasks() + (seq![58u8] + (seq![32u8] + (seq![91u8] + tail))));
        assert(s =~= Seq::<u8>::empty() + (seq![123u8] + r1));
        lemma_tok_exact(Seq::<u8>::empty(), seq![123u8], r1);
        let r2 = seq![58u8] + (seq![32u8] + (seq![91u8] + tail));
        lemma_tok_exact(ws3, lit_key_tasks(), r2);
        let r3 = seq![32u8] + (seq![91u8] + tail);
        assert(r2 =~= Seq::<u8>::empty() + (seq![58u8] + r3));
        lemma_tok_exact(Seq::<u8>::empty(), seq![58u8], r3);
        lemma_tok_exact(seq![32u8], seq![91u8], tail);
        // the first record begins with an opening brace after whitespace
        let ws5 = seq![10u8, 32u8, 32u8, 32u8, 32u8];
        let opened = ser_items(v).skip(5);
        assert(ser_items(v)[0] == ser_task(v[0])[0]);
        assert(ser_items(v)[1] == ser_task(v[0])[1]);
        assert(ser_items(v)[2] == ser_task(v[0])[2]);
        assert(ser_items(v)[3] == ser_task(v[0])[3]);
        assert(ser_items(v)[4] == ser_task(v[0])[4]);
        assert(ser_task(v[0])[4] == 123);
        let shead = skip_ws(tail);
        assert(tail =~= ws5 + (seq![123u8] + (opened + (lit_items_close() + (seq![93u8] + seq![
            10u8, 125u8,
        ])))));
        lemma_skip_ws_all(ws5, seq![123u8] + (opened + (lit_items_close() + (seq![93u8] + seq![
            10u8, 125u8,
        ]))));
        lemma_skip_ws_none(seq![123u8] + (opened + (lit_items_close() + (seq![93u8] + seq![
            10u8, 125u8,
        ]))));
        assert(shead[0] == 123);
        lemma_parse_items_ser(seq![10u8], v, seq![10u8, 125u8]);
        assert(tail =~= seq![10u8] + (ser_items(v) + (lit_items_close() + (seq![93u8] + seq![
            10u8, 125u8,
        ]))));
        let r5 = seq![10u8, 125u8];
        assert(r5 =~= seq![10u8] + (seq![125u8] + Seq::<u8>::empty()));
        lemma_tok_exact(seq![10u8], seq![125u8], Seq::<u8>::empty());
        assert(skip_ws(Seq::<u8>::empty()).len() == 0);
    }
}

} // verus!
