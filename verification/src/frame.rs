//! Incremental Content-Length frame codec.
//!
//! A frame is a block of header lines terminated by a blank line (`\n\n` or
//! `\r\n\r\n`), one of which states the byte length of the JSON body that
//! follows. The decoder consumes nothing until a whole frame is present, so
//! input may arrive in arbitrarily small chunks.

use vstd::prelude::*;

verus! {

/// The ways the header block of a frame can be malformed.
#[derive(PartialEq, Eq, Structural, Clone, Copy, Debug)]
pub enum FrameError {
    /// The header block holds no `Content-Length:` line.
    HeaderMissing,
    /// The `Content-Length:` line holds no decimal value that fits a `usize`.
    LengthFormat,
}

/// Result of one decoding step over a growable byte buffer.
pub enum FrameStep {
    /// The buffer does not yet hold a whole frame; nothing was consumed.
    NeedData,
    /// One whole frame was consumed; its body bytes.
    Item(Vec<u8>),
    /// The header block is complete but malformed; nothing was consumed.
    Bad(FrameError),
}

/// The bytes of `Content-Length:`.
pub open spec fn cl_prefix() -> Seq<u8> {
    seq![67u8, 111u8, 110u8, 116u8, 101u8, 110u8, 116u8, 45u8, 76u8, 101u8, 110u8, 103u8, 116u8, 104u8, 58u8]
}

/// A blank-line terminator ends at position `e` (exclusive): the buffer up to
/// `e` ends in `\n\n` or `\r\n\r\n`.
pub open spec fn is_term_at(b: Seq<u8>, e: int) -> bool {
    &&& 2 <= e <= b.len()
    &&& {
        ||| (b[e - 2] == 10 && b[e - 1] == 10)
        ||| (e >= 4 && b[e - 4] == 13 && b[e - 3] == 10 && b[e - 2] == 13 && b[e - 1] == 10)
    }
}

pub open spec fn first_term_from(b: Seq<u8>, e: int) -> Option<int>
    decreases b.len() + 1 - e,
    when 0 <= e
{
    if e > b.len() {
        None
    } else if is_term_at(b, e) {
        Some(e)
    } else {
        first_term_from(b, e + 1)
    }
}

/// End position of the header block: the least `e` with a terminator at `e`.
pub open spec fn hdr_end(b: Seq<u8>) -> Option<int> {
    first_term_from(b, 0)
}

/// `Content-Length:` stands at position `i` of the header block.
pub open spec fn cl_match_at(h: Seq<u8>, i: int) -> bool {
    &&& 0 <= i
    &&& i + 15 <= h.len()
    &&& forall|x: int| i <= x < i + 15 ==> h[x] == cl_prefix()[x - i]
}

/// A header line starting at `i` begins with `Content-Length:`.
pub open spec fn is_cl_line_at(h: Seq<u8>, i: int) -> bool {
    &&& (i == 0 || h[i - 1] == 10)
    &&& cl_match_at(h, i)
}

pub open spec fn first_cl_from(h: Seq<u8>, i: int) -> Option<int>
    decreases h.len() + 1 - i,
    when 0 <= i
{
    if i + 15 > h.len() {
        None
    } else if is_cl_line_at(h, i) {
        Some(i)
    } else {
        first_cl_from(h, i + 1)
    }
}

/// Start position of the first `Content-Length:` line of the header block.
pub open spec fn cl_start(h: Seq<u8>) -> Option<int> {
    first_cl_from(h, 0)
}

pub open spec fn is_ws(c: u8) -> bool {
    c == 32 || c == 9
}

pub open spec fn is_digit(c: u8) -> bool {
    48 <= c <= 57
}

/// First position at or after `j` holding no space or tab (or the end).
pub open spec fn ws_end(h: Seq<u8>, j: int) -> int
    decreases h.len() - j,
    when 0 <= j <= h.len()
{
    if j == h.len() || !is_ws(h[j]) {
        j
    } else {
        ws_end(h, j + 1)
    }
}

/// First position at or after `j` holding no decimal digit (or the end).
pub open spec fn digits_end(h: Seq<u8>, j: int) -> int
    decreases h.len() - j,
    when 0 <= j <= h.len()
{
    if j == h.len() || !is_digit(h[j]) {
        j
    } else {
        digits_end(h, j + 1)
    }
}

/// Numeric value of a sequence of decimal digit bytes.
pub open spec fn val_of(ds: Seq<u8>) -> nat
    decreases ds.len(),
{
    if ds.len() == 0 {
        0
    } else {
        (val_of(ds.drop_last()) * 10 + (ds.last() - 48)) as nat
    }
}

/// The declared content length of the header block whose `Content-Length:`
/// line starts at `i`: `None` when no digits follow the colon and optional
/// whitespace, or when the value overflows `usize`.
pub open spec fn cl_value(h: Seq<u8>, i: int) -> Option<nat> {
    let j = ws_end(h, i + 15);
    let k = digits_end(h, j);
    if k == j {
        None
    } else if val_of(h.subrange(j, k)) > usize::MAX {
        None
    } else {
        Some(val_of(h.subrange(j, k)))
    }
}

/// Decimal digit bytes of `n`, most significant first.
pub open spec fn dec_of(n: nat) -> Seq<u8>
    decreases n,
{
    if n < 10 {
        seq![(48 + n) as u8]
    } else {
        dec_of(n / 10).push((48 + n % 10) as u8)
    }
}

/// The encoded frame around a body: `Content-Length: <len>\r\n\r\n<body>`.
pub open spec fn frame_bytes(body: Seq<u8>) -> Seq<u8> {
    cl_prefix() + seq![32u8] + dec_of(body.len()) + seq![13u8, 10u8, 13u8, 10u8] + body
}

/// Decimal digit bytes of `n`, matching `dec_of`.
pub fn dec_digits(n: usize) -> (r: Vec<u8>)
    ensures
        r@ == dec_of(n as nat),
    decreases n,
{
    if n < 10 {
        let mut v: Vec<u8> = Vec::new();
        v.push(48 + n as u8);
        proof {
            assert(v@ =~= dec_of(n as nat));
        }
        v
    } else {
        let mut v = dec_digits(n / 10);
        v.push(48 + (n % 10) as u8);
        proof {
            assert(v@ =~= dec_of(n as nat));
        }
        v
    }
}

/// What one decoding step yields on given buffer contents.
pub ghost enum SpecStep {
    /// No whole frame is present yet.
    Incomplete,
    /// A whole frame: its body, and the bytes left over after it.
    Complete { body: Seq<u8>, rest: Seq<u8> },
    /// The header block is complete but malformed.
    Malformed { kind: FrameError },
}

/// The decoding step as a pure function of the buffer contents.
pub open spec fn decode_spec(b: Seq<u8>) -> SpecStep {
    match hdr_end(b) {
        Option::None => SpecStep::Incomplete,
        Option::Some(e) => {
            let h = b.subrange(0, e);
            match cl_start(h) {
                Option::None => SpecStep::Malformed { kind: FrameError::HeaderMissing },
                Option::Some(i) => match cl_value(h, i) {
                    Option::None => SpecStep::Malformed { kind: FrameError::LengthFormat },
                    Option::Some(l) => if b.len() < e + l {
                        SpecStep::Incomplete
                    } else {
                        SpecStep::Complete {
                            body: b.subrange(e, e + l),
                            rest: b.subrange(e + l, b.len() as int),
                        }
                    },
                },
            }
        },
    }
}

proof fn lemma_first_term_some(b: Seq<u8>, s: int, e: int)
    requires
        0 <= s <= e <= b.len(),
        is_term_at(b, e),
        forall|j: int| s <= j < e ==> !is_term_at(b, j),
    ensures
        first_term_from(b, s) == Some(e),
    decreases e - s,
{
    if s < e {
        lemma_first_term_some(b, s + 1, e);
    }
}

proof fn lemma_first_term_none(b: Seq<u8>, s: int)
    requires
        0 <= s,
        forall|j: int| s <= j <= b.len() ==> !is_term_at(b, j),
    ensures
        first_term_from(b, s) == None::<int>,
    decreases b.len() + 1 - s,
{
    if s <= b.len() {
        lemma_first_term_none(b, s + 1);
    }
}

proof fn lemma_first_cl_some(h: Seq<u8>, s: int, i: int)
    requires
        0 <= s <= i,
        i + 15 <= h.len(),
        is_cl_line_at(h, i),
        forall|j: int| s <= j < i ==> !is_cl_line_at(h, j),
    ensures
        first_cl_from(h, s) == Some(i),
    decreases i - s,
{
    if s < i {
        lemma_first_cl_some(h, s + 1, i);
    }
}

proof fn lemma_first_cl_none(h: Seq<u8>, s: int)
    requires
        0 <= s,
        forall|j: int| s <= j && j + 15 <= h.len() ==> !is_cl_line_at(h, j),
    ensures
        first_cl_from(h, s) == None::<int>,
    decreases h.len() + 1 - s,
{
    if s + 15 <= h.len() {
        lemma_first_cl_none(h, s + 1);
    }
}

proof fn lemma_val_of_take_step(ds: Seq<u8>, i: int)
    requires
        0 <= i < ds.len(),
        is_digit(ds[i]),
    ensures
        val_of(ds.take(i + 1)) == val_of(ds.take(i)) * 10 + (ds[i] - 48),
{
    assert(ds.take(i + 1).drop_last() =~= ds.take(i));
    assert(ds.take(i + 1).last() == ds[i]);
}

proof fn lemma_val_of_mono(ds: Seq<u8>, i: int)
    requires
        0 <= i <= ds.len(),
        forall|x: int| 0 <= x < ds.len() ==> is_digit(ds[x]),
    ensures
        val_of(ds.take(i)) <= val_of(ds),
    decreases ds.len() - i,
{
    if i == ds.len() {
        assert(ds.take(i) =~= ds);
    } else {
        lemma_val_of_take_step(ds, i);
        lemma_val_of_mono(ds, i + 1);
    }
}

/// A blank-line terminator ends at position `e` of the buffer.
fn term_at(buf: &Vec<u8>, e: usize) -> (r: bool)
    requires
        e <= buf.len(),
    ensures
        r == is_term_at(buf@, e as int),
{
    if e < 2 {
        return false;
    }
    if buf[e - 2] == 10 && buf[e - 1] == 10 {
        return true;
    }
    e >= 4 && buf[e - 4] == 13 && buf[e - 3] == 10 && buf[e - 2] == 13 && buf[e - 1] == 10
}

fn cl_prefix_byte(k: usize) -> (r: u8)
    requires
        k < 15,
    ensures
        r == cl_prefix()[k as int],
{
    if k == 0 { 67 } else if k == 1 { 111 } else if k == 2 { 110 } else if k == 3 { 116 }
    else if k == 4 { 101 } else if k == 5 { 110 } else if k == 6 { 116 } else if k == 7 { 45 }
    else if k == 8 { 76 } else if k == 9 { 101 } else if k == 10 { 110 } else if k == 11 { 103 }
    else if k == 12 { 116 } else if k == 13 { 104 } else { 58 }
}

/// `Content-Length:` stands at position `i` of the buffer.
fn cl_match(buf: &Vec<u8>, i: usize) -> (r: bool)
    requires
        i + 15 <= buf.len(),
    ensures
        r == cl_match_at(buf@, i as int),
{
    let mut k: usize = 0;
    let mut ok = true;
    while k < 15
        invariant
            k <= 15,
            i + 15 <= buf.len(),
            ok == (forall|x: int| i <= x < i + k ==> buf@[x] == cl_prefix()[x - i]),
        decreases 15 - k,
    {
        if buf[i + k] != cl_prefix_byte(k) {
            ok = false;
        }
        k += 1;
    }
    ok
}

/// Runs one decoding step on the buffer. A whole frame is consumed and its
/// body returned; otherwise the buffer is left exactly as it was.
pub fn decode_frame(buf: &mut Vec<u8>) -> (r: FrameStep)
    requires
        old(buf)@.len() + 16 <= usize::MAX,
    ensures
        decode_spec(old(buf)@) is Incomplete ==> r is NeedData && final(buf)@ == old(buf)@,
        decode_spec(old(buf)@) matches SpecStep::Malformed { kind } ==> r == FrameStep::Bad(kind)
            && final(buf)@ == old(buf)@,
        decode_spec(old(buf)@) matches SpecStep::Complete { body, rest } ==> r matches
            FrameStep::Item(v) && v@ == body && final(buf)@ == rest,
{
    let ghost b = buf@;
    let n = buf.len();

    // Find the least end position of a blank-line terminator.
    let mut e: usize = 0;
    let mut end: usize = 0;
    let mut has_end = false;
    while e <= n
        invariant
            b == buf@,
            n == b.len(),
            n + 16 <= usize::MAX,
            e <= n + 1,
            !has_end ==> forall|j: int| 0 <= j < e ==> !is_term_at(b, j),
            has_end ==> end <= n && is_term_at(b, end as int) && (forall|j: int|
                0 <= j < end ==> !is_term_at(b, j)),
        decreases n + 1 - e,
    {
        if !has_end && term_at(buf, e) {
            has_end = true;
            end = e;
        }
        e += 1;
    }
    if !has_end {
        proof {
            lemma_first_term_none(b, 0);
        }
        return FrameStep::NeedData;
    }
    proof {
        lemma_first_term_some(b, 0, end as int);
    }
    let ghost h = b.subrange(0, end as int);

    // Find the first header line that begins with `Content-Length:`.
    let mut i: usize = 0;
    let mut cl_i: usize = 0;
    let mut has_cl = false;
    while i + 15 <= end
        invariant
            b == buf@,
            n == b.len(),
            n + 16 <= usize::MAX,
            end <= n,
            h == b.subrange(0, end as int),
            i <= end,
            !has_cl ==> forall|j: int| 0 <= j < i ==> !is_cl_line_at(h, j),
            has_cl ==> cl_i + 15 <= end && is_cl_line_at(h, cl_i as int) && (forall|j: int|
                0 <= j < cl_i ==> !is_cl_line_at(h, j)),
        decreases end - i,
    {
        if !has_cl {
            let line_start = i == 0 || buf[i - 1] == 10;
            let m = cl_match(buf, i);
            proof {
                assert(forall|x: int| 0 <= x < end ==> #[trigger] h[x] == b[x]);
                assert(forall|x: int| 0 <= x < end ==> h[x] == #[trigger] b[x]);
                assert(cl_match_at(b, i as int) == cl_match_at(h, i as int));
            }
            if line_start && m {
                has_cl = true;
                cl_i = i;
            }
        }
        i += 1;
    }
    if !has_cl {
        proof {
            lemma_first_cl_none(h, 0);
        }
        return FrameStep::Bad(FrameError::HeaderMissing);
    }
    proof {
        lemma_first_cl_some(h, 0, cl_i as int);
    }

    // Skip optional whitespace after the colon, then take the decimal digits.
    let mut j: usize = cl_i + 15;
    while j < end && (buf[j] == 32 || buf[j] == 9)
        invariant
            b == buf@,
            n == b.len(),
            end <= n,
            h == b.subrange(0, end as int),
            cl_i + 15 <= j <= end,
            ws_end(h, cl_i + 15) == ws_end(h, j as int),
        decreases end - j,
    {
        proof {
            assert(is_ws(h[j as int]));
        }
        j += 1;
    }
    proof {
        assert(ws_end(h, j as int) == j);
    }
    let mut k: usize = j;
    while k < end && buf[k] >= 48 && buf[k] <= 57
        invariant
            b == buf@,
            n == b.len(),
            end <= n,
            h == b.subrange(0, end as int),
            j <= k <= end,
            digits_end(h, j as int) == digits_end(h, k as int),
            forall|x: int| j <= x < k ==> is_digit(h[x]),
        decreases end - k,
    {
        proof {
            assert(is_digit(h[k as int]));
        }
        k += 1;
    }
    proof {
        assert(digits_end(h, k as int) == k);
    }
    if k == j {
        return FrameStep::Bad(FrameError::LengthFormat);
    }

    // Parse the digits, watching for overflow of `usize`.
    let ghost ds = h.subrange(j as int, k as int);
    proof {
        assert(forall|x: int| 0 <= x < ds.len() ==> is_digit(ds[x]));
    }
    let mut acc: usize = 0;
    let mut idx: usize = j;
    let mut overflow = false;
    while idx < k
        invariant
            b == buf@,
            n == b.len(),
            end <= n,
            h == b.subrange(0, end as int),
            j <= idx <= k,
            k <= end,
            ds == h.subrange(j as int, k as int),
            forall|x: int| 0 <= x < ds.len() ==> is_digit(ds[x]),
            !overflow ==> acc == val_of(ds.take(idx - j)),
            overflow ==> val_of(ds) > usize::MAX,
        decreases k - idx,
    {
        proof {
            assert(forall|x: int| 0 <= x < end ==> #[trigger] h[x] == b[x]);
            assert(ds[idx - j] == h[idx as int]);
            assert(is_digit(b[idx as int]));
        }
        let d: u8 = buf[idx] - 48;
        if !overflow {
            if acc > usize::MAX / 10 || (acc == usize::MAX / 10 && d as usize > usize::MAX % 10) {
                proof {
                    lemma_val_of_take_step(ds, idx - j);
                    assert(val_of(ds.take(idx - j + 1)) > usize::MAX) by {
                        assert(usize::MAX == 10 * (usize::MAX / 10) + usize::MAX % 10);
                    }
                    lemma_val_of_mono(ds, idx - j + 1);
                }
                overflow = true;
            } else {
                proof {
                    lemma_val_of_take_step(ds, idx - j);
                }
                acc = acc * 10 + d as usize;
            }
        }
        idx += 1;
    }
    if overflow {
        return FrameStep::Bad(FrameError::LengthFormat);
    }
    proof {
        assert(ds.take(k - j) =~= ds);
        assert(cl_value(h, cl_i as int) == Some(acc as nat));
    }

    // The body: present in whole, or not yet.
    let l = acc;
    if l > n - end {
        return FrameStep::NeedData;
    }
    let body = vstd::slice::slice_to_vec(vstd::slice::slice_subrange(buf.as_slice(), end, end + l));
    let rest = vstd::slice::slice_to_vec(vstd::slice::slice_subrange(buf.as_slice(), end + l, n));
    *buf = rest;
    FrameStep::Item(body)
}

/// The header block that `frame_bytes` puts before a body of length `n`.
pub open spec fn hdr_of(n: nat) -> Seq<u8> {
    cl_prefix() + seq![32u8] + dec_of(n) + seq![13u8, 10u8, 13u8, 10u8]
}

proof fn lemma_dec_of(n: nat)
    ensures
        dec_of(n).len() >= 1,
        forall|x: int| 0 <= x < dec_of(n).len() ==> is_digit(#[trigger] dec_of(n)[x]),
        val_of(dec_of(n)) == n,
    decreases n,
{
    if n < 10 {
        let ds = dec_of(n);
        assert(ds.len() == 1);
        assert(ds.drop_last().len() == 0);
        assert(val_of(ds.drop_last()) == 0);
        assert(ds.last() == (48 + n) as u8);
        assert((48 + n) as u8 - 48 == n);
        assert(val_of(ds) == n);
    } else {
        lemma_dec_of(n / 10);
        assert(dec_of(n).drop_last() =~= dec_of(n / 10));
        assert(dec_of(n).last() == (48 + n % 10) as u8);
        assert((48 + n % 10) as u8 - 48 == n % 10);
        assert(val_of(dec_of(n)) == (n / 10) * 10 + n % 10);
        assert(n / 10 * 10 + n % 10 == n) by (nonlinear_arith);
    }
}

proof fn lemma_prefix_bytes()
    ensures
        forall|x: int|
            0 <= x < 15 ==> #[trigger] cl_prefix()[x] != 10 && cl_prefix()[x] != 13,
{
    assert(cl_prefix()[0] == 67);
    assert(cl_prefix()[1] == 111);
    assert(cl_prefix()[2] == 110);
    assert(cl_prefix()[3] == 116);
    assert(cl_prefix()[4] == 101);
    assert(cl_prefix()[5] == 110);
    assert(cl_prefix()[6] == 116);
    assert(cl_prefix()[7] == 45);
    assert(cl_prefix()[8] == 76);
    assert(cl_prefix()[9] == 101);
    assert(cl_prefix()[10] == 110);
    assert(cl_prefix()[11] == 103);
    assert(cl_prefix()[12] == 116);
    assert(cl_prefix()[13] == 104);
    assert(cl_prefix()[14] == 58);
}

proof fn lemma_hdr_layout(n: nat)
    ensures
        ({
            let hh = hdr_of(n);
            let dl = dec_of(n).len() as int;
            &&& hh.len() == 20 + dl
            &&& dl >= 1
            &&& forall|x: int| 0 <= x < 15 ==> #[trigger] hh[x] == cl_prefix()[x]
            &&& hh[15] == 32
            &&& forall|x: int| 16 <= x < 16 + dl ==> is_digit(#[trigger] hh[x])
            &&& hh.subrange(16, 16 + dl) == dec_of(n)
            &&& hh[16 + dl] == 13
            &&& hh[17 + dl] == 10
            &&& hh[18 + dl] == 13
            &&& hh[19 + dl] == 10
        }),
{
    lemma_dec_of(n);
    let hh = hdr_of(n);
    let dl = dec_of(n).len() as int;
    assert(hh.subrange(16, 16 + dl) =~= dec_of(n));
    assert(forall|x: int| 16 <= x < 16 + dl ==> #[trigger] hh[x] == dec_of(n)[x - 16]);
}

proof fn lemma_hdr_no_early_term(n: nat)
    ensures
        forall|e: int|
            0 <= e < hdr_of(n).len() ==> !#[trigger] is_term_at(hdr_of(n), e),
{
    lemma_hdr_layout(n);
    lemma_prefix_bytes();
    let hh = hdr_of(n);
    let dl = dec_of(n).len() as int;
    assert forall|e: int| 0 <= e < hh.len() implies !#[trigger] is_term_at(hh, e) by {
        if is_term_at(hh, e) {
            assert(hh[e - 1] == 10);
            assert(e - 1 == 17 + dl);
            assert(hh[e - 2] == 13);
            assert(e >= 4 && hh[e - 3] == 10);
            assert(16 <= e - 3 < 16 + dl);
            assert(is_digit(hh[e - 3]));
        }
    }
}

/// Every buffer that starts with an encoded header parses back to exactly the
/// length that was written.
proof fn lemma_hdr_decode(n: nat, t: Seq<u8>)
    requires
        n <= usize::MAX,
    ensures
        ({
            let g = hdr_of(n) + t;
            let hl = hdr_of(n).len() as int;
            &&& hdr_end(g) == Some(hl)
            &&& cl_start(g.subrange(0, hl)) == Some(0int)
            &&& cl_value(g.subrange(0, hl), 0) == Some(n)
        }),
{
    lemma_hdr_layout(n);
    lemma_hdr_no_early_term(n);
    lemma_dec_of(n);
    let hh = hdr_of(n);
    let g = hh + t;
    let hl = hh.len() as int;
    let dl = dec_of(n).len() as int;
    assert(forall|x: int| 0 <= x < hl ==> #[trigger] g[x] == hh[x]);
    assert(is_term_at(g, hl));
    assert forall|e: int| 0 <= e < hl implies !#[trigger] is_term_at(g, e) by {
        if is_term_at(g, e) {
            assert(g[e - 1] == hh[e - 1] && g[e - 2] == hh[e - 2]);
            assert(is_term_at(hh, e));
        }
    }
    lemma_first_term_some(g, 0, hl);
    let h = g.subrange(0, hl);
    assert(h =~= hh);
    // The `Content-Length:` line stands at the very start.
    assert(cl_match_at(h, 0));
    assert(is_cl_line_at(h, 0));
    assert(first_cl_from(h, 0) == Some(0int));
    // After the colon: one space, then the digits, then the terminator.
    assert(is_ws(h[15]));
    assert(!is_ws(h[16]));
    assert(ws_end(h, 16) == 16);
    assert(ws_end(h, 15) == 16);
    lemma_digits_end_scan(h, 16, 16 + dl);
    assert(h.subrange(16, 16 + dl) == dec_of(n));
    assert(val_of(h.subrange(16, 16 + dl)) == n);
}

proof fn lemma_digits_end_scan(h: Seq<u8>, a: int, c: int)
    requires
        0 <= a <= c <= h.len(),
        forall|x: int| a <= x < c ==> is_digit(#[trigger] h[x]),
        c == h.len() || !is_digit(h[c]),
    ensures
        digits_end(h, a) == c,
    decreases c - a,
{
    if a < c {
        lemma_digits_end_scan(h, a + 1, c);
    }
}

/// Round-trip at the frame level: a buffer that holds one encoded frame and
/// anything after it decodes to exactly that body, leaving exactly the rest.
pub proof fn lemma_frame_round_trip(body: Seq<u8>, rest: Seq<u8>)
    requires
        body.len() <= usize::MAX,
    ensures
        decode_spec(frame_bytes(body) + rest) == (SpecStep::Complete { body, rest }),
{
    lemma_hdr_decode(body.len(), body + rest);
    lemma_hdr_layout(body.len());
    let hh = hdr_of(body.len());
    let hl = hh.len() as int;
    let g = frame_bytes(body) + rest;
    assert(g =~= hh + (body + rest));
    assert(g.subrange(hl, hl + body.len() as int) =~= body);
    assert(g.subrange(hl + body.len() as int, g.len() as int) =~= rest);
}

/// Incremental decode: any strict prefix of an encoded frame makes the
/// decoder report that it needs more data, consuming nothing.
pub proof fn lemma_frame_incremental(body: Seq<u8>, i: int)
    requires
        body.len() <= usize::MAX,
        0 <= i < frame_bytes(body).len(),
    ensures
        decode_spec(frame_bytes(body).take(i)) is Incomplete,
{
    lemma_hdr_layout(body.len());
    lemma_hdr_no_early_term(body.len());
    let hh = hdr_of(body.len());
    let hl = hh.len() as int;
    let f = frame_bytes(body);
    assert(f =~= hh + body);
    let p = f.take(i);
    assert(forall|x: int| 0 <= x < i ==> #[trigger] p[x] == f[x]);
    if i < hl {
        assert forall|e: int| 0 <= e <= p.len() implies !#[trigger] is_term_at(p, e) by {
            if is_term_at(p, e) {
                assert(p[e - 1] == f[e - 1] && p[e - 2] == f[e - 2]);
                assert(forall|x: int| 0 <= x < hl ==> #[trigger] f[x] == hh[x]);
                assert(is_term_at(hh, e));
            }
        }
        lemma_first_term_none(p, 0);
    } else {
        assert(p =~= hh + body.take(i - hl));
        lemma_hdr_decode(body.len(), body.take(i - hl));
        assert(p.len() < hl + body.len());
    }
}

proof fn lemma_first_term_is_term(b: Seq<u8>, s: int)
    requires
        0 <= s,
    ensures
        first_term_from(b, s) matches Some(e) ==> s <= e <= b.len() && is_term_at(b, e),
    decreases b.len() + 1 - s,
{
    if s <= b.len() && !is_term_at(b, s) {
        lemma_first_term_is_term(b, s + 1);
    }
}

/// A completed decoding step always consumes at least the terminator.
pub proof fn lemma_decode_consumes(b: Seq<u8>)
    ensures
        decode_spec(b) matches SpecStep::Complete { rest, .. } ==> rest.len() < b.len(),
{
    lemma_first_term_is_term(b, 0);
}

/// What repeated decoding steps yield on given buffer contents: the bodies of
/// all whole frames at its front, in order; the bytes left after them; and the
/// step (incomplete or malformed) at which draining stopped.
pub ghost struct DrainOut {
    pub bodies: Seq<Seq<u8>>,
    pub rest: Seq<u8>,
    pub stop: SpecStep,
}

/// Repeated decoding as a pure function of the buffer contents.
pub open spec fn drain(b: Seq<u8>) -> DrainOut
    decreases b.len(),
    via drain_dec
{
    match decode_spec(b) {
        SpecStep::Complete { body, rest } => {
            let d = drain(rest);
            DrainOut { bodies: seq![body] + d.bodies, rest: d.rest, stop: d.stop }
        },
        s => DrainOut { bodies: seq![], rest: b, stop: s },
    }
}

#[via_fn]
proof fn drain_dec(b: Seq<u8>) {
    lemma_decode_consumes(b);
}

/// A sequence of bodies, each wrapped in its frame, laid end to end.
pub open spec fn concat_frames(bodies: Seq<Seq<u8>>) -> Seq<u8>
    decreases bodies.len(),
{
    if bodies.len() == 0 {
        seq![]
    } else {
        frame_bytes(bodies.first()) + concat_frames(bodies.drop_first())
    }
}

/// Order preservation: draining a buffer of whole encoded frames yields
/// exactly the bodies that were encoded, in their original order, with no
/// byte left over and no error.
pub proof fn lemma_drain_concat(bodies: Seq<Seq<u8>>)
    requires
        forall|i: int| 0 <= i < bodies.len() ==> (#[trigger] bodies[i]).len() <= usize::MAX,
    ensures
        ({
            let d = drain(concat_frames(bodies));
            &&& d.bodies == bodies
            &&& d.rest.len() == 0
            &&& d.stop is Incomplete
        }),
    decreases bodies.len(),
{
    if bodies.len() == 0 {
        let e = concat_frames(bodies);
        assert(e.len() == 0);
        lemma_first_term_none(e, 0);
        assert(drain(e).bodies =~= bodies);
    } else {
        let tail = bodies.drop_first();
        assert(bodies[0] == bodies.first());
        lemma_frame_round_trip(bodies.first(), concat_frames(tail));
        assert(forall|i: int| 0 <= i < tail.len() ==> #[trigger] tail[i] == bodies[i + 1]);
        lemma_drain_concat(tail);
        assert(seq![bodies.first()] + tail =~= bodies);
    }
}

/// Builds the frame around a body, exactly as `frame_bytes` states.
pub fn encode_frame(body: &Vec<u8>) -> (r: Vec<u8>)
    ensures
        r@ == frame_bytes(body@),
{
    let mut r: Vec<u8> = Vec::new();
    r.push(67);
    r.push(111);
    r.push(110);
    r.push(116);
    r.push(101);
    r.push(110);
    r.push(116);
    r.push(45);
    r.push(76);
    r.push(101);
    r.push(110);
    r.push(103);
    r.push(116);
    r.push(104);
    r.push(58);
    r.push(32);
    let mut digs = dec_digits(body.len());
    r.append(&mut digs);
    r.push(13);
    r.push(10);
    r.push(13);
    r.push(10);
    let mut b = Vec::new();
    b.extend_from_slice(body.as_slice());
    r.append(&mut b);
    proof {
        assert(r@ =~= frame_bytes(body@));
    }
    r
}

} // verus!
