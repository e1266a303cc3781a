//! The export stage: result records, their text encodings, and the
//! checkpoint cadence.

use vstd::prelude::*;
use crate::utils::{bbox_wf, boxes_wf, Bbox, FileItem};

verus! {

/// One output record: a frame's detections, or a file's failure.
#[derive(Clone, Debug)]
pub struct ExportFrame {
    pub file: FileItem,
    pub shoot_time: Option<String>,
    pub frame_index: usize,
    pub total_frames: usize,
    pub is_iframe: bool,
    pub bboxes: Option<Vec<Bbox>>,
    pub label: Option<String>,
    pub error: Option<String>,
}

/// A record carries either detections (with a label) or an error message,
/// never both; its boxes, if any, are well-formed.
pub open spec fn export_frame_wf(e: ExportFrame) -> bool {
    &&& (e.bboxes is Some) <==> (e.error is None)
    &&& (e.bboxes is Some) ==> boxes_wf(e.bboxes->Some_0@)
    &&& (e.bboxes is Some) <==> (e.label is Some)
}

/// The shared checkpoint counter: every exporter counts each record it
/// receives, and every `interval`-th record triggers a full write of the
/// result buffer to disk.
pub struct CheckpointTicker {
    pub count: usize,
    pub interval: usize,
}

impl CheckpointTicker {
    /// The cadence is at least one.
    pub open spec fn wf(&self) -> bool {
        self.interval >= 1
    }

    /// A fresh counter for a run with the given checkpoint cadence.
    pub fn new(interval: usize) -> (r: CheckpointTicker)
        requires
            interval >= 1,
        ensures
            r.wf(),
            r.count == 0,
            r.interval == interval,
    {
        CheckpointTicker { count: 0, interval }
    }

    /// Count one received record; true exactly when this record lands on the
    /// checkpoint cadence, so the buffer must be written out.
    pub fn tick(&mut self) -> (write: bool)
        requires
            old(self).wf(),
            old(self).count < usize::MAX,
        ensures
            final(self).wf(),
            final(self).interval == old(self).interval,
            final(self).count == old(self).count + 1,
            write == (final(self).count as int % final(self).interval as int == 0),
    {
        self.count = self.count + 1;
        self.count % self.interval == 0
    }
}

/// Checkpoint liveness: within any window of `interval` consecutive record
/// counts, one lands on the cadence — so a run longer than `interval`
/// records has an on-disk artefact.
pub proof fn lemma_checkpoint_liveness(start: int, interval: int)
    requires
        interval >= 1,
        start >= 0,
    ensures
        exists|n: int| start < n <= start + interval && #[trigger] (n % interval) == 0,
{
    vstd::arithmetic::div_mod::lemma_fundamental_div_mod(start, interval);
    vstd::arithmetic::div_mod::lemma_mod_division_less_than_divisor(start, interval);
    let q = start / interval;
    let n = (q + 1) * interval;
    assert((q + 1) * interval == q * interval + interval) by (nonlinear_arith);
    assert(interval * q == q * interval) by (nonlinear_arith);
    vstd::arithmetic::div_mod::lemma_mod_multiples_basic(q + 1, interval);
    assert((q + 1) * interval == interval * (q + 1)) by (nonlinear_arith);
    assert(n % interval == 0);
    assert(start < n <= start + interval);
}

/// The decimal digit character for a value below ten.
pub open spec fn spec_digit(d: int) -> char {
    if d == 0 {
        '0'
    } else if d == 1 {
        '1'
    } else if d == 2 {
        '2'
    } else if d == 3 {
        '3'
    } else if d == 4 {
        '4'
    } else if d == 5 {
        '5'
    } else if d == 6 {
        '6'
    } else if d == 7 {
        '7'
    } else if d == 8 {
        '8'
    } else {
        '9'
    }
}

/// The value of a decimal digit character, or ten for any other character.
pub open spec fn spec_digit_val(c: char) -> int {
    if c == '0' {
        0
    } else if c == '1' {
        1
    } else if c == '2' {
        2
    } else if c == '3' {
        3
    } else if c == '4' {
        4
    } else if c == '5' {
        5
    } else if c == '6' {
        6
    } else if c == '7' {
        7
    } else if c == '8' {
        8
    } else if c == '9' {
        9
    } else {
        10
    }
}

/// The decimal rendering of a nonnegative value, without leading zeros.
pub open spec fn spec_dec(n: int) -> Seq<char>
    decreases n,
{
    if n < 10 {
        seq![spec_digit(n)]
    } else {
        spec_dec(n / 10).push(spec_digit(n % 10))
    }
}

/// The value read off a run of decimal digit characters; nothing for an
/// empty run or a stray character.
pub open spec fn spec_digits_val(s: Seq<char>) -> Option<int>
    decreases s.len(),
{
    if s.len() == 0 {
        None
    } else if s.len() == 1 {
        if spec_digit_val(s[0]) < 10 {
            Some(spec_digit_val(s[0]))
        } else {
            None
        }
    } else {
        match spec_digits_val(s.drop_last()) {
            Some(v) => {
                if spec_digit_val(s.last()) < 10 {
                    Some(v * 10 + spec_digit_val(s.last()))
                } else {
                    None
                }
            },
            None => None,
        }
    }
}

/// Decimal round trip: reading back the rendering of a value gives the
/// value.
pub proof fn lemma_dec_roundtrip(n: int)
    requires
        n >= 0,
    ensures
        spec_digits_val(spec_dec(n)) == Some(n),
    decreases n,
{
    if n < 10 {
    } else {
        lemma_dec_roundtrip(n / 10);
        vstd::arithmetic::div_mod::lemma_fundamental_div_mod(n, 10);
        vstd::arithmetic::div_mod::lemma_mod_division_less_than_divisor(n, 10);
        assert(spec_dec(n).drop_last() =~= spec_dec(n / 10));
        assert(spec_digit_val(spec_digit(n % 10)) == n % 10);
        assert((n / 10) * 10 == 10 * (n / 10)) by (nonlinear_arith);
    }
}

/// A run of digits reads back as a nonnegative value, if it reads at all.
pub proof fn lemma_digits_val_nonneg(s: Seq<char>)
    ensures
        match spec_digits_val(s) {
            Some(v) => v >= 0,
            None => true,
        },
    decreases s.len(),
{
    if s.len() > 1 {
        lemma_digits_val_nonneg(s.drop_last());
        match spec_digits_val(s.drop_last()) {
            Some(v) => {
                assert(v * 10 >= 0) by (nonlinear_arith)
                    requires
                        v >= 0,
                ;
            },
            None => {},
        }
    }
}

/// A small table of powers of ten, for the fraction-digit loops.
pub open spec fn spec_p10(j: int) -> int {
    if j <= 0 {
        1
    } else if j == 1 {
        10
    } else if j == 2 {
        100
    } else if j == 3 {
        1000
    } else if j == 4 {
        10000
    } else if j == 5 {
        100000
    } else {
        1000000
    }
}

/// The digit character for a value below ten.
pub fn digit_char(d: u64) -> (r: char)
    requires
        d < 10,
    ensures
        r == spec_digit(d as int),
{
    if d == 0 {
        '0'
    } else if d == 1 {
        '1'
    } else if d == 2 {
        '2'
    } else if d == 3 {
        '3'
    } else if d == 4 {
        '4'
    } else if d == 5 {
        '5'
    } else if d == 6 {
        '6'
    } else if d == 7 {
        '7'
    } else if d == 8 {
        '8'
    } else {
        '9'
    }
}

/// The value of a digit character, or ten for any other character.
pub fn digit_val(c: char) -> (r: u64)
    ensures
        r as int == spec_digit_val(c),
{
    if c == '0' {
        0
    } else if c == '1' {
        1
    } else if c == '2' {
        2
    } else if c == '3' {
        3
    } else if c == '4' {
        4
    } else if c == '5' {
        5
    } else if c == '6' {
        6
    } else if c == '7' {
        7
    } else if c == '8' {
        8
    } else if c == '9' {
        9
    } else {
        10
    }
}

/// Render a value in decimal.
pub fn u64_to_chars(n: u64) -> (r: Vec<char>)
    ensures
        r@ == spec_dec(n as int),
    decreases n,
{
    if n < 10 {
        let mut r: Vec<char> = Vec::new();
        r.push(digit_char(n));
        proof {
            assert(r@ =~= seq![spec_digit(n as int)]);
        }
        r
    } else {
        let mut r = u64_to_chars(n / 10);
        r.push(digit_char(n % 10));
        r
    }
}

/// Read a run of decimal digit characters back as a value; nothing when the
/// run is empty, holds a stray character, or exceeds the range.
pub fn chars_to_u64(s: &Vec<char>) -> (r: Option<u64>)
    ensures
        match spec_digits_val(s@) {
            Some(v) => {
                if v <= u64::MAX {
                    r == Some(v as u64)
                } else {
                    r is None
                }
            },
            None => r is None,
        },
{
    if s.len() == 0 {
        return None;
    }
    let mut acc: u64 = 0;
    let mut i: usize = 0;
    while i < s.len()
        invariant
            i <= s@.len(),
            s@.len() >= 1,
            i >= 1 ==> spec_digits_val(s@.subrange(0, i as int)) == Some(acc as int),
            i == 0 ==> acc == 0,
        decreases s@.len() - i,
    {
        proof {
            assert(s@.subrange(0, i + 1).drop_last() =~= s@.subrange(0, i as int));
            assert(s@.subrange(0, i + 1).last() == s@[i as int]);
        }
        let d = digit_val(s[i]);
        if d >= 10 {
            proof {
                lemma_digits_prefix_none(s@, i + 1);
            }
            return None;
        }
        if acc > (u64::MAX - d) / 10 {
            proof {
                assert(spec_digits_val(s@.subrange(0, i + 1)) matches Some(v) && v > u64::MAX) by {
                    if i == 0 {
                        assert(s@.subrange(0, 1).len() == 1);
                    } else {
                        assert(acc * 10 + d > u64::MAX) by (nonlinear_arith)
                            requires
                                acc > (u64::MAX - d) / 10,
                                d < 10,
                                (u64::MAX - d) / 10 == ((u64::MAX - d) as int) / 10,
                                0 <= d,
                            ;
                    }
                }
                lemma_digits_prefix_big(s@, i + 1);
            }
            return None;
        }
        acc = acc * 10 + d;
        i = i + 1;
    }
    proof {
        assert(s@.subrange(0, s@.len() as int) =~= s@);
    }
    Some(acc)
}

/// A run of digits with a stray character in some prefix reads back as
/// nothing.
proof fn lemma_digits_prefix_none(s: Seq<char>, i: int)
    requires
        1 <= i <= s.len(),
        spec_digits_val(s.subrange(0, i)) is None,
    ensures
        spec_digits_val(s) is None,
    decreases s.len() - i,
{
    if i == s.len() {
        assert(s.subrange(0, i) =~= s);
    } else {
        assert(s.subrange(0, i + 1).drop_last() =~= s.subrange(0, i));
        lemma_digits_prefix_none(s, i + 1);
    }
}

/// Append a copy of `src` to `dst`.
pub fn push_chars(dst: &mut Vec<char>, src: &Vec<char>)
    ensures
        final(dst)@ == old(dst)@ + src@,
{
    let mut i: usize = 0;
    proof {
        assert(dst@ =~= dst@ + src@.subrange(0, 0));
    }
    while i < src.len()
        invariant
            i <= src@.len(),
            dst@ == old(dst)@ + src@.subrange(0, i as int),
        decreases src@.len() - i,
    {
        dst.push(src[i]);
        proof {
            assert(old(dst)@ + src@.subrange(0, i + 1) =~= (old(dst)@ + src@.subrange(
                0,
                i as int,
            )).push(src@[i as int]));
        }
        i = i + 1;
    }
    proof {
        assert(src@.subrange(0, src@.len() as int) =~= src@);
    }
}

/// Append the characters of a string slice to `dst`.
pub fn push_str_chars(dst: &mut Vec<char>, s: &str)
    ensures
        final(dst)@ == old(dst)@ + s@,
{
    let len = s.unicode_len();
    let mut i: usize = 0;
    proof {
        assert(dst@ =~= dst@ + s@.subrange(0, 0));
    }
    while i < len
        invariant
            i <= len,
            len == s@.len(),
            dst@ == old(dst)@ + s@.subrange(0, i as int),
        decreases len - i,
    {
        dst.push(s.get_char(i));
        proof {
            assert(old(dst)@ + s@.subrange(0, i + 1) =~= (old(dst)@ + s@.subrange(0, i as int)).push(
                s@[i as int],
            ));
        }
        i = i + 1;
    }
    proof {
        assert(s@.subrange(0, s@.len() as int) =~= s@);
    }
}

/// Relies on `String: FromIterator<char>`: collecting characters yields the
/// string of exactly those characters, in order.
#[verifier::external_body]
pub fn chars_to_string(v: &Vec<char>) -> (r: String)
    ensures
        r@ == v@,
{
    v.iter().collect()
}

/// A run of digits whose prefix already reads past the range reads past the
/// range as a whole, if it reads at all.
proof fn lemma_digits_prefix_big(s: Seq<char>, i: int)
    requires
        1 <= i <= s.len(),
        spec_digits_val(s.subrange(0, i)) matches Some(v) && v > u64::MAX,
    ensures
        match spec_digits_val(s) {
            Some(v) => v > u64::MAX,
            None => true,
        },
    decreases s.len() - i,
{
    if i == s.len() {
        assert(s.subrange(0, i) =~= s);
    } else {
        assert(s.subrange(0, i + 1).drop_last() =~= s.subrange(0, i));
        let v = spec_digits_val(s.subrange(0, i))->Some_0;
        if spec_digit_val(s.subrange(0, i + 1).last()) < 10 {
            assert(v * 10 >= v) by (nonlinear_arith)
                requires
                    v >= 0,
            ;
            lemma_digits_prefix_big(s, i + 1);
        } else {
            lemma_digits_prefix_none(s, i + 1);
        }
    }
}

/// The low `w` decimal digits of a value, zero-padded to exactly `w`
/// characters.
pub open spec fn spec_pad_digits(v: int, w: nat) -> Seq<char>
    decreases w,
{
    if w == 0 {
        Seq::empty()
    } else {
        spec_pad_digits(v / 10, (w - 1) as nat).push(spec_digit(v % 10))
    }
}

/// Render the low `w` decimal digits of a value, zero-padded.
pub fn pad_digits(v: u64, w: usize) -> (r: Vec<char>)
    ensures
        r@ == spec_pad_digits(v as int, w as nat),
    decreases w,
{
    if w == 0 {
        let r: Vec<char> = Vec::new();
        proof {
            assert(r@ =~= Seq::<char>::empty());
        }
        r
    } else {
        let mut r = pad_digits(v / 10, w - 1);
        r.push(digit_char(v % 10));
        r
    }
}

/// A coordinate in thousandths of a pixel rendered as a decimal number with
/// three places: the whole pixels, a dot, and the thousandths.
pub open spec fn spec_milli_chars(q: int) -> Seq<char> {
    spec_dec(q / 1000) + seq!['.'] + spec_pad_digits(q % 1000, 3)
}

/// Render a coordinate given in thousandths of a pixel.
pub fn milli_chars(q: i64) -> (r: Vec<char>)
    requires
        q >= 0,
    ensures
        r@ == spec_milli_chars(q as int),
{
    let mut r = u64_to_chars((q as u64) / 1000);
    r.push('.');
    let frac = pad_digits((q as u64) % 1000, 3);
    push_chars(&mut r, &frac);
    proof {
        assert(r@ =~= spec_milli_chars(q as int));
    }
    r
}

/// A score in millionths rendered as a decimal number with six places.
pub open spec fn spec_micro_chars(v: int) -> Seq<char> {
    spec_dec(v / 1000000) + seq!['.'] + spec_pad_digits(v % 1000000, 6)
}

/// Render a score given in millionths.
pub fn micro_chars(v: u32) -> (r: Vec<char>)
    ensures
        r@ == spec_micro_chars(v as int),
{
    let mut r = u64_to_chars((v as u64) / 1000000);
    r.push('.');
    let frac = pad_digits((v as u64) % 1000000, 6);
    push_chars(&mut r, &frac);
    proof {
        assert(r@ =~= spec_micro_chars(v as int));
    }
    r
}

/// The text with each double quote doubled, as the CSV quoting rule asks.
pub open spec fn spec_escape_quotes(s: Seq<char>) -> Seq<char>
    decreases s.len(),
{
    if s.len() == 0 {
        Seq::empty()
    } else {
        spec_escape_quotes(s.drop_last()) + (if s.last() == '"' {
            seq!['"', '"']
        } else {
            seq![s.last()]
        })
    }
}

/// A CSV field wrapped in double quotes, inner quotes doubled.
pub open spec fn spec_quote_field(s: Seq<char>) -> Seq<char> {
    seq!['"'] + spec_escape_quotes(s) + seq!['"']
}

/// Wrap a field's characters in CSV quotes, doubling inner quotes.
pub fn quote_field(s: &Vec<char>) -> (r: Vec<char>)
    ensures
        r@ == spec_quote_field(s@),
{
    let mut r: Vec<char> = Vec::new();
    r.push('"');
    let mut i: usize = 0;
    proof {
        assert(s@.subrange(0, 0) =~= Seq::<char>::empty());
        assert(r@ =~= seq!['"'] + spec_escape_quotes(s@.subrange(0, 0)));
    }
    while i < s.len()
        invariant
            i <= s@.len(),
            r@ == seq!['"'] + spec_escape_quotes(s@.subrange(0, i as int)),
        decreases s@.len() - i,
    {
        proof {
            assert(s@.subrange(0, i + 1).drop_last() =~= s@.subrange(0, i as int));
            assert(s@.subrange(0, i + 1).last() == s@[i as int]);
        }
        let c = s[i];
        let ghost r_old = r@;
        if c == '"' {
            r.push('"');
            r.push('"');
            proof {
                assert(r@ =~= r_old + seq!['"', '"']);
            }
        } else {
            r.push(c);
            proof {
                assert(r@ =~= r_old + seq![s@[i as int]]);
            }
        }
        proof {
            assert(r@ =~= seq!['"'] + spec_escape_quotes(s@.subrange(0, i + 1)));
        }
        i = i + 1;
    }
    r.push('"');
    proof {
        assert(s@.subrange(0, s@.len() as int) =~= s@);
        assert(r@ =~= spec_quote_field(s@));
    }
    r
}

/// One detection box rendered as a JSON object, fields in fixed order.
pub open spec fn spec_bbox_json(b: Bbox) -> Seq<char> {
    "{\"x1\":"@ + spec_milli_chars(b.x1 as int) + ",\"y1\":"@ + spec_milli_chars(b.y1 as int)
        + ",\"x2\":"@ + spec_milli_chars(b.x2 as int) + ",\"y2\":"@ + spec_milli_chars(b.y2 as int)
        + ",\"score\":"@ + spec_micro_chars(b.score as int) + ",\"class\":"@ + spec_dec(
        b.class as int,
    ) + "}"@
}

/// Render one detection box as JSON.
pub fn bbox_json_chars(b: &Bbox) -> (r: Vec<char>)
    requires
        b.x1 >= 0,
        b.y1 >= 0,
        b.x2 >= 0,
        b.y2 >= 0,
    ensures
        r@ == spec_bbox_json(*b),
{
    let mut r: Vec<char> = Vec::new();
    push_str_chars(&mut r, "{\"x1\":");
    let x1 = milli_chars(b.x1);
    push_chars(&mut r, &x1);
    push_str_chars(&mut r, ",\"y1\":");
    let y1 = milli_chars(b.y1);
    push_chars(&mut r, &y1);
    push_str_chars(&mut r, ",\"x2\":");
    let x2 = milli_chars(b.x2);
    push_chars(&mut r, &x2);
    push_str_chars(&mut r, ",\"y2\":");
    let y2 = milli_chars(b.y2);
    push_chars(&mut r, &y2);
    push_str_chars(&mut r, ",\"score\":");
    let sc = micro_chars(b.score);
    push_chars(&mut r, &sc);
    push_str_chars(&mut r, ",\"class\":");
    let cl = u64_to_chars(b.class as u64);
    push_chars(&mut r, &cl);
    push_str_chars(&mut r, "}");
    proof {
        assert(r@ =~= spec_bbox_json(*b));
    }
    r
}

/// A run of boxes rendered as a JSON array.
pub open spec fn spec_bboxes_json(bs: Seq<Bbox>) -> Seq<char> {
    "["@ + spec_join_bboxes(bs) + "]"@
}

/// The boxes' JSON objects joined by commas.
pub open spec fn spec_join_bboxes(bs: Seq<Bbox>) -> Seq<char>
    decreases bs.len(),
{
    if bs.len() == 0 {
        Seq::empty()
    } else if bs.len() == 1 {
        spec_bbox_json(bs[0])
    } else {
        spec_join_bboxes(bs.drop_last()) + seq![','] + spec_bbox_json(bs.last())
    }
}

/// The `bboxes` CSV field before quoting: the JSON array, or `null` for a
/// record that carries an error instead.
pub open spec fn spec_bboxes_field(ob: Option<Vec<Bbox>>) -> Seq<char> {
    match ob {
        Some(bs) => spec_bboxes_json(bs@),
        None => "null"@,
    }
}

/// Render the boxes of a record as the unquoted `bboxes` field.
pub fn bboxes_field_chars(ob: &Option<Vec<Bbox>>) -> (r: Vec<char>)
    requires
        match ob {
            Some(bs) => boxes_wf(bs@),
            None => true,
        },
    ensures
        r@ == spec_bboxes_field(*ob),
{
    match ob {
        None => {
            let mut r: Vec<char> = Vec::new();
            push_str_chars(&mut r, "null");
            proof {
                assert(r@ =~= "null"@);
            }
            r
        },
        Some(bs) => {
            let mut r: Vec<char> = Vec::new();
            r.push('[');
            let mut i: usize = 0;
            proof {
                reveal_strlit("[");
                reveal_strlit("]");
                assert("["@ =~= seq!['[']);
                assert("]"@ =~= seq![']']);
                assert(bs@.subrange(0, 0) =~= Seq::<Bbox>::empty());
                assert(r@ =~= "["@ + spec_join_bboxes(bs@.subrange(0, 0)));
            }
            while i < bs.len()
                invariant
                    i <= bs@.len(),
                    boxes_wf(bs@),
                    r@ == "["@ + spec_join_bboxes(bs@.subrange(0, i as int)),
                decreases bs@.len() - i,
            {
                proof {
                    assert(bs@.subrange(0, i + 1).drop_last() =~= bs@.subrange(0, i as int));
                    assert(bs@.subrange(0, i + 1).last() == bs@[i as int]);
                    assert(bbox_wf(bs@[i as int]));
                }
                let ghost r_old = r@;
                if i > 0 {
                    r.push(',');
                }
                let bj = bbox_json_chars(&bs[i]);
                push_chars(&mut r, &bj);
                proof {
                    if i == 0 {
                        assert(bs@.subrange(0, 1).len() == 1);
                        assert(r@ =~= "["@ + spec_join_bboxes(bs@.subrange(0, 1)));
                    } else {
                        assert(r@ =~= "["@ + spec_join_bboxes(bs@.subrange(0, i + 1)));
                    }
                }
                i = i + 1;
            }
            r.push(']');
            proof {
                reveal_strlit("[");
                reveal_strlit("]");
                assert("]"@ =~= seq![']']);
                assert(bs@.subrange(0, bs@.len() as int) =~= bs@);
                assert(r@ =~= spec_bboxes_field(Some(*bs)));
            }
            r
        },
    }
}

/// An optional text field, with `null` standing in for nothing.
pub open spec fn spec_opt_text(o: Option<String>) -> Seq<char> {
    match o {
        Some(s) => s@,
        None => "null"@,
    }
}

/// The rendering of a truth value.
pub open spec fn spec_bool_chars(b: bool) -> Seq<char> {
    if b {
        "true"@
    } else {
        "false"@
    }
}

/// One record rendered as a CSV line, fields in the fixed schema order; the
/// `bboxes` and `error` fields are quoted, with inner quotes doubled.
pub open spec fn spec_csv_line(e: ExportFrame) -> Seq<char> {
    spec_dec(e.file.folder_id as int) + seq![','] + spec_dec(e.file.file_id as int) + seq![',']
        + e.file.file_path@ + seq![','] + spec_opt_text(e.shoot_time) + seq![','] + spec_dec(
        e.frame_index as int,
    ) + seq![','] + spec_dec(e.total_frames as int) + seq![','] + spec_bool_chars(e.is_iframe)
        + seq![','] + spec_quote_field(spec_bboxes_field(e.bboxes)) + seq![','] + spec_opt_text(
        e.label,
    ) + seq![','] + spec_quote_field(spec_opt_text(e.error))
}

/// Render one record as a CSV line.
#[verifier::rlimit(50)]
pub fn csv_line_chars(e: &ExportFrame) -> (r: Vec<char>)
    requires
        export_frame_wf(*e),
    ensures
        r@ == spec_csv_line(*e),
{
    let mut r = u64_to_chars(e.file.folder_id as u64);
    r.push(',');
    let fid = u64_to_chars(e.file.file_id as u64);
    push_chars(&mut r, &fid);
    r.push(',');
    push_str_chars(&mut r, e.file.file_path.as_str());
    r.push(',');
    match &e.shoot_time {
        Some(s) => push_str_chars(&mut r, s.as_str()),
        None => push_str_chars(&mut r, "null"),
    }
    r.push(',');
    let fi = u64_to_chars(e.frame_index as u64);
    push_chars(&mut r, &fi);
    r.push(',');
    let tf = u64_to_chars(e.total_frames as u64);
    push_chars(&mut r, &tf);
    r.push(',');
    if e.is_iframe {
        push_str_chars(&mut r, "true");
    } else {
        push_str_chars(&mut r, "false");
    }
    r.push(',');
    let bf = bboxes_field_chars(&e.bboxes);
    let bq = quote_field(&bf);
    push_chars(&mut r, &bq);
    r.push(',');
    match &e.label {
        Some(s) => push_str_chars(&mut r, s.as_str()),
        None => push_str_chars(&mut r, "null"),
    }
    r.push(',');
    let ef = match &e.error {
        Some(s) => {
            let mut v: Vec<char> = Vec::new();
            push_str_chars(&mut v, s.as_str());
            v
        },
        None => {
            let mut v: Vec<char> = Vec::new();
            push_str_chars(&mut v, "null");
            v
        },
    };
    proof {
        assert(ef@ == spec_opt_text(e.error));
    }
    let eq = quote_field(&ef);
    push_chars(&mut r, &eq);
    proof {
        assert(r@ =~= spec_csv_line(*e));
    }
    r
}

/// The fixed CSV header line, with its terminating newline.
pub open spec fn spec_csv_header() -> Seq<char> {
    "folder_id,file_id,file_path,shoot_time,frame_index,total_frames,is_iframe,bboxes,label,error\n"@
}

/// The records' CSV lines joined by newlines, without a trailing newline.
pub open spec fn spec_csv_lines(frames: Seq<ExportFrame>) -> Seq<char>
    decreases frames.len(),
{
    if frames.len() == 0 {
        Seq::empty()
    } else if frames.len() == 1 {
        spec_csv_line(frames[0])
    } else {
        spec_csv_lines(frames.drop_last()) + seq!['\n'] + spec_csv_line(frames.last())
    }
}

/// The whole CSV artefact: the header, then one line per record.
pub open spec fn spec_csv(frames: Seq<ExportFrame>) -> Seq<char> {
    spec_csv_header() + spec_csv_lines(frames)
}

/// Render the whole result buffer as the CSV artefact.
pub fn write_csv(frames: &Vec<ExportFrame>) -> (r: String)
    requires
        forall|i: int| 0 <= i < frames@.len() ==> export_frame_wf(#[trigger] frames@[i]),
    ensures
        r@ == spec_csv(frames@),
{
    let mut out: Vec<char> = Vec::new();
    push_str_chars(
        &mut out,
        "folder_id,file_id,file_path,shoot_time,frame_index,total_frames,is_iframe,bboxes,label,error\n",
    );
    let mut i: usize = 0;
    proof {
        assert(frames@.subrange(0, 0) =~= Seq::<ExportFrame>::empty());
        assert(out@ =~= spec_csv_header() + spec_csv_lines(frames@.subrange(0, 0)));
    }
    while i < frames.len()
        invariant
            i <= frames@.len(),
            forall|j: int| 0 <= j < frames@.len() ==> export_frame_wf(#[trigger] frames@[j]),
            out@ == spec_csv_header() + spec_csv_lines(frames@.subrange(0, i as int)),
        decreases frames@.len() - i,
    {
        proof {
            assert(frames@.subrange(0, i + 1).drop_last() =~= frames@.subrange(0, i as int));
            assert(frames@.subrange(0, i + 1).last() == frames@[i as int]);
        }
        if i > 0 {
            out.push('\n');
        }
        let line = csv_line_chars(&frames[i]);
        push_chars(&mut out, &line);
        proof {
            if i == 0 {
                assert(frames@.subrange(0, 1).len() == 1);
                assert(out@ =~= spec_csv_header() + spec_csv_lines(frames@.subrange(0, 1)));
            } else {
                assert(out@ =~= spec_csv_header() + spec_csv_lines(frames@.subrange(0, i + 1)));
            }
        }
        i = i + 1;
    }
    proof {
        assert(frames@.subrange(0, frames@.len() as int) =~= frames@);
    }
    chars_to_string(&out)
}

/// The characters of a string slice, one by one.
pub fn str_to_chars(s: &str) -> (r: Vec<char>)
    ensures
        r@ == s@,
{
    let len = s.unicode_len();
    let mut r: Vec<char> = Vec::new();
    let mut i: usize = 0;
    while i < len
        invariant
            i <= len,
            len == s@.len(),
            r@ == s@.subrange(0, i as int),
        decreases len - i,
    {
        r.push(s.get_char(i));
        proof {
            assert(r@ =~= s@.subrange(0, i + 1));
        }
        i = i + 1;
    }
    proof {
        assert(s@.subrange(0, s@.len() as int) =~= s@);
    }
    r
}

/// A copy of the characters from `a` (inclusive) to `b` (exclusive).
pub fn sub_chars(v: &Vec<char>, a: usize, b: usize) -> (r: Vec<char>)
    requires
        a <= b <= v@.len(),
    ensures
        r@ == v@.subrange(a as int, b as int),
{
    let mut r: Vec<char> = Vec::new();
    let mut i: usize = a;
    proof {
        assert(r@ =~= v@.subrange(a as int, a as int));
    }
    while i < b
        invariant
            a <= i <= b <= v@.len(),
            r@ == v@.subrange(a as int, i as int),
        decreases b - i,
    {
        r.push(v[i]);
        proof {
            assert(r@ =~= v@.subrange(a as int, i + 1));
        }
        i = i + 1;
    }
    r
}

/// The characters equal the string slice.
pub fn chars_eq_str(v: &Vec<char>, s: &str) -> (r: bool)
    ensures
        r == (v@ == s@),
{
    let len = s.unicode_len();
    if v.len() != len {
        assert(v@ != s@) by {
            assert(v@.len() != s@.len());
        }
        return false;
    }
    let mut i: usize = 0;
    while i < len
        invariant
            i <= len,
            len == s@.len(),
            len == v@.len(),
            forall|k: int| 0 <= k < i ==> v@[k] == s@[k],
        decreases len - i,
    {
        if v[i] != s.get_char(i) {
            return false;
        }
        i = i + 1;
    }
    proof {
        assert(v@ =~= s@);
    }
    true
}

/// The pieces joined back together by newlines.
pub open spec fn spec_join_pieces(ps: Seq<Seq<char>>) -> Seq<char>
    decreases ps.len(),
{
    if ps.len() == 0 {
        Seq::empty()
    } else if ps.len() == 1 {
        ps[0]
    } else {
        spec_join_pieces(ps.drop_last()) + seq!['\n'] + ps.last()
    }
}

/// Extending the last piece extends the joined text by the same character.
proof fn lemma_join_extend_last(ps: Seq<Seq<char>>, c: char)
    requires
        ps.len() >= 1,
    ensures
        spec_join_pieces(ps.update(ps.len() - 1, ps.last().push(c))) == spec_join_pieces(ps).push(
            c,
        ),
{
    let ps2 = ps.update(ps.len() - 1, ps.last().push(c));
    if ps.len() == 1 {
        assert(ps2[0] == ps[0].push(c));
        assert(spec_join_pieces(ps2) =~= spec_join_pieces(ps).push(c));
    } else {
        assert(ps2.drop_last() =~= ps.drop_last());
        assert(ps2.last() == ps.last().push(c));
        assert(spec_join_pieces(ps2) =~= spec_join_pieces(ps).push(c));
    }
}

/// Split text into records at newlines that stand outside CSV quotes.
/// Joining the pieces back with newlines gives the text again.
fn split_records(content: &Vec<char>) -> (r: Vec<Vec<char>>)
    ensures
        r@.len() >= 1,
        spec_join_pieces(r@.map_values(|v: Vec<char>| v@)) == content@,
{
    let mut r: Vec<Vec<char>> = Vec::new();
    let mut cur: Vec<char> = Vec::new();
    let mut in_quotes = false;
    let mut i: usize = 0;
    proof {
        assert(r@.map_values(|v: Vec<char>| v@).push(cur@) =~= seq![Seq::<char>::empty()]);
        assert(spec_join_pieces(r@.map_values(|v: Vec<char>| v@).push(cur@)) =~= content@.subrange(
            0,
            0,
        ));
    }
    while i < content.len()
        invariant
            i <= content@.len(),
            spec_join_pieces(r@.map_values(|v: Vec<char>| v@).push(cur@)) == content@.subrange(
                0,
                i as int,
            ),
        decreases content@.len() - i,
    {
        let ghost pieces_old = r@.map_values(|v: Vec<char>| v@).push(cur@);
        let c = content[i];
        if c == '\n' && !in_quotes {
            let ghost r_old = r@;
            r.push(cur);
            cur = Vec::new();
            proof {
                let pieces_new = r@.map_values(|v: Vec<char>| v@).push(cur@);
                assert(r@.map_values(|v: Vec<char>| v@) =~= r_old.map_values(|v: Vec<char>| v@)
                    .push(r@[r@.len() - 1]@));
                assert(pieces_new.drop_last() =~= pieces_old);
                assert(pieces_new.last() =~= Seq::<char>::empty());
                assert(spec_join_pieces(pieces_new) =~= spec_join_pieces(pieces_old) + seq!['\n']);
                assert(spec_join_pieces(pieces_new) =~= content@.subrange(0, i + 1));
            }
        } else {
            if c == '"' {
                in_quotes = !in_quotes;
            }
            cur.push(c);
            proof {
                let pieces_new = r@.map_values(|v: Vec<char>| v@).push(cur@);
                assert(pieces_new =~= pieces_old.update(
                    pieces_old.len() - 1,
                    pieces_old.last().push(c),
                ));
                lemma_join_extend_last(pieces_old, c);
                assert(spec_join_pieces(pieces_new) =~= content@.subrange(0, i + 1));
            }
        }
        i = i + 1;
    }
    let ghost r_old = r@;
    r.push(cur);
    proof {
        assert(r@.map_values(|v: Vec<char>| v@) =~= r_old.map_values(|v: Vec<char>| v@).push(
            r@[r@.len() - 1]@,
        ));
        assert(content@.subrange(0, content@.len() as int) =~= content@);
    }
    r
}

/// The two character buffers hold the same text.
pub fn chars_eq(a: &Vec<char>, b: &Vec<char>) -> (r: bool)
    ensures
        r == (a@ == b@),
{
    if a.len() != b.len() {
        assert(a@ != b@) by {
            assert(a@.len() != b@.len());
        }
        return false;
    }
    let mut i: usize = 0;
    while i < a.len()
        invariant
            i <= a@.len(),
            a@.len() == b@.len(),
            forall|k: int| 0 <= k < i ==> a@[k] == b@[k],
        decreases a@.len() - i,
    {
        if a[i] != b[i] {
            return false;
        }
        i = i + 1;
    }
    proof {
        assert(a@ =~= b@);
    }
    true
}

/// Split one CSV record into its fields: commas outside quotes separate
/// fields, a quoted field is unwrapped, and doubled quotes fold back to one.
fn split_fields(line: &Vec<char>) -> (r: Option<Vec<Vec<char>>>)
{
    let mut r: Vec<Vec<char>> = Vec::new();
    let mut cur: Vec<char> = Vec::new();
    let mut in_quotes = false;
    let mut i: usize = 0;
    while i < line.len()
        invariant
            i <= line@.len(),
        decreases line@.len() - i,
    {
        let c = line[i];
        if in_quotes {
            if c == '"' {
                if i + 1 < line.len() && line[i + 1] == '"' {
                    cur.push('"');
                    i = i + 1;
                } else {
                    in_quotes = false;
                }
            } else {
                cur.push(c);
            }
        } else {
            if c == '"' {
                in_quotes = true;
            } else if c == ',' {
                r.push(cur);
                cur = Vec::new();
            } else {
                cur.push(c);
            }
        }
        i = i + 1;
    }
    if in_quotes {
        return None;
    }
    r.push(cur);
    Some(r)
}

/// Read a field back as a machine-sized count.
fn parse_usize(field: &Vec<char>) -> (r: Option<usize>)
    ensures
        match spec_digits_val(field@) {
            Some(v) => {
                if v <= usize::MAX {
                    r == Some(v as usize)
                } else {
                    r is None
                }
            },
            None => r is None,
        },
{
    proof {
        lemma_digits_val_nonneg(field@);
    }
    match chars_to_u64(field) {
        Some(v) => {
            if v <= usize::MAX as u64 {
                Some(v as usize)
            } else {
                None
            }
        },
        None => None,
    }
}

/// Read a decimal field with up to three places back as a coordinate in
/// thousandths of a pixel, within the coordinate bound.
fn parse_milli(field: &Vec<char>) -> (r: Option<i64>)
    ensures
        r matches Some(q) ==> 0 <= q <= crate::utils::COORD_MAX,
{
    let mut dot: Option<usize> = None;
    let mut i: usize = 0;
    while i < field.len()
        invariant
            i <= field@.len(),
            dot matches Some(d) ==> d < field@.len(),
        decreases field@.len() - i,
    {
        if field[i] == '.' {
            if dot.is_some() {
                return None;
            }
            dot = Some(i);
        }
        i = i + 1;
    }
    let (int_part, frac_part): (Vec<char>, Vec<char>) = match dot {
        Some(d) => (sub_chars(field, 0, d), sub_chars(field, d + 1, field.len())),
        None => (sub_chars(field, 0, field.len()), Vec::new()),
    };
    let whole = match chars_to_u64(&int_part) {
        Some(v) => v,
        None => {
            return None;
        },
    };
    if frac_part.len() > 3 {
        return None;
    }
    let mut frac: u64 = 0;
    let mut j: usize = 0;
    while j < frac_part.len()
        invariant
            j <= frac_part@.len(),
            frac_part@.len() <= 3,
            (frac as int) < spec_p10(j as int),
        decreases frac_part@.len() - j,
    {
        let d = digit_val(frac_part[j]);
        if d >= 10 {
            return None;
        }
        frac = frac * 10 + d;
        j = j + 1;
    }
    let mut k: usize = frac_part.len();
    while k < 3
        invariant
            k <= 3,
            (frac as int) < spec_p10(k as int),
        decreases 3 - k,
    {
        frac = frac * 10;
        k = k + 1;
    }
    proof {
        assert((frac as int) < 1000);
    }
    if whole > (crate::utils::COORD_MAX as u64) / 1000 {
        return None;
    }
    let q: u64 = whole * 1000 + frac;
    if q > crate::utils::COORD_MAX as u64 {
        return None;
    }
    Some(q as i64)
}

/// Read a decimal field with up to six places back as a score in
/// millionths, at most one.
fn parse_micro(field: &Vec<char>) -> (r: Option<u32>)
    ensures
        r matches Some(v) ==> v <= crate::utils::SCORE_SCALE,
{
    let mut dot: Option<usize> = None;
    let mut i: usize = 0;
    while i < field.len()
        invariant
            i <= field@.len(),
            dot matches Some(d) ==> d < field@.len(),
        decreases field@.len() - i,
    {
        if field[i] == '.' {
            if dot.is_some() {
                return None;
            }
            dot = Some(i);
        }
        i = i + 1;
    }
    let (int_part, frac_part): (Vec<char>, Vec<char>) = match dot {
        Some(d) => (sub_chars(field, 0, d), sub_chars(field, d + 1, field.len())),
        None => (sub_chars(field, 0, field.len()), Vec::new()),
    };
    let whole = match chars_to_u64(&int_part) {
        Some(v) => v,
        None => {
            return None;
        },
    };
    if frac_part.len() > 6 {
        return None;
    }
    let mut frac: u64 = 0;
    let mut j: usize = 0;
    while j < frac_part.len()
        invariant
            j <= frac_part@.len(),
            frac_part@.len() <= 6,
            (frac as int) < spec_p10(j as int),
        decreases frac_part@.len() - j,
    {
        let d = digit_val(frac_part[j]);
        if d >= 10 {
            return None;
        }
        frac = frac * 10 + d;
        j = j + 1;
    }
    let mut k: usize = frac_part.len();
    while k < 6
        invariant
            k <= 6,
            (frac as int) < spec_p10(k as int),
        decreases 6 - k,
    {
        frac = frac * 10;
        k = k + 1;
    }
    proof {
        assert((frac as int) < 1000000);
    }
    if whole > 1 {
        return None;
    }
    let v: u64 = whole * 1000000 + frac;
    if v > crate::utils::SCORE_SCALE as u64 {
        return None;
    }
    Some(v as u32)
}

/// Read the `bboxes` field back: `null`, or a JSON array of box objects in
/// the writer's field order, each box well-formed.
fn parse_bboxes(field: &Vec<char>) -> (r: Option<Option<Vec<Bbox>>>)
    ensures
        r matches Some(Some(bs)) ==> boxes_wf(bs@),
{
    if chars_eq_str(field, "null") {
        return Some(None);
    }
    let n = field.len();
    if n < 2 || field[0] != '[' || field[n - 1] != ']' {
        return None;
    }
    let inner = sub_chars(field, 1, n - 1);
    let mut boxes: Vec<Bbox> = Vec::new();
    if inner.len() == 0 {
        return Some(Some(boxes));
    }
    let mut start: usize = 0;
    while start < inner.len()
        invariant
            start <= inner@.len(),
            boxes_wf(boxes@),
        decreases inner@.len() - start,
    {
        if inner[start] != '{' {
            return None;
        }
        // the objects are flat, so the next closing brace ends this one
        let mut end: usize = start + 1;
        while end < inner.len() && inner[end] != '}'
            invariant
                start + 1 <= end <= inner@.len(),
            decreases inner@.len() - end,
        {
            end = end + 1;
        }
        if end >= inner.len() {
            return None;
        }
        let body = sub_chars(&inner, start + 1, end);
        match parse_bbox_body(&body) {
            Some(b) => {
                let ghost boxes_old = boxes@;
                boxes.push(b);
                proof {
                    assert forall|i: int| 0 <= i < boxes@.len() implies bbox_wf(
                        #[trigger] boxes@[i],
                    ) by {
                        if i < boxes@.len() - 1 {
                            assert(boxes@[i] == boxes_old[i]);
                        }
                    }
                }
            },
            None => {
                return None;
            },
        }
        if end + 1 < inner.len() {
            if inner[end + 1] != ',' {
                return None;
            }
            start = end + 2;
        } else {
            start = end + 1;
        }
    }
    Some(Some(boxes))
}

/// Read one box object's body (between its braces) back as a well-formed
/// box.
fn parse_bbox_body(body: &Vec<char>) -> (r: Option<Bbox>)
    ensures
        r matches Some(b) ==> bbox_wf(b),
{
    let fields = match split_json_pairs(body) {
        Some(f) => f,
        None => {
            return None;
        },
    };
    if fields.len() != 6 {
        return None;
    }
    let x1 = match take_value(&fields[0], "\"x1\":") {
        Some(v) => v,
        None => {
            return None;
        },
    };
    let y1 = match take_value(&fields[1], "\"y1\":") {
        Some(v) => v,
        None => {
            return None;
        },
    };
    let x2 = match take_value(&fields[2], "\"x2\":") {
        Some(v) => v,
        None => {
            return None;
        },
    };
    let y2 = match take_value(&fields[3], "\"y2\":") {
        Some(v) => v,
        None => {
            return None;
        },
    };
    let sc = match take_value(&fields[4], "\"score\":") {
        Some(v) => v,
        None => {
            return None;
        },
    };
    let cl = match take_value(&fields[5], "\"class\":") {
        Some(v) => v,
        None => {
            return None;
        },
    };
    let x1v = match parse_milli(&x1) {
        Some(v) => v,
        None => {
            return None;
        },
    };
    let y1v = match parse_milli(&y1) {
        Some(v) => v,
        None => {
            return None;
        },
    };
    let x2v = match parse_milli(&x2) {
        Some(v) => v,
        None => {
            return None;
        },
    };
    let y2v = match parse_milli(&y2) {
        Some(v) => v,
        None => {
            return None;
        },
    };
    let scv = match parse_micro(&sc) {
        Some(v) => v,
        None => {
            return None;
        },
    };
    let clv = match parse_usize(&cl) {
        Some(v) => v,
        None => {
            return None;
        },
    };
    if x1v > x2v || y1v > y2v {
        return None;
    }
    Some(Bbox { x1: x1v, y1: y1v, x2: x2v, y2: y2v, score: scv, class: clv })
}

/// Split a flat JSON object body at its commas.
fn split_json_pairs(body: &Vec<char>) -> (r: Option<Vec<Vec<char>>>)
{
    let mut r: Vec<Vec<char>> = Vec::new();
    let mut cur: Vec<char> = Vec::new();
    let mut i: usize = 0;
    while i < body.len()
        invariant
            i <= body@.len(),
        decreases body@.len() - i,
    {
        let c = body[i];
        if c == ',' {
            r.push(cur);
            cur = Vec::new();
        } else {
            cur.push(c);
        }
        i = i + 1;
    }
    r.push(cur);
    Some(r)
}

/// The value after a fixed key prefix, if the pair carries that key.
fn take_value(pair: &Vec<char>, key: &str) -> (r: Option<Vec<char>>)
{
    let klen = key.unicode_len();
    if pair.len() < klen {
        return None;
    }
    let mut i: usize = 0;
    while i < klen
        invariant
            i <= klen,
            klen == key@.len(),
            klen <= pair@.len(),
        decreases klen - i,
    {
        if pair[i] != key.get_char(i) {
            return None;
        }
        i = i + 1;
    }
    Some(sub_chars(pair, klen, pair.len()))
}

/// Parse a prior run's CSV artefact back into records.
///
/// The header must match the schema; every record line must carry the ten
/// fields, its numbers in range and its boxes well-formed, and either
/// detections with a label or an error, never both; and the line must be the
/// canonical rendering of the record it describes — each accepted record is
/// re-encoded with the writer and held against the input. So on success the
/// artefact read is, letter for letter, the encoding of the records
/// returned (up to one trailing newline), and the schema's own header
/// parses to the empty record list. The first offence fails the whole
/// parse, as a bad checkpoint is fatal.
pub fn parse_export_csv(content: &str) -> (r: Result<Vec<ExportFrame>, String>)
    ensures
        r matches Ok(recs) ==> {
            &&& forall|i: int| 0 <= i < recs@.len() ==> export_frame_wf(#[trigger] recs@[i])
            &&& (content@ == spec_csv(recs@) || content@ == spec_csv(recs@) + seq!['\n'])
        },
        content@ == spec_csv_header() ==> (r matches Ok(recs) && recs@.len() == 0),
{
    let chars = str_to_chars(content);
    let header =
        "folder_id,file_id,file_path,shoot_time,frame_index,total_frames,is_iframe,bboxes,label,error\n";
    let hlen = header.unicode_len();
    if chars.len() < hlen {
        proof {
            assert(content@ != spec_csv_header()) by {
                assert(content@.len() < spec_csv_header().len());
            }
        }
        return Err(String::from_str("missing header"));
    }
    let head = sub_chars(&chars, 0, hlen);
    if !chars_eq_str(&head, header) {
        proof {
            if content@ == spec_csv_header() {
                assert(head@ =~= content@);
            }
        }
        return Err(String::from_str("unrecognised header"));
    }
    let rest = sub_chars(&chars, hlen, chars.len());
    proof {
        assert(content@ =~= head@ + rest@);
    }
    if rest.len() == 0 {
        let out: Vec<ExportFrame> = Vec::new();
        proof {
            assert(spec_csv_lines(out@) =~= Seq::<char>::empty());
            assert(content@ =~= spec_csv(out@));
        }
        return Ok(out);
    }
    proof {
        assert(content@ != spec_csv_header()) by {
            assert(content@.len() > spec_csv_header().len());
        }
    }
    let pieces = split_records(&rest);
    let ghost pieces_v = pieces@.map_values(|v: Vec<char>| v@);
    // one empty final piece stands for a trailing newline and nothing else
    let trailing = pieces.len() >= 2 && pieces[pieces.len() - 1].len() == 0;
    let n_pieces = if trailing {
        pieces.len() - 1
    } else {
        pieces.len()
    };
    let mut out: Vec<ExportFrame> = Vec::new();
    let mut li: usize = 0;
    while li < n_pieces
        invariant
            content@ != spec_csv_header(),
            li <= n_pieces <= pieces@.len(),
            pieces_v == pieces@.map_values(|v: Vec<char>| v@),
            pieces_v.len() == pieces@.len(),
            out@.len() == li,
            forall|i: int| 0 <= i < out@.len() ==> export_frame_wf(#[trigger] out@[i]),
            spec_csv_lines(out@) == spec_join_pieces(pieces_v.subrange(0, li as int)),
        decreases n_pieces - li,
    {
        proof {
            assert(pieces_v.subrange(0, li + 1).drop_last() =~= pieces_v.subrange(0, li as int));
            assert(pieces_v.subrange(0, li + 1).last() == pieces_v[li as int]);
        }
        let line = &pieces[li];
        if line.len() == 0 {
            return Err(String::from_str("empty record"));
        }
        let fields = match split_fields(line) {
            Some(f) => f,
            None => {
                return Err(String::from_str("unbalanced quotes in record"));
            },
        };
        if fields.len() != 10 {
            return Err(String::from_str("record does not carry ten fields"));
        }
        let folder_id = match parse_usize(&fields[0]) {
            Some(v) => v,
            None => {
                return Err(String::from_str("bad folder_id"));
            },
        };
        let file_id = match parse_usize(&fields[1]) {
            Some(v) => v,
            None => {
                return Err(String::from_str("bad file_id"));
            },
        };
        let file_path = chars_to_string(&fields[2]);
        let shoot_time = if chars_eq_str(&fields[3], "null") {
            None
        } else {
            Some(chars_to_string(&fields[3]))
        };
        let frame_index = match parse_usize(&fields[4]) {
            Some(v) => v,
            None => {
                return Err(String::from_str("bad frame_index"));
            },
        };
        let total_frames = match parse_usize(&fields[5]) {
            Some(v) => v,
            None => {
                return Err(String::from_str("bad total_frames"));
            },
        };
        let is_iframe = if chars_eq_str(&fields[6], "true") {
            true
        } else if chars_eq_str(&fields[6], "false") {
            false
        } else {
            return Err(String::from_str("bad is_iframe"));
        };
        let bboxes = match parse_bboxes(&fields[7]) {
            Some(b) => b,
            None => {
                return Err(String::from_str("bad bboxes"));
            },
        };
        let label = if chars_eq_str(&fields[8], "null") {
            None
        } else {
            Some(chars_to_string(&fields[8]))
        };
        let error = if chars_eq_str(&fields[9], "null") {
            None
        } else {
            Some(chars_to_string(&fields[9]))
        };
        let has_boxes = bboxes.is_some();
        let has_label = label.is_some();
        let has_error = error.is_some();
        if has_boxes == has_error || has_boxes != has_label {
            return Err(String::from_str("record carries neither boxes nor an error"));
        }
        let rec = ExportFrame {
            file: FileItem { folder_id, file_id, file_path },
            shoot_time,
            frame_index,
            total_frames,
            is_iframe,
            bboxes,
            label,
            error,
        };
        // the line must be the canonical rendering of the record it names
        let reencoded = csv_line_chars(&rec);
        if !chars_eq(line, &reencoded) {
            return Err(String::from_str("record not in canonical form"));
        }
        let ghost out_old = out@;
        out.push(rec);
        proof {
            assert forall|i: int| 0 <= i < out@.len() implies export_frame_wf(
                #[trigger] out@[i],
            ) by {
                if i < out@.len() - 1 {
                    assert(out@[i] == out_old[i]);
                }
            }
            assert(pieces_v[li as int] == spec_csv_line(out@[out@.len() - 1]));
            if li == 0 {
                assert(out@.len() == 1);
                assert(pieces_v.subrange(0, 1).len() == 1);
                assert(spec_csv_lines(out@) =~= spec_join_pieces(pieces_v.subrange(0, 1)));
            } else {
                assert(out@.drop_last() =~= out_old);
                assert(spec_csv_lines(out@) =~= spec_join_pieces(pieces_v.subrange(0, li + 1)));
            }
        }
        li = li + 1;
    }
    proof {
        if trailing {
            assert(pieces_v.len() >= 2);
            assert(pieces_v.last() =~= Seq::<char>::empty());
            assert(pieces_v.drop_last() =~= pieces_v.subrange(0, n_pieces as int));
            assert(spec_join_pieces(pieces_v) =~= spec_join_pieces(
                pieces_v.subrange(0, n_pieces as int),
            ) + seq!['\n']);
            assert(content@ =~= spec_csv(out@) + seq!['\n']);
        } else {
            assert(pieces_v.subrange(0, n_pieces as int) =~= pieces_v);
            assert(content@ =~= spec_csv(out@));
        }
    }
    Ok(out)
}

} // verus!
