//! Frames: the registers gathered from the lines of one telegram, and the
//! assembler that folds lines into frames.
use vstd::prelude::*;
use vstd::string::StringSliceAdditionalSpecFns;
use crate::number::{extract, extract_bytes, extract_spec, lemma_other_prefix_absent, starts_with};

verus! {

/// Number of recognised registers.
pub const REGISTER_COUNT: usize = 9;

/// The identifier bytes of register `k`, in field order:
/// `1-0:1.8.1`, `1-0:1.8.2`, `1-0:2.8.1`, `1-0:2.8.2`, `0-0:96.14.0`,
/// `1-0:1.7.0`, `1-0:2.7.0`, `0-0:17.0.0`, `0-0:96.3.10`.
pub open spec fn register_id(k: int) -> Seq<u8> {
    if k == 0 {
        seq![49u8, 45, 48, 58, 49, 46, 56, 46, 49]
    } else if k == 1 {
        seq![49u8, 45, 48, 58, 49, 46, 56, 46, 50]
    } else if k == 2 {
        seq![49u8, 45, 48, 58, 50, 46, 56, 46, 49]
    } else if k == 3 {
        seq![49u8, 45, 48, 58, 50, 46, 56, 46, 50]
    } else if k == 4 {
        seq![48u8, 45, 48, 58, 57, 54, 46, 49, 52, 46, 48]
    } else if k == 5 {
        seq![49u8, 45, 48, 58, 49, 46, 55, 46, 48]
    } else if k == 6 {
        seq![49u8, 45, 48, 58, 50, 46, 55, 46, 48]
    } else if k == 7 {
        seq![48u8, 45, 48, 58, 49, 55, 46, 48, 46, 48]
    } else {
        seq![48u8, 45, 48, 58, 57, 54, 46, 51, 46, 49, 48]
    }
}

/// Registers that hold a small integer code rather than a measurement.
pub open spec fn is_code_register(k: int) -> bool {
    k == 4 || k == 8
}

/// A value in billionths truncated toward zero to a whole number, then
/// saturated to the `i32` range, as a float-to-`i32` conversion does.
pub open spec fn code_value(v: int) -> int {
    let t = truncate_nanos(v);
    if t > i32::MAX {
        i32::MAX as int
    } else if t < i32::MIN {
        i32::MIN as int
    } else {
        t
    }
}

/// A value in billionths truncated toward zero to a whole number.
pub open spec fn truncate_nanos(v: int) -> int {
    if v >= 0 {
        v / 1_000_000_000
    } else {
        -((-v) / 1_000_000_000)
    }
}

/// What `line` gives for register `k`: billionths for a measurement, the
/// truncated whole number for a code register.
pub open spec fn register_value(line: Seq<u8>, k: int) -> Option<int> {
    match extract_spec(line, register_id(k)) {
        Some(v) => if is_code_register(k) {
            Some(code_value(v))
        } else {
            Some(v)
        },
        None => None,
    }
}

fn register_id_bytes(k: usize) -> (r: Vec<u8>)
    requires
        k < REGISTER_COUNT,
    ensures
        r@ == register_id(k as int),
{
    let r = if k == 0 {
        vec![49u8, 45, 48, 58, 49, 46, 56, 46, 49]
    } else if k == 1 {
        vec![49u8, 45, 48, 58, 49, 46, 56, 46, 50]
    } else if k == 2 {
        vec![49u8, 45, 48, 58, 50, 46, 56, 46, 49]
    } else if k == 3 {
        vec![49u8, 45, 48, 58, 50, 46, 56, 46, 50]
    } else if k == 4 {
        vec![48u8, 45, 48, 58, 57, 54, 46, 49, 52, 46, 48]
    } else if k == 5 {
        vec![49u8, 45, 48, 58, 49, 46, 55, 46, 48]
    } else if k == 6 {
        vec![49u8, 45, 48, 58, 50, 46, 55, 46, 48]
    } else if k == 7 {
        vec![48u8, 45, 48, 58, 49, 55, 46, 48, 46, 48]
    } else {
        vec![48u8, 45, 48, 58, 57, 54, 46, 51, 46, 49, 48]
    };
    assert(r@ =~= register_id(k as int));
    r
}

/// The registers read from one telegram. Measurements are in billionths of
/// their unit (kWh or kW); `current_tariff` and `switch_mode` are whole codes.
/// A register that no line of the telegram gave is `None`.
#[derive(Clone, Copy, Debug, PartialEq, Eq, Structural)]
pub struct Frame {
    pub delivered_1: Option<i64>,
    pub delivered_2: Option<i64>,
    pub received_1: Option<i64>,
    pub received_2: Option<i64>,
    pub current_tariff: Option<i64>,
    pub actual_delivered: Option<i64>,
    pub actual_received: Option<i64>,
    pub max_power: Option<i64>,
    pub switch_mode: Option<i64>,
}

/// The frame with every register absent.
pub open spec fn empty_frame() -> Frame {
    Frame {
        delivered_1: None,
        delivered_2: None,
        received_1: None,
        received_2: None,
        current_tariff: None,
        actual_delivered: None,
        actual_received: None,
        max_power: None,
        switch_mode: None,
    }
}

/// Register `k` of a frame, in the order of `register_id`.
pub open spec fn field(f: Frame, k: int) -> Option<i64> {
    if k == 0 {
        f.delivered_1
    } else if k == 1 {
        f.delivered_2
    } else if k == 2 {
        f.received_1
    } else if k == 3 {
        f.received_2
    } else if k == 4 {
        f.current_tariff
    } else if k == 5 {
        f.actual_delivered
    } else if k == 6 {
        f.actual_received
    } else if k == 7 {
        f.max_power
    } else {
        f.switch_mode
    }
}

/// Register `k` of `f` after reading `line`: the line's value when it gives
/// one, the earlier value otherwise.
pub open spec fn updated(f: Frame, line: Seq<u8>, k: int) -> Option<i64> {
    match register_value(line, k) {
        Some(v) => Some(v as i64),
        None => field(f, k),
    }
}

/// `f` after a line that is not the terminator: every register the line
/// gives is overwritten, the others are kept.
pub open spec fn apply_line(f: Frame, line: Seq<u8>) -> Frame {
    Frame {
        delivered_1: updated(f, line, 0),
        delivered_2: updated(f, line, 1),
        received_1: updated(f, line, 2),
        received_2: updated(f, line, 3),
        current_tariff: updated(f, line, 4),
        actual_delivered: updated(f, line, 5),
        actual_received: updated(f, line, 6),
        max_power: updated(f, line, 7),
        switch_mode: updated(f, line, 8),
    }
}

/// The line that ends a telegram: `!` alone.
pub open spec fn is_terminator(line: Seq<u8>) -> bool {
    line == seq![33u8]
}

/// One line fed to the assembler holding `f`: the frame held afterwards, and
/// the frame completed by this line, if any.
pub open spec fn step(f: Frame, line: Seq<u8>) -> (Frame, Option<Frame>) {
    if is_terminator(line) {
        (empty_frame(), Some(f))
    } else {
        (apply_line(f, line), None)
    }
}

/// Lines fed in order to a fresh assembler: the frame held at the end, and
/// the frames completed along the way.
pub open spec fn run(lines: Seq<Seq<u8>>) -> (Frame, Seq<Frame>)
    decreases lines.len(),
{
    if lines.len() == 0 {
        (empty_frame(), Seq::empty())
    } else {
        let (f, done) = run(lines.drop_last());
        let (g, out) = step(f, lines.last());
        match out {
            Some(c) => (g, done.push(c)),
            None => (g, done),
        }
    }
}

/// The bytes of each line.
pub open spec fn lines_bytes(lines: Seq<&str>) -> Seq<Seq<u8>> {
    lines.map_values(|l: &str| l.spec_bytes())
}

impl Frame {
    /// The frame with every register absent.
    pub fn empty() -> (r: Frame)
        ensures
            r == empty_frame(),
    {
        Frame {
            delivered_1: None,
            delivered_2: None,
            received_1: None,
            received_2: None,
            current_tariff: None,
            actual_delivered: None,
            actual_received: None,
            max_power: None,
            switch_mode: None,
        }
    }

    fn set_field(&mut self, k: usize, v: i64)
        requires
            k < REGISTER_COUNT,
        ensures
            forall|j: int| 0 <= j < 9 ==> field(*final(self), j) == if j == k {
                Some(v)
            } else {
                field(*old(self), j)
            },
    {
        if k == 0 {
            self.delivered_1 = Some(v);
        } else if k == 1 {
            self.delivered_2 = Some(v);
        } else if k == 2 {
            self.received_1 = Some(v);
        } else if k == 3 {
            self.received_2 = Some(v);
        } else if k == 4 {
            self.current_tariff = Some(v);
        } else if k == 5 {
            self.actual_delivered = Some(v);
        } else if k == 6 {
            self.actual_received = Some(v);
        } else if k == 7 {
            self.max_power = Some(v);
        } else {
            self.switch_mode = Some(v);
        }
    }

    /// Reads one line that is not the terminator, trying every register
    /// identifier in turn.
    pub fn apply_line(&mut self, line: &[u8])
        ensures
            *final(self) == apply_line(*old(self), line@),
    {
        let ghost start = *self;
        let mut k: usize = 0;
        while k < REGISTER_COUNT
            invariant
                k <= REGISTER_COUNT,
                forall|j: int| 0 <= j < k ==> field(*self, j) == updated(start, line@, j),
                forall|j: int| k <= j < 9 ==> field(*self, j) == field(start, j),
            decreases REGISTER_COUNT - k,
        {
            let id = register_id_bytes(k);
            match extract_bytes(line, id.as_slice()) {
                Some(v) => {
                    let value = if k == 4 || k == 8 {
                        to_code(v)
                    } else {
                        v
                    };
                    self.set_field(k, value);
                },
                None => {},
            }
            k = k + 1;
        }
        proof {
            lemma_frame_by_fields(*self, apply_line(start, line@));
        }
    }
}

/// A code register's value from a reading in billionths.
fn to_code(v: i64) -> (r: i64)
    ensures
        r == code_value(v as int),
{
    let t = truncate(v);
    if t > 2147483647 {
        2147483647
    } else if t < -2147483648 {
        -2147483648
    } else {
        t
    }
}

/// Truncates a value in billionths toward zero to a whole number.
fn truncate(v: i64) -> (r: i64)
    ensures
        r == truncate_nanos(v as int),
{
    if v >= 0 {
        v / 1_000_000_000
    } else if v == i64::MIN {
        -((-(v + 1_000_000_000)) / 1_000_000_000 + 1)
    } else {
        -((-v) / 1_000_000_000)
    }
}

/// Reads a code register: when `line` gives a value for `id`, `field` takes
/// it as `code_value` gives it; otherwise `field` is kept.
pub fn try_field_i32(line: &str, id: &str, field: &mut Option<i64>)
    ensures
        *final(field) == match extract_spec(line.spec_bytes(), id.spec_bytes()) {
            Some(v) => Some(code_value(v) as i64),
            None => *old(field),
        },
{
    match extract(line, id) {
        Some(v) => {
            *field = Some(to_code(v));
        },
        None => {},
    }
}

proof fn lemma_frame_by_fields(a: Frame, b: Frame)
    requires
        forall|j: int| 0 <= j < 9 ==> field(a, j) == field(b, j),
    ensures
        a == b,
{
    assert(field(a, 0) == field(b, 0));
    assert(field(a, 1) == field(b, 1));
    assert(field(a, 2) == field(b, 2));
    assert(field(a, 3) == field(b, 3));
    assert(field(a, 4) == field(b, 4));
    assert(field(a, 5) == field(b, 5));
    assert(field(a, 6) == field(b, 6));
    assert(field(a, 7) == field(b, 7));
    assert(field(a, 8) == field(b, 8));
}

/// Folds telegram lines into frames. It owns the frame being gathered; the
/// terminator hands that frame out and starts an empty one.
pub struct FrameAssembler {
    frame: Frame,
}

impl View for FrameAssembler {
    type V = Frame;

    closed spec fn view(&self) -> Frame {
        self.frame
    }
}

fn is_terminator_bytes(line: &[u8]) -> (r: bool)
    ensures
        r == is_terminator(line@),
{
    if line.len() == 1 && line[0] == 33 {
        assert(line@ =~= seq![33u8]);
        true
    } else {
        false
    }
}

impl FrameAssembler {
    /// An assembler holding the empty frame.
    pub fn new() -> (r: FrameAssembler)
        ensures
            r@ == empty_frame(),
    {
        FrameAssembler { frame: Frame::empty() }
    }

    /// The frame gathered so far.
    pub fn current(&self) -> (r: Frame)
        ensures
            r == self@,
    {
        self.frame
    }

    /// Feeds one line: the terminator returns the gathered frame and starts
    /// an empty one; any other line updates the registers it gives.
    pub fn feed(&mut self, line: &str) -> (r: Option<Frame>)
        ensures
            (final(self)@, r) == step(old(self)@, line.spec_bytes()),
    {
        let bytes = line.as_bytes();
        if is_terminator_bytes(bytes) {
            let done = self.frame;
            self.frame = Frame::empty();
            Some(done)
        } else {
            self.frame.apply_line(bytes);
            None
        }
    }
}

/// The frames completed by feeding `lines` in order to a fresh assembler;
/// a frame that no terminator closes is not returned.
pub fn assemble(lines: &Vec<&str>) -> (r: Vec<Frame>)
    ensures
        r@ == run(lines_bytes(lines@)).1,
{
    let ghost all = lines_bytes(lines@);
    let mut assembler = FrameAssembler::new();
    let mut out: Vec<Frame> = Vec::new();
    let mut i: usize = 0;
    proof {
        assert(all.subrange(0, 0) =~= Seq::<Seq<u8>>::empty());
    }
    while i < lines.len()
        invariant
            i <= lines@.len(),
            all == lines_bytes(lines@),
            run(all.subrange(0, i as int)) == (assembler@, out@),
        decreases lines@.len() - i,
    {
        let line: &str = lines[i];
        proof {
            assert(all.subrange(0, i + 1).drop_last() =~= all.subrange(0, i as int));
            assert(all.subrange(0, i + 1).last() == line.spec_bytes());
        }
        match assembler.feed(line) {
            Some(f) => out.push(f),
            None => {},
        }
        i = i + 1;
    }
    proof {
        assert(all.subrange(0, lines@.len() as int) =~= all);
    }
    out
}

/// Once a terminator has been fed, the frame being gathered depends only on
/// the lines fed since, and a register that none of those lines gives is
/// absent from it: no value is carried over from an earlier frame.
pub proof fn lemma_terminator_resets(
    before: Seq<Seq<u8>>,
    terminator: Seq<u8>,
    since: Seq<Seq<u8>>,
    k: int,
)
    requires
        is_terminator(terminator),
        forall|i: int| 0 <= i < since.len() ==> !is_terminator(#[trigger] since[i]),
        0 <= k < 9,
    ensures
        run(before.push(terminator) + since).0 == run(since).0,
        (forall|i: int| 0 <= i < since.len() ==> (#[trigger] register_value(since[i], k)) is None)
            ==> field(run(since).0, k) is None,
    decreases since.len(),
{
    let all = before.push(terminator) + since;
    if since.len() == 0 {
        assert(all =~= before.push(terminator));
        assert(before.push(terminator).drop_last() =~= before);
    } else {
        let shorter = since.drop_last();
        assert(all.drop_last() =~= before.push(terminator) + shorter);
        assert forall|i: int| 0 <= i < shorter.len() implies !is_terminator(#[trigger] shorter[i]) by {
            assert(shorter[i] == since[i]);
        }
        lemma_terminator_resets(before, terminator, shorter, k);
        assert(all.last() == since.last());
        assert(!is_terminator(since[since.len() - 1]));
        if forall|i: int| 0 <= i < since.len() ==> (#[trigger] register_value(since[i], k)) is None {
            assert forall|i: int| 0 <= i < shorter.len() implies (#[trigger] register_value(shorter[i], k)) is None by {
                assert(shorter[i] == since[i]);
            }
            assert(register_value(since[since.len() - 1], k) is None);
        }
    }
}

/// A line that begins with none of the recognised identifiers gives no
/// register, and leaves the frame being gathered as it was.
pub proof fn lemma_unrecognised_line(f: Frame, line: Seq<u8>)
    requires
        forall|k: int| 0 <= k < 9 ==> !starts_with(line, #[trigger] register_id(k)),
    ensures
        forall|k: int| 0 <= k < 9 ==> (#[trigger] extract_spec(line, register_id(k))) is None,
        apply_line(f, line) == f,
{
    assert forall|k: int| 0 <= k < 9 implies (#[trigger] extract_spec(line, register_id(k))) is None by {
        lemma_other_prefix_absent(line, register_id(k));
    }
    assert forall|k: int| 0 <= k < 9 implies field(apply_line(f, line), k) == field(f, k) by {
        assert(extract_spec(line, register_id(k)) is None);
    }
    lemma_frame_by_fields(apply_line(f, line), f);
}

} // verus!
