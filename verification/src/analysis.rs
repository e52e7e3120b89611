//! The bookkeeping of the signal analysis: a ring of verdicts, one for every
//! 20 ms, that is written as audio comes in and read as frames are coded.

use vstd::prelude::*;

use crate::math::{greatest, held, hold, least, min_i32, min_usize};

verus! {

/// Verdicts in the ring.
pub const DETECT_SIZE: usize = 100;

/// Samples in the analysis buffer: 30 ms at 24 kHz.
pub const ANALYSIS_BUF_SIZE: usize = 720;

/// Samples that are kept from one window to the next.
pub const ANALYSIS_OVERLAP: usize = 240;

/// Windows that are told apart from more of them.
pub const ANALYSIS_COUNT_MAX: i32 = 10_000;

/// Bands that the bandwidth is found by.
pub const NB_TBANDS: usize = 18;

/// The bandwidth of a signal with something above 12 kHz.
pub const FULL_BANDWIDTH: i32 = 20;

/// What is settled of a window: whether the analysis came to a verdict, and the
/// bandwidth that it found.
#[derive(Debug, Clone, Copy, PartialEq, Eq, Structural)]
pub struct Verdict {
    /// Whether there is one.
    pub valid: bool,
    /// The bands that hold something; 20 where there is more above 12 kHz.
    pub bandwidth: i32,
}

/// An opaque snapshot of [`TonalityAnalysisState::read_position`]. Opaque so the
/// two halves of the position cannot be swapped or advanced by hand.
#[derive(Clone, Copy, Debug)]
pub struct AnalysisReadPos {
    pos: usize,
    subframe: i32,
}

/// A place in the ring, and how many of the eight parts of 2.5 ms of its window
/// have been read.
#[verifier::ext_equal]
pub struct ReadPos {
    /// The place.
    pub pos: int,
    /// Parts that have been read.
    pub subframe: int,
}

impl View for AnalysisReadPos {
    type V = ReadPos;

    closed spec fn view(&self) -> ReadPos {
        ReadPos { pos: self.pos as int, subframe: self.subframe as int }
    }
}

impl ReadPos {
    /// Whether the position is one in the ring.
    pub open spec fn wf(self) -> bool {
        0 <= self.pos < DETECT_SIZE && 0 <= self.subframe < 8
    }

    /// Some parts of 2.5 ms on.
    pub open spec fn advanced(self, parts: int) -> ReadPos {
        ReadPos {
            pos: (self.pos + (self.subframe + parts) / 8) % (DETECT_SIZE as int),
            subframe: (self.subframe + parts) % 8,
        }
    }
}

/// Where the analysis stands.
#[derive(Debug)]
pub struct TonalityAnalysisState {
    fs: i32,
    mem_fill: usize,
    e_count: usize,
    count: i32,
    prev_bandwidth: i32,
    analysis_offset: i32,
    write_pos: usize,
    read_pos: usize,
    read_subframe: i32,
    initialized: bool,
    info: Vec<Verdict>,
}

/// Where the analysis stands.
pub ghost struct AnalysisModel {
    /// The rate of the input.
    pub fs: int,
    /// Samples in the buffer.
    pub mem_fill: int,
    /// The place of the window in the short history of energies.
    pub e_count: int,
    /// Windows that were analysed, as far as they matter.
    pub count: int,
    /// The bandwidth of the last window.
    pub prev_bandwidth: int,
    /// Samples of the next frame that were analysed with the last.
    pub analysis_offset: int,
    /// Where the next verdict goes.
    pub write_pos: int,
    /// Where the next verdict is read.
    pub read: ReadPos,
    /// Whether anything was ever analysed.
    pub initialized: bool,
    /// The verdicts.
    pub info: Seq<Verdict>,
}

impl View for TonalityAnalysisState {
    type V = AnalysisModel;

    closed spec fn view(&self) -> AnalysisModel {
        AnalysisModel {
            fs: self.fs as int,
            mem_fill: self.mem_fill as int,
            e_count: self.e_count as int,
            count: self.count as int,
            prev_bandwidth: self.prev_bandwidth as int,
            analysis_offset: self.analysis_offset as int,
            write_pos: self.write_pos as int,
            read: ReadPos { pos: self.read_pos as int, subframe: self.read_subframe as int },
            initialized: self.initialized,
            info: self.info@,
        }
    }
}

/// Whether the analysis works at a rate.
pub open spec fn analysis_rate(fs: int) -> bool {
    fs == 16_000 || fs == 24_000 || fs == 48_000
}

/// Where the analysis stands at first.
pub open spec fn fresh(fs: int) -> AnalysisModel {
    AnalysisModel {
        fs,
        mem_fill: 0,
        e_count: 0,
        count: 0,
        prev_bandwidth: 0,
        analysis_offset: 0,
        write_pos: 0,
        read: ReadPos { pos: 0, subframe: 0 },
        initialized: false,
        info: Seq::new(DETECT_SIZE as nat, |i: int| Verdict { valid: false, bandwidth: 0 }),
    }
}

/// A place in the ring, some steps on or back.
#[verifier::opaque]
pub open spec fn around(pos: int, steps: int) -> int {
    (pos + steps) % (DETECT_SIZE as int)
}

/// Steps from a place in the ring to the next that is `to`, at least one.
#[verifier::opaque]
pub open spec fn steps_to(from: int, to: int) -> int {
    (to - from - 1) % (DETECT_SIZE as int) + 1
}

/// A place up to a lap ahead of the ring or behind it.
proof fn lemma_lap(x: int)
    requires
        -(DETECT_SIZE as int) <= x < 2 * DETECT_SIZE,
    ensures
        x % (DETECT_SIZE as int) == (if x < 0 {
            x + DETECT_SIZE
        } else if x < DETECT_SIZE {
            x
        } else {
            x - DETECT_SIZE
        }),
{
}

/// One more step is a step from where the others lead.
proof fn lemma_around_step(pos: int, k: int)
    requires
        0 <= pos < DETECT_SIZE,
        0 <= k <= DETECT_SIZE,
    ensures
        around(pos, 0) == pos,
        around(pos, k + 1) == around(around(pos, k), 1),
        around(pos, -(k + 1)) == around(around(pos, -k), -1),
        0 <= around(pos, k) < DETECT_SIZE,
        0 <= around(pos, -k) < DETECT_SIZE,
{
    reveal(around);
    let ahead = around(pos, k);
    let behind = around(pos, -k);
    assert(0 <= ahead < DETECT_SIZE && 0 <= behind < DETECT_SIZE) by {
        lemma_lap(pos + k);
        lemma_lap(pos - k);
    }
    assert(around(pos, k + 1) == around(ahead, 1)) by {
        lemma_lap(pos + k);
        lemma_lap(ahead + 1);
        if pos + k + 1 < 2 * DETECT_SIZE {
            lemma_lap(pos + k + 1);
        }
    }
    assert(around(pos, -(k + 1)) == around(behind, -1)) by {
        lemma_lap(pos - k);
        lemma_lap(behind - 1);
        if pos - k - 1 >= -DETECT_SIZE {
            lemma_lap(pos - k - 1);
        }
    }
}

/// The next place that is `w` is as many steps away as there are to it.
proof fn lemma_hits(pos: int, w: int, k: int)
    requires
        0 <= pos < DETECT_SIZE,
        0 <= w < DETECT_SIZE,
        1 <= k <= DETECT_SIZE,
    ensures
        1 <= steps_to(pos, w) <= DETECT_SIZE,
        1 <= steps_to(w, pos) <= DETECT_SIZE,
        around(pos, k) == w <==> k == steps_to(pos, w),
        around(pos, -k) == w <==> k == steps_to(w, pos),
{
    reveal(around);
    reveal(steps_to);
    lemma_lap(w - pos - 1);
    lemma_lap(pos - w - 1);
    lemma_lap(pos + k);
    lemma_lap(pos - k);
}

/// A step of the analysis: what goes where.
#[derive(Debug, Clone, Copy, PartialEq, Eq, Structural)]
pub struct AnalysisStep {
    /// Where the input goes in the buffer.
    pub at: usize,
    /// How many samples of it go there, at 24 kHz.
    pub fill: usize,
    /// Where the input starts, at 24 kHz.
    pub offset: usize,
    /// The ring's place for the verdict, where the buffer is full.
    pub slot: Option<usize>,
    /// How many samples start the next window, after those that are kept.
    pub remaining: usize,
}

/// The places in the ring that a frame's verdict is drawn from.
#[derive(Debug)]
pub struct ReadPlan {
    /// The window at hand.
    pub pos: usize,
    /// Windows ahead that a tone is looked for in.
    pub ahead: Vec<usize>,
    /// The widest bandwidth around.
    pub bandwidth: i32,
    /// Where the probability of music is read first, and where that of activity.
    pub first: (usize, usize),
    /// Where the two are read on.
    pub walk: Vec<(usize, usize)>,
    /// Windows of the past that make up for too little lookahead.
    pub past: Vec<usize>,
    /// Windows between reading and writing.
    pub lookahead: i32,
}

/// Samples at the rate of the input, counted at 24 kHz.
pub open spec fn at_24k(fs: int, n: int) -> int {
    if fs == 48_000 {
        n / 2
    } else if fs == 16_000 {
        3 * n / 2
    } else {
        n
    }
}

impl AnalysisModel {
    /// What holds of every analysis.
    pub open spec fn wf(self) -> bool {
        &&& analysis_rate(self.fs)
        &&& self.mem_fill < ANALYSIS_BUF_SIZE
        &&& 0 <= self.mem_fill
        &&& self.initialized ==> ANALYSIS_OVERLAP <= self.mem_fill
        &&& 0 <= self.e_count < 8
        &&& 0 <= self.count <= ANALYSIS_COUNT_MAX
        &&& 0 <= self.write_pos < DETECT_SIZE
        &&& self.read.wf()
        &&& self.info.len() == DETECT_SIZE
    }

    /// Samples in the buffer once the analysis has started.
    pub open spec fn filled(self) -> int {
        if self.initialized {
            self.mem_fill
        } else {
            ANALYSIS_OVERLAP as int
        }
    }

    /// Whether a step of so many samples fills the buffer.
    pub open spec fn completes(self, len: int) -> bool {
        self.filled() + at_24k(self.fs, len) >= ANALYSIS_BUF_SIZE
    }

    /// What a step does.
    pub open spec fn step(self, len: int, offset: int) -> AnalysisStep {
        let n = at_24k(self.fs, len);
        let room = ANALYSIS_BUF_SIZE - self.filled();
        AnalysisStep {
            at: self.filled() as usize,
            fill: least(n, room) as usize,
            offset: at_24k(self.fs, offset) as usize,
            slot: if self.completes(len) {
                Some(self.write_pos as usize)
            } else {
                None
            },
            remaining: if self.completes(len) {
                (n - room) as usize
            } else {
                0
            },
        }
    }

    /// The analysis after a step.
    pub open spec fn stepped(self, len: int) -> AnalysisModel {
        let n = at_24k(self.fs, len);
        AnalysisModel {
            initialized: true,
            mem_fill: if self.completes(len) {
                ANALYSIS_OVERLAP + n - (ANALYSIS_BUF_SIZE - self.filled())
            } else {
                self.filled() + n
            },
            write_pos: if self.completes(len) {
                around(self.write_pos, 1)
            } else {
                self.write_pos
            },
            ..self
        }
    }

    /// The window that a frame's verdict is drawn from: where reading stands, or
    /// for a long frame the one after, but never the one that is yet to be
    /// written.
    pub open spec fn window(self, len: int) -> int {
        let next = if len > self.fs / 50 && self.read.pos != self.write_pos {
            around(self.read.pos, 1)
        } else {
            self.read.pos
        };
        if next == self.write_pos {
            around(next, -1)
        } else {
            next
        }
    }

    /// Windows between reading and writing.
    pub open spec fn lookahead(self) -> int {
        (self.write_pos - self.read.pos) % (DETECT_SIZE as int)
    }

    /// Windows ahead that are looked at: up to three that are written.
    pub open spec fn ahead(self, pos: int) -> Seq<int> {
        Seq::new(
            least(3, steps_to(pos, self.write_pos) - 1) as nat,
            |k: int| around(pos, k + 1),
        )
    }

    /// Windows of the past whose bandwidth is looked at: as many as make six with
    /// those ahead, as far as they are written.
    pub open spec fn behind(self, pos: int) -> Seq<int> {
        let span = 6 - self.ahead(pos).len();
        Seq::new(
            least(span, steps_to(self.write_pos, pos) - 1) as nat,
            |k: int| around(pos, -(k + 1)),
        )
    }

    /// The widest bandwidth of some windows, and of `start`.
    pub open spec fn widest(self, start: int, places: Seq<int>, n: int) -> int
        decreases n,
    {
        if n <= 0 {
            start
        } else {
            greatest(
                self.widest(start, places, n - 1),
                self.info[places[n - 1]].bandwidth as int,
            )
        }
    }

    /// The widest bandwidth around a window, to be safe.
    pub open spec fn bandwidth_around(self, pos: int) -> int {
        let near = self.widest(
            self.info[pos].bandwidth as int,
            self.ahead(pos),
            self.ahead(pos).len() as int,
        );
        self.widest(near, self.behind(pos), self.behind(pos).len() as int)
    }

    /// Where the probability of music is read first, and where that of activity:
    /// with enough lookahead, as much later as they come late.
    pub open spec fn first_places(self, pos: int) -> (int, int) {
        if self.lookahead() > 15 {
            (around(pos, 5), around(pos, 1))
        } else {
            (pos, pos)
        }
    }

    /// Where the two are read on, until one of them is not yet written.
    pub open spec fn walk(self, pos: int) -> Seq<(int, int)> {
        let (m, v) = self.first_places(pos);
        Seq::new(
            (least(steps_to(m, self.write_pos), steps_to(v, self.write_pos)) - 1) as nat,
            |k: int| (around(m, k + 1), around(v, k + 1)),
        )
    }

    /// Windows of the past that make up for too little lookahead.
    pub open spec fn past(self, pos: int) -> Seq<int> {
        Seq::new(
            (if self.lookahead() < 10 {
                held(self.count - 1, 0, 15)
            } else {
                0
            }) as nat,
            |k: int| around(pos, -(k + 1)),
        )
    }
}

/// Places as numbers.
pub open spec fn places(v: Seq<usize>) -> Seq<int> {
    Seq::new(v.len(), |i: int| v[i] as int)
}

/// Pairs of places as numbers.
pub open spec fn place_pairs(v: Seq<(usize, usize)>) -> Seq<(int, int)> {
    Seq::new(v.len(), |i: int| (v[i].0 as int, v[i].1 as int))
}

impl ReadPlan {
    /// What the plan says of a window.
    pub open spec fn says(self, m: AnalysisModel, pos: int) -> bool {
        &&& self.pos == pos
        &&& places(self.ahead@) == m.ahead(pos)
        &&& self.bandwidth == m.bandwidth_around(pos)
        &&& (self.first.0 as int, self.first.1 as int) == m.first_places(pos)
        &&& place_pairs(self.walk@) == m.walk(pos)
        &&& places(self.past@) == m.past(pos)
        &&& self.lookahead == m.lookahead()
    }
}

/// A place in the ring, one step on.
fn next_place(pos: usize) -> (r: usize)
    requires
        pos < DETECT_SIZE,
    ensures
        r == around(pos as int, 1),
        r < DETECT_SIZE,
{
    proof {
        reveal(around);
    }
    if pos + 1 == DETECT_SIZE {
        0
    } else {
        pos + 1
    }
}

/// A place in the ring, one step back.
fn prev_place(pos: usize) -> (r: usize)
    requires
        pos < DETECT_SIZE,
    ensures
        r == around(pos as int, -1),
        r < DETECT_SIZE,
{
    proof {
        reveal(around);
    }
    if pos == 0 {
        DETECT_SIZE - 1
    } else {
        pos - 1
    }
}

impl TonalityAnalysisState {
    /// What holds of every analysis.
    pub open spec fn wf(&self) -> bool {
        self@.wf()
    }

    /// An analysis that has seen nothing.
    pub fn new(fs: i32) -> (s: Self)
        requires
            analysis_rate(fs as int),
        ensures
            s.wf(),
            s@ == fresh(fs as int),
    {
        let mut info: Vec<Verdict> = Vec::new();
        while info.len() < DETECT_SIZE
            invariant
                info@.len() <= DETECT_SIZE,
                forall|i: int|
                    0 <= i < info@.len() ==> info@[i] == (Verdict { valid: false, bandwidth: 0 }),
            decreases DETECT_SIZE - info@.len(),
        {
            info.push(Verdict { valid: false, bandwidth: 0 });
        }
        let s = TonalityAnalysisState {
            fs,
            mem_fill: 0,
            e_count: 0,
            count: 0,
            prev_bandwidth: 0,
            analysis_offset: 0,
            write_pos: 0,
            read_pos: 0,
            read_subframe: 0,
            initialized: false,
            info,
        };
        assert(s@.info =~= fresh(fs as int).info);
        s
    }

    /// Windows that were analysed, as far as they are counted.
    pub fn count(&self) -> (n: i32)
        ensures
            n == self@.count,
    {
        self.count
    }

    /// Where the next window's energies go.
    pub fn e_count(&self) -> (at: usize)
        ensures
            at == self@.e_count,
    {
        self.e_count
    }

    /// The bandwidth of the last window that had one.
    pub fn prev_bandwidth(&self) -> (bandwidth: i32)
        ensures
            bandwidth == self@.prev_bandwidth,
    {
        self.prev_bandwidth
    }

    /// Whether anything was ever analysed.
    pub fn initialized(&self) -> (yes: bool)
        ensures
            yes == self@.initialized,
    {
        self.initialized
    }

    /// Forget everything but the rate.
    pub fn reset(&mut self)
        requires
            old(self).wf(),
        ensures
            final(self).wf(),
            final(self)@ == fresh(old(self)@.fs),
    {
        let fs: i32 = self.fs;
        *self = TonalityAnalysisState::new(fs);
    }

    /// Where the next verdict will be read.
    ///
    /// A whole packet is analysed at once but only one frame's worth of the ring
    /// is consumed. An encoder splitting that packet into several coded frames
    /// takes a snapshot here first and restores it before pulling each frame's
    /// own slice, so frame *i* sees the analysis of the audio it actually codes.
    pub fn read_position(&self) -> (at: AnalysisReadPos)
        ensures
            at@ == self@.read,
    {
        AnalysisReadPos { pos: self.read_pos, subframe: self.read_subframe }
    }

    /// Go back to where a snapshot was taken.
    pub fn set_read_position(&mut self, at: AnalysisReadPos)
        requires
            old(self).wf(),
            at@.wf(),
        ensures
            final(self).wf(),
            final(self)@ == (AnalysisModel { read: at@, ..old(self)@ }),
    {
        self.read_pos = at.pos;
        self.read_subframe = at.subframe;
    }

    /// Take `len` samples of input from `offset` on, at most 20 ms of them, and
    /// say where they go in the buffer and whether a window is full.
    pub fn step(&mut self, len: usize, offset: usize) -> (s: AnalysisStep)
        requires
            old(self).wf(),
            len * 50 <= old(self)@.fs,
            offset <= 0x10_0000,
        ensures
            final(self).wf(),
            s == old(self)@.step(len as int, offset as int),
            final(self)@ == old(self)@.stepped(len as int),
    {
        if !self.initialized {
            self.mem_fill = ANALYSIS_OVERLAP;
            self.initialized = true;
        }
        let (n, from): (usize, usize) = if self.fs == 48_000 {
            (len / 2, offset / 2)
        } else if self.fs == 16_000 {
            (3 * len / 2, 3 * offset / 2)
        } else {
            (len, offset)
        };
        let at: usize = self.mem_fill;
        let room: usize = ANALYSIS_BUF_SIZE - at;
        let fill: usize = min_usize(n, room);
        if at + n < ANALYSIS_BUF_SIZE {
            self.mem_fill = at + n;
            return AnalysisStep { at, fill, offset: from, slot: None, remaining: 0 };
        }
        let slot: usize = self.write_pos;
        self.write_pos = next_place(slot);
        let remaining: usize = n - room;
        self.mem_fill = ANALYSIS_OVERLAP + remaining;
        AnalysisStep { at, fill, offset: from, slot: Some(slot), remaining }
    }

    /// A silent window has the verdict of the one before.
    pub fn repeat_verdict(&mut self, slot: usize)
        requires
            old(self).wf(),
            slot < DETECT_SIZE,
        ensures
            final(self).wf(),
            final(self)@ == (AnalysisModel {
                info: old(self)@.info.update(
                    slot as int,
                    old(self)@.info[around(slot as int, -1)],
                ),
                ..old(self)@
            }),
    {
        let before: Verdict = self.info[prev_place(slot)];
        self.info.set(slot, before);
    }

    /// Take note of a window without a verdict.
    pub fn reject_window(&mut self, slot: usize)
        requires
            old(self).wf(),
            slot < DETECT_SIZE,
        ensures
            final(self).wf(),
            final(self)@ == (AnalysisModel {
                info: old(self)@.info.update(
                    slot as int,
                    (Verdict { valid: false, ..old(self)@.info[slot as int] }),
                ),
                ..old(self)@
            }),
    {
        let before: Verdict = self.info[slot];
        self.info.set(slot, Verdict { valid: false, bandwidth: before.bandwidth });
    }

    /// Take note of a window's bandwidth, where `found` is the last band that
    /// holds something and `masked` whether that is just leakage from below.
    pub fn record_window(&mut self, slot: usize, found: i32, masked: bool)
        requires
            old(self).wf(),
            slot < DETECT_SIZE,
            0 <= found <= FULL_BANDWIDTH,
        ensures
            final(self).wf(),
            final(self)@ == old(self)@.recorded(slot as int, found as int, masked),
    {
        let bandwidth: i32 = if self.count <= 2 {
            FULL_BANDWIDTH
        } else if found == FULL_BANDWIDTH && masked {
            found - 2
        } else if found > 0 && found <= NB_TBANDS as i32 && masked {
            found - 1
        } else {
            found
        };
        self.info.set(slot, Verdict { valid: true, bandwidth });
        self.prev_bandwidth = bandwidth;
        self.e_count = (self.e_count + 1) % 8;
        self.count = min_i32(self.count + 1, ANALYSIS_COUNT_MAX);
    }
}

impl AnalysisModel {
    /// The analysis after a window's bandwidth was taken note of.
    pub open spec fn recorded(self, slot: int, found: int, masked: bool) -> AnalysisModel {
        let bandwidth = settled_bandwidth(found, masked, self.count);
        AnalysisModel {
            info: self.info.update(
                slot,
                (Verdict { valid: true, bandwidth: bandwidth as i32 }),
            ),
            prev_bandwidth: bandwidth,
            e_count: (self.e_count + 1) % 8,
            count: least(self.count + 1, ANALYSIS_COUNT_MAX as int),
            ..self
        }
    }
}

/// A window's bandwidth: the first windows count as full, and a last band that is
/// just leakage from below is left out.
pub open spec fn settled_bandwidth(found: int, masked: bool, count: int) -> int {
    if count <= 2 {
        FULL_BANDWIDTH as int
    } else if found == FULL_BANDWIDTH && masked {
        found - 2
    } else if 0 < found <= NB_TBANDS && masked {
        found - 1
    } else {
        found
    }
}

/// A step takes every sample that it is given, once and in order: what fills the
/// buffer comes first, and the next window starts with the rest.
pub proof fn law_steps_take_every_sample(m: AnalysisModel, len: int, offset: int)
    requires
        m.wf(),
        0 <= len,
        len * 50 <= m.fs,
        0 <= offset <= 0x10_0000,
    ensures
        ({
            let s = m.step(len, offset);
            &&& s.fill + s.remaining == at_24k(m.fs, len)
            &&& s.at + s.fill <= ANALYSIS_BUF_SIZE
            &&& s.slot is Some ==> s.at + s.fill == ANALYSIS_BUF_SIZE
            &&& s.remaining > 0 ==> s.slot is Some
            &&& ANALYSIS_OVERLAP + s.remaining < ANALYSIS_BUF_SIZE
            &&& m.stepped(len).wf()
        }),
{
    reveal(around);
}

/// Reading two frames one after the other gets as far as reading both at once.
pub proof fn law_reading_adds_up(p: ReadPos, a: int, b: int)
    requires
        p.wf(),
        0 <= a,
        0 <= b,
    ensures
        p.advanced(a).advanced(b) == p.advanced(a + b),
{
    let s = p.subframe;
    let first = (s + a) / 8;
    let rest = (s + a) % 8;
    assert(s + a == 8 * first + rest);
    assert((rest + b) / 8 + first == (s + a + b) / 8);
    assert((rest + b) % 8 == (s + a + b) % 8);
    let q = (rest + b) / 8;
    assert(((p.pos + first) % 100 + q) % 100 == (p.pos + first + q) % 100);
}

impl AnalysisModel {
    /// The analysis once a frame of `len` samples has been read.
    pub open spec fn read_on(self, len: int) -> AnalysisModel {
        AnalysisModel { read: self.read.advanced(len / (self.fs / 400)), ..self }
    }

    /// Whether a plan is the one that a frame of `len` samples is read by:
    /// nothing where its window has no verdict.
    pub open spec fn reads(self, len: int, plan: Option<ReadPlan>) -> bool {
        let pos = self.window(len);
        if self.info[pos].valid {
            plan matches Some(p) && p.says(self, pos)
        } else {
            plan is None
        }
    }
}

/// Places that are the same as numbers are the same.
proof fn lemma_places(a: Seq<usize>, b: Seq<usize>)
    requires
        places(a) == places(b),
    ensures
        a == b,
{
    assert(a.len() == places(a).len() && b.len() == places(b).len());
    assert forall|i: int| 0 <= i < a.len() implies a[i] == b[i] by {
        assert(places(a)[i] == a[i] as int);
        assert(places(b)[i] == b[i] as int);
    }
    assert(a =~= b);
}

/// Reading changes nothing but where is read next, which it moves on by the
/// frame's parts of 2.5 ms, eight to a place of the ring: a packet that is split
/// can go back and read again, and is told the same, field for field.
pub proof fn law_rewinding_reads_the_same(
    m: AnalysisModel,
    len: int,
    first: Option<ReadPlan>,
    again: Option<ReadPlan>,
)
    requires
        m.wf(),
        0 <= len,
        m.reads(len, first),
        (AnalysisModel { read: m.read, ..m.read_on(len) }).reads(len, again),
    ensures
        (AnalysisModel { read: m.read, ..m.read_on(len) }) == m,
        (8 * m.read_on(len).read.pos + m.read_on(len).read.subframe) == (8 * m.read.pos
            + m.read.subframe + len / (m.fs / 400)) % (8 * DETECT_SIZE as int),
        first is Some <==> again is Some,
        first matches Some(a) ==> {
            let b = again->0;
            &&& a.pos == b.pos
            &&& a.ahead@ == b.ahead@
            &&& a.bandwidth == b.bandwidth
            &&& a.first == b.first
            &&& a.walk@ == b.walk@
            &&& a.past@ == b.past@
            &&& a.lookahead == b.lookahead
        },
{
    assert(AnalysisModel { read: m.read, ..m.read_on(len) } =~= m);
    let parts = len / (m.fs / 400);
    let s = m.read.subframe + parts;
    let q = m.read.pos + s / 8;
    assert(8 * m.read.pos + s == 8 * q + s % 8);
    assert(8 * (q % 100) + s % 8 == (8 * q + s % 8) % 800);
    if let Some(a) = first {
        let b = again->0;
        lemma_places(a.ahead@, b.ahead@);
        lemma_places(a.past@, b.past@);
        assert(a.walk@.len() == place_pairs(a.walk@).len());
        assert(b.walk@.len() == place_pairs(b.walk@).len());
        assert forall|i: int| 0 <= i < a.walk@.len() implies a.walk@[i] == b.walk@[i] by {
            let (v, w) = (a.walk@, b.walk@);
            assert(place_pairs(v)[i] == (v[i].0 as int, v[i].1 as int));
            assert(place_pairs(w)[i] == (w[i].0 as int, w[i].1 as int));
        }
        assert(a.walk@ =~= b.walk@);
    }
}

impl TonalityAnalysisState {
    /// Places from `pos` on, one step at a time, forwards or backwards, until
    /// there are `most` of them or the next one is yet to be written.
    fn places_until_written(&self, pos: usize, forwards: bool, most: usize) -> (found: Vec<usize>)
        requires
            self.wf(),
            pos < DETECT_SIZE,
            pos != self@.write_pos,
            most <= 6,
        ensures
            places(found@) == Seq::new(
                least(
                    most as int,
                    (if forwards {
                        steps_to(pos as int, self@.write_pos)
                    } else {
                        steps_to(self@.write_pos, pos as int)
                    }) - 1,
                ) as nat,
                |k: int|
                    around(
                        pos as int,
                        if forwards {
                            k + 1
                        } else {
                            -(k + 1)
                        },
                    ),
            ),
            forall|k: int| 0 <= k < found@.len() ==> (#[trigger] found@[k]) < DETECT_SIZE,
    {
        let ghost w = self@.write_pos;
        let ghost distance = if forwards {
            steps_to(pos as int, w)
        } else {
            steps_to(w, pos as int)
        };
        let mut found: Vec<usize> = Vec::new();
        let mut at: usize = pos;
        let mut open: bool = true;
        proof {
            lemma_around_step(pos as int, 0);
            lemma_hits(pos as int, w, 1);
        }
        while open && found.len() < most
            invariant
                self.wf(),
                w == self@.write_pos,
                pos < DETECT_SIZE,
                pos != w,
                at < DETECT_SIZE,
                most <= 6,
                found@.len() <= most,
                distance == (if forwards {
                    steps_to(pos as int, w)
                } else {
                    steps_to(w, pos as int)
                }),
                open ==> at == around(
                    pos as int,
                    if forwards {
                        found@.len() as int
                    } else {
                        -(found@.len() as int)
                    },
                ),
                found@.len() <= distance - 1,
                distance <= DETECT_SIZE,
                !open ==> found@.len() == distance - 1,
                forall|k: int| 0 <= k < found@.len() ==> (#[trigger] found@[k]) < DETECT_SIZE,
                forall|k: int|
                    0 <= k < found@.len() ==> (#[trigger] found@[k]) == around(
                        pos as int,
                        if forwards {
                            k + 1
                        } else {
                            -(k + 1)
                        },
                    ),
            decreases (if open {
                1int
            } else {
                0
            }), most - found@.len(),
        {
            proof {
                lemma_around_step(pos as int, found@.len() as int);
                lemma_hits(pos as int, w, 1int + found@.len());
            }
            let next: usize = if forwards {
                next_place(at)
            } else {
                prev_place(at)
            };
            if next == self.write_pos {
                open = false;
            } else {
                found.push(next);
                at = next;
            }
        }
        proof {
            let goal = Seq::new(
                least(most as int, distance - 1) as nat,
                |k: int|
                    around(
                        pos as int,
                        if forwards {
                            k + 1
                        } else {
                            -(k + 1)
                        },
                    ),
            );
            assert(places(found@) =~= goal);
        }
        found
    }

    /// The widest bandwidth of some windows, and of `start`.
    fn widest_of(&self, start: i32, found: &Vec<usize>) -> (w: i32)
        requires
            self.wf(),
            forall|k: int| 0 <= k < found@.len() ==> (#[trigger] found@[k]) < DETECT_SIZE,
        ensures
            w == self@.widest(start as int, places(found@), found@.len() as int),
    {
        let ghost model = places(found@);
        let mut w: i32 = start;
        let mut i: usize = 0;
        while i < found.len()
            invariant
                self.wf(),
                model == places(found@),
                forall|k: int| 0 <= k < found@.len() ==> (#[trigger] found@[k]) < DETECT_SIZE,
                i <= found@.len(),
                w == self@.widest(start as int, model, i as int),
            decreases found@.len() - i,
        {
            let place: usize = found[i];
            assert(model[i as int] == place);
            let bandwidth: i32 = self.info[place].bandwidth;
            if bandwidth > w {
                w = bandwidth;
            }
            i = i + 1;
        }
        w
    }

    /// Pairs of places from two on, one step at a time, until one of the next two
    /// is yet to be written.
    fn pairs_until_written(&self, m: usize, v: usize) -> (found: Vec<(usize, usize)>)
        requires
            self.wf(),
            m < DETECT_SIZE,
            v < DETECT_SIZE,
        ensures
            place_pairs(found@) == Seq::new(
                (least(
                    steps_to(m as int, self@.write_pos),
                    steps_to(v as int, self@.write_pos),
                ) - 1) as nat,
                |k: int| (around(m as int, k + 1), around(v as int, k + 1)),
            ),
    {
        let ghost w = self@.write_pos;
        let ghost distance = least(steps_to(m as int, w), steps_to(v as int, w));
        let mut found: Vec<(usize, usize)> = Vec::new();
        let mut mpos: usize = m;
        let mut vpos: usize = v;
        let mut open: bool = true;
        proof {
            lemma_around_step(m as int, 0);
            lemma_around_step(v as int, 0);
            lemma_hits(m as int, w, 1);
            lemma_hits(v as int, w, 1);
        }
        while open
            invariant
                self.wf(),
                w == self@.write_pos,
                m < DETECT_SIZE,
                v < DETECT_SIZE,
                mpos < DETECT_SIZE,
                vpos < DETECT_SIZE,
                distance == least(steps_to(m as int, w), steps_to(v as int, w)),
                distance <= DETECT_SIZE,
                open ==> mpos == around(m as int, found@.len() as int),
                open ==> vpos == around(v as int, found@.len() as int),
                found@.len() <= distance - 1,
                !open ==> found@.len() == distance - 1,
                forall|k: int|
                    0 <= k < found@.len() ==> (#[trigger] found@[k]).0 == around(m as int, k + 1)
                        && found@[k].1 == around(v as int, k + 1),
            decreases (if open {
                1int
            } else {
                0
            }), DETECT_SIZE - found@.len(),
        {
            proof {
                lemma_around_step(m as int, found@.len() as int);
                lemma_around_step(v as int, found@.len() as int);
                lemma_hits(m as int, w, 1int + found@.len());
                lemma_hits(v as int, w, 1int + found@.len());
            }
            mpos = next_place(mpos);
            if mpos == self.write_pos {
                open = false;
            } else {
                vpos = next_place(vpos);
                if vpos == self.write_pos {
                    open = false;
                } else {
                    found.push((mpos, vpos));
                }
            }
        }
        proof {
            let goal = Seq::new(
                (distance - 1) as nat,
                |k: int| (around(m as int, k + 1), around(v as int, k + 1)),
            );
            assert(place_pairs(found@) =~= goal);
        }
        found
    }

    /// Windows before `pos`.
    fn past_places(&self, pos: usize, n: usize) -> (found: Vec<usize>)
        requires
            pos < DETECT_SIZE,
            n <= 15,
        ensures
            places(found@) == Seq::new(n as nat, |k: int| around(pos as int, -(k + 1))),
    {
        let mut found: Vec<usize> = Vec::new();
        let mut at: usize = pos;
        proof {
            lemma_around_step(pos as int, 0);
        }
        while found.len() < n
            invariant
                pos < DETECT_SIZE,
                at < DETECT_SIZE,
                n <= 15,
                found@.len() <= n,
                at == around(pos as int, -(found@.len() as int)),
                forall|k: int|
                    0 <= k < found@.len() ==> (#[trigger] found@[k]) == around(
                        pos as int,
                        -(k + 1),
                    ),
            decreases n - found@.len(),
        {
            proof {
                lemma_around_step(pos as int, found@.len() as int);
            }
            at = prev_place(at);
            found.push(at);
        }
        assert(places(found@) =~= Seq::new(n as nat, |k: int| around(pos as int, -(k + 1))));
        found
    }

    /// The places of the ring that the verdict of a window is drawn from.
    fn plan_at(&self, pos: usize, lookahead: i32) -> (plan: ReadPlan)
        requires
            self.wf(),
            pos < DETECT_SIZE,
            pos != self@.write_pos,
            lookahead == self@.lookahead(),
        ensures
            plan.says(self@, pos as int),
    {
        let ghost m = self@;
        let ahead: Vec<usize> = self.places_until_written(pos, true, 3);
        assert(places(ahead@) =~= m.ahead(pos as int));
        proof {
            lemma_hits(pos as int, m.write_pos, 1);
            assert(ahead@.len() == places(ahead@).len());
        }
        let near: i32 = self.widest_of(self.info[pos].bandwidth, &ahead);
        let behind: Vec<usize> = self.places_until_written(pos, false, 6 - ahead.len());
        assert(places(behind@) =~= m.behind(pos as int));
        assert(behind@.len() == places(behind@).len());
        let bandwidth: i32 = self.widest_of(near, &behind);
        // If we have enough look-ahead, compensate for the delay in the music
        // probability and in the activity's.
        let first: (usize, usize) = if lookahead > 15 {
            proof {
                reveal(around);
            }
            ((pos + 5) % DETECT_SIZE, (pos + 1) % DETECT_SIZE)
        } else {
            (pos, pos)
        };
        let walk: Vec<(usize, usize)> = self.pairs_until_written(first.0, first.1);
        assert(place_pairs(walk@) =~= m.walk(pos as int));
        // If we don't have enough look-ahead, do our best to make a decent
        // decision.
        let n: usize = if lookahead < 10 {
            hold(self.count - 1, 0, 15) as usize
        } else {
            0
        };
        let past: Vec<usize> = self.past_places(pos, n);
        assert(places(past@) =~= m.past(pos as int));
        ReadPlan { pos, ahead, bandwidth, first, walk, past, lookahead }
    }

    /// The window that a frame's verdict is drawn from.
    fn window_of(&self, len: usize) -> (pos: usize)
        requires
            self.wf(),
            len <= 5760,
        ensures
            pos == self@.window(len as int),
            pos < DETECT_SIZE,
            pos != self@.write_pos,
    {
        proof {
            lemma_around_step(self@.read.pos, 0);
            lemma_hits(self@.write_pos, self@.write_pos, 1);
            reveal(around);
        }
        let mut pos: usize = self.read_pos;
        // On long frames, look at the second analysis window rather than the
        // first.
        if len as i32 > self.fs / 50 && pos != self.write_pos {
            pos = next_place(pos);
        }
        if pos == self.write_pos {
            pos = prev_place(pos);
        }
        pos
    }
}

/// Move on by a frame of `len` samples, and say which places of the ring its
/// verdict is drawn from: nothing where its window has none.
pub fn tonality_get_info(tonal: &mut TonalityAnalysisState, len: usize) -> (plan: Option<ReadPlan>)
    requires
        old(tonal).wf(),
        len <= 5760,
    ensures
        final(tonal).wf(),
        final(tonal)@ == old(tonal)@.read_on(len as int),
        old(tonal)@.reads(len as int, plan),
{
    let pos: usize = tonal.window_of(len);
    let lookahead: i32 = if tonal.write_pos >= tonal.read_pos {
        (tonal.write_pos - tonal.read_pos) as i32
    } else {
        (tonal.write_pos + DETECT_SIZE - tonal.read_pos) as i32
    };
    let plan: Option<ReadPlan> = if tonal.info[pos].valid {
        Some(tonal.plan_at(pos, lookahead))
    } else {
        None
    };
    proof {
        reveal(around);
    }
    let parts: i32 = len as i32 / (tonal.fs / 400);
    let subframe: i32 = tonal.read_subframe + parts;
    tonal.read_pos = (tonal.read_pos + (subframe / 8) as usize) % DETECT_SIZE;
    tonal.read_subframe = subframe % 8;
    plan
}
/// How much audio is analysed for a packet: an even number of samples, and no
/// more than the ring can hold.
pub open spec fn analysed_samples(size: int, fs: int) -> int {
    least(size - size % 2, 95 * fs / 50)
}

/// The pieces that audio is analysed in: 20 ms each but for the last.
pub open spec fn pieces(from: int, len: int, step: int) -> Seq<(int, int)>
    decreases (if len > 0 {
        len
    } else {
        0
    }),
{
    if len <= 0 || step <= 0 {
        Seq::empty()
    } else {
        seq![(least(step, len), from)] + pieces(from + step, len - step, step)
    }
}

impl TonalityAnalysisState {
    /// The pieces that a packet's audio is analysed in, as lengths and where
    /// they start, past what was analysed with the packet before.
    pub fn begin_packet(&mut self, analysis_frame_size: usize, frame_size: usize) -> (steps: Vec<(
        usize,
        usize,
    )>)
        requires
            old(self).wf(),
            analysis_frame_size <= 0x10_0000,
            frame_size <= 5760,
            0 <= old(self)@.analysis_offset <= 0x10_0000,
        ensures
            final(self).wf(),
            ({
                let size = analysed_samples(analysis_frame_size as int, old(self)@.fs);
                &&& place_pairs(steps@) == pieces(
                    old(self)@.analysis_offset,
                    size - old(self)@.analysis_offset,
                    old(self)@.fs / 50,
                )
                &&& final(self)@ == (AnalysisModel {
                    analysis_offset: size - frame_size,
                    ..old(self)@
                })
            }),
    {
        let step: i32 = self.fs / 50;
        let even: usize = analysis_frame_size - analysis_frame_size % 2;
        let size: usize = min_usize(even, (95 * self.fs / 50) as usize);
        let mut left: i32 = size as i32 - self.analysis_offset;
        let mut from: i32 = self.analysis_offset;
        let mut steps: Vec<(usize, usize)> = Vec::new();
        let ghost all = pieces(from as int, left as int, step as int);
        assert(place_pairs(steps@) + all =~= all);
        while left > 0
            invariant
                step > 0,
                step <= 960,
                0 <= from,
                left > 0 ==> from + left <= 0x20_0000,
                left <= 0x20_0000,
                from <= 0x30_0000,
                left >= -0x20_0000,
                place_pairs(steps@) + pieces(from as int, left as int, step as int) == all,
            decreases left + step,
        {
            let n: i32 = min_i32(step, left);
            let ghost before = steps@;
            steps.push((n as usize, from as usize));
            proof {
                let rest = pieces(from + step, left - step, step as int);
                assert(place_pairs(steps@) + rest =~= place_pairs(before) + (seq![
                    (n as int, from as int),
                ] + rest));
            }
            from = from + step;
            left = left - step;
        }
        assert(place_pairs(steps@) + Seq::<(int, int)>::empty() =~= place_pairs(steps@));
        self.analysis_offset = size as i32 - frame_size as i32;
        steps
    }
}

/// Where the first `n` of some pieces end.
pub open spec fn pieces_end(p: Seq<(int, int)>, from: int, n: int) -> int
    decreases n,
{
    if n <= 0 {
        from
    } else {
        p[n - 1].1 + p[n - 1].0
    }
}

/// The pieces follow one another without a gap, and are together what there is.
pub proof fn law_pieces_cover_the_audio(from: int, len: int, step: int, k: int)
    requires
        0 < step,
        0 <= len,
    ensures
        ({
            let p = pieces(from, len, step);
            &&& 0 <= k < p.len() ==> p[k].1 == pieces_end(p, from, k) && 0 < p[k].0 <= step
            &&& pieces_end(p, from, p.len() as int) == from + len
        }),
    decreases len,
{
    let p = pieces(from, len, step);
    if len > 0 {
        let n = least(step, len);
        let rest = pieces(from + step, len - step, step);
        assert(p =~= seq![(n, from)] + rest);
        if len > step {
            law_pieces_cover_the_audio(from + step, len - step, step, k - 1);
            if 0 < k < p.len() {
                assert(p[k] == rest[k - 1]);
                if k > 1 {
                    assert(p[k - 1] == rest[k - 2]);
                }
            }
            assert(rest.len() > 0);
            assert(p[p.len() - 1] == rest[rest.len() - 1]);
        } else {
            assert(rest.len() == 0);
        }
    }
}

/// Places go around a hundred.
proof fn lemma_around(pos: int, steps: int)
    requires
        0 <= pos < 100,
        -100 <= steps <= 100,
    ensures
        around(pos, steps) == (if pos + steps < 0 {
            pos + steps + 100
        } else if pos + steps < 100 {
            pos + steps
        } else {
            pos + steps - 100
        }),
{
    reveal(around);
    lemma_lap(pos + steps);
}

/// What comes in is analysed at 24 kHz: as long, whatever its rate is.
pub proof fn law_analysis_runs_at_24_khz(fs: int, n: int)
    requires
        analysis_rate(fs),
        n % 2 == 0,
    ensures
        at_24k(fs, n) * fs == n * 24_000,
{
    if fs == 16_000 {
        assert((3 * n / 2) * 2 == 3 * n);
    }
}

/// A window is 30 ms, and shares 10 ms with the next: it is complete once 720 samples
/// are there, of which the first 240 are from the one before, and what is left over
/// follows the 240 that stay.
pub proof fn law_windows_overlap(m: AnalysisModel, len: int, offset: int)
    requires
        m.wf(),
        0 <= len,
        len * 50 <= m.fs,
        0 <= offset <= 0x10_0000,
    ensures
        ({
            let s = m.step(len, offset);
            let n = at_24k(m.fs, len);
            let after = m.stepped(len);
            &&& !m.initialized ==> s.at == 240
            &&& m.initialized ==> s.at == m.mem_fill
            &&& s.slot is Some <==> s.at + n >= 720
            &&& s.slot is Some ==> s.slot->0 == m.write_pos && after.mem_fill == 240 + s.remaining
                && after.write_pos == (m.write_pos + 1) % 100 && s.at + n == 720 + s.remaining
            &&& s.slot is None ==> s.fill == n && after.mem_fill == s.at + n && after.write_pos
                == m.write_pos && s.remaining == 0
            &&& after.initialized
            &&& s.offset == at_24k(m.fs, offset)
        }),
{
    law_steps_take_every_sample(m, len, offset);
    lemma_around(m.write_pos, 1);
}

/// What is read of the analysis is the window where reading stands: the next one for
/// packets of more than 20 ms, and the last one written where there is none.
pub proof fn law_reading_keeps_behind(m: AnalysisModel, len: int)
    requires
        m.wf(),
    ensures
        ({
            let at = m.window(len);
            let last = if m.write_pos == 0 {
                99
            } else {
                m.write_pos - 1
            };
            let next = if m.read.pos == 99 {
                0
            } else {
                m.read.pos + 1
            };
            &&& m.read.pos == m.write_pos ==> at == last
            &&& m.read.pos != m.write_pos && len <= m.fs / 50 ==> at == m.read.pos
            &&& m.read.pos != m.write_pos && len > m.fs / 50 && next != m.write_pos ==> at == next
            &&& m.read.pos != m.write_pos && len > m.fs / 50 && next == m.write_pos ==> at == last
        }),
{
    lemma_around(m.read.pos, 1);
    lemma_around(m.write_pos, -1);
}

/// Reading goes on by the packet's length, in eighths of a window, around the hundred
/// that are kept.
pub proof fn law_reading_goes_on(m: AnalysisModel, len: int)
    requires
        m.wf(),
        0 <= len,
    ensures
        ({
            let at = 8 * m.read.pos + m.read.subframe;
            let after = m.read_on(len).read;
            &&& 8 * after.pos + after.subframe == (at + 400 * len / m.fs) % 800
            &&& 0 <= after.subframe < 8
            &&& 0 <= after.pos < 100
        }),
{
    let a = m.read.subframe + len / (m.fs / 400);
    let at = 8 * m.read.pos + m.read.subframe;
    let unit = m.fs / 400;
    assert(400 * len / m.fs == len / unit) by {
        assert(m.fs == 400 * unit);
        vstd::arithmetic::div_mod::lemma_div_denominator(400 * len, 400, unit);
        assert(400 * len / 400 == len);
    }
    assert(len / unit >= 0) by (nonlinear_arith)
        requires
            len >= 0,
            unit >= 1,
    ;
    assert(8 * ((m.read.pos + a / 8) % 100) + a % 8 == (8 * m.read.pos + a) % 800);
}

/// The windows that the bandwidth is looked for in: up to three later than the one
/// that is read, as far as they are written, and as many earlier ones as make it six.
pub proof fn law_bandwidth_is_looked_for_around(m: AnalysisModel, pos: int, k: int)
    requires
        m.wf(),
        0 <= pos < 100,
        pos != m.write_pos,
    ensures
        ({
            let ahead = m.ahead(pos);
            let behind = m.behind(pos);
            let written = if m.write_pos > pos {
                m.write_pos - pos - 1
            } else {
                m.write_pos - pos + 99
            };
            &&& ahead.len() == (if written < 3 {
                written
            } else {
                3
            })
            &&& ahead.len() + behind.len() <= 6
            &&& ahead.len() + behind.len() == 6 || behind.len() == 98 - written
            &&& 0 <= k < ahead.len() ==> ahead[k] == (pos + 1 + k) % 100
            &&& 0 <= k < behind.len() ==> behind[k] == (pos + 99 - k) % 100
        }),
{
    reveal(steps_to);
    lemma_lap(m.write_pos - pos - 1);
    lemma_lap(pos - m.write_pos - 1);
    if 0 <= k < 6 {
        lemma_around(pos, k + 1);
        lemma_around(pos, -(k + 1));
    }
}

/// What is found around a window is the widest of what is there.
pub proof fn law_widest_bandwidth_is_found(
    m: AnalysisModel,
    start: int,
    places: Seq<int>,
    n: int,
    k: int,
)
    requires
        0 <= n,
    ensures
        m.widest(start, places, n) >= start,
        0 <= k < n ==> m.widest(start, places, n) >= m.info[places[k]].bandwidth,
        m.widest(start, places, n) == start || exists|j: int|
            0 <= j < n && m.widest(start, places, n) == m.info[#[trigger] places[j]].bandwidth,
    decreases n,
{
    if n > 0 {
        law_widest_bandwidth_is_found(m, start, places, n - 1, k);
        let before = m.widest(start, places, n - 1);
        if before != start {
            let j = choose|j: int|
                0 <= j < n - 1 && before == m.info[#[trigger] places[j]].bandwidth;
            assert(0 <= j < n && before == m.info[places[j]].bandwidth);
        }
        assert(m.info[places[n - 1]].bandwidth <= m.widest(start, places, n));
    }
}

/// Where music and speech are told from: with more than fifteen windows ahead, five
/// later and one later. Up to fifteen earlier windows are taken in too where fewer than
/// ten are ahead, as far as there have been any.
pub proof fn law_content_is_told_from(m: AnalysisModel, pos: int, k: int)
    requires
        m.wf(),
        0 <= pos < 100,
    ensures
        m.lookahead() == (if m.write_pos >= m.read.pos {
            m.write_pos - m.read.pos
        } else {
            m.write_pos - m.read.pos + 100
        }),
        m.lookahead() >= 16 ==> m.first_places(pos) == ((pos + 5) % 100, (pos + 1) % 100),
        m.lookahead() <= 15 ==> m.first_places(pos) == (pos, pos),
        m.lookahead() >= 10 ==> m.past(pos).len() == 0,
        m.lookahead() <= 9 && m.count == 0 ==> m.past(pos).len() == 0,
        m.lookahead() <= 9 && 1 <= m.count <= 16 ==> m.past(pos).len() == m.count - 1,
        m.lookahead() <= 9 && m.count >= 16 ==> m.past(pos).len() == 15,
        0 <= k < m.past(pos).len() ==> m.past(pos)[k] == (pos + 99 - k) % 100,
{
    let x = m.write_pos - m.read.pos;
    assert(x % (DETECT_SIZE as int) == x % 100);
    lemma_around(pos, 5);
    lemma_around(pos, 1);
    if 0 <= k < 15 {
        lemma_around(pos, -(k + 1));
    }
}

/// The first three windows count as full. After that a last band that is just leakage
/// is left out, which is two from the very last, and kept at none.
pub proof fn law_leakage_is_left_out(m: AnalysisModel, slot: int, found: int, masked: bool)
    requires
        m.wf(),
        0 <= slot < 100,
        0 <= found <= 20,
    ensures
        m.count <= 2 ==> settled_bandwidth(found, masked, m.count) == 20,
        m.count >= 3 && !masked ==> settled_bandwidth(found, masked, m.count) == found,
        m.count >= 3 && masked && found == 20 ==> settled_bandwidth(found, masked, m.count) == 18,
        m.count >= 3 && masked && 1 <= found <= 18 ==> settled_bandwidth(found, masked, m.count)
            == found - 1,
        m.count >= 3 && masked && (found == 0 || found == 19) ==> settled_bandwidth(
            found,
            masked,
            m.count,
        ) == found,
        ({
            let after = m.recorded(slot, found, masked);
            &&& after.info[slot].valid
            &&& after.info[slot].bandwidth == settled_bandwidth(found, masked, m.count)
            &&& after.prev_bandwidth == after.info[slot].bandwidth
            &&& m.count < 10_000 ==> after.count == m.count + 1
            &&& m.count == 10_000 ==> after.count == 10_000
            &&& m.e_count < 7 ==> after.e_count == m.e_count + 1
            &&& m.e_count == 7 ==> after.e_count == 0
            &&& after.write_pos == m.write_pos && after.read == m.read
        }),
{
}

/// No more than 1.9 s are analysed at once, and an even number of samples.
pub proof fn law_analysis_is_bounded(size: int, fs: int)
    requires
        0 <= size,
        analysis_rate(fs),
    ensures
        analysed_samples(size, fs) * 10 <= 19 * fs,
        analysed_samples(size, fs) % 2 == 0,
        analysed_samples(size, fs) <= size,
        size * 10 <= 19 * fs ==> size - 1 <= analysed_samples(size, fs),
        size * 10 >= 19 * fs + 10 ==> analysed_samples(size, fs) * 10 == 19 * fs,
{
}

/// A new analysis has heard nothing, and has no verdict on any window.
pub proof fn law_fresh_analysis(fs: int, i: int)
    requires
        0 <= i < 100,
    ensures
        ({
            let m = fresh(fs);
            &&& m.fs == fs
            &&& m.mem_fill == 0 && m.e_count == 0 && m.count == 0
            &&& m.prev_bandwidth == 0 && m.analysis_offset == 0
            &&& m.write_pos == 0 && m.read.pos == 0 && m.read.subframe == 0
            &&& !m.initialized
            &&& m.info.len() == 100 && !m.info[i].valid
        }),
{
}

/// What tells music from speech is gone through a window at a time, both places at
/// once, up to where the first of them meets what is not written yet.
pub proof fn law_content_is_gone_through(m: AnalysisModel, pos: int, k: int)
    requires
        m.wf(),
        0 <= pos < 100,
    ensures
        ({
            let (a, b) = m.first_places(pos);
            let walk = m.walk(pos);
            let ahead = |p: int|
                if m.write_pos > p {
                    m.write_pos - p - 1
                } else {
                    m.write_pos - p + 99
                };
            &&& walk.len() == least(ahead(a), ahead(b))
            &&& 0 <= k < walk.len() ==> walk[k] == ((a + 1 + k) % 100, (b + 1 + k) % 100)
        }),
{
    reveal(steps_to);
    let (a, b) = m.first_places(pos);
    lemma_around(pos, 5);
    lemma_around(pos, 1);
    lemma_lap(m.write_pos - a - 1);
    lemma_lap(m.write_pos - b - 1);
    if 0 <= k < 100 {
        lemma_around(a, k + 1);
        lemma_around(b, k + 1);
    }
}

} // verus!
