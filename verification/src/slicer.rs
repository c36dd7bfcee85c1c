//! Silence-based slicing of an audio signal.
//!
//! The signal is summarised as one RMS level per hop. Levels are handed to
//! this module as order keys (`u64`): a larger key is a louder hop, and a hop
//! is silent when its key is below the threshold key of the slicer.
use vstd::prelude::*;
use vstd::math::{min, max};
use crate::hops::{
    argmin_offset, argmin_range, chunk_ranges, in_tag_span, lemma_chunk_edges, tag_end_at,
    tag_start_at, lemma_chunk_complement, first_min_at, first_min_index, lemma_first_min_at, in_some_range, lemma_below_count,
    lemma_chunk_ranges_ordered, lemma_count_bound, lemma_first_min_index, lemma_locate,
    lemma_scale_le, pairs_as_int, ranges_as_int, ranges_nonempty, ranges_ordered,
    tags_ordered_below, tags_well_formed,
};

verus! {

// ---------------------------------------------------------------------------
// Arithmetic helpers
// ---------------------------------------------------------------------------

/// Integer division rounding toward zero, as `/` on Rust's signed integers.
pub open spec fn trunc_div(a: int, b: int) -> int {
    if a >= 0 {
        a / b
    } else {
        -((-a) / b)
    }
}

/// `x` is a value of `i64`.
pub open spec fn fits_i64(x: int) -> bool {
    i64::MIN <= x <= i64::MAX
}

// ---------------------------------------------------------------------------
// Configuration and the slicer
// ---------------------------------------------------------------------------

/// Parameters of the slicer. Durations are in milliseconds.
#[derive(Debug, Clone, Copy)]
pub struct SliceConfig {
    /// Order key of the linear amplitude threshold: a hop whose level key is
    /// below this key is silent.
    pub threshold_level: u64,
    /// Minimum length of a slice in milliseconds
    pub min_length: i64,
    /// Minimum interval between slices in milliseconds
    pub min_interval: i64,
    /// Hop size in milliseconds
    pub hop_size: i64,
    /// Maximum silence kept at edges in milliseconds
    pub max_sil_kept: i64,
}

/// Why a configuration is refused.
#[derive(Debug, Clone, Copy, PartialEq, Eq, Structural)]
pub enum SliceConfigError {
    /// `min_length >= min_interval >= hop_size` does not hold.
    IntervalOrder,
    /// `max_sil_kept >= hop_size` does not hold.
    SilenceKeptTooShort,
}

impl SliceConfigError {
    /// The message that describes the refusal.
    pub fn message(&self) -> (s: String)
        ensures
            *self == SliceConfigError::IntervalOrder ==> s@
                == "Invalid config: min_length >= min_interval >= hop_size must be satisfied"@,
            *self == SliceConfigError::SilenceKeptTooShort ==> s@
                == "Invalid config: max_sil_kept >= hop_size must be satisfied"@,
    {
        match self {
            SliceConfigError::IntervalOrder => {
                "Invalid config: min_length >= min_interval >= hop_size must be satisfied".to_owned()
            },
            SliceConfigError::SilenceKeptTooShort => {
                "Invalid config: max_sil_kept >= hop_size must be satisfied".to_owned()
            },
        }
    }
}

/// `min_length >= min_interval >= hop_size`.
pub open spec fn intervals_ordered(c: SliceConfig) -> bool {
    c.min_length >= c.min_interval && c.min_interval >= c.hop_size
}

/// The configuration is accepted.
pub open spec fn config_accepted(c: SliceConfig) -> bool {
    intervals_ordered(c) && c.max_sil_kept >= c.hop_size
}

/// `ms` milliseconds at `sample_rate`, in samples, rounded half up toward zero
/// as `(ms * rate + 500) / 1000` in `i64`.
pub open spec fn rounded_samples(ms: i64, sample_rate: u32) -> int {
    trunc_div(ms * sample_rate + 500, 1000)
}

/// `ms` milliseconds at `sample_rate`, in hops of `hop` samples, as
/// `(ms * rate + 500) / (1000 * hop)` in `i64`.
pub open spec fn rounded_hops(ms: i64, sample_rate: u32, hop: int) -> int {
    trunc_div(ms * sample_rate + 500, 1000 * hop)
}

/// `ms * rate + 500` can be computed in `i64`.
pub open spec fn scaled_fits(ms: i64, sample_rate: u32) -> bool {
    fits_i64(ms * sample_rate) && fits_i64(ms * sample_rate + 500)
}

/// The derived sizes of an accepted configuration can be computed in `i64`
/// and the hop is not empty (an empty hop would divide by zero).
pub open spec fn params_computable(sample_rate: u32, c: SliceConfig) -> bool {
    &&& scaled_fits(c.hop_size, sample_rate)
    &&& scaled_fits(c.min_interval, sample_rate)
    &&& scaled_fits(c.min_length, sample_rate)
    &&& scaled_fits(c.max_sil_kept, sample_rate)
    &&& rounded_samples(c.hop_size, sample_rate) != 0
}

/// Splits a level sequence into slices at silent stretches.
pub struct AudioSlicer {
    config: SliceConfig,
    sample_rate: u32,
    threshold_level: u64,
    hop_size_samples: i64,
    win_size_samples: i64,
    min_length_hops: i64,
    min_interval_hops: i64,
    max_sil_kept_hops: i64,
}

impl AudioSlicer {
    /// The configuration the slicer was made with.
    pub closed spec fn spec_config(self) -> SliceConfig {
        self.config
    }

    /// The sample rate the slicer was made with.
    pub closed spec fn spec_sample_rate(self) -> u32 {
        self.sample_rate
    }

    /// Threshold key: levels below it are silent.
    pub closed spec fn spec_threshold_level(self) -> u64 {
        self.threshold_level
    }

    /// Samples per hop.
    pub closed spec fn spec_hop_size_samples(self) -> int {
        self.hop_size_samples as int
    }

    /// Samples per RMS window.
    pub closed spec fn spec_win_size_samples(self) -> int {
        self.win_size_samples as int
    }

    /// Minimum slice length, in hops.
    pub closed spec fn spec_min_length_hops(self) -> int {
        self.min_length_hops as int
    }

    /// Minimum silence between slices, in hops.
    pub closed spec fn spec_min_interval_hops(self) -> int {
        self.min_interval_hops as int
    }

    /// Maximum silence kept at the edge of a slice, in hops.
    pub closed spec fn spec_max_sil_kept_hops(self) -> int {
        self.max_sil_kept_hops as int
    }

    /// The slicer can slice: its hop is positive, and with it every derived
    /// size is at least one and the kept silence is far from overflowing.
    pub open spec fn usable(self) -> bool {
        &&& 0 < self.spec_hop_size_samples() <= i64::MAX / 1000
        &&& self.spec_hop_size_samples() <= self.spec_win_size_samples() <= 4
            * self.spec_hop_size_samples()
        &&& self.spec_min_length_hops() >= 1
        &&& self.spec_min_interval_hops() >= 1
        &&& 1 <= self.spec_max_sil_kept_hops() <= i64::MAX / 1000
    }

    #[verifier::type_invariant]
    spec fn positive_hop_usable(self) -> bool {
        self.hop_size_samples > 0 ==> self.usable()
    }

    /// Checks the configuration and derives the hop, window and hop counts
    /// from it at the given sample rate.
    pub fn new(sample_rate: u32, config: SliceConfig) -> (r: Result<AudioSlicer, SliceConfigError>)
        requires
            config_accepted(config) ==> params_computable(sample_rate, config),
        ensures
            !intervals_ordered(config) ==> r == Err::<AudioSlicer, SliceConfigError>(
                SliceConfigError::IntervalOrder,
            ),
            intervals_ordered(config) && config.max_sil_kept < config.hop_size ==> r == Err::<
                AudioSlicer,
                SliceConfigError,
            >(SliceConfigError::SilenceKeptTooShort),
            config_accepted(config) ==> r is Ok,
            r matches Ok(s) ==> {
                let hop = rounded_samples(config.hop_size, sample_rate);
                &&& s.spec_config() == config
                &&& s.spec_sample_rate() == sample_rate
                &&& s.spec_threshold_level() == config.threshold_level
                &&& s.spec_hop_size_samples() == hop
                &&& s.spec_win_size_samples() == min(
                    rounded_samples(config.min_interval, sample_rate),
                    4 * hop,
                )
                &&& s.spec_min_length_hops() == rounded_hops(config.min_length, sample_rate, hop)
                &&& s.spec_min_interval_hops() == rounded_hops(
                    config.min_interval,
                    sample_rate,
                    hop,
                )
                &&& s.spec_max_sil_kept_hops() == rounded_hops(
                    config.max_sil_kept,
                    sample_rate,
                    hop,
                )
            },
            r matches Ok(s) ==> s.spec_hop_size_samples() > 0 ==> {
                // sizes are durations rounded to the nearest sample or hop, halves up
                let sr = sample_rate as int;
                let hop = s.spec_hop_size_samples();
                let w = s.spec_win_size_samples();
                let ml = s.spec_min_length_hops();
                let mi = s.spec_min_interval_hops();
                let mk = s.spec_max_sil_kept_hops();
                &&& 1000 * hop <= config.hop_size * sr + 500 < 1000 * (hop + 1)
                &&& 1000 * hop * ml <= config.min_length * sr + 500 < 1000 * hop * (ml + 1)
                &&& 1000 * hop * mi <= config.min_interval * sr + 500 < 1000 * hop * (mi + 1)
                &&& 1000 * hop * mk <= config.max_sil_kept * sr + 500 < 1000 * hop * (mk + 1)
                &&& w <= 4 * hop
                &&& (w == 4 * hop || 1000 * w <= config.min_interval * sr + 500 < 1000 * (w + 1))
                &&& (w == 4 * hop ==> config.min_interval * sr + 500 >= 4000 * hop)
            },
    {
        if !(config.min_length >= config.min_interval && config.min_interval >= config.hop_size) {
            return Err(SliceConfigError::IntervalOrder);
        }
        if config.max_sil_kept < config.hop_size {
            return Err(SliceConfigError::SilenceKeptTooShort);
        }
        let sr = sample_rate as i64;
        proof {
            lemma_trunc_div_1000(config.hop_size * sample_rate + 500);
        }
        let hop_size_samples = (config.hop_size * sr + 500) / 1000;
        let interval_samples = (config.min_interval * sr + 500) / 1000;
        let win_size_samples = if interval_samples < 4 * hop_size_samples {
            interval_samples
        } else {
            4 * hop_size_samples
        };
        let hop_den = 1000 * hop_size_samples;
        let min_length_hops = (config.min_length * sr + 500) / hop_den;
        let min_interval_hops = (config.min_interval * sr + 500) / hop_den;
        let max_sil_kept_hops = (config.max_sil_kept * sr + 500) / hop_den;
        proof {
            if hop_size_samples > 0 {
                lemma_derived_sizes(sample_rate, config);
                lemma_rounding(sample_rate, config);
            }
            lemma_trunc_div_fits(config.min_length * sample_rate + 500, hop_den as int);
            lemma_trunc_div_fits(config.min_interval * sample_rate + 500, hop_den as int);
            lemma_trunc_div_fits(config.max_sil_kept * sample_rate + 500, hop_den as int);
        }
        Ok(AudioSlicer {
            config,
            sample_rate,
            threshold_level: config.threshold_level,
            hop_size_samples,
            win_size_samples,
            min_length_hops,
            min_interval_hops,
            max_sil_kept_hops,
        })
    }
}

impl AudioSlicer {
    /// Samples per hop.
    pub fn hop_size_samples(&self) -> (r: i64)
        ensures
            r == self.spec_hop_size_samples(),
    {
        self.hop_size_samples
    }

    /// Samples per RMS window.
    pub fn win_size_samples(&self) -> (r: i64)
        ensures
            r == self.spec_win_size_samples(),
    {
        self.win_size_samples
    }

    /// Threshold key: levels below it are silent.
    pub fn threshold_level(&self) -> (r: u64)
        ensures
            r == self.spec_threshold_level(),
    {
        self.threshold_level
    }
}

// ---------------------------------------------------------------------------
// Feeding the moving RMS window
// ---------------------------------------------------------------------------

/// What the moving RMS window takes in before the level of one hop is read:
/// `zeros_before` zeros, then samples `start..end`, then `zeros_after` zeros.
#[derive(Debug, Clone, Copy, PartialEq, Eq, Structural)]
pub struct HopFeed {
    pub zeros_before: usize,
    pub start: usize,
    pub end: usize,
    pub zeros_after: usize,
}

/// The feed as four integers.
pub open spec fn feed_as_int(f: HopFeed) -> (int, int, int, int) {
    (f.zeros_before as int, f.start as int, f.end as int, f.zeros_after as int)
}

impl AudioSlicer {
    /// Zeros fed ahead of the signal: half a window.
    pub open spec fn padding(self) -> int {
        self.spec_win_size_samples() / 2
    }

    /// The feed before level `k` of a signal of `frames` frames. Level 0
    /// sees the padding and the first `padding` samples; each later level
    /// sees the next hop of samples from `padding + (k - 1) * hop`, zero
    /// filled past the end, and only zeros once that start is past the end.
    pub open spec fn hop_feed(self, frames: int, k: int) -> (int, int, int, int) {
        let hop = self.spec_hop_size_samples();
        let p = self.padding();
        if k == 0 {
            (p, 0, min(p, frames), 0)
        } else {
            let pos = p + (k - 1) * hop;
            if pos < frames {
                (0, pos, min(pos + hop, frames), pos + hop - min(pos + hop, frames))
            } else {
                (0, frames, frames, hop)
            }
        }
    }

    /// The window takes in the signal in order, each sample at most once:
    /// the first feed starts at frame 0, every feed's samples lie within the
    /// signal and end where the next feed's samples start, and every later level
    /// advances the window by exactly one hop of values. Half a window of
    /// zeros leads, so the samples of level `k >= 1` start half a window
    /// plus `k - 1` hops into the signal.
    pub proof fn lemma_hop_feeds_in_order(self, frames: int)
        requires
            self.usable(),
            frames >= 0,
        ensures
            self.hop_feed(frames, 0).1 == 0,
            forall|k: int|
                0 <= k ==> 0 <= #[trigger] self.hop_feed(frames, k).1 <= self.hop_feed(frames, k).2
                    <= frames,
            forall|k: int|
                0 <= k ==> #[trigger] self.hop_feed(frames, k).2 == self.hop_feed(frames, k + 1).1,
            forall|k: int|
                1 <= k ==> {
                    let f = #[trigger] self.hop_feed(frames, k);
                    &&& f.0 == 0
                    &&& (f.2 - f.1) + f.3 == self.spec_hop_size_samples()
                },
            self.hop_feed(frames, 0).0 == self.spec_win_size_samples() / 2,
            self.hop_feed(frames, 0).2 == min(self.spec_win_size_samples() / 2, frames),
            forall|k: int|
                1 <= k && self.spec_win_size_samples() / 2 + (k - 1) * self.spec_hop_size_samples()
                    < frames ==> #[trigger] self.hop_feed(frames, k).1
                    == self.spec_win_size_samples() / 2 + (k - 1) * self.spec_hop_size_samples(),
    {
        let hop = self.spec_hop_size_samples();
        let p = self.padding();
        assert forall|k: int| 0 <= k implies #[trigger] self.hop_feed(frames, k).2 == self.hop_feed(
            frames,
            k + 1,
        ).1 by {
            assert(p + k * hop == p + (k - 1) * hop + hop) by (nonlinear_arith);
            if k > 0 {
                assert(p + (k - 1) * hop >= p) by (nonlinear_arith)
                    requires k >= 1, hop > 0;
            }
        }
        assert forall|k: int| 0 <= k implies 0 <= #[trigger] self.hop_feed(frames, k).1
            <= self.hop_feed(frames, k).2 <= frames by {
            if k > 0 {
                assert(p + (k - 1) * hop >= 0) by (nonlinear_arith)
                    requires k >= 1, hop > 0, p >= 0;
            }
        }
    }

    /// The feeds of the moving RMS window for a signal of `frames` frames,
    /// one per level: `frames / hop + 1` of them.
    pub fn hop_feeds(&self, frames: usize) -> (feeds: Vec<HopFeed>)
        requires
            self.spec_hop_size_samples() > 0,
            frames < i64::MAX / 2,
            frames + self.spec_win_size_samples() <= usize::MAX,
        ensures
            feeds@.len() == frames as int / self.spec_hop_size_samples() + 1,
            forall|k: int|
                0 <= k < feeds@.len() ==> feed_as_int(#[trigger] feeds@[k]) == self.hop_feed(
                    frames as int,
                    k,
                ),
    {
        proof {
            use_type_invariant(self);
        }
        let hop = self.hop_size_samples as usize;
        let size = frames / hop + 1;
        let padding = (self.win_size_samples / 2) as usize;
        let mut feeds: Vec<HopFeed> = Vec::new();
        let initial_end = if padding < frames { padding } else { frames };
        feeds.push(HopFeed { zeros_before: padding, start: 0, end: initial_end, zeros_after: 0 });
        let mut pos = padding;
        let mut k: usize = 1;
        proof {
            assert((k - 1) * hop == 0);
        }
        while k < size
            invariant
                self.usable(),
                hop == self.spec_hop_size_samples(),
                padding == self.padding(),
                frames < i64::MAX / 2,
                frames + hop <= usize::MAX,
                size == frames / hop + 1,
                1 <= k <= size,
                feeds@.len() == k,
                forall|j: int|
                    0 <= j < k ==> feed_as_int(#[trigger] feeds@[j]) == self.hop_feed(
                        frames as int,
                        j,
                    ),
                pos < frames ==> pos == padding + (k - 1) * hop,
                pos >= frames ==> padding + (k - 1) * hop >= frames,
            decreases size - k,
        {
            proof {
                assert(padding + k * hop == padding + (k - 1) * hop + hop) by (nonlinear_arith);
            }
            if pos < frames {
                let end = if pos + hop < frames { pos + hop } else { frames };
                feeds.push(HopFeed { zeros_before: 0, start: pos, end, zeros_after: pos + hop - end });
                pos = pos + hop;
            } else {
                feeds.push(HopFeed { zeros_before: 0, start: frames, end: frames, zeros_after: hop });
            }
            k = k + 1;
        }
        feeds
    }
}

/// Rounding a value of `i64` to thousands keeps four and a thousand times the
/// quotient in `i64`.
proof fn lemma_trunc_div_1000(x: int)
    requires
        fits_i64(x),
    ensures
        fits_i64(1000 * trunc_div(x, 1000)),
        fits_i64(4 * trunc_div(x, 1000)),
        -(i64::MAX / 1000) - 1 <= trunc_div(x, 1000) <= i64::MAX / 1000,
        trunc_div(x, 1000) > 0 ==> x >= 1000,
{
    if x >= 0 {
        assert(1000 * (x / 1000) <= x) by (nonlinear_arith)
            requires x >= 0;
        assert(x / 1000 <= i64::MAX / 1000) by (nonlinear_arith)
            requires 0 <= x <= i64::MAX;
        assert(x < 1000 ==> x / 1000 == 0) by (nonlinear_arith)
            requires x >= 0;
    } else {
        let y = -x;
        assert(1000 * (y / 1000) <= y) by (nonlinear_arith)
            requires y >= 0;
        assert(y / 1000 <= (i64::MAX as int + 1) / 1000) by (nonlinear_arith)
            requires 0 <= y <= i64::MAX as int + 1;
    }
}

/// Dividing toward zero by a nonzero divisor stays in `i64`, except
/// `i64::MIN / -1`.
proof fn lemma_trunc_div_fits(a: int, b: int)
    requires
        fits_i64(a),
        b != 0,
        !(a == i64::MIN && b == -1),
    ensures
        fits_i64(trunc_div(a, b)),
{
    if a >= 0 {
        assert(-a <= a / b <= a) by (nonlinear_arith)
            requires a >= 0, b != 0;
    } else {
        let y = -a;
        assert(-y <= y / b <= y) by (nonlinear_arith)
            requires y >= 0, b != 0;
        if b == -1 {
            assert(y / b == -y) by (nonlinear_arith)
                requires b == -1;
        } else if b == 1 {
        } else {
            assert(-y + 1 <= y / b) by (nonlinear_arith)
                requires y >= 1, b != 0, b != -1;
        }
    }
}

/// With a positive hop, every derived size of an accepted configuration is
/// at least one, and the hop counts stay far below `i64::MAX`.
proof fn lemma_derived_sizes(sample_rate: u32, c: SliceConfig)
    requires
        config_accepted(c),
        params_computable(sample_rate, c),
        rounded_samples(c.hop_size, sample_rate) > 0,
    ensures
        ({
            let hop = rounded_samples(c.hop_size, sample_rate);
            &&& hop <= min(rounded_samples(c.min_interval, sample_rate), 4 * hop) <= 4 * hop
            &&& 1 <= rounded_hops(c.min_length, sample_rate, hop) <= i64::MAX / 1000
            &&& 1 <= rounded_hops(c.min_interval, sample_rate, hop) <= i64::MAX / 1000
            &&& 1 <= rounded_hops(c.max_sil_kept, sample_rate, hop) <= i64::MAX / 1000
        }),
{
    let sr = sample_rate as int;
    let hn = c.hop_size * sr + 500;
    lemma_trunc_div_1000(hn);
    let hop = hn / 1000;
    assert(1000 * hop <= hn) by (nonlinear_arith)
        requires hn >= 0, hop == hn / 1000;
    lemma_scaled_at_least(c.min_interval, c.hop_size, sr);
    lemma_scaled_at_least(c.min_length, c.hop_size, sr);
    lemma_scaled_at_least(c.max_sil_kept, c.hop_size, sr);
    lemma_hops_bounds(c.min_interval * sr + 500, hn, hop);
    lemma_hops_bounds(c.min_length * sr + 500, hn, hop);
    lemma_hops_bounds(c.max_sil_kept * sr + 500, hn, hop);
    let xn = c.min_interval * sr + 500;
    assert(xn / 1000 >= hop) by (nonlinear_arith)
        requires xn >= hn, hn >= 1000, hop == hn / 1000;
}

/// Sizes of an accepted configuration with a positive hop are durations
/// rounded to the nearest sample or hop, halves up.
proof fn lemma_rounding(sample_rate: u32, c: SliceConfig)
    requires
        config_accepted(c),
        params_computable(sample_rate, c),
        rounded_samples(c.hop_size, sample_rate) > 0,
    ensures
        ({
            let sr = sample_rate as int;
            let hop = rounded_samples(c.hop_size, sample_rate);
            let w = min(rounded_samples(c.min_interval, sample_rate), 4 * hop);
            let ml = rounded_hops(c.min_length, sample_rate, hop);
            let mi = rounded_hops(c.min_interval, sample_rate, hop);
            let mk = rounded_hops(c.max_sil_kept, sample_rate, hop);
            &&& 1000 * hop <= c.hop_size * sr + 500 < 1000 * (hop + 1)
            &&& 1000 * hop * ml <= c.min_length * sr + 500 < 1000 * hop * (ml + 1)
            &&& 1000 * hop * mi <= c.min_interval * sr + 500 < 1000 * hop * (mi + 1)
            &&& 1000 * hop * mk <= c.max_sil_kept * sr + 500 < 1000 * hop * (mk + 1)
            &&& w <= 4 * hop
            &&& (w == 4 * hop || 1000 * w <= c.min_interval * sr + 500 < 1000 * (w + 1))
            &&& (w == 4 * hop ==> c.min_interval * sr + 500 >= 4000 * hop)
        }),
{
    let sr = sample_rate as int;
    let hn = c.hop_size * sr + 500;
    lemma_trunc_div_1000(hn);
    let hop = hn / 1000;
    lemma_scaled_at_least(c.min_interval, c.hop_size, sr);
    lemma_scaled_at_least(c.min_length, c.hop_size, sr);
    lemma_scaled_at_least(c.max_sil_kept, c.hop_size, sr);
    lemma_floor_div(hn, 1000);
    let d = 1000 * hop;
    lemma_floor_div(c.min_length * sr + 500, d);
    lemma_floor_div(c.min_interval * sr + 500, d);
    lemma_floor_div(c.max_sil_kept * sr + 500, d);
    lemma_floor_div(c.min_interval * sr + 500, 1000);
    let ml = rounded_hops(c.min_length, sample_rate, hop);
    let mi = rounded_hops(c.min_interval, sample_rate, hop);
    let mk = rounded_hops(c.max_sil_kept, sample_rate, hop);
    assert(1000 * hop * ml == d * ml && 1000 * hop * (ml + 1) == d * (ml + 1));
    assert(1000 * hop * mi == d * mi && 1000 * hop * (mi + 1) == d * (mi + 1));
    assert(1000 * hop * mk == d * mk && 1000 * hop * (mk + 1) == d * (mk + 1));
    let w = min(rounded_samples(c.min_interval, sample_rate), 4 * hop);
    let xi = c.min_interval * sr + 500;
    assert(w == 4 * hop ==> xi >= 4000 * hop) by (nonlinear_arith)
        requires
            w == 4 * hop ==> xi / 1000 >= 4 * hop,
            1000 * (xi / 1000) <= xi;
}

/// Dividing a non-negative number by a positive one rounds down.
proof fn lemma_floor_div(x: int, d: int)
    requires
        x >= 0,
        d > 0,
    ensures
        d * (x / d) <= x < d * (x / d + 1),
        trunc_div(x, d) == x / d,
{
    assert(d * (x / d) <= x < d * (x / d + 1)) by (nonlinear_arith)
        requires x >= 0, d > 0;
}

/// A longer duration scales to at least as many samples.
proof fn lemma_scaled_at_least(x: i64, h: i64, sr: int)
    requires
        x >= h,
        sr >= 0,
    ensures
        x * sr >= h * sr,
{
    assert(x * sr >= h * sr) by (nonlinear_arith)
        requires x >= h, sr >= 0;
}

/// A numerator at least the hop numerator gives at least one hop, and at most
/// a thousandth of `i64::MAX`.
proof fn lemma_hops_bounds(xn: int, hn: int, hop: int)
    requires
        xn >= hn >= 1000,
        hop == hn / 1000,
        1000 * hop <= hn,
        xn <= i64::MAX,
    ensures
        1 <= trunc_div(xn, 1000 * hop) <= i64::MAX / 1000,
{
    assert(hop >= 1) by (nonlinear_arith)
        requires hn >= 1000, hop == hn / 1000;
    let d = 1000 * hop;
    assert(xn / d >= 1) by (nonlinear_arith)
        requires xn >= d, d >= 1;
    assert(xn / d <= xn / 1000) by (nonlinear_arith)
        requires xn >= 0, d >= 1000;
    assert(xn / 1000 <= i64::MAX / 1000) by (nonlinear_arith)
        requires 0 <= xn <= i64::MAX;
}


// ---------------------------------------------------------------------------
// Silence tags
// ---------------------------------------------------------------------------

/// State of the scan over the levels: the tags found so far, where the
/// current silent stretch started, whether one is open, and where the
/// current slice started (all in hops).
pub type ScanState = (Seq<(int, int)>, int, bool, int);

impl AudioSlicer {
    /// Hop `i` is silent: its level is below the threshold.
    pub open spec fn silent_at(self, levels: Seq<u64>, i: int) -> bool {
        levels[i] < self.spec_threshold_level()
    }

    /// Every hop that a tag spans, from its start to its end or to the last
    /// level, is silent.
    pub open spec fn tags_in_silence(self, levels: Seq<u64>, t: Seq<(int, int)>) -> bool {
        forall|k: int, h: int|
            #![trigger t[k], self.silent_at(levels, h)]
            0 <= k < t.len() && t[k].0 <= h <= t[k].1 && h < levels.len() ==> self.silent_at(
                levels,
                h,
            )
    }

    /// One step of the scan, at hop `i`.
    #[verifier::opaque]
    pub open spec fn scan_step(self, lv: Seq<u64>, s: ScanState, i: int) -> ScanState {
        let (tags, ss, inside, clip) = s;
        let kept = self.spec_max_sil_kept_hops();
        if self.silent_at(lv, i) {
            if !inside {
                (tags, i, true, clip)
            } else {
                s
            }
        } else if !inside {
            s
        } else {
            let leading = ss == 0 && i > kept;
            let middle = i - ss >= self.spec_min_interval_hops() && i - clip
                >= self.spec_min_length_hops();
            if !leading && !middle {
                (tags, ss, false, clip)
            } else {
                let (tag, c) = self.cut(lv, ss, i);
                (tags.push(tag), ss, false, c)
            }
        }
    }

    /// The tag cut out for the silent stretch from hop `ss` that the loud hop
    /// `i` ends, and where the next slice starts.
    pub open spec fn cut(self, lv: Seq<u64>, ss: int, i: int) -> ((int, int), int) {
        let kept = self.spec_max_sil_kept_hops();
        if i - ss <= kept {
            let pos = argmin_offset(lv, ss, i + 1) + ss;
            (if ss == 0 { (0, pos) } else { (pos, pos) }, pos)
        } else if i - ss <= kept * 2 {
            let pos = argmin_offset(lv, i - kept, ss + kept + 1) + i - kept;
            let pos_l = argmin_offset(lv, ss, ss + kept + 1) + ss;
            let pos_r = argmin_offset(lv, i - kept, i + 1) + i - kept;
            if ss == 0 {
                ((0, pos_r), pos_r)
            } else {
                ((min(pos_l, pos), max(pos_r, pos)), max(pos_r, pos))
            }
        } else {
            let pos_l = argmin_offset(lv, ss, ss + kept + 1) + ss;
            let pos_r = argmin_offset(lv, i - kept, i + 1) + i - kept;
            (if ss == 0 { (0, pos_r) } else { (pos_l, pos_r) }, pos_r)
        }
    }

    /// A cut over a silent stretch lies in it: both ends are silent, ordered,
    /// start at the stretch (or at 0 for a stretch from hop 0) and end by `i`.
    proof fn lemma_cut(self, lv: Seq<u64>, ss: int, i: int)
        requires
            self.usable(),
            0 <= ss < i < lv.len(),
            forall|j: int| ss <= j < i ==> #[trigger] self.silent_at(lv, j),
            !self.silent_at(lv, i),
        ensures
            ({
                let (tag, c) = self.cut(lv, ss, i);
                &&& ss <= tag.0 <= tag.1 < i
                &&& c == tag.1
            }),
    {
        let kept = self.spec_max_sil_kept_hops();
        assert(self.silent_at(lv, ss));
        if i - ss <= kept {
            self.lemma_min_silent(lv, ss, i + 1);
        } else if i - ss <= kept * 2 {
            assert(self.silent_at(lv, i - kept));
            self.lemma_min_silent(lv, i - kept, ss + kept + 1);
            self.lemma_min_silent(lv, ss, ss + kept + 1);
            self.lemma_min_silent(lv, i - kept, i + 1);
        } else {
            assert(self.silent_at(lv, i - kept));
            self.lemma_min_silent(lv, ss, ss + kept + 1);
            self.lemma_min_silent(lv, i - kept, i + 1);
        }
    }

    /// The scan after the first `n` hops.
    pub open spec fn scan(self, lv: Seq<u64>, n: int) -> ScanState
        decreases n,
    {
        if n <= 0 {
            (Seq::empty(), 0, false, 0)
        } else {
            self.scan_step(lv, self.scan(lv, n - 1), n - 1)
        }
    }

    /// Silence tags of the whole level sequence: the tags of the scan, and a
    /// tag for a long enough trailing silence, which ends past the levels.
    pub open spec fn silence_tags(self, lv: Seq<u64>) -> Seq<(int, int)> {
        let (tags, ss, inside, clip) = self.scan(lv, lv.len() as int);
        let total = lv.len() as int;
        if inside && total - ss >= self.spec_min_interval_hops() {
            let silence_end = min(total - 1, ss + self.spec_max_sil_kept_hops());
            let pos = argmin_offset(lv, ss, silence_end + 1) + ss;
            tags.push((pos, total + 1))
        } else {
            tags
        }
    }

    /// What holds of the scan state after `n` hops.
    pub open spec fn scan_invariant(self, lv: Seq<u64>, s: ScanState, n: int) -> bool {
        let (t, ss, inside, clip) = s;
        &&& 0 <= ss <= n
        &&& 0 <= clip <= n
        &&& inside ==> ss < n
        &&& inside ==> forall|j: int| ss <= j < n ==> #[trigger] self.silent_at(lv, j)
        &&& tags_ordered_below(t, n - 1)
        &&& self.tags_in_silence(lv, t)
        &&& t.len() > 0 ==> clip == t.last().1
        &&& t.len() == 0 ==> clip == 0
        &&& inside && t.len() > 0 ==> t.last().1 < ss
    }

    /// The first minimum of a range that starts at a silent hop is silent.
    proof fn lemma_min_silent(self, lv: Seq<u64>, b: int, e: int)
        requires
            0 <= b < e <= lv.len(),
            self.silent_at(lv, b),
        ensures
            argmin_offset(lv, b, e) == first_min_index(lv, b, e) - b,
            b <= argmin_offset(lv, b, e) + b < e,
            self.silent_at(lv, argmin_offset(lv, b, e) + b),
    {
        lemma_first_min_index(lv, b, e);
        assert(lv[first_min_index(lv, b, e)] <= lv[b]);
    }

    /// One step keeps the scan invariant.
    proof fn lemma_scan_step(self, lv: Seq<u64>, s: ScanState, i: int)
        requires
            self.usable(),
            0 <= i < lv.len(),
            self.scan_invariant(lv, s, i),
        ensures
            self.scan_invariant(lv, self.scan_step(lv, s, i), i + 1),
    {
        let (t, ss, inside, clip) = s;
        let kept = self.spec_max_sil_kept_hops();
        let s2 = self.scan_step(lv, s, i);
        reveal(AudioSlicer::scan_step);
        if t.len() > 0 {
            assert(t[t.len() - 1].0 <= t.last().1);
        }
        if self.silent_at(lv, i) {
            if inside {
                assert forall|j: int| ss <= j < i + 1 implies #[trigger] self.silent_at(lv, j) by {
                    if j < i {
                        assert(self.silent_at(lv, j));
                    }
                }
            }
            assert(self.scan_invariant(lv, s2, i + 1));
        } else if !inside {
            assert(self.scan_invariant(lv, s2, i + 1));
        } else {
            let leading = ss == 0 && i > kept;
            let middle = i - ss >= self.spec_min_interval_hops() && i - clip
                >= self.spec_min_length_hops();
            if !leading && !middle {
                assert(self.scan_invariant(lv, s2, i + 1));
            } else {
                let t2 = s2.0;
                let tag = t2.last();
                self.lemma_cut(lv, ss, i);
                assert(t2 == t.push(tag));
                assert(0 <= tag.0 <= tag.1 && tag.1 < i);
                assert(t.len() > 0 ==> t.last().1 < tag.0);
                assert forall|k: int| 0 <= k < t2.len() - 1 implies #[trigger] t2[k].1 < t2[k + 1].0 by {
                    if k < t.len() - 1 {
                        assert(t2[k] == t[k] && t2[k + 1] == t[k + 1]);
                    } else {
                        assert(t2[k] == t.last());
                    }
                }
                assert(self.tags_in_silence(lv, t2)) by {
                    assert forall|k: int, h: int|
                        #![trigger t2[k], self.silent_at(lv, h)]
                        0 <= k < t2.len() && t2[k].0 <= h <= t2[k].1 && h < lv.len() implies self.silent_at(
                        lv,
                        h,
                    ) by {
                        if k < t.len() {
                            assert(t2[k] == t[k]);
                            assert(self.silent_at(lv, h));
                        } else {
                            assert(t2[k] == tag);
                            assert(ss <= h < i);
                        }
                    }
                }
                assert(self.scan_invariant(lv, s2, i + 1));
            }
        }
    }

    /// The scan invariant holds after every prefix of the levels.
    pub proof fn lemma_scan(self, lv: Seq<u64>, n: int)
        requires
            self.usable(),
            0 <= n <= lv.len(),
        ensures
            self.scan_invariant(lv, self.scan(lv, n), n),
        decreases n,
    {
        if n > 0 {
            self.lemma_scan(lv, n - 1);
            self.lemma_scan_step(lv, self.scan(lv, n - 1), n - 1);
        }
    }

    /// The silence tags are well formed and lie in silence.
    pub proof fn lemma_silence_tags(self, lv: Seq<u64>)
        requires
            self.usable(),
        ensures
            tags_well_formed(self.silence_tags(lv), lv.len() as int),
            self.tags_in_silence(lv, self.silence_tags(lv)),
    {
        let n = lv.len() as int;
        self.lemma_scan(lv, n);
        let (t, ss, inside, clip) = self.scan(lv, n);
        let t2 = self.silence_tags(lv);
        if inside && n - ss >= self.spec_min_interval_hops() {
            let silence_end = min(n - 1, ss + self.spec_max_sil_kept_hops());
            assert(self.silent_at(lv, ss));
            self.lemma_min_silent(lv, ss, silence_end + 1);
            let pos = argmin_offset(lv, ss, silence_end + 1) + ss;
            assert(t2 == t.push((pos, n + 1)));
            if t.len() > 0 {
                assert(t[t.len() - 1].0 <= t.last().1);
            }
            assert forall|k: int| 0 <= k < t2.len() - 1 implies #[trigger] t2[k].1 < t2[k + 1].0 by {
                if k < t.len() - 1 {
                    assert(t2[k] == t[k] && t2[k + 1] == t[k + 1]);
                } else {
                    assert(t2[k] == t.last());
                }
            }
            assert forall|k: int| 0 <= k < t2.len() - 1 implies #[trigger] t2[k].1 < n by {
                assert(t2[k] == t[k]);
            }
            assert(self.tags_in_silence(lv, t2)) by {
                assert forall|k: int, h: int|
                    #![trigger t2[k], self.silent_at(lv, h)]
                    0 <= k < t2.len() && t2[k].0 <= h <= t2[k].1 && h < lv.len() implies self.silent_at(
                    lv,
                    h,
                ) by {
                    if k < t.len() {
                        assert(t2[k] == t[k]);
                        assert(self.silent_at(lv, h));
                    } else {
                        assert(ss <= h < n);
                    }
                }
            }
        } else {
            if t.len() > 0 {
                assert(t[t.len() - 1].0 <= t.last().1);
            }
        }
    }

    /// The cut for the silent stretch from hop `silence_start` that the loud
    /// hop `i` ends: the tag's two ends and where the next slice starts.
    fn cut_at(&self, rms_list: &[u64], silence_start: i64, i: i64) -> (r: (i64, i64, i64))
        requires
            self.usable(),
            0 <= silence_start < i < rms_list@.len(),
            rms_list@.len() <= i64::MAX / 2,
        ensures
            ((r.0 as int, r.1 as int), r.2 as int) == self.cut(rms_list@, silence_start as int, i as int),
    {
        let _n = rms_list.len();
        let kept = self.max_sil_kept_hops;
        if i - silence_start <= kept {
            let pos = argmin_range(rms_list, silence_start as usize, (i + 1) as usize) as i64
                + silence_start;
            if silence_start == 0 {
                (0, pos, pos)
            } else {
                (pos, pos, pos)
            }
        } else if i - silence_start <= kept * 2 {
            let pos = argmin_range(
                rms_list,
                (i - kept) as usize,
                (silence_start + kept + 1) as usize,
            ) as i64 + i - kept;
            let pos_l = argmin_range(
                rms_list,
                silence_start as usize,
                (silence_start + kept + 1) as usize,
            ) as i64 + silence_start;
            let pos_r = argmin_range(rms_list, (i - kept) as usize, (i + 1) as usize) as i64 + i
                - kept;
            if silence_start == 0 {
                (0, pos_r, pos_r)
            } else {
                let clip = if pos_r > pos { pos_r } else { pos };
                let first = if pos_l < pos { pos_l } else { pos };
                (first, clip, clip)
            }
        } else {
            let pos_l = argmin_range(
                rms_list,
                silence_start as usize,
                (silence_start + kept + 1) as usize,
            ) as i64 + silence_start;
            let pos_r = argmin_range(rms_list, (i - kept) as usize, (i + 1) as usize) as i64 + i
                - kept;
            if silence_start == 0 {
                (0, pos_r, pos_r)
            } else {
                (pos_l, pos_r, pos_r)
            }
        }
    }

    /// Tags of silent stretches in the levels, in hops: each tag is the range
    /// of hops cut out between two slices (see [`Self::silence_tags`]).
    pub fn find_silence_tags(&self, rms_list: &[u64]) -> (tags: Vec<(i64, i64)>)
        requires
            self.spec_hop_size_samples() > 0,
            rms_list@.len() <= i64::MAX / 2,
        ensures
            pairs_as_int(tags@) == self.silence_tags(rms_list@),
    {
        proof {
            use_type_invariant(self);
        }
        let ghost lv = rms_list@;
        let n = rms_list.len();
        let kept = self.max_sil_kept_hops;
        let mut sil_tags: Vec<(i64, i64)> = Vec::new();
        let mut silence_start: i64 = 0;
        let mut inside: bool = false;
        let mut clip_start: i64 = 0;
        let mut i: usize = 0;
        while i < n
            invariant
                self.usable(),
                lv == rms_list@,
                n == lv.len(),
                n <= i64::MAX / 2,
                kept == self.spec_max_sil_kept_hops(),
                i <= n,
                (pairs_as_int(sil_tags@), silence_start as int, inside, clip_start as int)
                    == self.scan(lv, i as int),
            decreases n - i,
        {
            proof {
                self.lemma_scan(lv, i as int);
                reveal(AudioSlicer::scan_step);
            }
            let ghost old_tags = sil_tags@;
            let ii = i as i64;
            if rms_list[i] < self.threshold_level {
                if !inside {
                    silence_start = ii;
                    inside = true;
                }
            } else if inside {
                let is_leading_silence = silence_start == 0 && ii > kept;
                let need_slice_middle = (ii - silence_start) >= self.min_interval_hops && (ii
                    - clip_start) >= self.min_length_hops;
                if !is_leading_silence && !need_slice_middle {
                    inside = false;
                } else {
                    let (first, last, clip) = self.cut_at(rms_list, silence_start, ii);
                    sil_tags.push((first, last));
                    clip_start = clip;
                    inside = false;
                }
            }
            proof {
                if sil_tags@.len() > old_tags.len() {
                    assert(pairs_as_int(sil_tags@) =~= pairs_as_int(old_tags).push(
                        pairs_as_int(sil_tags@).last(),
                    ));
                }
            }
            i = i + 1;
        }
        proof {
            self.lemma_scan(lv, n as int);
        }
        let total = n as i64;
        if inside && total - silence_start >= self.min_interval_hops {
            let silence_end = if total - 1 < silence_start + kept {
                total - 1
            } else {
                silence_start + kept
            };
            let pos = argmin_range(rms_list, silence_start as usize, (silence_end + 1) as usize)
                as i64 + silence_start;
            let ghost old_tags = sil_tags@;
            sil_tags.push((pos, total + 1));
            proof {
                assert(pairs_as_int(sil_tags@) =~= pairs_as_int(old_tags).push(
                    (pos as int, total + 1),
                ));
            }
        }
        sil_tags
    }

    /// The signal is too short to slice: it spans at most the minimum slice
    /// length in hops (counting a partial hop).
    pub open spec fn too_short(self, frames: int) -> bool {
        (frames + self.spec_hop_size_samples() - 1) / self.spec_hop_size_samples()
            <= self.spec_min_length_hops()
    }

    /// The slices, as frame ranges, of a signal of `frames` frames with the
    /// given hop levels.
    pub open spec fn slice_ranges(self, frames: int, lv: Seq<u64>) -> Seq<(int, int)> {
        if self.too_short(frames) {
            seq![(0, frames)]
        } else {
            chunk_ranges(
                self.silence_tags(lv),
                frames,
                lv.len() as int,
                self.spec_hop_size_samples(),
            )
        }
    }

    /// Frame ranges between the silence tags, in a signal of `total_frames`
    /// frames summarised by `rms_list`.
    pub fn tags_to_chunks(&self, sil_tags: &[(i64, i64)], total_frames: usize, rms_list: &[u64]) -> (chunks: Vec<(usize, usize)>)
        requires
            self.spec_hop_size_samples() > 0,
            total_frames <= i64::MAX / 2,
            rms_list@.len() == total_frames as int / self.spec_hop_size_samples() + 1,
            tags_well_formed(pairs_as_int(sil_tags@), rms_list@.len() as int),
        ensures
            ranges_as_int(chunks@) == chunk_ranges(
                pairs_as_int(sil_tags@),
                total_frames as int,
                rms_list@.len() as int,
                self.spec_hop_size_samples(),
            ),
    {
        let ghost t = pairs_as_int(sil_tags@);
        let ghost hop = self.spec_hop_size_samples();
        let ghost n = rms_list@.len() as int;
        let ghost frames = total_frames as int;
        if sil_tags.len() == 0 {
            let mut chunks = Vec::new();
            chunks.push((0, total_frames));
            proof {
                assert(ranges_as_int(chunks@) =~= seq![(0, frames)]);
            }
            return chunks;
        }
        proof {
            lemma_below_count(frames, hop);
            assert forall|k: int| 0 <= k < t.len() implies #[trigger] t[k].0 * hop <= frames && t[k].0 * hop >= 0 by {
                lemma_scale_le(t[k].0, n - 1, hop);
                lemma_scale_le(0, t[k].0, hop);
            }
            assert forall|k: int| 0 <= k < t.len() - 1 implies #[trigger] t[k].1 * hop <= frames && t[k].1 * hop >= 0 by {
                lemma_scale_le(t[k].1, n - 1, hop);
                lemma_scale_le(0, t[k].1, hop);
            }
        }
        let hop_size = self.hop_size_samples;
        let mut chunks: Vec<(usize, usize)> = Vec::new();
        let total_rms_frames = rms_list.len() as i64;
        let s0 = sil_tags[0].0;
        if s0 > 0 {
            proof {
                assert(t[0].0 == s0);
            }
            let scaled = (s0 * hop_size) as usize;
            let end = if total_frames < scaled { total_frames } else { scaled };
            chunks.push((0, end));
        }
        let ghost first = if t[0].0 > 0 {
            seq![(0, min(frames, t[0].0 * hop))]
        } else {
            Seq::<(int, int)>::empty()
        };
        let ghost middle = Seq::new(
            (t.len() - 1) as nat,
            |k: int| (t[k].1 * hop, min(frames, t[k + 1].0 * hop)),
        );
        proof {
            assert(ranges_as_int(chunks@) =~= first + middle.take(0));
        }
        let mut i: usize = 0;
        while i < sil_tags.len() - 1
            invariant
                t == pairs_as_int(sil_tags@),
                hop == hop_size,
                hop > 0,
                frames == total_frames,
                frames <= i64::MAX / 2,
                t.len() == sil_tags@.len(),
                t.len() >= 1,
                i <= t.len() - 1,
                middle == Seq::new(
                    (t.len() - 1) as nat,
                    |k: int| (t[k].1 * hop, min(frames, t[k + 1].0 * hop)),
                ),
                forall|k: int| 0 <= k < t.len() ==> #[trigger] t[k].0 * hop <= frames && t[k].0 * hop >= 0,
                forall|k: int| 0 <= k < t.len() - 1 ==> #[trigger] t[k].1 * hop <= frames && t[k].1 * hop >= 0,
                ranges_as_int(chunks@) == first + middle.take(i as int),
            decreases t.len() - 1 - i,
        {
            proof {
                assert(t[i as int].1 == sil_tags@[i as int].1);
                assert(t[i + 1].0 == sil_tags@[i + 1].0);
                assert(t[i as int].1 * hop <= frames && t[i as int].1 * hop >= 0);
                assert(t[i + 1].0 * hop <= frames && t[i + 1].0 * hop >= 0);
            }
            let begin = (sil_tags[i].1 * hop_size) as usize;
            let scaled = (sil_tags[i + 1].0 * hop_size) as usize;
            let end = if total_frames < scaled { total_frames } else { scaled };
            let ghost old_chunks = chunks@;
            chunks.push((begin, end));
            proof {
                assert(middle.take(i + 1) =~= middle.take(i as int).push(middle[i as int]));
                assert(ranges_as_int(chunks@) =~= ranges_as_int(old_chunks).push((begin as int, end as int)));
            }
            i = i + 1;
        }
        let ghost last = if t.last().1 < n {
            seq![(t.last().1 * hop, frames)]
        } else {
            Seq::<(int, int)>::empty()
        };
        proof {
            assert(middle.take((t.len() - 1) as int) =~= middle);
        }
        let last_end = sil_tags[sil_tags.len() - 1].1;
        proof {
            assert(t.last().1 == last_end);
        }
        if last_end < total_rms_frames {
            proof {
                lemma_scale_le(last_end as int, n - 1, hop);
                lemma_scale_le(0, last_end as int, hop);
            }
            let begin = (last_end * hop_size) as usize;
            let ghost old_chunks = chunks@;
            chunks.push((begin, total_frames));
            proof {
                assert(ranges_as_int(chunks@) =~= ranges_as_int(old_chunks).push((begin as int, frames)));
            }
        }
        proof {
            assert(ranges_as_int(chunks@) =~= first + middle + last);
        }
        chunks
    }

    /// Slices a signal of `frames` frames, summarised by one level per hop,
    /// into frame ranges `(start, end)` between its silent stretches. A
    /// signal no longer than the minimum slice length is one slice.
    pub fn slice(&self, frames: usize, levels: &[u64]) -> (chunks: Vec<(usize, usize)>)
        requires
            self.spec_hop_size_samples() > 0,
            frames < i64::MAX / 2,
            levels@.len() == frames as int / self.spec_hop_size_samples() + 1,
        ensures
            ranges_as_int(chunks@) == self.slice_ranges(frames as int, levels@),
            ranges_ordered(ranges_as_int(chunks@), frames as int),
            frames > 0 ==> ranges_nonempty(ranges_as_int(chunks@)),
    {
        proof {
            use_type_invariant(self);
            self.lemma_slices_ordered(frames as int, levels@);
        }
        if (frames as i64 + self.hop_size_samples - 1) / self.hop_size_samples <= self.min_length_hops {
            let mut whole = Vec::new();
            whole.push((0, frames));
            proof {
                assert(ranges_as_int(whole@) =~= seq![(0, frames as int)]);
            }
            return whole;
        }
        proof {
            lemma_count_bound(frames as int, self.spec_hop_size_samples());
        }
        let sil_tags = self.find_silence_tags(levels);
        proof {
            self.lemma_silence_tags(levels@);
        }
        self.tags_to_chunks(&sil_tags, frames, levels)
    }
}

impl AudioSlicer {
    /// `x` is the first frame of a silent hop.
    pub open spec fn at_silent_hop(self, lv: Seq<u64>, x: int) -> bool {
        exists|h: int|
            0 <= h < lv.len() && #[trigger] self.silent_at(lv, h) && x == h
                * self.spec_hop_size_samples()
    }

    /// Slices are ordered: each lies within the signal, starts no later than
    /// it ends, and ends no later than the next slice starts. In a non-empty
    /// signal no slice is empty.
    pub proof fn lemma_slices_ordered(self, frames: int, lv: Seq<u64>)
        requires
            self.usable(),
            frames >= 0,
            lv.len() == frames / self.spec_hop_size_samples() + 1,
        ensures
            ranges_ordered(self.slice_ranges(frames, lv), frames),
            frames > 0 ==> ranges_nonempty(self.slice_ranges(frames, lv)),
    {
        if !self.too_short(frames) {
            self.lemma_silence_tags(lv);
            lemma_chunk_ranges_ordered(
                self.silence_tags(lv),
                frames,
                lv.len() as int,
                self.spec_hop_size_samples(),
            );
        }
    }

    /// Slices are cut in silence: every slice starts at frame 0 or at the
    /// first frame of a silent hop, and ends at the end of the signal or at
    /// the first frame of a silent hop.
    pub proof fn lemma_slices_cut_in_silence(self, frames: int, lv: Seq<u64>)
        requires
            self.usable(),
            frames >= 0,
            lv.len() == frames / self.spec_hop_size_samples() + 1,
        ensures
            forall|k: int|
                0 <= k < self.slice_ranges(frames, lv).len() ==> {
                    let r = #[trigger] self.slice_ranges(frames, lv)[k];
                    &&& r.0 == 0 || self.at_silent_hop(lv, r.0)
                    &&& r.1 == frames || self.at_silent_hop(lv, r.1)
                },
    {
        if !self.too_short(frames) {
            self.lemma_silence_tags(lv);
            self.lemma_chunk_cuts(lv, self.silence_tags(lv), frames);
        }
    }

    /// A silent hop's first frame is at a silent hop.
    proof fn lemma_at_silent_hop(self, lv: Seq<u64>, h: int)
        requires
            0 <= h < lv.len(),
            self.silent_at(lv, h),
        ensures
            self.at_silent_hop(lv, h * self.spec_hop_size_samples()),
    {
    }

    /// Ranges between well-formed tags in silence are cut at silent hops.
    proof fn lemma_chunk_cuts(self, lv: Seq<u64>, t: Seq<(int, int)>, frames: int)
        requires
            self.usable(),
            frames >= 0,
            lv.len() == frames / self.spec_hop_size_samples() + 1,
            tags_well_formed(t, lv.len() as int),
            self.tags_in_silence(lv, t),
        ensures
            forall|k: int|
                0 <= k < chunk_ranges(t, frames, lv.len() as int, self.spec_hop_size_samples()).len()
                    ==> {
                    let r = #[trigger] chunk_ranges(
                        t,
                        frames,
                        lv.len() as int,
                        self.spec_hop_size_samples(),
                    )[k];
                    &&& r.0 == 0 || self.at_silent_hop(lv, r.0)
                    &&& r.1 == frames || self.at_silent_hop(lv, r.1)
                },
    {
        let hop = self.spec_hop_size_samples();
        let n = lv.len() as int;
        let r = chunk_ranges(t, frames, n, hop);
        if t.len() > 0 {
            let first = if t[0].0 > 0 {
                seq![(0, min(frames, t[0].0 * hop))]
            } else {
                Seq::<(int, int)>::empty()
            };
            let middle = Seq::new(
                (t.len() - 1) as nat,
                |k: int| (t[k].1 * hop, min(frames, t[k + 1].0 * hop)),
            );
            let last = if t.last().1 < n {
                seq![(t.last().1 * hop, frames)]
            } else {
                Seq::<(int, int)>::empty()
            };
            assert(r == first + middle + last);
            let f = first.len() as int;
            let m = middle.len() as int;
            assert(t[t.len() - 1] == t.last());
            assert forall|k: int| 0 <= k < r.len() implies {
                &&& (#[trigger] r[k]).0 == 0 || self.at_silent_hop(lv, r[k].0)
                &&& r[k].1 == frames || self.at_silent_hop(lv, r[k].1)
            } by {
                if k < f {
                    assert(r[k] == first[0]);
                    assert(0 <= t[0].0 < n);
                    self.lemma_at_silent_hop(lv, t[0].0);
                } else if k < f + m {
                    let j = k - f;
                    assert(r[k] == middle[j]);
                    assert(0 <= t[j].0 <= t[j].1 && t[j].1 < n);
                    assert(0 <= t[j + 1].0 < n);
                    self.lemma_at_silent_hop(lv, t[j].1);
                    self.lemma_at_silent_hop(lv, t[j + 1].0);
                } else {
                    assert(r[k] == last[0]);
                    assert(0 <= t[t.len() - 1].0 <= t.last().1);
                    self.lemma_at_silent_hop(lv, t.last().1);
                }
            }
        }
    }

    /// Slicing drops only silence: every frame of the signal outside all
    /// slices belongs to a silent hop.
    pub proof fn lemma_slices_drop_only_silence(self, frames: int, lv: Seq<u64>)
        requires
            self.usable(),
            frames >= 0,
            lv.len() == frames / self.spec_hop_size_samples() + 1,
        ensures
            forall|x: int|
                0 <= x < frames && !in_some_range(self.slice_ranges(frames, lv), x)
                    ==> #[trigger] self.silent_at(lv, x / self.spec_hop_size_samples()),
    {
        let r = self.slice_ranges(frames, lv);
        if self.too_short(frames) {
            assert forall|x: int| 0 <= x < frames implies in_some_range(r, x) by {
                assert(r[0].0 <= x < r[0].1);
            }
        } else {
            self.lemma_silence_tags(lv);
            self.lemma_chunk_gaps(lv, self.silence_tags(lv), frames);
        }
    }

    /// Frames outside the ranges between tags that span only silence lie in
    /// silent hops.
    proof fn lemma_chunk_gaps(self, lv: Seq<u64>, t: Seq<(int, int)>, frames: int)
        requires
            self.usable(),
            frames >= 0,
            lv.len() == frames / self.spec_hop_size_samples() + 1,
            tags_well_formed(t, lv.len() as int),
            self.tags_in_silence(lv, t),
        ensures
            forall|x: int|
                0 <= x < frames && !in_some_range(
                    chunk_ranges(t, frames, lv.len() as int, self.spec_hop_size_samples()),
                    x,
                ) ==> #[trigger] self.silent_at(lv, x / self.spec_hop_size_samples()),
    {
        let hop = self.spec_hop_size_samples();
        let n = lv.len() as int;
        let r = chunk_ranges(t, frames, n, hop);
        assert forall|x: int| 0 <= x < frames && !in_some_range(r, x) implies #[trigger] self.silent_at(
            lv,
            x / hop,
        ) by {
            let h = x / hop;
            assert(h * hop <= x < (h + 1) * hop && 0 <= h <= frames / hop) by (nonlinear_arith)
                requires 0 <= x < frames, hop > 0, h == x / hop;
            if t.len() == 0 {
                assert(r[0].0 <= x < r[0].1);
            } else {
                let first = if t[0].0 > 0 {
                    seq![(0, min(frames, t[0].0 * hop))]
                } else {
                    Seq::<(int, int)>::empty()
                };
                let middle = Seq::new(
                    (t.len() - 1) as nat,
                    |k: int| (t[k].1 * hop, min(frames, t[k + 1].0 * hop)),
                );
                let last = if t.last().1 < n {
                    seq![(t.last().1 * hop, frames)]
                } else {
                    Seq::<(int, int)>::empty()
                };
                assert(r == first + middle + last);
                let f = first.len() as int;
                let m = middle.len() as int;
                assert(t[t.len() - 1] == t.last());
                if h < t[0].0 {
                    lemma_scale_le(h + 1, t[0].0, hop);
                    assert(r[0] == first[0]);
                    assert(r[0].0 <= x < r[0].1);
                } else {
                    let j = lemma_locate(t, n, h, 0);
                    if h <= t[j].1 {
                        assert(self.silent_at(lv, h));
                    } else if j < t.len() - 1 {
                        lemma_scale_le(t[j].1, h, hop);
                        lemma_scale_le(h + 1, t[j + 1].0, hop);
                        assert(r[f + j] == middle[j]);
                        assert(r[f + j].0 <= x < r[f + j].1);
                    } else {
                        lemma_scale_le(t[j].1, h, hop);
                        assert(r[f + m] == last[0]);
                        assert(r[f + m].0 <= x < r[f + m].1);
                    }
                }
            }
        }
    }

    /// Without a silent hop, the whole signal is one slice.
    pub proof fn lemma_no_silence_one_slice(self, frames: int, lv: Seq<u64>)
        requires
            forall|j: int| 0 <= j < lv.len() ==> !#[trigger] self.silent_at(lv, j),
        ensures
            self.slice_ranges(frames, lv) == seq![(0int, frames)],
    {
        self.lemma_scan_never_silent(lv, lv.len() as int);
    }

    /// A scan that meets no silent hop finds nothing.
    proof fn lemma_scan_never_silent(self, lv: Seq<u64>, n: int)
        requires
            n <= lv.len(),
            forall|j: int| 0 <= j < lv.len() ==> !#[trigger] self.silent_at(lv, j),
        ensures
            self.scan(lv, n) == (Seq::<(int, int)>::empty(), 0int, false, 0int),
        decreases n,
    {
        if n > 0 {
            self.lemma_scan_never_silent(lv, n - 1);
            reveal(AudioSlicer::scan_step);
            assert(!self.silent_at(lv, n - 1));
        }
    }
}

// ---------------------------------------------------------------------------
// Where cuts are made, stated over the levels
// ---------------------------------------------------------------------------

/// End of the last of the first `k` tags that ends before hop `a`; 0 when
/// there is none.
pub open spec fn end_before(t: Seq<(int, int)>, a: int, k: int) -> int
    decreases k,
{
    if k <= 0 {
        0
    } else if t[k - 1].1 < a {
        t[k - 1].1
    } else {
        end_before(t, a, k - 1)
    }
}

/// Tags that agree on their first `k` entries agree on the end before `a`.
proof fn lemma_end_before_prefix(t: Seq<(int, int)>, t2: Seq<(int, int)>, a: int, k: int)
    requires
        0 <= k <= t.len(),
        k <= t2.len(),
        forall|j: int| 0 <= j < k ==> t[j] == t2[j],
    ensures
        end_before(t, a, k) == end_before(t2, a, k),
    decreases k,
{
    if k > 0 {
        lemma_end_before_prefix(t, t2, a, k - 1);
        assert(t[k - 1] == t2[k - 1]);
    }
}

/// A tag added at or after hop `a` leaves the end before `a` unchanged.
proof fn lemma_end_before_push(t: Seq<(int, int)>, x: (int, int), a: int)
    requires
        x.1 >= a,
    ensures
        end_before(t.push(x), a, t.len() + 1int) == end_before(t, a, t.len() as int),
{
    lemma_end_before_prefix(t, t.push(x), a, t.len() as int);
}

/// When the last tag ends before `a`, it is the one before `a`.
proof fn lemma_end_before_last(t: Seq<(int, int)>, a: int)
    requires
        t.len() > 0 ==> t.last().1 < a,
    ensures
        end_before(t, a, t.len() as int) == if t.len() > 0 {
            t.last().1
        } else {
            0
        },
{
}

/// End of the tag before tag `k` (hop 0 for the first tag): where the slice
/// that tag `k` ends started.
pub open spec fn prev_end(t: Seq<(int, int)>, k: int) -> int {
    if k == 0 {
        0
    } else {
        t[k - 1].1
    }
}

impl AudioSlicer {
    /// A silent run can start at hop `a`: it is hop 0 or follows a loud hop.
    pub open spec fn run_start(self, lv: Seq<u64>, a: int) -> bool {
        a == 0 || !self.silent_at(lv, a - 1)
    }

    /// Every hop of `[a, b)` is silent.
    pub open spec fn all_silent(self, lv: Seq<u64>, a: int, b: int) -> bool {
        forall|j: int| a <= j < b ==> #[trigger] self.silent_at(lv, j)
    }

    /// Some hop strictly between `h` and `n` is loud.
    pub open spec fn loud_between(self, lv: Seq<u64>, h: int, n: int) -> bool {
        exists|j: int| h < j < n && !#[trigger] self.silent_at(lv, j)
    }

    /// `[a, i)` is the whole silent run around the tag, and the loud hop `i`
    /// ends it.
    pub open spec fn run_around(self, lv: Seq<u64>, tag: (int, int), a: int, i: int) -> bool {
        &&& 0 <= a <= tag.0
        &&& tag.1 < i < lv.len()
        &&& self.run_start(lv, a)
        &&& self.all_silent(lv, a, i)
        &&& !self.silent_at(lv, i)
    }

    /// Where a tag lies in the silent run `[a, i)` around it, by the length
    /// of the run against the silence kept at slice edges: a short run is cut
    /// once at its quietest hop (from hop 0 when it leads the signal); a
    /// long run keeps `kept` hops on each side and cuts from the quietest hop
    /// near its start to the quietest near its end; a run in between cuts
    /// around the quietest hop of its overlap.
    pub open spec fn cut_fits_run(self, lv: Seq<u64>, tag: (int, int), a: int, i: int) -> bool {
        let kept = self.spec_max_sil_kept_hops();
        if i - a <= kept {
            if a == 0 {
                tag.0 == 0 && first_min_at(lv, 0, i + 1, tag.1)
            } else {
                tag.0 == tag.1 && first_min_at(lv, a, i + 1, tag.0)
            }
        } else if i - a <= 2 * kept {
            forall|p: int, pl: int, pr: int|
                #![trigger first_min_at(lv, i - kept, a + kept + 1, p), first_min_at(lv, a, a + kept + 1, pl), first_min_at(lv, i - kept, i + 1, pr)]
                first_min_at(lv, i - kept, a + kept + 1, p) && first_min_at(
                    lv,
                    a,
                    a + kept + 1,
                    pl,
                ) && first_min_at(lv, i - kept, i + 1, pr) ==> tag == if a == 0 {
                    (0, pr)
                } else {
                    (min(pl, p), max(pr, p))
                }
        } else {
            &&& first_min_at(lv, i - kept, i + 1, tag.1)
            &&& a == 0 ==> tag.0 == 0
            &&& a > 0 ==> first_min_at(lv, a, a + kept + 1, tag.0)
        }
    }

    /// What holds of a cut over the run `[a, i)` around tag `k`: the run
    /// leads the signal and is longer than the kept silence, or it is at
    /// least the minimum interval long and ends at least the minimum slice
    /// length after the previous cut; and the tag lies in it as
    /// `cut_fits_run` says.
    pub open spec fn cut_law(self, lv: Seq<u64>, t: Seq<(int, int)>, k: int, a: int, i: int) -> bool {
        &&& (a == 0 && i > self.spec_max_sil_kept_hops()) || (i - a
            >= self.spec_min_interval_hops() && i - prev_end(t, k) >= self.spec_min_length_hops())
        &&& self.cut_fits_run(lv, t[k], a, i)
    }

    /// What the scan after `n` hops has seen: the open run starts at a run
    /// start, a hop after a closed run is loud, a loud hop follows every
    /// tag, and every tag satisfies the cut law over its run.
    pub open spec fn scan_history(self, lv: Seq<u64>, s: ScanState, n: int) -> bool {
        let (t, ss, inside, clip) = s;
        &&& !inside && n > 0 ==> !self.silent_at(lv, n - 1)
        &&& inside ==> self.run_start(lv, ss)
        &&& forall|k: int| 0 <= k < t.len() ==> self.loud_between(lv, #[trigger] t[k].1, n)
        &&& forall|k: int, a: int, i: int|
            #![trigger self.run_around(lv, t[k], a, i)]
            0 <= k < t.len() && i < n && self.run_around(lv, t[k], a, i) ==> self.cut_law(
                lv,
                t,
                k,
                a,
                i,
            )
    }

    /// Two silent runs ended by loud hops that share a hop are the same run.
    proof fn lemma_run_unique(self, lv: Seq<u64>, a: int, i: int, a2: int, i2: int, x: int)
        requires
            0 <= a <= x < i < lv.len(),
            0 <= a2 <= x < i2 <= lv.len(),
            self.run_start(lv, a),
            self.run_start(lv, a2),
            self.all_silent(lv, a, i),
            self.all_silent(lv, a2, i2),
            !self.silent_at(lv, i),
            i2 < lv.len() ==> !self.silent_at(lv, i2),
        ensures
            a == a2,
            i == i2,
    {
        if a < a2 {
            assert(self.silent_at(lv, a2 - 1));
        }
        if a2 < a {
            assert(self.silent_at(lv, a - 1));
        }
        if i < i2 {
            assert(self.silent_at(lv, i));
        }
        if i2 < i {
            assert(self.silent_at(lv, i2));
        }
    }

    /// The cut the scan makes over the run `[ss, i)` fits the run.
    proof fn lemma_cut_fits(self, lv: Seq<u64>, ss: int, i: int)
        requires
            self.usable(),
            0 <= ss < i < lv.len(),
        ensures
            self.cut_fits_run(lv, self.cut(lv, ss, i).0, ss, i),
    {
        let kept = self.spec_max_sil_kept_hops();
        let tag = self.cut(lv, ss, i).0;
        if i - ss <= kept {
            lemma_first_min_at(lv, ss, i + 1, 0);
            let pos = argmin_offset(lv, ss, i + 1) + ss;
            assert(first_min_at(lv, ss, i + 1, pos));
            assert(tag == if ss == 0 { (0, pos) } else { (pos, pos) });
            assert(self.cut_fits_run(lv, tag, ss, i));
        } else if i - ss <= kept * 2 {
            assert forall|p: int, pl: int, pr: int|
                #![trigger first_min_at(lv, i - kept, ss + kept + 1, p), first_min_at(lv, ss, ss + kept + 1, pl), first_min_at(lv, i - kept, i + 1, pr)]
                first_min_at(lv, i - kept, ss + kept + 1, p) && first_min_at(
                    lv,
                    ss,
                    ss + kept + 1,
                    pl,
                ) && first_min_at(lv, i - kept, i + 1, pr) implies tag == if ss == 0 {
                (0, pr)
            } else {
                (min(pl, p), max(pr, p))
            } by {
                lemma_first_min_at(lv, i - kept, ss + kept + 1, p);
                lemma_first_min_at(lv, ss, ss + kept + 1, pl);
                lemma_first_min_at(lv, i - kept, i + 1, pr);
            }
        } else {
            lemma_first_min_at(lv, i - kept, i + 1, 0);
            lemma_first_min_at(lv, ss, ss + kept + 1, 0);
            let pos_l = argmin_offset(lv, ss, ss + kept + 1) + ss;
            let pos_r = argmin_offset(lv, i - kept, i + 1) + i - kept;
            assert(first_min_at(lv, i - kept, i + 1, pos_r));
            assert(tag == if ss == 0 { (0, pos_r) } else { (pos_l, pos_r) });
            assert(first_min_at(lv, ss, ss + kept + 1, pos_l));
            assert(self.cut_fits_run(lv, tag, ss, i));
        }
    }

    /// One step keeps the scan history.
    proof fn lemma_history_step(self, lv: Seq<u64>, s: ScanState, i: int)
        requires
            self.usable(),
            0 <= i < lv.len(),
            self.scan_invariant(lv, s, i),
            self.scan_history(lv, s, i),
        ensures
            self.scan_history(lv, self.scan_step(lv, s, i), i + 1),
    {
        reveal(AudioSlicer::scan_step);
        let (t, ss, inside, clip) = s;
        let s2 = self.scan_step(lv, s, i);
        let t2 = s2.0;
        // a tag of the scan so far cannot have a run ended by hop i
        assert forall|k: int, a: int, i2: int|
            0 <= k < t.len() && i2 == i && self.run_around(lv, t[k], a, i2) implies false by {
            assert(self.loud_between(lv, t[k].1, i));
            let j = choose|j: int| t[k].1 < j < i && !#[trigger] self.silent_at(lv, j);
            assert(self.silent_at(lv, j));
        }
        if t2.len() == t.len() {
            assert(t2 == t);
            assert forall|k: int| 0 <= k < t2.len() implies self.loud_between(
                lv,
                #[trigger] t2[k].1,
                i + 1,
            ) by {
                assert(self.loud_between(lv, t[k].1, i));
                let j = choose|j: int| t[k].1 < j < i && !#[trigger] self.silent_at(lv, j);
                assert(t[k].1 < j < i + 1 && !self.silent_at(lv, j));
            }
            assert forall|k: int, a: int, i2: int|
                0 <= k < t2.len() && i2 < i + 1 && self.run_around(lv, t2[k], a, i2) implies self.cut_law(
                lv,
                t2,
                k,
                a,
                i2,
            ) by {
                if i2 == i {
                    assert(false);
                }
            }
            if self.silent_at(lv, i) && !inside {
                assert(self.run_start(lv, i));
            }
        } else {
            // a cut over the open run [ss, i)
            let tag = self.cut(lv, ss, i).0;
            assert(!self.silent_at(lv, i) && inside);
            assert(self.all_silent(lv, ss, i));
            self.lemma_cut(lv, ss, i);
            self.lemma_cut_fits(lv, ss, i);
            assert(t2 == t.push(tag));
            assert(prev_end(t2, t.len() as int) == clip);
            assert forall|k: int| 0 <= k < t2.len() implies self.loud_between(
                lv,
                #[trigger] t2[k].1,
                i + 1,
            ) by {
                if k < t.len() {
                    assert(t2[k] == t[k]);
                    assert(self.loud_between(lv, t[k].1, i));
                    let j = choose|j: int| t[k].1 < j < i && !#[trigger] self.silent_at(lv, j);
                    assert(t[k].1 < j < i + 1 && !self.silent_at(lv, j));
                } else {
                    assert(t2[k].1 < i && !self.silent_at(lv, i));
                }
            }
            assert forall|k: int, a: int, i2: int|
                0 <= k < t2.len() && i2 < i + 1 && self.run_around(lv, t2[k], a, i2) implies self.cut_law(
                lv,
                t2,
                k,
                a,
                i2,
            ) by {
                if k < t.len() {
                    assert(t2[k] == t[k]);
                    assert(prev_end(t2, k) == prev_end(t, k));
                    if i2 == i {
                        assert(false);
                    } else {
                        assert(self.cut_law(lv, t, k, a, i2));
                    }
                } else {
                    assert(t2[k] == tag);
                    self.lemma_run_unique(lv, ss, i, a, i2, tag.0);
                }
            }
        }
    }

    /// The scan history holds after every prefix of the levels.
    proof fn lemma_history(self, lv: Seq<u64>, n: int)
        requires
            self.usable(),
            0 <= n <= lv.len(),
        ensures
            self.scan_history(lv, self.scan(lv, n), n),
        decreases n,
    {
        if n > 0 {
            self.lemma_history(lv, n - 1);
            self.lemma_scan(lv, n - 1);
            self.lemma_history_step(lv, self.scan(lv, n - 1), n - 1);
        }
    }

    /// Every tag of the level sequence satisfies the cut law over the silent
    /// run around it.
    proof fn lemma_tags_history(self, lv: Seq<u64>, k: int, a: int, i: int)
        requires
            self.usable(),
            0 <= k < self.silence_tags(lv).len(),
            self.run_around(lv, self.silence_tags(lv)[k], a, i),
        ensures
            self.cut_law(lv, self.silence_tags(lv), k, a, i),
    {
        let n = lv.len() as int;
        self.lemma_scan(lv, n);
        self.lemma_history(lv, n);
        let (t, ss, inside, clip) = self.scan(lv, n);
        let t2 = self.silence_tags(lv);
        if t2.len() > t.len() {
            assert(t2 == t.push(t2.last()));
            if k < t.len() {
                assert(t2[k] == t[k]);
                assert(prev_end(t2, k) == prev_end(t, k));
                assert(self.run_around(lv, t[k], a, i));
            } else {
                assert(t2[k].1 == n + 1);
            }
        } else {
            assert(t2 == t);
            assert(self.run_around(lv, t[k], a, i));
        }
    }

    /// The cut law: for every tag and the whole silent run `[a, i)` around
    /// it (ended by the loud hop `i`), a run after the start of the signal
    /// is at least the minimum interval long and ends at least the minimum
    /// slice length after the previous cut, and the tag lies in the run as
    /// `cut_fits_run` says, at first minima of the levels.
    pub proof fn lemma_cut_law(self, lv: Seq<u64>, k: int, a: int, i: int)
        requires
            self.usable(),
            0 <= k < self.silence_tags(lv).len(),
            self.run_around(lv, self.silence_tags(lv)[k], a, i),
        ensures
            self.cut_law(lv, self.silence_tags(lv), k, a, i),
    {
        self.lemma_tags_history(lv, k, a, i);
    }

    /// A cut between two slices waits for the minimum slice length: the
    /// loud hop that ends the silent run of a tag not at the start of the
    /// signal lies at least `min_length_hops` after the end of the previous
    /// tag (or hop 0), and the run is at least `min_interval_hops` long.
    pub proof fn lemma_cuts_wait_for_min_length(self, lv: Seq<u64>, k: int, a: int, i: int)
        requires
            self.usable(),
            0 <= k < self.silence_tags(lv).len(),
            self.run_around(lv, self.silence_tags(lv)[k], a, i),
            a > 0,
        ensures
            i - prev_end(self.silence_tags(lv), k) >= self.spec_min_length_hops(),
            i - a >= self.spec_min_interval_hops(),
    {
        self.lemma_tags_history(lv, k, a, i);
    }

    /// A pause no longer than the kept silence is cut once, at its quietest
    /// hop: the tag of a silent run `[a, i)` after the start with
    /// `i - a <= max_sil_kept_hops` is a single hop, the first minimum of the
    /// levels over `[a, i]`, so the two slices meet there.
    pub proof fn lemma_short_pause_cut_at_quietest(self, lv: Seq<u64>, k: int, a: int, i: int)
        requires
            self.usable(),
            0 <= k < self.silence_tags(lv).len(),
            self.run_around(lv, self.silence_tags(lv)[k], a, i),
            a > 0,
            i - a <= self.spec_max_sil_kept_hops(),
        ensures
            self.silence_tags(lv)[k].0 == self.silence_tags(lv)[k].1,
            first_min_at(lv, a, i + 1, self.silence_tags(lv)[k].0),
    {
        self.lemma_tags_history(lv, k, a, i);
    }

    /// Trailing silence keeps up to `max_sil_kept_hops` hops: a tag that runs
    /// past the levels lies in a trailing silent run `[a, n)` at least the
    /// minimum interval long, and starts at the first minimum of the levels
    /// over `[a, min(n - 1, a + max_sil_kept_hops)]`.
    pub proof fn lemma_trailing_cut_at_quietest(self, lv: Seq<u64>, a: int)
        requires
            self.usable(),
            self.silence_tags(lv).len() > 0,
            self.silence_tags(lv).last().1 == lv.len() + 1,
            0 <= a <= self.silence_tags(lv).last().0,
            self.run_start(lv, a),
            self.all_silent(lv, a, lv.len() as int),
        ensures
            lv.len() - a >= self.spec_min_interval_hops(),
            first_min_at(
                lv,
                a,
                min(lv.len() - 1, a + self.spec_max_sil_kept_hops()) + 1,
                self.silence_tags(lv).last().0,
            ),
    {
        let n = lv.len() as int;
        self.lemma_scan(lv, n);
        self.lemma_history(lv, n);
        self.lemma_silence_tags(lv);
        let (t, ss, inside, clip) = self.scan(lv, n);
        let t2 = self.silence_tags(lv);
        if t2.len() == t.len() {
            assert(t2 == t);
            assert(t[t.len() - 1] == t.last());
            assert(t[t.len() - 1].1 < n - 1);
        }
        assert(inside && n - ss >= self.spec_min_interval_hops());
        let silence_end = min(n - 1, ss + self.spec_max_sil_kept_hops());
        lemma_first_min_at(lv, ss, silence_end + 1, 0);
        let pos = t2.last().0;
        assert(pos == argmin_offset(lv, ss, silence_end + 1) + ss);
        assert(ss <= pos < n);
        if a < ss {
            assert(self.silent_at(lv, ss - 1));
        }
        if ss < a {
            assert(self.silent_at(lv, a - 1));
        }
    }

    /// A signal no longer than the minimum slice length is one slice,
    /// whatever its levels: when `frames <= min_length_hops * hop`, the
    /// slices are `[(0, frames)]`.
    pub proof fn lemma_short_signal_whole(self, frames: int, lv: Seq<u64>)
        requires
            self.usable(),
            0 <= frames <= self.spec_min_length_hops() * self.spec_hop_size_samples(),
        ensures
            self.slice_ranges(frames, lv) == seq![(0int, frames)],
    {
        let hop = self.spec_hop_size_samples();
        let ml = self.spec_min_length_hops();
        assert((frames + hop - 1) / hop <= ml) by (nonlinear_arith)
            requires 0 <= frames <= ml * hop, hop > 0;
    }

    /// `[a, i)` is a whole silent run of at least one hop, ended by the loud
    /// hop `i`.
    pub open spec fn closed_run(self, lv: Seq<u64>, a: int, i: int) -> bool {
        &&& 0 <= a < i < lv.len()
        &&& self.run_start(lv, a)
        &&& self.all_silent(lv, a, i)
        &&& !self.silent_at(lv, i)
    }

    /// A cut is due in the silent run `[a, i)` given the tags `t`: the run
    /// leads the signal and is longer than the kept silence, or it is at
    /// least the minimum interval long and ends at least the minimum slice
    /// length after the end of the last tag before it.
    pub open spec fn cut_due(self, t: Seq<(int, int)>, a: int, i: int) -> bool {
        ||| a == 0 && i > self.spec_max_sil_kept_hops()
        ||| i - a >= self.spec_min_interval_hops() && i - end_before(t, a, t.len() as int)
            >= self.spec_min_length_hops()
    }

    /// Some tag lies in `[a, i)`.
    pub open spec fn tag_within(self, t: Seq<(int, int)>, a: int, i: int) -> bool {
        exists|k: int| 0 <= k < t.len() && a <= #[trigger] t[k].0 && t[k].1 < i
    }

    /// The scan after `n` hops has cut every closed run in which a cut was
    /// due.
    pub open spec fn scan_complete(self, lv: Seq<u64>, s: ScanState, n: int) -> bool {
        forall|a: int, i: int|
            #![trigger self.closed_run(lv, a, i)]
            i < n && self.closed_run(lv, a, i) && self.cut_due(s.0, a, i) ==> self.tag_within(
                s.0,
                a,
                i,
            )
    }

    /// One step keeps the scan complete.
    proof fn lemma_complete_step(self, lv: Seq<u64>, s: ScanState, i: int)
        requires
            self.usable(),
            0 <= i < lv.len(),
            self.scan_invariant(lv, s, i),
            self.scan_history(lv, s, i),
            self.scan_complete(lv, s, i),
        ensures
            self.scan_complete(lv, self.scan_step(lv, s, i), i + 1),
    {
        reveal(AudioSlicer::scan_step);
        let (t, ss, inside, clip) = s;
        let s2 = self.scan_step(lv, s, i);
        let t2 = s2.0;
        if t.len() > 0 {
            assert(t[t.len() - 1] == t.last());
        }
        if t2.len() > t.len() {
            let tag = self.cut(lv, ss, i).0;
            assert(inside && !self.silent_at(lv, i));
            assert(self.all_silent(lv, ss, i));
            self.lemma_cut(lv, ss, i);
            assert(t2 == t.push(tag));
            assert forall|a: int, i2: int|
                i2 < i + 1 && self.closed_run(lv, a, i2) && self.cut_due(t2, a, i2) implies self.tag_within(
                t2,
                a,
                i2,
            ) by {
                if i2 == i {
                    self.lemma_run_unique(lv, a, i2, ss, i, i - 1);
                    assert(t2[t.len() as int] == tag);
                } else {
                    // the open run started after this closed one
                    if ss <= i2 {
                        assert(self.silent_at(lv, i2));
                    }
                    lemma_end_before_push(t, tag, a);
                    assert(self.cut_due(t, a, i2));
                    assert(self.tag_within(t, a, i2));
                    let k = choose|k: int| 0 <= k < t.len() && a <= #[trigger] t[k].0 && t[k].1 < i2;
                    assert(t2[k] == t[k]);
                }
            }
        } else {
            assert(t2 == t);
            assert forall|a: int, i2: int|
                i2 < i + 1 && self.closed_run(lv, a, i2) && self.cut_due(t2, a, i2) implies self.tag_within(
                t2,
                a,
                i2,
            ) by {
                if i2 == i {
                    assert(self.silent_at(lv, i - 1));
                    assert(inside);
                    self.lemma_run_unique(lv, a, i2, ss, i, i - 1);
                    lemma_end_before_last(t, ss);
                }
            }
        }
    }

    /// The scan is complete after every prefix of the levels.
    proof fn lemma_complete(self, lv: Seq<u64>, n: int)
        requires
            self.usable(),
            0 <= n <= lv.len(),
        ensures
            self.scan_complete(lv, self.scan(lv, n), n),
        decreases n,
    {
        if n > 0 {
            self.lemma_complete(lv, n - 1);
            self.lemma_scan(lv, n - 1);
            self.lemma_history(lv, n - 1);
            self.lemma_complete_step(lv, self.scan(lv, n - 1), n - 1);
        }
    }

    /// Every silent run in which a cut is due is cut: a silent run `[a, i)`
    /// ended by a loud hop that leads the signal and is longer than the kept
    /// silence, or is at least the minimum interval long and ends at least
    /// the minimum slice length after the last tag before it, holds a tag.
    pub proof fn lemma_cut_when_due(self, lv: Seq<u64>, a: int, i: int)
        requires
            self.usable(),
            self.closed_run(lv, a, i),
            self.cut_due(self.silence_tags(lv), a, i),
        ensures
            self.tag_within(self.silence_tags(lv), a, i),
    {
        let n = lv.len() as int;
        self.lemma_complete(lv, n);
        let (t, ss, inside, clip) = self.scan(lv, n);
        let t2 = self.silence_tags(lv);
        if t2.len() > t.len() {
            assert(t2 == t.push(t2.last()));
            lemma_end_before_push(t, t2.last(), a);
            assert(self.tag_within(t, a, i));
            let k = choose|k: int| 0 <= k < t.len() && a <= #[trigger] t[k].0 && t[k].1 < i;
            assert(t2[k] == t[k]);
        } else {
            assert(t2 == t);
        }
    }

    /// Trailing silence at least the minimum interval long is cut: when the
    /// levels end in a silent run `[a, n)` with `n - a >= min_interval_hops`,
    /// the last tag starts in it and runs past the levels.
    pub proof fn lemma_trailing_cut_when_due(self, lv: Seq<u64>, a: int)
        requires
            self.usable(),
            0 <= a < lv.len(),
            self.run_start(lv, a),
            self.all_silent(lv, a, lv.len() as int),
            lv.len() - a >= self.spec_min_interval_hops(),
        ensures
            self.silence_tags(lv).len() > 0,
            self.silence_tags(lv).last().1 == lv.len() + 1,
            self.silence_tags(lv).last().0 >= a,
    {
        let n = lv.len() as int;
        self.lemma_scan(lv, n);
        self.lemma_history(lv, n);
        let (t, ss, inside, clip) = self.scan(lv, n);
        assert(self.silent_at(lv, n - 1));
        assert(inside);
        if a < ss {
            assert(self.silent_at(lv, ss - 1));
        }
        if ss < a {
            assert(self.silent_at(lv, a - 1));
        }
        let silence_end = min(n - 1, ss + self.spec_max_sil_kept_hops());
        lemma_first_min_at(lv, ss, silence_end + 1, 0);
    }

    /// A signal longer than the minimum slice length keeps exactly the
    /// frames outside the silence tags: a frame lies in a slice if and only
    /// if it lies in no tag's span.
    pub proof fn lemma_slices_keep_all_but_tags(self, frames: int, lv: Seq<u64>)
        requires
            self.usable(),
            frames > self.spec_min_length_hops() * self.spec_hop_size_samples(),
            lv.len() == frames / self.spec_hop_size_samples() + 1,
        ensures
            forall|x: int|
                0 <= x < frames ==> (in_some_range(self.slice_ranges(frames, lv), x)
                    <==> !in_tag_span(self.silence_tags(lv), self.spec_hop_size_samples(), x)),
    {
        let hop = self.spec_hop_size_samples();
        let ml = self.spec_min_length_hops();
        assert((frames + hop - 1) / hop > ml) by (nonlinear_arith)
            requires frames > ml * hop, hop > 0;
        self.lemma_silence_tags(lv);
        lemma_chunk_complement(self.silence_tags(lv), frames, lv.len() as int, hop);
    }

    /// In a signal longer than the minimum slice length, slices start at
    /// frame 0 or where a silence tag ends, and end at the end of the signal
    /// or where a silence tag starts: a slice is never split elsewhere.
    pub proof fn lemma_slices_split_only_at_tags(self, frames: int, lv: Seq<u64>)
        requires
            self.usable(),
            frames > self.spec_min_length_hops() * self.spec_hop_size_samples(),
        ensures
            forall|q: int|
                0 <= q < self.slice_ranges(frames, lv).len() ==> {
                    let r = #[trigger] self.slice_ranges(frames, lv)[q];
                    let t = self.silence_tags(lv);
                    let hop = self.spec_hop_size_samples();
                    &&& r.0 == 0 || tag_end_at(t, hop, r.0)
                    &&& r.1 == frames || tag_start_at(t, hop, r.1)
                },
    {
        let hop = self.spec_hop_size_samples();
        let ml = self.spec_min_length_hops();
        assert((frames + hop - 1) / hop > ml) by (nonlinear_arith)
            requires frames > ml * hop, hop > 0;
        lemma_chunk_edges(self.silence_tags(lv), frames, lv.len() as int, hop);
    }

}

} // verus!
